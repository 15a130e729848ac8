use cidrcalc::address::{Address, Family};
use cidrcalc::cidr::{CIDRNotation, FormatError, HostRange, ParseError};
use std::convert::TryInto;

fn v4(a: u8, b: u8, c: u8, d: u8) -> Address {
    Address::V4(u32::from_be_bytes([a, b, c, d]))
}

fn v6(groups: [u16; 8]) -> Address {
    let mut value: u128 = 0;
    for g in groups {
        value = (value << 16) | g as u128;
    }
    Address::V6(value)
}

fn parse(text: &str) -> Result<CIDRNotation, ParseError> {
    CIDRNotation::try_from(String::from(text))
}

#[test]
fn cidr_from_struct() {
    let cidr = CIDRNotation::new(v4(192, 168, 0, 1), v4(255, 255, 0, 0)).unwrap();
    assert_eq!(
        cidr.host_range(),
        HostRange { first: v4(192, 168, 0, 0), last: v4(192, 168, 255, 255) }
    );
    let notation: String = cidr.into();
    assert_eq!(notation, "192.168.0.1/16");
}

#[test]
fn parse_cidr_notation() {
    let input = String::from("192.168.0.1/24");
    let cidr: CIDRNotation = input.try_into().unwrap();
    assert_eq!(cidr.addr(), v4(192, 168, 0, 0));
    assert_eq!(cidr.net_mask(), v4(255, 255, 255, 0));
    assert_eq!(
        cidr.host_range(),
        HostRange { first: v4(192, 168, 0, 0), last: v4(192, 168, 0, 255) }
    );

    let input = String::from("::1/128");
    let cidr: CIDRNotation = input.try_into().unwrap();
    assert_eq!(cidr.addr(), v6([0, 0, 0, 0, 0, 0, 0, 1]));
    assert_eq!(
        cidr.net_mask(),
        v6([u16::MAX, u16::MAX, u16::MAX, u16::MAX, u16::MAX, u16::MAX, u16::MAX, u16::MAX])
    );
}

#[test]
fn parse_v4_scenario_texts() {
    let cidr = parse("192.168.0.1/24").unwrap();
    assert_eq!(cidr.addr().to_text(), "192.168.0.0");
    assert_eq!(cidr.net_mask().to_text(), "255.255.255.0");
    assert_eq!(cidr.host_range().first.to_text(), "192.168.0.0");
    assert_eq!(cidr.host_range().last.to_text(), "192.168.0.255");
}

#[test]
fn parse_v6_scenario() {
    let cidr = parse("::f/100").unwrap();
    assert_eq!(cidr.net_mask().to_text(), "ffff:ffff:ffff:ffff:ffff:ffff:f000:0");
    assert_eq!(cidr.addr(), Address::V6(0));
    assert_eq!(cidr.addr().to_text(), "::");
    assert_eq!(cidr.host_range().first, Address::V6(0));
    assert_eq!(cidr.host_range().last, Address::V6(0x0fff_ffff));
    assert_eq!(cidr.host_range().last, Address::parse("::15.255.255.255").unwrap());
    assert_eq!(cidr.host_range().last.to_text(), "::fff:ffff");
}

#[test]
fn compose_v4_scenario() {
    let cidr = CIDRNotation::new(v4(192, 168, 0, 1), v4(255, 255, 128, 0)).unwrap();
    let text: String = cidr.into();
    assert_eq!(text, "192.168.0.1/17");
}

#[test]
fn compose_v6_scenario() {
    let addr = Address::parse("::1").unwrap();
    let mask = Address::parse("ffff:ffff:ffff:ffff:ffff:ffff:ffff:fffe").unwrap();
    assert_eq!(addr, Address::V6(1));
    assert_eq!(mask, Address::V6(u128::MAX - 1));
    let text: String = CIDRNotation::new(addr, mask).unwrap().into();
    assert_eq!(text, "::1/127");
}

#[test]
fn compose_keeps_address_unmasked() {
    let cidr = CIDRNotation::new(v4(10, 1, 2, 3), v4(255, 0, 0, 0)).unwrap();
    assert_eq!(cidr.addr(), v4(10, 1, 2, 3));
    assert_eq!(cidr.net_mask(), v4(255, 0, 0, 0));
}

#[test]
fn compose_family_mismatch() {
    let r = CIDRNotation::new(v4(192, 168, 0, 1), Address::V6(u128::MAX));
    assert_eq!(r.unwrap_err(), FormatError::FamilyMismatch);
    let r = CIDRNotation::get_host_range(Address::V6(1), v4(255, 0, 0, 0));
    assert_eq!(r.unwrap_err(), FormatError::FamilyMismatch);
    assert_eq!(FormatError::FamilyMismatch.message(), "Address and mask has different types");
}

#[test]
fn missing_delimiter() {
    assert_eq!(parse("192.168.0.1").unwrap_err(), ParseError::MissingPrefixDelimiter);
    assert_eq!(parse("").unwrap_err(), ParseError::MissingPrefixDelimiter);
    assert_eq!(
        ParseError::MissingPrefixDelimiter.message(),
        "Could not parse CIDR notation"
    );
}

#[test]
fn invalid_address() {
    assert_eq!(parse("192.168.0/24").unwrap_err(), ParseError::InvalidAddress);
    assert_eq!(parse("192.168.0.256/24").unwrap_err(), ParseError::InvalidAddress);
    assert_eq!(parse("192.168.00.1/24").unwrap_err(), ParseError::InvalidAddress);
    assert_eq!(parse("/24").unwrap_err(), ParseError::InvalidAddress);
    assert_eq!(parse("1::2::3/24").unwrap_err(), ParseError::InvalidAddress);
    assert_eq!(parse("10.0.0.0/8/24").unwrap_err(), ParseError::InvalidAddress);
    assert_eq!(parse("\u{e9}/24").unwrap_err(), ParseError::InvalidAddress);
    assert_eq!(ParseError::InvalidAddress.message(), "invalid IP address syntax");
}

#[test]
fn invalid_prefix_length() {
    assert_eq!(parse("192.168.0.1/0").unwrap_err(), ParseError::InvalidPrefixLength);
    assert_eq!(parse("192.168.0.1/33").unwrap_err(), ParseError::InvalidPrefixLength);
    assert_eq!(parse("::1/129").unwrap_err(), ParseError::InvalidPrefixLength);
    assert_eq!(parse("::1/0").unwrap_err(), ParseError::InvalidPrefixLength);
    assert_eq!(parse("192.168.0.1/").unwrap_err(), ParseError::InvalidPrefixLength);
    assert_eq!(parse("192.168.0.1/abc").unwrap_err(), ParseError::InvalidPrefixLength);
    assert_eq!(parse("192.168.0.1/-1").unwrap_err(), ParseError::InvalidPrefixLength);
    assert_eq!(parse("192.168.0.1/256").unwrap_err(), ParseError::InvalidPrefixLength);
    assert_eq!(parse("192.168.0.1/+").unwrap_err(), ParseError::InvalidPrefixLength);
    assert_eq!(parse("192.168.0.1/2 4").unwrap_err(), ParseError::InvalidPrefixLength);
    assert_eq!(
        ParseError::InvalidPrefixLength.message(),
        "Invalid number of bits in mask"
    );
}

#[test]
fn address_error_comes_before_prefix_error() {
    assert_eq!(parse("nonsense/99").unwrap_err(), ParseError::InvalidAddress);
    assert_eq!(parse("nonsense/x").unwrap_err(), ParseError::InvalidAddress);
}

#[test]
fn prefix_length_forms() {
    assert_eq!(parse("192.168.0.1/024").unwrap().net_mask(), v4(255, 255, 255, 0));
    assert_eq!(parse("192.168.0.1/+24").unwrap().net_mask(), v4(255, 255, 255, 0));
    assert_eq!(parse("::1/000128").unwrap().net_mask(), Address::V6(u128::MAX));
    assert_eq!(parse("::1/33").unwrap().net_mask(), Address::V6(0xffff_ffff_8000_0000 << 64));
}

#[test]
fn boundary_full_length_prefix() {
    let cidr = parse("192.168.0.1/32").unwrap();
    assert_eq!(cidr.net_mask(), v4(255, 255, 255, 255));
    assert_eq!(cidr.addr(), v4(192, 168, 0, 1));
    assert_eq!(
        cidr.host_range(),
        HostRange { first: v4(192, 168, 0, 1), last: v4(192, 168, 0, 1) }
    );
    let cidr = parse("2001:db8::7/128").unwrap();
    let addr = Address::V6(0x2001_0db8_0000_0000_0000_0000_0000_0007);
    assert_eq!(cidr.net_mask(), Address::V6(u128::MAX));
    assert_eq!(cidr.addr(), addr);
    assert_eq!(cidr.host_range(), HostRange { first: addr, last: addr });
}

#[test]
fn boundary_prefix_of_one_bit() {
    let cidr = parse("192.168.0.1/1").unwrap();
    assert_eq!(cidr.net_mask(), v4(128, 0, 0, 0));
    assert_eq!(cidr.addr(), v4(128, 0, 0, 0));
    assert_eq!(
        cidr.host_range(),
        HostRange { first: v4(128, 0, 0, 0), last: v4(255, 255, 255, 255) }
    );
    let cidr = parse("10.0.0.1/1").unwrap();
    assert_eq!(
        cidr.host_range(),
        HostRange { first: v4(0, 0, 0, 0), last: v4(127, 255, 255, 255) }
    );
    let cidr = parse("::1/1").unwrap();
    assert_eq!(cidr.net_mask(), Address::V6(1 << 127));
    assert_eq!(
        cidr.host_range(),
        HostRange { first: Address::V6(0), last: Address::V6(u128::MAX >> 1) }
    );
}

#[test]
fn host_range_of_empty_mask() {
    let r = CIDRNotation::get_host_range(v4(192, 168, 0, 1), v4(0, 0, 0, 0)).unwrap();
    assert_eq!(r, HostRange { first: v4(0, 0, 0, 0), last: v4(255, 255, 255, 255) });
    let r = CIDRNotation::get_host_range(Address::V6(12345), Address::V6(0)).unwrap();
    assert_eq!(r, HostRange { first: Address::V6(0), last: Address::V6(u128::MAX) });
    let text: String = CIDRNotation::new(v4(1, 2, 3, 4), v4(0, 0, 0, 0)).unwrap().into();
    assert_eq!(text, "1.2.3.4/0");
}

#[test]
fn host_range_counts_bits_of_scattered_mask() {
    // 0.0.0.255 has eight set bits, so 24 host bits.
    let r = CIDRNotation::get_host_range(v4(192, 168, 7, 9), v4(0, 0, 0, 255)).unwrap();
    assert_eq!(r, HostRange { first: v4(192, 0, 0, 0), last: v4(192, 255, 255, 255) });
    let text: String = CIDRNotation::new(v4(192, 168, 7, 9), v4(0, 0, 0, 255)).unwrap().into();
    assert_eq!(text, "192.168.7.9/8");
    let text: String = CIDRNotation::new(v4(1, 1, 1, 1), v4(255, 0, 255, 1)).unwrap().into();
    assert_eq!(text, "1.1.1.1/17");
}

#[test]
fn prefix_masks() {
    assert_eq!(Address::prefix_mask(Family::V4, 32), Some(v4(255, 255, 255, 255)));
    assert_eq!(Address::prefix_mask(Family::V4, 1), Some(v4(128, 0, 0, 0)));
    assert_eq!(Address::prefix_mask(Family::V4, 17), Some(v4(255, 255, 128, 0)));
    assert_eq!(Address::prefix_mask(Family::V4, 0), None);
    assert_eq!(Address::prefix_mask(Family::V4, 33), None);
    assert_eq!(Address::prefix_mask(Family::V6, 128), Some(Address::V6(u128::MAX)));
    assert_eq!(Address::prefix_mask(Family::V6, 100), Some(Address::V6(u128::MAX << 28)));
    assert_eq!(Address::prefix_mask(Family::V6, 129), None);
    assert_eq!(Address::prefix_mask(Family::V6, 0), None);
    assert_eq!(Family::V4.width(), 32);
    assert_eq!(Family::V6.width(), 128);
}

#[test]
fn prefix_lengths() {
    assert_eq!(v4(255, 255, 128, 0).prefix_len(), 17);
    assert_eq!(v4(0, 0, 0, 0).prefix_len(), 0);
    assert_eq!(v4(255, 255, 255, 255).prefix_len(), 32);
    assert_eq!(Address::V6(u128::MAX).prefix_len(), 128);
    assert_eq!(Address::V6(u128::MAX - 1).prefix_len(), 127);
    assert_eq!(Address::V6(0).prefix_len(), 0);
    assert_eq!(v4(1, 2, 3, 4).family(), Family::V4);
    assert_eq!(Address::V6(7).family(), Family::V6);
    for p in 1..=32u8 {
        assert_eq!(Address::prefix_mask(Family::V4, p).unwrap().prefix_len(), p);
    }
    for p in 1..=128u8 {
        assert_eq!(Address::prefix_mask(Family::V6, p).unwrap().prefix_len(), p);
    }
}
