use cidrcalc::address::{Address, Family};
use cidrcalc::cidr::{CIDRNotation, HostRange};

fn samples() -> Vec<Address> {
    let mut out = vec![
        Address::V4(0),
        Address::V4(u32::MAX),
        Address::V4(0xc0a8_0001),
        Address::V4(0x8000_0000),
        Address::V4(0x7fff_ffff),
        Address::V6(0),
        Address::V6(u128::MAX),
        Address::V6(1),
        Address::V6(0xffff_0102_0304),
        Address::V6(0x2001_0db8_0000_0000_0000_0000_0000_0007),
    ];
    let mut x: u128 = 0x9e37_79b9_7f4a_7c15_2545_f491_4f6c_dd1d;
    for _ in 0..40 {
        x ^= x << 13;
        x ^= x >> 7;
        x ^= x << 17;
        out.push(Address::V6(x));
        out.push(Address::V4((x >> 40) as u32));
    }
    out
}

fn value(a: Address) -> u128 {
    match a {
        Address::V4(v) => v as u128,
        Address::V6(v) => v,
    }
}

fn and(a: Address, m: Address) -> Address {
    match (a, m) {
        (Address::V4(a), Address::V4(m)) => Address::V4(a & m),
        (Address::V6(a), Address::V6(m)) => Address::V6(a & m),
        _ => panic!("families differ"),
    }
}

#[test]
fn round_trip_through_text() {
    for a in samples() {
        let family = a.family();
        for p in 1..=family.width() {
            let m = Address::prefix_mask(family, p).unwrap();
            let text: String = CIDRNotation::new(a, m).unwrap().into();
            let back = CIDRNotation::try_from(text).unwrap();
            assert_eq!(back.addr(), and(a, m));
            assert_eq!(back.net_mask(), m);
        }
    }
}

#[test]
fn round_trip_fails_for_scattered_mask() {
    let a = Address::V4(0xc0a8_0709);
    let m = Address::V4(0x0000_00ff);
    let text: String = CIDRNotation::new(a, m).unwrap().into();
    assert_eq!(text, "192.168.7.9/8");
    let back = CIDRNotation::try_from(text).unwrap();
    assert_eq!(back.net_mask(), Address::V4(0xff00_0000));
    assert_eq!(back.addr(), Address::V4(0xc000_0000));
}

#[test]
fn masking_is_idempotent() {
    for a in samples() {
        let family = a.family();
        for p in 1..=family.width() {
            let text = format!("{}/{}", a.to_text(), p);
            let once = CIDRNotation::try_from(text).unwrap();
            let again =
                CIDRNotation::try_from(format!("{}/{}", once.addr().to_text(), p)).unwrap();
            assert_eq!(again.addr(), once.addr());
            assert_eq!(again.net_mask(), once.net_mask());
        }
    }
}

#[test]
fn host_range_is_ordered() {
    for a in samples() {
        let family = a.family();
        for m in samples() {
            if m.family() != family {
                continue;
            }
            let r = CIDRNotation::get_host_range(a, m).unwrap();
            assert!(value(r.first) <= value(r.last));
            assert_eq!(r.first == r.last, m.prefix_len() == family.width());
        }
        for p in 1..=family.width() {
            let m = Address::prefix_mask(family, p).unwrap();
            let r = CIDRNotation::get_host_range(a, m).unwrap();
            assert!(value(r.first) <= value(r.last));
            assert_eq!(r.first == r.last, p == family.width());
        }
    }
}

#[test]
fn network_lies_in_host_range() {
    for a in samples() {
        let family = a.family();
        for p in 1..=family.width() {
            let m = Address::prefix_mask(family, p).unwrap();
            let r = CIDRNotation::get_host_range(a, m).unwrap();
            let net = value(and(a, m));
            assert!(value(r.first) <= net && net <= value(r.last));
            let host_bits = (family.width() - p) as u32;
            let low: u128 = if host_bits == 0 { 0 } else { u128::MAX >> (128 - host_bits) };
            assert_eq!((value(r.first) ^ net) & !low, 0);
            assert_eq!((value(r.last) ^ net) & !low, 0);
            assert_eq!(value(r.first), net);
            assert_eq!(value(r.last), net | low);
        }
    }
}

#[test]
fn network_may_leave_host_range_of_scattered_mask() {
    let a = Address::V4(0xff00_0000);
    let m = Address::V4(0x0000_00ff);
    let r = CIDRNotation::get_host_range(a, m).unwrap();
    assert_eq!(r, HostRange { first: Address::V4(0xff00_0000), last: Address::V4(0xffff_ffff) });
    assert_eq!(and(a, m), Address::V4(0));
}

#[test]
fn full_prefix_is_single_host() {
    for a in samples() {
        let family = a.family();
        let m = Address::prefix_mask(family, family.width()).unwrap();
        match family {
            Family::V4 => assert_eq!(m, Address::V4(u32::MAX)),
            Family::V6 => assert_eq!(m, Address::V6(u128::MAX)),
        }
        let c = CIDRNotation::try_from(format!("{}/{}", a.to_text(), family.width())).unwrap();
        assert_eq!(c.addr(), a);
        assert_eq!(c.net_mask(), m);
        assert_eq!(c.host_range(), HostRange { first: a, last: a });
    }
}

#[test]
fn one_bit_prefix_is_half_the_space() {
    for a in samples() {
        let family = a.family();
        let m = Address::prefix_mask(family, 1).unwrap();
        let r = CIDRNotation::get_host_range(a, m).unwrap();
        match family {
            Family::V4 => {
                assert_eq!(m, Address::V4(0x8000_0000));
                assert_eq!(value(r.last) - value(r.first) + 1, 1 << 31);
            },
            Family::V6 => {
                assert_eq!(m, Address::V6(1 << 127));
                assert_eq!(value(r.last) - value(r.first) + 1, 1 << 127);
            },
        }
    }
}
