use cidrcalc::address::Address;

fn v4(a: u8, b: u8, c: u8, d: u8) -> Address {
    Address::V4(u32::from_be_bytes([a, b, c, d]))
}

fn v6(groups: [u16; 8]) -> Address {
    let mut value: u128 = 0;
    for g in groups {
        value = (value << 16) | g as u128;
    }
    Address::V6(value)
}

#[test]
fn parse_dotted_decimal() {
    assert_eq!(Address::parse("0.0.0.0"), Some(Address::V4(0)));
    assert_eq!(Address::parse("255.255.255.255"), Some(Address::V4(u32::MAX)));
    assert_eq!(Address::parse("192.168.0.1"), Some(Address::V4(0xc0a8_0001)));
    assert_eq!(Address::parse("10.0.100.9"), Some(v4(10, 0, 100, 9)));
    assert_eq!(Address::parse("1.2.3.4"), Some(Address::V4(0x0102_0304)));
}

#[test]
fn reject_malformed_dotted_decimal() {
    for text in [
        "", "1.2.3", "1.2.3.4.5", "01.2.3.4", "1.2.3.04", "00.0.0.0", "1.2.3.256", "999.1.1.1",
        "1..2.3", "1.2.3.", ".1.2.3", "1.2.3.4 ", " 1.2.3.4", "1.2.3.-4", "+1.2.3.4", "1.2.3.0004",
        "1.2.3.1000", "a.b.c.d", "1.2.3.4/", "1.2.3.4:5", "192.168ff", "1,2,3,4",
    ] {
        assert_eq!(Address::parse(text), None, "{:?}", text);
    }
}

#[test]
fn parse_colon_hexadecimal() {
    assert_eq!(Address::parse("::"), Some(Address::V6(0)));
    assert_eq!(Address::parse("::1"), Some(Address::V6(1)));
    assert_eq!(Address::parse("::f"), Some(Address::V6(15)));
    assert_eq!(Address::parse("1::"), Some(Address::V6(1 << 112)));
    assert_eq!(Address::parse("0001::"), Some(Address::V6(1 << 112)));
    assert_eq!(Address::parse("1:2:3:4:5:6:7:8"), Some(v6([1, 2, 3, 4, 5, 6, 7, 8])));
    assert_eq!(Address::parse("1:2:3:4:5:6:7::"), Some(v6([1, 2, 3, 4, 5, 6, 7, 0])));
    assert_eq!(Address::parse("::2:3:4:5:6:7:8"), Some(v6([0, 2, 3, 4, 5, 6, 7, 8])));
    assert_eq!(Address::parse("1:2:3::4:5:6:7"), Some(v6([1, 2, 3, 0, 4, 5, 6, 7])));
    assert_eq!(Address::parse("1::8"), Some(v6([1, 0, 0, 0, 0, 0, 0, 8])));
    assert_eq!(Address::parse("0:0:0:0:0:0:0:0"), Some(Address::V6(0)));
    assert_eq!(Address::parse("0::0"), Some(Address::V6(0)));
    assert_eq!(
        Address::parse("2001:db8::7"),
        Some(Address::V6(0x2001_0db8_0000_0000_0000_0000_0000_0007))
    );
    assert_eq!(
        Address::parse("2001:DB8:0:0:8:800:200C:417A"),
        Some(v6([0x2001, 0xdb8, 0, 0, 8, 0x800, 0x200c, 0x417a]))
    );
    assert_eq!(
        Address::parse("FFFF::AbCd"),
        Some(v6([0xffff, 0, 0, 0, 0, 0, 0, 0xabcd]))
    );
    assert_eq!(
        Address::parse("ffff:ffff:ffff:ffff:ffff:ffff:ffff:fffe"),
        Some(Address::V6(u128::MAX - 1))
    );
}

#[test]
fn parse_embedded_dotted_decimal() {
    assert_eq!(Address::parse("::ffff:1.2.3.4"), Some(Address::V6(0xffff_0102_0304)));
    assert_eq!(Address::parse("::1.2.3.4"), Some(Address::V6(0x0102_0304)));
    assert_eq!(Address::parse("::15.255.255.255"), Some(Address::V6(0x0fff_ffff)));
    assert_eq!(
        Address::parse("1:2:3:4:5:6:1.2.3.4"),
        Some(v6([1, 2, 3, 4, 5, 6, 0x0102, 0x0304]))
    );
    assert_eq!(
        Address::parse("1:2:3:4:5::1.2.3.4"),
        Some(v6([1, 2, 3, 4, 5, 0, 0x0102, 0x0304]))
    );
    assert_eq!(
        Address::parse("1:2:3:4:5:6:7.8.9.10"),
        Some(v6([1, 2, 3, 4, 5, 6, 0x0708, 0x090a]))
    );
    assert_eq!(
        Address::parse("1::255.255.255.255"),
        Some(v6([1, 0, 0, 0, 0, 0, 0xffff, 0xffff]))
    );
}

#[test]
fn reject_malformed_colon_hexadecimal() {
    for text in [
        ":", ":::", "::::", "1:2:3:4:5:6:7", "1:2:3:4:5:6:7:8:9", "1:2:3:4:5:6:7:8::",
        "::1:2:3:4:5:6:7:8", "1:2:3:4:5:6:7::8", "1:2:3::4:5:6:7:8", "1::2::3", "12345::",
        "::12345", "00001::", "::g", ":1:2:3:4:5:6:7", "1:2:3:4:5:6:7:", "1:2::3:", ":1::2",
        "::1:", "fe80::1%eth0", "::1 ", " ::1", "::-1", "::+1", "1::0x1",
        "1:2:3:4:5:6:7:1.2.3.4", "1:2:3:4:5:1.2.3.4", "1:2:3:4:5:6::1.2.3.4", "1.2.3.4::",
        "1:1.2.3.4::", "::1.2.3.4:5", "::1.2.3", "::01.2.3.4", "::1.2.3.256",
        "::ffff:1.2.3.4.5", "1:2:3:4:5:6:7:8.9.10.11", "7.8.9.10:1:2:3:4:5:6",
    ] {
        assert_eq!(Address::parse(text), None, "{:?}", text);
    }
}

#[test]
fn text_of_v4() {
    assert_eq!(Address::V4(0).to_text(), "0.0.0.0");
    assert_eq!(Address::V4(u32::MAX).to_text(), "255.255.255.255");
    assert_eq!(v4(192, 168, 0, 1).to_text(), "192.168.0.1");
    assert_eq!(v4(10, 0, 100, 9).to_text(), "10.0.100.9");
    assert_eq!(v4(1, 20, 199, 200).to_text(), "1.20.199.200");
}

#[test]
fn text_of_v6() {
    assert_eq!(Address::V6(0).to_text(), "::");
    assert_eq!(Address::V6(1).to_text(), "::1");
    assert_eq!(Address::V6(0xffff).to_text(), "::ffff");
    assert_eq!(Address::V6(0x0fff_ffff).to_text(), "::fff:ffff");
    assert_eq!(Address::V6(u128::MAX).to_text(), "ffff:ffff:ffff:ffff:ffff:ffff:ffff:ffff");
    assert_eq!(
        Address::V6(u128::MAX << 28).to_text(),
        "ffff:ffff:ffff:ffff:ffff:ffff:f000:0"
    );
    assert_eq!(v6([0x2001, 0xdb8, 0, 0, 0, 0, 0, 7]).to_text(), "2001:db8::7");
    assert_eq!(v6([1, 2, 3, 4, 5, 6, 7, 8]).to_text(), "1:2:3:4:5:6:7:8");
    assert_eq!(v6([0x1000, 0x0100, 0x0010, 0x0001, 0xabcd, 0xa, 0xb0, 0xc00]).to_text(),
        "1000:100:10:1:abcd:a:b0:c00");
}

#[test]
fn text_of_v6_replaces_the_longest_zero_run() {
    // A single zero group stays.
    assert_eq!(v6([1, 0, 2, 3, 4, 5, 6, 7]).to_text(), "1:0:2:3:4:5:6:7");
    // The longer run goes.
    assert_eq!(v6([1, 0, 0, 2, 0, 0, 0, 3]).to_text(), "1:0:0:2::3");
    assert_eq!(v6([1, 0, 0, 0, 2, 0, 0, 3]).to_text(), "1::2:0:0:3");
    // Of two runs as long, the first goes.
    assert_eq!(v6([1, 0, 0, 2, 0, 0, 3, 4]).to_text(), "1::2:0:0:3:4");
    // Runs at either end.
    assert_eq!(v6([0, 0, 3, 4, 5, 6, 7, 8]).to_text(), "::3:4:5:6:7:8");
    assert_eq!(v6([1, 2, 3, 4, 5, 6, 0, 0]).to_text(), "1:2:3:4:5:6::");
    assert_eq!(v6([1, 0, 0, 0, 0, 0, 0, 0]).to_text(), "1::");
    assert_eq!(v6([0, 0, 0, 0, 0, 0, 1, 0]).to_text(), "::1:0");
}

#[test]
fn text_of_v4_mapped() {
    assert_eq!(Address::V6(0xffff_0102_0304).to_text(), "::ffff:1.2.3.4");
    assert_eq!(Address::V6(0xffff_0000_0000).to_text(), "::ffff:0.0.0.0");
    assert_eq!(Address::V6(0xffff_ffff_ffff).to_text(), "::ffff:255.255.255.255");
    // One more set bit above, and it is mapped no longer.
    assert_eq!(Address::V6((1 << 48) | 0xffff_0102_0304).to_text(), "::1:ffff:102:304");
}

#[test]
fn text_reads_back() {
    let mut x: u128 = 0x2545_f491_4f6c_dd1d_9e37_79b9_7f4a_7c15;
    for _ in 0..2000 {
        x ^= x << 13;
        x ^= x >> 7;
        x ^= x << 17;
        // Clear some groups, so that runs of zero groups occur.
        let mut y = x;
        let mut pick = x >> 64;
        for g in 0..8 {
            if pick & 1 == 1 {
                y &= !(0xffffu128 << (16 * g));
            }
            pick >>= 1;
        }
        for a in [
            Address::V6(x),
            Address::V6(y),
            Address::V6((0xffffu128 << 32) | (x as u32 as u128)),
            Address::V6(x as u32 as u128),
            Address::V4(x as u32),
            Address::V4(y as u32),
        ] {
            assert_eq!(Address::parse(&a.to_text()), Some(a), "{}", a.to_text());
        }
    }
}
