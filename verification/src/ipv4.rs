//! The dotted-decimal text of an IPv4 address.

use vstd::prelude::*;
use crate::text::{
    is_number, number_text, number_value, parse_number, push_decimal, push_separator, split,
    split_fields,
};

verus! {

/// Whether `s` is the decimal text of one octet: one to three digits, no
/// leading zero before another digit, and a value of at most 255.
pub open spec fn is_octet_text(s: Seq<char>) -> bool {
    &&& s.len() <= 3
    &&& is_number(s, 10)
    &&& (s.len() > 1 ==> s[0] != '0')
    &&& number_value(s, 10) <= 255
}

/// The 32-bit value whose octets are `a`, `b`, `c`, `d`, the first being the
/// most significant.
pub open spec fn pack_octets(a: nat, b: nat, c: nat, d: nat) -> nat {
    ((a * 256 + b) * 256 + c) * 256 + d
}

/// The address that `s` denotes in dotted-decimal notation: four octets
/// separated by dots.
pub open spec fn ipv4_of_text(s: Seq<char>) -> Option<u32> {
    let f = split(s, '.');
    if f.len() == 4 && is_octet_text(f[0]) && is_octet_text(f[1]) && is_octet_text(f[2])
        && is_octet_text(f[3]) {
        Some(
            pack_octets(
                number_value(f[0], 10),
                number_value(f[1], 10),
                number_value(f[2], 10),
                number_value(f[3], 10),
            ) as u32,
        )
    } else {
        None
    }
}

/// The dotted-decimal text of the address `v`: its four octets in decimal,
/// the most significant first.
pub open spec fn ipv4_text(v: u32) -> Seq<char> {
    number_text(v as nat / 0x100_0000, 10) + seq!['.'] + number_text(
        (v as nat / 0x1_0000) % 256,
        10,
    ) + seq!['.'] + number_text((v as nat / 0x100) % 256, 10) + seq!['.'] + number_text(
        v as nat % 256,
        10,
    )
}

/// The value of one octet in decimal text.
pub fn parse_octet(s: &[char]) -> (octet: Option<u32>)
    ensures
        octet == if is_octet_text(s@) {
            Some(number_value(s@, 10) as u32)
        } else {
            None::<u32>
        },
{
    let n = s.len();
    if n > 3 || (n > 1 && s[0] == '0') {
        return None;
    }
    parse_number(s, 10, 255)
}

/// The address that `s` denotes in dotted-decimal notation.
pub fn parse_ipv4(s: &[char]) -> (addr: Option<u32>)
    ensures
        addr == ipv4_of_text(s@),
{
    let fields = split_fields(s, '.');
    if fields.len() != 4 {
        return None;
    }
    let a = parse_octet(fields[0]);
    let b = parse_octet(fields[1]);
    let c = parse_octet(fields[2]);
    let d = parse_octet(fields[3]);
    match (a, b, c, d) {
        (Some(a), Some(b), Some(c), Some(d)) => Some(((a * 256 + b) * 256 + c) * 256 + d),
        _ => None,
    }
}

/// Appends the dotted-decimal text of the address `v`.
pub fn push_ipv4(out: &mut String, v: u32)
    ensures
        final(out)@ == old(out)@ + ipv4_text(v),
{
    push_decimal(out, (v / 0x100_0000) as u8);
    push_separator(out, '.');
    push_decimal(out, ((v / 0x1_0000) % 256) as u8);
    push_separator(out, '.');
    push_decimal(out, ((v / 0x100) % 256) as u8);
    push_separator(out, '.');
    push_decimal(out, (v % 256) as u8);
    proof {
        assert(final(out)@ =~= old(out)@ + ipv4_text(v));
    }
}

} // verus!
