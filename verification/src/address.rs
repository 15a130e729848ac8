//! Addresses of the two families, subnet masks and the arithmetic on them.

use vstd::prelude::*;
use crate::bits::{count_ones_u128, count_ones_u32, popcount};
use crate::ipv4::{ipv4_of_text, ipv4_text, parse_ipv4, push_ipv4};
use crate::ipv6::{ipv6_of_text, ipv6_text, parse_ipv6, push_ipv6};
use crate::text::chars_of;

verus! {

/// The address family: IPv4 with 32-bit addresses or IPv6 with 128-bit ones.
#[derive(Clone, Copy, Debug, PartialEq, Eq, Structural)]
pub enum Family {
    V4,
    V6,
}

impl Family {
    /// The number of bits in an address of this family.
    pub open spec fn bits(self) -> nat {
        match self {
            Family::V4 => 32,
            Family::V6 => 128,
        }
    }

    /// The number of bits in an address of this family.
    pub fn width(self) -> (w: u8)
        ensures
            w == self.bits(),
    {
        match self {
            Family::V4 => 32,
            Family::V6 => 128,
        }
    }
}

/// An address or a mask: its family and its value as an unsigned integer,
/// the first octet of the textual form being the most significant.
#[derive(Clone, Copy, Debug, PartialEq, Eq, Structural)]
pub enum Address {
    V4(u32),
    V6(u128),
}

/// The 32-bit mask whose top `p` bits are set and whose other bits are clear.
pub open spec fn prefix_mask_v4(p: nat) -> u32 {
    if p == 0 {
        0
    } else if p >= 32 {
        u32::MAX
    } else {
        u32::MAX << ((32 - p) as u32)
    }
}

/// The 128-bit mask whose top `p` bits are set and whose other bits are clear.
pub open spec fn prefix_mask_v6(p: nat) -> u128 {
    if p == 0 {
        0
    } else if p >= 128 {
        u128::MAX
    } else {
        u128::MAX << ((128 - p) as u128)
    }
}

/// The mask of the given family with prefix length `p`.
pub open spec fn prefix_mask(family: Family, p: nat) -> Address {
    match family {
        Family::V4 => Address::V4(prefix_mask_v4(p)),
        Family::V6 => Address::V6(prefix_mask_v6(p)),
    }
}

/// The 32-bit word whose lowest `h` bits are set and whose other bits are
/// clear.
pub open spec fn low_mask_v4(h: nat) -> u32 {
    if h >= 32 {
        u32::MAX
    } else {
        ((1u32 << (h as u32)) - 1) as u32
    }
}

/// `a` with its lowest `h` bits cleared.
pub open spec fn clear_low_v4(a: u32, h: nat) -> u32 {
    if h >= 32 {
        0
    } else {
        (a >> (h as u32)) << (h as u32)
    }
}

/// The 128-bit word whose lowest `h` bits are set and whose other bits are
/// clear.
pub open spec fn low_mask_v6(h: nat) -> u128 {
    if h >= 128 {
        u128::MAX
    } else {
        ((1u128 << (h as u128)) - 1) as u128
    }
}

/// `a` with its lowest `h` bits cleared.
pub open spec fn clear_low_v6(a: u128, h: nat) -> u128 {
    if h >= 128 {
        0
    } else {
        (a >> (h as u128)) << (h as u128)
    }
}

/// The address that `s` denotes: an IPv4 address in dotted-decimal notation
/// or an IPv6 address in colon-hexadecimal notation.
pub open spec fn address_of_text(s: Seq<char>) -> Option<Address> {
    match ipv4_of_text(s) {
        Some(a) => Some(Address::V4(a)),
        None => match ipv6_of_text(s) {
            Some(a) => Some(Address::V6(a)),
            None => None,
        },
    }
}

/// The text of an address: dotted-decimal for IPv4, colon-hexadecimal for
/// IPv6.
pub open spec fn address_text(addr: Address) -> Seq<char> {
    match addr {
        Address::V4(a) => ipv4_text(a),
        Address::V6(a) => ipv6_text(a),
    }
}

impl Address {
    /// The family of the address.
    pub open spec fn spec_family(self) -> Family {
        match self {
            Address::V4(_) => Family::V4,
            Address::V6(_) => Family::V6,
        }
    }

    /// The value of the address as a natural number.
    pub open spec fn value(self) -> nat {
        match self {
            Address::V4(a) => a as nat,
            Address::V6(a) => a as nat,
        }
    }

    /// The prefix length that a mask stands for: the number of its set bits.
    /// For a mask whose set bits are not all leading this is still their count.
    pub open spec fn spec_prefix_len(self) -> nat {
        popcount(self.value())
    }

    /// The number of bits that the mask leaves to the hosts.
    pub open spec fn host_bits(self) -> nat {
        (self.spec_family().bits() - self.spec_prefix_len()) as nat
    }

    /// The network address: the bits of `self` that lie under `mask`.
    /// Meaningful where both are of one family.
    pub open spec fn network(self, mask: Address) -> Address {
        match (self, mask) {
            (Address::V4(a), Address::V4(m)) => Address::V4(a & m),
            (Address::V6(a), Address::V6(m)) => Address::V6(a & m),
            _ => self,
        }
    }

    /// The first address of the subnet of `self` under `mask`: `self` with
    /// the host bits cleared.
    pub open spec fn first_host(self, mask: Address) -> Address {
        match self {
            Address::V4(a) => Address::V4(clear_low_v4(a, mask.host_bits())),
            Address::V6(a) => Address::V6(clear_low_v6(a, mask.host_bits())),
        }
    }

    /// The last address of the subnet of `self` under `mask`: the first one
    /// with the host bits set.
    pub open spec fn last_host(self, mask: Address) -> Address {
        match self {
            Address::V4(a) => Address::V4(
                clear_low_v4(a, mask.host_bits()) | low_mask_v4(mask.host_bits()),
            ),
            Address::V6(a) => Address::V6(
                clear_low_v6(a, mask.host_bits()) | low_mask_v6(mask.host_bits()),
            ),
        }
    }

    /// The family of the address.
    #[verifier::when_used_as_spec(spec_family)]
    pub fn family(self) -> (f: Family)
        ensures
            f == self.spec_family(),
    {
        match self {
            Address::V4(_) => Family::V4,
            Address::V6(_) => Family::V6,
        }
    }

    /// The prefix length that the mask stands for: the number of its set bits.
    pub fn prefix_len(self) -> (p: u8)
        ensures
            p == self.spec_prefix_len(),
            p <= self.spec_family().bits(),
    {
        match self {
            Address::V4(m) => count_ones_u32(m) as u8,
            Address::V6(m) => count_ones_u128(m) as u8,
        }
    }

    /// The address that the characters `s` denote.
    pub fn parse_chars(s: &[char]) -> (addr: Option<Address>)
        ensures
            addr == address_of_text(s@),
    {
        match parse_ipv4(s) {
            Some(a) => Some(Address::V4(a)),
            None => match parse_ipv6(s) {
                Some(a) => Some(Address::V6(a)),
                None => None,
            },
        }
    }

    /// The address that `text` denotes.
    pub fn parse(text: &str) -> (addr: Option<Address>)
        ensures
            addr == address_of_text(text@),
    {
        let chars = chars_of(text);
        Address::parse_chars(chars.as_slice())
    }

    /// Appends the text of the address.
    pub fn push_text(self, out: &mut String)
        ensures
            final(out)@ == old(out)@ + address_text(self),
    {
        match self {
            Address::V4(a) => push_ipv4(out, a),
            Address::V6(a) => push_ipv6(out, a),
        }
    }

    /// The text of the address.
    pub fn to_text(self) -> (text: String)
        ensures
            text@ == address_text(self),
    {
        let mut text = String::new();
        self.push_text(&mut text);
        proof {
            assert(Seq::<char>::empty() + address_text(self) =~= address_text(self));
        }
        text
    }

    /// The mask of the given family with prefix length `p`, where the family
    /// has one: `p` is at least 1 and at most the family's width.
    pub fn prefix_mask(family: Family, p: u8) -> (mask: Option<Address>)
        ensures
            mask == if 1 <= p <= family.bits() {
                Some(prefix_mask(family, p as nat))
            } else {
                None::<Address>
            },
    {
        match family {
            Family::V4 => {
                if p < 1 || p > 32 {
                    None
                } else {
                    let shift: u32 = 32 - p as u32;
                    assert(u32::MAX << 0u32 == u32::MAX) by (bit_vector);
                    Some(Address::V4(u32::MAX << shift))
                }
            },
            Family::V6 => {
                if p < 1 || p > 128 {
                    None
                } else {
                    let shift: u128 = 128 - p as u128;
                    assert(u128::MAX << 0u128 == u128::MAX) by (bit_vector);
                    Some(Address::V6(u128::MAX << shift))
                }
            },
        }
    }
}

} // verus!
