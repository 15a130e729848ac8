//! A subnet in CIDR notation: an address and a subnet mask of one family,
//! with the range of host addresses that they cover.

use vstd::prelude::*;
use vstd::slice::slice_subrange;
use vstd::std_specs::convert::IntoSpecImpl;
use vstd::std_specs::convert::TryFromSpecImpl;
use crate::address::{address_of_text, address_text, prefix_mask, Address};
use crate::bits::{count_ones_u128, count_ones_u32};
use crate::text::{
    chars_of, last_index_of, number_text, parse_u8, push_decimal, push_separator, rfind,
    u8_of_text,
};

verus! {

/// Why a text is not a subnet in CIDR notation.
#[derive(Clone, Copy, Debug, PartialEq, Eq, Structural)]
pub enum ParseError {
    /// The text holds no `/`.
    MissingPrefixDelimiter,
    /// What stands before the last `/` is not an address.
    InvalidAddress,
    /// What stands after the last `/` is not a number, or is zero, or is more
    /// than the number of bits of the address.
    InvalidPrefixLength,
}

/// Why an address and a mask make no subnet.
#[derive(Clone, Copy, Debug, PartialEq, Eq, Structural)]
pub enum FormatError {
    /// The address and the mask are of different families.
    FamilyMismatch,
}

/// The inclusive range of the host addresses of a subnet.
#[derive(Clone, Copy, Debug, PartialEq, Eq, Structural)]
pub struct HostRange {
    pub first: Address,
    pub last: Address,
}

/// The host range of the subnet of `addr` under `mask`.
pub open spec fn host_range_of(addr: Address, mask: Address) -> HostRange {
    HostRange { first: addr.first_host(mask), last: addr.last_host(mask) }
}

/// The address and the mask that `s` denotes in CIDR notation. The text is
/// cut at its last `/`. What stands after it is the prefix length `p`, from 1
/// to the number of bits of the address. The mask has its top `p` bits set,
/// and the address is the one in the text with the bits outside the mask
/// cleared.
pub open spec fn subnet_of_text(s: Seq<char>) -> Result<(Address, Address), ParseError> {
    match last_index_of(s, '/') {
        None => Err(ParseError::MissingPrefixDelimiter),
        Some(pos) => match address_of_text(s.take(pos)) {
            None => Err(ParseError::InvalidAddress),
            Some(addr) => match u8_of_text(s.skip(pos + 1)) {
                None => Err(ParseError::InvalidPrefixLength),
                Some(p) => if 1 <= p <= addr.spec_family().bits() {
                    let mask = prefix_mask(addr.spec_family(), p as nat);
                    Ok((addr.network(mask), mask))
                } else {
                    Err(ParseError::InvalidPrefixLength)
                },
            },
        },
    }
}

/// The CIDR notation of an address under a mask: the address as it is, `/`,
/// and the number of set bits of the mask in decimal.
pub open spec fn subnet_text(addr: Address, mask: Address) -> Seq<char> {
    address_text(addr) + seq!['/'] + number_text(mask.spec_prefix_len(), 10)
}

/// A subnet: an address and a subnet mask of the same family, and the range
/// of host addresses that they cover.
#[derive(Debug)]
pub struct CIDRNotation {
    addr: Address,
    net_mask: Address,
    host_range: HostRange,
}

impl ParseError {
    /// The error in words.
    pub fn message(&self) -> (text: &'static str)
        ensures
            text@ == match *self {
                ParseError::MissingPrefixDelimiter => "Could not parse CIDR notation"@,
                ParseError::InvalidAddress => "invalid IP address syntax"@,
                ParseError::InvalidPrefixLength => "Invalid number of bits in mask"@,
            },
    {
        match self {
            ParseError::MissingPrefixDelimiter => "Could not parse CIDR notation",
            ParseError::InvalidAddress => "invalid IP address syntax",
            ParseError::InvalidPrefixLength => "Invalid number of bits in mask",
        }
    }
}

impl FormatError {
    /// The error in words.
    pub fn message(&self) -> (text: &'static str)
        ensures
            text@ == "Address and mask has different types"@,
    {
        "Address and mask has different types"
    }
}

impl CIDRNotation {
    #[verifier::type_invariant]
    spec fn well_formed(self) -> bool {
        &&& self.addr.spec_family() == self.net_mask.spec_family()
        &&& self.host_range == host_range_of(self.addr, self.net_mask)
    }

    /// The subnet with the given address and mask.
    pub closed spec fn from_parts(addr: Address, net_mask: Address) -> CIDRNotation {
        CIDRNotation { addr, net_mask, host_range: host_range_of(addr, net_mask) }
    }

    /// The address of the subnet.
    pub closed spec fn spec_addr(&self) -> Address {
        self.addr
    }

    /// The mask of the subnet.
    pub closed spec fn spec_net_mask(&self) -> Address {
        self.net_mask
    }

    /// The host range of the subnet.
    pub closed spec fn spec_host_range(&self) -> HostRange {
        self.host_range
    }

    /// What a subnet made of an address and a mask holds.
    pub proof fn lemma_from_parts(addr: Address, net_mask: Address)
        ensures
            CIDRNotation::from_parts(addr, net_mask).spec_addr() == addr,
            CIDRNotation::from_parts(addr, net_mask).spec_net_mask() == net_mask,
            CIDRNotation::from_parts(addr, net_mask).spec_host_range() == host_range_of(
                addr,
                net_mask,
            ),
    {
    }

    /// The subnet of `addr` under `net_mask`; the address is kept as it is.
    /// Fails where the two are of different families.
    pub fn new(addr: Address, net_mask: Address) -> (subnet: Result<CIDRNotation, FormatError>)
        ensures
            match subnet {
                Ok(c) => {
                    &&& addr.spec_family() == net_mask.spec_family()
                    &&& c == CIDRNotation::from_parts(addr, net_mask)
                    &&& c.spec_addr() == addr
                    &&& c.spec_net_mask() == net_mask
                    &&& c.spec_host_range() == host_range_of(addr, net_mask)
                },
                Err(e) => {
                    &&& addr.spec_family() != net_mask.spec_family()
                    &&& e == FormatError::FamilyMismatch
                },
            },
    {
        match CIDRNotation::get_host_range(addr, net_mask) {
            Ok(host_range) => Ok(CIDRNotation { addr, net_mask, host_range }),
            Err(e) => Err(e),
        }
    }

    /// The inclusive range of host addresses of the subnet of `address` under
    /// `net_mask`: from the address with its host bits cleared to the address
    /// with its host bits set, the host bits being as many low bits as the
    /// mask has clear bits. Fails where the two are of different families.
    pub fn get_host_range(address: Address, net_mask: Address) -> (range: Result<
        HostRange,
        FormatError,
    >)
        ensures
            match range {
                Ok(r) => {
                    &&& address.spec_family() == net_mask.spec_family()
                    &&& r == host_range_of(address, net_mask)
                },
                Err(e) => {
                    &&& address.spec_family() != net_mask.spec_family()
                    &&& e == FormatError::FamilyMismatch
                },
            },
    {
        match (address, net_mask) {
            (Address::V4(addr), Address::V4(mask)) => {
                let bit_length = count_ones_u32(mask);
                let host_bits = 32 - bit_length;
                if host_bits >= 32 {
                    assert(0u32 | u32::MAX == u32::MAX) by (bit_vector);
                    Ok(HostRange { first: Address::V4(0), last: Address::V4(u32::MAX) })
                } else {
                    assert((1u32 << host_bits) >= 1) by (bit_vector)
                        requires
                            host_bits < 32,
                    ;
                    let start = (addr >> host_bits) << host_bits;
                    let end = start | ((1u32 << host_bits) - 1);
                    Ok(HostRange { first: Address::V4(start), last: Address::V4(end) })
                }
            },
            (Address::V6(addr), Address::V6(mask)) => {
                let bit_length = count_ones_u128(mask);
                let host_bits = 128 - bit_length;
                if host_bits >= 128 {
                    assert(0u128 | u128::MAX == u128::MAX) by (bit_vector);
                    Ok(HostRange { first: Address::V6(0), last: Address::V6(u128::MAX) })
                } else {
                    assert((1u128 << host_bits) >= 1) by (bit_vector)
                        requires
                            host_bits < 128,
                    ;
                    let start = (addr >> host_bits) << host_bits;
                    let end = start | ((1u128 << host_bits) - 1);
                    Ok(HostRange { first: Address::V6(start), last: Address::V6(end) })
                }
            },
            _ => Err(FormatError::FamilyMismatch),
        }
    }

    /// The address of the subnet.
    #[verifier::when_used_as_spec(spec_addr)]
    pub fn addr(&self) -> (addr: Address)
        ensures
            addr == self.spec_addr(),
    {
        self.addr
    }

    /// The mask of the subnet, of the same family as its address.
    #[verifier::when_used_as_spec(spec_net_mask)]
    pub fn net_mask(&self) -> (mask: Address)
        ensures
            mask == self.spec_net_mask(),
            mask.spec_family() == self.spec_addr().spec_family(),
    {
        proof {
            use_type_invariant(self);
        }
        self.net_mask
    }

    /// The host range of the subnet.
    #[verifier::when_used_as_spec(spec_host_range)]
    pub fn host_range(&self) -> (range: HostRange)
        ensures
            range == self.spec_host_range(),
            range == host_range_of(self.spec_addr(), self.spec_net_mask()),
    {
        proof {
            use_type_invariant(self);
        }
        self.host_range
    }
}

impl TryFrom<String> for CIDRNotation {
    type Error = ParseError;

    /// The subnet that `val` denotes in CIDR notation, or the reason why it
    /// denotes none.
    fn try_from(val: String) -> (subnet: Result<CIDRNotation, ParseError>)
        ensures
            match subnet {
                Ok(c) => {
                    &&& subnet_of_text(val@) == Ok::<(Address, Address), ParseError>(
                        (c.spec_addr(), c.spec_net_mask()),
                    )
                    &&& c.spec_host_range() == host_range_of(c.spec_addr(), c.spec_net_mask())
                },
                Err(e) => subnet_of_text(val@) == Err::<(Address, Address), ParseError>(e),
            },
    {
        let chars = chars_of(val.as_str());
        let text = chars.as_slice();
        let n = text.len();
        match rfind(text, '/') {
            Some(pos) => {
                proof {
                    assert(text@.subrange(0, pos as int) =~= val@.take(pos as int));
                    assert(text@.subrange(pos + 1, n as int) =~= val@.skip(pos + 1));
                }
                let input_addr = match Address::parse_chars(slice_subrange(text, 0, pos)) {
                    Some(a) => a,
                    None => {
                        return Err(ParseError::InvalidAddress);
                    },
                };
                let bit_length: u8 = match parse_u8(slice_subrange(text, pos + 1, n)) {
                    Some(p) => p,
                    None => {
                        return Err(ParseError::InvalidPrefixLength);
                    },
                };
                let network_addr: Address;
                let net_mask: Address;
                match input_addr {
                    Address::V4(addr) => {
                        if bit_length < 1 || bit_length > 32 {
                            return Err(ParseError::InvalidPrefixLength);
                        }
                        assert(u32::MAX << 0u32 == u32::MAX) by (bit_vector);
                        let net_mask_addr: u32 = u32::MAX << (32 - bit_length as u32);
                        net_mask = Address::V4(net_mask_addr);
                        network_addr = Address::V4(addr & net_mask_addr);
                    },
                    Address::V6(addr) => {
                        if bit_length < 1 || bit_length > 128 {
                            return Err(ParseError::InvalidPrefixLength);
                        }
                        assert(u128::MAX << 0u128 == u128::MAX) by (bit_vector);
                        let net_mask_addr: u128 = u128::MAX << (128 - bit_length as u128);
                        net_mask = Address::V6(net_mask_addr);
                        network_addr = Address::V6(addr & net_mask_addr);
                    },
                }
                Ok(CIDRNotation::new(network_addr, net_mask).unwrap())
            },
            None => Err(ParseError::MissingPrefixDelimiter),
        }
    }
}

impl TryFromSpecImpl<String> for CIDRNotation {
    open spec fn obeys_try_from_spec() -> bool {
        true
    }

    open spec fn try_from_spec(v: String) -> Result<CIDRNotation, ParseError> {
        match subnet_of_text(v@) {
            Ok((addr, net_mask)) => Ok(CIDRNotation::from_parts(addr, net_mask)),
            Err(e) => Err(e),
        }
    }
}

impl Into<String> for CIDRNotation {
    /// The subnet in CIDR notation: its address as it is, `/`, and the
    /// number of set bits of its mask.
    fn into(self) -> (text: String)
        ensures
            String::view(&text) == subnet_text(self.spec_addr(), self.spec_net_mask()),
    {
        let mut text = String::new();
        let bits: u8 = self.net_mask.prefix_len();
        self.addr.push_text(&mut text);
        push_separator(&mut text, '/');
        push_decimal(&mut text, bits);
        proof {
            assert(text@ =~= subnet_text(self.addr, self.net_mask));
        }
        text
    }
}

impl IntoSpecImpl<String> for CIDRNotation {
    /// A `String` is known by its characters alone, so what `into` returns
    /// is stated there, over the view of the result.
    open spec fn obeys_into_spec() -> bool {
        false
    }

    open spec fn into_spec(self) -> String {
        arbitrary()
    }
}

} // verus!
