//! What holds of masks, networks and host ranges, for every address.

use vstd::prelude::*;
use crate::address::{
    clear_low_v4, clear_low_v6, low_mask_v4, low_mask_v6, prefix_mask, prefix_mask_v4,
    prefix_mask_v6, Address, Family,
};
use crate::bits::{lemma_popcount_le_width, lemma_pow2_widths, popcount};
use crate::cidr::{host_range_of, HostRange};

verus! {

/// Whether `x` and `y` are of one family and differ in none but their `h`
/// lowest bits.
pub open spec fn differ_only_in_low_bits(x: Address, y: Address, h: nat) -> bool {
    match (x, y) {
        (Address::V4(x), Address::V4(y)) => (x ^ y) & !low_mask_v4(h) == 0,
        (Address::V6(x), Address::V6(y)) => (x ^ y) & !low_mask_v6(h) == 0,
        _ => false,
    }
}

/// Whether every set bit of `addr` above the host bits of `mask` lies under
/// the mask. It does for every address where the set bits of the mask are
/// its leading bits.
pub open spec fn network_bits_under_mask(addr: Address, mask: Address) -> bool {
    match (addr, mask) {
        (Address::V4(a), Address::V4(m)) => (a & !m) & !low_mask_v4(mask.host_bits()) == 0,
        (Address::V6(a), Address::V6(m)) => (a & !m) & !low_mask_v6(mask.host_bits()) == 0,
        _ => false,
    }
}

/// A 32-bit word with its `n` lowest bits set, and no others, has `n` ones.
proof fn lemma_popcount_low_bits_v4(n: nat)
    requires
        1 <= n <= 32,
    ensures
        popcount((u32::MAX >> ((32 - n) as u32)) as nat) == n,
    decreases n,
{
    let t = (32 - n) as u32;
    let x = u32::MAX >> t;
    assert(x % 2 == 1 && x != 0) by (bit_vector)
        requires
            x == u32::MAX >> t,
            t < 32,
    ;
    if n == 1 {
        assert(x / 2 == 0) by (bit_vector)
            requires
                x == u32::MAX >> t,
                t == 31,
        ;
        assert(popcount(0) == 0);
    } else {
        let t1 = (t + 1) as u32;
        assert(x / 2 == u32::MAX >> t1) by (bit_vector)
            requires
                x == u32::MAX >> t,
                t1 == t + 1,
                t < 31,
        ;
        lemma_popcount_low_bits_v4((n - 1) as nat);
    }
}

/// Shifting the mask of `32 - h` leading ones right by `k <= h` places keeps
/// its `32 - h` ones.
proof fn lemma_popcount_shifted_v4(h: nat, k: nat)
    requires
        k <= h < 32,
    ensures
        popcount(((u32::MAX << (h as u32)) >> (k as u32)) as nat) == 32 - h,
    decreases h - k,
{
    let hh = h as u32;
    let kk = k as u32;
    let x = (u32::MAX << hh) >> kk;
    if k == h {
        assert(x == u32::MAX >> hh) by (bit_vector)
            requires
                x == (u32::MAX << hh) >> kk,
                kk == hh,
                hh < 32,
        ;
        lemma_popcount_low_bits_v4((32 - h) as nat);
    } else {
        let k1 = (k + 1) as u32;
        assert(x % 2 == 0 && x / 2 == (u32::MAX << hh) >> k1) by (bit_vector)
            requires
                x == (u32::MAX << hh) >> kk,
                k1 == kk + 1,
                kk < hh,
                hh < 32,
        ;
        lemma_popcount_shifted_v4(h, k + 1);
    }
}

/// A 128-bit word with its `n` lowest bits set, and no others, has `n` ones.
proof fn lemma_popcount_low_bits_v6(n: nat)
    requires
        1 <= n <= 128,
    ensures
        popcount((u128::MAX >> ((128 - n) as u128)) as nat) == n,
    decreases n,
{
    let t = (128 - n) as u128;
    let x = u128::MAX >> t;
    assert(x % 2 == 1 && x != 0) by (bit_vector)
        requires
            x == u128::MAX >> t,
            t < 128,
    ;
    if n == 1 {
        assert(x / 2 == 0) by (bit_vector)
            requires
                x == u128::MAX >> t,
                t == 127,
        ;
        assert(popcount(0) == 0);
    } else {
        let t1 = (t + 1) as u128;
        assert(x / 2 == u128::MAX >> t1) by (bit_vector)
            requires
                x == u128::MAX >> t,
                t1 == t + 1,
                t < 127,
        ;
        lemma_popcount_low_bits_v6((n - 1) as nat);
    }
}

/// Shifting the mask of `128 - h` leading ones right by `k <= h` places
/// keeps its `128 - h` ones.
proof fn lemma_popcount_shifted_v6(h: nat, k: nat)
    requires
        k <= h < 128,
    ensures
        popcount(((u128::MAX << (h as u128)) >> (k as u128)) as nat) == 128 - h,
    decreases h - k,
{
    let hh = h as u128;
    let kk = k as u128;
    let x = (u128::MAX << hh) >> kk;
    if k == h {
        assert(x == u128::MAX >> hh) by (bit_vector)
            requires
                x == (u128::MAX << hh) >> kk,
                kk == hh,
                hh < 128,
        ;
        lemma_popcount_low_bits_v6((128 - h) as nat);
    } else {
        let k1 = (k + 1) as u128;
        assert(x % 2 == 0 && x / 2 == (u128::MAX << hh) >> k1) by (bit_vector)
            requires
                x == (u128::MAX << hh) >> kk,
                k1 == kk + 1,
                kk < hh,
                hh < 128,
        ;
        lemma_popcount_shifted_v6(h, k + 1);
    }
}

/// The mask with prefix length `p` has `p` set bits: the prefix length read
/// from a mask of leading ones is the one it was made with.
pub proof fn lemma_prefix_len_of_prefix_mask(family: Family, p: nat)
    requires
        p <= family.bits(),
    ensures
        prefix_mask(family, p).spec_prefix_len() == p,
        prefix_mask(family, p).host_bits() == family.bits() - p,
{
    match family {
        Family::V4 => {
            if p > 0 {
                let h = (32 - p) as nat;
                assert((u32::MAX << 0u32) >> 0u32 == u32::MAX) by (bit_vector);
                assert(forall|x: u32| #[trigger] (x >> 0u32) == x) by (bit_vector);
                lemma_popcount_shifted_v4(h, 0);
            }
        },
        Family::V6 => {
            if p > 0 {
                let h = (128 - p) as nat;
                assert((u128::MAX << 0u128) >> 0u128 == u128::MAX) by (bit_vector);
                assert(forall|x: u128| #[trigger] (x >> 0u128) == x) by (bit_vector);
                lemma_popcount_shifted_v6(h, 0);
            }
        },
    }
}

/// Masking is idempotent: the network address of a network address, under
/// the same mask, is that network address.
pub proof fn lemma_network_idempotent(addr: Address, mask: Address)
    ensures
        addr.network(mask).network(mask) == addr.network(mask),
{
    match (addr, mask) {
        (Address::V4(a), Address::V4(m)) => {
            assert((a & m) & m == a & m) by (bit_vector);
        },
        (Address::V6(a), Address::V6(m)) => {
            assert((a & m) & m == a & m) by (bit_vector);
        },
        _ => {},
    }
}

/// A mask has no more set bits than its family has bits.
pub proof fn lemma_prefix_len_le_width(mask: Address)
    ensures
        mask.spec_prefix_len() <= mask.spec_family().bits(),
{
    lemma_pow2_widths();
    match mask {
        Address::V4(m) => lemma_popcount_le_width(m as nat, 32),
        Address::V6(m) => lemma_popcount_le_width(m as nat, 128),
    }
}

/// The host range is ordered: its first address is never above its last.
/// The two are equal exactly where the mask has as many set bits as the
/// family has bits.
pub proof fn lemma_host_range_ordered(addr: Address, mask: Address)
    requires
        addr.spec_family() == mask.spec_family(),
    ensures
        host_range_of(addr, mask).first.value() <= host_range_of(addr, mask).last.value(),
        host_range_of(addr, mask).first == host_range_of(addr, mask).last
            <==> mask.spec_prefix_len() == mask.spec_family().bits(),
{
    lemma_prefix_len_le_width(mask);
    let h = mask.host_bits();
    match addr {
        Address::V4(a) => {
            if h < 32 {
                let s = h as u32;
                let first = clear_low_v4(a, h);
                let low = low_mask_v4(h);
                assert(first <= (first | low) && ((first | low) == first <==> s == 0))
                    by (bit_vector)
                    requires
                        s < 32,
                        first == (a >> s) << s,
                        low == ((1u32 << s) - 1) as u32,
                ;
            } else {
                assert(0u32 | u32::MAX == u32::MAX) by (bit_vector);
            }
        },
        Address::V6(a) => {
            if h < 128 {
                let s = h as u128;
                let first = clear_low_v6(a, h);
                let low = low_mask_v6(h);
                assert(first <= (first | low) && ((first | low) == first <==> s == 0))
                    by (bit_vector)
                    requires
                        s < 128,
                        first == (a >> s) << s,
                        low == ((1u128 << s) - 1) as u128,
                ;
            } else {
                assert(0u128 | u128::MAX == u128::MAX) by (bit_vector);
            }
        },
    }
}

/// The network address lies in the host range, and differs from its first
/// and its last address in host bits only, exactly where every set bit of
/// the address above the host bits lies under the mask.
pub proof fn lemma_network_in_host_range(addr: Address, mask: Address)
    requires
        addr.spec_family() == mask.spec_family(),
    ensures
        network_bits_under_mask(addr, mask) <==> {
            &&& host_range_of(addr, mask).first.value() <= addr.network(mask).value()
            &&& addr.network(mask).value() <= host_range_of(addr, mask).last.value()
            &&& differ_only_in_low_bits(
                host_range_of(addr, mask).first,
                addr.network(mask),
                mask.host_bits(),
            )
            &&& differ_only_in_low_bits(
                host_range_of(addr, mask).last,
                addr.network(mask),
                mask.host_bits(),
            )
        },
{
    let h = mask.host_bits();
    match (addr, mask) {
        (Address::V4(a), Address::V4(m)) => {
            let first = clear_low_v4(a, h);
            let low = low_mask_v4(h);
            let last = first | low;
            let net = a & m;
            if h < 32 {
                let s = h as u32;
                assert(first == a & !low) by (bit_vector)
                    requires
                        s < 32,
                        first == (a >> s) << s,
                        low == ((1u32 << s) - 1) as u32,
                ;
                assert(((a & !m) & !low == 0) <==> (first <= net && net <= last && (first ^ net)
                    & !low == 0 && (last ^ net) & !low == 0)) by (bit_vector)
                    requires
                        first == a & !low,
                        last == first | low,
                        net == a & m,
                ;
            } else {
                assert((a & !m) & !low == 0 && first <= net && net <= last && (first ^ net) & !low
                    == 0 && (last ^ net) & !low == 0) by (bit_vector)
                    requires
                        first == 0,
                        low == u32::MAX,
                        last == first | low,
                ;
            }
        },
        (Address::V6(a), Address::V6(m)) => {
            let first = clear_low_v6(a, h);
            let low = low_mask_v6(h);
            let last = first | low;
            let net = a & m;
            if h < 128 {
                let s = h as u128;
                assert(first == a & !low) by (bit_vector)
                    requires
                        s < 128,
                        first == (a >> s) << s,
                        low == ((1u128 << s) - 1) as u128,
                ;
                assert(((a & !m) & !low == 0) <==> (first <= net && net <= last && (first ^ net)
                    & !low == 0 && (last ^ net) & !low == 0)) by (bit_vector)
                    requires
                        first == a & !low,
                        last == first | low,
                        net == a & m,
                ;
            } else {
                assert((a & !m) & !low == 0 && first <= net && net <= last && (first ^ net) & !low
                    == 0 && (last ^ net) & !low == 0) by (bit_vector)
                    requires
                        first == 0,
                        low == u128::MAX,
                        last == first | low,
                ;
            }
        },
        _ => {},
    }
}

/// Under a mask of leading ones every set bit of an address above the host
/// bits lies under the mask.
pub proof fn lemma_prefix_mask_covers_network_bits(addr: Address, p: nat)
    requires
        p <= addr.spec_family().bits(),
    ensures
        network_bits_under_mask(addr, prefix_mask(addr.spec_family(), p)),
{
    lemma_prefix_len_of_prefix_mask(addr.spec_family(), p);
    match addr {
        Address::V4(a) => {
            let m = prefix_mask_v4(p);
            let s = (32 - p) as u32;
            let low = low_mask_v4((32 - p) as nat);
            assert((a & !m) & !low == 0) by (bit_vector)
                requires
                    s <= 32,
                    m == if s == 32 {
                        0u32
                    } else if s == 0 {
                        u32::MAX
                    } else {
                        u32::MAX << s
                    },
                    low == if s == 32 {
                        u32::MAX
                    } else {
                        ((1u32 << s) - 1) as u32
                    },
            ;
        },
        Address::V6(a) => {
            let m = prefix_mask_v6(p);
            let s = (128 - p) as u128;
            let low = low_mask_v6((128 - p) as nat);
            assert((a & !m) & !low == 0) by (bit_vector)
                requires
                    s <= 128,
                    m == if s == 128 {
                        0u128
                    } else if s == 0 {
                        u128::MAX
                    } else {
                        u128::MAX << s
                    },
                    low == if s == 128 {
                        u128::MAX
                    } else {
                        ((1u128 << s) - 1) as u128
                    },
            ;
        },
    }
}

/// Under a mask of leading ones the network address of every address lies
/// in the host range of that address, and differs from the first and the
/// last address of the range in host bits only.
pub proof fn lemma_network_of_prefix_mask_in_host_range(addr: Address, p: nat)
    requires
        p <= addr.spec_family().bits(),
    ensures
        ({
            let mask = prefix_mask(addr.spec_family(), p);
            let range = host_range_of(addr, mask);
            &&& range.first.value() <= addr.network(mask).value() <= range.last.value()
            &&& differ_only_in_low_bits(range.first, addr.network(mask), mask.host_bits())
            &&& differ_only_in_low_bits(range.last, addr.network(mask), mask.host_bits())
        }),
{
    lemma_prefix_mask_covers_network_bits(addr, p);
    lemma_network_in_host_range(addr, prefix_mask(addr.spec_family(), p));
}

/// Where the mask has as many set bits as the family has bits, the host
/// range is the one address itself. The mask of full prefix length is the
/// mask of all ones, and leaves every address as it is.
pub proof fn lemma_full_prefix_single_host(addr: Address, mask: Address)
    requires
        addr.spec_family() == mask.spec_family(),
        mask.spec_prefix_len() == mask.spec_family().bits(),
    ensures
        host_range_of(addr, mask) == (HostRange { first: addr, last: addr }),
        prefix_mask(Family::V4, 32) == Address::V4(0xffff_ffff),
        prefix_mask(Family::V6, 128) == Address::V6(0xffff_ffff_ffff_ffff_ffff_ffff_ffff_ffff),
        addr.network(prefix_mask(addr.spec_family(), addr.spec_family().bits())) == addr,
{
    match addr {
        Address::V4(a) => {
            assert(((a >> 0u32) << 0u32) == a && (a | (((1u32 << 0u32) - 1) as u32)) == a && a
                & 0xffff_ffffu32 == a) by (bit_vector);
        },
        Address::V6(a) => {
            assert(((a >> 0u128) << 0u128) == a && (a | (((1u128 << 0u128) - 1) as u128)) == a && a
                & 0xffff_ffff_ffff_ffff_ffff_ffff_ffff_ffffu128 == a) by (bit_vector);
        },
    }
}

/// The mask of prefix length 1 has the top bit alone, and the host range
/// under it is half of all the addresses of the family.
pub proof fn lemma_one_bit_prefix_halves(addr: Address)
    ensures
        prefix_mask(Family::V4, 1) == Address::V4(0x8000_0000),
        prefix_mask(Family::V6, 1) == Address::V6(0x8000_0000_0000_0000_0000_0000_0000_0000),
        ({
            let range = host_range_of(addr, prefix_mask(addr.spec_family(), 1));
            match addr {
                Address::V4(_) => range.last.value() - range.first.value() + 1 == 0x8000_0000,
                Address::V6(_) => range.last.value() - range.first.value() + 1
                    == 0x8000_0000_0000_0000_0000_0000_0000_0000,
            }
        }),
{
    lemma_prefix_len_of_prefix_mask(Family::V4, 1);
    lemma_prefix_len_of_prefix_mask(Family::V6, 1);
    assert(u32::MAX << 31u32 == 0x8000_0000u32) by (bit_vector);
    assert(u128::MAX << 127u128 == 0x8000_0000_0000_0000_0000_0000_0000_0000u128) by (bit_vector);
    match addr {
        Address::V4(a) => {
            let first = clear_low_v4(a, 31);
            let last = first | low_mask_v4(31);
            assert(last - first + 1 == 0x8000_0000) by (bit_vector)
                requires
                    first == (a >> 31u32) << 31u32,
                    last == first | (((1u32 << 31u32) - 1) as u32),
            ;
        },
        Address::V6(a) => {
            let first = clear_low_v6(a, 127);
            let last = first | low_mask_v6(127);
            assert(last - first + 1 == 0x8000_0000_0000_0000_0000_0000_0000_0000) by (bit_vector)
                requires
                    first == (a >> 127u128) << 127u128,
                    last == first | (((1u128 << 127u128) - 1) as u128),
            ;
        },
    }
}

} // verus!
