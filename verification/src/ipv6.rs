//! The colon-hexadecimal text of an IPv6 address.

use vstd::prelude::*;
use vstd::slice::slice_subrange;
use crate::ipv4::{ipv4_of_text, ipv4_text, parse_ipv4, push_ipv4};
use crate::text::{
    digit_value, find_colons, find_double_colon, is_number, join, number_text, number_value,
    parse_number, push_hex, push_separator, split, split_fields,
};

verus! {

/// Whether `s` is the text of one 16-bit group: one to four hexadecimal
/// digits.
pub open spec fn is_group_text(s: Seq<char>) -> bool {
    s.len() <= 4 && is_number(s, 16)
}

/// The groups that a list of fields denotes. Each field is a group in
/// hexadecimal; where `v4_tail` holds, the last field may instead be an IPv4
/// address in dotted-decimal notation, which stands for two groups.
pub open spec fn groups_of_fields(f: Seq<Seq<char>>, v4_tail: bool) -> Option<Seq<u16>>
    decreases f.len(),
{
    if f.len() == 0 {
        Some(Seq::<u16>::empty())
    } else {
        match groups_of_fields(f.drop_last(), false) {
            None => None,
            Some(front) => {
                if is_group_text(f.last()) {
                    Some(front.push(number_value(f.last(), 16) as u16))
                } else if v4_tail && ipv4_of_text(f.last()) is Some {
                    let v = ipv4_of_text(f.last())->0;
                    Some(front.push((v / 0x1_0000) as u16).push((v % 0x1_0000) as u16))
                } else {
                    None
                }
            },
        }
    }
}

/// The groups that `s` denotes as a colon-separated list; the empty text is
/// the empty list.
pub open spec fn groups_of_list(s: Seq<char>, v4_tail: bool) -> Option<Seq<u16>> {
    if s.len() == 0 {
        Some(Seq::<u16>::empty())
    } else {
        groups_of_fields(split(s, ':'), v4_tail)
    }
}

/// The 128-bit value of eight groups, the first being the most significant.
pub open spec fn pack_groups(g: Seq<u16>) -> nat {
    ((((((g[0] as nat * 0x1_0000 + g[1] as nat) * 0x1_0000 + g[2] as nat) * 0x1_0000
        + g[3] as nat) * 0x1_0000 + g[4] as nat) * 0x1_0000 + g[5] as nat) * 0x1_0000
        + g[6] as nat) * 0x1_0000 + g[7] as nat
}

/// `n` groups of zero.
pub open spec fn zero_groups(n: nat) -> Seq<u16> {
    Seq::new(n, |i: int| 0u16)
}

/// The address that `s` denotes in colon-hexadecimal notation. Without `::`
/// the text is a list of exactly eight groups. With `::`, the lists before
/// and after its first occurrence hold at most seven groups together, the
/// one before it is purely hexadecimal, and the groups between them are zero.
pub open spec fn ipv6_of_text(s: Seq<char>) -> Option<u128> {
    match find_double_colon(s, 0) {
        None => {
            match groups_of_list(s, true) {
                Some(g) => if g.len() == 8 {
                    Some(pack_groups(g) as u128)
                } else {
                    None
                },
                None => None,
            }
        },
        Some(i) => {
            match (groups_of_list(s.take(i), false), groups_of_list(s.skip(i + 2), true)) {
                (Some(head), Some(tail)) => if head.len() + tail.len() <= 7 {
                    Some(
                        pack_groups(
                            head + zero_groups((8 - head.len() - tail.len()) as nat) + tail,
                        ) as u128,
                    )
                } else {
                    None
                },
                _ => None,
            }
        },
    }
}

/// `v` without its `k` lowest groups.
pub open spec fn drop_groups(v: nat, k: nat) -> nat
    decreases k,
{
    if k == 0 {
        v
    } else {
        drop_groups(v, (k - 1) as nat) / 0x1_0000
    }
}

/// The eight 16-bit groups of `v`, the most significant first.
pub open spec fn groups_of(v: u128) -> Seq<u16> {
    Seq::new(8, |i: int| (drop_groups(v as nat, (7 - i) as nat) % 0x1_0000) as u16)
}

/// The number of zero groups in a row in `g` from position `i` on.
pub open spec fn zero_run(g: Seq<u16>, i: int) -> nat
    decreases g.len() - i,
{
    if 0 <= i < g.len() && g[i] == 0 {
        1 + zero_run(g, i + 1)
    } else {
        0
    }
}

/// The position below `n` at which the longest run of zero groups of `g`
/// starts; the first such position where several runs are as long.
pub open spec fn longest_zero_run(g: Seq<u16>, n: int) -> int
    decreases n,
{
    if n <= 1 {
        0
    } else {
        let best = longest_zero_run(g, n - 1);
        if zero_run(g, n - 1) > zero_run(g, best) {
            n - 1
        } else {
            best
        }
    }
}

/// The text of each group: hexadecimal, in lower case, without leading
/// zeros.
pub open spec fn group_fields(g: Seq<u16>) -> Seq<Seq<char>> {
    Seq::new(g.len(), |i: int| number_text(g[i] as nat, 16))
}

/// The groups in hexadecimal, separated by colons.
pub open spec fn group_list_text(g: Seq<u16>) -> Seq<char> {
    join(group_fields(g), ':')
}

/// Whether the groups are those of an IPv4-mapped address: five groups of
/// zero, then `ffff`.
pub open spec fn is_v4_mapped(g: Seq<u16>) -> bool {
    g[0] == 0 && g[1] == 0 && g[2] == 0 && g[3] == 0 && g[4] == 0 && g[5] == 0xffff
}

/// The text of the address `v`. An IPv4-mapped address is `::ffff:` and the
/// last 32 bits in dotted-decimal notation. Otherwise the groups stand in
/// hexadecimal without leading zeros, separated by colons, and the longest
/// run of two or more zero groups, the first of them where several are as
/// long, is replaced by `::`.
pub open spec fn ipv6_text(v: u128) -> Seq<char> {
    let g = groups_of(v);
    if is_v4_mapped(g) {
        seq![':', ':', 'f', 'f', 'f', 'f', ':'] + ipv4_text(
            (g[6] as nat * 0x1_0000 + g[7] as nat) as u32,
        )
    } else {
        let start = longest_zero_run(g, 8);
        let len = zero_run(g, start);
        if len > 1 {
            group_list_text(g.take(start)) + seq![':', ':'] + group_list_text(g.skip(start + len))
        } else {
            group_list_text(g)
        }
    }
}

/// A list of fields in which a field before the last is not a hexadecimal
/// group denotes no groups.
pub proof fn lemma_groups_of_fields_prefix(f: Seq<Seq<char>>, j: int, v4_tail: bool)
    requires
        0 <= j < f.len(),
        groups_of_fields(f.take(j), false) is None,
    ensures
        groups_of_fields(f, v4_tail) is None,
    decreases f.len(),
{
    if j == f.len() - 1 {
        assert(f.take(j) =~= f.drop_last());
    } else {
        assert(f.drop_last().take(j) =~= f.take(j));
        lemma_groups_of_fields_prefix(f.drop_last(), j, false);
    }
}

/// A group of at most four hexadecimal digits is below `2^16`.
pub proof fn lemma_group_value_bound(s: Seq<char>)
    requires
        is_group_text(s),
    ensures
        number_value(s, 16) <= 0xffff,
{
    reveal_with_fuel(number_value, 5);
    let n = s.len() as int;
    assert(digit_value(s[n - 1]) < 16);
    if n >= 2 {
        assert(s.drop_last().last() == s[n - 2]);
        assert(digit_value(s[n - 2]) < 16);
    }
    if n >= 3 {
        assert(s.drop_last().drop_last().last() == s[n - 3]);
        assert(digit_value(s[n - 3]) < 16);
    }
    if n >= 4 {
        assert(s.drop_last().drop_last().drop_last().last() == s[n - 4]);
        assert(digit_value(s[n - 4]) < 16);
    }
}

/// The value of one group in hexadecimal text.
pub fn parse_group(s: &[char]) -> (group: Option<u16>)
    ensures
        group == if is_group_text(s@) {
            Some(number_value(s@, 16) as u16)
        } else {
            None::<u16>
        },
{
    if s.len() > 4 {
        return None;
    }
    proof {
        if is_group_text(s@) {
            lemma_group_value_bound(s@);
        }
    }
    match parse_number(s, 16, 0xffff) {
        Some(v) => Some(v as u16),
        None => None,
    }
}

/// The groups that `s` denotes as a colon-separated list.
pub fn parse_group_list(s: &[char], v4_tail: bool) -> (list: Option<Vec<u16>>)
    ensures
        match list {
            Some(g) => groups_of_list(s@, v4_tail) == Some(g@),
            None => groups_of_list(s@, v4_tail) is None,
        },
{
    let mut groups: Vec<u16> = Vec::new();
    if s.len() == 0 {
        return Some(groups);
    }
    let fields = split_fields(s, ':');
    let ghost f = split(s@, ':');
    proof {
        crate::text::lemma_split_nonempty(s@, ':');
    }
    let n = fields.len();
    let mut k: usize = 0;
    while k < n - 1
        invariant
            s@.len() > 0,
            f == split(s@, ':'),
            n == fields@.len(),
            n == f.len(),
            n >= 1,
            0 <= k <= n - 1,
            forall|j: int| 0 <= j < n ==> (#[trigger] fields@[j])@ == f[j],
            groups_of_fields(f.take(k as int), false) == Some(groups@),
        decreases n - k,
    {
        proof {
            assert(f.take(k + 1).drop_last() =~= f.take(k as int));
        }
        match parse_group(fields[k]) {
            Some(g) => {
                groups.push(g);
            },
            None => {
                proof {
                    lemma_groups_of_fields_prefix(f, k + 1, v4_tail);
                }
                return None;
            },
        }
        k = k + 1;
    }
    proof {
        assert(f.take(n - 1) =~= f.drop_last());
    }
    let last = fields[n - 1];
    match parse_group(last) {
        Some(g) => {
            groups.push(g);
            Some(groups)
        },
        None => {
            if v4_tail {
                match parse_ipv4(last) {
                    Some(v) => {
                        groups.push((v / 0x1_0000) as u16);
                        groups.push((v % 0x1_0000) as u16);
                        Some(groups)
                    },
                    None => None,
                }
            } else {
                None
            }
        },
    }
}

/// The 128-bit value of eight groups.
pub(crate) fn pack(g: &Vec<u16>) -> (value: u128)
    requires
        g@.len() == 8,
    ensures
        value == pack_groups(g@),
{
    let mut value: u128 = g[0] as u128;
    value = value * 0x1_0000 + g[1] as u128;
    value = value * 0x1_0000 + g[2] as u128;
    value = value * 0x1_0000 + g[3] as u128;
    value = value * 0x1_0000 + g[4] as u128;
    value = value * 0x1_0000 + g[5] as u128;
    value = value * 0x1_0000 + g[6] as u128;
    value = value * 0x1_0000 + g[7] as u128;
    value
}

/// The address that `s` denotes in colon-hexadecimal notation.
pub fn parse_ipv6(s: &[char]) -> (addr: Option<u128>)
    ensures
        addr == ipv6_of_text(s@),
{
    let n = s.len();
    match find_colons(s) {
        None => {
            match parse_group_list(s, true) {
                Some(g) => {
                    if g.len() == 8 {
                        Some(pack(&g))
                    } else {
                        None
                    }
                },
                None => None,
            }
        },
        Some(i) => {
            proof {
                assert(s@.subrange(0, i as int) =~= s@.take(i as int));
                assert(s@.subrange(i + 2, n as int) =~= s@.skip(i + 2));
            }
            let head = parse_group_list(slice_subrange(s, 0, i), false);
            let tail = parse_group_list(slice_subrange(s, i + 2, n), true);
            match (head, tail) {
                (Some(head), Some(tail)) => {
                    if head.len() > 7 || tail.len() > 7 - head.len() {
                        return None;
                    }
                    let mut groups: Vec<u16> = head;
                    let ghost h = groups@;
                    let fill: usize = 8 - groups.len() - tail.len();
                    let mut z: usize = 0;
                    while z < fill
                        invariant
                            0 <= z <= fill,
                            groups@ == h + zero_groups(z as nat),
                        decreases fill - z,
                    {
                        groups.push(0);
                        z = z + 1;
                        proof {
                            assert(groups@ =~= h + zero_groups(z as nat));
                        }
                    }
                    let mut t: usize = 0;
                    while t < tail.len()
                        invariant
                            0 <= t <= tail@.len(),
                            groups@ == h + zero_groups(fill as nat) + tail@.take(t as int),
                        decreases tail@.len() - t,
                    {
                        groups.push(tail[t]);
                        t = t + 1;
                        proof {
                            assert(groups@ =~= h + zero_groups(fill as nat) + tail@.take(t as int));
                        }
                    }
                    proof {
                        assert(tail@.take(tail@.len() as int) =~= tail@);
                    }
                    Some(pack(&groups))
                },
                _ => None,
            }
        },
    }
}

/// The eight 16-bit groups of `v`, the most significant first.
pub fn groups(v: u128) -> (g: Vec<u16>)
    ensures
        g@ == groups_of(v),
{
    proof {
        reveal_with_fuel(drop_groups, 8);
    }
    let g7 = (v % 0x1_0000) as u16;
    let v1 = v / 0x1_0000;
    let g6 = (v1 % 0x1_0000) as u16;
    let v2 = v1 / 0x1_0000;
    let g5 = (v2 % 0x1_0000) as u16;
    let v3 = v2 / 0x1_0000;
    let g4 = (v3 % 0x1_0000) as u16;
    let v4 = v3 / 0x1_0000;
    let g3 = (v4 % 0x1_0000) as u16;
    let v5 = v4 / 0x1_0000;
    let g2 = (v5 % 0x1_0000) as u16;
    let v6 = v5 / 0x1_0000;
    let g1 = (v6 % 0x1_0000) as u16;
    let v7 = v6 / 0x1_0000;
    let g0 = (v7 % 0x1_0000) as u16;
    let g = vec![g0, g1, g2, g3, g4, g5, g6, g7];
    proof {
        assert(g@ =~= groups_of(v));
    }
    g
}

/// The start and the length of the longest run of zero groups among the
/// eight groups `g`.
pub(crate) fn find_zero_run(g: &Vec<u16>) -> (run: (usize, usize))
    requires
        g@.len() == 8,
    ensures
        run.0 == longest_zero_run(g@, 8),
        run.1 == zero_run(g@, run.0 as int),
        run.0 + run.1 <= 8,
{
    let mut runs: Vec<usize> = vec![0, 0, 0, 0, 0, 0, 0, 0];
    let mut i: usize = 8;
    while i > 0
        invariant
            g@.len() == 8,
            runs@.len() == 8,
            0 <= i <= 8,
            forall|j: int| i <= j < 8 ==> #[trigger] runs@[j] == zero_run(g@, j) && j + runs@[j] <= 8,
        decreases i,
    {
        i = i - 1;
        let after: usize = if i + 1 < 8 {
            runs[i + 1]
        } else {
            0
        };
        let here: usize = if g[i] == 0 {
            after + 1
        } else {
            0
        };
        let ghost prev = runs@;
        runs.set(i, here);
        proof {
            assert(after == zero_run(g@, i + 1));
            assert forall|j: int| i <= j < 8 implies #[trigger] runs@[j] == zero_run(g@, j) && j
                + runs@[j] <= 8 by {
                if j > i {
                    assert(runs@[j] == prev[j]);
                }
            }
        }
    }
    let mut best: usize = 0;
    let mut k: usize = 1;
    while k < 8
        invariant
            g@.len() == 8,
            runs@.len() == 8,
            1 <= k <= 8,
            0 <= best < k,
            best == longest_zero_run(g@, k as int),
            forall|j: int| 0 <= j < 8 ==> #[trigger] runs@[j] == zero_run(g@, j) && j + runs@[j] <= 8,
        decreases 8 - k,
    {
        if runs[k] > runs[best] {
            best = k;
        }
        k = k + 1;
    }
    (best, runs[best])
}

/// Appends the groups of `g` from position `from` up to `to`, in
/// hexadecimal, separated by colons.
pub(crate) fn push_group_list(out: &mut String, g: &Vec<u16>, from: usize, to: usize)
    requires
        from <= to <= g@.len(),
    ensures
        final(out)@ == old(out)@ + group_list_text(g@.subrange(from as int, to as int)),
{
    let mut k: usize = from;
    while k < to
        invariant
            from <= k <= to <= g@.len(),
            out@ == old(out)@ + group_list_text(g@.subrange(from as int, k as int)),
        decreases to - k,
    {
        let ghost before = g@.subrange(from as int, k as int);
        let ghost now = g@.subrange(from as int, k + 1);
        proof {
            assert(group_fields(now).drop_last() =~= group_fields(before));
            assert(group_fields(now).last() == number_text(g@[k as int] as nat, 16));
        }
        if k > from {
            push_separator(out, ':');
        }
        push_hex(out, g[k]);
        proof {
            assert(out@ =~= old(out)@ + group_list_text(now));
        }
        k = k + 1;
    }
}

/// Appends the text of the address `v`.
pub fn push_ipv6(out: &mut String, v: u128)
    ensures
        final(out)@ == old(out)@ + ipv6_text(v),
{
    let g = groups(v);
    if g[0] == 0 && g[1] == 0 && g[2] == 0 && g[3] == 0 && g[4] == 0 && g[5] == 0xffff {
        push_separator(out, ':');
        push_separator(out, ':');
        push_hex(out, 0xffff);
        push_separator(out, ':');
        push_ipv4(out, g[6] as u32 * 0x1_0000 + g[7] as u32);
        proof {
            reveal_with_fuel(number_text, 4);
            assert(number_text(0xffff, 16) =~= seq!['f', 'f', 'f', 'f']);
            assert(final(out)@ =~= old(out)@ + ipv6_text(v));
        }
    } else {
        let (start, len) = find_zero_run(&g);
        if len > 1 {
            push_group_list(out, &g, 0, start);
            push_separator(out, ':');
            push_separator(out, ':');
            push_group_list(out, &g, start + len, 8);
            proof {
                assert(g@.subrange(0, start as int) =~= g@.take(start as int));
                assert(g@.subrange(start + len, 8) =~= g@.skip(start + len));
                assert(final(out)@ =~= old(out)@ + ipv6_text(v));
            }
        } else {
            push_group_list(out, &g, 0, 8);
            proof {
                assert(g@.subrange(0, 8) =~= g@);
            }
        }
    }
}

} // verus!
