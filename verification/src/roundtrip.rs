//! Reading back what was written: a text made from an address, or from an
//! address and a mask, denotes what it was made from.

use vstd::prelude::*;
use crate::address::{address_of_text, address_text, prefix_mask, Address};
use crate::cidr::{subnet_of_text, subnet_text, ParseError};
use crate::ipv4::{ipv4_of_text, ipv4_text, is_octet_text, pack_octets};
use crate::ipv6::{
    drop_groups, group_fields, group_list_text, groups_of, groups_of_fields, groups_of_list,
    ipv6_of_text, ipv6_text, is_group_text, is_v4_mapped, longest_zero_run, pack_groups,
    zero_groups, zero_run,
};
use crate::laws::lemma_prefix_len_of_prefix_mask;
use crate::text::{
    digit_char, digit_value, is_digit_of, is_hex_digit, is_number, join, last_index_of,
    find_double_colon, number_text, number_value, split, u8_of_text,
};

verus! {

/// Whether `c` does not occur in `s`.
pub open spec fn free_of(s: Seq<char>, c: char) -> bool {
    forall|i: int| 0 <= i < s.len() ==> #[trigger] s[i] != c
}

/// The digit of a value below 16 is a hexadecimal digit of that value.
pub proof fn lemma_digit_char(d: nat)
    requires
        d < 16,
    ensures
        is_hex_digit(digit_char(d)),
        digit_value(digit_char(d)) == d,
        d != 0 ==> digit_char(d) != '0',
{
}

/// A hexadecimal digit is none of the separators and no sign.
pub proof fn lemma_hex_digit_is_no_separator(c: char)
    requires
        is_hex_digit(c),
    ensures
        c != '.',
        c != ':',
        c != '/',
        c != '+',
{
}

/// The text of a number is a run of digits, reads back as the number, and
/// starts with no zero unless the number is zero.
pub proof fn lemma_number_text(n: nat, radix: nat)
    requires
        2 <= radix <= 16,
    ensures
        is_number(number_text(n, radix), radix),
        number_value(number_text(n, radix), radix) == n,
        n != 0 ==> number_text(n, radix)[0] != '0',
    decreases n,
{
    let t = number_text(n, radix);
    if n < radix {
        lemma_digit_char(n);
        assert(t.drop_last() =~= Seq::<char>::empty());
        assert(number_value(t.drop_last(), radix) == 0);
        assert(t.last() == digit_char(n));
        assert(number_value(t, radix) == 0 * radix + n);
    } else {
        let q = n / radix;
        let r = n % radix;
        assert(q < n && q >= 1 && r < radix && q * radix + r == n) by (nonlinear_arith)
            requires
                radix >= 2,
                n >= radix,
                q == n / radix,
                r == n % radix,
        ;
        lemma_number_text(q, radix);
        lemma_digit_char(r);
        let front = number_text(q, radix);
        assert(t == front.push(digit_char(r)));
        assert(t.drop_last() =~= front);
        assert(t.last() == digit_char(r));
        assert(number_value(t, radix) == number_value(front, radix) * radix + digit_value(
            t.last(),
        ));
        assert(number_value(t, radix) == q * radix + r);
        assert(t[0] == front[0]);
        assert forall|i: int| 0 <= i < t.len() implies is_digit_of(#[trigger] t[i], radix) by {
            if i < front.len() {
                assert(t[i] == front[i]);
            }
        }
    }
}

/// The decimal text of a number below 256 has at most three digits, and the
/// hexadecimal text of a number below 65536 at most four.
pub proof fn lemma_number_text_len(n: nat)
    ensures
        n < 256 ==> number_text(n, 10).len() <= 3,
        n < 0x1_0000 ==> number_text(n, 16).len() <= 4,
{
    reveal_with_fuel(number_text, 4);
}

/// No separator and no sign occurs in the text of a number.
pub proof fn lemma_number_text_free(n: nat, radix: nat, c: char)
    requires
        2 <= radix <= 16,
        c == '.' || c == ':' || c == '/' || c == '+',
    ensures
        free_of(number_text(n, radix), c),
{
    lemma_number_text(n, radix);
    let t = number_text(n, radix);
    assert forall|i: int| 0 <= i < t.len() implies #[trigger] t[i] != c by {
        assert(is_digit_of(t[i], radix));
        lemma_hex_digit_is_no_separator(t[i]);
    }
}

/// A text in which the separator does not occur is one field.
pub proof fn lemma_split_one_field(s: Seq<char>, sep: char)
    requires
        free_of(s, sep),
    ensures
        split(s, sep) == seq![s],
    decreases s.len(),
{
    if s.len() == 0 {
        assert(s =~= Seq::<char>::empty());
    } else {
        let front = s.drop_last();
        assert forall|i: int| 0 <= i < front.len() implies #[trigger] front[i] != sep by {
            assert(front[i] == s[i]);
        }
        lemma_split_one_field(front, sep);
        assert(s.last() == s[s.len() - 1]);
        assert(front.push(s.last()) =~= s);
        assert(seq![front].drop_last().push(s) =~= seq![s]);
    }
}

/// After a separator, a text in which the separator does not occur is one
/// more field.
pub proof fn lemma_split_append_field(x: Seq<char>, y: Seq<char>, sep: char)
    requires
        free_of(y, sep),
    ensures
        split(x + seq![sep] + y, sep) == split(x, sep).push(y),
    decreases y.len(),
{
    let s = x + seq![sep] + y;
    if y.len() == 0 {
        assert(s.drop_last() =~= x);
        assert(s.last() == sep);
        assert(y =~= Seq::<char>::empty());
    } else {
        let y1 = y.drop_last();
        assert forall|i: int| 0 <= i < y1.len() implies #[trigger] y1[i] != sep by {
            assert(y1[i] == y[i]);
        }
        lemma_split_append_field(x, y1, sep);
        assert(s.drop_last() =~= x + seq![sep] + y1);
        assert(s.last() == y[y.len() - 1]);
        let front = split(x, sep).push(y1);
        assert(front.drop_last() =~= split(x, sep));
        assert(front.last().push(s.last()) =~= y);
    }
}

/// Fields in which the separator does not occur, joined and split again,
/// are the same fields.
pub proof fn lemma_split_join(f: Seq<Seq<char>>, sep: char)
    requires
        f.len() >= 1,
        forall|k: int| 0 <= k < f.len() ==> free_of(#[trigger] f[k], sep),
    ensures
        split(join(f, sep), sep) == f,
    decreases f.len(),
{
    if f.len() == 1 {
        lemma_split_one_field(f[0], sep);
        assert(seq![f[0]] =~= f);
    } else {
        let front = f.drop_last();
        assert forall|k: int| 0 <= k < front.len() implies free_of(#[trigger] front[k], sep) by {
            assert(front[k] == f[k]);
        }
        lemma_split_join(front, sep);
        assert(join(f, sep) =~= join(front, sep) + seq![sep] + f.last());
        lemma_split_append_field(join(front, sep), f.last(), sep);
        assert(front.push(f.last()) =~= f);
    }
}

/// The last occurrence of a character that does not occur after it.
pub proof fn lemma_last_index_of(x: Seq<char>, y: Seq<char>, c: char)
    requires
        free_of(y, c),
    ensures
        last_index_of(x + seq![c] + y, c) == Some(x.len() as int),
        (x + seq![c] + y).take(x.len() as int) == x,
        (x + seq![c] + y).skip(x.len() as int + 1) == y,
    decreases y.len(),
{
    let s = x + seq![c] + y;
    assert(s.take(x.len() as int) =~= x);
    assert(s.skip(x.len() as int + 1) =~= y);
    if y.len() == 0 {
        assert(s.last() == c);
    } else {
        let y1 = y.drop_last();
        assert forall|i: int| 0 <= i < y1.len() implies #[trigger] y1[i] != c by {
            assert(y1[i] == y[i]);
        }
        lemma_last_index_of(x, y1, c);
        assert(s.drop_last() =~= x + seq![c] + y1);
        assert(s.last() == y[y.len() - 1]);
    }
}

/// The decimal text of a number below 256 reads back as the number.
pub proof fn lemma_u8_text_round_trip(n: nat)
    requires
        n < 256,
    ensures
        u8_of_text(number_text(n, 10)) == Some(n as u8),
{
    lemma_number_text(n, 10);
    lemma_number_text_free(n, 10, '+');
}

/// A character that occurs in neither of two texts occurs in neither order
/// of them put together.
pub proof fn lemma_free_of_concat(x: Seq<char>, y: Seq<char>, c: char)
    requires
        free_of(x, c),
        free_of(y, c),
    ensures
        free_of(x + y, c),
{
    assert forall|i: int| 0 <= i < (x + y).len() implies #[trigger] (x + y)[i] != c by {
        if i < x.len() {
            assert((x + y)[i] == x[i]);
        } else {
            assert((x + y)[i] == y[i - x.len()]);
        }
    }
}

/// The decimal text of an octet is the text of an octet, of that value, and
/// holds none of the separators `:` and `/`.
pub proof fn lemma_octet_text(n: nat)
    requires
        n < 256,
    ensures
        is_octet_text(number_text(n, 10)),
        number_value(number_text(n, 10), 10) == n,
        free_of(number_text(n, 10), '.'),
        free_of(number_text(n, 10), ':'),
        free_of(number_text(n, 10), '/'),
{
    lemma_number_text(n, 10);
    lemma_number_text_len(n);
    lemma_number_text_free(n, 10, '.');
    lemma_number_text_free(n, 10, ':');
    lemma_number_text_free(n, 10, '/');
}

/// Neither `:` nor `/` occurs in the dotted-decimal text of an address.
pub proof fn lemma_ipv4_text_free(v: u32, c: char)
    requires
        c == ':' || c == '/',
    ensures
        free_of(ipv4_text(v), c),
{
    let t0 = number_text(v as nat / 0x100_0000, 10);
    let t1 = number_text((v as nat / 0x1_0000) % 256, 10);
    let t2 = number_text((v as nat / 0x100) % 256, 10);
    let t3 = number_text(v as nat % 256, 10);
    let dot = seq!['.'];
    lemma_octet_text(v as nat / 0x100_0000);
    lemma_octet_text((v as nat / 0x1_0000) % 256);
    lemma_octet_text((v as nat / 0x100) % 256);
    lemma_octet_text(v as nat % 256);
    assert(free_of(dot, c));
    lemma_free_of_concat(t0, dot, c);
    lemma_free_of_concat(t0 + dot, t1, c);
    lemma_free_of_concat(t0 + dot + t1, dot, c);
    lemma_free_of_concat(t0 + dot + t1 + dot, t2, c);
    lemma_free_of_concat(t0 + dot + t1 + dot + t2, dot, c);
    lemma_free_of_concat(t0 + dot + t1 + dot + t2 + dot, t3, c);
}

/// The dotted-decimal text of an address denotes that address.
pub proof fn lemma_ipv4_text_round_trip(v: u32)
    ensures
        ipv4_of_text(ipv4_text(v)) == Some(v),
{
    let o0 = v as nat / 0x100_0000;
    let o1 = (v as nat / 0x1_0000) % 256;
    let o2 = (v as nat / 0x100) % 256;
    let o3 = v as nat % 256;
    let t0 = number_text(o0, 10);
    let t1 = number_text(o1, 10);
    let t2 = number_text(o2, 10);
    let t3 = number_text(o3, 10);
    lemma_octet_text(o0);
    lemma_octet_text(o1);
    lemma_octet_text(o2);
    lemma_octet_text(o3);
    lemma_split_one_field(t0, '.');
    lemma_split_append_field(t0, t1, '.');
    lemma_split_append_field(t0 + seq!['.'] + t1, t2, '.');
    lemma_split_append_field(t0 + seq!['.'] + t1 + seq!['.'] + t2, t3, '.');
    let f = split(ipv4_text(v), '.');
    assert(f == seq![t0].push(t1).push(t2).push(t3));
    assert(f.len() == 4 && f[0] == t0 && f[1] == t1 && f[2] == t2 && f[3] == t3);
    assert(pack_octets(o0, o1, o2, o3) == v);
}

/// A text in which a colon occurs is no dotted-decimal address.
pub proof fn lemma_ipv4_of_text_rejects_colon(s: Seq<char>, i: int)
    requires
        0 <= i < s.len(),
        s[i] == ':',
    ensures
        ipv4_of_text(s) is None,
{
    let (k, j) = lemma_split_covers(s, '.', i);
    let f = split(s, '.');
    if f.len() == 4 {
        assert(!is_digit_of(f[k][j], 10));
        assert(!is_octet_text(f[k]));
    }
}

/// Each character of a text other than the separator stands in one of its
/// fields.
pub proof fn lemma_split_covers(s: Seq<char>, sep: char, i: int) -> (at: (int, int))
    requires
        0 <= i < s.len(),
        s[i] != sep,
    ensures
        0 <= at.0 < split(s, sep).len(),
        0 <= at.1 < split(s, sep)[at.0].len(),
        split(s, sep)[at.0][at.1] == s[i],
    decreases s.len(),
{
    let front = split(s.drop_last(), sep);
    crate::text::lemma_split_nonempty(s.drop_last(), sep);
    if i == s.len() - 1 {
        (front.len() - 1, front.last().len() as int)
    } else {
        let (k, j) = lemma_split_covers(s.drop_last(), sep, i);
        assert(s.drop_last()[i] == s[i]);
        (k, j)
    }
}

/// The eight groups of a value make up that value.
pub proof fn lemma_pack_groups_of(v: u128)
    ensures
        groups_of(v).len() == 8,
        pack_groups(groups_of(v)) == v,
{
    reveal_with_fuel(drop_groups, 9);
    let n = v as nat;
    let d1 = drop_groups(n, 1);
    let d2 = drop_groups(n, 2);
    let d3 = drop_groups(n, 3);
    let d4 = drop_groups(n, 4);
    let d5 = drop_groups(n, 5);
    let d6 = drop_groups(n, 6);
    let d7 = drop_groups(n, 7);
    assert(d1 == n / 0x1_0000);
    assert(d2 == d1 / 0x1_0000);
    assert(d3 == d2 / 0x1_0000);
    assert(d4 == d3 / 0x1_0000);
    assert(d5 == d4 / 0x1_0000);
    assert(d6 == d5 / 0x1_0000);
    assert(d7 == d6 / 0x1_0000);
    assert(d7 < 0x1_0000);
}

/// A run of zero groups ends within the groups, and holds zeros only.
pub proof fn lemma_zero_run(g: Seq<u16>, i: int)
    requires
        0 <= i <= g.len(),
    ensures
        i + zero_run(g, i) <= g.len(),
        forall|j: int| i <= j < i + zero_run(g, i) ==> #[trigger] g[j] == 0,
    decreases g.len() - i,
{
    if i < g.len() && g[i] == 0 {
        lemma_zero_run(g, i + 1);
    }
}

/// The longest run of zero groups among the first `n` positions starts at
/// one of them.
pub proof fn lemma_longest_zero_run(g: Seq<u16>, n: int)
    requires
        n >= 1,
    ensures
        0 <= longest_zero_run(g, n) < n,
    decreases n,
{
    if n > 1 {
        lemma_longest_zero_run(g, n - 1);
    }
}

/// The hexadecimal text of a group is the text of a group, of that value,
/// and holds no colon.
pub proof fn lemma_group_text(n: u16)
    ensures
        is_group_text(number_text(n as nat, 16)),
        number_value(number_text(n as nat, 16), 16) == n,
        free_of(number_text(n as nat, 16), ':'),
{
    lemma_number_text(n as nat, 16);
    lemma_number_text_len(n as nat);
    lemma_number_text_free(n as nat, 16, ':');
}

/// The texts of groups, as a list of fields, denote those groups.
pub proof fn lemma_groups_of_group_fields(g: Seq<u16>, v4_tail: bool)
    ensures
        groups_of_fields(group_fields(g), v4_tail) == Some(g),
    decreases g.len(),
{
    let f = group_fields(g);
    if g.len() == 0 {
        assert(g =~= Seq::<u16>::empty());
    } else {
        lemma_groups_of_group_fields(g.drop_last(), false);
        assert(f.drop_last() =~= group_fields(g.drop_last()));
        lemma_group_text(g.last());
        assert(f.last() == number_text(g.last() as nat, 16));
        assert(g.drop_last().push(g.last()) =~= g);
    }
}

/// Fields that are not empty, joined, are not empty.
pub proof fn lemma_join_nonempty(f: Seq<Seq<char>>, sep: char)
    requires
        f.len() >= 1,
        forall|k: int| 0 <= k < f.len() ==> (#[trigger] f[k]).len() > 0,
    ensures
        join(f, sep).len() > 0,
{
}

/// The text of a list of groups denotes those groups.
pub proof fn lemma_group_list_round_trip(g: Seq<u16>, v4_tail: bool)
    ensures
        groups_of_list(group_list_text(g), v4_tail) == Some(g),
{
    let f = group_fields(g);
    if g.len() == 0 {
        assert(g =~= Seq::<u16>::empty());
    } else {
        assert forall|k: int| 0 <= k < f.len() implies free_of(#[trigger] f[k], ':') && f[k].len()
            > 0 by {
            lemma_group_text(g[k]);
        }
        lemma_join_nonempty(f, ':');
        lemma_split_join(f, ':');
        lemma_groups_of_group_fields(g, v4_tail);
    }
}

/// Whether no two colons stand side by side in `s`.
pub open spec fn no_double_colon(s: Seq<char>) -> bool {
    forall|i: int| 0 <= i && i + 1 < s.len() ==> !(#[trigger] s[i] == ':' && s[i + 1] == ':')
}

/// Where no two colons stand side by side, none are found.
pub proof fn lemma_find_double_colon_none(s: Seq<char>, from: int)
    requires
        no_double_colon(s),
        0 <= from,
    ensures
        find_double_colon(s, from) is None,
    decreases s.len() - from,
{
    if from + 1 < s.len() {
        assert(!(s[from] == ':' && s[from + 1] == ':'));
        lemma_find_double_colon_none(s, from + 1);
    }
}

/// After a text that holds no two colons side by side and does not end in a
/// colon, the first two colons side by side are those that follow it.
pub proof fn lemma_find_double_colon_after(x: Seq<char>, y: Seq<char>, from: int)
    requires
        no_double_colon(x),
        x.len() > 0 ==> x.last() != ':',
        0 <= from <= x.len(),
    ensures
        find_double_colon(x + seq![':', ':'] + y, from) == Some(x.len() as int),
    decreases x.len() - from,
{
    let s = x + seq![':', ':'] + y;
    assert(s[x.len() as int] == ':');
    assert(s[x.len() as int + 1] == ':');
    if from < x.len() {
        assert(s[from] == x[from]);
        if from + 1 < x.len() {
            assert(s[from + 1] == x[from + 1]);
            assert(!(x[from] == ':' && x[from + 1] == ':'));
        } else {
            assert(x[from] == x.last());
        }
        lemma_find_double_colon_after(x, y, from + 1);
    }
}

/// Fields that are not empty and hold no colon, joined by colons, hold no
/// two colons side by side and do not end in a colon.
pub proof fn lemma_join_colons(f: Seq<Seq<char>>)
    requires
        forall|k: int| 0 <= k < f.len() ==> (#[trigger] f[k]).len() > 0 && free_of(f[k], ':'),
    ensures
        no_double_colon(join(f, ':')),
        f.len() >= 1 ==> join(f, ':').len() > 0 && join(f, ':').last() != ':',
        f.len() >= 2 ==> exists|i: int| 0 <= i < join(f, ':').len() && join(f, ':')[i] == ':',
    decreases f.len(),
{
    if f.len() == 1 {
        let t = f[0];
        assert(t.last() == t[t.len() - 1]);
        assert forall|i: int| 0 <= i && i + 1 < t.len() implies !(#[trigger] t[i] == ':' && t[i
            + 1] == ':') by {
            assert(t[i] != ':');
        }
    } else if f.len() >= 2 {
        let front = f.drop_last();
        assert forall|k: int| 0 <= k < front.len() implies (#[trigger] front[k]).len() > 0
            && free_of(front[k], ':') by {
            assert(front[k] == f[k]);
        }
        lemma_join_colons(front);
        let j = join(front, ':');
        let t = f.last();
        let s = join(f, ':');
        assert(s =~= j.push(':') + t);
        assert(t.len() > 0 && free_of(t, ':'));
        assert(j.last() == j[j.len() - 1]);
        assert(s.last() == t[t.len() - 1]);
        assert(s[j.len() as int] == ':');
        assert forall|i: int| 0 <= i && i + 1 < s.len() implies !(#[trigger] s[i] == ':' && s[i
            + 1] == ':') by {
            if i + 1 < j.len() {
                assert(s[i] == j[i] && s[i + 1] == j[i + 1]);
                assert(!(j[i] == ':' && j[i + 1] == ':'));
            } else if i + 1 == j.len() {
                assert(s[i] == j[i]);
            } else if i == j.len() {
                assert(s[i + 1] == t[0]);
                assert(t[0] != ':');
            } else {
                assert(s[i] == t[i - j.len() - 1]);
                assert(t[i - j.len() - 1] != ':');
            }
        }
    }
}

/// The text of a list of groups holds no two colons side by side and does
/// not end in a colon; that of two groups or more holds a colon.
pub proof fn lemma_group_list_colons(g: Seq<u16>)
    ensures
        no_double_colon(group_list_text(g)),
        group_list_text(g).len() > 0 ==> group_list_text(g).last() != ':',
        g.len() >= 2 ==> exists|i: int|
            0 <= i < group_list_text(g).len() && group_list_text(g)[i] == ':',
{
    let f = group_fields(g);
    assert forall|k: int| 0 <= k < f.len() implies (#[trigger] f[k]).len() > 0 && free_of(
        f[k],
        ':',
    ) by {
        lemma_group_text(g[k]);
    }
    lemma_join_colons(f);
    if g.len() >= 2 {
        let i = choose|i: int| 0 <= i < join(f, ':').len() && join(f, ':')[i] == ':';
        assert(0 <= i < group_list_text(g).len() && group_list_text(g)[i] == ':');
    }
}

/// Eight groups written with `::` in place of a run of zero groups denote
/// those groups, and no dotted-decimal address.
proof fn lemma_compressed_round_trip(g: Seq<u16>, start: int, len: int)
    requires
        g.len() == 8,
        0 <= start,
        2 <= len,
        start + len <= 8,
        forall|j: int| start <= j < start + len ==> #[trigger] g[j] == 0,
    ensures
        ipv6_of_text(
            group_list_text(g.take(start)) + seq![':', ':'] + group_list_text(g.skip(start + len)),
        ) == Some(pack_groups(g) as u128),
        ipv4_of_text(
            group_list_text(g.take(start)) + seq![':', ':'] + group_list_text(g.skip(start + len)),
        ) is None,
{
    let head = g.take(start);
    let tail = g.skip(start + len);
    let x = group_list_text(head);
    let y = group_list_text(tail);
    let s = x + seq![':', ':'] + y;
    lemma_group_list_colons(head);
    lemma_find_double_colon_after(x, y, 0);
    assert(s.take(x.len() as int) =~= x);
    assert(s.skip(x.len() as int + 2) =~= y);
    lemma_group_list_round_trip(head, false);
    lemma_group_list_round_trip(tail, true);
    assert(head + zero_groups((8 - head.len() - tail.len()) as nat) + tail =~= g);
    assert(s[x.len() as int] == ':');
    lemma_ipv4_of_text_rejects_colon(s, x.len() as int);
}

/// Eight groups written in full denote those groups, and no dotted-decimal
/// address.
proof fn lemma_plain_round_trip(g: Seq<u16>)
    requires
        g.len() == 8,
    ensures
        ipv6_of_text(group_list_text(g)) == Some(pack_groups(g) as u128),
        ipv4_of_text(group_list_text(g)) is None,
{
    let s = group_list_text(g);
    lemma_group_list_colons(g);
    lemma_find_double_colon_none(s, 0);
    lemma_group_list_round_trip(g, true);
    let i = choose|i: int| 0 <= i < s.len() && s[i] == ':';
    lemma_ipv4_of_text_rejects_colon(s, i);
}

/// The groups of an IPv4-mapped address, written as `::ffff:` and the last
/// two groups in dotted-decimal notation, denote those groups, and no
/// dotted-decimal address.
proof fn lemma_mapped_round_trip(g: Seq<u16>)
    requires
        g.len() == 8,
        is_v4_mapped(g),
    ensures
        ipv6_of_text(
            seq![':', ':', 'f', 'f', 'f', 'f', ':'] + ipv4_text(
                (g[6] as nat * 0x1_0000 + g[7] as nat) as u32,
            ),
        ) == Some(pack_groups(g) as u128),
        ipv4_of_text(
            seq![':', ':', 'f', 'f', 'f', 'f', ':'] + ipv4_text(
                (g[6] as nat * 0x1_0000 + g[7] as nat) as u32,
            ),
        ) is None,
{
    let w = (g[6] as nat * 0x1_0000 + g[7] as nat) as u32;
    let ip4 = ipv4_text(w);
    let s = seq![':', ':', 'f', 'f', 'f', 'f', ':'] + ip4;
    let ffff = number_text(0xffff, 16);
    assert(ffff =~= seq!['f', 'f', 'f', 'f']) by {
        reveal_with_fuel(number_text, 4);
    }
    lemma_group_text(0xffff);
    // The two colons in front are the first.
    assert(s[0] == ':' && s[1] == ':');
    assert(find_double_colon(s, 0) == Some(0int));
    assert(s.take(0) =~= Seq::<char>::empty());
    let tail = s.skip(2);
    assert(tail =~= ffff + seq![':'] + ip4);
    // What follows them is the field `ffff` and the dotted-decimal field.
    lemma_ipv4_text_free(w, ':');
    lemma_split_one_field(ffff, ':');
    lemma_split_append_field(ffff, ip4, ':');
    let f = split(tail, ':');
    assert(f == seq![ffff].push(ip4));
    assert(f.drop_last() =~= seq![ffff]);
    assert(seq![ffff].drop_last() =~= Seq::<Seq<char>>::empty());
    assert(groups_of_fields(Seq::<Seq<char>>::empty(), false) == Some(Seq::<u16>::empty()));
    assert(groups_of_fields(seq![ffff], false) == Some(Seq::<u16>::empty().push(0xffffu16)));
    let dot = number_text(w as nat / 0x100_0000, 10).len() as int;
    assert(ip4[dot] == '.');
    assert(!is_digit_of(ip4[dot], 16));
    assert(!is_group_text(ip4));
    lemma_ipv4_text_round_trip(w);
    let t = Seq::<u16>::empty().push(0xffffu16).push((w / 0x1_0000) as u16).push(
        (w % 0x1_0000) as u16,
    );
    assert(f.last() == ip4);
    assert(groups_of_fields(f, true) == Some(t));
    assert(tail.len() > 0);
    assert(groups_of_list(tail, true) == Some(t));
    assert(Seq::<u16>::empty() + zero_groups(5) + t =~= g);
    lemma_ipv4_of_text_rejects_colon(s, 0);
}

/// The text of an IPv6 address denotes that address, and no IPv4 address.
pub proof fn lemma_ipv6_text_round_trip(v: u128)
    ensures
        ipv6_of_text(ipv6_text(v)) == Some(v),
        ipv4_of_text(ipv6_text(v)) is None,
{
    let g = groups_of(v);
    lemma_pack_groups_of(v);
    if is_v4_mapped(g) {
        lemma_mapped_round_trip(g);
    } else {
        let start = longest_zero_run(g, 8);
        let len = zero_run(g, start);
        lemma_longest_zero_run(g, 8);
        lemma_zero_run(g, start);
        if len > 1 {
            lemma_compressed_round_trip(g, start, len as int);
        } else {
            lemma_plain_round_trip(g);
        }
    }
}

/// The text of an address denotes that address.
pub proof fn lemma_address_text_round_trip(addr: Address)
    ensures
        address_of_text(address_text(addr)) == Some(addr),
{
    match addr {
        Address::V4(a) => lemma_ipv4_text_round_trip(a),
        Address::V6(a) => lemma_ipv6_text_round_trip(a),
    }
}

/// An address under a mask of `p` leading ones, from 1 to the width of the
/// family, written in CIDR notation and read again, gives the network
/// address of that address and the same mask.
pub proof fn lemma_subnet_text_round_trip(addr: Address, p: nat)
    requires
        1 <= p <= addr.spec_family().bits(),
    ensures
        ({
            let mask = prefix_mask(addr.spec_family(), p);
            subnet_of_text(subnet_text(addr, mask)) == Ok::<(Address, Address), ParseError>(
                (addr.network(mask), mask),
            )
        }),
{
    let mask = prefix_mask(addr.spec_family(), p);
    lemma_prefix_len_of_prefix_mask(addr.spec_family(), p);
    let front = address_text(addr);
    let back = number_text(p, 10);
    assert(subnet_text(addr, mask) == front + seq!['/'] + back);
    lemma_number_text_free(p, 10, '/');
    lemma_last_index_of(front, back, '/');
    lemma_address_text_round_trip(addr);
    lemma_u8_text_round_trip(p);
}

} // verus!
