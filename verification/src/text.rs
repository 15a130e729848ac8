//! Text as a sequence of characters: digits, numbers and separators.

use vstd::prelude::*;
use vstd::slice::slice_subrange;
use vstd::string::StringExecFns;

verus! {

/// The characters of a string, in order.
pub fn chars_of(s: &str) -> (chars: Vec<char>)
    ensures
        chars@ == s@,
{
    let mut chars: Vec<char> = Vec::new();
    for c in it: s.chars()
        invariant
            chars@ == it.seq().take(it.index() as int),
            it.seq() == s@,
    {
        chars.push(c);
    }
    chars
}

/// Whether `c` is one of `0`-`9`, `a`-`f`, `A`-`F`.
pub open spec fn is_hex_digit(c: char) -> bool {
    ('0' <= c && c <= '9') || ('a' <= c && c <= 'f') || ('A' <= c && c <= 'F')
}

/// The value of a hexadecimal digit, in either case.
pub open spec fn digit_value(c: char) -> nat {
    if '0' <= c && c <= '9' {
        (c as nat - '0' as nat) as nat
    } else if 'a' <= c && c <= 'f' {
        (c as nat - 'a' as nat + 10) as nat
    } else {
        (c as nat - 'A' as nat + 10) as nat
    }
}

/// Whether `c` is a digit in the given radix (at most 16).
pub open spec fn is_digit_of(c: char, radix: nat) -> bool {
    is_hex_digit(c) && digit_value(c) < radix
}

/// Whether `s` is a non-empty run of digits in the given radix.
pub open spec fn is_number(s: Seq<char>, radix: nat) -> bool {
    s.len() > 0 && forall|i: int| 0 <= i < s.len() ==> is_digit_of(#[trigger] s[i], radix)
}

/// The number that the digits of `s` denote in the given radix, the first
/// digit being the most significant.
pub open spec fn number_value(s: Seq<char>, radix: nat) -> nat
    decreases s.len(),
{
    if s.len() == 0 {
        0
    } else {
        number_value(s.drop_last(), radix) * radix + digit_value(s.last())
    }
}

/// The digit, in lower case, whose value is `d`.
pub open spec fn digit_char(d: nat) -> char {
    if d < 10 {
        ('0' as nat + d) as char
    } else {
        ('a' as nat + d - 10) as char
    }
}

/// The text of `n` in the given radix: no more digits than the number needs,
/// and the single digit `0` for zero.
pub open spec fn number_text(n: nat, radix: nat) -> Seq<char>
    decreases n,
{
    if radix < 2 || n < radix {
        seq![digit_char(n)]
    } else {
        proof {
            assert(n / radix < n) by (nonlinear_arith)
                requires
                    radix >= 2,
                    n >= radix,
            ;
        }
        number_text(n / radix, radix).push(digit_char(n % radix))
    }
}

/// The fields joined, with `sep` between each two.
pub open spec fn join(f: Seq<Seq<char>>, sep: char) -> Seq<char>
    decreases f.len(),
{
    if f.len() == 0 {
        Seq::<char>::empty()
    } else if f.len() == 1 {
        f[0]
    } else {
        join(f.drop_last(), sep).push(sep) + f.last()
    }
}

/// The fields of `s` between the occurrences of `sep`: one more field than
/// there are separators, each possibly empty.
pub open spec fn split(s: Seq<char>, sep: char) -> Seq<Seq<char>>
    decreases s.len(),
{
    if s.len() == 0 {
        seq![Seq::<char>::empty()]
    } else {
        let front = split(s.drop_last(), sep);
        if s.last() == sep {
            front.push(Seq::<char>::empty())
        } else {
            front.drop_last().push(front.last().push(s.last()))
        }
    }
}

/// The position of the last occurrence of `c` in `s`.
pub open spec fn last_index_of(s: Seq<char>, c: char) -> Option<int>
    decreases s.len(),
{
    if s.len() == 0 {
        None
    } else if s.last() == c {
        Some(s.len() - 1)
    } else {
        last_index_of(s.drop_last(), c)
    }
}

/// The position, at or after `from`, of the first two adjacent colons in `s`.
pub open spec fn find_double_colon(s: Seq<char>, from: int) -> Option<int>
    decreases s.len() - from,
{
    if from < 0 || from + 1 >= s.len() {
        None
    } else if s[from] == ':' && s[from + 1] == ':' {
        Some(from)
    } else {
        find_double_colon(s, from + 1)
    }
}

/// The number below 256 that `s` denotes in decimal: one or more digits,
/// leading zeros allowed, after an optional plus sign.
pub open spec fn u8_of_text(s: Seq<char>) -> Option<u8> {
    let digits = if s.len() > 0 && s[0] == '+' {
        s.skip(1)
    } else {
        s
    };
    if is_number(digits, 10) && number_value(digits, 10) <= 255 {
        Some(number_value(digits, 10) as u8)
    } else {
        None
    }
}

/// A split has at least one field.
pub proof fn lemma_split_nonempty(s: Seq<char>, sep: char)
    ensures
        split(s, sep).len() >= 1,
    decreases s.len(),
{
    if s.len() > 0 {
        lemma_split_nonempty(s.drop_last(), sep);
    }
}

/// The value of a number is at least the value of each of its prefixes.
pub proof fn lemma_number_value_prefix(s: Seq<char>, k: int, radix: nat)
    requires
        0 <= k <= s.len(),
        radix >= 1,
    ensures
        number_value(s.take(k), radix) <= number_value(s, radix),
    decreases s.len(),
{
    if k == s.len() {
        assert(s.take(k) =~= s);
    } else {
        lemma_number_value_prefix(s.drop_last(), k, radix);
        assert(s.drop_last().take(k) =~= s.take(k));
        assert(number_value(s.drop_last(), radix) <= number_value(s.drop_last(), radix) * radix)
            by (nonlinear_arith)
            requires
                radix >= 1,
        ;
    }
}

/// The value of a hexadecimal digit, if `c` is one.
pub fn hex_digit(c: char) -> (d: Option<u32>)
    ensures
        d is Some <==> is_hex_digit(c),
        d is Some ==> d->0 == digit_value(c) && d->0 < 16,
{
    if '0' <= c && c <= '9' {
        Some(c as u32 - '0' as u32)
    } else if 'a' <= c && c <= 'f' {
        Some(c as u32 - 'a' as u32 + 10)
    } else if 'A' <= c && c <= 'F' {
        Some(c as u32 - 'A' as u32 + 10)
    } else {
        None
    }
}

/// The number that `s` denotes in the given radix, where `s` is a non-empty
/// run of digits of that radix and the number is at most `limit`.
pub(crate) fn parse_number(s: &[char], radix: u32, limit: u32) -> (value: Option<u32>)
    requires
        1 <= radix <= 16,
        limit <= 0xffff,
    ensures
        value == if is_number(s@, radix as nat) && number_value(s@, radix as nat) <= limit {
            Some(number_value(s@, radix as nat) as u32)
        } else {
            None::<u32>
        },
{
    let n = s.len();
    if n == 0 {
        return None;
    }
    let mut acc: u32 = 0;
    let mut i: usize = 0;
    while i < n
        invariant
            n == s@.len(),
            0 <= i <= n,
            1 <= radix <= 16,
            limit <= 0xffff,
            acc <= limit,
            acc == number_value(s@.take(i as int), radix as nat),
            forall|j: int| 0 <= j < i ==> is_digit_of(#[trigger] s@[j], radix as nat),
        decreases n - i,
    {
        let digit = hex_digit(s[i]);
        proof {
            assert(s@.take(i + 1).drop_last() =~= s@.take(i as int));
            lemma_number_value_prefix(s@, i + 1, radix as nat);
        }
        match digit {
            Some(d) => {
                if d >= radix {
                    return None;
                }
                assert(acc * radix <= 0xffff * 16) by (nonlinear_arith)
                    requires
                        acc <= 0xffff,
                        radix <= 16,
                ;
                acc = acc * radix + d;
                if acc > limit {
                    return None;
                }
            },
            None => {
                return None;
            },
        }
        i = i + 1;
    }
    proof {
        assert(s@.take(n as int) =~= s@);
    }
    Some(acc)
}

/// The number below 256 that `s` denotes in decimal.
pub fn parse_u8(s: &[char]) -> (value: Option<u8>)
    ensures
        value == u8_of_text(s@),
{
    let n = s.len();
    let digits = if n > 0 && s[0] == '+' {
        slice_subrange(s, 1, n)
    } else {
        s
    };
    proof {
        assert(s@.subrange(1, n as int) =~= s@.skip(1));
    }
    match parse_number(digits, 10, 255) {
        Some(v) => Some(v as u8),
        None => None,
    }
}

/// The fields of `s` between the occurrences of `sep`.
pub fn split_fields<'a>(s: &'a [char], sep: char) -> (fields: Vec<&'a [char]>)
    ensures
        fields@.len() == split(s@, sep).len(),
        forall|k: int| 0 <= k < fields@.len() ==> (#[trigger] fields@[k])@ == split(s@, sep)[k],
{
    let n = s.len();
    let mut fields: Vec<&'a [char]> = Vec::new();
    let mut begin: usize = 0;
    let mut i: usize = 0;
    while i < n
        invariant
            n == s@.len(),
            0 <= begin <= i <= n,
            fields@.len() + 1 == split(s@.take(i as int), sep).len(),
            forall|k: int|
                0 <= k < fields@.len() ==> (#[trigger] fields@[k])@ == split(
                    s@.take(i as int),
                    sep,
                )[k],
            split(s@.take(i as int), sep).last() == s@.subrange(begin as int, i as int),
        decreases n - i,
    {
        proof {
            assert(s@.take(i + 1).drop_last() =~= s@.take(i as int));
        }
        if s[i] == sep {
            let field = slice_subrange(s, begin, i);
            fields.push(field);
            begin = i + 1;
            proof {
                assert(s@.subrange(begin as int, i + 1) =~= Seq::<char>::empty());
            }
        } else {
            proof {
                assert(s@.subrange(begin as int, i as int).push(s@[i as int]) =~= s@.subrange(
                    begin as int,
                    i + 1,
                ));
            }
        }
        i = i + 1;
    }
    proof {
        assert(s@.take(n as int) =~= s@);
    }
    let field = slice_subrange(s, begin, n);
    fields.push(field);
    fields
}

/// Appends the digit whose value is `d`.
pub(crate) fn push_digit(out: &mut String, d: u8)
    requires
        d < 16,
    ensures
        final(out)@ == old(out)@.push(digit_char(d as nat)),
{
    proof {
        reveal_strlit("0");
        reveal_strlit("1");
        reveal_strlit("2");
        reveal_strlit("3");
        reveal_strlit("4");
        reveal_strlit("5");
        reveal_strlit("6");
        reveal_strlit("7");
        reveal_strlit("8");
        reveal_strlit("9");
        reveal_strlit("a");
        reveal_strlit("b");
        reveal_strlit("c");
        reveal_strlit("d");
        reveal_strlit("e");
        reveal_strlit("f");
    }
    let digit: &'static str = match d {
        0 => "0",
        1 => "1",
        2 => "2",
        3 => "3",
        4 => "4",
        5 => "5",
        6 => "6",
        7 => "7",
        8 => "8",
        9 => "9",
        10 => "a",
        11 => "b",
        12 => "c",
        13 => "d",
        14 => "e",
        _ => "f",
    };
    proof {
        assert(digit@ =~= seq![digit_char(d as nat)]);
        assert(old(out)@ + digit@ =~= old(out)@.push(digit_char(d as nat)));
    }
    out.append(digit);
}

/// Appends the character `c`, one of `.`, `:` and `/`.
pub(crate) fn push_separator(out: &mut String, c: char)
    requires
        c == '.' || c == ':' || c == '/',
    ensures
        final(out)@ == old(out)@.push(c),
{
    proof {
        reveal_strlit(".");
        reveal_strlit(":");
        reveal_strlit("/");
    }
    let sep: &'static str = if c == '.' {
        "."
    } else if c == ':' {
        ":"
    } else {
        "/"
    };
    proof {
        assert(sep@ =~= seq![c]);
        assert(old(out)@ + sep@ =~= old(out)@.push(c));
    }
    out.append(sep);
}

/// Appends the decimal text of `n`.
pub fn push_decimal(out: &mut String, n: u8)
    ensures
        final(out)@ == old(out)@ + number_text(n as nat, 10),
{
    proof {
        reveal_with_fuel(number_text, 3);
    }
    if n >= 100 {
        push_digit(out, n / 100);
    }
    if n >= 10 {
        push_digit(out, (n / 10) % 10);
    }
    push_digit(out, n % 10);
    proof {
        assert(final(out)@ =~= old(out)@ + number_text(n as nat, 10));
    }
}

/// Appends the hexadecimal text of `n`, in lower case.
pub fn push_hex(out: &mut String, n: u16)
    ensures
        final(out)@ == old(out)@ + number_text(n as nat, 16),
{
    proof {
        reveal_with_fuel(number_text, 4);
    }
    if n >= 0x1000 {
        push_digit(out, (n / 0x1000) as u8);
    }
    if n >= 0x100 {
        push_digit(out, ((n / 0x100) % 16) as u8);
    }
    if n >= 0x10 {
        push_digit(out, ((n / 0x10) % 16) as u8);
    }
    push_digit(out, (n % 16) as u8);
    proof {
        assert(final(out)@ =~= old(out)@ + number_text(n as nat, 16));
    }
}

/// The position of the last occurrence of `c` in `s`.
pub fn rfind(s: &[char], c: char) -> (pos: Option<usize>)
    ensures
        pos is Some <==> last_index_of(s@, c) is Some,
        pos is Some ==> pos->0 == last_index_of(s@, c)->0 && pos->0 < s@.len(),
{
    let mut i: usize = s.len();
    proof {
        assert(s@.take(i as int) =~= s@);
    }
    while i > 0
        invariant
            0 <= i <= s@.len(),
            last_index_of(s@, c) == last_index_of(s@.take(i as int), c),
        decreases i,
    {
        i = i - 1;
        proof {
            assert(s@.take(i + 1).drop_last() =~= s@.take(i as int));
        }
        if s[i] == c {
            return Some(i);
        }
    }
    None
}

/// The position of the first two adjacent colons in `s`.
pub fn find_colons(s: &[char]) -> (pos: Option<usize>)
    ensures
        pos is Some <==> find_double_colon(s@, 0) is Some,
        pos is Some ==> pos->0 == find_double_colon(s@, 0)->0 && pos->0 + 2 <= s@.len(),
{
    let n = s.len();
    if n < 2 {
        return None;
    }
    let mut i: usize = 0;
    while i < n - 1
        invariant
            n == s@.len(),
            0 <= i <= n - 1,
            find_double_colon(s@, 0) == find_double_colon(s@, i as int),
        decreases n - i,
    {
        if s[i] == ':' && s[i + 1] == ':' {
            return Some(i);
        }
        i = i + 1;
    }
    None
}

} // verus!
