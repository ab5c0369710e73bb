//! Whole numbers as text.

use crate::text;
use vstd::prelude::*;

verus! {

/// The character of a digit below sixteen.
pub open spec fn digit_char(d: nat) -> char {
    if d == 0 { '0' }
    else if d == 1 { '1' }
    else if d == 2 { '2' }
    else if d == 3 { '3' }
    else if d == 4 { '4' }
    else if d == 5 { '5' }
    else if d == 6 { '6' }
    else if d == 7 { '7' }
    else if d == 8 { '8' }
    else if d == 9 { '9' }
    else if d == 10 { 'a' }
    else if d == 11 { 'b' }
    else if d == 12 { 'c' }
    else if d == 13 { 'd' }
    else if d == 14 { 'e' }
    else { 'f' }
}

/// The value of a digit in either letter case; sixteen for any other character.
pub open spec fn digit_value(c: char) -> nat {
    if '0' <= c <= '9' {
        (c as int - '0' as int) as nat
    } else if 'a' <= c <= 'f' {
        (c as int - 'a' as int + 10) as nat
    } else if 'A' <= c <= 'F' {
        (c as int - 'A' as int + 10) as nat
    } else {
        16
    }
}

/// Whether every character of `s` is a digit to the base `radix`.
pub open spec fn all_digits(s: Seq<char>, radix: nat) -> bool {
    forall|i: int| 0 <= i < s.len() ==> digit_value(#[trigger] s[i]) < radix
}

/// The number that the digits of `s` write to the base `radix`.
pub open spec fn value(s: Seq<char>, radix: nat) -> nat
    decreases s.len(),
{
    if s.len() == 0 {
        0
    } else {
        value(s.drop_last(), radix) * radix + digit_value(s.last())
    }
}

/// `n` in decimal notation, without leading zeros.
pub open spec fn decimal(n: nat) -> Seq<char>
    decreases n,
{
    if n < 10 {
        seq![digit_char(n)]
    } else {
        decimal(n / 10).push(digit_char(n % 10))
    }
}

/// The digits of a number that may carry a leading plus sign.
pub open spec fn unsigned_digits(s: Seq<char>) -> Seq<char> {
    if s.len() > 0 && s[0] == '+' {
        s.skip(1)
    } else {
        s
    }
}

/// The number that `s` writes: an optional plus sign and at least one digit, of a
/// value no greater than `max`.
pub open spec fn parse_unsigned(s: Seq<char>, radix: nat, max: nat) -> Option<nat> {
    let digits = unsigned_digits(s);
    if digits.len() > 0 && all_digits(digits, radix) && value(digits, radix) <= max {
        Some(value(digits, radix))
    } else {
        None
    }
}

pub(crate) fn digit_to_char(d: u8) -> (c: char)
    requires
        d < 16,
    ensures
        c == digit_char(d as nat),
{
    match d {
        0 => '0',
        1 => '1',
        2 => '2',
        3 => '3',
        4 => '4',
        5 => '5',
        6 => '6',
        7 => '7',
        8 => '8',
        9 => '9',
        10 => 'a',
        11 => 'b',
        12 => 'c',
        13 => 'd',
        14 => 'e',
        _ => 'f',
    }
}

fn digit_of(c: char) -> (d: u32)
    ensures
        d == digit_value(c),
{
    if '0' <= c && c <= '9' {
        c as u32 - '0' as u32
    } else if 'a' <= c && c <= 'f' {
        c as u32 - 'a' as u32 + 10
    } else if 'A' <= c && c <= 'F' {
        c as u32 - 'A' as u32 + 10
    } else {
        16
    }
}

pub(crate) fn decimal_of(n: u128) -> (res: String)
    ensures
        res@ == decimal(n as nat),
    decreases n,
{
    if n < 10 {
        let mut out = String::new();
        out.push(digit_to_char(n as u8));
        assert(out@ == seq![digit_char(n as nat)]);
        out
    } else {
        let mut out = decimal_of(n / 10);
        out.push(digit_to_char((n % 10) as u8));
        out
    }
}

/// More digits never make the number smaller.
proof fn lemma_value_grows(s: Seq<char>, radix: nat, i: int)
    requires
        0 <= i <= s.len(),
        radix >= 1,
    ensures
        value(s.take(i), radix) <= value(s, radix),
    decreases s.len() - i,
{
    if i == s.len() {
        assert(s.take(i) == s);
    } else {
        lemma_value_grows(s, radix, i + 1);
        assert(s.take(i + 1).drop_last() == s.take(i));
        let v = value(s.take(i), radix);
        assert(v <= v * radix) by (nonlinear_arith)
            requires
                radix >= 1,
                v >= 0,
        ;
    }
}

pub(crate) fn parsed_unsigned(v: &Vec<char>, radix: u32, max: u64) -> (res: Option<u64>)
    requires
        1 <= radix <= 16,
    ensures
        match res {
            Some(n) => parse_unsigned(v@, radix as nat, max as nat) == Some(n as nat),
            None => parse_unsigned(v@, radix as nat, max as nat) is None,
        },
{
    let mut from: usize = 0;
    if v.len() > 0 && v[0] == '+' {
        from = 1;
    }
    let digits = text::cut(v, from, v.len());
    assert(digits@ == unsigned_digits(v@));
    if digits.len() == 0 {
        return None;
    }
    let mut n: u64 = 0;
    let mut i: usize = 0;
    while i < digits.len()
        invariant
            i <= digits.len(),
            1 <= radix <= 16,
            digits@ == unsigned_digits(v@),
            digits.len() > 0,
            all_digits(digits@.take(i as int), radix as nat),
            n == value(digits@.take(i as int), radix as nat),
            n <= max,
        decreases digits.len() - i,
    {
        let d: u32 = digit_of(digits[i]);
        if d >= radix {
            assert(digit_value(digits@[i as int]) >= radix);
            return None;
        }
        assert(n * radix + d <= u64::MAX * 16 + 16) by (nonlinear_arith)
            requires
                n <= u64::MAX,
                radix <= 16,
                d <= 16,
        ;
        let next: u128 = n as u128 * radix as u128 + d as u128;
        assert(digits@.take(i + 1).drop_last() == digits@.take(i as int));
        assert(next == value(digits@.take(i + 1), radix as nat));
        if next > max as u128 {
            proof {
                lemma_value_grows(digits@, radix as nat, i + 1);
            }
            return None;
        }
        n = next as u64;
        i = i + 1;
    }
    assert(digits@.take(digits@.len() as int) == digits@);
    Some(n)
}

pub(crate) fn digits_only(v: &Vec<char>, radix: u32) -> (res: bool)
    ensures
        res == all_digits(v@, radix as nat),
{
    let mut i: usize = 0;
    while i < v.len()
        invariant
            i <= v.len(),
            forall|k: int| 0 <= k < i ==> digit_value(#[trigger] v@[k]) < radix,
        decreases v.len() - i,
    {
        if digit_of(v[i]) >= radix {
            assert(digit_value(v@[i as int]) >= radix);
            return false;
        }
        i = i + 1;
    }
    true
}

/// Reading back a number that was written in decimal gives the number.
pub proof fn lemma_decimal_reads_back(n: nat, max: nat)
    requires
        n <= max,
    ensures
        parse_unsigned(decimal(n), 10, max) == Some(n),
{
    lemma_decimal(n);
}

/// The decimal notation is made of digits, at least one, that stand for the number.
pub proof fn lemma_decimal(n: nat)
    ensures
        decimal(n).len() > 0,
        all_digits(decimal(n), 10),
        value(decimal(n), 10) == n,
        forall|i: int| 0 <= i < decimal(n).len() ==> '0' <= #[trigger] decimal(n)[i] <= '9',
    decreases n,
{
    if n < 10 {
        assert(decimal(n).drop_last() == Seq::<char>::empty());
        assert(value(Seq::<char>::empty(), 10) == 0);
    } else {
        lemma_decimal(n / 10);
        assert(decimal(n).drop_last() == decimal(n / 10));
    }
}

/// Different numbers have different decimal notations.
pub proof fn lemma_decimal_is_injective(a: nat, b: nat)
    requires
        decimal(a) == decimal(b),
    ensures
        a == b,
{
    lemma_decimal(a);
    lemma_decimal(b);
}

/// The digits are the ten figures and the first six letters, in either case.
pub proof fn lemma_digits(d: int)
    ensures
        0 <= d < 16 ==> digit_char(d as nat) == "0123456789abcdef"@[d],
        0 <= d < 16 ==> digit_value("0123456789abcdef"@[d]) == d,
        0 <= d < 16 ==> digit_value("0123456789ABCDEF"@[d]) == d,
{
    reveal_strlit("0123456789abcdef");
    reveal_strlit("0123456789ABCDEF");
}

/// No other character is a digit.
pub proof fn lemma_no_other_digits(c: char)
    ensures
        digit_value(c) < 16 ==> "0123456789abcdef"@.contains(c) || "0123456789ABCDEF"@.contains(c),
{
    reveal_strlit("0123456789abcdef");
    reveal_strlit("0123456789ABCDEF");
    let d = digit_value(c) as int;
    if d < 16 {
        if '0' <= c <= '9' {
            assert("0123456789abcdef"@[d] == c);
        } else if 'a' <= c <= 'f' {
            assert("0123456789abcdef"@[d] == c);
        } else {
            assert("0123456789ABCDEF"@[d] == c);
        }
    }
}

/// Each digit counts as much as the base makes it: another digit at the end multiplies what
/// stands before it by the base.
pub proof fn lemma_value(s: Seq<char>, c: char, radix: nat)
    ensures
        value(Seq::<char>::empty(), radix) == 0,
        value(s.push(c), radix) == value(s, radix) * radix + digit_value(c),
{
    assert(s.push(c).drop_last() == s);
}

/// The decimal notation has no needless zero in front, and counts by tens.
pub proof fn lemma_decimal_is_shortest(n: nat)
    ensures
        decimal(0) == seq!['0'],
        n > 0 ==> decimal(n)[0] != '0',
        forall|d: nat|
            d < 10 && n > 0 ==> #[trigger] decimal(n * 10 + d) == decimal(n).push(digit_char(d)),
    decreases n,
{
    if n >= 10 {
        lemma_decimal_is_shortest(n / 10);
        lemma_decimal(n / 10);
    }
    assert forall|d: nat| d < 10 && n > 0 implies #[trigger] decimal(n * 10 + d) == decimal(n).push(
        digit_char(d),
    ) by {
        assert((n * 10 + d) / 10 == n && (n * 10 + d) % 10 == d);
    }
}

/// A number is read from its digits, with or without a plus sign in front, unless it is
/// too large; and nothing else is a number.
pub proof fn lemma_parse_unsigned(s: Seq<char>, radix: nat, max: nat)
    ensures
        s.len() > 0 && all_digits(s, radix) && radix <= 16 ==> parse_unsigned(s, radix, max) == (if
        value(s, radix) <= max {
            Some(value(s, radix))
        } else {
            None
        }),
        s.len() > 0 && all_digits(s, radix) && radix <= 16 ==> parse_unsigned(
            seq!['+'] + s,
            radix,
            max,
        ) == parse_unsigned(s, radix, max),
        parse_unsigned(Seq::<char>::empty(), radix, max) is None,
        parse_unsigned(seq!['+'], radix, max) is None,
        !all_digits(s, radix) ==> parse_unsigned(seq!['+'] + s, radix, max) is None,
        !all_digits(s, radix) && s[0] != '+' ==> parse_unsigned(s, radix, max) is None,
{
    assert((seq!['+'] + s).skip(1) == s);
    assert(seq!['+'].skip(1) == Seq::<char>::empty());
    if s.len() > 0 && all_digits(s, radix) && radix <= 16 {
        assert(digit_value(s[0]) < 16);
    }
}

/// Digits without a needless zero in front are the decimal notation of their value.
pub proof fn lemma_digits_are_decimal(s: Seq<char>)
    requires
        s.len() > 0,
        all_digits(s, 10),
        s.len() > 1 ==> s[0] != '0',
    ensures
        decimal(value(s, 10)) == s,
        s.len() > 1 ==> value(s, 10) >= 10,
        s.len() == 1 && s[0] != '0' ==> value(s, 10) >= 1,
    decreases s.len(),
{
    let init = s.drop_last();
    let d = digit_value(s.last());
    assert(d < 10) by {
        assert(digit_value(s[s.len() - 1]) < 10);
    }
    assert('0' <= s.last() <= '9');
    assert(digit_char(d) == s.last());
    if s.len() == 1 {
        assert(init == Seq::<char>::empty());
        assert(value(init, 10) == 0);
        assert(s == seq![s.last()]);
    } else {
        assert forall|i: int| 0 <= i < init.len() implies digit_value(#[trigger] init[i]) < 10 by {
            assert(init[i] == s[i]);
        }
        assert(init[0] == s[0]);
        lemma_digits_are_decimal(init);
        let v = value(init, 10);
        assert(v >= 1);
        assert(value(s, 10) == v * 10 + d);
        assert((v * 10 + d) / 10 == v && (v * 10 + d) % 10 == d);
        assert(init.push(s.last()) == s);
    }
}

} // verus!
