//! Small text helpers shared by the canvas and the side panels.

use crate::chars::chars_of;
use vstd::prelude::*;
use vstd::arithmetic::power2::*;
use vstd::string::*;

verus! {

/// The character for one decimal digit.
pub open spec fn digit_char(d: nat) -> char {
    (48 + d) as char
}

/// A number written in decimal, without leading zeros.
pub open spec fn decimal(n: nat) -> Seq<char>
    decreases n,
{
    if n < 10 {
        seq![digit_char(n)]
    } else {
        decimal(n / 10).push(digit_char(n % 10))
    }
}

/// A signed number written in decimal.
pub open spec fn signed_decimal(i: int) -> Seq<char> {
    if i < 0 {
        seq!['-'] + decimal((-i) as nat)
    } else {
        decimal(i as nat)
    }
}

/// The last `digits` decimal digits of `n`, leading zeros included.
pub open spec fn padded(n: nat, digits: nat) -> Seq<char>
    decreases digits,
{
    if digits == 0 {
        Seq::<char>::empty()
    } else {
        padded(n / 10, (digits - 1) as nat).push(digit_char(n % 10))
    }
}

/// `n / d` rounded to the nearest whole number, ties going to the even one.
pub open spec fn round_half_even(n: nat, d: nat) -> nat {
    let q = n / d;
    let r = n % d;
    if 2 * r > d || (2 * r == d && q % 2 == 1) {
        q + 1
    } else {
        q
    }
}

/// The most fraction bits, up to `from`, with which `n / d` still needs no
/// more than the 53 significant bits of a double.
pub open spec fn fraction_bits(n: nat, d: nat, from: nat) -> nat
    decreases from,
{
    if from == 0 || n * pow2(from) < pow2(53) * d {
        from
    } else {
        fraction_bits(n, d, (from - 1) as nat)
    }
}

/// The bits of `n`, up to `from`, that lie beyond the 53 significant bits of a
/// double.
pub open spec fn excess_bits(n: nat, from: nat) -> nat
    decreases from,
{
    if from == 0 || pow2(52) * pow2(from) <= n {
        from
    } else {
        excess_bits(n, (from - 1) as nat)
    }
}

/// The double nearest to `n`, for `n` below `2^64`.
pub open spec fn nearest_double(n: nat) -> nat {
    let unit = pow2(excess_bits(n, 11));
    round_half_even(n, unit) * unit
}

/// `n / d` as a whole number of `1 / scale` units, worked out the way floating
/// point does: the quotient is first rounded to a double, which has room for
/// `e` fraction bits, and the double is then rounded to the units shown.
pub open spec fn scaled_quotient(n: nat, d: nat, scale: nat) -> nat {
    let e = fraction_bits(n, d, 52);
    round_half_even(round_half_even(n * pow2(e), d) * scale, pow2(e))
}

/// A count written compactly: in full below a thousand, else in thousands,
/// millions or billions, with one or two decimal places.
pub open spec fn compact_count(count: nat) -> Seq<char> {
    if count < 1_000 {
        decimal(count)
    } else if count < 1_000_000 {
        let tenths = scaled_quotient(count, 1_000, 10);
        decimal(tenths / 10) + seq!['.'] + padded(tenths % 10, 1) + seq!['K']
    } else if count < 1_000_000_000 {
        let tenths = scaled_quotient(count, 1_000_000, 10);
        decimal(tenths / 10) + seq!['.'] + padded(tenths % 10, 1) + seq!['M']
    } else {
        let hundredths = scaled_quotient(nearest_double(count), 1_000_000_000, 100);
        decimal(hundredths / 100) + seq!['.'] + padded(hundredths % 100, 2) + seq!['G']
    }
}

fn push_digit(text: &mut String, d: u128)
    requires
        d < 10,
    ensures
        final(text)@ == old(text)@.push(digit_char(d as nat)),
{
    let digits: [char; 10] = ['0', '1', '2', '3', '4', '5', '6', '7', '8', '9'];
    text.push(digits[d as usize]);
}

fn decimal_wide(n: u128) -> (text: String)
    ensures
        text@ == decimal(n as nat),
    decreases n,
{
    if n < 10 {
        let mut text: String = String::new();
        push_digit(&mut text, n);
        assert(text@ =~= decimal(n as nat));
        text
    } else {
        let mut text: String = decimal_wide(n / 10);
        push_digit(&mut text, n % 10);
        text
    }
}

/// Write a number in decimal.
pub fn decimal_text(n: u64) -> (text: String)
    ensures
        text@ == decimal(n as nat),
{
    decimal_wide(n as u128)
}

/// Write a signed number in decimal.
pub fn signed_text(i: i64) -> (text: String)
    ensures
        text@ == signed_decimal(i as int),
{
    if i < 0 {
        let mut text: String = String::new();
        text.push('-');
        let magnitude: u128 = (-(i as i128)) as u128;
        let digits: String = decimal_wide(magnitude);
        text.append(digits.as_str());
        assert(text@ =~= signed_decimal(i as int));
        text
    } else {
        decimal_wide(i as u128)
    }
}

fn half_even(n: u128, d: u128) -> (rounded: u128)
    requires
        0 < d <= 0x1_0000_0000_0000_0000_0000,
        n < 0x1_0000_0000_0000_0000_0000_0000_0000_0000int - 1,
    ensures
        rounded == round_half_even(n as nat, d as nat),
{
    let q: u128 = n / d;
    let r: u128 = n % d;
    if 2 * r > d || (2 * r == d && q % 2 == 1) {
        q + 1
    } else {
        q
    }
}

proof fn lemma_pow2_bounds(e: nat)
    requires
        e <= 64,
    ensures
        1 <= pow2(e) <= 0x1_0000_0000_0000_0000,
        e <= 52 ==> pow2(e) <= 0x10_0000_0000_0000,
        e <= 11 ==> pow2(e) <= 2048,
        pow2(52) == 0x10_0000_0000_0000,
        pow2(53) == 0x20_0000_0000_0000,
        pow2(11) == 2048,
{
    lemma2_to64();
    lemma2_to64_rest();
    if e < 64 {
        lemma_pow2_strictly_increases(e, 64);
    }
    if e < 52 {
        lemma_pow2_strictly_increases(e, 52);
    }
    if e < 11 {
        lemma_pow2_strictly_increases(e, 11);
    }
    lemma_pow2_pos(e);
}

/// The quotient `n / d` to the decimal places of `scale`, as
/// [`scaled_quotient`] defines it.
fn rounded_quotient(n: u128, d: u128, scale: u128) -> (scaled: u128)
    requires
        1_000 <= d <= 1_000_000_000,
        d <= n <= 0x1_0000_0000_0000_1000,
        1 <= scale <= 100,
    ensures
        scaled == scaled_quotient(n as nat, d as nat, scale as nat),
{
    let ghost mut e: nat = 52;
    let mut unit: u128 = 0x10_0000_0000_0000;
    proof {
        lemma_pow2_bounds(52);
    }
    assert(n * unit <= 0x1_0000_0000_0000_1000 * 0x10_0000_0000_0000) by (nonlinear_arith)
        requires
            n <= 0x1_0000_0000_0000_1000,
            unit == 0x10_0000_0000_0000,
    ;
    while unit > 1 && n * unit >= 0x20_0000_0000_0000 * d
        invariant
            1_000 <= d <= 1_000_000_000,
            d <= n <= 0x1_0000_0000_0000_1000,
            e <= 52,
            unit == pow2(e),
            1 <= unit <= 0x10_0000_0000_0000,
            unit == 1 <==> e == 0,
            n * unit <= 0x1_0000_0000_0000_1000 * 0x10_0000_0000_0000,
            fraction_bits(n as nat, d as nat, 52) == fraction_bits(n as nat, d as nat, e),
            pow2(53) == 0x20_0000_0000_0000,
        decreases e,
    {
        proof {
            lemma_pow2_unfold(e);
            lemma_pow2_bounds((e - 1) as nat);
            if e >= 2 {
                lemma_pow2_strictly_increases(0, (e - 1) as nat);
            }
            lemma2_to64();
            e = (e - 1) as nat;
        }
        let ghost before = unit;
        unit = unit / 2;
        assert(n * unit <= n * before) by (nonlinear_arith)
            requires
                unit <= before,
        ;
    }
    assert(n * unit == n as nat * pow2(e));
    assert(n * unit < 0x1_0000_0000_0000_0000_0000_0000_0000_0000int - 1);
    let mantissa: u128 = half_even(n * unit, d);
    assert(mantissa <= n * unit / (d as int) + 1);
    assert(n * unit / (d as int) <= n * unit) by (nonlinear_arith)
        requires
            d >= 1,
            n * unit >= 0,
    ;
    assert(mantissa * scale < 0x1_0000_0000_0000_0000_0000_0000_0000_0000int - 1) by (nonlinear_arith)
        requires
            mantissa <= 0x1_0000_0000_0000_1000 * 0x10_0000_0000_0000 + 1,
            1 <= scale <= 100,
    ;
    half_even(mantissa * scale, unit)
}

/// The double nearest to `n`.
fn to_double(n: u64) -> (double: u128)
    ensures
        double == nearest_double(n as nat),
        n >= 1_000_000_000 ==> 1_000_000_000 <= double,
        double <= 0x1_0000_0000_0000_1000,
{
    let ghost mut shift: nat = 11;
    let mut unit: u128 = 2048;
    proof {
        lemma_pow2_bounds(11);
    }
    while unit > 1 && 0x10_0000_0000_0000 * unit > n as u128
        invariant
            shift <= 11,
            unit == pow2(shift),
            1 <= unit <= 2048,
            unit == 1 <==> shift == 0,
            excess_bits(n as nat, 11) == excess_bits(n as nat, shift),
            pow2(52) == 0x10_0000_0000_0000,
        decreases shift,
    {
        proof {
            lemma_pow2_unfold(shift);
            lemma_pow2_bounds((shift - 1) as nat);
            if shift >= 2 {
                lemma_pow2_strictly_increases(0, (shift - 1) as nat);
            }
            lemma2_to64();
            shift = (shift - 1) as nat;
        }
        unit = unit / 2;
    }
    let rounded: u128 = half_even(n as u128, unit);
    assert(n as int - unit < rounded * unit <= n + unit) by {
        let q = n as int / unit as int;
        assert(q <= rounded <= q + 1);
        assert(n as int - unit < q * unit <= n) by (nonlinear_arith)
            requires
                q == n as int / unit as int,
                unit >= 1,
        ;
        assert(q * unit <= rounded * unit <= q * unit + unit) by (nonlinear_arith)
            requires
                q <= rounded <= q + 1,
                unit >= 1,
        ;
    }
    assert(unit == 1 ==> rounded * unit == n) by {
        assert(n as int / 1 == n && n as int % 1 == 0);
    }
    rounded * unit
}

fn push_padded(text: &mut String, n: u128, digits: usize)
    ensures
        final(text)@ == old(text)@ + padded(n as nat, digits as nat),
    decreases digits,
{
    if digits > 0 {
        push_padded(text, n / 10, digits - 1);
        push_digit(text, n % 10);
    }
    assert(text@ =~= old(text)@ + padded(n as nat, digits as nat));
}

/// Format a large count compactly, eg. `1.2M`.
pub fn format_count(count: u64) -> (text: String)
    ensures
        text@ == compact_count(count as nat),
{
    if count < 1_000 {
        return decimal_text(count);
    }
    if count < 1_000_000_000 {
        let unit: u128 = if count < 1_000_000 { 1_000 } else { 1_000_000 };
        let tenths: u128 = rounded_quotient(count as u128, unit, 10);
        let mut text: String = decimal_wide(tenths / 10);
        text.push('.');
        push_padded(&mut text, tenths % 10, 1);
        text.push(if count < 1_000_000 { 'K' } else { 'M' });
        assert(text@ =~= compact_count(count as nat));
        return text;
    }
    let hundredths: u128 = rounded_quotient(to_double(count), 1_000_000_000, 100);
    let mut text: String = decimal_wide(hundredths / 100);
    text.push('.');
    push_padded(&mut text, hundredths % 100, 2);
    text.push('G');
    assert(text@ =~= compact_count(count as nat));
    text
}

/// What is shown of `text` in `max` characters: all of it where it fits, else
/// its beginning and an ellipsis.
pub open spec fn elided(text: Seq<char>, max: nat) -> Seq<char> {
    if max == 0 {
        Seq::<char>::empty()
    } else if text.len() <= max {
        text
    } else {
        text.take(max - 1).push('…')
    }
}

/// Truncate `text` to `max` characters, appending an ellipsis if shortened.
pub fn elide(text: &str, max: usize) -> (shown: String)
    ensures
        shown@ == elided(text@, max as nat),
{
    if max == 0 {
        return String::new();
    }
    if text.unicode_len() <= max {
        return text.to_owned();
    }
    let mut shown: String = text.substring_char(0, max - 1).to_owned();
    shown.push('…');
    assert(text@.subrange(0, max - 1) =~= text@.take(max - 1));
    shown
}

/// An elided text never takes more room than it was given.
pub proof fn law_elided_fits(text: Seq<char>, max: nat)
    ensures
        elided(text, max).len() <= max,
{
}

/// Whether a character is a decimal digit.
pub open spec fn is_digit(c: char) -> bool {
    '0' <= c <= '9'
}

/// The number that a sequence of digits stands for.
pub open spec fn digits_value(digits: Seq<char>) -> nat
    decreases digits.len(),
{
    if digits.len() == 0 {
        0
    } else {
        (10 * digits_value(digits.drop_last()) + (digits.last() as nat - '0' as nat)) as nat
    }
}

/// A text without the plus sign that it may start with.
pub open spec fn without_plus(s: Seq<char>) -> Seq<char> {
    if s.len() > 0 && s[0] == '+' {
        s.skip(1)
    } else {
        s
    }
}

pub open spec fn all_digits(s: Seq<char>) -> bool {
    forall|i: int| 0 <= i < s.len() ==> is_digit(#[trigger] s[i])
}

/// The number that a text stands for: one or more digits, with or without a plus
/// sign before them, that make a number of 64 bits.
pub open spec fn parsed(s: Seq<char>) -> Option<u64> {
    let digits = without_plus(s);
    if digits.len() > 0 && all_digits(digits) && digits_value(digits) <= u64::MAX {
        Some(digits_value(digits) as u64)
    } else {
        None
    }
}

proof fn lemma_digits_grow(digits: Seq<char>, k: int)
    requires
        0 <= k <= digits.len(),
        all_digits(digits),
    ensures
        digits_value(digits.take(k)) <= digits_value(digits),
    decreases digits.len() - k,
{
    if k < digits.len() {
        lemma_digits_grow(digits, k + 1);
        assert(digits.take(k + 1).drop_last() =~= digits.take(k));
        assert(is_digit(digits[k]));
    } else {
        assert(digits.take(k) =~= digits);
    }
}

/// Parses a decimal number of 64 bits.
pub fn parse_decimal(text: &str) -> (number: Option<u64>)
    ensures
        number == parsed(text@),
{
    let all: Vec<char> = chars_of(text);
    let start: usize = if all.len() > 0 && all[0] == '+' {
        1
    } else {
        0
    };
    let ghost digits = without_plus(text@);
    proof {
        assert(text@.skip(start as int) =~= digits);
        assert(digits.take(0).len() == 0);
    }
    if start >= all.len() {
        return None;
    }
    let mut value: u64 = 0;
    for i in start..all.len()
        invariant
            all@ == text@,
            start <= all@.len(),
            digits == text@.skip(start as int),
            digits == without_plus(text@),
            value == digits_value(digits.take(i - start)),
            forall|k: int| 0 <= k < i - start ==> is_digit(#[trigger] digits[k]),
    {
        let c: char = all[i];
        let ghost k = i - start;
        proof {
            assert(digits[k] == c);
            assert(digits.take(k + 1).drop_last() =~= digits.take(k));
            assert(digits.take(k + 1).last() == c);
        }
        if !('0' <= c && c <= '9') {
            assert(!is_digit(digits[k]));
            assert(!all_digits(digits));
            return None;
        }
        let digit: u64 = (c as u32 - '0' as u32) as u64;
        let next: Option<u64> = match value.checked_mul(10) {
            Some(tens) => tens.checked_add(digit),
            None => None,
        };
        match next {
            Some(n) => {
                value = n;
            },
            None => {
                proof {
                    if all_digits(digits) {
                        lemma_digits_grow(digits, k + 1);
                        assert(digits_value(digits.take(k + 1)) > u64::MAX);
                    }
                }
                return None;
            },
        }
    }
    assert(digits.take(digits.len() as int) =~= digits);
    assert(all_digits(digits));
    Some(value)
}

} // verus!
