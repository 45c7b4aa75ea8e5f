//! What numbers and shortened texts look like.

use crate::text;
use vstd::arithmetic::power2::*;
use vstd::prelude::*;

verus! {

/// The digits from zero to nine.
pub open spec fn digit(d: int) -> char {
    if d == 0 {
        '0'
    } else if d == 1 {
        '1'
    } else if d == 2 {
        '2'
    } else if d == 3 {
        '3'
    } else if d == 4 {
        '4'
    } else if d == 5 {
        '5'
    } else if d == 6 {
        '6'
    } else if d == 7 {
        '7'
    } else if d == 8 {
        '8'
    } else {
        '9'
    }
}

/// A number below ten is written as its digit; ten times a number and a digit
/// more is written as that number with the digit behind it.
pub proof fn law_numbers_are_written_digit_by_digit(n: nat, d: nat)
    requires
        d < 10,
    ensures
        text::decimal(d) == seq![digit(d as int)],
        n > 0 ==> text::decimal(10 * n + d) == text::decimal(n).push(digit(d as int)),
{
    assert((10 * n + d) / 10 == n && (10 * n + d) % 10 == d);
    assert(text::digit_char(d) == digit(d as int));
}

/// A negative number is written with a minus sign before its magnitude.
pub proof fn law_signs_stand_in_front(n: nat)
    ensures
        text::signed_decimal(n as int) == text::decimal(n),
        n > 0 ==> text::signed_decimal(-(n as int)) == seq!['-'] + text::decimal(n),
{
}

proof fn lemma_digits(n: nat)
    ensures
        text::decimal(n).len() > 0,
        text::all_digits(text::decimal(n)),
        text::digits_value(text::decimal(n)) == n,
        text::decimal(n)[0] != '+',
        n > 0 ==> text::decimal(n)[0] != '0',
    decreases n,
{
    if n < 10 {
        let s = text::decimal(n);
        assert(s.drop_last() =~= Seq::<char>::empty());
        assert(text::digits_value(s.drop_last()) == 0);
        assert(s.last() as nat == 48 + n);
        assert(text::is_digit(s[0]));
    } else {
        let before = text::decimal(n / 10);
        let s = text::decimal(n);
        lemma_digits(n / 10);
        assert(s.drop_last() =~= before);
        assert(s.last() as nat == 48 + n % 10);
        assert forall|i: int| 0 <= i < s.len() implies text::is_digit(#[trigger] s[i]) by {
            if i < before.len() {
                assert(s[i] == before[i]);
            }
        }
        assert(s[0] == before[0]);
    }
}

/// What is written reads back as the same number, with a plus sign in front as
/// well, as far as 64 bits reach, and has no leading zero.
pub proof fn law_written_numbers_read_back(n: nat)
    ensures
        n <= u64::MAX ==> text::parsed(text::decimal(n)) == Some(n as u64),
        n <= u64::MAX ==> text::parsed(seq!['+'] + text::decimal(n)) == Some(n as u64),
        n > u64::MAX ==> text::parsed(text::decimal(n)) is None,
        n > 0 ==> text::decimal(n)[0] != '0',
{
    lemma_digits(n);
    let s = text::decimal(n);
    assert((seq!['+'] + s).skip(1) =~= s);
}

/// Only digits can be read as a number, and at least one is needed.
pub proof fn law_only_digits_are_numbers(s: Seq<char>)
    ensures
        s.len() == 0 ==> text::parsed(s) is None,
        (exists|i: int|
            0 < i < s.len() && !('0' <= #[trigger] s[i] && s[i] <= '9')) ==> text::parsed(s) is None,
        s.len() > 0 && s[0] != '+' && !('0' <= s[0] && s[0] <= '9') ==> text::parsed(s) is None,
        s.len() == 1 && s[0] == '+' ==> text::parsed(s) is None,
{
    let digits = text::without_plus(s);
    if exists|i: int| 0 < i < s.len() && !('0' <= #[trigger] s[i] && s[i] <= '9') {
        let i = choose|i: int| 0 < i < s.len() && !('0' <= #[trigger] s[i] && s[i] <= '9');
        let k = if s[0] == '+' {
            i - 1
        } else {
            i
        };
        assert(digits[k] == s[i]);
        assert(!text::is_digit(digits[k]));
    }
    if s.len() > 0 && s[0] != '+' && !('0' <= s[0] && s[0] <= '9') {
        assert(!text::is_digit(digits[0]));
    }
}

/// A text that fits is shown as it is. One that does not is cut, and as wide as
/// the room for it: its beginning, and an ellipsis in the last place.
pub proof fn law_elided_text_keeps_its_beginning(s: Seq<char>, max: nat)
    ensures
        ({
            let shown = text::elided(s, max);
            &&& s.len() <= max ==> shown == s
            &&& s.len() > max && max > 0 ==> {
                &&& shown.len() == max
                &&& shown[max - 1] == '…'
                &&& forall|i: int| 0 <= i < max - 1 ==> #[trigger] shown[i] == s[i]
            }
            &&& max == 0 ==> shown.len() == 0
        }),
{
    if max == 0 && s.len() == 0 {
        assert(text::elided(s, max) =~= s);
    }
}

/// Padding writes the given number of digits, with zeros in front.
pub proof fn law_padded_numbers_have_their_width(n: nat)
    ensures
        text::padded(n, 1) == seq![digit((n % 10) as int)],
        text::padded(n, 2) == seq![digit((n / 10 % 10) as int), digit((n % 10) as int)],
{
    reveal_with_fuel(text::padded, 3);
    assert(text::digit_char(n % 10) == digit((n % 10) as int));
    assert(text::digit_char(n / 10 % 10) == digit((n / 10 % 10) as int));
    assert(text::padded(n, 1) =~= seq![digit((n % 10) as int)]);
    assert(text::padded(n, 2) =~= seq![digit((n / 10 % 10) as int), digit((n % 10) as int)]);
}

proof fn lemma_rounded(n: nat, d: nat)
    requires
        d > 0,
    ensures
        2 * (text::round_half_even(n, d) * d - n) <= d,
        2 * (n - text::round_half_even(n, d) * d) <= d,
{
    vstd::arithmetic::div_mod::lemma_fundamental_div_mod(n as int, d as int);
    let q = n / d;
    assert(q * d == d * q && (q + 1) * d == d * q + d) by (nonlinear_arith);
}

proof fn lemma_enough_bits(n: nat, d: nat, from: nat, k: nat)
    requires
        k <= from,
        n * pow2(k) < pow2(53) * d,
    ensures
        k <= text::fraction_bits(n, d, from) <= from,
    decreases from,
{
    if from > k {
        lemma_enough_bits(n, d, (from - 1) as nat, k);
    }
}

proof fn lemma_scaled(n: nat, d: nat, scale: nat)
    requires
        0 < d,
        0 < scale <= 128,
        n * 128 < 0x20_0000_0000_0000 * d,
    ensures
        text::scaled_quotient(n, d, scale) * d - n * scale <= d,
        n * scale - text::scaled_quotient(n, d, scale) * d <= d,
{
    lemma2_to64();
    lemma_pow2_adds(32, 21);
    lemma_enough_bits(n, d, 52, 7);
    let e = text::fraction_bits(n, d, 52);
    let p = pow2(e);
    if e > 7 {
        lemma_pow2_strictly_increases(7, e);
    }
    let a = text::round_half_even(n * p, d);
    let q = text::round_half_even(a * scale, p);
    lemma_rounded(n * p, d);
    lemma_rounded(a * scale, p);
    let x = a * d - n * p;
    let y = q * p - a * scale;
    let z = q * d - n * scale;
    assert(z * p == y * d + x * scale) by (nonlinear_arith)
        requires
            x == a * d - n * p,
            y == q * p - a * scale,
            z == q * d - n * scale,
    ;
    assert(2 * (y * d) <= p * d && -2 * (y * d) <= p * d) by (nonlinear_arith)
        requires
            2 * y <= p,
            -2 * y <= p,
            0 < d,
    ;
    assert(2 * (x * scale) <= d * p && -2 * (x * scale) <= d * p) by (nonlinear_arith)
        requires
            2 * x <= d,
            -2 * x <= d,
            0 < scale <= p,
            0 < d,
    ;
    assert(p * d == d * p) by (nonlinear_arith);
    assert(z <= d && -z <= d) by (nonlinear_arith)
        requires
            z * p <= d * p,
            -(z * p) <= d * p,
            0 < p,
    ;
}

proof fn lemma_few_bits(n: nat, from: nat)
    ensures
        text::excess_bits(n, from) <= from,
    decreases from,
{
    if from > 0 {
        lemma_few_bits(n, (from - 1) as nat);
    }
}

/// Whether `shown` is a number of tenths of a unit, written with one decimal
/// place.
pub open spec fn in_tenths(shown: Seq<char>, n: nat, unit: char) -> bool {
    shown == text::decimal(n / 10) + seq!['.', digit((n % 10) as int), unit]
}

/// Whether `shown` is a number of hundredths of a unit, written with two decimal
/// places.
pub open spec fn in_hundredths(shown: Seq<char>, n: nat, unit: char) -> bool {
    shown == text::decimal(n / 100) + seq![
        '.',
        digit((n / 10 % 10) as int),
        digit((n % 10) as int),
        unit,
    ]
}

proof fn lemma_in_tenths(count: nat, tenth: nat, unit: char)
    requires
        0 < tenth,
        count < 10_000 * tenth,
    ensures
        ({
            let n = text::scaled_quotient(count, 10 * tenth, 10);
            let shown = text::decimal(n / 10) + seq!['.'] + text::padded(n % 10, 1) + seq![unit];
            &&& in_tenths(shown, n, unit)
            &&& n * tenth <= count + tenth
            &&& count <= n * tenth + tenth
        }),
{
    let n = text::scaled_quotient(count, 10 * tenth, 10);
    lemma_scaled(count, 10 * tenth, 10);
    assert(n * (10 * tenth) == 10 * (n * tenth)) by (nonlinear_arith);
    law_padded_numbers_have_their_width(n % 10);
    assert(text::decimal(n / 10) + seq!['.'] + text::padded(n % 10, 1) + seq![unit]
        =~= text::decimal(n / 10) + seq!['.', digit((n % 10) as int), unit]);
}

proof fn lemma_in_hundredths(count: nat)
    requires
        count <= u64::MAX,
    ensures
        ({
            let n = text::scaled_quotient(text::nearest_double(count), 1_000_000_000, 100);
            let shown = text::decimal(n / 100) + seq!['.'] + text::padded(n % 100, 2) + seq!['G'];
            &&& in_hundredths(shown, n, 'G')
            &&& n * 10_000_000 <= count + 10_001_024
            &&& count <= n * 10_000_000 + 10_001_024
        }),
{
    lemma_few_bits(count, 11);
    let bits = text::excess_bits(count, 11);
    let unit = pow2(bits);
    assert(0 < unit <= 2048) by {
        lemma2_to64();
        if bits < 11 {
            lemma_pow2_strictly_increases(bits, 11);
        }
        lemma_pow2_pos(bits);
    }
    lemma_rounded(count, unit);
    let near = text::nearest_double(count);
    assert(near <= count + 1024 && count <= near + 1024);
    lemma_scaled(near, 1_000_000_000, 100);
    let n = text::scaled_quotient(near, 1_000_000_000, 100);
    law_padded_numbers_have_their_width(n % 100);
    assert(n % 100 / 10 % 10 == n / 10 % 10);
    assert(n % 100 % 10 == n % 10);
    assert(text::decimal(n / 100) + seq!['.'] + text::padded(n % 100, 2) + seq!['G']
        =~= text::decimal(n / 100) + seq![
        '.',
        digit((n / 10 % 10) as int),
        digit((n % 10) as int),
        'G',
    ]);
}

/// A count below a thousand is written in full. Thousands and millions are
/// written to the tenth and billions to the hundredth, and what is written is
/// off by no more than that, but for the little that a double cannot hold.
pub proof fn law_compact_counts_are_close(count: nat)
    requires
        count <= u64::MAX,
    ensures
        ({
            let shown = text::compact_count(count);
            &&& count < 1_000 ==> shown == text::decimal(count)
            &&& 1_000 <= count < 1_000_000 ==> exists|n: nat| #[trigger]
                in_tenths(shown, n, 'K') && n * 100 <= count + 100 && count <= n * 100 + 100
            &&& 1_000_000 <= count < 1_000_000_000 ==> exists|n: nat| #[trigger]
                in_tenths(shown, n, 'M') && n * 100_000 <= count + 100_000 && count <= n * 100_000
                    + 100_000
            &&& 1_000_000_000 <= count ==> exists|n: nat| #[trigger]
                in_hundredths(shown, n, 'G') && n * 10_000_000 <= count + 10_001_024 && count <= n
                    * 10_000_000 + 10_001_024
        }),
{
    if 1_000 <= count < 1_000_000 {
        lemma_in_tenths(count, 100, 'K');
        assert(in_tenths(
            text::compact_count(count),
            text::scaled_quotient(count, 1_000, 10),
            'K',
        ));
    } else if 1_000_000 <= count < 1_000_000_000 {
        lemma_in_tenths(count, 100_000, 'M');
        assert(in_tenths(
            text::compact_count(count),
            text::scaled_quotient(count, 1_000_000, 10),
            'M',
        ));
    } else if 1_000_000_000 <= count {
        lemma_in_hundredths(count);
        assert(in_hundredths(
            text::compact_count(count),
            text::scaled_quotient(text::nearest_double(count), 1_000_000_000, 100),
            'G',
        ));
    }
}

} // verus!
