//! What the elements read from packed bytes are, byte by byte.

use crate::model::TensorView;
use crate::proto::DataType;
use crate::values::{self, Element, Reading};
use vstd::arithmetic::power2::*;
use vstd::prelude::*;

verus! {

/// The number that two bytes from `at` on stand for, the lowest first.
pub open spec fn two(b: Seq<u8>, at: int) -> int {
    b[at] + 0x100 * b[at + 1]
}

/// The number that four bytes from `at` on stand for, the lowest first.
pub open spec fn four(b: Seq<u8>, at: int) -> int {
    two(b, at) + 0x1_0000 * two(b, at + 2)
}

/// The number that eight bytes from `at` on stand for, the lowest first.
pub open spec fn eight(b: Seq<u8>, at: int) -> int {
    four(b, at) + 0x1_0000_0000 * four(b, at + 4)
}

/// The number between `-half` and `half` that differs from `n` by `2 * half` or
/// not at all.
pub open spec fn around_zero(n: int, half: int) -> int {
    if n < half {
        n
    } else {
        n - 2 * half
    }
}

/// Whether an element is the one of this type that is stored from `at` on.
pub open spec fn stored_at(b: Seq<u8>, at: int, code: i32, element: Element) -> bool {
    &&& code == DataType::BOOL ==> element == Element::Bool(b[at] != 0)
    &&& code == DataType::UINT8 ==> element == Element::UInt(b[at] as u64)
    &&& code == DataType::INT8 ==> element == Element::Int(around_zero(b[at] as int, 0x80) as i64)
    &&& code == DataType::UINT16 ==> element == Element::UInt(two(b, at) as u64)
    &&& code == DataType::INT16 ==> element == Element::Int(
        around_zero(two(b, at), 0x8000) as i64,
    )
    &&& code == DataType::BFLOAT16 ==> element == Element::Single((0x1_0000 * two(b, at)) as u32)
    &&& code == DataType::UINT32 ==> element == Element::UInt(four(b, at) as u64)
    &&& code == DataType::INT32 ==> element == Element::Int(
        around_zero(four(b, at), 0x8000_0000) as i64,
    )
    &&& code == DataType::FLOAT ==> element == Element::Single(four(b, at) as u32)
    &&& code == DataType::UINT64 ==> element == Element::UInt(eight(b, at) as u64)
    &&& code == DataType::INT64 ==> element == Element::Int(
        around_zero(eight(b, at), 0x8000_0000_0000_0000) as i64,
    )
    &&& code == DataType::DOUBLE ==> element == Element::Double(eight(b, at) as u64)
    &&& code == DataType::COMPLEX64 ==> element == Element::ComplexSingle(
        four(b, at) as u32,
        four(b, at + 4) as u32,
    )
    &&& code == DataType::COMPLEX128 ==> element == Element::ComplexDouble(
        eight(b, at) as u64,
        eight(b, at + 8) as u64,
    )
}

proof fn lemma_le_step(b: Seq<u8>, at: int, n: int)
    requires
        0 <= at,
        0 < n,
        at + n <= b.len(),
    ensures
        values::le_value(b.subrange(at, at + n)) == b[at] + 256 * values::le_value(b.subrange(at + 1, at + n)),
{
    let s = b.subrange(at, at + n);
    assert(s.skip(1) =~= b.subrange(at + 1, at + n));
}

proof fn lemma_le_nothing(b: Seq<u8>, at: int)
    requires
        0 <= at <= b.len(),
    ensures
        values::le_value(b.subrange(at, at)) == 0,
{
    assert(b.subrange(at, at) =~= Seq::<u8>::empty());
}

proof fn lemma_le_one(b: Seq<u8>, at: int)
    requires
        0 <= at < b.len(),
    ensures
        values::le_value(b.subrange(at, at + 1)) == b[at],
{
    lemma_le_step(b, at, 1);
    lemma_le_nothing(b, at + 1);
}

proof fn lemma_le_two(b: Seq<u8>, at: int)
    requires
        0 <= at,
        at + 2 <= b.len(),
    ensures
        values::le_value(b.subrange(at, at + 2)) == two(b, at),
{
    lemma_le_step(b, at, 2);
    lemma_le_one(b, at + 1);
}

proof fn lemma_le_four(b: Seq<u8>, at: int)
    requires
        0 <= at,
        at + 4 <= b.len(),
    ensures
        values::le_value(b.subrange(at, at + 4)) == four(b, at),
{
    lemma_le_step(b, at, 4);
    lemma_le_step(b, at + 1, 3);
    lemma_le_two(b, at + 2);
}

proof fn lemma_le_eight(b: Seq<u8>, at: int)
    requires
        0 <= at,
        at + 8 <= b.len(),
    ensures
        values::le_value(b.subrange(at, at + 8)) == eight(b, at),
{
    lemma_le_step(b, at, 8);
    lemma_le_step(b, at + 1, 7);
    lemma_le_step(b, at + 2, 6);
    lemma_le_step(b, at + 3, 5);
    lemma_le_four(b, at + 4);
}

/// One element that bytes hold is the one that they spell out.
proof fn lemma_stored(b: Seq<u8>, at: int, size: usize, code: i32, element: Element)
    requires
        values::size_of(code) == Some(size),
        0 <= at,
        at + size <= b.len(),
        values::holds_element(b.subrange(at, at + size), code, element),
    ensures
        stored_at(b, at, code, element),
{
    lemma2_to64();
    lemma2_to64_rest();
    let s = b.subrange(at, at + size);
    if size == 1 {
        lemma_le_one(b, at);
    } else if size == 2 {
        lemma_le_two(b, at);
    } else if size == 4 {
        lemma_le_four(b, at);
    } else if size == 8 {
        lemma_le_eight(b, at);
        lemma_le_four(b, at);
        lemma_le_four(b, at + 4);
        assert(s.take(4) =~= b.subrange(at, at + 4));
        assert(s.skip(4) =~= b.subrange(at + 4, at + 4 + 4));
    } else {
        lemma_le_eight(b, at);
        lemma_le_eight(b, at + 8);
        assert(s.take(8) =~= b.subrange(at, at + 8));
        assert(s.skip(8) =~= b.subrange(at + 8, at + 8 + 8));
    }
}

/// Element `k` of a window over packed bytes is stored as many sizes behind the
/// start of the data as it is elements behind the first, and is the number that
/// its bytes spell out, the lowest first.
pub proof fn law_packed_elements_are_spelled_out(
    tensor: TensorView,
    start: u64,
    count: usize,
    reading: Reading,
    k: int,
)
    requires
        values::reads_window(tensor, start, count, reading),
        tensor.data is Raw,
        0 <= k < reading->Elements_0@.len(),
    ensures
        ({
            let bytes = tensor.data->Raw_0;
            let size = values::size_of(tensor.dtype.0)->0;
            let at = (start + k) * size;
            &&& k < count
            &&& 0 <= at
            &&& at + size <= bytes.len()
            &&& stored_at(bytes, at, tensor.dtype.0, reading->Elements_0@[k])
            &&& values::holds_element(
                bytes.subrange(at, at + size),
                tensor.dtype.0,
                reading->Elements_0@[k],
            )
        }),
{
    let bytes = tensor.data->Raw_0;
    let code = tensor.dtype.0;
    let size = values::size_of(code)->0;
    let at = (start + k) * size;
    let part = values::window(bytes, (start * size) as nat, (count * size) as nat);
    let got = reading->Elements_0@;
    assert(values::decodes(part, code, size, got));
    let from = start * size;
    assert(0 <= from && at == from + k * size && 0 <= k * size && (k + 1) * size == k * size + size
        && 0 <= count * size) by (nonlinear_arith)
        requires
            from == start * size,
            at == (start + k) * size,
            0 <= start,
            0 <= k,
            0 < size,
            0 <= count,
    ;
    let full = part.len() / size as nat;
    assert((k + 1) * size <= part.len()) by (nonlinear_arith)
        requires
            0 <= k < full,
            full == part.len() / size as nat,
            0 < size,
    ;
    assert(k < count) by (nonlinear_arith)
        requires
            (k + 1) * size <= part.len(),
            part.len() <= count * size,
            0 < size,
    ;
    assert(values::element_bytes(part, size, k) =~= bytes.subrange(at, at + size));
    assert(values::holds_element(values::element_bytes(part, size, k), code, got[k]));
    lemma_stored(bytes, at, size, code, got[k]);
}

/// A window over packed bytes leaves out nothing that was asked for and is
/// there.
pub proof fn law_packed_windows_are_full(
    tensor: TensorView,
    start: u64,
    count: usize,
    reading: Reading,
    k: int,
)
    requires
        values::reads_window(tensor, start, count, reading),
        tensor.data is Raw,
        0 <= k < count,
        (start + k + 1) * values::size_of(tensor.dtype.0)->0 <= tensor.data->Raw_0.len(),
    ensures
        k < reading->Elements_0@.len(),
{
    let bytes = tensor.data->Raw_0;
    let size = values::size_of(tensor.dtype.0)->0;
    let part = values::window(bytes, (start * size) as nat, (count * size) as nat);
    let got = reading->Elements_0@;
    assert(values::decodes(part, tensor.dtype.0, size, got));
    let from = start * size;
    let whole = count * size;
    assert(0 <= from && (start + k + 1) * size == from + (k + 1) * size && (k + 1) * size <= whole
        && 0 <= (k + 1) * size) by (nonlinear_arith)
        requires
            from == start * size,
            whole == count * size,
            0 <= start,
            0 <= k,
            k + 1 <= count,
            0 < size,
    ;
    assert((k + 1) * size <= part.len());
    assert(k < part.len() / size as nat) by (nonlinear_arith)
        requires
            (k + 1) * size <= part.len(),
            0 <= k,
            0 < size,
    ;
}

/// How many bytes an element of each type takes, by the number of the type in
/// the format.
pub proof fn law_sizes_of_types(code: i32)
    ensures
        values::size_of(code) == Some(1usize) <==> (code == 2 || code == 3 || code == 9 || 17 <= code <= 20
            || code == 24),
        values::size_of(code) == Some(2usize) <==> (code == 4 || code == 5 || code == 10 || code == 16),
        values::size_of(code) == Some(4usize) <==> (code == 1 || code == 6 || code == 12),
        values::size_of(code) == Some(8usize) <==> (code == 7 || code == 11 || code == 13 || code == 14),
        values::size_of(code) == Some(16usize) <==> code == 15,
        values::size_of(code) is None <==> (code <= 0 || code == 8 || 21 <= code <= 23 || code > 24),
{
}

/// The bits of a 32-bit float that are its exponent.
pub open spec fn exponent_of(single: u32) -> nat {
    (single as nat / 0x80_0000) % 256
}

/// A 16-bit float is widened to the same number: a fraction of ten bits, with a
/// leading one where the exponent is not zero, scaled by two to the exponent.
pub proof fn law_halves_keep_their_value(b: Seq<u8>, element: Element)
    requires
        b.len() == 2,
        values::holds_element(b, DataType::FLOAT16, element),
    ensures
        element is Single,
        ({
            let single = element->Single_0;
            let bits = two(b, 0);
            let exponent = (bits / 0x400) % 32;
            let fraction = bits % 0x400;
            &&& single >= 0x8000_0000 <==> bits >= 0x8000
            &&& exponent == 0 ==> values::single_units(single) * pow2(24) == fraction * pow2(149)
            &&& 0 < exponent < 31 ==> values::single_units(single) * pow2(25) == (0x400 + fraction)
                * pow2((exponent + 149) as nat)
            &&& exponent == 31 ==> exponent_of(single) == 255 && (single % 0x80_0000 == 0
                <==> fraction == 0)
            &&& exponent < 31 ==> exponent_of(single) < 255
        }),
{
    assert(b.subrange(0, 2) =~= b);
    lemma_le_step(b, 0, 2);
    lemma_le_step(b, 1, 1);
    lemma_le_nothing(b, 2);
    let single = element->Single_0;
    let bits = two(b, 0);
    assert(values::le_value(b) == bits);
    let exponent = (bits / 0x400) % 32;
    let fraction = bits % 0x400;
    if exponent == 0 {
        vstd::arithmetic::power2::lemma_pow2_adds(125, 24);
        assert(fraction * pow2(125) * pow2(24) == fraction * (pow2(125) * pow2(24)))
            by (nonlinear_arith);
    } else if exponent < 31 {
        vstd::arithmetic::power2::lemma_pow2_adds((exponent + 124) as nat, 25);
        let n = 0x400 + fraction;
        let x = pow2((exponent + 124) as nat);
        let y = pow2(25);
        assert(n * x * y == n * (x * y)) by (nonlinear_arith);
    }
}

/// An 8-bit float is widened to the same number. Its formats differ in how many
/// bits of it are the fraction, and in the exponent that stands for one.
pub proof fn law_bytes_keep_their_value(
    b: Seq<u8>,
    code: i32,
    one: nat,
    shift: nat,
    element: Element,
)
    requires
        b.len() == 1,
        (code == DataType::FLOAT8E4M3FN && one == 8 && shift == 10) || (code
            == DataType::FLOAT8E4M3FNUZ && one == 8 && shift == 11) || (code
            == DataType::FLOAT8E5M2 && one == 4 && shift == 17) || (code
            == DataType::FLOAT8E5M2FNUZ && one == 4 && shift == 18),
        values::holds_element(b, code, element),
    ensures
        element is Single,
        ({
            let single = element->Single_0;
            let exponent = (b[0] as nat % 128) / one;
            let fraction = b[0] as nat % one;
            &&& single >= 0x8000_0000 <==> b[0] >= 0x80
            &&& exponent_of(single) < 255
            &&& exponent == 0 ==> values::single_units(single) * pow2(shift) == fraction * pow2(150)
            &&& exponent > 0 ==> values::single_units(single) * pow2(shift) == (one + fraction)
                * pow2(exponent + 149)
        }),
{
    vstd::arithmetic::power2::lemma2_to64();
    let exponent = (b[0] as nat % 128) / one;
    let fraction = b[0] as nat % one;
    let lowest = (149 - shift) as nat;
    assert(pow2(values::float8_fraction_bits(code)) == one);
    assert(149 - values::float8_bias(code) - values::float8_fraction_bits(code) == lowest);
    if exponent == 0 {
        vstd::arithmetic::power2::lemma_pow2_adds(lowest + 1, shift);
        let x = pow2(lowest + 1);
        let y = pow2(shift);
        assert(fraction * x * y == fraction * (x * y)) by (nonlinear_arith);
    } else {
        vstd::arithmetic::power2::lemma_pow2_adds(lowest + exponent, shift);
        let n = one + fraction;
        let x = pow2(lowest + exponent);
        let y = pow2(shift);
        assert(n * x * y == n * (x * y)) by (nonlinear_arith);
        assert(lowest + exponent + shift == exponent + 149);
    }
}

/// A byte that is an exponent alone stands for that power of two, and the highest
/// one for infinity.
pub proof fn law_exponents_are_powers(b: Seq<u8>, element: Element)
    requires
        b.len() == 1,
        values::holds_element(b, DataType::FLOAT8E8M0, element),
    ensures
        element is Single,
        b[0] < 255 ==> exponent_of(element->Single_0) < 255 && values::single_units(
            element->Single_0,
        ) * pow2(127) == pow2((b[0] + 149) as nat) && element->Single_0 < 0x8000_0000,
        b[0] == 255 ==> element->Single_0 == 0x7f80_0000,
{
    vstd::arithmetic::power2::lemma_pow2_adds(b[0] as nat + 22, 127);
}

} // verus!
