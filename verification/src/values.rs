//! Reading the elements of a constant tensor, for display.
//!
//! Tensors are read a window at a time rather than whole: a set of weights runs
//! to hundreds of millions of elements, and only the handful of rows on screen
//! are ever needed. Data kept in a separate file is read on demand, so a model
//! can be explored without its weights alongside it: for such a tensor the
//! functions here say which bytes are wanted.
//!
//! Floating point elements are handed out as the bits of the number they stand
//! for.

use crate::chars::{self, join};
use crate::model::{DataView, Tensor, TensorData, TensorView};
use crate::proto::DataType;
use crate::text::{self, decimal_text, parse_decimal, signed_text};
use vstd::arithmetic::power2::*;
use vstd::prelude::*;
use vstd::string::*;

verus! {

/// Why a tensor's elements could not be read.
pub enum ReadError {
    /// The tensor carries no data at all.
    NoData,
    /// The tensor's data lives in a file that is not there. Models are often
    /// distributed with the weights in a separate download.
    MissingFile(String),
    /// The file, and what went wrong.
    Io(String, String),
    /// A type this viewer cannot decode, such as the sub-byte formats.
    UnsupportedType(DataType),
}

pub enum ReadErrorView {
    NoData,
    MissingFile(Seq<char>),
    Io(Seq<char>, Seq<char>),
    UnsupportedType(DataType),
}

impl View for ReadError {
    type V = ReadErrorView;

    open spec fn view(&self) -> ReadErrorView {
        match self {
            ReadError::NoData => ReadErrorView::NoData,
            ReadError::MissingFile(path) => ReadErrorView::MissingFile(path@),
            ReadError::Io(path, error) => ReadErrorView::Io(path@, error@),
            ReadError::UnsupportedType(dtype) => ReadErrorView::UnsupportedType(*dtype),
        }
    }
}

impl ReadErrorView {
    pub open spec fn text(self) -> Seq<char> {
        match self {
            ReadErrorView::NoData => "This tensor has no data stored with it."@,
            ReadErrorView::MissingFile(path) =>
                "The weights are in a separate file, which is not here:\n"@ + path,
            ReadErrorView::Io(path, error) => "Could not read "@ + path + ": "@ + error,
            ReadErrorView::UnsupportedType(dtype) => "Values of type "@
                + crate::model::data_type_text(dtype.0) + " cannot be shown."@,
        }
    }
}

impl ReadError {
    /// The error in words.
    pub fn to_string(&self) -> (text: String)
        ensures
            text@ == self@.text(),
    {
        match self {
            ReadError::NoData => "This tensor has no data stored with it.".to_owned(),
            ReadError::MissingFile(path) => {
                let mut text: String =
                    "The weights are in a separate file, which is not here:\n".to_owned();
                text.append(path.as_str());
                text
            },
            ReadError::Io(path, error) => {
                let mut text: String = "Could not read ".to_owned();
                text.append(path.as_str());
                text.append(": ");
                text.append(error.as_str());
                text
            },
            ReadError::UnsupportedType(dtype) => {
                let mut text: String = "Values of type ".to_owned();
                let name: String = dtype.to_string();
                text.append(name.as_str());
                text.append(" cannot be shown.");
                text
            },
        }
    }
}

/// Where an external tensor's bytes are: a file, resolved against the model's
/// own directory as ONNX specifies, and a span of it.
pub struct External {
    pub location: String,
    pub offset: u64,
    pub length: Option<u64>,
}

pub struct ExternalView {
    pub location: Seq<char>,
    pub offset: u64,
    pub length: Option<u64>,
}

impl View for External {
    type V = ExternalView;

    open spec fn view(&self) -> ExternalView {
        ExternalView { location: self.location@, offset: self.offset, length: self.length }
    }
}

/// The value of the first of the entries with this key.
pub open spec fn entry(entries: Seq<(Seq<char>, Seq<char>)>, key: Seq<char>) -> Option<Seq<char>>
    decreases entries.len(),
{
    if entries.len() == 0 {
        None
    } else if entries[0].0 == key {
        Some(entries[0].1)
    } else {
        entry(entries.skip(1), key)
    }
}

/// The number that an entry gives, if it gives one.
pub open spec fn number_entry(
    entries: Seq<(Seq<char>, Seq<char>)>,
    key: Seq<char>,
) -> Option<u64> {
    match entry(entries, key) {
        Some(text) => text::parsed(text),
        None => None,
    }
}

/// Where the entries say that a tensor is stored. What they do not say, or say
/// in another way than with a number, has a default.
pub open spec fn external_of(entries: Seq<(Seq<char>, Seq<char>)>) -> ExternalView {
    ExternalView {
        location: match entry(entries, "location"@) {
            Some(text) => text,
            None => Seq::empty(),
        },
        offset: match number_entry(entries, "offset"@) {
            Some(n) => n,
            None => 0,
        },
        length: number_entry(entries, "length"@),
    }
}

fn find_entry<'a>(entries: &'a Vec<(String, String)>, key: &str) -> (value: Option<&'a String>)
    ensures
        match entry(crate::model::pair_views(entries@), key@) {
            Some(text) => value is Some && value->0@ == text,
            None => value is None,
        },
{
    let ghost views = crate::model::pair_views(entries@);
    assert(views.skip(0) =~= views);
    for i in 0..entries.len()
        invariant
            views == crate::model::pair_views(entries@),
            entry(views, key@) == entry(views.skip(i as int), key@),
    {
        proof {
            assert(views.skip(i as int)[0] == views[i as int]);
            assert(views.skip(i as int).skip(1) =~= views.skip(i + 1));
        }
        if *entries[i].0.as_str() == *key {
            return Some(&entries[i].1);
        }
    }
    assert(views.skip(entries@.len() as int).len() == 0);
    None
}

fn find_number(entries: &Vec<(String, String)>, key: &str) -> (number: Option<u64>)
    ensures
        number == number_entry(crate::model::pair_views(entries@), key@),
{
    match find_entry(entries, key) {
        Some(text) => parse_decimal(text.as_str()),
        None => None,
    }
}

/// Reads the entries describing where a tensor is stored.
pub fn external_ref(tensor: &Tensor) -> (external: Option<External>)
    ensures
        match tensor@.data {
            DataView::External(entries) => external is Some && external->0@ == external_of(entries),
            _ => external is None,
        },
{
    match &tensor.data {
        TensorData::External { entries } => {
            let location: String = match find_entry(entries, "location") {
                Some(text) => text.clone(),
                None => String::new(),
            };
            let offset: u64 = match find_number(entries, "offset") {
                Some(n) => n,
                None => 0,
            };
            let external = External { location, offset, length: find_number(entries, "length") };
            assert(external@.location =~= external_of(crate::model::pair_views(entries@)).location);
            Some(external)
        },
        _ => None,
    }
}

/// Bytes per element, or `None` for types this viewer cannot decode: the
/// sub-byte formats, which do not sit on byte boundaries, and strings, which
/// are not stored as packed bytes at all.
pub open spec fn size_of(code: i32) -> Option<usize> {
    if code == DataType::BOOL || code == DataType::INT8 || code == DataType::UINT8 || code
        == DataType::FLOAT8E4M3FN || code == DataType::FLOAT8E4M3FNUZ || code
        == DataType::FLOAT8E5M2 || code == DataType::FLOAT8E5M2FNUZ || code
        == DataType::FLOAT8E8M0 {
        Some(1)
    } else if code == DataType::BFLOAT16 || code == DataType::FLOAT16 || code == DataType::INT16
        || code == DataType::UINT16 {
        Some(2)
    } else if code == DataType::FLOAT || code == DataType::INT32 || code == DataType::UINT32 {
        Some(4)
    } else if code == DataType::DOUBLE || code == DataType::INT64 || code == DataType::UINT64
        || code == DataType::COMPLEX64 {
        Some(8)
    } else if code == DataType::COMPLEX128 {
        Some(16)
    } else {
        None
    }
}

pub fn element_size(dtype: DataType) -> (size: Option<usize>)
    ensures
        size == size_of(dtype.0),
{
    let code: i32 = dtype.0;
    if code == DataType::BOOL || code == DataType::INT8 || code == DataType::UINT8 || code
        == DataType::FLOAT8E4M3FN || code == DataType::FLOAT8E4M3FNUZ || code
        == DataType::FLOAT8E5M2 || code == DataType::FLOAT8E5M2FNUZ || code
        == DataType::FLOAT8E8M0 {
        Some(1)
    } else if code == DataType::BFLOAT16 || code == DataType::FLOAT16 || code == DataType::INT16
        || code == DataType::UINT16 {
        Some(2)
    } else if code == DataType::FLOAT || code == DataType::INT32 || code == DataType::UINT32 {
        Some(4)
    } else if code == DataType::DOUBLE || code == DataType::INT64 || code == DataType::UINT64
        || code == DataType::COMPLEX64 {
        Some(8)
    } else if code == DataType::COMPLEX128 {
        Some(16)
    } else {
        None
    }
}

/// Whether the elements are held in one of the typed fields.
pub open spec fn is_decoded(data: DataView) -> bool {
    data is Floats || data is Int32s || data is Int64s || data is Doubles
}

/// Whether the tensor's values can be shown at all.
///
/// Checked before offering to display them, so that a tensor whose type is not
/// understood says so rather than opening onto an empty list.
pub fn readable(tensor: &Tensor) -> (result: Result<(), ReadError>)
    ensures
        match result {
            Ok(_) => !(tensor@.data is Missing) && (is_decoded(tensor@.data) || size_of(
                tensor.dtype.0,
            ) is Some),
            Err(error) => error@ == if tensor@.data is Missing {
                ReadErrorView::NoData
            } else {
                ReadErrorView::UnsupportedType(tensor.dtype)
            } && (tensor@.data is Missing || (!is_decoded(tensor@.data) && size_of(
                tensor.dtype.0,
            ) is None)),
        },
{
    match &tensor.data {
        TensorData::Missing => Err(ReadError::NoData),
        TensorData::Floats(_)
        | TensorData::Int32s(_)
        | TensorData::Int64s(_)
        | TensorData::Doubles(_) => Ok(()),
        TensorData::Raw(_) | TensorData::External { .. } => match element_size(tensor.dtype) {
            Some(_) => Ok(()),
            None => Err(ReadError::UnsupportedType(tensor.dtype)),
        },
    }
}

/// One element of a tensor.
#[derive(Copy, Clone, PartialEq, Eq, Debug, Structural)]
pub enum Element {
    Bool(bool),
    Int(i64),
    UInt(u64),
    /// Bits of a 32-bit float.
    Single(u32),
    /// Bits of a 64-bit float.
    Double(u64),
    /// Bits of the real and imaginary parts.
    ComplexSingle(u32, u32),
    ComplexDouble(u64, u64),
    /// An element of a type that is not understood.
    Unknown,
}

/// The number that little-endian bytes stand for.
pub open spec fn le_value(bytes: Seq<u8>) -> nat
    decreases bytes.len(),
{
    if bytes.len() == 0 {
        0
    } else {
        bytes[0] as nat + 256 * le_value(bytes.skip(1))
    }
}

/// The number that `n` bytes of two's complement stand for.
pub open spec fn signed_value(value: nat, n: nat) -> int {
    if 2 * value < pow2(8 * n) {
        value as int
    } else {
        value - pow2(8 * n)
    }
}

/// The magnitude of the finite 32-bit float with these bits, in units of the
/// smallest one above zero.
pub open spec fn single_units(bits: u32) -> nat {
    let exponent = (bits as nat / 0x80_0000) % 256;
    let fraction = bits as nat % 0x80_0000;
    if exponent == 0 {
        fraction
    } else {
        (0x80_0000 + fraction) * pow2((exponent - 1) as nat)
    }
}

/// Whether the 32-bit float with these bits is negative.
pub open spec fn is_negative(bits: u32) -> bool {
    bits >= 0x8000_0000
}

/// Whether the 32-bit float with these bits is neither infinite nor NaN.
pub open spec fn is_finite(bits: u32) -> bool {
    (bits as nat / 0x80_0000) % 256 < 255
}

/// The magnitude of the finite 16-bit float with these bits, in the same units.
pub open spec fn half_units(bits: u16) -> nat {
    let exponent = (bits as nat / 0x400) % 32;
    let fraction = bits as nat % 0x400;
    if exponent == 0 {
        fraction * pow2(125)
    } else {
        (0x400 + fraction) * pow2(exponent + 124)
    }
}

/// How an 8-bit float is laid out: the bits of its fraction, and the exponent
/// that stands for one.
pub open spec fn float8_fraction_bits(code: i32) -> nat {
    if code == DataType::FLOAT8E4M3FN || code == DataType::FLOAT8E4M3FNUZ {
        3
    } else {
        2
    }
}

pub open spec fn float8_bias(code: i32) -> nat {
    if code == DataType::FLOAT8E4M3FN {
        7
    } else if code == DataType::FLOAT8E4M3FNUZ {
        8
    } else if code == DataType::FLOAT8E5M2 {
        15
    } else {
        16
    }
}

/// The magnitude of an 8-bit float, in the same units.
pub open spec fn float8_units(byte: u8, code: i32) -> nat {
    let width = float8_fraction_bits(code);
    let one = pow2(width);
    let exponent = (byte as nat % 128) / one;
    let fraction = byte as nat % one;
    let lowest = (149 - float8_bias(code) - width) as nat;
    if exponent == 0 {
        fraction * pow2(lowest + 1)
    } else {
        (one + fraction) * pow2(lowest + exponent)
    }
}

/// The bits of the 32-bit float with this sign and a magnitude of `n * 2^k`
/// units.
fn single_bits(negative: bool, n: u32, k: u32) -> (bits: u32)
    requires
        n < 0x800,
        23 <= k < 200,
    ensures
        is_negative(bits) == negative,
        is_finite(bits),
        single_units(bits) == n * pow2(k as nat),
{
    let sign: u32 = if negative {
        0x8000_0000
    } else {
        0
    };
    if n == 0 {
        assert(0 * pow2(k as nat) == 0);
        return sign;
    }
    let mut shifted: u32 = n;
    let mut shift: u32 = 0;
    proof {
        lemma2_to64();
        assert(n * pow2(0) == n) by (nonlinear_arith)
            requires
                pow2(0) == 1,
        ;
    }
    while shifted < 0x80_0000
        invariant
            0 < n,
            0 < shifted < 0x100_0000,
            shift < 24,
            shifted == n * pow2(shift as nat),
            shift == 23 ==> shifted >= 0x80_0000,
        decreases 24 - shift,
    {
        proof {
            lemma_pow2_unfold(shift as nat + 1);
            assert(n * pow2(shift as nat + 1) == 2 * (n * pow2(shift as nat))) by (nonlinear_arith)
                requires
                    pow2(shift as nat + 1) == 2 * pow2(shift as nat),
            ;
            lemma2_to64();
            if shift == 22 {
                assert(n * pow2(23) >= 0x80_0000) by (nonlinear_arith)
                    requires
                        n >= 1,
                        pow2(23) == 0x80_0000,
                ;
            }
        }
        shifted = 2 * shifted;
        shift = shift + 1;
    }
    let exponent: u32 = k - shift + 1;
    let fraction: u32 = shifted - 0x80_0000;
    proof {
        lemma_pow2_adds(shift as nat, (k - shift) as nat);
        assert((n * pow2(shift as nat)) * pow2((k - shift) as nat) == n * pow2(k as nat))
            by (nonlinear_arith)
            requires
                pow2(shift as nat) * pow2((k - shift) as nat) == pow2(k as nat),
        ;
    }
    let bits: u32 = sign + exponent * 0x80_0000 + fraction;
    proof {
        assert(bits as nat / 0x80_0000 == sign as nat / 0x80_0000 + exponent);
        assert(bits as nat % 0x80_0000 == fraction);
    }
    bits
}

/// Widens an IEEE half to a single: the bits of the 32-bit float with the same
/// value.
pub fn f16_to_f32(bits: u16) -> (single: u32)
    ensures
        is_negative(single) == (bits >= 0x8000),
        (bits as nat / 0x400) % 32 < 31 ==> is_finite(single) && single_units(single)
            == half_units(bits),
        (bits as nat / 0x400) % 32 == 31 ==> (single as nat / 0x80_0000) % 256 == 255
            && single as nat % 0x80_0000 == (bits as nat % 0x400) * 0x2000,
{
    let negative: bool = bits >= 0x8000;
    let exponent: u32 = ((bits / 0x400) % 32) as u32;
    let fraction: u32 = (bits % 0x400) as u32;
    if exponent == 0 {
        single_bits(negative, fraction, 125)
    } else if exponent == 31 {
        let sign: u32 = if negative {
            0x8000_0000
        } else {
            0
        };
        sign + 0x7f80_0000 + fraction * 0x2000
    } else {
        single_bits(negative, 0x400 + fraction, exponent + 124)
    }
}

/// Widens one of the 8-bit float formats: the bits of the 32-bit float with the
/// same value.
///
/// The `UZ` variants have no signed zero and shift the exponent by one, which
/// is the only difference that matters here.
pub fn float8(byte: u8, dtype: DataType) -> (single: u32)
    requires
        dtype.0 == DataType::FLOAT8E4M3FN || dtype.0 == DataType::FLOAT8E4M3FNUZ || dtype.0
            == DataType::FLOAT8E5M2 || dtype.0 == DataType::FLOAT8E5M2FNUZ,
    ensures
        is_negative(single) == (byte >= 0x80),
        is_finite(single),
        single_units(single) == float8_units(byte, dtype.0),
{
    proof {
        lemma2_to64();
    }
    let code: i32 = dtype.0;
    let (one, width, bias): (u32, u32, u32) = if code == DataType::FLOAT8E4M3FN {
        (8, 3, 7)
    } else if code == DataType::FLOAT8E4M3FNUZ {
        (8, 3, 8)
    } else if code == DataType::FLOAT8E5M2 {
        (4, 2, 15)
    } else {
        (4, 2, 16)
    };
    let negative: bool = byte >= 0x80;
    let magnitude: u32 = (byte % 128) as u32;
    let exponent: u32 = magnitude / one;
    let fraction: u32 = (byte as u32) % one;
    let lowest: u32 = 149 - bias - width;
    if exponent == 0 {
        // Subnormal: no implicit leading one.
        single_bits(negative, fraction, lowest + 1)
    } else {
        single_bits(negative, one + fraction, lowest + exponent)
    }
}

/// The bits of the 32-bit float that an exponent on its own stands for, with no
/// sign or fraction; the largest one is beyond the largest number.
pub fn exponent8(byte: u8) -> (single: u32)
    ensures
        !is_negative(single),
        byte < 255 ==> is_finite(single) && single_units(single) == pow2(byte as nat + 22),
        byte == 255 ==> single == 0x7f80_0000,
{
    proof {
        lemma2_to64();
    }
    if byte == 0 {
        0x0040_0000
    } else {
        let single: u32 = byte as u32 * 0x80_0000;
        proof {
            lemma_pow2_adds(23, (byte - 1) as nat);
            assert(single as nat / 0x80_0000 == byte);
            assert(single as nat % 0x80_0000 == 0);
        }
        single
    }
}

/// The element that these bytes hold, where the type is one of `size_of` them.
pub open spec fn element_model(bytes: Seq<u8>, code: i32) -> Element {
    let n = bytes.len();
    let value = le_value(bytes);
    if code == DataType::BOOL {
        Element::Bool(bytes[0] != 0)
    } else if code == DataType::INT8 || code == DataType::INT16 || code == DataType::INT32 || code
        == DataType::INT64 {
        Element::Int(signed_value(value, n) as i64)
    } else if code == DataType::UINT8 || code == DataType::UINT16 || code == DataType::UINT32
        || code == DataType::UINT64 {
        Element::UInt(value as u64)
    } else if code == DataType::FLOAT {
        Element::Single(value as u32)
    } else if code == DataType::DOUBLE {
        Element::Double(value as u64)
    } else if code == DataType::BFLOAT16 {
        Element::Single((value * 0x1_0000) as u32)
    } else if code == DataType::COMPLEX64 {
        Element::ComplexSingle(
            le_value(bytes.take(4)) as u32,
            le_value(bytes.skip(4)) as u32,
        )
    } else if code == DataType::COMPLEX128 {
        Element::ComplexDouble(
            le_value(bytes.take(8)) as u64,
            le_value(bytes.skip(8)) as u64,
        )
    } else {
        Element::Unknown
    }
}

/// Whether the type is one of the short float formats, which have to be widened.
pub open spec fn is_short_float(code: i32) -> bool {
    code == DataType::FLOAT16 || is_float8(code) || code == DataType::FLOAT8E8M0
}

pub open spec fn is_float8(code: i32) -> bool {
    code == DataType::FLOAT8E4M3FN || code == DataType::FLOAT8E4M3FNUZ || code
        == DataType::FLOAT8E5M2 || code == DataType::FLOAT8E5M2FNUZ
}

/// Whether `single` is the value of the short float that these bytes hold.
pub open spec fn widens(bytes: Seq<u8>, code: i32, single: u32) -> bool {
    if code == DataType::FLOAT16 {
        let bits = le_value(bytes) as u16;
        let exponent = (bits as nat / 0x400) % 32;
        &&& is_negative(single) == (bits >= 0x8000)
        &&& exponent < 31 ==> is_finite(single) && single_units(single) == half_units(bits)
        &&& exponent == 31 ==> (single as nat / 0x80_0000) % 256 == 255 && single as nat
            % 0x80_0000 == (bits as nat % 0x400) * 0x2000
    } else if is_float8(code) {
        &&& is_negative(single) == (bytes[0] >= 0x80)
        &&& is_finite(single)
        &&& single_units(single) == float8_units(bytes[0], code)
    } else {
        &&& !is_negative(single)
        &&& bytes[0] < 255 ==> is_finite(single) && single_units(single) == pow2(
            bytes[0] as nat + 22,
        )
        &&& bytes[0] == 255 ==> single == 0x7f80_0000
    }
}

/// Whether `element` is what these bytes hold.
pub open spec fn holds_element(bytes: Seq<u8>, code: i32, element: Element) -> bool {
    if is_short_float(code) {
        element is Single && widens(bytes, code, element->Single_0)
    } else {
        element == element_model(bytes, code)
    }
}

proof fn lemma_le_bound(bytes: Seq<u8>)
    ensures
        le_value(bytes) < pow2(8 * bytes.len()),
    decreases bytes.len(),
{
    lemma2_to64();
    if bytes.len() > 0 {
        lemma_le_bound(bytes.skip(1));
        lemma_pow2_adds(8, 8 * (bytes.len() - 1) as nat);
    }
}

/// The number that the `n` little-endian bytes at `from` stand for.
fn read_le(bytes: &[u8], from: usize, n: usize) -> (value: u64)
    requires
        n <= 8,
        from + n <= bytes@.len(),
    ensures
        value == le_value(bytes@.subrange(from as int, from + n)),
{
    let mut value: u64 = 0;
    let mut left: usize = n;
    let total: usize = bytes.len();
    let ghost all = bytes@.subrange(from as int, from + n);
    assert(all.skip(n as int).len() == 0);
    while left > 0
        invariant
            n <= 8,
            total == bytes@.len(),
            from + n <= total,
            left <= n,
            all == bytes@.subrange(from as int, from + n),
            value == le_value(all.skip(left as int)),
        decreases left,
    {
        left = left - 1;
        proof {
            let rest = all.skip(left as int);
            assert(rest.skip(1) =~= all.skip(left + 1));
            assert(rest[0] == bytes@[from + left]);
            lemma_le_bound(rest);
            lemma2_to64();
            if rest.len() < 8 {
                lemma_pow2_strictly_increases(8 * rest.len(), 64);
            }
        }
        value = value * 256 + bytes[from + left] as u64;
    }
    assert(all.skip(0) =~= all);
    value
}

/// The number that `n` bytes of two's complement stand for.
fn to_signed(value: u64, n: usize) -> (signed: i64)
    requires
        n == 1 || n == 2 || n == 4 || n == 8,
        value < pow2(8 * n as nat),
    ensures
        signed == signed_value(value as nat, n as nat),
{
    proof {
        lemma2_to64();
    }
    if n == 1 {
        if value < 0x80 {
            value as i64
        } else {
            value as i64 - 0x100
        }
    } else if n == 2 {
        if value < 0x8000 {
            value as i64
        } else {
            value as i64 - 0x1_0000
        }
    } else if n == 4 {
        if value < 0x8000_0000 {
            value as i64
        } else {
            value as i64 - 0x1_0000_0000
        }
    } else {
        if value < 0x8000_0000_0000_0000 {
            value as i64
        } else {
            (value - 0x8000_0000_0000_0000) as i64 + i64::MIN
        }
    }
}

/// Reads one element from its packed little-endian bytes.
pub fn element(bytes: &[u8], dtype: DataType) -> (element: Element)
    requires
        size_of(dtype.0) is Some ==> bytes@.len() == size_of(dtype.0)->0,
    ensures
        holds_element(bytes@, dtype.0, element),
{
    let code: i32 = dtype.0;
    proof {
        lemma2_to64();
        lemma_le_bound(bytes@);
        assert(bytes@.subrange(0, bytes@.len() as int) =~= bytes@);
    }
    match element_size(dtype) {
        Some(size) => {
            if code == DataType::BOOL {
                Element::Bool(bytes[0] != 0)
            } else if code == DataType::INT8 || code == DataType::INT16 || code == DataType::INT32
                || code == DataType::INT64 {
                let value: u64 = read_le(bytes, 0, size);
                Element::Int(to_signed(value, size))
            } else if code == DataType::UINT8 || code == DataType::UINT16 || code
                == DataType::UINT32 || code == DataType::UINT64 {
                Element::UInt(read_le(bytes, 0, size))
            } else if code == DataType::FLOAT {
                Element::Single(read_le(bytes, 0, 4) as u32)
            } else if code == DataType::DOUBLE {
                Element::Double(read_le(bytes, 0, 8))
            } else if code == DataType::FLOAT16 {
                Element::Single(f16_to_f32(read_le(bytes, 0, 2) as u16))
            } else if code == DataType::BFLOAT16 {
                // A bfloat16 is the top half of the single with the same value.
                let bits: u64 = read_le(bytes, 0, 2);
                Element::Single((bits * 0x1_0000) as u32)
            } else if code == DataType::FLOAT8E8M0 {
                Element::Single(exponent8(bytes[0]))
            } else if code == DataType::COMPLEX64 {
                proof {
                    assert(bytes@.subrange(0, 4) =~= bytes@.take(4));
                    assert(bytes@.subrange(4, 8) =~= bytes@.skip(4));
                    lemma_le_bound(bytes@.take(4));
                    lemma_le_bound(bytes@.skip(4));
                }
                Element::ComplexSingle(read_le(bytes, 0, 4) as u32, read_le(bytes, 4, 4) as u32)
            } else if code == DataType::COMPLEX128 {
                proof {
                    assert(bytes@.subrange(0, 8) =~= bytes@.take(8));
                    assert(bytes@.subrange(8, 16) =~= bytes@.skip(8));
                }
                Element::ComplexDouble(read_le(bytes, 0, 8), read_le(bytes, 8, 8))
            } else {
                Element::Single(float8(bytes[0], dtype))
            }
        },
        None => Element::Unknown,
    }
}

/// The bytes of element `k`.
pub open spec fn element_bytes(bytes: Seq<u8>, size: usize, k: int) -> Seq<u8> {
    bytes.subrange(k * size, (k + 1) * size)
}

/// Whether `elements` are those that these bytes hold, one after the other, a
/// remainder that is too short for one left out.
pub open spec fn decodes(
    bytes: Seq<u8>,
    code: i32,
    size: usize,
    elements: Seq<Element>,
) -> bool {
    &&& elements.len() == bytes.len() / size as nat
    &&& forall|k: int|
        0 <= k < elements.len() ==> holds_element(
            element_bytes(bytes, size, k),
            code,
            #[trigger] elements[k],
        )
}

proof fn lemma_element_span(len: nat, size: usize, k: int)
    requires
        size > 0,
        0 <= k < len / size as nat,
    ensures
        0 <= k * size,
        k * size <= (k + 1) * size,
        (k + 1) * size <= len,
        (k + 1) * size - k * size == size,
{
    vstd::arithmetic::div_mod::lemma_fundamental_div_mod(len as int, size as int);
    assert(0 <= k * size && (k + 1) * size <= len && (k + 1) * size == k * size + size)
        by (nonlinear_arith)
        requires
            0 <= k,
            k + 1 <= len / size as nat,
            len == size * (len / size as nat) + len % size as nat,
            0 <= len % size as nat,
            size > 0,
    ;
}

/// Decodes packed little-endian bytes.
pub fn decode(bytes: &[u8], dtype: DataType, size: usize) -> (elements: Vec<Element>)
    requires
        size_of(dtype.0) == Some(size),
    ensures
        decodes(bytes@, dtype.0, size, elements@),
{
    let total: usize = bytes.len();
    let count: usize = total / size;
    let mut elements: Vec<Element> = Vec::new();
    for k in 0..count
        invariant
            size_of(dtype.0) == Some(size),
            size > 0,
            total == bytes@.len(),
            count == total / size,
            elements@.len() == k,
            forall|j: int|
                0 <= j < k ==> holds_element(
                    element_bytes(bytes@, size, j),
                    dtype.0,
                    #[trigger] elements@[j],
                ),
    {
        proof {
            lemma_element_span(bytes@.len(), size, k as int);
        }
        let from: usize = k * size;
        let part: &[u8] = vstd::slice::slice_subrange(bytes, from, from + size);
        assert(part@ =~= element_bytes(bytes@, size, k as int));
        elements.push(element(part, dtype));
    }
    elements
}

/// Bytes to be read from the file of an external tensor.
pub struct Request {
    pub external: External,
    /// Where the bytes start within the tensor's own span.
    pub offset: u64,
    pub len: usize,
    /// The type of the elements, and the size of each.
    pub dtype: DataType,
    pub size: usize,
}

/// What reading a window of a tensor comes to.
pub enum Reading {
    Elements(Vec<Element>),
    /// The bytes are in another file; `decode` turns them into elements.
    Wanted(Request),
}

/// `n`, or `len` where that is less.
pub open spec fn clipped(n: nat, len: nat) -> nat {
    if n < len {
        n
    } else {
        len
    }
}

/// Those of the `count` items from `start` on that there are.
pub open spec fn window<T>(items: Seq<T>, start: nat, count: nat) -> Seq<T> {
    let from = clipped(start, items.len());
    items.subrange(from as int, clipped(from + count, items.len()) as int)
}

/// The elements of a tensor that holds them in one of the typed fields.
pub open spec fn held_elements(data: DataView) -> Seq<Element> {
    match data {
        DataView::Floats(v) => Seq::new(v.len(), |i: int| Element::Single(v[i])),
        DataView::Int32s(v) => Seq::new(v.len(), |i: int| Element::Int(v[i] as i64)),
        DataView::Int64s(v) => Seq::new(v.len(), |i: int| Element::Int(v[i])),
        DataView::Doubles(v) => Seq::new(v.len(), |i: int| Element::Double(v[i])),
        _ => Seq::empty(),
    }
}

/// Whether the bytes of the window can be counted.
pub open spec fn window_fits(tensor: TensorView, start: u64, count: usize) -> bool {
    match (tensor.data, size_of(tensor.dtype.0)) {
        (DataView::External(_), Some(size)) => start * size <= u64::MAX && count * size
            <= usize::MAX,
        _ => true,
    }
}

/// Whether `reading` is the window of `count` elements from `start` on.
pub open spec fn reads_window(
    tensor: TensorView,
    start: u64,
    count: usize,
    reading: Reading,
) -> bool {
    match tensor.data {
        DataView::Raw(bytes) => {
            let size = size_of(tensor.dtype.0)->0;
            &&& size_of(tensor.dtype.0) is Some
            &&& reading is Elements
            &&& decodes(
                window(bytes, (start * size) as nat, (count * size) as nat),
                tensor.dtype.0,
                size,
                reading->Elements_0@,
            )
        },
        DataView::External(entries) => {
            let size = size_of(tensor.dtype.0)->0;
            let request = reading->Wanted_0;
            &&& size_of(tensor.dtype.0) is Some
            &&& reading is Wanted
            &&& request.external@ == external_of(entries)
            &&& request.offset == start * size
            &&& request.len == count * size
            &&& request.dtype == tensor.dtype
            &&& request.size == size
        },
        DataView::Missing => false,
        _ => reading is Elements && reading->Elements_0@ == window(
            held_elements(tensor.data),
            start as nat,
            count as nat,
        ),
    }
}

/// Whether the window cannot be read, and why.
pub open spec fn refuses(tensor: TensorView, error: ReadErrorView) -> bool {
    if tensor.data is Missing {
        error == ReadErrorView::NoData
    } else {
        !is_decoded(tensor.data) && size_of(tensor.dtype.0) is None && error
            == ReadErrorView::UnsupportedType(tensor.dtype)
    }
}

/// Where a window starts and ends: `start` and `count` items of `size` each, as
/// far as there are `len`.
fn clip_window(start: u64, count: usize, size: usize, len: usize) -> (span: (usize, usize))
    requires
        size <= 16,
    ensures
        span.0 == clipped((start * size) as nat, len as nat),
        span.1 == clipped(span.0 as nat + (count * size) as nat, len as nat),
        span.0 <= span.1 <= len,
{
    proof {
        assert(start * size <= 0xffff_ffff_ffff_ffff * 16 && 0 <= start * size) by (nonlinear_arith)
            requires
                start <= 0xffff_ffff_ffff_ffff,
                0 <= size <= 16,
        ;
        assert(count * size <= 0xffff_ffff_ffff_ffff * 16 && 0 <= count * size) by (nonlinear_arith)
            requires
                count <= 0xffff_ffff_ffff_ffff,
                0 <= size <= 16,
        ;
    }
    let first: u128 = start as u128 * size as u128;
    let from: usize = if first < len as u128 {
        first as usize
    } else {
        len
    };
    let last: u128 = from as u128 + count as u128 * size as u128;
    let to: usize = if last < len as u128 {
        last as usize
    } else {
        len
    };
    (from, to)
}

/// Reads the `count` elements of `tensor` starting at `start`.
///
/// Gives fewer than `count` at the end of the data.
pub fn read_elements(tensor: &Tensor, start: u64, count: usize) -> (result: Result<
    Reading,
    ReadError,
>)
    requires
        window_fits(tensor@, start, count),
    ensures
        match result {
            Ok(reading) => reads_window(tensor@, start, count, reading),
            Err(error) => refuses(tensor@, error@),
        },
        match (result, tensor.data) {
            (Ok(reading), TensorData::Floats(v)) => forall|k: int|
                0 <= k < count && start + k < v@.len() ==> k < reading->Elements_0@.len()
                    && #[trigger] reading->Elements_0@[k] == Element::Single(v@[start + k]),
            (Ok(reading), TensorData::Int32s(v)) => forall|k: int|
                0 <= k < count && start + k < v@.len() ==> k < reading->Elements_0@.len()
                    && #[trigger] reading->Elements_0@[k] == Element::Int(v@[start + k] as i64),
            (Ok(reading), TensorData::Int64s(v)) => forall|k: int|
                0 <= k < count && start + k < v@.len() ==> k < reading->Elements_0@.len()
                    && #[trigger] reading->Elements_0@[k] == Element::Int(v@[start + k]),
            (Ok(reading), TensorData::Doubles(v)) => forall|k: int|
                0 <= k < count && start + k < v@.len() ==> k < reading->Elements_0@.len()
                    && #[trigger] reading->Elements_0@[k] == Element::Double(v@[start + k]),
            _ => true,
        },
{
    let dtype: DataType = tensor.dtype;
    let mut elements: Vec<Element> = Vec::new();
    let ghost all = held_elements(tensor@.data);
    match &tensor.data {
        TensorData::Floats(values) => {
            let (from, to): (usize, usize) = clip_window(start, count, 1, values.len());
            for i in from..to
                invariant
                    to <= values@.len(),
                    all == Seq::new(values@.len(), |i: int| Element::Single(values@[i])),
                    elements@ == all.subrange(from as int, i as int),
            {
                elements.push(Element::Single(values[i]));
                assert(elements@ =~= all.subrange(from as int, i + 1));
            }
            Ok(Reading::Elements(elements))
        },
        TensorData::Int32s(values) => {
            let (from, to): (usize, usize) = clip_window(start, count, 1, values.len());
            for i in from..to
                invariant
                    to <= values@.len(),
                    all == Seq::new(values@.len(), |i: int| Element::Int(values@[i] as i64)),
                    elements@ == all.subrange(from as int, i as int),
            {
                elements.push(Element::Int(values[i] as i64));
                assert(elements@ =~= all.subrange(from as int, i + 1));
            }
            Ok(Reading::Elements(elements))
        },
        TensorData::Int64s(values) => {
            let (from, to): (usize, usize) = clip_window(start, count, 1, values.len());
            for i in from..to
                invariant
                    to <= values@.len(),
                    all == Seq::new(values@.len(), |i: int| Element::Int(values@[i])),
                    elements@ == all.subrange(from as int, i as int),
            {
                elements.push(Element::Int(values[i]));
                assert(elements@ =~= all.subrange(from as int, i + 1));
            }
            Ok(Reading::Elements(elements))
        },
        TensorData::Doubles(values) => {
            let (from, to): (usize, usize) = clip_window(start, count, 1, values.len());
            for i in from..to
                invariant
                    to <= values@.len(),
                    all == Seq::new(values@.len(), |i: int| Element::Double(values@[i])),
                    elements@ == all.subrange(from as int, i as int),
            {
                elements.push(Element::Double(values[i]));
                assert(elements@ =~= all.subrange(from as int, i + 1));
            }
            Ok(Reading::Elements(elements))
        },
        TensorData::Raw(bytes) => match element_size(dtype) {
            Some(size) => {
                let (from, to): (usize, usize) = clip_window(start, count, size, bytes.len());
                let part: &[u8] = vstd::slice::slice_subrange(bytes.as_slice(), from, to);
                proof {
                    assert(part@ =~= window(
                        bytes@,
                        (start * size) as nat,
                        (count * size) as nat,
                    ));
                }
                Ok(Reading::Elements(decode(part, dtype, size)))
            },
            None => Err(ReadError::UnsupportedType(dtype)),
        },
        TensorData::External { .. } => match element_size(dtype) {
            Some(size) => match external_ref(tensor) {
                Some(external) => {
                    proof {
                        assert(start * size <= u64::MAX);
                        assert(count * size <= usize::MAX);
                    }
                    Ok(
                        Reading::Wanted(
                            Request {
                                external,
                                offset: start * size as u64,
                                len: count * size,
                                dtype,
                                size,
                            },
                        ),
                    )
                },
                None => Err(ReadError::NoData),
            },
            None => Err(ReadError::UnsupportedType(dtype)),
        },
        TensorData::Missing => Err(ReadError::NoData),
    }
}

/// Whether elements of the type have no single number to report.
pub open spec fn is_complex(code: i32) -> bool {
    code == DataType::COMPLEX64 || code == DataType::COMPLEX128
}

/// Reads the same window as [`read_elements`], for elements that are numbers.
///
/// Complex values have no single number to report, so they are refused rather
/// than summarized as something they are not.
pub fn read_values(tensor: &Tensor, start: u64, count: usize) -> (result: Result<
    Reading,
    ReadError,
>)
    requires
        window_fits(tensor@, start, count),
    ensures
        match result {
            Ok(reading) => !is_complex(tensor.dtype.0) && reads_window(
                tensor@,
                start,
                count,
                reading,
            ),
            Err(error) => if is_complex(tensor.dtype.0) {
                error@ == ReadErrorView::UnsupportedType(tensor.dtype)
            } else {
                refuses(tensor@, error@)
            },
        },
        match (result, tensor.data) {
            (Ok(reading), TensorData::Floats(v)) => forall|k: int|
                0 <= k < count && start + k < v@.len() ==> k < reading->Elements_0@.len()
                    && #[trigger] reading->Elements_0@[k] == Element::Single(v@[start + k]),
            (Ok(reading), TensorData::Int32s(v)) => forall|k: int|
                0 <= k < count && start + k < v@.len() ==> k < reading->Elements_0@.len()
                    && #[trigger] reading->Elements_0@[k] == Element::Int(v@[start + k] as i64),
            (Ok(reading), TensorData::Int64s(v)) => forall|k: int|
                0 <= k < count && start + k < v@.len() ==> k < reading->Elements_0@.len()
                    && #[trigger] reading->Elements_0@[k] == Element::Int(v@[start + k]),
            (Ok(reading), TensorData::Doubles(v)) => forall|k: int|
                0 <= k < count && start + k < v@.len() ==> k < reading->Elements_0@.len()
                    && #[trigger] reading->Elements_0@[k] == Element::Double(v@[start + k]),
            _ => true,
        },
{
    let code: i32 = tensor.dtype.0;
    if code == DataType::COMPLEX64 || code == DataType::COMPLEX128 {
        return Err(ReadError::UnsupportedType(tensor.dtype));
    }
    read_elements(tensor, start, count)
}

/// Every element of a window over data in one of the typed fields is the one
/// that the field holds as far behind the start, and none in range is left out.
pub proof fn law_window_shows_what_is_held(
    tensor: TensorView,
    start: u64,
    count: usize,
    reading: Reading,
)
    requires
        reads_window(tensor, start, count, reading),
    ensures
        match tensor.data {
            DataView::Floats(v) => window_of(
                reading,
                start,
                count,
                Seq::new(v.len(), |i: int| Element::Single(v[i])),
            ),
            DataView::Int32s(v) => window_of(
                reading,
                start,
                count,
                Seq::new(v.len(), |i: int| Element::Int(v[i] as i64)),
            ),
            DataView::Int64s(v) => window_of(
                reading,
                start,
                count,
                Seq::new(v.len(), |i: int| Element::Int(v[i])),
            ),
            DataView::Doubles(v) => window_of(
                reading,
                start,
                count,
                Seq::new(v.len(), |i: int| Element::Double(v[i])),
            ),
            _ => true,
        },
{
    if is_decoded(tensor.data) {
        let all = held_elements(tensor.data);
        let got = reading->Elements_0@;
        assert(got == window(all, start as nat, count as nat));
        assert forall|k: int| 0 <= k < count && start + k < all.len() implies k < got.len()
            && #[trigger] got[k] == all[start + k] by {}
    }
}

/// Whether a reading is made of the items from `start` on, as many as were asked
/// for and are there.
pub open spec fn window_of(reading: Reading, start: u64, count: usize, items: Seq<Element>) -> bool {
    &&& reading is Elements
    &&& start >= items.len() ==> reading->Elements_0@.len() == 0
    &&& start < items.len() && count <= items.len() - start ==> reading->Elements_0@.len() == count
    &&& start < items.len() && count > items.len() - start ==> reading->Elements_0@.len()
        == items.len() - start
    &&& forall|k: int|
        0 <= k < reading->Elements_0@.len() ==> #[trigger] reading->Elements_0@[k] == items[start
            + k]
}

/// Two windows, one behind the other, are the window over both.
pub proof fn law_windows_join<T>(items: Seq<T>, start: nat, a: nat, b: nat)
    ensures
        window(items, start, a) + window(items, start + a, b) == window(items, start, a + b),
{
    assert(window(items, start, a) + window(items, start + a, b) =~= window(items, start, a + b));
}

/// A window has as many items as were asked for, as far as there are any.
pub proof fn law_window_length<T>(items: Seq<T>, start: nat, count: nat)
    ensures
        window(items, start, count).len() == clipped(
            count,
            (items.len() - clipped(start, items.len())) as nat,
        ),
{
}

impl Request {
    /// Whether the position of the bytes can be counted in 64 bits.
    pub open spec fn fits(self) -> bool {
        self.external.offset + self.offset <= u64::MAX
    }

    /// Where in the file the bytes are, and how many to read. Reading stays
    /// inside the tensor's own span of the file, which may hold every weight in
    /// the model one after another.
    pub fn span(&self) -> (span: (u64, usize))
        requires
            self.fits(),
        ensures
            span.0 == self.external.offset + self.offset,
            span.1 == match self.external.length {
                Some(length) => clipped(
                    self.len as nat,
                    if self.offset < length {
                        (length - self.offset) as nat
                    } else {
                        0
                    },
                ),
                None => self.len as nat,
            },
    {
        let len: usize = match self.external.length {
            Some(length) => {
                let left: u64 = if self.offset < length {
                    length - self.offset
                } else {
                    0
                };
                if (self.len as u64) < left {
                    self.len
                } else {
                    left as usize
                }
            },
            None => self.len,
        };
        (self.external.offset + self.offset, len)
    }
}

/// How many values are read from a file at a time when summarizing.
///
/// Large enough that the per-read overhead disappears, small enough that a
/// tensor of any size is summarized without holding it in memory.
pub const CHUNK: usize = 65536;

/// Number of histogram buckets.
///
/// Enough to show the shape of a distribution in a pane this narrow without the
/// bars becoming too thin to see.
pub const BUCKETS: usize = 32;

/// A walk over all elements of a tensor, a chunk at a time.
pub struct Walk {
    pub start: u64,
    pub total: u64,
}

impl Walk {
    pub fn new(total: u64) -> (walk: Walk)
        ensures
            walk.start == 0,
            walk.total == total,
    {
        Walk { start: 0, total }
    }

    /// How many elements to read next from `start` on.
    pub fn next(&self) -> (count: Option<usize>)
        ensures
            match count {
                Some(count) => self.start < self.total && count == clipped(
                    CHUNK as nat,
                    (self.total - self.start) as nat,
                ),
                None => self.start >= self.total,
            },
    {
        if self.start < self.total {
            let left: u64 = self.total - self.start;
            Some(
                if left < CHUNK as u64 {
                    left as usize
                } else {
                    CHUNK
                },
            )
        } else {
            None
        }
    }

    /// Moves on past the elements that were read. Where there were none, the
    /// data is short of what the shape promised and the walk ends.
    pub fn advance(&mut self, read: usize)
        requires
            old(self).start + read <= old(self).total,
        ensures
            final(self).start == old(self).start + read,
            final(self).total == if read == 0 {
                old(self).start
            } else {
                old(self).total
            },
    {
        if read == 0 {
            self.total = self.start;
        } else {
            self.start = self.start + read as u64;
        }
    }
}

/// A floating point number as its bits.
#[derive(Copy, Clone, PartialEq, Eq, Debug, Structural)]
pub enum FloatBits {
    Single(u32),
    Double(u64),
}

impl Element {
    /// The floating point numbers in the element.
    pub open spec fn parts(self) -> Seq<FloatBits> {
        match self {
            Element::Single(bits) => seq![FloatBits::Single(bits)],
            Element::Double(bits) => seq![FloatBits::Double(bits)],
            Element::ComplexSingle(re, im) => seq![FloatBits::Single(re), FloatBits::Single(im)],
            Element::ComplexDouble(re, im) => seq![FloatBits::Double(re), FloatBits::Double(im)],
            _ => Seq::empty(),
        }
    }

    /// The element as text, its floating point numbers being written as given.
    pub open spec fn text(self, numbers: Seq<Seq<char>>) -> Seq<char> {
        match self {
            Element::Bool(b) => if b {
                "true"@
            } else {
                "false"@
            },
            Element::Int(n) => text::signed_decimal(n as int),
            Element::UInt(n) => text::decimal(n as nat),
            Element::Single(_) | Element::Double(_) => numbers[0],
            Element::ComplexSingle(_, _) | Element::ComplexDouble(_, _) => numbers[0] + "+"@
                + numbers[1] + "i"@,
            Element::Unknown => "?"@,
        }
    }

    /// The floating point numbers in the element.
    pub fn floats(&self) -> (parts: Vec<FloatBits>)
        ensures
            parts@ == self.parts(),
    {
        let mut parts: Vec<FloatBits> = Vec::new();
        match *self {
            Element::Single(bits) => {
                parts.push(FloatBits::Single(bits));
            },
            Element::Double(bits) => {
                parts.push(FloatBits::Double(bits));
            },
            Element::ComplexSingle(re, im) => {
                parts.push(FloatBits::Single(re));
                parts.push(FloatBits::Single(im));
            },
            Element::ComplexDouble(re, im) => {
                parts.push(FloatBits::Double(re));
                parts.push(FloatBits::Double(im));
            },
            _ => {},
        }
        assert(parts@ =~= self.parts());
        parts
    }

    /// The element as text, given how its floating point numbers are written.
    pub fn format(&self, numbers: &Vec<String>) -> (text: String)
        requires
            numbers@.len() == self.parts().len(),
        ensures
            text@ == self.text(chars::views(numbers@)),
    {
        match *self {
            Element::Bool(b) => if b {
                "true".to_owned()
            } else {
                "false".to_owned()
            },
            Element::Int(n) => signed_text(n),
            Element::UInt(n) => decimal_text(n),
            Element::Single(_) | Element::Double(_) => numbers[0].clone(),
            Element::ComplexSingle(_, _) | Element::ComplexDouble(_, _) => {
                let mut text: String = numbers[0].clone();
                text.append("+");
                text.append(numbers[1].as_str());
                text.append("i");
                text
            },
            Element::Unknown => "?".to_owned(),
        }
    }
}

/// How far an axis extends, at least one.
pub open spec fn axis_extent(dim: i64) -> nat {
    if dim > 1 {
        dim as nat
    } else {
        1
    }
}

/// The index of the element at `flat` along each axis.
pub open spec fn unraveled(dims: Seq<i64>, flat: nat) -> Seq<nat>
    decreases dims.len(),
{
    if dims.len() == 0 {
        Seq::empty()
    } else {
        let extent = axis_extent(dims.last());
        unraveled(dims.drop_last(), flat / extent).push(flat % extent)
    }
}

/// The place of the element with these indices.
pub open spec fn raveled(dims: Seq<i64>, indices: Seq<nat>) -> nat
    decreases dims.len(),
{
    if dims.len() == 0 {
        0
    } else {
        raveled(dims.drop_last(), indices.drop_last()) * axis_extent(dims.last()) + indices.last()
    }
}

/// How many elements the axes hold.
pub open spec fn axes_product(dims: Seq<i64>) -> nat
    decreases dims.len(),
{
    if dims.len() == 0 {
        1
    } else {
        axes_product(dims.drop_last()) * axis_extent(dims.last())
    }
}

/// A list of indices in brackets.
pub open spec fn bracketed(indices: Seq<nat>) -> Seq<char> {
    "["@ + chars::joined(
        Seq::new(indices.len(), |i: int| text::decimal(indices[i])),
        ", "@,
    ) + "]"@
}

/// Where an element sits. A tensor with at most one axis shows its place as it
/// is.
pub open spec fn index_text(dims: Seq<i64>, flat: u64) -> Seq<char> {
    if dims.len() <= 1 {
        bracketed(seq![flat as nat])
    } else {
        bracketed(unraveled(dims, flat as nat))
    }
}

/// The indices identify the element: its place can be computed from them, and
/// each is within its axis.
pub proof fn law_indices_identify_elements(dims: Seq<i64>, flat: nat)
    requires
        flat < axes_product(dims),
    ensures
        unraveled(dims, flat).len() == dims.len(),
        raveled(dims, unraveled(dims, flat)) == flat,
        forall|i: int|
            0 <= i < dims.len() ==> #[trigger] unraveled(dims, flat)[i] < axis_extent(dims[i]),
    decreases dims.len(),
{
    if dims.len() > 0 {
        let extent = axis_extent(dims.last());
        let rest = dims.drop_last();
        let q = flat / extent;
        vstd::arithmetic::div_mod::lemma_fundamental_div_mod(flat as int, extent as int);
        assert(q < axes_product(rest)) by (nonlinear_arith)
            requires
                flat < axes_product(rest) * extent,
                flat == extent * q + flat % extent,
                0 <= flat % extent,
                extent > 0,
        ;
        law_indices_identify_elements(rest, q);
        let indices = unraveled(dims, flat);
        assert(indices.drop_last() =~= unraveled(rest, q));
        assert(q * extent + flat % extent == flat) by (nonlinear_arith)
            requires
                flat == extent * q + flat % extent,
        ;
        assert forall|i: int| 0 <= i < dims.len() implies #[trigger] indices[i] < axis_extent(
            dims[i],
        ) by {
            if i < rest.len() {
                assert(indices[i] == unraveled(rest, q)[i]);
                assert(rest[i] == dims[i]);
            }
        }
    }
}

proof fn lemma_unraveled_len(dims: Seq<i64>, flat: nat)
    ensures
        unraveled(dims, flat).len() == dims.len(),
    decreases dims.len(),
{
    if dims.len() > 0 {
        lemma_unraveled_len(dims.drop_last(), flat / axis_extent(dims.last()));
    }
}

/// Describes where an element sits, as `[i, j, k]`.
pub fn index_label(dims: &[i64], flat: u64) -> (label: String)
    ensures
        label@ == index_text(dims@, flat),
{
    let rank: usize = dims.len();
    let ghost wanted: Seq<nat> = if dims@.len() <= 1 {
        seq![flat as nat]
    } else {
        unraveled(dims@, flat as nat)
    };
    let mut backwards: Vec<u64> = Vec::new();
    if rank <= 1 {
        backwards.push(flat);
    } else {
        let mut rest: u64 = flat;
        let mut left: usize = rank;
        assert(dims@.take(rank as int) =~= dims@);
        proof {
            lemma_unraveled_len(dims@, flat as nat);
        }
        while left > 0
            invariant
                rank == dims@.len(),
                left <= rank,
                wanted.len() == rank,
                backwards@.len() == rank - left,
                forall|k: int| 0 <= k < rank - left ==> #[trigger] backwards@[k] == wanted[rank - 1 - k],
                unraveled(dims@.take(left as int), rest as nat) == wanted.take(left as int),
            decreases left,
        {
            let dim: i64 = dims[left - 1];
            let extent: u64 = if dim > 1 {
                dim as u64
            } else {
                1
            };
            proof {
                let head = dims@.take(left as int);
                assert(head.drop_last() =~= dims@.take(left - 1));
                assert(head.last() == dim);
                let part = unraveled(head, rest as nat);
                assert(wanted.take(left as int).last() == wanted[left - 1]);
                assert(wanted.take(left as int).drop_last() =~= wanted.take(left - 1));
                assert(part.drop_last() =~= unraveled(head.drop_last(), rest as nat / extent as nat));
            }
            backwards.push(rest % extent);
            rest = rest / extent;
            left = left - 1;
        }
    }
    let count: usize = backwards.len();
    let mut parts: Vec<String> = Vec::new();
    for i in 0..count
        invariant
            count == backwards@.len(),
            count == wanted.len(),
            forall|k: int| 0 <= k < count ==> #[trigger] backwards@[k] == wanted[count - 1 - k],
            parts@.len() == i,
            forall|k: int| 0 <= k < i ==> (#[trigger] parts@[k])@ == text::decimal(wanted[k]),
    {
        let index: u64 = backwards[count - 1 - i];
        assert(index == wanted[i as int]);
        parts.push(decimal_text(index));
    }
    let mut label: String = "[".to_owned();
    let list: String = join(&parts, ", ");
    label.append(list.as_str());
    label.append("]");
    assert(chars::views(parts@) =~= Seq::new(wanted.len(), |i: int| text::decimal(wanted[i])));
    label
}

} // verus!
