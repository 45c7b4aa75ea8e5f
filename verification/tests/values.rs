use onnx_explorer::model::{Tensor, TensorData};
use onnx_explorer::proto::DataType;
use onnx_explorer::values::{
    decode, element, element_size, exponent8, external_ref, f16_to_f32, float8, index_label,
    read_elements, read_values, readable, Element, FloatBits, ReadError, Reading, Walk, CHUNK,
};
use std::path::Path;

fn tensor(dtype: i32, dims: &[i64], data: TensorData) -> Tensor {
    Tensor {
        dtype: DataType(dtype),
        dims: dims.to_vec(),
        data,
    }
}

fn written(element: &Element) -> String {
    let numbers: Vec<String> = element
        .floats()
        .iter()
        .map(|bits| match bits {
            FloatBits::Single(bits) => f32::from_bits(*bits).to_string(),
            FloatBits::Double(bits) => f64::from_bits(*bits).to_string(),
        })
        .collect();
    element.format(&numbers)
}

fn texts(reading: Result<Reading, ReadError>) -> Vec<String> {
    match reading {
        Ok(Reading::Elements(elements)) => elements.iter().map(written).collect(),
        _ => panic!("the elements are not held in the tensor"),
    }
}

#[test]
fn test_reads_a_window_of_raw_data() {
    let bytes: Vec<u8> = (0..8i32).flat_map(|v| (v * 2).to_le_bytes()).collect();
    let tensor = tensor(DataType::INT32, &[8], TensorData::Raw(bytes));

    let read = |start, count| texts(read_elements(&tensor, start, count));
    assert_eq!(read(0, 3), ["0", "2", "4"]);
    assert_eq!(read(5, 3), ["10", "12", "14"]);
    // A window running past the end returns what there is.
    assert_eq!(read(6, 8), ["12", "14"]);
    assert!(read(8, 4).is_empty());
}

#[test]
fn test_reads_typed_fields() {
    let tensor = tensor(
        DataType::FLOAT,
        &[3],
        TensorData::Floats(vec![1.5f32.to_bits(), 2.5f32.to_bits(), 3.5f32.to_bits()]),
    );
    let read = texts(read_elements(&tensor, 1, 2));
    assert_eq!(read, ["2.5", "3.5"]);
}

#[test]
fn test_missing_external_file_is_reported() {
    let tensor = tensor(
        DataType::FLOAT,
        &[4],
        TensorData::External {
            entries: vec![("location".to_string(), "weights.bin".to_string())],
        },
    );
    let request = match read_elements(&tensor, 0, 4) {
        Ok(Reading::Wanted(request)) => request,
        _ => panic!("the elements are in another file"),
    };
    let path = Path::new("/nowhere").join(&request.external.location);
    let err = ReadError::MissingFile(path.to_string_lossy().into_owned()).to_string();
    assert!(
        err.contains("/nowhere/weights.bin"),
        "should name the file it wanted: {err}"
    );
}

#[test]
fn test_half_precision() {
    let f16_to_f32 = |bits: u16| f32::from_bits(f16_to_f32(bits));
    assert_eq!(f16_to_f32(0x0000), 0.0);
    assert_eq!(f16_to_f32(0x3c00), 1.0);
    assert_eq!(f16_to_f32(0xc000), -2.0);
    assert_eq!(f16_to_f32(0x3555).to_string(), "0.33325195");
    // The smallest subnormal, and infinity.
    assert_eq!(f16_to_f32(0x0001), 2.0f32.powi(-24));
    assert!(f16_to_f32(0x7c00).is_infinite());
    assert!(f16_to_f32(0xfc00).is_infinite() && f16_to_f32(0xfc00) < 0.0);
}

#[test]
fn test_element_formats() {
    let element = |bytes: &[u8], dtype: i32| written(&element(bytes, DataType(dtype)));
    assert_eq!(element(&[1], DataType::BOOL), "true");
    assert_eq!(element(&[0xff], DataType::INT8), "-1");
    assert_eq!(element(&[0xff], DataType::UINT8), "255");
    assert_eq!(element(&0.5f32.to_le_bytes(), DataType::FLOAT), "0.5");
    // A bfloat16 holding 1.0 is the top half of 1.0f32.
    assert_eq!(element(&[0x80, 0x3f], DataType::BFLOAT16), "1");
}

#[test]
fn test_index_labels() {
    assert_eq!(index_label(&[8], 5), "[5]");
    assert_eq!(index_label(&[2, 3], 4), "[1, 1]");
    assert_eq!(index_label(&[2, 3, 4], 13), "[1, 0, 1]");
}

/// A half as the usual formula widens it.
fn widened_half(bits: u16) -> f32 {
    let sign = if bits & 0x8000 != 0 { -1.0f32 } else { 1.0 };
    let exponent = ((bits >> 10) & 0x1f) as i32;
    let mantissa = (bits & 0x3ff) as f32;
    match exponent {
        0 => sign * mantissa * 2.0f32.powi(-24),
        31 if mantissa == 0.0 => sign * f32::INFINITY,
        31 => f32::NAN,
        _ => sign * (1.0 + mantissa / 1024.0) * 2.0f32.powi(exponent - 15),
    }
}

#[test]
fn every_half_widens() {
    for bits in 0..=u16::MAX {
        let wide = f32::from_bits(f16_to_f32(bits));
        let expected = widened_half(bits);
        if expected.is_nan() {
            assert!(wide.is_nan(), "{bits:#x}");
        } else {
            assert_eq!(wide.to_bits(), expected.to_bits(), "{bits:#x}");
        }
    }
}

/// An 8-bit float as the usual formula widens it.
fn widened_byte(byte: u8, exponent_bits: u32, bias: i32) -> f32 {
    let mantissa_bits = 7 - exponent_bits;
    let sign = if byte & 0x80 != 0 { -1.0f32 } else { 1.0 };
    let exponent = ((byte & 0x7f) >> mantissa_bits) as i32;
    let mantissa = (byte & ((1 << mantissa_bits) - 1)) as f32;
    let scale = (1u32 << mantissa_bits) as f32;
    if exponent == 0 {
        sign * (mantissa / scale) * 2.0f32.powi(1 - bias)
    } else {
        sign * (1.0 + mantissa / scale) * 2.0f32.powi(exponent - bias)
    }
}

#[test]
fn every_byte_float_widens() {
    let formats = [
        (DataType::FLOAT8E4M3FN, 4, 7),
        (DataType::FLOAT8E4M3FNUZ, 4, 8),
        (DataType::FLOAT8E5M2, 5, 15),
        (DataType::FLOAT8E5M2FNUZ, 5, 16),
    ];
    for (code, exponent_bits, bias) in formats {
        for byte in 0..=u8::MAX {
            let wide = f32::from_bits(float8(byte, DataType(code)));
            assert_eq!(
                wide.to_bits(),
                widened_byte(byte, exponent_bits, bias).to_bits(),
                "{code} {byte:#x}"
            );
        }
    }
    for byte in 0..=254u8 {
        let wide = f32::from_bits(exponent8(byte)) as f64;
        assert_eq!(wide, 2.0f64.powi(byte as i32 - 127));
    }
    assert!(f32::from_bits(exponent8(255)).is_infinite());
}

#[test]
fn integers_of_every_width() {
    let read = |bytes: &[u8], dtype: i32| written(&element(bytes, DataType(dtype)));
    assert_eq!(read(&(-2i16).to_le_bytes(), DataType::INT16), "-2");
    assert_eq!(read(&65535u16.to_le_bytes(), DataType::UINT16), "65535");
    assert_eq!(read(&i32::MIN.to_le_bytes(), DataType::INT32), "-2147483648");
    assert_eq!(read(&u32::MAX.to_le_bytes(), DataType::UINT32), "4294967295");
    assert_eq!(
        read(&i64::MIN.to_le_bytes(), DataType::INT64),
        "-9223372036854775808"
    );
    assert_eq!(
        read(&u64::MAX.to_le_bytes(), DataType::UINT64),
        "18446744073709551615"
    );
    assert_eq!(read(&2.25f64.to_le_bytes(), DataType::DOUBLE), "2.25");
    assert_eq!(read(&[0], DataType::BOOL), "false");
    assert_eq!(read(&[0x00, 0x3c], DataType::FLOAT16), "1");
    let mut complex = 1.5f32.to_le_bytes().to_vec();
    complex.extend((-2.0f32).to_le_bytes());
    assert_eq!(read(&complex, DataType::COMPLEX64), "1.5+-2i");
    assert_eq!(read(&[], DataType::STRING), "?");
}

#[test]
fn sizes_of_elements() {
    assert_eq!(element_size(DataType(DataType::BOOL)), Some(1));
    assert_eq!(element_size(DataType(DataType::FLOAT16)), Some(2));
    assert_eq!(element_size(DataType(DataType::FLOAT)), Some(4));
    assert_eq!(element_size(DataType(DataType::INT64)), Some(8));
    assert_eq!(element_size(DataType(DataType::COMPLEX128)), Some(16));
    assert_eq!(element_size(DataType(DataType::INT4)), None);
}

#[test]
fn a_short_remainder_is_left_out() {
    let elements = decode(&[1, 0, 2, 0, 3], DataType(DataType::UINT16), 2);
    assert_eq!(elements, [Element::UInt(1), Element::UInt(2)]);
}

#[test]
fn windows_join() {
    let ints: Vec<i64> = (0..20).collect();
    let tensor = tensor(DataType::INT64, &[20], TensorData::Int64s(ints));
    let all = texts(read_elements(&tensor, 0, 20));
    for split in 0..=20usize {
        let mut joined = texts(read_elements(&tensor, 0, split));
        joined.extend(texts(read_elements(&tensor, split as u64, 20 - split)));
        assert_eq!(joined, all);
    }
    assert_eq!(texts(read_elements(&tensor, 15, 100)).len(), 5);
}

#[test]
fn what_cannot_be_read_says_why() {
    let error = |data, dtype| match readable(&tensor(dtype, &[1], data)) {
        Ok(()) => String::new(),
        Err(error) => error.to_string(),
    };
    assert_eq!(
        error(TensorData::Missing, DataType::FLOAT),
        "This tensor has no data stored with it."
    );
    assert_eq!(
        error(TensorData::Raw(vec![0]), DataType::INT4),
        "Values of type INT4 cannot be shown."
    );
    assert_eq!(error(TensorData::Int32s(vec![1]), DataType::INT4), "");
    assert_eq!(error(TensorData::Raw(vec![0; 4]), DataType::FLOAT), "");
    assert_eq!(
        ReadError::Io("w.bin".to_string(), "denied".to_string()).to_string(),
        "Could not read w.bin: denied"
    );
    assert!(matches!(
        read_elements(&tensor(DataType::FLOAT, &[1], TensorData::Missing), 0, 1),
        Err(ReadError::NoData)
    ));
}

#[test]
fn complex_values_have_no_single_number() {
    let bytes = vec![0u8; 16];
    let complex = tensor(DataType::COMPLEX64, &[2], TensorData::Raw(bytes.clone()));
    assert!(matches!(
        read_values(&complex, 0, 2),
        Err(ReadError::UnsupportedType(_))
    ));
    let floats = tensor(DataType::FLOAT, &[4], TensorData::Raw(bytes));
    assert_eq!(texts(read_values(&floats, 1, 2)), ["0", "0"]);
}

#[test]
fn an_external_tensor_says_which_bytes_it_wants() {
    let entries = vec![
        ("location".to_string(), "w.bin".to_string()),
        ("offset".to_string(), "100".to_string()),
        ("length".to_string(), "40".to_string()),
    ];
    let tensor = tensor(DataType::FLOAT, &[10], TensorData::External { entries });
    let external = external_ref(&tensor).unwrap();
    assert_eq!(external.location, "w.bin");
    assert_eq!((external.offset, external.length), (100, Some(40)));
    let request = match read_elements(&tensor, 8, 4) {
        Ok(Reading::Wanted(request)) => request,
        _ => panic!("the elements are in another file"),
    };
    // Two elements are left in the tensor's own span of the file.
    assert_eq!(request.span(), (132, 8));
    let held = self::tensor(DataType::FLOAT, &[1], TensorData::Missing);
    assert!(external_ref(&held).is_none());
}

#[test]
fn a_walk_covers_every_element_once() {
    let total = CHUNK as u64 * 2 + 1000;
    let mut walk = Walk::new(total);
    let mut seen = 0u64;
    let mut reads = 0;
    loop {
        let count = match walk.next() {
            Some(count) => count,
            None => break,
        };
        assert_eq!(walk.start, seen);
        assert!(count > 0 && count <= CHUNK);
        seen += count as u64;
        reads += 1;
        walk.advance(count);
    }
    assert_eq!((seen, reads), (total, 3));

    // Data that is short of what the shape promised ends the walk.
    let mut walk = Walk::new(total);
    walk.advance(0);
    assert_eq!(walk.next(), None);
}

#[test]
fn indices_tell_elements_apart() {
    let mut seen: Vec<String> = Vec::new();
    for flat in 0..24 {
        let label = index_label(&[2, 3, 4], flat);
        assert!(!seen.contains(&label));
        seen.push(label);
    }
    assert_eq!(seen[23], "[1, 2, 3]");
    assert_eq!(index_label(&[], 0), "[0]");
}
