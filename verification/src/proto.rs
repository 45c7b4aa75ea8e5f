//! The messages of an ONNX file, as plain values.
//!
//! Each type holds the fields of the protobuf message it is named after that
//! the viewer reads. Floating point numbers are held as their bit patterns.

use vstd::prelude::*;

verus! {

/// Element type of a tensor, by its number in the ONNX format.
#[derive(Copy, Clone, PartialEq, Eq, Structural, Debug)]
pub struct DataType(pub i32);

impl DataType {
    pub const FLOAT: i32 = 1;
    pub const UINT8: i32 = 2;
    pub const INT8: i32 = 3;
    pub const UINT16: i32 = 4;
    pub const INT16: i32 = 5;
    pub const INT32: i32 = 6;
    pub const INT64: i32 = 7;
    pub const STRING: i32 = 8;
    pub const BOOL: i32 = 9;
    pub const FLOAT16: i32 = 10;
    pub const DOUBLE: i32 = 11;
    pub const UINT32: i32 = 12;
    pub const UINT64: i32 = 13;
    pub const COMPLEX64: i32 = 14;
    pub const COMPLEX128: i32 = 15;
    pub const BFLOAT16: i32 = 16;
    pub const FLOAT8E4M3FN: i32 = 17;
    pub const FLOAT8E4M3FNUZ: i32 = 18;
    pub const FLOAT8E5M2: i32 = 19;
    pub const FLOAT8E5M2FNUZ: i32 = 20;
    pub const UINT4: i32 = 21;
    pub const INT4: i32 = 22;
    pub const FLOAT4E2M1: i32 = 23;
    pub const FLOAT8E8M0: i32 = 24;
}

/// Type of an attribute, by its number in the ONNX format.
#[derive(Copy, Clone, PartialEq, Eq, Structural, Debug)]
pub struct AttributeType(pub i32);

impl AttributeType {
    pub const FLOAT: i32 = 1;
    pub const INT: i32 = 2;
    pub const STRING: i32 = 3;
    pub const TENSOR: i32 = 4;
    pub const GRAPH: i32 = 5;
    pub const FLOATS: i32 = 6;
    pub const INTS: i32 = 7;
    pub const STRINGS: i32 = 8;
}

/// Where a tensor's data is, by its number in the ONNX format.
#[derive(Copy, Clone, PartialEq, Eq, Structural, Debug)]
pub struct DataLocation(pub i32);

impl DataLocation {
    pub const DEFAULT: i32 = 0;
    pub const EXTERNAL: i32 = 1;
}

#[derive(Default)]
pub struct AttributeProto {
    pub name: Option<String>,
    /// Bits of the 32-bit float.
    pub f: Option<u32>,
    pub s: Option<String>,
    pub i: Option<i64>,
    pub g: Option<GraphProto>,
    pub t: Option<TensorProto>,
    /// Bits of the 32-bit floats.
    pub floats: Vec<u32>,
    pub ints: Vec<i64>,
    pub strings: Vec<String>,
    pub attr_type: Option<AttributeType>,
}

#[derive(Default)]
pub struct NodeProto {
    pub domain: Option<String>,
    pub name: Option<String>,
    pub input: Vec<String>,
    pub output: Vec<String>,
    pub op_type: Option<String>,
    pub attribute: Vec<AttributeProto>,
}

#[derive(Default)]
pub struct TensorProto {
    pub dims: Vec<i64>,
    pub data_type: Option<DataType>,
    /// Bits of the 32-bit floats.
    pub float_data: Vec<u32>,
    pub int32_data: Vec<i32>,
    pub int64_data: Vec<i64>,
    /// Bits of the 64-bit floats.
    pub double_data: Vec<u64>,
    /// Packed little-endian bytes.
    pub raw_data: Option<Vec<u8>>,
    pub name: Option<String>,
    pub external_data: Vec<StringStringEntryProto>,
    pub data_location: Option<DataLocation>,
}

#[derive(Default)]
pub struct Dimension {
    pub dim_value: Option<i64>,
    pub dim_param: Option<String>,
}

#[derive(Default)]
pub struct StringStringEntryProto {
    pub key: Option<String>,
    pub value: Option<String>,
}

#[derive(Default)]
pub struct OperatorSetIdProto {
    pub domain: Option<String>,
    pub version: Option<i64>,
}

#[derive(Default)]
pub struct TensorShapeProto {
    pub dim: Vec<Dimension>,
}

#[derive(Default)]
pub struct TypeProtoTensor {
    pub elem_type: Option<DataType>,
    pub shape: Option<TensorShapeProto>,
}

#[derive(Default)]
pub struct TypeProtoSequence {
    pub elem_type: Option<TypeProto>,
}

#[derive(Default)]
pub struct TypeProto {
    pub tensor_type: Option<TypeProtoTensor>,
    pub sequence: Option<Box<TypeProtoSequence>>,
}

#[derive(Default)]
pub struct ValueInfoProto {
    pub name: Option<String>,
    pub value_type: Option<TypeProto>,
}

#[derive(Default)]
pub struct GraphProto {
    pub node: Vec<NodeProto>,
    pub initializer: Vec<TensorProto>,
    pub input: Vec<ValueInfoProto>,
    pub output: Vec<ValueInfoProto>,
    pub value_info: Vec<ValueInfoProto>,
}

#[derive(Default)]
pub struct ModelProto {
    pub ir_version: Option<i64>,
    pub graph: Option<GraphProto>,
    pub opset_import: Vec<OperatorSetIdProto>,
    pub metadata_props: Vec<StringStringEntryProto>,
    pub producer_name: Option<String>,
    pub producer_version: Option<String>,
}

} // verus!
