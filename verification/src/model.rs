//! Intermediate representation of an ONNX model.
//!
//! Values are interned so that edges are cheap index lookups, each value knows
//! its producer and consumers, and subgraphs (the bodies of `If`, `Loop` and
//! `Scan` nodes) are flattened into an arena so they can be navigated by ID.
//!
//! Every type here has a view: the same data with strings as sequences of
//! characters and vectors as sequences. Contracts speak of the views.

use crate::chars::{self, join, same_text};
use crate::proto::DataType;
use crate::text::{self, signed_text};
use vstd::prelude::*;
use vstd::string::*;

pub use crate::category::OpCategory;
pub use crate::graph::{Graph, Model, OpsetImport};

verus! {

/// Index of a [`Node`] within its owning [`Graph`].
#[derive(Copy, Clone, PartialEq, Eq, Hash, PartialOrd, Ord, Debug, Structural)]
pub struct NodeId(pub u32);

/// Index of a [`Value`] within its owning [`Graph`].
#[derive(Copy, Clone, PartialEq, Eq, Hash, PartialOrd, Ord, Debug, Structural)]
pub struct ValueId(pub u32);

/// Index of a [`Graph`] within a [`Model`]'s arena.
#[derive(Copy, Clone, PartialEq, Eq, Hash, PartialOrd, Ord, Debug, Structural)]
pub struct GraphId(pub u32);

/// Reference to a value in a specific graph, used for cross-graph links.
#[derive(Copy, Clone, PartialEq, Eq, Debug, Structural)]
pub struct ValueRef {
    pub graph: GraphId,
    pub value: ValueId,
}

/// Whether a value is among those listed.
pub(crate) fn contains_value(values: &Vec<ValueId>, value: ValueId) -> (found: bool)
    ensures
        found == values@.contains(value),
{
    for i in 0..values.len()
        invariant
            forall|k: int| 0 <= k < i ==> values@[k] != value,
    {
        if values[i] == value {
            return true;
        }
    }
    false
}

/// The text of an optional string, empty where there is none.
pub open spec fn text_or_empty(item: Option<String>) -> Seq<char> {
    match item {
        Some(x) => x@,
        None => Seq::<char>::empty(),
    }
}

/// The views of a sequence of pairs of strings.
pub open spec fn pair_views(items: Seq<(String, String)>) -> Seq<(Seq<char>, Seq<char>)> {
    Seq::new(items.len(), |i: int| (items[i].0@, items[i].1@))
}

/// A tensor shape, which may contain symbolic dimensions.
#[derive(Clone, Debug, PartialEq)]
pub struct Shape(pub Vec<Dim>);

#[derive(Clone, Debug, PartialEq)]
pub enum Dim {
    Fixed(i64),
    /// Symbolic dimension, eg. `batch_size`.
    Param(String),
    Unknown,
}

pub enum DimView {
    Fixed(i64),
    Param(Seq<char>),
    Unknown,
}

impl View for Dim {
    type V = DimView;

    open spec fn view(&self) -> DimView {
        match self {
            Dim::Fixed(n) => DimView::Fixed(*n),
            Dim::Param(name) => DimView::Param(name@),
            Dim::Unknown => DimView::Unknown,
        }
    }
}

impl View for Shape {
    type V = Seq<DimView>;

    open spec fn view(&self) -> Seq<DimView> {
        chars::views(self.0@)
    }
}

/// One dimension as it is written in a shape.
pub open spec fn dim_text(dim: DimView) -> Seq<char> {
    match dim {
        DimView::Fixed(n) => text::signed_decimal(n as int),
        DimView::Param(name) => name,
        DimView::Unknown => "?"@,
    }
}

/// A shape as it is displayed: its dimensions in brackets.
pub open spec fn shape_text(shape: Seq<DimView>) -> Seq<char> {
    let dims = Seq::new(shape.len(), |i: int| dim_text(shape[i]));
    "["@ + chars::joined(dims, ", "@) + "]"@
}

impl Shape {
    /// The shape in brackets, eg. `[batch, 3, 224, 224]`.
    pub fn to_string(&self) -> (text: String)
        ensures
            text@ == shape_text(self@),
    {
        let mut dims: Vec<String> = Vec::new();
        for i in 0..self.0.len()
            invariant
                dims@.len() == i,
                forall|k: int| 0 <= k < i ==> (#[trigger] dims@[k])@ == dim_text(self@[k]),
        {
            let dim: String = match &self.0[i] {
                Dim::Fixed(n) => signed_text(*n),
                Dim::Param(name) => name.clone(),
                Dim::Unknown => "?".to_owned(),
            };
            assert(dim@ == dim_text(self@[i as int]));
            dims.push(dim);
        }
        let mut text: String = "[".to_owned();
        let list: String = join(&dims, ", ");
        text.append(list.as_str());
        text.append("]");
        proof {
            let expected = Seq::new(self@.len(), |i: int| dim_text(self@[i]));
            assert(chars::views(dims@) =~= expected);
        }
        text
    }
}

/// Constant tensor data from an initializer or a tensor-valued attribute.
pub struct Tensor {
    pub dtype: DataType,
    pub dims: Vec<i64>,
    pub data: TensorData,
}

/// Storage for a constant tensor.
///
/// ONNX stores tensor data either as packed little-endian bytes in `raw_data`
/// or in one of several typed repeated fields, and may instead point at an
/// external file. Floating point numbers are held as their bit patterns.
pub enum TensorData {
    Raw(Vec<u8>),
    Floats(Vec<u32>),
    Int32s(Vec<i32>),
    Int64s(Vec<i64>),
    Doubles(Vec<u64>),
    /// Data lives in a separate file, described by these key/value entries.
    External { entries: Vec<(String, String)> },
    Missing,
}

pub enum DataView {
    Raw(Seq<u8>),
    Floats(Seq<u32>),
    Int32s(Seq<i32>),
    Int64s(Seq<i64>),
    Doubles(Seq<u64>),
    External(Seq<(Seq<char>, Seq<char>)>),
    Missing,
}

pub struct TensorView {
    pub dtype: DataType,
    pub dims: Seq<i64>,
    pub data: DataView,
}

impl View for TensorData {
    type V = DataView;

    open spec fn view(&self) -> DataView {
        match self {
            TensorData::Raw(v) => DataView::Raw(v@),
            TensorData::Floats(v) => DataView::Floats(v@),
            TensorData::Int32s(v) => DataView::Int32s(v@),
            TensorData::Int64s(v) => DataView::Int64s(v@),
            TensorData::Doubles(v) => DataView::Doubles(v@),
            TensorData::External { entries } => DataView::External(pair_views(entries@)),
            TensorData::Missing => DataView::Missing,
        }
    }
}

impl View for Tensor {
    type V = TensorView;

    open spec fn view(&self) -> TensorView {
        TensorView { dtype: self.dtype, dims: self.dims@, data: self.data@ }
    }
}

/// The extent of one dimension, a negative one counting as nothing.
pub open spec fn extent(dim: i64) -> nat {
    if dim > 0 {
        dim as nat
    } else {
        0
    }
}

/// The number of elements of a tensor with these dimensions.
pub open spec fn element_count(dims: Seq<i64>) -> nat
    decreases dims.len(),
{
    if dims.len() == 0 {
        1
    } else {
        element_count(dims.drop_last()) * extent(dims.last())
    }
}

/// Whether the elements can be counted in 64 bits, one dimension at a time.
pub open spec fn countable(dims: Seq<i64>) -> bool {
    forall|k: int| 0 <= k <= dims.len() ==> #[trigger] element_count(dims.take(k)) <= u64::MAX
}

impl TensorView {
    /// Bytes of data held, where it is held at all.
    pub open spec fn stored_bytes(self) -> Option<nat> {
        match self.data {
            DataView::Raw(v) => Some(v.len()),
            DataView::Floats(v) => Some(v.len() * 4),
            DataView::Int32s(v) => Some(v.len() * 4),
            DataView::Int64s(v) => Some(v.len() * 8),
            DataView::Doubles(v) => Some(v.len() * 8),
            DataView::External(_) => None,
            DataView::Missing => None,
        }
    }

    /// The dimensions as a shape.
    pub open spec fn shape(self) -> Seq<DimView> {
        Seq::new(self.dims.len(), |i: int| DimView::Fixed(self.dims[i]))
    }
}

/// `len * size`, or the largest `usize` where that is out of range.
fn scaled_len(len: usize, size: usize) -> (bytes: usize)
    ensures
        bytes == if len * size <= usize::MAX { len * size } else { usize::MAX as int },
{
    match len.checked_mul(size) {
        Some(bytes) => bytes,
        None => usize::MAX,
    }
}

impl Tensor {
    /// The number of elements, or `None` where it cannot be counted in 64 bits.
    pub fn try_elem_count(&self) -> (count: Option<u64>)
        ensures
            count is Some <==> countable(self.dims@),
            count is Some ==> count->0 == element_count(self.dims@),
    {
        let mut count: u64 = 1;
        assert(self.dims@.take(0) =~= Seq::<i64>::empty());
        for i in 0..self.dims.len()
            invariant
                count == element_count(self.dims@.take(i as int)),
                forall|k: int|
                    0 <= k <= i ==> #[trigger] element_count(self.dims@.take(k)) <= u64::MAX,
        {
            proof {
                assert(self.dims@.take(i + 1).drop_last() =~= self.dims@.take(i as int));
                assert(self.dims@.take(i + 1).last() == self.dims@[i as int]);
            }
            let dim: i64 = self.dims[i];
            let size: u64 = if dim > 0 { dim as u64 } else { 0 };
            match count.checked_mul(size) {
                Some(product) => {
                    count = product;
                },
                None => {
                    assert(element_count(self.dims@.take(i + 1)) > u64::MAX);
                    return None;
                },
            }
        }
        assert(self.dims@.take(self.dims@.len() as int) =~= self.dims@);
        Some(count)
    }

    /// The number of elements.
    pub fn elem_count(&self) -> (count: u64)
        requires
            countable(self.dims@),
        ensures
            count == element_count(self.dims@),
    {
        match self.try_elem_count() {
            Some(count) => count,
            None => 0,
        }
    }

    /// The tensor's dimensions as a shape.
    pub fn shape(&self) -> (shape: Shape)
        ensures
            shape@ == self@.shape(),
    {
        let mut dims: Vec<Dim> = Vec::new();
        for i in 0..self.dims.len()
            invariant
                dims@.len() == i,
                forall|k: int| 0 <= k < i ==> (#[trigger] dims@[k])@ == DimView::Fixed(self.dims@[k]),
        {
            dims.push(Dim::Fixed(self.dims[i]));
        }
        let shape = Shape(dims);
        assert(shape@ =~= self@.shape());
        shape
    }

    /// Size of the tensor's data in bytes, where known.
    pub fn byte_len(&self) -> (len: Option<usize>)
        ensures
            match self@.stored_bytes() {
                Some(n) => len is Some && len->0 == if n <= usize::MAX { n } else { usize::MAX as nat },
                None => len is None,
            },
    {
        match &self.data {
            TensorData::Raw(bytes) => Some(bytes.len()),
            TensorData::Floats(v) => Some(scaled_len(v.len(), 4)),
            TensorData::Int32s(v) => Some(scaled_len(v.len(), 4)),
            TensorData::Int64s(v) => Some(scaled_len(v.len(), 8)),
            TensorData::Doubles(v) => Some(scaled_len(v.len(), 8)),
            TensorData::External { .. } | TensorData::Missing => None,
        }
    }
}

/// An operator attribute.
pub struct Attribute {
    pub name: String,
    pub value: AttrValue,
}

pub enum AttrValue {
    /// Bits of a 32-bit float.
    Float(u32),
    Int(i64),
    String(String),
    /// Bits of 32-bit floats.
    Floats(Vec<u32>),
    Ints(Vec<i64>),
    Strings(Vec<String>),
    Tensor(Tensor),
    Graph(GraphId),
    /// An attribute whose type is not one the viewer decodes.
    Unsupported(i32),
}

pub enum AttrValueView {
    Float(u32),
    Int(i64),
    String(Seq<char>),
    Floats(Seq<u32>),
    Ints(Seq<i64>),
    Strings(Seq<Seq<char>>),
    Tensor(TensorView),
    Graph(GraphId),
    Unsupported(i32),
}

pub struct AttributeView {
    pub name: Seq<char>,
    pub value: AttrValueView,
}

impl View for AttrValue {
    type V = AttrValueView;

    open spec fn view(&self) -> AttrValueView {
        match self {
            AttrValue::Float(v) => AttrValueView::Float(*v),
            AttrValue::Int(v) => AttrValueView::Int(*v),
            AttrValue::String(v) => AttrValueView::String(v@),
            AttrValue::Floats(v) => AttrValueView::Floats(v@),
            AttrValue::Ints(v) => AttrValueView::Ints(v@),
            AttrValue::Strings(v) => AttrValueView::Strings(chars::views(v@)),
            AttrValue::Tensor(v) => AttrValueView::Tensor(v@),
            AttrValue::Graph(v) => AttrValueView::Graph(*v),
            AttrValue::Unsupported(v) => AttrValueView::Unsupported(*v),
        }
    }
}

impl View for Attribute {
    type V = AttributeView;

    open spec fn view(&self) -> AttributeView {
        AttributeView { name: self.name@, value: self.value@ }
    }
}

/// An operator instance.
pub struct Node {
    pub id: NodeId,
    /// Node name. Synthesized from the op type and index if the model does not
    /// name the node, which is common in exported models.
    pub name: String,
    /// Whether `name` came from the model rather than being synthesized.
    pub named: bool,
    pub op_type: String,
    /// Operator domain. Empty for the default ONNX domain.
    pub domain: String,
    /// Inputs, in operator argument order. `None` marks an omitted optional
    /// input, which ONNX encodes as an empty name.
    pub inputs: Vec<Option<ValueId>>,
    pub outputs: Vec<Option<ValueId>>,
    pub attrs: Vec<Attribute>,
}

#[verifier::ext_equal]
pub struct NodeView {
    pub id: NodeId,
    pub name: Seq<char>,
    pub named: bool,
    pub op_type: Seq<char>,
    pub domain: Seq<char>,
    pub inputs: Seq<Option<ValueId>>,
    pub outputs: Seq<Option<ValueId>>,
    pub attrs: Seq<AttributeView>,
}

impl View for Node {
    type V = NodeView;

    open spec fn view(&self) -> NodeView {
        NodeView {
            id: self.id,
            name: self.name@,
            named: self.named,
            op_type: self.op_type@,
            domain: self.domain@,
            inputs: self.inputs@,
            outputs: self.outputs@,
            attrs: chars::views(self.attrs@),
        }
    }
}

/// The first tensor among the attributes, if there is one.
pub open spec fn first_tensor(attrs: Seq<AttributeView>) -> Option<TensorView>
    decreases attrs.len(),
{
    if attrs.len() == 0 {
        None
    } else {
        match first_tensor(attrs.drop_last()) {
            Some(tensor) => Some(tensor),
            None => match attrs.last().value {
                AttrValueView::Tensor(tensor) => Some(tensor),
                _ => None,
            },
        }
    }
}

impl NodeView {
    /// The tensor that a `Constant` node produces.
    pub open spec fn constant_tensor(self) -> Option<TensorView> {
        if self.op_type == "Constant"@ {
            first_tensor(self.attrs)
        } else {
            None
        }
    }

    /// Whether the node just supplies a constant.
    pub open spec fn is_constant(self) -> bool {
        self.constant_tensor() is Some
    }

    /// The op type, after its domain where that is not the default one.
    pub open spec fn qualified_op_type(self) -> Seq<char> {
        if self.domain.len() == 0 || self.domain == "ai.onnx"@ {
            self.op_type
        } else {
            self.domain + "."@ + self.op_type
        }
    }
}

impl Node {
    /// Whether this node just supplies a constant, in which case a graph
    /// drawing is clearer if it is folded into its consumers rather than drawn.
    pub fn is_constant(&self) -> (constant: bool)
        ensures
            constant == self@.is_constant(),
    {
        self.constant_tensor().is_some()
    }

    /// The tensor produced by a `Constant` node.
    pub fn constant_tensor(&self) -> (tensor: Option<&Tensor>)
        ensures
            match self@.constant_tensor() {
                Some(expected) => tensor is Some && tensor->0@ == expected,
                None => tensor is None,
            },
    {
        if !same_text(self.op_type.as_str(), "Constant") {
            return None;
        }
        let ghost attrs = chars::views(self.attrs@);
        assert(attrs.take(0) =~= Seq::<AttributeView>::empty());
        for i in 0..self.attrs.len()
            invariant
                attrs == chars::views(self.attrs@),
                self.op_type@ == "Constant"@,
                first_tensor(attrs.take(i as int)) is None,
        {
            proof {
                assert(attrs.take(i + 1).drop_last() =~= attrs.take(i as int));
                assert(attrs.take(i + 1).last() == self.attrs@[i as int]@);
            }
            if let AttrValue::Tensor(tensor) = &self.attrs[i].value {
                proof {
                    lemma_first_tensor_stays(attrs, i + 1);
                }
                return Some(tensor);
            }
        }
        assert(attrs.take(attrs.len() as int) =~= attrs);
        None
    }

    /// Op type qualified by domain, eg. `com.microsoft.Attention`.
    pub fn qualified_op_type(&self) -> (text: String)
        ensures
            text@ == self@.qualified_op_type(),
    {
        if self.domain.as_str().is_empty() || same_text(self.domain.as_str(), "ai.onnx") {
            self.op_type.clone()
        } else {
            let mut text: String = self.domain.clone();
            text.append(".");
            text.append(self.op_type.as_str());
            text
        }
    }
}

proof fn lemma_first_tensor_stays(attrs: Seq<AttributeView>, n: int)
    requires
        0 <= n <= attrs.len(),
        first_tensor(attrs.take(n)) is Some,
    ensures
        first_tensor(attrs) == first_tensor(attrs.take(n)),
    decreases attrs.len(),
{
    if n == attrs.len() {
        assert(attrs.take(n) =~= attrs);
    } else {
        assert(attrs.drop_last().take(n) =~= attrs.take(n));
        lemma_first_tensor_stays(attrs.drop_last(), n);
    }
}

/// A named tensor flowing through a graph: a graph input or output, a weight,
/// or an intermediate result.
pub struct Value {
    pub id: ValueId,
    pub name: String,
    pub kind: ValueKind,
    pub dtype: Option<DataType>,
    pub shape: Option<Shape>,
    /// Node that produces this value, if any.
    pub producer: Option<NodeId>,
    /// Nodes that read this value.
    pub consumers: Vec<NodeId>,
    /// Constant data, for initializers.
    pub tensor: Option<Tensor>,
    /// Definition in an enclosing graph, for values read from an outer scope.
    pub outer: Option<ValueRef>,
}

#[derive(Copy, Clone, PartialEq, Eq, Debug, Structural)]
pub enum ValueKind {
    /// Declared input of the graph.
    Input,
    /// Declared output of the graph.
    Output,
    /// Constant weight stored in the model as an initializer.
    Initializer,
    /// Output of a `Constant` node, which is also a constant weight.
    Constant,
    /// Produced and consumed within the graph.
    Intermediate,
    /// Read from an enclosing graph's scope.
    OuterScope,
}

#[verifier::ext_equal]
pub struct ValueView {
    pub id: ValueId,
    pub name: Seq<char>,
    pub kind: ValueKind,
    pub dtype: Option<DataType>,
    pub shape: Option<Seq<DimView>>,
    pub producer: Option<NodeId>,
    pub consumers: Seq<NodeId>,
    pub tensor: Option<TensorView>,
    pub outer: Option<ValueRef>,
}

impl View for Value {
    type V = ValueView;

    open spec fn view(&self) -> ValueView {
        ValueView {
            id: self.id,
            name: self.name@,
            kind: self.kind,
            dtype: self.dtype,
            shape: chars::opt_view(self.shape),
            producer: self.producer,
            consumers: self.consumers@,
            tensor: chars::opt_view(self.tensor),
            outer: self.outer,
        }
    }
}

impl ValueKind {
    /// Whether values of this kind are constants.
    pub open spec fn is_constant(self) -> bool {
        self is Initializer || self is Constant
    }

    /// The word for this kind.
    pub open spec fn label_text(self) -> Seq<char> {
        match self {
            ValueKind::Input => "input"@,
            ValueKind::Output => "output"@,
            ValueKind::Initializer => "initializer"@,
            ValueKind::Constant => "constant"@,
            ValueKind::Intermediate => "intermediate"@,
            ValueKind::OuterScope => "outer scope"@,
        }
    }

    /// The word shown for values of this kind.
    pub fn label(&self) -> (label: &'static str)
        ensures
            label@ == self.label_text(),
    {
        match self {
            ValueKind::Input => "input",
            ValueKind::Output => "output",
            ValueKind::Initializer => "initializer",
            ValueKind::Constant => "constant",
            ValueKind::Intermediate => "intermediate",
            ValueKind::OuterScope => "outer scope",
        }
    }
}

/// The name that the ONNX format gives to an element type, or its number where
/// it has none.
pub open spec fn data_type_text(code: i32) -> Seq<char> {
    if code == DataType::FLOAT {
        "FLOAT"@
    } else if code == DataType::UINT8 {
        "UINT8"@
    } else if code == DataType::INT8 {
        "INT8"@
    } else if code == DataType::UINT16 {
        "UINT16"@
    } else if code == DataType::INT16 {
        "INT16"@
    } else if code == DataType::INT32 {
        "INT32"@
    } else if code == DataType::INT64 {
        "INT64"@
    } else if code == DataType::STRING {
        "STRING"@
    } else if code == DataType::BOOL {
        "BOOL"@
    } else if code == DataType::FLOAT16 {
        "FLOAT16"@
    } else if code == DataType::DOUBLE {
        "DOUBLE"@
    } else if code == DataType::UINT32 {
        "UINT32"@
    } else if code == DataType::UINT64 {
        "UINT64"@
    } else if code == DataType::COMPLEX64 {
        "COMPLEX64"@
    } else if code == DataType::COMPLEX128 {
        "COMPLEX128"@
    } else if code == DataType::BFLOAT16 {
        "BFLOAT16"@
    } else if code == DataType::FLOAT8E4M3FN {
        "FLOAT8E4M3FN"@
    } else if code == DataType::FLOAT8E4M3FNUZ {
        "FLOAT8E4M3FNUZ"@
    } else if code == DataType::FLOAT8E5M2 {
        "FLOAT8E5M2"@
    } else if code == DataType::FLOAT8E5M2FNUZ {
        "FLOAT8E5M2FNUZ"@
    } else if code == DataType::UINT4 {
        "UINT4"@
    } else if code == DataType::INT4 {
        "INT4"@
    } else if code == DataType::FLOAT4E2M1 {
        "FLOAT4E2M1"@
    } else if code == DataType::FLOAT8E8M0 {
        "FLOAT8E8M0"@
    } else {
        text::signed_decimal(code as int)
    }
}

/// Displays a `rten_onnx::onnx::DataType`: the name that `DataType::name` gives
/// it, or its number in decimal where there is no name.
#[verifier::external_body]
fn display_data_type(code: i32) -> (text: String)
    ensures
        text@ == data_type_text(code),
{
    rten_onnx::onnx::DataType(code).to_string()
}

impl DataType {
    /// The name of the element type, eg. `FLOAT`.
    pub fn to_string(&self) -> (text: String)
        ensures
            text@ == data_type_text(self.0),
    {
        display_data_type(self.0)
    }
}

/// A type and shape as they are displayed together, with a question mark for
/// what is not known.
pub open spec fn type_text(dtype: Option<DataType>, shape: Option<Seq<DimView>>) -> Seq<char> {
    match (dtype, shape) {
        (Some(dtype), Some(shape)) => data_type_text(dtype.0) + shape_text(shape),
        (Some(dtype), None) => data_type_text(dtype.0) + "[?]"@,
        (None, Some(shape)) => "?"@ + shape_text(shape),
        (None, None) => "?"@,
    }
}

impl ValueView {
    pub open spec fn type_text(self) -> Seq<char> {
        type_text(self.dtype, self.shape)
    }
}

impl Value {
    /// Whether this value is a constant folded into its consumers rather than
    /// something to draw as a graph edge.
    pub fn is_constant(&self) -> (constant: bool)
        ensures
            constant == self.kind.is_constant(),
    {
        matches!(self.kind, ValueKind::Initializer | ValueKind::Constant)
    }

    /// Description of the value's type and shape, eg. `FLOAT[1, 3, 224, 224]`.
    pub fn type_summary(&self) -> (text: String)
        ensures
            text@ == self@.type_text(),
    {
        let mut text: String = match &self.dtype {
            Some(dtype) => dtype.to_string(),
            None => "?".to_owned(),
        };
        match &self.shape {
            Some(shape) => {
                let shape_text: String = shape.to_string();
                text.append(shape_text.as_str());
            },
            None => {
                if self.dtype.is_some() {
                    text.append("[?]");
                }
            },
        }
        text
    }
}

} // verus!
