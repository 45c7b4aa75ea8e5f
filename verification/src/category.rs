//! What kind of work operators do.

use vstd::prelude::*;
use vstd::string::*;

verus! {

/// The kind of work an operator does, for colouring.
#[derive(Copy, Clone, PartialEq, Eq, Debug, Structural)]
pub enum OpCategory {
    /// An operator that does the bulk of the arithmetic: products of matrices and convolutions.
    Compute,
    /// An operator that maps each element of one tensor.
    Unary,
    /// An operator that combines the elements of several tensors one by one.
    Binary,
    /// An operator that rescales elements by statistics over some of them.
    Normalization,
    /// An operator that reduces windows of a tensor.
    Pooling,
    /// An operator that reduces whole axes of a tensor.
    Reduction,
    /// An operator that rearranges elements without computing on them.
    DataMovement,
    Other,
}

/// Whether an operator does the bulk of the arithmetic: products of matrices and convolutions.
pub open spec fn is_compute(op: Seq<char>) -> bool {
    ||| op == "Attention"@
    ||| op == "Conv"@
    ||| op == "ConvInteger"@
    ||| op == "ConvTranspose"@
    ||| op == "DeformConv"@
    ||| op == "Einsum"@
    ||| op == "GRU"@
    ||| op == "Gemm"@
    ||| op == "LSTM"@
    ||| op == "MatMul"@
    ||| op == "MatMulInteger"@
    ||| op == "QLinearConv"@
    ||| op == "QLinearMatMul"@
    ||| op == "RNN"@
}

/// Whether an operator maps each element of one tensor.
pub open spec fn is_unary(op: Seq<char>) -> bool {
    ||| op == "Abs"@
    ||| op == "Acos"@
    ||| op == "Acosh"@
    ||| op == "Asin"@
    ||| op == "Asinh"@
    ||| op == "Atan"@
    ||| op == "Atanh"@
    ||| op == "BitwiseNot"@
    ||| op == "Ceil"@
    ||| op == "Celu"@
    ||| op == "Clip"@
    ||| op == "Cos"@
    ||| op == "Cosh"@
    ||| op == "Elu"@
    ||| op == "Erf"@
    ||| op == "Exp"@
    ||| op == "Floor"@
    ||| op == "Gelu"@
    ||| op == "HardSigmoid"@
    ||| op == "HardSwish"@
    ||| op == "IsInf"@
    ||| op == "IsNaN"@
    ||| op == "LeakyRelu"@
    ||| op == "Log"@
    ||| op == "Mish"@
    ||| op == "Neg"@
    ||| op == "Not"@
    ||| op == "Reciprocal"@
    ||| op == "Relu"@
    ||| op == "Round"@
    ||| op == "Selu"@
    ||| op == "Shrink"@
    ||| op == "Sigmoid"@
    ||| op == "Sign"@
    ||| op == "Sin"@
    ||| op == "Sinh"@
    ||| op == "Softplus"@
    ||| op == "Softsign"@
    ||| op == "Sqrt"@
    ||| op == "Tan"@
    ||| op == "Tanh"@
    ||| op == "ThresholdedRelu"@
}

/// Whether an operator combines the elements of several tensors one by one.
pub open spec fn is_binary(op: Seq<char>) -> bool {
    ||| op == "Add"@
    ||| op == "And"@
    ||| op == "BitShift"@
    ||| op == "BitwiseAnd"@
    ||| op == "BitwiseOr"@
    ||| op == "BitwiseXor"@
    ||| op == "Div"@
    ||| op == "Equal"@
    ||| op == "Greater"@
    ||| op == "GreaterOrEqual"@
    ||| op == "Less"@
    ||| op == "LessOrEqual"@
    ||| op == "Max"@
    ||| op == "Mean"@
    ||| op == "Min"@
    ||| op == "Mod"@
    ||| op == "Mul"@
    ||| op == "Or"@
    ||| op == "PRelu"@
    ||| op == "Pow"@
    ||| op == "Sub"@
    ||| op == "Sum"@
    ||| op == "Where"@
    ||| op == "Xor"@
}

/// Whether an operator rescales elements by statistics over some of them.
pub open spec fn is_normalization(op: Seq<char>) -> bool {
    ||| op == "BatchNormalization"@
    ||| op == "GroupNormalization"@
    ||| op == "Hardmax"@
    ||| op == "InstanceNormalization"@
    ||| op == "LRN"@
    ||| op == "LayerNormalization"@
    ||| op == "LogSoftmax"@
    ||| op == "LpNormalization"@
    ||| op == "MeanVarianceNormalization"@
    ||| op == "RMSNormalization"@
    ||| op == "Softmax"@
}

/// Whether an operator reduces windows of a tensor.
pub open spec fn is_pooling(op: Seq<char>) -> bool {
    ||| op == "AveragePool"@
    ||| op == "GlobalAveragePool"@
    ||| op == "GlobalLpPool"@
    ||| op == "GlobalMaxPool"@
    ||| op == "LpPool"@
    ||| op == "MaxPool"@
    ||| op == "MaxRoiPool"@
    ||| op == "RoiAlign"@
}

/// Whether an operator reduces whole axes of a tensor.
pub open spec fn is_reduction(op: Seq<char>) -> bool {
    ||| op == "ArgMax"@
    ||| op == "ArgMin"@
    ||| op == "ReduceL1"@
    ||| op == "ReduceL2"@
    ||| op == "ReduceLogSum"@
    ||| op == "ReduceLogSumExp"@
    ||| op == "ReduceMax"@
    ||| op == "ReduceMean"@
    ||| op == "ReduceMin"@
    ||| op == "ReduceProd"@
    ||| op == "ReduceSum"@
    ||| op == "ReduceSumSquare"@
}

/// Whether an operator rearranges elements without computing on them.
pub open spec fn is_movement(op: Seq<char>) -> bool {
    ||| op == "Compress"@
    ||| op == "Concat"@
    ||| op == "DepthToSpace"@
    ||| op == "Expand"@
    ||| op == "Flatten"@
    ||| op == "Gather"@
    ||| op == "GatherElements"@
    ||| op == "GatherND"@
    ||| op == "Identity"@
    ||| op == "Pad"@
    ||| op == "Reshape"@
    ||| op == "ReverseSequence"@
    ||| op == "Scatter"@
    ||| op == "ScatterElements"@
    ||| op == "ScatterND"@
    ||| op == "Slice"@
    ||| op == "SpaceToDepth"@
    ||| op == "Split"@
    ||| op == "Squeeze"@
    ||| op == "Tile"@
    ||| op == "Transpose"@
    ||| op == "Unsqueeze"@
}

/// The kind of work that an operator does.
pub open spec fn category_of(op: Seq<char>) -> OpCategory {
    if is_compute(op) {
        OpCategory::Compute
    } else if is_unary(op) {
        OpCategory::Unary
    } else if is_binary(op) {
        OpCategory::Binary
    } else if is_normalization(op) {
        OpCategory::Normalization
    } else if is_pooling(op) {
        OpCategory::Pooling
    } else if is_reduction(op) {
        OpCategory::Reduction
    } else if is_movement(op) {
        OpCategory::DataMovement
    } else {
        OpCategory::Other
    }
}

fn compute(op: &str) -> (found: bool)
    ensures
        found == is_compute(op@),
{
    *op == *"Attention"
        || *op == *"Conv"
        || *op == *"ConvInteger"
        || *op == *"ConvTranspose"
        || *op == *"DeformConv"
        || *op == *"Einsum"
        || *op == *"GRU"
        || *op == *"Gemm"
        || *op == *"LSTM"
        || *op == *"MatMul"
        || *op == *"MatMulInteger"
        || *op == *"QLinearConv"
        || *op == *"QLinearMatMul"
        || *op == *"RNN"
}

fn unary(op: &str) -> (found: bool)
    ensures
        found == is_unary(op@),
{
    *op == *"Abs"
        || *op == *"Acos"
        || *op == *"Acosh"
        || *op == *"Asin"
        || *op == *"Asinh"
        || *op == *"Atan"
        || *op == *"Atanh"
        || *op == *"BitwiseNot"
        || *op == *"Ceil"
        || *op == *"Celu"
        || *op == *"Clip"
        || *op == *"Cos"
        || *op == *"Cosh"
        || *op == *"Elu"
        || *op == *"Erf"
        || *op == *"Exp"
        || *op == *"Floor"
        || *op == *"Gelu"
        || *op == *"HardSigmoid"
        || *op == *"HardSwish"
        || *op == *"IsInf"
        || *op == *"IsNaN"
        || *op == *"LeakyRelu"
        || *op == *"Log"
        || *op == *"Mish"
        || *op == *"Neg"
        || *op == *"Not"
        || *op == *"Reciprocal"
        || *op == *"Relu"
        || *op == *"Round"
        || *op == *"Selu"
        || *op == *"Shrink"
        || *op == *"Sigmoid"
        || *op == *"Sign"
        || *op == *"Sin"
        || *op == *"Sinh"
        || *op == *"Softplus"
        || *op == *"Softsign"
        || *op == *"Sqrt"
        || *op == *"Tan"
        || *op == *"Tanh"
        || *op == *"ThresholdedRelu"
}

fn binary(op: &str) -> (found: bool)
    ensures
        found == is_binary(op@),
{
    *op == *"Add"
        || *op == *"And"
        || *op == *"BitShift"
        || *op == *"BitwiseAnd"
        || *op == *"BitwiseOr"
        || *op == *"BitwiseXor"
        || *op == *"Div"
        || *op == *"Equal"
        || *op == *"Greater"
        || *op == *"GreaterOrEqual"
        || *op == *"Less"
        || *op == *"LessOrEqual"
        || *op == *"Max"
        || *op == *"Mean"
        || *op == *"Min"
        || *op == *"Mod"
        || *op == *"Mul"
        || *op == *"Or"
        || *op == *"PRelu"
        || *op == *"Pow"
        || *op == *"Sub"
        || *op == *"Sum"
        || *op == *"Where"
        || *op == *"Xor"
}

fn normalization(op: &str) -> (found: bool)
    ensures
        found == is_normalization(op@),
{
    *op == *"BatchNormalization"
        || *op == *"GroupNormalization"
        || *op == *"Hardmax"
        || *op == *"InstanceNormalization"
        || *op == *"LRN"
        || *op == *"LayerNormalization"
        || *op == *"LogSoftmax"
        || *op == *"LpNormalization"
        || *op == *"MeanVarianceNormalization"
        || *op == *"RMSNormalization"
        || *op == *"Softmax"
}

fn pooling(op: &str) -> (found: bool)
    ensures
        found == is_pooling(op@),
{
    *op == *"AveragePool"
        || *op == *"GlobalAveragePool"
        || *op == *"GlobalLpPool"
        || *op == *"GlobalMaxPool"
        || *op == *"LpPool"
        || *op == *"MaxPool"
        || *op == *"MaxRoiPool"
        || *op == *"RoiAlign"
}

fn reduction(op: &str) -> (found: bool)
    ensures
        found == is_reduction(op@),
{
    *op == *"ArgMax"
        || *op == *"ArgMin"
        || *op == *"ReduceL1"
        || *op == *"ReduceL2"
        || *op == *"ReduceLogSum"
        || *op == *"ReduceLogSumExp"
        || *op == *"ReduceMax"
        || *op == *"ReduceMean"
        || *op == *"ReduceMin"
        || *op == *"ReduceProd"
        || *op == *"ReduceSum"
        || *op == *"ReduceSumSquare"
}

fn movement(op: &str) -> (found: bool)
    ensures
        found == is_movement(op@),
{
    *op == *"Compress"
        || *op == *"Concat"
        || *op == *"DepthToSpace"
        || *op == *"Expand"
        || *op == *"Flatten"
        || *op == *"Gather"
        || *op == *"GatherElements"
        || *op == *"GatherND"
        || *op == *"Identity"
        || *op == *"Pad"
        || *op == *"Reshape"
        || *op == *"ReverseSequence"
        || *op == *"Scatter"
        || *op == *"ScatterElements"
        || *op == *"ScatterND"
        || *op == *"Slice"
        || *op == *"SpaceToDepth"
        || *op == *"Split"
        || *op == *"Squeeze"
        || *op == *"Tile"
        || *op == *"Transpose"
        || *op == *"Unsqueeze"
}

impl OpCategory {
    /// The kind of work that operators of this type do.
    pub fn of(op_type: &str) -> (category: OpCategory)
        ensures
            category == category_of(op_type@),
    {
        if compute(op_type) {
            OpCategory::Compute
        } else if unary(op_type) {
            OpCategory::Unary
        } else if binary(op_type) {
            OpCategory::Binary
        } else if normalization(op_type) {
            OpCategory::Normalization
        } else if pooling(op_type) {
            OpCategory::Pooling
        } else if reduction(op_type) {
            OpCategory::Reduction
        } else if movement(op_type) {
            OpCategory::DataMovement
        } else {
            OpCategory::Other
        }
    }
}

} // verus!
