//! The order of the operator table.

use crate::op_schema;
use crate::queries;
use crate::schema_table::SCHEMAS;
use vstd::prelude::*;
use vstd::string::*;

verus! {

/// The operator type in row `i` of the table.
pub open spec fn op_type_at(i: int) -> Seq<char> {
    op_schema::schema_model(SCHEMAS@[i]).op_type
}

/// Whether each of the rows from `from` up to `to` comes before the next.
spec fn ascends(from: int, to: int) -> bool {
    forall|i: int|
        from <= i < to ==> queries::text_before(#[trigger] op_type_at(i), op_type_at(i + 1))
}

/// Strings that agree up to a place are ordered by what is there.
proof fn lemma_before(a: Seq<char>, b: Seq<char>, k: int)
    requires
        0 <= k <= a.len(),
        k < b.len(),
        a.take(k) =~= b.take(k),
        k < a.len() ==> a[k] < b[k],
    ensures
        queries::text_before(a, b),
    decreases k,
{
    if k > 0 {
        assert(a.take(k)[0] == b.take(k)[0]);
        assert(a.skip(1).take(k - 1) =~= a.take(k).skip(1));
        assert(b.skip(1).take(k - 1) =~= b.take(k).skip(1));
        lemma_before(a.skip(1), b.skip(1), k - 1);
    }
}

proof fn lemma_ascends_from_0()
    ensures
        ascends(0, 10),
{
    reveal_strlit("Abs");
    reveal_strlit("Acos");
    reveal_strlit("Acosh");
    reveal_strlit("Adagrad");
    reveal_strlit("Adam");
    reveal_strlit("Add");
    reveal_strlit("AffineGrid");
    reveal_strlit("And");
    reveal_strlit("ArgMax");
    reveal_strlit("ArgMin");
    reveal_strlit("ArrayFeatureExtractor");
    assert(op_type_at(0) == "Abs"@);
    assert(op_type_at(1) == "Acos"@);
    assert(op_type_at(2) == "Acosh"@);
    assert(op_type_at(3) == "Adagrad"@);
    assert(op_type_at(4) == "Adam"@);
    assert(op_type_at(5) == "Add"@);
    assert(op_type_at(6) == "AffineGrid"@);
    assert(op_type_at(7) == "And"@);
    assert(op_type_at(8) == "ArgMax"@);
    assert(op_type_at(9) == "ArgMin"@);
    assert(op_type_at(10) == "ArrayFeatureExtractor"@);
    lemma_before(op_type_at(0), op_type_at(1), 1);
    lemma_before(op_type_at(1), op_type_at(2), 4);
    lemma_before(op_type_at(2), op_type_at(3), 1);
    lemma_before(op_type_at(3), op_type_at(4), 3);
    lemma_before(op_type_at(4), op_type_at(5), 2);
    lemma_before(op_type_at(5), op_type_at(6), 1);
    lemma_before(op_type_at(6), op_type_at(7), 1);
    lemma_before(op_type_at(7), op_type_at(8), 1);
    lemma_before(op_type_at(8), op_type_at(9), 4);
    lemma_before(op_type_at(9), op_type_at(10), 2);
}

proof fn lemma_ascends_from_10()
    ensures
        ascends(10, 20),
{
    reveal_strlit("ArrayFeatureExtractor");
    reveal_strlit("Asin");
    reveal_strlit("Asinh");
    reveal_strlit("Atan");
    reveal_strlit("Atanh");
    reveal_strlit("Attention");
    reveal_strlit("AveragePool");
    reveal_strlit("BatchNormalization");
    reveal_strlit("Bernoulli");
    reveal_strlit("Binarizer");
    reveal_strlit("BitShift");
    assert(op_type_at(10) == "ArrayFeatureExtractor"@);
    assert(op_type_at(11) == "Asin"@);
    assert(op_type_at(12) == "Asinh"@);
    assert(op_type_at(13) == "Atan"@);
    assert(op_type_at(14) == "Atanh"@);
    assert(op_type_at(15) == "Attention"@);
    assert(op_type_at(16) == "AveragePool"@);
    assert(op_type_at(17) == "BatchNormalization"@);
    assert(op_type_at(18) == "Bernoulli"@);
    assert(op_type_at(19) == "Binarizer"@);
    assert(op_type_at(20) == "BitShift"@);
    lemma_before(op_type_at(10), op_type_at(11), 1);
    lemma_before(op_type_at(11), op_type_at(12), 4);
    lemma_before(op_type_at(12), op_type_at(13), 1);
    lemma_before(op_type_at(13), op_type_at(14), 4);
    lemma_before(op_type_at(14), op_type_at(15), 2);
    lemma_before(op_type_at(15), op_type_at(16), 1);
    lemma_before(op_type_at(16), op_type_at(17), 0);
    lemma_before(op_type_at(17), op_type_at(18), 1);
    lemma_before(op_type_at(18), op_type_at(19), 1);
    lemma_before(op_type_at(19), op_type_at(20), 2);
}

proof fn lemma_ascends_from_20()
    ensures
        ascends(20, 30),
{
    reveal_strlit("BitShift");
    reveal_strlit("BitwiseAnd");
    reveal_strlit("BitwiseNot");
    reveal_strlit("BitwiseOr");
    reveal_strlit("BitwiseXor");
    reveal_strlit("BlackmanWindow");
    reveal_strlit("Cast");
    reveal_strlit("CastLike");
    reveal_strlit("CastMap");
    reveal_strlit("CategoryMapper");
    reveal_strlit("Ceil");
    assert(op_type_at(20) == "BitShift"@);
    assert(op_type_at(21) == "BitwiseAnd"@);
    assert(op_type_at(22) == "BitwiseNot"@);
    assert(op_type_at(23) == "BitwiseOr"@);
    assert(op_type_at(24) == "BitwiseXor"@);
    assert(op_type_at(25) == "BlackmanWindow"@);
    assert(op_type_at(26) == "Cast"@);
    assert(op_type_at(27) == "CastLike"@);
    assert(op_type_at(28) == "CastMap"@);
    assert(op_type_at(29) == "CategoryMapper"@);
    assert(op_type_at(30) == "Ceil"@);
    lemma_before(op_type_at(20), op_type_at(21), 3);
    lemma_before(op_type_at(21), op_type_at(22), 7);
    lemma_before(op_type_at(22), op_type_at(23), 7);
    lemma_before(op_type_at(23), op_type_at(24), 7);
    lemma_before(op_type_at(24), op_type_at(25), 1);
    lemma_before(op_type_at(25), op_type_at(26), 0);
    lemma_before(op_type_at(26), op_type_at(27), 4);
    lemma_before(op_type_at(27), op_type_at(28), 4);
    lemma_before(op_type_at(28), op_type_at(29), 2);
    lemma_before(op_type_at(29), op_type_at(30), 1);
}

proof fn lemma_ascends_from_30()
    ensures
        ascends(30, 40),
{
    reveal_strlit("Ceil");
    reveal_strlit("Celu");
    reveal_strlit("CenterCropPad");
    reveal_strlit("Clip");
    reveal_strlit("Col2Im");
    reveal_strlit("Compress");
    reveal_strlit("Concat");
    reveal_strlit("ConcatFromSequence");
    reveal_strlit("Constant");
    reveal_strlit("ConstantOfShape");
    reveal_strlit("Conv");
    assert(op_type_at(30) == "Ceil"@);
    assert(op_type_at(31) == "Celu"@);
    assert(op_type_at(32) == "CenterCropPad"@);
    assert(op_type_at(33) == "Clip"@);
    assert(op_type_at(34) == "Col2Im"@);
    assert(op_type_at(35) == "Compress"@);
    assert(op_type_at(36) == "Concat"@);
    assert(op_type_at(37) == "ConcatFromSequence"@);
    assert(op_type_at(38) == "Constant"@);
    assert(op_type_at(39) == "ConstantOfShape"@);
    assert(op_type_at(40) == "Conv"@);
    lemma_before(op_type_at(30), op_type_at(31), 2);
    lemma_before(op_type_at(31), op_type_at(32), 2);
    lemma_before(op_type_at(32), op_type_at(33), 1);
    lemma_before(op_type_at(33), op_type_at(34), 1);
    lemma_before(op_type_at(34), op_type_at(35), 2);
    lemma_before(op_type_at(35), op_type_at(36), 2);
    lemma_before(op_type_at(36), op_type_at(37), 6);
    lemma_before(op_type_at(37), op_type_at(38), 3);
    lemma_before(op_type_at(38), op_type_at(39), 8);
    lemma_before(op_type_at(39), op_type_at(40), 3);
}

proof fn lemma_ascends_from_40()
    ensures
        ascends(40, 50),
{
    reveal_strlit("Conv");
    reveal_strlit("ConvInteger");
    reveal_strlit("ConvTranspose");
    reveal_strlit("Cos");
    reveal_strlit("Cosh");
    reveal_strlit("CumSum");
    reveal_strlit("DFT");
    reveal_strlit("DeformConv");
    reveal_strlit("DepthToSpace");
    reveal_strlit("DequantizeLinear");
    reveal_strlit("Det");
    assert(op_type_at(40) == "Conv"@);
    assert(op_type_at(41) == "ConvInteger"@);
    assert(op_type_at(42) == "ConvTranspose"@);
    assert(op_type_at(43) == "Cos"@);
    assert(op_type_at(44) == "Cosh"@);
    assert(op_type_at(45) == "CumSum"@);
    assert(op_type_at(46) == "DFT"@);
    assert(op_type_at(47) == "DeformConv"@);
    assert(op_type_at(48) == "DepthToSpace"@);
    assert(op_type_at(49) == "DequantizeLinear"@);
    assert(op_type_at(50) == "Det"@);
    lemma_before(op_type_at(40), op_type_at(41), 4);
    lemma_before(op_type_at(41), op_type_at(42), 4);
    lemma_before(op_type_at(42), op_type_at(43), 2);
    lemma_before(op_type_at(43), op_type_at(44), 3);
    lemma_before(op_type_at(44), op_type_at(45), 1);
    lemma_before(op_type_at(45), op_type_at(46), 0);
    lemma_before(op_type_at(46), op_type_at(47), 1);
    lemma_before(op_type_at(47), op_type_at(48), 2);
    lemma_before(op_type_at(48), op_type_at(49), 2);
    lemma_before(op_type_at(49), op_type_at(50), 2);
}

proof fn lemma_ascends_from_50()
    ensures
        ascends(50, 60),
{
    reveal_strlit("Det");
    reveal_strlit("DictVectorizer");
    reveal_strlit("Div");
    reveal_strlit("Dropout");
    reveal_strlit("DynamicQuantizeLinear");
    reveal_strlit("Einsum");
    reveal_strlit("Elu");
    reveal_strlit("Equal");
    reveal_strlit("Erf");
    reveal_strlit("Exp");
    reveal_strlit("Expand");
    assert(op_type_at(50) == "Det"@);
    assert(op_type_at(51) == "DictVectorizer"@);
    assert(op_type_at(52) == "Div"@);
    assert(op_type_at(53) == "Dropout"@);
    assert(op_type_at(54) == "DynamicQuantizeLinear"@);
    assert(op_type_at(55) == "Einsum"@);
    assert(op_type_at(56) == "Elu"@);
    assert(op_type_at(57) == "Equal"@);
    assert(op_type_at(58) == "Erf"@);
    assert(op_type_at(59) == "Exp"@);
    assert(op_type_at(60) == "Expand"@);
    lemma_before(op_type_at(50), op_type_at(51), 1);
    lemma_before(op_type_at(51), op_type_at(52), 2);
    lemma_before(op_type_at(52), op_type_at(53), 1);
    lemma_before(op_type_at(53), op_type_at(54), 1);
    lemma_before(op_type_at(54), op_type_at(55), 0);
    lemma_before(op_type_at(55), op_type_at(56), 1);
    lemma_before(op_type_at(56), op_type_at(57), 1);
    lemma_before(op_type_at(57), op_type_at(58), 1);
    lemma_before(op_type_at(58), op_type_at(59), 1);
    lemma_before(op_type_at(59), op_type_at(60), 3);
}

proof fn lemma_ascends_from_60()
    ensures
        ascends(60, 70),
{
    reveal_strlit("Expand");
    reveal_strlit("EyeLike");
    reveal_strlit("FeatureVectorizer");
    reveal_strlit("Flatten");
    reveal_strlit("Floor");
    reveal_strlit("GRU");
    reveal_strlit("Gather");
    reveal_strlit("GatherElements");
    reveal_strlit("GatherND");
    reveal_strlit("Gelu");
    reveal_strlit("Gemm");
    assert(op_type_at(60) == "Expand"@);
    assert(op_type_at(61) == "EyeLike"@);
    assert(op_type_at(62) == "FeatureVectorizer"@);
    assert(op_type_at(63) == "Flatten"@);
    assert(op_type_at(64) == "Floor"@);
    assert(op_type_at(65) == "GRU"@);
    assert(op_type_at(66) == "Gather"@);
    assert(op_type_at(67) == "GatherElements"@);
    assert(op_type_at(68) == "GatherND"@);
    assert(op_type_at(69) == "Gelu"@);
    assert(op_type_at(70) == "Gemm"@);
    lemma_before(op_type_at(60), op_type_at(61), 1);
    lemma_before(op_type_at(61), op_type_at(62), 0);
    lemma_before(op_type_at(62), op_type_at(63), 1);
    lemma_before(op_type_at(63), op_type_at(64), 2);
    lemma_before(op_type_at(64), op_type_at(65), 0);
    lemma_before(op_type_at(65), op_type_at(66), 1);
    lemma_before(op_type_at(66), op_type_at(67), 6);
    lemma_before(op_type_at(67), op_type_at(68), 6);
    lemma_before(op_type_at(68), op_type_at(69), 1);
    lemma_before(op_type_at(69), op_type_at(70), 2);
}

proof fn lemma_ascends_from_70()
    ensures
        ascends(70, 80),
{
    reveal_strlit("Gemm");
    reveal_strlit("GlobalAveragePool");
    reveal_strlit("GlobalLpPool");
    reveal_strlit("GlobalMaxPool");
    reveal_strlit("Gradient");
    reveal_strlit("Greater");
    reveal_strlit("GreaterOrEqual");
    reveal_strlit("GridSample");
    reveal_strlit("GroupNormalization");
    reveal_strlit("HammingWindow");
    reveal_strlit("HannWindow");
    assert(op_type_at(70) == "Gemm"@);
    assert(op_type_at(71) == "GlobalAveragePool"@);
    assert(op_type_at(72) == "GlobalLpPool"@);
    assert(op_type_at(73) == "GlobalMaxPool"@);
    assert(op_type_at(74) == "Gradient"@);
    assert(op_type_at(75) == "Greater"@);
    assert(op_type_at(76) == "GreaterOrEqual"@);
    assert(op_type_at(77) == "GridSample"@);
    assert(op_type_at(78) == "GroupNormalization"@);
    assert(op_type_at(79) == "HammingWindow"@);
    assert(op_type_at(80) == "HannWindow"@);
    lemma_before(op_type_at(70), op_type_at(71), 1);
    lemma_before(op_type_at(71), op_type_at(72), 6);
    lemma_before(op_type_at(72), op_type_at(73), 6);
    lemma_before(op_type_at(73), op_type_at(74), 1);
    lemma_before(op_type_at(74), op_type_at(75), 2);
    lemma_before(op_type_at(75), op_type_at(76), 7);
    lemma_before(op_type_at(76), op_type_at(77), 2);
    lemma_before(op_type_at(77), op_type_at(78), 2);
    lemma_before(op_type_at(78), op_type_at(79), 0);
    lemma_before(op_type_at(79), op_type_at(80), 2);
}

proof fn lemma_ascends_from_80()
    ensures
        ascends(80, 90),
{
    reveal_strlit("HannWindow");
    reveal_strlit("HardSigmoid");
    reveal_strlit("HardSwish");
    reveal_strlit("Hardmax");
    reveal_strlit("Identity");
    reveal_strlit("If");
    reveal_strlit("ImageDecoder");
    reveal_strlit("Imputer");
    reveal_strlit("InstanceNormalization");
    reveal_strlit("IsInf");
    reveal_strlit("IsNaN");
    assert(op_type_at(80) == "HannWindow"@);
    assert(op_type_at(81) == "HardSigmoid"@);
    assert(op_type_at(82) == "HardSwish"@);
    assert(op_type_at(83) == "Hardmax"@);
    assert(op_type_at(84) == "Identity"@);
    assert(op_type_at(85) == "If"@);
    assert(op_type_at(86) == "ImageDecoder"@);
    assert(op_type_at(87) == "Imputer"@);
    assert(op_type_at(88) == "InstanceNormalization"@);
    assert(op_type_at(89) == "IsInf"@);
    assert(op_type_at(90) == "IsNaN"@);
    lemma_before(op_type_at(80), op_type_at(81), 2);
    lemma_before(op_type_at(81), op_type_at(82), 5);
    lemma_before(op_type_at(82), op_type_at(83), 4);
    lemma_before(op_type_at(83), op_type_at(84), 0);
    lemma_before(op_type_at(84), op_type_at(85), 1);
    lemma_before(op_type_at(85), op_type_at(86), 1);
    lemma_before(op_type_at(86), op_type_at(87), 2);
    lemma_before(op_type_at(87), op_type_at(88), 1);
    lemma_before(op_type_at(88), op_type_at(89), 1);
    lemma_before(op_type_at(89), op_type_at(90), 2);
}

proof fn lemma_ascends_from_90()
    ensures
        ascends(90, 100),
{
    reveal_strlit("IsNaN");
    reveal_strlit("LRN");
    reveal_strlit("LSTM");
    reveal_strlit("LabelEncoder");
    reveal_strlit("LayerNormalization");
    reveal_strlit("LeakyRelu");
    reveal_strlit("Less");
    reveal_strlit("LessOrEqual");
    reveal_strlit("LinearClassifier");
    reveal_strlit("LinearRegressor");
    reveal_strlit("Log");
    assert(op_type_at(90) == "IsNaN"@);
    assert(op_type_at(91) == "LRN"@);
    assert(op_type_at(92) == "LSTM"@);
    assert(op_type_at(93) == "LabelEncoder"@);
    assert(op_type_at(94) == "LayerNormalization"@);
    assert(op_type_at(95) == "LeakyRelu"@);
    assert(op_type_at(96) == "Less"@);
    assert(op_type_at(97) == "LessOrEqual"@);
    assert(op_type_at(98) == "LinearClassifier"@);
    assert(op_type_at(99) == "LinearRegressor"@);
    assert(op_type_at(100) == "Log"@);
    lemma_before(op_type_at(90), op_type_at(91), 0);
    lemma_before(op_type_at(91), op_type_at(92), 1);
    lemma_before(op_type_at(92), op_type_at(93), 1);
    lemma_before(op_type_at(93), op_type_at(94), 2);
    lemma_before(op_type_at(94), op_type_at(95), 1);
    lemma_before(op_type_at(95), op_type_at(96), 2);
    lemma_before(op_type_at(96), op_type_at(97), 4);
    lemma_before(op_type_at(97), op_type_at(98), 1);
    lemma_before(op_type_at(98), op_type_at(99), 6);
    lemma_before(op_type_at(99), op_type_at(100), 1);
}

proof fn lemma_ascends_from_100()
    ensures
        ascends(100, 110),
{
    reveal_strlit("Log");
    reveal_strlit("LogSoftmax");
    reveal_strlit("Loop");
    reveal_strlit("LpNormalization");
    reveal_strlit("LpPool");
    reveal_strlit("MatMul");
    reveal_strlit("MatMulInteger");
    reveal_strlit("Max");
    reveal_strlit("MaxPool");
    reveal_strlit("MaxRoiPool");
    reveal_strlit("MaxUnpool");
    assert(op_type_at(100) == "Log"@);
    assert(op_type_at(101) == "LogSoftmax"@);
    assert(op_type_at(102) == "Loop"@);
    assert(op_type_at(103) == "LpNormalization"@);
    assert(op_type_at(104) == "LpPool"@);
    assert(op_type_at(105) == "MatMul"@);
    assert(op_type_at(106) == "MatMulInteger"@);
    assert(op_type_at(107) == "Max"@);
    assert(op_type_at(108) == "MaxPool"@);
    assert(op_type_at(109) == "MaxRoiPool"@);
    assert(op_type_at(110) == "MaxUnpool"@);
    lemma_before(op_type_at(100), op_type_at(101), 3);
    lemma_before(op_type_at(101), op_type_at(102), 2);
    lemma_before(op_type_at(102), op_type_at(103), 1);
    lemma_before(op_type_at(103), op_type_at(104), 2);
    lemma_before(op_type_at(104), op_type_at(105), 0);
    lemma_before(op_type_at(105), op_type_at(106), 6);
    lemma_before(op_type_at(106), op_type_at(107), 2);
    lemma_before(op_type_at(107), op_type_at(108), 3);
    lemma_before(op_type_at(108), op_type_at(109), 3);
    lemma_before(op_type_at(109), op_type_at(110), 3);
}

proof fn lemma_ascends_from_110()
    ensures
        ascends(110, 120),
{
    reveal_strlit("MaxUnpool");
    reveal_strlit("Mean");
    reveal_strlit("MeanVarianceNormalization");
    reveal_strlit("MelWeightMatrix");
    reveal_strlit("Min");
    reveal_strlit("Mish");
    reveal_strlit("Mod");
    reveal_strlit("Momentum");
    reveal_strlit("Mul");
    reveal_strlit("Multinomial");
    reveal_strlit("Neg");
    assert(op_type_at(110) == "MaxUnpool"@);
    assert(op_type_at(111) == "Mean"@);
    assert(op_type_at(112) == "MeanVarianceNormalization"@);
    assert(op_type_at(113) == "MelWeightMatrix"@);
    assert(op_type_at(114) == "Min"@);
    assert(op_type_at(115) == "Mish"@);
    assert(op_type_at(116) == "Mod"@);
    assert(op_type_at(117) == "Momentum"@);
    assert(op_type_at(118) == "Mul"@);
    assert(op_type_at(119) == "Multinomial"@);
    assert(op_type_at(120) == "Neg"@);
    lemma_before(op_type_at(110), op_type_at(111), 1);
    lemma_before(op_type_at(111), op_type_at(112), 4);
    lemma_before(op_type_at(112), op_type_at(113), 2);
    lemma_before(op_type_at(113), op_type_at(114), 1);
    lemma_before(op_type_at(114), op_type_at(115), 2);
    lemma_before(op_type_at(115), op_type_at(116), 1);
    lemma_before(op_type_at(116), op_type_at(117), 2);
    lemma_before(op_type_at(117), op_type_at(118), 1);
    lemma_before(op_type_at(118), op_type_at(119), 3);
    lemma_before(op_type_at(119), op_type_at(120), 0);
}

proof fn lemma_ascends_from_120()
    ensures
        ascends(120, 130),
{
    reveal_strlit("Neg");
    reveal_strlit("NegativeLogLikelihoodLoss");
    reveal_strlit("NonMaxSuppression");
    reveal_strlit("NonZero");
    reveal_strlit("Normalizer");
    reveal_strlit("Not");
    reveal_strlit("OneHot");
    reveal_strlit("OneHotEncoder");
    reveal_strlit("Optional");
    reveal_strlit("OptionalGetElement");
    reveal_strlit("OptionalHasElement");
    assert(op_type_at(120) == "Neg"@);
    assert(op_type_at(121) == "NegativeLogLikelihoodLoss"@);
    assert(op_type_at(122) == "NonMaxSuppression"@);
    assert(op_type_at(123) == "NonZero"@);
    assert(op_type_at(124) == "Normalizer"@);
    assert(op_type_at(125) == "Not"@);
    assert(op_type_at(126) == "OneHot"@);
    assert(op_type_at(127) == "OneHotEncoder"@);
    assert(op_type_at(128) == "Optional"@);
    assert(op_type_at(129) == "OptionalGetElement"@);
    assert(op_type_at(130) == "OptionalHasElement"@);
    lemma_before(op_type_at(120), op_type_at(121), 3);
    lemma_before(op_type_at(121), op_type_at(122), 1);
    lemma_before(op_type_at(122), op_type_at(123), 3);
    lemma_before(op_type_at(123), op_type_at(124), 2);
    lemma_before(op_type_at(124), op_type_at(125), 2);
    lemma_before(op_type_at(125), op_type_at(126), 0);
    lemma_before(op_type_at(126), op_type_at(127), 6);
    lemma_before(op_type_at(127), op_type_at(128), 1);
    lemma_before(op_type_at(128), op_type_at(129), 8);
    lemma_before(op_type_at(129), op_type_at(130), 8);
}

proof fn lemma_ascends_from_130()
    ensures
        ascends(130, 140),
{
    reveal_strlit("OptionalHasElement");
    reveal_strlit("Or");
    reveal_strlit("PRelu");
    reveal_strlit("Pad");
    reveal_strlit("Pow");
    reveal_strlit("QLinearConv");
    reveal_strlit("QLinearMatMul");
    reveal_strlit("QuantizeLinear");
    reveal_strlit("RMSNormalization");
    reveal_strlit("RNN");
    reveal_strlit("RandomNormal");
    assert(op_type_at(130) == "OptionalHasElement"@);
    assert(op_type_at(131) == "Or"@);
    assert(op_type_at(132) == "PRelu"@);
    assert(op_type_at(133) == "Pad"@);
    assert(op_type_at(134) == "Pow"@);
    assert(op_type_at(135) == "QLinearConv"@);
    assert(op_type_at(136) == "QLinearMatMul"@);
    assert(op_type_at(137) == "QuantizeLinear"@);
    assert(op_type_at(138) == "RMSNormalization"@);
    assert(op_type_at(139) == "RNN"@);
    assert(op_type_at(140) == "RandomNormal"@);
    lemma_before(op_type_at(130), op_type_at(131), 1);
    lemma_before(op_type_at(131), op_type_at(132), 0);
    lemma_before(op_type_at(132), op_type_at(133), 1);
    lemma_before(op_type_at(133), op_type_at(134), 1);
    lemma_before(op_type_at(134), op_type_at(135), 0);
    lemma_before(op_type_at(135), op_type_at(136), 7);
    lemma_before(op_type_at(136), op_type_at(137), 1);
    lemma_before(op_type_at(137), op_type_at(138), 0);
    lemma_before(op_type_at(138), op_type_at(139), 1);
    lemma_before(op_type_at(139), op_type_at(140), 1);
}

proof fn lemma_ascends_from_140()
    ensures
        ascends(140, 150),
{
    reveal_strlit("RandomNormal");
    reveal_strlit("RandomNormalLike");
    reveal_strlit("RandomUniform");
    reveal_strlit("RandomUniformLike");
    reveal_strlit("Range");
    reveal_strlit("Reciprocal");
    reveal_strlit("ReduceL1");
    reveal_strlit("ReduceL2");
    reveal_strlit("ReduceLogSum");
    reveal_strlit("ReduceLogSumExp");
    reveal_strlit("ReduceMax");
    assert(op_type_at(140) == "RandomNormal"@);
    assert(op_type_at(141) == "RandomNormalLike"@);
    assert(op_type_at(142) == "RandomUniform"@);
    assert(op_type_at(143) == "RandomUniformLike"@);
    assert(op_type_at(144) == "Range"@);
    assert(op_type_at(145) == "Reciprocal"@);
    assert(op_type_at(146) == "ReduceL1"@);
    assert(op_type_at(147) == "ReduceL2"@);
    assert(op_type_at(148) == "ReduceLogSum"@);
    assert(op_type_at(149) == "ReduceLogSumExp"@);
    assert(op_type_at(150) == "ReduceMax"@);
    lemma_before(op_type_at(140), op_type_at(141), 12);
    lemma_before(op_type_at(141), op_type_at(142), 6);
    lemma_before(op_type_at(142), op_type_at(143), 13);
    lemma_before(op_type_at(143), op_type_at(144), 3);
    lemma_before(op_type_at(144), op_type_at(145), 1);
    lemma_before(op_type_at(145), op_type_at(146), 2);
    lemma_before(op_type_at(146), op_type_at(147), 7);
    lemma_before(op_type_at(147), op_type_at(148), 7);
    lemma_before(op_type_at(148), op_type_at(149), 12);
    lemma_before(op_type_at(149), op_type_at(150), 6);
}

proof fn lemma_ascends_from_150()
    ensures
        ascends(150, 160),
{
    reveal_strlit("ReduceMax");
    reveal_strlit("ReduceMean");
    reveal_strlit("ReduceMin");
    reveal_strlit("ReduceProd");
    reveal_strlit("ReduceSum");
    reveal_strlit("ReduceSumSquare");
    reveal_strlit("RegexFullMatch");
    reveal_strlit("Relu");
    reveal_strlit("Reshape");
    reveal_strlit("Resize");
    reveal_strlit("ReverseSequence");
    assert(op_type_at(150) == "ReduceMax"@);
    assert(op_type_at(151) == "ReduceMean"@);
    assert(op_type_at(152) == "ReduceMin"@);
    assert(op_type_at(153) == "ReduceProd"@);
    assert(op_type_at(154) == "ReduceSum"@);
    assert(op_type_at(155) == "ReduceSumSquare"@);
    assert(op_type_at(156) == "RegexFullMatch"@);
    assert(op_type_at(157) == "Relu"@);
    assert(op_type_at(158) == "Reshape"@);
    assert(op_type_at(159) == "Resize"@);
    assert(op_type_at(160) == "ReverseSequence"@);
    lemma_before(op_type_at(150), op_type_at(151), 7);
    lemma_before(op_type_at(151), op_type_at(152), 7);
    lemma_before(op_type_at(152), op_type_at(153), 6);
    lemma_before(op_type_at(153), op_type_at(154), 6);
    lemma_before(op_type_at(154), op_type_at(155), 9);
    lemma_before(op_type_at(155), op_type_at(156), 2);
    lemma_before(op_type_at(156), op_type_at(157), 2);
    lemma_before(op_type_at(157), op_type_at(158), 2);
    lemma_before(op_type_at(158), op_type_at(159), 3);
    lemma_before(op_type_at(159), op_type_at(160), 2);
}

proof fn lemma_ascends_from_160()
    ensures
        ascends(160, 170),
{
    reveal_strlit("ReverseSequence");
    reveal_strlit("RoiAlign");
    reveal_strlit("RotaryEmbedding");
    reveal_strlit("Round");
    reveal_strlit("STFT");
    reveal_strlit("SVMClassifier");
    reveal_strlit("SVMRegressor");
    reveal_strlit("Scaler");
    reveal_strlit("Scan");
    reveal_strlit("Scatter");
    reveal_strlit("ScatterElements");
    assert(op_type_at(160) == "ReverseSequence"@);
    assert(op_type_at(161) == "RoiAlign"@);
    assert(op_type_at(162) == "RotaryEmbedding"@);
    assert(op_type_at(163) == "Round"@);
    assert(op_type_at(164) == "STFT"@);
    assert(op_type_at(165) == "SVMClassifier"@);
    assert(op_type_at(166) == "SVMRegressor"@);
    assert(op_type_at(167) == "Scaler"@);
    assert(op_type_at(168) == "Scan"@);
    assert(op_type_at(169) == "Scatter"@);
    assert(op_type_at(170) == "ScatterElements"@);
    lemma_before(op_type_at(160), op_type_at(161), 1);
    lemma_before(op_type_at(161), op_type_at(162), 2);
    lemma_before(op_type_at(162), op_type_at(163), 2);
    lemma_before(op_type_at(163), op_type_at(164), 0);
    lemma_before(op_type_at(164), op_type_at(165), 1);
    lemma_before(op_type_at(165), op_type_at(166), 3);
    lemma_before(op_type_at(166), op_type_at(167), 1);
    lemma_before(op_type_at(167), op_type_at(168), 3);
    lemma_before(op_type_at(168), op_type_at(169), 3);
    lemma_before(op_type_at(169), op_type_at(170), 7);
}

proof fn lemma_ascends_from_170()
    ensures
        ascends(170, 180),
{
    reveal_strlit("ScatterElements");
    reveal_strlit("ScatterND");
    reveal_strlit("Selu");
    reveal_strlit("SequenceAt");
    reveal_strlit("SequenceConstruct");
    reveal_strlit("SequenceEmpty");
    reveal_strlit("SequenceErase");
    reveal_strlit("SequenceInsert");
    reveal_strlit("SequenceLength");
    reveal_strlit("SequenceMap");
    reveal_strlit("Shape");
    assert(op_type_at(170) == "ScatterElements"@);
    assert(op_type_at(171) == "ScatterND"@);
    assert(op_type_at(172) == "Selu"@);
    assert(op_type_at(173) == "SequenceAt"@);
    assert(op_type_at(174) == "SequenceConstruct"@);
    assert(op_type_at(175) == "SequenceEmpty"@);
    assert(op_type_at(176) == "SequenceErase"@);
    assert(op_type_at(177) == "SequenceInsert"@);
    assert(op_type_at(178) == "SequenceLength"@);
    assert(op_type_at(179) == "SequenceMap"@);
    assert(op_type_at(180) == "Shape"@);
    lemma_before(op_type_at(170), op_type_at(171), 7);
    lemma_before(op_type_at(171), op_type_at(172), 1);
    lemma_before(op_type_at(172), op_type_at(173), 2);
    lemma_before(op_type_at(173), op_type_at(174), 8);
    lemma_before(op_type_at(174), op_type_at(175), 8);
    lemma_before(op_type_at(175), op_type_at(176), 9);
    lemma_before(op_type_at(176), op_type_at(177), 8);
    lemma_before(op_type_at(177), op_type_at(178), 8);
    lemma_before(op_type_at(178), op_type_at(179), 8);
    lemma_before(op_type_at(179), op_type_at(180), 1);
}

proof fn lemma_ascends_from_180()
    ensures
        ascends(180, 190),
{
    reveal_strlit("Shape");
    reveal_strlit("Shrink");
    reveal_strlit("Sigmoid");
    reveal_strlit("Sign");
    reveal_strlit("Sin");
    reveal_strlit("Sinh");
    reveal_strlit("Size");
    reveal_strlit("Slice");
    reveal_strlit("Softmax");
    reveal_strlit("SoftmaxCrossEntropyLoss");
    reveal_strlit("Softplus");
    assert(op_type_at(180) == "Shape"@);
    assert(op_type_at(181) == "Shrink"@);
    assert(op_type_at(182) == "Sigmoid"@);
    assert(op_type_at(183) == "Sign"@);
    assert(op_type_at(184) == "Sin"@);
    assert(op_type_at(185) == "Sinh"@);
    assert(op_type_at(186) == "Size"@);
    assert(op_type_at(187) == "Slice"@);
    assert(op_type_at(188) == "Softmax"@);
    assert(op_type_at(189) == "SoftmaxCrossEntropyLoss"@);
    assert(op_type_at(190) == "Softplus"@);
    lemma_before(op_type_at(180), op_type_at(181), 2);
    lemma_before(op_type_at(181), op_type_at(182), 1);
    lemma_before(op_type_at(182), op_type_at(183), 3);
    lemma_before(op_type_at(183), op_type_at(184), 2);
    lemma_before(op_type_at(184), op_type_at(185), 3);
    lemma_before(op_type_at(185), op_type_at(186), 2);
    lemma_before(op_type_at(186), op_type_at(187), 1);
    lemma_before(op_type_at(187), op_type_at(188), 1);
    lemma_before(op_type_at(188), op_type_at(189), 7);
    lemma_before(op_type_at(189), op_type_at(190), 4);
}

proof fn lemma_ascends_from_190()
    ensures
        ascends(190, 200),
{
    reveal_strlit("Softplus");
    reveal_strlit("Softsign");
    reveal_strlit("SpaceToDepth");
    reveal_strlit("Split");
    reveal_strlit("SplitToSequence");
    reveal_strlit("Sqrt");
    reveal_strlit("Squeeze");
    reveal_strlit("StringConcat");
    reveal_strlit("StringNormalizer");
    reveal_strlit("StringSplit");
    reveal_strlit("Sub");
    assert(op_type_at(190) == "Softplus"@);
    assert(op_type_at(191) == "Softsign"@);
    assert(op_type_at(192) == "SpaceToDepth"@);
    assert(op_type_at(193) == "Split"@);
    assert(op_type_at(194) == "SplitToSequence"@);
    assert(op_type_at(195) == "Sqrt"@);
    assert(op_type_at(196) == "Squeeze"@);
    assert(op_type_at(197) == "StringConcat"@);
    assert(op_type_at(198) == "StringNormalizer"@);
    assert(op_type_at(199) == "StringSplit"@);
    assert(op_type_at(200) == "Sub"@);
    lemma_before(op_type_at(190), op_type_at(191), 4);
    lemma_before(op_type_at(191), op_type_at(192), 1);
    lemma_before(op_type_at(192), op_type_at(193), 2);
    lemma_before(op_type_at(193), op_type_at(194), 5);
    lemma_before(op_type_at(194), op_type_at(195), 1);
    lemma_before(op_type_at(195), op_type_at(196), 2);
    lemma_before(op_type_at(196), op_type_at(197), 1);
    lemma_before(op_type_at(197), op_type_at(198), 6);
    lemma_before(op_type_at(198), op_type_at(199), 6);
    lemma_before(op_type_at(199), op_type_at(200), 1);
}

proof fn lemma_ascends_from_200()
    ensures
        ascends(200, 210),
{
    reveal_strlit("Sub");
    reveal_strlit("Sum");
    reveal_strlit("Swish");
    reveal_strlit("Tan");
    reveal_strlit("Tanh");
    reveal_strlit("TensorScatter");
    reveal_strlit("TfIdfVectorizer");
    reveal_strlit("ThresholdedRelu");
    reveal_strlit("Tile");
    reveal_strlit("TopK");
    reveal_strlit("Transpose");
    assert(op_type_at(200) == "Sub"@);
    assert(op_type_at(201) == "Sum"@);
    assert(op_type_at(202) == "Swish"@);
    assert(op_type_at(203) == "Tan"@);
    assert(op_type_at(204) == "Tanh"@);
    assert(op_type_at(205) == "TensorScatter"@);
    assert(op_type_at(206) == "TfIdfVectorizer"@);
    assert(op_type_at(207) == "ThresholdedRelu"@);
    assert(op_type_at(208) == "Tile"@);
    assert(op_type_at(209) == "TopK"@);
    assert(op_type_at(210) == "Transpose"@);
    lemma_before(op_type_at(200), op_type_at(201), 2);
    lemma_before(op_type_at(201), op_type_at(202), 1);
    lemma_before(op_type_at(202), op_type_at(203), 0);
    lemma_before(op_type_at(203), op_type_at(204), 3);
    lemma_before(op_type_at(204), op_type_at(205), 1);
    lemma_before(op_type_at(205), op_type_at(206), 1);
    lemma_before(op_type_at(206), op_type_at(207), 1);
    lemma_before(op_type_at(207), op_type_at(208), 1);
    lemma_before(op_type_at(208), op_type_at(209), 1);
    lemma_before(op_type_at(209), op_type_at(210), 1);
}

proof fn lemma_ascends_from_210()
    ensures
        ascends(210, 220),
{
    reveal_strlit("Transpose");
    reveal_strlit("TreeEnsemble");
    reveal_strlit("TreeEnsembleClassifier");
    reveal_strlit("TreeEnsembleRegressor");
    reveal_strlit("Trilu");
    reveal_strlit("Unique");
    reveal_strlit("Unsqueeze");
    reveal_strlit("Upsample");
    reveal_strlit("Where");
    reveal_strlit("Xor");
    reveal_strlit("ZipMap");
    assert(op_type_at(210) == "Transpose"@);
    assert(op_type_at(211) == "TreeEnsemble"@);
    assert(op_type_at(212) == "TreeEnsembleClassifier"@);
    assert(op_type_at(213) == "TreeEnsembleRegressor"@);
    assert(op_type_at(214) == "Trilu"@);
    assert(op_type_at(215) == "Unique"@);
    assert(op_type_at(216) == "Unsqueeze"@);
    assert(op_type_at(217) == "Upsample"@);
    assert(op_type_at(218) == "Where"@);
    assert(op_type_at(219) == "Xor"@);
    assert(op_type_at(220) == "ZipMap"@);
    lemma_before(op_type_at(210), op_type_at(211), 2);
    lemma_before(op_type_at(211), op_type_at(212), 12);
    lemma_before(op_type_at(212), op_type_at(213), 12);
    lemma_before(op_type_at(213), op_type_at(214), 2);
    lemma_before(op_type_at(214), op_type_at(215), 0);
    lemma_before(op_type_at(215), op_type_at(216), 2);
    lemma_before(op_type_at(216), op_type_at(217), 1);
    lemma_before(op_type_at(217), op_type_at(218), 0);
    lemma_before(op_type_at(218), op_type_at(219), 0);
    lemma_before(op_type_at(219), op_type_at(220), 0);
}

/// The table is ordered by operator type, and no type is listed twice.
pub proof fn law_table_is_ordered(i: int, j: int)
    requires
        0 <= i < j < SCHEMAS@.len(),
    ensures
        queries::text_before(op_type_at(i), op_type_at(j)),
    decreases j - i,
{
    lemma_all_ascend();
    assert(queries::text_before(op_type_at(j - 1), op_type_at(j - 1 + 1)));
    if i < j - 1 {
        law_table_is_ordered(i, j - 1);
        queries::lemma_text_order_transitive(op_type_at(i), op_type_at(j - 1), op_type_at(j));
    }
}

proof fn lemma_all_ascend()
    ensures
        ascends(0, 220),
        SCHEMAS@.len() == 221,
{
    lemma_ascends_from_0();
    lemma_ascends_from_10();
    lemma_ascends_from_20();
    lemma_ascends_from_30();
    lemma_ascends_from_40();
    lemma_ascends_from_50();
    lemma_ascends_from_60();
    lemma_ascends_from_70();
    lemma_ascends_from_80();
    lemma_ascends_from_90();
    lemma_ascends_from_100();
    lemma_ascends_from_110();
    lemma_ascends_from_120();
    lemma_ascends_from_130();
    lemma_ascends_from_140();
    lemma_ascends_from_150();
    lemma_ascends_from_160();
    lemma_ascends_from_170();
    lemma_ascends_from_180();
    lemma_ascends_from_190();
    lemma_ascends_from_200();
    lemma_ascends_from_210();
}

} // verus!
