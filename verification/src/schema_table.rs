//! The signatures of the operators that ONNX defines.

use vstd::prelude::*;

verus! {

/// One operator per row, ordered by operator type: the type, the domain, the
/// inputs and the outputs. Parameters have spaces between them. One that may be
/// left out has a question mark behind its name, and one that stands for any
/// number of values an asterisk.
pub const SCHEMAS: [(&'static str, &'static str, &'static str, &'static str); 221] = [
    ("Abs", "", "X", "Y"),
    ("Acos", "", "input", "output"),
    ("Acosh", "", "input", "output"),
    ("Adagrad", "ai.onnx.preview.training", "R T inputs*", "outputs*"),
    ("Adam", "ai.onnx.preview.training", "R T inputs*", "outputs*"),
    ("Add", "", "A B", "C"),
    ("AffineGrid", "", "theta size", "grid"),
    ("And", "", "A B", "C"),
    ("ArgMax", "", "data", "reduced"),
    ("ArgMin", "", "data", "reduced"),
    ("ArrayFeatureExtractor", "ai.onnx.ml", "X Y", "Z"),
    ("Asin", "", "input", "output"),
    ("Asinh", "", "input", "output"),
    ("Atan", "", "input", "output"),
    ("Atanh", "", "input", "output"),
    (
        "Attention",
        "",
        "Q K V attn_mask? past_key? past_value? nonpad_kv_seqlen?",
        "Y present_key? present_value? qk_matmul_output?",
    ),
    ("AveragePool", "", "X", "Y"),
    ("BatchNormalization", "", "X scale B input_mean input_var", "Y running_mean? running_var?"),
    ("Bernoulli", "", "input", "output"),
    ("Binarizer", "ai.onnx.ml", "X", "Y"),
    ("BitShift", "", "X Y", "Z"),
    ("BitwiseAnd", "", "A B", "C"),
    ("BitwiseNot", "", "X", "Y"),
    ("BitwiseOr", "", "A B", "C"),
    ("BitwiseXor", "", "A B", "C"),
    ("BlackmanWindow", "", "size", "output"),
    ("Cast", "", "input", "output"),
    ("CastLike", "", "input target_type", "output"),
    ("CastMap", "ai.onnx.ml", "X", "Y"),
    ("CategoryMapper", "ai.onnx.ml", "X", "Y"),
    ("Ceil", "", "X", "Y"),
    ("Celu", "", "X", "Y"),
    ("CenterCropPad", "", "input_data shape", "output_data"),
    ("Clip", "", "input min? max?", "output"),
    ("Col2Im", "", "input image_shape block_shape", "output"),
    ("Compress", "", "input condition", "output"),
    ("Concat", "", "inputs*", "concat_result"),
    ("ConcatFromSequence", "", "input_sequence", "concat_result"),
    ("Constant", "", "", "output"),
    ("ConstantOfShape", "", "input", "output"),
    ("Conv", "", "X W B?", "Y"),
    ("ConvInteger", "", "x w x_zero_point? w_zero_point?", "y"),
    ("ConvTranspose", "", "X W B?", "Y"),
    ("Cos", "", "input", "output"),
    ("Cosh", "", "input", "output"),
    ("CumSum", "", "x axis", "y"),
    ("DFT", "", "input dft_length? axis?", "output"),
    ("DeformConv", "", "X W offset B? mask?", "Y"),
    ("DepthToSpace", "", "input", "output"),
    ("DequantizeLinear", "", "x x_scale x_zero_point?", "y"),
    ("Det", "", "X", "Y"),
    ("DictVectorizer", "ai.onnx.ml", "X", "Y"),
    ("Div", "", "A B", "C"),
    ("Dropout", "", "data ratio? training_mode?", "output mask?"),
    ("DynamicQuantizeLinear", "", "x", "y y_scale y_zero_point"),
    ("Einsum", "", "Inputs*", "Output"),
    ("Elu", "", "X", "Y"),
    ("Equal", "", "A B", "C"),
    ("Erf", "", "input", "output"),
    ("Exp", "", "input", "output"),
    ("Expand", "", "input shape", "output"),
    ("EyeLike", "", "input", "output"),
    ("FeatureVectorizer", "ai.onnx.ml", "X*", "Y"),
    ("Flatten", "", "input", "output"),
    ("Floor", "", "X", "Y"),
    ("GRU", "", "X W R B? sequence_lens? initial_h?", "Y? Y_h?"),
    ("Gather", "", "data indices", "output"),
    ("GatherElements", "", "data indices", "output"),
    ("GatherND", "", "data indices", "output"),
    ("Gelu", "", "X", "Y"),
    ("Gemm", "", "A B C?", "Y"),
    ("GlobalAveragePool", "", "X", "Y"),
    ("GlobalLpPool", "", "X", "Y"),
    ("GlobalMaxPool", "", "X", "Y"),
    ("Gradient", "ai.onnx.preview.training", "Inputs*", "Outputs*"),
    ("Greater", "", "A B", "C"),
    ("GreaterOrEqual", "", "A B", "C"),
    ("GridSample", "", "X grid", "Y"),
    ("GroupNormalization", "", "X scale bias", "Y"),
    ("HammingWindow", "", "size", "output"),
    ("HannWindow", "", "size", "output"),
    ("HardSigmoid", "", "X", "Y"),
    ("HardSwish", "", "X", "Y"),
    ("Hardmax", "", "input", "output"),
    ("Identity", "", "input", "output"),
    ("If", "", "cond", "outputs*"),
    ("ImageDecoder", "", "encoded_stream", "image"),
    ("Imputer", "ai.onnx.ml", "X", "Y"),
    ("InstanceNormalization", "", "input scale B", "output"),
    ("IsInf", "", "X", "Y"),
    ("IsNaN", "", "X", "Y"),
    ("LRN", "", "X", "Y"),
    ("LSTM", "", "X W R B? sequence_lens? initial_h? initial_c? P?", "Y? Y_h? Y_c?"),
    ("LabelEncoder", "ai.onnx.ml", "X", "Y"),
    ("LayerNormalization", "", "X Scale B?", "Y Mean? InvStdDev?"),
    ("LeakyRelu", "", "X", "Y"),
    ("Less", "", "A B", "C"),
    ("LessOrEqual", "", "A B", "C"),
    ("LinearClassifier", "ai.onnx.ml", "X", "Y Z"),
    ("LinearRegressor", "ai.onnx.ml", "X", "Y"),
    ("Log", "", "input", "output"),
    ("LogSoftmax", "", "input", "output"),
    ("Loop", "", "M? cond? v_initial*", "v_final_and_scan_outputs*"),
    ("LpNormalization", "", "input", "output"),
    ("LpPool", "", "X", "Y"),
    ("MatMul", "", "A B", "Y"),
    ("MatMulInteger", "", "A B a_zero_point? b_zero_point?", "Y"),
    ("Max", "", "data_0*", "max"),
    ("MaxPool", "", "X", "Y Indices?"),
    ("MaxRoiPool", "", "X rois", "Y"),
    ("MaxUnpool", "", "X I output_shape?", "output"),
    ("Mean", "", "data_0*", "mean"),
    ("MeanVarianceNormalization", "", "X", "Y"),
    (
        "MelWeightMatrix",
        "",
        "num_mel_bins dft_length sample_rate lower_edge_hertz upper_edge_hertz",
        "output",
    ),
    ("Min", "", "data_0*", "min"),
    ("Mish", "", "X", "Y"),
    ("Mod", "", "A B", "C"),
    ("Momentum", "ai.onnx.preview.training", "R T inputs*", "outputs*"),
    ("Mul", "", "A B", "C"),
    ("Multinomial", "", "input", "output"),
    ("Neg", "", "X", "Y"),
    ("NegativeLogLikelihoodLoss", "", "input target weight?", "loss"),
    (
        "NonMaxSuppression",
        "",
        "boxes scores max_output_boxes_per_class? iou_threshold? score_threshold?",
        "selected_indices",
    ),
    ("NonZero", "", "X", "Y"),
    ("Normalizer", "ai.onnx.ml", "X", "Y"),
    ("Not", "", "X", "Y"),
    ("OneHot", "", "indices depth values", "output"),
    ("OneHotEncoder", "ai.onnx.ml", "X", "Y"),
    ("Optional", "", "input?", "output"),
    ("OptionalGetElement", "", "input", "output"),
    ("OptionalHasElement", "", "input?", "output"),
    ("Or", "", "A B", "C"),
    ("PRelu", "", "X slope", "Y"),
    ("Pad", "", "data pads constant_value? axes?", "output"),
    ("Pow", "", "X Y", "Z"),
    (
        "QLinearConv",
        "",
        "x x_scale x_zero_point w w_scale w_zero_point y_scale y_zero_point B?",
        "y",
    ),
    (
        "QLinearMatMul",
        "",
        "a a_scale a_zero_point b b_scale b_zero_point y_scale y_zero_point",
        "y",
    ),
    ("QuantizeLinear", "", "x y_scale y_zero_point?", "y"),
    ("RMSNormalization", "", "X scale", "Y"),
    ("RNN", "", "X W R B? sequence_lens? initial_h?", "Y? Y_h?"),
    ("RandomNormal", "", "", "output"),
    ("RandomNormalLike", "", "input", "output"),
    ("RandomUniform", "", "", "output"),
    ("RandomUniformLike", "", "input", "output"),
    ("Range", "", "start limit delta", "output"),
    ("Reciprocal", "", "X", "Y"),
    ("ReduceL1", "", "data axes?", "reduced"),
    ("ReduceL2", "", "data axes?", "reduced"),
    ("ReduceLogSum", "", "data axes?", "reduced"),
    ("ReduceLogSumExp", "", "data axes?", "reduced"),
    ("ReduceMax", "", "data axes?", "reduced"),
    ("ReduceMean", "", "data axes?", "reduced"),
    ("ReduceMin", "", "data axes?", "reduced"),
    ("ReduceProd", "", "data axes?", "reduced"),
    ("ReduceSum", "", "data axes?", "reduced"),
    ("ReduceSumSquare", "", "data axes?", "reduced"),
    ("RegexFullMatch", "", "X", "Y"),
    ("Relu", "", "X", "Y"),
    ("Reshape", "", "data shape", "reshaped"),
    ("Resize", "", "X roi? scales? sizes?", "Y"),
    ("ReverseSequence", "", "input sequence_lens", "Y"),
    ("RoiAlign", "", "X rois batch_indices", "Y"),
    ("RotaryEmbedding", "", "X cos_cache sin_cache position_ids?", "Y"),
    ("Round", "", "X", "Y"),
    ("STFT", "", "signal frame_step window? frame_length?", "output"),
    ("SVMClassifier", "ai.onnx.ml", "X", "Y Z"),
    ("SVMRegressor", "ai.onnx.ml", "X", "Y"),
    ("Scaler", "ai.onnx.ml", "X", "Y"),
    ("Scan", "", "initial_state_and_scan_inputs*", "final_state_and_scan_outputs*"),
    ("Scatter", "", "data indices updates", "output"),
    ("ScatterElements", "", "data indices updates", "output"),
    ("ScatterND", "", "data indices updates", "output"),
    ("Selu", "", "X", "Y"),
    ("SequenceAt", "", "input_sequence position", "tensor"),
    ("SequenceConstruct", "", "inputs*", "output_sequence"),
    ("SequenceEmpty", "", "", "output"),
    ("SequenceErase", "", "input_sequence position?", "output_sequence"),
    ("SequenceInsert", "", "input_sequence tensor position?", "output_sequence"),
    ("SequenceLength", "", "input_sequence", "length"),
    ("SequenceMap", "", "input_sequence additional_inputs*", "out_sequence*"),
    ("Shape", "", "data", "shape"),
    ("Shrink", "", "input", "output"),
    ("Sigmoid", "", "X", "Y"),
    ("Sign", "", "input", "output"),
    ("Sin", "", "input", "output"),
    ("Sinh", "", "input", "output"),
    ("Size", "", "data", "size"),
    ("Slice", "", "data starts ends axes? steps?", "output"),
    ("Softmax", "", "input", "output"),
    ("SoftmaxCrossEntropyLoss", "", "scores labels weights?", "output log_prob?"),
    ("Softplus", "", "X", "Y"),
    ("Softsign", "", "input", "output"),
    ("SpaceToDepth", "", "input", "output"),
    ("Split", "", "input split?", "outputs*"),
    ("SplitToSequence", "", "input split?", "output_sequence"),
    ("Sqrt", "", "X", "Y"),
    ("Squeeze", "", "data axes?", "squeezed"),
    ("StringConcat", "", "X Y", "Z"),
    ("StringNormalizer", "", "X", "Y"),
    ("StringSplit", "", "X", "Y Z"),
    ("Sub", "", "A B", "C"),
    ("Sum", "", "data_0*", "sum"),
    ("Swish", "", "X", "Y"),
    ("Tan", "", "input", "output"),
    ("Tanh", "", "input", "output"),
    ("TensorScatter", "", "past_cache update write_indices?", "present_cache"),
    ("TfIdfVectorizer", "", "X", "Y"),
    ("ThresholdedRelu", "", "X", "Y"),
    ("Tile", "", "input repeats", "output"),
    ("TopK", "", "X K", "Values Indices"),
    ("Transpose", "", "data", "transposed"),
    ("TreeEnsemble", "ai.onnx.ml", "X", "Y"),
    ("TreeEnsembleClassifier", "ai.onnx.ml", "X", "Y Z"),
    ("TreeEnsembleRegressor", "ai.onnx.ml", "X", "Y"),
    ("Trilu", "", "input k?", "output"),
    ("Unique", "", "X", "Y indices? inverse_indices? counts?"),
    ("Unsqueeze", "", "data axes", "expanded"),
    ("Upsample", "", "X scales", "Y"),
    ("Where", "", "condition X Y", "output"),
    ("Xor", "", "A B", "C"),
    ("ZipMap", "ai.onnx.ml", "X", "Z"),
];

} // verus!
