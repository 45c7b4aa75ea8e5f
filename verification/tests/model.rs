use onnx_explorer::model::{
    AttrValue, Dim, GraphId, Model, NodeId, Shape, Tensor, TensorData, ValueKind,
};
use onnx_explorer::proto::{
    AttributeProto, AttributeType, DataLocation, DataType, Dimension, GraphProto, ModelProto,
    NodeProto, OperatorSetIdProto, StringStringEntryProto, TensorProto, TensorShapeProto,
    TypeProto, TypeProtoTensor, ValueInfoProto,
};
use onnx_explorer::queries::comes_before;

fn node(op_type: &str, name: &str, inputs: &[&str], outputs: &[&str]) -> NodeProto {
    NodeProto {
        op_type: Some(op_type.to_string()),
        name: if name.is_empty() {
            None
        } else {
            Some(name.to_string())
        },
        input: inputs.iter().map(|s| s.to_string()).collect(),
        output: outputs.iter().map(|s| s.to_string()).collect(),
        ..Default::default()
    }
}

fn value_info(name: &str, dims: &[i64]) -> ValueInfoProto {
    ValueInfoProto {
        name: Some(name.to_string()),
        value_type: Some(TypeProto {
            tensor_type: Some(TypeProtoTensor {
                elem_type: Some(DataType(DataType::FLOAT)),
                shape: Some(TensorShapeProto {
                    dim: dims
                        .iter()
                        .map(|d| Dimension {
                            dim_value: Some(*d),
                            dim_param: None,
                        })
                        .collect(),
                }),
            }),
            sequence: None,
        }),
    }
}

fn initializer(name: &str, dims: &[i64]) -> TensorProto {
    let elems: i64 = dims.iter().product();
    TensorProto {
        name: Some(name.to_string()),
        dims: dims.to_vec(),
        data_type: Some(DataType(DataType::FLOAT)),
        raw_data: Some(vec![0u8; elems as usize * 4]),
        ..Default::default()
    }
}

fn model(graph: GraphProto) -> Model {
    let proto = ModelProto {
        graph: Some(graph),
        ..Default::default()
    };
    assert!(Model::is_buildable(&proto));
    Model::from_proto(proto)
}

#[test]
fn test_edges_are_connected() {
    let model = model(GraphProto {
        node: vec![
            node("Relu", "relu", &["x"], &["h"]),
            node("Sigmoid", "sigmoid", &["h"], &["y"]),
        ],
        input: vec![value_info("x", &[1, 4])],
        output: vec![value_info("y", &[1, 4])],
        ..Default::default()
    });

    let graph = model.root();
    let h = graph.value_by_name("h").unwrap();
    assert_eq!(h.kind, ValueKind::Intermediate);
    assert_eq!(h.producer, Some(graph.nodes()[0].id));
    assert_eq!(h.consumers, vec![graph.nodes()[1].id]);

    let x = graph.value_by_name("x").unwrap();
    assert_eq!(x.kind, ValueKind::Input);
    assert_eq!(x.producer, None);
    assert_eq!(x.shape, Some(Shape(vec![Dim::Fixed(1), Dim::Fixed(4)])));

    assert_eq!(graph.value_by_name("y").unwrap().kind, ValueKind::Output);
}

#[test]
fn test_initializers_become_constants() {
    let model = model(GraphProto {
        node: vec![node("MatMul", "matmul", &["x", "w"], &["y"])],
        initializer: vec![initializer("w", &[4, 8])],
        input: vec![value_info("x", &[1, 4])],
        output: vec![value_info("y", &[1, 8])],
        ..Default::default()
    });

    let w = model.root().value_by_name("w").unwrap();
    assert_eq!(w.kind, ValueKind::Initializer);
    assert!(w.is_constant());
    let tensor = w.tensor.as_ref().unwrap();
    assert_eq!(tensor.dims, [4, 8]);
    assert_eq!(tensor.elem_count(), 32);
    assert_eq!(tensor.byte_len(), Some(128));
    // Shape and dtype are taken from the initializer when `value_info`
    // does not describe it.
    assert_eq!(w.dtype, Some(DataType(DataType::FLOAT)));
    assert_eq!(model.root().parameter_count(), 32);
}

#[test]
fn test_initializer_wins_over_input_declaration() {
    // ONNX allows a value to be both a graph input and an initializer,
    // which means an input with a default value.
    let model = model(GraphProto {
        node: vec![node("Relu", "relu", &["w"], &["y"])],
        initializer: vec![initializer("w", &[2])],
        input: vec![value_info("w", &[2])],
        output: vec![value_info("y", &[2])],
        ..Default::default()
    });

    assert_eq!(
        model.root().value_by_name("w").unwrap().kind,
        ValueKind::Initializer
    );
}

#[test]
fn test_omitted_optional_inputs() {
    // ONNX marks a skipped optional input with an empty name.
    let model = model(GraphProto {
        node: vec![node("Clip", "clip", &["x", "", "max"], &["y"])],
        input: vec![value_info("x", &[4])],
        output: vec![value_info("y", &[4])],
        ..Default::default()
    });

    let node = &model.root().nodes()[0];
    assert_eq!(node.inputs.len(), 3);
    assert!(node.inputs[0].is_some());
    assert!(node.inputs[1].is_none());
    assert!(node.inputs[2].is_some());
}

#[test]
fn test_unnamed_nodes_get_synthesized_names() {
    let model = model(GraphProto {
        node: vec![node("Relu", "", &["x"], &["y"])],
        ..Default::default()
    });

    let node = &model.root().nodes()[0];
    assert_eq!(node.name, "Relu_0");
    assert!(!node.named);
}

#[test]
fn test_repeated_input_lists_consumer_once() {
    let model = model(GraphProto {
        node: vec![node("Add", "add", &["x", "x"], &["y"])],
        input: vec![value_info("x", &[4])],
        ..Default::default()
    });

    let x = model.root().value_by_name("x").unwrap();
    assert_eq!(x.consumers.len(), 1);
}

fn graph_attr(name: &str, graph: GraphProto) -> AttributeProto {
    AttributeProto {
        name: Some(name.to_string()),
        g: Some(graph),
        attr_type: Some(AttributeType(AttributeType::GRAPH)),
        ..Default::default()
    }
}

#[test]
fn test_subgraphs_are_navigable() {
    let branch = |name: &str, output: &str| GraphProto {
        node: vec![node("Identity", name, &["outer"], &[output])],
        output: vec![value_info(output, &[1])],
        ..Default::default()
    };

    let if_node = NodeProto {
        op_type: Some("If".to_string()),
        name: Some("if".to_string()),
        input: vec!["cond".to_string()],
        output: vec!["y".to_string()],
        attribute: vec![
            graph_attr("then_branch", branch("then_id", "t")),
            graph_attr("else_branch", branch("else_id", "e")),
        ],
        ..Default::default()
    };

    let model = model(GraphProto {
        node: vec![node("Relu", "relu", &["x"], &["outer"]), if_node],
        input: vec![value_info("x", &[1]), value_info("cond", &[1])],
        output: vec![value_info("y", &[1])],
        ..Default::default()
    });

    assert_eq!(model.graph_count(), 3);

    let subgraphs: Vec<(String, GraphId)> = model
        .root()
        .subgraphs()
        .into_iter()
        .map(|(_node, attr, id)| (attr.to_string(), id))
        .collect();
    assert_eq!(subgraphs.len(), 2);
    assert_eq!(subgraphs[0].0, "then_branch");
    assert_eq!(subgraphs[1].0, "else_branch");

    let then_branch = model.graph(subgraphs[0].1);
    assert_eq!(then_branch.label, "If.then_branch");
    assert_eq!(then_branch.parent, Some(model.root_id()));
    assert_eq!(
        model.path_to(then_branch.id),
        vec![model.root_id(), then_branch.id]
    );

    // The attribute holds the subgraph's ID.
    let if_node = &model.root().nodes()[1];
    assert!(matches!(if_node.attrs[0].value, AttrValue::Graph(id) if id == subgraphs[0].1));
}

fn nested_model() -> Model {
    let branch = GraphProto {
        node: vec![node("Identity", "id", &["outer"], &["t"])],
        output: vec![value_info("t", &[1])],
        ..Default::default()
    };
    let if_node = NodeProto {
        op_type: Some("If".to_string()),
        name: Some("if".to_string()),
        input: vec!["cond".to_string()],
        output: vec!["y".to_string()],
        attribute: vec![graph_attr("then_branch", branch)],
        ..Default::default()
    };

    model(GraphProto {
        // `outer` is produced in the parent graph and read in the subgraph.
        node: vec![node("Relu", "relu", &["x"], &["outer"]), if_node],
        input: vec![value_info("x", &[1]), value_info("cond", &[1])],
        output: vec![value_info("y", &[1])],
        ..Default::default()
    })
}

#[test]
fn test_outer_scope_values_are_resolved() {
    let model = nested_model();

    let (_node, _attr, subgraph_id) = model.root().subgraphs()[0];
    let subgraph = model.graph(subgraph_id);
    let outer = subgraph.value_by_name("outer").unwrap();

    assert_eq!(outer.kind, ValueKind::OuterScope);
    let target = outer.outer.expect("outer scope value should be resolved");
    assert_eq!(target.graph, model.root_id());
    assert_eq!(model.graph(target.graph).value(target.value).name, "outer");
}

#[test]
fn test_symbolic_dimensions() {
    let mut info = value_info("x", &[1, 4]);
    // Replace the first dimension with a symbolic one.
    info.value_type
        .as_mut()
        .unwrap()
        .tensor_type
        .as_mut()
        .unwrap()
        .shape
        .as_mut()
        .unwrap()
        .dim[0] = Dimension {
        dim_value: None,
        dim_param: Some("batch".to_string()),
    };

    let model = model(GraphProto {
        node: vec![node("Relu", "relu", &["x"], &["y"])],
        input: vec![info],
        ..Default::default()
    });

    let x = model.root().value_by_name("x").unwrap();
    let shape = x.shape.as_ref().unwrap();
    assert_eq!(
        shape.0,
        vec![Dim::Param("batch".to_string()), Dim::Fixed(4)]
    );
    assert_eq!(shape.to_string(), "[batch, 4]");
    assert_eq!(x.type_summary(), "FLOAT[batch, 4]");
}

#[test]
fn test_op_type_counts_sorted_by_frequency() {
    let model = model(GraphProto {
        node: vec![
            node("Relu", "a", &["x"], &["h1"]),
            node("Conv", "b", &["h1"], &["h2"]),
            node("Relu", "c", &["h2"], &["h3"]),
            node("Relu", "d", &["h3"], &["y"]),
        ],
        ..Default::default()
    });

    assert_eq!(model.root().op_type_counts(), vec![("Relu", 3), ("Conv", 1)]);
}

fn constant(name: &str, dims: &[i64]) -> NodeProto {
    NodeProto {
        op_type: Some("Constant".to_string()),
        name: Some(name.to_string()),
        output: vec![name.to_string()],
        attribute: vec![AttributeProto {
            name: Some("value".to_string()),
            t: Some(initializer(name, dims)),
            ..Default::default()
        }],
        ..Default::default()
    }
}

#[test]
fn test_constant_nodes_count_as_parameters() {
    // Some exporters store every weight as a `Constant` node attribute and
    // declare no initializers.
    let model = model(GraphProto {
        node: vec![
            constant("w", &[4, 8]),
            node("MatMul", "matmul", &["x", "w"], &["y"]),
        ],
        input: vec![value_info("x", &[1, 4])],
        ..Default::default()
    });

    let graph = model.root();
    assert_eq!(graph.parameter_count(), 32);

    let w = graph.value_by_name("w").unwrap();
    assert_eq!(w.kind, ValueKind::Constant);
    assert!(w.is_constant());
    // The data lives on the producing node, not the value.
    assert!(w.tensor.is_none());
    assert_eq!(graph.constant_tensor(w).unwrap().elem_count(), 32);
    assert!(graph.nodes()[0].is_constant());
    assert!(!graph.nodes()[1].is_constant());
}

#[test]
fn test_empty_model() {
    let model = Model::from_proto(ModelProto::default());
    assert_eq!(model.graph_count(), 1);
    assert!(model.root().nodes().is_empty());
    assert_eq!(model.root().label, "main");
}

#[test]
fn element_types_have_the_numbers_of_the_format() {
    let pairs = [
        (DataType::FLOAT, rten_onnx::onnx::DataType::FLOAT.0),
        (DataType::UINT8, rten_onnx::onnx::DataType::UINT8.0),
        (DataType::INT8, rten_onnx::onnx::DataType::INT8.0),
        (DataType::UINT16, rten_onnx::onnx::DataType::UINT16.0),
        (DataType::INT16, rten_onnx::onnx::DataType::INT16.0),
        (DataType::INT32, rten_onnx::onnx::DataType::INT32.0),
        (DataType::INT64, rten_onnx::onnx::DataType::INT64.0),
        (DataType::STRING, rten_onnx::onnx::DataType::STRING.0),
        (DataType::BOOL, rten_onnx::onnx::DataType::BOOL.0),
        (DataType::FLOAT16, rten_onnx::onnx::DataType::FLOAT16.0),
        (DataType::DOUBLE, rten_onnx::onnx::DataType::DOUBLE.0),
        (DataType::UINT32, rten_onnx::onnx::DataType::UINT32.0),
        (DataType::UINT64, rten_onnx::onnx::DataType::UINT64.0),
        (DataType::COMPLEX64, rten_onnx::onnx::DataType::COMPLEX64.0),
        (DataType::COMPLEX128, rten_onnx::onnx::DataType::COMPLEX128.0),
        (DataType::BFLOAT16, rten_onnx::onnx::DataType::BFLOAT16.0),
        (DataType::UINT4, rten_onnx::onnx::DataType::UINT4.0),
        (DataType::INT4, rten_onnx::onnx::DataType::INT4.0),
    ];
    for (ours, theirs) in pairs {
        assert_eq!(ours, theirs);
    }
    assert_eq!(AttributeType::FLOAT, rten_onnx::onnx::AttributeType::FLOAT.0);
    assert_eq!(AttributeType::GRAPH, rten_onnx::onnx::AttributeType::GRAPH.0);
    assert_eq!(DataLocation::EXTERNAL, rten_onnx::onnx::DataLocation::EXTERNAL.0);
}

#[test]
fn element_types_are_named() {
    assert_eq!(DataType(DataType::FLOAT).to_string(), "FLOAT");
    assert_eq!(DataType(DataType::BFLOAT16).to_string(), "BFLOAT16");
    assert_eq!(DataType(DataType::FLOAT8E8M0).to_string(), "FLOAT8E8M0");
    assert_eq!(DataType(99).to_string(), "99");
    assert_eq!(DataType(-3).to_string(), "-3");
}

#[test]
fn labels_of_kinds() {
    let labels: Vec<&str> = [
        ValueKind::Input,
        ValueKind::Output,
        ValueKind::Initializer,
        ValueKind::Constant,
        ValueKind::Intermediate,
        ValueKind::OuterScope,
    ]
    .iter()
    .map(|kind| kind.label())
    .collect();
    assert_eq!(
        labels,
        ["input", "output", "initializer", "constant", "intermediate", "outer scope"]
    );
}

#[test]
fn negative_dimensions_count_as_nothing() {
    let tensor = |dims: &[i64]| Tensor {
        dtype: DataType(DataType::FLOAT),
        dims: dims.to_vec(),
        data: TensorData::Missing,
    };
    assert_eq!(tensor(&[]).elem_count(), 1);
    assert_eq!(tensor(&[2, 3]).elem_count(), 6);
    assert_eq!(tensor(&[2, -1]).elem_count(), 0);
    assert_eq!(tensor(&[i64::MAX, 3]).try_elem_count(), None);
    assert_eq!(tensor(&[i64::MAX, 2]).try_elem_count(), Some(u64::MAX - 1));
    assert_eq!(tensor(&[4]).byte_len(), None);
    assert_eq!(tensor(&[2, -1]).shape().to_string(), "[2, -1]");
}

#[test]
fn operators_are_qualified_by_their_domain() {
    let mut custom = node("Attention", "a", &[], &[]);
    custom.domain = Some("com.microsoft".to_string());
    let mut spelled = node("Relu", "b", &[], &[]);
    spelled.domain = Some("ai.onnx".to_string());
    let model = model(GraphProto {
        node: vec![custom, spelled, node("Add", "c", &[], &[])],
        ..Default::default()
    });
    let names: Vec<String> = model
        .root()
        .nodes()
        .iter()
        .map(|node| node.qualified_op_type())
        .collect();
    assert_eq!(names, ["com.microsoft.Attention", "Relu", "Add"]);
}

#[test]
fn opsets_and_metadata_are_kept() {
    let proto = ModelProto {
        ir_version: Some(8),
        producer_name: Some("pytorch".to_string()),
        opset_import: vec![
            OperatorSetIdProto {
                domain: None,
                version: Some(17),
            },
            OperatorSetIdProto {
                domain: Some("ai.onnx.ml".to_string()),
                version: None,
            },
        ],
        metadata_props: vec![StringStringEntryProto {
            key: Some("author".to_string()),
            value: Some("someone".to_string()),
        }],
        ..Default::default()
    };
    let model = Model::from_proto(proto);
    assert_eq!(model.opset_imports[0].display_domain(), "ai.onnx");
    assert_eq!(model.opset_imports[1].display_domain(), "ai.onnx.ml");
    assert_eq!(model.opset_imports[0].summary(), "ai.onnx v17");
    assert_eq!(model.opset_imports[1].summary(), "ai.onnx.ml");
    assert_eq!(
        model.metadata,
        [("author".to_string(), "someone".to_string())]
    );
    assert_eq!(model.producer().as_deref(), Some("pytorch"));
}

#[test]
fn ids_are_positions_throughout() {
    let model = nested_model();
    for (k, graph) in model.graphs().iter().enumerate() {
        assert_eq!(graph.id, GraphId(k as u32));
        for (i, node) in graph.nodes().iter().enumerate() {
            assert_eq!(node.id, NodeId(i as u32));
            for id in node.inputs.iter().chain(node.outputs.iter()).flatten() {
                assert!((id.0 as usize) < graph.values().len());
            }
        }
        for (i, value) in graph.values().iter().enumerate() {
            assert_eq!(value.id.0 as usize, i);
            assert_eq!(graph.value_by_name(&value.name).unwrap().id, value.id);
            for consumer in &value.consumers {
                assert!(graph.node(*consumer).inputs.contains(&Some(value.id)));
            }
        }
        if let Some(parent) = graph.parent {
            assert!(parent.0 < graph.id.0);
        }
    }
}

#[test]
fn the_nearest_definition_is_linked() {
    // `v` is defined in the main graph and again in the branch; the innermost
    // graph reads the one of the branch.
    let innermost = GraphProto {
        node: vec![node("Neg", "neg", &["v", "w"], &["n"])],
        ..Default::default()
    };
    let branch = GraphProto {
        node: vec![
            node("Abs", "abs", &["q"], &["v"]),
            NodeProto {
                op_type: Some("If".to_string()),
                attribute: vec![graph_attr("body", innermost)],
                ..Default::default()
            },
        ],
        ..Default::default()
    };
    let model = model(GraphProto {
        node: vec![
            node("Relu", "relu", &["x"], &["v", "w"]),
            NodeProto {
                op_type: Some("If".to_string()),
                attribute: vec![graph_attr("then_branch", branch)],
                ..Default::default()
            },
        ],
        ..Default::default()
    });
    assert_eq!(model.graph_count(), 3);
    let deepest = model.graph(GraphId(2));
    assert_eq!(deepest.label, "If.body");
    let v = deepest.value_by_name("v").unwrap().outer.unwrap();
    assert_eq!(v.graph, GraphId(1));
    let w = deepest.value_by_name("w").unwrap().outer.unwrap();
    assert_eq!(w.graph, GraphId(0));
    assert_eq!(
        model.path_to(GraphId(2)),
        [GraphId(0), GraphId(1), GraphId(2)]
    );
}

#[test]
fn a_graph_that_only_reads_a_value_is_passed_over() {
    // Only the main graph defines `v`; the branch and the graph inside it both
    // read it. No graph defines `lost`.
    let innermost = GraphProto {
        node: vec![node("Neg", "neg", &["v", "lost"], &["n"])],
        ..Default::default()
    };
    let branch = GraphProto {
        node: vec![
            node("Abs", "abs", &["v", "lost"], &["a"]),
            NodeProto {
                op_type: Some("If".to_string()),
                attribute: vec![graph_attr("body", innermost)],
                ..Default::default()
            },
        ],
        ..Default::default()
    };
    let model = model(GraphProto {
        node: vec![
            node("Relu", "relu", &["x"], &["v"]),
            NodeProto {
                op_type: Some("If".to_string()),
                attribute: vec![graph_attr("then_branch", branch)],
                ..Default::default()
            },
        ],
        ..Default::default()
    });
    let defined = model.root().value_by_name("v").unwrap();
    assert_eq!(defined.kind, ValueKind::Intermediate);
    for id in [GraphId(1), GraphId(2)] {
        let v = model.graph(id).value_by_name("v").unwrap();
        assert_eq!(v.kind, ValueKind::OuterScope);
        let outer = v.outer.unwrap();
        assert_eq!((outer.graph, outer.value), (model.root_id(), defined.id));
        let lost = model.graph(id).value_by_name("lost").unwrap();
        assert_eq!(lost.outer, None);
    }
}

#[test]
fn nodes_fed_by_constants_alone_are_marked() {
    let model = model(GraphProto {
        node: vec![
            constant("k", &[2]),
            node("Mul", "m", &["k", "w"], &["a"]),
            node("Neg", "n", &["a", ""], &["b"]),
            node("Add", "s", &["b", "x"], &["y"]),
        ],
        initializer: vec![initializer("w", &[2])],
        input: vec![value_info("x", &[2])],
        ..Default::default()
    });
    let fed = model.root().constant_fed_nodes();
    assert!(fed[1] && fed[2]);
    assert!(!fed[3]);
}

#[test]
fn strings_are_ordered_as_the_standard_library_orders_them() {
    let words = ["", "a", "ab", "b", "Conv", "conv", "é", "z", "Relu"];
    for a in words {
        for b in words {
            assert_eq!(comes_before(a, b), a < b, "{} {}", a, b);
        }
    }
}

#[test]
fn equally_frequent_operators_are_listed_by_name() {
    let model = model(GraphProto {
        node: vec![
            node("Tanh", "", &[], &[]),
            node("Add", "", &[], &[]),
            node("Relu", "", &[], &[]),
            node("Relu", "", &[], &[]),
        ],
        ..Default::default()
    });
    assert_eq!(
        model.root().op_type_counts(),
        [("Relu", 2), ("Add", 1), ("Tanh", 1)]
    );
}

#[test]
fn attributes_are_decoded() {
    let attr = |name: &str| AttributeProto {
        name: Some(name.to_string()),
        ..Default::default()
    };
    let mut with = node("Op", "op", &[], &[]);
    with.attribute = vec![
        AttributeProto {
            f: Some(1.5f32.to_bits()),
            attr_type: Some(AttributeType(AttributeType::FLOAT)),
            ..attr("alpha")
        },
        AttributeProto {
            i: Some(-2),
            attr_type: Some(AttributeType(AttributeType::INT)),
            ..attr("axis")
        },
        AttributeProto {
            s: Some("a\"b".to_string()),
            attr_type: Some(AttributeType(AttributeType::STRING)),
            ..attr("mode")
        },
        AttributeProto {
            ints: (0..18).collect(),
            attr_type: Some(AttributeType(AttributeType::INTS)),
            ..attr("pads")
        },
        AttributeProto {
            floats: vec![0.5f32.to_bits(), 2.0f32.to_bits()],
            attr_type: Some(AttributeType(AttributeType::FLOATS)),
            ..attr("scales")
        },
        AttributeProto {
            strings: vec!["x".to_string(), "y".to_string()],
            attr_type: Some(AttributeType(AttributeType::STRINGS)),
            ..attr("keys")
        },
        AttributeProto {
            t: Some(initializer("t", &[2, 3])),
            attr_type: Some(AttributeType(AttributeType::TENSOR)),
            ..attr("value")
        },
        AttributeProto {
            attr_type: Some(AttributeType(13)),
            ..attr("odd")
        },
        graph_attr("body", GraphProto::default()),
    ];
    let model = model(GraphProto {
        node: vec![with],
        ..Default::default()
    });
    let shown: Vec<(String, String)> = model.root().nodes()[0]
        .attrs
        .iter()
        .map(|attr| {
            let numbers: Vec<String> = attr
                .value
                .floats()
                .into_iter()
                .map(|bits| f32::from_bits(bits).to_string())
                .collect();
            (
                attr.value.type_label().to_string(),
                attr.value.text(&numbers),
            )
        })
        .collect();
    let expected = [
        ("float", "1.5"),
        ("int", "-2"),
        ("string", "\"a\\\"b\""),
        (
            "int[]",
            "[0, 1, 2, 3, 4, 5, 6, 7, 8, 9, 10, 11, 12, 13, 14, 15, … (18 total)]",
        ),
        ("float[]", "[0.5, 2]"),
        ("string[]", "[x, y]"),
        ("tensor", "FLOAT[2, 3]"),
        ("unsupported", "<unsupported attribute type 13>"),
        ("graph", "<subgraph>"),
    ];
    assert_eq!(shown.len(), expected.len());
    for ((label, text), (want_label, want_text)) in shown.iter().zip(expected) {
        assert_eq!(label, want_label);
        assert_eq!(text, want_text);
    }
}
