use onnx_explorer::details::{
    inline_value, node_details, parameter_label, table_rows, tensor_values, value_details,
    value_row, write_attr, write_line, write_pane_line, Position, RowContent, RowLink, TensorValues,
};
use onnx_explorer::model::{AttrValue, GraphId, Model, NodeId, Tensor, TensorData};
use onnx_explorer::op_schema::Arity;
use onnx_explorer::proto::{
    AttributeProto, AttributeType, DataLocation, DataType, GraphProto, ModelProto, NodeProto,
    StringStringEntryProto, TensorProto, ValueInfoProto,
};
use onnx_explorer::values::Element;

fn node(op_type: &str, name: &str, inputs: &[&str], outputs: &[&str]) -> NodeProto {
    NodeProto {
        op_type: Some(op_type.to_string()),
        name: if name.is_empty() {
            None
        } else {
            Some(name.to_string())
        },
        input: inputs.iter().map(|s| s.to_string()).collect(),
        output: outputs.iter().map(|s| s.to_string()).collect(),
        ..Default::default()
    }
}

fn value_info(name: &str) -> ValueInfoProto {
    ValueInfoProto {
        name: Some(name.to_string()),
        ..Default::default()
    }
}

fn ints(name: &str, dims: &[i64], values: &[i64]) -> TensorProto {
    TensorProto {
        name: Some(name.to_string()),
        dims: dims.to_vec(),
        data_type: Some(DataType(DataType::INT64)),
        int64_data: values.to_vec(),
        ..Default::default()
    }
}

fn external(name: &str, dims: &[i64]) -> TensorProto {
    TensorProto {
        name: Some(name.to_string()),
        dims: dims.to_vec(),
        data_type: Some(DataType(DataType::FLOAT)),
        data_location: Some(DataLocation(DataLocation::EXTERNAL)),
        external_data: vec![StringStringEntryProto {
            key: Some("location".to_string()),
            value: Some("w.bin".to_string()),
        }],
        ..Default::default()
    }
}

fn example() -> Model {
    let mut body = node("If", "choose", &["cond"], &["picked"]);
    body.attribute = vec![
        AttributeProto {
            name: Some("then_branch".to_string()),
            g: Some(GraphProto {
                node: vec![node("Identity", "id", &["h"], &["t"])],
                ..Default::default()
            }),
            attr_type: Some(AttributeType(AttributeType::GRAPH)),
            ..Default::default()
        },
        AttributeProto {
            name: Some("axis".to_string()),
            i: Some(1),
            attr_type: Some(AttributeType(AttributeType::INT)),
            ..Default::default()
        },
    ];
    Model::from_proto(ModelProto {
        graph: Some(GraphProto {
            node: vec![
                node("Conv", "conv", &["x", "w", ""], &["h"]),
                node("Reshape", "", &["h", "shape"], &["r"]),
                node("Add", "add", &["h", "r"], &["y"]),
                body,
            ],
            initializer: vec![
                external("w", &[3, 4]),
                ints("shape", &[2], &[1, -1]),
                ints("scalar", &[], &[7]),
                ints("matrix", &[2, 2], &[1, 2, 3, 4]),
            ],
            input: vec![value_info("x"), value_info("cond")],
            output: vec![value_info("y")],
            ..Default::default()
        }),
        ..Default::default()
    })
}

fn tensor(dims: &[i64], data: TensorData) -> Tensor {
    Tensor {
        dtype: DataType(DataType::INT64),
        dims: dims.to_vec(),
        data,
    }
}

#[test]
fn positions_are_named_or_numbered() {
    let params = vec![
        ("A".to_string(), Arity::Required),
        ("rest".to_string(), Arity::Variadic),
    ];
    assert_eq!(parameter_label(Some(&params), 0), "A");
    assert_eq!(parameter_label(Some(&params), 3), "rest[2]");
    assert_eq!(parameter_label(None, 3), "3.");
    assert_eq!(parameter_label(Some(&Vec::new()), 1), "1.");
}

#[test]
fn only_short_vectors_stand_on_a_row() {
    let held = |dims: &[i64], n: usize| {
        inline_value(&tensor(dims, TensorData::Int64s(vec![5; n]))).map(|e| e.len())
    };
    assert_eq!(held(&[8], 8), Some(8));
    assert_eq!(held(&[9], 9), None);
    assert_eq!(held(&[], 1), Some(1));
    assert_eq!(held(&[2, 2], 4), None);
    assert_eq!(held(&[0], 0), None);
    // The shape promises more than there is.
    assert_eq!(held(&[4], 2), Some(2));
    let outside = TensorData::External {
        entries: Vec::new(),
    };
    assert!(inline_value(&tensor(&[2], outside)).is_none());
    assert!(inline_value(&tensor(&[2], TensorData::Missing)).is_none());
}

#[test]
fn elements_stand_on_a_line() {
    let texts = vec!["1".to_string(), "-1".to_string()];
    assert_eq!(write_line(&texts, false), "[1, -1]");
    assert_eq!(write_line(&vec!["7".to_string()], true), "7");
    // The pane puts brackets round a scalar too.
    assert_eq!(write_pane_line(&vec!["7".to_string()]), "[7]");
}

#[test]
fn attributes_are_cut_to_the_pane() {
    let none: Vec<String> = Vec::new();
    assert_eq!(write_attr(&AttrValue::Int(-3), &none), "-3");
    let long = AttrValue::Strings(vec!["n".repeat(80)]);
    let shown = write_attr(&long, &none);
    assert_eq!(shown.chars().count(), 72);
    assert!(shown.starts_with("[nnn") && shown.ends_with('…'));
    let half = AttrValue::Float(0.5f32.to_bits());
    assert_eq!(write_attr(&half, &vec!["0.5".to_string()]), "0.5");
}

#[test]
fn the_pane_shows_elements_by_their_number() {
    let shown = |dims: &[i64], data| tensor_values(&tensor(dims, data));
    assert!(matches!(
        shown(&[0], TensorData::Missing),
        TensorValues::Empty
    ));
    match shown(&[3], TensorData::Missing) {
        TensorValues::Unreadable(text) => {
            assert_eq!(text, "This tensor has no data stored with it.")
        }
        _ => panic!("nothing can be read"),
    }
    match shown(&[32], TensorData::Int64s(vec![1; 32])) {
        TensorValues::Line(elements) => assert_eq!(elements, vec![Element::Int(1); 32]),
        _ => panic!("a short vector is written out"),
    }
    match shown(&[33], TensorData::Int64s(vec![1; 33])) {
        TensorValues::Table(title, rows) => assert_eq!((title.as_str(), rows), ("33 elements", 33)),
        _ => panic!("a long vector is a table"),
    }
    match shown(&[40, 50], TensorData::Raw(Vec::new())) {
        TensorValues::Table(title, rows) => {
            assert_eq!((title.as_str(), rows), ("2.0K elements", 2000))
        }
        _ => panic!("a matrix is a table"),
    }
    let outside = TensorData::External {
        entries: Vec::new(),
    };
    assert!(matches!(
        shown(&[2], outside),
        TensorValues::Table(_, 2)
    ));
}

#[test]
fn table_rows_say_where_they_are() {
    let texts = vec!["7".to_string(), "8".to_string()];
    assert_eq!(
        table_rows(&[2, 3], 2, &texts),
        [
            ("[0, 2]".to_string(), "7".to_string()),
            ("[1, 0]".to_string(), "8".to_string())
        ]
    );
}

fn label_of(position: &Position) -> &str {
    match position {
        Position::Omitted(label) => label,
        Position::Present(row) => &row.label,
    }
}

#[test]
fn the_details_of_a_node() {
    let model = example();
    assert!(model.root().constants_countable());
    let conv = node_details(&model, GraphId(0), NodeId(0));
    assert_eq!(conv.heading, "Conv");
    assert_eq!(conv.subheading, "conv");
    let labels: Vec<&str> = conv.inputs.iter().map(label_of).collect();
    assert_eq!(labels, ["X", "W", "B  (omitted)"]);
    assert_eq!(label_of(&conv.outputs[0]), "Y");
    match &conv.inputs[0] {
        Position::Present(row) => match &row.content {
            RowContent::Named(name, summary, RowLink::Note(note)) => {
                assert_eq!((name.as_str(), summary.as_str()), ("x", "?"));
                assert_eq!(note, "input");
            }
            _ => panic!("an input has no producer"),
        },
        _ => panic!("the position is taken"),
    }
    match &conv.inputs[1] {
        Position::Present(row) => match &row.content {
            RowContent::Named(_, summary, RowLink::Note(note)) => {
                assert_eq!(summary, "FLOAT[3, 4]");
                assert_eq!(note, "const · 12");
            }
            _ => panic!("external weights are not written out"),
        },
        _ => panic!("the position is taken"),
    }
    match &conv.outputs[0] {
        Position::Present(row) => match &row.content {
            RowContent::Named(_, _, RowLink::Consumers(note, nodes)) => {
                assert_eq!(note, "2 consumers");
                assert_eq!(nodes, &[NodeId(1), NodeId(2)]);
            }
            _ => panic!("two nodes read the value"),
        },
        _ => panic!("the position is taken"),
    }

    let reshape = node_details(&model, GraphId(0), NodeId(1));
    assert_eq!(reshape.subheading, "Reshape_1 (unnamed)");
    match &reshape.inputs[0] {
        Position::Present(row) => assert!(matches!(
            &row.content,
            RowContent::Named(_, _, RowLink::Producer(NodeId(0)))
        )),
        _ => panic!("the position is taken"),
    }
    match &reshape.inputs[1] {
        Position::Present(row) => match &row.content {
            RowContent::Line(elements, scalar) => {
                assert_eq!(elements, &[Element::Int(1), Element::Int(-1)]);
                assert!(!scalar);
            }
            _ => panic!("a short constant is written out"),
        },
        _ => panic!("the position is taken"),
    }
    match &reshape.outputs[0] {
        Position::Present(row) => assert!(matches!(
            &row.content,
            RowContent::Named(_, _, RowLink::Consumer(NodeId(2)))
        )),
        _ => panic!("the position is taken"),
    }

    let choose = node_details(&model, GraphId(0), NodeId(3));
    assert_eq!(choose.attrs[0].name, "then_branch");
    assert_eq!(choose.attrs[0].type_label, "graph");
    assert_eq!(
        choose.attrs[0].body,
        Some((GraphId(1), "open (1 nodes)".to_string()))
    );
    assert_eq!(choose.attrs[1].type_label, "int");
    assert!(choose.attrs[1].body.is_none());
}

#[test]
fn rows_of_scalars_and_matrices() {
    let model = example();
    let graph = model.root();
    let row = |name: &str| {
        value_row(
            graph,
            graph.value_by_name(name).unwrap(),
            "0.".to_string(),
            true,
        )
        .content
    };
    match row("scalar") {
        RowContent::Line(elements, scalar) => {
            assert_eq!(elements, [Element::Int(7)]);
            assert!(scalar);
        }
        _ => panic!("a scalar is written out"),
    }
    match row("matrix") {
        RowContent::Named(_, _, RowLink::Note(note)) => assert_eq!(note, "const · 4"),
        _ => panic!("a matrix has no reading that fits on a line"),
    }
}

#[test]
fn the_details_of_a_value() {
    let model = example();
    let graph = model.root();
    let id = |name: &str| graph.value_by_name(name).unwrap().id;

    let w = value_details(&model, GraphId(0), id("w"));
    assert_eq!(w.heading, "w");
    assert_eq!(w.subheading, "initializer");
    let facts: Vec<(&str, &str)> = w
        .facts
        .iter()
        .map(|(name, fact)| (name.as_str(), fact.as_str()))
        .collect();
    assert_eq!(
        facts,
        [
            ("Name", "w"),
            ("Type", "FLOAT[3, 4]"),
            ("Elements", "12"),
            ("External location", "w.bin"),
        ]
    );
    assert!(matches!(w.values, Some(TensorValues::Table(_, 12))));
    assert!(w.producer.is_none());
    assert_eq!(w.consumers_heading, "Consumers (1)");
    assert_eq!(w.consumers[0].label, "Conv  conv");

    let shape = value_details(&model, GraphId(0), id("shape"));
    assert_eq!(shape.facts[3], ("Size".to_string(), "16 bytes".to_string()));

    let h = value_details(&model, GraphId(0), id("h"));
    assert!(h.values.is_none());
    assert_eq!(h.producer.unwrap().label, "Conv  conv");
    assert_eq!(h.consumers.len(), 2);

    let inner = model.graph(GraphId(1)).value_by_name("h").unwrap().id;
    let outer = value_details(&model, GraphId(1), inner);
    assert_eq!(
        outer.facts.last().unwrap(),
        &("Defined in".to_string(), "main".to_string())
    );
}

#[test]
fn links_follow_edges() {
    let model = example();
    let graph = model.root();
    for value in graph.values() {
        for is_input in [true, false] {
            let row = value_row(graph, value, String::new(), is_input);
            match row.content {
                RowContent::Named(_, _, RowLink::Producer(node)) => {
                    assert!(graph.node(node).outputs.contains(&Some(value.id)))
                }
                RowContent::Named(_, _, RowLink::Consumer(node)) => {
                    assert!(graph.node(node).inputs.contains(&Some(value.id)))
                }
                RowContent::Named(_, _, RowLink::Consumers(_, nodes)) => {
                    for node in nodes {
                        assert!(graph.node(node).inputs.contains(&Some(value.id)))
                    }
                }
                _ => {}
            }
        }
    }
}
