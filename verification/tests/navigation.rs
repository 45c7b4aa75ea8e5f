use onnx_explorer::canvas::{
    box_text, click, density, drawn_edges, edge_text, fill, is_too_dense, outline, BoxText,
    CanvasEvent, Fill, Outline, MAX_DRAWN_EDGES, MAX_DRAWN_NODES,
};
use onnx_explorer::hierarchy::{GroupId, Hierarchy};
use onnx_explorer::layout::{layout_graph, ItemKind, LayoutEdge, LayoutNode, LayoutOptions};
use onnx_explorer::model::{GraphId, Model, NodeId, OpCategory, ValueId};
use onnx_explorer::navigation::{Focus, Motion, Navigation, Pane, PaneEvent, Selection};
use onnx_explorer::overview::{
    block_overview, breadcrumb, graph_overview, model_info, Step,
};
use onnx_explorer::proto::{
    AttributeProto, AttributeType, DataType, GraphProto, ModelProto, NodeProto,
    OperatorSetIdProto, StringStringEntryProto, TensorProto, ValueInfoProto,
};
use onnx_explorer::search::{find_nodes, match_label, matches_query, trim, trim_end};
use onnx_explorer::summary::{grouped_line, layout_line, summary};
use std::collections::HashSet;

fn node(op_type: &str, name: &str, inputs: &[&str], outputs: &[&str]) -> NodeProto {
    NodeProto {
        op_type: Some(op_type.to_string()),
        name: Some(name.to_string()),
        input: inputs.iter().map(|s| s.to_string()).collect(),
        output: outputs.iter().map(|s| s.to_string()).collect(),
        ..Default::default()
    }
}

fn value_info(name: &str) -> ValueInfoProto {
    ValueInfoProto {
        name: Some(name.to_string()),
        ..Default::default()
    }
}

fn example() -> Model {
    let mut choose = node("If", "/tail/If", &["h1"], &["y"]);
    choose.attribute = vec![AttributeProto {
        name: Some("then_branch".to_string()),
        g: Some(GraphProto {
            node: vec![
                node("Identity", "id", &["h1"], &["t"]),
                node("Neg", "neg", &["t"], &["u"]),
            ],
            ..Default::default()
        }),
        attr_type: Some(AttributeType(AttributeType::GRAPH)),
        ..Default::default()
    }];
    Model::from_proto(ModelProto {
        ir_version: Some(8),
        producer_name: Some("pytorch".to_string()),
        producer_version: Some("2.1".to_string()),
        opset_import: vec![OperatorSetIdProto {
            domain: None,
            version: Some(17),
        }],
        metadata_props: vec![StringStringEntryProto {
            key: Some("author".to_string()),
            value: Some("someone".to_string()),
        }],
        graph: Some(GraphProto {
            node: vec![
                node("MatMul", "/head/MatMul", &["x", "w"], &["h0"]),
                node("Relu", "/head/act/Relu", &["h0"], &["h1"]),
                choose,
            ],
            initializer: vec![TensorProto {
                name: Some("w".to_string()),
                dims: vec![40, 50],
                data_type: Some(DataType(DataType::FLOAT)),
                raw_data: Some(vec![0; 8000]),
                ..Default::default()
            }],
            input: vec![value_info("x")],
            output: vec![value_info("y")],
            ..Default::default()
        }),
        ..Default::default()
    })
}

const HOME: Motion = Motion {
    home: true,
    focus: None,
};
const STAY: Motion = Motion {
    home: false,
    focus: None,
};

#[test]
fn going_back_undoes_a_link() {
    let model = example();
    let hierarchy = Hierarchy::build(model.root()).unwrap();
    let groups = Some(&hierarchy);
    let mut nav = Navigation::new(&model);
    assert_eq!(nav.matches.len(), 3);
    assert_eq!(nav.back_hint(), None);

    // The node is in a block that is not open.
    let motion = nav.go_to(groups, Selection::Node(NodeId(1)));
    assert!(motion.home);
    assert_eq!(motion.focus, Some(Focus::Node(NodeId(1))));
    assert_eq!(nav.scope, hierarchy.group_of(NodeId(1)));
    assert!(nav.history.is_empty());

    assert_eq!(nav.go_to(groups, Selection::Value(ValueId(0))), STAY);
    assert_eq!(nav.selection, Some(Selection::Value(ValueId(0))));
    assert_eq!(nav.history, [Selection::Node(NodeId(1))]);
    assert_eq!(nav.back_hint(), Some("Back to the operator that led here"));

    nav.go_to(groups, Selection::Node(NodeId(2)));
    assert_eq!(nav.back_hint(), Some("Back to the value that led here"));

    assert_eq!(nav.go_back(groups), STAY);
    assert_eq!(nav.selection, Some(Selection::Value(ValueId(0))));
    let motion = nav.go_back(groups);
    assert_eq!(nav.selection, Some(Selection::Node(NodeId(1))));
    assert_eq!(nav.scope, hierarchy.group_of(NodeId(1)));
    assert!(motion.home);
    assert!(nav.history.is_empty());
    assert_eq!(nav.go_back(groups), STAY);
    assert_eq!(nav.selection, Some(Selection::Node(NodeId(1))));
}

#[test]
fn the_trail_never_stays_in_place() {
    let model = example();
    let mut nav = Navigation::new(&model);
    for _ in 0..3 {
        nav.go_to(None, Selection::Value(ValueId(1)));
    }
    assert_eq!(nav.history, [Selection::Value(ValueId(1))]);
    nav.go_to(None, Selection::Value(ValueId(2)));
    nav.go_to(None, Selection::Value(ValueId(1)));
    assert!(nav.history.windows(2).all(|w| w[0] != w[1]));
}

#[test]
fn blocks_are_entered_and_left() {
    let model = example();
    let hierarchy = Hierarchy::build(model.root()).unwrap();
    let groups = Some(&hierarchy);
    let mut nav = Navigation::new(&model);
    let head = hierarchy.group(hierarchy.root()).children[0];

    assert_eq!(nav.parent_group(groups), None);
    assert_eq!(nav.leave_group(groups), STAY);
    assert_eq!(nav.pane(groups), Pane::Graph);

    nav.go_to(groups, Selection::Value(ValueId(0)));
    assert_eq!(nav.pane(groups), Pane::Value(ValueId(0)));
    assert_eq!(nav.enter_group(head), HOME);
    assert_eq!(nav.selection, None);
    assert_eq!(nav.pane(groups), Pane::Block(head));
    assert_eq!(nav.view_key(groups).group, Some(head));
    assert_eq!(nav.parent_group(groups), Some(hierarchy.root()));

    let motion = nav.leave_group(groups);
    assert_eq!(nav.scope, hierarchy.root());
    assert_eq!(
        motion,
        Motion {
            home: true,
            focus: Some(Focus::Group(head))
        }
    );

    nav.enter_group(head);
    assert_eq!(nav.set_grouped(false), HOME);
    assert_eq!(nav.scope, GroupId(0));
    assert_eq!(nav.view_key(groups).group, None);
    assert!(nav.shown(groups).is_none());
    assert_eq!(nav.pane(groups), Pane::Graph);
}

#[test]
fn another_graph_starts_afresh() {
    let model = example();
    let mut nav = Navigation::new(&model);
    nav.set_query(&model, "NEG".to_string());
    assert!(nav.matches.is_empty());
    nav.go_to(None, Selection::Node(NodeId(0)));
    assert_eq!(nav.go_to_graph(&model, GraphId(1)), HOME);
    assert_eq!(nav.graph, GraphId(1));
    assert_eq!(nav.matches, [NodeId(1)]);
    assert_eq!(nav.selection, None);
    assert!(nav.history.is_empty());
}

#[test]
fn the_canvas_selects_and_opens() {
    let model = example();
    let hierarchy = Hierarchy::build(model.root()).unwrap();
    let groups = Some(&hierarchy);
    let mut nav = Navigation::new(&model);
    nav.open_filter();
    let layout = layout_graph(model.root(), nav.shown(groups), &LayoutOptions::default());

    assert_eq!(nav.on_canvas(CanvasEvent::Nothing, &layout), STAY);
    assert!(nav.filtering);

    let input = layout
        .nodes
        .iter()
        .position(|n| matches!(n.kind, ItemKind::Input(_)))
        .unwrap();
    assert_eq!(nav.on_canvas(click(Some(input)), &layout), STAY);
    assert!(!nav.filtering);
    assert_eq!(nav.selected_index(&layout), Some(input));

    let block = layout
        .nodes
        .iter()
        .position(|n| n.title == "head")
        .unwrap();
    assert_eq!(nav.on_canvas(click(Some(block)), &layout), HOME);
    assert_eq!(nav.pane(groups), Pane::Block(nav.scope));

    let inside = layout_graph(model.root(), nav.shown(groups), &LayoutOptions::default());
    let op = inside
        .nodes
        .iter()
        .position(|n| n.title == "MatMul")
        .unwrap();
    assert_eq!(nav.on_canvas(click(Some(op)), &inside), STAY);
    assert_eq!(nav.pane(groups), Pane::Node(NodeId(0)));
    assert_eq!(nav.selected_index(&inside), Some(op));
    assert_eq!(nav.on_canvas(click(None), &inside), STAY);
    assert_eq!(nav.selected_index(&inside), None);
}

#[test]
fn a_match_is_revealed() {
    let model = example();
    let hierarchy = Hierarchy::build(model.root()).unwrap();
    let groups = Some(&hierarchy);
    let mut nav = Navigation::new(&model);
    nav.open_filter();
    nav.set_query(&model, " relu ".to_string());
    assert_eq!(nav.matches, [NodeId(1)]);
    let chosen = nav.matches[0];
    nav.choose_match(groups, chosen);
    assert!(!nav.filtering);
    let layout = layout_graph(model.root(), nav.shown(groups), &LayoutOptions::default());
    assert!(nav.selected_index(&layout).is_some());
    nav.open_filter();
    nav.close_filter();
    assert!(!nav.filtering);
}

#[test]
fn events_beside_the_canvas() {
    let model = example();
    let hierarchy = Hierarchy::build(model.root()).unwrap();
    let groups = Some(&hierarchy);
    let mut nav = Navigation::new(&model);
    assert_eq!(nav.on_pane(PaneEvent::Nothing, &model, groups), STAY);
    let target = Selection::Value(ValueId(0));
    nav.on_pane(PaneEvent::Follow(target), &model, groups);
    nav.on_pane(PaneEvent::Follow(Selection::Value(ValueId(1))), &model, groups);
    nav.on_pane(PaneEvent::Back, &model, groups);
    assert_eq!(nav.selection, Some(target));
    nav.on_pane(PaneEvent::Clear, &model, groups);
    assert_eq!(nav.selection, None);
    let head = hierarchy.group(hierarchy.root()).children[0];
    assert_eq!(
        nav.on_pane(PaneEvent::Open(Step::Group(head)), &model, groups),
        HOME
    );
    assert_eq!(nav.scope, head);
    assert_eq!(
        nav.on_pane(PaneEvent::Open(Step::Graph(GraphId(1))), &model, groups),
        HOME
    );
    assert_eq!(nav.graph, GraphId(1));
}

#[test]
fn keys_tell_drawings_apart() {
    let model = example();
    let hierarchy = Hierarchy::build(model.root()).unwrap();
    let groups = Some(&hierarchy);
    let mut nav = Navigation::new(&model);
    let top = nav.view_key(groups);
    nav.go_to(groups, Selection::Value(ValueId(0)));
    assert_eq!(nav.view_key(groups), top);
    nav.enter_group(GroupId(1));
    assert_ne!(nav.view_key(groups), top);
}

#[test]
fn the_trail_ends_at_the_view() {
    let model = example();
    let hierarchy = Hierarchy::build(model.root()).unwrap();
    let mut nav = Navigation::new(&model);
    assert!(breadcrumb(&model, nav.graph, nav.shown(Some(&hierarchy))).is_empty());
    nav.go_to(Some(&hierarchy), Selection::Node(NodeId(1)));
    let crumbs = breadcrumb(&model, nav.graph, nav.shown(Some(&hierarchy)));
    let labels: Vec<&str> = crumbs.iter().map(|crumb| crumb.label.as_str()).collect();
    assert_eq!(labels, ["main", "head", "act"]);
    assert_eq!(crumbs[0].step, Step::Graph(GraphId(0)));
    assert_eq!(crumbs[2].step, Step::Group(nav.scope));

    nav.go_to_graph(&model, GraphId(1));
    let crumbs = breadcrumb(&model, nav.graph, nav.shown(None));
    let labels: Vec<&str> = crumbs.iter().map(|crumb| crumb.label.as_str()).collect();
    assert_eq!(labels, ["main", "If.then_branch"]);
}

#[test]
fn white_space_is_that_of_unicode() {
    for code in 0..=0x10ffffu32 {
        if let Some(c) = char::from_u32(code) {
            let text = format!("{c}x{c}");
            assert_eq!(trim(&text), text.trim(), "{code:#x}");
            assert_eq!(trim_end(&text), text.trim_end(), "{code:#x}");
        }
    }
    assert_eq!(trim("  "), "");
    assert_eq!(trim_end(""), "");
}

#[test]
fn nodes_are_found_whatever_the_case() {
    let model = example();
    let find = |query: &str| find_nodes(model.root(), query);
    assert_eq!(find(""), [NodeId(0), NodeId(1), NodeId(2)]);
    assert_eq!(find("   ").len(), 3);
    assert_eq!(find("HEAD"), [NodeId(0), NodeId(1)]);
    assert_eq!(find("matmul"), [NodeId(0)]);
    assert!(find("nothing").is_empty());
    assert!(matches_query("name", "relu", "el"));
    assert!(!matches_query("name", "relu", "EL"));
    assert!(matches_query("", "", ""));
    assert_eq!(match_label(model.root(), NodeId(1)), "Relu  /head/act/Relu");
}

#[test]
fn long_matches_are_shortened() {
    let long = "n".repeat(80);
    let model = Model::from_proto(ModelProto {
        graph: Some(GraphProto {
            node: vec![node("Relu", &long, &[], &[])],
            ..Default::default()
        }),
        ..Default::default()
    });
    let label = match_label(model.root(), NodeId(0));
    assert_eq!(label.chars().count(), 56);
    assert!(label.starts_with("Relu  nnn") && label.ends_with('…'));
}

#[test]
fn the_facts_about_a_model() {
    let model = example();
    assert_eq!(model.try_parameter_count(), Some(2000));
    let info = model_info(&model);
    let facts: Vec<(&str, &str)> = info
        .iter()
        .map(|(name, fact)| (name.as_str(), fact.as_str()))
        .collect();
    assert_eq!(
        facts,
        [
            ("Producer", "pytorch 2.1"),
            ("IR version", "8"),
            ("Opset", "ai.onnx v17"),
            ("Graphs", "2"),
            ("Parameters", "2.0K"),
            ("author", "someone"),
        ]
    );
}

#[test]
fn parameters_that_cannot_be_counted() {
    let huge = |name: &str| TensorProto {
        name: Some(name.to_string()),
        dims: vec![i64::MAX, 2],
        data_type: Some(DataType(DataType::FLOAT)),
        ..Default::default()
    };
    let model = Model::from_proto(ModelProto {
        graph: Some(GraphProto {
            initializer: vec![huge("a"), huge("b")],
            ..Default::default()
        }),
        ..Default::default()
    });
    assert_eq!(model.root().try_parameter_count(), None);
    assert_eq!(model.try_parameter_count(), None);
}

#[test]
fn the_overview_of_a_graph() {
    let model = example();
    let overview = graph_overview(&model, GraphId(0));
    assert_eq!(overview.inputs[0].name, "x");
    assert_eq!(overview.inputs[0].summary, "?");
    assert_eq!(overview.outputs[0].name, "y");
    assert_eq!(overview.subgraphs[0].graph, GraphId(1));
    assert_eq!(
        overview.subgraphs[0].label,
        "/tail/If.then_branch (2 nodes)"
    );
}

#[test]
fn the_overview_of_a_block() {
    let model = example();
    let hierarchy = Hierarchy::build(model.root()).unwrap();
    let head = hierarchy.group(hierarchy.root()).children[0];
    let overview = block_overview(&hierarchy, head);
    assert_eq!(overview.name, "head");
    assert_eq!(overview.path, "/head");
    assert_eq!(
        overview.facts,
        [
            ("Operators".to_string(), "2".to_string()),
            ("Blocks".to_string(), "1".to_string())
        ]
    );
    assert_eq!(overview.blocks[0].label, "act (1 operators)");
    let act = block_overview(&hierarchy, overview.blocks[0].group);
    assert_eq!(act.facts.len(), 1);
    assert!(act.blocks.is_empty());
}

#[test]
fn the_summary_of_a_model() {
    let model = example();
    assert!(Hierarchy::fits(model.root()));
    assert_eq!(
        summary(&model, "net.onnx", "1.5"),
        [
            "net.onnx  (loaded in 1.5 ms)",
            "  producer:   pytorch 2.1",
            "  ir version: 8",
            "  opset:      ai.onnx v17",
            "  graphs:     2",
            "  blocks:     3 from node names",
            "  nodes:      3 in the main graph, 5 in total",
            "  parameters: 2000",
            "  inputs:",
            "    x ?",
            "  outputs:",
            "    y ?",
            "  operators:  3 distinct",
            "         1  If",
            "         1  MatMul",
            "         1  Relu",
            "  subgraph If.then_branch of main: 2 nodes",
        ]
    );
    let empty = Model::from_proto(ModelProto::default());
    assert_eq!(
        summary(&empty, "e", "0.0")[2],
        "  blocks:     none, node names are not hierarchical"
    );
}

#[test]
fn lines_on_layouts() {
    let mut nodes = vec![node("RandomNormal", "/b/start", &[], &["v1"])];
    for i in 1..100 {
        nodes.push(node(
            "Relu",
            &format!("/b/r{i}"),
            &[&format!("v{i}")],
            &[&format!("v{}", i + 1)],
        ));
    }
    let model = Model::from_proto(ModelProto {
        graph: Some(GraphProto {
            node: nodes,
            ..Default::default()
        }),
        ..Default::default()
    });
    let graph = model.root();
    let layout = layout_graph(graph, None, &LayoutOptions::default());
    assert_eq!(
        layout_line(graph, &layout, "12.5").unwrap(),
        format!(
            "  {:<20} {:>6} nodes -> {:>6} boxes, {:>6} edges, {:>6} ranks, {:>8} dummies, {:>8.1} ms",
            "main", 100, 100, 99, 100, 0, 12.5
        )
    );
    let small = example();
    let drawn = layout_graph(small.root(), None, &LayoutOptions::default());
    assert!(layout_line(small.root(), &drawn, "1.0").is_none());
    let hierarchy = Hierarchy::build(small.root()).unwrap();
    assert_eq!(
        grouped_line(&hierarchy, &drawn, "0.3"),
        format!(
            "  grouped top level:   2 blocks -> {} boxes, {} edges, 0.3 ms",
            drawn.nodes.len(),
            drawn.edges.len()
        )
    );
}

#[test]
fn fills_follow_what_a_box_stands_for() {
    let op = ItemKind::Op(NodeId(0));
    assert_eq!(fill(op, Some(OpCategory::Compute), true), Fill::Selected);
    assert_eq!(fill(op, Some(OpCategory::Compute), false), Fill::Compute);
    for category in [
        OpCategory::Normalization,
        OpCategory::Pooling,
        OpCategory::Reduction,
    ] {
        assert_eq!(fill(op, Some(category), false), Fill::Statistic);
    }
    assert_eq!(fill(op, None, false), Fill::Node);
    assert_eq!(fill(ItemKind::Group(GroupId(1)), None, false), Fill::Group);
    assert_eq!(fill(ItemKind::Input(ValueId(0)), None, false), Fill::Input);
    assert_eq!(fill(ItemKind::Output(ValueId(0)), None, false), Fill::Output);
}

#[test]
fn outlines_set_off_the_selection() {
    let mut beside = HashSet::new();
    beside.insert(2);
    assert_eq!(outline(1, Some(1), &beside), Outline::Selected);
    assert_eq!(outline(2, Some(1), &beside), Outline::Adjacent);
    assert_eq!(outline(3, Some(1), &beside), Outline::Plain);
    assert_eq!(outline(2, Some(2), &beside), Outline::Selected);
}

#[test]
fn a_crowded_view_is_simplified() {
    assert!(!is_too_dense(MAX_DRAWN_NODES));
    assert!(is_too_dense(MAX_DRAWN_NODES + 1));
    let visible: Vec<usize> = (0..MAX_DRAWN_EDGES + 10).collect();
    let mut marked = HashSet::new();
    marked.insert(MAX_DRAWN_EDGES + 3);
    marked.insert(5);
    let drawn = drawn_edges(&visible, &marked);
    assert_eq!(drawn.len(), MAX_DRAWN_EDGES + 1);
    assert_eq!(drawn[MAX_DRAWN_EDGES], MAX_DRAWN_EDGES + 3);
}

#[test]
fn boxes_are_counted_by_cell() {
    let cells = vec![(0, 0), (1, 0), (1, 0), (2, 1), (9, 0), (0, 9)];
    let plot = density(&cells, 3, 2);
    assert_eq!(plot.counts, [1, 2, 0, 0, 0, 1]);
    assert_eq!(plot.peak, 2);
    assert_eq!(density(&Vec::new(), 2, 2).peak, 1);
}

#[test]
fn what_is_written_on_a_box() {
    let node = |subtitle: &str| LayoutNode {
        kind: ItemKind::Input(ValueId(0)),
        title: "input_ids".to_string(),
        subtitle: subtitle.to_string(),
        category: None,
    };
    assert!(matches!(
        box_text(&node("INT64[1]"), false, true, 9, 9),
        BoxText::Blank
    ));
    match box_text(&node("INT64[1]"), true, true, 5, 20) {
        BoxText::Both(title, subtitle) => {
            assert_eq!((title.as_str(), subtitle.as_str()), ("inpu…", "INT64[1]"))
        }
        _ => panic!("there is room for both"),
    }
    match box_text(&node(""), true, true, 20, 20) {
        BoxText::Title(title) => assert_eq!(title, "input_ids"),
        _ => panic!("there is no subtitle"),
    }
    let edge = LayoutEdge {
        from: 0,
        to: 1,
        route: vec![0, 1],
        label: "FLOAT[1]".to_string(),
    };
    assert_eq!(edge_text(&edge, true).as_deref(), Some("FLOAT[1]"));
    assert_eq!(edge_text(&edge, false), None);
}
