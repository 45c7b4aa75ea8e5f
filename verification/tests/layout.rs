use onnx_explorer::canvas::highlights;
use onnx_explorer::hierarchy::Hierarchy;
use onnx_explorer::layout::{layout_graph, ItemKind, Layout, LayoutNode, LayoutOptions, Scope};
use onnx_explorer::model::{Graph, Model, OpCategory, ValueId};
use onnx_explorer::ordering::order_cells;
use onnx_explorer::proto::{
    AttributeProto, DataType, GraphProto, ModelProto, NodeProto, TensorProto, ValueInfoProto,
};
use onnx_explorer::ranks::{assign_ranks, compact_ranks, sink_constant_fed, Link};
use onnx_explorer::routing::{adjacency, route_links, Cell};
use onnx_explorer::sorting::sort_pairs;

fn node(op_type: &str, name: &str, inputs: &[&str], outputs: &[&str]) -> NodeProto {
    NodeProto {
        op_type: Some(op_type.to_string()),
        name: Some(name.to_string()),
        input: inputs.iter().map(|s| s.to_string()).collect(),
        output: outputs.iter().map(|s| s.to_string()).collect(),
        ..Default::default()
    }
}

fn value_info(name: &str) -> ValueInfoProto {
    ValueInfoProto {
        name: Some(name.to_string()),
        ..Default::default()
    }
}

fn constant(name: &str, output: &str, dims: &[i64]) -> NodeProto {
    NodeProto {
        op_type: Some("Constant".to_string()),
        name: Some(name.to_string()),
        output: vec![output.to_string()],
        attribute: vec![AttributeProto {
            name: Some("value".to_string()),
            t: Some(TensorProto {
                name: Some(output.to_string()),
                dims: dims.to_vec(),
                data_type: Some(DataType(DataType::FLOAT)),
                ..Default::default()
            }),
            ..Default::default()
        }],
        ..Default::default()
    }
}

fn model(graph: GraphProto) -> Model {
    Model::from_proto(ModelProto {
        graph: Some(graph),
        ..Default::default()
    })
}

fn index_of(layout: &Layout, graph: &Graph, name: &str) -> usize {
    let node = graph
        .nodes()
        .iter()
        .find(|node| node.name == name)
        .expect("no such node");
    layout.node_index(node.id).expect("node was not drawn")
}

fn rank_of(layout: &Layout, graph: &Graph, name: &str) -> usize {
    layout.cells[index_of(layout, graph, name)].rank
}

#[test]
fn test_chain_is_laid_out_top_to_bottom() {
    let model = model(GraphProto {
        node: vec![
            node("Relu", "a", &["x"], &["h1"]),
            node("Conv", "b", &["h1"], &["h2"]),
            node("Sigmoid", "c", &["h2"], &["y"]),
        ],
        input: vec![value_info("x")],
        output: vec![value_info("y")],
        ..Default::default()
    });

    let layout = layout_graph(model.root(), None, &LayoutOptions::default());

    // One box per operator, plus the graph input and output.
    assert_eq!(layout.nodes.len(), 5);
    assert_eq!(layout.edges.len(), 4);

    // Each box sits strictly below the one that feeds it.
    for edge in &layout.edges {
        let from = layout.cells[edge.from].rank;
        let to = layout.cells[edge.to].rank;
        assert!(from < to, "edge should point downwards");
    }

    let input = layout
        .nodes
        .iter()
        .position(|n| matches!(n.kind, ItemKind::Input(_)))
        .unwrap();
    let output = layout
        .nodes
        .iter()
        .position(|n| matches!(n.kind, ItemKind::Output(_)))
        .unwrap();
    assert!(layout.cells[input].rank < layout.cells[output].rank);
}

#[test]
fn test_constant_fed_nodes_sink_to_their_consumer() {
    // A chain of four, with a pair of nodes working on a constant alone and
    // feeding the last of them. Ranked by longest path those two sit at the
    // top, a whole graph away from their only consumer.
    let model = model(GraphProto {
        node: vec![
            constant("k", "c", &[2]),
            node("Mul", "const_chain", &["c", "c"], &["m"]),
            node("Reshape", "fed_by_const", &["m"], &["r"]),
            node("Relu", "a", &["x"], &["h1"]),
            node("Relu", "b", &["h1"], &["h2"]),
            node("Relu", "c2", &["h2"], &["h3"]),
            node("Add", "last", &["h3", "r"], &["y"]),
        ],
        input: vec![value_info("x")],
        ..Default::default()
    });

    let layout = layout_graph(model.root(), None, &LayoutOptions::default());
    let head = rank_of(&layout, model.root(), "const_chain");
    let fed = rank_of(&layout, model.root(), "fed_by_const");
    let last = rank_of(&layout, model.root(), "last");
    let first = rank_of(&layout, model.root(), "a");

    assert!(
        fed > first,
        "constant-fed node should not stay in the top rank"
    );
    assert!(
        fed < last,
        "constant-fed node should stay above its consumer"
    );
    // The whole chain moves, not just the box nearest the consumer.
    assert!(
        head > first && head < fed,
        "the rest of the constant-fed chain should follow it down"
    );
}

#[test]
fn test_long_edges_are_routed_through_dummies() {
    // A skip connection from the first node to the last, spanning 3 ranks.
    let model = model(GraphProto {
        node: vec![
            node("Relu", "a", &["x"], &["h1"]),
            node("Conv", "b", &["h1"], &["h2"]),
            node("Conv", "c", &["h2"], &["h3"]),
            node("Add", "d", &["h3", "h1"], &["y"]),
        ],
        input: vec![value_info("x")],
        ..Default::default()
    });

    let layout = layout_graph(model.root(), None, &LayoutOptions::default());
    let is = |index: usize, name: &str| index == index_of(&layout, model.root(), name);
    let skip = layout
        .edges
        .iter()
        .find(|e| is(e.from, "a") && is(e.to, "d"))
        .expect("skip connection should be present");

    // Endpoints plus one bend per intervening rank.
    assert!(skip.route.len() > 2, "long edge should have bend points");
    assert!(skip
        .route
        .windows(2)
        .all(|w| layout.cells[w[0]].rank <= layout.cells[w[1]].rank));
    assert_eq!(layout.dummy_count, skip.route.len() - 2);
}

#[test]
fn test_constants_are_not_drawn() {
    let model = model(GraphProto {
        node: vec![
            constant("k", "k", &[4]),
            node("Mul", "mul", &["x", "k"], &["y"]),
        ],
        input: vec![value_info("x")],
        ..Default::default()
    });

    let layout = layout_graph(model.root(), None, &LayoutOptions::default());
    assert!(
        layout.nodes.iter().all(|n| n.title != "Constant"),
        "constant nodes should be folded away"
    );
    // The input and the Mul remain, connected by one edge.
    assert_eq!(layout.nodes.len(), 2);
    assert_eq!(layout.edges.len(), 1);
}

/// A small model named the way exporters name nodes: an embedding and two
/// layers, the first with attention and MLP submodules.
fn hierarchical_model() -> Model {
    model(GraphProto {
        node: vec![
            node("MatMul", "/embed/MatMul", &["x"], &["e0"]),
            node("Add", "/embed/Add", &["e0"], &["h0"]),
            node("MatMul", "/layers.0/attn/MatMul", &["h0"], &["h1"]),
            node("Add", "/layers.0/attn/Add", &["h1"], &["h2"]),
            node("Mul", "/layers.0/mlp/Mul", &["h2"], &["m0"]),
            node("Add", "/layers.0/mlp/Add", &["m0"], &["h3"]),
            node("MatMul", "/layers.1/attn/MatMul", &["h3"], &["l0"]),
            node("Add", "/layers.1/attn/Add", &["l0"], &["y"]),
        ],
        input: vec![value_info("x")],
        output: vec![value_info("y")],
        ..Default::default()
    })
}

fn titles(layout: &Layout, wanted: fn(&LayoutNode) -> bool) -> Vec<&str> {
    layout
        .nodes
        .iter()
        .filter(|n| wanted(n))
        .map(|n| n.title.as_str())
        .collect()
}

#[test]
fn test_top_level_draws_blocks_not_operators() {
    let model = hierarchical_model();
    let graph = model.root();
    let hierarchy = Hierarchy::build(graph).unwrap();
    let scope = Scope {
        hierarchy: &hierarchy,
        group: hierarchy.root(),
    };

    let layout = layout_graph(graph, Some(scope), &LayoutOptions::default());

    // The graph input and output, plus one box per top-level block.
    let groups = titles(&layout, |n| matches!(n.kind, ItemKind::Group(_)));
    assert_eq!(groups, ["embed", "layers.0", "layers.1"]);
    assert_eq!(layout.nodes.len(), 5);

    // No operator is drawn directly: they are all inside a block.
    assert!(!layout
        .nodes
        .iter()
        .any(|n| matches!(n.kind, ItemKind::Op(_))));

    // A block's box reports everything nested inside it.
    let layer0 = layout.nodes.iter().find(|n| n.title == "layers.0").unwrap();
    assert_eq!(layer0.subtitle, "4 operators");

    // x -> embed -> layers.0 -> layers.1 -> y. The two edges inside
    // layers.0 are not visible at this level.
    assert_eq!(layout.edges.len(), 4);
}

#[test]
fn test_blocks_aggregate_parallel_edges_into_one() {
    // Two separate values crossing the same block boundary.
    let model = model(GraphProto {
        node: vec![
            node("Identity", "/a/Identity", &["x"], &["x2"]),
            node("Split", "/a/Split", &["x2"], &["p", "q"]),
            node("Add", "/b/Add", &["p"], &["r"]),
            node("Mul", "/b/Mul", &["q"], &["s"]),
        ],
        input: vec![value_info("x")],
        ..Default::default()
    });
    let graph = model.root();
    let hierarchy = Hierarchy::build(graph).unwrap();
    let scope = Scope {
        hierarchy: &hierarchy,
        group: hierarchy.root(),
    };

    let layout = layout_graph(graph, Some(scope), &LayoutOptions::default());

    // `p` and `q` both run from block `a` to block `b`, but a bundle of
    // identical lines between the same two boxes says nothing extra.
    let a_to_b = layout
        .edges
        .iter()
        .filter(|e| layout.nodes[e.from].title == "a" && layout.nodes[e.to].title == "b")
        .count();
    assert_eq!(a_to_b, 1);
}

#[test]
fn test_entering_a_block_shows_its_contents_and_boundary() {
    let model = hierarchical_model();
    let graph = model.root();
    let hierarchy = Hierarchy::build(graph).unwrap();

    let root = hierarchy.group(hierarchy.root());
    let layer0 = *root
        .children
        .iter()
        .find(|id| hierarchy.group(**id).name == "layers.0")
        .unwrap();

    let layout = layout_graph(
        graph,
        Some(Scope {
            hierarchy: &hierarchy,
            group: layer0,
        }),
        &LayoutOptions::default(),
    );

    // Its two submodules, drawn as blocks.
    let groups = titles(&layout, |n| matches!(n.kind, ItemKind::Group(_)));
    assert_eq!(groups, ["attn", "mlp"]);

    // The value arriving from the embedding, and the one leaving for the
    // next layer, are drawn so the view shows what crosses the boundary.
    let inputs = titles(&layout, |n| matches!(n.kind, ItemKind::Input(_)));
    let outputs = titles(&layout, |n| matches!(n.kind, ItemKind::Output(_)));
    assert_eq!(inputs, ["h0"]);
    assert_eq!(outputs, ["h3"]);

    // h0 -> attn, attn -> mlp, mlp -> h3. The edge wholly inside attn is
    // not visible here.
    assert_eq!(layout.edges.len(), 3);
}

#[test]
fn test_deepest_block_shows_operators() {
    let model = hierarchical_model();
    let graph = model.root();
    let hierarchy = Hierarchy::build(graph).unwrap();
    let attn = hierarchy.group_of(graph.nodes()[2].id);

    let layout = layout_graph(
        graph,
        Some(Scope {
            hierarchy: &hierarchy,
            group: attn,
        }),
        &LayoutOptions::default(),
    );

    let ops = titles(&layout, |n| matches!(n.kind, ItemKind::Op(_)));
    assert_eq!(ops, ["MatMul", "Add"]);
    assert!(!layout
        .nodes
        .iter()
        .any(|n| matches!(n.kind, ItemKind::Group(_))));
}

#[test]
fn test_compact_ranks_closes_gaps() {
    let mut ranks = vec![0, 3, 3, 5];
    compact_ranks(&mut ranks);
    assert_eq!(ranks, [0, 1, 1, 2]);

    // Already contiguous ranks are left alone.
    let mut ranks = vec![2, 0, 1, 2];
    compact_ranks(&mut ranks);
    assert_eq!(ranks, [2, 0, 1, 2]);

    let mut ranks: Vec<usize> = Vec::new();
    compact_ranks(&mut ranks);
    assert!(ranks.is_empty());
}

#[test]
fn test_empty_graph() {
    let layout = layout_graph(
        model(GraphProto::default()).root(),
        None,
        &LayoutOptions::default(),
    );
    assert!(layout.nodes.is_empty());
    assert!(layout.edges.is_empty());
}

fn links(pairs: &[(usize, usize)]) -> Vec<Link> {
    pairs
        .iter()
        .map(|&(from, to)| Link {
            from,
            to,
            value: ValueId(0),
        })
        .collect()
}

#[test]
fn boxes_rank_by_their_longest_path() {
    let links = links(&[(0, 1), (1, 2), (0, 2), (3, 2)]);
    assert_eq!(assign_ranks(4, &links), [0, 1, 2, 0]);
}

#[test]
fn a_cycle_is_broken() {
    let links = links(&[(0, 1), (1, 0), (1, 2)]);
    let ranks = assign_ranks(3, &links);
    assert_eq!(ranks, [0, 1, 2]);
}

#[test]
fn constant_fed_boxes_move_down_and_gaps_close() {
    // 0 -> 1 -> 2 -> 3 and 4 -> 3, where 4 works on constants alone.
    let links = links(&[(0, 1), (1, 2), (2, 3), (4, 3)]);
    let mut ranks = assign_ranks(5, &links);
    assert_eq!(ranks, [0, 1, 2, 3, 0]);
    sink_constant_fed(&mut ranks, &links, &vec![false, false, false, false, true]);
    assert_eq!(ranks, [0, 1, 2, 3, 2]);
    for link in &links {
        assert!(ranks[link.from] < ranks[link.to]);
    }
}

#[test]
fn an_edge_that_is_too_long_is_drawn_directly() {
    let links = links(&[(0, 1), (1, 2), (2, 3), (0, 3)]);
    let ranks = assign_ranks(4, &links);
    let (cells, routes) = route_links(&ranks, &links, 32);
    assert_eq!(routes[3], [0, 4, 5, 3]);
    assert_eq!(cells.len(), 6);
    let along: Vec<usize> = routes[3].iter().map(|c| cells[*c].rank).collect();
    assert_eq!(along, [0, 1, 2, 3]);

    let (cells, routes) = route_links(&ranks, &links, 2);
    assert_eq!(routes[3], [0, 3]);
    assert_eq!(cells.len(), 4);
}

#[test]
fn ordering_untangles_a_crossing() {
    // Two boxes above two others, joined crosswise.
    let cells = vec![
        Cell {
            rank: 0,
            item: Some(0),
        },
        Cell {
            rank: 0,
            item: Some(1),
        },
        Cell {
            rank: 1,
            item: Some(2),
        },
        Cell {
            rank: 1,
            item: Some(3),
        },
    ];
    let routes = vec![vec![0, 3], vec![1, 2]];
    let (preds, succs) = adjacency(&cells, &routes);
    assert_eq!(preds, [vec![], vec![], vec![1], vec![0]]);
    assert_eq!(succs, [vec![3], vec![2], vec![], vec![]]);
    let (members, orders) = order_cells(&cells, &preds, &succs, 8);
    // Every cell stays in its rank, and no two lines cross any more.
    for (rank, row) in members.iter().enumerate() {
        for (at, cell) in row.iter().enumerate() {
            assert_eq!(cells[*cell].rank, rank);
            assert_eq!(orders[*cell], at);
        }
    }
    assert_eq!(orders[0] < orders[1], orders[3] < orders[2]);
}

#[test]
fn pairs_are_sorted_by_key_and_then_place() {
    let items = vec![(5, 0), (1, 1), (5, 2), (1, 3), (0, 4)];
    let mut expected = items.clone();
    expected.sort();
    assert_eq!(sort_pairs(&items), expected);
    assert!(sort_pairs(&Vec::new()).is_empty());
}

#[test]
fn a_fan_out_shares_a_rank() {
    let mut nodes = vec![node("Relu", "root", &["x"], &["h"])];
    for i in 0..24 {
        nodes.push(node(
            "Mul",
            &format!("leaf{i}"),
            &["h"],
            &[&format!("o{i}")],
        ));
    }
    let model = model(GraphProto {
        node: nodes,
        input: vec![value_info("x")],
        ..Default::default()
    });
    let layout = layout_graph(model.root(), None, &LayoutOptions::default());
    let mut places: Vec<usize> = (0..24)
        .map(|i| {
            let index = index_of(&layout, model.root(), &format!("leaf{i}"));
            assert_eq!(layout.cells[index].rank, 2);
            layout.orders[index]
        })
        .collect();
    places.sort();
    assert_eq!(places, (0..24).collect::<Vec<usize>>());
    assert_eq!(layout.rank_count, 3);
}

#[test]
fn a_drawing_opens_at_its_first_input() {
    let model = model(GraphProto {
        node: vec![
            node("Relu", "a", &["x"], &["h"]),
            node("Neg", "b", &["h"], &["y"]),
        ],
        input: vec![value_info("x")],
        ..Default::default()
    });
    let layout = layout_graph(model.root(), None, &LayoutOptions::default());
    let entry = layout.entry_node().unwrap();
    assert!(matches!(layout.nodes[entry].kind, ItemKind::Input(_)));

    // Without an input, the box nearest to the top.
    let model = self::model(GraphProto {
        node: vec![
            node("Neg", "b", &["h"], &["y"]),
            node("RandomNormal", "a", &[], &["h"]),
        ],
        ..Default::default()
    });
    let layout = layout_graph(model.root(), None, &LayoutOptions::default());
    let entry = layout.entry_node().unwrap();
    assert_eq!(layout.nodes[entry].title, "RandomNormal");
}

#[test]
fn a_selected_box_sets_off_its_neighbours() {
    let model = model(GraphProto {
        node: vec![
            node("Relu", "a", &["x"], &["h"]),
            node("Neg", "b", &["h"], &["y"]),
            node("Abs", "c", &["y"], &["z"]),
        ],
        input: vec![value_info("x")],
        ..Default::default()
    });
    let layout = layout_graph(model.root(), None, &LayoutOptions::default());
    let b = index_of(&layout, model.root(), "b");
    let (edges, boxes) = highlights(&layout, Some(b));
    let touching: Vec<usize> = (0..layout.edges.len())
        .filter(|e| layout.edges[*e].from == b || layout.edges[*e].to == b)
        .collect();
    assert_eq!(edges.len(), touching.len());
    assert!(touching.iter().all(|e| edges.contains(e)));
    let mut beside: Vec<usize> = boxes.into_iter().collect();
    beside.sort();
    let mut expected = vec![
        index_of(&layout, model.root(), "a"),
        index_of(&layout, model.root(), "c"),
    ];
    expected.sort();
    assert_eq!(beside, expected);
    let (edges, boxes) = highlights(&layout, None);
    assert!(edges.is_empty() && boxes.is_empty());
}

#[test]
fn operators_are_sorted_by_what_they_do() {
    assert_eq!(OpCategory::of("MatMul"), OpCategory::Compute);
    assert_eq!(OpCategory::of("Relu"), OpCategory::Unary);
    assert_eq!(OpCategory::of("Add"), OpCategory::Binary);
    assert_eq!(OpCategory::of("MaxPool"), OpCategory::Pooling);
    assert_eq!(OpCategory::of("ReduceSum"), OpCategory::Reduction);
    assert_eq!(OpCategory::of("BatchNormalization"), OpCategory::Normalization);
    assert_eq!(OpCategory::of("Transpose"), OpCategory::DataMovement);
    assert_eq!(OpCategory::of("NoSuchOperator"), OpCategory::Other);
}
