use onnx_explorer::hierarchy::{module_segments, GroupId, Hierarchy, Placement};
use onnx_explorer::model::Model;
use onnx_explorer::proto::{GraphProto, ModelProto, NodeProto};

fn node(op_type: &str, name: &str) -> NodeProto {
    NodeProto {
        op_type: Some(op_type.to_string()),
        name: if name.is_empty() {
            None
        } else {
            Some(name.to_string())
        },
        ..Default::default()
    }
}

fn model(nodes: Vec<NodeProto>) -> Model {
    Model::from_proto(ModelProto {
        graph: Some(GraphProto {
            node: nodes,
            ..Default::default()
        }),
        ..Default::default()
    })
}

#[test]
fn test_module_path_drops_the_operator_segment() {
    assert_eq!(
        module_segments("/layers.1/attn/MatMul"),
        ["layers.1", "attn"]
    );
    // A name with no path describes a node at the top level.
    assert_eq!(module_segments("/Shape"), Vec::<String>::new());
    assert_eq!(module_segments("Relu_0"), Vec::<String>::new());
    assert_eq!(module_segments(""), Vec::<String>::new());
}

#[test]
fn test_builds_tree_from_names() {
    let model = model(vec![
        node("Shape", "/Shape"),
        node("MatMul", "/layers.0/attn/MatMul"),
        node("Add", "/layers.0/attn/Add"),
        node("Mul", "/layers.0/mlp/Mul"),
        node("MatMul", "/layers.1/attn/MatMul"),
    ]);
    let hierarchy = Hierarchy::build(model.root()).expect("names are hierarchical");

    let root = hierarchy.group(hierarchy.root());
    // `/Shape` belongs to the root; the rest are nested.
    assert_eq!(root.nodes.len(), 1);
    assert_eq!(root.total_nodes, 5);
    assert_eq!(root.children.len(), 2);

    let layers0 = hierarchy.group(root.children[0]);
    assert_eq!(layers0.name, "layers.0");
    assert_eq!(layers0.path, "/layers.0");
    assert_eq!(layers0.total_nodes, 3);
    // Its own nodes all sit in children, not directly in it.
    assert!(layers0.nodes.is_empty());
    assert_eq!(layers0.children.len(), 2);

    let attn = hierarchy.group(layers0.children[0]);
    assert_eq!(attn.path, "/layers.0/attn");
    assert_eq!(attn.nodes.len(), 2);
    assert_eq!(attn.depth, 2);
    // Nothing nested inside, so entering it shows operators.
    assert!(attn.children.is_empty());
}

#[test]
fn test_placement_relative_to_a_scope() {
    let model = model(vec![
        node("Shape", "/Shape"),
        node("MatMul", "/layers.0/attn/MatMul"),
        node("Mul", "/layers.1/mlp/Mul"),
    ]);
    let graph = model.root();
    let hierarchy = Hierarchy::build(graph).unwrap();
    let root = hierarchy.root();

    let top = graph.nodes()[0].id;
    let attn_node = graph.nodes()[1].id;
    let other_layer = graph.nodes()[2].id;

    // From the root, `/Shape` is drawn directly and the rest are folded
    // into their top-level blocks.
    assert!(matches!(hierarchy.placement(root, top), Placement::Direct));
    let layers0 = hierarchy.group(root).children[0];
    assert!(matches!(
        hierarchy.placement(root, attn_node),
        Placement::Within(id) if id == layers0
    ));

    // From inside `/layers.0`, a node in `/layers.1` is out of scope.
    assert!(matches!(
        hierarchy.placement(layers0, other_layer),
        Placement::Outside
    ));
    // And one level further down it is drawn directly.
    let attn = hierarchy.group(layers0).children[0];
    assert!(matches!(
        hierarchy.placement(attn, attn_node),
        Placement::Direct
    ));
}

#[test]
fn test_rejects_models_without_hierarchical_names() {
    // Names with no path at all.
    let flat = model(vec![node("Relu", "relu"), node("Conv", "conv")]);
    assert!(Hierarchy::build(flat.root()).is_none());

    // Unnamed nodes, which are given synthesized names.
    let unnamed = model(vec![node("Relu", ""), node("Conv", "")]);
    assert!(Hierarchy::build(unnamed.root()).is_none());

    // Too few path-like names to be meaningful.
    let mut nodes = vec![node("MatMul", "/block/MatMul")];
    for i in 0..20 {
        nodes.push(node("Relu", &format!("relu_{i}")));
    }
    assert!(Hierarchy::build(model(nodes).root()).is_none());
}

#[test]
fn test_path_to_walks_back_to_the_root() {
    let model = model(vec![
        node("MatMul", "/layers.0/attn/MatMul"),
        node("Add", "/layers.0/attn/Add"),
    ]);
    let hierarchy = Hierarchy::build(model.root()).unwrap();
    let attn = hierarchy.group_of(model.root().nodes()[0].id);

    let path = hierarchy.path_to(attn);
    let names: Vec<&str> = path
        .iter()
        .map(|id| hierarchy.group(*id).name.as_str())
        .collect();
    assert_eq!(names, ["", "layers.0", "attn"]);
}

#[test]
fn three_paths_in_ten_names_are_enough() {
    let build = |paths: usize, flat: usize| {
        let mut nodes = Vec::new();
        for i in 0..paths {
            nodes.push(node("MatMul", &format!("/block/MatMul_{i}")));
        }
        for i in 0..flat {
            nodes.push(node("Relu", &format!("relu_{i}")));
        }
        let model = model(nodes);
        assert!(Hierarchy::fits(model.root()));
        Hierarchy::build(model.root()).is_some()
    };
    assert!(build(3, 7));
    assert!(!build(3, 8));
    assert!(build(1, 0));
}

#[test]
fn groups_and_nodes_know_each_other() {
    let model = model(vec![
        node("A", "/x/y/A"),
        node("B", "/x/B"),
        node("C", "C"),
        node("D", "/z/D"),
    ]);
    let hierarchy = Hierarchy::build(model.root()).unwrap();
    assert_eq!(hierarchy.group_count(), 4);
    for k in 0..hierarchy.group_count() {
        let id = GroupId(k as u32);
        let group = hierarchy.group(id);
        for child in &group.children {
            assert!(child.0 > id.0);
            assert_eq!(hierarchy.group(*child).parent, Some(id));
        }
        for node in &group.nodes {
            assert_eq!(hierarchy.group_of(*node), id);
        }
        let below: usize = group
            .children
            .iter()
            .map(|child| hierarchy.group(*child).total_nodes)
            .sum();
        assert_eq!(group.total_nodes, group.nodes.len() + below);
    }
}
