//! Graphs and the model that holds them.

use crate::chars;
use crate::model::{GraphId, Node, NodeId, NodeView, Value, ValueId, ValueKind, ValueView};
use vstd::hash_map::StringHashMap;
use vstd::prelude::*;

verus! {

/// A single ONNX graph: the model's main graph, or the body of a control-flow
/// operator.
pub struct Graph {
    pub id: GraphId,
    /// Enclosing graph, for subgraphs.
    pub parent: Option<GraphId>,
    /// Human-readable label, eg. `main` or `If.then_branch`.
    pub label: String,
    pub nodes: Vec<Node>,
    pub values: Vec<Value>,
    pub value_by_name: StringHashMap<ValueId>,
    pub inputs: Vec<ValueId>,
    pub outputs: Vec<ValueId>,
}

#[verifier::ext_equal]
pub struct GraphView {
    pub id: GraphId,
    pub parent: Option<GraphId>,
    pub label: Seq<char>,
    pub nodes: Seq<NodeView>,
    pub values: Seq<ValueView>,
    pub inputs: Seq<ValueId>,
    pub outputs: Seq<ValueId>,
}

impl View for Graph {
    type V = GraphView;

    open spec fn view(&self) -> GraphView {
        GraphView {
            id: self.id,
            parent: self.parent,
            label: self.label@,
            nodes: chars::views(self.nodes@),
            values: chars::views(self.values@),
            inputs: self.inputs@,
            outputs: self.outputs@,
        }
    }
}

/// Whether `index` says where each of `names` stands, and nothing else.
pub open spec fn indexes(index: Map<Seq<char>, ValueId>, names: Seq<Seq<char>>) -> bool {
    &&& forall|i: int|
        0 <= i < names.len() ==> #[trigger] index.contains_key(names[i]) && index[names[i]]
            == ValueId(i as u32)
    &&& forall|name: Seq<char>| #[trigger]
        index.contains_key(name) ==> index[name].0 < names.len() && names[index[name].0 as int]
            == name
}

impl GraphView {
    /// The names of the graph's values, in order.
    pub open spec fn names(self) -> Seq<Seq<char>> {
        Seq::new(self.values.len(), |i: int| self.values[i].name)
    }

    /// Whether an ID names a value of the graph.
    pub open spec fn has_value(self, id: ValueId) -> bool {
        id.0 < self.values.len()
    }

    /// Whether the graph defines a value with this name, rather than reading it
    /// from an enclosing graph too.
    pub open spec fn defines(self, name: Seq<char>) -> bool {
        self.names().contains(name) && self.values[self.names().index_of(name)].kind
            != ValueKind::OuterScope
    }

    /// Whether an ID names a node of the graph.
    pub open spec fn has_node(self, id: NodeId) -> bool {
        id.0 < self.nodes.len()
    }

    /// Whether every ID in the graph stands for what it names: nodes and values
    /// are numbered in order, and nothing refers to one that is not there.
    pub open spec fn wf(self) -> bool {
        &&& self.nodes.len() <= u32::MAX
        &&& self.values.len() <= u32::MAX
        &&& self.names().no_duplicates()
        &&& forall|i: int| 0 <= i < self.nodes.len() ==> self.node_wf(#[trigger] self.nodes[i], i)
        &&& forall|i: int|
            0 <= i < self.values.len() ==> self.value_wf(#[trigger] self.values[i], i)
        &&& forall|i: int| 0 <= i < self.inputs.len() ==> self.has_value(#[trigger] self.inputs[i])
        &&& forall|i: int|
            0 <= i < self.outputs.len() ==> self.has_value(#[trigger] self.outputs[i])
    }

    pub open spec fn node_wf(self, node: NodeView, i: int) -> bool {
        &&& node.id == NodeId(i as u32)
        &&& forall|j: int|
            0 <= j < node.inputs.len() ==> ((#[trigger] node.inputs[j]) is Some ==> self.has_value(
                node.inputs[j]->0,
            ))
        &&& forall|j: int|
            0 <= j < node.outputs.len() ==> ((#[trigger] node.outputs[j]) is Some
                ==> self.has_value(node.outputs[j]->0))
    }

    pub open spec fn value_wf(self, value: ValueView, i: int) -> bool {
        &&& value.id == ValueId(i as u32)
        &&& value.producer is Some ==> self.has_node(value.producer->0)
        &&& forall|j: int|
            0 <= j < value.consumers.len() ==> self.has_node(#[trigger] value.consumers[j])
    }

    /// Whether node `n` reads value `v`.
    pub open spec fn reads(self, n: int, v: int) -> bool {
        self.nodes[n].inputs.contains(Some(ValueId(v as u32)))
    }

    /// Whether node `n` writes value `v`.
    pub open spec fn writes(self, n: int, v: int) -> bool {
        self.nodes[n].outputs.contains(Some(ValueId(v as u32)))
    }

    /// Whether each value knows the nodes that read it, each of them once, and
    /// the last of the nodes that write it.
    pub open spec fn connected(self) -> bool {
        &&& forall|v: int, n: int|
            0 <= v < self.values.len() && 0 <= n < self.nodes.len() ==> (#[trigger] self.reads(n, v)
                <==> self.values[v].consumers.contains(NodeId(n as u32)))
        &&& forall|v: int|
            0 <= v < self.values.len() ==> (#[trigger] self.values[v]).consumers.no_duplicates()
        &&& forall|v: int|
            #![trigger self.values[v].producer]
            0 <= v < self.values.len() ==> match self.values[v].producer {
                Some(p) => self.writes(p.0 as int, v) && forall|n: int|
                    p.0 < n < self.nodes.len() ==> !self.writes(n, v),
                None => forall|n: int| 0 <= n < self.nodes.len() ==> !self.writes(n, v),
            }
    }
}

impl Graph {
    /// Whether values can be found by their names.
    pub open spec fn indexed(self) -> bool {
        indexes(self.value_by_name@, self@.names())
    }

    /// Whether the graph is well formed and values can be found by name.
    pub open spec fn wf(self) -> bool {
        self@.wf() && self.indexed()
    }
}

/// An entry of the model's `opset_import` field.
#[derive(Clone, Debug)]
pub struct OpsetImport {
    /// Operator domain. The empty string is the default ONNX domain.
    pub domain: String,
    pub version: Option<i64>,
}

pub struct OpsetView {
    pub domain: Seq<char>,
    pub version: Option<i64>,
}

impl View for OpsetImport {
    type V = OpsetView;

    open spec fn view(&self) -> OpsetView {
        OpsetView { domain: self.domain@, version: self.version }
    }
}

impl OpsetView {
    /// The domain, the default one spelled out.
    pub open spec fn display_domain(self) -> Seq<char> {
        if self.domain.len() == 0 {
            "ai.onnx"@
        } else {
            self.domain
        }
    }
}

impl OpsetImport {
    /// Domain name for display. The default domain is reported as `ai.onnx`.
    pub fn display_domain(&self) -> (domain: &str)
        ensures
            domain@ == self@.display_domain(),
    {
        if self.domain.as_str().is_empty() {
            "ai.onnx"
        } else {
            self.domain.as_str()
        }
    }
}

/// A parsed ONNX model.
pub struct Model {
    pub ir_version: Option<i64>,
    pub producer_name: Option<String>,
    pub producer_version: Option<String>,
    pub opset_imports: Vec<OpsetImport>,
    pub metadata: Vec<(String, String)>,
    pub graphs: Vec<Graph>,
    pub root: GraphId,
}

#[verifier::ext_equal]
pub struct ModelView {
    pub ir_version: Option<i64>,
    pub producer_name: Option<Seq<char>>,
    pub producer_version: Option<Seq<char>>,
    pub opset_imports: Seq<OpsetView>,
    pub metadata: Seq<(Seq<char>, Seq<char>)>,
    pub graphs: Seq<GraphView>,
    pub root: GraphId,
}

impl View for Model {
    type V = ModelView;

    open spec fn view(&self) -> ModelView {
        ModelView {
            ir_version: self.ir_version,
            producer_name: chars::opt_view(self.producer_name),
            producer_version: chars::opt_view(self.producer_version),
            opset_imports: chars::views(self.opset_imports@),
            metadata: crate::model::pair_views(self.metadata@),
            graphs: chars::views(self.graphs@),
            root: self.root,
        }
    }
}

/// Whether every graph but the first stands behind the graph that encloses it.
pub open spec fn parents_precede(graphs: Seq<GraphView>) -> bool {
    forall|i: int|
        0 <= i < graphs.len() ==> match (#[trigger] graphs[i]).parent {
            Some(parent) => parent.0 < i,
            None => i == 0,
        }
}

/// Whether attribute `j` of node `n` is the body `sub`.
pub open spec fn has_body(graph: GraphView, n: int, j: int, sub: GraphId) -> bool {
    &&& 0 <= n < graph.nodes.len()
    &&& 0 <= j < graph.nodes[n].attrs.len()
    &&& graph.nodes[n].attrs[j].value == crate::model::AttrValueView::Graph(sub)
}

/// Whether the bodies of the nodes are found by their IDs in an arena that
/// starts at `base`, and know the graph that encloses them.
pub open spec fn bodies_follow(graphs: Seq<GraphView>, base: nat) -> bool {
    forall|k: int, n: int, j: int, sub: GraphId|
        0 <= k < graphs.len() && #[trigger] has_body(graphs[k], n, j, sub) ==> {
            &&& base <= sub.0 < base + graphs.len()
            &&& graphs[sub.0 - base].parent == Some(GraphId((base + k) as u32))
        }
}

/// Whether a link to an enclosing graph leads to a value with the same name that
/// is defined there.
pub open spec fn link_wf(graphs: Seq<GraphView>, i: int, value: ValueView) -> bool {
    value.outer is Some ==> {
        let outer = value.outer->0;
        &&& value.kind == ValueKind::OuterScope
        &&& outer.graph.0 < i
        &&& graphs[outer.graph.0 as int].has_value(outer.value)
        &&& graphs[outer.graph.0 as int].values[outer.value.0 as int].name == value.name
        &&& graphs[outer.graph.0 as int].values[outer.value.0 as int].kind
            != ValueKind::OuterScope
    }
}

impl ModelView {
    /// Whether an ID names a graph of the model.
    pub open spec fn has_graph(self, id: GraphId) -> bool {
        id.0 < self.graphs.len()
    }

    /// Whether every ID in the model stands for what it names.
    pub open spec fn wf(self) -> bool {
        &&& 0 < self.graphs.len() <= u32::MAX
        &&& self.root == GraphId(0)
        &&& parents_precede(self.graphs)
        &&& bodies_follow(self.graphs, 0)
        &&& forall|i: int|
            0 <= i < self.graphs.len() ==> (#[trigger] self.graphs[i]).wf() && self.graphs[i].id
                == GraphId(i as u32)
        &&& forall|i: int, v: int|
            #![trigger self.graphs[i].values[v]]
            0 <= i < self.graphs.len() && 0 <= v < self.graphs[i].values.len() ==> link_wf(
                self.graphs,
                i,
                self.graphs[i].values[v],
            )
    }
}

impl Model {
    pub open spec fn wf(self) -> bool {
        &&& self@.wf()
        &&& forall|i: int| 0 <= i < self.graphs@.len() ==> (#[trigger] self.graphs@[i]).wf()
    }
}

} // verus!
