//! Building a [`Model`] from the messages of an ONNX file.

use crate::chars;
use crate::graph::{self, Graph, GraphView, Model, ModelView, OpsetImport, OpsetView};
use crate::mentions;
use crate::model::{
    contains_value, AttrValue, AttrValueView, Attribute, AttributeView, GraphId, Node, NodeId,
    NodeView, Value, ValueId, ValueKind, ValueRef, ValueView,
};
use crate::proto::{
    AttributeProto, AttributeType, GraphProto, ModelProto, NodeProto, OperatorSetIdProto,
    StringStringEntryProto,
};
use crate::text::{self, decimal_text};
use crate::wiring;
use vstd::prelude::*;
use vstd::string::*;

verus! {

/// What a value is, once the graph's nodes and declarations are known. An
/// initializer takes precedence over an input declaration: ONNX allows a value
/// to be both, which means an input with a default.
pub open spec fn kind_of(
    v: ValueView,
    nodes: Seq<NodeView>,
    inputs: Seq<ValueId>,
    outputs: Seq<ValueId>,
    is_subgraph: bool,
) -> ValueKind {
    if v.tensor is Some {
        ValueKind::Initializer
    } else if v.producer is Some && nodes[(v.producer->0).0 as int].is_constant() {
        ValueKind::Constant
    } else if inputs.contains(v.id) {
        ValueKind::Input
    } else if outputs.contains(v.id) {
        ValueKind::Output
    } else if v.producer is None && is_subgraph {
        ValueKind::OuterScope
    } else {
        ValueKind::Intermediate
    }
}

/// The number of the attribute's declared type, zero where there is none.
pub open spec fn declared_type(attr: AttributeProto) -> i32 {
    match attr.attr_type {
        Some(ty) => ty.0,
        None => 0,
    }
}

/// Whether the declared type says which field holds the value, and it is not
/// the subgraph.
pub open spec fn declared_scalar_or_list(attr: AttributeProto) -> bool {
    let ty = declared_type(attr);
    ||| ty == AttributeType::FLOAT && attr.f is Some
    ||| ty == AttributeType::INT && attr.i is Some
    ||| ty == AttributeType::STRING && attr.s is Some
    ||| ty == AttributeType::FLOATS
    ||| ty == AttributeType::INTS
}

/// Whether the attribute's value is its subgraph.
pub open spec fn holds_graph(attr: AttributeProto) -> bool {
    attr.g is Some && !declared_scalar_or_list(attr)
}

/// The value of an attribute. The declared type decides where it can, since it
/// disambiguates empty lists; else the first field that is populated does, as
/// some exporters omit the type.
pub open spec fn attr_value_model(attr: AttributeProto, subgraph: GraphId) -> AttrValueView {
    let ty = declared_type(attr);
    if ty == AttributeType::FLOAT && attr.f is Some {
        AttrValueView::Float(attr.f->0)
    } else if ty == AttributeType::INT && attr.i is Some {
        AttrValueView::Int(attr.i->0)
    } else if ty == AttributeType::STRING && attr.s is Some {
        AttrValueView::String(attr.s->0@)
    } else if ty == AttributeType::FLOATS {
        AttrValueView::Floats(attr.floats@)
    } else if ty == AttributeType::INTS {
        AttrValueView::Ints(attr.ints@)
    } else if attr.g is Some {
        AttrValueView::Graph(subgraph)
    } else if attr.t is Some {
        AttrValueView::Tensor(mentions::tensor_model(attr.t->0))
    } else if attr.f is Some {
        AttrValueView::Float(attr.f->0)
    } else if attr.i is Some {
        AttrValueView::Int(attr.i->0)
    } else if attr.s is Some {
        AttrValueView::String(attr.s->0@)
    } else if attr.floats@.len() > 0 {
        AttrValueView::Floats(attr.floats@)
    } else if attr.ints@.len() > 0 {
        AttrValueView::Ints(attr.ints@)
    } else if attr.strings@.len() > 0 {
        AttrValueView::Strings(chars::views(attr.strings@))
    } else {
        AttrValueView::Unsupported(ty)
    }
}

pub open spec fn attr_model(attr: AttributeProto, subgraph: GraphId) -> AttributeView {
    AttributeView {
        name: crate::model::text_or_empty(attr.name),
        value: attr_value_model(attr, subgraph),
    }
}

/// The number of graphs in `p`, counting itself and all those nested in it.
pub open spec fn graph_size(p: GraphProto) -> nat
    decreases p, 2nat, 0nat,
{
    1 + nodes_size(p, p.node@.len())
}

/// The number of graphs nested in the first `n` nodes of `p`.
pub open spec fn nodes_size(p: GraphProto, n: nat) -> nat
    decreases p, 1nat, n,
{
    if n == 0 || n > p.node@.len() {
        0
    } else {
        nodes_size(p, (n - 1) as nat) + attrs_size(
            p,
            (n - 1) as nat,
            p.node@[n - 1].attribute@.len(),
        )
    }
}

/// The number of graphs nested in the first `m` attributes of node `i` of `p`.
pub open spec fn attrs_size(p: GraphProto, i: nat, m: nat) -> nat
    decreases p, 0nat, m,
{
    if m == 0 || i >= p.node@.len() || m > p.node@[i as int].attribute@.len() {
        0
    } else {
        let attr = p.node@[i as int].attribute@[m - 1];
        attrs_size(p, i, (m - 1) as nat) + if holds_graph(attr) {
            graph_size(attr.g->0)
        } else {
            0
        }
    }
}

/// Where the subgraph of attribute `j` of node `i` stands in the arena, for a
/// graph that stands at `id`. Graphs follow the one they are nested in, in the
/// order of their nodes and attributes.
pub open spec fn subgraph_place(p: GraphProto, id: nat, i: nat, j: nat) -> nat {
    id + 1 + nodes_size(p, i) + attrs_size(p, i, j)
}

/// The op type of a node, where the model gives none, too.
pub open spec fn op_type_model(node: NodeProto) -> Seq<char> {
    match node.op_type {
        Some(op_type) => op_type@,
        None => "Unknown"@,
    }
}

/// Whether the model names the node.
pub open spec fn is_named(node: NodeProto) -> bool {
    node.name is Some && node.name->0@.len() > 0
}

/// Node `i` of a graph that stands at `id` and has values with these names.
pub open spec fn node_model(p: GraphProto, id: nat, i: nat, names: Seq<Seq<char>>) -> NodeView {
    let node = p.node@[i as int];
    NodeView {
        id: NodeId(i as u32),
        name: if is_named(node) {
            node.name->0@
        } else {
            op_type_model(node) + "_"@ + text::decimal(i)
        },
        named: is_named(node),
        op_type: op_type_model(node),
        domain: crate::model::text_or_empty(node.domain),
        inputs: mentions::position_ids(names, node.input@),
        outputs: mentions::position_ids(names, node.output@),
        attrs: Seq::new(
            node.attribute@.len(),
            |j: int|
                attr_model(
                    node.attribute@[j],
                    GraphId(subgraph_place(p, id, i, j as nat) as u32),
                ),
        ),
    }
}

/// The graph that a message describes, standing at `id` in the arena, with the
/// values that it reads from enclosing graphs not yet linked to them.
pub open spec fn graph_model(
    p: GraphProto,
    id: nat,
    parent: Option<GraphId>,
    label: Seq<char>,
) -> GraphView {
    let ms = mentions::mentions(p);
    let names = mentions::names_of(ms);
    let nodes = Seq::new(p.node@.len(), |i: int| node_model(p, id, i as nat, names));
    let inputs = mentions::declared_ids(names, p.input@, p.input@.len());
    let outputs = mentions::declared_ids(names, p.output@, p.output@.len());
    GraphView {
        id: GraphId(id as u32),
        parent,
        label,
        nodes,
        values: Seq::new(
            names.len(),
            |i: int|
                ValueView {
                    kind: kind_of(mentions::draft(ms, i), nodes, inputs, outputs, parent is Some),
                    ..mentions::draft(ms, i)
                },
        ),
        inputs,
        outputs,
    }
}

/// The label of a subgraph: the operator that runs it and what it is to it.
pub open spec fn subgraph_label(node: NodeProto, attr: AttributeProto) -> Seq<char> {
    op_type_model(node) + "."@ + crate::model::text_or_empty(attr.name)
}

/// The graphs of the arena from `id` on that `p` gives rise to: itself and then
/// those nested in it.
pub open spec fn arena(
    p: GraphProto,
    id: nat,
    parent: Option<GraphId>,
    label: Seq<char>,
) -> Seq<GraphView>
    decreases p, 2nat, 0nat,
{
    seq![graph_model(p, id, parent, label)] + nodes_arena(p, id, p.node@.len())
}

/// The graphs nested in the first `n` nodes of `p`, which stands at `id`.
pub open spec fn nodes_arena(p: GraphProto, id: nat, n: nat) -> Seq<GraphView>
    decreases p, 1nat, n,
{
    if n == 0 || n > p.node@.len() {
        Seq::<GraphView>::empty()
    } else {
        nodes_arena(p, id, (n - 1) as nat) + attrs_arena(
            p,
            id,
            (n - 1) as nat,
            p.node@[n - 1].attribute@.len(),
        )
    }
}

/// The graphs nested in the first `m` attributes of node `i` of `p`, which
/// stands at `id`.
pub open spec fn attrs_arena(p: GraphProto, id: nat, i: nat, m: nat) -> Seq<GraphView>
    decreases p, 0nat, m,
{
    if m == 0 || i >= p.node@.len() || m > p.node@[i as int].attribute@.len() {
        Seq::<GraphView>::empty()
    } else {
        let node = p.node@[i as int];
        let attr = node.attribute@[m - 1];
        attrs_arena(p, id, i, (m - 1) as nat) + if holds_graph(attr) {
            arena(
                attr.g->0,
                subgraph_place(p, id, i, (m - 1) as nat),
                Some(GraphId(id as u32)),
                subgraph_label(node, attr),
            )
        } else {
            Seq::<GraphView>::empty()
        }
    }
}

/// Whether values and nodes can be numbered in 32 bits, in `p` and in every
/// graph nested in it.
pub open spec fn numberable(p: GraphProto) -> bool
    decreases p, 2nat, 0nat,
{
    &&& mentions::mentions(p).len() <= u32::MAX
    &&& p.node@.len() <= u32::MAX
    &&& nodes_numberable(p, p.node@.len())
}

pub open spec fn nodes_numberable(p: GraphProto, n: nat) -> bool
    decreases p, 1nat, n,
{
    if n == 0 || n > p.node@.len() {
        true
    } else {
        nodes_numberable(p, (n - 1) as nat) && attrs_numberable(
            p,
            (n - 1) as nat,
            p.node@[n - 1].attribute@.len(),
        )
    }
}

pub open spec fn attrs_numberable(p: GraphProto, i: nat, m: nat) -> bool
    decreases p, 0nat, m,
{
    if m == 0 || i >= p.node@.len() || m > p.node@[i as int].attribute@.len() {
        true
    } else {
        let attr = p.node@[i as int].attribute@[m - 1];
        attrs_numberable(p, i, (m - 1) as nat) && (holds_graph(attr) ==> numberable(attr.g->0))
    }
}

/// Whether `after` is `before` followed by graphs with the views `more`, whose
/// values can be found by name.
spec fn grown(before: Seq<Option<Graph>>, after: Seq<Option<Graph>>, more: Seq<GraphView>) -> bool {
    &&& after.len() == before.len() + more.len()
    &&& forall|k: int| 0 <= k < before.len() ==> #[trigger] after[k] == before[k]
    &&& forall|k: int|
        before.len() <= k < after.len() ==> (#[trigger] after[k]) is Some && after[k]->0@
            == more[k - before.len()] && after[k]->0.indexed()
}

proof fn lemma_grown_twice(
    a: Seq<Option<Graph>>,
    b: Seq<Option<Graph>>,
    c: Seq<Option<Graph>>,
    x: Seq<GraphView>,
    y: Seq<GraphView>,
)
    requires
        grown(a, b, x),
        grown(b, c, y),
    ensures
        grown(a, c, x + y),
{
    assert forall|k: int| 0 <= k < a.len() implies #[trigger] c[k] == a[k] by {
        assert(b[k] == a[k]);
    }
    assert forall|k: int| a.len() <= k < c.len() implies (#[trigger] c[k]) is Some && c[k]->0@ == (x
        + y)[k - a.len()] && c[k]->0.indexed() by {
        if k < b.len() {
            assert(c[k] == b[k]);
        }
    }
}

pub(crate) proof fn lemma_arena_len(p: GraphProto, id: nat, parent: Option<GraphId>, label: Seq<char>)
    ensures
        arena(p, id, parent, label).len() == graph_size(p),
    decreases p, 2nat, 0nat,
{
    lemma_nodes_arena_len(p, id, p.node@.len());
}

pub(crate) proof fn lemma_nodes_arena_len(p: GraphProto, id: nat, n: nat)
    ensures
        nodes_arena(p, id, n).len() == nodes_size(p, n),
    decreases p, 1nat, n,
{
    if n > 0 && n <= p.node@.len() {
        lemma_nodes_arena_len(p, id, (n - 1) as nat);
        lemma_attrs_arena_len(p, id, (n - 1) as nat, p.node@[n - 1].attribute@.len());
    }
}

pub(crate) proof fn lemma_attrs_arena_len(p: GraphProto, id: nat, i: nat, m: nat)
    ensures
        attrs_arena(p, id, i, m).len() == attrs_size(p, i, m),
    decreases p, 0nat, m,
{
    if m > 0 && i < p.node@.len() && m <= p.node@[i as int].attribute@.len() {
        lemma_attrs_arena_len(p, id, i, (m - 1) as nat);
        let attr = p.node@[i as int].attribute@[m - 1];
        if holds_graph(attr) {
            lemma_arena_len(
                attr.g->0,
                subgraph_place(p, id, i, (m - 1) as nat),
                Some(GraphId(id as u32)),
                subgraph_label(p.node@[i as int], attr),
            );
        }
    }
}

pub(crate) proof fn lemma_nodes_size_grows(p: GraphProto, k: nat, n: nat)
    requires
        k <= n <= p.node@.len(),
    ensures
        nodes_size(p, k) <= nodes_size(p, n),
        nodes_numberable(p, n) ==> nodes_numberable(p, k),
    decreases n,
{
    if k < n {
        lemma_nodes_size_grows(p, k, (n - 1) as nat);
    }
}

pub(crate) proof fn lemma_attrs_size_grows(p: GraphProto, i: nat, k: nat, n: nat)
    requires
        i < p.node@.len(),
        k <= n <= p.node@[i as int].attribute@.len(),
    ensures
        attrs_size(p, i, k) <= attrs_size(p, i, n),
        attrs_numberable(p, i, n) ==> attrs_numberable(p, i, k),
    decreases n,
{
    if k < n {
        lemma_attrs_size_grows(p, i, k, (n - 1) as nat);
    }
}

/// A subgraph fits into the arena where the whole does.
proof fn lemma_subgraph_fits(p: GraphProto, id: nat, i: nat, j: nat)
    requires
        i < p.node@.len(),
        j < p.node@[i as int].attribute@.len(),
        numberable(p),
    ensures
        subgraph_place(p, id, i, j) < id + graph_size(p) || !holds_graph(
            p.node@[i as int].attribute@[j as int],
        ),
        subgraph_place(p, id, i, j) <= id + graph_size(p),
        holds_graph(p.node@[i as int].attribute@[j as int]) ==> subgraph_place(p, id, i, j)
            + graph_size(p.node@[i as int].attribute@[j as int].g->0) <= id + graph_size(p)
            && numberable(p.node@[i as int].attribute@[j as int].g->0),
{
    let m = p.node@[i as int].attribute@.len();
    lemma_nodes_size_grows(p, i + 1, p.node@.len());
    lemma_attrs_size_grows(p, i, j + 1, m);
    assert(nodes_size(p, i + 1) == nodes_size(p, i) + attrs_size(p, i, m));
    assert(nodes_numberable(p, i + 1));
    assert(attrs_numberable(p, i, m));
    assert(attrs_numberable(p, i, j + 1));
    let attr = p.node@[i as int].attribute@[j as int];
    assert(attrs_size(p, i, j + 1) == attrs_size(p, i, j) + if holds_graph(attr) {
        graph_size(attr.g->0)
    } else {
        0
    });
}

/// Whether the view of a node is that of node `i`, its inputs and outputs
/// standing where `names` has them.
spec fn node_built(p: GraphProto, id: nat, i: nat, names: Seq<Seq<char>>, node: NodeView) -> bool {
    let expected = node_model(p, id, i, names);
    &&& node.id == expected.id
    &&& node.name == expected.name
    &&& node.named == expected.named
    &&& node.op_type == expected.op_type
    &&& node.domain == expected.domain
    &&& node.attrs == expected.attrs
    &&& mentions::positions_found(names, p.node@[i as int].input@, node.inputs)
    &&& mentions::positions_found(names, p.node@[i as int].output@, node.outputs)
}

/// Classifies every value once the graph's nodes and initializers are known.
fn assign_value_kinds(
    values: &mut Vec<Value>,
    nodes: &Vec<Node>,
    inputs: &Vec<ValueId>,
    outputs: &Vec<ValueId>,
    is_subgraph: bool,
)
    requires
        forall|i: int|
            0 <= i < old(values)@.len() ==> ((#[trigger] old(values)@[i]).producer is Some ==> (
            old(values)@[i].producer->0).0 < nodes@.len()),
    ensures
        final(values)@.len() == old(values)@.len(),
        forall|i: int|
            0 <= i < final(values)@.len() ==> (#[trigger] final(values)@[i])@ == (ValueView {
                kind: kind_of(
                    old(values)@[i]@,
                    chars::views(nodes@),
                    inputs@,
                    outputs@,
                    is_subgraph,
                ),
                ..old(values)@[i]@
            }),
{
    let ghost before = values@;
    let count: usize = values.len();
    for i in 0..count
        invariant
            count == before.len(),
            values@.len() == before.len(),
            forall|k: int|
                0 <= k < before.len() ==> ((#[trigger] before[k]).producer is Some ==> (
                before[k].producer->0).0 < nodes@.len()),
            forall|k: int| i <= k < before.len() ==> #[trigger] values@[k] == before[k],
            forall|k: int|
                0 <= k < i ==> (#[trigger] values@[k])@ == (ValueView {
                    kind: kind_of(
                        before[k]@,
                        chars::views(nodes@),
                        inputs@,
                        outputs@,
                        is_subgraph,
                    ),
                    ..before[k]@
                }),
    {
        let value: &Value = &values[i];
        assert(*value == before[i as int]);
        let constant: bool = match value.producer {
            Some(id) => nodes[id.0 as usize].is_constant(),
            None => false,
        };
        // An initializer takes precedence over an input declaration.
        let kind: ValueKind = if value.tensor.is_some() {
            ValueKind::Initializer
        } else if constant {
            ValueKind::Constant
        } else if contains_value(inputs, value.id) {
            ValueKind::Input
        } else if contains_value(outputs, value.id) {
            ValueKind::Output
        } else if value.producer.is_none() && is_subgraph {
            ValueKind::OuterScope
        } else {
            ValueKind::Intermediate
        };
        assert(kind == kind_of(
            before[i as int]@,
            chars::views(nodes@),
            inputs@,
            outputs@,
            is_subgraph,
        ));
        values[i].kind = kind;
    }
}

/// Builds the graph arena, recursing into subgraphs.
struct Builder {
    /// Slots are reserved before a graph is built so that a subgraph can be
    /// assigned an ID while its parent is still under construction.
    graphs: Vec<Option<Graph>>,
}

impl Builder {
    fn reserve(&mut self) -> (id: GraphId)
        requires
            old(self).graphs@.len() < u32::MAX,
        ensures
            final(self).graphs@ == old(self).graphs@.push(None),
            id == GraphId(old(self).graphs@.len() as u32),
    {
        let id = GraphId(self.graphs.len() as u32);
        self.graphs.push(None);
        id
    }

    fn build_subgraph(
        &mut self,
        proto: GraphProto,
        parent: GraphId,
        op_type: &str,
        attr_name: &str,
    ) -> (id: GraphId)
        requires
            numberable(proto),
            old(self).graphs@.len() + graph_size(proto) <= u32::MAX,
        ensures
            id == GraphId(old(self).graphs@.len() as u32),
            grown(
                old(self).graphs@,
                final(self).graphs@,
                arena(
                    proto,
                    old(self).graphs@.len(),
                    Some(parent),
                    op_type@ + "."@ + attr_name@,
                ),
            ),
        decreases proto, 4nat,
    {
        let id: GraphId = self.reserve();
        assert(self.graphs@.drop_last() =~= old(self).graphs@);
        let mut label: String = op_type.to_owned();
        label.append(".");
        label.append(attr_name);
        self.build_graph(proto, id, Some(parent), label);
        id
    }

    fn build_attr(
        &mut self,
        proto: AttributeProto,
        graph_id: GraphId,
        op_type: &str,
        Ghost(p): Ghost<GraphProto>,
        Ghost(i): Ghost<nat>,
        Ghost(j): Ghost<nat>,
    ) -> (attr: Attribute)
        requires
            numberable(p),
            i < p.node@.len(),
            j < p.node@[i as int].attribute@.len(),
            proto == p.node@[i as int].attribute@[j as int],
            graph_id.0 + graph_size(p) <= u32::MAX,
            old(self).graphs@.len() == subgraph_place(p, graph_id.0 as nat, i, j),
            op_type@ == op_type_model(p.node@[i as int]),
        ensures
            attr@ == attr_model(
                proto,
                GraphId(subgraph_place(p, graph_id.0 as nat, i, j) as u32),
            ),
            grown(
                old(self).graphs@,
                final(self).graphs@,
                if holds_graph(proto) {
                    arena(
                        proto.g->0,
                        subgraph_place(p, graph_id.0 as nat, i, j),
                        Some(graph_id),
                        subgraph_label(p.node@[i as int], proto),
                    )
                } else {
                    Seq::<GraphView>::empty()
                },
            ),
        decreases p, 1nat,
    {
        proof {
            lemma_subgraph_fits(p, graph_id.0 as nat, i, j);
        }
        let name: String = mentions::text_or_default(proto.name);
        // Prefer the declared type, since it disambiguates empty lists. Fall
        // back to whichever field is populated, as some exporters omit it.
        let declared: i32 = match proto.attr_type {
            Some(ty) => ty.0,
            None => 0,
        };
        let value: AttrValue = if declared == AttributeType::FLOAT && proto.f.is_some() {
            AttrValue::Float(proto.f.unwrap())
        } else if declared == AttributeType::INT && proto.i.is_some() {
            AttrValue::Int(proto.i.unwrap())
        } else if declared == AttributeType::STRING && proto.s.is_some() {
            AttrValue::String(proto.s.unwrap())
        } else if declared == AttributeType::FLOATS {
            AttrValue::Floats(proto.floats)
        } else if declared == AttributeType::INTS {
            AttrValue::Ints(proto.ints)
        } else if let Some(g) = proto.g {
            AttrValue::Graph(self.build_subgraph(g, graph_id, op_type, name.as_str()))
        } else if let Some(t) = proto.t {
            AttrValue::Tensor(mentions::tensor_from_proto(t))
        } else if let Some(f) = proto.f {
            AttrValue::Float(f)
        } else if let Some(i) = proto.i {
            AttrValue::Int(i)
        } else if let Some(s) = proto.s {
            AttrValue::String(s)
        } else if proto.floats.len() > 0 {
            AttrValue::Floats(proto.floats)
        } else if proto.ints.len() > 0 {
            AttrValue::Ints(proto.ints)
        } else if proto.strings.len() > 0 {
            AttrValue::Strings(proto.strings)
        } else {
            AttrValue::Unsupported(declared)
        };
        Attribute { name, value }
    }

    fn build_node(
        &mut self,
        table: &mut mentions::Interner,
        proto: NodeProto,
        id: NodeId,
        graph_id: GraphId,
        Ghost(p): Ghost<GraphProto>,
        Ghost(ms): Ghost<Seq<mentions::Mention>>,
    ) -> (node: Node)
        requires
            numberable(p),
            id.0 < p.node@.len(),
            proto == p.node@[id.0 as int],
            graph_id.0 + graph_size(p) <= u32::MAX,
            old(self).graphs@.len() == graph_id.0 + 1 + nodes_size(p, id.0 as nat),
            old(table).holds(ms),
            mentions::use_node(ms, proto, id).len() <= u32::MAX,
        ensures
            final(table).holds(mentions::use_node(ms, proto, id)),
            node_built(
                p,
                graph_id.0 as nat,
                id.0 as nat,
                mentions::names_of(mentions::use_node(ms, proto, id)),
                node@,
            ),
            grown(
                old(self).graphs@,
                final(self).graphs@,
                attrs_arena(p, graph_id.0 as nat, id.0 as nat, proto.attribute@.len()),
            ),
        decreases p, 2nat,
    {
        let ghost read = mentions::place_all(
            ms,
            proto.input@,
            mentions::Role::Read(id),
            proto.input@.len(),
        );
        let ghost used = mentions::use_node(ms, proto, id);
        proof {
            mentions::lemma_place_all_extends(
                read,
                proto.output@,
                mentions::Role::Written(id),
                0,
                proto.output@.len(),
            );
        }
        let ghost given = proto;
        let op_type: String = match proto.op_type {
            Some(op_type) => op_type,
            None => "Unknown".to_owned(),
        };
        let named: bool = match &proto.name {
            Some(name) => !name.as_str().is_empty(),
            None => false,
        };
        let name: String = if named {
            mentions::text_or_default(proto.name)
        } else {
            // A synthesized name gives something stable to display and search
            // on.
            let mut name: String = op_type.clone();
            name.append("_");
            let number: String = decimal_text(id.0 as u64);
            name.append(number.as_str());
            name
        };
        let inputs: Vec<Option<ValueId>> = table.read_positions(&proto.input, id, Ghost(ms));
        let outputs: Vec<Option<ValueId>> = table.write_positions(&proto.output, id, Ghost(read));

        let ghost attr_protos = proto.attribute@;
        let ghost i = id.0 as nat;
        let ghost start = self.graphs@;
        let ghost expected = node_model(p, graph_id.0 as nat, i, mentions::names_of(used)).attrs;
        let mut attrs: Vec<Attribute> = Vec::new();
        for attr in iter: proto.attribute
            invariant
                iter.seq() == attr_protos,
                numberable(p),
                i < p.node@.len(),
                attr_protos == p.node@[i as int].attribute@,
                graph_id.0 + graph_size(p) <= u32::MAX,
                op_type@ == op_type_model(p.node@[i as int]),
                expected == node_model(p, graph_id.0 as nat, i, mentions::names_of(used)).attrs,
                start.len() == graph_id.0 + 1 + nodes_size(p, i),
                grown(
                    start,
                    self.graphs@,
                    attrs_arena(p, graph_id.0 as nat, i, iter.index() as nat),
                ),
                attrs@.len() == iter.index(),
                forall|k: int| 0 <= k < attrs@.len() ==> (#[trigger] attrs@[k])@ == expected[k],
        {
            let ghost j = iter.index() as nat;
            let ghost before = self.graphs@;
            proof {
                assert(attr == attr_protos[j as int]);
                lemma_attrs_arena_len(p, graph_id.0 as nat, i, j);
            }
            let built: Attribute = self.build_attr(
                attr,
                graph_id,
                op_type.as_str(),
                Ghost(p),
                Ghost(i),
                Ghost(j),
            );
            proof {
                let more = if holds_graph(attr) {
                    arena(
                        attr.g->0,
                        subgraph_place(p, graph_id.0 as nat, i, j),
                        Some(graph_id),
                        subgraph_label(p.node@[i as int], attr),
                    )
                } else {
                    Seq::<GraphView>::empty()
                };
                lemma_grown_twice(
                    start,
                    before,
                    self.graphs@,
                    attrs_arena(p, graph_id.0 as nat, i, j),
                    more,
                );
                assert(attrs_arena(p, graph_id.0 as nat, i, j + 1) == attrs_arena(
                    p,
                    graph_id.0 as nat,
                    i,
                    j,
                ) + more);
            }
            attrs.push(built);
        }
        let domain: String = mentions::text_or_default(proto.domain);
        let node = Node { id, name, named, op_type, domain, inputs, outputs, attrs };
        assert(node@.attrs =~= expected);
        node
    }

    fn build_graph(
        &mut self,
        proto: GraphProto,
        id: GraphId,
        parent: Option<GraphId>,
        label: String,
    )
        requires
            numberable(proto),
            old(self).graphs@.len() == id.0 + 1,
            id.0 + graph_size(proto) <= u32::MAX,
        ensures
            grown(
                old(self).graphs@.drop_last(),
                final(self).graphs@,
                arena(proto, id.0 as nat, parent, label@),
            ),
        decreases proto, 3nat,
    {
        let ghost p = proto;
        let ghost all = mentions::mentions(p);
        let ghost names = mentions::names_of(all);
        let ghost none = Seq::<mentions::Mention>::empty();
        let ghost a = mentions::declare_all(none, p.input@, p.input@.len());
        let ghost b = mentions::declare_all(a, p.output@, p.output@.len());
        let ghost c = mentions::store_all(b, p.initializer@, p.initializer@.len());
        let ghost prologue = mentions::prologue(p);
        proof {
            mentions::lemma_prologue_len(p);
            mentions::lemma_names_are_distinct(all);
        }
        let mut table = mentions::Interner::new();
        let inputs: Vec<ValueId> = table.declare_infos(proto.input, Ghost(none));
        let outputs: Vec<ValueId> = table.declare_infos(proto.output, Ghost(a));
        table.store_tensors(proto.initializer, Ghost(b));
        // These carry types for intermediate values. They are optional and
        // frequently absent, in which case shapes stay unknown.
        let _annotated: Vec<ValueId> = table.declare_infos(proto.value_info, Ghost(c));
        proof {
            mentions::lemma_declared_ids_stay(
                names,
                mentions::names_of(a),
                p.input@,
                p.input@.len(),
            );
            mentions::lemma_declared_ids_stay(
                names,
                mentions::names_of(b),
                p.output@,
                p.output@.len(),
            );
        }

        let ghost start = self.graphs@;
        let ghost at = id.0 as nat;
        let mut nodes: Vec<Node> = Vec::new();
        for node_proto in iter: proto.node
            invariant
                iter.seq() == p.node@,
                p == proto,
                numberable(p),
                all == mentions::use_all(prologue, p.node@, p.node@.len()),
                all.len() <= u32::MAX,
                at == id.0,
                at + graph_size(p) <= u32::MAX,
                start.len() == at + 1,
                table.holds(mentions::use_all(prologue, p.node@, iter.index() as nat)),
                grown(start, self.graphs@, nodes_arena(p, at, iter.index() as nat)),
                nodes@.len() == iter.index(),
                forall|k: int|
                    0 <= k < nodes@.len() ==> node_built(
                        p,
                        at,
                        k as nat,
                        mentions::names_of(
                            mentions::use_all(prologue, p.node@, iter.index() as nat),
                        ),
                        (#[trigger] nodes@[k])@,
                    ),
        {
            let ghost i = iter.index() as nat;
            let ghost now = mentions::use_all(prologue, p.node@, i);
            let ghost next = mentions::use_all(prologue, p.node@, i + 1);
            let ghost before = self.graphs@;
            proof {
                assert(node_proto == p.node@[i as int]);
                mentions::lemma_use_all_extends(prologue, p.node@, i + 1, p.node@.len());
                mentions::lemma_use_all_extends(prologue, p.node@, i, i + 1);
                lemma_nodes_arena_len(p, at, i);
            }
            let node_id = NodeId(nodes.len() as u32);
            assert(next == mentions::use_node(now, node_proto, node_id));
            let node: Node = self.build_node(
                &mut table,
                node_proto,
                node_id,
                id,
                Ghost(p),
                Ghost(now),
            );
            proof {
                lemma_grown_twice(
                    start,
                    before,
                    self.graphs@,
                    nodes_arena(p, at, i),
                    attrs_arena(p, at, i, node_proto.attribute@.len()),
                );
            }
            nodes.push(node);
        }
        proof {
            mentions::lemma_prologue_below(p);
            mentions::lemma_use_all_below(prologue, p.node@, p.node@.len());
            assert forall|i: int| 0 <= i < table.values@.len() implies ((
            #[trigger] table.values@[i]).producer is Some ==> (table.values@[i].producer->0).0
                < nodes@.len()) by {
                mentions::lemma_learned_below(all, p.node@.len(), i, names[i]);
                assert(table.values@[i]@.producer == table.values@[i].producer);
            }
        }
        let mentions::Interner { values, by_name } = table;
        let mut values: Vec<Value> = values;
        assign_value_kinds(&mut values, &nodes, &inputs, &outputs, parent.is_some());
        let graph = Graph { id, parent, label, nodes, values, value_by_name: by_name, inputs, outputs };
        proof {
            let expected = graph_model(p, at, parent, label@);
            assert forall|k: int| 0 <= k < nodes@.len() implies #[trigger] nodes@[k]@
                == expected.nodes[k] by {
                assert(node_built(p, at, k as nat, names, nodes@[k]@));
                mentions::lemma_positions_found(names, p.node@[k].input@, nodes@[k]@.inputs);
                mentions::lemma_positions_found(names, p.node@[k].output@, nodes@[k]@.outputs);
            }
            assert(chars::views(nodes@) =~= expected.nodes);
            assert(chars::views(values@) =~= expected.values);
            assert(graph@ =~= expected);
            assert(graph@.names() =~= names) by {
                assert forall|i: int| 0 <= i < names.len() implies graph@.names()[i] == names[i] by {
                    mentions::lemma_learned_name(all, i, names[i]);
                }
            }
        }
        self.graphs[id.0 as usize] = Some(graph);
        proof {
            lemma_nodes_arena_len(p, at, p.node@.len());
            let done = self.graphs@;
            let base = old(self).graphs@.drop_last();
            let expected = arena(p, at, parent, label@);
            assert forall|k: int| base.len() <= k < done.len() implies (#[trigger] done[k]) is Some
                && done[k]->0@ == expected[k - base.len()] && done[k]->0.indexed() by {
                if k > at {
                    assert(expected[k - at] == nodes_arena(p, at, p.node@.len())[k - at - 1]);
                }
            }
        }
    }
}

/// Where the value with this name is defined, looking from `scope` outwards. A
/// graph that only reads the value from further out is passed over.
pub open spec fn definition(
    graphs: Seq<GraphView>,
    scope: Option<GraphId>,
    name: Seq<char>,
) -> Option<ValueRef>
    decreases
            match scope {
                Some(id) => id.0 + 1,
                None => 0,
            },
{
    match scope {
        Some(id) => {
            let graph = graphs[id.0 as int];
            if graph.defines(name) {
                Some(ValueRef { graph: id, value: mentions::id_of(graph.names(), name) })
            } else {
                match graph.parent {
                    Some(parent) => if parent.0 < id.0 {
                        definition(graphs, Some(parent), name)
                    } else {
                        None
                    },
                    None => None,
                }
            }
        },
        None => None,
    }
}

/// The value, linked to its definition where it is read from an outer scope.
pub open spec fn linked_value(graphs: Seq<GraphView>, graph: GraphView, value: ValueView) -> ValueView {
    ValueView {
        outer: if value.kind == ValueKind::OuterScope {
            definition(graphs, graph.parent, value.name)
        } else {
            value.outer
        },
        ..value
    }
}

/// The graphs, with the values that they read from enclosing graphs linked to
/// them.
pub open spec fn linked(graphs: Seq<GraphView>) -> Seq<GraphView> {
    Seq::new(
        graphs.len(),
        |i: int|
            GraphView {
                values: Seq::new(
                    graphs[i].values.len(),
                    |k: int| linked_value(graphs, graphs[i], graphs[i].values[k]),
                ),
                ..graphs[i]
            },
    )
}

/// The main graph of a model that has none.
pub open spec fn empty_graph() -> GraphView {
    GraphView {
        id: GraphId(0),
        parent: None,
        label: "main"@,
        nodes: Seq::empty(),
        values: Seq::empty(),
        inputs: Seq::empty(),
        outputs: Seq::empty(),
    }
}

/// The graphs of a model, the main graph first.
pub open spec fn model_arena(proto: ModelProto) -> Seq<GraphView> {
    match proto.graph {
        Some(graph) => arena(graph, 0, None, "main"@),
        None => seq![empty_graph()],
    }
}

/// The entries that have a key.
pub open spec fn metadata_model(
    entries: Seq<StringStringEntryProto>,
) -> Seq<(Seq<char>, Seq<char>)>
    decreases entries.len(),
{
    if entries.len() == 0 {
        Seq::empty()
    } else {
        let before = metadata_model(entries.drop_last());
        match entries.last().key {
            Some(key) => before.push((key@, crate::model::text_or_empty(entries.last().value))),
            None => before,
        }
    }
}

pub open spec fn opset_model(opset: OperatorSetIdProto) -> OpsetView {
    OpsetView { domain: crate::model::text_or_empty(opset.domain), version: opset.version }
}

/// The model that a message describes.
pub open spec fn model_of(proto: ModelProto) -> ModelView {
    ModelView {
        ir_version: proto.ir_version,
        producer_name: chars::opt_view(proto.producer_name),
        producer_version: chars::opt_view(proto.producer_version),
        opset_imports: Seq::new(
            proto.opset_import@.len(),
            |i: int| opset_model(proto.opset_import@[i]),
        ),
        metadata: metadata_model(proto.metadata_props@),
        graphs: linked(model_arena(proto)),
        root: GraphId(0),
    }
}

/// Whether the graphs of a model, and the values and nodes of each, can be
/// numbered in 32 bits.
pub open spec fn buildable(proto: ModelProto) -> bool {
    proto.graph is Some ==> numberable(proto.graph->0) && graph_size(proto.graph->0) <= u32::MAX
}

pub(crate) proof fn lemma_arena_parents(
    p: GraphProto,
    id: nat,
    parent: Option<GraphId>,
    label: Seq<char>,
)
    requires
        id + graph_size(p) <= u32::MAX,
        parent is Some ==> (parent->0).0 < id,
    ensures
        forall|k: int|
            0 <= k < arena(p, id, parent, label).len() ==> ({
                let graph = #[trigger] arena(p, id, parent, label)[k];
                &&& graph.id.0 == id + k
                &&& graph.parent is Some ==> (graph.parent->0).0 < id + k
                &&& k == 0 ==> graph.parent == parent
                &&& k > 0 ==> graph.parent is Some && (graph.parent->0).0 >= id
            }),
    decreases p, 2nat, 0nat,
{
    lemma_nodes_arena_parents(p, id, p.node@.len());
    lemma_nodes_arena_len(p, id, p.node@.len());
    let all = arena(p, id, parent, label);
    assert forall|k: int| 0 < k < all.len() implies #[trigger] all[k] == nodes_arena(
        p,
        id,
        p.node@.len(),
    )[k - 1] by {}
}

proof fn lemma_nodes_arena_parents(p: GraphProto, id: nat, n: nat)
    requires
        n <= p.node@.len(),
        id + graph_size(p) <= u32::MAX,
    ensures
        forall|k: int|
            0 <= k < nodes_arena(p, id, n).len() ==> ({
                let graph = #[trigger] nodes_arena(p, id, n)[k];
                &&& graph.id.0 == id + 1 + k
                &&& graph.parent is Some && id <= (graph.parent->0).0 < id + 1 + k
            }),
    decreases p, 1nat, n,
{
    if n > 0 {
        let m = p.node@[n - 1].attribute@.len();
        lemma_nodes_arena_parents(p, id, (n - 1) as nat);
        lemma_attrs_arena_parents(p, id, (n - 1) as nat, m);
        lemma_nodes_arena_len(p, id, (n - 1) as nat);
        let before = nodes_arena(p, id, (n - 1) as nat);
        let more = attrs_arena(p, id, (n - 1) as nat, m);
        assert forall|k: int| 0 <= k < (before + more).len() implies ({
            let graph = #[trigger] (before + more)[k];
            &&& graph.id.0 == id + 1 + k
            &&& graph.parent is Some && id <= (graph.parent->0).0 < id + 1 + k
        }) by {
            if k < before.len() {
                assert((before + more)[k] == before[k]);
            } else {
                assert((before + more)[k] == more[k - before.len()]);
            }
        }
    }
}

proof fn lemma_attrs_arena_parents(p: GraphProto, id: nat, i: nat, m: nat)
    requires
        i < p.node@.len(),
        m <= p.node@[i as int].attribute@.len(),
        id + graph_size(p) <= u32::MAX,
    ensures
        forall|k: int|
            0 <= k < attrs_arena(p, id, i, m).len() ==> ({
                let graph = #[trigger] attrs_arena(p, id, i, m)[k];
                &&& graph.id.0 == id + 1 + nodes_size(p, i) + k
                &&& graph.parent is Some && id <= (graph.parent->0).0 < id + 1 + nodes_size(p, i)
                    + k
            }),
    decreases p, 0nat, m,
{
    if m > 0 {
        let attr = p.node@[i as int].attribute@[m - 1];
        lemma_attrs_arena_parents(p, id, i, (m - 1) as nat);
        lemma_attrs_arena_len(p, id, i, (m - 1) as nat);
        let before = attrs_arena(p, id, i, (m - 1) as nat);
        if holds_graph(attr) {
            let place = subgraph_place(p, id, i, (m - 1) as nat);
            let label = subgraph_label(p.node@[i as int], attr);
            let all = p.node@[i as int].attribute@.len();
            lemma_nodes_size_grows(p, i + 1, p.node@.len());
            lemma_attrs_size_grows(p, i, m, all);
            assert(nodes_size(p, i + 1) == nodes_size(p, i) + attrs_size(p, i, all));
            lemma_arena_parents(attr.g->0, place, Some(GraphId(id as u32)), label);
            let more = arena(attr.g->0, place, Some(GraphId(id as u32)), label);
            assert forall|k: int| 0 <= k < (before + more).len() implies ({
                let graph = #[trigger] (before + more)[k];
                &&& graph.id.0 == id + 1 + nodes_size(p, i) + k
                &&& graph.parent is Some && id <= (graph.parent->0).0 < id + 1 + nodes_size(p, i)
                    + k
            }) by {
                if k < before.len() {
                    assert((before + more)[k] == before[k]);
                } else {
                    assert((before + more)[k] == more[k - before.len()]);
                }
            }
        } else {
            assert(before + Seq::<GraphView>::empty() =~= before);
        }
    }
}

/// What each value of a graph is.
spec fn kinds(graph: GraphView) -> Seq<ValueKind> {
    Seq::new(graph.values.len(), |k: int| graph.values[k].kind)
}

/// The definition of a name depends only on names, kinds and nesting.
proof fn lemma_definition_same(
    a: Seq<GraphView>,
    b: Seq<GraphView>,
    scope: Option<GraphId>,
    name: Seq<char>,
)
    requires
        a.len() == b.len(),
        forall|i: int|
            0 <= i < a.len() ==> (#[trigger] a[i]).names() == b[i].names() && kinds(a[i]) == kinds(
                b[i],
            ) && a[i].parent == b[i].parent,
        scope is Some ==> (scope->0).0 < a.len(),
    ensures
        definition(a, scope, name) == definition(b, scope, name),
    decreases
            match scope {
                Some(id) => id.0 + 1,
                None => 0,
            },
{
    if let Some(id) = scope {
        let x = a[id.0 as int];
        let y = b[id.0 as int];
        assert(x.names() == y.names() && kinds(x) == kinds(y));
        if x.names().contains(name) {
            let at = x.names().index_of(name);
            assert(x.names()[at] == name);
            assert(kinds(x)[at] == kinds(y)[at]);
        }
        match a[id.0 as int].parent {
            Some(parent) => {
                if parent.0 < id.0 {
                    lemma_definition_same(a, b, Some(parent), name);
                }
            },
            None => {},
        }
    }
}

fn find_definition(graphs: &Vec<Graph>, scope: Option<GraphId>, name: &str) -> (result: Option<
    ValueRef,
>)
    requires
        graph::parents_precede(chars::views(graphs@)),
        forall|i: int|
            0 <= i < graphs@.len() ==> (#[trigger] graphs@[i]).indexed() && graphs@[i].values@.len()
                <= u32::MAX,
        scope is Some ==> (scope->0).0 < graphs@.len(),
    ensures
        result == definition(chars::views(graphs@), scope, name@),
    decreases
            match scope {
                Some(id) => id.0 + 1,
                None => 0,
            },
{
    match scope {
        Some(id) => {
            let graph: &Graph = &graphs[id.0 as usize];
            let ghost names = graph@.names();
            assert(chars::views(graphs@)[id.0 as int] == graph@);
            match graph.value_by_name.get(name) {
                Some(value) => {
                    proof {
                        let at = names.index_of(name@);
                        assert(names[value.0 as int] == name@);
                        assert(names.contains(name@));
                        assert(names[at] == name@);
                        assert(graph.value_by_name@.contains_key(names[at]));
                        assert(value.0 == at);
                        assert(graph@.values[at] == graph.values@[at]@);
                    }
                    if graph.values[value.0 as usize].kind != ValueKind::OuterScope {
                        Some(ValueRef { graph: id, value: *value })
                    } else {
                        find_definition(graphs, graph.parent, name)
                    }
                },
                None => {
                    proof {
                        if names.contains(name@) {
                            let at = names.index_of(name@);
                            assert(graph.value_by_name@.contains_key(names[at]));
                        }
                    }
                    find_definition(graphs, graph.parent, name)
                },
            }
        },
        None => None,
    }
}

/// Links values that a subgraph reads from an enclosing scope back to the graph
/// that defines them.
///
/// ONNX subgraphs may reference values from any enclosing graph by name. This
/// can only be resolved once every graph has been built, so it runs as a
/// separate pass.
fn resolve_outer_scope_refs(graphs: &mut Vec<Graph>)
    requires
        graph::parents_precede(chars::views(old(graphs)@)),
        forall|i: int|
            0 <= i < old(graphs)@.len() ==> (#[trigger] old(graphs)@[i]).indexed() && old(
                graphs,
            )@[i].values@.len() <= u32::MAX,
    ensures
        chars::views(final(graphs)@) == linked(chars::views(old(graphs)@)),
        forall|i: int| 0 <= i < final(graphs)@.len() ==> (#[trigger] final(graphs)@[i]).indexed(),
{
    let ghost before = chars::views(graphs@);
    let ghost wanted = linked(before);
    let count: usize = graphs.len();
    for i in 0..count
        invariant
            count == before.len(),
            graphs@.len() == before.len(),
            wanted == linked(before),
            graph::parents_precede(before),
            forall|k: int|
                0 <= k < graphs@.len() ==> (#[trigger] graphs@[k]).indexed()
                    && graphs@[k].values@.len() <= u32::MAX,
            forall|k: int| 0 <= k < i ==> (#[trigger] graphs@[k])@ == wanted[k],
            forall|k: int| i <= k < count ==> (#[trigger] graphs@[k])@ == before[k],
    {
        let values: usize = graphs[i].values.len();
        let ghost target = wanted[i as int];
        for k in 0..values
            invariant
                i < count,
                count == before.len(),
                graphs@.len() == before.len(),
                wanted == linked(before),
                target == wanted[i as int],
                graph::parents_precede(before),
                values == before[i as int].values.len(),
                forall|j: int|
                    0 <= j < graphs@.len() ==> (#[trigger] graphs@[j]).indexed()
                        && graphs@[j].values@.len() <= u32::MAX,
                forall|j: int| 0 <= j < i ==> (#[trigger] graphs@[j])@ == wanted[j],
                forall|j: int| i < j < count ==> (#[trigger] graphs@[j])@ == before[j],
                graphs@[i as int]@ == (GraphView {
                    values: target.values.take(k as int) + before[i as int].values.skip(k as int),
                    ..before[i as int]
                }),
        {
            let ghost now = chars::views(graphs@);
            proof {
                assert(graphs@[i as int]@.values[k as int] == before[i as int].values[k as int]);
                assert forall|j: int| 0 <= j < now.len() implies (#[trigger] now[j]).names()
                    == before[j].names() && kinds(now[j]) == kinds(before[j]) && now[j].parent
                    == before[j].parent by {
                    assert(now[j] == graphs@[j]@);
                    assert(now[j].names() =~= before[j].names());
                    assert(kinds(now[j]) =~= kinds(before[j]));
                }
                assert(graph::parents_precede(now));
            }
            let ghost held = graphs@[i as int];
            if graphs[i].values[k].kind == ValueKind::OuterScope {
                let outer: Option<ValueRef> = find_definition(
                    graphs,
                    graphs[i].parent,
                    graphs[i].values[k].name.as_str(),
                );
                proof {
                    assert(before[i as int].parent == now[i as int].parent);
                    lemma_definition_same(
                        now,
                        before,
                        before[i as int].parent,
                        before[i as int].values[k as int].name,
                    );
                }
                graphs[i].values[k].outer = outer;
                proof {
                    assert(graphs@[i as int]@.names() =~= held@.names());
                }
            }
            proof {
                let g = graphs@[i as int]@;
                assert(target.values[k as int] == linked_value(
                    before,
                    before[i as int],
                    before[i as int].values[k as int],
                ));
                assert(g.values[k as int] == target.values[k as int]);
                assert forall|j: int| 0 <= j < values && j != k implies #[trigger] g.values[j]
                    == held@.values[j] by {
                    assert(graphs@[i as int].values@[j] == held.values@[j]);
                }
                assert(g.values =~= target.values.take(k + 1) + before[i as int].values.skip(
                    k + 1,
                ));
                assert(g =~= (GraphView {
                    values: target.values.take(k + 1) + before[i as int].values.skip(k + 1),
                    ..before[i as int]
                }));
            }
        }
        proof {
            assert(graphs@[i as int]@.values =~= target.values);
            assert(graphs@[i as int]@ =~= wanted[i as int]);
        }
    }
    assert(chars::views(graphs@) =~= wanted);
}

fn unwrap_graphs(slots: Vec<Option<Graph>>) -> (graphs: Vec<Graph>)
    requires
        forall|i: int| 0 <= i < slots@.len() ==> (#[trigger] slots@[i]) is Some,
    ensures
        graphs@.len() == slots@.len(),
        forall|i: int| 0 <= i < graphs@.len() ==> #[trigger] graphs@[i] == slots@[i]->0,
{
    let ghost given = slots@;
    let mut graphs: Vec<Graph> = Vec::new();
    for slot in iter: slots
        invariant
            iter.seq() == given,
            graphs@.len() == iter.index(),
            forall|i: int| 0 <= i < given.len() ==> (#[trigger] given[i]) is Some,
            forall|i: int| 0 <= i < graphs@.len() ==> #[trigger] graphs@[i] == given[i]->0,
    {
        assert(slot == given[iter.index()]);
        if let Some(graph) = slot {
            graphs.push(graph);
        }
    }
    graphs
}

fn opsets_from_proto(opsets: Vec<OperatorSetIdProto>) -> (result: Vec<OpsetImport>)
    ensures
        chars::views(result@) == Seq::new(opsets@.len(), |i: int| opset_model(opsets@[i])),
{
    let ghost given = opsets@;
    let mut result: Vec<OpsetImport> = Vec::new();
    for opset in iter: opsets
        invariant
            iter.seq() == given,
            result@.len() == iter.index(),
            forall|i: int|
                0 <= i < result@.len() ==> (#[trigger] result@[i])@ == opset_model(given[i]),
    {
        result.push(
            OpsetImport {
                domain: mentions::text_or_default(opset.domain),
                version: opset.version,
            },
        );
    }
    assert(chars::views(result@) =~= Seq::new(given.len(), |i: int| opset_model(given[i])));
    result
}

fn metadata_from_proto(entries: Vec<StringStringEntryProto>) -> (result: Vec<(String, String)>)
    ensures
        crate::model::pair_views(result@) == metadata_model(entries@),
{
    let ghost given = entries@;
    let mut result: Vec<(String, String)> = Vec::new();
    assert(crate::model::pair_views(result@) =~= metadata_model(given.take(0)));
    for entry in iter: entries
        invariant
            iter.seq() == given,
            crate::model::pair_views(result@) == metadata_model(given.take(iter.index())),
    {
        let ghost held = result@;
        proof {
            let n = iter.index();
            assert(entry == given[n]);
            assert(given.take(n + 1).drop_last() =~= given.take(n));
            assert(given.take(n + 1).last() == entry);
        }
        if let Some(key) = entry.key {
            let value: String = mentions::text_or_default(entry.value);
            result.push((key, value));
            assert(crate::model::pair_views(result@) =~= crate::model::pair_views(held).push(
                (key@, value@),
            ));
        }
    }
    assert(given.take(given.len() as int) =~= given);
    result
}

/// A graph with nothing in it.
fn empty_graph_proto() -> (proto: GraphProto)
    ensures
        proto.node@.len() == 0,
        proto.initializer@.len() == 0,
        proto.input@.len() == 0,
        proto.output@.len() == 0,
        proto.value_info@.len() == 0,
{
    GraphProto {
        node: Vec::new(),
        initializer: Vec::new(),
        input: Vec::new(),
        output: Vec::new(),
        value_info: Vec::new(),
    }
}

proof fn lemma_empty_graph(p: GraphProto)
    requires
        p.node@.len() == 0,
        p.initializer@.len() == 0,
        p.input@.len() == 0,
        p.output@.len() == 0,
        p.value_info@.len() == 0,
    ensures
        numberable(p),
        graph_size(p) == 1,
        arena(p, 0, None, "main"@) == seq![empty_graph()],
{
    let all = arena(p, 0, None, "main"@);
    assert(mentions::mentions(p) =~= Seq::<mentions::Mention>::empty());
    assert(graph_model(p, 0, None, "main"@) =~= empty_graph());
    assert(all =~= seq![empty_graph()]);
}

impl Model {
    /// Converts the message of an ONNX file into the viewer's representation.
    pub fn from_proto(proto: ModelProto) -> (model: Model)
        requires
            buildable(proto),
        ensures
            model@ == model_of(proto),
            model.wf(),
    {
        let mut builder = Builder { graphs: Vec::new() };
        let root: GraphId = builder.reserve();
        assert(builder.graphs@.drop_last() =~= Seq::<Option<Graph>>::empty());
        let graph: GraphProto = match proto.graph {
            Some(graph) => graph,
            None => {
                let graph: GraphProto = empty_graph_proto();
                proof {
                    lemma_empty_graph(graph);
                }
                graph
            },
        };
        let ghost expected = arena(graph, 0, None, "main"@);
        proof {
            assert(expected == model_arena(proto));
            lemma_arena_len(graph, 0, None, "main"@);
            lemma_arena_parents(graph, 0, None, "main"@);
            wiring::lemma_arena_well_formed(graph, 0, None, "main"@);
        }
        builder.build_graph(graph, root, None, "main".to_owned());
        let mut graphs: Vec<Graph> = unwrap_graphs(builder.graphs);
        proof {
            assert(chars::views(graphs@) =~= expected);
            assert(graph::parents_precede(expected));
            assert forall|i: int| 0 <= i < graphs@.len() implies (
            #[trigger] graphs@[i]).values@.len() <= u32::MAX by {
                assert(expected[i] == graphs@[i]@);
                assert(expected[i].wf());
            }
        }
        resolve_outer_scope_refs(&mut graphs);
        let model = Model {
            ir_version: proto.ir_version,
            producer_name: proto.producer_name,
            producer_version: proto.producer_version,
            opset_imports: opsets_from_proto(proto.opset_import),
            metadata: metadata_from_proto(proto.metadata_props),
            graphs,
            root,
        };
        proof {
            wiring::law_model_is_well_formed(proto);
            assert forall|i: int| 0 <= i < model.graphs@.len() implies (
            #[trigger] model.graphs@[i]).wf() by {
                assert(model@.graphs[i] == model.graphs@[i]@);
            }
        }
        model
    }
}

/// Counts what has been mentioned so far, `None` once it is too much.
fn counted(count: u32, more: bool) -> (result: Option<u32>)
    ensures
        match result {
            Some(n) => n == count + if more { 1int } else { 0 },
            None => more && count == u32::MAX,
        },
{
    if !more {
        Some(count)
    } else if count < u32::MAX {
        Some(count + 1)
    } else {
        None
    }
}

fn count_declarations(
    count: u32,
    infos: &Vec<crate::proto::ValueInfoProto>,
    Ghost(ms): Ghost<Seq<mentions::Mention>>,
) -> (result: Option<u32>)
    requires
        count == ms.len(),
    ensures
        match result {
            Some(n) => n == mentions::declare_all(ms, infos@, infos@.len()).len(),
            None => mentions::declare_all(ms, infos@, infos@.len()).len() > u32::MAX,
        },
{
    let mut count: u32 = count;
    for i in 0..infos.len()
        invariant
            count == mentions::declare_all(ms, infos@, i as nat).len(),
    {
        let declares: bool = match &infos[i].name {
            Some(name) => !name.as_str().is_empty(),
            None => false,
        };
        proof {
            mentions::lemma_declare_all_extends(ms, infos@, i as nat + 1, infos@.len());
            assert(declares == (mentions::declaration(infos@[i as int]) is Some));
        }
        match counted(count, declares) {
            Some(n) => {
                count = n;
            },
            None => {
                return None;
            },
        }
    }
    Some(count)
}

fn count_initializers(
    count: u32,
    tensors: &Vec<crate::proto::TensorProto>,
    Ghost(ms): Ghost<Seq<mentions::Mention>>,
) -> (result: Option<u32>)
    requires
        count == ms.len(),
    ensures
        match result {
            Some(n) => n == mentions::store_all(ms, tensors@, tensors@.len()).len(),
            None => mentions::store_all(ms, tensors@, tensors@.len()).len() > u32::MAX,
        },
{
    let mut count: u32 = count;
    for i in 0..tensors.len()
        invariant
            count == mentions::store_all(ms, tensors@, i as nat).len(),
    {
        proof {
            mentions::lemma_store_all_extends(ms, tensors@, i as nat + 1, tensors@.len());
        }
        match counted(count, tensors[i].name.is_some()) {
            Some(n) => {
                count = n;
            },
            None => {
                return None;
            },
        }
    }
    Some(count)
}

fn count_positions(
    count: u32,
    names: &Vec<String>,
    Ghost(ms): Ghost<Seq<mentions::Mention>>,
    Ghost(role): Ghost<mentions::Role>,
) -> (result: Option<u32>)
    requires
        count == ms.len(),
    ensures
        match result {
            Some(n) => n == mentions::place_all(ms, names@, role, names@.len()).len(),
            None => mentions::place_all(ms, names@, role, names@.len()).len() > u32::MAX,
        },
{
    let mut count: u32 = count;
    for i in 0..names.len()
        invariant
            count == mentions::place_all(ms, names@, role, i as nat).len(),
    {
        proof {
            mentions::lemma_place_all_extends(ms, names@, role, i as nat + 1, names@.len());
        }
        match counted(count, !names[i].as_str().is_empty()) {
            Some(n) => {
                count = n;
            },
            None => {
                return None;
            },
        }
    }
    Some(count)
}

/// Whether the mentions of a graph can be counted in 32 bits.
fn mentions_fit(p: &GraphProto) -> (fit: bool)
    requires
        p.node@.len() <= u32::MAX,
    ensures
        fit == (mentions::mentions(*p).len() <= u32::MAX),
{
    let ghost none = Seq::<mentions::Mention>::empty();
    let ghost a = mentions::declare_all(none, p.input@, p.input@.len());
    let ghost b = mentions::declare_all(a, p.output@, p.output@.len());
    let ghost c = mentions::store_all(b, p.initializer@, p.initializer@.len());
    let ghost prologue = mentions::prologue(*p);
    proof {
        mentions::lemma_prologue_len(*p);
    }
    let count: u32 = match count_declarations(0, &p.input, Ghost(none)) {
        Some(n) => n,
        None => {
            return false;
        },
    };
    let count: u32 = match count_declarations(count, &p.output, Ghost(a)) {
        Some(n) => n,
        None => {
            return false;
        },
    };
    let count: u32 = match count_initializers(count, &p.initializer, Ghost(b)) {
        Some(n) => n,
        None => {
            return false;
        },
    };
    let mut count: u32 = match count_declarations(count, &p.value_info, Ghost(c)) {
        Some(n) => n,
        None => {
            return false;
        },
    };
    for i in 0..p.node.len()
        invariant
            p.node@.len() <= u32::MAX,
            prologue == mentions::prologue(*p),
            count == mentions::use_all(prologue, p.node@, i as nat).len(),
    {
        let ghost now = mentions::use_all(prologue, p.node@, i as nat);
        let ghost node = p.node@[i as int];
        let ghost id = NodeId(i as u32);
        let ghost read = mentions::place_all(
            now,
            node.input@,
            mentions::Role::Read(id),
            node.input@.len(),
        );
        proof {
            mentions::lemma_use_all_extends(prologue, p.node@, i as nat + 1, p.node@.len());
            assert(mentions::use_all(prologue, p.node@, i as nat + 1) == mentions::use_node(
                now,
                node,
                id,
            ));
            mentions::lemma_place_all_extends(
                read,
                node.output@,
                mentions::Role::Written(id),
                0,
                node.output@.len(),
            );
        }
        match count_positions(count, &p.node[i].input, Ghost(now), Ghost(mentions::Role::Read(id))) {
            Some(n) => {
                count = n;
            },
            None => {
                return false;
            },
        }
        match count_positions(
            count,
            &p.node[i].output,
            Ghost(read),
            Ghost(mentions::Role::Written(id)),
        ) {
            Some(n) => {
                count = n;
            },
            None => {
                return false;
            },
        }
    }
    true
}

/// The number of graphs in `p`, where that and all else can be numbered.
fn numberable_size(p: &GraphProto) -> (size: Option<u32>)
    ensures
        match size {
            Some(n) => numberable(*p) && n == graph_size(*p),
            None => !numberable(*p) || graph_size(*p) > u32::MAX,
        },
    decreases p, 2nat,
{
    if p.node.len() > u32::MAX as usize || !mentions_fit(p) {
        return None;
    }
    let mut size: u32 = 1;
    for i in 0..p.node.len()
        invariant
            mentions::mentions(*p).len() <= u32::MAX,
            p.node@.len() <= u32::MAX,
            size == 1 + nodes_size(*p, i as nat),
            nodes_numberable(*p, i as nat),
    {
        proof {
            lemma_nodes_size_grows(*p, i as nat + 1, p.node@.len());
        }
        match nested_size(p, i, size) {
            Some(n) => {
                size = n;
            },
            None => {
                return None;
            },
        }
    }
    Some(size)
}

/// `start` and the number of graphs nested in node `i` of `p`, where that and
/// all else can be numbered.
fn nested_size(p: &GraphProto, i: usize, start: u32) -> (size: Option<u32>)
    requires
        i < p.node@.len(),
    ensures
        ({
            let m = p.node@[i as int].attribute@.len();
            match size {
                Some(n) => attrs_numberable(*p, i as nat, m) && n == start + attrs_size(
                    *p,
                    i as nat,
                    m,
                ),
                None => !attrs_numberable(*p, i as nat, m) || start + attrs_size(*p, i as nat, m)
                    > u32::MAX,
            }
        }),
    decreases p, 1nat,
{
    let attrs: &Vec<AttributeProto> = &p.node[i].attribute;
    let mut size: u32 = start;
    for j in 0..attrs.len()
        invariant
            i < p.node@.len(),
            attrs@ == p.node@[i as int].attribute@,
            attrs_numberable(*p, i as nat, j as nat),
            size == start + attrs_size(*p, i as nat, j as nat),
    {
        proof {
            lemma_attrs_size_grows(*p, i as nat, j as nat + 1, attrs@.len());
        }
        let attr: &AttributeProto = &attrs[j];
        let declared: i32 = match attr.attr_type {
            Some(ty) => ty.0,
            None => 0,
        };
        let other: bool = (declared == AttributeType::FLOAT && attr.f.is_some()) || (declared
            == AttributeType::INT && attr.i.is_some()) || (declared == AttributeType::STRING
            && attr.s.is_some()) || declared == AttributeType::FLOATS || declared
            == AttributeType::INTS;
        if let Some(g) = &attr.g {
            if !other {
                assert(holds_graph(*attr));
                let more: Option<u32> = numberable_size(g);
                match more {
                    Some(more) => match size.checked_add(more) {
                        Some(n) => {
                            size = n;
                        },
                        None => {
                            return None;
                        },
                    },
                    None => {
                        return None;
                    },
                }
            }
        }
    }
    Some(size)
}

impl Model {
    /// Whether everything in the message can be numbered in 32 bits.
    pub fn is_buildable(proto: &ModelProto) -> (fits: bool)
        ensures
            fits == buildable(*proto),
    {
        match &proto.graph {
            Some(graph) => numberable_size(graph).is_some(),
            None => true,
        }
    }
}

} // verus!
