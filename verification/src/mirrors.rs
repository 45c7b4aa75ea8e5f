//! Views show what they are views of: every field, and every item in its place.

use crate::chars;
use crate::collect::{LayoutNode, Scope};
use crate::details;
use crate::graph::{Graph, GraphView, Model, OpsetImport};
use crate::hierarchy::{Group, Hierarchy};
use crate::model::{
    self, AttrValue, AttrValueView, Attribute, Dim, DimView, GraphId, Node, NodeId, NodeView, Shape,
    Tensor, TensorData, Value,
};
use crate::navigation::{self, Navigation};
use crate::op_schema::{self, Arity, OpSchema};
use crate::overview::{self, Crumb};
use crate::queries;
use crate::routing;
use crate::search;
use crate::text;
use crate::values::{self, External};
use vstd::prelude::*;

verus! {

/// Things in a list are seen in their order.
pub proof fn law_lists_are_seen_in_order<T: View>(items: Seq<T>, i: int)
    ensures
        chars::views(items).len() == items.len(),
        0 <= i < items.len() ==> chars::views(items)[i] == items[i]@,
{
}

/// A thing that may be missing is seen exactly where it is there.
pub proof fn law_what_is_there_is_seen<T: View>(item: T)
    ensures
        chars::opt_view(Some(item)) == Some(item@),
        chars::opt_view(None::<T>) is None,
{
}

/// Tuples in a list are seen in their order, part by part.
pub proof fn law_tuples_are_seen_in_order(
    pairs: Seq<(String, String)>,
    params: Seq<(String, Arity)>,
    counts: Seq<(&str, usize)>,
    bodies: Seq<(NodeId, &str, GraphId)>,
    crumbs: Seq<Crumb>,
    i: int,
)
    ensures
        model::pair_views(pairs).len() == pairs.len(),
        0 <= i < pairs.len() ==> model::pair_views(pairs)[i] == (pairs[i].0@, pairs[i].1@),
        op_schema::param_views(params).len() == params.len(),
        0 <= i < params.len() ==> op_schema::param_views(params)[i] == (params[i].0@, params[i].1),
        queries::count_views(counts).len() == counts.len(),
        0 <= i < counts.len() ==> queries::count_views(counts)[i].0 == counts[i].0@
            && queries::count_views(counts)[i].1 == counts[i].1,
        queries::subgraph_views(bodies).len() == bodies.len(),
        0 <= i < bodies.len() ==> queries::subgraph_views(bodies)[i] == (
            bodies[i].0,
            bodies[i].1@,
            bodies[i].2,
        ),
        overview::crumb_views(crumbs).len() == crumbs.len(),
        0 <= i < crumbs.len() ==> overview::crumb_views(crumbs)[i] == (
            crumbs[i].label@,
            crumbs[i].step,
        ),
{
}

/// Lists in a list are seen in their order.
pub proof fn law_nested_lists_are_seen_in_order(
    lists: Seq<Vec<usize>>,
    pieces: Seq<Vec<char>>,
    i: int,
)
    ensures
        routing::lists(lists).len() == lists.len(),
        0 <= i < lists.len() ==> routing::lists(lists)[i] == lists[i]@,
        chars::pieces_view(pieces).len() == pieces.len(),
        0 <= i < pieces.len() ==> chars::pieces_view(pieces)[i] == pieces[i]@,
{
}

/// A tensor is seen with its type, its dimensions and its data.
pub proof fn law_tensors_are_seen(tensor: Tensor)
    ensures
        tensor@.dtype == tensor.dtype,
        tensor@.dims == tensor.dims@,
        match tensor.data {
            TensorData::Raw(v) => tensor@.data == model::DataView::Raw(v@),
            TensorData::Floats(v) => tensor@.data == model::DataView::Floats(v@),
            TensorData::Int32s(v) => tensor@.data == model::DataView::Int32s(v@),
            TensorData::Int64s(v) => tensor@.data == model::DataView::Int64s(v@),
            TensorData::Doubles(v) => tensor@.data == model::DataView::Doubles(v@),
            TensorData::External { entries } => tensor@.data is External
                && tensor@.data->External_0.len() == entries@.len(),
            TensorData::Missing => tensor@.data is Missing,
        },
{
}

/// A dimension is seen as the number or the name that it is.
pub proof fn law_shapes_are_seen(shape: Shape, i: int)
    ensures
        shape@.len() == (shape.0)@.len(),
        0 <= i < shape@.len() ==> match (shape.0)@[i] {
            Dim::Fixed(n) => shape@[i] == DimView::Fixed(n),
            Dim::Param(name) => shape@[i] == DimView::Param(name@),
            Dim::Unknown => shape@[i] is Unknown,
        },
{
}

/// An attribute is seen with its name and its value.
pub proof fn law_attributes_are_seen(attr: Attribute, i: int)
    ensures
        attr@.name == attr.name@,
        match attr.value {
            AttrValue::Float(v) => attr@.value == AttrValueView::Float(v),
            AttrValue::Int(v) => attr@.value == AttrValueView::Int(v),
            AttrValue::String(v) => attr@.value == AttrValueView::String(v@),
            AttrValue::Floats(v) => attr@.value == AttrValueView::Floats(v@),
            AttrValue::Ints(v) => attr@.value == AttrValueView::Ints(v@),
            AttrValue::Strings(v) => attr@.value is Strings && attr@.value->Strings_0.len()
                == v@.len() && (0 <= i < v@.len() ==> attr@.value->Strings_0[i] == v@[i]@),
            AttrValue::Tensor(v) => attr@.value == AttrValueView::Tensor(v@),
            AttrValue::Graph(v) => attr@.value == AttrValueView::Graph(v),
            AttrValue::Unsupported(v) => attr@.value == AttrValueView::Unsupported(v),
        },
{
}

/// A node is seen with everything that it holds.
pub proof fn law_nodes_are_seen(node: Node, i: int)
    ensures
        node@.id == node.id,
        node@.name == node.name@,
        node@.named == node.named,
        node@.op_type == node.op_type@,
        node@.domain == node.domain@,
        node@.inputs == node.inputs@,
        node@.outputs == node.outputs@,
        node@.attrs.len() == node.attrs@.len(),
        0 <= i < node.attrs@.len() ==> node@.attrs[i] == node.attrs@[i]@,
{
}

/// A value is seen with everything that is known of it.
pub proof fn law_values_are_seen(value: Value)
    ensures
        value@.id == value.id,
        value@.name == value.name@,
        value@.kind == value.kind,
        value@.dtype == value.dtype,
        value@.shape is Some <==> value.shape is Some,
        value.shape is Some ==> value@.shape->0 == (value.shape->0)@,
        value@.producer == value.producer,
        value@.consumers == value.consumers@,
        value@.tensor is Some <==> value.tensor is Some,
        value.tensor is Some ==> value@.tensor->0 == (value.tensor->0)@,
        value@.outer == value.outer,
{
}

/// A graph is seen with its nodes and values in their order.
pub proof fn law_graphs_are_seen(graph: Graph, i: int)
    ensures
        graph@.id == graph.id,
        graph@.parent == graph.parent,
        graph@.label == graph.label@,
        graph@.nodes.len() == graph.nodes@.len(),
        0 <= i < graph.nodes@.len() ==> graph@.nodes[i] == graph.nodes@[i]@,
        graph@.values.len() == graph.values@.len(),
        0 <= i < graph.values@.len() ==> graph@.values[i] == graph.values@[i]@,
        graph@.inputs == graph.inputs@,
        graph@.outputs == graph.outputs@,
{
}

/// A model is seen with its graphs in their order, and with what it says of
/// itself.
pub proof fn law_models_are_seen(model: Model, opset: OpsetImport, i: int)
    ensures
        model@.ir_version == model.ir_version,
        model@.producer_name is Some <==> model.producer_name is Some,
        model.producer_name is Some ==> model@.producer_name->0 == (model.producer_name->0)@,
        model@.producer_version is Some <==> model.producer_version is Some,
        model.producer_version is Some ==> model@.producer_version->0 == (
        model.producer_version->0)@,
        model@.opset_imports.len() == model.opset_imports@.len(),
        0 <= i < model.opset_imports@.len() ==> model@.opset_imports[i]
            == model.opset_imports@[i]@,
        opset@.domain == opset.domain@,
        opset@.version == opset.version,
        model@.metadata.len() == model.metadata@.len(),
        0 <= i < model.metadata@.len() ==> model@.metadata[i].0 == model.metadata@[i].0@
            && model@.metadata[i].1 == model.metadata@[i].1@,
        model@.graphs.len() == model.graphs@.len(),
        0 <= i < model.graphs@.len() ==> model@.graphs[i] == model.graphs@[i]@,
        model@.root == model.root,
{
}

/// A hierarchy is seen with its groups in their order, and where each node is.
pub proof fn law_hierarchies_are_seen(hierarchy: Hierarchy, group: Group, i: int)
    ensures
        hierarchy@.groups.len() == hierarchy.groups@.len(),
        0 <= i < hierarchy.groups@.len() ==> hierarchy@.groups[i] == hierarchy.groups@[i]@,
        hierarchy@.node_group == hierarchy.node_group@,
        group@.parent == group.parent,
        group@.name == group.name@,
        group@.path == group.path@,
        group@.children == group.children@,
        group@.nodes == group.nodes@,
        group@.total_nodes == group.total_nodes,
        group@.depth == group.depth,
{
}

/// A box is seen with what is written on it, and a scope as the group that it
/// is.
pub proof fn law_boxes_are_seen(b: LayoutNode, scope: Scope)
    ensures
        b@.kind == b.kind,
        b@.title == b.title@,
        b@.subtitle == b.subtitle@,
        b@.category == b.category,
        scope@.hierarchy == scope.hierarchy@,
        scope@.group == scope.group,
{
}

/// What the user has done is seen in full.
pub proof fn law_navigations_are_seen(nav: Navigation, hierarchy: &Hierarchy)
    ensures
        nav@.graph == nav.graph,
        nav@.grouped == nav.grouped,
        nav@.scope == nav.scope,
        nav@.selection == nav.selection,
        nav@.history == nav.history@,
        nav@.query == nav.query@,
        nav@.filtering == nav.filtering,
        nav@.matches == nav.matches@,
        navigation::opt_hierarchy(Some(hierarchy)) == Some(hierarchy@),
        navigation::opt_hierarchy(None) is None,
{
}

/// A signature is seen with its parameters, and a place in another file as it
/// is given.
pub proof fn law_signatures_are_seen(schema: OpSchema, params: &Vec<(String, Arity)>, external: External)
    ensures
        schema@.domain == schema.domain@,
        schema@.op_type == schema.op_type@,
        schema@.inputs == op_schema::param_views(schema.inputs@),
        schema@.outputs == op_schema::param_views(schema.outputs@),
        details::opt_params(Some(params)) == Some(op_schema::param_views(params@)),
        details::opt_params(None) is None,
        external@.location == external.location@,
        external@.offset == external.offset,
        external@.length == external.length,
{
}

/// Complex numbers are the types with two parts.
pub proof fn law_complex_types(code: i32)
    ensures
        values::is_complex(code) <==> code == 14 || code == 15,
{
}

/// The floats of an attribute that are written out are the first of them,
/// sixteen at most.
pub proof fn law_floats_are_written_out(value: AttrValueView, i: int)
    ensures
        match value {
            AttrValueView::Float(v) => value.shown_floats() == seq![v],
            AttrValueView::Floats(v) => {
                &&& value.shown_floats().len() == if v.len() < 16 {
                    v.len()
                } else {
                    16
                }
                &&& 0 <= i < value.shown_floats().len() ==> value.shown_floats()[i] == v[i]
            },
            _ => value.shown_floats().len() == 0,
        },
{
}

/// The pane and the list of matches keep what fits, and cut the rest.
pub proof fn law_rows_are_cut(value: AttrValueView, numbers: Seq<Seq<char>>, node: NodeView)
    ensures
        value.text(numbers).len() <= 72 ==> details::attr_text(value, numbers) == value.text(
            numbers,
        ),
        value.text(numbers).len() > 72 ==> details::attr_text(value, numbers).len() == 72
            && details::attr_text(value, numbers).take(71) == value.text(numbers).take(71),
        (node.op_type + "  "@ + node.name).len() <= 56 ==> search::match_text(node) == node.op_type
            + "  "@ + node.name,
        (node.op_type + "  "@ + node.name).len() > 56 ==> search::match_text(node).len() == 56
            && search::match_text(node).take(55) == (node.op_type + "  "@ + node.name).take(55),
{
    if value.text(numbers).len() > 72 {
        assert(details::attr_text(value, numbers).take(71) =~= value.text(numbers).take(71));
    }
    let line = node.op_type + "  "@ + node.name;
    if line.len() > 56 {
        assert(search::match_text(node).take(55) =~= line.take(55));
    }
}

/// The constants of a graph can be counted exactly where the elements behind
/// each of its values can.
pub proof fn law_constants_can_be_counted(g: GraphView)
    ensures
        details::constants_countable(g) <==> forall|i: int|
            0 <= i < g.values.len() && g.constant_tensor(#[trigger] g.values[i]) is Some
                ==> model::countable(g.constant_tensor(g.values[i])->0.dims),
{
    if forall|i: int|
        0 <= i < g.values.len() && g.constant_tensor(#[trigger] g.values[i]) is Some
            ==> model::countable(g.constant_tensor(g.values[i])->0.dims) {
        assert forall|i: int| 0 <= i < g.values.len() implies details::value_countable(
            g,
            #[trigger] g.values[i],
        ) by {}
    }
    if details::constants_countable(g) {
        assert forall|i: int|
            0 <= i < g.values.len() && g.constant_tensor(#[trigger] g.values[i])
                is Some implies model::countable(g.constant_tensor(g.values[i])->0.dims) by {
            assert(details::value_countable(g, g.values[i]));
        }
    }
}

} // verus!
