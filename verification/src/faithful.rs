//! What a model keeps of the messages that it is built from.

use crate::builder;
use crate::graph::GraphView;
use crate::mentions::{self, Mention, Role};
use crate::model::{
    self, AttrValueView, AttributeView, DataView, DimView, GraphId, NodeId, NodeView, ValueId, ValueKind,
};
use crate::proto::{
    AttributeProto, DataType, Dimension, GraphProto, NodeProto, TensorProto, TypeProto, ValueInfoProto,
};
use crate::tally;
use crate::wiring;
use vstd::prelude::*;

verus! {

/// Whether a message says that its data is in another file.
pub open spec fn elsewhere(proto: TensorProto) -> bool {
    proto.data_location is Some && (proto.data_location->0).0 == 1
}

/// Whether a message holds data in one of the fields with a type.
pub open spec fn holds_numbers(proto: TensorProto) -> bool {
    ||| proto.float_data@.len() > 0
    ||| proto.int32_data@.len() > 0
    ||| proto.int64_data@.len() > 0
    ||| proto.double_data@.len() > 0
}

/// No stored data is lost: unless it is in another file, a tensor holds what its
/// message holds, and is without data only where the message has none. Type and
/// dimensions are those of the message.
pub proof fn law_no_stored_data_is_lost(proto: TensorProto)
    ensures
        ({
            let tensor = mentions::tensor_model(proto);
            &&& tensor.dims == proto.dims@
            &&& proto.data_type is Some ==> tensor.dtype == proto.data_type->0
            &&& proto.data_type is None ==> tensor.dtype.0 == 0
            &&& elsewhere(proto) <==> tensor.data is External
            &&& !elsewhere(proto) ==> {
                &&& tensor.data is Missing <==> proto.raw_data is None && !holds_numbers(proto)
                &&& proto.raw_data is Some ==> tensor.data == DataView::Raw(proto.raw_data->0@)
                &&& proto.raw_data is None ==> !(tensor.data is Raw)
                &&& proto.raw_data is None && proto.float_data@.len() > 0 ==> tensor.data
                    == DataView::Floats(proto.float_data@)
                &&& proto.raw_data is None && proto.float_data@.len() == 0 ==> !(
                tensor.data is Floats)
                &&& proto.raw_data is None && proto.float_data@.len() == 0
                    && proto.int32_data@.len() > 0 ==> tensor.data == DataView::Int32s(
                    proto.int32_data@,
                )
                &&& proto.raw_data is None && proto.float_data@.len() == 0
                    && proto.int32_data@.len() == 0 && proto.int64_data@.len() > 0 ==> tensor.data
                    == DataView::Int64s(proto.int64_data@)
                &&& proto.raw_data is None && proto.float_data@.len() == 0
                    && proto.int32_data@.len() == 0 && proto.int64_data@.len() == 0
                    && proto.double_data@.len() > 0 ==> tensor.data == DataView::Doubles(
                    proto.double_data@,
                )
            }
        }),
{
}

/// A tensor in another file keeps all the entries that say where, in order, each
/// with its key and its value.
pub proof fn law_entries_are_kept(proto: TensorProto, k: int)
    requires
        elsewhere(proto),
        0 <= k < proto.external_data@.len(),
    ensures
        ({
            let entries = mentions::tensor_model(proto).data->External_0;
            let entry = proto.external_data@[k];
            &&& entries.len() == proto.external_data@.len()
            &&& entry.key is Some ==> entries[k].0 == entry.key->0@
            &&& entry.key is None ==> entries[k].0.len() == 0
            &&& entry.value is Some ==> entries[k].1 == entry.value->0@
            &&& entry.value is None ==> entries[k].1.len() == 0
        }),
{
}

/// A dimension with a number is that number; one with a name only, unless that
/// is empty, is symbolic; any other is unknown.
pub proof fn law_dimensions_are_kept(dim: Dimension)
    ensures
        dim.dim_value is Some ==> mentions::dim_model(dim) == DimView::Fixed(dim.dim_value->0),
        dim.dim_value is None && dim.dim_param is Some && dim.dim_param->0@.len() > 0
            ==> mentions::dim_model(dim) == DimView::Param(dim.dim_param->0@),
        dim.dim_value is None && (dim.dim_param is None || dim.dim_param->0@.len() == 0)
            ==> mentions::dim_model(dim) == DimView::Unknown,
{
}

/// A tensor type gives its element type and every one of its dimensions, a type
/// without a shape gives none, and a sequence gives what its element gives.
pub proof fn law_types_are_kept(ty: TypeProto)
    ensures
        ({
            let (dtype, shape) = mentions::type_model(ty);
            match (ty.tensor_type, ty.sequence) {
                (Some(tensor), _) => {
                    &&& dtype == tensor.elem_type
                    &&& shape is Some <==> tensor.shape is Some
                    &&& shape is Some ==> shape->0.len() == tensor.shape->0.dim@.len()
                    &&& shape is Some ==> forall|k: int|
                        0 <= k < shape->0.len() ==> #[trigger] shape->0[k] == mentions::dim_model(
                            tensor.shape->0.dim@[k],
                        )
                },
                (None, Some(sequence)) => match sequence.elem_type {
                    Some(elem) => (dtype, shape) == mentions::type_model(elem),
                    None => dtype is None && shape is None,
                },
                (None, None) => dtype is None && shape is None,
            }
        }),
{
}

/// How many of the fields of an attribute are populated.
pub open spec fn populated(attr: AttributeProto) -> int {
    tally::one(attr.f is Some) + tally::one(attr.i is Some) + tally::one(attr.s is Some)
        + tally::one(attr.t is Some) + tally::one(attr.g is Some) + tally::one(
        attr.floats@.len() > 0,
    ) + tally::one(attr.ints@.len() > 0) + tally::one(attr.strings@.len() > 0)
}

/// Whether an attribute is declared to be of the type with this number.
pub open spec fn declares(attr: AttributeProto, code: i32) -> bool {
    attr.attr_type is Some && (attr.attr_type->0).0 == code
}

/// An attribute has the value of the field that its type names, where that field
/// is there; a list may be empty. Otherwise, where just one field is populated
/// it has that value, and only where none is populated it is not understood.
pub proof fn law_attributes_keep_their_values(attr: AttributeProto, subgraph: GraphId)
    ensures
        ({
            let value = builder::attr_value_model(attr, subgraph);
            let listed = declares(attr, 6) || declares(attr, 7);
            &&& declares(attr, 1) && attr.f is Some ==> value == AttrValueView::Float(attr.f->0)
            &&& declares(attr, 2) && attr.i is Some ==> value == AttrValueView::Int(attr.i->0)
            &&& declares(attr, 3) && attr.s is Some ==> value == AttrValueView::String(attr.s->0@)
            &&& declares(attr, 6) ==> value == AttrValueView::Floats(attr.floats@)
            &&& declares(attr, 7) ==> value == AttrValueView::Ints(attr.ints@)
            &&& !listed ==> {
                &&& value is Unsupported <==> populated(attr) == 0
                &&& populated(attr) == 1 ==> {
                    &&& attr.f is Some ==> value == AttrValueView::Float(attr.f->0)
                    &&& attr.i is Some ==> value == AttrValueView::Int(attr.i->0)
                    &&& attr.s is Some ==> value == AttrValueView::String(attr.s->0@)
                    &&& attr.t is Some ==> value == AttrValueView::Tensor(
                        mentions::tensor_model(attr.t->0),
                    )
                    &&& attr.g is Some ==> value == AttrValueView::Graph(subgraph)
                    &&& attr.floats@.len() > 0 ==> value == AttrValueView::Floats(attr.floats@)
                    &&& attr.ints@.len() > 0 ==> value == AttrValueView::Ints(attr.ints@)
                    &&& attr.strings@.len() > 0 ==> value == AttrValueView::Strings(
                        Seq::new(attr.strings@.len(), |k: int| attr.strings@[k]@),
                    )
                }
            }
            &&& value is Graph <==> builder::holds_graph(attr)
            &&& value is Unsupported ==> value == AttrValueView::Unsupported(
                if attr.attr_type is Some {
                    (attr.attr_type->0).0
                } else {
                    0
                },
            )
        }),
{
}

/// The number of a graph's value with this name.
pub open spec fn at_name(g: GraphView, id: Option<ValueId>, name: Seq<char>) -> bool {
    &&& id is Some
    &&& (id->0).0 < g.values.len()
    &&& g.values[(id->0).0 as int].name == name
}

proof fn lemma_names_stand(p: GraphProto, id: nat, parent: Option<GraphId>, label: Seq<char>)
    ensures
        ({
            let g = builder::graph_model(p, id, parent, label);
            let names = mentions::names_of(mentions::mentions(p));
            &&& g.values.len() == names.len()
            &&& g.names() == names
            &&& forall|i: int| 0 <= i < names.len() ==> (#[trigger] g.values[i]).name == names[i]
        }),
{
    let g = builder::graph_model(p, id, parent, label);
    let ms = mentions::mentions(p);
    let names = mentions::names_of(ms);
    assert forall|i: int| 0 <= i < names.len() implies (#[trigger] g.values[i]).name == names[i] by {
        mentions::lemma_learned_name(ms, i, names[i]);
    }
    assert(g.names() =~= names);
}

/// Every node keeps its operator, its domain, its name where it has one, and at
/// each of its positions the value that is named there, none where none is.
pub proof fn law_nodes_are_kept(
    p: GraphProto,
    id: nat,
    parent: Option<GraphId>,
    label: Seq<char>,
    i: int,
)
    requires
        builder::numberable(p),
        0 <= i < p.node@.len(),
    ensures
        ({
            let g = builder::graph_model(p, id, parent, label);
            let from = p.node@[i];
            let node = g.nodes[i];
            &&& g.nodes.len() == p.node@.len()
            &&& node.id.0 == i
            &&& from.op_type is Some ==> node.op_type == from.op_type->0@
            &&& from.op_type is None ==> node.op_type == "Unknown"@
            &&& from.domain is Some ==> node.domain == from.domain->0@
            &&& from.domain is None ==> node.domain.len() == 0
            &&& node.named <==> from.name is Some && from.name->0@.len() > 0
            &&& node.named ==> node.name == from.name->0@
            &&& !node.named ==> node.name == node.op_type + "_"@ + crate::text::decimal(i as nat)
            &&& node.inputs.len() == from.input@.len()
            &&& forall|j: int|
                0 <= j < from.input@.len() ==> if from.input@[j]@.len() > 0 {
                    at_name(g, #[trigger] node.inputs[j], from.input@[j]@)
                } else {
                    node.inputs[j] is None
                }
            &&& node.outputs.len() == from.output@.len()
            &&& forall|j: int|
                0 <= j < from.output@.len() ==> if from.output@[j]@.len() > 0 {
                    at_name(g, #[trigger] node.outputs[j], from.output@[j]@)
                } else {
                    node.outputs[j] is None
                }
            &&& node.attrs.len() == from.attribute@.len()
            &&& forall|j: int|
                0 <= j < from.attribute@.len() ==> {
                    let attr = #[trigger] node.attrs[j];
                    &&& from.attribute@[j].name is Some ==> attr.name
                        == from.attribute@[j].name->0@
                    &&& from.attribute@[j].name is None ==> attr.name.len() == 0
                    &&& attr.value == builder::attr_value_model(
                        from.attribute@[j],
                        GraphId(builder::subgraph_place(p, id, i as nat, j as nat) as u32),
                    )
                }
        }),
{
    let g = builder::graph_model(p, id, parent, label);
    let names = mentions::names_of(mentions::mentions(p));
    let from = p.node@[i];
    let node = g.nodes[i];
    mentions::lemma_names_are_distinct(mentions::mentions(p));
    lemma_names_stand(p, id, parent, label);
    wiring::lemma_positions_within(p, i);
    assert forall|j: int| 0 <= j < from.input@.len() implies if from.input@[j]@.len() > 0 {
        at_name(g, #[trigger] node.inputs[j], from.input@[j]@)
    } else {
        node.inputs[j] is None
    } by {
        if from.input@[j]@.len() > 0 {
            assert(names.contains(from.input@[j]@));
            assert(names[names.index_of(from.input@[j]@)] == from.input@[j]@);
        }
    }
    assert forall|j: int| 0 <= j < from.output@.len() implies if from.output@[j]@.len() > 0 {
        at_name(g, #[trigger] node.outputs[j], from.output@[j]@)
    } else {
        node.outputs[j] is None
    } by {
        if from.output@[j]@.len() > 0 {
            assert(names.contains(from.output@[j]@));
            assert(names[names.index_of(from.output@[j]@)] == from.output@[j]@);
        }
    }
}

/// Whether a declaration has a name.
pub open spec fn has_name(info: ValueInfoProto) -> bool {
    info.name is Some && info.name->0@.len() > 0
}

/// How many of the first `n` declarations have a name.
pub open spec fn names_before(infos: Seq<ValueInfoProto>, n: nat) -> int {
    tally::sum(n, |k: int| tally::one(has_name(infos[k])))
}

proof fn lemma_declared_ids_follow(
    names: Seq<Seq<char>>,
    infos: Seq<ValueInfoProto>,
    n: nat,
    k: int,
)
    requires
        n <= infos.len(),
    ensures
        mentions::declared_ids(names, infos, n).len() == names_before(infos, n),
        0 <= k < n && has_name(infos[k]) ==> 0 <= names_before(infos, k as nat) < names_before(
            infos,
            n,
        ) && mentions::declared_ids(names, infos, n)[names_before(infos, k as nat)]
            == mentions::id_of(names, infos[k].name->0@),
    decreases n,
{
    if n > 0 {
        lemma_declared_ids_follow(names, infos, (n - 1) as nat, k);
        if 0 <= k < n - 1 && has_name(infos[k]) {
            lemma_declared_ids_follow(names, infos, k as nat, k);
        }
    }
}

/// The inputs and outputs of a graph are the values that it declares as such, in
/// the order of the declarations that have a name.
pub proof fn law_boundaries_are_kept(
    p: GraphProto,
    id: nat,
    parent: Option<GraphId>,
    label: Seq<char>,
    k: int,
)
    requires
        builder::numberable(p),
    ensures
        ({
            let g = builder::graph_model(p, id, parent, label);
            let input = names_before(p.input@, k as nat);
            let output = names_before(p.output@, k as nat);
            &&& g.inputs.len() == names_before(p.input@, p.input@.len())
            &&& g.outputs.len() == names_before(p.output@, p.output@.len())
            &&& 0 <= k < p.input@.len() && has_name(p.input@[k]) ==> at_name(
                g,
                Some(g.inputs[input]),
                p.input@[k].name->0@,
            )
            &&& 0 <= k < p.output@.len() && has_name(p.output@[k]) ==> at_name(
                g,
                Some(g.outputs[output]),
                p.output@[k].name->0@,
            )
        }),
{
    let g = builder::graph_model(p, id, parent, label);
    let names = mentions::names_of(mentions::mentions(p));
    mentions::lemma_names_are_distinct(mentions::mentions(p));
    lemma_names_stand(p, id, parent, label);
    lemma_declared_ids_follow(names, p.input@, p.input@.len(), k);
    lemma_declared_ids_follow(names, p.output@, p.output@.len(), k);
    if 0 <= k < p.input@.len() && has_name(p.input@[k]) {
        lemma_every_name(p, p.input@[k].name->0@);
        assert(declared_as(p.input@, p.input@[k].name->0@));
        assert(names[names.index_of(p.input@[k].name->0@)] == p.input@[k].name->0@);
    }
    if 0 <= k < p.output@.len() && has_name(p.output@[k]) {
        lemma_every_name(p, p.output@[k].name->0@);
        assert(declared_as(p.output@, p.output@[k].name->0@));
        assert(names[names.index_of(p.output@[k].name->0@)] == p.output@[k].name->0@);
    }
}

/// Whether one of the declarations is that of a value with this name.
pub open spec fn declared_as(infos: Seq<ValueInfoProto>, name: Seq<char>) -> bool {
    exists|k: int| 0 <= k < infos.len() && has_name(#[trigger] infos[k]) && infos[k].name->0@ == name
}

/// Whether one of the initializers is that of a value with this name.
pub open spec fn stored_as(tensors: Seq<TensorProto>, name: Seq<char>) -> bool {
    exists|k: int|
        0 <= k < tensors.len() && (#[trigger] tensors[k]).name is Some && tensors[k].name->0@ == name
}

/// Whether a node reads or writes a value with this name.
pub open spec fn used_as(nodes: Seq<NodeProto>, name: Seq<char>) -> bool {
    name.len() > 0 && exists|i: int| 0 <= i < nodes.len() && uses(#[trigger] nodes[i], name)
}

pub open spec fn uses(node: NodeProto, name: Seq<char>) -> bool {
    (exists|j: int| 0 <= j < node.input@.len() && (#[trigger] node.input@[j])@ == name) || (exists|
        j: int,
    |
        0 <= j < node.output@.len() && (#[trigger] node.output@[j])@ == name)
}

/// Whether one of the mentions is of this name.
spec fn mentioned(ms: Seq<Mention>, name: Seq<char>) -> bool {
    exists|k: int| 0 <= k < ms.len() && (#[trigger] ms[k]).name == name
}

proof fn lemma_names_are_mentioned(ms: Seq<Mention>, name: Seq<char>)
    ensures
        mentions::names_of(ms).contains(name) <==> mentioned(ms, name),
    decreases ms.len(),
{
    if ms.len() > 0 {
        let before = ms.drop_last();
        let names = mentions::names_of(before);
        lemma_names_are_mentioned(before, name);
        if mentioned(before, name) {
            let k = choose|k: int| 0 <= k < before.len() && (#[trigger] before[k]).name == name;
            assert(ms[k].name == name);
            let at = names.index_of(name);
            assert(names[at] == name);
            assert(mentions::names_of(ms)[at] == name);
        }
        if ms.last().name == name {
            assert(ms[ms.len() - 1].name == name);
            if !names.contains(name) {
                assert(mentions::names_of(ms)[names.len() as int] == name);
            }
        }
        if mentioned(ms, name) && ms.last().name != name {
            let k = choose|k: int| 0 <= k < ms.len() && (#[trigger] ms[k]).name == name;
            assert(before[k].name == name);
        }
        if mentions::names_of(ms).contains(name) && !names.contains(name) {
            let at = mentions::names_of(ms).index_of(name);
            assert(mentions::names_of(ms)[at] == name);
            assert(at == names.len());
        }
    }
}

proof fn lemma_mentioned_with(ms: Seq<Mention>, m: Option<Mention>, name: Seq<char>)
    ensures
        mentioned(mentions::with(ms, m), name) <==> mentioned(ms, name) || (m is Some && (
        m->0).name == name),
{
    let after = mentions::with(ms, m);
    if mentioned(ms, name) {
        let k = choose|k: int| 0 <= k < ms.len() && (#[trigger] ms[k]).name == name;
        assert(after[k].name == name);
    }
    if m is Some && (m->0).name == name {
        assert(after[ms.len() as int].name == name);
    }
    if mentioned(after, name) {
        let k = choose|k: int| 0 <= k < after.len() && (#[trigger] after[k]).name == name;
        if k < ms.len() {
            assert(ms[k].name == name);
        }
    }
}

proof fn lemma_mentioned_declared(
    ms: Seq<Mention>,
    infos: Seq<ValueInfoProto>,
    n: nat,
    name: Seq<char>,
)
    requires
        n <= infos.len(),
    ensures
        mentioned(mentions::declare_all(ms, infos, n), name) <==> mentioned(ms, name)
            || declared_as(infos.take(n as int), name),
    decreases n,
{
    let part = infos.take(n as int);
    if n > 0 {
        let less = infos.take(n - 1);
        lemma_mentioned_declared(ms, infos, (n - 1) as nat, name);
        lemma_mentioned_with(
            mentions::declare_all(ms, infos, (n - 1) as nat),
            mentions::declaration(infos[n - 1]),
            name,
        );
        if declared_as(less, name) {
            let k = choose|k: int|
                0 <= k < less.len() && has_name(#[trigger] less[k]) && less[k].name->0@ == name;
            assert(part[k] == less[k]);
        }
        if has_name(infos[n - 1]) && infos[n - 1].name->0@ == name {
            assert(part[n - 1] == infos[n - 1]);
        }
        if declared_as(part, name) {
            let k = choose|k: int|
                0 <= k < part.len() && has_name(#[trigger] part[k]) && part[k].name->0@ == name;
            if k < n - 1 {
                assert(less[k] == part[k]);
            }
        }
    }
}

proof fn lemma_mentioned_stored(
    ms: Seq<Mention>,
    tensors: Seq<TensorProto>,
    n: nat,
    name: Seq<char>,
)
    requires
        n <= tensors.len(),
    ensures
        mentioned(mentions::store_all(ms, tensors, n), name) <==> mentioned(ms, name) || stored_as(
            tensors.take(n as int),
            name,
        ),
    decreases n,
{
    let part = tensors.take(n as int);
    if n > 0 {
        let less = tensors.take(n - 1);
        lemma_mentioned_stored(ms, tensors, (n - 1) as nat, name);
        lemma_mentioned_with(
            mentions::store_all(ms, tensors, (n - 1) as nat),
            mentions::storage(tensors[n - 1]),
            name,
        );
        if stored_as(less, name) {
            let k = choose|k: int|
                0 <= k < less.len() && (#[trigger] less[k]).name is Some && less[k].name->0@ == name;
            assert(part[k] == less[k]);
        }
        if tensors[n - 1].name is Some && tensors[n - 1].name->0@ == name {
            assert(part[n - 1] == tensors[n - 1]);
        }
        if stored_as(part, name) {
            let k = choose|k: int|
                0 <= k < part.len() && (#[trigger] part[k]).name is Some && part[k].name->0@ == name;
            if k < n - 1 {
                assert(less[k] == part[k]);
            }
        }
    }
}

proof fn lemma_mentioned_placed(
    ms: Seq<Mention>,
    positions: Seq<String>,
    role: Role,
    n: nat,
    name: Seq<char>,
)
    requires
        n <= positions.len(),
    ensures
        mentioned(mentions::place_all(ms, positions, role, n), name) <==> mentioned(ms, name) || (
        name.len() > 0 && wiring::at_position(positions, n, name)),
    decreases n,
{
    if n > 0 {
        lemma_mentioned_placed(ms, positions, role, (n - 1) as nat, name);
        lemma_mentioned_with(
            mentions::place_all(ms, positions, role, (n - 1) as nat),
            mentions::position(positions[n - 1]@, role),
            name,
        );
        if wiring::at_position(positions, (n - 1) as nat, name) {
            let j = choose|j: int| 0 <= j < n - 1 && (#[trigger] positions[j])@ == name;
            assert(positions[j]@ == name);
        }
        if wiring::at_position(positions, n, name) {
            let j = choose|j: int| 0 <= j < n && (#[trigger] positions[j])@ == name;
            if j < n - 1 {
                assert(wiring::at_position(positions, (n - 1) as nat, name));
            }
        }
        if positions[n - 1]@ == name {
            assert(wiring::at_position(positions, n, name));
        }
    }
}

proof fn lemma_mentioned_used(ms: Seq<Mention>, nodes: Seq<NodeProto>, n: nat, name: Seq<char>)
    requires
        n <= nodes.len(),
    ensures
        mentioned(mentions::use_all(ms, nodes, n), name) <==> mentioned(ms, name) || used_as(
            nodes.take(n as int),
            name,
        ),
    decreases n,
{
    let part = nodes.take(n as int);
    if n > 0 {
        let less = nodes.take(n - 1);
        let node = nodes[n - 1];
        let id = NodeId((n - 1) as u32);
        let before = mentions::use_all(ms, nodes, (n - 1) as nat);
        let read = mentions::place_all(before, node.input@, Role::Read(id), node.input@.len());
        lemma_mentioned_used(ms, nodes, (n - 1) as nat, name);
        lemma_mentioned_placed(before, node.input@, Role::Read(id), node.input@.len(), name);
        lemma_mentioned_placed(read, node.output@, Role::Written(id), node.output@.len(), name);
        if used_as(less, name) {
            let i = choose|i: int| 0 <= i < less.len() && uses(#[trigger] less[i], name);
            assert(uses(part[i], name));
        }
        if name.len() > 0 && uses(node, name) {
            assert(uses(part[n - 1], name));
        }
        if used_as(part, name) {
            let i = choose|i: int| 0 <= i < part.len() && uses(#[trigger] part[i], name);
            if i < n - 1 {
                assert(uses(less[i], name));
            }
        }
    }
}

/// The names of a graph's values are those that it mentions.
proof fn lemma_every_name(p: GraphProto, name: Seq<char>)
    ensures
        mentions::names_of(mentions::mentions(p)).contains(name) <==> {
            ||| declared_as(p.input@, name)
            ||| declared_as(p.output@, name)
            ||| declared_as(p.value_info@, name)
            ||| stored_as(p.initializer@, name)
            ||| used_as(p.node@, name)
        },
{
    let none = Seq::<Mention>::empty();
    let a = mentions::declare_all(none, p.input@, p.input@.len());
    let b = mentions::declare_all(a, p.output@, p.output@.len());
    let c = mentions::store_all(b, p.initializer@, p.initializer@.len());
    lemma_names_are_mentioned(mentions::mentions(p), name);
    lemma_mentioned_declared(none, p.input@, p.input@.len(), name);
    lemma_mentioned_declared(a, p.output@, p.output@.len(), name);
    lemma_mentioned_stored(b, p.initializer@, p.initializer@.len(), name);
    lemma_mentioned_declared(c, p.value_info@, p.value_info@.len(), name);
    lemma_mentioned_used(mentions::prologue(p), p.node@, p.node@.len(), name);
    assert(p.input@.take(p.input@.len() as int) =~= p.input@);
    assert(p.output@.take(p.output@.len() as int) =~= p.output@);
    assert(p.value_info@.take(p.value_info@.len() as int) =~= p.value_info@);
    assert(p.initializer@.take(p.initializer@.len() as int) =~= p.initializer@);
    assert(p.node@.take(p.node@.len() as int) =~= p.node@);
}

/// A graph has a value for every name that its declarations, its initializers
/// and its nodes give, and for no other.
pub proof fn law_values_are_what_is_named(
    p: GraphProto,
    id: nat,
    parent: Option<GraphId>,
    label: Seq<char>,
    name: Seq<char>,
)
    ensures
        (exists|v: int|
            0 <= v < builder::graph_model(p, id, parent, label).values.len() && (
            #[trigger] builder::graph_model(p, id, parent, label).values[v]).name == name) <==> {
            ||| declared_as(p.input@, name)
            ||| declared_as(p.output@, name)
            ||| declared_as(p.value_info@, name)
            ||| stored_as(p.initializer@, name)
            ||| used_as(p.node@, name)
        },
{
    let g = builder::graph_model(p, id, parent, label);
    let names = mentions::names_of(mentions::mentions(p));
    lemma_every_name(p, name);
    lemma_names_stand(p, id, parent, label);
    if names.contains(name) {
        let at = names.index_of(name);
        assert(names[at] == name);
        assert(g.values[at].name == name);
    }
    if exists|v: int| 0 <= v < g.values.len() && (#[trigger] g.values[v]).name == name {
        let v = choose|v: int| 0 <= v < g.values.len() && (#[trigger] g.values[v]).name == name;
        assert(names[v] == name);
    }
}

/// What a value is follows from the rest of the graph: stored data comes first,
/// then a constant that produces it, then the graph's inputs, then its outputs.
/// What is left is made by a node, or read from around a graph that is nested.
pub proof fn law_kinds_follow_from_the_graph(
    p: GraphProto,
    id: nat,
    parent: Option<GraphId>,
    label: Seq<char>,
    v: int,
)
    requires
        builder::numberable(p),
        0 <= v < builder::graph_model(p, id, parent, label).values.len(),
    ensures
        ({
            let g = builder::graph_model(p, id, parent, label);
            let value = g.values[v];
            let made = value.producer is Some && exists|j: int| #[trigger]
                supplies(g.nodes[(value.producer->0).0 as int], j);
            &&& value.kind == ValueKind::Initializer <==> value.tensor is Some
            &&& value.kind == ValueKind::Constant <==> value.tensor is None && made
            &&& value.kind == ValueKind::Input <==> value.tensor is None && !made
                && g.inputs.contains(value.id)
            &&& value.kind == ValueKind::Output <==> value.tensor is None && !made
                && !g.inputs.contains(value.id) && g.outputs.contains(value.id)
            &&& value.kind == ValueKind::OuterScope <==> value.tensor is None && !made
                && !g.inputs.contains(value.id) && !g.outputs.contains(value.id)
                && value.producer is None && parent is Some
        }),
{
    let g = builder::graph_model(p, id, parent, label);
    let value = g.values[v];
    if value.producer is Some {
        law_constants_supply_their_first_tensor(g.nodes[(value.producer->0).0 as int]);
    }
}

/// Whether attribute `j` is the tensor that a `Constant` node supplies: the
/// first of its tensors.
pub open spec fn supplies(node: NodeView, j: int) -> bool {
    &&& node.op_type == "Constant"@
    &&& 0 <= j < node.attrs.len()
    &&& node.attrs[j].value is Tensor
    &&& forall|k: int| 0 <= k < j ==> !((#[trigger] node.attrs[k]).value is Tensor)
}

proof fn lemma_first_tensor(attrs: Seq<AttributeView>, j: int)
    ensures
        (forall|k: int| 0 <= k < attrs.len() ==> !((#[trigger] attrs[k]).value is Tensor))
            ==> model::first_tensor(attrs) is None,
        0 <= j < attrs.len() && attrs[j].value is Tensor && (forall|k: int|
            0 <= k < j ==> !((#[trigger] attrs[k]).value is Tensor)) ==> model::first_tensor(attrs)
            == Some(attrs[j].value->Tensor_0),
    decreases attrs.len(),
{
    if attrs.len() > 0 {
        let before = attrs.drop_last();
        lemma_first_tensor(before, j);
        if forall|k: int| 0 <= k < attrs.len() ==> !((#[trigger] attrs[k]).value is Tensor) {
            assert forall|k: int| 0 <= k < before.len() implies !(
            (#[trigger] before[k]).value is Tensor) by {
                assert(before[k] == attrs[k]);
            }
            assert(!(attrs[attrs.len() - 1].value is Tensor));
        }
        if 0 <= j < attrs.len() && attrs[j].value is Tensor && (forall|k: int|
            0 <= k < j ==> !((#[trigger] attrs[k]).value is Tensor)) {
            assert forall|k: int| 0 <= k < j && k < before.len() implies !(
            (#[trigger] before[k]).value is Tensor) by {
                assert(before[k] == attrs[k]);
            }
            if j < before.len() {
                assert(before[j] == attrs[j]);
            }
        }
    }
}

/// A node supplies a constant exactly where it is a `Constant` with a tensor
/// among its attributes, and then that is the first of them.
pub proof fn law_constants_supply_their_first_tensor(node: NodeView)
    ensures
        node.is_constant() <==> exists|j: int| #[trigger] supplies(node, j),
        node.constant_tensor() is Some <==> exists|j: int| #[trigger] supplies(node, j),
        forall|j: int| #[trigger]
            supplies(node, j) ==> node.constant_tensor() == Some(node.attrs[j].value->Tensor_0),
{
    assert forall|j: int| #[trigger] supplies(node, j) implies node.constant_tensor() == Some(
        node.attrs[j].value->Tensor_0,
    ) by {
        lemma_first_tensor(node.attrs, j);
    }
    lemma_first_tensor(node.attrs, 0);
    if node.constant_tensor() is Some {
        let j = first_of(node.attrs, node.attrs.len());
        assert(supplies(node, j));
    }
}

/// The first tensor among the first `n` attributes, one of which is one.
proof fn first_of(attrs: Seq<AttributeView>, n: nat) -> (j: int)
    requires
        n <= attrs.len(),
    ensures
        0 <= j <= n,
        j < n ==> attrs[j].value is Tensor,
        forall|k: int| 0 <= k < j ==> !((#[trigger] attrs[k]).value is Tensor),
    decreases n,
{
    if n == 0 {
        0
    } else {
        let before = first_of(attrs, (n - 1) as nat);
        if before < n - 1 || attrs[n - 1].value is Tensor {
            before
        } else {
            n as int
        }
    }
}

/// The element type that a declaration gives a value of this name.
pub open spec fn given_dtype(info: ValueInfoProto, name: Seq<char>) -> Option<DataType> {
    if has_name(info) && info.name->0@ == name && info.value_type is Some {
        mentions::type_model(info.value_type->0).0
    } else {
        None
    }
}

/// The shape that a declaration gives a value of this name.
pub open spec fn given_shape(info: ValueInfoProto, name: Seq<char>) -> Option<Seq<DimView>> {
    if has_name(info) && info.name->0@ == name && info.value_type is Some {
        mentions::type_model(info.value_type->0).1
    } else {
        None
    }
}

/// Whether none of the declarations gives the value an element type.
pub open spec fn no_dtype(infos: Seq<ValueInfoProto>, n: int, name: Seq<char>) -> bool {
    forall|k: int| 0 <= k < n ==> (#[trigger] given_dtype(infos[k], name)) is None
}

/// Whether none of the declarations gives the value a shape.
pub open spec fn no_shape(infos: Seq<ValueInfoProto>, n: int, name: Seq<char>) -> bool {
    forall|k: int| 0 <= k < n ==> (#[trigger] given_shape(infos[k], name)) is None
}

/// Whether an initializer is that of a value of this name.
pub open spec fn stores(tensor: TensorProto, name: Seq<char>) -> bool {
    tensor.name is Some && tensor.name->0@ == name
}

/// Whether none of the initializers from one number to another is that of a
/// value of this name.
pub open spec fn none_stores(
    tensors: Seq<TensorProto>,
    from: int,
    to: int,
    name: Seq<char>,
) -> bool {
    forall|k: int| from <= k < to ==> !#[trigger] stores(tensors[k], name)
}

proof fn lemma_declare_teaches(
    ms: Seq<Mention>,
    infos: Seq<ValueInfoProto>,
    n: nat,
    i: int,
    name: Seq<char>,
    k: int,
)
    requires
        n <= infos.len(),
    ensures
        ({
            let before = mentions::learned(ms, i, name);
            let after = mentions::learned(mentions::declare_all(ms, infos, n), i, name);
            &&& after.tensor == before.tensor
            &&& before.dtype is Some ==> after.dtype == before.dtype
            &&& no_dtype(infos, n as int, name) ==> after.dtype == before.dtype
            &&& before.dtype is None && 0 <= k < n && given_dtype(infos[k], name) is Some
                && no_dtype(infos, k, name) ==> after.dtype == given_dtype(infos[k], name)
            &&& before.shape is Some ==> after.shape == before.shape
            &&& no_shape(infos, n as int, name) ==> after.shape == before.shape
            &&& before.shape is None && 0 <= k < n && given_shape(infos[k], name) is Some
                && no_shape(infos, k, name) ==> after.shape == given_shape(infos[k], name)
        }),
    decreases n,
{
    if n > 0 {
        let ms1 = mentions::declare_all(ms, infos, (n - 1) as nat);
        lemma_declare_teaches(ms, infos, (n - 1) as nat, i, name, k);
        mentions::lemma_learned_name(ms1, i, name);
        let info = infos[n - 1];
        match mentions::declaration(info) {
            Some(m) => {
                assert(ms1.push(m).drop_last() =~= ms1);
            },
            None => {},
        }
        assert(no_dtype(infos, n as int, name) ==> given_dtype(info, name) is None);
        assert(no_shape(infos, n as int, name) ==> given_shape(info, name) is None);
        assert(no_dtype(infos, n as int, name) ==> no_dtype(infos, n - 1, name));
        assert(no_shape(infos, n as int, name) ==> no_shape(infos, n - 1, name));
    }
}

proof fn lemma_store_teaches(
    ms: Seq<Mention>,
    tensors: Seq<TensorProto>,
    n: nat,
    i: int,
    name: Seq<char>,
    k: int,
)
    requires
        n <= tensors.len(),
    ensures
        ({
            let before = mentions::learned(ms, i, name);
            let after = mentions::learned(mentions::store_all(ms, tensors, n), i, name);
            &&& none_stores(tensors, 0, n as int, name) ==> after == before
            &&& before.dtype is Some ==> after.dtype == before.dtype
            &&& before.shape is Some ==> after.shape == before.shape
            &&& 0 <= k < n && stores(tensors[k], name) && none_stores(tensors, 0, k, name) ==> {
                &&& before.dtype is None ==> after.dtype == Some(
                    mentions::tensor_model(tensors[k]).dtype,
                )
                &&& before.shape is None ==> after.shape == Some(
                    mentions::tensor_model(tensors[k]).shape(),
                )
            }
            &&& 0 <= k < n && stores(tensors[k], name) && none_stores(tensors, k + 1, n as int, name)
                ==> after.tensor == Some(mentions::tensor_model(tensors[k]))
        }),
    decreases n,
{
    if n > 0 {
        let ms1 = mentions::store_all(ms, tensors, (n - 1) as nat);
        lemma_store_teaches(ms, tensors, (n - 1) as nat, i, name, k);
        mentions::lemma_learned_name(ms1, i, name);
        let tensor = tensors[n - 1];
        match mentions::storage(tensor) {
            Some(m) => {
                assert(ms1.push(m).drop_last() =~= ms1);
            },
            None => {},
        }
        assert(none_stores(tensors, 0, n as int, name) ==> !stores(tensors[n - 1], name));
        assert(none_stores(tensors, 0, n as int, name) ==> none_stores(tensors, 0, n - 1, name));
        assert(none_stores(tensors, k + 1, n as int, name) && k < n - 1 ==> !stores(
            tensors[n - 1],
            name,
        ));
        assert(none_stores(tensors, k + 1, n as int, name) ==> none_stores(
            tensors,
            k + 1,
            n - 1,
            name,
        ));
    }
}

proof fn lemma_place_teaches_nothing(
    ms: Seq<Mention>,
    positions: Seq<String>,
    role: Role,
    n: nat,
    i: int,
    name: Seq<char>,
)
    requires
        role is Read || role is Written,
    ensures
        ({
            let before = mentions::learned(ms, i, name);
            let after = mentions::learned(
                mentions::place_all(ms, positions, role, n),
                i,
                name,
            );
            after.tensor == before.tensor && after.dtype == before.dtype && after.shape
                == before.shape
        }),
    decreases n,
{
    if n > 0 {
        let ms1 = mentions::place_all(ms, positions, role, (n - 1) as nat);
        lemma_place_teaches_nothing(ms, positions, role, (n - 1) as nat, i, name);
        match mentions::position(positions[n - 1]@, role) {
            Some(m) => {
                assert(ms1.push(m).drop_last() =~= ms1);
            },
            None => {},
        }
    }
}

proof fn lemma_use_teaches_nothing(
    ms: Seq<Mention>,
    nodes: Seq<NodeProto>,
    n: nat,
    i: int,
    name: Seq<char>,
)
    ensures
        ({
            let before = mentions::learned(ms, i, name);
            let after = mentions::learned(mentions::use_all(ms, nodes, n), i, name);
            after.tensor == before.tensor && after.dtype == before.dtype && after.shape
                == before.shape
        }),
    decreases n,
{
    if n > 0 {
        let node = nodes[n - 1];
        let id = NodeId((n - 1) as u32);
        let ms1 = mentions::use_all(ms, nodes, (n - 1) as nat);
        let read = mentions::place_all(ms1, node.input@, Role::Read(id), node.input@.len());
        lemma_use_teaches_nothing(ms, nodes, (n - 1) as nat, i, name);
        lemma_place_teaches_nothing(ms1, node.input@, Role::Read(id), node.input@.len(), i, name);
        lemma_place_teaches_nothing(
            read,
            node.output@,
            Role::Written(id),
            node.output@.len(),
            i,
            name,
        );
    }
}

/// What the parts of a graph say of one of its values, one part after the other.
proof fn lemma_parts_teach(p: GraphProto, i: int, name: Seq<char>, k: int)
    ensures
        ({
            let v = mentions::learned(mentions::mentions(p), i, name);
            let inputs = p.input@.len() as int;
            let outputs = p.output@.len() as int;
            let tensors = p.initializer@.len() as int;
            let infos = p.value_info@.len() as int;
            &&& none_stores(p.initializer@, 0, tensors, name) ==> v.tensor is None
            &&& 0 <= k < tensors && stores(p.initializer@[k], name) && none_stores(
                p.initializer@,
                k + 1,
                tensors,
                name,
            ) ==> v.tensor == Some(mentions::tensor_model(p.initializer@[k]))
            &&& 0 <= k < inputs && given_dtype(p.input@[k], name) is Some && no_dtype(
                p.input@,
                k,
                name,
            ) ==> v.dtype == given_dtype(p.input@[k], name)
            &&& 0 <= k < inputs && given_shape(p.input@[k], name) is Some && no_shape(
                p.input@,
                k,
                name,
            ) ==> v.shape == given_shape(p.input@[k], name)
            &&& no_dtype(p.input@, inputs, name) ==> {
                &&& 0 <= k < outputs && given_dtype(p.output@[k], name) is Some && no_dtype(
                    p.output@,
                    k,
                    name,
                ) ==> v.dtype == given_dtype(p.output@[k], name)
                &&& no_dtype(p.output@, outputs, name) ==> {
                    &&& 0 <= k < tensors && stores(p.initializer@[k], name) && none_stores(
                        p.initializer@,
                        0,
                        k,
                        name,
                    ) ==> v.dtype == Some(mentions::tensor_model(p.initializer@[k]).dtype)
                    &&& none_stores(p.initializer@, 0, tensors, name) ==> {
                        &&& 0 <= k < infos && given_dtype(p.value_info@[k], name) is Some
                            && no_dtype(p.value_info@, k, name) ==> v.dtype == given_dtype(
                            p.value_info@[k],
                            name,
                        )
                        &&& no_dtype(p.value_info@, infos, name) ==> v.dtype is None
                    }
                }
            }
            &&& no_shape(p.input@, inputs, name) ==> {
                &&& 0 <= k < outputs && given_shape(p.output@[k], name) is Some && no_shape(
                    p.output@,
                    k,
                    name,
                ) ==> v.shape == given_shape(p.output@[k], name)
                &&& no_shape(p.output@, outputs, name) ==> {
                    &&& 0 <= k < tensors && stores(p.initializer@[k], name) && none_stores(
                        p.initializer@,
                        0,
                        k,
                        name,
                    ) ==> v.shape == Some(mentions::tensor_model(p.initializer@[k]).shape())
                    &&& none_stores(p.initializer@, 0, tensors, name) ==> {
                        &&& 0 <= k < infos && given_shape(p.value_info@[k], name) is Some
                            && no_shape(p.value_info@, k, name) ==> v.shape == given_shape(
                            p.value_info@[k],
                            name,
                        )
                        &&& no_shape(p.value_info@, infos, name) ==> v.shape is None
                    }
                }
            }
        }),
{
    let none = Seq::<Mention>::empty();
    let a = mentions::declare_all(none, p.input@, p.input@.len());
    let b = mentions::declare_all(a, p.output@, p.output@.len());
    let c = mentions::store_all(b, p.initializer@, p.initializer@.len());
    lemma_declare_teaches(none, p.input@, p.input@.len(), i, name, k);
    lemma_declare_teaches(a, p.output@, p.output@.len(), i, name, k);
    lemma_store_teaches(b, p.initializer@, p.initializer@.len(), i, name, k);
    lemma_declare_teaches(c, p.value_info@, p.value_info@.len(), i, name, k);
    lemma_use_teaches_nothing(mentions::prologue(p), p.node@, p.node@.len(), i, name);
}

/// A value has the data of the last initializer of its name, and none where no
/// initializer has it.
pub proof fn law_initializers_keep_their_data(
    p: GraphProto,
    id: nat,
    parent: Option<GraphId>,
    label: Seq<char>,
    v: int,
    k: int,
)
    requires
        0 <= v < builder::graph_model(p, id, parent, label).values.len(),
    ensures
        ({
            let value = builder::graph_model(p, id, parent, label).values[v];
            let count = p.initializer@.len() as int;
            &&& none_stores(p.initializer@, 0, count, value.name) ==> value.tensor is None
            &&& 0 <= k < count && stores(p.initializer@[k], value.name) && none_stores(
                p.initializer@,
                k + 1,
                count,
                value.name,
            ) ==> value.tensor == Some(mentions::tensor_model(p.initializer@[k]))
        }),
{
    let names = mentions::names_of(mentions::mentions(p));
    lemma_names_stand(p, id, parent, label);
    lemma_parts_teach(p, v, names[v], k);
}

/// A value has the element type that is given first: by the declarations of the
/// inputs, of the outputs, by the first initializer, then by the other
/// declarations. Where nothing gives one it has none.
pub proof fn law_the_first_type_given_counts(
    p: GraphProto,
    id: nat,
    parent: Option<GraphId>,
    label: Seq<char>,
    v: int,
    k: int,
)
    requires
        0 <= v < builder::graph_model(p, id, parent, label).values.len(),
    ensures
        ({
            let value = builder::graph_model(p, id, parent, label).values[v];
            let name = value.name;
            let inputs = p.input@.len() as int;
            let outputs = p.output@.len() as int;
            let tensors = p.initializer@.len() as int;
            let infos = p.value_info@.len() as int;
            &&& 0 <= k < inputs && given_dtype(p.input@[k], name) is Some && no_dtype(
                p.input@,
                k,
                name,
            ) ==> value.dtype == given_dtype(p.input@[k], name)
            &&& no_dtype(p.input@, inputs, name) ==> {
                &&& 0 <= k < outputs && given_dtype(p.output@[k], name) is Some && no_dtype(
                    p.output@,
                    k,
                    name,
                ) ==> value.dtype == given_dtype(p.output@[k], name)
                &&& no_dtype(p.output@, outputs, name) ==> {
                    &&& 0 <= k < tensors && stores(p.initializer@[k], name) && none_stores(
                        p.initializer@,
                        0,
                        k,
                        name,
                    ) ==> value.dtype == Some(mentions::tensor_model(p.initializer@[k]).dtype)
                    &&& none_stores(p.initializer@, 0, tensors, name) ==> {
                        &&& 0 <= k < infos && given_dtype(p.value_info@[k], name) is Some
                            && no_dtype(p.value_info@, k, name) ==> value.dtype == given_dtype(
                            p.value_info@[k],
                            name,
                        )
                        &&& no_dtype(p.value_info@, infos, name) ==> value.dtype is None
                    }
                }
            }
        }),
{
    let names = mentions::names_of(mentions::mentions(p));
    lemma_names_stand(p, id, parent, label);
    lemma_parts_teach(p, v, names[v], k);
}

/// A value has the shape that is given first, in the same order. That of an
/// initializer is made of the dimensions of its data.
pub proof fn law_the_first_shape_given_counts(
    p: GraphProto,
    id: nat,
    parent: Option<GraphId>,
    label: Seq<char>,
    v: int,
    k: int,
)
    requires
        0 <= v < builder::graph_model(p, id, parent, label).values.len(),
    ensures
        ({
            let value = builder::graph_model(p, id, parent, label).values[v];
            let name = value.name;
            let inputs = p.input@.len() as int;
            let outputs = p.output@.len() as int;
            let tensors = p.initializer@.len() as int;
            let infos = p.value_info@.len() as int;
            &&& 0 <= k < inputs && given_shape(p.input@[k], name) is Some && no_shape(
                p.input@,
                k,
                name,
            ) ==> value.shape == given_shape(p.input@[k], name)
            &&& no_shape(p.input@, inputs, name) ==> {
                &&& 0 <= k < outputs && given_shape(p.output@[k], name) is Some && no_shape(
                    p.output@,
                    k,
                    name,
                ) ==> value.shape == given_shape(p.output@[k], name)
                &&& no_shape(p.output@, outputs, name) ==> {
                    &&& 0 <= k < tensors && stores(p.initializer@[k], name) && none_stores(
                        p.initializer@,
                        0,
                        k,
                        name,
                    ) ==> {
                        let dims = p.initializer@[k].dims@;
                        value.shape == Some(
                            Seq::new(dims.len(), |d: int| DimView::Fixed(dims[d])),
                        )
                    }
                    &&& none_stores(p.initializer@, 0, tensors, name) ==> {
                        &&& 0 <= k < infos && given_shape(p.value_info@[k], name) is Some
                            && no_shape(p.value_info@, k, name) ==> value.shape == given_shape(
                            p.value_info@[k],
                            name,
                        )
                        &&& no_shape(p.value_info@, infos, name) ==> value.shape is None
                    }
                }
            }
        }),
{
    let names = mentions::names_of(mentions::mentions(p));
    lemma_names_stand(p, id, parent, label);
    lemma_parts_teach(p, v, names[v], k);
    if 0 <= k < p.initializer@.len() {
        let dims = p.initializer@[k].dims@;
        assert(mentions::tensor_model(p.initializer@[k]).shape() =~= Seq::new(
            dims.len(),
            |d: int| DimView::Fixed(dims[d]),
        ));
    }
}

/// Whether nodes are listed in their own order, none behind `last`.
pub open spec fn ascending(nodes: Seq<NodeId>, last: int) -> bool {
    &&& forall|a: int| 0 <= a < nodes.len() ==> (#[trigger] nodes[a]).0 <= last
    &&& forall|a: int, b: int|
        0 <= a < b < nodes.len() ==> (#[trigger] nodes[a]).0 < (#[trigger] nodes[b]).0
}

proof fn lemma_place_ascends(
    ms: Seq<Mention>,
    positions: Seq<String>,
    role: Role,
    node: NodeId,
    n: nat,
    i: int,
    name: Seq<char>,
)
    requires
        role == Role::Read(node) || role == Role::Written(node),
        ascending(mentions::learned(ms, i, name).consumers, node.0 as int),
    ensures
        ascending(
            mentions::learned(mentions::place_all(ms, positions, role, n), i, name).consumers,
            node.0 as int,
        ),
    decreases n,
{
    if n > 0 {
        let ms1 = mentions::place_all(ms, positions, role, (n - 1) as nat);
        lemma_place_ascends(ms, positions, role, node, (n - 1) as nat, i, name);
        let held = mentions::learned(ms1, i, name).consumers;
        match mentions::position(positions[n - 1]@, role) {
            Some(m) => {
                assert(ms1.push(m).drop_last() =~= ms1);
                if !held.contains(node) {
                    assert forall|a: int| 0 <= a < held.len() implies (#[trigger] held[a]).0
                        < node.0 by {
                        assert(held.contains(held[a]));
                    }
                    assert(ascending(held.push(node), node.0 as int));
                }
            },
            None => {},
        }
    }
}

proof fn lemma_use_ascends(p: GraphProto, n: nat, i: int, name: Seq<char>)
    requires
        n <= p.node@.len() <= u32::MAX,
    ensures
        ascending(
            mentions::learned(
                mentions::use_all(mentions::prologue(p), p.node@, n),
                i,
                name,
            ).consumers,
            n - 1,
        ),
    decreases n,
{
    if n == 0 {
        wiring::lemma_prologue_connects_nothing(p, i, name);
    } else {
        let node = p.node@[n - 1];
        let id = NodeId((n - 1) as u32);
        let ms1 = mentions::use_all(mentions::prologue(p), p.node@, (n - 1) as nat);
        let read = mentions::place_all(ms1, node.input@, Role::Read(id), node.input@.len());
        lemma_use_ascends(p, (n - 1) as nat, i, name);
        lemma_place_ascends(ms1, node.input@, Role::Read(id), id, node.input@.len(), i, name);
        lemma_place_ascends(read, node.output@, Role::Written(id), id, node.output@.len(), i, name);
    }
}

/// The consumers of a value are listed in the order of the nodes.
pub proof fn law_consumers_are_in_order(
    p: GraphProto,
    id: nat,
    parent: Option<GraphId>,
    label: Seq<char>,
    v: int,
)
    requires
        builder::numberable(p),
        0 <= v < builder::graph_model(p, id, parent, label).values.len(),
    ensures
        ascending(
            builder::graph_model(p, id, parent, label).values[v].consumers,
            p.node@.len() - 1,
        ),
{
    let names = mentions::names_of(mentions::mentions(p));
    lemma_use_ascends(p, p.node@.len(), v, names[v]);
}

} // verus!
