//! The values of a graph, as its messages mention them.
//!
//! A graph mentions its values by name: in its declarations, its initializers
//! and the inputs and outputs of its nodes. [`mentions`] lists them in the
//! order in which they count, and everything known of a value follows from the
//! mentions of its name: the first says where it stands, the first type given
//! is its type, the last node to write it is its producer.

use crate::chars;
use crate::graph;
use crate::model::{
    DataView, Dim, DimView, NodeId, Shape, Tensor, TensorData, TensorView, Value, ValueId,
    ValueKind, ValueView,
};
use crate::proto::{
    DataLocation, DataType, Dimension, GraphProto, NodeProto, StringStringEntryProto, TensorProto,
    TypeProto, ValueInfoProto,
};
use vstd::hash_map::StringHashMap;
use vstd::prelude::*;
use vstd::string::*;

verus! {

/// One mention of a value's name, and what it says of the value.
pub struct Mention {
    pub name: Seq<char>,
    pub role: Role,
}

pub enum Role {
    /// Declared, with whatever type and shape the declaration gives.
    Declared { dtype: Option<DataType>, shape: Option<Seq<DimView>> },
    /// Stored in the model as an initializer.
    Stored(TensorView),
    /// Read by a node.
    Read(NodeId),
    /// Written by a node.
    Written(NodeId),
}

/// The dimension that a message describes.
pub open spec fn dim_model(dim: Dimension) -> DimView {
    match (dim.dim_value, dim.dim_param) {
        (Some(n), _) => DimView::Fixed(n),
        (None, Some(name)) => if name@.len() > 0 {
            DimView::Param(name@)
        } else {
            DimView::Unknown
        },
        (None, None) => DimView::Unknown,
    }
}

/// The element type and shape that a message describes, those of its element
/// for a sequence type.
pub open spec fn type_model(ty: TypeProto) -> (Option<DataType>, Option<Seq<DimView>>)
    decreases ty,
{
    match ty.tensor_type {
        Some(tensor) => (
            tensor.elem_type,
            match tensor.shape {
                Some(shape) => Some(Seq::new(shape.dim@.len(), |i: int| dim_model(shape.dim@[i]))),
                None => None,
            },
        ),
        None => match ty.sequence {
            Some(sequence) => match sequence.elem_type {
                Some(elem) => type_model(elem),
                None => (None, None),
            },
            None => (None, None),
        },
    }
}

/// The key/value entries of a tensor kept in another file.
pub open spec fn entries_model(
    entries: Seq<StringStringEntryProto>,
) -> Seq<(Seq<char>, Seq<char>)> {
    Seq::new(
        entries.len(),
        |i: int|
            (
                crate::model::text_or_empty(entries[i].key),
                crate::model::text_or_empty(entries[i].value),
            ),
    )
}

/// The tensor that a message describes. Its data is in another file where the
/// message says so, else in the first of its fields that holds any.
pub open spec fn tensor_model(proto: TensorProto) -> TensorView {
    TensorView {
        dtype: match proto.data_type {
            Some(dtype) => dtype,
            None => DataType(0),
        },
        dims: proto.dims@,
        data: if proto.data_location == Some(DataLocation(DataLocation::EXTERNAL)) {
            DataView::External(entries_model(proto.external_data@))
        } else if proto.raw_data is Some {
            DataView::Raw(proto.raw_data->0@)
        } else if proto.float_data@.len() > 0 {
            DataView::Floats(proto.float_data@)
        } else if proto.int32_data@.len() > 0 {
            DataView::Int32s(proto.int32_data@)
        } else if proto.int64_data@.len() > 0 {
            DataView::Int64s(proto.int64_data@)
        } else if proto.double_data@.len() > 0 {
            DataView::Doubles(proto.double_data@)
        } else {
            DataView::Missing
        },
    }
}

/// What a declaration mentions: nothing where it has no name.
pub open spec fn declaration(info: ValueInfoProto) -> Option<Mention> {
    match info.name {
        Some(name) => if name@.len() > 0 {
            let (dtype, shape) = match info.value_type {
                Some(ty) => type_model(ty),
                None => (None, None),
            };
            Some(Mention { name: name@, role: Role::Declared { dtype, shape } })
        } else {
            None
        },
        None => None,
    }
}

/// What an initializer mentions: nothing where it has no name.
pub open spec fn storage(tensor: TensorProto) -> Option<Mention> {
    match tensor.name {
        Some(name) => Some(Mention { name: name@, role: Role::Stored(tensor_model(tensor)) }),
        None => None,
    }
}

/// What one position of a node mentions: nothing where it is left out.
pub open spec fn position(name: Seq<char>, role: Role) -> Option<Mention> {
    if name.len() > 0 {
        Some(Mention { name, role })
    } else {
        None
    }
}

pub open spec fn with(ms: Seq<Mention>, m: Option<Mention>) -> Seq<Mention> {
    match m {
        Some(m) => ms.push(m),
        None => ms,
    }
}

/// `ms` followed by the mentions of the first `n` declarations.
pub open spec fn declare_all(ms: Seq<Mention>, infos: Seq<ValueInfoProto>, n: nat) -> Seq<Mention>
    decreases n,
{
    if n == 0 {
        ms
    } else {
        with(declare_all(ms, infos, (n - 1) as nat), declaration(infos[n - 1]))
    }
}

/// `ms` followed by the mentions of the first `n` initializers.
pub open spec fn store_all(ms: Seq<Mention>, tensors: Seq<TensorProto>, n: nat) -> Seq<Mention>
    decreases n,
{
    if n == 0 {
        ms
    } else {
        with(store_all(ms, tensors, (n - 1) as nat), storage(tensors[n - 1]))
    }
}

/// `ms` followed by the first `n` positions of a node, in the given role.
pub open spec fn place_all(ms: Seq<Mention>, names: Seq<String>, role: Role, n: nat) -> Seq<Mention>
    decreases n,
{
    if n == 0 {
        ms
    } else {
        with(place_all(ms, names, role, (n - 1) as nat), position(names[n - 1]@, role))
    }
}

/// `ms` followed by what a node reads and then what it writes.
pub open spec fn use_node(ms: Seq<Mention>, node: NodeProto, id: NodeId) -> Seq<Mention> {
    let read = place_all(ms, node.input@, Role::Read(id), node.input@.len());
    place_all(read, node.output@, Role::Written(id), node.output@.len())
}

/// `ms` followed by what the first `n` nodes read and write.
pub open spec fn use_all(ms: Seq<Mention>, nodes: Seq<NodeProto>, n: nat) -> Seq<Mention>
    decreases n,
{
    if n == 0 {
        ms
    } else {
        use_node(use_all(ms, nodes, (n - 1) as nat), nodes[n - 1], NodeId((n - 1) as u32))
    }
}

/// The mentions that are made before those of the nodes.
pub open spec fn prologue(p: GraphProto) -> Seq<Mention> {
    let a = declare_all(Seq::<Mention>::empty(), p.input@, p.input@.len());
    let b = declare_all(a, p.output@, p.output@.len());
    let c = store_all(b, p.initializer@, p.initializer@.len());
    declare_all(c, p.value_info@, p.value_info@.len())
}

/// Every mention of a value in a graph: its inputs, its outputs, its
/// initializers, its type annotations, then its nodes.
pub open spec fn mentions(p: GraphProto) -> Seq<Mention> {
    use_all(prologue(p), p.node@, p.node@.len())
}

/// The names mentioned, each once, in the order of first mention.
pub open spec fn names_of(ms: Seq<Mention>) -> Seq<Seq<char>>
    decreases ms.len(),
{
    if ms.len() == 0 {
        Seq::<Seq<char>>::empty()
    } else {
        let before = names_of(ms.drop_last());
        if before.contains(ms.last().name) {
            before
        } else {
            before.push(ms.last().name)
        }
    }
}

/// A value of which nothing but the name is known.
pub open spec fn blank(i: int, name: Seq<char>) -> ValueView {
    ValueView {
        id: ValueId(i as u32),
        name,
        kind: ValueKind::Intermediate,
        dtype: None,
        shape: None,
        producer: None,
        consumers: Seq::<NodeId>::empty(),
        tensor: None,
        outer: None,
    }
}

/// What a value becomes through one more mention. A type or a shape stays as
/// first given; data and producer are as last given; a node that reads the
/// value more than once is listed once.
pub open spec fn learn(v: ValueView, m: Mention) -> ValueView {
    if v.name != m.name {
        v
    } else {
        match m.role {
            Role::Declared { dtype, shape } => ValueView {
                dtype: if v.dtype is Some { v.dtype } else { dtype },
                shape: if v.shape is Some { v.shape } else { shape },
                ..v
            },
            Role::Stored(tensor) => ValueView {
                dtype: if v.dtype is Some { v.dtype } else { Some(tensor.dtype) },
                shape: if v.shape is Some { v.shape } else { Some(tensor.shape()) },
                tensor: Some(tensor),
                ..v
            },
            Role::Read(node) => ValueView {
                consumers: if v.consumers.contains(node) {
                    v.consumers
                } else {
                    v.consumers.push(node)
                },
                ..v
            },
            Role::Written(node) => ValueView { producer: Some(node), ..v },
        }
    }
}

/// What all the mentions together say of the value at `i` with this name.
pub open spec fn learned(ms: Seq<Mention>, i: int, name: Seq<char>) -> ValueView
    decreases ms.len(),
{
    if ms.len() == 0 {
        blank(i, name)
    } else {
        learn(learned(ms.drop_last(), i, name), ms.last())
    }
}

/// The value at `i`, before its kind is settled.
pub open spec fn draft(ms: Seq<Mention>, i: int) -> ValueView {
    learned(ms, i, names_of(ms)[i])
}

/// Where the value with this name stands.
pub open spec fn id_of(names: Seq<Seq<char>>, name: Seq<char>) -> ValueId {
    ValueId(names.index_of(name) as u32)
}

/// The values that the first `n` declarations declare.
pub open spec fn declared_ids(
    names: Seq<Seq<char>>,
    infos: Seq<ValueInfoProto>,
    n: nat,
) -> Seq<ValueId>
    decreases n,
{
    if n == 0 {
        Seq::<ValueId>::empty()
    } else {
        let before = declared_ids(names, infos, (n - 1) as nat);
        match declaration(infos[n - 1]) {
            Some(m) => before.push(id_of(names, m.name)),
            None => before,
        }
    }
}

/// The values at the positions of a node, `None` for a position left out.
pub open spec fn position_ids(names: Seq<Seq<char>>, positions: Seq<String>) -> Seq<Option<ValueId>> {
    Seq::new(
        positions.len(),
        |j: int|
            if positions[j]@.len() > 0 {
                Some(id_of(names, positions[j]@))
            } else {
                None
            },
    )
}

fn dim_from_proto(dim: Dimension) -> (result: Dim)
    ensures
        result@ == dim_model(dim),
{
    match (dim.dim_value, dim.dim_param) {
        (Some(n), _) => Dim::Fixed(n),
        (None, Some(name)) => if name.as_str().is_empty() {
            Dim::Unknown
        } else {
            Dim::Param(name)
        },
        (None, None) => Dim::Unknown,
    }
}

/// Extracts the element type and shape from a type, unwrapping sequence types
/// to describe their element.
pub(crate) fn decompose_type(ty: TypeProto) -> (result: (Option<DataType>, Option<Shape>))
    ensures
        (result.0, chars::opt_view(result.1)) == type_model(ty),
    decreases ty,
{
    match ty.tensor_type {
        Some(tensor) => {
            let shape: Option<Shape> = match tensor.shape {
                Some(shape) => {
                    let ghost expected = Seq::new(
                        shape.dim@.len(),
                        |i: int| dim_model(shape.dim@[i]),
                    );
                    let ghost protos = shape.dim@;
                    let mut dims: Vec<Dim> = Vec::new();
                    for dim in iter: shape.dim
                        invariant
                            iter.seq() == protos,
                            dims@.len() == iter.index(),
                            forall|k: int|
                                0 <= k < dims@.len() ==> (#[trigger] dims@[k])@ == dim_model(
                                    protos[k],
                                ),
                    {
                        dims.push(dim_from_proto(dim));
                    }
                    assert(chars::views(dims@) =~= expected);
                    Some(Shape(dims))
                },
                None => None,
            };
            (tensor.elem_type, shape)
        },
        None => match ty.sequence {
            Some(sequence) => {
                let sequence = *sequence;
                match sequence.elem_type {
                    Some(elem) => decompose_type(elem),
                    None => (None, None),
                }
            },
            None => (None, None),
        },
    }
}

pub(crate) fn text_or_default(item: Option<String>) -> (text: String)
    ensures
        text@ == crate::model::text_or_empty(item),
{
    match item {
        Some(text) => text,
        None => String::new(),
    }
}

fn entries_from_proto(entries: Vec<StringStringEntryProto>) -> (result: Vec<(String, String)>)
    ensures
        crate::model::pair_views(result@) == entries_model(entries@),
{
    let ghost protos = entries@;
    let mut result: Vec<(String, String)> = Vec::new();
    for entry in iter: entries
        invariant
            iter.seq() == protos,
            result@.len() == iter.index(),
            forall|k: int|
                #![trigger result@[k]]
                0 <= k < result@.len() ==> result@[k].0@ == crate::model::text_or_empty(
                    protos[k].key,
                ) && result@[k].1@ == crate::model::text_or_empty(protos[k].value),
    {
        result.push((text_or_default(entry.key), text_or_default(entry.value)));
    }
    assert(crate::model::pair_views(result@) =~= entries_model(protos));
    result
}

pub(crate) fn tensor_from_proto(proto: TensorProto) -> (tensor: Tensor)
    ensures
        tensor@ == tensor_model(proto),
{
    let external: bool = match proto.data_location {
        Some(location) => location.0 == DataLocation::EXTERNAL,
        None => false,
    };
    let data: TensorData = if external {
        TensorData::External { entries: entries_from_proto(proto.external_data) }
    } else if let Some(raw) = proto.raw_data {
        TensorData::Raw(raw)
    } else if proto.float_data.len() > 0 {
        TensorData::Floats(proto.float_data)
    } else if proto.int32_data.len() > 0 {
        TensorData::Int32s(proto.int32_data)
    } else if proto.int64_data.len() > 0 {
        TensorData::Int64s(proto.int64_data)
    } else if proto.double_data.len() > 0 {
        TensorData::Doubles(proto.double_data)
    } else {
        TensorData::Missing
    };
    let dtype: DataType = match proto.data_type {
        Some(dtype) => dtype,
        None => DataType(0),
    };
    Tensor { dtype, dims: proto.dims, data }
}

/// The names of a list of mentions are distinct.
pub(crate) proof fn lemma_names_are_distinct(ms: Seq<Mention>)
    ensures
        names_of(ms).no_duplicates(),
        names_of(ms).len() <= ms.len(),
    decreases ms.len(),
{
    if ms.len() > 0 {
        lemma_names_are_distinct(ms.drop_last());
    }
}

/// Nothing is known of a value that is not mentioned.
proof fn lemma_unmentioned(ms: Seq<Mention>, i: int, name: Seq<char>)
    requires
        !names_of(ms).contains(name),
    ensures
        learned(ms, i, name) == blank(i, name),
    decreases ms.len(),
{
    if ms.len() > 0 {
        let before = names_of(ms.drop_last());
        assert(!before.contains(name)) by {
            if before.contains(name) {
                let k = choose|k: int| 0 <= k < before.len() && before[k] == name;
                assert(names_of(ms)[k] == name);
            }
        }
        assert(ms.last().name != name) by {
            if ms.last().name == name {
                assert(names_of(ms) == before.push(name));
                assert(names_of(ms)[before.len() as int] == name);
            }
        }
        lemma_unmentioned(ms.drop_last(), i, name);
    }
}

pub(crate) proof fn lemma_learned_name(ms: Seq<Mention>, i: int, name: Seq<char>)
    ensures
        learned(ms, i, name).name == name,
        learned(ms, i, name).id == ValueId(i as u32),
    decreases ms.len(),
{
    if ms.len() > 0 {
        lemma_learned_name(ms.drop_last(), i, name);
    }
}

/// What one more mention does to the names and the values.
proof fn lemma_mention(ms: Seq<Mention>, m: Mention)
    ensures
        names_of(ms.push(m)) == if names_of(ms).contains(m.name) {
            names_of(ms)
        } else {
            names_of(ms).push(m.name)
        },
        forall|i: int|
            0 <= i < names_of(ms).len() ==> #[trigger] draft(ms.push(m), i) == learn(
                draft(ms, i),
                m,
            ),
        !names_of(ms).contains(m.name) ==> draft(ms.push(m), names_of(ms).len() as int) == learn(
            blank(names_of(ms).len() as int, m.name),
            m,
        ),
{
    assert(ms.push(m).drop_last() =~= ms);
    if !names_of(ms).contains(m.name) {
        lemma_unmentioned(ms, names_of(ms).len() as int, m.name);
    }
}

/// The values of a graph under construction, each found by its name.
pub(crate) struct Interner {
    pub(crate) values: Vec<Value>,
    pub(crate) by_name: StringHashMap<ValueId>,
}

impl Interner {
    /// Whether the values are those that the mentions tell of.
    pub(crate) open spec fn holds(self, ms: Seq<Mention>) -> bool {
        &&& self.values@.len() == names_of(ms).len()
        &&& forall|i: int|
            0 <= i < self.values@.len() ==> (#[trigger] self.values@[i])@ == draft(ms, i)
        &&& graph::indexes(self.by_name@, names_of(ms))
    }

    pub(crate) fn new() -> (interner: Interner)
        ensures
            interner.holds(Seq::<Mention>::empty()),
    {
        Interner { values: Vec::new(), by_name: StringHashMap::new() }
    }
}

/// The outcome of looking a name up and creating its value where there is none.
spec fn interned(before: Interner, mid: Interner, ms: Seq<Mention>, name: Seq<char>, id: ValueId) -> bool {
    &&& graph::indexes(
        mid.by_name@,
        if names_of(ms).contains(name) {
            names_of(ms)
        } else {
            names_of(ms).push(name)
        },
    )
    &&& names_of(ms).contains(name) ==> mid.values@ == before.values@ && id.0 < names_of(ms).len()
        && names_of(ms)[id.0 as int] == name
    &&& !names_of(ms).contains(name) ==> {
        &&& id.0 == names_of(ms).len()
        &&& mid.values@.len() == id.0 + 1
        &&& mid.values@.take(id.0 as int) == before.values@
        &&& mid.values@[id.0 as int]@ == blank(id.0 as int, name)
    }
}

impl Interner {
    /// Finds or creates the value with `name`.
    fn intern(&mut self, name: &str, Ghost(ms): Ghost<Seq<Mention>>) -> (id: ValueId)
        requires
            old(self).holds(ms),
            names_of(ms).len() < u32::MAX,
        ensures
            interned(*old(self), *final(self), ms, name@, id),
    {
        match self.by_name.get(name) {
            Some(id) => {
                let id: ValueId = *id;
                proof {
                    assert(names_of(ms)[id.0 as int] == name@);
                }
                return id;
            },
            None => {},
        }
        proof {
            assert(!names_of(ms).contains(name@));
        }
        let id = ValueId(self.values.len() as u32);
        self.values.push(
            Value {
                id,
                name: name.to_owned(),
                kind: ValueKind::Intermediate,
                dtype: None,
                shape: None,
                producer: None,
                consumers: Vec::new(),
                tensor: None,
                outer: None,
            },
        );
        self.by_name.insert(name.to_owned(), id);
        proof {
            let names = names_of(ms).push(name@);
            assert(self.values@.take(id.0 as int) =~= old(self).values@);
            assert forall|i: int| 0 <= i < names.len() implies #[trigger] self.by_name@.contains_key(
                names[i],
            ) && self.by_name@[names[i]] == ValueId(i as u32) by {
                if i < names_of(ms).len() {
                    assert(names[i] == names_of(ms)[i]);
                    assert(old(self).by_name@.contains_key(names_of(ms)[i]));
                }
            }
            assert forall|n: Seq<char>| #[trigger] self.by_name@.contains_key(n) implies
                self.by_name@[n].0 < names.len() && names[self.by_name@[n].0 as int] == n by {
                if n != name@ {
                    assert(old(self).by_name@.contains_key(n));
                }
            }
        }
        id
    }
}

proof fn lemma_interned_value(
    before: Interner,
    mid: Interner,
    ms: Seq<Mention>,
    name: Seq<char>,
    id: ValueId,
)
    requires
        before.holds(ms),
        interned(before, mid, ms, name, id),
    ensures
        id.0 < mid.values@.len(),
        mid.values@[id.0 as int]@.name == name,
{
    lemma_learned_name(ms, id.0 as int, name);
}

proof fn lemma_noted(
    before: Interner,
    mid: Interner,
    new: Interner,
    ms: Seq<Mention>,
    m: Mention,
    id: ValueId,
)
    requires
        before.holds(ms),
        interned(before, mid, ms, m.name, id),
        new.by_name@ == mid.by_name@,
        new.values@.len() == mid.values@.len(),
        forall|i: int|
            0 <= i < mid.values@.len() && i != id.0 ==> #[trigger] new.values@[i] == mid.values@[i],
        new.values@[id.0 as int]@ == learn(mid.values@[id.0 as int]@, m),
    ensures
        new.holds(ms.push(m)),
        id.0 < names_of(ms.push(m)).len(),
        names_of(ms.push(m))[id.0 as int] == m.name,
{
    lemma_mention(ms, m);
    lemma_names_are_distinct(ms);
    let after = ms.push(m);
    assert forall|i: int| 0 <= i < new.values@.len() implies (#[trigger] new.values@[i])@ == draft(
        after,
        i,
    ) by {
        if i < names_of(ms).len() {
            assert(mid.values@[i] == before.values@[i]) by {
                if !names_of(ms).contains(m.name) {
                    assert(mid.values@.take(id.0 as int)[i] == mid.values@[i]);
                }
            }
            assert(draft(after, i) == learn(draft(ms, i), m));
            if i != id.0 {
                lemma_learned_name(ms, i, names_of(ms)[i]);
                assert(names_of(ms)[i] != m.name);
            }
        }
    }
}

impl Interner {
    /// Notes a declaration, and returns the value declared.
    fn declare(
        &mut self,
        name: &str,
        dtype: Option<DataType>,
        shape: Option<Shape>,
        Ghost(ms): Ghost<Seq<Mention>>,
    ) -> (id: ValueId)
        requires
            old(self).holds(ms),
            names_of(ms).len() < u32::MAX,
        ensures
            ({
                let m = Mention {
                    name: name@,
                    role: Role::Declared { dtype, shape: chars::opt_view(shape) },
                };
                &&& final(self).holds(ms.push(m))
                &&& id.0 < names_of(ms.push(m)).len()
                &&& names_of(ms.push(m))[id.0 as int] == name@
            }),
    {
        let ghost m = Mention {
            name: name@,
            role: Role::Declared { dtype, shape: chars::opt_view(shape) },
        };
        let ghost before = *self;
        let id: ValueId = self.intern(name, Ghost(ms));
        let ghost mid = *self;
        proof {
            lemma_interned_value(before, mid, ms, name@, id);
        }
        let at: usize = id.0 as usize;
        if self.values[at].dtype.is_none() {
            self.values[at].dtype = dtype;
        }
        if self.values[at].shape.is_none() {
            self.values[at].shape = shape;
        }
        proof {
            lemma_noted(before, mid, *self, ms, m, id);
        }
        id
    }

    /// Notes an initializer.
    pub(crate) fn store(&mut self, name: &str, tensor: Tensor, Ghost(ms): Ghost<Seq<Mention>>)
        requires
            old(self).holds(ms),
            names_of(ms).len() < u32::MAX,
        ensures
            final(self).holds(ms.push(Mention { name: name@, role: Role::Stored(tensor@) })),
    {
        let ghost m = Mention { name: name@, role: Role::Stored(tensor@) };
        let ghost before = *self;
        let id: ValueId = self.intern(name, Ghost(ms));
        let ghost mid = *self;
        proof {
            lemma_interned_value(before, mid, ms, name@, id);
        }
        let at: usize = id.0 as usize;
        if self.values[at].dtype.is_none() {
            self.values[at].dtype = Some(tensor.dtype);
        }
        if self.values[at].shape.is_none() {
            self.values[at].shape = Some(tensor.shape());
        }
        self.values[at].tensor = Some(tensor);
        proof {
            lemma_noted(before, mid, *self, ms, m, id);
        }
    }

    /// Notes that a node reads the value with `name`, which it returns.
    fn read(&mut self, name: &str, node: NodeId, Ghost(ms): Ghost<Seq<Mention>>) -> (id: ValueId)
        requires
            old(self).holds(ms),
            names_of(ms).len() < u32::MAX,
        ensures
            ({
                let m = Mention { name: name@, role: Role::Read(node) };
                &&& final(self).holds(ms.push(m))
                &&& id.0 < names_of(ms.push(m)).len()
                &&& names_of(ms.push(m))[id.0 as int] == name@
            }),
    {
        let ghost m = Mention { name: name@, role: Role::Read(node) };
        let ghost before = *self;
        let id: ValueId = self.intern(name, Ghost(ms));
        let ghost mid = *self;
        proof {
            lemma_interned_value(before, mid, ms, name@, id);
        }
        let at: usize = id.0 as usize;
        if !contains_node(&self.values[at].consumers, node) {
            self.values[at].consumers.push(node);
        }
        proof {
            lemma_noted(before, mid, *self, ms, m, id);
        }
        id
    }

    /// Notes that a node writes the value with `name`, which it returns.
    fn write(&mut self, name: &str, node: NodeId, Ghost(ms): Ghost<Seq<Mention>>) -> (id: ValueId)
        requires
            old(self).holds(ms),
            names_of(ms).len() < u32::MAX,
        ensures
            ({
                let m = Mention { name: name@, role: Role::Written(node) };
                &&& final(self).holds(ms.push(m))
                &&& id.0 < names_of(ms.push(m)).len()
                &&& names_of(ms.push(m))[id.0 as int] == name@
            }),
    {
        let ghost m = Mention { name: name@, role: Role::Written(node) };
        let ghost before = *self;
        let id: ValueId = self.intern(name, Ghost(ms));
        let ghost mid = *self;
        proof {
            lemma_interned_value(before, mid, ms, name@, id);
        }
        let at: usize = id.0 as usize;
        self.values[at].producer = Some(node);
        proof {
            lemma_noted(before, mid, *self, ms, m, id);
        }
        id
    }
}

fn contains_node(nodes: &Vec<NodeId>, node: NodeId) -> (found: bool)
    ensures
        found == nodes@.contains(node),
{
    for i in 0..nodes.len()
        invariant
            forall|k: int| 0 <= k < i ==> nodes@[k] != node,
    {
        if nodes[i] == node {
            return true;
        }
    }
    false
}

/// Whether `names` stand at the same places in `more`.
pub open spec fn extends(more: Seq<Seq<char>>, names: Seq<Seq<char>>) -> bool {
    &&& names.len() <= more.len()
    &&& forall|i: int| 0 <= i < names.len() ==> #[trigger] more[i] == names[i]
}

/// Whether `id` is where `name` stands.
pub open spec fn found(names: Seq<Seq<char>>, id: ValueId, name: Seq<char>) -> bool {
    id.0 < names.len() && names[id.0 as int] == name
}

proof fn lemma_found(names: Seq<Seq<char>>, id: ValueId, name: Seq<char>)
    requires
        names.no_duplicates(),
        found(names, id, name),
    ensures
        id == id_of(names, name),
        names.contains(name),
{
    assert(names[id.0 as int] == name);
    assert(names.contains(name));
}

pub(crate) proof fn lemma_with_extends(ms: Seq<Mention>, m: Option<Mention>)
    ensures
        extends(names_of(with(ms, m)), names_of(ms)),
        m is Some ==> names_of(with(ms, m)).contains(m->0.name),
        ms.len() <= with(ms, m).len(),
{
    if m is Some {
        lemma_mention(ms, m->0);
        if !names_of(ms).contains(m->0.name) {
            assert(names_of(ms).push(m->0.name)[names_of(ms).len() as int] == m->0.name);
        }
    }
}

pub(crate) proof fn lemma_declare_all_extends(
    ms: Seq<Mention>,
    infos: Seq<ValueInfoProto>,
    k: nat,
    n: nat,
)
    requires
        k <= n,
    ensures
        extends(names_of(declare_all(ms, infos, n)), names_of(declare_all(ms, infos, k))),
        declare_all(ms, infos, k).len() <= declare_all(ms, infos, n).len(),
    decreases n,
{
    if k < n {
        lemma_declare_all_extends(ms, infos, k, (n - 1) as nat);
        lemma_with_extends(declare_all(ms, infos, (n - 1) as nat), declaration(infos[n - 1]));
    }
}

pub(crate) proof fn lemma_store_all_extends(
    ms: Seq<Mention>,
    tensors: Seq<TensorProto>,
    k: nat,
    n: nat,
)
    requires
        k <= n,
    ensures
        extends(names_of(store_all(ms, tensors, n)), names_of(store_all(ms, tensors, k))),
        store_all(ms, tensors, k).len() <= store_all(ms, tensors, n).len(),
    decreases n,
{
    if k < n {
        lemma_store_all_extends(ms, tensors, k, (n - 1) as nat);
        lemma_with_extends(store_all(ms, tensors, (n - 1) as nat), storage(tensors[n - 1]));
    }
}

pub(crate) proof fn lemma_place_all_extends(
    ms: Seq<Mention>,
    names: Seq<String>,
    role: Role,
    k: nat,
    n: nat,
)
    requires
        k <= n,
    ensures
        extends(
            names_of(place_all(ms, names, role, n)),
            names_of(place_all(ms, names, role, k)),
        ),
        place_all(ms, names, role, k).len() <= place_all(ms, names, role, n).len(),
    decreases n,
{
    if k < n {
        lemma_place_all_extends(ms, names, role, k, (n - 1) as nat);
        lemma_with_extends(
            place_all(ms, names, role, (n - 1) as nat),
            position(names[n - 1]@, role),
        );
    }
}

proof fn lemma_use_node_extends(ms: Seq<Mention>, node: NodeProto, id: NodeId)
    ensures
        extends(names_of(use_node(ms, node, id)), names_of(ms)),
        ms.len() <= use_node(ms, node, id).len(),
{
    let read = place_all(ms, node.input@, Role::Read(id), node.input@.len());
    lemma_place_all_extends(ms, node.input@, Role::Read(id), 0, node.input@.len());
    lemma_place_all_extends(read, node.output@, Role::Written(id), 0, node.output@.len());
}

pub(crate) proof fn lemma_use_all_extends(
    ms: Seq<Mention>,
    nodes: Seq<NodeProto>,
    k: nat,
    n: nat,
)
    requires
        k <= n,
    ensures
        extends(names_of(use_all(ms, nodes, n)), names_of(use_all(ms, nodes, k))),
        use_all(ms, nodes, k).len() <= use_all(ms, nodes, n).len(),
    decreases n,
{
    if k < n {
        lemma_use_all_extends(ms, nodes, k, (n - 1) as nat);
        lemma_use_node_extends(
            use_all(ms, nodes, (n - 1) as nat),
            nodes[n - 1],
            NodeId((n - 1) as u32),
        );
    }
}

/// Whether every name that the first `n` declarations give is among `names`.
pub(crate) open spec fn declared_within(
    names: Seq<Seq<char>>,
    infos: Seq<ValueInfoProto>,
    n: nat,
) -> bool {
    forall|k: int|
        0 <= k < n && (#[trigger] declaration(infos[k])) is Some ==> names.contains(
            declaration(infos[k])->0.name,
        )
}

pub(crate) proof fn lemma_contains_extends(more: Seq<Seq<char>>, names: Seq<Seq<char>>, name: Seq<char>)
    requires
        extends(more, names),
        names.contains(name),
    ensures
        more.contains(name),
        more.no_duplicates() ==> id_of(more, name) == id_of(names, name),
{
    let i = names.index_of(name);
    assert(0 <= i < names.len() && names[i] == name);
    assert(more[i] == name);
}

pub(crate) proof fn lemma_declared_ids_stay(
    more: Seq<Seq<char>>,
    names: Seq<Seq<char>>,
    infos: Seq<ValueInfoProto>,
    n: nat,
)
    requires
        extends(more, names),
        more.no_duplicates(),
        declared_within(names, infos, n),
    ensures
        declared_ids(more, infos, n) == declared_ids(names, infos, n),
        declared_within(more, infos, n),
    decreases n,
{
    assert forall|k: int|
        0 <= k < n && (#[trigger] declaration(infos[k])) is Some implies more.contains(
        declaration(infos[k])->0.name,
    ) by {
        lemma_contains_extends(more, names, declaration(infos[k])->0.name);
    }
    if n > 0 {
        lemma_declared_ids_stay(more, names, infos, (n - 1) as nat);
        match declaration(infos[n - 1]) {
            Some(m) => {
                lemma_contains_extends(more, names, m.name);
            },
            None => {},
        }
    }
}

/// Whether `ids` are where the positions of a node stand.
pub(crate) open spec fn positions_found(
    names: Seq<Seq<char>>,
    positions: Seq<String>,
    ids: Seq<Option<ValueId>>,
) -> bool {
    &&& ids.len() == positions.len()
    &&& forall|j: int|
        0 <= j < ids.len() ==> match #[trigger] ids[j] {
            Some(id) => positions[j]@.len() > 0 && found(names, id, positions[j]@),
            None => positions[j]@.len() == 0,
        }
}

pub(crate) proof fn lemma_positions_found(
    names: Seq<Seq<char>>,
    positions: Seq<String>,
    ids: Seq<Option<ValueId>>,
)
    requires
        names.no_duplicates(),
        positions_found(names, positions, ids),
    ensures
        ids == position_ids(names, positions),
{
    assert forall|j: int| 0 <= j < ids.len() implies ids[j] == #[trigger] position_ids(
        names,
        positions,
    )[j] by {
        match ids[j] {
            Some(id) => {
                lemma_found(names, id, positions[j]@);
            },
            None => {},
        }
    }
    assert(ids =~= position_ids(names, positions));
}

impl Interner {
    /// Notes a list of declarations, and returns the values declared.
    pub(crate) fn declare_infos(
        &mut self,
        infos: Vec<ValueInfoProto>,
        Ghost(ms): Ghost<Seq<Mention>>,
    ) -> (ids: Vec<ValueId>)
        requires
            old(self).holds(ms),
            declare_all(ms, infos@, infos@.len()).len() <= u32::MAX,
        ensures
            final(self).holds(declare_all(ms, infos@, infos@.len())),
            ids@ == declared_ids(
                names_of(declare_all(ms, infos@, infos@.len())),
                infos@,
                infos@.len(),
            ),
            declared_within(
                names_of(declare_all(ms, infos@, infos@.len())),
                infos@,
                infos@.len(),
            ),
    {
        let ghost protos = infos@;
        let mut ids: Vec<ValueId> = Vec::new();
        for info in iter: infos
            invariant
                iter.seq() == protos,
                declare_all(ms, protos, protos.len()).len() <= u32::MAX,
                self.holds(declare_all(ms, protos, iter.index() as nat)),
                ids@ == declared_ids(
                    names_of(declare_all(ms, protos, iter.index() as nat)),
                    protos,
                    iter.index() as nat,
                ),
                declared_within(
                    names_of(declare_all(ms, protos, iter.index() as nat)),
                    protos,
                    iter.index() as nat,
                ),
        {
            let ghost n = iter.index() as nat;
            let ghost now = declare_all(ms, protos, n);
            let ghost next = declare_all(ms, protos, n + 1);
            proof {
                assert(protos[n as int] == info);
                assert(next == with(now, declaration(info)));
                lemma_declare_all_extends(ms, protos, n + 1, protos.len());
                lemma_declare_all_extends(ms, protos, n, n + 1);
                lemma_names_are_distinct(now);
                lemma_names_are_distinct(next);
                lemma_declared_ids_stay(names_of(next), names_of(now), protos, n);
                lemma_with_extends(now, declaration(info));
            }
            if let Some(name) = info.name {
                if !name.as_str().is_empty() {
                    let (dtype, shape): (Option<DataType>, Option<Shape>) = match info.value_type {
                        Some(ty) => decompose_type(ty),
                        None => (None, None),
                    };
                    let id: ValueId = self.declare(name.as_str(), dtype, shape, Ghost(now));
                    proof {
                        lemma_found(names_of(next), id, name@);
                    }
                    ids.push(id);
                }
            }
        }
        ids
    }

    /// Notes a list of initializers.
    pub(crate) fn store_tensors(
        &mut self,
        tensors: Vec<TensorProto>,
        Ghost(ms): Ghost<Seq<Mention>>,
    )
        requires
            old(self).holds(ms),
            store_all(ms, tensors@, tensors@.len()).len() <= u32::MAX,
        ensures
            final(self).holds(store_all(ms, tensors@, tensors@.len())),
    {
        let ghost protos = tensors@;
        for tensor in iter: tensors
            invariant
                iter.seq() == protos,
                store_all(ms, protos, protos.len()).len() <= u32::MAX,
                self.holds(store_all(ms, protos, iter.index() as nat)),
        {
            let ghost n = iter.index() as nat;
            let ghost now = store_all(ms, protos, n);
            proof {
                assert(protos[n as int] == tensor);
                lemma_store_all_extends(ms, protos, n + 1, protos.len());
                lemma_names_are_distinct(now);
            }
            let name: Option<String> = tensor.name.clone();
            if let Some(name) = name {
                self.store(name.as_str(), tensor_from_proto(tensor), Ghost(now));
            }
        }
    }

    /// Notes what a node reads, and returns the value at each position.
    pub(crate) fn read_positions(
        &mut self,
        positions: &Vec<String>,
        node: NodeId,
        Ghost(ms): Ghost<Seq<Mention>>,
    ) -> (ids: Vec<Option<ValueId>>)
        requires
            old(self).holds(ms),
            place_all(ms, positions@, Role::Read(node), positions@.len()).len() <= u32::MAX,
        ensures
            final(self).holds(place_all(ms, positions@, Role::Read(node), positions@.len())),
            positions_found(
                names_of(place_all(ms, positions@, Role::Read(node), positions@.len())),
                positions@,
                ids@,
            ),
    {
        let mut ids: Vec<Option<ValueId>> = Vec::new();
        for i in 0..positions.len()
            invariant
                place_all(ms, positions@, Role::Read(node), positions@.len()).len() <= u32::MAX,
                self.holds(place_all(ms, positions@, Role::Read(node), i as nat)),
                positions_found(
                    names_of(place_all(ms, positions@, Role::Read(node), i as nat)),
                    positions@.take(i as int),
                    ids@,
                ),
        {
            let ghost now = place_all(ms, positions@, Role::Read(node), i as nat);
            let ghost next = place_all(ms, positions@, Role::Read(node), i as nat + 1);
            proof {
                lemma_place_all_extends(
                    ms,
                    positions@,
                    Role::Read(node),
                    i as nat + 1,
                    positions@.len(),
                );
                lemma_place_all_extends(ms, positions@, Role::Read(node), i as nat, i as nat + 1);
                lemma_names_are_distinct(now);
                assert(next == with(now, position(positions@[i as int]@, Role::Read(node))));
            }
            let id: Option<ValueId> = if positions[i].as_str().is_empty() {
                None
            } else {
                Some(self.read(positions[i].as_str(), node, Ghost(now)))
            };
            ids.push(id);
        }
        assert(positions@.take(positions@.len() as int) =~= positions@);
        ids
    }

    /// Notes what a node writes, and returns the value at each position.
    pub(crate) fn write_positions(
        &mut self,
        positions: &Vec<String>,
        node: NodeId,
        Ghost(ms): Ghost<Seq<Mention>>,
    ) -> (ids: Vec<Option<ValueId>>)
        requires
            old(self).holds(ms),
            place_all(ms, positions@, Role::Written(node), positions@.len()).len() <= u32::MAX,
        ensures
            final(self).holds(place_all(ms, positions@, Role::Written(node), positions@.len())),
            positions_found(
                names_of(place_all(ms, positions@, Role::Written(node), positions@.len())),
                positions@,
                ids@,
            ),
    {
        let mut ids: Vec<Option<ValueId>> = Vec::new();
        for i in 0..positions.len()
            invariant
                place_all(ms, positions@, Role::Written(node), positions@.len()).len() <= u32::MAX,
                self.holds(place_all(ms, positions@, Role::Written(node), i as nat)),
                positions_found(
                    names_of(place_all(ms, positions@, Role::Written(node), i as nat)),
                    positions@.take(i as int),
                    ids@,
                ),
        {
            let ghost now = place_all(ms, positions@, Role::Written(node), i as nat);
            let ghost next = place_all(ms, positions@, Role::Written(node), i as nat + 1);
            proof {
                lemma_place_all_extends(
                    ms,
                    positions@,
                    Role::Written(node),
                    i as nat + 1,
                    positions@.len(),
                );
                lemma_place_all_extends(
                    ms,
                    positions@,
                    Role::Written(node),
                    i as nat,
                    i as nat + 1,
                );
                lemma_names_are_distinct(now);
                assert(next == with(now, position(positions@[i as int]@, Role::Written(node))));
            }
            let id: Option<ValueId> = if positions[i].as_str().is_empty() {
                None
            } else {
                Some(self.write(positions[i].as_str(), node, Ghost(now)))
            };
            ids.push(id);
        }
        assert(positions@.take(positions@.len() as int) =~= positions@);
        ids
    }
}

/// Whether the mentions speak only of the first `n` nodes.
pub(crate) open spec fn nodes_below(ms: Seq<Mention>, n: nat) -> bool {
    forall|k: int|
        0 <= k < ms.len() ==> match (#[trigger] ms[k]).role {
            Role::Read(node) => node.0 < n,
            Role::Written(node) => node.0 < n,
            _ => true,
        }
}

pub(crate) proof fn lemma_learned_below(ms: Seq<Mention>, n: nat, i: int, name: Seq<char>)
    requires
        nodes_below(ms, n),
    ensures
        learned(ms, i, name).producer is Some ==> (learned(ms, i, name).producer->0).0 < n,
        forall|k: int|
            0 <= k < learned(ms, i, name).consumers.len() ==> (#[trigger] learned(
                ms,
                i,
                name,
            ).consumers[k]).0 < n,
    decreases ms.len(),
{
    if ms.len() > 0 {
        assert forall|k: int| 0 <= k < ms.drop_last().len() implies #[trigger] ms.drop_last()[k]
            == ms[k] by {}
        lemma_learned_below(ms.drop_last(), n, i, name);
        let m = ms[ms.len() - 1];
        assert(m == ms.last());
    }
}

proof fn lemma_declare_all_below(ms: Seq<Mention>, infos: Seq<ValueInfoProto>, k: nat, n: nat)
    requires
        nodes_below(ms, n),
    ensures
        nodes_below(declare_all(ms, infos, k), n),
    decreases k,
{
    if k > 0 {
        lemma_declare_all_below(ms, infos, (k - 1) as nat, n);
    }
}

proof fn lemma_store_all_below(ms: Seq<Mention>, tensors: Seq<TensorProto>, k: nat, n: nat)
    requires
        nodes_below(ms, n),
    ensures
        nodes_below(store_all(ms, tensors, k), n),
    decreases k,
{
    if k > 0 {
        lemma_store_all_below(ms, tensors, (k - 1) as nat, n);
    }
}

proof fn lemma_place_all_below(ms: Seq<Mention>, names: Seq<String>, role: Role, k: nat, n: nat)
    requires
        nodes_below(ms, n),
        role matches Role::Read(node) ==> node.0 < n,
        role matches Role::Written(node) ==> node.0 < n,
    ensures
        nodes_below(place_all(ms, names, role, k), n),
    decreases k,
{
    if k > 0 {
        lemma_place_all_below(ms, names, role, (k - 1) as nat, n);
    }
}

pub(crate) proof fn lemma_prologue_below(p: GraphProto)
    ensures
        nodes_below(prologue(p), 0),
{
    let a = declare_all(Seq::<Mention>::empty(), p.input@, p.input@.len());
    let b = declare_all(a, p.output@, p.output@.len());
    let c = store_all(b, p.initializer@, p.initializer@.len());
    lemma_declare_all_below(Seq::<Mention>::empty(), p.input@, p.input@.len(), 0);
    lemma_declare_all_below(a, p.output@, p.output@.len(), 0);
    lemma_store_all_below(b, p.initializer@, p.initializer@.len(), 0);
    lemma_declare_all_below(c, p.value_info@, p.value_info@.len(), 0);
}

pub(crate) proof fn lemma_use_all_below(ms: Seq<Mention>, nodes: Seq<NodeProto>, n: nat)
    requires
        nodes_below(ms, 0),
        n <= u32::MAX,
    ensures
        nodes_below(use_all(ms, nodes, n), n),
    decreases n,
{
    if n > 0 {
        let before = use_all(ms, nodes, (n - 1) as nat);
        lemma_use_all_below(ms, nodes, (n - 1) as nat);
        assert(nodes_below(before, n));
        let node = nodes[n - 1];
        let id = NodeId((n - 1) as u32);
        let read = place_all(before, node.input@, Role::Read(id), node.input@.len());
        lemma_place_all_below(before, node.input@, Role::Read(id), node.input@.len(), n);
        lemma_place_all_below(read, node.output@, Role::Written(id), node.output@.len(), n);
    }
}

/// No step of noting what a graph mentions is longer than the whole.
pub(crate) proof fn lemma_prologue_len(p: GraphProto)
    ensures
        declare_all(Seq::<Mention>::empty(), p.input@, p.input@.len()).len() <= mentions(p).len(),
        ({
            let a = declare_all(Seq::<Mention>::empty(), p.input@, p.input@.len());
            let b = declare_all(a, p.output@, p.output@.len());
            let c = store_all(b, p.initializer@, p.initializer@.len());
            &&& b.len() <= mentions(p).len()
            &&& c.len() <= mentions(p).len()
            &&& prologue(p).len() <= mentions(p).len()
            &&& extends(names_of(mentions(p)), names_of(a))
            &&& extends(names_of(mentions(p)), names_of(b))
        }),
{
    let a = declare_all(Seq::<Mention>::empty(), p.input@, p.input@.len());
    let b = declare_all(a, p.output@, p.output@.len());
    let c = store_all(b, p.initializer@, p.initializer@.len());
    lemma_declare_all_extends(a, p.output@, 0, p.output@.len());
    lemma_store_all_extends(b, p.initializer@, 0, p.initializer@.len());
    lemma_declare_all_extends(c, p.value_info@, 0, p.value_info@.len());
    lemma_use_all_extends(prologue(p), p.node@, 0, p.node@.len());
}

} // verus!
