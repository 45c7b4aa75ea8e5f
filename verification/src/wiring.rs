//! What holds of every graph that is built.

use crate::builder;
use crate::graph::{self, GraphView};
use crate::mentions::{self, Mention, Role};
use crate::model::{GraphId, NodeId, ValueId, ValueKind};
use crate::proto::{GraphProto, NodeProto, TensorProto, ValueInfoProto};
use vstd::prelude::*;

verus! {

proof fn lemma_place_all_contains(ms: Seq<Mention>, names: Seq<String>, role: Role, n: nat, j: int)
    requires
        0 <= j < n <= names.len(),
        names[j]@.len() > 0,
    ensures
        mentions::names_of(mentions::place_all(ms, names, role, n)).contains(names[j]@),
    decreases n,
{
    let before = mentions::place_all(ms, names, role, (n - 1) as nat);
    mentions::lemma_with_extends(before, mentions::position(names[n - 1]@, role));
    if j < n - 1 {
        lemma_place_all_contains(ms, names, role, (n - 1) as nat, j);
        mentions::lemma_contains_extends(
            mentions::names_of(mentions::place_all(ms, names, role, n)),
            mentions::names_of(before),
            names[j]@,
        );
    }
}

/// Every value that a node reads or writes is among those of its graph.
pub(crate) proof fn lemma_positions_within(p: GraphProto, i: int)
    requires
        0 <= i < p.node@.len(),
    ensures
        forall|j: int|
            0 <= j < p.node@[i].input@.len() && (#[trigger] p.node@[i].input@[j])@.len() > 0
                ==> mentions::names_of(mentions::mentions(p)).contains(p.node@[i].input@[j]@),
        forall|j: int|
            0 <= j < p.node@[i].output@.len() && (#[trigger] p.node@[i].output@[j])@.len() > 0
                ==> mentions::names_of(mentions::mentions(p)).contains(p.node@[i].output@[j]@),
{
    let prologue = mentions::prologue(p);
    let now = mentions::use_all(prologue, p.node@, i as nat);
    let next = mentions::use_all(prologue, p.node@, i as nat + 1);
    let id = NodeId(i as u32);
    let node = p.node@[i];
    let read = mentions::place_all(now, node.input@, Role::Read(id), node.input@.len());
    let all = mentions::names_of(mentions::mentions(p));
    mentions::lemma_use_all_extends(prologue, p.node@, i as nat + 1, p.node@.len());
    mentions::lemma_place_all_extends(
        read,
        node.output@,
        Role::Written(id),
        0,
        node.output@.len(),
    );
    assert(next == mentions::place_all(read, node.output@, Role::Written(id), node.output@.len()));
    assert forall|j: int|
        0 <= j < node.input@.len() && (#[trigger] node.input@[j])@.len() > 0 implies all.contains(
        node.input@[j]@,
    ) by {
        lemma_place_all_contains(now, node.input@, Role::Read(id), node.input@.len(), j);
        mentions::lemma_contains_extends(
            mentions::names_of(next),
            mentions::names_of(read),
            node.input@[j]@,
        );
        mentions::lemma_contains_extends(all, mentions::names_of(next), node.input@[j]@);
    }
    assert forall|j: int|
        0 <= j < node.output@.len() && (#[trigger] node.output@[j])@.len() > 0 implies all.contains(
        node.output@[j]@,
    ) by {
        lemma_place_all_contains(read, node.output@, Role::Written(id), node.output@.len(), j);
        mentions::lemma_contains_extends(all, mentions::names_of(next), node.output@[j]@);
    }
}

pub(crate) proof fn lemma_declared_within(ms: Seq<Mention>, infos: Seq<ValueInfoProto>, n: nat)
    requires
        n <= infos.len(),
    ensures
        mentions::declared_within(
            mentions::names_of(mentions::declare_all(ms, infos, n)),
            infos,
            n,
        ),
    decreases n,
{
    if n > 0 {
        let before = mentions::declare_all(ms, infos, (n - 1) as nat);
        let after = mentions::declare_all(ms, infos, n);
        lemma_declared_within(ms, infos, (n - 1) as nat);
        mentions::lemma_with_extends(before, mentions::declaration(infos[n - 1]));
        mentions::lemma_names_are_distinct(after);
        mentions::lemma_declared_ids_stay(
            mentions::names_of(after),
            mentions::names_of(before),
            infos,
            (n - 1) as nat,
        );
    }
}

proof fn lemma_declared_ids_in_range(names: Seq<Seq<char>>, infos: Seq<ValueInfoProto>, n: nat)
    requires
        mentions::declared_within(names, infos, n),
        names.len() <= u32::MAX,
    ensures
        forall|k: int|
            0 <= k < mentions::declared_ids(names, infos, n).len() ==> (
            #[trigger] mentions::declared_ids(names, infos, n)[k]).0 < names.len(),
    decreases n,
{
    if n > 0 {
        lemma_declared_ids_in_range(names, infos, (n - 1) as nat);
        let before = mentions::declared_ids(names, infos, (n - 1) as nat);
        match mentions::declaration(infos[n - 1]) {
            Some(m) => {
                assert(names.contains(m.name));
                let at = names.index_of(m.name);
                assert(0 <= at < names.len());
                let after = mentions::declared_ids(names, infos, n);
                assert(after == before.push(mentions::id_of(names, m.name)));
                assert forall|k: int| 0 <= k < after.len() implies (#[trigger] after[k]).0
                    < names.len() by {
                    if k < before.len() {
                        assert(after[k] == before[k]);
                    }
                }
            },
            None => {},
        }
    }
}

/// What a graph declares is among its values.
proof fn lemma_declarations_in_range(p: GraphProto)
    requires
        builder::numberable(p),
    ensures
        ({
            let names = mentions::names_of(mentions::mentions(p));
            let inputs = mentions::declared_ids(names, p.input@, p.input@.len());
            let outputs = mentions::declared_ids(names, p.output@, p.output@.len());
            &&& forall|k: int| 0 <= k < inputs.len() ==> (#[trigger] inputs[k]).0 < names.len()
            &&& forall|k: int| 0 <= k < outputs.len() ==> (#[trigger] outputs[k]).0 < names.len()
        }),
{
    let none = Seq::<Mention>::empty();
    let names = mentions::names_of(mentions::mentions(p));
    let a = mentions::declare_all(none, p.input@, p.input@.len());
    let b = mentions::declare_all(a, p.output@, p.output@.len());
    mentions::lemma_prologue_len(p);
    mentions::lemma_names_are_distinct(mentions::mentions(p));
    lemma_declared_within(none, p.input@, p.input@.len());
    lemma_declared_within(a, p.output@, p.output@.len());
    mentions::lemma_declared_ids_stay(names, mentions::names_of(a), p.input@, p.input@.len());
    mentions::lemma_declared_ids_stay(names, mentions::names_of(b), p.output@, p.output@.len());
    lemma_declared_ids_in_range(names, p.input@, p.input@.len());
    lemma_declared_ids_in_range(names, p.output@, p.output@.len());
}

/// A graph that is built is well formed: every ID in it stands for what it
/// names.
pub proof fn law_graph_is_well_formed(
    p: GraphProto,
    id: nat,
    parent: Option<GraphId>,
    label: Seq<char>,
)
    requires
        builder::numberable(p),
    ensures
        builder::graph_model(p, id, parent, label).wf(),
{
    let g = builder::graph_model(p, id, parent, label);
    let ms = mentions::mentions(p);
    let names = mentions::names_of(ms);
    mentions::lemma_names_are_distinct(ms);
    mentions::lemma_prologue_below(p);
    mentions::lemma_use_all_below(mentions::prologue(p), p.node@, p.node@.len());
    lemma_declarations_in_range(p);
    assert(g.names() =~= names) by {
        assert forall|i: int| 0 <= i < names.len() implies g.names()[i] == names[i] by {
            mentions::lemma_learned_name(ms, i, names[i]);
        }
    }
    assert forall|i: int| 0 <= i < g.values.len() implies g.value_wf(#[trigger] g.values[i], i) by {
        mentions::lemma_learned_name(ms, i, names[i]);
        mentions::lemma_learned_below(ms, p.node@.len(), i, names[i]);
    }
    assert forall|i: int| 0 <= i < g.nodes.len() implies g.node_wf(#[trigger] g.nodes[i], i) by {
        lemma_positions_within(p, i);
        assert forall|j: int| 0 <= j < g.nodes[i].inputs.len() implies (
        (#[trigger] g.nodes[i].inputs[j]) is Some ==> g.has_value(g.nodes[i].inputs[j]->0)) by {
            let name = p.node@[i].input@[j]@;
            if name.len() > 0 {
                assert(names.contains(name));
            }
        }
        assert forall|j: int| 0 <= j < g.nodes[i].outputs.len() implies (
        (#[trigger] g.nodes[i].outputs[j]) is Some ==> g.has_value(g.nodes[i].outputs[j]->0)) by {
            let name = p.node@[i].output@[j]@;
            if name.len() > 0 {
                assert(names.contains(name));
            }
        }
    }
}

/// Whether `name` is at one of the first `n` positions.
pub(crate) open spec fn at_position(positions: Seq<String>, n: nat, name: Seq<char>) -> bool {
    exists|j: int| 0 <= j < n && (#[trigger] positions[j])@ == name
}

/// What a list of declarations does not change of a value.
proof fn lemma_declare_all_keeps(
    ms: Seq<Mention>,
    infos: Seq<ValueInfoProto>,
    n: nat,
    i: int,
    name: Seq<char>,
)
    ensures
        ({
            let before = mentions::learned(ms, i, name);
            let after = mentions::learned(mentions::declare_all(ms, infos, n), i, name);
            after.consumers == before.consumers && after.producer == before.producer
        }),
    decreases n,
{
    if n > 0 {
        let before = mentions::declare_all(ms, infos, (n - 1) as nat);
        lemma_declare_all_keeps(ms, infos, (n - 1) as nat, i, name);
        match mentions::declaration(infos[n - 1]) {
            Some(m) => {
                assert(before.push(m).drop_last() =~= before);
            },
            None => {},
        }
    }
}

/// What a list of initializers does not change of a value.
proof fn lemma_store_all_keeps(
    ms: Seq<Mention>,
    tensors: Seq<crate::proto::TensorProto>,
    n: nat,
    i: int,
    name: Seq<char>,
)
    ensures
        ({
            let before = mentions::learned(ms, i, name);
            let after = mentions::learned(mentions::store_all(ms, tensors, n), i, name);
            after.consumers == before.consumers && after.producer == before.producer
        }),
    decreases n,
{
    if n > 0 {
        let before = mentions::store_all(ms, tensors, (n - 1) as nat);
        lemma_store_all_keeps(ms, tensors, (n - 1) as nat, i, name);
        match mentions::storage(tensors[n - 1]) {
            Some(m) => {
                assert(before.push(m).drop_last() =~= before);
            },
            None => {},
        }
    }
}

/// Before its nodes are looked at, a graph's values are neither read nor
/// written.
pub(crate) proof fn lemma_prologue_connects_nothing(p: GraphProto, i: int, name: Seq<char>)
    ensures
        mentions::learned(mentions::prologue(p), i, name).consumers.len() == 0,
        mentions::learned(mentions::prologue(p), i, name).producer is None,
{
    let none = Seq::<Mention>::empty();
    let a = mentions::declare_all(none, p.input@, p.input@.len());
    let b = mentions::declare_all(a, p.output@, p.output@.len());
    let c = mentions::store_all(b, p.initializer@, p.initializer@.len());
    lemma_declare_all_keeps(none, p.input@, p.input@.len(), i, name);
    lemma_declare_all_keeps(a, p.output@, p.output@.len(), i, name);
    lemma_store_all_keeps(b, p.initializer@, p.initializer@.len(), i, name);
    lemma_declare_all_keeps(c, p.value_info@, p.value_info@.len(), i, name);
}

/// What a node's reading adds to a value.
proof fn lemma_read_all_adds(
    ms: Seq<Mention>,
    positions: Seq<String>,
    node: NodeId,
    n: nat,
    i: int,
    name: Seq<char>,
)
    requires
        n <= positions.len(),
        mentions::learned(ms, i, name).consumers.no_duplicates(),
    ensures
        ({
            let before = mentions::learned(ms, i, name);
            let after = mentions::learned(
                mentions::place_all(ms, positions, Role::Read(node), n),
                i,
                name,
            );
            &&& after.producer == before.producer
            &&& after.consumers.no_duplicates()
            &&& forall|x: NodeId| #[trigger]
                after.consumers.contains(x) <==> before.consumers.contains(x) || (x == node
                    && name.len() > 0 && at_position(positions, n, name))
        }),
    decreases n,
{
    let start = mentions::learned(ms, i, name);
    if n == 0 {
        assert(!at_position(positions, n, name));
    } else {
        let k = (n - 1) as nat;
        let ms1 = mentions::place_all(ms, positions, Role::Read(node), k);
        let ms2 = mentions::place_all(ms, positions, Role::Read(node), n);
        lemma_read_all_adds(ms, positions, node, k, i, name);
        let before = mentions::learned(ms1, i, name);
        let after = mentions::learned(ms2, i, name);
        mentions::lemma_learned_name(ms1, i, name);
        let here = positions[n - 1]@;
        assert(at_position(positions, n, name) <==> at_position(positions, k, name) || here
            == name) by {
            if at_position(positions, n, name) {
                let j = choose|j: int| 0 <= j < n && (#[trigger] positions[j])@ == name;
                if j < k {
                    assert(at_position(positions, k, name));
                }
            }
            if at_position(positions, k, name) {
                let j = choose|j: int| 0 <= j < k && (#[trigger] positions[j])@ == name;
                assert(at_position(positions, n, name));
            }
        }
        if here.len() > 0 {
            let m = Mention { name: here, role: Role::Read(node) };
            assert(ms2 == ms1.push(m));
            assert(ms2.drop_last() =~= ms1);
            assert(after == mentions::learn(before, m));
            if here == name && !before.consumers.contains(node) {
                assert(after.consumers == before.consumers.push(node));
                assert forall|x: NodeId| #[trigger]
                    after.consumers.contains(x) <==> before.consumers.contains(x) || x == node by {
                    if before.consumers.contains(x) {
                        let at = before.consumers.index_of(x);
                        assert(after.consumers[at] == x);
                    }
                    assert(after.consumers[before.consumers.len() as int] == node);
                }
            }
        }
    }
}

/// What a node's writing adds to a value.
proof fn lemma_write_all_adds(
    ms: Seq<Mention>,
    positions: Seq<String>,
    node: NodeId,
    n: nat,
    i: int,
    name: Seq<char>,
)
    requires
        n <= positions.len(),
    ensures
        ({
            let before = mentions::learned(ms, i, name);
            let after = mentions::learned(
                mentions::place_all(ms, positions, Role::Written(node), n),
                i,
                name,
            );
            &&& after.consumers == before.consumers
            &&& after.producer == if name.len() > 0 && at_position(positions, n, name) {
                Some(node)
            } else {
                before.producer
            }
        }),
    decreases n,
{
    if n == 0 {
        assert(!at_position(positions, n, name));
    } else {
        let k = (n - 1) as nat;
        let ms1 = mentions::place_all(ms, positions, Role::Written(node), k);
        let ms2 = mentions::place_all(ms, positions, Role::Written(node), n);
        lemma_write_all_adds(ms, positions, node, k, i, name);
        mentions::lemma_learned_name(ms1, i, name);
        let here = positions[n - 1]@;
        assert(at_position(positions, n, name) <==> at_position(positions, k, name) || here
            == name) by {
            if at_position(positions, n, name) {
                let j = choose|j: int| 0 <= j < n && (#[trigger] positions[j])@ == name;
                if j < k {
                    assert(at_position(positions, k, name));
                }
            }
            if at_position(positions, k, name) {
                let j = choose|j: int| 0 <= j < k && (#[trigger] positions[j])@ == name;
                assert(at_position(positions, n, name));
            }
        }
        if here.len() > 0 {
            assert(ms2.drop_last() =~= ms1);
        }
    }
}

/// Who reads and writes a value, once `n` nodes have been looked at.
pub(crate) proof fn lemma_use_all_connects(p: GraphProto, n: nat, i: int, name: Seq<char>)
    requires
        n <= p.node@.len() <= u32::MAX,
    ensures
        ({
            let v = mentions::learned(
                mentions::use_all(mentions::prologue(p), p.node@, n),
                i,
                name,
            );
            &&& v.consumers.no_duplicates()
            &&& forall|x: NodeId| #[trigger]
                v.consumers.contains(x) <==> x.0 < n && name.len() > 0 && at_position(
                    p.node@[x.0 as int].input@,
                    p.node@[x.0 as int].input@.len(),
                    name,
                )
            &&& match v.producer {
                Some(x) => x.0 < n && name.len() > 0 && at_position(
                    p.node@[x.0 as int].output@,
                    p.node@[x.0 as int].output@.len(),
                    name,
                ) && forall|y: int|
                    x.0 < y < n ==> !at_position(
                        #[trigger] p.node@[y].output@,
                        p.node@[y].output@.len(),
                        name,
                    ),
                None => name.len() > 0 ==> forall|y: int|
                    0 <= y < n ==> !at_position(
                        #[trigger] p.node@[y].output@,
                        p.node@[y].output@.len(),
                        name,
                    ),
            }
        }),
    decreases n,
{
    let prologue = mentions::prologue(p);
    if n == 0 {
        lemma_prologue_connects_nothing(p, i, name);
    } else {
        let k = (n - 1) as nat;
        let ms = mentions::use_all(prologue, p.node@, k);
        let node = p.node@[k as int];
        let id = NodeId(k as u32);
        let read = mentions::place_all(ms, node.input@, Role::Read(id), node.input@.len());
        lemma_use_all_connects(p, k, i, name);
        lemma_read_all_adds(ms, node.input@, id, node.input@.len(), i, name);
        lemma_write_all_adds(read, node.output@, id, node.output@.len(), i, name);
    }
}

/// A node's positions hold a value where they hold its name.
proof fn lemma_position_ids_contain(names: Seq<Seq<char>>, positions: Seq<String>, v: int)
    requires
        names.no_duplicates(),
        names.len() <= u32::MAX,
        0 <= v < names.len(),
        forall|j: int|
            0 <= j < positions.len() && (#[trigger] positions[j])@.len() > 0 ==> names.contains(
                positions[j]@,
            ),
    ensures
        mentions::position_ids(names, positions).contains(Some(ValueId(v as u32))) <==> (
        names[v].len() > 0 && at_position(positions, positions.len(), names[v])),
{
    let ids = mentions::position_ids(names, positions);
    let wanted = Some(ValueId(v as u32));
    if ids.contains(wanted) {
        let j = choose|j: int| 0 <= j < ids.len() && ids[j] == wanted;
        let name = positions[j]@;
        assert(name.len() > 0);
        assert(names.contains(name));
        assert(names[names.index_of(name)] == name);
        assert(at_position(positions, positions.len(), names[v]));
    }
    if names[v].len() > 0 && at_position(positions, positions.len(), names[v]) {
        let j = choose|j: int| 0 <= j < positions.len() && (#[trigger] positions[j])@ == names[v];
        let at = names.index_of(names[v]);
        assert(names.contains(names[v]));
        assert(names[at] == names[v]);
        assert(ids[j] == wanted);
    }
}

/// In a graph that is built, each value knows the nodes that read it, each of
/// them once, and the node that writes it.
pub proof fn law_edges_are_connected(
    p: GraphProto,
    id: nat,
    parent: Option<GraphId>,
    label: Seq<char>,
)
    requires
        builder::numberable(p),
    ensures
        builder::graph_model(p, id, parent, label).connected(),
{
    let g = builder::graph_model(p, id, parent, label);
    let ms = mentions::mentions(p);
    let names = mentions::names_of(ms);
    mentions::lemma_names_are_distinct(ms);
    assert forall|v: int, n: int| 0 <= v < g.values.len() && 0 <= n < g.nodes.len() implies (
    #[trigger] g.reads(n, v) <==> g.values[v].consumers.contains(NodeId(n as u32))) by {
        lemma_use_all_connects(p, p.node@.len(), v, names[v]);
        lemma_positions_within(p, n);
        lemma_position_ids_contain(names, p.node@[n].input@, v);
    }
    assert forall|v: int| 0 <= v < g.values.len() implies (
    #[trigger] g.values[v]).consumers.no_duplicates() by {
        lemma_use_all_connects(p, p.node@.len(), v, names[v]);
    }
    assert forall|v: int| #![trigger g.values[v].producer] 0 <= v < g.values.len() implies match g.values[v].producer {
        Some(w) => g.writes(w.0 as int, v) && forall|n: int|
            w.0 < n < g.nodes.len() ==> !g.writes(n, v),
        None => forall|n: int| 0 <= n < g.nodes.len() ==> !g.writes(n, v),
    } by {
        lemma_use_all_connects(p, p.node@.len(), v, names[v]);
        assert forall|n: int| 0 <= n < g.nodes.len() implies g.writes(n, v) == (names[v].len() > 0
            && at_position(p.node@[n].output@, p.node@[n].output@.len(), names[v])) by {
            lemma_positions_within(p, n);
            lemma_position_ids_contain(names, p.node@[n].output@, v);
        }
    }
}

/// Bodies that follow in each of two parts of an arena follow in the whole.
proof fn lemma_bodies_joined(a: Seq<GraphView>, b: Seq<GraphView>, base: nat)
    requires
        graph::bodies_follow(a, base),
        graph::bodies_follow(b, base + a.len()),
    ensures
        graph::bodies_follow(a + b, base),
{
    let all = a + b;
    assert forall|k: int, n: int, j: int, sub: GraphId|
        0 <= k < all.len() && #[trigger] graph::has_body(all[k], n, j, sub) implies {
        &&& base <= sub.0 < base + all.len()
        &&& all[sub.0 - base].parent == Some(GraphId((base + k) as u32))
    } by {
        if k < a.len() {
            assert(graph::has_body(a[k], n, j, sub));
        } else {
            assert(graph::has_body(b[k - a.len()], n, j, sub));
            assert(all[sub.0 - base] == b[sub.0 - (base + a.len())]);
        }
    }
}

/// Where a subgraph stands among those nested in the first attributes.
proof fn lemma_attrs_arena_at(p: GraphProto, id: nat, i: nat, m: nat, j: nat)
    requires
        i < p.node@.len(),
        j < m <= p.node@[i as int].attribute@.len(),
        builder::holds_graph(p.node@[i as int].attribute@[j as int]),
    ensures
        builder::attrs_size(p, i, j) < builder::attrs_arena(p, id, i, m).len(),
        builder::attrs_arena(p, id, i, m)[builder::attrs_size(p, i, j) as int].parent == Some(
            GraphId(id as u32),
        ),
    decreases m,
{
    let before = builder::attrs_arena(p, id, i, (m - 1) as nat);
    builder::lemma_attrs_arena_len(p, id, i, (m - 1) as nat);
    if j < m - 1 {
        lemma_attrs_arena_at(p, id, i, (m - 1) as nat, j);
        assert(builder::attrs_arena(p, id, i, m)[builder::attrs_size(p, i, j) as int]
            == before[builder::attrs_size(p, i, j) as int]);
    } else {
        let node = p.node@[i as int];
        let attr = node.attribute@[j as int];
        let place = builder::subgraph_place(p, id, i, j);
        let parent = Some(GraphId(id as u32));
        let label = builder::subgraph_label(node, attr);
        let more = builder::arena(attr.g->0, place, parent, label);
        assert(more[0] == builder::graph_model(attr.g->0, place, parent, label));
        assert(builder::attrs_arena(p, id, i, m) == before + more);
        assert((before + more)[before.len() as int] == more[0]);
    }
}

/// Where a subgraph stands among those nested in the first nodes.
proof fn lemma_nodes_arena_at(p: GraphProto, id: nat, n: nat, i: nat, j: nat)
    requires
        i < n <= p.node@.len(),
        j < p.node@[i as int].attribute@.len(),
        builder::holds_graph(p.node@[i as int].attribute@[j as int]),
    ensures
        builder::nodes_size(p, i) + builder::attrs_size(p, i, j) < builder::nodes_arena(
            p,
            id,
            n,
        ).len(),
        builder::nodes_arena(p, id, n)[(builder::nodes_size(p, i) + builder::attrs_size(
            p,
            i,
            j,
        )) as int].parent == Some(GraphId(id as u32)),
    decreases n,
{
    let at = builder::nodes_size(p, i) + builder::attrs_size(p, i, j);
    let before = builder::nodes_arena(p, id, (n - 1) as nat);
    builder::lemma_nodes_arena_len(p, id, (n - 1) as nat);
    if i < n - 1 {
        lemma_nodes_arena_at(p, id, (n - 1) as nat, i, j);
        assert(builder::nodes_arena(p, id, n)[at as int] == before[at as int]);
    } else {
        lemma_attrs_arena_at(p, id, i, p.node@[i as int].attribute@.len(), j);
        let more = builder::attrs_arena(p, id, i, p.node@[i as int].attribute@.len());
        assert(builder::nodes_arena(p, id, n)[at as int] == more[builder::attrs_size(
            p,
            i,
            j,
        ) as int]);
    }
}

proof fn lemma_arena_bodies(p: GraphProto, id: nat, parent: Option<GraphId>, label: Seq<char>)
    requires
        id + builder::graph_size(p) <= u32::MAX,
    ensures
        graph::bodies_follow(builder::arena(p, id, parent, label), id),
    decreases p, 2nat, 0nat,
{
    let all = builder::arena(p, id, parent, label);
    let first = builder::graph_model(p, id, parent, label);
    let rest = builder::nodes_arena(p, id, p.node@.len());
    lemma_nodes_arena_bodies(p, id, p.node@.len());
    builder::lemma_nodes_arena_len(p, id, p.node@.len());
    assert forall|k: int, n: int, j: int, sub: GraphId|
        0 <= k < all.len() && #[trigger] graph::has_body(all[k], n, j, sub) implies {
        &&& id <= sub.0 < id + all.len()
        &&& all[sub.0 - id].parent == Some(GraphId((id + k) as u32))
    } by {
        if k == 0 {
            assert(all[0] == first);
            let attr = p.node@[n].attribute@[j];
            assert(builder::holds_graph(attr));
            let place = builder::subgraph_place(p, id, n as nat, j as nat);
            lemma_nodes_arena_at(p, id, p.node@.len(), n as nat, j as nat);
            assert(sub == GraphId(place as u32));
            assert(all[place - id] == rest[place - id - 1]);
        } else {
            assert(all[k] == rest[k - 1]);
            assert(graph::has_body(rest[k - 1], n, j, sub));
            assert(all[sub.0 - id] == rest[sub.0 - (id + 1)]);
        }
    }
}

proof fn lemma_nodes_arena_bodies(p: GraphProto, id: nat, n: nat)
    requires
        n <= p.node@.len(),
        id + builder::graph_size(p) <= u32::MAX,
    ensures
        graph::bodies_follow(builder::nodes_arena(p, id, n), id + 1),
    decreases p, 1nat, n,
{
    if n > 0 {
        let m = p.node@[n - 1].attribute@.len();
        lemma_nodes_arena_bodies(p, id, (n - 1) as nat);
        lemma_attrs_arena_bodies(p, id, (n - 1) as nat, m);
        builder::lemma_nodes_arena_len(p, id, (n - 1) as nat);
        lemma_bodies_joined(
            builder::nodes_arena(p, id, (n - 1) as nat),
            builder::attrs_arena(p, id, (n - 1) as nat, m),
            id + 1,
        );
    }
}

proof fn lemma_attrs_arena_bodies(p: GraphProto, id: nat, i: nat, m: nat)
    requires
        i < p.node@.len(),
        m <= p.node@[i as int].attribute@.len(),
        id + builder::graph_size(p) <= u32::MAX,
    ensures
        graph::bodies_follow(
            builder::attrs_arena(p, id, i, m),
            id + 1 + builder::nodes_size(p, i),
        ),
    decreases p, 0nat, m,
{
    if m > 0 {
        let attr = p.node@[i as int].attribute@[m - 1];
        let before = builder::attrs_arena(p, id, i, (m - 1) as nat);
        lemma_attrs_arena_bodies(p, id, i, (m - 1) as nat);
        builder::lemma_attrs_arena_len(p, id, i, (m - 1) as nat);
        if builder::holds_graph(attr) {
            let place = builder::subgraph_place(p, id, i, (m - 1) as nat);
            let label = builder::subgraph_label(p.node@[i as int], attr);
            let all = p.node@[i as int].attribute@.len();
            builder::lemma_nodes_size_grows(p, i + 1, p.node@.len());
            builder::lemma_attrs_size_grows(p, i, m, all);
            assert(builder::nodes_size(p, i + 1) == builder::nodes_size(p, i)
                + builder::attrs_size(p, i, all));
            lemma_arena_bodies(attr.g->0, place, Some(GraphId(id as u32)), label);
            lemma_bodies_joined(
                before,
                builder::arena(attr.g->0, place, Some(GraphId(id as u32)), label),
                id + 1 + builder::nodes_size(p, i),
            );
        } else {
            assert(before + Seq::<GraphView>::empty() =~= before);
        }
    }
}

/// Whether every graph is well formed and its edges are connected.
spec fn all_sound(graphs: Seq<GraphView>) -> bool {
    forall|k: int|
        0 <= k < graphs.len() ==> (#[trigger] graphs[k]).wf() && graphs[k].connected()
}

proof fn lemma_sound_joined(a: Seq<GraphView>, b: Seq<GraphView>)
    requires
        all_sound(a),
        all_sound(b),
    ensures
        all_sound(a + b),
{
    assert forall|k: int| 0 <= k < (a + b).len() implies (#[trigger] (a + b)[k]).wf() && (a
        + b)[k].connected() by {
        if k < a.len() {
            assert((a + b)[k] == a[k]);
        } else {
            assert((a + b)[k] == b[k - a.len()]);
        }
    }
}

proof fn lemma_arena_sound(p: GraphProto, id: nat, parent: Option<GraphId>, label: Seq<char>)
    requires
        builder::numberable(p),
    ensures
        all_sound(builder::arena(p, id, parent, label)),
    decreases p, 2nat, 0nat,
{
    let first = builder::graph_model(p, id, parent, label);
    law_graph_is_well_formed(p, id, parent, label);
    law_edges_are_connected(p, id, parent, label);
    lemma_nodes_arena_sound(p, id, p.node@.len());
    assert(all_sound(seq![first]));
    lemma_sound_joined(seq![first], builder::nodes_arena(p, id, p.node@.len()));
}

proof fn lemma_nodes_arena_sound(p: GraphProto, id: nat, n: nat)
    requires
        builder::nodes_numberable(p, n),
    ensures
        all_sound(builder::nodes_arena(p, id, n)),
    decreases p, 1nat, n,
{
    if n > 0 && n <= p.node@.len() {
        let m = p.node@[n - 1].attribute@.len();
        lemma_nodes_arena_sound(p, id, (n - 1) as nat);
        lemma_attrs_arena_sound(p, id, (n - 1) as nat, m);
        lemma_sound_joined(
            builder::nodes_arena(p, id, (n - 1) as nat),
            builder::attrs_arena(p, id, (n - 1) as nat, m),
        );
    }
}

proof fn lemma_attrs_arena_sound(p: GraphProto, id: nat, i: nat, m: nat)
    requires
        builder::attrs_numberable(p, i, m),
    ensures
        all_sound(builder::attrs_arena(p, id, i, m)),
    decreases p, 0nat, m,
{
    if m > 0 && i < p.node@.len() && m <= p.node@[i as int].attribute@.len() {
        let attr = p.node@[i as int].attribute@[m - 1];
        let before = builder::attrs_arena(p, id, i, (m - 1) as nat);
        lemma_attrs_arena_sound(p, id, i, (m - 1) as nat);
        if builder::holds_graph(attr) {
            let place = builder::subgraph_place(p, id, i, (m - 1) as nat);
            let label = builder::subgraph_label(p.node@[i as int], attr);
            lemma_arena_sound(attr.g->0, place, Some(GraphId(id as u32)), label);
            lemma_sound_joined(
                before,
                builder::arena(attr.g->0, place, Some(GraphId(id as u32)), label),
            );
        } else {
            assert(before + Seq::<GraphView>::empty() =~= before);
        }
    }
}

/// Every graph of an arena is well formed.
pub(crate) proof fn lemma_arena_well_formed(
    p: GraphProto,
    id: nat,
    parent: Option<GraphId>,
    label: Seq<char>,
)
    requires
        builder::numberable(p),
    ensures
        forall|k: int|
            0 <= k < builder::arena(p, id, parent, label).len() ==> (#[trigger] builder::arena(
                p,
                id,
                parent,
                label,
            )[k]).wf(),
{
    lemma_arena_sound(p, id, parent, label);
}

/// A value is found in the nearest enclosing graph that defines it: the link
/// leads to a value of the same name, which is not itself read from an outer
/// scope, and no graph in between defines one.
pub proof fn law_definition_is_nearest(
    graphs: Seq<GraphView>,
    scope: GraphId,
    name: Seq<char>,
)
    requires
        graph::parents_precede(graphs),
        scope.0 < graphs.len(),
        forall|i: int|
            0 <= i < graphs.len() ==> (#[trigger] graphs[i]).values.len() <= u32::MAX,
    ensures
        match builder::definition(graphs, Some(scope), name) {
            Some(found) => {
                &&& found.graph.0 <= scope.0
                &&& graphs[found.graph.0 as int].has_value(found.value)
                &&& graphs[found.graph.0 as int].values[found.value.0 as int].name == name
                &&& graphs[found.graph.0 as int].values[found.value.0 as int].kind
                    != ValueKind::OuterScope
                &&& encloses(graphs, found.graph, scope)
                &&& forall|between: GraphId| #[trigger]
                    encloses(graphs, between, scope) && found.graph.0 < between.0
                        ==> !graphs[between.0 as int].defines(name)
            },
            None => forall|outer: GraphId| #[trigger]
                encloses(graphs, outer, scope) ==> !graphs[outer.0 as int].defines(name),
        },
    decreases scope.0,
{
    let g = graphs[scope.0 as int];
    if g.defines(name) {
        let at = g.names().index_of(name);
        assert(g.names()[at] == name);
        assert forall|between: GraphId| #[trigger]
            encloses(graphs, between, scope) && scope.0 < between.0 implies !graphs[between.0 as int].defines(
        name) by {
            lemma_encloses_precedes(graphs, between, scope);
        }
    } else {
        match g.parent {
            Some(parent) => {
                law_definition_is_nearest(graphs, parent, name);
                assert(builder::definition(graphs, Some(scope), name) == builder::definition(
                    graphs,
                    Some(parent),
                    name,
                ));
                assert forall|x: GraphId| #[trigger] encloses(graphs, x, scope) implies x == scope
                    || encloses(graphs, x, parent) by {}
                assert forall|x: GraphId| #[trigger] encloses(graphs, x, parent) implies encloses(
                    graphs,
                    x,
                    scope,
                ) by {}
            },
            None => {
                assert(builder::definition(graphs, Some(scope), name) is None);
                assert forall|x: GraphId| #[trigger] encloses(graphs, x, scope) implies x
                    == scope by {}
            },
        }
    }
}

/// Whether the graph `outer` is `inner` itself or encloses it.
pub open spec fn encloses(graphs: Seq<GraphView>, outer: GraphId, inner: GraphId) -> bool
    decreases inner.0,
{
    outer == inner || match graphs[inner.0 as int].parent {
        Some(parent) => parent.0 < inner.0 && encloses(graphs, outer, parent),
        None => false,
    }
}

proof fn lemma_encloses_precedes(graphs: Seq<GraphView>, outer: GraphId, inner: GraphId)
    requires
        encloses(graphs, outer, inner),
    ensures
        outer.0 <= inner.0,
    decreases inner.0,
{
    if outer != inner {
        match graphs[inner.0 as int].parent {
            Some(parent) => {
                lemma_encloses_precedes(graphs, outer, parent);
            },
            None => {},
        }
    }
}

/// Linking values to enclosing graphs keeps a graph well formed and connected.
proof fn lemma_linked_sound(graphs: Seq<GraphView>, i: int)
    requires
        0 <= i < graphs.len(),
        graphs[i].wf(),
        graphs[i].connected(),
    ensures
        builder::linked(graphs)[i].wf(),
        builder::linked(graphs)[i].connected(),
        builder::linked(graphs)[i].names() == graphs[i].names(),
{
    let a = graphs[i];
    let b = builder::linked(graphs)[i];
    assert(b.names() =~= a.names());
    assert forall|k: int| 0 <= k < b.nodes.len() implies b.node_wf(#[trigger] b.nodes[k], k) by {
        assert(a.node_wf(a.nodes[k], k));
        assert forall|j: int| 0 <= j < b.nodes[k].inputs.len() implies (
        (#[trigger] b.nodes[k].inputs[j]) is Some ==> b.has_value(b.nodes[k].inputs[j]->0)) by {
            assert(a.nodes[k].inputs[j] == b.nodes[k].inputs[j]);
        }
        assert forall|j: int| 0 <= j < b.nodes[k].outputs.len() implies (
        (#[trigger] b.nodes[k].outputs[j]) is Some ==> b.has_value(b.nodes[k].outputs[j]->0)) by {
            assert(a.nodes[k].outputs[j] == b.nodes[k].outputs[j]);
        }
    }
    assert forall|k: int| 0 <= k < b.values.len() implies b.value_wf(#[trigger] b.values[k], k) by {
        assert(a.value_wf(a.values[k], k));
        assert(b.values[k].consumers == a.values[k].consumers);
        assert forall|j: int| 0 <= j < b.values[k].consumers.len() implies b.has_node(
            #[trigger] b.values[k].consumers[j],
        ) by {
            assert(a.has_node(a.values[k].consumers[j]));
        }
    }
    assert forall|k: int| 0 <= k < b.inputs.len() implies b.has_value(#[trigger] b.inputs[k]) by {
        assert(a.has_value(a.inputs[k]));
    }
    assert forall|k: int| 0 <= k < b.outputs.len() implies b.has_value(#[trigger] b.outputs[k]) by {
        assert(a.has_value(a.outputs[k]));
    }
    assert forall|v: int, n: int| 0 <= v < b.values.len() && 0 <= n < b.nodes.len() implies (
    #[trigger] b.reads(n, v) <==> b.values[v].consumers.contains(NodeId(n as u32))) by {
        assert(a.reads(n, v) == b.reads(n, v));
    }
    assert forall|v: int| 0 <= v < b.values.len() implies (
    #[trigger] b.values[v]).consumers.no_duplicates() by {
        assert(a.values[v].consumers.no_duplicates());
    }
    assert forall|v: int| #![trigger b.values[v].producer] 0 <= v < b.values.len() implies match b.values[v].producer {
        Some(w) => b.writes(w.0 as int, v) && forall|n: int|
            w.0 < n < b.nodes.len() ==> !b.writes(n, v),
        None => forall|n: int| 0 <= n < b.nodes.len() ==> !b.writes(n, v),
    } by {
        assert(a.values[v].producer == b.values[v].producer);
        assert forall|n: int| b.writes(n, v) == a.writes(n, v) by {}
    }
}

/// A model that is built is well formed: every ID in it stands for what it
/// names, subgraphs stand behind the graphs that enclose them, links to outer
/// scopes lead to values of the same name that are defined there, and in every
/// graph each value knows the nodes that read and write it.
pub proof fn law_model_is_well_formed(proto: crate::proto::ModelProto)
    requires
        builder::buildable(proto),
    ensures
        builder::model_of(proto).wf(),
        forall|i: int|
            0 <= i < builder::model_of(proto).graphs.len() ==> (#[trigger] builder::model_of(
                proto,
            ).graphs[i]).connected(),
{
    let graphs = builder::model_arena(proto);
    let model = builder::model_of(proto);
    match proto.graph {
        Some(p) => {
            builder::lemma_arena_len(p, 0, None, "main"@);
            builder::lemma_arena_parents(p, 0, None, "main"@);
            lemma_arena_bodies(p, 0, None, "main"@);
            lemma_arena_sound(p, 0, None, "main"@);
            lemma_arena_unlinked(p, 0, None, "main"@);
        },
        None => {
            assert(builder::empty_graph().wf());
            assert(builder::empty_graph().connected());
        },
    }
    assert(graph::parents_precede(graphs));
    assert(graph::bodies_follow(graphs, 0));
    assert(all_sound(graphs));
    assert forall|i: int| 0 <= i < model.graphs.len() implies (#[trigger] model.graphs[i]).wf()
        && model.graphs[i].id == GraphId(i as u32) && model.graphs[i].connected() by {
        lemma_linked_sound(graphs, i);
        assert(model.graphs[i].id == graphs[i].id);
    }
    assert forall|k: int, n: int, j: int, sub: GraphId|
        0 <= k < model.graphs.len() && #[trigger] graph::has_body(
            model.graphs[k],
            n,
            j,
            sub,
        ) implies {
        &&& 0 <= sub.0 < model.graphs.len()
        &&& model.graphs[sub.0 - 0].parent == Some(GraphId((0 + k) as u32))
    } by {
        assert(graph::has_body(graphs[k], n, j, sub));
    }
    assert forall|i: int, v: int|
        #![trigger model.graphs[i].values[v]]
        0 <= i < model.graphs.len() && 0 <= v < model.graphs[i].values.len() implies graph::link_wf(
        model.graphs,
        i,
        model.graphs[i].values[v],
    ) by {
        let value = model.graphs[i].values[v];
        assert(value == builder::linked_value(graphs, graphs[i], graphs[i].values[v]));
        assert(graphs[i].values[v].outer is None);
        if value.outer is Some {
            let parent = graphs[i].parent->0;
            assert forall|k: int| 0 <= k < graphs.len() implies (
            #[trigger] graphs[k]).values.len() <= u32::MAX by {
                assert(graphs[k].wf());
            }
            law_definition_is_nearest(graphs, parent, value.name);
            let to = value.outer->0;
            let there = graphs[to.graph.0 as int].values[to.value.0 as int];
            assert(model.graphs[to.graph.0 as int].values[to.value.0 as int].name == there.name);
            assert(model.graphs[to.graph.0 as int].values[to.value.0 as int].kind == there.kind);
        }
    }
}

/// Whether no value is linked to an enclosing graph yet.
spec fn unlinked(graphs: Seq<GraphView>) -> bool {
    forall|k: int, v: int|
        #![trigger graphs[k].values[v]]
        0 <= k < graphs.len() && 0 <= v < graphs[k].values.len() ==> graphs[k].values[v].outer
            is None
}

proof fn lemma_unlinked_joined(a: Seq<GraphView>, b: Seq<GraphView>)
    requires
        unlinked(a),
        unlinked(b),
    ensures
        unlinked(a + b),
{
    assert forall|k: int, v: int|
        #![trigger (a + b)[k].values[v]]
        0 <= k < (a + b).len() && 0 <= v < (a + b)[k].values.len() implies (a
        + b)[k].values[v].outer is None by {
        if k < a.len() {
            assert((a + b)[k] == a[k]);
            assert(a[k].values[v].outer is None);
        } else {
            assert((a + b)[k] == b[k - a.len()]);
            assert(b[k - a.len()].values[v].outer is None);
        }
    }
}

proof fn lemma_learned_unlinked(ms: Seq<Mention>, i: int, name: Seq<char>)
    ensures
        mentions::learned(ms, i, name).outer is None,
    decreases ms.len(),
{
    if ms.len() > 0 {
        lemma_learned_unlinked(ms.drop_last(), i, name);
    }
}

proof fn lemma_arena_unlinked(p: GraphProto, id: nat, parent: Option<GraphId>, label: Seq<char>)
    ensures
        unlinked(builder::arena(p, id, parent, label)),
    decreases p, 2nat, 0nat,
{
    let first = seq![builder::graph_model(p, id, parent, label)];
    assert forall|k: int, v: int|
        #![trigger first[k].values[v]]
        0 <= k < first.len() && 0 <= v < first[k].values.len() implies first[k].values[v].outer
        is None by {
        let ms = mentions::mentions(p);
        lemma_learned_unlinked(ms, v, mentions::names_of(ms)[v]);
    }
    lemma_nodes_arena_unlinked(p, id, p.node@.len());
    lemma_unlinked_joined(first, builder::nodes_arena(p, id, p.node@.len()));
}

proof fn lemma_nodes_arena_unlinked(p: GraphProto, id: nat, n: nat)
    ensures
        unlinked(builder::nodes_arena(p, id, n)),
    decreases p, 1nat, n,
{
    if n > 0 && n <= p.node@.len() {
        let m = p.node@[n - 1].attribute@.len();
        lemma_nodes_arena_unlinked(p, id, (n - 1) as nat);
        lemma_attrs_arena_unlinked(p, id, (n - 1) as nat, m);
        lemma_unlinked_joined(
            builder::nodes_arena(p, id, (n - 1) as nat),
            builder::attrs_arena(p, id, (n - 1) as nat, m),
        );
    }
}

proof fn lemma_attrs_arena_unlinked(p: GraphProto, id: nat, i: nat, m: nat)
    ensures
        unlinked(builder::attrs_arena(p, id, i, m)),
    decreases p, 0nat, m,
{
    if m > 0 && i < p.node@.len() && m <= p.node@[i as int].attribute@.len() {
        let attr = p.node@[i as int].attribute@[m - 1];
        let before = builder::attrs_arena(p, id, i, (m - 1) as nat);
        lemma_attrs_arena_unlinked(p, id, i, (m - 1) as nat);
        if builder::holds_graph(attr) {
            let place = builder::subgraph_place(p, id, i, (m - 1) as nat);
            let label = builder::subgraph_label(p.node@[i as int], attr);
            lemma_arena_unlinked(attr.g->0, place, Some(GraphId(id as u32)), label);
            lemma_unlinked_joined(
                before,
                builder::arena(attr.g->0, place, Some(GraphId(id as u32)), label),
            );
        } else {
            assert(before + Seq::<GraphView>::empty() =~= before);
        }
    }
}

/// Whether the mentions start with those of `ms`.
pub(crate) open spec fn begins(more: Seq<Mention>, ms: Seq<Mention>) -> bool {
    &&& ms.len() <= more.len()
    &&& forall|k: int| 0 <= k < ms.len() ==> #[trigger] more[k] == ms[k]
}

pub(crate) proof fn lemma_declare_all_begins(ms: Seq<Mention>, infos: Seq<ValueInfoProto>, n: nat)
    ensures
        begins(mentions::declare_all(ms, infos, n), ms),
    decreases n,
{
    if n > 0 {
        lemma_declare_all_begins(ms, infos, (n - 1) as nat);
    }
}

pub(crate) proof fn lemma_place_all_begins(ms: Seq<Mention>, names: Seq<String>, role: Role, n: nat)
    ensures
        begins(mentions::place_all(ms, names, role, n), ms),
    decreases n,
{
    if n > 0 {
        lemma_place_all_begins(ms, names, role, (n - 1) as nat);
    }
}

pub(crate) proof fn lemma_use_all_begins(ms: Seq<Mention>, nodes: Seq<NodeProto>, n: nat)
    ensures
        begins(mentions::use_all(ms, nodes, n), ms),
    decreases n,
{
    if n > 0 {
        lemma_use_all_begins(ms, nodes, (n - 1) as nat);
        let before = mentions::use_all(ms, nodes, (n - 1) as nat);
        let node = nodes[n - 1];
        let id = NodeId((n - 1) as u32);
        let read = mentions::place_all(before, node.input@, Role::Read(id), node.input@.len());
        lemma_place_all_begins(before, node.input@, Role::Read(id), node.input@.len());
        lemma_place_all_begins(read, node.output@, Role::Written(id), node.output@.len());
    }
}

/// Where among the mentions an initializer is.
proof fn lemma_stored_is_mentioned(ms: Seq<Mention>, tensors: Seq<TensorProto>, n: nat, j: int) -> (k:
    int)
    requires
        0 <= j < n,
        tensors[j].name is Some,
    ensures
        0 <= k < mentions::store_all(ms, tensors, n).len(),
        mentions::store_all(ms, tensors, n)[k] == mentions::storage(tensors[j])->0,
    decreases n,
{
    if j == n - 1 {
        mentions::store_all(ms, tensors, n).len() - 1
    } else {
        lemma_stored_is_mentioned(ms, tensors, (n - 1) as nat, j)
    }
}

proof fn lemma_stored_is_kept(ms: Seq<Mention>, k: int, i: int)
    requires
        0 <= k < ms.len(),
        ms[k].role is Stored,
    ensures
        mentions::names_of(ms).contains(ms[k].name),
        mentions::learned(ms, i, ms[k].name).tensor is Some,
    decreases ms.len(),
{
    let name = ms[k].name;
    let before = ms.drop_last();
    mentions::lemma_learned_name(before, i, name);
    let names = mentions::names_of(before);
    if k < ms.len() - 1 {
        lemma_stored_is_kept(before, k, i);
        if !names.contains(ms.last().name) {
            let at = choose|at: int| 0 <= at < names.len() && names[at] == name;
            assert(names.push(ms.last().name)[at] == name);
        }
    } else if !names.contains(name) {
        assert(names.push(name)[names.len() as int] == name);
    }
}

/// A value that is stored as an initializer is one of the graph's values and is
/// a constant, even where it is declared as an input as well.
pub proof fn law_initializers_are_constants(
    p: GraphProto,
    id: nat,
    parent: Option<GraphId>,
    label: Seq<char>,
    j: int,
)
    requires
        0 <= j < p.initializer@.len(),
        p.initializer@[j].name is Some,
    ensures
        ({
            let g = builder::graph_model(p, id, parent, label);
            let name = p.initializer@[j].name->0@;
            &&& g.names().contains(name)
            &&& g.values[g.names().index_of(name)].kind == ValueKind::Initializer
        }),
{
    let g = builder::graph_model(p, id, parent, label);
    let name = p.initializer@[j].name->0@;
    let ms = mentions::mentions(p);
    let names = mentions::names_of(ms);
    let a = mentions::declare_all(Seq::<Mention>::empty(), p.input@, p.input@.len());
    let b = mentions::declare_all(a, p.output@, p.output@.len());
    let c = mentions::store_all(b, p.initializer@, p.initializer@.len());
    let k = lemma_stored_is_mentioned(b, p.initializer@, p.initializer@.len(), j);
    lemma_declare_all_begins(c, p.value_info@, p.value_info@.len());
    lemma_use_all_begins(mentions::prologue(p), p.node@, p.node@.len());
    assert(mentions::prologue(p)[k] == c[k]);
    assert(ms[k] == c[k]);
    assert forall|i: int| 0 <= i < names.len() implies (#[trigger] g.values[i]).name == names[i] by {
        mentions::lemma_learned_name(ms, i, names[i]);
    }
    assert(g.names() =~= names);
    lemma_stored_is_kept(ms, k, 0);
    let at = names.index_of(name);
    lemma_stored_is_kept(ms, k, at);
}

} // verus!
