//! Where nested graphs and the facts of a model end up.

use crate::builder;
use crate::graph::GraphView;
use crate::model::{self, GraphId, NodeId, ValueId, ValueKind, ValueView};
use crate::proto::{GraphProto, ModelProto, StringStringEntryProto};
use crate::tally;
use crate::wiring;
use vstd::prelude::*;

verus! {

proof fn lemma_attr_body(p: GraphProto, id: nat, i: nat, m: nat, j: int, k: int)
    requires
        i < p.node@.len(),
        0 <= j < m <= p.node@[i as int].attribute@.len(),
        builder::holds_graph(p.node@[i as int].attribute@[j]),
        0 <= k < builder::graph_size(p.node@[i as int].attribute@[j].g->0),
    ensures
        ({
            let node = p.node@[i as int];
            let attr = node.attribute@[j];
            let part = builder::attrs_arena(p, id, i, m);
            let before = builder::attrs_size(p, i, j as nat) as int;
            &&& before + k < part.len()
            &&& part[before + k] == builder::arena(
                attr.g->0,
                builder::subgraph_place(p, id, i, j as nat),
                Some(GraphId(id as u32)),
                builder::subgraph_label(node, attr),
            )[k]
        }),
    decreases m,
{
    let node = p.node@[i as int];
    let attr = node.attribute@[j];
    builder::lemma_attrs_arena_len(p, id, i, (m - 1) as nat);
    builder::lemma_attrs_arena_len(p, id, i, m);
    if j < m - 1 {
        lemma_attr_body(p, id, i, (m - 1) as nat, j, k);
    } else {
        builder::lemma_arena_len(
            attr.g->0,
            builder::subgraph_place(p, id, i, j as nat),
            Some(GraphId(id as u32)),
            builder::subgraph_label(node, attr),
        );
    }
}

proof fn lemma_node_body(p: GraphProto, id: nat, n: nat, i: int, j: int, k: int)
    requires
        0 <= i < n <= p.node@.len(),
        0 <= j < p.node@[i].attribute@.len(),
        builder::holds_graph(p.node@[i].attribute@[j]),
        0 <= k < builder::graph_size(p.node@[i].attribute@[j].g->0),
    ensures
        ({
            let node = p.node@[i];
            let attr = node.attribute@[j];
            let part = builder::nodes_arena(p, id, n);
            let before = builder::nodes_size(p, i as nat) + builder::attrs_size(
                p,
                i as nat,
                j as nat,
            );
            &&& before + k < part.len()
            &&& part[before + k] == builder::arena(
                attr.g->0,
                builder::subgraph_place(p, id, i as nat, j as nat),
                Some(GraphId(id as u32)),
                builder::subgraph_label(node, attr),
            )[k]
        }),
    decreases n,
{
    builder::lemma_nodes_arena_len(p, id, (n - 1) as nat);
    builder::lemma_nodes_arena_len(p, id, n);
    if i < n - 1 {
        lemma_node_body(p, id, (n - 1) as nat, i, j, k);
    } else {
        lemma_attr_body(p, id, i as nat, p.node@[i].attribute@.len(), j, k);
    }
}

/// The body that an attribute of a node holds stands in the arena where the
/// attribute says, with everything that is nested in it right behind. It knows
/// the graph around it, and its label says which operator runs it as what.
pub proof fn law_bodies_stand_where_attributes_say(
    p: GraphProto,
    id: nat,
    parent: Option<GraphId>,
    label: Seq<char>,
    i: int,
    j: int,
    k: int,
)
    requires
        id + builder::graph_size(p) <= u32::MAX,
        0 <= i < p.node@.len(),
        0 <= j < p.node@[i].attribute@.len(),
        builder::holds_graph(p.node@[i].attribute@[j]),
        0 <= k < builder::graph_size(p.node@[i].attribute@[j].g->0),
    ensures
        ({
            let all = builder::arena(p, id, parent, label);
            let attr = p.node@[i].attribute@[j];
            let op_type = if p.node@[i].op_type is Some {
                p.node@[i].op_type->0@
            } else {
                "Unknown"@
            };
            let own = if attr.name is Some {
                attr.name->0@
            } else {
                Seq::empty()
            };
            let value = all[0].nodes[i].attrs[j].value;
            &&& value is Graph
            &&& id < (value->Graph_0).0
            &&& (value->Graph_0).0 - id + k < all.len()
            &&& all[(value->Graph_0).0 - id + k] == builder::arena(
                attr.g->0,
                (value->Graph_0).0 as nat,
                Some(GraphId(id as u32)),
                op_type + "."@ + own,
            )[k]
        }),
{
    let all = builder::arena(p, id, parent, label);
    let attr = p.node@[i].attribute@[j];
    builder::lemma_arena_len(p, id, parent, label);
    lemma_node_body(p, id, p.node@.len(), i, j, k);
    let place = builder::subgraph_place(p, id, i as nat, j as nat);
    let rest = builder::nodes_arena(p, id, p.node@.len());
    builder::lemma_nodes_arena_len(p, id, p.node@.len());
    assert(all[0] == builder::graph_model(p, id, parent, label));
    assert(all[place - id + k] == rest[place - id + k - 1]);
    assert(place <= u32::MAX);
    let own = if attr.name is Some {
        attr.name->0@
    } else {
        Seq::<char>::empty()
    };
    assert(own =~= model::text_or_empty(attr.name));
}

/// An arena starts with its outermost graph, and holds as many graphs as there
/// are, counting itself and all those nested in it.
pub proof fn law_arenas_start_outermost(
    p: GraphProto,
    id: nat,
    parent: Option<GraphId>,
    label: Seq<char>,
)
    ensures
        builder::arena(p, id, parent, label).len() == builder::graph_size(p),
        builder::arena(p, id, parent, label)[0] == builder::graph_model(p, id, parent, label),
        builder::graph_size(p) == 1 + tally::sum(
            p.node@.len(),
            |i: int|
                tally::sum(
                    p.node@[i].attribute@.len(),
                    |j: int|
                        if builder::holds_graph(p.node@[i].attribute@[j]) {
                            builder::graph_size(p.node@[i].attribute@[j].g->0) as int
                        } else {
                            0
                        },
                ),
        ),
{
    builder::lemma_arena_len(p, id, parent, label);
    lemma_nodes_size_sum(p, p.node@.len());
}

proof fn lemma_attrs_size_sum(p: GraphProto, i: nat, m: nat)
    requires
        i < p.node@.len(),
        m <= p.node@[i as int].attribute@.len(),
    ensures
        builder::attrs_size(p, i, m) == tally::sum(
            m,
            |j: int|
                if builder::holds_graph(p.node@[i as int].attribute@[j]) {
                    builder::graph_size(p.node@[i as int].attribute@[j].g->0) as int
                } else {
                    0
                },
        ),
    decreases m,
{
    if m > 0 {
        lemma_attrs_size_sum(p, i, (m - 1) as nat);
    }
}

proof fn lemma_nodes_size_sum(p: GraphProto, n: nat)
    requires
        n <= p.node@.len(),
    ensures
        builder::nodes_size(p, n) == tally::sum(
            n,
            |i: int|
                tally::sum(
                    p.node@[i].attribute@.len(),
                    |j: int|
                        if builder::holds_graph(p.node@[i].attribute@[j]) {
                            builder::graph_size(p.node@[i].attribute@[j].g->0) as int
                        } else {
                            0
                        },
                ),
        ),
    decreases n,
{
    if n > 0 {
        lemma_nodes_size_sum(p, (n - 1) as nat);
        let i = (n - 1) as nat;
        lemma_attrs_size_sum(p, i, p.node@[i as int].attribute@.len());
        tally::lemma_sum_same(
            p.node@[n - 1].attribute@.len(),
            |j: int|
                if builder::holds_graph(p.node@[i as int].attribute@[j]) {
                    builder::graph_size(p.node@[i as int].attribute@[j].g->0) as int
                } else {
                    0
                },
            |j: int|
                if builder::holds_graph(p.node@[n - 1].attribute@[j]) {
                    builder::graph_size(p.node@[n - 1].attribute@[j].g->0) as int
                } else {
                    0
                },
        );
    }
}

/// Linking graphs to those around them changes nothing but the links, and only
/// those of values that are read from around.
pub proof fn law_linking_changes_only_links(graphs: Seq<GraphView>, i: int, v: int)
    requires
        0 <= i < graphs.len(),
        0 <= v < graphs[i].values.len(),
    ensures
        ({
            let after = builder::linked(graphs)[i];
            let value = graphs[i].values[v];
            &&& builder::linked(graphs).len() == graphs.len()
            &&& after.id == graphs[i].id
            &&& after.parent == graphs[i].parent
            &&& after.label == graphs[i].label
            &&& after.nodes == graphs[i].nodes
            &&& after.inputs == graphs[i].inputs
            &&& after.outputs == graphs[i].outputs
            &&& after.values.len() == graphs[i].values.len()
            &&& after.values[v] == (ValueView { outer: after.values[v].outer, ..value })
            &&& value.kind != ValueKind::OuterScope ==> after.values[v].outer == value.outer
            &&& value.kind == ValueKind::OuterScope ==> after.values[v].outer
                == builder::definition(graphs, graphs[i].parent, value.name)
        }),
{
}

/// How many of the first `n` entries have a key.
pub open spec fn keys_before(entries: Seq<StringStringEntryProto>, n: nat) -> int {
    tally::sum(n, |k: int| tally::one(entries[k].key is Some))
}

proof fn lemma_metadata(entries: Seq<StringStringEntryProto>, k: int)
    ensures
        builder::metadata_model(entries).len() == keys_before(entries, entries.len()),
        0 <= k < entries.len() && entries[k].key is Some ==> {
            let at = keys_before(entries, k as nat);
            &&& 0 <= at < keys_before(entries, entries.len())
            &&& builder::metadata_model(entries)[at] == (
                entries[k].key->0@,
                model::text_or_empty(entries[k].value),
            )
        },
    decreases entries.len(),
{
    if entries.len() > 0 {
        let before = entries.drop_last();
        lemma_metadata(before, k);
        tally::lemma_sum_same(
            before.len(),
            |j: int| tally::one(before[j].key is Some),
            |j: int| tally::one(entries[j].key is Some),
        );
        if 0 <= k < before.len() {
            tally::lemma_sum_same(
                k as nat,
                |j: int| tally::one(before[j].key is Some),
                |j: int| tally::one(entries[j].key is Some),
            );
        }
        if k == before.len() {
            lemma_metadata(before, 0);
        }
    }
}

/// A model keeps its version, its producer, every operator set and every entry
/// of its metadata that has a key, in order. Its first graph is the main one.
pub proof fn law_models_keep_their_facts(proto: ModelProto, k: int)
    ensures
        ({
            let m = builder::model_of(proto);
            &&& m.ir_version == proto.ir_version
            &&& m.producer_name is Some <==> proto.producer_name is Some
            &&& m.producer_name is Some ==> m.producer_name->0 == proto.producer_name->0@
            &&& m.producer_version is Some <==> proto.producer_version is Some
            &&& m.producer_version is Some ==> m.producer_version->0 == proto.producer_version->0@
            &&& m.opset_imports.len() == proto.opset_import@.len()
            &&& 0 <= k < proto.opset_import@.len() ==> {
                let opset = proto.opset_import@[k];
                &&& m.opset_imports[k].version == opset.version
                &&& opset.domain is Some ==> m.opset_imports[k].domain == opset.domain->0@
                &&& opset.domain is None ==> m.opset_imports[k].domain.len() == 0
            }
            &&& m.metadata.len() == keys_before(proto.metadata_props@, proto.metadata_props@.len())
            &&& 0 <= k < proto.metadata_props@.len() && proto.metadata_props@[k].key is Some ==> {
                let entry = proto.metadata_props@[k];
                let kept = m.metadata[keys_before(proto.metadata_props@, k as nat)];
                &&& kept.0 == entry.key->0@
                &&& entry.value is Some ==> kept.1 == entry.value->0@
                &&& entry.value is None ==> kept.1.len() == 0
            }
            &&& m.root.0 == 0
            &&& m.graphs.len() > 0
            &&& m.graphs[0].parent is None
            &&& m.graphs[0].label == "main"@
            &&& proto.graph is Some ==> m.graphs[0].nodes.len() == proto.graph->0.node@.len()
            &&& proto.graph is None ==> m.graphs.len() == 1 && m.graphs[0].nodes.len() == 0
                && m.graphs[0].values.len() == 0
        }),
{
    lemma_metadata(proto.metadata_props@, k);
    if proto.graph is Some {
        builder::lemma_arena_len(proto.graph->0, 0, None, "main"@);
        assert(builder::model_arena(proto)[0] == builder::graph_model(
            proto.graph->0,
            0,
            None,
            "main"@,
        ));
    }
}

/// A graph defines what one of its values is named, unless that is read from
/// around it too.
pub proof fn law_graphs_define_their_values(g: GraphView, name: Seq<char>)
    requires
        g.names().no_duplicates(),
    ensures
        g.defines(name) <==> exists|v: int|
            0 <= v < g.values.len() && (#[trigger] g.values[v]).name == name && g.values[v].kind
                != ValueKind::OuterScope,
{
    let names = g.names();
    if g.defines(name) {
        let v = names.index_of(name);
        assert(names[v] == name);
        assert(g.values[v].name == name);
    }
    if exists|v: int|
        0 <= v < g.values.len() && (#[trigger] g.values[v]).name == name && g.values[v].kind
            != ValueKind::OuterScope {
        let v = choose|v: int|
            0 <= v < g.values.len() && (#[trigger] g.values[v]).name == name && g.values[v].kind
                != ValueKind::OuterScope;
        assert(names[v] == name);
        assert(names.contains(name));
        assert(names[names.index_of(name)] == name);
        assert(names.index_of(name) == v);
    }
}

/// A graph encloses itself, and any other graph exactly where it encloses the
/// one that the other is nested in.
pub proof fn law_enclosing(graphs: Seq<GraphView>, outer: GraphId, inner: GraphId)
    requires
        inner.0 < graphs.len(),
        graphs[inner.0 as int].parent is Some ==> (graphs[inner.0 as int].parent->0).0 < inner.0,
    ensures
        wiring::encloses(graphs, inner, inner),
        graphs[inner.0 as int].parent is Some && outer != inner ==> (wiring::encloses(
            graphs,
            outer,
            inner,
        ) <==> wiring::encloses(graphs, outer, graphs[inner.0 as int].parent->0)),
        graphs[inner.0 as int].parent is None ==> (wiring::encloses(graphs, outer, inner) <==> outer
            == inner),
{
}

/// A value knows the nodes that read it and the last of those that write it.
pub proof fn law_connections(g: GraphView, v: int, n: int)
    requires
        g.wf(),
        g.connected(),
        0 <= v < g.values.len(),
        0 <= n < g.nodes.len(),
    ensures
        g.values[v].consumers.contains(NodeId(n as u32)) <==> exists|j: int|
            0 <= j < g.nodes[n].inputs.len() && #[trigger] g.nodes[n].inputs[j] == Some(
                ValueId(v as u32),
            ),
        g.values[v].producer == Some(NodeId(n as u32)) <==> {
            &&& g.nodes[n].outputs.contains(Some(ValueId(v as u32)))
            &&& forall|m: int|
                n < m < g.nodes.len() ==> !(#[trigger] g.nodes[m]).outputs.contains(
                    Some(ValueId(v as u32)),
                )
        },
{
    let inputs = g.nodes[n].inputs;
    let id = Some(ValueId(v as u32));
    assert(g.reads(n, v) <==> inputs.contains(id));
    if inputs.contains(id) {
        assert(inputs[inputs.index_of(id)] == id);
    }
    assert(g.value_wf(g.values[v], v));
    match g.values[v].producer {
        Some(p) => {
            assert(g.writes(p.0 as int, v));
            assert forall|m: int| p.0 < m < g.nodes.len() implies !(#[trigger] g.nodes[m]).outputs.contains(
                id,
            ) by {
                assert(!g.writes(m, v));
            }
            if p.0 != n && g.nodes[n].outputs.contains(id) {
                assert(g.writes(n, v));
                assert(g.nodes[p.0 as int].outputs.contains(id));
            }
            if p.0 == n {
                assert(p == NodeId(n as u32));
            }
        },
        None => {
            assert(!g.writes(n, v));
        },
    }
}

} // verus!
