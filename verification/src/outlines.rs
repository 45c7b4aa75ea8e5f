//! What the overviews list, and how tables, trails and ranks come out.

use crate::canvas;
use crate::chars;
use crate::collect::ScopeView;
use crate::details;
use crate::graph::{GraphView, ModelView};
use crate::hierarchy::{self, GroupId, HierarchyView};
use crate::layout::{self, Layout};
use crate::model::{self, GraphId, NodeId, NodeView, TensorView};
use crate::overview::{self, BlockOverview, GraphOverview, Step};
use crate::pictures;
use crate::queries;
use crate::ranks::{self, Link};
use crate::tally;
use crate::text;
use crate::values::{self, ReadErrorView, Reading};
use vstd::prelude::*;

verus! {

/// The operators of a graph are listed with the numbers of nodes that run them:
/// each once, every one of them, the most used first, and by name where they
/// are used equally often.
pub proof fn law_operators_are_listed(
    nodes: Seq<NodeView>,
    counts: Seq<(Seq<char>, nat)>,
    i: int,
    j: int,
    n: int,
)
    requires
        queries::lists_op_types(nodes, counts),
        queries::in_count_order(counts),
        0 <= i < j < counts.len(),
        0 <= n < nodes.len(),
    ensures
        counts[i].1 == tally::sum(
            nodes.len(),
            |m: int| tally::one(nodes[m].op_type == counts[i].0),
        ),
        counts[i].1 >= counts[j].1 > 0,
        counts[i].0 != counts[j].0,
        counts[i].1 == counts[j].1 ==> queries::text_before(counts[i].0, counts[j].0),
        exists|k: int| 0 <= k < counts.len() && (#[trigger] counts[k]).0 == nodes[n].op_type,
{
    crate::measures::law_operators_are_counted(nodes, counts[i].0);
    pictures::law_texts_are_ordered_by_characters(counts[i].0, counts[i].0, 0);
    assert(counts[i].0.take(counts[i].0.len() as int) =~= counts[i].0);
    assert(queries::count_before(counts[i], counts[j]));
    assert(counts[i].1 == queries::op_count(nodes, counts[i].0));
    assert(counts[j].1 == queries::op_count(nodes, counts[j].0));
    assert(queries::counts_op_type(counts, nodes[n].op_type));
}

/// The overview of a graph lists its inputs and its outputs in order.
pub proof fn law_overviews_of_graphs(o: GraphOverview, model: ModelView, g: GraphView, i: int)
    requires
        o.shows(model, g),
    ensures
        o.inputs@.len() == g.inputs.len(),
        o.outputs@.len() == g.outputs.len(),
        0 <= i < g.inputs.len() ==> {
            let value = g.values[g.inputs[i].0 as int];
            &&& o.inputs@[i].value == g.inputs[i]
            &&& o.inputs@[i].summary@ == value.type_text()
            &&& value.name.len() <= 32 ==> o.inputs@[i].name@ == value.name
        },
        0 <= i < g.outputs.len() ==> {
            let value = g.values[g.outputs[i].0 as int];
            &&& o.outputs@[i].value == g.outputs[i]
            &&& o.outputs@[i].summary@ == value.type_text()
            &&& value.name.len() <= 32 ==> o.outputs@[i].name@ == value.name
        },
{
    if 0 <= i < g.inputs.len() {
        assert(overview::value_link_shows(o.inputs@[i], g, g.inputs[i]));
    }
    if 0 <= i < g.outputs.len() {
        assert(overview::value_link_shows(o.outputs@[i], g, g.outputs[i]));
    }
}

/// The overview of a graph leads to each graph that an attribute of one of its
/// nodes holds, and says how many nodes that has.
pub proof fn law_overviews_lead_to_bodies(
    o: GraphOverview,
    model: ModelView,
    g: GraphView,
    i: int,
    j: int,
)
    requires
        g.wf(),
        o.shows(model, g),
        0 <= i < g.nodes.len(),
        0 <= j < g.nodes[i].attrs.len(),
        g.nodes[i].attrs[j].value is Graph,
    ensures
        o.subgraphs@.len() == pictures::all_bodies_before(g.nodes, g.nodes.len()),
        ({
            let at = pictures::all_bodies_before(g.nodes, i as nat) + pictures::bodies_before(
                g.nodes[i],
                j as nat,
            );
            let attr = g.nodes[i].attrs[j];
            let body = attr.value->Graph_0;
            &&& 0 <= at < o.subgraphs@.len()
            &&& o.subgraphs@[at].graph == body
            &&& o.subgraphs@[at].label@ == g.nodes[i].name + "."@ + attr.name + " ("@
                + text::decimal(model.graphs[body.0 as int].nodes.len()) + " nodes)"@
        }),
{
    pictures::law_bodies_are_listed(g.nodes, g.nodes.len(), i, j);
    let at = pictures::all_bodies_before(g.nodes, i as nat) + pictures::bodies_before(
        g.nodes[i],
        j as nat,
    );
    let bodies = queries::nodes_subgraphs(g.nodes, g.nodes.len());
    assert(g.node_wf(g.nodes[i], i));
    assert(overview::subgraph_link_shows(o.subgraphs@[at], model, g, bodies[at]));
}

/// The overview of a block names it, leads to each block directly in it, and
/// says how many operators are in each.
pub proof fn law_overviews_of_blocks(o: BlockOverview, h: HierarchyView, id: GroupId, i: int)
    requires
        o.shows(h, id),
    ensures
        ({
            let group = h.groups[id.0 as int];
            let facts = model::pair_views(o.facts@);
            &&& o.name@ == group.name
            &&& o.path@ == group.path
            &&& facts[0] == ("Operators"@, text::compact_count(group.total_nodes))
            &&& facts.len() == 1 + tally::one(group.children.len() > 0)
            &&& group.children.len() > 0 ==> facts[1] == (
                "Blocks"@,
                text::decimal(group.children.len()),
            )
            &&& o.blocks@.len() == group.children.len()
            &&& 0 <= i < group.children.len() ==> {
                let child = h.groups[group.children[i].0 as int];
                &&& o.blocks@[i].group == group.children[i]
                &&& o.blocks@[i].label@ == child.name + " ("@ + text::decimal(child.total_nodes)
                    + " operators)"@
            }
        }),
{
    let group = h.groups[id.0 as int];
    if 0 <= i < group.children.len() {
        assert(overview::block_link_shows(o.blocks@[i], h, group.children[i]));
    }
}

/// The trail goes through every enclosing graph and then through every enclosing
/// block, one step for each, and is left out where there would be one step only.
pub proof fn law_trails_leave_nothing_out(
    model: ModelView,
    graph: GraphId,
    scope: Option<ScopeView>,
    k: int,
)
    requires
        model.wf(),
        model.has_graph(graph),
        scope is Some ==> scope->0.hierarchy.wf() && scope->0.hierarchy.has_group(scope->0.group),
    ensures
        ({
            let path = queries::path_of(model.graphs, graph);
            let chain = match scope {
                Some(scope) => hierarchy::chain_of(scope.hierarchy.groups, scope.group).skip(1),
                None => Seq::empty(),
            };
            let trail = overview::trail(model, graph, scope);
            &&& trail.len() == if path.len() + chain.len() == 1 {
                0
            } else {
                path.len() + chain.len()
            }
            &&& trail.len() > 0 && 0 <= k < path.len() ==> trail[k] == (
                model.graphs[path[k].0 as int].label,
                Step::Graph(path[k]),
            )
            &&& trail.len() > 0 && 0 <= k < chain.len() ==> trail[path.len() + k] == (
                (scope->0).hierarchy.groups[chain[k].0 as int].name,
                Step::Group(chain[k]),
            )
        }),
{
    queries::law_path_descends(model, graph);
    if let Some(scope) = scope {
        hierarchy::law_chain_descends(scope.hierarchy, scope.group);
    }
}

/// Whether input `j` of a node is there, no constant, and produced by a node of
/// `some` or by none.
pub open spec fn draws_on(g: GraphView, some: Set<int>, n: int, j: int) -> bool {
    let id = g.nodes[n].inputs[j];
    let value = g.values[(id->0).0 as int];
    &&& id is Some
    &&& !value.kind.is_constant()
    &&& value.producer is Some ==> some.contains((value.producer->0).0 as int)
}

proof fn lemma_not_fed(g: GraphView, some: Set<int>, depth: nat, n: int)
    requires
        some.contains(n),
        forall|m: int| #[trigger]
            some.contains(m) ==> exists|j: int|
                0 <= j < g.nodes[m].inputs.len() && #[trigger] draws_on(g, some, m, j),
    ensures
        !g.fed(depth, n),
    decreases depth,
{
    let j = choose|j: int| 0 <= j < g.nodes[n].inputs.len() && #[trigger] draws_on(g, some, n, j);
    let value = g.values[(g.nodes[n].inputs[j]->0).0 as int];
    if depth > 0 && value.producer is Some {
        lemma_not_fed(g, some, (depth - 1) as nat, (value.producer->0).0 as int);
    }
}

/// A node works on constants alone exactly where everything it reads is a
/// constant or produced by a node that does.
pub proof fn law_constants_feed_nodes(g: GraphView, n: int)
    ensures
        g.constant_fed(n) <==> forall|j: int|
            0 <= j < g.nodes[n].inputs.len() && (#[trigger] g.nodes[n].inputs[j]) is Some ==> {
                let value = g.values[(g.nodes[n].inputs[j]->0).0 as int];
                value.kind.is_constant() || (value.producer is Some && g.constant_fed(
                    (value.producer->0).0 as int,
                ))
            },
{
    queries::law_constant_fed_is_closed(g, n);
    if g.constant_fed(n) {
        assert forall|j: int|
            0 <= j < g.nodes[n].inputs.len() && (#[trigger] g.nodes[n].inputs[j])
                is Some implies ({
            let value = g.values[(g.nodes[n].inputs[j]->0).0 as int];
            value.kind.is_constant() || (value.producer is Some && g.constant_fed(
                (value.producer->0).0 as int,
            ))
        }) by {
            assert(g.input_constant_fed(n, j));
        }
    }
    if forall|j: int|
        0 <= j < g.nodes[n].inputs.len() && (#[trigger] g.nodes[n].inputs[j]) is Some ==> {
            let value = g.values[(g.nodes[n].inputs[j]->0).0 as int];
            value.kind.is_constant() || (value.producer is Some && g.constant_fed(
                (value.producer->0).0 as int,
            ))
        } {
        assert forall|j: int| 0 <= j < g.nodes[n].inputs.len() implies #[trigger] g.input_constant_fed(
            n,
            j,
        ) by {
            assert(g.nodes[n].inputs[j] is Some || g.nodes[n].inputs[j] is None);
        }
    }
}

/// Nodes that only wait for one another or for inputs do not work on constants
/// alone.
pub proof fn law_cycles_are_not_fed(g: GraphView, some: Set<int>, n: int)
    requires
        some.contains(n),
        forall|m: int| #[trigger]
            some.contains(m) ==> exists|j: int|
                0 <= j < g.nodes[m].inputs.len() && #[trigger] draws_on(g, some, m, j),
    ensures
        !g.constant_fed(n),
{
    assert forall|depth: nat| !(#[trigger] g.fed(depth, n)) by {
        lemma_not_fed(g, some, depth, n);
    }
}

/// A block works on constants alone exactly where everything directly in it
/// does: its nodes and its blocks.
pub proof fn law_constants_feed_blocks(g: GraphView, h: HierarchyView, id: GroupId)
    requires
        h.wf(),
        h.has_group(id),
    ensures
        ({
            let group = h.groups[id.0 as int];
            layout::group_fed(g, h, id) <==> {
                &&& forall|n: NodeId| #[trigger]
                    group.nodes.contains(n) ==> g.constant_fed(n.0 as int)
                &&& forall|c: GroupId| #[trigger]
                    group.children.contains(c) ==> layout::group_fed(g, h, c)
            }
        }),
{
    let group = h.groups[id.0 as int];
    assert(h.children_wf(group, id.0 as int));
    if layout::group_fed(g, h, id) {
        assert forall|n: NodeId| #[trigger] group.nodes.contains(n) implies g.constant_fed(
            n.0 as int,
        ) by {
            let k = group.nodes.index_of(n);
            assert(group.nodes[k] == n);
        }
        assert forall|c: GroupId| #[trigger] group.children.contains(c) implies layout::group_fed(
            g,
            h,
            c,
        ) by {
            let k = group.children.index_of(c);
            assert(group.children[k] == c);
        }
    }
    if (forall|n: NodeId| #[trigger] group.nodes.contains(n) ==> g.constant_fed(n.0 as int)) && (
    forall|c: GroupId| #[trigger] group.children.contains(c) ==> layout::group_fed(g, h, c)) {
        assert forall|k: int| 0 <= k < group.nodes.len() implies g.constant_fed(
            (#[trigger] group.nodes[k]).0 as int,
        ) by {
            assert(group.nodes.contains(group.nodes[k]));
        }
        assert forall|k: int|
            #![trigger group.children[k]]
            0 <= k < group.children.len() implies id.0 < group.children[k].0 < h.groups.len()
            && layout::group_fed(g, h, group.children[k]) by {
            assert(group.children.contains(group.children[k]));
        }
    }
}

/// A row of a table of elements says where the element is and what it is. On one
/// axis that is its place, and on two its row and its column.
pub proof fn law_tables_place_elements(dims: Seq<i64>, start: u64, texts: Seq<Seq<char>>, k: int)
    requires
        0 <= k < texts.len(),
        start + texts.len() <= u64::MAX,
    ensures
        details::table_view(dims, start, texts).len() == texts.len(),
        details::table_view(dims, start, texts)[k].1 == texts[k],
        dims.len() <= 1 ==> details::table_view(dims, start, texts)[k].0 == "["@ + text::decimal(
            (start + k) as nat,
        ) + "]"@,
        dims.len() == 2 && dims[0] > 0 && dims[1] > 0 && start + k < dims[0] * dims[1]
            ==> details::table_view(dims, start, texts)[k].0 == "["@ + text::decimal(
            ((start + k) / dims[1] as int) as nat,
        ) + ", "@ + text::decimal(((start + k) % dims[1] as int) as nat) + "]"@,
{
    let flat = (start + k) as nat;
    let one = Seq::new(seq![flat].len(), |i: int| text::decimal(seq![flat][i]));
    assert(one.len() == 1 && one[0] == text::decimal(flat));
    if dims.len() == 2 && dims[0] > 0 && dims[1] > 0 && start + k < dims[0] * dims[1] {
        let a = dims[0] as nat;
        let b = dims[1] as nat;
        let rest = dims.drop_last();
        assert(values::axis_extent(dims.last()) == b);
        let q = flat / b;
        vstd::arithmetic::div_mod::lemma_fundamental_div_mod(flat as int, b as int);
        assert(q < a) by (nonlinear_arith)
            requires
                flat < a * b,
                flat == b * q + flat % b,
                0 <= flat % b,
        ;
        assert(values::axis_extent(rest.last()) == a);
        assert(q % a == q && q / a == 0) by (nonlinear_arith)
            requires
                0 <= q < a,
        ;
        assert(rest.drop_last() =~= Seq::<i64>::empty());
        assert(values::unraveled(rest.drop_last(), q / a) =~= Seq::<nat>::empty());
        assert(values::unraveled(rest, q) =~= seq![q]);
        let indices = values::unraveled(dims, flat);
        assert(indices =~= seq![q, flat % b]);
        let parts = Seq::new(indices.len(), |i: int| text::decimal(indices[i]));
        assert(parts.drop_last() =~= seq![text::decimal(q)]);
        assert(chars::joined(parts.drop_last(), ", "@) == text::decimal(q));
        assert(chars::joined(parts, ", "@) == text::decimal(q) + ", "@ + text::decimal(flat % b));
        assert("["@ + chars::joined(parts, ", "@) + "]"@ =~= "["@ + text::decimal(q) + ", "@
            + text::decimal(flat % b) + "]"@);
    }
}

/// Elements on one line stand between brackets, a scalar without.
pub proof fn law_lines_of_elements(texts: Seq<Seq<char>>, last: Seq<char>)
    ensures
        details::line_text(seq![last], true) == last,
        details::line_text(Seq::empty(), false) == "["@ + "]"@,
        details::line_text(seq![last], false) == "["@ + last + "]"@,
        texts.len() > 0 ==> details::line_text(texts.push(last), false) == "["@ + chars::joined(
            texts,
            ", "@,
        ) + ", "@ + last + "]"@,
{
    crate::glimpses::law_joining(texts, ", "@, last);
    assert("["@ + Seq::<char>::empty() + "]"@ =~= "["@ + "]"@);
    if texts.len() > 0 {
        assert("["@ + (chars::joined(texts, ", "@) + ", "@ + last) + "]"@ =~= "["@ + chars::joined(
            texts,
            ", "@,
        ) + ", "@ + last + "]"@);
    }
}

/// Numbers from one of the typed fields are never refused, bytes only where the
/// size of an element is not known, and a tensor without data always.
pub proof fn law_refusals(tensor: TensorView, error: ReadErrorView)
    ensures
        values::refuses(tensor, error) <==> tensor.refusal() == Some(error),
        tensor.data is Floats || tensor.data is Int32s || tensor.data is Int64s || tensor.data
            is Doubles ==> tensor.refusal() is None,
        tensor.data is Raw || tensor.data is External ==> tensor.refusal() == if values::size_of(
            tensor.dtype.0,
        ) is Some {
            None
        } else {
            Some(ReadErrorView::UnsupportedType(tensor.dtype))
        },
        tensor.data is Missing ==> tensor.refusal() == Some(ReadErrorView::NoData),
{
}

/// Elements in another file are asked for there: as many bytes as they take, from
/// where the first of them is on.
pub proof fn law_requests(tensor: TensorView, start: u64, count: usize, reading: Reading)
    requires
        values::reads_window(tensor, start, count, reading),
        tensor.data is External,
    ensures
        reading is Wanted,
        values::size_of(tensor.dtype.0) == Some(reading->Wanted_0.size),
        reading->Wanted_0.offset == start * reading->Wanted_0.size,
        reading->Wanted_0.len == count * reading->Wanted_0.size,
        reading->Wanted_0.dtype == tensor.dtype,
        reading->Wanted_0.external@ == values::external_of(tensor.data->External_0),
{
}

/// A box is told each of its edges, an edge back into it twice.
pub proof fn law_boxes_know_their_edges(links: Seq<Link>, v: int, n: nat, e: usize)
    requires
        n <= links.len() <= usize::MAX,
    ensures
        layout::incident_to(links, v, n).len() == tally::sum(
            n,
            |j: int| tally::one(links[j].from == v) + tally::one(links[j].to == v),
        ),
        layout::incident_to(links, v, n).contains(e) <==> e < n && (links[e as int].from == v
            || links[e as int].to == v),
    decreases n,
{
    if n > 0 {
        law_boxes_know_their_edges(links, v, (n - 1) as nat, e);
        let before = layout::incident_to(links, v, (n - 1) as nat);
        let after = layout::incident_to(links, v, n);
        if before.contains(e) {
            let at = before.index_of(e);
            assert(after[at] == e);
        }
        if e == n - 1 && (links[n - 1].from == v || links[n - 1].to == v) {
            assert(after[before.len() as int] == e);
        }
        if after.contains(e) {
            let at = after.index_of(e);
            if at < before.len() {
                assert(before[at] == e);
            }
        }
    }
}

/// The boxes beside one are those that an edge joins to it.
pub proof fn law_boxes_beside_are_joined(layout: Layout, node: usize, other: usize)
    requires
        node < layout.incident@.len(),
        layout.incident@[node as int]@.len() <= usize::MAX,
        forall|e: usize|
            #![trigger layout.incident@[node as int]@.contains(e)]
            layout.incident@[node as int]@.contains(e) <==> e < layout.edges@.len() && (
            layout.edges@[e as int].from == node || layout.edges@[e as int].to == node),
        layout.edges@.len() <= usize::MAX,
    ensures
        canvas::boxes_beside(layout, node).contains(other) <==> other != node && exists|e: int|
            0 <= e < layout.edges@.len() && {
                let edge = #[trigger] layout.edges@[e];
                (edge.from == node && edge.to == other) || (edge.from == other && edge.to == node)
            },
{
    let at = layout.incident@[node as int]@;
    if canvas::boxes_beside(layout, node).contains(other) {
        let k = choose|k: int| 0 <= k < at.len() && canvas::ends_at(layout, #[trigger] at[k], other);
        assert(at.contains(at[k]));
        assert(layout.edges@[at[k] as int].from == other || layout.edges@[at[k] as int].to == other);
    }
    if other != node && exists|e: int|
        0 <= e < layout.edges@.len() && {
            let edge = #[trigger] layout.edges@[e];
            (edge.from == node && edge.to == other) || (edge.from == other && edge.to == node)
        } {
        let e = choose|e: int|
            0 <= e < layout.edges@.len() && {
                let edge = #[trigger] layout.edges@[e];
                (edge.from == node && edge.to == other) || (edge.from == other && edge.to == node)
            };
        assert(at.contains(e as usize));
        let k = at.index_of(e as usize);
        assert(canvas::ends_at(layout, at[k], other));
    }
}

/// The peak of a density plot is its highest count, and at least one.
pub proof fn law_peaks(counts: Seq<usize>, peak: usize, k: int)
    requires
        canvas::is_peak(counts, peak),
    ensures
        0 <= k < counts.len() ==> counts[k] <= peak,
        peak >= 1,
        peak == 1 || exists|j: int| 0 <= j < counts.len() && #[trigger] counts[j] == peak,
{
    if peak > 1 {
        let j = counts.index_of(peak);
        assert(counts[j] == peak);
    }
}

proof fn lemma_rank_reached(
    links: Seq<Link>,
    done: Seq<int>,
    levels: Seq<usize>,
    v: int,
    m: nat,
)
    requires
        m <= links.len(),
    ensures
        ranks::rank_below(links, done, levels, v, m) == 0 || exists|j: int|
            0 <= j < m && ranks::leads_into(#[trigger] links[j], v)
                && levels[links[j].from as int] + 1 == ranks::rank_below(links, done, levels, v, m),
        done.len() == 0 ==> ranks::rank_below(links, done, levels, v, m) == 0,
    decreases m,
{
    if m > 0 {
        lemma_rank_reached(links, done, levels, v, (m - 1) as nat);
        assert(ranks::leads_into(links[m - 1], v) || !ranks::leads_into(links[m - 1], v));
    }
}

/// Whatever the links are, a box is in the first rank or directly below another
/// box that leads into it. So a box that none leads into is in the first rank.
pub proof fn law_ranks_are_reached(links: Seq<Link>, count: nat, levels: Seq<usize>, v: int)
    requires
        ranks::ranked(links, count, levels),
        0 <= v < count,
    ensures
        levels.len() == count,
        levels[v] == 0 || exists|j: int|
            0 <= j < links.len() && (#[trigger] links[j]).to == v && links[j].from != v
                && levels[links[j].from as int] + 1 == levels[v],
{
    let order = choose|order: Seq<int>| #[trigger] ranks::releases(links, count, order, levels);
    lemma_all_released(order, count, v);
    let k = order.index_of(v);
    assert(ranks::released_well(links, count, order, levels, k, order[k]));
    lemma_rank_reached(links, order.take(k), levels, v, links.len());
    if levels[v] != 0 {
        let j = choose|j: int|
            0 <= j < links.len() && ranks::leads_into(#[trigger] links[j], v)
                && levels[links[j].from as int] + 1 == levels[v];
        assert(links[j].to == v);
    }
}

proof fn lemma_all_released(order: Seq<int>, count: nat, v: int)
    requires
        order.len() == count,
        order.no_duplicates(),
        forall|k: int| 0 <= k < order.len() ==> 0 <= #[trigger] order[k] < count,
        0 <= v < count,
    ensures
        order.contains(v),
{
    let all = vstd::set_lib::set_int_range(0, count as int);
    vstd::set_lib::lemma_int_range(0, count as int);
    order.unique_seq_to_set();
    assert(order.to_set().subset_of(all)) by {
        assert forall|x: int| order.to_set().contains(x) implies all.contains(x) by {
            let k = order.index_of(x);
            assert(0 <= order[k] < count);
        }
    }
    vstd::set_lib::lemma_subset_equality(order.to_set(), all);
    assert(order.to_set().contains(v));
}

/// Whether another box leads into this one.
pub open spec fn waits(links: Seq<Link>, v: int) -> bool {
    exists|j: int| 0 <= j < links.len() && (#[trigger] links[j]).to == v && links[j].from != v
}

/// Where every box waits for another one, the first box goes to the top.
pub proof fn law_cycles_start_at_the_first_box(links: Seq<Link>, count: nat, levels: Seq<usize>)
    requires
        ranks::ranked(links, count, levels),
        count > 0,
        forall|v: int| 0 <= v < count ==> #[trigger] waits(links, v),
    ensures
        levels[0] == 0,
{
    let order = choose|order: Seq<int>| #[trigger] ranks::releases(links, count, order, levels);
    let v = order[0];
    assert(ranks::released_well(links, count, order, levels, 0, order[0]));
    let done = order.take(0);
    assert(done =~= Seq::<int>::empty());
    assert(waits(links, v));
    let j = choose|j: int|
        0 <= j < links.len() && (#[trigger] links[j]).to == v && links[j].from != v;
    assert(!done.contains(links[j].from as int));
    assert(!ranks::is_ready(links, done, v));
    assert(!done.contains(0int));
    lemma_rank_reached(links, done, levels, v, links.len());
    lemma_rank_reached(links, done, levels, 0, links.len());
    assert(ranks::nearer(links, done, levels, v, 0));
}

proof fn lemma_successors_are_linked(links: Seq<Link>, u: int, m: nat, k: int)
    requires
        m <= links.len(),
        0 <= k < ranks::successors(links, u, m).len(),
    ensures
        exists|j: int|
            0 <= j < m && (#[trigger] links[j]).from == u && links[j].to != u && links[j].to
                == ranks::successors(links, u, m)[k],
    decreases m,
{
    if m > 0 {
        let before = ranks::successors(links, u, (m - 1) as nat);
        if k < before.len() {
            lemma_successors_are_linked(links, u, (m - 1) as nat, k);
            let j = choose|j: int|
                0 <= j < m - 1 && (#[trigger] links[j]).from == u && links[j].to != u
                    && links[j].to == before[k];
            assert(links[j].to == ranks::successors(links, u, m)[k]);
        } else {
            assert(links[m - 1].from == u);
        }
    }
}

proof fn lemma_linked_is_successor(links: Seq<Link>, u: int, m: nat, j: int)
    requires
        m <= links.len(),
        0 <= j < m,
        links[j].from == u,
        links[j].to != u,
    ensures
        ranks::successors(links, u, m).len() > 0,
    decreases m,
{
    if j < m - 1 {
        lemma_linked_is_successor(links, u, (m - 1) as nat, j);
    }
}

/// Where following links never leads back, settling keeps every link pointing
/// down, puts each box that works on constants alone directly above one that
/// reads it, and leaves the others in their order.
pub proof fn law_settling(
    start: Seq<usize>,
    links: Seq<Link>,
    marks: Seq<bool>,
    j: int,
    a: int,
    b: int,
)
    requires
        start.len() <= usize::MAX,
        marks.len() == start.len(),
        ranks::links_within(links, start.len()),
        forall|k: int|
            0 <= k < links.len() && (#[trigger] links[k]).from != links[k].to
                ==> start[links[k].from as int] < start[links[k].to as int],
        0 <= j < links.len(),
        links[j].from != links[j].to,
        0 <= a < start.len(),
        0 <= b < start.len(),
    ensures
        ({
            let settled = ranks::settled_ranks(start, links, marks);
            let from = links[j].from;
            &&& settled.len() == start.len()
            &&& settled[from as int] < settled[links[j].to as int]
            &&& marks[from as int] ==> exists|k: int|
                0 <= k < links.len() && (#[trigger] links[k]).from == from && settled[links[k].to as int]
                    == settled[from as int] + 1
            &&& !marks[a] && !marks[b] ==> (settled[a] < settled[b] <==> start[a] < start[b])
        }),
{
    let settled = ranks::settled_ranks(start, links, marks);
    let from = links[j].from;
    assert(ranks::all_down(links, start));
    if marks.contains(true) {
        let sunk = ranks::sunk_marked(start, links, marks);
        ranks::law_sinking_keeps_links_down(start, links, marks);
        ranks::law_compacting_closes_gaps(sunk);
        assert(settled == ranks::compacted(sunk));
        assert(sunk.len() == start.len());
        assert(links[j].to < start.len());
        assert(ranks::compacted(sunk)[links[j].from as int] < ranks::compacted(
            sunk,
        )[links[j].to as int]);
        if !marks[a] && !marks[b] {
            assert(sunk[a] == start[a] && sunk[b] == start[b]);
            assert(ranks::compacted(sunk)[a] < ranks::compacted(sunk)[b] <==> sunk[a] < sunk[b]);
        }
        if marks[from as int] {
            assert(ranks::above_consumer(links, settled, from as int));
            let consumers = ranks::successors(links, from as int, links.len());
            lemma_linked_is_successor(links, from as int, links.len(), j);
            let k = choose|k: int|
                0 <= k < consumers.len() && settled[(#[trigger] consumers[k]) as int]
                    == settled[from as int] + 1;
            lemma_successors_are_linked(links, from as int, links.len(), k);
            let m = choose|m: int|
                0 <= m < links.len() && (#[trigger] links[m]).from == from && links[m].to != from
                    && links[m].to == consumers[k];
            assert(settled[links[m].to as int] == settled[from as int] + 1);
        }
    } else {
        assert(settled == start);
        if marks[from as int] {
            assert(marks.contains(true));
        }
    }
}

} // verus!
