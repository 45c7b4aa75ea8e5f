//! Layered graph layout.
//!
//! This is a Sugiyama-style layout. Nodes are assigned to horizontal layers
//! ("ranks") by dependency depth and ordered within each layer to reduce edge
//! crossings. Giving them coordinates that pull each node towards its
//! neighbours is left to whoever draws the layout.

use crate::chars;
use crate::collect::{self, collect, BoxView, Collected, ScopeView};
use crate::graph::{Graph, GraphView};
use crate::hierarchy::{Group, GroupId, Hierarchy, HierarchyView};
use crate::model::NodeId;
use crate::ordering::{self, order_cells};
use crate::ranks::{self, assign_ranks, sink_constant_fed, Link};
use crate::routing::{self, adjacency, route_links, Cell};
use std::collections::HashMap;
use vstd::prelude::*;

pub use crate::collect::{ItemKind, LayoutNode, Scope};

verus! {

#[derive(Copy, Clone, PartialEq, Eq, Debug, Structural)]
pub struct LayoutOptions {
    pub ordering_iterations: usize,
    /// Longest edge, in ranks, that is routed through dummy cells.
    ///
    /// A dummy is created for every rank an edge crosses, so in a deep graph a
    /// single edge skipping most of the model would create thousands of them.
    /// Edges longer than this are drawn as a direct line instead and take no
    /// part in ordering, which bounds the cost at the price of a few long edges
    /// cutting across the drawing.
    pub max_edge_span: usize,
}

impl Default for LayoutOptions {
    fn default() -> (opts: Self)
        ensures
            opts == (LayoutOptions { ordering_iterations: 8, max_edge_span: 32 }),
    {
        LayoutOptions { ordering_iterations: 8, max_edge_span: 32 }
    }
}

pub struct LayoutEdge {
    /// Index into [`Layout::nodes`].
    pub from: usize,
    pub to: usize,
    /// The cells that the edge passes through, its ends included.
    pub route: Vec<usize>,
    pub label: String,
}

pub struct Layout {
    pub nodes: Vec<LayoutNode>,
    pub edges: Vec<LayoutEdge>,
    /// The cells of the boxes, in their order, and then the dummies.
    pub cells: Vec<Cell>,
    /// The cells of each rank, from left to right.
    pub members: Vec<Vec<usize>>,
    /// Where in its rank each cell is.
    pub orders: Vec<usize>,
    /// The cells directly above each cell.
    pub preds: Vec<Vec<usize>>,
    /// The cells directly below each cell.
    pub succs: Vec<Vec<usize>>,
    /// Number of ranks the drawing is divided into.
    pub rank_count: usize,
    /// Dummy cells created for edge routing, reported for diagnostics.
    pub dummy_count: usize,
    pub node_by_id: HashMap<u32, usize>,
    pub group_by_id: HashMap<u32, usize>,
    /// Edge indices incident to each node, for highlighting a selection.
    pub incident: Vec<Vec<usize>>,
}

/// Whether everything in the group `id`, and in the groups below it, works on
/// constants alone.
pub open spec fn group_fed(g: GraphView, h: HierarchyView, id: GroupId) -> bool
    decreases h.groups.len() - id.0,
{
    let group = h.groups[id.0 as int];
    &&& forall|k: int|
        0 <= k < group.nodes.len() ==> g.constant_fed((#[trigger] group.nodes[k]).0 as int)
    &&& forall|k: int|
        #![trigger group.children[k]]
        0 <= k < group.children.len() ==> id.0 < group.children[k].0 < h.groups.len() && group_fed(
            g,
            h,
            group.children[k],
        )
}

/// Whether a box stands for work on constants alone. A block counts only if
/// everything inside it does, since the block is drawn as one box and moves as
/// one.
pub open spec fn box_fed(g: GraphView, scope: Option<ScopeView>, b: BoxView) -> bool {
    match b.kind {
        ItemKind::Op(id) => g.constant_fed(id.0 as int),
        ItemKind::Group(id) => match scope {
            Some(scope) => group_fed(g, scope.hierarchy, id),
            None => false,
        },
        _ => false,
    }
}

/// Which boxes stand for work on constants alone.
pub open spec fn boxes_fed(g: GraphView, scope: Option<ScopeView>, boxes: Seq<BoxView>) -> Seq<
    bool,
> {
    Seq::new(boxes.len(), |i: int| box_fed(g, scope, boxes[i]))
}

/// The edges among the first `n` links that end at the box `v`.
pub open spec fn incident_to(links: Seq<Link>, v: int, n: nat) -> Seq<usize>
    decreases n,
{
    if n == 0 {
        Seq::empty()
    } else {
        let before = incident_to(links, v, (n - 1) as nat);
        let leaving = if links[n - 1].from == v {
            before.push((n - 1) as usize)
        } else {
            before
        };
        if links[n - 1].to == v {
            leaving.push((n - 1) as usize)
        } else {
            leaving
        }
    }
}

/// Whether an edge is that of a link, drawn along a route.
pub open spec fn edge_shows(edge: LayoutEdge, g: GraphView, link: Link, route: Seq<usize>) -> bool {
    &&& edge.from == link.from
    &&& edge.to == link.to
    &&& edge.route@ == route
    &&& edge.label@ == g.values[link.value.0 as int].type_text()
}

impl Layout {
    pub open spec fn boxes(self) -> Seq<BoxView> {
        chars::views(self.nodes@)
    }

    /// Whether boxes can be found by what they stand for.
    pub open spec fn indexed(self) -> bool {
        &&& forall|id: u32|
            match collect::box_of(self.boxes(), #[trigger] collect::op_kind(id)) {
                Some(index) => self.node_by_id@.contains_key(id) && self.node_by_id@[id] == index,
                None => !self.node_by_id@.contains_key(id),
            }
        &&& forall|id: u32|
            match collect::box_of(self.boxes(), #[trigger] collect::group_kind(id)) {
                Some(index) => self.group_by_id@.contains_key(id) && self.group_by_id@[id] == index,
                None => !self.group_by_id@.contains_key(id),
            }
    }

    /// Whether boxes can be found by what they stand for, and edges and boxes by
    /// their indices.
    pub open spec fn wf(self) -> bool {
        &&& self.indexed()
        &&& self.nodes@.len() <= self.cells@.len()
        &&& self.incident@.len() == self.nodes@.len()
        &&& forall|v: int, k: int|
            #![trigger self.incident@[v]@[k]]
            0 <= v < self.incident@.len() && 0 <= k < self.incident@[v]@.len()
                ==> self.incident@[v]@[k] < self.edges@.len()
        &&& forall|e: int|
            0 <= e < self.edges@.len() ==> (#[trigger] self.edges@[e]).from < self.nodes@.len()
                && self.edges@[e].to < self.nodes@.len()
    }

    /// Whether the layout shows the graph with the boxes in these ranks.
    pub open spec fn shows(
        self,
        g: GraphView,
        scope: Option<ScopeView>,
        opts: LayoutOptions,
        ranks: Seq<usize>,
    ) -> bool {
        let d = collect::drawing(g, scope);
        let links = d.links;
        let span = opts.max_edge_span;
        let routes = routing::routes_of(ranks, links, span, links.len());
        &&& self.boxes() == d.boxes
        &&& self.indexed()
        &&& self.cells@ == routing::cells_of(ranks, links, span, links.len())
        &&& routing::lists(self.preds@) == routing::preds_of(self.cells@, routes)
        &&& routing::lists(self.succs@) == routing::succs_of(self.cells@, routes)
        &&& ordering::state(self.members@, self.orders@) == ordering::arranged(
            ordering::first_arrangement(self.cells@),
            routing::lists(self.preds@),
            routing::lists(self.succs@),
            opts.ordering_iterations as nat,
        )
        &&& self.rank_count == self.members@.len()
        &&& self.dummy_count == self.cells@.len() - self.nodes@.len()
        &&& self.edges@.len() == links.len()
        &&& forall|j: int|
            0 <= j < links.len() ==> edge_shows(
                #[trigger] self.edges@[j],
                g,
                links[j],
                routing::route_of(ranks, links, span, j),
            )
        &&& self.incident@.len() == self.nodes@.len()
        &&& forall|v: int|
            0 <= v < self.incident@.len() ==> (#[trigger] self.incident@[v])@ == incident_to(
                links,
                v,
                links.len(),
            )
    }
}

/// Whether the ranks are those of a view of the graph: every box below its
/// predecessors, and those that work on constants alone just above their
/// consumers.
pub open spec fn ranks_of_view(g: GraphView, scope: Option<ScopeView>, ranks: Seq<usize>) -> bool {
    exists|start: Seq<usize>| #[trigger] ranks_from(g, scope, start, ranks)
}

pub open spec fn ranks_from(
    g: GraphView,
    scope: Option<ScopeView>,
    start: Seq<usize>,
    ranks: Seq<usize>,
) -> bool {
    let d = collect::drawing(g, scope);
    &&& ranks::ranked(d.links, d.boxes.len(), start)
    &&& ranks == ranks::settled_ranks(start, d.links, boxes_fed(g, scope, d.boxes))
}

fn group_is_constant_fed(
    hierarchy: &Hierarchy,
    id: GroupId,
    by_node: &Vec<bool>,
    Ghost(g): Ghost<GraphView>,
) -> (fed: bool)
    requires
        hierarchy@.wf(),
        hierarchy@.has_group(id),
        hierarchy@.node_group.len() == by_node@.len(),
        forall|n: int| 0 <= n < by_node@.len() ==> #[trigger] by_node@[n] == g.constant_fed(n),
    ensures
        fed == group_fed(g, hierarchy@, id),
    decreases hierarchy@.groups.len() - id.0,
{
    let ghost h = hierarchy@;
    let group: &Group = hierarchy.group(id);
    proof {
        assert(h.children_wf(h.groups[id.0 as int], id.0 as int));
        assert(h.members_wf(h.groups[id.0 as int], id.0 as int));
    }
    for k in 0..group.nodes.len()
        invariant
            h == hierarchy@,
            group@ == h.groups[id.0 as int],
            h.members_wf(group@, id.0 as int),
            h.node_group.len() == by_node@.len(),
            forall|n: int| 0 <= n < by_node@.len() ==> #[trigger] by_node@[n] == g.constant_fed(n),
            forall|j: int|
                0 <= j < k ==> g.constant_fed((#[trigger] group@.nodes[j]).0 as int),
    {
        let node: NodeId = group.nodes[k];
        assert(node == group@.nodes[k as int]);
        if !by_node[node.0 as usize] {
            return false;
        }
    }
    for k in 0..group.children.len()
        invariant
            h == hierarchy@,
            h.wf(),
            h.has_group(id),
            group@ == h.groups[id.0 as int],
            h.children_wf(group@, id.0 as int),
            h.node_group.len() == by_node@.len(),
            forall|n: int| 0 <= n < by_node@.len() ==> #[trigger] by_node@[n] == g.constant_fed(n),
            forall|j: int|
                #![trigger group@.children[j]]
                0 <= j < k ==> id.0 < group@.children[j].0 < h.groups.len() && group_fed(
                    g,
                    h,
                    group@.children[j],
                ),
    {
        let child: GroupId = group.children[k];
        assert(child == group@.children[k as int]);
        if !group_is_constant_fed(hierarchy, child, by_node, Ghost(g)) {
            return false;
        }
    }
    true
}

/// Marks the drawn boxes that stand for work on constants alone.
fn constant_fed(graph: &Graph, scope: Option<Scope>, nodes: &Vec<LayoutNode>) -> (fed: Vec<bool>)
    requires
        graph@.wf(),
        collect::scope_wf(chars::opt_view(scope), graph@),
        collect::boxes_wf(graph@, chars::opt_view(scope), chars::views(nodes@)),
    ensures
        fed@ == boxes_fed(graph@, chars::opt_view(scope), chars::views(nodes@)),
{
    let ghost g = graph@;
    let ghost shown = chars::opt_view(scope);
    let by_node: Vec<bool> = graph.constant_fed_nodes();
    let mut fed: Vec<bool> = Vec::new();
    for i in 0..nodes.len()
        invariant
            g == graph@,
            shown == chars::opt_view(scope),
            collect::scope_wf(shown, g),
            by_node@.len() == g.nodes.len(),
            forall|n: int| 0 <= n < by_node@.len() ==> #[trigger] by_node@[n] == g.constant_fed(n),
            collect::boxes_wf(g, shown, chars::views(nodes@)),
            fed@ == boxes_fed(g, shown, chars::views(nodes@)).take(i as int),
    {
        assert(chars::views(nodes@)[i as int] == nodes@[i as int]@);
        let mark: bool = match nodes[i].kind {
            ItemKind::Op(id) => by_node[id.0 as usize],
            ItemKind::Group(group) => match scope {
                Some(scope) => group_is_constant_fed(scope.hierarchy, group, &by_node, Ghost(g)),
                None => false,
            },
            ItemKind::Input(_) | ItemKind::Output(_) => false,
        };
        assert(mark == box_fed(g, shown, nodes@[i as int]@));
        fed.push(mark);
        assert(fed@ =~= boxes_fed(g, shown, chars::views(nodes@)).take(i + 1));
    }
    assert(fed@ =~= boxes_fed(g, shown, chars::views(nodes@)));
    fed
}

/// Lays the edges out along their routes, with the type of the value each
/// carries.
fn build_edges(
    graph: &Graph,
    links: &Vec<Link>,
    routes: Vec<Vec<usize>>,
) -> (edges: Vec<LayoutEdge>)
    requires
        routes@.len() == links@.len(),
        collect::values_within(links@, graph@.values.len()),
    ensures
        edges@.len() == links@.len(),
        forall|j: int|
            0 <= j < links@.len() ==> edge_shows(
                #[trigger] edges@[j],
                graph@,
                links@[j],
                routes@[j]@,
            ),
{
    let ghost given = routes@;
    let mut edges: Vec<LayoutEdge> = Vec::new();
    for route in iter: routes
        invariant
            iter.seq() == given,
            given.len() == links@.len(),
            collect::values_within(links@, graph@.values.len()),
            edges@.len() == iter.index(),
            forall|j: int|
                0 <= j < edges@.len() ==> edge_shows(
                    #[trigger] edges@[j],
                    graph@,
                    links@[j],
                    given[j]@,
                ),
    {
        let at: usize = edges.len();
        let link: Link = links[at];
        assert(link == links@[at as int]);
        assert(graph@.values[link.value.0 as int] == graph.values@[link.value.0 as int]@);
        edges.push(
            LayoutEdge {
                from: link.from,
                to: link.to,
                route,
                label: graph.value(link.value).type_summary(),
            },
        );
    }
    edges
}

/// Lists the edges that end at each box.
fn list_incident(count: usize, links: &Vec<Link>) -> (incident: Vec<Vec<usize>>)
    requires
        ranks::links_within(links@, count as nat),
    ensures
        incident@.len() == count,
        forall|v: int|
            0 <= v < count ==> (#[trigger] incident@[v])@ == incident_to(links@, v, links@.len()),
{
    let mut incident: Vec<Vec<usize>> = Vec::new();
    for i in 0..count
        invariant
            incident@.len() == i,
            forall|v: int| 0 <= v < i ==> (#[trigger] incident@[v])@ == Seq::<usize>::empty(),
    {
        incident.push(Vec::new());
    }
    for j in 0..links.len()
        invariant
            ranks::links_within(links@, count as nat),
            incident@.len() == count,
            forall|v: int|
                0 <= v < count ==> (#[trigger] incident@[v])@ == incident_to(links@, v, j as nat),
    {
        let link: Link = links[j];
        assert(link == links@[j as int]);
        let ghost held = incident@;
        incident[link.from].push(j);
        let ghost mid = incident@;
        incident[link.to].push(j);
        proof {
            assert forall|v: int| 0 <= v < count implies (#[trigger] incident@[v])@ == incident_to(
                links@,
                v,
                j as nat + 1,
            ) by {
                if v != link.from {
                    assert(mid[v] == held[v]);
                }
                if v != link.to {
                    assert(incident@[v] == mid[v]);
                }
            }
        }
    }
    incident
}

/// Lays a graph, or the part of it in a scope, out in ranks.
pub fn layout_graph(graph: &Graph, scope: Option<Scope>, opts: &LayoutOptions) -> (layout: Layout)
    requires
        graph@.wf(),
        collect::scope_wf(chars::opt_view(scope), graph@),
    ensures
        layout.wf(),
        exists|ranks: Seq<usize>|
            ranks_of_view(graph@, chars::opt_view(scope), ranks) && #[trigger] layout.shows(
                graph@,
                chars::opt_view(scope),
                *opts,
                ranks,
            ),
{
    let ghost g = graph@;
    let ghost shown = chars::opt_view(scope);
    let ghost d = collect::drawing(g, shown);
    let collected: Collected = collect(graph, scope);
    let Collected { nodes, node_by_id, group_by_id, links } = collected;
    let count: usize = nodes.len();
    let link_count: usize = links.len();
    proof {
        assert(d.boxes.len() == count);
        assert(d.links.len() == link_count);
        collect::law_links_are_between_boxes(g, shown);
        collect::law_constants_are_not_drawn(g, shown);
        collect::lemma_link_values(g, shown, g.values.len());
    }
    let mut ranks: Vec<usize> = assign_ranks(count, &links);
    let ghost start = ranks@;
    let fed: Vec<bool> = constant_fed(graph, scope, &nodes);
    sink_constant_fed(&mut ranks, &links, &fed);
    assert(ranks_from(g, shown, start, ranks@));
    assert(ranks_of_view(g, shown, ranks@));

    let span: usize = opts.max_edge_span;
    let (cells, routes): (Vec<Cell>, Vec<Vec<usize>>) = route_links(&ranks, &links, span);
    let ghost paths = routing::lists(routes@);
    let _cell_count: usize = cells.len();
    proof {
        assert(cells@.len() == _cell_count);
        assert(paths == routing::routes_of(ranks@, links@, span, links@.len()));
        assert(paths.len() == routes@.len());
        assert(routes@.len() == links@.len());
        routing::lemma_cell_ranks(ranks@, links@, span, links@.len());
        assert forall|j: int, k: int| 0 <= j < paths.len() && 0 <= k < paths[j].len() implies #[trigger] paths[j][k]
            < cells@.len() by {
            routing::law_routes_descend(ranks@, links@, span, j);
            assert(paths[j] == routing::route_of(ranks@, links@, span, j));
        }
        assert forall|j: int| 0 <= j < routes@.len() implies (#[trigger] routes@[j])@.len() > 0 by {
            routing::law_routes_descend(ranks@, links@, span, j);
            assert(paths[j] == routing::route_of(ranks@, links@, span, j));
            assert(paths[j] == routes@[j]@);
        }
        assert forall|j: int| 0 <= j < paths.len() implies (#[trigger] paths[j]).len() > 0 by {
            assert(paths[j] == routes@[j]@);
        }
        routing::lemma_adjacent_within(cells@, paths);
    }
    let (preds, succs): (Vec<Vec<usize>>, Vec<Vec<usize>>) = adjacency(&cells, &routes);
    proof {
        assert(routing::lists(preds@).len() == preds@.len());
        assert(routing::lists(succs@).len() == succs@.len());
    }
    let (members, orders): (Vec<Vec<usize>>, Vec<usize>) = order_cells(
        &cells,
        &preds,
        &succs,
        opts.ordering_iterations,
    );
    let edges: Vec<LayoutEdge> = build_edges(graph, &links, routes);
    let incident: Vec<Vec<usize>> = list_incident(count, &links);
    proof {
        routing::lemma_cells_grow(ranks@, links@, span, 0, links@.len());
        assert(cells@.len() >= count);
    }
    let layout = Layout {
        rank_count: members.len(),
        dummy_count: cells.len() - count,
        nodes,
        edges,
        cells,
        members,
        orders,
        preds,
        succs,
        node_by_id,
        group_by_id,
        incident,
    };
    proof {
        assert forall|j: int| 0 <= j < links@.len() implies edge_shows(
            #[trigger] layout.edges@[j],
            g,
            d.links[j],
            routing::route_of(ranks@, d.links, span, j),
        ) by {
            assert(paths[j] == routing::route_of(ranks@, links@, span, j));
        }
        assert(layout.shows(g, shown, *opts, ranks@));
        assert forall|v: int, k: int|
            #![trigger layout.incident@[v]@[k]]
            0 <= v < layout.incident@.len() && 0 <= k < layout.incident@[v]@.len()
            implies layout.incident@[v]@[k] < layout.edges@.len() by {
            lemma_incident_bound(d.links, v, d.links.len(), k);
        }
    }
    layout
}

proof fn lemma_incident_bound(links: Seq<Link>, v: int, n: nat, k: int)
    requires
        n <= links.len() <= usize::MAX,
        0 <= k < incident_to(links, v, n).len(),
    ensures
        incident_to(links, v, n)[k] < n,
    decreases n,
{
    let before = incident_to(links, v, (n - 1) as nat);
    if k < before.len() {
        lemma_incident_bound(links, v, (n - 1) as nat, k);
    }
}

/// The first of the first `n` boxes that is an input of the view.
pub open spec fn first_input(boxes: Seq<BoxView>, n: nat) -> Option<int>
    decreases n,
{
    if n == 0 {
        None
    } else {
        match first_input(boxes, (n - 1) as nat) {
            Some(i) => Some(i),
            None => if boxes[n - 1].kind is Input {
                Some(n - 1)
            } else {
                None
            },
        }
    }
}

/// The first of the first `n` cells among those nearest to the top.
pub open spec fn first_topmost(cells: Seq<Cell>, n: nat) -> Option<int>
    decreases n,
{
    if n == 0 {
        None
    } else {
        match first_topmost(cells, (n - 1) as nat) {
            Some(i) => if cells[n - 1].rank < cells[i].rank {
                Some(n - 1)
            } else {
                Some(i)
            },
            None => Some(n - 1),
        }
    }
}

impl Layout {
    /// Index of the drawn box for `id`, absent if the node was folded away or
    /// lies outside the current scope.
    pub fn node_index(&self, id: NodeId) -> (index: Option<usize>)
        requires
            self.indexed(),
        ensures
            index == collect::box_of(self.boxes(), ItemKind::Op(id)),
    {
        broadcast use vstd::std_specs::hash::group_hash_axioms;

        assert(collect::op_kind(id.0) == ItemKind::Op(id));
        match self.node_by_id.get(&id.0) {
            Some(index) => Some(*index),
            None => None,
        }
    }

    /// Index of the drawn box standing in for a group.
    pub fn group_index(&self, id: GroupId) -> (index: Option<usize>)
        requires
            self.indexed(),
        ensures
            index == collect::box_of(self.boxes(), ItemKind::Group(id)),
    {
        broadcast use vstd::std_specs::hash::group_hash_axioms;

        assert(collect::group_kind(id.0) == ItemKind::Group(id));
        match self.group_by_id.get(&id.0) {
            Some(index) => Some(*index),
            None => None,
        }
    }

    /// The edges that end at a box.
    pub fn incident_edges(&self, node: usize) -> (edges: &[usize])
        requires
            node < self.incident@.len(),
        ensures
            edges@ == self.incident@[node as int]@,
    {
        self.incident[node].as_slice()
    }

    /// The box to open the graph at: its first declared input, or failing that
    /// whichever box sits highest in the drawing.
    pub fn entry_node(&self) -> (index: Option<usize>)
        requires
            self.nodes@.len() <= self.cells@.len(),
        ensures
            match first_input(self.boxes(), self.boxes().len()) {
                Some(i) => index is Some && index->0 == i,
                None => match first_topmost(self.cells@, self.boxes().len()) {
                    Some(i) => index is Some && index->0 == i,
                    None => index is None,
                },
            },
    {
        let ghost boxes = self.boxes();
        for i in 0..self.nodes.len()
            invariant
                boxes == self.boxes(),
                first_input(boxes, i as nat) is None,
        {
            assert(boxes[i as int] == self.nodes@[i as int]@);
            if matches!(self.nodes[i].kind, ItemKind::Input(_)) {
                proof {
                    assert(first_input(boxes, i as nat + 1) == Some(i as int));
                    lemma_first_input_stays(boxes, i as nat + 1, boxes.len());
                }
                return Some(i);
            }
        }
        let mut best: Option<usize> = None;
        for i in 0..self.nodes.len()
            invariant
                self.nodes@.len() <= self.cells@.len(),
                match first_topmost(self.cells@, i as nat) {
                    Some(k) => best is Some && best->0 == k && k < i,
                    None => best is None,
                },
        {
            best = match best {
                Some(k) => if self.cells[i].rank < self.cells[k].rank {
                    Some(i)
                } else {
                    Some(k)
                },
                None => Some(i),
            };
        }
        best
    }
}

proof fn lemma_first_input_stays(boxes: Seq<BoxView>, k: nat, n: nat)
    requires
        k <= n,
        first_input(boxes, k) is Some,
    ensures
        first_input(boxes, n) == first_input(boxes, k),
    decreases n,
{
    if k < n {
        lemma_first_input_stays(boxes, k, (n - 1) as nat);
    }
}

/// Where links never lead back, every edge of a layout points downwards, and
/// every box that works on constants alone and has a consumer is directly above
/// one.
pub proof fn law_layout_points_down(
    g: GraphView,
    scope: Option<ScopeView>,
    ranks: Seq<usize>,
    level: spec_fn(int) -> nat,
)
    requires
        collect::drawing(g, scope).boxes.len() <= usize::MAX,
        ranks::levels(collect::drawing(g, scope).links, level),
        ranks_of_view(g, scope, ranks),
    ensures
        ranks::all_down(collect::drawing(g, scope).links, ranks),
        forall|i: int|
            0 <= i < collect::drawing(g, scope).boxes.len() && #[trigger] box_fed(
                g,
                scope,
                collect::drawing(g, scope).boxes[i],
            ) ==> ranks::above_consumer(collect::drawing(g, scope).links, ranks, i),
{
    let d = collect::drawing(g, scope);
    let fed = boxes_fed(g, scope, d.boxes);
    collect::law_links_are_between_boxes(g, scope);
    let start = choose|start: Seq<usize>| #[trigger] ranks_from(g, scope, start, ranks);
    ranks::law_links_point_down(d.links, d.boxes.len(), start, level);
    let order = choose|order: Seq<int>| #[trigger] ranks::releases(
        d.links,
        d.boxes.len(),
        order,
        start,
    );
    assert(start.len() == d.boxes.len());
    ranks::law_sinking_keeps_links_down(start, d.links, fed);
    assert forall|i: int| 0 <= i < d.boxes.len() && #[trigger] box_fed(
        g,
        scope,
        d.boxes[i],
    ) implies ranks::above_consumer(d.links, ranks, i) by {
        assert(fed[i]);
        assert(fed.contains(true));
    }
}

} // verus!
