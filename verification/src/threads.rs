//! How the edges of a layout run through its cells.

use crate::collect::{self, ScopeView};
use crate::crossings;
use crate::graph::GraphView;
use crate::layout::{Layout, LayoutOptions};
use crate::ordering::{self, Arrangement};
use crate::ranks::{self, Link};
use crate::routing::{self, Cell};
use crate::sweeps;
use crate::tally;
use vstd::prelude::*;

verus! {

/// One where an item is in a list.
pub open spec fn holds_item(list: Seq<usize>, item: usize) -> spec_fn(int) -> int {
    |k: int| tally::one(list[k] == item)
}

/// How often an item is in a list.
pub open spec fn times(list: Seq<usize>, item: usize) -> int {
    tally::sum(list.len(), holds_item(list, item))
}

proof fn lemma_times_push(list: Seq<usize>, more: usize, item: usize)
    ensures
        times(list.push(more), item) == times(list, item) + tally::one(more == item),
{
    let longer = list.push(more);
    let f = holds_item(longer, item);
    tally::lemma_sum_same(list.len(), f, holds_item(list, item));
    assert(tally::sum(longer.len(), f) == tally::sum(list.len(), f) + f(list.len() as int));
}

proof fn lemma_neighbour_times(
    cells: Seq<Cell>,
    steps: Seq<(usize, usize)>,
    x: usize,
    y: usize,
    n: nat,
)
    requires
        n <= steps.len(),
    ensures
        ({
            let count = tally::sum(
                n,
                |i: int| tally::one(steps[i] == (x, y) && crossings::descends(cells, steps[i])),
            );
            &&& times(routing::below(cells, steps, x as int, n), y) == count
            &&& times(routing::above(cells, steps, y as int, n), x) == count
        }),
    decreases n,
{
    if n > 0 {
        lemma_neighbour_times(cells, steps, x, y, (n - 1) as nat);
        let (from, to) = steps[n - 1];
        let down = routing::below(cells, steps, x as int, (n - 1) as nat);
        let up = routing::above(cells, steps, y as int, (n - 1) as nat);
        if from == x && cells[from as int].rank < cells[to as int].rank {
            lemma_times_push(down, to, y);
        }
        if to == y && cells[from as int].rank < cells[to as int].rank {
            lemma_times_push(up, from, x);
        }
    }
}

/// One cell is listed below another as often as that is listed above it: once
/// for every step down from the one to the other.
pub proof fn law_neighbours_are_mutual(
    cells: Seq<Cell>,
    routes: Seq<Seq<usize>>,
    x: usize,
    y: usize,
)
    requires
        x < cells.len(),
        y < cells.len(),
    ensures
        ({
            let steps = routing::all_steps(routes, routes.len());
            let count = tally::sum(
                steps.len(),
                |i: int| tally::one(steps[i] == (x, y) && crossings::descends(cells, steps[i])),
            );
            &&& times(routing::succs_of(cells, routes)[x as int], y) == count
            &&& times(routing::preds_of(cells, routes)[y as int], x) == count
        }),
{
    let steps = routing::all_steps(routes, routes.len());
    lemma_neighbour_times(cells, steps, x, y, steps.len());
}

/// How many steps the first `n` routes take.
pub open spec fn steps_before(routes: Seq<Seq<usize>>, n: nat) -> int {
    tally::sum(n, |j: int| routes[j].len() - 1)
}

proof fn lemma_steps_follow(routes: Seq<Seq<usize>>, n: nat, j: int, k: int)
    requires
        n <= routes.len(),
        forall|i: int| 0 <= i < routes.len() ==> (#[trigger] routes[i]).len() > 0,
    ensures
        routing::all_steps(routes, n).len() == steps_before(routes, n),
        0 <= j < n && 0 <= k < routes[j].len() - 1 ==> 0 <= steps_before(routes, j as nat) + k
            < steps_before(routes, n) && routing::all_steps(routes, n)[steps_before(
            routes,
            j as nat,
        ) + k] == (routes[j][k], routes[j][k + 1]),
    decreases n,
{
    if n > 0 {
        lemma_steps_follow(routes, (n - 1) as nat, j, k);
        assert(routes[n - 1].len() > 0);
        let before = routing::all_steps(routes, (n - 1) as nat);
        let own = routing::steps_of(routes[n - 1]);
        assert(own.len() == routes[n - 1].len() - 1);
        if j == n - 1 && 0 <= k < routes[j].len() - 1 {
            assert((before + own)[before.len() + k] == own[k]);
        }
    }
}

/// The steps are those of all routes, one route after the other, each step from
/// one cell of its route to the next.
pub proof fn law_steps_follow_routes(routes: Seq<Seq<usize>>, j: int, k: int)
    requires
        forall|i: int| 0 <= i < routes.len() ==> (#[trigger] routes[i]).len() > 0,
        0 <= j < routes.len(),
        0 <= k < routes[j].len() - 1,
    ensures
        ({
            let steps = routing::all_steps(routes, routes.len());
            let at = steps_before(routes, j as nat) + k;
            &&& steps.len() == steps_before(routes, routes.len())
            &&& 0 <= at < steps.len()
            &&& steps[at] == (routes[j][k], routes[j][k + 1])
        }),
{
    lemma_steps_follow(routes, routes.len(), j, k);
}

/// Whether every link that leads down is short enough to be routed.
pub open spec fn all_routed(links: Seq<Link>, ranks: Seq<usize>, max_span: usize) -> bool {
    forall|j: int|
        0 <= j < links.len() ==> {
            let link = #[trigger] links[j];
            ranks[link.to as int] - ranks[link.from as int] <= max_span || ranks[link.to as int]
                - ranks[link.from as int] <= 1
        }
}

proof fn lemma_steps_neat(
    ranks: Seq<usize>,
    links: Seq<Link>,
    max_span: usize,
    n: nat,
)
    requires
        ranks::links_within(links, ranks.len()),
        all_routed(links, ranks, max_span),
        routing::cells_of(ranks, links, max_span, links.len()).len() <= usize::MAX,
        n <= links.len(),
    ensures
        crossings::neat(
            routing::cells_of(ranks, links, max_span, links.len()),
            routing::all_steps(routing::routes_of(ranks, links, max_span, links.len()), n),
        ),
    decreases n,
{
    let cells = routing::cells_of(ranks, links, max_span, links.len());
    let routes = routing::routes_of(ranks, links, max_span, links.len());
    let steps = routing::all_steps(routes, n);
    if n > 0 {
        lemma_steps_neat(ranks, links, max_span, (n - 1) as nat);
        let before = routing::all_steps(routes, (n - 1) as nat);
        let route = routes[n - 1];
        let own = routing::steps_of(route);
        let link = links[n - 1];
        routing::law_routes_descend(ranks, links, max_span, n - 1);
        routing::lemma_cells_grow(ranks, links, max_span, 0, links.len());
        assert(routing::cells_of(ranks, links, max_span, 0) == routing::box_cells(ranks));
        assert(cells[link.from as int] == routing::box_cells(ranks)[link.from as int]);
        assert(cells[link.to as int] == routing::box_cells(ranks)[link.to as int]);
        assert(route == routing::route_of(ranks, links, max_span, n - 1));
        assert forall|i: int| 0 <= i < steps.len() implies {
            let step = #[trigger] steps[i];
            step.0 < cells.len() && step.1 < cells.len() && (crossings::descends(cells, step)
                ==> cells[step.1 as int].rank == cells[step.0 as int].rank + 1)
        } by {
            if i < before.len() {
                assert(steps[i] == before[i]);
            } else {
                let k = i - before.len();
                assert(steps[i] == own[k]);
                assert(own[k] == (route[k], route[k + 1]));
                assert(route[k] < cells.len() && route[k + 1] < cells.len());
                assert(links[n - 1].to < ranks.len() && links[n - 1].from < ranks.len());
            }
        }
    }
}

/// Where every edge of a layout is routed, its cells are those of the boxes and
/// of the bends, every one stands once in its rank, and each iteration has swept
/// the ranks once and then taken crossings away. The steps are those of the
/// edges as they are drawn.
pub proof fn law_layouts_are_ordered(
    layout: Layout,
    g: GraphView,
    scope: Option<ScopeView>,
    opts: LayoutOptions,
    ranks: Seq<usize>,
)
    requires
        layout.shows(g, scope, opts, ranks),
        ranks.len() == collect::drawing(g, scope).boxes.len(),
        ranks::links_within(collect::drawing(g, scope).links, ranks.len()),
        all_routed(collect::drawing(g, scope).links, ranks, opts.max_edge_span),
        opts.ordering_iterations > 0,
        layout.cells@.len() <= usize::MAX,
    ensures
        ({
            let cells = layout.cells@;
            let routes = Seq::new(layout.edges@.len(), |j: int| layout.edges@[j].route@);
            let steps = routing::all_steps(routes, routes.len());
            let now = Arrangement {
                members: Seq::new(layout.members@.len(), |r: int| layout.members@[r]@),
                orders: layout.orders@,
            };
            let downward = opts.ordering_iterations % 2 == 1;
            &&& crossings::neat(cells, steps)
            &&& ordering::places_all(now, cells)
            &&& exists|was: Arrangement, mid: Arrangement| #[trigger]
                sweeps::improved_by(cells, steps, was, mid, now, downward)
        }),
{
    let d = collect::drawing(g, scope);
    let links = d.links;
    let span = opts.max_edge_span;
    let cells = layout.cells@;
    let paths = routing::routes_of(ranks, links, span, links.len());
    let routes = Seq::new(layout.edges@.len(), |j: int| layout.edges@[j].route@);
    assert forall|j: int| 0 <= j < routes.len() implies #[trigger] routes[j] == paths[j] by {
        assert(crate::layout::edge_shows(
            layout.edges@[j],
            g,
            links[j],
            routing::route_of(ranks, links, span, j),
        ));
    }
    assert(routes =~= paths);
    let steps = routing::all_steps(routes, routes.len());
    lemma_steps_neat(ranks, links, span, links.len());
    let n = (opts.ordering_iterations - 1) as nat;
    sweeps::law_iterations_sweep_and_swap(cells, steps, n);
    ordering::law_ordering_keeps_ranks(
        cells,
        crossings::uppers(cells, steps),
        crossings::lowers(cells, steps),
        n + 1,
    );
    assert(crossings::uppers(cells, steps) =~= routing::preds_of(cells, paths));
    assert(crossings::lowers(cells, steps) =~= routing::succs_of(cells, paths));
    let now = Arrangement {
        members: Seq::new(layout.members@.len(), |r: int| layout.members@[r]@),
        orders: layout.orders@,
    };
    assert(now == ordering::state(layout.members@, layout.orders@)) by {
        assert(now.members =~= routing::lists(layout.members@));
    }
    let first = ordering::first_arrangement(cells);
    let up = crossings::uppers(cells, steps);
    let down = crossings::lowers(cells, steps);
    let was = ordering::arranged(first, up, down, n);
    let downward = n % 2 == 0;
    assert(exists|mid: Arrangement| #[trigger]
        sweeps::improved_by(cells, steps, was, mid, now, downward));
    let mid = choose|mid: Arrangement| #[trigger]
        sweeps::improved_by(cells, steps, was, mid, now, downward);
    assert(downward == (opts.ordering_iterations % 2 == 1));
    assert(sweeps::improved_by(cells, steps, was, mid, now, opts.ordering_iterations % 2 == 1));
}

} // verus!
