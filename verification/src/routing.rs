//! Routing edges through the ranks.
//!
//! Edges spanning more than one rank are routed through invisible "dummy"
//! cells, one per intervening rank, so that long edges take part in ordering
//! and are drawn as polylines rather than crossing arbitrarily through the
//! drawing.

use crate::ranks::{self, Link};
use vstd::prelude::*;

verus! {

/// A node in the internal layout graph: either one of the drawn boxes, or a
/// dummy standing in for a long edge as it passes through a rank.
#[derive(Copy, Clone, PartialEq, Eq, Debug, Structural)]
pub struct Cell {
    pub rank: usize,
    /// Index of the drawn box, or `None` for a dummy.
    pub item: Option<usize>,
}

/// How many dummies a link is routed through: one for each rank strictly
/// between its ends, unless it is longer than `max_span` ranks.
pub open spec fn dummies(link: Link, ranks: Seq<usize>, max_span: usize) -> nat {
    let from = ranks[link.from as int];
    let to = ranks[link.to as int];
    if from + 1 < to && to - from <= max_span {
        (to - from - 1) as nat
    } else {
        0
    }
}

/// One cell for each of the drawn boxes.
pub open spec fn box_cells(ranks: Seq<usize>) -> Seq<Cell> {
    Seq::new(ranks.len(), |i: int| Cell { rank: ranks[i], item: Some(i as usize) })
}

/// The dummies of a link, one rank below the other.
pub open spec fn dummy_cells(link: Link, ranks: Seq<usize>, max_span: usize) -> Seq<Cell> {
    Seq::new(
        dummies(link, ranks, max_span),
        |k: int| Cell { rank: (ranks[link.from as int] + 1 + k) as usize, item: None },
    )
}

/// The cells of the drawn boxes and of the first `n` links.
pub open spec fn cells_of(
    ranks: Seq<usize>,
    links: Seq<Link>,
    max_span: usize,
    n: nat,
) -> Seq<Cell>
    decreases n,
{
    if n == 0 {
        box_cells(ranks)
    } else {
        cells_of(ranks, links, max_span, (n - 1) as nat) + dummy_cells(
            links[n - 1],
            ranks,
            max_span,
        )
    }
}

/// The cells that link `j` passes through, ends included.
pub open spec fn route_of(
    ranks: Seq<usize>,
    links: Seq<Link>,
    max_span: usize,
    j: int,
) -> Seq<usize> {
    let base = cells_of(ranks, links, max_span, j as nat).len();
    let link = links[j];
    Seq::new(
        dummies(link, ranks, max_span) + 2,
        |k: int|
            if k == 0 {
                link.from
            } else if k <= dummies(link, ranks, max_span) {
                (base + k - 1) as usize
            } else {
                link.to
            },
    )
}

/// Creates the chain of cells an edge passes through, adding a dummy for each
/// rank strictly between its endpoints.
fn route(
    cells: &mut Vec<Cell>,
    ranks: &Vec<usize>,
    links: &Vec<Link>,
    j: usize,
    max_edge_span: usize,
) -> (route: Vec<usize>)
    requires
        j < links@.len(),
        ranks::links_within(links@, ranks@.len()),
        forall|i: int| 0 <= i < ranks@.len() ==> #[trigger] ranks@[i] < usize::MAX,
        old(cells)@ == cells_of(ranks@, links@, max_edge_span, j as nat),
    ensures
        final(cells)@ == cells_of(ranks@, links@, max_edge_span, j as nat + 1),
        route@ == route_of(ranks@, links@, max_edge_span, j as int),
{
    let link: Link = links[j];
    assert(link == links@[j as int]);
    let ghost before = cells@;
    let ghost expected = route_of(ranks@, links@, max_edge_span, j as int);
    let ghost added = dummy_cells(link, ranks@, max_edge_span);
    let from_rank: usize = ranks[link.from];
    let to_rank: usize = ranks[link.to];
    assert(ranks@[link.from as int] < usize::MAX);
    let mut route: Vec<usize> = Vec::new();
    route.push(link.from);
    if to_rank > from_rank + 1 && to_rank - from_rank <= max_edge_span {
        for rank in from_rank + 1..to_rank
            invariant
                from_rank < usize::MAX,
                from_rank + 1 < to_rank,
                from_rank == ranks@[link.from as int],
                to_rank == ranks@[link.to as int],
                link == links@[j as int],
                before == cells_of(ranks@, links@, max_edge_span, j as nat),
                expected == route_of(ranks@, links@, max_edge_span, j as int),
                added == dummy_cells(link, ranks@, max_edge_span),
                added.len() == to_rank - from_rank - 1,
                cells@ == before + added.take(rank - from_rank - 1),
                route@ == expected.take(rank - from_rank),
        {
            let index: usize = cells.len();
            cells.push(Cell { rank, item: None });
            route.push(index);
            proof {
                let k = rank - from_rank - 1;
                assert(added.take(k + 1) =~= added.take(k).push(added[k]));
                assert(cells@ =~= before + added.take(k + 1));
                assert(expected[k + 1] == index);
                assert(route@ =~= expected.take(k + 2));
            }
        }
        assert(added.take(added.len() as int) =~= added);
    } else {
        assert(before + added =~= before);
        assert(route@ =~= expected.take(1));
    }
    route.push(link.to);
    assert(route@ =~= expected);
    route
}

/// Lists of cells as sequences.
pub open spec fn lists(items: Seq<Vec<usize>>) -> Seq<Seq<usize>> {
    Seq::new(items.len(), |i: int| items[i]@)
}

/// The routes of the first `n` links.
pub open spec fn routes_of(
    ranks: Seq<usize>,
    links: Seq<Link>,
    max_span: usize,
    n: nat,
) -> Seq<Seq<usize>> {
    Seq::new(n, |j: int| route_of(ranks, links, max_span, j))
}

/// Lays out one cell for each box and routes every link through dummies.
pub fn route_links(ranks: &Vec<usize>, links: &Vec<Link>, max_edge_span: usize) -> (result: (
    Vec<Cell>,
    Vec<Vec<usize>>,
))
    requires
        ranks::links_within(links@, ranks@.len()),
        forall|i: int| 0 <= i < ranks@.len() ==> #[trigger] ranks@[i] < usize::MAX,
    ensures
        result.0@ == cells_of(ranks@, links@, max_edge_span, links@.len()),
        lists(result.1@) == routes_of(ranks@, links@, max_edge_span, links@.len()),
{
    let mut cells: Vec<Cell> = Vec::new();
    for i in 0..ranks.len()
        invariant
            cells@ == box_cells(ranks@).take(i as int),
    {
        cells.push(Cell { rank: ranks[i], item: Some(i) });
        assert(cells@ =~= box_cells(ranks@).take(i + 1));
    }
    assert(box_cells(ranks@).take(ranks@.len() as int) =~= box_cells(ranks@));
    let mut routes: Vec<Vec<usize>> = Vec::new();
    for j in 0..links.len()
        invariant
            ranks::links_within(links@, ranks@.len()),
            forall|i: int| 0 <= i < ranks@.len() ==> #[trigger] ranks@[i] < usize::MAX,
            cells@ == cells_of(ranks@, links@, max_edge_span, j as nat),
            routes@.len() == j,
            forall|k: int|
                0 <= k < j ==> (#[trigger] routes@[k])@ == route_of(
                    ranks@,
                    links@,
                    max_edge_span,
                    k,
                ),
    {
        let path: Vec<usize> = route(&mut cells, ranks, links, j, max_edge_span);
        routes.push(path);
    }
    assert(lists(routes@) =~= routes_of(ranks@, links@, max_edge_span, links@.len()));
    (cells, routes)
}

/// The steps of a route, from each cell to the next.
pub open spec fn steps_of(route: Seq<usize>) -> Seq<(usize, usize)> {
    Seq::new((route.len() - 1) as nat, |k: int| (route[k], route[k + 1]))
}

/// The steps of the first `n` routes.
pub open spec fn all_steps(routes: Seq<Seq<usize>>, n: nat) -> Seq<(usize, usize)>
    decreases n,
{
    if n == 0 {
        Seq::empty()
    } else {
        all_steps(routes, (n - 1) as nat) + steps_of(routes[n - 1])
    }
}

/// Where the first `n` steps that descend a rank lead from the cell `c`.
pub open spec fn below(
    cells: Seq<Cell>,
    steps: Seq<(usize, usize)>,
    c: int,
    n: nat,
) -> Seq<usize>
    decreases n,
{
    if n == 0 {
        Seq::empty()
    } else {
        let before = below(cells, steps, c, (n - 1) as nat);
        let (from, to) = steps[n - 1];
        if from == c && cells[from as int].rank < cells[to as int].rank {
            before.push(to)
        } else {
            before
        }
    }
}

/// From where the first `n` steps that descend a rank lead to the cell `c`.
pub open spec fn above(
    cells: Seq<Cell>,
    steps: Seq<(usize, usize)>,
    c: int,
    n: nat,
) -> Seq<usize>
    decreases n,
{
    if n == 0 {
        Seq::empty()
    } else {
        let before = above(cells, steps, c, (n - 1) as nat);
        let (from, to) = steps[n - 1];
        if to == c && cells[from as int].rank < cells[to as int].rank {
            before.push(from)
        } else {
            before
        }
    }
}

/// The neighbours of every cell above and below it.
pub open spec fn preds_of(cells: Seq<Cell>, routes: Seq<Seq<usize>>) -> Seq<Seq<usize>> {
    let steps = all_steps(routes, routes.len());
    Seq::new(cells.len(), |c: int| above(cells, steps, c, steps.len()))
}

pub open spec fn succs_of(cells: Seq<Cell>, routes: Seq<Seq<usize>>) -> Seq<Seq<usize>> {
    let steps = all_steps(routes, routes.len());
    Seq::new(cells.len(), |c: int| below(cells, steps, c, steps.len()))
}

/// Whether every route stays among the first `count` cells.
pub open spec fn routes_within(routes: Seq<Seq<usize>>, count: nat) -> bool {
    forall|j: int, k: int|
        0 <= j < routes.len() && 0 <= k < routes[j].len() ==> #[trigger] routes[j][k] < count
}

proof fn lemma_neighbours_push(
    cells: Seq<Cell>,
    steps: Seq<(usize, usize)>,
    step: (usize, usize),
    c: int,
    n: nat,
)
    requires
        n <= steps.len(),
    ensures
        below(cells, steps.push(step), c, n) == below(cells, steps, c, n),
        above(cells, steps.push(step), c, n) == above(cells, steps, c, n),
    decreases n,
{
    if n > 0 {
        lemma_neighbours_push(cells, steps, step, c, (n - 1) as nat);
    }
}

/// The cells directly above and below each cell, as the routes connect them.
pub fn adjacency(cells: &Vec<Cell>, routes: &Vec<Vec<usize>>) -> (result: (
    Vec<Vec<usize>>,
    Vec<Vec<usize>>,
))
    requires
        routes_within(lists(routes@), cells@.len()),
        forall|j: int| 0 <= j < routes@.len() ==> (#[trigger] routes@[j])@.len() > 0,
    ensures
        lists(result.0@) == preds_of(cells@, lists(routes@)),
        lists(result.1@) == succs_of(cells@, lists(routes@)),
{
    let mut preds: Vec<Vec<usize>> = Vec::new();
    let mut succs: Vec<Vec<usize>> = Vec::new();
    let ghost mut steps = Seq::<(usize, usize)>::empty();
    for i in 0..cells.len()
        invariant
            preds@.len() == i,
            succs@.len() == i,
            forall|c: int| 0 <= c < i ==> (#[trigger] preds@[c])@ == Seq::<usize>::empty(),
            forall|c: int| 0 <= c < i ==> (#[trigger] succs@[c])@ == Seq::<usize>::empty(),
    {
        preds.push(Vec::new());
        succs.push(Vec::new());
    }
    let ghost all = lists(routes@);
    for j in 0..routes.len()
        invariant
            all == lists(routes@),
            routes_within(all, cells@.len()),
            forall|k: int| 0 <= k < routes@.len() ==> (#[trigger] routes@[k])@.len() > 0,
            preds@.len() == cells@.len(),
            succs@.len() == cells@.len(),
            steps == all_steps(all, j as nat),
            forall|c: int|
                0 <= c < cells@.len() ==> (#[trigger] preds@[c])@ == above(
                    cells@,
                    steps,
                    c,
                    steps.len(),
                ),
            forall|c: int|
                0 <= c < cells@.len() ==> (#[trigger] succs@[c])@ == below(
                    cells@,
                    steps,
                    c,
                    steps.len(),
                ),
    {
        let route: &Vec<usize> = &routes[j];
        let ghost start = steps;
        let ghost own = steps_of(all[j as int]);
        proof {
            assert(all[j as int] == route@);
            assert(routes@[j as int]@.len() > 0);
            assert(start + own.take(0) =~= start);
        }
        for k in 0..route.len() - 1
            invariant
                all == lists(routes@),
                routes_within(all, cells@.len()),
                j < routes@.len(),
                all[j as int] == route@,
                route@.len() > 0,
                own == steps_of(all[j as int]),
                preds@.len() == cells@.len(),
                succs@.len() == cells@.len(),
                steps == start + own.take(k as int),
                forall|c: int|
                    0 <= c < cells@.len() ==> (#[trigger] preds@[c])@ == above(
                        cells@,
                        steps,
                        c,
                        steps.len(),
                    ),
                forall|c: int|
                    0 <= c < cells@.len() ==> (#[trigger] succs@[c])@ == below(
                        cells@,
                        steps,
                        c,
                        steps.len(),
                    ),
        {
            let from: usize = route[k];
            let to: usize = route[k + 1];
            assert(all[j as int][k as int] < cells@.len());
            assert(all[j as int][k + 1] < cells@.len());
            let ghost held_preds = preds@;
            let ghost held_succs = succs@;
            // Skip links that do not descend a rank; they are drawn, but taking
            // part in ordering would be meaningless.
            if cells[to].rank > cells[from].rank {
                succs[from].push(to);
                preds[to].push(from);
            }
            proof {
                let next = steps.push((from, to));
                assert(start + own.take(k + 1) =~= next);
                assert forall|c: int| 0 <= c < cells@.len() implies (#[trigger] preds@[c])@
                    == above(cells@, next, c, next.len()) by {
                    lemma_neighbours_push(cells@, steps, (from, to), c, steps.len());
                    if c != to {
                        assert(preds@[c] == held_preds[c]);
                    }
                }
                assert forall|c: int| 0 <= c < cells@.len() implies (#[trigger] succs@[c])@
                    == below(cells@, next, c, next.len()) by {
                    lemma_neighbours_push(cells@, steps, (from, to), c, steps.len());
                    if c != from {
                        assert(succs@[c] == held_succs[c]);
                    }
                }
                steps = next;
            }
        }
        assert(own.take(own.len() as int) =~= own);
    }
    assert(lists(preds@) =~= preds_of(cells@, all));
    assert(lists(succs@) =~= succs_of(cells@, all));
    (preds, succs)
}

pub(crate) proof fn lemma_cells_grow(
    ranks: Seq<usize>,
    links: Seq<Link>,
    max_span: usize,
    k: nat,
    n: nat,
)
    requires
        k <= n,
    ensures
        cells_of(ranks, links, max_span, k).len() <= cells_of(ranks, links, max_span, n).len(),
        forall|i: int|
            0 <= i < cells_of(ranks, links, max_span, k).len() ==> cells_of(
                ranks,
                links,
                max_span,
                n,
            )[i] == #[trigger] cells_of(ranks, links, max_span, k)[i],
    decreases n,
{
    if k < n {
        lemma_cells_grow(ranks, links, max_span, k, (n - 1) as nat);
    }
}

/// Every route starts at one end of its link and ends at the other. Where its
/// ends are in order and not too far apart it descends by one rank at each
/// step, and its dummies are cells of its own.
pub proof fn law_routes_descend(ranks: Seq<usize>, links: Seq<Link>, max_span: usize, j: int)
    requires
        ranks::links_within(links, ranks.len()),
        0 <= j < links.len(),
        cells_of(ranks, links, max_span, links.len()).len() <= usize::MAX,
    ensures
        ({
            let cells = cells_of(ranks, links, max_span, links.len());
            let route = route_of(ranks, links, max_span, j);
            let from = ranks[links[j].from as int];
            let to = ranks[links[j].to as int];
            &&& route.len() >= 2
            &&& route[0] == links[j].from
            &&& route.last() == links[j].to
            &&& forall|k: int| 0 <= k < route.len() ==> #[trigger] route[k] < cells.len()
            &&& forall|k: int|
                0 < k < route.len() - 1 ==> cells[(#[trigger] route[k]) as int].item is None
            &&& (from < to && to - from <= max_span) ==> forall|k: int|
                0 <= k < route.len() ==> cells[(#[trigger] route[k]) as int].rank == from + k
        }),
{
    let n = links.len();
    let cells = cells_of(ranks, links, max_span, n);
    let route = route_of(ranks, links, max_span, j);
    let link = links[j];
    let base = cells_of(ranks, links, max_span, j as nat);
    let d = dummies(link, ranks, max_span);
    lemma_cells_grow(ranks, links, max_span, 0, n);
    lemma_cells_grow(ranks, links, max_span, 0, j as nat);
    lemma_cells_grow(ranks, links, max_span, j as nat + 1, n);
    let next = cells_of(ranks, links, max_span, j as nat + 1);
    assert(next == base + dummy_cells(link, ranks, max_span));
    assert(cells_of(ranks, links, max_span, 0) == box_cells(ranks));
    assert forall|k: int| 0 <= k < route.len() implies #[trigger] route[k] < cells.len() by {}
    assert forall|k: int| 0 < k <= d implies cells[(#[trigger] route[k]) as int]
        == dummy_cells(link, ranks, max_span)[k - 1] by {
        assert(next[base.len() + k - 1] == dummy_cells(link, ranks, max_span)[k - 1]);
    }
    assert(cells[link.from as int] == box_cells(ranks)[link.from as int]);
    assert(cells[link.to as int] == box_cells(ranks)[link.to as int]);
}

/// The rank of every cell is that of a box or above it.
pub(crate) proof fn lemma_cell_ranks(
    ranks: Seq<usize>,
    links: Seq<Link>,
    max_span: usize,
    n: nat,
)
    requires
        n <= links.len(),
        ranks::links_within(links, ranks.len()),
        forall|i: int| 0 <= i < ranks.len() ==> #[trigger] ranks[i] < usize::MAX,
    ensures
        forall|c: int|
            0 <= c < cells_of(ranks, links, max_span, n).len() ==> (#[trigger] cells_of(
                ranks,
                links,
                max_span,
                n,
            )[c]).rank < usize::MAX,
    decreases n,
{
    if n > 0 {
        lemma_cell_ranks(ranks, links, max_span, (n - 1) as nat);
        let before = cells_of(ranks, links, max_span, (n - 1) as nat);
        let more = dummy_cells(links[n - 1], ranks, max_span);
        assert(links[n - 1].to < ranks.len());
        assert(ranks[links[n - 1].to as int] < usize::MAX);
        assert forall|c: int| 0 <= c < (before + more).len() implies (#[trigger] (before
            + more)[c]).rank < usize::MAX by {
            if c < before.len() {
                assert((before + more)[c] == before[c]);
            } else {
                assert((before + more)[c] == more[c - before.len()]);
            }
        }
    }
}

proof fn lemma_steps_within(routes: Seq<Seq<usize>>, count: nat, n: nat)
    requires
        n <= routes.len(),
        routes_within(routes, count),
        forall|j: int| 0 <= j < routes.len() ==> (#[trigger] routes[j]).len() > 0,
    ensures
        forall|k: int|
            0 <= k < all_steps(routes, n).len() ==> (#[trigger] all_steps(routes, n)[k]).0 < count
                && all_steps(routes, n)[k].1 < count,
    decreases n,
{
    if n > 0 {
        lemma_steps_within(routes, count, (n - 1) as nat);
        let before = all_steps(routes, (n - 1) as nat);
        let route = routes[n - 1];
        let more = steps_of(route);
        assert forall|k: int| 0 <= k < (before + more).len() implies (#[trigger] (before
            + more)[k]).0 < count && (before + more)[k].1 < count by {
            if k < before.len() {
                assert((before + more)[k] == before[k]);
            } else {
                let i = k - before.len();
                assert((before + more)[k] == more[i]);
                assert(routes[n - 1].len() > 0);
                assert(routes[n - 1][i] < count);
                assert(routes[n - 1][i + 1] < count);
            }
        }
    }
}

proof fn lemma_neighbours_within(
    cells: Seq<Cell>,
    steps: Seq<(usize, usize)>,
    count: nat,
    c: int,
    n: nat,
)
    requires
        n <= steps.len(),
        forall|k: int| 0 <= k < steps.len() ==> (#[trigger] steps[k]).0 < count && steps[k].1 < count,
    ensures
        forall|k: int|
            0 <= k < above(cells, steps, c, n).len() ==> #[trigger] above(cells, steps, c, n)[k]
                < count,
        forall|k: int|
            0 <= k < below(cells, steps, c, n).len() ==> #[trigger] below(cells, steps, c, n)[k]
                < count,
    decreases n,
{
    if n > 0 {
        lemma_neighbours_within(cells, steps, count, c, (n - 1) as nat);
        let up = above(cells, steps, c, (n - 1) as nat);
        let down = below(cells, steps, c, (n - 1) as nat);
        assert(steps[n - 1].0 < count && steps[n - 1].1 < count);
        let up_after = above(cells, steps, c, n);
        let down_after = below(cells, steps, c, n);
        assert forall|k: int| 0 <= k < up_after.len() implies #[trigger] up_after[k] < count by {
            if k < up.len() {
                assert(up_after[k] == up[k]);
            }
        }
        assert forall|k: int| 0 <= k < down_after.len() implies #[trigger] down_after[k] < count by {
            if k < down.len() {
                assert(down_after[k] == down[k]);
            }
        }
    }
}

/// The neighbours of cells are cells.
pub(crate) proof fn lemma_adjacent_within(cells: Seq<Cell>, routes: Seq<Seq<usize>>)
    requires
        routes_within(routes, cells.len()),
        forall|j: int| 0 <= j < routes.len() ==> (#[trigger] routes[j]).len() > 0,
    ensures
        forall|c: int, k: int|
            0 <= c < cells.len() && 0 <= k < preds_of(cells, routes)[c].len()
                ==> #[trigger] preds_of(cells, routes)[c][k] < cells.len(),
        forall|c: int, k: int|
            0 <= c < cells.len() && 0 <= k < succs_of(cells, routes)[c].len()
                ==> #[trigger] succs_of(cells, routes)[c][k] < cells.len(),
{
    let steps = all_steps(routes, routes.len());
    lemma_steps_within(routes, cells.len(), routes.len());
    assert forall|c: int, k: int|
        0 <= c < cells.len() && 0 <= k < preds_of(cells, routes)[c].len() implies #[trigger] preds_of(
        cells, routes)[c][k] < cells.len() by {
        lemma_neighbours_within(cells, steps, cells.len(), c, steps.len());
    }
    assert forall|c: int, k: int|
        0 <= c < cells.len() && 0 <= k < succs_of(cells, routes)[c].len() implies #[trigger] succs_of(
        cells, routes)[c][k] < cells.len() by {
        lemma_neighbours_within(cells, steps, cells.len(), c, steps.len());
    }
}

} // verus!
