//! What sorting ranks by their neighbours does to an arrangement.

use crate::crossings;
use crate::ordering::{self, Arrangement};
use crate::routing::Cell;
use crate::sorting;
use crate::tally;
use vstd::prelude::*;

verus! {

/// How many of the listed cells are left of the position `a`.
pub open spec fn left_of(orders: Seq<usize>, list: Seq<usize>, a: int) -> int {
    tally::sum(list.len(), |k: int| tally::one(orders[list[k] as int] < a))
}

/// How many of the listed cells are left of the position `a` or at it.
pub open spec fn up_to(orders: Seq<usize>, list: Seq<usize>, a: int) -> int {
    tally::sum(list.len(), |k: int| tally::one(orders[list[k] as int] <= a))
}

/// Whether `a` is the position of the cell number `j` from the left, counting
/// from zero.
pub open spec fn is_nth(orders: Seq<usize>, list: Seq<usize>, j: int, a: int) -> bool {
    left_of(orders, list, a) <= j < up_to(orders, list, a)
}

/// Whether `m` is twice the median position of the listed cells: the sum of the
/// two in the middle, which are the same one where their number is odd.
pub open spec fn is_double_median(orders: Seq<usize>, list: Seq<usize>, m: int) -> bool {
    exists|a: int, b: int| #[trigger]
        is_nth(orders, list, (list.len() - 1) / 2, a) && #[trigger] is_nth(
            orders,
            list,
            list.len() as int / 2,
            b,
        ) && m == a + b
}

/// A sum over a sequence with one item left out.
proof fn lemma_sum_removed(s: Seq<(u128, usize)>, i: int, g: spec_fn((u128, usize)) -> int, n: nat)
    requires
        0 <= i < n <= s.len(),
    ensures
        tally::sum(n, |k: int| g(s[k])) == tally::sum(
            (n - 1) as nat,
            |k: int| g(s.remove(i)[k]),
        ) + g(s[i]),
    decreases n,
{
    let t = s.remove(i);
    let f = |k: int| g(s[k]);
    let h = |k: int| g(t[k]);
    if i == n - 1 {
        assert forall|k: int| 0 <= k < n - 1 implies #[trigger] f(k) == h(k) by {}
        tally::lemma_sum_same((n - 1) as nat, f, h);
    } else {
        lemma_sum_removed(s, i, g, (n - 1) as nat);
        assert(t[n - 2] == s[n - 1]);
        assert(h(n - 2) == f(n - 1));
        assert(tally::sum((n - 1) as nat, h) == tally::sum((n - 2) as nat, h) + h(n - 2));
    }
}

/// A sum over a sequence does not depend on its order.
proof fn lemma_sum_reordered(
    s: Seq<(u128, usize)>,
    t: Seq<(u128, usize)>,
    g: spec_fn((u128, usize)) -> int,
)
    requires
        s.to_multiset() == t.to_multiset(),
    ensures
        s.len() == t.len(),
        tally::sum(s.len(), |k: int| g(s[k])) == tally::sum(t.len(), |k: int| g(t[k])),
    decreases s.len(),
{
    broadcast use vstd::seq_lib::group_to_multiset_ensures;

    assert(s.to_multiset().len() == s.len());
    assert(t.to_multiset().len() == t.len());
    if s.len() > 0 {
        let x = s.last();
        let n = s.len();
        assert(s.contains(x));
        assert(t.to_multiset().count(x) > 0);
        assert(t.contains(x));
        let i = t.index_of(x);
        let u = s.remove(n - 1);
        let v = t.remove(i);
        assert(u.to_multiset() =~= s.to_multiset().remove(x));
        assert(v.to_multiset() =~= t.to_multiset().remove(x));
        lemma_sum_reordered(u, v, g);
        lemma_sum_removed(s, n - 1, g, n);
        lemma_sum_removed(t, i, g, n);
    }
}

proof fn lemma_sum_small(n: nat, f: spec_fn(int) -> int, j: int)
    requires
        forall|k: int| 0 <= k < n ==> 0 <= #[trigger] f(k) <= 1,
    ensures
        (forall|k: int| j <= k < n ==> #[trigger] f(k) == 0) && 0 <= j ==> tally::sum(n, f) <= j,
        (forall|k: int| 0 <= k <= j ==> #[trigger] f(k) == 1) && j < n ==> tally::sum(n, f) > j,
        0 <= tally::sum(n, f) <= n,
        (forall|k: int| 0 <= k < n ==> #[trigger] f(k) == 1) ==> tally::sum(n, f) == n,
    decreases n,
{
    if n > 0 {
        lemma_sum_small((n - 1) as nat, f, j);
        assert(0 <= f(n - 1) <= 1);
        if (forall|k: int| 0 <= k <= j ==> #[trigger] f(k) == 1) && j == n - 1 {
            assert(forall|k: int| 0 <= k < n - 1 ==> #[trigger] f(k) == 1);
            assert(f(n - 1) == 1);
        }
        if (forall|k: int| j <= k < n ==> #[trigger] f(k) == 0) && 0 <= j && j <= n - 1 {
            assert(f(n - 1) == 0);
        }
    }
}

/// The pair at `j` of the sorted positions has the position number `j`.
proof fn lemma_nth_sorted(orders: Seq<usize>, list: Seq<usize>, j: int)
    requires
        list.len() <= usize::MAX,
        0 <= j < list.len(),
    ensures
        is_nth(
            orders,
            list,
            j,
            sorting::sorted_pairs(ordering::orders_of(orders, list))[j].0 as int,
        ),
{
    let keys = ordering::orders_of(orders, list);
    let sorted = sorting::sorted_pairs(keys);
    sorting::lemma_sorted_pairs(keys);
    let a = sorted[j].0;
    let n = list.len();
    let below = |x: (u128, usize)| tally::one(x.0 < a);
    let upto = |x: (u128, usize)| tally::one(x.0 <= a);
    lemma_sum_reordered(keys, sorted, below);
    lemma_sum_reordered(keys, sorted, upto);
    let f = |k: int| below(sorted[k]);
    let g = |k: int| upto(sorted[k]);
    assert forall|k: int| j <= k < n implies #[trigger] f(k) == 0 by {
        assert(sorting::pair_le(sorted[j], sorted[k]));
    }
    assert forall|k: int| 0 <= k <= j implies #[trigger] g(k) == 1 by {
        assert(sorting::pair_le(sorted[k], sorted[j]));
    }
    lemma_sum_small(n, f, j);
    lemma_sum_small(n, g, j);
    tally::lemma_sum_same(
        n,
        |k: int| below(keys[k]),
        |k: int| tally::one(orders[list[k] as int] < a as int),
    );
    tally::lemma_sum_same(
        n,
        |k: int| upto(keys[k]),
        |k: int| tally::one(orders[list[k] as int] <= a as int),
    );
}

/// A cell is sorted by twice the median position of its neighbours, and by twice
/// its own position where it has none.
pub proof fn law_cells_follow_their_median(orders: Seq<usize>, list: Seq<usize>, position: int)
    requires
        list.len() <= usize::MAX,
        0 <= position <= usize::MAX,
    ensures
        list.len() == 0 ==> ordering::double_median(orders, list, position) == 2 * position,
        list.len() > 0 ==> is_double_median(
            orders,
            list,
            ordering::double_median(orders, list, position) as int,
        ),
{
    if list.len() > 0 {
        let keys = ordering::orders_of(orders, list);
        let sorted = sorting::sorted_pairs(keys);
        let n = list.len() as int;
        let low = (n - 1) / 2;
        let high = n / 2;
        lemma_nth_sorted(orders, list, low);
        lemma_nth_sorted(orders, list, high);
        ordering::lemma_sorted_places(keys);
        assert(keys[sorted[low].1 as int] == sorted[low]);
        assert(keys[sorted[high].1 as int] == sorted[high]);
        let a = sorted[low].0 as int;
        let b = sorted[high].0 as int;
        assert(a <= usize::MAX && b <= usize::MAX);
        if n % 2 == 1 {
            assert(low == high);
        } else {
            assert(low == high - 1);
        }
        assert(is_nth(orders, list, low, a) && is_nth(orders, list, high, b));
    }
}

/// What the cells of a rank are compared by: twice the median position of their
/// neighbours, with the positions that these have now.
pub open spec fn pull(
    now: Seq<usize>,
    was: Seq<usize>,
    neighbours: Seq<Seq<usize>>,
    c: int,
) -> int {
    ordering::double_median(now, neighbours[c], was[c] as int) as int
}

/// Whether the cells of a rank stand in the order of their pull, those with the
/// same pull as they stood before.
pub open spec fn follows_pull(
    now: Seq<usize>,
    was: Seq<usize>,
    neighbours: Seq<Seq<usize>>,
    list: Seq<usize>,
) -> bool {
    forall|p: int, q: int|
        0 <= p < q < list.len() ==> {
            let x = (#[trigger] list[p]) as int;
            let y = (#[trigger] list[q]) as int;
            ||| pull(now, was, neighbours, x) < pull(now, was, neighbours, y)
            ||| pull(now, was, neighbours, x) == pull(now, was, neighbours, y) && was[x] < was[y]
        }
}

proof fn lemma_median_same(
    now: Seq<usize>,
    then: Seq<usize>,
    list: Seq<usize>,
    position: int,
)
    requires
        forall|k: int|
            0 <= k < list.len() ==> now[(#[trigger] list[k]) as int] == then[list[k] as int],
    ensures
        ordering::double_median(now, list, position) == ordering::double_median(
            then,
            list,
            position,
        ),
{
    assert(ordering::orders_of(now, list) =~= ordering::orders_of(then, list));
}

/// Sorting a rank puts its cells in the order of their pull and moves no other
/// cell.
proof fn lemma_sorted_rank(a: Arrangement, neighbours: Seq<Seq<usize>>, r: int, cells: Seq<Cell>)
    requires
        ordering::places_all(a, cells),
        cells.len() <= usize::MAX,
        0 <= r < a.members.len(),
    ensures
        ({
            let b = ordering::sort_rank(a, neighbours, r);
            &&& ordering::places_all(b, cells)
            &&& b.members.len() == a.members.len()
            &&& forall|s: int| 0 <= s < a.members.len() && s != r ==> #[trigger] b.members[s]
                == a.members[s]
            &&& forall|c: int|
                0 <= c < cells.len() && cells[c].rank != r ==> #[trigger] b.orders[c]
                    == a.orders[c]
            &&& follows_pull(a.orders, a.orders, neighbours, b.members[r])
        }),
{
    let b = ordering::sort_rank(a, neighbours, r);
    ordering::lemma_sort_rank_places(a, neighbours, r, cells);
    let list = a.members[r];
    let new_list = b.members[r];
    let keys = ordering::sort_keys(a.orders, neighbours, list);
    let sorted = sorting::sorted_pairs(keys);
    ordering::lemma_rank_lists_distinct(a, cells, r);
    ordering::lemma_distinct_len(list, cells.len());
    ordering::lemma_sorted_places(keys);
    sorting::lemma_sorted_pairs(keys);
    assert(new_list == ordering::sorted_rank(a.orders, neighbours, list));
    assert forall|c: int| 0 <= c < cells.len() && cells[c].rank != r implies #[trigger] b.orders[c]
        == a.orders[c] by {
        let s = cells[c].rank as int;
        let order = a.orders[c];
        ordering::lemma_rank_in_range(a, cells, c);
        assert(a.members[s][order as int] == c);
        assert(b.members[s] == a.members[s]);
        assert(b.orders[b.members[s][order as int] as int] == order);
    }
    assert forall|p: int, q: int| 0 <= p < q < new_list.len() implies {
        let x = (#[trigger] new_list[p]) as int;
        let y = (#[trigger] new_list[q]) as int;
        ||| pull(a.orders, a.orders, neighbours, x) < pull(a.orders, a.orders, neighbours, y)
        ||| pull(a.orders, a.orders, neighbours, x) == pull(a.orders, a.orders, neighbours, y)
            && a.orders[x] < a.orders[y]
    } by {
        let i = sorted[p].1 as int;
        let j = sorted[q].1 as int;
        assert(keys[i] == sorted[p] && keys[j] == sorted[q]);
        assert(sorting::pair_le(sorted[p], sorted[q]));
        assert(sorted[p].1 != sorted[q].1);
        assert(a.orders[a.members[r][i] as int] == i);
        assert(a.orders[a.members[r][j] as int] == j);
    }
}

/// Whether the neighbours of every cell are cells of the rank that lies `step`
/// below it.
pub open spec fn beside(cells: Seq<Cell>, neighbours: Seq<Seq<usize>>, step: int) -> bool {
    &&& neighbours.len() == cells.len()
    &&& forall|c: int, k: int|
        0 <= c < cells.len() && 0 <= k < neighbours[c].len() ==> {
            let d = #[trigger] neighbours[c][k];
            d < cells.len() && cells[d as int].rank == cells[c].rank + step
        }
}

/// Whether a sweep leads from one arrangement to the other: the cells of every
/// rank from `from` up to `to` stand in the order of their pull, that of
/// neighbours that have been swept already, and the others as before.
pub open spec fn swept(
    was: Arrangement,
    now: Arrangement,
    neighbours: Seq<Seq<usize>>,
    from: int,
    to: int,
) -> bool {
    &&& now.members.len() == was.members.len()
    &&& forall|r: int|
        0 <= r < was.members.len() && !(from <= r < to) ==> #[trigger] now.members[r]
            == was.members[r]
    &&& forall|r: int|
        from <= r < to ==> follows_pull(
            now.orders,
            was.orders,
            neighbours,
            #[trigger] now.members[r],
        )
}

/// What one more rank adds to a sweep.
proof fn lemma_sweep_step(
    was: Arrangement,
    before: Arrangement,
    neighbours: Seq<Seq<usize>>,
    r: int,
    from: int,
    to: int,
    step: int,
    cells: Seq<Cell>,
)
    requires
        ordering::places_all(was, cells),
        ordering::places_all(before, cells),
        cells.len() <= usize::MAX,
        beside(cells, neighbours, step),
        0 <= r < was.members.len(),
        swept(was, before, neighbours, from, to),
        0 <= from <= to <= was.members.len(),
        forall|c: int|
            0 <= c < cells.len() && !(from <= cells[c].rank < to) ==> #[trigger] before.orders[c]
                == was.orders[c],
        (step == -1 && r == to) || (step == 1 && r == from - 1),
    ensures
        ({
            let now = ordering::sort_rank(before, neighbours, r);
            let lo = if step == -1 {
                from
            } else {
                r
            };
            let hi = if step == -1 {
                r + 1
            } else {
                to
            };
            &&& ordering::places_all(now, cells)
            &&& swept(was, now, neighbours, lo, hi)
            &&& forall|c: int|
                0 <= c < cells.len() && !(lo <= cells[c].rank < hi) ==> #[trigger] now.orders[c]
                    == was.orders[c]
        }),
{
    let now = ordering::sort_rank(before, neighbours, r);
    lemma_sorted_rank(before, neighbours, r, cells);
    let lo = if step == -1 {
        from
    } else {
        r
    };
    let hi = if step == -1 {
        r + 1
    } else {
        to
    };
    assert forall|c: int| 0 <= c < cells.len() && !(lo <= cells[c].rank < hi) implies #[trigger] now.orders[c]
        == was.orders[c] by {
        assert(now.orders[c] == before.orders[c]);
        assert(before.orders[c] == was.orders[c]);
    }
    assert forall|s: int| lo <= s < hi implies follows_pull(
        now.orders,
        was.orders,
        neighbours,
        #[trigger] now.members[s],
    ) by {
        let list = now.members[s];
        assert forall|p: int| 0 <= p < list.len() implies pull(
            now.orders,
            was.orders,
            neighbours,
            (#[trigger] list[p]) as int,
        ) == pull(
            before.orders,
            if s == r {
                before.orders
            } else {
                was.orders
            },
            neighbours,
            list[p] as int,
        ) && (s == r ==> before.orders[list[p] as int] == was.orders[list[p] as int]) by {
            let c = now.members[s][p] as int;
            assert(cells[c].rank == s);
            if s == r {
                assert(before.orders[c] == was.orders[c]);
            }
            assert forall|k: int| 0 <= k < neighbours[c].len() implies now.orders[(
            #[trigger] neighbours[c][k]) as int] == before.orders[neighbours[c][k] as int] by {
                let d = neighbours[c][k];
                assert(cells[d as int].rank == s + step);
                assert(cells[d as int].rank != r);
                assert(now.orders[d as int] == before.orders[d as int]);
            }
            lemma_median_same(
                now.orders,
                before.orders,
                neighbours[c],
                was.orders[c] as int,
            );
        }
        if s == r {
            assert(follows_pull(before.orders, before.orders, neighbours, now.members[r]));
        } else {
            assert(now.members[s] == before.members[s]);
            assert(follows_pull(before.orders, was.orders, neighbours, before.members[s]));
        }
    }
}

proof fn lemma_swept_down(a: Arrangement, neighbours: Seq<Seq<usize>>, n: nat, cells: Seq<Cell>)
    requires
        ordering::places_all(a, cells),
        cells.len() <= usize::MAX,
        beside(cells, neighbours, -1),
        1 <= n <= a.members.len(),
    ensures
        ordering::places_all(ordering::swept_down(a, neighbours, n), cells),
        swept(a, ordering::swept_down(a, neighbours, n), neighbours, 1, n as int),
        forall|c: int|
            0 <= c < cells.len() && !(1 <= cells[c].rank < n) ==> #[trigger] ordering::swept_down(
                a,
                neighbours,
                n,
            ).orders[c] == a.orders[c],
    decreases n,
{
    if n > 1 {
        lemma_swept_down(a, neighbours, (n - 1) as nat, cells);
        lemma_sweep_step(
            a,
            ordering::swept_down(a, neighbours, (n - 1) as nat),
            neighbours,
            n - 1,
            1,
            n - 1,
            -1,
            cells,
        );
    }
}

proof fn lemma_swept_up(a: Arrangement, neighbours: Seq<Seq<usize>>, n: nat, cells: Seq<Cell>)
    requires
        ordering::places_all(a, cells),
        cells.len() <= usize::MAX,
        beside(cells, neighbours, 1),
        1 <= n <= a.members.len(),
    ensures
        ordering::places_all(ordering::swept_up(a, neighbours, n), cells),
        swept(
            a,
            ordering::swept_up(a, neighbours, n),
            neighbours,
            a.members.len() - n,
            a.members.len() - 1,
        ),
        forall|c: int|
            0 <= c < cells.len() && !(a.members.len() - n <= cells[c].rank < a.members.len() - 1)
                ==> #[trigger] ordering::swept_up(a, neighbours, n).orders[c] == a.orders[c],
    decreases n,
{
    if n > 1 {
        lemma_swept_up(a, neighbours, (n - 1) as nat, cells);
        lemma_sweep_step(
            a,
            ordering::swept_up(a, neighbours, (n - 1) as nat),
            neighbours,
            a.members.len() - n,
            a.members.len() - n + 1,
            a.members.len() - 1,
            1,
            cells,
        );
    }
}

proof fn lemma_neighbours_beside(cells: Seq<Cell>, steps: Seq<(usize, usize)>)
    requires
        crossings::neat(cells, steps),
    ensures
        beside(cells, crossings::uppers(cells, steps), -1),
        beside(cells, crossings::lowers(cells, steps), 1),
{
    let up = crossings::uppers(cells, steps);
    let down = crossings::lowers(cells, steps);
    assert forall|c: int, k: int| 0 <= c < cells.len() && 0 <= k < up[c].len() implies {
        let d = #[trigger] up[c][k];
        d < cells.len() && cells[d as int].rank == cells[c].rank - 1
    } by {
        lemma_one_beside(cells, steps, c, steps.len());
    }
    assert forall|c: int, k: int| 0 <= c < cells.len() && 0 <= k < down[c].len() implies {
        let d = #[trigger] down[c][k];
        d < cells.len() && cells[d as int].rank == cells[c].rank + 1
    } by {
        lemma_one_beside(cells, steps, c, steps.len());
    }
}

proof fn lemma_one_beside(cells: Seq<Cell>, steps: Seq<(usize, usize)>, c: int, n: nat)
    requires
        crossings::neat(cells, steps),
        n <= steps.len(),
        0 <= c < cells.len(),
    ensures
        ({
            let up = crate::routing::above(cells, steps, c, n);
            let down = crate::routing::below(cells, steps, c, n);
            &&& forall|k: int|
                0 <= k < up.len() ==> {
                    let d = #[trigger] up[k];
                    d < cells.len() && cells[d as int].rank == cells[c].rank - 1
                }
            &&& forall|k: int|
                0 <= k < down.len() ==> {
                    let d = #[trigger] down[k];
                    d < cells.len() && cells[d as int].rank == cells[c].rank + 1
                }
        }),
    decreases n,
{
    if n > 0 {
        lemma_one_beside(cells, steps, c, (n - 1) as nat);
        let step = steps[n - 1];
        assert(crossings::descends(cells, step) ==> cells[step.1 as int].rank
            == cells[step.0 as int].rank + 1);
        let held_up = crate::routing::above(cells, steps, c, (n - 1) as nat);
        let held_down = crate::routing::below(cells, steps, c, (n - 1) as nat);
        let up = crate::routing::above(cells, steps, c, n);
        let down = crate::routing::below(cells, steps, c, n);
        assert forall|k: int| 0 <= k < up.len() implies {
            let d = #[trigger] up[k];
            d < cells.len() && cells[d as int].rank == cells[c].rank - 1
        } by {
            if k < held_up.len() {
                assert(up[k] == held_up[k]);
            }
        }
        assert forall|k: int| 0 <= k < down.len() implies {
            let d = #[trigger] down[k];
            d < cells.len() && cells[d as int].rank == cells[c].rank + 1
        } by {
            if k < held_down.len() {
                assert(down[k] == held_down[k]);
            }
        }
    }
}

/// Whether one more iteration leads from one arrangement to the other: a sweep
/// downwards or upwards, and then swaps that take crossings away, four times
/// over unless nothing is left to improve.
pub open spec fn improved_by(
    cells: Seq<Cell>,
    steps: Seq<(usize, usize)>,
    was: Arrangement,
    mid: Arrangement,
    now: Arrangement,
    downward: bool,
) -> bool {
    let ranks = was.members.len() as int;
    &&& ordering::places_all(mid, cells)
    &&& ordering::places_all(now, cells)
    &&& downward ==> swept(was, mid, crossings::uppers(cells, steps), 1, ranks)
    &&& !downward ==> swept(was, mid, crossings::lowers(cells, steps), 0, ranks - 1)
    &&& crossings::crossings(cells, steps, now.orders) <= crossings::crossings(
        cells,
        steps,
        mid.orders,
    )
    &&& crossings::can_improve(cells, steps, mid) ==> crossings::crossings(cells, steps, now.orders)
        < crossings::crossings(cells, steps, mid.orders)
    &&& !crossings::can_improve(cells, steps, mid) ==> now == mid
    &&& crossings::can_improve(cells, steps, now) ==> crossings::crossings(cells, steps, now.orders)
        + 4 <= crossings::crossings(cells, steps, mid.orders)
}

/// Cells start out in every rank in the order in which they were made. Each
/// iteration then sweeps once, every other one upwards, and swaps neighbours
/// where that takes crossings away.
pub proof fn law_iterations_sweep_and_swap(
    cells: Seq<Cell>,
    steps: Seq<(usize, usize)>,
    n: nat,
)
    requires
        cells.len() <= usize::MAX,
        crossings::neat(cells, steps),
    ensures
        ({
            let first = ordering::first_arrangement(cells);
            let up = crossings::uppers(cells, steps);
            let down = crossings::lowers(cells, steps);
            let was = ordering::arranged(first, up, down, n);
            let now = ordering::arranged(first, up, down, n + 1);
            let downward = n % 2 == 0;
            &&& ordering::arranged(first, up, down, 0) == first
            &&& ordering::places_all(was, cells)
            &&& exists|mid: Arrangement| #[trigger]
                improved_by(cells, steps, was, mid, now, downward)
        }),
        forall|r: int, p: int, q: int|
            0 <= r < ordering::first_arrangement(cells).members.len() && 0 <= p < q
                < ordering::first_arrangement(cells).members[r].len()
                ==> #[trigger] ordering::first_arrangement(cells).members[r][p]
                < #[trigger] ordering::first_arrangement(cells).members[r][q],
{
    let first = ordering::first_arrangement(cells);
    let up = crossings::uppers(cells, steps);
    let down = crossings::lowers(cells, steps);
    let was = ordering::arranged(first, up, down, n);
    let now = ordering::arranged(first, up, down, n + 1);
    let ranks = was.members.len();
    ordering::law_ordering_keeps_ranks(cells, up, down, n);
    lemma_neighbours_beside(cells, steps);
    let mid = if n % 2 == 0 {
        ordering::swept_down(was, up, ranks)
    } else {
        ordering::swept_up(was, down, ranks)
    };
    if ranks > 0 {
        if n % 2 == 0 {
            lemma_swept_down(was, up, ranks, cells);
        } else {
            lemma_swept_up(was, down, ranks, cells);
        }
    }
    crossings::law_swaps_take_crossings_away(cells, steps, mid, 4);
    let downward = n % 2 == 0;
    assert(improved_by(cells, steps, was, mid, now, downward));
    assert forall|r: int, p: int, q: int|
        0 <= r < first.members.len() && 0 <= p < q < first.members[r].len() implies #[trigger] first.members[r][p]
        < #[trigger] first.members[r][q] by {
        ordering::lemma_cells_in(cells, r, cells.len());
        assert(first.members[r] == ordering::cells_in(cells, r, cells.len()));
    }
}

proof fn lemma_cells_in_order(cells: Seq<Cell>, r: int, n: nat)
    requires
        n <= cells.len() <= usize::MAX,
    ensures
        forall|i: int|
            0 <= i < ordering::cells_in(cells, r, n).len() ==> #[trigger] ordering::cells_in(
                cells,
                r,
                n,
            )[i] < n,
        forall|i: int, j: int|
            0 <= i < j < ordering::cells_in(cells, r, n).len() ==> #[trigger] ordering::cells_in(
                cells,
                r,
                n,
            )[i] < #[trigger] ordering::cells_in(cells, r, n)[j],
    decreases n,
{
    if n > 0 {
        lemma_cells_in_order(cells, r, (n - 1) as nat);
        let before = ordering::cells_in(cells, r, (n - 1) as nat);
        let list = ordering::cells_in(cells, r, n);
        assert forall|i: int| 0 <= i < list.len() implies #[trigger] list[i] < n by {
            if i < before.len() {
                assert(before[i] < n - 1);
            }
        }
        assert forall|i: int, j: int| 0 <= i < j < list.len() implies #[trigger] list[i]
            < #[trigger] list[j] by {
            assert(before[i] < n - 1);
            if j < before.len() {
                assert(before[i] < before[j]);
            }
        }
    }
}

/// Before anything is sorted every cell stands in its rank, and the cells of a
/// rank stand in the order in which they were made.
pub proof fn law_cells_start_in_their_order(cells: Seq<Cell>, c: int, d: int)
    requires
        cells.len() <= usize::MAX,
        0 <= c < d < cells.len(),
        cells[c].rank == cells[d].rank,
    ensures
        ({
            let first = ordering::first_arrangement(cells);
            let rank = cells[c].rank as int;
            &&& first.orders.len() == cells.len()
            &&& rank < first.members.len()
            &&& first.orders[c] < first.orders[d] < first.members[rank].len()
            &&& first.members[rank][first.orders[c] as int] == c
            &&& first.members[rank][first.orders[d] as int] == d
        }),
{
    let first = ordering::first_arrangement(cells);
    let rank = cells[c].rank as int;
    ordering::law_ordering_keeps_ranks(cells, Seq::empty(), Seq::empty(), 0);
    lemma_cells_in_order(cells, rank, cells.len());
    assert(first.orders[c] < first.members[rank].len());
    assert(first.orders[d] < first.members[rank].len());
    ordering::lemma_rank_in_range(first, cells, c);
    assert(first.members[rank] == ordering::cells_in(cells, rank, cells.len()));
    let list = first.members[rank];
    if first.orders[d] < first.orders[c] {
        assert(list[first.orders[d] as int] < list[first.orders[c] as int]);
    }
}

} // verus!
