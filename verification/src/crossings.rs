//! Counting where the edges of an arrangement cross, and what swapping
//! neighbours does to that number.

use crate::ordering::{self, Arrangement};
use crate::routing::{self, Cell};
use crate::tally;
use vstd::prelude::*;

verus! {

/// Whether a step leads down.
pub open spec fn descends(cells: Seq<Cell>, step: (usize, usize)) -> bool {
    cells[step.0 as int].rank < cells[step.1 as int].rank
}

/// Whether two steps that run down between the same two ranks cross: the first
/// starts left of the second and ends right of it.
pub open spec fn cross(
    cells: Seq<Cell>,
    orders: Seq<usize>,
    s: (usize, usize),
    t: (usize, usize),
) -> bool {
    &&& descends(cells, s)
    &&& cells[s.0 as int].rank == cells[t.0 as int].rank
    &&& cells[s.1 as int].rank == cells[t.1 as int].rank
    &&& orders[s.0 as int] < orders[t.0 as int]
    &&& orders[s.1 as int] > orders[t.1 as int]
}

/// How many of the steps cross the step `i`, which starts left of them.
pub open spec fn crossings_with(
    cells: Seq<Cell>,
    steps: Seq<(usize, usize)>,
    orders: Seq<usize>,
    i: int,
) -> int {
    tally::sum(steps.len(), |j: int| tally::one(cross(cells, orders, steps[i], steps[j])))
}

/// The number of pairs of steps that cross.
pub open spec fn crossings(
    cells: Seq<Cell>,
    steps: Seq<(usize, usize)>,
    orders: Seq<usize>,
) -> int {
    tally::sum(steps.len(), |i: int| crossings_with(cells, steps, orders, i))
}

/// Whether every step is between cells, and leads down by one rank if at all.
pub open spec fn neat(cells: Seq<Cell>, steps: Seq<(usize, usize)>) -> bool {
    forall|i: int|
        0 <= i < steps.len() ==> {
            let step = #[trigger] steps[i];
            step.0 < cells.len() && step.1 < cells.len() && (descends(cells, step)
                ==> cells[step.1 as int].rank == cells[step.0 as int].rank + 1)
        }
}

/// From where the steps lead down to each cell.
pub open spec fn uppers(cells: Seq<Cell>, steps: Seq<(usize, usize)>) -> Seq<Seq<usize>> {
    Seq::new(cells.len(), |c: int| routing::above(cells, steps, c, steps.len()))
}

/// Where the steps lead down to from each cell.
pub open spec fn lowers(cells: Seq<Cell>, steps: Seq<(usize, usize)>) -> Seq<Seq<usize>> {
    Seq::new(cells.len(), |c: int| routing::below(cells, steps, c, steps.len()))
}

/// A table of numbers.
spec fn row(f: spec_fn(int, int) -> int, m: nat) -> spec_fn(int) -> int {
    |i: int| tally::sum(m, |j: int| f(i, j))
}

spec fn column(f: spec_fn(int, int) -> int, n: nat) -> spec_fn(int) -> int {
    |j: int| tally::sum(n, |i: int| f(i, j))
}

/// A table adds up to the same by rows and by columns.
proof fn lemma_sum_exchange(n: nat, m: nat, f: spec_fn(int, int) -> int)
    ensures
        tally::sum(n, row(f, m)) == tally::sum(m, column(f, n)),
    decreases n,
{
    if n == 0 {
        assert forall|j: int| 0 <= j < m implies #[trigger] column(f, n)(j) == 0 by {}
        tally::lemma_sum_zero(m, column(f, n));
    } else {
        let k = (n - 1) as nat;
        lemma_sum_exchange(k, m, f);
        let last = |j: int| f(k as int, j);
        assert(row(f, m)(k as int) == tally::sum(m, last)) by {
            tally::lemma_sum_same(m, last, |j: int| f(k as int, j));
        }
        assert forall|j: int| 0 <= j < m implies #[trigger] column(f, n)(j) == column(f, k)(j)
            + last(j) by {
            let term = |i: int| f(i, j);
            assert(tally::sum(n, term) == tally::sum(k, term) + term(k as int));
        }
        tally::lemma_sum_add(m, column(f, k), last, column(f, n));
    }
}

proof fn lemma_tables_balance(
    n: nat,
    a: spec_fn(int, int) -> int,
    b: spec_fn(int, int) -> int,
    c: spec_fn(int, int) -> int,
    d: spec_fn(int, int) -> int,
    e: spec_fn(int, int) -> int,
    f: spec_fn(int, int) -> int,
)
    requires
        forall|i: int, j: int|
            0 <= i < n && 0 <= j < n ==> #[trigger] a(i, j) + b(i, j) + c(i, j) == d(i, j) + e(i, j)
                + f(i, j),
    ensures
        tally::sum(n, row(a, n)) + tally::sum(n, row(b, n)) + tally::sum(n, row(c, n)) == tally::sum(n, row(d, n)) + tally::sum(
            n,
            row(e, n),
        ) + tally::sum(n, row(f, n)),
{
    assert forall|i: int| 0 <= i < n implies #[trigger] row(a, n)(i) + row(b, n)(i) + row(c, n)(i)
        == row(d, n)(i) + row(e, n)(i) + row(f, n)(i) by {
        lemma_rows_balance(
            n,
            |j: int| a(i, j),
            |j: int| b(i, j),
            |j: int| c(i, j),
            |j: int| d(i, j),
            |j: int| e(i, j),
            |j: int| f(i, j),
        );
    }
    lemma_rows_balance(n, row(a, n), row(b, n), row(c, n), row(d, n), row(e, n), row(f, n));
}

proof fn lemma_rows_balance(
    n: nat,
    a: spec_fn(int) -> int,
    b: spec_fn(int) -> int,
    c: spec_fn(int) -> int,
    d: spec_fn(int) -> int,
    e: spec_fn(int) -> int,
    f: spec_fn(int) -> int,
)
    requires
        forall|i: int|
            0 <= i < n ==> #[trigger] a(i) + b(i) + c(i) == d(i) + e(i) + f(i),
    ensures
        tally::sum(n, a) + tally::sum(n, b) + tally::sum(n, c) == tally::sum(n, d) + tally::sum(n, e) + tally::sum(n, f),
    decreases n,
{
    if n > 0 {
        lemma_rows_balance((n - 1) as nat, a, b, c, d, e, f);
        assert(a(n - 1) + b(n - 1) + c(n - 1) == d(n - 1) + e(n - 1) + f(n - 1));
    }
}

proof fn lemma_crossings_of_longer(
    orders: Seq<usize>,
    l: usize,
    right: Seq<usize>,
    more: usize,
    n: nat,
)
    requires
        n <= right.len(),
    ensures
        ordering::crossings_of(orders, l, right.push(more), n) == ordering::crossings_of(
            orders,
            l,
            right,
            n,
        ),
    decreases n,
{
    if n > 0 {
        lemma_crossings_of_longer(orders, l, right, more, (n - 1) as nat);
    }
}

proof fn lemma_between_longer(
    orders: Seq<usize>,
    left: Seq<usize>,
    more: usize,
    right: Seq<usize>,
    n: nat,
)
    requires
        n <= left.len(),
    ensures
        ordering::crossings_between(orders, left.push(more), right, n)
            == ordering::crossings_between(orders, left, right, n),
    decreases n,
{
    if n > 0 {
        lemma_between_longer(orders, left, more, right, (n - 1) as nat);
    }
}

/// One where the step leads down to `c` from the left of `l`.
spec fn down_left_of(
    cells: Seq<Cell>,
    steps: Seq<(usize, usize)>,
    orders: Seq<usize>,
    l: usize,
    c: int,
) -> spec_fn(int) -> int {
    |j: int|
        tally::one(
            descends(cells, steps[j]) && steps[j].1 == c && orders[l as int]
                > orders[steps[j].0 as int],
        )
}

proof fn lemma_count_above(
    cells: Seq<Cell>,
    steps: Seq<(usize, usize)>,
    orders: Seq<usize>,
    l: usize,
    c: int,
    m: nat,
)
    requires
        m <= steps.len(),
    ensures
        ordering::crossings_of(
            orders,
            l,
            routing::above(cells, steps, c, m),
            routing::above(cells, steps, c, m).len(),
        ) == tally::sum(m, down_left_of(cells, steps, orders, l, c)),
    decreases m,
{
    if m > 0 {
        lemma_count_above(cells, steps, orders, l, c, (m - 1) as nat);
        let before = routing::above(cells, steps, c, (m - 1) as nat);
        if descends(cells, steps[m - 1]) && steps[m - 1].1 == c {
            lemma_crossings_of_longer(orders, l, before, steps[m - 1].0, before.len());
        }
    }
}

/// One where the step leads down from `c` to the left of `l`.
spec fn ends_left_of(
    cells: Seq<Cell>,
    steps: Seq<(usize, usize)>,
    orders: Seq<usize>,
    l: usize,
    c: int,
) -> spec_fn(int) -> int {
    |j: int|
        tally::one(
            descends(cells, steps[j]) && steps[j].0 == c && orders[l as int]
                > orders[steps[j].1 as int],
        )
}

proof fn lemma_count_below(
    cells: Seq<Cell>,
    steps: Seq<(usize, usize)>,
    orders: Seq<usize>,
    l: usize,
    c: int,
    m: nat,
)
    requires
        m <= steps.len(),
    ensures
        ordering::crossings_of(
            orders,
            l,
            routing::below(cells, steps, c, m),
            routing::below(cells, steps, c, m).len(),
        ) == tally::sum(m, ends_left_of(cells, steps, orders, l, c)),
    decreases m,
{
    if m > 0 {
        lemma_count_below(cells, steps, orders, l, c, (m - 1) as nat);
        let before = routing::below(cells, steps, c, (m - 1) as nat);
        if descends(cells, steps[m - 1]) && steps[m - 1].0 == c {
            lemma_crossings_of_longer(orders, l, before, steps[m - 1].1, before.len());
        }
    }
}

/// One where the step `i` leads down to `l` and the step `j` down to `r`, and
/// the first comes from further right.
spec fn meet_below(
    cells: Seq<Cell>,
    steps: Seq<(usize, usize)>,
    orders: Seq<usize>,
    l: int,
    r: int,
) -> spec_fn(int, int) -> int {
    |i: int, j: int|
        tally::one(
            descends(cells, steps[i]) && steps[i].1 == l && descends(cells, steps[j])
                && steps[j].1 == r && orders[steps[i].0 as int] > orders[steps[j].0 as int],
        )
}

/// One where the step `i` leads down from `l` and the step `j` down from `r`,
/// and the first ends further right.
spec fn meet_above(
    cells: Seq<Cell>,
    steps: Seq<(usize, usize)>,
    orders: Seq<usize>,
    l: int,
    r: int,
) -> spec_fn(int, int) -> int {
    |i: int, j: int|
        tally::one(
            descends(cells, steps[i]) && steps[i].0 == l && descends(cells, steps[j])
                && steps[j].0 == r && orders[steps[i].1 as int] > orders[steps[j].1 as int],
        )
}

proof fn lemma_between_above(
    cells: Seq<Cell>,
    steps: Seq<(usize, usize)>,
    orders: Seq<usize>,
    l: int,
    r: int,
    m: nat,
)
    requires
        m <= steps.len(),
    ensures
        ordering::crossings_between(
            orders,
            routing::above(cells, steps, l, m),
            routing::above(cells, steps, r, steps.len()),
            routing::above(cells, steps, l, m).len(),
        ) == tally::sum(m, row(meet_below(cells, steps, orders, l, r), steps.len())),
    decreases m,
{
    if m > 0 {
        lemma_between_above(cells, steps, orders, l, r, (m - 1) as nat);
        let before = routing::above(cells, steps, l, (m - 1) as nat);
        let right = routing::above(cells, steps, r, steps.len());
        let table = meet_below(cells, steps, orders, l, r);
        let step = steps[m - 1];
        if descends(cells, step) && step.1 == l {
            lemma_between_longer(orders, before, step.0, right, before.len());
            lemma_count_above(cells, steps, orders, step.0, r, steps.len());
            tally::lemma_sum_same(
                steps.len(),
                down_left_of(cells, steps, orders, step.0, r),
                |j: int| table(m - 1, j),
            );
        } else {
            tally::lemma_sum_zero(steps.len(), |j: int| table(m - 1, j));
        }
    }
}

proof fn lemma_between_below(
    cells: Seq<Cell>,
    steps: Seq<(usize, usize)>,
    orders: Seq<usize>,
    l: int,
    r: int,
    m: nat,
)
    requires
        m <= steps.len(),
    ensures
        ordering::crossings_between(
            orders,
            routing::below(cells, steps, l, m),
            routing::below(cells, steps, r, steps.len()),
            routing::below(cells, steps, l, m).len(),
        ) == tally::sum(m, row(meet_above(cells, steps, orders, l, r), steps.len())),
    decreases m,
{
    if m > 0 {
        lemma_between_below(cells, steps, orders, l, r, (m - 1) as nat);
        let before = routing::below(cells, steps, l, (m - 1) as nat);
        let right = routing::below(cells, steps, r, steps.len());
        let table = meet_above(cells, steps, orders, l, r);
        let step = steps[m - 1];
        if descends(cells, step) && step.0 == l {
            lemma_between_longer(orders, before, step.1, right, before.len());
            lemma_count_below(cells, steps, orders, step.1, r, steps.len());
            tally::lemma_sum_same(
                steps.len(),
                ends_left_of(cells, steps, orders, step.1, r),
                |j: int| table(m - 1, j),
            );
        } else {
            tally::lemma_sum_zero(steps.len(), |j: int| table(m - 1, j));
        }
    }
}

/// Swapping neighbours changes how they stand to each other, and nothing else.
proof fn lemma_swap_keeps_other_orders(
    cells: Seq<Cell>,
    a: Arrangement,
    r: int,
    p: int,
    x: int,
    y: int,
)
    requires
        ordering::places_all(a, cells),
        cells.len() <= usize::MAX,
        0 <= r < a.members.len(),
        0 <= p < a.members[r].len() - 1,
        0 <= x < cells.len(),
        0 <= y < cells.len(),
        cells[x].rank == cells[y].rank,
    ensures
        ({
            let left = a.members[r][p] as int;
            let right = a.members[r][p + 1] as int;
            let now = a.orders;
            let then = ordering::swapped(a, r, p).orders;
            &&& left != right
            &&& 0 <= left < cells.len()
            &&& 0 <= right < cells.len()
            &&& cells[left].rank == r
            &&& cells[right].rank == r
            &&& now[left] < now[right]
            &&& then[right] < then[left]
            &&& !(x == left && y == right) && !(x == right && y == left) ==> (now[x] < now[y]) == (
            then[x] < then[y])
        }),
{
    let list = a.members[r];
    let left = list[p];
    let right = list[p + 1];
    assert(a.orders[a.members[r][p] as int] == p);
    assert(a.orders[a.members[r][p + 1] as int] == p + 1);
    assert(p + 1 <= usize::MAX);
    let held_x = a.orders[x];
    let held_y = a.orders[y];
    assert(a.members[cells[x].rank as int][held_x as int] == x);
    assert(a.members[cells[y].rank as int][held_y as int] == y);
}

proof fn lemma_table_of_crossings(
    cells: Seq<Cell>,
    steps: Seq<(usize, usize)>,
    orders: Seq<usize>,
    table: spec_fn(int, int) -> int,
)
    requires
        forall|i: int, j: int| #[trigger]
            table(i, j) == tally::one(cross(cells, orders, steps[i], steps[j])),
    ensures
        tally::sum(steps.len(), row(table, steps.len())) == crossings(cells, steps, orders),
{
    let n = steps.len();
    assert forall|i: int| 0 <= i < n implies #[trigger] row(table, n)(i) == crossings_with(
        cells,
        steps,
        orders,
        i,
    ) by {
        tally::lemma_sum_same(
            n,
            |j: int| table(i, j),
            |j: int| tally::one(cross(cells, orders, steps[i], steps[j])),
        );
    }
    tally::lemma_sum_same(n, row(table, n), |i: int| crossings_with(cells, steps, orders, i));
}

/// Swapping neighbours changes the number of crossings by what their own edges
/// gain and lose.
proof fn lemma_swap_counts(
    cells: Seq<Cell>,
    steps: Seq<(usize, usize)>,
    a: Arrangement,
    r: int,
    p: int,
)
    requires
        ordering::places_all(a, cells),
        cells.len() <= usize::MAX,
        neat(cells, steps),
        0 <= r < a.members.len(),
        0 <= p < a.members[r].len() - 1,
    ensures
        crossings(cells, steps, ordering::swapped(a, r, p).orders) + ordering::pair_crossings(
            a.orders,
            uppers(cells, steps),
            lowers(cells, steps),
            a.members[r][p],
            a.members[r][p + 1],
        ) == crossings(cells, steps, a.orders) + ordering::pair_crossings(
            a.orders,
            uppers(cells, steps),
            lowers(cells, steps),
            a.members[r][p + 1],
            a.members[r][p],
        ),
{
    let n = steps.len();
    let left = a.members[r][p] as int;
    let right = a.members[r][p + 1] as int;
    let now = a.orders;
    let then = ordering::swapped(a, r, p).orders;
    assert(cells[left].rank == r && left < cells.len());
    assert(cells[right].rank == r && right < cells.len());
    let held = |i: int, j: int| tally::one(cross(cells, now, steps[i], steps[j]));
    let made = |i: int, j: int| tally::one(cross(cells, then, steps[i], steps[j]));
    // Steps that end at the two cells are counted from the one further right.
    let lost_below = |i: int, j: int| meet_below(cells, steps, now, left, right)(j, i);
    let won_below = |i: int, j: int| meet_below(cells, steps, now, right, left)(j, i);
    let lost_above = meet_above(cells, steps, now, left, right);
    let won_above = meet_above(cells, steps, now, right, left);
    assert forall|i: int, j: int| 0 <= i < n && 0 <= j < n implies #[trigger] made(i, j)
        + lost_below(i, j) + lost_above(i, j) == held(i, j) + won_below(i, j) + won_above(i, j) by {
        let s = steps[i];
        let t = steps[j];
        lemma_swap_keeps_other_orders(cells, a, r, p, left, right);
        if descends(cells, s) && descends(cells, t) {
            if cells[s.0 as int].rank == cells[t.0 as int].rank {
                lemma_swap_keeps_other_orders(cells, a, r, p, s.0 as int, t.0 as int);
                lemma_swap_keeps_other_orders(cells, a, r, p, s.1 as int, t.1 as int);
                lemma_swap_keeps_other_orders(cells, a, r, p, t.1 as int, s.1 as int);
            }
        }
    }
    lemma_tables_balance(n, made, lost_below, lost_above, held, won_below, won_above);
    lemma_table_of_crossings(cells, steps, then, made);
    lemma_table_of_crossings(cells, steps, now, held);
    let up = uppers(cells, steps);
    let down = lowers(cells, steps);
    lemma_between_above(cells, steps, now, left, right, n);
    lemma_between_above(cells, steps, now, right, left, n);
    lemma_between_below(cells, steps, now, left, right, n);
    lemma_between_below(cells, steps, now, right, left, n);
    lemma_turned(n, meet_below(cells, steps, now, left, right), lost_below);
    lemma_turned(n, meet_below(cells, steps, now, right, left), won_below);
}

/// A table adds up to the same when its rows are turned into columns.
proof fn lemma_turned(n: nat, f: spec_fn(int, int) -> int, g: spec_fn(int, int) -> int)
    requires
        forall|i: int, j: int| 0 <= i < n && 0 <= j < n ==> #[trigger] g(i, j) == f(j, i),
    ensures
        tally::sum(n, row(f, n)) == tally::sum(n, row(g, n)),
{
    lemma_sum_exchange(n, n, f);
    assert forall|i: int| 0 <= i < n implies #[trigger] row(g, n)(i) == column(f, n)(i) by {
        tally::lemma_sum_same(n, |j: int| g(i, j), |j: int| f(j, i));
    }
    tally::lemma_sum_same(n, row(g, n), column(f, n));
}

/// Whether one arrangement is the other with the cells at `p` and behind it in
/// rank `r` changing places.
pub open spec fn exchanged(a: Arrangement, b: Arrangement, r: int, p: int) -> bool {
    &&& 0 <= r < a.members.len()
    &&& 0 <= p < a.members[r].len() - 1
    &&& b.members.len() == a.members.len()
    &&& forall|s: int| 0 <= s < a.members.len() && s != r ==> #[trigger] b.members[s] == a.members[s]
    &&& b.members[r].len() == a.members[r].len()
    &&& b.members[r][p] == a.members[r][p + 1]
    &&& b.members[r][p + 1] == a.members[r][p]
    &&& forall|q: int|
        0 <= q < a.members[r].len() && q != p && q != p + 1 ==> #[trigger] b.members[r][q]
            == a.members[r][q]
}

proof fn lemma_exchanged_is_swapped(
    cells: Seq<Cell>,
    a: Arrangement,
    b: Arrangement,
    r: int,
    p: int,
)
    requires
        ordering::places_all(a, cells),
        ordering::places_all(b, cells),
        cells.len() <= usize::MAX,
        exchanged(a, b, r, p),
    ensures
        b == ordering::swapped(a, r, p),
{
    let after = ordering::swapped(a, r, p);
    ordering::lemma_swapped_places(a, r, p, cells);
    assert(after.members[r] =~= b.members[r]);
    assert(after.members =~= b.members);
    assert forall|c: int| 0 <= c < cells.len() implies after.orders[c] == b.orders[c] by {
        let order = b.orders[c];
        let s = cells[c].rank as int;
        assert(b.members[s][order as int] == c);
        ordering::lemma_rank_in_range(a, cells, c);
        assert(after.orders[after.members[s][order as int] as int] == order);
    }
    assert(after.orders =~= b.orders);
}

/// Whether some swap of neighbours leads to fewer crossings.
pub open spec fn can_improve(
    cells: Seq<Cell>,
    steps: Seq<(usize, usize)>,
    a: Arrangement,
) -> bool {
    exists|b: Arrangement, r: int, p: int| #[trigger]
        exchanged(a, b, r, p) && ordering::places_all(b, cells) && crossings(cells, steps, b.orders)
            < crossings(cells, steps, a.orders)
}

proof fn lemma_rank_improves(
    cells: Seq<Cell>,
    steps: Seq<(usize, usize)>,
    a: Arrangement,
    r: int,
    n: nat,
)
    requires
        ordering::places_all(a, cells),
        cells.len() <= usize::MAX,
        neat(cells, steps),
        0 <= r < a.members.len(),
        n <= ordering::pairs_in(a.members[r]),
    ensures
        ({
            let (b, improved) = ordering::transposed_rank(
                a,
                uppers(cells, steps),
                lowers(cells, steps),
                r,
                n,
            );
            &&& ordering::places_all(b, cells)
            &&& b.members.len() == a.members.len()
            &&& b.members[r].len() == a.members[r].len()
            &&& improved ==> crossings(cells, steps, b.orders) < crossings(cells, steps, a.orders)
            &&& !improved ==> b == a && forall|p: int|
                0 <= p < n ==> !#[trigger] ordering::better_swapped(
                    a,
                    uppers(cells, steps),
                    lowers(cells, steps),
                    r,
                    p,
                )
        }),
    decreases n,
{
    let up = uppers(cells, steps);
    let down = lowers(cells, steps);
    if n > 0 {
        lemma_rank_improves(cells, steps, a, r, (n - 1) as nat);
        let (before, improved) = ordering::transposed_rank(a, up, down, r, (n - 1) as nat);
        lemma_swap_counts(cells, steps, before, r, n - 1);
        if ordering::better_swapped(before, up, down, r, n - 1) {
            ordering::lemma_swapped_places(before, r, n - 1, cells);
        }
    }
}

proof fn lemma_ranks_improve(
    cells: Seq<Cell>,
    steps: Seq<(usize, usize)>,
    a: Arrangement,
    n: nat,
)
    requires
        ordering::places_all(a, cells),
        cells.len() <= usize::MAX,
        neat(cells, steps),
        n <= a.members.len(),
    ensures
        ({
            let (b, improved) = ordering::transposed_once(
                a,
                uppers(cells, steps),
                lowers(cells, steps),
                n,
            );
            &&& ordering::places_all(b, cells)
            &&& b.members.len() == a.members.len()
            &&& improved ==> crossings(cells, steps, b.orders) < crossings(cells, steps, a.orders)
            &&& !improved ==> b == a && forall|r: int, p: int|
                0 <= r < n && 0 <= p < ordering::pairs_in(a.members[r])
                    ==> !#[trigger] ordering::better_swapped(
                    a,
                    uppers(cells, steps),
                    lowers(cells, steps),
                    r,
                    p,
                )
        }),
    decreases n,
{
    let up = uppers(cells, steps);
    let down = lowers(cells, steps);
    if n > 0 {
        lemma_ranks_improve(cells, steps, a, (n - 1) as nat);
        let (before, improved) = ordering::transposed_once(a, up, down, (n - 1) as nat);
        lemma_rank_improves(
            cells,
            steps,
            before,
            n - 1,
            ordering::pairs_in(before.members[n - 1]),
        );
    }
}

/// The number of crossings is not negative.
pub proof fn lemma_crossings_not_negative(
    cells: Seq<Cell>,
    steps: Seq<(usize, usize)>,
    orders: Seq<usize>,
)
    ensures
        crossings(cells, steps, orders) >= 0,
{
    assert forall|i: int| 0 <= i < steps.len() implies #[trigger] crossings_with(
        cells,
        steps,
        orders,
        i,
    ) >= 0 by {
        tally::lemma_sum_not_negative(
            steps.len(),
            |j: int| tally::one(cross(cells, orders, steps[i], steps[j])),
        );
    }
    tally::lemma_sum_not_negative(
        steps.len(),
        |i: int| crossings_with(cells, steps, orders, i),
    );
}

/// Swapping neighbours, however often, never adds crossings. It takes some away
/// wherever a single swap could, at least one in every round until no swap
/// improves anything, and leaves alone what no swap improves, such as an
/// arrangement without crossings.
pub proof fn law_swaps_take_crossings_away(
    cells: Seq<Cell>,
    steps: Seq<(usize, usize)>,
    a: Arrangement,
    rounds: nat,
)
    requires
        ordering::places_all(a, cells),
        cells.len() <= usize::MAX,
        neat(cells, steps),
    ensures
        ({
            let b = ordering::transposed(a, uppers(cells, steps), lowers(cells, steps), rounds);
            &&& ordering::places_all(b, cells)
            &&& crossings(cells, steps, b.orders) <= crossings(cells, steps, a.orders)
            &&& rounds > 0 && can_improve(cells, steps, a) ==> crossings(cells, steps, b.orders)
                < crossings(cells, steps, a.orders)
            &&& !can_improve(cells, steps, a) ==> b == a
            &&& crossings(cells, steps, a.orders) == 0 ==> b == a
            &&& can_improve(cells, steps, b) ==> crossings(cells, steps, b.orders) + rounds
                <= crossings(cells, steps, a.orders)
        }),
    decreases rounds,
{
    let up = uppers(cells, steps);
    let down = lowers(cells, steps);
    lemma_crossings_not_negative(cells, steps, a.orders);
    if rounds > 0 {
        lemma_ranks_improve(cells, steps, a, a.members.len());
        let (after, improved) = ordering::transposed_once(a, up, down, a.members.len());
        lemma_crossings_not_negative(cells, steps, after.orders);
        if improved {
            law_swaps_take_crossings_away(cells, steps, after, (rounds - 1) as nat);
            if !can_improve(cells, steps, a) {
                lemma_nothing_to_improve(cells, steps, a, a.members.len());
            }
        } else if can_improve(cells, steps, a) {
            let (b, r, p) = choose|b: Arrangement, r: int, p: int| #[trigger]
                exchanged(a, b, r, p) && ordering::places_all(b, cells) && crossings(
                    cells,
                    steps,
                    b.orders,
                ) < crossings(cells, steps, a.orders);
            lemma_exchanged_is_swapped(cells, a, b, r, p);
            lemma_swap_counts(cells, steps, a, r, p);
            assert(!ordering::better_swapped(a, up, down, r, p));
        }
    }
    if crossings(cells, steps, a.orders) == 0 && can_improve(cells, steps, a) {
        let (b, r, p) = choose|b: Arrangement, r: int, p: int| #[trigger]
            exchanged(a, b, r, p) && ordering::places_all(b, cells) && crossings(
                cells,
                steps,
                b.orders,
            ) < crossings(cells, steps, a.orders);
        lemma_crossings_not_negative(cells, steps, b.orders);
    }
}

proof fn lemma_nothing_in_rank(
    cells: Seq<Cell>,
    steps: Seq<(usize, usize)>,
    a: Arrangement,
    r: int,
    n: nat,
)
    requires
        ordering::places_all(a, cells),
        cells.len() <= usize::MAX,
        neat(cells, steps),
        !can_improve(cells, steps, a),
        0 <= r < a.members.len(),
        n <= ordering::pairs_in(a.members[r]),
    ensures
        ordering::transposed_rank(a, uppers(cells, steps), lowers(cells, steps), r, n) == (a, false),
    decreases n,
{
    if n > 0 {
        lemma_nothing_in_rank(cells, steps, a, r, (n - 1) as nat);
        let b = ordering::swapped(a, r, n - 1);
        lemma_swap_counts(cells, steps, a, r, n - 1);
        ordering::lemma_swapped_places(a, r, n - 1, cells);
        assert(exchanged(a, b, r, n - 1));
    }
}

proof fn lemma_nothing_to_improve(
    cells: Seq<Cell>,
    steps: Seq<(usize, usize)>,
    a: Arrangement,
    n: nat,
)
    requires
        ordering::places_all(a, cells),
        cells.len() <= usize::MAX,
        neat(cells, steps),
        !can_improve(cells, steps, a),
        n <= a.members.len(),
    ensures
        ordering::transposed_once(a, uppers(cells, steps), lowers(cells, steps), n) == (a, false),
    decreases n,
{
    if n > 0 {
        lemma_nothing_to_improve(cells, steps, a, (n - 1) as nat);
        lemma_nothing_in_rank(cells, steps, a, n - 1, ordering::pairs_in(a.members[n - 1]));
    }
}

} // verus!
