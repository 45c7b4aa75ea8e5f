//! Ordering the cells within each rank to reduce edge crossings.

use crate::routing::{self, Cell};
use crate::sorting::{self, sort_pairs};
use vstd::prelude::*;

verus! {

/// The cells of each rank in order, and where in its rank each cell is.
#[verifier::ext_equal]
pub struct Arrangement {
    pub members: Seq<Seq<usize>>,
    pub orders: Seq<usize>,
}

/// One more than the largest rank of the first `n` cells.
pub open spec fn rank_count(cells: Seq<Cell>, n: nat) -> nat
    decreases n,
{
    if n == 0 {
        0
    } else {
        let before = rank_count(cells, (n - 1) as nat);
        let here = cells[n - 1].rank + 1;
        if here > before {
            here as nat
        } else {
            before
        }
    }
}

/// Those of the first `n` cells that are in rank `r`.
pub open spec fn cells_in(cells: Seq<Cell>, r: int, n: nat) -> Seq<usize>
    decreases n,
{
    if n == 0 {
        Seq::empty()
    } else {
        let before = cells_in(cells, r, (n - 1) as nat);
        if cells[n - 1].rank == r {
            before.push((n - 1) as usize)
        } else {
            before
        }
    }
}

/// The orders with the first `n` cells of a list numbered by their positions.
pub open spec fn numbered(orders: Seq<usize>, list: Seq<usize>, n: nat) -> Seq<usize>
    decreases n,
{
    if n == 0 {
        orders
    } else {
        numbered(orders, list, (n - 1) as nat).update(list[n - 1] as int, (n - 1) as usize)
    }
}

/// The orders with the cells of the first `n` lists numbered.
pub open spec fn all_numbered(orders: Seq<usize>, members: Seq<Seq<usize>>, n: nat) -> Seq<usize>
    decreases n,
{
    if n == 0 {
        orders
    } else {
        numbered(
            all_numbered(orders, members, (n - 1) as nat),
            members[n - 1],
            members[n - 1].len(),
        )
    }
}

/// The cells of each rank in the order in which they were made. ONNX requires
/// nodes to be listed in topological order, so that is already a reasonable
/// starting point.
pub open spec fn first_arrangement(cells: Seq<Cell>) -> Arrangement {
    let members = Seq::new(
        rank_count(cells, cells.len()),
        |r: int| cells_in(cells, r, cells.len()),
    );
    Arrangement {
        members,
        orders: all_numbered(Seq::new(cells.len(), |i: int| 0usize), members, members.len()),
    }
}

/// The orders of the listed cells, each with its place in the list.
pub open spec fn orders_of(orders: Seq<usize>, items: Seq<usize>) -> Seq<(u128, usize)> {
    Seq::new(items.len(), |i: int| (orders[items[i] as int] as u128, i as usize))
}

/// Twice the median position of a cell's neighbours. A cell with no neighbours
/// keeps its current position so that it does not drift.
pub open spec fn double_median(
    orders: Seq<usize>,
    neighbours: Seq<usize>,
    position: int,
) -> u128 {
    if neighbours.len() == 0 {
        (2 * position) as u128
    } else {
        let sorted = sorting::sorted_pairs(orders_of(orders, neighbours));
        let middle = neighbours.len() / 2;
        if neighbours.len() % 2 == 1 {
            (2 * sorted[middle as int].0) as u128
        } else {
            (sorted[middle - 1].0 + sorted[middle as int].0) as u128
        }
    }
}

/// What the cells of a rank are sorted by: the median of their neighbours, then
/// the current position.
pub open spec fn sort_keys(
    orders: Seq<usize>,
    neighbours: Seq<Seq<usize>>,
    list: Seq<usize>,
) -> Seq<(u128, usize)> {
    Seq::new(
        list.len(),
        |p: int| (double_median(orders, neighbours[list[p] as int], p), p as usize),
    )
}

/// The cells of a rank sorted by their neighbours.
pub open spec fn sorted_rank(
    orders: Seq<usize>,
    neighbours: Seq<Seq<usize>>,
    list: Seq<usize>,
) -> Seq<usize> {
    let sorted = sorting::sorted_pairs(sort_keys(orders, neighbours, list));
    Seq::new(list.len(), |p: int| list[sorted[p].1 as int])
}

/// The arrangement with the rank `r` sorted by the neighbours of its cells.
pub open spec fn sort_rank(
    a: Arrangement,
    neighbours: Seq<Seq<usize>>,
    r: int,
) -> Arrangement {
    let list = sorted_rank(a.orders, neighbours, a.members[r]);
    Arrangement {
        members: a.members.update(r, list),
        orders: numbered(a.orders, list, list.len()),
    }
}

/// The arrangement with the ranks below the top sorted one after the other, as
/// far as rank `n`.
pub open spec fn swept_down(
    a: Arrangement,
    neighbours: Seq<Seq<usize>>,
    n: nat,
) -> Arrangement
    decreases n,
{
    if n <= 1 {
        a
    } else {
        sort_rank(swept_down(a, neighbours, (n - 1) as nat), neighbours, n - 1)
    }
}

/// The arrangement with the lowest `n` ranks but for the bottom one sorted, one
/// after the other upwards.
pub open spec fn swept_up(a: Arrangement, neighbours: Seq<Seq<usize>>, n: nat) -> Arrangement
    decreases n,
{
    if n <= 1 {
        a
    } else {
        sort_rank(
            swept_up(a, neighbours, (n - 1) as nat),
            neighbours,
            a.members.len() - n,
        )
    }
}

/// How many of the first `n` cells of a list are right of the cell `l`, counting
/// each time it is listed.
pub open spec fn crossings_of(orders: Seq<usize>, l: usize, right: Seq<usize>, n: nat) -> nat
    decreases n,
{
    if n == 0 {
        0
    } else {
        crossings_of(orders, l, right, (n - 1) as nat) + if orders[l as int]
            > orders[right[n - 1] as int] {
            1nat
        } else {
            0
        }
    }
}

/// Number of crossings between the edges of a left cell, to the first `n` of its
/// neighbours, and those of a right cell.
pub open spec fn crossings_between(
    orders: Seq<usize>,
    left: Seq<usize>,
    right: Seq<usize>,
    n: nat,
) -> nat
    decreases n,
{
    if n == 0 {
        0
    } else {
        crossings_between(orders, left, right, (n - 1) as nat) + crossings_of(
            orders,
            left[n - 1],
            right,
            right.len(),
        )
    }
}

/// Number of crossings between the edges of two cells, the first being left of
/// the second.
pub open spec fn pair_crossings(
    orders: Seq<usize>,
    preds: Seq<Seq<usize>>,
    succs: Seq<Seq<usize>>,
    left: usize,
    right: usize,
) -> nat {
    crossings_between(
        orders,
        preds[left as int],
        preds[right as int],
        preds[left as int].len(),
    ) + crossings_between(
        orders,
        succs[left as int],
        succs[right as int],
        succs[left as int].len(),
    )
}

/// Whether the cells at `p` and behind it in rank `r` would cross fewer edges
/// the other way round.
pub open spec fn better_swapped(
    a: Arrangement,
    preds: Seq<Seq<usize>>,
    succs: Seq<Seq<usize>>,
    r: int,
    p: int,
) -> bool {
    let left = a.members[r][p];
    let right = a.members[r][p + 1];
    pair_crossings(a.orders, preds, succs, right, left) < pair_crossings(
        a.orders,
        preds,
        succs,
        left,
        right,
    )
}

/// The arrangement with the cells at `p` and behind it in rank `r` swapped.
pub open spec fn swapped(a: Arrangement, r: int, p: int) -> Arrangement {
    let left = a.members[r][p];
    let right = a.members[r][p + 1];
    Arrangement {
        members: a.members.update(r, a.members[r].update(p, right).update(p + 1, left)),
        orders: a.orders.update(left as int, (p + 1) as usize).update(right as int, p as usize),
    }
}

/// The arrangement after the first `n` adjacent pairs of rank `r` are looked at
/// and swapped where that is better, and whether one was.
pub open spec fn transposed_rank(
    a: Arrangement,
    preds: Seq<Seq<usize>>,
    succs: Seq<Seq<usize>>,
    r: int,
    n: nat,
) -> (Arrangement, bool)
    decreases n,
{
    if n == 0 {
        (a, false)
    } else {
        let (before, improved) = transposed_rank(a, preds, succs, r, (n - 1) as nat);
        if better_swapped(before, preds, succs, r, n - 1) {
            (swapped(before, r, n - 1), true)
        } else {
            (before, improved)
        }
    }
}

/// The number of adjacent pairs in a list.
pub open spec fn pairs_in(list: Seq<usize>) -> nat {
    if list.len() == 0 {
        0
    } else {
        (list.len() - 1) as nat
    }
}

/// The arrangement after the first `n` ranks are gone through once, and whether
/// anything was swapped.
pub open spec fn transposed_once(
    a: Arrangement,
    preds: Seq<Seq<usize>>,
    succs: Seq<Seq<usize>>,
    n: nat,
) -> (Arrangement, bool)
    decreases n,
{
    if n == 0 {
        (a, false)
    } else {
        let (before, improved) = transposed_once(a, preds, succs, (n - 1) as nat);
        let (after, more) = transposed_rank(
            before,
            preds,
            succs,
            n - 1,
            pairs_in(before.members[n - 1]),
        );
        (after, improved || more)
    }
}

/// The arrangement after the ranks are gone through as long as that improves
/// something, `rounds` times at most.
pub open spec fn transposed(
    a: Arrangement,
    preds: Seq<Seq<usize>>,
    succs: Seq<Seq<usize>>,
    rounds: nat,
) -> Arrangement
    decreases rounds,
{
    if rounds == 0 {
        a
    } else {
        let (after, improved) = transposed_once(a, preds, succs, a.members.len());
        if improved {
            transposed(after, preds, succs, (rounds - 1) as nat)
        } else {
            after
        }
    }
}

/// The arrangement after `n` iterations, each a sweep by the medians of the
/// neighbours, alternately downwards and upwards, and then swaps of adjacent
/// pairs.
pub open spec fn arranged(
    a: Arrangement,
    preds: Seq<Seq<usize>>,
    succs: Seq<Seq<usize>>,
    n: nat,
) -> Arrangement
    decreases n,
{
    if n == 0 {
        a
    } else {
        let before = arranged(a, preds, succs, (n - 1) as nat);
        let swept = if (n - 1) % 2 == 0 {
            swept_down(before, preds, before.members.len())
        } else {
            swept_up(before, succs, before.members.len())
        };
        transposed(swept, preds, succs, 4)
    }
}

/// Whether every listed cell is one of the first `count`.
pub open spec fn lists_within(lists: Seq<Seq<usize>>, count: nat) -> bool {
    forall|i: int, k: int|
        0 <= i < lists.len() && 0 <= k < lists[i].len() ==> #[trigger] lists[i][k] < count
}

/// Whether an arrangement speaks of `count` cells.
pub open spec fn sound(a: Arrangement, count: nat) -> bool {
    &&& a.orders.len() == count
    &&& lists_within(a.members, count)
}

/// The arrangement that a pair of lists describes.
pub open spec fn state(members: Seq<Vec<usize>>, orders: Seq<usize>) -> Arrangement {
    Arrangement { members: routing::lists(members), orders }
}

proof fn lemma_numbered_len(orders: Seq<usize>, list: Seq<usize>, n: nat)
    requires
        n <= list.len(),
        forall|k: int| 0 <= k < list.len() ==> #[trigger] list[k] < orders.len(),
    ensures
        numbered(orders, list, n).len() == orders.len(),
    decreases n,
{
    if n > 0 {
        lemma_numbered_len(orders, list, (n - 1) as nat);
    }
}

/// The sorted keys are those of every place, each once.
pub(crate) proof fn lemma_sorted_places(keys: Seq<(u128, usize)>)
    requires
        keys.len() <= usize::MAX,
        forall|p: int| 0 <= p < keys.len() ==> (#[trigger] keys[p]).1 == p,
    ensures
        sorting::sorted_pairs(keys).len() == keys.len(),
        forall|p: int|
            0 <= p < keys.len() ==> (#[trigger] sorting::sorted_pairs(keys)[p]).1 < keys.len()
                && keys[sorting::sorted_pairs(keys)[p].1 as int] == sorting::sorted_pairs(keys)[p],
        forall|p: int, q: int|
            0 <= p < q < keys.len() ==> (#[trigger] sorting::sorted_pairs(keys)[p]).1 != (
            #[trigger] sorting::sorted_pairs(keys)[q]).1,
        forall|q: int|
            0 <= q < keys.len() ==> sorting::sorted_pairs(keys).contains(#[trigger] keys[q]),
{
    broadcast use vstd::seq_lib::group_to_multiset_ensures;

    let sorted = sorting::sorted_pairs(keys);
    sorting::lemma_sorted_pairs(keys);
    assert forall|p: int| 0 <= p < keys.len() implies (#[trigger] sorted[p]).1 < keys.len()
        && keys[sorted[p].1 as int] == sorted[p] by {
        assert(sorted.contains(sorted[p]));
        assert(sorted.to_multiset().count(sorted[p]) > 0);
        assert(keys.to_multiset().count(sorted[p]) > 0);
        assert(keys.contains(sorted[p]));
        let at = keys.index_of(sorted[p]);
        assert(keys[at] == sorted[p]);
    }
    assert forall|q: int| 0 <= q < keys.len() implies sorted.contains(#[trigger] keys[q]) by {
        assert(keys.contains(keys[q]));
        assert(keys.to_multiset().count(keys[q]) > 0);
        assert(sorted.to_multiset().count(keys[q]) > 0);
    }
    assert(keys.no_duplicates());
    keys.lemma_multiset_has_no_duplicates();
    sorted.lemma_multiset_has_no_duplicates_conv();
    assert forall|p: int, q: int| 0 <= p < q < keys.len() implies (#[trigger] sorted[p]).1 != (
    #[trigger] sorted[q]).1 by {
        if sorted[p].1 == sorted[q].1 {
            assert(sorted[p] == sorted[q]);
        }
    }
}

proof fn lemma_sort_rank_sound(
    a: Arrangement,
    neighbours: Seq<Seq<usize>>,
    r: int,
    count: nat,
)
    requires
        sound(a, count),
        0 <= r < a.members.len(),
        a.members[r].len() <= usize::MAX,
    ensures
        sound(sort_rank(a, neighbours, r), count),
        sort_rank(a, neighbours, r).members.len() == a.members.len(),
{
    let list = a.members[r];
    let keys = sort_keys(a.orders, neighbours, list);
    let after = sort_rank(a, neighbours, r);
    lemma_sorted_places(keys);
    let sorted = sorting::sorted_pairs(keys);
    let new_list = sorted_rank(a.orders, neighbours, list);
    assert forall|k: int| 0 <= k < new_list.len() implies #[trigger] new_list[k] < count by {
        assert(sorted[k].1 < list.len());
        assert(a.members[r][sorted[k].1 as int] < count);
    }
    lemma_numbered_len(a.orders, new_list, list.len());
    assert forall|i: int, k: int|
        0 <= i < after.members.len() && 0 <= k < after.members[i].len() implies #[trigger] after.members[i][k]
        < count by {
        if i == r {
            assert(sorted[k].1 < list.len());
            assert(list[sorted[k].1 as int] == a.members[r][sorted[k].1 as int]);
        } else {
            assert(after.members[i] == a.members[i]);
            assert(a.members[i][k] < count);
        }
    }
}

/// Twice the median position of a cell's neighbours in the adjacent rank.
fn median_order(orders: &Vec<usize>, neighbours: &Vec<usize>, position: usize) -> (median: u128)
    requires
        forall|k: int| 0 <= k < neighbours@.len() ==> #[trigger] neighbours@[k] < orders@.len(),
    ensures
        median == double_median(orders@, neighbours@, position as int),
{
    if neighbours.len() == 0 {
        return 2 * (position as u128);
    }
    let mut entries: Vec<(u128, usize)> = Vec::new();
    for i in 0..neighbours.len()
        invariant
            forall|k: int| 0 <= k < neighbours@.len() ==> #[trigger] neighbours@[k] < orders@.len(),
            entries@ == orders_of(orders@, neighbours@).take(i as int),
    {
        let at: usize = neighbours[i];
        assert(neighbours@[i as int] < orders@.len());
        entries.push((orders[at] as u128, i));
        assert(entries@ =~= orders_of(orders@, neighbours@).take(i + 1));
    }
    let ghost keys = orders_of(orders@, neighbours@);
    assert(keys.take(keys.len() as int) =~= keys);
    let sorted: Vec<(u128, usize)> = sort_pairs(&entries);
    proof {
        lemma_sorted_places(keys);
    }
    let middle: usize = neighbours.len() / 2;
    proof {
        assert(sorted@[middle as int].0 <= usize::MAX) by {
            assert(keys[sorted@[middle as int].1 as int] == sorted@[middle as int]);
        }
    }
    if neighbours.len() % 2 == 1 {
        2 * sorted[middle].0
    } else {
        proof {
            assert(keys[sorted@[middle - 1].1 as int] == sorted@[middle - 1]);
        }
        sorted[middle - 1].0 + sorted[middle].0
    }
}

fn write_rank_orders(orders: &mut Vec<usize>, list: &Vec<usize>)
    requires
        forall|k: int| 0 <= k < list@.len() ==> #[trigger] list@[k] < old(orders)@.len(),
    ensures
        final(orders)@ == numbered(old(orders)@, list@, list@.len()),
{
    let ghost before = orders@;
    for position in 0..list.len()
        invariant
            orders@.len() == before.len(),
            forall|k: int| 0 <= k < list@.len() ==> #[trigger] list@[k] < before.len(),
            orders@ == numbered(before, list@, position as nat),
    {
        let cell: usize = list[position];
        assert(list@[position as int] < before.len());
        orders.set(cell, position);
    }
}

/// Sorts one rank by the neighbours of its cells.
fn order_rank(
    members: &mut Vec<Vec<usize>>,
    orders: &mut Vec<usize>,
    neighbours: &Vec<Vec<usize>>,
    r: usize,
)
    requires
        r < old(members)@.len(),
        sound(state(old(members)@, old(orders)@), neighbours@.len()),
        lists_within(routing::lists(neighbours@), neighbours@.len()),
    ensures
        state(final(members)@, final(orders)@) == sort_rank(
            state(old(members)@, old(orders)@),
            routing::lists(neighbours@),
            r as int,
        ),
        final(members)@.len() == old(members)@.len(),
        sound(state(final(members)@, final(orders)@), neighbours@.len()),
{
    let ghost count = neighbours@.len();
    let ghost a = state(members@, orders@);
    let ghost lists = routing::lists(neighbours@);
    let ghost list = a.members[r as int];
    let ghost keys = sort_keys(orders@, lists, list);
    let size: usize = members[r].len();
    assert(list == members@[r as int]@);
    let mut entries: Vec<(u128, usize)> = Vec::new();
    for position in 0..size
        invariant
            count == neighbours@.len(),
            a == state(members@, orders@),
            sound(a, count),
            lists == routing::lists(neighbours@),
            lists_within(lists, count),
            r < members@.len(),
            list == a.members[r as int],
            list == members@[r as int]@,
            size == list.len(),
            keys == sort_keys(orders@, lists, list),
            entries@ == keys.take(position as int),
    {
        let cell: usize = members[r][position];
        proof {
            assert(a.members[r as int][position as int] < count);
            assert forall|k: int| 0 <= k < neighbours@[cell as int]@.len() implies #[trigger] neighbours@[cell as int]@[k]
                < orders@.len() by {
                assert(lists[cell as int][k] < count);
            }
        }
        let key: u128 = median_order(orders, &neighbours[cell], position);
        entries.push((key, position));
        assert(entries@ =~= keys.take(position + 1));
    }
    assert(keys.take(keys.len() as int) =~= keys);
    let sorted: Vec<(u128, usize)> = sort_pairs(&entries);
    proof {
        lemma_sorted_places(keys);
        lemma_sort_rank_sound(a, lists, r as int, count);
    }
    let mut ordered: Vec<usize> = Vec::new();
    for position in 0..size
        invariant
            r < members@.len(),
            list == members@[r as int]@,
            size == list.len(),
            sorted@.len() == size,
            sorted@ == sorting::sorted_pairs(keys),
            list.len() == keys.len(),
            forall|p: int| 0 <= p < size ==> (#[trigger] sorted@[p]).1 < size,
            ordered@.len() == position,
            forall|p: int| 0 <= p < position ==> #[trigger] ordered@[p] == list[sorted@[p].1 as int],
    {
        assert(sorted@[position as int].1 < size);
        ordered.push(members[r][sorted[position].1]);
    }
    let ghost new_list = sorted_rank(a.orders, lists, list);
    proof {
        assert(ordered@ =~= new_list);
        let after = sort_rank(a, lists, r as int);
        assert(after.members[r as int] == new_list);
        assert forall|k: int| 0 <= k < ordered@.len() implies #[trigger] ordered@[k] < orders@.len() by {
            assert(after.members[r as int][k] < count);
        }
    }
    write_rank_orders(orders, &ordered);
    members.set(r, ordered);
    proof {
        let after = sort_rank(a, lists, r as int);
        assert(routing::lists(members@) =~= after.members);
    }
}

/// Number of crossings between the edges of a left cell and a right cell.
fn crossings(orders: &Vec<usize>, left: &Vec<usize>, right: &Vec<usize>) -> (count: u128)
    requires
        forall|k: int| 0 <= k < left@.len() ==> #[trigger] left@[k] < orders@.len(),
        forall|k: int| 0 <= k < right@.len() ==> #[trigger] right@[k] < orders@.len(),
    ensures
        count == crossings_between(orders@, left@, right@, left@.len()),
{
    let mut count: u128 = 0;
    let size: usize = right.len();
    assert(0 * size == 0);
    for i in 0..left.len()
        invariant
            size == right@.len(),
            forall|k: int| 0 <= k < left@.len() ==> #[trigger] left@[k] < orders@.len(),
            forall|k: int| 0 <= k < right@.len() ==> #[trigger] right@[k] < orders@.len(),
            count == crossings_between(orders@, left@, right@, i as nat),
            count <= i * size,
    {
        let l: usize = left[i];
        assert(left@[i as int] < orders@.len());
        let start: u128 = count;
        assert(i * size + size <= 0xffff_ffff_ffff_ffff_ffff_ffff_ffff_fffe && i * size + size == (i
            + 1) * size) by (nonlinear_arith)
            requires
                i < usize::MAX,
                size <= usize::MAX,
                usize::MAX <= 0xffff_ffff_ffff_ffff,
        ;
        for j in 0..size
            invariant
                size == right@.len(),
                l < orders@.len(),
                forall|k: int| 0 <= k < right@.len() ==> #[trigger] right@[k] < orders@.len(),
                start <= i * size,
                i * size + size <= 0xffff_ffff_ffff_ffff_ffff_ffff_ffff_fffe,
                count == start + crossings_of(orders@, l, right@, j as nat),
                count <= start + j,
        {
            assert(right@[j as int] < orders@.len());
            if orders[l] > orders[right[j]] {
                count = count + 1;
            }
        }
    }
    count
}

/// Whether `a1 + a2 < b1 + b2`.
fn sum_is_less(a1: u128, a2: u128, b1: u128, b2: u128) -> (less: bool)
    ensures
        less == (a1 + a2 < b1 + b2),
{
    if a1 <= b1 {
        a2 < b2 || a2 - b2 < b1 - a1
    } else {
        a2 < b2 && a1 - b1 < b2 - a2
    }
}

proof fn lemma_swapped_sound(a: Arrangement, r: int, p: int, count: nat)
    requires
        sound(a, count),
        0 <= r < a.members.len(),
        0 <= p < a.members[r].len() - 1,
    ensures
        sound(swapped(a, r, p), count),
        swapped(a, r, p).members.len() == a.members.len(),
        swapped(a, r, p).members[r].len() == a.members[r].len(),
{
    let after = swapped(a, r, p);
    assert(a.members[r][p] < count);
    assert(a.members[r][p + 1] < count);
    assert forall|i: int, k: int|
        0 <= i < after.members.len() && 0 <= k < after.members[i].len() implies #[trigger] after.members[i][k]
        < count by {
        assert(a.members[i][k] < count);
    }
}

/// Looks at the adjacent pairs of a rank in turn, and swaps each where that
/// reduces crossings.
fn transpose_rank(
    members: &mut Vec<Vec<usize>>,
    orders: &mut Vec<usize>,
    preds: &Vec<Vec<usize>>,
    succs: &Vec<Vec<usize>>,
    r: usize,
) -> (improved: bool)
    requires
        r < old(members)@.len(),
        preds@.len() == succs@.len(),
        sound(state(old(members)@, old(orders)@), preds@.len()),
        lists_within(routing::lists(preds@), preds@.len()),
        lists_within(routing::lists(succs@), preds@.len()),
    ensures
        (state(final(members)@, final(orders)@), improved) == transposed_rank(
            state(old(members)@, old(orders)@),
            routing::lists(preds@),
            routing::lists(succs@),
            r as int,
            pairs_in(old(members)@[r as int]@),
        ),
        final(members)@.len() == old(members)@.len(),
        sound(state(final(members)@, final(orders)@), preds@.len()),
{
    let ghost count = preds@.len();
    let ghost a = state(members@, orders@);
    let ghost up = routing::lists(preds@);
    let ghost down = routing::lists(succs@);
    let size: usize = members[r].len();
    let pairs: usize = if size == 0 {
        0
    } else {
        size - 1
    };
    let mut improved: bool = false;
    for position in 0..pairs
        invariant
            count == preds@.len(),
            count == succs@.len(),
            up == routing::lists(preds@),
            down == routing::lists(succs@),
            lists_within(up, count),
            lists_within(down, count),
            r < members@.len(),
            members@.len() == a.members.len(),
            members@[r as int]@.len() == size,
            pairs == if size == 0 {
                0
            } else {
                size - 1
            },
            sound(state(members@, orders@), count),
            (state(members@, orders@), improved) == transposed_rank(
                a,
                up,
                down,
                r as int,
                position as nat,
            ),
    {
        let ghost now = state(members@, orders@);
        let left: usize = members[r][position];
        let right: usize = members[r][position + 1];
        proof {
            assert(now.members[r as int] == members@[r as int]@);
            assert(now.members[r as int][position as int] < count);
            assert(now.members[r as int][position + 1] < count);
            assert forall|c: int, k: int| 0 <= c < count && 0 <= k < up[c].len() implies #[trigger] preds@[c]@[k]
                < orders@.len() by {
                assert(up[c][k] < count);
            }
            assert forall|c: int, k: int| 0 <= c < count && 0 <= k < down[c].len() implies #[trigger] succs@[c]@[k]
                < orders@.len() by {
                assert(down[c][k] < count);
            }
        }
        let before_up: u128 = crossings(orders, &preds[left], &preds[right]);
        let before_down: u128 = crossings(orders, &succs[left], &succs[right]);
        let after_up: u128 = crossings(orders, &preds[right], &preds[left]);
        let after_down: u128 = crossings(orders, &succs[right], &succs[left]);
        if sum_is_less(after_up, after_down, before_up, before_down) {
            proof {
                lemma_swapped_sound(now, r as int, position as int, count);
            }
            members[r].set(position, right);
            members[r].set(position + 1, left);
            orders.set(left, position + 1);
            orders.set(right, position);
            improved = true;
            proof {
                assert(routing::lists(members@) =~= swapped(
                    now,
                    r as int,
                    position as int,
                ).members);
            }
        }
    }
    improved
}

/// Swaps adjacent pairs within ranks where doing so reduces crossings, as long
/// as that improves something and at most four times over.
///
/// This catches the cases the median heuristic cannot, such as two nodes whose
/// neighbours give them the same median.
fn transpose(
    members: &mut Vec<Vec<usize>>,
    orders: &mut Vec<usize>,
    preds: &Vec<Vec<usize>>,
    succs: &Vec<Vec<usize>>,
)
    requires
        preds@.len() == succs@.len(),
        sound(state(old(members)@, old(orders)@), preds@.len()),
        lists_within(routing::lists(preds@), preds@.len()),
        lists_within(routing::lists(succs@), preds@.len()),
    ensures
        state(final(members)@, final(orders)@) == transposed(
            state(old(members)@, old(orders)@),
            routing::lists(preds@),
            routing::lists(succs@),
            4,
        ),
        final(members)@.len() == old(members)@.len(),
        sound(state(final(members)@, final(orders)@), preds@.len()),
{
    let ghost count = preds@.len();
    let ghost up = routing::lists(preds@);
    let ghost down = routing::lists(succs@);
    let ghost first = state(members@, orders@);
    let ranks: usize = members.len();
    let mut improved: bool = true;
    let mut rounds: usize = 4;
    while improved && rounds > 0
        invariant
            count == preds@.len(),
            count == succs@.len(),
            up == routing::lists(preds@),
            down == routing::lists(succs@),
            lists_within(up, count),
            lists_within(down, count),
            ranks == members@.len(),
            sound(state(members@, orders@), count),
            improved ==> transposed(first, up, down, 4) == transposed(
                state(members@, orders@),
                up,
                down,
                rounds as nat,
            ),
            !improved ==> transposed(first, up, down, 4) == state(members@, orders@),
        decreases rounds,
    {
        let ghost a = state(members@, orders@);
        improved = false;
        for r in 0..ranks
            invariant
                count == preds@.len(),
                count == succs@.len(),
                up == routing::lists(preds@),
                down == routing::lists(succs@),
                lists_within(up, count),
                lists_within(down, count),
                ranks == members@.len(),
                sound(state(members@, orders@), count),
                (state(members@, orders@), improved) == transposed_once(a, up, down, r as nat),
        {
            let ghost before = state(members@, orders@);
            assert(before.members[r as int] == members@[r as int]@);
            let more: bool = transpose_rank(members, orders, preds, succs, r);
            improved = improved || more;
        }
        rounds = rounds - 1;
    }
}

/// The largest rank of the cells, plus one.
fn count_ranks(cells: &Vec<Cell>) -> (count: usize)
    requires
        forall|i: int| 0 <= i < cells@.len() ==> (#[trigger] cells@[i]).rank < usize::MAX,
    ensures
        count == rank_count(cells@, cells@.len()),
{
    let mut count: usize = 0;
    for i in 0..cells.len()
        invariant
            forall|k: int| 0 <= k < cells@.len() ==> (#[trigger] cells@[k]).rank < usize::MAX,
            count == rank_count(cells@, i as nat),
    {
        assert(cells@[i as int].rank < usize::MAX);
        if cells[i].rank + 1 > count {
            count = cells[i].rank + 1;
        }
    }
    count
}

proof fn lemma_rank_count(cells: Seq<Cell>, n: nat)
    requires
        n <= cells.len(),
    ensures
        forall|i: int| 0 <= i < n ==> (#[trigger] cells[i]).rank < rank_count(cells, n),
    decreases n,
{
    if n > 0 {
        lemma_rank_count(cells, (n - 1) as nat);
    }
}

pub(crate) proof fn lemma_rank_in_range(a: Arrangement, cells: Seq<Cell>, c: int)
    requires
        places_all(a, cells),
        0 <= c < cells.len(),
    ensures
        cells[c].rank < a.members.len(),
{
    lemma_rank_count(cells, cells.len());
}

pub(crate) proof fn lemma_cells_in(cells: Seq<Cell>, r: int, n: nat)
    requires
        n <= cells.len() <= usize::MAX,
    ensures
        forall|k: int|
            0 <= k < cells_in(cells, r, n).len() ==> {
                let c = #[trigger] cells_in(cells, r, n)[k];
                c < n && cells[c as int].rank == r
            },
        forall|c: int|
            0 <= c < n && (#[trigger] cells[c]).rank == r ==> cells_in(cells, r, n).contains(
                c as usize,
            ),
        forall|i: int, j: int|
            0 <= i < j < cells_in(cells, r, n).len() ==> #[trigger] cells_in(cells, r, n)[i]
                < #[trigger] cells_in(cells, r, n)[j],
    decreases n,
{
    if n > 0 {
        lemma_cells_in(cells, r, (n - 1) as nat);
        let before = cells_in(cells, r, (n - 1) as nat);
        let after = cells_in(cells, r, n);
        assert forall|k: int| 0 <= k < after.len() implies {
            let c = #[trigger] after[k];
            c < n && cells[c as int].rank == r
        } by {
            if k < before.len() {
                assert(after[k] == before[k]);
            }
        }
        assert forall|c: int| 0 <= c < n && (#[trigger] cells[c]).rank == r implies after.contains(
            c as usize,
        ) by {
            if c < n - 1 {
                assert(before.contains(c as usize));
                let at = before.index_of(c as usize);
                assert(after[at] == c as usize);
            } else {
                assert(after[before.len() as int] == c as usize);
            }
        }
        assert forall|i: int, j: int| 0 <= i < j < after.len() implies #[trigger] after[i]
            < #[trigger] after[j] by {
            assert(after[i] == before[i]);
            if j < before.len() {
                assert(after[j] == before[j]);
            }
        }
    }
}

/// Orders cells within each rank to reduce edge crossings. Returns the cells of
/// each rank from left to right.
pub fn order_cells(
    cells: &Vec<Cell>,
    preds: &Vec<Vec<usize>>,
    succs: &Vec<Vec<usize>>,
    ordering_iterations: usize,
) -> (result: (Vec<Vec<usize>>, Vec<usize>))
    requires
        forall|i: int| 0 <= i < cells@.len() ==> (#[trigger] cells@[i]).rank < usize::MAX,
        preds@.len() == cells@.len(),
        succs@.len() == cells@.len(),
        lists_within(routing::lists(preds@), cells@.len()),
        lists_within(routing::lists(succs@), cells@.len()),
    ensures
        state(result.0@, result.1@) == arranged(
            first_arrangement(cells@),
            routing::lists(preds@),
            routing::lists(succs@),
            ordering_iterations as nat,
        ),
{
    let ghost count = cells@.len();
    let ghost up = routing::lists(preds@);
    let ghost down = routing::lists(succs@);
    let ranks: usize = count_ranks(cells);
    proof {
        lemma_rank_count(cells@, count);
    }
    let mut members: Vec<Vec<usize>> = Vec::new();
    for r in 0..ranks
        invariant
            members@.len() == r,
            forall|k: int| 0 <= k < r ==> (#[trigger] members@[k])@ == Seq::<usize>::empty(),
    {
        members.push(Vec::new());
    }
    let mut orders: Vec<usize> = Vec::new();
    for i in 0..cells.len()
        invariant
            count == cells@.len(),
            ranks == rank_count(cells@, count),
            forall|k: int| 0 <= k < count ==> (#[trigger] cells@[k]).rank < ranks,
            members@.len() == ranks,
            forall|r: int|
                0 <= r < ranks ==> (#[trigger] members@[r])@ == cells_in(cells@, r, i as nat),
            orders@.len() == i,
            forall|k: int| 0 <= k < i ==> #[trigger] orders@[k] == 0,
    {
        assert(cells@[i as int].rank < ranks);
        let rank: usize = cells[i].rank;
        let ghost held = members@;
        members[rank].push(i);
        orders.push(0);
        proof {
            assert forall|r: int| 0 <= r < ranks implies (#[trigger] members@[r])@ == cells_in(
                cells@,
                r,
                i as nat + 1,
            ) by {
                if r != rank {
                    assert(members@[r] == held[r]);
                }
            }
        }
    }
    let ghost first = first_arrangement(cells@);
    proof {
        assert(routing::lists(members@) =~= first.members);
        assert(orders@ =~= Seq::new(count, |i: int| 0usize));
        assert forall|r: int, k: int|
            0 <= r < first.members.len() && 0 <= k < first.members[r].len() implies #[trigger] first.members[r][k]
            < count by {
            lemma_cells_in(cells@, r, count);
            assert(first.members[r] == cells_in(cells@, r, count));
        }
    }
    let ghost blank = orders@;
    for r in 0..ranks
        invariant
            count == cells@.len(),
            ranks == members@.len(),
            first.members == routing::lists(members@),
            lists_within(first.members, count),
            blank.len() == count,
            orders@.len() == count,
            orders@ == all_numbered(blank, first.members, r as nat),
    {
        proof {
            assert(first.members[r as int] == members@[r as int]@);
            assert forall|k: int| 0 <= k < members@[r as int]@.len() implies #[trigger] members@[r as int]@[k]
                < orders@.len() by {
                assert(first.members[r as int][k] < count);
            }
            lemma_numbered_len(orders@, members@[r as int]@, members@[r as int]@.len());
        }
        write_rank_orders(&mut orders, &members[r]);
    }
    for iteration in 0..ordering_iterations
        invariant
            count == cells@.len(),
            count == preds@.len(),
            count == succs@.len(),
            up == routing::lists(preds@),
            down == routing::lists(succs@),
            lists_within(up, count),
            lists_within(down, count),
            members@.len() == ranks,
            sound(state(members@, orders@), count),
            state(members@, orders@) == arranged(first, up, down, iteration as nat),
    {
        let ghost before = state(members@, orders@);
        if iteration % 2 == 0 {
            let mut r: usize = 1;
            while r < ranks
                invariant
                    count == preds@.len(),
                    up == routing::lists(preds@),
                    lists_within(up, count),
                    members@.len() == ranks,
                    before.members.len() == ranks,
                    1 <= r,
                    r <= ranks || r == 1,
                    sound(state(members@, orders@), count),
                    state(members@, orders@) == swept_down(before, up, r as nat),
                decreases ranks - r,
            {
                order_rank(&mut members, &mut orders, preds, r);
                r = r + 1;
            }
        } else {
            let mut n: usize = 1;
            while n < ranks
                invariant
                    count == succs@.len(),
                    down == routing::lists(succs@),
                    lists_within(down, count),
                    members@.len() == ranks,
                    before.members.len() == ranks,
                    1 <= n,
                    n <= ranks || n == 1,
                    sound(state(members@, orders@), count),
                    state(members@, orders@) == swept_up(before, down, n as nat),
                decreases ranks - n,
            {
                n = n + 1;
                order_rank(&mut members, &mut orders, succs, ranks - n);
            }
        }
        transpose(&mut members, &mut orders, preds, succs);
    }
    (members, orders)
}

/// Whether an arrangement puts every cell into its rank, once, at the position
/// that its order says.
pub open spec fn places_all(a: Arrangement, cells: Seq<Cell>) -> bool {
    &&& a.orders.len() == cells.len()
    &&& a.members.len() == rank_count(cells, cells.len())
    &&& forall|r: int, p: int|
        0 <= r < a.members.len() && 0 <= p < a.members[r].len() ==> {
            let c = #[trigger] a.members[r][p];
            c < cells.len() && cells[c as int].rank == r && a.orders[c as int] == p
        }
    &&& forall|c: int|
        0 <= c < cells.len() ==> {
            let order = #[trigger] a.orders[c];
            order < a.members[cells[c].rank as int].len()
                && a.members[cells[c].rank as int][order as int] == c
        }
}

/// What numbering a list does to the orders.
proof fn lemma_numbered(orders: Seq<usize>, list: Seq<usize>, n: nat)
    requires
        n <= list.len() <= usize::MAX,
        list.no_duplicates(),
        forall|k: int| 0 <= k < list.len() ==> #[trigger] list[k] < orders.len(),
    ensures
        numbered(orders, list, n).len() == orders.len(),
        forall|k: int| 0 <= k < n ==> numbered(orders, list, n)[(#[trigger] list[k]) as int] == k,
        forall|c: int|
            0 <= c < orders.len() && !list.contains(c as usize) ==> #[trigger] numbered(
                orders,
                list,
                n,
            )[c] == orders[c],
        forall|k: int|
            n <= k < list.len() ==> numbered(orders, list, n)[(#[trigger] list[k]) as int]
                == orders[list[k] as int],
    decreases n,
{
    if n > 0 {
        lemma_numbered(orders, list, (n - 1) as nat);
        let before = numbered(orders, list, (n - 1) as nat);
        let after = numbered(orders, list, n);
        assert(list[n - 1] < orders.len());
        assert forall|c: int|
            0 <= c < orders.len() && !list.contains(c as usize) implies #[trigger] after[c]
            == orders[c] by {
            assert(list.contains(list[n - 1]));
            assert(before[c] == orders[c]);
        }
        assert forall|k: int| 0 <= k < n implies after[(#[trigger] list[k]) as int] == k by {
            if k < n - 1 {
                assert(list[k] != list[n - 1]);
            }
        }
        assert forall|k: int| n <= k < list.len() implies after[(#[trigger] list[k]) as int]
            == orders[list[k] as int] by {
            assert(list[k] != list[n - 1]);
        }
    }
}

pub(crate) proof fn lemma_rank_lists_distinct(a: Arrangement, cells: Seq<Cell>, r: int)
    requires
        places_all(a, cells),
        0 <= r < a.members.len(),
    ensures
        a.members[r].no_duplicates(),
{
    assert forall|p: int, q: int|
        0 <= p < a.members[r].len() && 0 <= q < a.members[r].len() && p != q implies a.members[r][p]
        != a.members[r][q] by {
        assert(a.orders[a.members[r][p] as int] == p);
        assert(a.orders[a.members[r][q] as int] == q);
    }
}

/// Reordering one rank, and numbering it anew, still places all cells.
proof fn lemma_relisted(a: Arrangement, cells: Seq<Cell>, r: int, list: Seq<usize>, orders: Seq<usize>)
    requires
        places_all(a, cells),
        0 <= r < a.members.len(),
        list.len() == a.members[r].len(),
        orders.len() == a.orders.len(),
        list.no_duplicates(),
        forall|p: int| 0 <= p < list.len() ==> a.members[r].contains(#[trigger] list[p]),
        forall|p: int| 0 <= p < list.len() ==> list.contains(#[trigger] a.members[r][p]),
        forall|p: int| 0 <= p < list.len() ==> orders[(#[trigger] list[p]) as int] == p,
        forall|c: int|
            0 <= c < cells.len() && cells[c].rank != r ==> #[trigger] orders[c] == a.orders[c],
    ensures
        places_all(Arrangement { members: a.members.update(r, list), orders }, cells),
{
    let b = Arrangement { members: a.members.update(r, list), orders };
    lemma_rank_count(cells, cells.len());
    assert forall|s: int, p: int|
        0 <= s < b.members.len() && 0 <= p < b.members[s].len() implies {
        let c = #[trigger] b.members[s][p];
        c < cells.len() && cells[c as int].rank == s && b.orders[c as int] == p
    } by {
        if s == r {
            assert(a.members[r].contains(list[p]));
            let q = a.members[r].index_of(list[p]);
            assert(a.members[r][q] == list[p]);
        } else {
            assert(b.members[s] == a.members[s]);
            let c = a.members[s][p];
            assert(cells[c as int].rank == s);
            assert(b.orders[c as int] == a.orders[c as int]);
        }
    }
    assert forall|c: int| 0 <= c < cells.len() implies {
        let order = #[trigger] b.orders[c];
        order < b.members[cells[c].rank as int].len() && b.members[cells[c].rank as int][order as int]
            == c
    } by {
        let s = cells[c].rank as int;
        let old_order = a.orders[c];
        assert(old_order < a.members[s].len() && a.members[s][old_order as int] == c);
        if s == r {
            assert(list.contains(a.members[r][old_order as int]));
            let p = list.index_of(c as usize);
            assert(list[p] == c as usize);
            assert(b.orders[list[p] as int] == p);
        } else {
            assert(b.orders[c] == a.orders[c]);
            assert(b.members[s] == a.members[s]);
        }
    }
}

pub(crate) proof fn lemma_sort_rank_places(a: Arrangement, neighbours: Seq<Seq<usize>>, r: int, cells: Seq<Cell>)
    requires
        places_all(a, cells),
        cells.len() <= usize::MAX,
        0 <= r < a.members.len(),
    ensures
        places_all(sort_rank(a, neighbours, r), cells),
{
    let list = a.members[r];
    lemma_rank_lists_distinct(a, cells, r);
    assert(list.len() <= cells.len()) by {
        lemma_distinct_len(list, cells.len());
    }
    let keys = sort_keys(a.orders, neighbours, list);
    let sorted = sorting::sorted_pairs(keys);
    lemma_sorted_places(keys);
    let new_list = sorted_rank(a.orders, neighbours, list);
    assert forall|p: int| 0 <= p < new_list.len() implies list.contains(#[trigger] new_list[p]) by {
        assert(sorted[p].1 < list.len());
        assert(new_list[p] == list[sorted[p].1 as int]);
    }
    assert(new_list.no_duplicates()) by {
        assert forall|p: int, q: int|
            0 <= p < new_list.len() && 0 <= q < new_list.len() && p != q implies new_list[p]
            != new_list[q] by {
            assert(sorted[p].1 != sorted[q].1) by {
                if p < q {
                } else {
                    assert(sorted[q].1 != sorted[p].1);
                }
            }
            assert(sorted[p].1 < list.len() && sorted[q].1 < list.len());
        }
    }
    assert forall|q: int| 0 <= q < list.len() implies new_list.contains(#[trigger] list[q]) by {
        assert(sorted.contains(keys[q]));
        let p = sorted.index_of(keys[q]);
        assert(sorted[p] == keys[q]);
        assert(new_list[p] == list[q]);
    }
    assert forall|p: int| 0 <= p < new_list.len() implies #[trigger] new_list[p] < a.orders.len() by {
        assert(sorted[p].1 < list.len());
        assert(a.members[r][sorted[p].1 as int] < cells.len());
    }
    lemma_numbered(a.orders, new_list, new_list.len());
    let orders = numbered(a.orders, new_list, new_list.len());
    assert forall|c: int| 0 <= c < cells.len() && cells[c].rank != r implies #[trigger] orders[c]
        == a.orders[c] by {
        if new_list.contains(c as usize) {
            let p = new_list.index_of(c as usize);
            assert(new_list[p] == c as usize);
            assert(list.contains(new_list[p]));
            let q = list.index_of(new_list[p]);
            assert(a.members[r][q] == c);
        }
    }
    lemma_relisted(a, cells, r, new_list, orders);
}

pub(crate) proof fn lemma_distinct_len(list: Seq<usize>, count: nat)
    requires
        list.no_duplicates(),
        forall|k: int| 0 <= k < list.len() ==> #[trigger] list[k] < count,
    ensures
        list.len() <= count,
{
    let ints = Seq::new(list.len(), |k: int| list[k] as int);
    assert(ints.no_duplicates());
    let all = vstd::set_lib::set_int_range(0, count as int);
    vstd::set_lib::lemma_int_range(0, count as int);
    ints.unique_seq_to_set();
    assert(ints.to_set().subset_of(all)) by {
        assert forall|x: int| ints.to_set().contains(x) implies all.contains(x) by {
            let at = ints.index_of(x);
            assert(ints.contains(x));
            assert(list[at] < count);
        }
    }
    vstd::set_lib::lemma_len_subset(ints.to_set(), all);
}

pub(crate) proof fn lemma_swapped_places(a: Arrangement, r: int, p: int, cells: Seq<Cell>)
    requires
        places_all(a, cells),
        cells.len() <= usize::MAX,
        0 <= r < a.members.len(),
        0 <= p < a.members[r].len() - 1,
    ensures
        places_all(swapped(a, r, p), cells),
{
    let list = a.members[r];
    lemma_rank_lists_distinct(a, cells, r);
    lemma_distinct_len(list, cells.len());
    let left = list[p];
    let right = list[p + 1];
    let new_list = list.update(p, right).update(p + 1, left);
    let orders = a.orders.update(left as int, (p + 1) as usize).update(right as int, p as usize);
    assert(a.members[r][p] < cells.len() && cells[left as int].rank == r);
    assert(a.members[r][p + 1] < cells.len() && cells[right as int].rank == r);
    assert(left != right);
    assert forall|q: int| 0 <= q < list.len() implies new_list.contains(#[trigger] list[q]) by {
        if q == p {
            assert(new_list[p + 1] == left);
        } else if q == p + 1 {
            assert(new_list[p] == right);
        } else {
            assert(new_list[q] == list[q]);
        }
    }
    assert forall|q: int| 0 <= q < new_list.len() implies list.contains(#[trigger] new_list[q]) by {
        if q == p {
            assert(list[p + 1] == right);
        } else if q == p + 1 {
            assert(list[p] == left);
        } else {
            assert(new_list[q] == list[q]);
        }
    }
    assert forall|q: int| 0 <= q < new_list.len() implies orders[(#[trigger] new_list[q]) as int]
        == q by {
        if q != p && q != p + 1 {
            assert(new_list[q] == list[q]);
            assert(list[q] != left && list[q] != right);
            assert(a.orders[a.members[r][q] as int] == q);
        }
    }
    lemma_relisted(a, cells, r, new_list, orders);
}

proof fn lemma_transposed_rank_places(
    a: Arrangement,
    preds: Seq<Seq<usize>>,
    succs: Seq<Seq<usize>>,
    r: int,
    n: nat,
    cells: Seq<Cell>,
)
    requires
        places_all(a, cells),
        cells.len() <= usize::MAX,
        0 <= r < a.members.len(),
        n <= pairs_in(a.members[r]),
    ensures
        places_all(transposed_rank(a, preds, succs, r, n).0, cells),
        transposed_rank(a, preds, succs, r, n).0.members[r].len() == a.members[r].len(),
    decreases n,
{
    if n > 0 {
        lemma_transposed_rank_places(a, preds, succs, r, (n - 1) as nat, cells);
        let before = transposed_rank(a, preds, succs, r, (n - 1) as nat).0;
        if better_swapped(before, preds, succs, r, n - 1) {
            lemma_swapped_places(before, r, n - 1, cells);
        }
    }
}

proof fn lemma_transposed_places(
    a: Arrangement,
    preds: Seq<Seq<usize>>,
    succs: Seq<Seq<usize>>,
    n: nat,
    cells: Seq<Cell>,
)
    requires
        places_all(a, cells),
        cells.len() <= usize::MAX,
        n <= a.members.len(),
    ensures
        places_all(transposed_once(a, preds, succs, n).0, cells),
    decreases n,
{
    if n > 0 {
        lemma_transposed_places(a, preds, succs, (n - 1) as nat, cells);
        let before = transposed_once(a, preds, succs, (n - 1) as nat).0;
        lemma_transposed_rank_places(
            before,
            preds,
            succs,
            n - 1,
            pairs_in(before.members[n - 1]),
            cells,
        );
    }
}

proof fn lemma_rounds_place(
    a: Arrangement,
    preds: Seq<Seq<usize>>,
    succs: Seq<Seq<usize>>,
    rounds: nat,
    cells: Seq<Cell>,
)
    requires
        places_all(a, cells),
        cells.len() <= usize::MAX,
    ensures
        places_all(transposed(a, preds, succs, rounds), cells),
    decreases rounds,
{
    if rounds > 0 {
        lemma_transposed_places(a, preds, succs, a.members.len(), cells);
        let (after, improved) = transposed_once(a, preds, succs, a.members.len());
        if improved {
            lemma_rounds_place(after, preds, succs, (rounds - 1) as nat, cells);
        }
    }
}

proof fn lemma_sweeps_place(a: Arrangement, neighbours: Seq<Seq<usize>>, n: nat, cells: Seq<Cell>)
    requires
        places_all(a, cells),
        cells.len() <= usize::MAX,
        n <= a.members.len(),
    ensures
        places_all(swept_down(a, neighbours, n), cells),
        places_all(swept_up(a, neighbours, n), cells),
    decreases n,
{
    if n > 1 {
        lemma_sweeps_place(a, neighbours, (n - 1) as nat, cells);
        lemma_sort_rank_places(
            swept_down(a, neighbours, (n - 1) as nat),
            neighbours,
            n - 1,
            cells,
        );
        lemma_sort_rank_places(
            swept_up(a, neighbours, (n - 1) as nat),
            neighbours,
            a.members.len() - n,
            cells,
        );
    }
}

/// Numbering the ranks one after the other numbers the cells of the first `n`.
proof fn lemma_all_numbered(cells: Seq<Cell>, orders: Seq<usize>, members: Seq<Seq<usize>>, n: nat)
    requires
        cells.len() <= usize::MAX,
        orders.len() == cells.len(),
        n <= members.len(),
        members == Seq::new(members.len(), |r: int| cells_in(cells, r, cells.len())),
    ensures
        all_numbered(orders, members, n).len() == cells.len(),
        forall|r: int, p: int|
            0 <= r < n && 0 <= p < members[r].len() ==> all_numbered(orders, members, n)[(
            #[trigger] members[r][p]) as int] == p,
    decreases n,
{
    if n > 0 {
        lemma_all_numbered(cells, orders, members, (n - 1) as nat);
        let before = all_numbered(orders, members, (n - 1) as nat);
        let after = all_numbered(orders, members, n);
        let list = members[n - 1];
        lemma_cells_in(cells, n - 1, cells.len());
        assert(list == cells_in(cells, n - 1, cells.len()));
        assert(list.no_duplicates()) by {
            assert forall|i: int, j: int|
                0 <= i < list.len() && 0 <= j < list.len() && i != j implies list[i] != list[j] by {
                if i < j {
                    assert(list[i] < list[j]);
                } else {
                    assert(list[j] < list[i]);
                }
            }
        }
        assert forall|k: int| 0 <= k < list.len() implies #[trigger] list[k] < before.len() by {}
        lemma_distinct_len(list, cells.len());
        lemma_numbered(before, list, list.len());
        assert forall|r: int, p: int| 0 <= r < n && 0 <= p < members[r].len() implies after[(
        #[trigger] members[r][p]) as int] == p by {
            let c = members[r][p];
            if r < n - 1 {
                lemma_cells_in(cells, r, cells.len());
                assert(members[r] == cells_in(cells, r, cells.len()));
                assert(cells[c as int].rank == r);
                assert(!list.contains(c)) by {
                    if list.contains(c) {
                        let q = list.index_of(c);
                        assert(list[q] == c);
                    }
                }
                assert(before[c as int] == p);
                assert(after[c as int] == before[c as int]);
            } else {
                assert(list[p] == c);
            }
        }
    }
}

proof fn lemma_first_places(cells: Seq<Cell>)
    requires
        cells.len() <= usize::MAX,
    ensures
        places_all(first_arrangement(cells), cells),
{
    let a = first_arrangement(cells);
    let blank = Seq::new(cells.len(), |i: int| 0usize);
    lemma_rank_count(cells, cells.len());
    lemma_all_numbered(cells, blank, a.members, a.members.len());
    assert forall|r: int, p: int| 0 <= r < a.members.len() && 0 <= p < a.members[r].len() implies {
        let c = #[trigger] a.members[r][p];
        c < cells.len() && cells[c as int].rank == r && a.orders[c as int] == p
    } by {
        lemma_cells_in(cells, r, cells.len());
        assert(a.members[r] == cells_in(cells, r, cells.len()));
    }
    assert forall|c: int| 0 <= c < cells.len() implies {
        let order = #[trigger] a.orders[c];
        order < a.members[cells[c].rank as int].len() && a.members[cells[c].rank as int][order as int]
            == c
    } by {
        let r = cells[c].rank as int;
        lemma_cells_in(cells, r, cells.len());
        assert(a.members[r] == cells_in(cells, r, cells.len()));
        assert(a.members[r].contains(c as usize));
        let p = a.members[r].index_of(c as usize);
        assert(a.members[r][p] == c as usize);
    }
}

/// However often cells are reordered, every cell stays in its rank, is listed
/// there once, and knows its position.
pub proof fn law_ordering_keeps_ranks(
    cells: Seq<Cell>,
    preds: Seq<Seq<usize>>,
    succs: Seq<Seq<usize>>,
    n: nat,
)
    requires
        cells.len() <= usize::MAX,
    ensures
        places_all(arranged(first_arrangement(cells), preds, succs, n), cells),
    decreases n,
{
    if n == 0 {
        lemma_first_places(cells);
    } else {
        law_ordering_keeps_ranks(cells, preds, succs, (n - 1) as nat);
        let before = arranged(first_arrangement(cells), preds, succs, (n - 1) as nat);
        let ranks = before.members.len();
        lemma_sweeps_place(before, preds, ranks, cells);
        lemma_sweeps_place(before, succs, ranks, cells);
        lemma_rounds_place(swept_down(before, preds, ranks), preds, succs, 4, cells);
        lemma_rounds_place(swept_up(before, succs, ranks), preds, succs, 4, cells);
    }
}

} // verus!
