//! Sorting by a key.

use vstd::prelude::*;

verus! {

/// The order of pairs: by the first number, then by the second.
pub open spec fn pair_le(a: (u128, usize), b: (u128, usize)) -> bool {
    a.0 < b.0 || (a.0 == b.0 && a.1 <= b.1)
}

/// The pairs in order.
pub open spec fn sorted_pairs(items: Seq<(u128, usize)>) -> Seq<(u128, usize)> {
    items.sort_by(|a: (u128, usize), b: (u128, usize)| pair_le(a, b))
}

proof fn lemma_pair_order()
    ensures
        vstd::relations::total_ordering(|a: (u128, usize), b: (u128, usize)| pair_le(a, b)),
{
    let le = |a: (u128, usize), b: (u128, usize)| pair_le(a, b);
    assert(vstd::relations::reflexive(le));
    assert(vstd::relations::antisymmetric(le));
    assert(vstd::relations::transitive(le));
    assert(vstd::relations::strongly_connected(le));
}

/// Whether the pairs stand in order.
pub open spec fn in_order(items: Seq<(u128, usize)>) -> bool {
    forall|i: int, j: int|
        0 <= i <= j < items.len() ==> pair_le(#[trigger] items[i], #[trigger] items[j])
}

/// What is in order and has the same pairs is the sorted sequence.
pub proof fn lemma_sorted_is_unique(items: Seq<(u128, usize)>, sorted: Seq<(u128, usize)>)
    requires
        in_order(sorted),
        sorted.to_multiset() == items.to_multiset(),
    ensures
        sorted == sorted_pairs(items),
{
    let le = |a: (u128, usize), b: (u128, usize)| pair_le(a, b);
    lemma_pair_order();
    items.lemma_sort_by_ensures(le);
    assert(vstd::relations::sorted_by(sorted, le));
    vstd::seq_lib::lemma_sorted_unique(sorted, items.sort_by(le), le);
}

/// The sorted pairs are in order and are the same pairs.
pub proof fn lemma_sorted_pairs(items: Seq<(u128, usize)>)
    ensures
        in_order(sorted_pairs(items)),
        sorted_pairs(items).to_multiset() == items.to_multiset(),
        sorted_pairs(items).len() == items.len(),
{
    broadcast use vstd::seq_lib::group_to_multiset_ensures;

    let le = |a: (u128, usize), b: (u128, usize)| pair_le(a, b);
    lemma_pair_order();
    items.lemma_sort_by_ensures(le);
    let sorted = items.sort_by(le);
    assert(sorted.to_multiset().len() == items.to_multiset().len());
    assert forall|i: int, j: int| 0 <= i <= j < sorted.len() implies pair_le(
        #[trigger] sorted[i],
        #[trigger] sorted[j],
    ) by {
        if i < j {
            assert(le(sorted[i], sorted[j]));
        }
    }
}

fn merge(a: Vec<(u128, usize)>, b: Vec<(u128, usize)>) -> (out: Vec<(u128, usize)>)
    requires
        in_order(a@),
        in_order(b@),
    ensures
        in_order(out@),
        out@.to_multiset() == a@.to_multiset().add(b@.to_multiset()),
{
    broadcast use vstd::seq_lib::group_to_multiset_ensures;

    let mut out: Vec<(u128, usize)> = Vec::new();
    let mut i: usize = 0;
    let mut j: usize = 0;
    proof {
        assert(a@.take(0) =~= Seq::empty());
        assert(b@.take(0) =~= Seq::empty());
        assert(out@.to_multiset() =~= a@.take(0).to_multiset().add(b@.take(0).to_multiset()));
    }
    while i < a.len() || j < b.len()
        invariant
            i <= a@.len(),
            j <= b@.len(),
            in_order(a@),
            in_order(b@),
            in_order(out@),
            forall|k: int, m: int|
                0 <= k < out@.len() && i <= m < a@.len() ==> pair_le(
                    #[trigger] out@[k],
                    #[trigger] a@[m],
                ),
            forall|k: int, m: int|
                0 <= k < out@.len() && j <= m < b@.len() ==> pair_le(
                    #[trigger] out@[k],
                    #[trigger] b@[m],
                ),
            out@.to_multiset() == a@.take(i as int).to_multiset().add(
                b@.take(j as int).to_multiset(),
            ),
        decreases a.len() - i + b.len() - j,
    {
        broadcast use vstd::seq_lib::group_to_multiset_ensures;

        let from_a: bool = j >= b.len() || (i < a.len() && (a[i].0 < b[j].0 || (a[i].0 == b[j].0
            && a[i].1 <= b[j].1)));
        let ghost held = out@;
        if from_a {
            out.push(a[i]);
            proof {
                assert(a@.take(i + 1) =~= a@.take(i as int).push(a@[i as int]));
                assert(out@.to_multiset() =~= a@.take(i + 1).to_multiset().add(
                    b@.take(j as int).to_multiset(),
                ));
            }
            i = i + 1;
        } else {
            out.push(b[j]);
            proof {
                assert(b@.take(j + 1) =~= b@.take(j as int).push(b@[j as int]));
                assert(out@.to_multiset() =~= a@.take(i as int).to_multiset().add(
                    b@.take(j + 1).to_multiset(),
                ));
            }
            j = j + 1;
        }
    }
    proof {
        assert(a@.take(a@.len() as int) =~= a@);
        assert(b@.take(b@.len() as int) =~= b@);
    }
    out
}

fn sort_range(items: &Vec<(u128, usize)>, from: usize, to: usize) -> (out: Vec<(u128, usize)>)
    requires
        from <= to <= items@.len(),
    ensures
        in_order(out@),
        out@.to_multiset() == items@.subrange(from as int, to as int).to_multiset(),
    decreases to - from,
{
    broadcast use vstd::seq_lib::group_to_multiset_ensures;

    let ghost part = items@.subrange(from as int, to as int);
    let mut out: Vec<(u128, usize)> = Vec::new();
    if from == to {
        assert(out@ =~= part);
        return out;
    }
    if to - from == 1 {
        out.push(items[from]);
        assert(out@ =~= part);
        return out;
    }
    let mid: usize = from + (to - from) / 2;
    let a: Vec<(u128, usize)> = sort_range(items, from, mid);
    let b: Vec<(u128, usize)> = sort_range(items, mid, to);
    proof {
        let x = items@.subrange(from as int, mid as int);
        let y = items@.subrange(mid as int, to as int);
        assert(x + y =~= part);
        vstd::seq_lib::lemma_multiset_commutative(x, y);
    }
    merge(a, b)
}

/// Sorts pairs by their first number, then by their second.
pub fn sort_pairs(items: &Vec<(u128, usize)>) -> (sorted: Vec<(u128, usize)>)
    ensures
        sorted@ == sorted_pairs(items@),
{
    let sorted: Vec<(u128, usize)> = sort_range(items, 0, items.len());
    proof {
        assert(items@.subrange(0, items@.len() as int) =~= items@);
        lemma_sorted_is_unique(items@, sorted@);
    }
    sorted
}

} // verus!
