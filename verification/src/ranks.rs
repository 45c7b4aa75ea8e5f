//! Assigning the drawn boxes to ranks.
//!
//! Boxes are assigned to horizontal layers by dependency depth. ONNX graphs are
//! required to be acyclic, but a malformed model could contain a cycle, so
//! boxes are released one at a time: whenever one has all its predecessors
//! released, it comes next, and where none has, the one nearest to the top
//! does. A box's rank is one more than the highest among the predecessors
//! released before it.

use crate::model::ValueId;
use crate::sorting::{self, sort_pairs};
use vstd::prelude::*;

verus! {

/// A dependency between two drawn boxes.
#[derive(Copy, Clone, PartialEq, Eq, Debug, Structural)]
pub struct Link {
    pub from: usize,
    pub to: usize,
    pub value: ValueId,
}

/// Whether every link is between two of the first `count` boxes.
pub open spec fn links_within(links: Seq<Link>, count: nat) -> bool {
    forall|j: int|
        0 <= j < links.len() ==> (#[trigger] links[j]).from < count && links[j].to < count
}

/// Whether a link leads from another box into `v`.
pub open spec fn leads_into(link: Link, v: int) -> bool {
    link.to == v && link.from != v
}

/// The rank that `v` gets from those of its predecessors that are among `done`,
/// looking at the first `m` links.
pub open spec fn rank_below(
    links: Seq<Link>,
    done: Seq<int>,
    ranks: Seq<usize>,
    v: int,
    m: nat,
) -> nat
    decreases m,
{
    if m == 0 {
        0
    } else {
        let before = rank_below(links, done, ranks, v, (m - 1) as nat);
        let link = links[m - 1];
        if leads_into(link, v) && done.contains(link.from as int) && ranks[link.from as int] + 1
            > before {
            (ranks[link.from as int] + 1) as nat
        } else {
            before
        }
    }
}

/// Whether all predecessors of `v` are among `done`.
pub open spec fn is_ready(links: Seq<Link>, done: Seq<int>, v: int) -> bool {
    forall|j: int|
        0 <= j < links.len() && leads_into(#[trigger] links[j], v) ==> done.contains(
            links[j].from as int,
        )
}

/// Whether `v` is nearer to the top than `w`, as far as the boxes that are done
/// decide, or level with it and not behind it.
pub open spec fn nearer(
    links: Seq<Link>,
    done: Seq<int>,
    ranks: Seq<usize>,
    v: int,
    w: int,
) -> bool {
    let a = rank_below(links, done, ranks, v, links.len());
    let b = rank_below(links, done, ranks, w, links.len());
    a < b || (a == b && v <= w)
}

/// Whether `v` may be released next: all its predecessors are done, or there is
/// no such box and it is the one nearest to the top.
pub open spec fn comes_next(
    links: Seq<Link>,
    count: nat,
    done: Seq<int>,
    ranks: Seq<usize>,
    v: int,
) -> bool {
    is_ready(links, done, v) || breaks_cycle(links, count, done, ranks, v)
}

/// Whether no box is ready, and `v` is the one nearest to the top.
pub open spec fn breaks_cycle(
    links: Seq<Link>,
    count: nat,
    done: Seq<int>,
    ranks: Seq<usize>,
    v: int,
) -> bool {
    forall|w: int|
        0 <= w < count && !(#[trigger] done.contains(w)) ==> !is_ready(links, done, w) && nearer(
            links,
            done,
            ranks,
            v,
            w,
        )
}

/// Whether `order` releases every box once, each when it may come next, and
/// each with the rank that the boxes released before it give it.
pub open spec fn releases(
    links: Seq<Link>,
    count: nat,
    order: Seq<int>,
    ranks: Seq<usize>,
) -> bool {
    &&& order.len() == count
    &&& ranks.len() == count
    &&& order.no_duplicates()
    &&& forall|k: int| 0 <= k < order.len() ==> 0 <= #[trigger] order[k] < count
    &&& forall|k: int|
        0 <= k < order.len() ==> released_well(links, count, order, ranks, k, #[trigger] order[k])
}

pub open spec fn released_well(
    links: Seq<Link>,
    count: nat,
    order: Seq<int>,
    ranks: Seq<usize>,
    k: int,
    v: int,
) -> bool {
    &&& comes_next(links, count, order.take(k), ranks, v)
    &&& ranks[v] == rank_below(links, order.take(k), ranks, v, links.len())
}

/// Whether boxes are ranked as the links demand.
pub open spec fn ranked(links: Seq<Link>, count: nat, ranks: Seq<usize>) -> bool {
    exists|order: Seq<int>| #[trigger] releases(links, count, order, ranks)
}

/// How many of the first `m` links lead into `v` from boxes that are not done.
spec fn pending(links: Seq<Link>, done: Seq<int>, v: int, m: nat) -> nat
    decreases m,
{
    if m == 0 {
        0
    } else {
        pending(links, done, v, (m - 1) as nat) + if leads_into(links[m - 1], v)
            && !done.contains(links[m - 1].from as int) {
            1nat
        } else {
            0
        }
    }
}

/// Where the first `m` links lead from `u`, but for those back into it.
pub open spec fn successors(links: Seq<Link>, u: int, m: nat) -> Seq<usize>
    decreases m,
{
    if m == 0 {
        Seq::empty()
    } else {
        let before = successors(links, u, (m - 1) as nat);
        let link = links[m - 1];
        if link.from == u && link.to != u {
            before.push(link.to)
        } else {
            before
        }
    }
}

/// How often `v` is among the first `k` items.
spec fn occurrences(items: Seq<usize>, v: int, k: nat) -> nat
    decreases k,
{
    if k == 0 {
        0
    } else {
        occurrences(items, v, (k - 1) as nat) + if items[k - 1] == v {
            1nat
        } else {
            0
        }
    }
}

proof fn lemma_occurrences_push(items: Seq<usize>, item: usize, v: int, k: nat)
    requires
        k <= items.len(),
    ensures
        occurrences(items.push(item), v, k) == occurrences(items, v, k),
    decreases k,
{
    if k > 0 {
        lemma_occurrences_push(items, item, v, (k - 1) as nat);
    }
}

proof fn lemma_occurrences_grow(items: Seq<usize>, v: int, j: nat, k: nat)
    requires
        j <= k,
    ensures
        occurrences(items, v, j) <= occurrences(items, v, k),
    decreases k,
{
    if j < k {
        lemma_occurrences_grow(items, v, j, (k - 1) as nat);
    }
}

proof fn lemma_push_contains(done: Seq<int>, u: int)
    ensures
        forall|x: int| #[trigger] done.push(u).contains(x) <==> done.contains(x) || x == u,
{
    assert forall|x: int| #[trigger] done.push(u).contains(x) <==> done.contains(x) || x == u by {
        if done.contains(x) {
            let at = done.index_of(x);
            assert(done.push(u)[at] == x);
        }
        assert(done.push(u)[done.len() as int] == u);
    }
}

/// What remains pending once `u` is done.
proof fn lemma_pending_after(links: Seq<Link>, done: Seq<int>, u: int, v: int, m: nat)
    requires
        m <= links.len(),
        !done.contains(u),
    ensures
        pending(links, done, v, m) == pending(links, done.push(u), v, m) + occurrences(
            successors(links, u, m),
            v,
            successors(links, u, m).len(),
        ),
    decreases m,
{
    if m > 0 {
        lemma_push_contains(done, u);
        lemma_pending_after(links, done, u, v, (m - 1) as nat);
        let before = successors(links, u, (m - 1) as nat);
        let link = links[m - 1];
        if link.from == u && link.to != u {
            lemma_occurrences_push(before, link.to, v, before.len());
        }
    }
}

/// The rank that `v` gets once `u` is done, too.
proof fn lemma_rank_after(
    links: Seq<Link>,
    done: Seq<int>,
    ranks: Seq<usize>,
    u: int,
    v: int,
    m: nat,
)
    requires
        m <= links.len(),
        !done.contains(u),
    ensures
        ({
            let before = rank_below(links, done, ranks, v, m);
            let after = rank_below(links, done.push(u), ranks, v, m);
            let reached = occurrences(
                successors(links, u, m),
                v,
                successors(links, u, m).len(),
            ) > 0;
            after == if reached && ranks[u] + 1 > before {
                (ranks[u] + 1) as nat
            } else {
                before
            }
        }),
    decreases m,
{
    if m > 0 {
        lemma_push_contains(done, u);
        lemma_rank_after(links, done, ranks, u, v, (m - 1) as nat);
        let before = successors(links, u, (m - 1) as nat);
        let link = links[m - 1];
        if link.from == u && link.to != u {
            lemma_occurrences_push(before, link.to, v, before.len());
        }
    }
}

/// Ranks that agree on what is done give the same.
proof fn lemma_rank_same(
    links: Seq<Link>,
    done: Seq<int>,
    a: Seq<usize>,
    b: Seq<usize>,
    v: int,
    m: nat,
)
    requires
        m <= links.len(),
        forall|x: int| done.contains(x) ==> #[trigger] a[x] == b[x],
    ensures
        rank_below(links, done, a, v, m) == rank_below(links, done, b, v, m),
    decreases m,
{
    if m > 0 {
        lemma_rank_same(links, done, a, b, v, (m - 1) as nat);
        let link = links[m - 1];
        if done.contains(link.from as int) {
            assert(a[link.from as int] == b[link.from as int]);
        }
    }
}

proof fn lemma_pending_zero(links: Seq<Link>, done: Seq<int>, v: int, m: nat)
    requires
        m <= links.len(),
    ensures
        pending(links, done, v, m) == 0 <==> forall|j: int|
            0 <= j < m && leads_into(#[trigger] links[j], v) ==> done.contains(
                links[j].from as int,
            ),
        pending(links, done, v, m) <= m,
    decreases m,
{
    if m > 0 {
        lemma_pending_zero(links, done, v, (m - 1) as nat);
        if pending(links, done, v, m) == 0 {
            assert forall|j: int| 0 <= j < m && leads_into(#[trigger] links[j], v) implies done.contains(
                links[j].from as int,
            ) by {}
        } else if pending(links, done, v, (m - 1) as nat) == 0 {
            assert(leads_into(links[m - 1], v));
            assert(!done.contains(links[m - 1].from as int));
        }
    }
}

proof fn lemma_successors_within(links: Seq<Link>, u: int, count: nat, m: nat)
    requires
        m <= links.len(),
        links_within(links, count),
    ensures
        forall|k: int|
            0 <= k < successors(links, u, m).len() ==> {
                let v = #[trigger] successors(links, u, m)[k];
                v < count && v != u
            },
    decreases m,
{
    if m > 0 {
        lemma_successors_within(links, u, count, (m - 1) as nat);
        assert(links[m - 1].to < count);
        let before = successors(links, u, (m - 1) as nat);
        let after = successors(links, u, m);
        assert forall|k: int| 0 <= k < after.len() implies {
            let v = #[trigger] after[k];
            v < count && v != u
        } by {
            if k < before.len() {
                assert(after[k] == before[k]);
            }
        }
    }
}

/// Boxes being released.
struct Ranker {
    succs: Vec<Vec<usize>>,
    in_degree: Vec<usize>,
    ranks: Vec<usize>,
    released: Vec<bool>,
    /// Boxes that can be released, as all their predecessors have been.
    ready: Vec<usize>,
}

impl Ranker {
    /// Whether the state is that after releasing `done`, where `skip` may be
    /// missing among the boxes that are ready.
    spec fn inv(self, links: Seq<Link>, count: nat, done: Seq<int>, skip: int) -> bool {
        &&& links_within(links, count)
        &&& forall|x: int| #[trigger] done.contains(x) ==> 0 <= x < count
        &&& self.succs@.len() == count
        &&& self.in_degree@.len() == count
        &&& self.ranks@.len() == count
        &&& self.released@.len() == count
        &&& forall|u: int|
            0 <= u < count ==> (#[trigger] self.succs@[u])@ == successors(links, u, links.len())
        &&& forall|v: int| 0 <= v < count ==> #[trigger] self.released@[v] == done.contains(v)
        &&& forall|v: int|
            0 <= v < count ==> #[trigger] self.in_degree@[v] == pending(
                links,
                done,
                v,
                links.len(),
            )
        &&& forall|v: int|
            0 <= v < count && !done.contains(v) ==> #[trigger] self.ranks@[v] == rank_below(
                links,
                done,
                self.ranks@,
                v,
                links.len(),
            )
        &&& forall|v: int| 0 <= v < count ==> #[trigger] self.ranks@[v] <= done.len()
        &&& self.ready@.no_duplicates()
        &&& forall|k: int|
            0 <= k < self.ready@.len() ==> {
                let v = #[trigger] self.ready@[k];
                v < count && !done.contains(v as int) && self.in_degree@[v as int] == 0
            }
        &&& forall|v: int|
            0 <= v < count && v != skip && !done.contains(v) && #[trigger] self.in_degree@[v] == 0
                ==> self.ready@.contains(v as usize)
    }

    fn new(count: usize, links: &Vec<Link>) -> (ranker: Ranker)
        requires
            links_within(links@, count as nat),
        ensures
            ranker.inv(links@, count as nat, Seq::empty(), -1),
    {
        let mut succs: Vec<Vec<usize>> = Vec::new();
        let mut in_degree: Vec<usize> = Vec::new();
        let mut ranks: Vec<usize> = Vec::new();
        let mut released: Vec<bool> = Vec::new();
        for i in 0..count
            invariant
                succs@.len() == i,
                in_degree@.len() == i,
                ranks@.len() == i,
                released@.len() == i,
                forall|u: int| 0 <= u < i ==> (#[trigger] succs@[u])@ == Seq::<usize>::empty(),
                forall|u: int| 0 <= u < i ==> #[trigger] in_degree@[u] == 0,
                forall|u: int| 0 <= u < i ==> #[trigger] ranks@[u] == 0,
                forall|u: int| 0 <= u < i ==> !(#[trigger] released@[u]),
        {
            succs.push(Vec::new());
            in_degree.push(0);
            ranks.push(0);
            released.push(false);
        }
        let ghost none = Seq::<int>::empty();
        for j in 0..links.len()
            invariant
                links_within(links@, count as nat),
                none == Seq::<int>::empty(),
                succs@.len() == count,
                in_degree@.len() == count,
                forall|u: int|
                    0 <= u < count ==> (#[trigger] succs@[u])@ == successors(links@, u, j as nat),
                forall|v: int|
                    0 <= v < count ==> #[trigger] in_degree@[v] == pending(
                        links@,
                        none,
                        v,
                        j as nat,
                    ),
        {
            let link: Link = links[j];
            assert(link == links@[j as int]);
            if link.from != link.to {
                let ghost held = succs@;
                proof {
                    lemma_pending_zero(links@, none, link.to as int, j as nat);
                }
                succs[link.from].push(link.to);
                in_degree.set(link.to, in_degree[link.to] + 1);
                proof {
                    assert forall|u: int| 0 <= u < count implies (#[trigger] succs@[u])@
                        == successors(links@, u, j as nat + 1) by {
                        if u != link.from {
                            assert(succs@[u] == held[u]);
                        }
                    }
                }
            }
        }
        let mut ready: Vec<usize> = Vec::new();
        for i in 0..count
            invariant
                in_degree@.len() == count,
                ready@.no_duplicates(),
                forall|k: int|
                    0 <= k < ready@.len() ==> {
                        let v = #[trigger] ready@[k];
                        v < i && in_degree@[v as int] == 0
                    },
                forall|v: int|
                    0 <= v < i && #[trigger] in_degree@[v] == 0 ==> ready@.contains(v as usize),
        {
            if in_degree[i] == 0 {
                let ghost held = ready@;
                ready.push(i);
                proof {
                    assert forall|v: int| 0 <= v < i + 1 && #[trigger] in_degree@[v] == 0 implies ready@.contains(
                    v as usize) by {
                        if v < i {
                            let at = held.index_of(v as usize);
                            assert(held.contains(v as usize));
                            assert(ready@[at] == v as usize);
                        } else {
                            assert(ready@[held.len() as int] == v as usize);
                        }
                    }
                }
            }
        }
        let ranker = Ranker { succs, in_degree, ranks, released, ready };
        proof {
            assert forall|v: int| 0 <= v < count && !none.contains(v) implies #[trigger] ranker.ranks@[v]
                == rank_below(links@, none, ranker.ranks@, v, links@.len()) by {
                lemma_rank_of_none(links@, ranker.ranks@, v, links@.len());
            }
        }
        ranker
    }

    /// Releases the box `u`.
    fn release(
        &mut self,
        u: usize,
        Ghost(links): Ghost<Seq<Link>>,
        Ghost(count): Ghost<nat>,
        Ghost(done): Ghost<Seq<int>>,
    )
        requires
            old(self).inv(links, count, done, u as int),
            u < count,
            !done.contains(u as int),
            !old(self).ready@.contains(u),
            done.len() < usize::MAX,
        ensures
            final(self).inv(links, count, done.push(u as int), -1),
            forall|x: int|
                done.push(u as int).contains(x) ==> #[trigger] final(self).ranks@[x] == old(
                    self,
                ).ranks@[x],
    {
        let ghost before = *self;
        let ghost next = done.push(u as int);
        let ghost list = successors(links, u as int, links.len());
        let ghost start = self.ranks@;
        proof {
            lemma_push_contains(done, u as int);
            lemma_successors_within(links, u as int, count, links.len());
            assert(self.succs@[u as int]@ == list);
            assert forall|v: int| 0 <= v < count implies #[trigger] self.in_degree@[v] == pending(
                links,
                next,
                v,
                links.len(),
            ) + occurrences(list, v, list.len()) by {
                lemma_pending_after(links, done, u as int, v, links.len());
            }
        }
        self.released.set(u, true);
        let below: usize = self.ranks[u] + 1;
        let reach: usize = self.succs[u].len();
        for k in 0..reach
            invariant
                u < count,
                reach == list.len(),
                links_within(links, count),
                next == done.push(u as int),
                !done.contains(u as int),
                forall|x: int| #[trigger] next.contains(x) <==> done.contains(x) || x == u,
                list == successors(links, u as int, links.len()),
                forall|j: int|
                    0 <= j < list.len() ==> {
                        let v = #[trigger] list[j];
                        v < count && v != u
                    },
                self.succs@ == before.succs@,
                self.succs@.len() == count,
                self.succs@[u as int]@ == list,
                self.in_degree@.len() == count,
                self.ranks@.len() == count,
                start.len() == count,
                self.released@.len() == count,
                below == start[u as int] + 1,
                below <= next.len(),
                forall|v: int| 0 <= v < count ==> #[trigger] self.released@[v] == next.contains(v),
                forall|v: int|
                    0 <= v < count ==> #[trigger] self.in_degree@[v] == pending(
                        links,
                        next,
                        v,
                        links.len(),
                    ) + occurrences(list, v, list.len()) - occurrences(list, v, k as nat),
                forall|v: int|
                    0 <= v < count ==> #[trigger] self.ranks@[v] == if !next.contains(v)
                        && occurrences(list, v, k as nat) > 0 && below > start[v] {
                        below
                    } else {
                        start[v]
                    },
                forall|v: int| 0 <= v < count ==> #[trigger] start[v] <= next.len(),
                self.ready@.no_duplicates(),
                forall|j: int|
                    0 <= j < self.ready@.len() ==> {
                        let v = #[trigger] self.ready@[j];
                        v < count && !next.contains(v as int) && self.in_degree@[v as int] == 0
                    },
                forall|v: int|
                    0 <= v < count && !next.contains(v) && #[trigger] self.in_degree@[v] == 0
                        ==> self.ready@.contains(v as usize),
        {
            let succ: usize = self.succs[u][k];
            assert(succ == list[k as int]);
            let ghost held = *self;
            proof {
                assert forall|v: int| 0 <= v < count implies #[trigger] occurrences(
                    list,
                    v,
                    k as nat + 1,
                ) <= occurrences(list, v, list.len()) by {
                    lemma_occurrences_grow(list, v, k as nat + 1, list.len());
                }
                assert(occurrences(list, succ as int, k as nat + 1) == occurrences(
                    list,
                    succ as int,
                    k as nat,
                ) + 1);
                assert(self.in_degree@[succ as int] > 0);
                assert(!self.ready@.contains(succ)) by {
                    if self.ready@.contains(succ) {
                        let at = self.ready@.index_of(succ);
                        assert(self.ready@[at] == succ);
                    }
                }
            }
            if !self.released[succ] && below > self.ranks[succ] {
                self.ranks.set(succ, below);
            }
            let left: usize = self.in_degree[succ] - 1;
            self.in_degree.set(succ, left);
            if left == 0 && !self.released[succ] {
                self.ready.push(succ);
            }
            proof {
                assert forall|v: int|
                    0 <= v < count && !next.contains(v) && #[trigger] self.in_degree@[v]
                        == 0 implies self.ready@.contains(v as usize) by {
                    if v == succ {
                        assert(self.ready@[held.ready@.len() as int] == succ);
                    } else {
                        assert(held.in_degree@[v] == 0);
                        assert(held.ready@.contains(v as usize));
                        let at = held.ready@.index_of(v as usize);
                        assert(self.ready@[at] == v as usize);
                    }
                }
                assert forall|j: int| 0 <= j < self.ready@.len() implies {
                    let v = #[trigger] self.ready@[j];
                    v < count && !next.contains(v as int) && self.in_degree@[v as int] == 0
                } by {
                    if j < held.ready@.len() {
                        assert(self.ready@[j] == held.ready@[j]);
                        assert(held.ready@[j] != succ);
                    }
                }
            }
        }
        proof {
            assert forall|x: int| next.contains(x) implies #[trigger] self.ranks@[x] == start[x] by {}
            assert forall|v: int| 0 <= v < count && !next.contains(v) implies #[trigger] self.ranks@[v]
                == rank_below(links, next, self.ranks@, v, links.len()) by {
                lemma_rank_after(links, done, start, u as int, v, links.len());
                assert(start[v] == rank_below(links, done, start, v, links.len()));
                lemma_rank_same(links, next, start, self.ranks@, v, links.len());
            }
        }
    }
}

proof fn lemma_rank_of_none(links: Seq<Link>, ranks: Seq<usize>, v: int, m: nat)
    ensures
        rank_below(links, Seq::empty(), ranks, v, m) == 0,
    decreases m,
{
    if m > 0 {
        lemma_rank_of_none(links, ranks, v, (m - 1) as nat);
    }
}

/// A release stays well as more boxes are released and their ranks settled.
proof fn lemma_released_stays(
    links: Seq<Link>,
    count: nat,
    done: Seq<int>,
    a: Seq<usize>,
    b: Seq<usize>,
    u: int,
    k: int,
)
    requires
        0 <= k < done.len(),
        forall|x: int| done.contains(x) ==> #[trigger] a[x] == b[x],
        released_well(links, count, done, a, k, done[k]),
    ensures
        released_well(links, count, done.push(u), b, k, done.push(u)[k]),
{
    let v = done[k];
    let earlier = done.take(k);
    assert(done.push(u).take(k) =~= earlier);
    assert forall|x: int| earlier.contains(x) implies #[trigger] a[x] == b[x] by {
        let at = earlier.index_of(x);
        assert(done[at] == x);
        assert(done.contains(x));
    }
    assert(done.contains(v));
    lemma_rank_same(links, earlier, a, b, v, links.len());
    assert forall|w: int| #[trigger] nearer(links, earlier, a, v, w) == nearer(
        links,
        earlier,
        b,
        v,
        w,
    ) by {
        lemma_rank_same(links, earlier, a, b, w, links.len());
    }
    if !is_ready(links, earlier, v) {
        assert forall|w: int| 0 <= w < count && !(#[trigger] earlier.contains(w)) implies !is_ready(
            links,
            earlier,
            w,
        ) && nearer(links, earlier, b, v, w) by {
            assert(nearer(links, earlier, a, v, w));
        }
        assert(breaks_cycle(links, count, earlier, b, v));
    }
}

impl Ranker {
    /// The box nearest to the top among those not released.
    fn nearest(
        &self,
        count: usize,
        Ghost(links): Ghost<Seq<Link>>,
        Ghost(done): Ghost<Seq<int>>,
    ) -> (u: usize)
        requires
            self.inv(links, count as nat, done, -1),
            exists|v: int| 0 <= v < count && !#[trigger] done.contains(v),
        ensures
            u < count,
            !done.contains(u as int),
            forall|w: int|
                0 <= w < count && !done.contains(w) ==> #[trigger] nearer(
                    links,
                    done,
                    self.ranks@,
                    u as int,
                    w,
                ),
    {
        let mut best: Option<usize> = None;
        for i in 0..count
            invariant
                self.inv(links, count as nat, done, -1),
                match best {
                    Some(u) => {
                        &&& u < i
                        &&& !done.contains(u as int)
                        &&& forall|w: int|
                            0 <= w < i && !done.contains(w) ==> self.ranks@[u as int]
                                < #[trigger] self.ranks@[w] || (self.ranks@[u as int]
                                == self.ranks@[w] && u <= w)
                    },
                    None => forall|w: int| 0 <= w < i ==> #[trigger] done.contains(w),
                },
        {
            assert(self.released@[i as int] == done.contains(i as int));
            if !self.released[i] {
                let better: bool = match best {
                    Some(u) => self.ranks[i] < self.ranks[u],
                    None => true,
                };
                if better {
                    best = Some(i);
                }
            }
        }
        match best {
            Some(u) => {
                proof {
                    assert forall|w: int| 0 <= w < count && !done.contains(w) implies #[trigger] nearer(
                        links,
                        done,
                        self.ranks@,
                        u as int,
                        w,
                    ) by {
                        assert(self.ranks@[u as int] <= self.ranks@[w]);
                    }
                }
                u
            },
            None => {
                proof {
                    let v = choose|v: int| 0 <= v < count && !#[trigger] done.contains(v);
                    assert(done.contains(v));
                }
                0
            },
        }
    }
}

/// A list of distinct boxes that is shorter than their number misses one.
proof fn lemma_one_is_missing(done: Seq<int>, count: nat)
    requires
        done.no_duplicates(),
        done.len() < count,
        forall|x: int| #[trigger] done.contains(x) ==> 0 <= x < count,
    ensures
        exists|v: int| 0 <= v < count && !#[trigger] done.contains(v),
{
    if forall|v: int| 0 <= v < count ==> #[trigger] done.contains(v) {
        let all = vstd::set_lib::set_int_range(0, count as int);
        vstd::set_lib::lemma_int_range(0, count as int);
        done.unique_seq_to_set();
        assert(all.subset_of(done.to_set())) by {
            assert forall|v: int| all.contains(v) implies done.to_set().contains(v) by {
                assert(done.contains(v));
            }
        }
        vstd::set_lib::lemma_len_subset(all, done.to_set());
    }
}

/// Whether the boxes released so far were released well, each with a rank below
/// the number of them.
spec fn released_so_far(
    links: Seq<Link>,
    count: nat,
    done: Seq<int>,
    ranks: Seq<usize>,
) -> bool {
    &&& done.no_duplicates()
    &&& forall|k: int| 0 <= k < done.len() ==> 0 <= #[trigger] done[k] < count
    &&& forall|k: int|
        0 <= k < done.len() ==> released_well(links, count, done, ranks, k, #[trigger] done[k])
    &&& forall|k: int| 0 <= k < done.len() ==> ranks[#[trigger] done[k]] < done.len()
}

/// One more box released well.
proof fn lemma_one_more(
    links: Seq<Link>,
    count: nat,
    done: Seq<int>,
    held: Seq<usize>,
    now: Seq<usize>,
    u: int,
)
    requires
        released_so_far(links, count, done, held),
        0 <= u < count,
        !done.contains(u),
        comes_next(links, count, done, held, u),
        held[u] == rank_below(links, done, held, u, links.len()),
        held[u] <= done.len(),
        forall|x: int| done.push(u).contains(x) ==> #[trigger] now[x] == held[x],
    ensures
        released_so_far(links, count, done.push(u), now),
{
    let next = done.push(u);
    lemma_push_contains(done, u);
    assert forall|x: int| done.contains(x) implies #[trigger] held[x] == now[x] by {
        assert(next.contains(x));
    }
    assert forall|k: int| 0 <= k < next.len() implies released_well(
        links,
        count,
        next,
        now,
        k,
        #[trigger] next[k],
    ) by {
        if k < done.len() {
            assert(done[k] == next[k]);
            lemma_released_stays(links, count, done, held, now, u, k);
        } else {
            assert(next.take(k) =~= done);
            assert(next.contains(u));
            assert(now[u] == held[u]);
            lemma_rank_same(links, done, held, now, u, links.len());
            if !is_ready(links, done, u) {
                assert forall|w: int| 0 <= w < count && !(#[trigger] done.contains(w)) implies !is_ready(
                    links,
                    done,
                    w,
                ) && nearer(links, done, now, u, w) by {
                    lemma_rank_same(links, done, held, now, w, links.len());
                    assert(nearer(links, done, held, u, w));
                }
                assert(breaks_cycle(links, count, done, now, u));
            }
        }
    }
    assert forall|k: int| 0 <= k < next.len() implies now[#[trigger] next[k]] < next.len() by {
        if k < done.len() {
            assert(next[k] == done[k]);
            assert(done.contains(done[k]));
        } else {
            assert(next.contains(u));
        }
    }
    assert forall|i: int, j: int| 0 <= i < next.len() && 0 <= j < next.len() && i
        != j implies next[i] != next[j] by {
        if i < done.len() {
            assert(done.contains(done[i]));
        }
        if j < done.len() {
            assert(done.contains(done[j]));
        }
    }
}

impl Ranker {
    /// The box to be released next, taken off those that are ready.
    fn next_box(
        &mut self,
        count: usize,
        Ghost(links): Ghost<Seq<Link>>,
        Ghost(done): Ghost<Seq<int>>,
    ) -> (u: usize)
        requires
            old(self).inv(links, count as nat, done, -1),
            exists|v: int| 0 <= v < count && !#[trigger] done.contains(v),
        ensures
            final(self).inv(links, count as nat, done, u as int),
            final(self).ranks@ == old(self).ranks@,
            u < count,
            !done.contains(u as int),
            !final(self).ready@.contains(u),
            comes_next(links, count as nat, done, final(self).ranks@, u as int),
    {
        let ghost before = *self;
        match self.ready.pop() {
            Some(u) => {
                proof {
                    let last = before.ready@.len() - 1;
                    assert(u == before.ready@[last]);
                    lemma_pending_zero(links, done, u as int, links.len());
                    assert(is_ready(links, done, u as int));
                    assert(!self.ready@.contains(u)) by {
                        if self.ready@.contains(u) {
                            let at = self.ready@.index_of(u);
                            assert(before.ready@[at] == u);
                        }
                    }
                    assert forall|v: int|
                        0 <= v < count && v != u && !done.contains(v)
                            && #[trigger] self.in_degree@[v] == 0 implies self.ready@.contains(
                    v as usize) by {
                        assert(before.ready@.contains(v as usize));
                        let at = before.ready@.index_of(v as usize);
                        assert(before.ready@[at] == v as usize);
                        assert(self.ready@[at] == v as usize);
                    }
                }
                u
            },
            None => {
                let u: usize = self.nearest(count, Ghost(links), Ghost(done));
                proof {
                    assert forall|w: int|
                        0 <= w < count && !(#[trigger] done.contains(w)) implies !is_ready(
                        links,
                        done,
                        w,
                    ) && nearer(links, done, self.ranks@, u as int, w) by {
                        lemma_pending_zero(links, done, w, links.len());
                        if is_ready(links, done, w) {
                            assert(self.in_degree@[w] == 0);
                            assert(self.ready@.contains(w as usize));
                        }
                    }
                    assert(breaks_cycle(links, count as nat, done, self.ranks@, u as int));
                }
                u
            },
        }
    }
}

/// Assigns each box to a rank, so that every edge points downwards.
///
/// This is longest-path layering over a topological order. A malformed model
/// could contain a cycle, so where no box is ready the one nearest to the top
/// is released rather than being dropped.
pub fn assign_ranks(count: usize, links: &Vec<Link>) -> (ranks: Vec<usize>)
    requires
        links_within(links@, count as nat),
    ensures
        ranked(links@, count as nat, ranks@),
        ranks@.len() == count,
        forall|v: int| 0 <= v < count ==> #[trigger] ranks@[v] < count,
{
    let mut ranker: Ranker = Ranker::new(count, links);
    let ghost mut done = Seq::<int>::empty();
    for step in 0..count
        invariant
            ranker.inv(links@, count as nat, done, -1),
            done.len() == step,
            released_so_far(links@, count as nat, done, ranker.ranks@),
    {
        proof {
            assert forall|x: int| #[trigger] done.contains(x) implies 0 <= x < count by {
                let at = done.index_of(x);
                assert(done[at] == x);
            }
            lemma_one_is_missing(done, count as nat);
        }
        let u: usize = ranker.next_box(count, Ghost(links@), Ghost(done));
        let ghost held = ranker.ranks@;
        ranker.release(u, Ghost(links@), Ghost(count as nat), Ghost(done));
        proof {
            lemma_one_more(links@, count as nat, done, held, ranker.ranks@, u as int);
            done = done.push(u as int);
        }
    }
    proof {
        assert(releases(links@, count as nat, done, ranker.ranks@));
        assert forall|v: int| 0 <= v < count implies #[trigger] ranker.ranks@[v] < count by {
            lemma_all_present(done, count as nat, v);
            let at = done.index_of(v);
            assert(done[at] == v);
        }
    }
    ranker.ranks
}

/// A list of all the boxes has each of them.
proof fn lemma_all_present(done: Seq<int>, count: nat, v: int)
    requires
        done.no_duplicates(),
        done.len() == count,
        forall|k: int| 0 <= k < done.len() ==> 0 <= #[trigger] done[k] < count,
        0 <= v < count,
    ensures
        done.contains(v),
{
    if !done.contains(v) {
        let all = vstd::set_lib::set_int_range(0, count as int);
        vstd::set_lib::lemma_int_range(0, count as int);
        done.unique_seq_to_set();
        let rest = all.remove(v);
        assert(done.to_set().subset_of(rest)) by {
            assert forall|x: int| done.to_set().contains(x) implies rest.contains(x) by {
                let at = done.index_of(x);
                assert(done.contains(x));
                assert(done[at] == x);
            }
        }
        vstd::set_lib::lemma_len_subset(done.to_set(), rest);
    }
}

proof fn lemma_rank_bounds(
    links: Seq<Link>,
    done: Seq<int>,
    ranks: Seq<usize>,
    v: int,
    m: nat,
)
    requires
        m <= links.len(),
    ensures
        forall|j: int|
            0 <= j < m && leads_into(#[trigger] links[j], v) && done.contains(
                links[j].from as int,
            ) ==> ranks[links[j].from as int] < rank_below(links, done, ranks, v, m),
        rank_below(links, done, ranks, v, m) == 0 || exists|j: int|
            0 <= j < m && leads_into(#[trigger] links[j], v) && ranks[links[j].from as int] + 1
                == rank_below(links, done, ranks, v, m),
    decreases m,
{
    if m > 0 {
        lemma_rank_bounds(links, done, ranks, v, (m - 1) as nat);
        let before = rank_below(links, done, ranks, v, (m - 1) as nat);
        let after = rank_below(links, done, ranks, v, m);
        if after == before && before != 0 {
            let j = choose|j: int|
                0 <= j < m - 1 && leads_into(#[trigger] links[j], v) && ranks[links[j].from as int]
                    + 1 == before;
            assert(leads_into(links[j], v));
        } else if after != before {
            assert(leads_into(links[m - 1], v));
        }
    }
}

/// Whether `level` shows that following links never leads back.
pub open spec fn levels(links: Seq<Link>, level: spec_fn(int) -> nat) -> bool {
    forall|j: int|
        0 <= j < links.len() && (#[trigger] links[j]).from != links[j].to ==> level(
            links[j].from as int,
        ) < level(links[j].to as int)
}

/// Where links never lead back, some box is ready while not all are done.
proof fn lemma_some_is_ready(
    links: Seq<Link>,
    count: nat,
    done: Seq<int>,
    level: spec_fn(int) -> nat,
    w: int,
) -> (v: int)
    requires
        links_within(links, count),
        levels(links, level),
        0 <= w < count,
        !done.contains(w),
    ensures
        0 <= v < count,
        !done.contains(v),
        is_ready(links, done, v),
    decreases level(w),
{
    if is_ready(links, done, w) {
        w
    } else {
        let j = choose|j: int|
            0 <= j < links.len() && leads_into(#[trigger] links[j], w) && !done.contains(
                links[j].from as int,
            );
        lemma_some_is_ready(links, count, done, level, links[j].from as int)
    }
}

/// Where links never lead back, every link points downwards, and every box is
/// in the top rank or directly below one of its predecessors: its rank is the
/// length of the longest way to it.
pub proof fn law_links_point_down(
    links: Seq<Link>,
    count: nat,
    ranks: Seq<usize>,
    level: spec_fn(int) -> nat,
)
    requires
        links_within(links, count),
        levels(links, level),
        ranked(links, count, ranks),
    ensures
        forall|j: int|
            0 <= j < links.len() && (#[trigger] links[j]).from != links[j].to
                ==> ranks[links[j].from as int] < ranks[links[j].to as int],
        forall|v: int|
            0 <= v < count ==> #[trigger] ranks[v] == 0 || below_predecessor(links, ranks, v),
{
    let order = choose|order: Seq<int>| #[trigger] releases(links, count, order, ranks);
    assert forall|v: int| 0 <= v < count implies is_settled(links, order, ranks, v) by {
        lemma_all_present(order, count, v);
        let k = order.index_of(v);
        assert(order[k] == v);
        let done = order.take(k);
        assert(released_well(links, count, order, ranks, k, order[k]));
        assert(!done.contains(v)) by {
            if done.contains(v) {
                let at = done.index_of(v);
                assert(order[at] == v);
            }
        }
        if !is_ready(links, done, v) {
            let w = lemma_some_is_ready(links, count, done, level, v);
            assert(!done.contains(w));
            assert(breaks_cycle(links, count, done, ranks, v));
        }
        lemma_rank_bounds(links, done, ranks, v, links.len());
    }
    assert forall|j: int| 0 <= j < links.len() && (#[trigger] links[j]).from
        != links[j].to implies ranks[links[j].from as int] < ranks[links[j].to as int] by {
        assert(is_settled(links, order, ranks, links[j].to as int));
        assert(leads_into(links[j], links[j].to as int));
    }
    assert forall|v: int| 0 <= v < count implies #[trigger] ranks[v] == 0 || below_predecessor(
        links,
        ranks,
        v,
    ) by {
        assert(is_settled(links, order, ranks, v));
    }
}

/// Whether `v` is directly below one of its predecessors.
pub open spec fn below_predecessor(links: Seq<Link>, ranks: Seq<usize>, v: int) -> bool {
    exists|j: int|
        0 <= j < links.len() && leads_into(#[trigger] links[j], v) && ranks[links[j].from as int] + 1
            == ranks[v]
}

spec fn is_settled(links: Seq<Link>, order: Seq<int>, ranks: Seq<usize>, v: int) -> bool {
    &&& forall|j: int|
        0 <= j < links.len() && leads_into(#[trigger] links[j], v) ==> ranks[links[j].from as int]
            < ranks[v]
    &&& ranks[v] == 0 || below_predecessor(links, ranks, v)
}

/// Whether some box is in the rank `r`.
pub open spec fn is_occupied(ranks: Seq<usize>, r: int) -> bool {
    exists|i: int| 0 <= i < ranks.len() && #[trigger] ranks[i] == r
}

/// How many ranks above `r` are occupied.
pub open spec fn occupied_above(ranks: Seq<usize>, r: nat) -> nat
    decreases r,
{
    if r == 0 {
        0
    } else {
        occupied_above(ranks, (r - 1) as nat) + if is_occupied(ranks, r - 1) {
            1nat
        } else {
            0
        }
    }
}

/// The ranks with the empty ones closed up.
pub open spec fn compacted(ranks: Seq<usize>) -> Seq<usize> {
    Seq::new(ranks.len(), |i: int| occupied_above(ranks, ranks[i] as nat) as usize)
}

proof fn lemma_occupied_bound(ranks: Seq<usize>, r: nat)
    ensures
        occupied_above(ranks, r) <= r,
    decreases r,
{
    if r > 0 {
        lemma_occupied_bound(ranks, (r - 1) as nat);
    }
}

proof fn lemma_occupied_grows(ranks: Seq<usize>, a: nat, b: nat)
    requires
        a < b,
    ensures
        occupied_above(ranks, a) <= occupied_above(ranks, b),
        is_occupied(ranks, a as int) ==> occupied_above(ranks, a) < occupied_above(ranks, b),
    decreases b,
{
    if a < b - 1 {
        lemma_occupied_grows(ranks, a, (b - 1) as nat);
    }
}

/// Every number below that of the ranks above `r` is that of an occupied one.
proof fn lemma_occupied_dense(ranks: Seq<usize>, r: nat, q: nat) -> (i: int)
    requires
        q < occupied_above(ranks, r),
    ensures
        0 <= i < ranks.len(),
        ranks[i] < r,
        occupied_above(ranks, ranks[i] as nat) == q,
    decreases r,
{
    if is_occupied(ranks, r - 1) && q == occupied_above(ranks, (r - 1) as nat) {
        choose|i: int| 0 <= i < ranks.len() && #[trigger] ranks[i] == r - 1
    } else {
        lemma_occupied_dense(ranks, (r - 1) as nat, q)
    }
}

/// Closing up ranks keeps boxes above, level with and below one another, and
/// leaves no rank empty above one that is occupied.
pub proof fn law_compacting_closes_gaps(ranks: Seq<usize>)
    ensures
        compacted(ranks).len() == ranks.len(),
        forall|i: int, j: int|
            0 <= i < ranks.len() && 0 <= j < ranks.len() ==> ((#[trigger] compacted(ranks)[i]
                < #[trigger] compacted(ranks)[j]) <==> (ranks[i] < ranks[j])),
        forall|i: int, q: int|
            #![trigger compacted(ranks)[i], is_occupied(compacted(ranks), q)]
            0 <= i < ranks.len() && 0 <= q < compacted(ranks)[i] ==> is_occupied(
                compacted(ranks),
                q,
            ),
{
    let new = compacted(ranks);
    assert forall|i: int| 0 <= i < ranks.len() implies #[trigger] new[i] == occupied_above(
        ranks,
        ranks[i] as nat,
    ) by {
        lemma_occupied_bound(ranks, ranks[i] as nat);
    }
    assert forall|i: int, j: int| 0 <= i < ranks.len() && 0 <= j < ranks.len() implies ((
    #[trigger] new[i] < #[trigger] new[j]) <==> (ranks[i] < ranks[j])) by {
        if ranks[i] < ranks[j] {
            assert(is_occupied(ranks, ranks[i] as int));
            lemma_occupied_grows(ranks, ranks[i] as nat, ranks[j] as nat);
        } else if ranks[j] < ranks[i] {
            lemma_occupied_grows(ranks, ranks[j] as nat, ranks[i] as nat);
        }
    }
    assert forall|i: int, q: int|
        #![trigger new[i], is_occupied(new, q)]
        0 <= i < ranks.len() && 0 <= q < new[i] implies is_occupied(new, q) by {
        let k = lemma_occupied_dense(ranks, ranks[i] as nat, q as nat);
        assert(new[k] == q);
    }
}

/// Boxes in adjacent ranks stay in adjacent ranks.
proof fn lemma_compacting_keeps_adjacent(ranks: Seq<usize>, i: int, j: int)
    requires
        0 <= i < ranks.len(),
        0 <= j < ranks.len(),
        ranks[i] + 1 == ranks[j],
    ensures
        compacted(ranks)[i] + 1 == compacted(ranks)[j],
{
    lemma_occupied_bound(ranks, ranks[i] as nat);
    lemma_occupied_bound(ranks, ranks[j] as nat);
    assert(is_occupied(ranks, ranks[i] as int));
}

/// Closes up ranks that are empty, which would otherwise be drawn as a band of
/// blank space.
pub fn compact_ranks(ranks: &mut Vec<usize>)
    requires
        forall|i: int| 0 <= i < old(ranks)@.len() ==> #[trigger] old(ranks)@[i] < usize::MAX,
    ensures
        final(ranks)@ == compacted(old(ranks)@),
{
    let ghost before = ranks@;
    let count: usize = ranks.len();
    let mut limit: usize = 0;
    for i in 0..count
        invariant
            ranks@ == before,
            count == before.len(),
            forall|k: int| 0 <= k < before.len() ==> #[trigger] before[k] < usize::MAX,
            forall|k: int| 0 <= k < i ==> #[trigger] before[k] < limit,
    {
        if ranks[i] >= limit {
            limit = ranks[i] + 1;
        }
    }
    let mut occupied: Vec<bool> = Vec::new();
    for r in 0..limit
        invariant
            occupied@.len() == r,
            forall|k: int| 0 <= k < r ==> !(#[trigger] occupied@[k]),
    {
        occupied.push(false);
    }
    for i in 0..count
        invariant
            ranks@ == before,
            count == before.len(),
            occupied@.len() == limit,
            forall|k: int| 0 <= k < count ==> #[trigger] before[k] < limit,
            forall|r: int|
                0 <= r < limit ==> #[trigger] occupied@[r] == is_occupied(before.take(i as int), r),
    {
        let ghost held = occupied@;
        let rank: usize = ranks[i];
        occupied.set(rank, true);
        proof {
            let now = before.take(i as int);
            let next = before.take(i + 1);
            assert forall|r: int| 0 <= r < limit implies #[trigger] occupied@[r] == is_occupied(
                next,
                r,
            ) by {
                assert(held[r] == is_occupied(now, r));
                if is_occupied(now, r) {
                    let k = choose|k: int| 0 <= k < now.len() && #[trigger] now[k] == r;
                    assert(next[k] == r);
                }
                if r == rank {
                    assert(next[i as int] == r);
                }
                if is_occupied(next, r) && r != rank {
                    let k = choose|k: int| 0 <= k < next.len() && #[trigger] next[k] == r;
                    assert(now[k] == r);
                }
            }
        }
    }
    assert(before.take(count as int) =~= before);
    let mut renumbered: Vec<usize> = Vec::new();
    let mut next: usize = 0;
    for r in 0..limit
        invariant
            occupied@.len() == limit,
            renumbered@.len() == r,
            forall|k: int|
                0 <= k < limit ==> #[trigger] occupied@[k] == is_occupied(before, k),
            forall|k: int|
                0 <= k < r ==> #[trigger] renumbered@[k] == occupied_above(before, k as nat),
            next == occupied_above(before, r as nat),
            next <= r,
    {
        renumbered.push(next);
        if occupied[r] {
            next = next + 1;
        }
    }
    for i in 0..count
        invariant
            count == before.len(),
            ranks@.len() == count,
            renumbered@.len() == limit,
            forall|k: int| 0 <= k < count ==> #[trigger] before[k] < limit,
            forall|k: int|
                0 <= k < limit ==> #[trigger] renumbered@[k] == occupied_above(before, k as nat),
            forall|k: int| i <= k < count ==> #[trigger] ranks@[k] == before[k],
            forall|k: int| 0 <= k < i ==> #[trigger] ranks@[k] == compacted(before)[k],
    {
        let rank: usize = ranks[i];
        ranks.set(i, renumbered[rank]);
    }
    assert(ranks@ =~= compacted(before));
}

/// The lowest rank among the first `k` of the listed boxes.
pub open spec fn lowest(ranks: Seq<usize>, items: Seq<usize>, k: nat) -> Option<usize>
    decreases k,
{
    if k == 0 {
        None
    } else {
        let here = ranks[items[k - 1] as int];
        match lowest(ranks, items, (k - 1) as nat) {
            Some(rank) => Some(if here < rank { here } else { rank }),
            None => Some(here),
        }
    }
}

/// Those of the first `n` boxes that are marked, each with how far it is from
/// the bottom.
pub open spec fn marked(ranks: Seq<usize>, marks: Seq<bool>, n: nat) -> Seq<(u128, usize)>
    decreases n,
{
    if n == 0 {
        Seq::empty()
    } else {
        let before = marked(ranks, marks, (n - 1) as nat);
        if marks[n - 1] {
            before.push(((usize::MAX - ranks[n - 1]) as u128, (n - 1) as usize))
        } else {
            before
        }
    }
}

/// The ranks after the first `k` boxes of `order` are moved, one after the
/// other, to just above the first of their consumers.
pub open spec fn sunk(
    ranks: Seq<usize>,
    links: Seq<Link>,
    order: Seq<(u128, usize)>,
    k: nat,
) -> Seq<usize>
    decreases k,
{
    if k == 0 {
        ranks
    } else {
        let before = sunk(ranks, links, order, (k - 1) as nat);
        let i = order[k - 1].1;
        let consumers = successors(links, i as int, links.len());
        match lowest(before, consumers, consumers.len()) {
            Some(rank) => before.update(
                i as int,
                if rank > 0 {
                    (rank - 1) as usize
                } else {
                    0
                },
            ),
            None => before,
        }
    }
}

/// The ranks with the marked boxes, taken from the lowest upwards, moved to just
/// above the first of their consumers.
pub open spec fn sunk_marked(ranks: Seq<usize>, links: Seq<Link>, marks: Seq<bool>) -> Seq<usize> {
    let order = sorting::sorted_pairs(marked(ranks, marks, ranks.len()));
    sunk(ranks, links, order, order.len())
}

/// The ranks once the marked boxes are moved and the ranks that leaves empty are
/// closed up. Where none is marked, they stay as they are.
pub open spec fn settled_ranks(
    ranks: Seq<usize>,
    links: Seq<Link>,
    marks: Seq<bool>,
) -> Seq<usize> {
    if marks.contains(true) {
        compacted(sunk_marked(ranks, links, marks))
    } else {
        ranks
    }
}

proof fn lemma_marked(ranks: Seq<usize>, marks: Seq<bool>, n: nat)
    requires
        n <= ranks.len() <= usize::MAX,
    ensures
        forall|k: int|
            0 <= k < marked(ranks, marks, n).len() ==> {
                let entry = #[trigger] marked(ranks, marks, n)[k];
                &&& entry.1 < n
                &&& marks[entry.1 as int]
                &&& entry.0 == usize::MAX - ranks[entry.1 as int]
            },
        forall|i: int|
            0 <= i < n && #[trigger] marks[i] ==> marked(ranks, marks, n).contains(
                ((usize::MAX - ranks[i]) as u128, i as usize),
            ),
        forall|i: int, j: int|
            0 <= i < j < marked(ranks, marks, n).len() ==> (#[trigger] marked(ranks, marks, n)[i]).1
                < (#[trigger] marked(ranks, marks, n)[j]).1,
    decreases n,
{
    if n > 0 {
        lemma_marked(ranks, marks, (n - 1) as nat);
        let before = marked(ranks, marks, (n - 1) as nat);
        let after = marked(ranks, marks, n);
        assert forall|i: int| 0 <= i < n && #[trigger] marks[i] implies after.contains(
            ((usize::MAX - ranks[i]) as u128, i as usize),
        ) by {
            let entry = ((usize::MAX - ranks[i]) as u128, i as usize);
            if i < n - 1 {
                assert(before.contains(entry));
                let at = before.index_of(entry);
                assert(after[at] == entry);
            } else {
                assert(after[before.len() as int] == entry);
            }
        }
        assert forall|k: int| 0 <= k < after.len() implies {
            let entry = #[trigger] after[k];
            &&& entry.1 < n
            &&& marks[entry.1 as int]
            &&& entry.0 == usize::MAX - ranks[entry.1 as int]
        } by {
            if k < before.len() {
                assert(after[k] == before[k]);
            }
        }
        assert forall|i: int, j: int| 0 <= i < j < after.len() implies (#[trigger] after[i]).1 < (
        #[trigger] after[j]).1 by {
            assert(after[i] == before[i]);
            if j < before.len() {
                assert(after[j] == before[j]);
            }
        }
    }
}

/// The order in which marked boxes are moved: the lowest first, each once.
proof fn lemma_sink_order(ranks: Seq<usize>, marks: Seq<bool>)
    requires
        ranks.len() <= usize::MAX,
    ensures
        ({
            let order = sorting::sorted_pairs(marked(ranks, marks, ranks.len()));
            &&& forall|k: int|
                0 <= k < order.len() ==> {
                    let i = (#[trigger] order[k]).1;
                    i < ranks.len() && marks[i as int]
                }
            &&& forall|j: int, k: int|
                0 <= j < k < order.len() ==> ranks[(#[trigger] order[j]).1 as int]
                    >= ranks[(#[trigger] order[k]).1 as int] && order[j].1 != order[k].1
            &&& forall|i: int|
                0 <= i < ranks.len() && #[trigger] marks[i] ==> in_sink_order(order, i)
        }),
{
    broadcast use vstd::seq_lib::group_to_multiset_ensures;

    let list = marked(ranks, marks, ranks.len());
    let order = sorting::sorted_pairs(list);
    lemma_marked(ranks, marks, ranks.len());
    sorting::lemma_sorted_pairs(list);
    assert forall|k: int| 0 <= k < order.len() implies list.contains(#[trigger] order[k]) by {
        assert(order.contains(order[k]));
        assert(order.to_multiset().count(order[k]) > 0);
        assert(list.to_multiset().count(order[k]) > 0);
    }
    assert forall|k: int| 0 <= k < order.len() implies {
        let i = (#[trigger] order[k]).1;
        i < ranks.len() && marks[i as int] && order[k].0 == usize::MAX - ranks[i as int]
    } by {
        assert(list.contains(order[k]));
        let at = list.index_of(order[k]);
        assert(list[at] == order[k]);
    }
    list.lemma_multiset_has_no_duplicates();
    assert(list.no_duplicates());
    assert(order.no_duplicates()) by {
        order.lemma_multiset_has_no_duplicates_conv();
    }
    assert forall|j: int, k: int| 0 <= j < k < order.len() implies ranks[(
    #[trigger] order[j]).1 as int] >= ranks[(#[trigger] order[k]).1 as int] && order[j].1
        != order[k].1 by {
        assert(sorting::pair_le(order[j], order[k]));
        if order[j].1 == order[k].1 {
            assert(order[j] == order[k]);
        }
    }
    assert forall|i: int| 0 <= i < ranks.len() && #[trigger] marks[i] implies in_sink_order(
        order,
        i,
    ) by {
        let entry = ((usize::MAX - ranks[i]) as u128, i as usize);
        assert(list.contains(entry));
        assert(list.to_multiset().count(entry) > 0);
        assert(order.to_multiset().count(entry) > 0);
        assert(order.contains(entry));
        let at = order.index_of(entry);
        assert(order[at].1 == i);
    }
}

/// Whether box `i` is among those to be moved.
spec fn in_sink_order(order: Seq<(u128, usize)>, i: int) -> bool {
    exists|k: int| 0 <= k < order.len() && (#[trigger] order[k]).1 == i
}

/// Moves boxes that only work on constants down to just above their first
/// consumer.
///
/// Longest-path layering puts everything without a predecessor in the top rank.
/// A shape computation or a generated mask therefore starts at the top of the
/// drawing, however far down the node that uses it sits, leaving an edge
/// stretched across the whole graph. These boxes have no path back to a graph
/// input, so nothing is holding them up there.
///
/// Boxes are lowered in reverse rank order so that a chain of them collapses in
/// one pass: each is placed against a successor that has already moved.
pub fn sink_constant_fed(ranks: &mut Vec<usize>, links: &Vec<Link>, constant_fed: &Vec<bool>)
    requires
        constant_fed@.len() == old(ranks)@.len(),
        links_within(links@, old(ranks)@.len()),
        forall|i: int| 0 <= i < old(ranks)@.len() ==> #[trigger] old(ranks)@[i] < usize::MAX,
    ensures
        final(ranks)@ == settled_ranks(old(ranks)@, links@, constant_fed@),
        final(ranks)@.len() == old(ranks)@.len(),
        forall|i: int| 0 <= i < final(ranks)@.len() ==> #[trigger] final(ranks)@[i] < usize::MAX,
{
    let ghost before = ranks@;
    let count: usize = ranks.len();
    let mut entries: Vec<(u128, usize)> = Vec::new();
    for i in 0..count
        invariant
            ranks@ == before,
            count == before.len(),
            constant_fed@.len() == count,
            entries@ == marked(before, constant_fed@, i as nat),
            entries@.len() == 0 ==> forall|k: int| 0 <= k < i ==> !(#[trigger] constant_fed@[k]),
    {
        if constant_fed[i] {
            entries.push(((usize::MAX - ranks[i]) as u128, i));
        }
    }
    if entries.len() == 0 {
        return;
    }
    proof {
        lemma_marked(before, constant_fed@, count as nat);
        let first = entries@[0];
        assert(constant_fed@[first.1 as int]);
        assert(constant_fed@.contains(true));
        lemma_sink_order(before, constant_fed@);
    }
    let order: Vec<(u128, usize)> = sort_pairs(&entries);
    let mut consumers: Vec<Vec<usize>> = Vec::new();
    for i in 0..count
        invariant
            consumers@.len() == i,
            forall|u: int| 0 <= u < i ==> (#[trigger] consumers@[u])@ == Seq::<usize>::empty(),
    {
        consumers.push(Vec::new());
    }
    for j in 0..links.len()
        invariant
            links_within(links@, count as nat),
            consumers@.len() == count,
            forall|u: int|
                0 <= u < count ==> (#[trigger] consumers@[u])@ == successors(
                    links@,
                    u,
                    j as nat,
                ),
    {
        let link: Link = links[j];
        assert(link == links@[j as int]);
        if link.from != link.to {
            let ghost held = consumers@;
            consumers[link.from].push(link.to);
            proof {
                assert forall|u: int| 0 <= u < count implies (#[trigger] consumers@[u])@
                    == successors(links@, u, j as nat + 1) by {
                    if u != link.from {
                        assert(consumers@[u] == held[u]);
                    }
                }
            }
        }
    }
    for k in 0..order.len()
        invariant
            count == before.len(),
            ranks@.len() == count,
            consumers@.len() == count,
            links_within(links@, count as nat),
            forall|u: int|
                0 <= u < count ==> (#[trigger] consumers@[u])@ == successors(
                    links@,
                    u,
                    links@.len(),
                ),
            forall|j: int| 0 <= j < order@.len() ==> (#[trigger] order@[j]).1 < count,
            ranks@ == sunk(before, links@, order@, k as nat),
            forall|i: int| 0 <= i < count ==> #[trigger] ranks@[i] < usize::MAX,
    {
        let index: usize = order[k].1;
        assert(order@[k as int].1 < count);
        let items: &Vec<usize> = &consumers[index];
        proof {
            lemma_successors_within(links@, index as int, count as nat, links@.len());
        }
        let mut low: Option<usize> = None;
        for j in 0..items.len()
            invariant
                ranks@.len() == count,
                forall|n: int| 0 <= n < items@.len() ==> #[trigger] items@[n] < count,
                low == lowest(ranks@, items@, j as nat),
                forall|i: int| 0 <= i < count ==> #[trigger] ranks@[i] < usize::MAX,
                low is Some ==> low->0 < usize::MAX,
        {
            let rank: usize = ranks[items[j]];
            low = match low {
                Some(other) => Some(if rank < other {
                    rank
                } else {
                    other
                }),
                None => Some(rank),
            };
        }
        // A consumer is always at least one rank down, but a broken cycle could
        // leave one level with or above this box.
        if let Some(rank) = low {
            let above: usize = if rank > 0 {
                rank - 1
            } else {
                0
            };
            ranks.set(index, above);
        }
    }
    let ghost low = ranks@;
    compact_ranks(ranks);
    proof {
        assert forall|i: int| 0 <= i < ranks@.len() implies #[trigger] ranks@[i] < usize::MAX by {
            assert(low[i] < usize::MAX);
            lemma_occupied_bound(low, low[i] as nat);
        }
    }
}

/// Whether every link points downwards.
pub open spec fn all_down(links: Seq<Link>, ranks: Seq<usize>) -> bool {
    forall|j: int|
        0 <= j < links.len() && (#[trigger] links[j]).from != links[j].to
            ==> ranks[links[j].from as int] < ranks[links[j].to as int]
}

proof fn lemma_lowest(ranks: Seq<usize>, items: Seq<usize>, k: nat)
    requires
        k <= items.len(),
    ensures
        k == 0 <==> lowest(ranks, items, k) is None,
        forall|j: int|
            0 <= j < k ==> lowest(ranks, items, k)->0 <= ranks[(#[trigger] items[j]) as int],
        k > 0 ==> exists|j: int|
            0 <= j < k && ranks[(#[trigger] items[j]) as int] == lowest(ranks, items, k)->0,
    decreases k,
{
    if k > 0 {
        lemma_lowest(ranks, items, (k - 1) as nat);
        let low = lowest(ranks, items, k)->0;
        if low == ranks[items[k - 1] as int] {
        } else {
            let j = choose|j: int|
                0 <= j < k - 1 && ranks[(#[trigger] items[j]) as int] == low;
            assert(ranks[items[j] as int] == low);
        }
    }
}

/// The items of a list of successors are where links lead.
proof fn lemma_successor_links(links: Seq<Link>, u: int, m: nat)
    requires
        m <= links.len(),
    ensures
        forall|k: int|
            0 <= k < successors(links, u, m).len() ==> link_between(
                links,
                u,
                (#[trigger] successors(links, u, m)[k]) as int,
            ),
        forall|j: int|
            0 <= j < m && (#[trigger] links[j]).from == u && links[j].to != u ==> successors(
                links,
                u,
                m,
            ).contains(links[j].to),
    decreases m,
{
    if m > 0 {
        lemma_successor_links(links, u, (m - 1) as nat);
        let before = successors(links, u, (m - 1) as nat);
        let after = successors(links, u, m);
        assert forall|k: int| 0 <= k < after.len() implies link_between(
            links,
            u,
            (#[trigger] after[k]) as int,
        ) by {
            if k < before.len() {
                assert(after[k] == before[k]);
            } else {
                assert(links[m - 1].from == u);
            }
        }
        assert forall|j: int|
            0 <= j < m && (#[trigger] links[j]).from == u && links[j].to != u implies after.contains(
        links[j].to) by {
            if j < m - 1 {
                assert(before.contains(links[j].to));
                let at = before.index_of(links[j].to);
                assert(after[at] == links[j].to);
            } else {
                assert(after[before.len() as int] == links[j].to);
            }
        }
    }
}

/// Whether a link leads from `u` to another box `v`.
pub open spec fn link_between(links: Seq<Link>, u: int, v: int) -> bool {
    u != v && exists|j: int|
        0 <= j < links.len() && (#[trigger] links[j]).from == u && links[j].to == v
}

/// Whether box `i` is directly above one of its consumers, if it has any.
pub open spec fn above_consumer(links: Seq<Link>, ranks: Seq<usize>, i: int) -> bool {
    successors(links, i, links.len()).len() > 0 ==> exists|k: int|
        0 <= k < successors(links, i, links.len()).len() && ranks[(#[trigger] successors(
            links,
            i,
            links.len(),
        )[k]) as int] == ranks[i] + 1
}

/// What holds after the first `k` boxes of the order have been moved.
spec fn sinking(
    ranks: Seq<usize>,
    links: Seq<Link>,
    order: Seq<(u128, usize)>,
    k: nat,
) -> bool {
    let now = sunk(ranks, links, order, k);
    &&& now.len() == ranks.len()
    &&& all_down(links, now)
    &&& forall|i: int| 0 <= i < ranks.len() ==> ranks[i] <= #[trigger] now[i]
    &&& forall|j: int| k <= j < order.len() ==> now[(#[trigger] order[j]).1 as int] == ranks[order[j].1 as int]
    &&& forall|j: int| 0 <= j < k ==> above_consumer(links, now, (#[trigger] order[j]).1 as int)
    &&& forall|i: int|
        0 <= i < ranks.len() && !in_sink_order(order, i) ==> #[trigger] now[i] == ranks[i]
}

proof fn lemma_sinking(
    ranks: Seq<usize>,
    links: Seq<Link>,
    order: Seq<(u128, usize)>,
    k: nat,
)
    requires
        k <= order.len(),
        links_within(links, ranks.len()),
        all_down(links, ranks),
        forall|j: int| 0 <= j < order.len() ==> (#[trigger] order[j]).1 < ranks.len(),
        forall|j: int, m: int|
            0 <= j < m < order.len() ==> ranks[(#[trigger] order[j]).1 as int] >= ranks[(
            #[trigger] order[m]).1 as int] && order[j].1 != order[m].1,
    ensures
        sinking(ranks, links, order, k),
    decreases k,
{
    if k > 0 {
        let p = (k - 1) as nat;
        lemma_sinking(ranks, links, order, p);
        let before = sunk(ranks, links, order, p);
        let now = sunk(ranks, links, order, k);
        let i = order[p as int].1 as int;
        let items = successors(links, i, links.len());
        lemma_lowest(before, items, items.len());
        lemma_successor_links(links, i, links.len());
        lemma_successors_within(links, i, ranks.len(), links.len());
        assert(before[i] == ranks[i]);
        if items.len() > 0 {
            let low = lowest(before, items, items.len())->0;
            let at = choose|j: int| 0 <= j < items.len() && before[(#[trigger] items[j]) as int] == low;
            let c = items[at] as int;
            assert(link_between(links, i, c));
            let l = choose|j: int|
                0 <= j < links.len() && (#[trigger] links[j]).from == i && links[j].to == c;
            assert(before[links[l].from as int] < before[links[l].to as int]);
            assert(now == before.update(i, (low - 1) as usize));
            assert(now[c] == now[i] + 1);
            assert(ranks[i] <= now[i]);
            assert forall|j: int| 0 <= j < links.len() && (#[trigger] links[j]).from
                != links[j].to implies now[links[j].from as int] < now[links[j].to as int] by {
                assert(before[links[j].from as int] < before[links[j].to as int]);
                if links[j].from == i {
                    assert(items.contains(links[j].to));
                    let m = items.index_of(links[j].to);
                    assert(low <= before[items[m] as int]);
                }
            }
            assert forall|j: int| 0 <= j < k implies above_consumer(
                links,
                now,
                (#[trigger] order[j]).1 as int,
            ) by {
                let b = order[j].1 as int;
                let list = successors(links, b, links.len());
                if j < p {
                    assert(above_consumer(links, before, b));
                    assert(ranks[order[j].1 as int] >= ranks[order[p as int].1 as int]);
                    if list.len() > 0 {
                        let m = choose|m: int|
                            0 <= m < list.len() && before[(#[trigger] list[m]) as int] == before[b]
                                + 1;
                        lemma_successor_links(links, b, links.len());
                        assert(link_between(links, b, list[m] as int));
                        if list[m] == i {
                            let l2 = choose|q: int|
                                0 <= q < links.len() && (#[trigger] links[q]).from == b
                                    && links[q].to == i;
                            assert(ranks[links[l2].from as int] < ranks[links[l2].to as int]);
                        }
                        assert(now[list[m] as int] == now[b] + 1);
                    }
                } else {
                    assert(now[items[at] as int] == now[b] + 1);
                }
            }
        } else {
            assert(now == before);
            assert forall|j: int| 0 <= j < k implies above_consumer(
                links,
                now,
                (#[trigger] order[j]).1 as int,
            ) by {}
        }
        assert forall|j: int| k <= j < order.len() implies now[(#[trigger] order[j]).1 as int]
            == ranks[order[j].1 as int] by {
            assert(order[p as int].1 != order[j].1);
        }
        assert forall|v: int| 0 <= v < ranks.len() && !in_sink_order(order, v) implies #[trigger] now[v]
            == ranks[v] by {
            assert(order[p as int].1 != v);
        }
    }
}

/// Where every link points downwards, it still does after the boxes that only
/// work on constants are moved, and each of those boxes that has a consumer
/// ends up directly above one.
pub proof fn law_sinking_keeps_links_down(
    ranks: Seq<usize>,
    links: Seq<Link>,
    marks: Seq<bool>,
)
    requires
        ranks.len() <= usize::MAX,
        marks.len() == ranks.len(),
        links_within(links, ranks.len()),
        all_down(links, ranks),
    ensures
        sunk_marked(ranks, links, marks).len() == ranks.len(),
        all_down(links, compacted(sunk_marked(ranks, links, marks))),
        forall|i: int|
            0 <= i < ranks.len() && #[trigger] marks[i] ==> above_consumer(
                links,
                compacted(sunk_marked(ranks, links, marks)),
                i,
            ),
        forall|i: int|
            0 <= i < ranks.len() && !marks[i] ==> #[trigger] sunk_marked(ranks, links, marks)[i]
                == ranks[i],
        forall|i: int|
            0 <= i < ranks.len() ==> ranks[i] <= #[trigger] sunk_marked(ranks, links, marks)[i],
{
    let order = sorting::sorted_pairs(marked(ranks, marks, ranks.len()));
    let now = sunk_marked(ranks, links, marks);
    lemma_sink_order(ranks, marks);
    lemma_sinking(ranks, links, order, order.len());
    law_compacting_closes_gaps(now);
    let new = compacted(now);
    assert forall|j: int| 0 <= j < links.len() && (#[trigger] links[j]).from
        != links[j].to implies new[links[j].from as int] < new[links[j].to as int] by {
        assert(now[links[j].from as int] < now[links[j].to as int]);
    }
    assert forall|i: int| 0 <= i < ranks.len() && #[trigger] marks[i] implies above_consumer(
        links,
        new,
        i,
    ) by {
        assert(in_sink_order(order, i));
        let k = choose|k: int| 0 <= k < order.len() && (#[trigger] order[k]).1 == i;
        assert(above_consumer(links, now, order[k].1 as int));
        let list = successors(links, i, links.len());
        if list.len() > 0 {
            let m = choose|m: int|
                0 <= m < list.len() && now[(#[trigger] list[m]) as int] == now[i] + 1;
            lemma_successors_within(links, i, ranks.len(), links.len());
            lemma_compacting_keeps_adjacent(now, i, list[m] as int);
            assert(new[list[m] as int] == new[i] + 1);
        }
    }
    assert forall|i: int| 0 <= i < ranks.len() && !marks[i] implies #[trigger] now[i] == ranks[i] by {
        if in_sink_order(order, i) {
            let k = choose|k: int| 0 <= k < order.len() && (#[trigger] order[k]).1 == i;
            assert(marks[order[k].1 as int]);
        }
    }
}

} // verus!
