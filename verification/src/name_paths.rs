//! Which modules a node's name leads through.

use crate::chars;
use crate::hierarchy;
use crate::splitting;
use vstd::prelude::*;

verus! {

/// A slash in front makes an empty piece.
proof fn lemma_split_leading(name: Seq<char>)
    ensures
        chars::split_on(seq!['/'] + name, '/') == seq![Seq::<char>::empty()] + chars::split_on(
            name,
            '/',
        ),
    decreases name.len(),
{
    let s = seq!['/'] + name;
    let nothing = Seq::<char>::empty();
    if name.len() == 0 {
        assert(s.drop_last() =~= nothing);
        assert(chars::split_on(nothing, '/') == seq![nothing]);
        assert(s.last() == '/');
        assert(name =~= nothing);
        assert(seq![nothing].push(nothing) =~= seq![nothing] + seq![nothing]);
    } else {
        lemma_split_leading(name.drop_last());
        chars::lemma_split_is_not_empty(name.drop_last(), '/');
        assert(s.drop_last() =~= seq!['/'] + name.drop_last());
        assert(s.last() == name.last());
        let before = chars::split_on(name.drop_last(), '/');
        let all = seq![nothing] + before;
        assert(all.push(nothing) =~= seq![nothing] + before.push(nothing));
        assert(all.last() == before.last());
        assert(all.drop_last().push(all.last().push(name.last())) =~= seq![nothing]
            + before.drop_last().push(before.last().push(name.last())));
    }
}

proof fn lemma_non_empty_all(pieces: Seq<Seq<char>>, n: nat)
    requires
        n <= pieces.len(),
        forall|i: int| 0 <= i < n ==> (#[trigger] pieces[i]).len() > 0,
    ensures
        hierarchy::non_empty(pieces, n) == pieces.take(n as int),
    decreases n,
{
    if n > 0 {
        lemma_non_empty_all(pieces, (n - 1) as nat);
        assert(pieces[n - 1].len() > 0);
        assert(pieces.take(n as int) =~= pieces.take(n - 1).push(pieces[n - 1]));
    } else {
        assert(pieces.take(0) =~= Seq::<Seq<char>>::empty());
    }
}

proof fn lemma_non_empty_behind_nothing(pieces: Seq<Seq<char>>, n: nat)
    requires
        n <= pieces.len(),
    ensures
        hierarchy::non_empty(seq![Seq::<char>::empty()] + pieces, n + 1) == hierarchy::non_empty(
            pieces,
            n,
        ),
    decreases n,
{
    let all = seq![Seq::<char>::empty()] + pieces;
    if n > 0 {
        lemma_non_empty_behind_nothing(pieces, (n - 1) as nat);
        assert(all[n as int] == pieces[n - 1]);
    } else {
        assert(hierarchy::non_empty(all, 0) =~= Seq::<Seq<char>>::empty());
        assert(all[0].len() == 0);
    }
}

proof fn lemma_non_empty_longer(pieces: Seq<Seq<char>>, more: Seq<char>, n: nat)
    requires
        n <= pieces.len(),
    ensures
        hierarchy::non_empty(pieces.push(more), n) == hierarchy::non_empty(pieces, n),
    decreases n,
{
    if n > 0 {
        lemma_non_empty_longer(pieces, more, (n - 1) as nat);
    }
}

/// A name made of segments leads through all of them but the last, which names
/// the operator.
pub proof fn law_segments_lead_to_the_operator(segments: Seq<Seq<char>>)
    requires
        segments.len() > 0,
        forall|i: int|
            0 <= i < segments.len() ==> splitting::lacks(#[trigger] segments[i], '/') && segments[i].len() > 0,
    ensures
        hierarchy::path_segments(splitting::spaced(segments, '/')) == segments.drop_last(),
{
    splitting::law_splitting_undoes_spacing(segments, '/');
    lemma_non_empty_all(segments, (segments.len() - 1) as nat);
    assert(segments.take(segments.len() - 1) =~= segments.drop_last());
}

/// A slash in front of a name does not change which modules it leads through.
pub proof fn law_leading_slashes_do_not_count(name: Seq<char>)
    ensures
        hierarchy::path_segments(seq!['/'] + name) == hierarchy::path_segments(name),
{
    lemma_split_leading(name);
    chars::lemma_split_is_not_empty(name, '/');
    let pieces = chars::split_on(name, '/');
    lemma_non_empty_behind_nothing(pieces, (pieces.len() - 1) as nat);
}

/// A name without a slash leads through no module. Otherwise what follows the
/// last slash does not matter, and what stands between the last two, if
/// anything, is the innermost module.
pub proof fn law_last_slash_ends_the_path(
    head: Seq<char>,
    middle: Seq<char>,
    operator: Seq<char>,
    other: Seq<char>,
)
    requires
        splitting::lacks(middle, '/'),
        splitting::lacks(operator, '/'),
        splitting::lacks(other, '/'),
    ensures
        hierarchy::path_segments(operator).len() == 0,
        hierarchy::path_segments(head + seq!['/'] + operator) == hierarchy::path_segments(
            head + seq!['/'] + other,
        ),
        hierarchy::path_segments(head + seq!['/'] + middle + seq!['/'] + operator) == if middle.len()
            > 0 {
            hierarchy::path_segments(head + seq!['/'] + operator).push(middle)
        } else {
            hierarchy::path_segments(head + seq!['/'] + operator)
        },
        hierarchy::path_segments(middle + seq!['/'] + operator) == if middle.len() > 0 {
            seq![middle]
        } else {
            Seq::empty()
        },
{
    let inner = head + seq!['/'] + middle;
    let pieces = chars::split_on(head, '/');
    splitting::lemma_split_nothing(operator, '/');
    splitting::lemma_split_behind(head, operator, '/');
    splitting::lemma_split_behind(head, other, '/');
    splitting::lemma_split_behind(head, middle, '/');
    splitting::lemma_split_behind(inner, operator, '/');
    splitting::lemma_split_nothing(middle, '/');
    splitting::lemma_split_behind(middle, operator, '/');
    let n = pieces.len();
    lemma_non_empty_longer(pieces, operator, n);
    lemma_non_empty_longer(pieces, other, n);
    lemma_non_empty_longer(pieces, middle, n);
    lemma_non_empty_longer(pieces.push(middle), operator, n + 1);
    assert(pieces.push(middle)[n as int] == middle);
    lemma_non_empty_longer(seq![middle], operator, 1);
    assert(hierarchy::non_empty(seq![middle], 0) =~= Seq::<Seq<char>>::empty());
    assert(Seq::<Seq<char>>::empty().push(middle) =~= seq![middle]);
}

} // verus!
