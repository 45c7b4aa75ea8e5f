//! Taking text apart at a character and putting it together again.

use crate::chars;
use vstd::prelude::*;

verus! {

/// Whether a piece of text has no such character in it.
pub open spec fn lacks(piece: Seq<char>, sep: char) -> bool {
    forall|i: int| 0 <= i < piece.len() ==> #[trigger] piece[i] != sep
}

/// The pieces with a character between each and the next.
pub open spec fn spaced(pieces: Seq<Seq<char>>, sep: char) -> Seq<char>
    decreases pieces.len(),
{
    if pieces.len() == 0 {
        Seq::empty()
    } else if pieces.len() == 1 {
        pieces[0]
    } else {
        spaced(pieces.drop_last(), sep) + seq![sep] + pieces.last()
    }
}

/// Text behind a separator is a piece of its own.
pub(crate) proof fn lemma_split_behind(head: Seq<char>, piece: Seq<char>, sep: char)
    requires
        lacks(piece, sep),
    ensures
        chars::split_on(head + seq![sep] + piece, sep) == chars::split_on(head, sep).push(piece),
    decreases piece.len(),
{
    let s = head + seq![sep] + piece;
    if piece.len() == 0 {
        assert(s.drop_last() =~= head);
        assert(piece =~= Seq::<char>::empty());
    } else {
        let shorter = piece.drop_last();
        assert forall|i: int| 0 <= i < shorter.len() implies #[trigger] shorter[i] != sep by {
            assert(piece[i] != sep);
        }
        lemma_split_behind(head, shorter, sep);
        assert(s.drop_last() =~= head + seq![sep] + shorter);
        assert(s.last() == piece.last());
        assert(piece[piece.len() - 1] != sep);
        let before = chars::split_on(head, sep).push(shorter);
        assert(before.drop_last() =~= chars::split_on(head, sep));
        assert(shorter.push(piece.last()) =~= piece);
    }
}

pub(crate) proof fn lemma_split_nothing(piece: Seq<char>, sep: char)
    requires
        lacks(piece, sep),
    ensures
        chars::split_on(piece, sep) == seq![piece],
    decreases piece.len(),
{
    if piece.len() == 0 {
        assert(piece =~= Seq::<char>::empty());
    } else {
        let shorter = piece.drop_last();
        assert forall|i: int| 0 <= i < shorter.len() implies #[trigger] shorter[i] != sep by {
            assert(piece[i] != sep);
        }
        lemma_split_nothing(shorter, sep);
        assert(piece[piece.len() - 1] != sep);
        assert(shorter.push(piece.last()) =~= piece);
        assert(seq![shorter].drop_last().push(piece) =~= seq![piece]);
    }
}

/// Splitting takes apart what was put together.
pub proof fn law_splitting_undoes_spacing(pieces: Seq<Seq<char>>, sep: char)
    requires
        pieces.len() > 0,
        forall|i: int| 0 <= i < pieces.len() ==> lacks(#[trigger] pieces[i], sep),
    ensures
        chars::split_on(spaced(pieces, sep), sep) == pieces,
    decreases pieces.len(),
{
    if pieces.len() == 1 {
        lemma_split_nothing(pieces[0], sep);
        assert(seq![pieces[0]] =~= pieces);
    } else {
        let fewer = pieces.drop_last();
        assert forall|i: int| 0 <= i < fewer.len() implies lacks(#[trigger] fewer[i], sep) by {
            assert(lacks(pieces[i], sep));
        }
        law_splitting_undoes_spacing(fewer, sep);
        assert(lacks(pieces[pieces.len() - 1], sep));
        lemma_split_behind(spaced(fewer, sep), pieces.last(), sep);
        assert(fewer.push(pieces.last()) =~= pieces);
    }
}

} // verus!
