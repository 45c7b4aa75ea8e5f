//! Text as a sequence of characters.
//!
//! The rest of the crate takes strings apart and puts them together one
//! character at a time; the helpers here do so, and carry the contracts that
//! relate a `String` to the `Seq<char>` it holds.

use vstd::prelude::*;
use vstd::string::*;

verus! {

/// `String::push` appends the given character to the end of the string.
pub assume_specification[ std::string::String::push ](s: &mut std::string::String, c: char)
    ensures
        final(s)@ == old(s)@.push(c),
;

/// `==` on `str` tells whether the two strings hold the same characters.
pub assume_specification[ <str as PartialEq>::eq ](a: &str, b: &str) -> (same: bool)
    ensures
        same == (a@ == b@),
;

/// The views of a sequence of things.
pub open spec fn views<T: View>(items: Seq<T>) -> Seq<T::V> {
    Seq::new(items.len(), |i: int| items[i]@)
}

/// The view of an optional thing.
pub open spec fn opt_view<T: View>(item: Option<T>) -> Option<T::V> {
    match item {
        Some(x) => Some(x@),
        None => None,
    }
}

/// The characters of `text`, in order.
pub fn chars_of(text: &str) -> (chars: Vec<char>)
    ensures
        chars@ == text@,
{
    let mut chars: Vec<char> = Vec::new();
    for c in iter: text.chars()
        invariant
            iter.seq() == text@,
            chars@ == text@.take(iter.index()),
    {
        chars.push(c);
        assert(text@.take(iter.index() + 1) =~= text@.take(iter.index()).push(c));
    }
    assert(text@.take(text@.len() as int) =~= text@);
    chars
}

/// The string made of `chars`.
pub fn string_of(chars: &Vec<char>) -> (text: String)
    ensures
        text@ == chars@,
{
    let mut text: String = String::new();
    for i in 0..chars.len()
        invariant
            text@ == chars@.take(i as int),
    {
        text.push(chars[i]);
        assert(chars@.take(i + 1) =~= chars@.take(i as int).push(chars@[i as int]));
    }
    assert(chars@.take(chars@.len() as int) =~= chars@);
    text
}

/// Whether two strings hold the same characters.
pub fn same_text(a: &str, b: &str) -> (same: bool)
    ensures
        same == (a@ == b@),
{
    *a == *b
}

/// The pieces of `s` between occurrences of `sep`. There is always one more
/// piece than there are separators, and a piece may be empty.
pub open spec fn split_on(s: Seq<char>, sep: char) -> Seq<Seq<char>>
    decreases s.len(),
{
    if s.len() == 0 {
        seq![Seq::<char>::empty()]
    } else {
        let before = split_on(s.drop_last(), sep);
        if s.last() == sep {
            before.push(Seq::<char>::empty())
        } else {
            before.drop_last().push(before.last().push(s.last()))
        }
    }
}

/// The character sequences of a list of pieces.
pub open spec fn pieces_view(pieces: Seq<Vec<char>>) -> Seq<Seq<char>> {
    pieces.map_values(|piece: Vec<char>| piece@)
}

pub proof fn lemma_split_is_not_empty(s: Seq<char>, sep: char)
    ensures
        split_on(s, sep).len() >= 1,
    decreases s.len(),
{
    if s.len() > 0 {
        lemma_split_is_not_empty(s.drop_last(), sep);
    }
}

/// Split `chars` at every occurrence of `sep`.
pub fn split(chars: &Vec<char>, sep: char) -> (pieces: Vec<Vec<char>>)
    ensures
        pieces_view(pieces@) == split_on(chars@, sep),
{
    let mut pieces: Vec<Vec<char>> = Vec::new();
    let mut current: Vec<char> = Vec::new();
    assert(pieces_view(pieces@).push(current@) =~= split_on(chars@.take(0), sep));
    for i in 0..chars.len()
        invariant
            pieces_view(pieces@).push(current@) == split_on(chars@.take(i as int), sep),
    {
        let ghost s = chars@.take(i + 1);
        let ghost before = pieces_view(pieces@).push(current@);
        assert(s.drop_last() =~= chars@.take(i as int));
        assert(s.last() == chars@[i as int]);
        if chars[i] == sep {
            let ghost old_pieces = pieces@;
            let ghost old_current = current@;
            let mut done: Vec<char> = Vec::new();
            std::mem::swap(&mut done, &mut current);
            pieces.push(done);
            assert(pieces_view(pieces@) =~= pieces_view(old_pieces).push(old_current));
        } else {
            assert(before.drop_last() =~= pieces_view(pieces@));
            current.push(chars[i]);
        }
        assert(pieces_view(pieces@).push(current@) =~= split_on(s, sep));
    }
    assert(chars@.take(chars@.len() as int) =~= chars@);
    let ghost old_pieces = pieces@;
    let ghost old_current = current@;
    pieces.push(current);
    assert(pieces_view(pieces@) =~= pieces_view(old_pieces).push(old_current));
    pieces
}

/// The parts in order, with `sep` between each and the next.
pub open spec fn joined(parts: Seq<Seq<char>>, sep: Seq<char>) -> Seq<char>
    decreases parts.len(),
{
    if parts.len() == 0 {
        Seq::<char>::empty()
    } else if parts.len() == 1 {
        parts[0]
    } else {
        joined(parts.drop_last(), sep) + sep + parts.last()
    }
}

/// Join the parts with `sep` between each and the next.
pub fn join(parts: &Vec<String>, sep: &str) -> (text: String)
    ensures
        text@ == joined(views(parts@), sep@),
{
    let ghost all = views(parts@);
    let mut text: String = String::new();
    assert(all.take(0) =~= Seq::<Seq<char>>::empty());
    for i in 0..parts.len()
        invariant
            all == views(parts@),
            text@ == joined(all.take(i as int), sep@),
    {
        proof {
            assert(all.take(i + 1).drop_last() =~= all.take(i as int));
            assert(all.take(i + 1).last() == parts@[i as int]@);
        }
        if i > 0 {
            text.append(sep);
        }
        text.append(parts[i].as_str());
        assert(text@ =~= joined(all.take(i + 1), sep@));
    }
    assert(all.take(all.len() as int) =~= all);
    text
}

/// Whether `needle` stands in `s` starting at `at`.
pub open spec fn stands_at(s: Seq<char>, needle: Seq<char>, at: int) -> bool {
    0 <= at && at + needle.len() <= s.len() && s.subrange(at, at + needle.len()) == needle
}

/// Whether `needle` stands somewhere in `s`.
pub open spec fn has_substring(s: Seq<char>, needle: Seq<char>) -> bool {
    exists|at: int| stands_at(s, needle, at)
}

/// Whether `needle` occurs in `text`.
pub fn contains_text(text: &str, needle: &str) -> (found: bool)
    ensures
        found == has_substring(text@, needle@),
{
    let s: Vec<char> = chars_of(text);
    let n: Vec<char> = chars_of(needle);
    if n.len() > s.len() {
        return false;
    }
    if n.len() == 0 {
        assert(text@.subrange(0, 0) =~= needle@);
        assert(stands_at(text@, needle@, 0));
        return true;
    }
    let starts: usize = s.len() - n.len() + 1;
    for at in 0..starts
        invariant
            s@ == text@,
            n@ == needle@,
            0 < n.len() <= s.len(),
            starts == s.len() - n.len() + 1,
            forall|k: int| 0 <= k < at ==> !stands_at(text@, needle@, k),
    {
        let mut matched: usize = 0;
        while matched < n.len() && s[at + matched] == n[matched]
            invariant
                matched <= n.len(),
                at + n.len() <= s.len(),
                forall|k: int| 0 <= k < matched ==> s@[at + k] == n@[k],
            decreases n.len() - matched,
        {
            matched = matched + 1;
        }
        if matched == n.len() {
            assert(s@.subrange(at as int, at + n@.len()) =~= n@);
            assert(stands_at(text@, needle@, at as int));
            return true;
        }
        assert(!stands_at(text@, needle@, at as int)) by {
            assert(s@.subrange(at as int, at + n@.len())[matched as int] == s@[at + matched]);
        }
    }
    false
}

} // verus!
