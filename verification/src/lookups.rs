//! What is found when something is looked up.

use crate::chars;
use crate::graph::GraphView;
use crate::op_schema::{self, Arity, Row};
use crate::search;
use crate::splitting;
use crate::text;
use crate::values;
use vstd::prelude::*;

verus! {

/// A text stands in another exactly where that is made of something, the text,
/// and something else.
pub proof fn law_substrings_split_the_text(s: Seq<char>, needle: Seq<char>)
    ensures
        chars::has_substring(s, needle) <==> exists|before: Seq<char>, behind: Seq<char>| s
            == #[trigger] (before + needle + behind),
{
    if chars::has_substring(s, needle) {
        let at = choose|at: int| chars::stands_at(s, needle, at);
        let before = s.take(at);
        let behind = s.skip(at + needle.len());
        assert(before + s.subrange(at, at + needle.len()) + behind =~= s);
        assert(s == before + needle + behind);
    }
    if exists|before: Seq<char>, behind: Seq<char>| s == #[trigger] (before + needle + behind) {
        let (before, behind) = choose|before: Seq<char>, behind: Seq<char>| s == #[trigger] (before
            + needle + behind);
        let at = before.len() as int;
        assert(s.subrange(at, at + needle.len()) =~= needle);
        assert(chars::stands_at(s, needle, at));
    }
}

/// Whether a part of a text is all of it but the white space around it.
pub open spec fn is_core(s: Seq<char>, from: int, to: int) -> bool {
    &&& 0 <= from <= to <= s.len()
    &&& forall|i: int| 0 <= i < from ==> search::is_white(#[trigger] s[i])
    &&& forall|i: int| to <= i < s.len() ==> search::is_white(#[trigger] s[i])
    &&& from < to ==> !search::is_white(s[from]) && !search::is_white(s[to - 1])
}

proof fn lemma_trimmed_start(s: Seq<char>) -> (from: int)
    ensures
        0 <= from <= s.len(),
        search::trimmed_start(s) == s.skip(from),
        forall|i: int| 0 <= i < from ==> search::is_white(#[trigger] s[i]),
        from < s.len() ==> !search::is_white(s[from]),
    decreases s.len(),
{
    if s.len() > 0 && search::is_white(s[0]) {
        let rest = s.skip(1);
        let at = lemma_trimmed_start(rest);
        assert(rest.skip(at) =~= s.skip(at + 1));
        assert forall|i: int| 0 <= i < at + 1 implies search::is_white(#[trigger] s[i]) by {
            if i > 0 {
                assert(search::is_white(rest[i - 1]));
            }
        }
        at + 1
    } else {
        assert(s.skip(0) =~= s);
        0
    }
}

proof fn lemma_trimmed_end(s: Seq<char>) -> (to: int)
    ensures
        0 <= to <= s.len(),
        search::trimmed_end(s) == s.take(to),
        forall|i: int| to <= i < s.len() ==> search::is_white(#[trigger] s[i]),
        to > 0 ==> !search::is_white(s[to - 1]),
    decreases s.len(),
{
    if s.len() > 0 && search::is_white(s.last()) {
        let rest = s.drop_last();
        let at = lemma_trimmed_end(rest);
        assert(rest.take(at) =~= s.take(at));
        assert forall|i: int| at <= i < s.len() implies search::is_white(#[trigger] s[i]) by {
            if i < rest.len() {
                assert(search::is_white(rest[i]));
            }
        }
        at
    } else {
        assert(s.take(s.len() as int) =~= s);
        s.len() as int
    }
}

/// Trimming takes away the white space around a text and nothing else.
pub proof fn law_trimming_keeps_the_core(s: Seq<char>)
    ensures
        exists|from: int, to: int| #[trigger] is_core(s, from, to) && search::trimmed(s)
            == s.subrange(from, to),
{
    let from = lemma_trimmed_start(s);
    let rest = s.skip(from);
    let len = lemma_trimmed_end(rest);
    let to = from + len;
    assert(rest.take(len) =~= s.subrange(from, to));
    assert forall|i: int| to <= i < s.len() implies search::is_white(#[trigger] s[i]) by {
        assert(search::is_white(rest[i - from]));
    }
    assert(from < to ==> s[to - 1] == rest[len - 1]);
    assert(is_core(s, from, to));
}

/// Blanks, tabs and line ends are white space; no other character of ASCII is.
pub proof fn law_ascii_white_space(c: char)
    requires
        (c as u32) < 128,
    ensures
        search::is_white(c) <==> (c == ' ' || c == '\t' || c == '\n' || c == '\r' || c as u32 == 11
            || c as u32 == 12),
{
}

/// Nodes are found in the order of the graph, each once.
pub proof fn law_matches_are_in_order(g: GraphView, query: Seq<char>, m: nat)
    requires
        g.wf(),
        m <= g.nodes.len(),
    ensures
        forall|a: int, b: int|
            0 <= a < b < search::found_among(g.nodes, query, m).len() ==> (
            #[trigger] search::found_among(g.nodes, query, m)[a]).0 < (
            #[trigger] search::found_among(g.nodes, query, m)[b]).0,
        forall|a: int|
            0 <= a < search::found_among(g.nodes, query, m).len() ==> (
            #[trigger] search::found_among(g.nodes, query, m)[a]).0 < m,
    decreases m,
{
    if m > 0 {
        law_matches_are_in_order(g, query, (m - 1) as nat);
        assert(g.node_wf(g.nodes[m - 1], m - 1));
        let before = search::found_among(g.nodes, query, (m - 1) as nat);
        let after = search::found_among(g.nodes, query, m);
        assert forall|a: int| 0 <= a < after.len() implies (#[trigger] after[a]).0 < m by {
            if a < before.len() {
                assert(after[a] == before[a]);
            }
        }
        assert forall|a: int, b: int| 0 <= a < b < after.len() implies (#[trigger] after[a]).0 < (
        #[trigger] after[b]).0 by {
            assert(after[a] == before[a]);
            if b < before.len() {
                assert(after[b] == before[b]);
            }
        }
    }
}

/// A node answers a query where the query, trimmed, stands in its name or in its
/// type, all in lower case, or where nothing is asked.
pub proof fn law_queries_ask_for_names_and_types(
    node: crate::model::NodeView,
    query: Seq<char>,
)
    ensures
        search::found(node, query) <==> {
            let wanted = search::lowercase(search::trimmed(query));
            let name = search::lowercase(node.name);
            let op_type = search::lowercase(node.op_type);
            ||| wanted.len() == 0
            ||| exists|a: Seq<char>, b: Seq<char>| name == #[trigger] (a + wanted + b)
            ||| exists|a: Seq<char>, b: Seq<char>| op_type == #[trigger] (a + wanted + b)
        },
{
    let wanted = search::lowercase(search::trimmed(query));
    law_substrings_split_the_text(search::lowercase(node.name), wanted);
    law_substrings_split_the_text(search::lowercase(node.op_type), wanted);
}

/// Whether a row of a table is that of an operator. The default domain may be
/// spelled out.
pub open spec fn is_row_of(row: Row, domain: Seq<char>, op_type: Seq<char>) -> bool {
    &&& row.0@ == op_type
    &&& domain == "ai.onnx"@ ==> row.1@.len() == 0
    &&& domain != "ai.onnx"@ ==> row.1@ == domain
}

proof fn lemma_find_schema(rows: Seq<Row>, from: int, domain: Seq<char>, op_type: Seq<char>)
    requires
        0 <= from <= rows.len(),
    ensures
        match op_schema::find_schema(rows, from, domain, op_type) {
            Some(schema) => exists|i: int|
                from <= i < rows.len() && #[trigger] is_row_of(rows[i], domain, op_type) && schema
                    == op_schema::schema_model(rows[i]) && forall|k: int|
                    from <= k < i ==> !#[trigger] is_row_of(rows[k], domain, op_type),
            None => forall|i: int|
                from <= i < rows.len() ==> !#[trigger] is_row_of(rows[i], domain, op_type),
        },
    decreases rows.len() - from,
{
    if from < rows.len() {
        let row = rows[from];
        let schema = op_schema::schema_model(row);
        assert(is_row_of(row, domain, op_type) <==> schema.op_type == op_type && schema.domain
            == op_schema::normalized(domain)) by {
            if domain == "ai.onnx"@ && row.1@.len() == 0 {
                assert(row.1@ =~= Seq::<char>::empty());
            }
        }
        if !is_row_of(row, domain, op_type) {
            lemma_find_schema(rows, from + 1, domain, op_type);
            if op_schema::find_schema(rows, from + 1, domain, op_type) is Some {
                let schema = op_schema::find_schema(rows, from + 1, domain, op_type)->0;
                let i = choose|i: int|
                    from + 1 <= i < rows.len() && #[trigger] is_row_of(rows[i], domain, op_type)
                        && schema == op_schema::schema_model(rows[i]) && forall|k: int|
                        from + 1 <= k < i ==> !#[trigger] is_row_of(rows[k], domain, op_type);
                assert(is_row_of(rows[i], domain, op_type));
            }
        }
    }
}

/// An operator has the signature of the first row of the table that is of its
/// type and domain, and none where there is no such row.
pub proof fn law_signatures_are_those_of_their_row(
    table: Seq<Row>,
    domain: Seq<char>,
    op_type: Seq<char>,
)
    ensures
        match op_schema::schema_in(table, domain, op_type) {
            Some(schema) => exists|i: int|
                0 <= i < table.len() && #[trigger] is_row_of(table[i], domain, op_type) && schema
                    == op_schema::schema_model(table[i]) && forall|k: int|
                    0 <= k < i ==> !#[trigger] is_row_of(table[k], domain, op_type),
            None => forall|i: int|
                0 <= i < table.len() ==> !#[trigger] is_row_of(table[i], domain, op_type),
        },
{
    lemma_find_schema(table, 0, domain, op_type);
}

/// A list of words gives a parameter for each: optional where a question mark
/// follows the name, any number of them where a star follows the last name.
pub proof fn law_words_are_parameters(words: Seq<Seq<char>>, i: int, name: Seq<char>)
    requires
        0 <= i < words.len(),
        forall|k: int| 0 <= k < words.len() ==> splitting::lacks(#[trigger] words[k], ' '),
        splitting::spaced(words, ' ').len() > 0,
    ensures
        ({
            let params = op_schema::params_model(splitting::spaced(words, ' '));
            let word = words[i];
            let last = i == words.len() - 1;
            &&& params.len() == words.len()
            &&& word == name.push('?') ==> params[i] == (name, Arity::Optional)
            &&& word == name.push('*') && last ==> params[i] == (name, Arity::Variadic)
            &&& word == name.push('*') && !last ==> params[i] == (word, Arity::Required)
            &&& word.len() == 0 || (word.last() != '?' && word.last() != '*') ==> params[i] == (
                word,
                Arity::Required,
            )
        }),
{
    splitting::law_splitting_undoes_spacing(words, ' ');
    let word = words[i];
    if word == name.push('?') || word == name.push('*') {
        assert(word.drop_last() =~= name);
    }
}

/// No words, no parameters.
pub proof fn law_nothing_gives_no_parameters()
    ensures
        op_schema::params_model(Seq::empty()).len() == 0,
{
}

/// A signature keeps the type and the domain of its row, and the parameters of
/// its two lists.
pub proof fn law_rows_become_signatures(row: Row)
    ensures
        op_schema::schema_model(row).op_type == row.0@,
        op_schema::schema_model(row).domain == row.1@,
        op_schema::schema_model(row).inputs == op_schema::params_model(row.2@),
        op_schema::schema_model(row).outputs == op_schema::params_model(row.3@),
{
}

/// A position has the name of its own parameter. One that stands for any number
/// of values also names all positions behind it, each with its number.
pub proof fn law_positions_are_named(params: Seq<(Seq<char>, Arity)>, index: nat)
    requires
        op_schema::variadic_last(params),
    ensures
        ({
            let name = op_schema::parameter_name(params, index);
            let many = params.len() > 0 && params[params.len() - 1].1 == Arity::Variadic;
            let own = if many {
                params.len() - 1
            } else {
                params.len() as int
            };
            &&& index < own ==> name == Some(params[index as int].0)
            &&& index >= own && !many ==> name is None
            &&& index >= own && many ==> name == Some(
                params[own].0 + "["@ + text::decimal((index - own) as nat) + "]"@,
            )
        }),
{
}

/// The value of an entry is that of the first with its key.
pub proof fn law_the_first_entry_counts(
    entries: Seq<(Seq<char>, Seq<char>)>,
    key: Seq<char>,
    k: int,
)
    ensures
        0 <= k < entries.len() && entries[k].0 == key && (forall|j: int|
            0 <= j < k ==> (#[trigger] entries[j]).0 != key) ==> values::entry(entries, key)
            == Some(entries[k].1),
        (forall|j: int| 0 <= j < entries.len() ==> (#[trigger] entries[j]).0 != key)
            ==> values::entry(entries, key) is None,
    decreases entries.len(),
{
    if entries.len() > 0 {
        let rest = entries.skip(1);
        law_the_first_entry_counts(rest, key, k - 1);
        assert(forall|j: int| 0 <= j < rest.len() ==> #[trigger] rest[j] == entries[j + 1]);
        if 0 < k < entries.len() && entries[k].0 == key && (forall|j: int|
            0 <= j < k ==> (#[trigger] entries[j]).0 != key) {
            assert(entries[0].0 != key);
            assert(rest[k - 1].0 == key);
            assert forall|j: int| 0 <= j < k - 1 implies (#[trigger] rest[j]).0 != key by {
                assert(entries[j + 1].0 != key);
            }
        }
        if forall|j: int| 0 <= j < entries.len() ==> (#[trigger] entries[j]).0 != key {
            assert(entries[0].0 != key);
            assert forall|j: int| 0 <= j < rest.len() implies (#[trigger] rest[j]).0 != key by {
                assert(entries[j + 1].0 != key);
            }
        }
    }
}

/// A tensor in another file is where its entries say: in the file of that
/// location, from that offset on, which is the start where none is given, and
/// as long as they say, if they say so.
pub proof fn law_entries_say_where(entries: Seq<(Seq<char>, Seq<char>)>)
    ensures
        ({
            let place = values::external_of(entries);
            let location = values::entry(entries, "location"@);
            let offset = values::entry(entries, "offset"@);
            let length = values::entry(entries, "length"@);
            &&& location is Some ==> place.location == location->0
            &&& location is None ==> place.location.len() == 0
            &&& offset is Some && text::parsed(offset->0) is Some ==> place.offset == text::parsed(
                offset->0,
            )->0
            &&& offset is None || text::parsed(offset->0) is None ==> place.offset == 0
            &&& length is Some ==> place.length == text::parsed(length->0)
            &&& length is None ==> place.length is None
        }),
{
}

} // verus!
