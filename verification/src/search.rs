//! Finding nodes by name or type.

use crate::chars::{self, chars_of, contains_text, string_of};
use crate::graph::{Graph, GraphView};
use crate::model::{NodeId, NodeView};
use crate::text::{self, elide};
use vstd::prelude::*;
use vstd::string::*;

verus! {

/// Whether a character has the Unicode property `White_Space`.
pub open spec fn is_white(c: char) -> bool {
    let code = c as u32;
    ||| 0x09 <= code <= 0x0d
    ||| code == 0x20
    ||| code == 0x85
    ||| code == 0xa0
    ||| code == 0x1680
    ||| 0x2000 <= code <= 0x200a
    ||| code == 0x2028
    ||| code == 0x2029
    ||| code == 0x202f
    ||| code == 0x205f
    ||| code == 0x3000
}

/// The text without the white space at its end.
pub open spec fn trimmed_end(s: Seq<char>) -> Seq<char>
    decreases s.len(),
{
    if s.len() > 0 && is_white(s.last()) {
        trimmed_end(s.drop_last())
    } else {
        s
    }
}

/// The text without the white space at its start.
pub open spec fn trimmed_start(s: Seq<char>) -> Seq<char>
    decreases s.len(),
{
    if s.len() > 0 && is_white(s[0]) {
        trimmed_start(s.skip(1))
    } else {
        s
    }
}

/// The text without the white space around it.
pub open spec fn trimmed(s: Seq<char>) -> Seq<char> {
    trimmed_end(trimmed_start(s))
}

fn white(c: char) -> (yes: bool)
    ensures
        yes == is_white(c),
{
    let code: u32 = c as u32;
    (0x09 <= code && code <= 0x0d) || code == 0x20 || code == 0x85 || code == 0xa0 || code == 0x1680
        || (0x2000 <= code && code <= 0x200a) || code == 0x2028 || code == 0x2029 || code == 0x202f
        || code == 0x205f || code == 0x3000
}

/// Drops the white space at the end of a text.
pub fn trim_end(text: &str) -> (shown: String)
    ensures
        shown@ == trimmed_end(text@),
{
    let chars: Vec<char> = chars_of(text);
    let mut end: usize = chars.len();
    assert(text@.take(end as int) =~= text@);
    while end > 0 && white(chars[end - 1])
        invariant
            chars@ == text@,
            end <= chars@.len(),
            trimmed_end(text@.take(end as int)) == trimmed_end(text@),
        decreases end,
    {
        assert(text@.take(end as int).drop_last() =~= text@.take(end - 1));
        end = end - 1;
    }
    let mut shown: String = String::new();
    for i in 0..end
        invariant
            chars@ == text@,
            end <= chars@.len(),
            shown@ == text@.take(i as int),
    {
        shown.push(chars[i]);
        assert(text@.take(i + 1) =~= text@.take(i as int).push(text@[i as int]));
    }
    shown
}

/// Drops the white space around a text.
pub fn trim(text: &str) -> (shown: String)
    ensures
        shown@ == trimmed(text@),
{
    let chars: Vec<char> = chars_of(text);
    let mut start: usize = 0;
    assert(text@.skip(0) =~= text@);
    while start < chars.len() && white(chars[start])
        invariant
            chars@ == text@,
            start <= chars@.len(),
            trimmed_start(text@.skip(start as int)) == trimmed_start(text@),
        decreases chars@.len() - start,
    {
        assert(text@.skip(start as int).skip(1) =~= text@.skip(start + 1));
        start = start + 1;
    }
    let total: usize = chars.len();
    let mut rest: Vec<char> = Vec::new();
    for i in start..total
        invariant
            chars@ == text@,
            total == chars@.len(),
            start <= total,
            rest@ == text@.subrange(start as int, i as int),
    {
        rest.push(chars[i]);
        assert(rest@ =~= text@.subrange(start as int, i + 1));
    }
    assert(rest@ =~= text@.skip(start as int));
    let rest_text: String = string_of(&rest);
    trim_end(rest_text.as_str())
}

/// What `str::to_lowercase` makes of a text.
pub uninterp spec fn lowercase(text: Seq<char>) -> Seq<char>;

/// Calls `str::to_lowercase`. Nothing is said of how each letter is mapped, only
/// that an empty text stays empty.
#[verifier::external_body]
fn to_lower(text: &str) -> (lower: String)
    ensures
        lower@ == lowercase(text@),
        text@.len() == 0 ==> lower@.len() == 0,
{
    text.to_lowercase()
}

/// Whether a node with this name and type, both in lower case, answers a query
/// in lower case.
pub open spec fn answers(name: Seq<char>, op_type: Seq<char>, query: Seq<char>) -> bool {
    query.len() == 0 || chars::has_substring(name, query) || chars::has_substring(op_type, query)
}

/// Whether a node answers a query as it was typed.
pub open spec fn found(node: NodeView, query: Seq<char>) -> bool {
    answers(lowercase(node.name), lowercase(node.op_type), lowercase(trimmed(query)))
}

/// Those of the first `n` nodes that answer a query, in graph order.
pub open spec fn found_among(nodes: Seq<NodeView>, query: Seq<char>, n: nat) -> Seq<NodeId>
    decreases n,
{
    if n == 0 {
        Seq::empty()
    } else {
        let before = found_among(nodes, query, (n - 1) as nat);
        if found(nodes[n - 1], query) {
            before.push(nodes[n - 1].id)
        } else {
            before
        }
    }
}

/// Whether a name or a type contains the query; all three are in lower case.
pub fn matches_query(name: &str, op_type: &str, query: &str) -> (yes: bool)
    ensures
        yes == answers(name@, op_type@, query@),
{
    query.unicode_len() == 0 || contains_text(name, query) || contains_text(op_type, query)
}

/// The nodes of a graph whose name or type contains the query, whatever the
/// case. An empty query is answered by every node.
pub fn find_nodes(graph: &Graph, query: &str) -> (matches: Vec<NodeId>)
    ensures
        matches@ == found_among(graph@.nodes, query@, graph@.nodes.len()),
        graph@.wf() && trimmed(query@).len() == 0 ==> matches@ == Seq::new(
            graph@.nodes.len(),
            |i: int| NodeId(i as u32),
        ),
{
    let trimmed_query: String = trim(query);
    let wanted: String = to_lower(trimmed_query.as_str());
    let mut matches: Vec<NodeId> = Vec::new();
    for i in 0..graph.nodes.len()
        invariant
            wanted@ == lowercase(trimmed(query@)),
            matches@ == found_among(graph@.nodes, query@, i as nat),
    {
        let name: String = to_lower(graph.nodes[i].name.as_str());
        let op_type: String = to_lower(graph.nodes[i].op_type.as_str());
        assert(graph@.nodes[i as int] == graph.nodes@[i as int]@);
        if matches_query(name.as_str(), op_type.as_str(), wanted.as_str()) {
            matches.push(graph.nodes[i].id);
        }
    }
    proof {
        if graph@.wf() && trimmed(query@).len() == 0 {
            lemma_all_found(graph@, query@, graph@.nodes.len());
        }
    }
    matches
}

/// How a node is listed among the matches.
pub open spec fn match_text(node: NodeView) -> Seq<char> {
    text::elided(node.op_type + "  "@ + node.name, 56)
}

/// How a node is listed among the matches: its type and name, shortened to the
/// width of the list.
pub fn match_label(graph: &Graph, id: NodeId) -> (label: String)
    requires
        graph@.has_node(id),
    ensures
        label@ == match_text(graph@.nodes[id.0 as int]),
{
    assert(graph@.nodes[id.0 as int] == graph.nodes@[id.0 as int]@);
    let node = graph.node(id);
    let mut label: String = node.op_type.clone();
    label.append("  ");
    label.append(node.name.as_str());
    elide(label.as_str(), 56)
}

/// Exactly the nodes that answer the query are found.
pub proof fn law_matches_are_exact(g: GraphView, query: Seq<char>, n: int)
    requires
        g.wf(),
        0 <= n < g.nodes.len(),
    ensures
        found_among(g.nodes, query, g.nodes.len()).contains(NodeId(n as u32)) <==> found(
            g.nodes[n],
            query,
        ),
{
    lemma_found_among(g, query, n, g.nodes.len());
}

proof fn lemma_found_among(g: GraphView, query: Seq<char>, n: int, m: nat)
    requires
        g.wf(),
        0 <= n < g.nodes.len(),
        m <= g.nodes.len(),
    ensures
        found_among(g.nodes, query, m).contains(NodeId(n as u32)) <==> n < m && found(
            g.nodes[n],
            query,
        ),
        forall|k: int|
            0 <= k < found_among(g.nodes, query, m).len() ==> (#[trigger] found_among(
                g.nodes,
                query,
                m,
            )[k]).0 < m,
    decreases m,
{
    if m > 0 {
        lemma_found_among(g, query, n, (m - 1) as nat);
        let before = found_among(g.nodes, query, (m - 1) as nat);
        let last = g.nodes[m - 1];
        assert(g.node_wf(last, m - 1));
        if found(last, query) {
            let after = before.push(last.id);
            assert(after.last() == last.id);
            if n == m - 1 {
                assert(after.contains(NodeId(n as u32)));
            } else if before.contains(NodeId(n as u32)) {
                let k = choose|k: int| 0 <= k < before.len() && before[k] == NodeId(n as u32);
                assert(after[k] == NodeId(n as u32));
            } else if after.contains(NodeId(n as u32)) {
                let k = choose|k: int| 0 <= k < after.len() && after[k] == NodeId(n as u32);
                assert(k < before.len());
                assert(before[k] == NodeId(n as u32));
            }
        }
    }
}

/// What is found is in the graph.
pub(crate) proof fn lemma_matches_are_nodes(g: GraphView, query: Seq<char>, m: nat)
    requires
        g.wf(),
        m <= g.nodes.len(),
    ensures
        forall|k: int|
            0 <= k < found_among(g.nodes, query, m).len() ==> g.has_node(
                #[trigger] found_among(g.nodes, query, m)[k],
            ),
    decreases m,
{
    if m > 0 {
        lemma_matches_are_nodes(g, query, (m - 1) as nat);
        assert(g.node_wf(g.nodes[m - 1], m - 1));
        let before = found_among(g.nodes, query, (m - 1) as nat);
        assert forall|k: int| 0 <= k < found_among(g.nodes, query, m).len() implies g.has_node(
            #[trigger] found_among(g.nodes, query, m)[k],
        ) by {
            if k < before.len() {
                assert(g.has_node(before[k]));
            }
        }
    }
}

/// Every node answers a query that comes to nothing.
proof fn lemma_all_found(g: GraphView, query: Seq<char>, m: nat)
    requires
        g.wf(),
        lowercase(trimmed(query)).len() == 0,
        m <= g.nodes.len(),
    ensures
        found_among(g.nodes, query, m) == Seq::new(m, |i: int| NodeId(i as u32)),
    decreases m,
{
    if m > 0 {
        lemma_all_found(g, query, (m - 1) as nat);
        assert(g.node_wf(g.nodes[m - 1], m - 1));
    }
    assert(found_among(g.nodes, query, m) =~= Seq::new(m, |i: int| NodeId(i as u32)));
}

} // verus!
