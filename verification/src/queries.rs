//! What can be asked of a graph and of a model.

use crate::chars::{self, chars_of};
use crate::graph::{Graph, GraphView, Model, ModelView};
use crate::model::{
    AttrValue, AttrValueView, AttributeView, GraphId, Node, NodeId, NodeView, Tensor, TensorView,
    Value, ValueId, ValueView,
};
use vstd::hash_map::StringHashMap;
use vstd::prelude::*;
use vstd::string::*;

verus! {

/// Whether `a` comes before `b` in the order of strings: by the first character
/// in which they differ, a string coming before its extensions.
pub open spec fn text_before(a: Seq<char>, b: Seq<char>) -> bool
    decreases b.len(),
{
    b.len() > 0 && (a.len() == 0 || a[0] < b[0] || (a[0] == b[0] && text_before(
        a.skip(1),
        b.skip(1),
    )))
}

proof fn lemma_text_order_is_total(a: Seq<char>, b: Seq<char>)
    ensures
        a == b || text_before(a, b) || text_before(b, a),
        !(text_before(a, b) && text_before(b, a)),
        !text_before(a, a),
    decreases a.len() + b.len(),
{
    if a.len() > 0 {
        lemma_text_order_is_total(a.skip(1), a.skip(1).take(0));
        if b.len() > 0 {
            lemma_text_order_is_total(a.skip(1), b.skip(1));
            if a[0] == b[0] && a.skip(1) == b.skip(1) {
                assert(a =~= seq![a[0]] + a.skip(1));
                assert(b =~= seq![b[0]] + b.skip(1));
            }
        }
        lemma_text_order_irreflexive(a);
    } else if b.len() == 0 {
        assert(a =~= b);
    }
}

proof fn lemma_text_order_irreflexive(a: Seq<char>)
    ensures
        !text_before(a, a),
    decreases a.len(),
{
    if a.len() > 0 {
        lemma_text_order_irreflexive(a.skip(1));
    }
}

pub(crate) proof fn lemma_text_order_transitive(a: Seq<char>, b: Seq<char>, c: Seq<char>)
    requires
        text_before(a, b),
        text_before(b, c),
    ensures
        text_before(a, c),
    decreases b.len(),
{
    if a.len() > 0 && a[0] == b[0] && b[0] == c[0] {
        lemma_text_order_transitive(a.skip(1), b.skip(1), c.skip(1));
    }
}

/// Whether `a` comes before `b` in the order of strings.
pub fn comes_before(a: &str, b: &str) -> (before: bool)
    ensures
        before == text_before(a@, b@),
{
    let x: Vec<char> = chars_of(a);
    let y: Vec<char> = chars_of(b);
    let mut i: usize = 0;
    proof {
        assert(x@.skip(0) =~= x@);
        assert(y@.skip(0) =~= y@);
    }
    while i < x.len() && i < y.len()
        invariant
            x@ == a@,
            y@ == b@,
            i <= x.len(),
            i <= y.len(),
            text_before(a@, b@) == text_before(x@.skip(i as int), y@.skip(i as int)),
        decreases x.len() - i,
    {
        proof {
            assert(x@.skip(i as int).skip(1) =~= x@.skip(i + 1));
            assert(y@.skip(i as int).skip(1) =~= y@.skip(i + 1));
        }
        if x[i] != y[i] {
            return x[i] < y[i];
        }
        i = i + 1;
    }
    i < y.len()
}

/// How many of the nodes have this op type.
pub open spec fn op_count(nodes: Seq<NodeView>, op_type: Seq<char>) -> nat
    decreases nodes.len(),
{
    if nodes.len() == 0 {
        0
    } else {
        op_count(nodes.drop_last(), op_type) + if nodes.last().op_type == op_type {
            1nat
        } else {
            0
        }
    }
}

/// The order of operator counts: the more frequent first, then by name.
pub open spec fn count_before(a: (Seq<char>, nat), b: (Seq<char>, nat)) -> bool {
    a.1 > b.1 || (a.1 == b.1 && text_before(a.0, b.0))
}

/// A list of operator counts as plain values.
pub open spec fn count_views(counts: Seq<(&str, usize)>) -> Seq<(Seq<char>, nat)> {
    Seq::new(counts.len(), |i: int| (counts[i].0@, counts[i].1 as nat))
}

/// Whether `counts` lists every op type of the nodes with its count, and
/// nothing else.
pub open spec fn lists_op_types(nodes: Seq<NodeView>, counts: Seq<(Seq<char>, nat)>) -> bool {
    &&& forall|k: int|
        0 <= k < counts.len() ==> (#[trigger] counts[k]).1 == op_count(nodes, counts[k].0)
            && counts[k].1 > 0
    &&& forall|i: int|
        0 <= i < nodes.len() ==> counts_op_type(counts, (#[trigger] nodes[i]).op_type)
}

/// Whether `counts` has an entry for this op type.
pub open spec fn counts_op_type(counts: Seq<(Seq<char>, nat)>, op_type: Seq<char>) -> bool {
    exists|k: int| 0 <= k < counts.len() && (#[trigger] counts[k]).0 == op_type
}

/// Whether `counts` is in order.
pub open spec fn in_count_order(counts: Seq<(Seq<char>, nat)>) -> bool {
    forall|i: int, j: int|
        0 <= i < j < counts.len() ==> count_before(#[trigger] counts[i], #[trigger] counts[j])
}

proof fn lemma_op_count_take(nodes: Seq<NodeView>, i: int, op_type: Seq<char>)
    requires
        0 <= i < nodes.len(),
    ensures
        op_count(nodes.take(i + 1), op_type) == op_count(nodes.take(i), op_type)
            + if nodes[i].op_type == op_type {
            1nat
        } else {
            0
        },
        op_count(nodes.take(i), op_type) <= i,
    decreases i,
{
    assert(nodes.take(i + 1).drop_last() =~= nodes.take(i));
    if i > 0 {
        lemma_op_count_take(nodes, i - 1, op_type);
    }
}

/// Whether a count is among the first `n`.
spec fn listed(counts: Seq<(&str, usize)>, n: int, count: (&str, usize)) -> bool {
    exists|k: int| 0 <= k < n && #[trigger] counts[k] == count
}

/// Inserts a count into a list that is in order.
fn insert_count<'a>(counts: &mut Vec<(&'a str, usize)>, entry: (&'a str, usize))
    requires
        in_count_order(count_views(old(counts)@)),
        forall|k: int| 0 <= k < old(counts)@.len() ==> (#[trigger] old(counts)@[k]).0@ != entry.0@,
    ensures
        in_count_order(count_views(final(counts)@)),
        final(counts)@.len() == old(counts)@.len() + 1,
        exists|at: int|
            0 <= at <= old(counts)@.len() && final(counts)@ == #[trigger] old(counts)@.insert(
                at,
                entry,
            ),
{
    let ghost before = counts@;
    let mut at: usize = 0;
    while at < counts.len() && (counts[at].1 > entry.1 || (counts[at].1 == entry.1 && comes_before(
        counts[at].0,
        entry.0,
    )))
        invariant
            counts@ == before,
            at <= counts@.len(),
            forall|k: int|
                0 <= k < at ==> count_before(
                    (#[trigger] count_views(before)[k]),
                    (entry.0@, entry.1 as nat),
                ),
        decreases counts@.len() - at,
    {
        assert(count_before(count_views(before)[at as int], (entry.0@, entry.1 as nat)));
        at = at + 1;
    }
    counts.insert(at, entry);
    proof {
        let e = (entry.0@, entry.1 as nat);
        let a = count_views(before);
        let b = count_views(counts@);
        assert(b =~= a.insert(at as int, e));
        if at < a.len() {
            assert(a[at as int].0 == before[at as int].0@);
            lemma_text_order_is_total(a[at as int].0, e.0);
            assert(count_before(e, a[at as int]));
        }
        assert forall|i: int, j: int| 0 <= i < j < b.len() implies count_before(
            #[trigger] b[i],
            #[trigger] b[j],
        ) by {
            if i < at {
                assert(b[i] == a[i]);
                if j < at {
                    assert(b[j] == a[j]);
                } else if j > at {
                    assert(b[j] == a[j - 1]);
                }
            } else {
                assert(b[j] == a[j - 1]);
                if i == at {
                    if j - 1 > at {
                        assert(count_before(a[at as int], a[j - 1]));
                        if e.1 == a[at as int].1 && a[at as int].1 == a[j - 1].1 {
                            lemma_text_order_transitive(e.0, a[at as int].0, a[j - 1].0);
                        }
                    }
                } else {
                    assert(b[i] == a[i - 1]);
                }
            }
        }
    }
}

/// The elements of all the tensors that are stored as initializers, among the
/// first `n` values.
pub open spec fn stored_elements(values: Seq<ValueView>, n: nat) -> nat
    decreases n,
{
    if n == 0 {
        0
    } else {
        stored_elements(values, (n - 1) as nat) + match values[n - 1].tensor {
            Some(tensor) => crate::model::element_count(tensor.dims),
            None => 0,
        }
    }
}

/// The elements of all the tensors among the first `n` attributes.
pub open spec fn attr_elements(attrs: Seq<AttributeView>, n: nat) -> nat
    decreases n,
{
    if n == 0 {
        0
    } else {
        attr_elements(attrs, (n - 1) as nat) + match attrs[n - 1].value {
            AttrValueView::Tensor(tensor) => crate::model::element_count(tensor.dims),
            _ => 0,
        }
    }
}

/// The elements of all the tensors among the attributes of the first `n` nodes.
pub open spec fn node_elements(nodes: Seq<NodeView>, n: nat) -> nat
    decreases n,
{
    if n == 0 {
        0
    } else {
        node_elements(nodes, (n - 1) as nat) + attr_elements(
            nodes[n - 1].attrs,
            nodes[n - 1].attrs.len(),
        )
    }
}

impl GraphView {
    /// The number of elements stored as constants in the graph.
    pub open spec fn parameters(self) -> nat {
        stored_elements(self.values, self.values.len()) + node_elements(
            self.nodes,
            self.nodes.len(),
        )
    }

    /// Whether the constants can be counted in 64 bits.
    pub open spec fn parameters_countable(self) -> bool {
        &&& self.parameters() <= u64::MAX
        &&& forall|i: int|
            0 <= i < self.values.len() ==> ((#[trigger] self.values[i]).tensor is Some
                ==> crate::model::countable(self.values[i].tensor->0.dims))
        &&& forall|i: int| 0 <= i < self.nodes.len() ==> attrs_countable((#[trigger] self.nodes[i]).attrs)
    }

    /// The data behind a value: an initializer, or what the `Constant` node
    /// that produces it supplies.
    pub open spec fn constant_tensor(self, value: ValueView) -> Option<TensorView> {
        match value.tensor {
            Some(tensor) => Some(tensor),
            None => match value.producer {
                Some(node) => self.nodes[node.0 as int].constant_tensor(),
                None => None,
            },
        }
    }
}

pub open spec fn attrs_countable(attrs: Seq<AttributeView>) -> bool {
    forall|j: int|
        0 <= j < attrs.len() ==> match (#[trigger] attrs[j]).value {
            AttrValueView::Tensor(tensor) => crate::model::countable(tensor.dims),
            _ => true,
        }
}

/// The subgraphs among the first `m` attributes of a node.
pub open spec fn node_subgraphs(node: NodeView, m: nat) -> Seq<(NodeId, Seq<char>, GraphId)>
    decreases m,
{
    if m == 0 {
        Seq::empty()
    } else {
        let before = node_subgraphs(node, (m - 1) as nat);
        match node.attrs[m - 1].value {
            AttrValueView::Graph(id) => before.push((node.id, node.attrs[m - 1].name, id)),
            _ => before,
        }
    }
}

/// The subgraphs directly contained by the first `n` nodes.
pub open spec fn nodes_subgraphs(nodes: Seq<NodeView>, n: nat) -> Seq<(NodeId, Seq<char>, GraphId)>
    decreases n,
{
    if n == 0 {
        Seq::empty()
    } else {
        nodes_subgraphs(nodes, (n - 1) as nat) + node_subgraphs(
            nodes[n - 1],
            nodes[n - 1].attrs.len(),
        )
    }
}

pub open spec fn subgraph_views(items: Seq<(NodeId, &str, GraphId)>) -> Seq<
    (NodeId, Seq<char>, GraphId),
> {
    Seq::new(items.len(), |i: int| (items[i].0, items[i].1@, items[i].2))
}

proof fn lemma_stored_elements_grow(values: Seq<ValueView>, k: nat, n: nat)
    requires
        k <= n,
    ensures
        stored_elements(values, k) <= stored_elements(values, n),
    decreases n,
{
    if k < n {
        lemma_stored_elements_grow(values, k, (n - 1) as nat);
    }
}

proof fn lemma_attr_elements_grow(attrs: Seq<AttributeView>, k: nat, n: nat)
    requires
        k <= n,
    ensures
        attr_elements(attrs, k) <= attr_elements(attrs, n),
    decreases n,
{
    if k < n {
        lemma_attr_elements_grow(attrs, k, (n - 1) as nat);
    }
}

proof fn lemma_node_elements_grow(nodes: Seq<NodeView>, k: nat, n: nat)
    requires
        k <= n,
    ensures
        node_elements(nodes, k) <= node_elements(nodes, n),
    decreases n,
{
    if k < n {
        lemma_node_elements_grow(nodes, k, (n - 1) as nat);
    }
}

impl Graph {
    /// The node with this ID.
    pub fn node(&self, id: NodeId) -> (node: &Node)
        requires
            self@.has_node(id),
        ensures
            *node == self.nodes@[id.0 as int],
    {
        &self.nodes[id.0 as usize]
    }

    pub fn nodes(&self) -> (nodes: &[Node])
        ensures
            nodes@ == self.nodes@,
    {
        self.nodes.as_slice()
    }

    /// The value with this ID.
    pub fn value(&self, id: ValueId) -> (value: &Value)
        requires
            self@.has_value(id),
        ensures
            *value == self.values@[id.0 as int],
    {
        &self.values[id.0 as usize]
    }

    pub fn values(&self) -> (values: &[Value])
        ensures
            values@ == self.values@,
    {
        self.values.as_slice()
    }

    /// The value with this name.
    pub fn value_by_name(&self, name: &str) -> (value: Option<&Value>)
        requires
            self.wf(),
        ensures
            match value {
                Some(value) => self@.names().contains(name@) && *value
                    == self.values@[self@.names().index_of(name@)],
                None => !self@.names().contains(name@),
            },
    {
        let ghost names = self@.names();
        match self.value_by_name.get(name) {
            Some(id) => {
                proof {
                    assert(names[id.0 as int] == name@);
                    assert(names.contains(name@));
                    let at = names.index_of(name@);
                    assert(names[at] == name@);
                    assert(self.value_by_name@.contains_key(names[at]));
                }
                Some(&self.values[id.0 as usize])
            },
            None => {
                proof {
                    if names.contains(name@) {
                        let at = names.index_of(name@);
                        assert(self.value_by_name@.contains_key(names[at]));
                    }
                }
                None
            },
        }
    }

    /// Count of each operator type, sorted by descending frequency.
    pub fn op_type_counts(&self) -> (counts: Vec<(&str, usize)>)
        ensures
            lists_op_types(self@.nodes, count_views(counts@)),
            in_count_order(count_views(counts@)),
    {
        let ghost nodes = self@.nodes;
        let mut places: StringHashMap<usize> = StringHashMap::new();
        let mut counts: Vec<(&str, usize)> = Vec::new();
        assert(nodes.take(0) =~= Seq::<NodeView>::empty());
        for i in 0..self.nodes.len()
            invariant
                nodes == self@.nodes,
                forall|name: Seq<char>| #[trigger]
                    places@.contains_key(name) ==> places@[name] < counts@.len()
                        && counts@[places@[name] as int].0@ == name,
                forall|k: int|
                    0 <= k < counts@.len() ==> {
                        let name = (#[trigger] counts@[k]).0@;
                        &&& places@.contains_key(name)
                        &&& places@[name] == k
                        &&& counts@[k].1 == op_count(nodes.take(i as int), name)
                        &&& 0 < counts@[k].1 <= i
                    },
                forall|k: int|
                    0 <= k < i ==> places@.contains_key((#[trigger] nodes[k]).op_type),
                forall|name: Seq<char>|
                    !(#[trigger] places@.contains_key(name)) ==> op_count(
                        nodes.take(i as int),
                        name,
                    ) == 0,
        {
            let op_type: &str = self.nodes[i].op_type.as_str();
            let ghost held = counts@;
            let ghost known = places@;
            proof {
                assert forall|name: Seq<char>| op_count(nodes.take(i + 1), name) == #[trigger] op_count(
                    nodes.take(i as int),
                    name,
                ) + if nodes[i as int].op_type == name {
                    1nat
                } else {
                    0
                } by {
                    lemma_op_count_take(nodes, i as int, name);
                }
            }
            let place: Option<usize> = match places.get(op_type) {
                Some(place) => Some(*place),
                None => None,
            };
            match place {
                Some(place) => {
                    let seen: usize = counts[place].1;
                    let name: &str = counts[place].0;
                    counts.set(place, (name, seen + 1));
                },
                None => {
                    counts.push((op_type, 1));
                    places.insert(op_type.to_owned(), counts.len() - 1);
                },
            }
            proof {
                assert forall|k: int| 0 <= k < counts@.len() implies {
                    let name = (#[trigger] counts@[k]).0@;
                    &&& places@.contains_key(name)
                    &&& places@[name] == k
                    &&& counts@[k].1 == op_count(nodes.take(i + 1), name)
                    &&& 0 < counts@[k].1 <= i + 1
                } by {
                    if k < held.len() {
                        assert(held[k].0@ == counts@[k].0@);
                        assert(known.contains_key(held[k].0@));
                        assert(counts@[k].1 == op_count(nodes.take(i + 1), held[k].0@)) by {
                            assert(op_count(nodes.take(i as int), held[k].0@) == held[k].1);
                        }
                    } else {
                        assert(op_count(nodes.take(i as int), op_type@) == 0);
                    }
                }
                assert forall|name: Seq<char>| #[trigger]
                    places@.contains_key(name) implies places@[name] < counts@.len()
                    && counts@[places@[name] as int].0@ == name by {
                    if known.contains_key(name) {
                        assert(held[known[name] as int].0@ == name);
                    }
                }
                assert forall|name: Seq<char>|
                    !(#[trigger] places@.contains_key(name)) implies op_count(
                    nodes.take(i + 1),
                    name,
                ) == 0 by {
                    assert(!known.contains_key(name));
                    assert(op_count(nodes.take(i as int), name) == 0);
                }
            }
        }
        proof {
            assert(nodes.take(nodes.len() as int) =~= nodes);
        }
        let ghost entries = counts@;
        let ghost places = places@;
        let mut sorted: Vec<(&str, usize)> = Vec::new();
        for i in 0..counts.len()
            invariant
                counts@ == entries,
                forall|k: int|
                    0 <= k < entries.len() ==> places.contains_key((#[trigger] entries[k]).0@)
                        && places[entries[k].0@] == k,
                in_count_order(count_views(sorted@)),
                forall|j: int|
                    0 <= j < sorted@.len() ==> listed(entries, i as int, #[trigger] sorted@[j]),
                forall|k: int|
                    0 <= k < i ==> listed(sorted@, sorted@.len() as int, #[trigger] entries[k]),
        {
            let ghost held = sorted@;
            proof {
                assert forall|j: int| 0 <= j < held.len() implies (#[trigger] held[j]).0@
                    != entries[i as int].0@ by {
                    assert(listed(entries, i as int, held[j]));
                    let k = choose|k: int| 0 <= k < i && #[trigger] entries[k] == held[j];
                    assert(places[entries[k].0@] == k);
                    assert(places[entries[i as int].0@] == i);
                }
            }
            insert_count(&mut sorted, counts[i]);
            proof {
                let at = choose|at: int|
                    0 <= at <= held.len() && sorted@ == #[trigger] held.insert(
                        at,
                        entries[i as int],
                    );
                assert forall|j: int| 0 <= j < sorted@.len() implies listed(
                    entries,
                    i + 1,
                    #[trigger] sorted@[j],
                ) by {
                    if j < at {
                        assert(sorted@[j] == held[j]);
                        assert(listed(entries, i as int, held[j]));
                    } else if j == at {
                        assert(sorted@[j] == entries[i as int]);
                    } else {
                        assert(sorted@[j] == held[j - 1]);
                        assert(listed(entries, i as int, held[j - 1]));
                    }
                }
                assert forall|k: int| 0 <= k < i + 1 implies listed(
                    sorted@,
                    sorted@.len() as int,
                    #[trigger] entries[k],
                ) by {
                    if k < i {
                        assert(listed(held, held.len() as int, entries[k]));
                        let j = choose|j: int|
                            0 <= j < held.len() && #[trigger] held[j] == entries[k];
                        if j < at {
                            assert(sorted@[j] == entries[k]);
                        } else {
                            assert(sorted@[j + 1] == entries[k]);
                        }
                    } else {
                        assert(sorted@[at] == entries[k]);
                    }
                }
            }
        }
        proof {
            let views = count_views(sorted@);
            assert forall|k: int| 0 <= k < views.len() implies (#[trigger] views[k]).1 == op_count(
                nodes,
                views[k].0,
            ) && views[k].1 > 0 by {
                assert(listed(entries, entries.len() as int, sorted@[k]));
                let e = choose|e: int|
                    0 <= e < entries.len() && #[trigger] entries[e] == sorted@[k];
                assert(entries[e].1 == op_count(nodes, entries[e].0@));
            }
            assert forall|i: int| 0 <= i < nodes.len() implies counts_op_type(
                views,
                (#[trigger] nodes[i]).op_type,
            ) by {
                let e = places[nodes[i].op_type] as int;
                assert(listed(sorted@, sorted@.len() as int, entries[e]));
                let j = choose|j: int|
                    0 <= j < sorted@.len() && #[trigger] sorted@[j] == entries[e];
                assert(views[j].0 == nodes[i].op_type);
            }
        }
        sorted
    }
}

impl GraphView {
    /// Whether node `n` works on constants alone, as far as `depth` steps
    /// towards its inputs can tell.
    pub open spec fn fed(self, depth: nat, n: int) -> bool
        decreases depth,
    {
        depth > 0 && forall|j: int|
            0 <= j < self.nodes[n].inputs.len() ==> match #[trigger] self.nodes[n].inputs[j] {
                Some(id) => {
                    let value = self.values[id.0 as int];
                    value.kind.is_constant() || match value.producer {
                        Some(producer) => self.fed((depth - 1) as nat, producer.0 as int),
                        None => false,
                    }
                },
                None => true,
            }
    }

    /// Whether input `j` of node `n` is left out, a constant, or the result of a
    /// node that works on constants alone as far as `depth` steps can tell.
    pub open spec fn input_fed(self, depth: nat, n: int, j: int) -> bool {
        match self.nodes[n].inputs[j] {
            Some(id) => {
                let value = self.values[id.0 as int];
                value.kind.is_constant() || match value.producer {
                    Some(producer) => self.fed(depth, producer.0 as int),
                    None => false,
                }
            },
            None => true,
        }
    }

    /// Whether node `n` works on constants alone: everything it reads is a
    /// constant, or the result of such a node.
    pub open spec fn constant_fed(self, n: int) -> bool {
        exists|depth: nat| #[trigger] self.fed(depth, n)
    }

    /// Whether input `j` of node `n` comes from constants alone.
    pub open spec fn input_constant_fed(self, n: int, j: int) -> bool {
        match self.nodes[n].inputs[j] {
            Some(id) => {
                let value = self.values[id.0 as int];
                value.kind.is_constant() || match value.producer {
                    Some(producer) => self.constant_fed(producer.0 as int),
                    None => false,
                }
            },
            None => true,
        }
    }
}

proof fn lemma_fed_deeper(g: GraphView, d: nat, e: nat, n: int)
    requires
        d <= e,
        g.fed(d, n),
    ensures
        g.fed(e, n),
    decreases d,
{
    assert forall|j: int| 0 <= j < g.nodes[n].inputs.len() implies match #[trigger] g.nodes[n].inputs[j] {
        Some(id) => {
            let value = g.values[id.0 as int];
            value.kind.is_constant() || match value.producer {
                Some(producer) => g.fed((e - 1) as nat, producer.0 as int),
                None => false,
            }
        },
        None => true,
    } by {
        match g.nodes[n].inputs[j] {
            Some(id) => {
                let value = g.values[id.0 as int];
                match value.producer {
                    Some(producer) => {
                        if g.fed((d - 1) as nat, producer.0 as int) {
                            lemma_fed_deeper(g, (d - 1) as nat, (e - 1) as nat, producer.0 as int);
                        }
                    },
                    None => {},
                }
            },
            None => {},
        }
    }
}

/// One depth does for the first `k` inputs.
proof fn lemma_common_depth(g: GraphView, n: int, k: int) -> (depth: nat)
    requires
        0 <= k <= g.nodes[n].inputs.len(),
        forall|j: int| 0 <= j < k ==> #[trigger] g.input_constant_fed(n, j),
    ensures
        forall|j: int| 0 <= j < k ==> #[trigger] g.input_fed(depth, n, j),
    decreases k,
{
    if k == 0 {
        0
    } else {
        let before = lemma_common_depth(g, n, k - 1);
        assert(g.input_constant_fed(n, k - 1));
        let here: nat = match g.nodes[n].inputs[k - 1] {
            Some(id) => {
                let value = g.values[id.0 as int];
                match value.producer {
                    Some(producer) => if g.constant_fed(producer.0 as int) {
                        choose|d: nat| g.fed(d, producer.0 as int)
                    } else {
                        0
                    },
                    None => 0,
                }
            },
            None => 0,
        };
        let depth = if before > here {
            before
        } else {
            here
        };
        assert forall|j: int| 0 <= j < k implies #[trigger] g.input_fed(depth, n, j) by {
            if j < k - 1 {
                assert(g.input_fed(before, n, j));
            }
            match g.nodes[n].inputs[j] {
                Some(id) => {
                    let value = g.values[id.0 as int];
                    match value.producer {
                        Some(producer) => {
                            if j < k - 1 && g.fed(before, producer.0 as int) {
                                lemma_fed_deeper(g, before, depth, producer.0 as int);
                            }
                            if j == k - 1 && g.fed(here, producer.0 as int) {
                                lemma_fed_deeper(g, here, depth, producer.0 as int);
                            }
                        },
                        None => {},
                    }
                },
                None => {},
            }
        }
        depth
    }
}

/// A node works on constants alone exactly where each of its inputs is left
/// out, a constant, or the result of a node that works on constants alone.
pub proof fn law_constant_fed_is_closed(g: GraphView, n: int)
    ensures
        g.constant_fed(n) <==> forall|j: int|
            0 <= j < g.nodes[n].inputs.len() ==> #[trigger] g.input_constant_fed(n, j),
{
    if g.constant_fed(n) {
        let depth = choose|depth: nat| g.fed(depth, n);
        assert forall|j: int| 0 <= j < g.nodes[n].inputs.len() implies #[trigger] g.input_constant_fed(
            n,
            j,
        ) by {
            assert(g.input_fed((depth - 1) as nat, n, j));
        }
    }
    if forall|j: int|
        0 <= j < g.nodes[n].inputs.len() ==> #[trigger] g.input_constant_fed(n, j) {
        let depth = lemma_common_depth(g, n, g.nodes[n].inputs.len() as int);
        assert forall|j: int| 0 <= j < g.nodes[n].inputs.len() implies match #[trigger] g.nodes[n].inputs[j] {
            Some(id) => {
                let value = g.values[id.0 as int];
                value.kind.is_constant() || match value.producer {
                    Some(producer) => g.fed(depth, producer.0 as int),
                    None => false,
                }
            },
            None => true,
        } by {
            assert(g.input_fed(depth, n, j));
        }
        assert(g.fed(depth + 1, n));
    }
}

/// Marks that nothing can be added to hold every node that works on constants
/// alone.
proof fn lemma_marks_complete(g: GraphView, marks: Seq<bool>, depth: nat, n: int)
    requires
        g.wf(),
        marks.len() == g.nodes.len(),
        0 <= n < g.nodes.len(),
        forall|k: int| 0 <= k < marks.len() && !(#[trigger] marks[k]) ==> !all_marked(g, marks, k),
        g.fed(depth, n),
    ensures
        marks[n],
    decreases depth,
{
    if !marks[n] {
        assert forall|j: int| 0 <= j < g.nodes[n].inputs.len() implies #[trigger] input_marked(
            g,
            marks,
            n,
            j,
        ) by {
            assert(g.input_fed((depth - 1) as nat, n, j));
            assert(g.node_wf(g.nodes[n], n));
            match g.nodes[n].inputs[j] {
                Some(id) => {
                    assert(g.has_value(id));
                    assert(g.value_wf(g.values[id.0 as int], id.0 as int));
                    match g.values[id.0 as int].producer {
                        Some(producer) => {
                            if g.fed((depth - 1) as nat, producer.0 as int) {
                                lemma_marks_complete(
                                    g,
                                    marks,
                                    (depth - 1) as nat,
                                    producer.0 as int,
                                );
                            }
                        },
                        None => {},
                    }
                },
                None => {},
            }
        }
        assert(all_marked(g, marks, n));
    }
}

/// Whether input `j` of node `n` is left out, a constant, or the result of a
/// marked node.
spec fn input_marked(g: GraphView, marks: Seq<bool>, n: int, j: int) -> bool {
    match g.nodes[n].inputs[j] {
        Some(id) => {
            let value = g.values[id.0 as int];
            value.kind.is_constant() || match value.producer {
                Some(producer) => marks[producer.0 as int],
                None => false,
            }
        },
        None => true,
    }
}

spec fn all_marked(g: GraphView, marks: Seq<bool>, n: int) -> bool {
    forall|j: int| 0 <= j < g.nodes[n].inputs.len() ==> #[trigger] input_marked(g, marks, n, j)
}

spec fn unmarked(marks: Seq<bool>) -> nat
    decreases marks.len(),
{
    if marks.len() == 0 {
        0
    } else {
        unmarked(marks.drop_last()) + if marks.last() {
            0nat
        } else {
            1
        }
    }
}

proof fn lemma_mark_one(marks: Seq<bool>, n: int)
    requires
        0 <= n < marks.len(),
        !marks[n],
    ensures
        unmarked(marks.update(n, true)) + 1 == unmarked(marks),
    decreases marks.len(),
{
    if n == marks.len() - 1 {
        assert(marks.update(n, true).drop_last() =~= marks.drop_last());
    } else {
        assert(marks.update(n, true).drop_last() =~= marks.drop_last().update(n, true));
        lemma_mark_one(marks.drop_last(), n);
    }
}

impl Graph {
    /// The number of elements stored as constants, or `None` where they cannot
    /// be counted in 64 bits.
    pub fn try_parameter_count(&self) -> (count: Option<u64>)
        ensures
            match count {
                Some(count) => self@.parameters_countable() && count == self@.parameters(),
                None => !self@.parameters_countable(),
            },
    {
        let ghost g = self@;
        let mut count: u64 = 0;
        for i in 0..self.values.len()
            invariant
                g == self@,
                count == stored_elements(g.values, i as nat),
                forall|k: int|
                    0 <= k < i ==> ((#[trigger] g.values[k]).tensor is Some
                        ==> crate::model::countable(g.values[k].tensor->0.dims)),
        {
            proof {
                assert(g.values[i as int] == self.values@[i as int]@);
                lemma_stored_elements_grow(g.values, i as nat + 1, g.values.len());
            }
            if let Some(tensor) = &self.values[i].tensor {
                match tensor.try_elem_count() {
                    Some(elements) => match count.checked_add(elements) {
                        Some(sum) => {
                            count = sum;
                        },
                        None => {
                            return None;
                        },
                    },
                    None => {
                        return None;
                    },
                }
            }
        }
        let stored: u64 = count;
        for i in 0..self.nodes.len()
            invariant
                g == self@,
                stored == stored_elements(g.values, g.values.len()),
                count == stored + node_elements(g.nodes, i as nat),
                forall|k: int|
                    0 <= k < g.values.len() ==> ((#[trigger] g.values[k]).tensor is Some
                        ==> crate::model::countable(g.values[k].tensor->0.dims)),
                forall|k: int| 0 <= k < i ==> attrs_countable((#[trigger] g.nodes[k]).attrs),
        {
            let before: u64 = count;
            let attrs: &Vec<crate::model::Attribute> = &self.nodes[i].attrs;
            let ghost views = g.nodes[i as int].attrs;
            proof {
                assert(g.nodes[i as int] == self.nodes@[i as int]@);
                lemma_node_elements_grow(g.nodes, i as nat + 1, g.nodes.len());
            }
            for j in 0..attrs.len()
                invariant
                    g == self@,
                    i < self.nodes@.len(),
                    views == g.nodes[i as int].attrs,
                    views == chars::views(attrs@),
                    stored == stored_elements(g.values, g.values.len()),
                    before == stored + node_elements(g.nodes, i as nat),
                    count == before + attr_elements(views, j as nat),
                    node_elements(g.nodes, i as nat + 1) <= node_elements(g.nodes, g.nodes.len()),
                    forall|k: int|
                        0 <= k < j ==> match (#[trigger] views[k]).value {
                            AttrValueView::Tensor(tensor) => crate::model::countable(tensor.dims),
                            _ => true,
                        },
            {
                proof {
                    assert(views[j as int] == attrs@[j as int]@);
                    lemma_attr_elements_grow(views, j as nat + 1, views.len());
                    assert(attrs_countable(g.nodes[i as int].attrs) ==> match views[j as int].value {
                        AttrValueView::Tensor(tensor) => crate::model::countable(tensor.dims),
                        _ => true,
                    });
                }
                if let AttrValue::Tensor(tensor) = &attrs[j].value {
                    match tensor.try_elem_count() {
                        Some(elements) => match count.checked_add(elements) {
                            Some(sum) => {
                                count = sum;
                            },
                            None => {
                                return None;
                            },
                        },
                        None => {
                            return None;
                        },
                    }
                }
            }
        }
        Some(count)
    }

    /// Total number of elements stored as constants in this graph.
    ///
    /// This counts both initializers and tensor-valued attributes. Some
    /// exporters (`spox`, for example) store all weights as `Constant` node
    /// attributes and declare no initializers at all.
    pub fn parameter_count(&self) -> (count: u64)
        requires
            self@.parameters_countable(),
        ensures
            count == self@.parameters(),
    {
        match self.try_parameter_count() {
            Some(count) => count,
            None => 0,
        }
    }

    /// Constant data backing `value`, whether it comes from an initializer or
    /// from the attribute of a `Constant` node that produces it.
    pub fn constant_tensor<'a>(&'a self, value: &'a Value) -> (tensor: Option<&'a Tensor>)
        requires
            value.producer is Some ==> self@.has_node(value.producer->0),
        ensures
            match self@.constant_tensor(value@) {
                Some(expected) => tensor is Some && tensor->0@ == expected,
                None => tensor is None,
            },
    {
        if let Some(tensor) = &value.tensor {
            return Some(tensor);
        }
        match value.producer {
            Some(producer) => self.node(producer).constant_tensor(),
            None => None,
        }
    }

    /// Subgraphs directly contained by nodes in this graph.
    pub fn subgraphs(&self) -> (subgraphs: Vec<(NodeId, &str, GraphId)>)
        ensures
            subgraph_views(subgraphs@) == nodes_subgraphs(self@.nodes, self@.nodes.len()),
    {
        let ghost nodes = self@.nodes;
        let mut subgraphs: Vec<(NodeId, &str, GraphId)> = Vec::new();
        assert(subgraph_views(subgraphs@) =~= nodes_subgraphs(nodes, 0));
        for i in 0..self.nodes.len()
            invariant
                nodes == self@.nodes,
                subgraph_views(subgraphs@) == nodes_subgraphs(nodes, i as nat),
        {
            let node: &Node = &self.nodes[i];
            let ghost view = nodes[i as int];
            proof {
                assert(view == node@);
                assert(subgraph_views(subgraphs@) =~= nodes_subgraphs(nodes, i as nat)
                    + node_subgraphs(view, 0));
            }
            for j in 0..node.attrs.len()
                invariant
                    i < self.nodes@.len(),
                    nodes == self@.nodes,
                    *node == self.nodes@[i as int],
                    view == node@,
                    view == nodes[i as int],
                    subgraph_views(subgraphs@) == nodes_subgraphs(nodes, i as nat)
                        + node_subgraphs(view, j as nat),
            {
                let ghost held = subgraphs@;
                assert(view.attrs[j as int] == node.attrs@[j as int]@);
                if let AttrValue::Graph(id) = node.attrs[j].value {
                    subgraphs.push((node.id, node.attrs[j].name.as_str(), id));
                    assert(subgraph_views(subgraphs@) =~= subgraph_views(held).push(
                        (view.id, view.attrs[j as int].name, id),
                    ));
                    assert(subgraph_views(subgraphs@) =~= nodes_subgraphs(nodes, i as nat)
                        + node_subgraphs(view, j as nat + 1));
                }
            }
        }
        subgraphs
    }

    /// Whether everything node `n` reads is a constant or the result of a
    /// marked node.
    fn reads_marked(&self, marks: &Vec<bool>, n: usize) -> (all: bool)
        requires
            self@.wf(),
            marks@.len() == self.nodes@.len(),
            n < self.nodes@.len(),
        ensures
            all == all_marked(self@, marks@, n as int),
    {
        let ghost g = self@;
        assert(g.nodes[n as int] == self.nodes@[n as int]@);
        assert(g.node_wf(g.nodes[n as int], n as int));
        let inputs: &Vec<Option<ValueId>> = &self.nodes[n].inputs;
        for j in 0..inputs.len()
            invariant
                g == self@,
                g.wf(),
                marks@.len() == self.nodes@.len(),
                n < self.nodes@.len(),
                inputs@ == g.nodes[n as int].inputs,
                g.node_wf(g.nodes[n as int], n as int),
                forall|k: int| 0 <= k < j ==> #[trigger] input_marked(g, marks@, n as int, k),
        {
            if let Some(id) = inputs[j] {
                assert(g.nodes[n as int].inputs[j as int] == Some(id));
                let value: &Value = &self.values[id.0 as usize];
                proof {
                    assert(g.values[id.0 as int] == value@);
                    assert(g.value_wf(g.values[id.0 as int], id.0 as int));
                }
                let fed: bool = value.is_constant() || match value.producer {
                    Some(producer) => marks[producer.0 as usize],
                    None => false,
                };
                assert(fed == input_marked(g, marks@, n as int, j as int));
                if !fed {
                    return false;
                }
            }
        }
        true
    }

    /// Marks the nodes that work on constants alone.
    pub fn constant_fed_nodes(&self) -> (fed: Vec<bool>)
        requires
            self@.wf(),
        ensures
            fed@.len() == self@.nodes.len(),
            forall|n: int| 0 <= n < fed@.len() ==> #[trigger] fed@[n] == self@.constant_fed(n),
    {
        let ghost g = self@;
        let count: usize = self.nodes.len();
        let mut fed: Vec<bool> = Vec::new();
        for i in 0..count
            invariant
                fed@.len() == i,
                forall|n: int| 0 <= n < i ==> !(#[trigger] fed@[n]),
        {
            fed.push(false);
        }
        let mut changed: bool = true;
        while changed
            invariant
                g == self@,
                g.wf(),
                count == g.nodes.len(),
                fed@.len() == count,
                forall|n: int| 0 <= n < count && #[trigger] fed@[n] ==> g.constant_fed(n),
                !changed ==> forall|n: int|
                    0 <= n < count && !(#[trigger] fed@[n]) ==> !all_marked(g, fed@, n),
            decreases
                    unmarked(fed@),
                    if changed {
                        1int
                    } else {
                        0
                    },
        {
            changed = false;
            let ghost start = fed@;
            for i in 0..count
                invariant
                    g == self@,
                    g.wf(),
                    count == g.nodes.len(),
                    fed@.len() == count,
                    forall|n: int| 0 <= n < count && #[trigger] fed@[n] ==> g.constant_fed(n),
                    changed ==> unmarked(fed@) < unmarked(start),
                    !changed ==> fed@ == start && forall|n: int|
                        0 <= n < i && !(#[trigger] fed@[n]) ==> !all_marked(g, fed@, n),
                    unmarked(fed@) <= unmarked(start),
            {
                if !fed[i] && self.reads_marked(&fed, i) {
                    proof {
                        lemma_mark_one(fed@, i as int);
                        assert forall|j: int|
                            0 <= j < g.nodes[i as int].inputs.len() implies #[trigger] g.input_constant_fed(
                        i as int, j) by {
                            assert(input_marked(g, fed@, i as int, j));
                            assert(g.node_wf(g.nodes[i as int], i as int));
                            match g.nodes[i as int].inputs[j] {
                                Some(id) => {
                                    assert(g.has_value(id));
                                    assert(g.value_wf(g.values[id.0 as int], id.0 as int));
                                },
                                None => {},
                            }
                        }
                        law_constant_fed_is_closed(g, i as int);
                    }
                    fed.set(i, true);
                    changed = true;
                }
            }
        }
        proof {
            assert forall|n: int| 0 <= n < count implies #[trigger] fed@[n] == g.constant_fed(n) by {
                if g.constant_fed(n) {
                    let depth = choose|depth: nat| g.fed(depth, n);
                    lemma_marks_complete(g, fed@, depth, n);
                }
            }
        }
        fed
    }
}

/// The chain of graphs from the main graph down to `id`.
pub open spec fn path_of(graphs: Seq<GraphView>, id: GraphId) -> Seq<GraphId>
    decreases id.0,
{
    match graphs[id.0 as int].parent {
        Some(parent) => if parent.0 < id.0 {
            path_of(graphs, parent).push(id)
        } else {
            seq![id]
        },
        None => seq![id],
    }
}

impl Model {
    pub fn root_id(&self) -> (id: GraphId)
        ensures
            id == self@.root,
    {
        self.root
    }

    /// The main graph.
    pub fn root(&self) -> (graph: &Graph)
        requires
            self@.has_graph(self@.root),
        ensures
            *graph == self.graphs@[self.root.0 as int],
    {
        self.graph(self.root)
    }

    /// The graph with this ID.
    pub fn graph(&self, id: GraphId) -> (graph: &Graph)
        requires
            self@.has_graph(id),
        ensures
            *graph == self.graphs@[id.0 as int],
    {
        &self.graphs[id.0 as usize]
    }

    pub fn graphs(&self) -> (graphs: &[Graph])
        ensures
            graphs@ == self.graphs@,
    {
        self.graphs.as_slice()
    }

    pub fn graph_count(&self) -> (count: usize)
        ensures
            count == self@.graphs.len(),
    {
        self.graphs.len()
    }

    /// The chain of graphs from the root down to `id`, for breadcrumbs.
    pub fn path_to(&self, id: GraphId) -> (path: Vec<GraphId>)
        requires
            crate::graph::parents_precede(self@.graphs),
            self@.has_graph(id),
        ensures
            path@ == path_of(self@.graphs, id),
        decreases id.0,
    {
        assert(self@.graphs[id.0 as int] == self.graphs@[id.0 as int]@);
        let mut path: Vec<GraphId> = match self.graphs[id.0 as usize].parent {
            Some(parent) => self.path_to(parent),
            None => Vec::new(),
        };
        path.push(id);
        assert(path@ =~= path_of(self@.graphs, id));
        path
    }
}

/// The chain of graphs down to a graph starts at the main graph, ends at the
/// graph itself, and each graph in it encloses the next.
pub proof fn law_path_descends(model: ModelView, id: GraphId)
    requires
        model.wf(),
        model.has_graph(id),
    ensures
        path_of(model.graphs, id).len() > 0,
        path_of(model.graphs, id)[0] == model.root,
        path_of(model.graphs, id).last() == id,
        forall|k: int|
            0 < k < path_of(model.graphs, id).len() ==> model.has_graph(
                #[trigger] path_of(model.graphs, id)[k],
            ) && model.graphs[path_of(model.graphs, id)[k].0 as int].parent == Some(
                path_of(model.graphs, id)[k - 1],
            ),
    decreases id.0,
{
    let g = model.graphs[id.0 as int];
    assert(g.id == id);
    match g.parent {
        Some(parent) => {
            law_path_descends(model, parent);
            let before = path_of(model.graphs, parent);
            let path = path_of(model.graphs, id);
            assert(path == before.push(id));
            assert forall|k: int| 0 < k < path.len() implies model.has_graph(#[trigger] path[k])
                && model.graphs[path[k].0 as int].parent == Some(path[k - 1]) by {
                if k < before.len() {
                    assert(path[k] == before[k]);
                    assert(path[k - 1] == before[k - 1]);
                }
            }
        },
        None => {},
    }
}

} // verus!
