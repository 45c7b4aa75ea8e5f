//! What the boxes of a drawing show, and how they are picked out.

use crate::canvas::{self, Fill};
use crate::category::{self, OpCategory};
use crate::collect::{self, BoxView, ItemKind, ScopeView};
use crate::graph::GraphView;
use crate::hierarchy::GroupId;
use crate::layout;
use crate::model::{NodeId, NodeView};
use crate::queries;
use crate::routing::Cell;
use crate::tally;
use crate::text;
use crate::values;
use vstd::prelude::*;

verus! {

/// Whether a box says what it stands for: an operator its type, a block its name
/// and how many operators are in it, and a value its name and type.
pub open spec fn is_labelled(g: GraphView, scope: Option<ScopeView>, b: BoxView) -> bool {
    match b.kind {
        ItemKind::Op(id) => {
            let node = g.nodes[id.0 as int];
            &&& b.title == node.op_type
            &&& b.subtitle.len() == 0
            &&& b.category == Some(category::category_of(node.op_type))
        },
        ItemKind::Group(id) => {
            let group = scope->0.hierarchy.groups[id.0 as int];
            &&& b.title == group.name
            &&& b.subtitle == text::decimal(group.total_nodes) + " operators"@
            &&& b.category is None
        },
        ItemKind::Input(id) => {
            let value = g.values[id.0 as int];
            b.title == value.name && b.subtitle == value.type_text() && b.category is None
        },
        ItemKind::Output(id) => {
            let value = g.values[id.0 as int];
            b.title == value.name && b.subtitle == value.type_text() && b.category is None
        },
    }
}

/// Whether all boxes are labelled.
pub open spec fn all_labelled(g: GraphView, scope: Option<ScopeView>, boxes: Seq<BoxView>) -> bool {
    forall|i: int| 0 <= i < boxes.len() ==> is_labelled(g, scope, #[trigger] boxes[i])
}

/// Whether one list of boxes starts with another.
spec fn begins(more: Seq<BoxView>, boxes: Seq<BoxView>) -> bool {
    &&& boxes.len() <= more.len()
    &&& forall|i: int| 0 <= i < boxes.len() ==> #[trigger] more[i] == boxes[i]
}

proof fn lemma_inputs_labelled(
    g: GraphView,
    scope: Option<ScopeView>,
    boxes: Seq<BoxView>,
    n: nat,
    k: int,
)
    requires
        n <= g.inputs.len(),
        all_labelled(g, scope, boxes),
    ensures
        all_labelled(g, scope, collect::with_inputs(boxes, g, n)),
        begins(collect::with_inputs(boxes, g, n), boxes),
        0 <= k < n && !g.values[g.inputs[k].0 as int].kind.is_constant() ==> collect::is_drawn(
            collect::with_inputs(boxes, g, n),
            ItemKind::Input(g.inputs[k]),
        ),
    decreases n,
{
    if n > 0 {
        lemma_inputs_labelled(g, scope, boxes, (n - 1) as nat, k);
        let before = collect::with_inputs(boxes, g, (n - 1) as nat);
        let after = collect::with_inputs(boxes, g, n);
        lemma_drawn_begins(after, before, ItemKind::Input(g.inputs[k]));
        if k == n - 1 && !g.values[g.inputs[k].0 as int].kind.is_constant() {
            assert(after[before.len() as int].kind == ItemKind::Input(g.inputs[k]));
        }
    }
}

proof fn lemma_drawn_begins(more: Seq<BoxView>, boxes: Seq<BoxView>, kind: ItemKind)
    requires
        begins(more, boxes),
    ensures
        collect::is_drawn(boxes, kind) ==> collect::is_drawn(more, kind),
{
    if collect::is_drawn(boxes, kind) {
        let i = choose|i: int| 0 <= i < boxes.len() && (#[trigger] boxes[i]).kind == kind;
        assert(more[i].kind == kind);
    }
}

proof fn lemma_outputs_labelled(
    g: GraphView,
    scope: Option<ScopeView>,
    boxes: Seq<BoxView>,
    n: nat,
    k: int,
)
    requires
        n <= g.outputs.len(),
        all_labelled(g, scope, boxes),
    ensures
        all_labelled(g, scope, collect::with_outputs(boxes, g, n)),
        begins(collect::with_outputs(boxes, g, n), boxes),
        0 <= k < n ==> collect::is_drawn(
            collect::with_outputs(boxes, g, n),
            ItemKind::Output(g.outputs[k]),
        ),
    decreases n,
{
    if n > 0 {
        lemma_outputs_labelled(g, scope, boxes, (n - 1) as nat, k);
        let before = collect::with_outputs(boxes, g, (n - 1) as nat);
        let after = collect::with_outputs(boxes, g, n);
        lemma_drawn_begins(after, before, ItemKind::Output(g.outputs[k]));
        if k == n - 1 {
            assert(after[before.len() as int].kind == ItemKind::Output(g.outputs[k]));
        }
    }
}

proof fn lemma_groups_labelled(
    g: GraphView,
    scope: Option<ScopeView>,
    boxes: Seq<BoxView>,
    ids: Seq<GroupId>,
    n: nat,
)
    requires
        scope is Some,
        n <= ids.len(),
        all_labelled(g, scope, boxes),
    ensures
        all_labelled(g, scope, collect::with_groups(boxes, scope->0.hierarchy, ids, n)),
        begins(collect::with_groups(boxes, scope->0.hierarchy, ids, n), boxes),
    decreases n,
{
    if n > 0 {
        lemma_groups_labelled(g, scope, boxes, ids, (n - 1) as nat);
    }
}

proof fn lemma_ops_labelled(
    g: GraphView,
    scope: Option<ScopeView>,
    boxes: Seq<BoxView>,
    ids: Seq<NodeId>,
    n: nat,
)
    requires
        g.wf(),
        n <= ids.len(),
        forall|k: int| 0 <= k < ids.len() ==> g.has_node(#[trigger] ids[k]),
        all_labelled(g, scope, boxes),
    ensures
        all_labelled(g, scope, collect::with_ops(boxes, g, ids, n)),
        begins(collect::with_ops(boxes, g, ids, n), boxes),
    decreases n,
{
    if n > 0 {
        lemma_ops_labelled(g, scope, boxes, ids, (n - 1) as nat);
        let id = ids[n - 1];
        assert(g.node_wf(g.nodes[id.0 as int], id.0 as int));
    }
}

proof fn lemma_first_boxes(g: GraphView, scope: Option<ScopeView>, k: int)
    requires
        g.wf(),
        collect::scope_wf(scope, g),
    ensures
        all_labelled(g, scope, collect::first_boxes(g, scope)),
        collect::at_top_level(scope) && 0 <= k < g.inputs.len()
            && !g.values[g.inputs[k].0 as int].kind.is_constant() ==> collect::is_drawn(
            collect::first_boxes(g, scope),
            ItemKind::Input(g.inputs[k]),
        ),
        collect::at_top_level(scope) && 0 <= k < g.outputs.len() ==> collect::is_drawn(
            collect::first_boxes(g, scope),
            ItemKind::Output(g.outputs[k]),
        ),
{
    let none = Seq::<BoxView>::empty();
    let top = collect::at_top_level(scope);
    lemma_inputs_labelled(g, scope, none, g.inputs.len(), k);
    let a = if top {
        collect::with_inputs(none, g, g.inputs.len())
    } else {
        none
    };
    let b = match scope {
        Some(s) => {
            let group = s.hierarchy.groups[s.group.0 as int];
            let blocks = collect::with_groups(a, s.hierarchy, group.children, group.children.len());
            collect::with_ops(blocks, g, group.nodes, group.nodes.len())
        },
        None => collect::with_ops(a, g, collect::node_ids(g), g.nodes.len()),
    };
    match scope {
        Some(s) => {
            let group = s.hierarchy.groups[s.group.0 as int];
            let blocks = collect::with_groups(a, s.hierarchy, group.children, group.children.len());
            lemma_groups_labelled(g, scope, a, group.children, group.children.len());
            assert(s.hierarchy.members_wf(group, s.group.0 as int));
            assert forall|i: int| 0 <= i < group.nodes.len() implies g.has_node(
                #[trigger] group.nodes[i],
            ) by {
                assert(group.nodes[i].0 < s.hierarchy.node_group.len());
            }
            lemma_ops_labelled(g, scope, blocks, group.nodes, group.nodes.len());
            assert forall|i: int| 0 <= i < a.len() implies #[trigger] b[i] == a[i] by {
                assert(blocks[i] == a[i]);
            }
        },
        None => {
            lemma_ops_labelled(g, scope, a, collect::node_ids(g), g.nodes.len());
        },
    }
    assert(begins(b, a));
    lemma_outputs_labelled(g, scope, b, g.outputs.len(), k);
    let all = collect::first_boxes(g, scope);
    assert(begins(all, b));
    assert(begins(all, a)) by {
        assert forall|i: int| 0 <= i < a.len() implies #[trigger] all[i] == a[i] by {
            assert(b[i] == a[i]);
        }
    }
    if top && 0 <= k < g.inputs.len() {
        lemma_drawn_begins(all, a, ItemKind::Input(g.inputs[k]));
    }
}

proof fn lemma_drawing_labelled(g: GraphView, scope: Option<ScopeView>, n: nat, kind: ItemKind)
    requires
        g.wf(),
        collect::scope_wf(scope, g),
        n <= g.values.len(),
    ensures
        all_labelled(g, scope, collect::drawing_of(g, scope, n).boxes),
        collect::is_drawn(collect::first_boxes(g, scope), kind) ==> collect::is_drawn(
            collect::drawing_of(g, scope, n).boxes,
            kind,
        ),
    decreases n,
{
    if n == 0 {
        lemma_first_boxes(g, scope, 0);
    } else {
        lemma_drawing_labelled(g, scope, (n - 1) as nat, kind);
        let before = collect::drawing_of(g, scope, (n - 1) as nat).boxes;
        let after = collect::drawing_of(g, scope, n).boxes;
        let value = g.values[n - 1];
        assert(g.value_wf(value, n - 1));
        assert(begins(after, before));
        lemma_drawn_begins(after, before, kind);
        assert forall|i: int| 0 <= i < after.len() implies is_labelled(
            g,
            scope,
            #[trigger] after[i],
        ) by {
            if i < before.len() {
                assert(after[i] == before[i]);
            }
        }
    }
}

/// Every box of a drawing says what it stands for.
pub proof fn law_boxes_are_labelled(g: GraphView, scope: Option<ScopeView>)
    requires
        g.wf(),
        collect::scope_wf(scope, g),
    ensures
        all_labelled(g, scope, collect::drawing(g, scope).boxes),
{
    lemma_drawing_labelled(g, scope, g.values.len(), ItemKind::Op(NodeId(0)));
}

/// At the top level of a graph every declared input that is no constant and
/// every declared output has a box, whether or not anything uses it.
pub proof fn law_boundaries_are_drawn(g: GraphView, scope: Option<ScopeView>, k: int)
    requires
        g.wf(),
        collect::scope_wf(scope, g),
        scope is None || (scope->0).group.0 == 0,
    ensures
        0 <= k < g.inputs.len() && !g.values[g.inputs[k].0 as int].kind.is_constant()
            ==> collect::is_drawn(
            collect::drawing(g, scope).boxes,
            ItemKind::Input(g.inputs[k]),
        ),
        0 <= k < g.outputs.len() ==> collect::is_drawn(
            collect::drawing(g, scope).boxes,
            ItemKind::Output(g.outputs[k]),
        ),
{
    lemma_first_boxes(g, scope, k);
    if 0 <= k < g.inputs.len() {
        lemma_drawing_labelled(g, scope, g.values.len(), ItemKind::Input(g.inputs[k]));
    }
    if 0 <= k < g.outputs.len() {
        lemma_drawing_labelled(g, scope, g.values.len(), ItemKind::Output(g.outputs[k]));
    }
}

proof fn lemma_find_box(boxes: Seq<BoxView>, kind: ItemKind, n: nat)
    requires
        n <= boxes.len() <= usize::MAX,
    ensures
        match collect::find_box(boxes, kind, n) {
            Some(i) => i < n && boxes[i as int].kind == kind && forall|k: int|
                i < k < n ==> (#[trigger] boxes[k]).kind != kind,
            None => forall|k: int| 0 <= k < n ==> (#[trigger] boxes[k]).kind != kind,
        },
    decreases n,
{
    if n > 0 {
        lemma_find_box(boxes, kind, (n - 1) as nat);
    }
}

/// A box is found exactly where there is one of its kind, and then it is the
/// last.
pub proof fn law_boxes_are_found(boxes: Seq<BoxView>, kind: ItemKind)
    requires
        boxes.len() <= usize::MAX,
    ensures
        match collect::box_of(boxes, kind) {
            Some(i) => i < boxes.len() && boxes[i as int].kind == kind && forall|k: int|
                i < k < boxes.len() ==> (#[trigger] boxes[k]).kind != kind,
            None => forall|k: int| 0 <= k < boxes.len() ==> (#[trigger] boxes[k]).kind != kind,
        },
{
    lemma_find_box(boxes, kind, boxes.len());
}

/// A drawing opens at the first box that is an input, if there is one.
pub proof fn law_first_inputs(boxes: Seq<BoxView>, n: nat)
    requires
        n <= boxes.len(),
    ensures
        match layout::first_input(boxes, n) {
            Some(i) => 0 <= i < n && boxes[i].kind is Input && forall|k: int|
                0 <= k < i ==> !((#[trigger] boxes[k]).kind is Input),
            None => forall|k: int| 0 <= k < n ==> !((#[trigger] boxes[k]).kind is Input),
        },
    decreases n,
{
    if n > 0 {
        law_first_inputs(boxes, (n - 1) as nat);
    }
}

/// Failing that, it opens at the first of the boxes in the highest rank.
pub proof fn law_topmost_boxes(cells: Seq<Cell>, n: nat)
    requires
        n <= cells.len(),
    ensures
        match layout::first_topmost(cells, n) {
            Some(i) => {
                &&& 0 <= i < n
                &&& forall|k: int| 0 <= k < n ==> cells[i].rank <= (#[trigger] cells[k]).rank
                &&& forall|k: int| 0 <= k < i ==> cells[i].rank < (#[trigger] cells[k]).rank
            },
            None => n == 0,
        },
    decreases n,
{
    if n > 0 {
        law_topmost_boxes(cells, (n - 1) as nat);
    }
}

proof fn lemma_drawn_among(visible: Seq<usize>, marked: Set<usize>, n: nat, k: int)
    requires
        n <= visible.len(),
    ensures
        ({
            let drawn = canvas::drawn_among(visible, marked, n);
            &&& n <= 5000 ==> drawn == visible.take(n as int)
            &&& n >= 5000 ==> drawn.len() >= 5000 && drawn.take(5000) == visible.take(5000)
            &&& drawn.len() <= n
            &&& 5000 <= k < n && marked.contains(visible[k]) ==> drawn.skip(5000).contains(
                visible[k],
            )
            &&& forall|j: int| 5000 <= j < drawn.len() ==> marked.contains(#[trigger] drawn[j])
        }),
    decreases n,
{
    if n > 0 {
        lemma_drawn_among(visible, marked, (n - 1) as nat, k);
        let before = canvas::drawn_among(visible, marked, (n - 1) as nat);
        let drawn = canvas::drawn_among(visible, marked, n);
        if n <= 5000 {
            assert(drawn =~= visible.take(n as int));
            if n == 5000 {
                assert(drawn.take(5000) =~= visible.take(5000));
            }
        } else {
            assert(drawn.take(5000) =~= before.take(5000));
            if 5000 <= k < n - 1 && marked.contains(visible[k]) {
                let rest = before.skip(5000);
                let at = rest.index_of(visible[k]);
                assert(rest[at] == visible[k]);
                assert(drawn.skip(5000)[at] == visible[k]);
            }
            if k == n - 1 && marked.contains(visible[k]) {
                assert(drawn.skip(5000)[before.len() - 5000] == visible[k]);
            }
            assert forall|j: int| 5000 <= j < drawn.len() implies marked.contains(
                #[trigger] drawn[j],
            ) by {
                if j < before.len() {
                    assert(drawn[j] == before[j]);
                }
            }
        }
    } else {
        assert(visible.take(0) =~= Seq::<usize>::empty());
    }
}

/// Of the edges in view the first five thousand are drawn, in order, and behind
/// them just those that are set off.
pub proof fn law_edges_in_view(visible: Seq<usize>, marked: Set<usize>, k: int)
    ensures
        ({
            let drawn = canvas::drawn_among(visible, marked, visible.len());
            &&& visible.len() <= 5000 ==> drawn == visible
            &&& visible.len() > 5000 ==> drawn.len() >= 5000 && drawn.take(5000) == visible.take(
                5000,
            )
            &&& 5000 <= k < visible.len() && marked.contains(visible[k]) ==> drawn.skip(
                5000,
            ).contains(visible[k])
            &&& forall|j: int| 5000 <= j < drawn.len() ==> marked.contains(#[trigger] drawn[j])
        }),
{
    lemma_drawn_among(visible, marked, visible.len(), k);
    assert(visible.take(visible.len() as int) =~= visible);
}

/// A cell of the density plot counts the boxes in it.
pub proof fn law_densities_count_boxes(
    cells: Seq<(usize, usize)>,
    column: int,
    row: int,
    n: nat,
)
    requires
        n <= cells.len(),
    ensures
        canvas::boxes_in(cells, column, row, n) == tally::sum(
            n,
            |i: int| tally::one(cells[i].0 == column && cells[i].1 == row),
        ),
    decreases n,
{
    if n > 0 {
        law_densities_count_boxes(cells, column, row, (n - 1) as nat);
    }
}

/// What is selected looks selected. Otherwise operators look like their
/// category, with one look for normalisation, pooling and reduction, and other
/// boxes look like their kind.
pub proof fn law_fills(kind: ItemKind, category: Option<OpCategory>)
    ensures
        canvas::fill_of(kind, category, true) == Fill::Selected,
        kind is Group ==> canvas::fill_of(kind, category, false) == Fill::Group,
        kind is Input ==> canvas::fill_of(kind, category, false) == Fill::Input,
        kind is Output ==> canvas::fill_of(kind, category, false) == Fill::Output,
        kind is Op && (category is None || category == Some(OpCategory::Other)) ==> canvas::fill_of(
            kind,
            category,
            false,
        ) == Fill::Node,
        kind is Op && category == Some(OpCategory::Compute) ==> canvas::fill_of(
            kind,
            category,
            false,
        ) == Fill::Compute,
        kind is Op && category == Some(OpCategory::Unary) ==> canvas::fill_of(kind, category, false)
            == Fill::Unary,
        kind is Op && category == Some(OpCategory::Binary) ==> canvas::fill_of(
            kind,
            category,
            false,
        ) == Fill::Binary,
        kind is Op && category == Some(OpCategory::DataMovement) ==> canvas::fill_of(
            kind,
            category,
            false,
        ) == Fill::Movement,
        kind is Op && (category == Some(OpCategory::Normalization) || category == Some(
            OpCategory::Pooling,
        ) || category == Some(OpCategory::Reduction)) ==> canvas::fill_of(kind, category, false)
            == Fill::Statistic,
{
}

/// The last axis runs fastest: the next element is one further along it, or at
/// its start and one further along the axes before it.
pub proof fn law_last_axis_runs_fastest(dims: Seq<i64>, flat: nat)
    requires
        dims.len() > 0,
        dims[dims.len() - 1] > 0,
    ensures
        ({
            let here = values::unraveled(dims, flat);
            let next = values::unraveled(dims, flat + 1);
            let last = dims.len() - 1;
            &&& here.len() == dims.len()
            &&& here[last] < dims[last]
            &&& here[last] + 1 < dims[last] ==> next == here.update(last, here[last] + 1)
            &&& here[last] + 1 == dims[last] ==> next[last] == 0 && next.take(last)
                == values::unraveled(dims.take(last), flat / (dims[last] as nat) + 1) && here.take(
                last,
            ) == values::unraveled(dims.take(last), flat / (dims[last] as nat))
        }),
{
    let last = dims.len() - 1;
    let e = dims[last] as nat;
    assert(values::axis_extent(dims.last()) == e);
    lemma_unraveled_len(dims.drop_last(), flat / e);
    lemma_unraveled_len(dims.drop_last(), (flat + 1) / e);
    let q = flat / e;
    let r = flat % e;
    vstd::arithmetic::div_mod::lemma_fundamental_div_mod(flat as int, e as int);
    assert(e * q == q * e) by (nonlinear_arith);
    if r + 1 < e {
        vstd::arithmetic::div_mod::lemma_fundamental_div_mod_converse(
            (flat + 1) as int,
            e as int,
            q as int,
            (r + 1) as int,
        );
        assert(values::unraveled(dims, flat + 1) =~= values::unraveled(dims, flat).update(
            last,
            r + 1,
        ));
    } else {
        assert((q + 1) * e == q * e + e) by (nonlinear_arith);
        vstd::arithmetic::div_mod::lemma_fundamental_div_mod_converse(
            (flat + 1) as int,
            e as int,
            (q + 1) as int,
            0,
        );
        assert(dims.take(last) =~= dims.drop_last());
        assert(values::unraveled(dims, flat + 1).take(last) =~= values::unraveled(
            dims.drop_last(),
            q + 1,
        ));
        assert(values::unraveled(dims, flat).take(last) =~= values::unraveled(dims.drop_last(), q));
    }
}

proof fn lemma_unraveled_len(dims: Seq<i64>, flat: nat)
    ensures
        values::unraveled(dims, flat).len() == dims.len(),
    decreases dims.len(),
{
    if dims.len() > 0 {
        lemma_unraveled_len(
            dims.drop_last(),
            flat / values::axis_extent(dims.last()),
        );
    }
}

/// The first element of a tensor is at the start of every axis.
pub proof fn law_first_element_is_at_the_start(dims: Seq<i64>)
    requires
        forall|i: int| 0 <= i < dims.len() ==> #[trigger] dims[i] > 0,
    ensures
        values::unraveled(dims, 0) == Seq::new(dims.len(), |i: int| 0nat),
    decreases dims.len(),
{
    if dims.len() > 0 {
        let rest = dims.drop_last();
        assert(dims[dims.len() - 1] > 0);
        assert forall|i: int| 0 <= i < rest.len() implies #[trigger] rest[i] > 0 by {
            assert(dims[i] > 0);
        }
        law_first_element_is_at_the_start(rest);
        let e = values::axis_extent(dims.last());
        assert(0nat / e == 0 && 0nat % e == 0);
    }
    assert(values::unraveled(dims, 0) =~= Seq::new(dims.len(), |i: int| 0nat));
}

/// One text comes before another exactly where it is a proper beginning of it,
/// or has the smaller character where the two first differ.
pub proof fn law_texts_are_ordered_by_characters(a: Seq<char>, b: Seq<char>, k: int)
    ensures
        0 <= k < a.len() && k < b.len() && a.take(k) == b.take(k) && a[k] != b[k]
            ==> queries::text_before(a, b) == (a[k] < b[k]),
        a.len() < b.len() && b.take(a.len() as int) == a ==> queries::text_before(a, b),
        b.len() <= a.len() && a.take(b.len() as int) == b ==> !queries::text_before(a, b),
    decreases a.len() + b.len(),
{
    if a.len() > 0 && b.len() > 0 {
        let x = a.skip(1);
        let y = b.skip(1);
        law_texts_are_ordered_by_characters(x, y, k - 1);
        if 0 < k < a.len() && k < b.len() && a.take(k) == b.take(k) {
            assert(a.take(k)[0] == b.take(k)[0]);
            assert(x.take(k - 1) =~= y.take(k - 1)) by {
                assert forall|i: int| 0 <= i < k - 1 implies x[i] == y[i] by {
                    assert(a.take(k)[i + 1] == b.take(k)[i + 1]);
                }
            }
            assert(x[k - 1] == a[k] && y[k - 1] == b[k]);
        }
        if a.len() < b.len() && b.take(a.len() as int) == a {
            assert(b.take(a.len() as int)[0] == a[0]);
            assert(y.take(x.len() as int) =~= x) by {
                assert forall|i: int| 0 <= i < x.len() implies y[i] == x[i] by {
                    assert(b.take(a.len() as int)[i + 1] == a[i + 1]);
                }
            }
        }
        if b.len() <= a.len() && a.take(b.len() as int) == b {
            assert(a.take(b.len() as int)[0] == b[0]);
            assert(x.take(y.len() as int) =~= y) by {
                assert forall|i: int| 0 <= i < y.len() implies x[i] == y[i] by {
                    assert(a.take(b.len() as int)[i + 1] == b[i + 1]);
                }
            }
        }
    }
}

/// How many of the first `m` attributes of a node hold a graph.
pub open spec fn bodies_before(node: NodeView, m: nat) -> int {
    tally::sum(m, |j: int| tally::one(node.attrs[j].value is Graph))
}

/// How many graphs the attributes of the first `n` nodes hold.
pub open spec fn all_bodies_before(nodes: Seq<NodeView>, n: nat) -> int {
    tally::sum(n, |i: int| bodies_before(nodes[i], nodes[i].attrs.len()))
}

proof fn lemma_node_bodies(node: NodeView, m: nat, j: int)
    requires
        m <= node.attrs.len(),
    ensures
        queries::node_subgraphs(node, m).len() == bodies_before(node, m),
        0 <= j < m && node.attrs[j].value is Graph ==> 0 <= bodies_before(node, j as nat)
            < bodies_before(node, m) && queries::node_subgraphs(node, m)[bodies_before(
            node,
            j as nat,
        )] == (node.id, node.attrs[j].name, node.attrs[j].value->Graph_0),
    decreases m,
{
    if m > 0 {
        lemma_node_bodies(node, (m - 1) as nat, j);
        if j == m - 1 {
            lemma_node_bodies(node, (m - 1) as nat, 0);
        }
    }
}

/// The graphs that a graph holds directly are those of the attributes of its
/// nodes, in order, each with the node and the name of the attribute.
pub proof fn law_bodies_are_listed(nodes: Seq<NodeView>, n: nat, i: int, j: int)
    requires
        n <= nodes.len(),
    ensures
        queries::nodes_subgraphs(nodes, n).len() == all_bodies_before(nodes, n),
        0 <= i < n && 0 <= j < nodes[i].attrs.len() && nodes[i].attrs[j].value is Graph ==> {
            let at = all_bodies_before(nodes, i as nat) + bodies_before(nodes[i], j as nat);
            &&& 0 <= at < all_bodies_before(nodes, n)
            &&& queries::nodes_subgraphs(nodes, n)[at] == (
                nodes[i].id,
                nodes[i].attrs[j].name,
                nodes[i].attrs[j].value->Graph_0,
            )
        },
    decreases n,
{
    if n > 0 {
        law_bodies_are_listed(nodes, (n - 1) as nat, i, j);
        let node = nodes[n - 1];
        lemma_node_bodies(node, node.attrs.len(), j);
        let before = queries::nodes_subgraphs(nodes, (n - 1) as nat);
        let own = queries::node_subgraphs(node, node.attrs.len());
        assert(queries::nodes_subgraphs(nodes, n) == before + own);
        if i == n - 1 && 0 <= j < node.attrs.len() && node.attrs[j].value is Graph {
            let at = bodies_before(node, j as nat);
            assert((before + own)[before.len() + at] == own[at]);
        }
    }
}

} // verus!
