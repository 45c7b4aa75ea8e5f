//! What the canvas draws, and how it is set off.
//!
//! Where things are on the screen is up to whoever draws them. Which of them
//! are drawn, in what way, and what a click on one of them means is decided
//! here.

use crate::category::OpCategory;
use crate::collect::{ItemKind, LayoutNode, ScopeView};
use crate::graph::GraphView;
use crate::layout::{self, Layout, LayoutEdge, LayoutOptions};
use crate::ranks::Link;
use crate::text::{self, elide};
use std::collections::HashSet;
use vstd::prelude::*;
use vstd::string::*;

verus! {

/// Most boxes drawn individually before falling back to a density plot.
pub const MAX_DRAWN_NODES: usize = 6000;

/// Most edges drawn before they are dropped from an overview.
pub const MAX_DRAWN_EDGES: usize = 5000;

/// What the user did on the canvas.
#[derive(Copy, Clone, PartialEq, Eq, Debug, Structural)]
pub enum CanvasEvent {
    Nothing,
    /// A box was clicked. The value is an index into [`Layout::nodes`].
    Selected(usize),
    /// The background was clicked.
    Cleared,
}

/// What a click comes to, given the boxes that the pointer was over.
pub fn click(hit: Option<usize>) -> (event: CanvasEvent)
    ensures
        event == match hit {
            Some(index) => CanvasEvent::Selected(index),
            None => CanvasEvent::Cleared,
        },
{
    match hit {
        Some(index) => CanvasEvent::Selected(index),
        None => CanvasEvent::Cleared,
    }
}

/// Whether so many boxes are in view that a density plot stands in for them.
pub fn is_too_dense(visible: usize) -> (dense: bool)
    ensures
        dense == (visible > MAX_DRAWN_NODES),
{
    visible > MAX_DRAWN_NODES
}

/// The colour that a box is filled with.
#[derive(Copy, Clone, PartialEq, Eq, Debug, Structural)]
pub enum Fill {
    Selected,
    Compute,
    Unary,
    Binary,
    /// Shared by normalization, pooling and reduction, which all replace an
    /// extent of a tensor with a statistic over it.
    Statistic,
    Movement,
    Node,
    Group,
    Input,
    Output,
}

/// The fill of a box.
pub open spec fn fill_of(kind: ItemKind, category: Option<OpCategory>, selected: bool) -> Fill {
    if selected {
        Fill::Selected
    } else {
        match kind {
            ItemKind::Op(_) => match category {
                Some(OpCategory::Compute) => Fill::Compute,
                Some(OpCategory::Unary) => Fill::Unary,
                Some(OpCategory::Binary) => Fill::Binary,
                Some(OpCategory::Normalization) => Fill::Statistic,
                Some(OpCategory::Pooling) => Fill::Statistic,
                Some(OpCategory::Reduction) => Fill::Statistic,
                Some(OpCategory::DataMovement) => Fill::Movement,
                Some(OpCategory::Other) => Fill::Node,
                None => Fill::Node,
            },
            ItemKind::Group(_) => Fill::Group,
            ItemKind::Input(_) => Fill::Input,
            ItemKind::Output(_) => Fill::Output,
        }
    }
}

/// Chooses the fill of a box by what it stands for.
pub fn fill(kind: ItemKind, category: Option<OpCategory>, selected: bool) -> (fill: Fill)
    ensures
        fill == fill_of(kind, category, selected),
{
    if selected {
        return Fill::Selected;
    }
    match kind {
        ItemKind::Op(_) => match category {
            Some(OpCategory::Compute) => Fill::Compute,
            Some(OpCategory::Unary) => Fill::Unary,
            Some(OpCategory::Binary) => Fill::Binary,
            Some(OpCategory::Normalization) => Fill::Statistic,
            Some(OpCategory::Pooling) => Fill::Statistic,
            Some(OpCategory::Reduction) => Fill::Statistic,
            Some(OpCategory::DataMovement) => Fill::Movement,
            Some(OpCategory::Other) => Fill::Node,
            None => Fill::Node,
        },
        ItemKind::Group(_) => Fill::Group,
        ItemKind::Input(_) => Fill::Input,
        ItemKind::Output(_) => Fill::Output,
    }
}

/// How a box is outlined.
#[derive(Copy, Clone, PartialEq, Eq, Debug, Structural)]
pub enum Outline {
    Selected,
    /// An edge joins the box to the selected one.
    Adjacent,
    Plain,
}

/// Chooses the outline of a box.
pub fn outline(index: usize, selected: Option<usize>, adjacent: &HashSet<usize>) -> (outline:
    Outline)
    ensures
        outline == if selected == Some(index) {
            Outline::Selected
        } else if adjacent@.contains(index) {
            Outline::Adjacent
        } else {
            Outline::Plain
        },
{
    broadcast use vstd::std_specs::hash::group_hash_axioms;

    if let Some(chosen) = selected {
        if chosen == index {
            return Outline::Selected;
        }
    }
    if adjacent.contains(&index) {
        Outline::Adjacent
    } else {
        Outline::Plain
    }
}

/// What is written on a box.
pub enum BoxText {
    /// Nothing; it could not be read.
    Blank,
    Title(String),
    /// The title and, below it, the subtitle.
    Both(String, String),
}

/// Decides what is written on a box, given how much there is room for at the
/// current zoom.
pub fn box_text(
    node: &LayoutNode,
    show_title: bool,
    show_subtitle: bool,
    capacity: usize,
    subtitle_capacity: usize,
) -> (shown: BoxText)
    ensures
        match shown {
            BoxText::Blank => !show_title,
            BoxText::Title(title) => show_title && !(show_subtitle && node@.subtitle.len() > 0)
                && title@ == text::elided(node@.title, capacity as nat),
            BoxText::Both(title, subtitle) => show_title && show_subtitle && node@.subtitle.len()
                > 0 && title@ == text::elided(node@.title, capacity as nat) && subtitle@
                == text::elided(node@.subtitle, subtitle_capacity as nat),
        },
{
    if !show_title {
        return BoxText::Blank;
    }
    let title: String = elide(node.title.as_str(), capacity);
    if show_subtitle && node.subtitle.as_str().unicode_len() > 0 {
        BoxText::Both(title, elide(node.subtitle.as_str(), subtitle_capacity))
    } else {
        BoxText::Title(title)
    }
}

/// Decides what is written along an edge: the type of the value, where there is
/// room for it and the type is known.
pub fn edge_text(edge: &LayoutEdge, show_label: bool) -> (shown: Option<String>)
    ensures
        shown is Some <==> show_label && edge.label@.len() > 0,
        shown is Some ==> shown->0@ == text::elided(edge.label@, 28),
{
    if show_label && edge.label.as_str().unicode_len() > 0 {
        Some(elide(edge.label.as_str(), 28))
    } else {
        None
    }
}

/// The edges that end at a box.
pub open spec fn edges_at(layout: Layout, node: int) -> Set<usize> {
    Set::new(|e: usize| layout.incident@[node]@.contains(e))
}

/// Whether the edge `e` ends at the box `n`.
pub open spec fn ends_at(layout: Layout, e: usize, n: usize) -> bool {
    layout.edges@[e as int].from == n || layout.edges@[e as int].to == n
}

/// Whether one of the edges ends at the box `n`.
pub open spec fn one_ends_at(layout: Layout, edges: Seq<usize>, n: usize) -> bool {
    exists|k: int| 0 <= k < edges.len() && ends_at(layout, #[trigger] edges[k], n)
}

/// The boxes at the other ends of the edges that end at a box.
pub open spec fn boxes_beside(layout: Layout, node: usize) -> Set<usize> {
    Set::new(
        |n: usize| n != node && one_ends_at(layout, layout.incident@[node as int]@, n),
    )
}

/// Edges and boxes adjacent to the selection, which are drawn emphasised.
pub fn highlights(layout: &Layout, selected: Option<usize>) -> (marked: (
    HashSet<usize>,
    HashSet<usize>,
))
    requires
        layout.wf(),
        selected is Some ==> selected->0 < layout.nodes@.len(),
    ensures
        match selected {
            Some(node) => marked.0@ == edges_at(*layout, node as int) && marked.1@ == boxes_beside(
                *layout,
                node,
            ),
            None => marked.0@ == Set::<usize>::empty() && marked.1@ == Set::<usize>::empty(),
        },
{
    broadcast use vstd::std_specs::hash::group_hash_axioms;

    let mut edges: HashSet<usize> = HashSet::new();
    let mut nodes: HashSet<usize> = HashSet::new();
    match selected {
        None => {
            assert(edges@ =~= Set::empty());
            assert(nodes@ =~= Set::empty());
        },
        Some(node) => {
            let incident: &[usize] = layout.incident_edges(node);
            let total: usize = incident.len();
            for i in 0..total
                invariant
                    total == incident@.len(),
                    node < layout.incident@.len(),
                    incident@ == layout.incident@[node as int]@,
                    layout.wf(),
                    forall|e: usize| #[trigger]
                        edges@.contains(e) <==> incident@.take(i as int).contains(e),
                    forall|n: usize| #[trigger]
                        nodes@.contains(n) <==> one_ends_at(*layout, incident@.take(i as int), n),
            {
                let e: usize = incident[i];
                assert(e == layout.incident@[node as int]@[i as int]);
                let ghost before = incident@.take(i as int);
                let ghost after = incident@.take(i + 1);
                let ghost old_edges = edges@;
                let ghost old_nodes = nodes@;
                assert(after =~= before.push(e));
                edges.insert(e);
                nodes.insert(layout.edges[e].from);
                nodes.insert(layout.edges[e].to);
                proof {
                    assert forall|x: usize| #[trigger] edges@.contains(x) <==> after.contains(x) by {
                        if after.contains(x) {
                            let k = choose|k: int| 0 <= k < after.len() && after[k] == x;
                            if k < before.len() {
                                assert(before[k] == x);
                                assert(old_edges.contains(x));
                            }
                        }
                        if old_edges.contains(x) {
                            let k = choose|k: int| 0 <= k < before.len() && before[k] == x;
                            assert(after[k] == x);
                        }
                        assert(after[i as int] == e);
                    }
                    assert forall|n: usize| #[trigger] nodes@.contains(n) <==> one_ends_at(
                        *layout,
                        after,
                        n,
                    ) by {
                        lemma_one_more_ends(*layout, before, e, n);
                        assert(nodes@.contains(n) <==> old_nodes.contains(n) || ends_at(
                            *layout,
                            e,
                            n,
                        ));
                    }
                }
            }
            assert(incident@.take(total as int) =~= incident@);
            nodes.remove(&node);
            assert(edges@ =~= edges_at(*layout, node as int));
            assert(nodes@ =~= boxes_beside(*layout, node));
        },
    }
    (edges, nodes)
}

proof fn lemma_one_more_ends(layout: Layout, edges: Seq<usize>, e: usize, n: usize)
    ensures
        one_ends_at(layout, edges.push(e), n) <==> one_ends_at(layout, edges, n) || ends_at(
            layout,
            e,
            n,
        ),
{
    let after = edges.push(e);
    if one_ends_at(layout, edges, n) {
        let k = choose|k: int| 0 <= k < edges.len() && ends_at(layout, #[trigger] edges[k], n);
        assert(after[k] == edges[k]);
    }
    if ends_at(layout, e, n) {
        assert(after[edges.len() as int] == e);
    }
    if one_ends_at(layout, after, n) {
        let k = choose|k: int| 0 <= k < after.len() && ends_at(layout, #[trigger] after[k], n);
        if k < edges.len() {
            assert(after[k] == edges[k]);
        }
    }
}

proof fn lemma_incident(links: Seq<Link>, v: int, n: nat, e: usize)
    requires
        n <= links.len() <= usize::MAX,
    ensures
        layout::incident_to(links, v, n).contains(e) <==> e < n && (links[e as int].from == v
            || links[e as int].to == v),
    decreases n,
{
    if n > 0 {
        lemma_incident(links, v, (n - 1) as nat, e);
        let last = (n - 1) as usize;
        let before = layout::incident_to(links, v, (n - 1) as nat);
        let leaving = if links[n - 1].from == v {
            before.push(last)
        } else {
            before
        };
        lemma_push_contains(before, last, e);
        lemma_push_contains(leaving, last, e);
    }
}

proof fn lemma_push_contains(s: Seq<usize>, x: usize, e: usize)
    ensures
        s.push(x).contains(e) <==> s.contains(e) || e == x,
{
    let after = s.push(x);
    if s.contains(e) {
        let k = choose|k: int| 0 <= k < s.len() && s[k] == e;
        assert(after[k] == e);
    }
    if e == x {
        assert(after[s.len() as int] == e);
    }
    if after.contains(e) {
        let k = choose|k: int| 0 <= k < after.len() && after[k] == e;
        if k < s.len() {
            assert(s[k] == e);
        }
    }
}

/// The edges that are set off with a box are exactly those that end at it.
pub proof fn law_highlights_are_the_edges_of_the_box(
    layout: Layout,
    g: GraphView,
    scope: Option<ScopeView>,
    opts: LayoutOptions,
    ranks: Seq<usize>,
    node: usize,
    e: usize,
)
    requires
        layout.shows(g, scope, opts, ranks),
        layout.edges@.len() <= usize::MAX,
        node < layout.nodes@.len(),
        e < layout.edges@.len(),
    ensures
        edges_at(layout, node as int).contains(e) <==> ends_at(layout, e, node),
{
    let links = crate::collect::drawing(g, scope).links;
    lemma_incident(links, node as int, links.len(), e);
    assert(layout.incident@[node as int]@ == layout::incident_to(
        links,
        node as int,
        links.len(),
    ));
    assert(layout::edge_shows(
        layout.edges@[e as int],
        g,
        links[e as int],
        crate::routing::route_of(ranks, links, opts.max_edge_span, e as int),
    ));
}

/// Those of the first `n` edges in view that are drawn: the first of them, and
/// any that are highlighted.
pub open spec fn drawn_among(visible: Seq<usize>, highlighted: Set<usize>, n: nat) -> Seq<usize>
    decreases n,
{
    if n == 0 {
        Seq::empty()
    } else {
        let before = drawn_among(visible, highlighted, (n - 1) as nat);
        if n <= MAX_DRAWN_EDGES || highlighted.contains(visible[n - 1]) {
            before.push(visible[n - 1])
        } else {
            before
        }
    }
}

/// Chooses which of the edges in view to draw.
pub fn drawn_edges(visible: &Vec<usize>, highlighted: &HashSet<usize>) -> (drawn: Vec<usize>)
    ensures
        drawn@ == drawn_among(visible@, highlighted@, visible@.len()),
{
    broadcast use vstd::std_specs::hash::group_hash_axioms;

    let mut drawn: Vec<usize> = Vec::new();
    for i in 0..visible.len()
        invariant
            drawn@ == drawn_among(visible@, highlighted@, i as nat),
    {
        if i < MAX_DRAWN_EDGES || highlighted.contains(&visible[i]) {
            drawn.push(visible[i]);
        }
    }
    drawn
}

/// How many of the first `n` boxes fall into a cell of the density plot.
pub open spec fn boxes_in(cells: Seq<(usize, usize)>, column: int, row: int, n: nat) -> nat
    decreases n,
{
    if n == 0 {
        0
    } else {
        boxes_in(cells, column, row, (n - 1) as nat) + if cells[n - 1].0 == column
            && cells[n - 1].1 == row {
            1nat
        } else {
            0
        }
    }
}

/// A coarse plot of how many boxes fall into each cell.
pub struct Density {
    pub columns: usize,
    pub rows: usize,
    /// The boxes in each cell, row by row.
    pub counts: Vec<usize>,
    /// The most boxes in one cell, and at least one.
    pub peak: usize,
}

/// Whether no cell holds more than `peak` boxes, and one holds that many unless
/// none holds more than one.
pub open spec fn is_peak(counts: Seq<usize>, peak: usize) -> bool {
    &&& peak >= 1
    &&& forall|k: int| 0 <= k < counts.len() ==> #[trigger] counts[k] <= peak
    &&& peak > 1 ==> counts.contains(peak)
}

proof fn lemma_cell(column: int, row: int, columns: int, rows: int)
    requires
        0 <= column < columns,
        0 <= row < rows,
    ensures
        0 <= row * columns + column < columns * rows,
        (row * columns + column) % columns == column,
        (row * columns + column) / columns == row,
{
    assert(0 <= row * columns + column < columns * rows) by (nonlinear_arith)
        requires
            0 <= column < columns,
            0 <= row < rows,
    ;
    vstd::arithmetic::div_mod::lemma_fundamental_div_mod_converse(
        row * columns + column,
        columns,
        row,
        column,
    );
}

proof fn lemma_boxes_in_bound(cells: Seq<(usize, usize)>, column: int, row: int, n: nat)
    ensures
        boxes_in(cells, column, row, n) <= n,
    decreases n,
{
    if n > 0 {
        lemma_boxes_in_bound(cells, column, row, (n - 1) as nat);
    }
}

/// Counts the boxes in each cell of a plot, given the column and row that each
/// box falls into. Boxes beyond the plot are left out.
pub fn density(cells: &Vec<(usize, usize)>, columns: usize, rows: usize) -> (plot: Density)
    requires
        columns * rows <= usize::MAX,
    ensures
        plot.columns == columns,
        plot.rows == rows,
        plot.counts@.len() == columns * rows,
        forall|k: int|
            #![trigger plot.counts@[k]]
            0 <= k < columns * rows ==> plot.counts@[k] == boxes_in(
                cells@,
                k % columns as int,
                k / columns as int,
                cells@.len(),
            ),
        is_peak(plot.counts@, plot.peak),
{
    assert(0 <= columns * rows) by (nonlinear_arith);
    let size: usize = columns * rows;
    let mut counts: Vec<usize> = Vec::new();
    for k in 0..size
        invariant
            counts@.len() == k,
            forall|j: int| 0 <= j < k ==> #[trigger] counts@[j] == 0,
    {
        counts.push(0);
    }
    let mut peak: usize = 1;
    let total: usize = cells.len();
    for i in 0..total
        invariant
            total == cells@.len(),
            size == columns * rows,
            counts@.len() == size,
            forall|k: int|
                #![trigger counts@[k]]
                0 <= k < size ==> counts@[k] == boxes_in(
                    cells@,
                    k % columns as int,
                    k / columns as int,
                    i as nat,
                ),
            is_peak(counts@, peak),
    {
        let (column, row): (usize, usize) = cells[i];
        let ghost before = counts@;
        if column < columns && row < rows {
            proof {
                lemma_cell(column as int, row as int, columns as int, rows as int);
                lemma_boxes_in_bound(cells@, column as int, row as int, i as nat);
                assert(row * columns <= size) by (nonlinear_arith)
                    requires
                        row < rows,
                        size == columns * rows,
                ;
            }
            let at: usize = row * columns + column;
            let count: usize = counts[at] + 1;
            counts.set(at, count);
            let ghost old_peak = peak;
            if count > peak {
                peak = count;
            }
            proof {
                assert(counts@[at as int] == count);
                if old_peak > 1 && peak == old_peak {
                    let k = choose|k: int| 0 <= k < before.len() && before[k] == old_peak;
                    if k != at {
                        assert(counts@[k] == old_peak);
                    }
                }
            }
        }
        proof {
            assert forall|k: int|
                #![trigger counts@[k]]
                0 <= k < size implies counts@[k] == boxes_in(
                cells@,
                k % columns as int,
                k / columns as int,
                i as nat + 1,
            ) by {
                assert(before[k] == boxes_in(
                    cells@,
                    k % columns as int,
                    k / columns as int,
                    i as nat,
                ));
                lemma_cell_of(k, columns as int, rows as int);
            }
        }
    }
    Density { columns, rows, counts, peak }
}

proof fn lemma_cell_of(k: int, columns: int, rows: int)
    requires
        0 <= k < columns * rows,
        columns >= 0,
        rows >= 0,
    ensures
        0 <= k % columns < columns,
        0 <= k / columns < rows,
        k == (k / columns) * columns + k % columns,
{
    assert(columns > 0) by (nonlinear_arith)
        requires
            0 <= k < columns * rows,
            columns >= 0,
            rows >= 0,
    ;
    vstd::arithmetic::div_mod::lemma_fundamental_div_mod(k, columns);
    let q = k / columns;
    let r = k % columns;
    assert(0 <= q < rows && k == q * columns + r) by (nonlinear_arith)
        requires
            k == columns * q + r,
            0 <= r < columns,
            0 <= k < columns * rows,
    ;
}

} // verus!
