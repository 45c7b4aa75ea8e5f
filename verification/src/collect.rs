//! Choosing which boxes to draw and how they connect.
//!
//! Without a scope this is every operator in the graph, plus a box for each
//! declared input and output. With a scope, the operators directly inside it
//! are drawn alongside one box per child group, and values crossing the scope's
//! boundary get input and output boxes so the view still shows what flows in
//! and out.
//!
//! Constants are never drawn. A large model has hundreds of them and they carry
//! no structure; they appear in the details of the node that reads them
//! instead.

use crate::category::{self, OpCategory};
use crate::chars;
use crate::graph::{Graph, GraphView};
use crate::hierarchy::{self, Group, GroupId, Hierarchy, HierarchyView, Placement};
use crate::model::{contains_value, Node, NodeId, NodeView, Value, ValueId, ValueView};
use crate::ranks::{self, Link};
use crate::text::{self, decimal_text};
use std::collections::HashMap;
use vstd::prelude::*;
use vstd::string::*;

verus! {

/// What a drawn box represents.
#[derive(Copy, Clone, PartialEq, Eq, Debug, Structural)]
pub enum ItemKind {
    Op(NodeId),
    /// A block of nodes, standing in for everything inside it. Entering the
    /// group replaces the box with its contents.
    Group(GroupId),
    /// A value entering the view: a declared graph input, or a value produced
    /// outside the current scope.
    Input(ValueId),
    /// A value leaving the view: a declared graph output, or a value read
    /// outside the current scope.
    Output(ValueId),
}

/// The part of the model being drawn, when nodes are grouped by name.
#[derive(Copy, Clone)]
pub struct Scope<'a> {
    pub hierarchy: &'a Hierarchy,
    pub group: GroupId,
}

pub struct ScopeView {
    pub hierarchy: HierarchyView,
    pub group: GroupId,
}

impl<'a> View for Scope<'a> {
    type V = ScopeView;

    open spec fn view(&self) -> ScopeView {
        ScopeView { hierarchy: self.hierarchy@, group: self.group }
    }
}

/// A box to be drawn.
pub struct LayoutNode {
    pub kind: ItemKind,
    /// Primary label: the op type, or the value name for an input or output.
    pub title: String,
    /// Secondary label, shown when zoomed in far enough to read it. Empty for
    /// operators, which are labelled by their type alone.
    pub subtitle: String,
    /// What kind of work the operator does, for colouring. `None` for boxes
    /// that are not operators.
    pub category: Option<OpCategory>,
}

pub struct BoxView {
    pub kind: ItemKind,
    pub title: Seq<char>,
    pub subtitle: Seq<char>,
    pub category: Option<OpCategory>,
}

impl View for LayoutNode {
    type V = BoxView;

    open spec fn view(&self) -> BoxView {
        BoxView {
            kind: self.kind,
            title: self.title@,
            subtitle: self.subtitle@,
            category: self.category,
        }
    }
}

/// The boxes of a view and the links between them.
pub struct Drawing {
    pub boxes: Seq<BoxView>,
    pub links: Seq<Link>,
}

/// Whether the scope is one of a hierarchy of this graph.
pub open spec fn scope_wf(scope: Option<ScopeView>, g: GraphView) -> bool {
    match scope {
        Some(scope) => {
            &&& scope.hierarchy.wf()
            &&& scope.hierarchy.node_group.len() == g.nodes.len()
            &&& scope.hierarchy.has_group(scope.group)
        },
        None => true,
    }
}

/// Whether the view covers the whole graph, so declared inputs and outputs are
/// shown whether or not anything uses them.
pub open spec fn at_top_level(scope: Option<ScopeView>) -> bool {
    match scope {
        Some(scope) => scope.group == GroupId(0),
        None => true,
    }
}

/// The box for a value, with its name and type.
pub open spec fn value_box(kind: ItemKind, value: ValueView) -> BoxView {
    BoxView { kind, title: value.name, subtitle: value.type_text(), category: None }
}

/// The box for an operator, with its type.
pub open spec fn op_box(node: NodeView) -> BoxView {
    BoxView {
        kind: ItemKind::Op(node.id),
        title: node.op_type,
        subtitle: Seq::empty(),
        category: Some(category::category_of(node.op_type)),
    }
}

/// The box for a block, with its name and the number of its operators.
pub open spec fn group_box(id: GroupId, group: hierarchy::GroupView) -> BoxView {
    BoxView {
        kind: ItemKind::Group(id),
        title: group.name,
        subtitle: text::decimal(group.total_nodes) + " operators"@,
        category: None,
    }
}

/// `boxes` followed by one for each of the first `n` inputs that is not a
/// constant.
pub open spec fn with_inputs(boxes: Seq<BoxView>, g: GraphView, n: nat) -> Seq<BoxView>
    decreases n,
{
    if n == 0 {
        boxes
    } else {
        let before = with_inputs(boxes, g, (n - 1) as nat);
        let id = g.inputs[n - 1];
        let value = g.values[id.0 as int];
        if value.kind.is_constant() {
            before
        } else {
            before.push(value_box(ItemKind::Input(id), value))
        }
    }
}

/// `boxes` followed by one for each of the first `n` groups.
pub open spec fn with_groups(
    boxes: Seq<BoxView>,
    h: HierarchyView,
    ids: Seq<GroupId>,
    n: nat,
) -> Seq<BoxView>
    decreases n,
{
    if n == 0 {
        boxes
    } else {
        with_groups(boxes, h, ids, (n - 1) as nat).push(
            group_box(ids[n - 1], h.groups[ids[n - 1].0 as int]),
        )
    }
}

/// `boxes` followed by one for each of the first `n` nodes that does not just
/// supply a constant.
pub open spec fn with_ops(
    boxes: Seq<BoxView>,
    g: GraphView,
    ids: Seq<NodeId>,
    n: nat,
) -> Seq<BoxView>
    decreases n,
{
    if n == 0 {
        boxes
    } else {
        let before = with_ops(boxes, g, ids, (n - 1) as nat);
        let node = g.nodes[ids[n - 1].0 as int];
        if node.is_constant() {
            before
        } else {
            before.push(op_box(node))
        }
    }
}

/// `boxes` followed by one for each of the first `n` outputs.
pub open spec fn with_outputs(boxes: Seq<BoxView>, g: GraphView, n: nat) -> Seq<BoxView>
    decreases n,
{
    if n == 0 {
        boxes
    } else {
        let id = g.outputs[n - 1];
        with_outputs(boxes, g, (n - 1) as nat).push(
            value_box(ItemKind::Output(id), g.values[id.0 as int]),
        )
    }
}

/// The IDs of all nodes of a graph.
pub open spec fn node_ids(g: GraphView) -> Seq<NodeId> {
    Seq::new(g.nodes.len(), |i: int| NodeId(i as u32))
}

/// The boxes that are drawn whatever the links are.
pub open spec fn first_boxes(g: GraphView, scope: Option<ScopeView>) -> Seq<BoxView> {
    let top = at_top_level(scope);
    let a = if top {
        with_inputs(Seq::empty(), g, g.inputs.len())
    } else {
        Seq::empty()
    };
    let b = match scope {
        Some(scope) => {
            let group = scope.hierarchy.groups[scope.group.0 as int];
            let blocks = with_groups(a, scope.hierarchy, group.children, group.children.len());
            with_ops(blocks, g, group.nodes, group.nodes.len())
        },
        None => with_ops(a, g, node_ids(g), g.nodes.len()),
    };
    if top {
        with_outputs(b, g, g.outputs.len())
    } else {
        b
    }
}

/// The last of the first `n` boxes of this kind.
pub open spec fn find_box(boxes: Seq<BoxView>, kind: ItemKind, n: nat) -> Option<usize>
    decreases n,
{
    if n == 0 {
        None
    } else if boxes[n - 1].kind == kind {
        Some((n - 1) as usize)
    } else {
        find_box(boxes, kind, (n - 1) as nat)
    }
}

/// The box that stands for this kind of item.
pub open spec fn box_of(boxes: Seq<BoxView>, kind: ItemKind) -> Option<usize> {
    find_box(boxes, kind, boxes.len())
}

/// Where a node is relative to the scope.
pub open spec fn placement_in(scope: Option<ScopeView>, node: NodeId) -> Placement {
    match scope {
        Some(scope) => hierarchy::placed(
            scope.hierarchy.groups,
            scope.group,
            scope.hierarchy.node_group[node.0 as int],
        ),
        None => Placement::Direct,
    }
}

/// The visible box standing in for a node, if it has one.
pub open spec fn box_for(
    scope: Option<ScopeView>,
    boxes: Seq<BoxView>,
    node: NodeId,
) -> Option<usize> {
    match placement_in(scope, node) {
        Placement::Direct => box_of(boxes, ItemKind::Op(node)),
        Placement::Within(group) => box_of(boxes, ItemKind::Group(group)),
        Placement::Outside => None,
    }
}

/// Whether box `t` stands for one of the first `n` consumers.
pub open spec fn is_target(
    scope: Option<ScopeView>,
    boxes: Seq<BoxView>,
    consumers: Seq<NodeId>,
    n: nat,
    t: usize,
) -> bool {
    exists|j: int| 0 <= j < n && box_for(scope, boxes, #[trigger] consumers[j]) == Some(t)
}

/// Those of the first `n` boxes that stand for consumers, in order.
pub open spec fn targets(
    scope: Option<ScopeView>,
    boxes: Seq<BoxView>,
    consumers: Seq<NodeId>,
    n: nat,
) -> Seq<usize>
    decreases n,
{
    if n == 0 {
        Seq::empty()
    } else {
        let before = targets(scope, boxes, consumers, (n - 1) as nat);
        if is_target(scope, boxes, consumers, consumers.len(), (n - 1) as usize) {
            before.push((n - 1) as usize)
        } else {
            before
        }
    }
}

/// Whether one of the first `n` consumers is outside the scope.
pub open spec fn escapes(scope: Option<ScopeView>, consumers: Seq<NodeId>, n: nat) -> bool {
    exists|j: int|
        0 <= j < n && placement_in(scope, #[trigger] consumers[j]) == Placement::Outside
}

/// The visible box that a value comes from, if it has one.
pub open spec fn source_of(
    scope: Option<ScopeView>,
    boxes: Seq<BoxView>,
    value: ValueView,
) -> Option<usize> {
    match value.producer {
        Some(producer) => box_for(scope, boxes, producer),
        // A declared graph input, or a value inherited from an enclosing graph.
        None => box_of(boxes, ItemKind::Input(value.id)),
    }
}

/// The boxes, with one of this kind added for the value where there is none.
pub open spec fn with_boundary(
    boxes: Seq<BoxView>,
    kind: ItemKind,
    value: ValueView,
) -> Seq<BoxView> {
    match box_of(boxes, kind) {
        Some(_) => boxes,
        None => boxes.push(value_box(kind, value)),
    }
}

/// The place of the box of this kind, where it stands or would be added.
pub open spec fn boundary_place(boxes: Seq<BoxView>, kind: ItemKind) -> usize {
    match box_of(boxes, kind) {
        Some(index) => index,
        None => boxes.len() as usize,
    }
}

/// Whether a box stands for a block.
pub open spec fn is_block(b: BoxView) -> bool {
    b.kind is Group
}

/// Whether two boxes are linked already.
pub open spec fn linked(links: Seq<Link>, from: usize, to: usize) -> bool {
    exists|j: int| 0 <= j < links.len() && (#[trigger] links[j]).from == from && links[j].to == to
}

/// The links, with one more unless it would lead from a box to itself or repeat
/// one from or to a block: an edge wholly inside one block is not visible, and
/// aggregating a block's edges would produce a bundle of identical lines.
pub open spec fn with_link(
    boxes: Seq<BoxView>,
    links: Seq<Link>,
    from: usize,
    to: usize,
    value: ValueId,
) -> Seq<Link> {
    if from == to {
        links
    } else if (is_block(boxes[from as int]) || is_block(boxes[to as int])) && linked(
        links,
        from,
        to,
    ) {
        links
    } else {
        links.push(Link { from, to, value })
    }
}

/// The links, with one more to each of the first `n` targets.
pub open spec fn with_links(
    boxes: Seq<BoxView>,
    links: Seq<Link>,
    from: usize,
    to: Seq<usize>,
    value: ValueId,
    n: nat,
) -> Seq<Link>
    decreases n,
{
    if n == 0 {
        links
    } else {
        with_link(
            boxes,
            with_links(boxes, links, from, to, value, (n - 1) as nat),
            from,
            to[n - 1],
            value,
        )
    }
}

/// The drawing with the links of one value added.
pub open spec fn with_value(
    g: GraphView,
    scope: Option<ScopeView>,
    drawing: Drawing,
    value: ValueView,
) -> Drawing {
    let boxes = drawing.boxes;
    let to = targets(scope, boxes, value.consumers, boxes.len());
    let leaves = escapes(scope, value.consumers, value.consumers.len()) || g.outputs.contains(
        value.id,
    );
    let source = source_of(scope, boxes, value);
    if value.kind.is_constant() || (source is None && to.len() == 0) {
        drawing
    } else {
        let input = ItemKind::Input(value.id);
        let boxes = if source is Some {
            boxes
        } else {
            with_boundary(boxes, input, value)
        };
        let from = match source {
            Some(index) => index,
            None => boundary_place(drawing.boxes, input),
        };
        let links = with_links(boxes, drawing.links, from, to, value.id, to.len());
        if leaves {
            let output = ItemKind::Output(value.id);
            let more = with_boundary(boxes, output, value);
            Drawing {
                boxes: more,
                links: with_link(more, links, from, boundary_place(boxes, output), value.id),
            }
        } else {
            Drawing { boxes, links }
        }
    }
}

/// The drawing with the links of the first `n` values.
pub open spec fn drawing_of(g: GraphView, scope: Option<ScopeView>, n: nat) -> Drawing
    decreases n,
{
    if n == 0 {
        Drawing { boxes: first_boxes(g, scope), links: Seq::empty() }
    } else {
        with_value(g, scope, drawing_of(g, scope, (n - 1) as nat), g.values[n - 1])
    }
}

/// What is drawn of a graph.
pub open spec fn drawing(g: GraphView, scope: Option<ScopeView>) -> Drawing {
    drawing_of(g, scope, g.values.len())
}

proof fn lemma_find_push(boxes: Seq<BoxView>, b: BoxView, kind: ItemKind, n: nat)
    requires
        n <= boxes.len(),
    ensures
        find_box(boxes.push(b), kind, n) == find_box(boxes, kind, n),
    decreases n,
{
    if n > 0 {
        lemma_find_push(boxes, b, kind, (n - 1) as nat);
    }
}

pub(crate) proof fn lemma_box_of_push(boxes: Seq<BoxView>, b: BoxView)
    requires
        boxes.len() <= usize::MAX,
    ensures
        forall|kind: ItemKind| #[trigger]
            box_of(boxes.push(b), kind) == if kind == b.kind {
                Some(boxes.len() as usize)
            } else {
                box_of(boxes, kind)
            },
{
    assert forall|kind: ItemKind| #[trigger]
        box_of(boxes.push(b), kind) == if kind == b.kind {
            Some(boxes.len() as usize)
        } else {
            box_of(boxes, kind)
        } by {
        lemma_find_push(boxes, b, kind, boxes.len());
    }
}

pub(crate) proof fn lemma_find_box(boxes: Seq<BoxView>, kind: ItemKind, n: nat)
    requires
        n <= boxes.len() <= usize::MAX,
    ensures
        match find_box(boxes, kind, n) {
            Some(i) => i < n && boxes[i as int].kind == kind,
            None => true,
        },
    decreases n,
{
    if n > 0 {
        lemma_find_box(boxes, kind, (n - 1) as nat);
    }
}

/// Whether a map says where the boxes of one kind are.
spec fn maps_boxes(
    map: Map<u32, usize>,
    boxes: Seq<BoxView>,
    kind: spec_fn(u32) -> ItemKind,
) -> bool {
    forall|id: u32|
        match box_of(boxes, #[trigger] kind(id)) {
            Some(index) => map.contains_key(id) && map[id] == index,
            None => !map.contains_key(id),
        }
}

spec fn as_op() -> spec_fn(u32) -> ItemKind {
    |id: u32| ItemKind::Op(NodeId(id))
}

spec fn as_group() -> spec_fn(u32) -> ItemKind {
    |id: u32| ItemKind::Group(GroupId(id))
}

spec fn as_input() -> spec_fn(u32) -> ItemKind {
    |id: u32| ItemKind::Input(ValueId(id))
}

spec fn as_output() -> spec_fn(u32) -> ItemKind {
    |id: u32| ItemKind::Output(ValueId(id))
}

struct Collector<'a> {
    graph: &'a Graph,
    scope: Option<Scope<'a>>,
    nodes: Vec<LayoutNode>,
    node_by_id: HashMap<u32, usize>,
    group_by_id: HashMap<u32, usize>,
    input_by_value: HashMap<u32, usize>,
    output_by_value: HashMap<u32, usize>,
    links: Vec<Link>,
}

impl<'a> Collector<'a> {
    spec fn boxes(self) -> Seq<BoxView> {
        chars::views(self.nodes@)
    }

    spec fn scope_view(self) -> Option<ScopeView> {
        chars::opt_view(self.scope)
    }

    spec fn inv(self) -> bool {
        &&& self.graph@.wf()
        &&& scope_wf(self.scope_view(), self.graph@)
        &&& maps_boxes(self.node_by_id@, self.boxes(), as_op())
        &&& maps_boxes(self.group_by_id@, self.boxes(), as_group())
        &&& maps_boxes(self.input_by_value@, self.boxes(), as_input())
        &&& maps_boxes(self.output_by_value@, self.boxes(), as_output())
    }

    spec fn same_view(self, other: Self) -> bool {
        self.graph == other.graph && self.scope == other.scope
    }

    fn at_top_level(&self) -> (top: bool)
        ensures
            top == at_top_level(self.scope_view()),
    {
        match self.scope {
            Some(scope) => scope.group == scope.hierarchy.root(),
            None => true,
        }
    }

    fn push(
        &mut self,
        kind: ItemKind,
        title: String,
        subtitle: String,
        category: Option<OpCategory>,
    ) -> (index: usize)
        requires
            old(self).inv(),
        ensures
            final(self).inv(),
            final(self).same_view(*old(self)),
            final(self).links@ == old(self).links@,
            final(self).boxes() == old(self).boxes().push(
                BoxView { kind, title: title@, subtitle: subtitle@, category },
            ),
            index == old(self).boxes().len(),
    {
        broadcast use vstd::std_specs::hash::group_hash_axioms;

        let ghost before = self.boxes();
        let ghost added = BoxView { kind, title: title@, subtitle: subtitle@, category };
        let index: usize = self.nodes.len();
        self.nodes.push(LayoutNode { kind, title, subtitle, category });
        match kind {
            ItemKind::Op(id) => {
                self.node_by_id.insert(id.0, index);
            },
            ItemKind::Group(id) => {
                self.group_by_id.insert(id.0, index);
            },
            ItemKind::Input(id) => {
                self.input_by_value.insert(id.0, index);
            },
            ItemKind::Output(id) => {
                self.output_by_value.insert(id.0, index);
            },
        }
        proof {
            assert(self.boxes() =~= before.push(added));
            lemma_box_of_push(before, added);
            lemma_maps_push(
                old(self).node_by_id@,
                self.node_by_id@,
                before,
                added,
                as_op(),
            );
            lemma_maps_push(
                old(self).group_by_id@,
                self.group_by_id@,
                before,
                added,
                as_group(),
            );
            lemma_maps_push(
                old(self).input_by_value@,
                self.input_by_value@,
                before,
                added,
                as_input(),
            );
            lemma_maps_push(
                old(self).output_by_value@,
                self.output_by_value@,
                before,
                added,
                as_output(),
            );
        }
        index
    }
}

/// Pushing a box changes its own entry and no other.
proof fn lemma_maps_push(
    map: Map<u32, usize>,
    more: Map<u32, usize>,
    boxes: Seq<BoxView>,
    b: BoxView,
    kind: spec_fn(u32) -> ItemKind,
)
    requires
        boxes.len() <= usize::MAX,
        maps_boxes(map, boxes, kind),
        forall|id: u32|
            #![trigger kind(id)]
            if kind(id) == b.kind {
                more.contains_key(id) && more[id] == boxes.len()
            } else {
                more.contains_key(id) == map.contains_key(id) && (map.contains_key(id) ==> more[id]
                    == map[id])
            },
    ensures
        maps_boxes(more, boxes.push(b), kind),
{
    lemma_box_of_push(boxes, b);
    assert forall|id: u32|
        match box_of(boxes.push(b), #[trigger] kind(id)) {
            Some(index) => more.contains_key(id) && more[id] == index,
            None => !more.contains_key(id),
        } by {
        assert(match box_of(boxes, kind(id)) {
            Some(index) => map.contains_key(id) && map[id] == index,
            None => !map.contains_key(id),
        });
    }
}

/// Whether the items stand in order, each once.
spec fn increasing(items: Seq<usize>) -> bool {
    forall|i: int, j: int| 0 <= i < j < items.len() ==> #[trigger] items[i] < #[trigger] items[j]
}

/// Adds an item to a list in order, unless it is there.
fn insert_sorted(items: &mut Vec<usize>, item: usize)
    requires
        increasing(old(items)@),
    ensures
        increasing(final(items)@),
        forall|x: usize| #[trigger]
            final(items)@.contains(x) <==> old(items)@.contains(x) || x == item,
{
    let ghost before = items@;
    let mut at: usize = items.len();
    while at > 0 && items[at - 1] > item
        invariant
            items@ == before,
            increasing(before),
            at <= items@.len(),
            forall|k: int| at <= k < items@.len() ==> #[trigger] items@[k] > item,
        decreases at,
    {
        at = at - 1;
    }
    if at > 0 && items[at - 1] == item {
        assert(before.contains(item));
        return;
    }
    items.insert(at, item);
    proof {
        let after = items@;
        assert(after == before.insert(at as int, item));
        assert forall|i: int, j: int| 0 <= i < j < after.len() implies #[trigger] after[i]
            < #[trigger] after[j] by {
            if i < at {
                assert(after[i] == before[i]);
                assert(before[i] <= before[at - 1]);
                if j < at {
                    assert(after[j] == before[j]);
                } else if j > at {
                    assert(after[j] == before[j - 1]);
                }
            } else if i > at {
                assert(after[i] == before[i - 1]);
                assert(after[j] == before[j - 1]);
            } else {
                assert(after[j] == before[j - 1]);
            }
        }
        assert forall|x: usize| #[trigger] after.contains(x) <==> before.contains(x) || x == item by {
            assert(after[at as int] == item);
            if before.contains(x) {
                let k = before.index_of(x);
                if k < at {
                    assert(after[k] == x);
                } else {
                    assert(after[k + 1] == x);
                }
            }
            if after.contains(x) {
                let k = after.index_of(x);
                if k < at {
                    assert(before[k] == x);
                } else if k > at {
                    assert(before[k - 1] == x);
                }
            }
        }
    }
}

/// A list in order that holds exactly the targets is the list of targets.
proof fn lemma_targets_unique(
    scope: Option<ScopeView>,
    boxes: Seq<BoxView>,
    consumers: Seq<NodeId>,
    items: Seq<usize>,
    n: nat,
)
    requires
        n <= usize::MAX,
        increasing(items),
        forall|x: usize| #[trigger]
            items.contains(x) <==> x < n && is_target(scope, boxes, consumers, consumers.len(), x),
    ensures
        items == targets(scope, boxes, consumers, n),
    decreases n,
{
    if n == 0 {
        if items.len() > 0 {
            assert(items.contains(items[0]));
        }
        assert(items =~= Seq::empty());
    } else {
        let last = (n - 1) as usize;
        if is_target(scope, boxes, consumers, consumers.len(), last) {
            assert(items.contains(last));
            let at = items.index_of(last);
            assert(at == items.len() - 1) by {
                if at < items.len() - 1 {
                    assert(items[at] < items[at + 1]);
                    assert(items.contains(items[at + 1]));
                }
            }
            let rest = items.drop_last();
            assert forall|x: usize| #[trigger] rest.contains(x) <==> x < n - 1 && is_target(
                scope,
                boxes,
                consumers,
                consumers.len(),
                x,
            ) by {
                if rest.contains(x) {
                    let k = rest.index_of(x);
                    assert(items[k] == x);
                    assert(items.contains(x));
                    assert(items[k] < items[at]);
                }
                if x < n - 1 && is_target(scope, boxes, consumers, consumers.len(), x) {
                    assert(items.contains(x));
                    let k = items.index_of(x);
                    assert(rest[k] == x);
                }
            }
            lemma_targets_unique(scope, boxes, consumers, rest, (n - 1) as nat);
            assert(items =~= rest.push(last));
        } else {
            assert forall|x: usize| #[trigger] items.contains(x) <==> x < n - 1 && is_target(
                scope,
                boxes,
                consumers,
                consumers.len(),
                x,
            ) by {}
            lemma_targets_unique(scope, boxes, consumers, items, (n - 1) as nat);
        }
    }
}

pub(crate) proof fn lemma_targets_within(
    scope: Option<ScopeView>,
    boxes: Seq<BoxView>,
    consumers: Seq<NodeId>,
    n: nat,
)
    requires
        n <= usize::MAX,
    ensures
        forall|k: int|
            0 <= k < targets(scope, boxes, consumers, n).len() ==> (#[trigger] targets(
                scope,
                boxes,
                consumers,
                n,
            )[k]) < n,
    decreases n,
{
    if n > 0 {
        lemma_targets_within(scope, boxes, consumers, (n - 1) as nat);
        let before = targets(scope, boxes, consumers, (n - 1) as nat);
        let after = targets(scope, boxes, consumers, n);
        assert forall|k: int| 0 <= k < after.len() implies #[trigger] after[k] < n by {
            if k < before.len() {
                assert(after[k] == before[k]);
            }
        }
    }
}

impl<'a> Collector<'a> {
    fn push_value(&mut self, kind: ItemKind, value: &Value) -> (index: usize)
        requires
            old(self).inv(),
        ensures
            final(self).inv(),
            final(self).same_view(*old(self)),
            final(self).links@ == old(self).links@,
            final(self).boxes() == old(self).boxes().push(value_box(kind, value@)),
            index == old(self).boxes().len(),
    {
        self.push(kind, value.name.clone(), value.type_summary(), None)
    }

    fn push_op(&mut self, node_id: NodeId)
        requires
            old(self).inv(),
            old(self).graph@.has_node(node_id),
        ensures
            final(self).inv(),
            final(self).same_view(*old(self)),
            final(self).links@ == old(self).links@,
            final(self).boxes() == {
                let node = old(self).graph@.nodes[node_id.0 as int];
                if node.is_constant() {
                    old(self).boxes()
                } else {
                    old(self).boxes().push(op_box(node))
                }
            },
    {
        let graph: &'a Graph = self.graph;
        let node: &Node = graph.node(node_id);
        proof {
            assert(graph@.nodes[node_id.0 as int] == node@);
            assert(graph@.node_wf(graph@.nodes[node_id.0 as int], node_id.0 as int));
        }
        if node.is_constant() {
            return;
        }
        let category: OpCategory = OpCategory::of(node.op_type.as_str());
        let subtitle: String = String::new();
        assert(subtitle@ =~= Seq::<char>::empty());
        let _index: usize = self.push(
            ItemKind::Op(node_id),
            node.op_type.clone(),
            subtitle,
            Some(category),
        );
    }

    fn collect_inputs(&mut self)
        requires
            old(self).inv(),
        ensures
            final(self).inv(),
            final(self).same_view(*old(self)),
            final(self).links@ == old(self).links@,
            final(self).boxes() == with_inputs(
                old(self).boxes(),
                old(self).graph@,
                old(self).graph@.inputs.len(),
            ),
    {
        let graph: &'a Graph = self.graph;
        let ghost before = *self;
        let ghost start = self.boxes();
        for i in 0..graph.inputs.len()
            invariant
                graph == before.graph,
                self.inv(),
                self.same_view(before),
                self.links@ == before.links@,
                self.boxes() == with_inputs(start, graph@, i as nat),
        {
            let id: ValueId = graph.inputs[i];
            assert(graph@.has_value(graph@.inputs[i as int]));
            let value: &Value = graph.value(id);
            assert(graph@.values[id.0 as int] == value@);
            if !value.is_constant() {
                let _index: usize = self.push_value(ItemKind::Input(id), value);
            }
        }
    }

    fn collect_outputs(&mut self)
        requires
            old(self).inv(),
        ensures
            final(self).inv(),
            final(self).same_view(*old(self)),
            final(self).links@ == old(self).links@,
            final(self).boxes() == with_outputs(
                old(self).boxes(),
                old(self).graph@,
                old(self).graph@.outputs.len(),
            ),
    {
        let graph: &'a Graph = self.graph;
        let ghost before = *self;
        let ghost start = self.boxes();
        for i in 0..graph.outputs.len()
            invariant
                graph == before.graph,
                self.inv(),
                self.same_view(before),
                self.links@ == before.links@,
                self.boxes() == with_outputs(start, graph@, i as nat),
        {
            let id: ValueId = graph.outputs[i];
            assert(graph@.has_value(graph@.outputs[i as int]));
            let value: &Value = graph.value(id);
            assert(graph@.values[id.0 as int] == value@);
            let _index: usize = self.push_value(ItemKind::Output(id), value);
        }
    }

    fn collect_group(&mut self, scope: Scope<'a>)
        requires
            old(self).inv(),
            old(self).scope == Some(scope),
        ensures
            final(self).inv(),
            final(self).same_view(*old(self)),
            final(self).links@ == old(self).links@,
            final(self).boxes() == {
                let group = scope.hierarchy@.groups[scope.group.0 as int];
                let blocks = with_groups(
                    old(self).boxes(),
                    scope.hierarchy@,
                    group.children,
                    group.children.len(),
                );
                with_ops(blocks, old(self).graph@, group.nodes, group.nodes.len())
            },
    {
        let ghost before = *self;
        let ghost h = scope.hierarchy@;
        let ghost start = self.boxes();
        let group: &Group = scope.hierarchy.group(scope.group);
        proof {
            assert(self.scope_view() == Some(scope@));
            assert(h.children_wf(h.groups[scope.group.0 as int], scope.group.0 as int));
            assert(h.members_wf(h.groups[scope.group.0 as int], scope.group.0 as int));
        }
        for i in 0..group.children.len()
            invariant
                h == scope.hierarchy@,
                group@ == h.groups[scope.group.0 as int],
                h.children_wf(group@, scope.group.0 as int),
                self.inv(),
                self.same_view(before),
                self.links@ == before.links@,
                self.boxes() == with_groups(start, h, group@.children, i as nat),
        {
            let child: GroupId = group.children[i];
            assert(child == group@.children[i as int]);
            let child_group: &Group = scope.hierarchy.group(child);
            let mut subtitle: String = decimal_text(child_group.total_nodes as u64);
            subtitle.append(" operators");
            let _index: usize = self.push(
                ItemKind::Group(child),
                child_group.name.clone(),
                subtitle,
                None,
            );
        }
        let ghost blocks = self.boxes();
        for i in 0..group.nodes.len()
            invariant
                h == scope.hierarchy@,
                h.node_group.len() == before.graph@.nodes.len(),
                group@ == h.groups[scope.group.0 as int],
                h.members_wf(group@, scope.group.0 as int),
                self.inv(),
                self.same_view(before),
                self.links@ == before.links@,
                self.boxes() == with_ops(blocks, before.graph@, group@.nodes, i as nat),
        {
            let id: NodeId = group.nodes[i];
            assert(id == group@.nodes[i as int]);
            self.push_op(id);
        }
    }

    fn collect_all_ops(&mut self)
        requires
            old(self).inv(),
        ensures
            final(self).inv(),
            final(self).same_view(*old(self)),
            final(self).links@ == old(self).links@,
            final(self).boxes() == with_ops(
                old(self).boxes(),
                old(self).graph@,
                node_ids(old(self).graph@),
                old(self).graph@.nodes.len(),
            ),
    {
        let graph: &'a Graph = self.graph;
        let ghost before = *self;
        let ghost start = self.boxes();
        for i in 0..graph.nodes.len()
            invariant
                graph == before.graph,
                graph@.wf(),
                self.inv(),
                self.same_view(before),
                self.links@ == before.links@,
                self.boxes() == with_ops(start, graph@, node_ids(graph@), i as nat),
        {
            proof {
                assert(graph@.nodes[i as int] == graph.nodes@[i as int]@);
                assert(graph@.node_wf(graph@.nodes[i as int], i as int));
                assert(node_ids(graph@)[i as int] == NodeId(i as u32));
            }
            self.push_op(graph.nodes[i].id);
        }
    }

    fn collect_boxes(&mut self)
        requires
            old(self).inv(),
            old(self).boxes().len() == 0,
            old(self).links@.len() == 0,
        ensures
            final(self).inv(),
            final(self).same_view(*old(self)),
            final(self).links@.len() == 0,
            final(self).boxes() == first_boxes(old(self).graph@, old(self).scope_view()),
    {
        assert(self.boxes() =~= Seq::empty());
        let top: bool = self.at_top_level();
        if top {
            self.collect_inputs();
        }
        match self.scope {
            Some(scope) => {
                self.collect_group(scope);
            },
            None => {
                self.collect_all_ops();
            },
        }
        if top {
            self.collect_outputs();
        }
    }

    /// Locates a node relative to the current scope.
    fn placement(&self, node: NodeId) -> (placement: Placement)
        requires
            self.inv(),
            self.graph@.has_node(node),
        ensures
            placement == placement_in(self.scope_view(), node),
    {
        match self.scope {
            Some(scope) => scope.hierarchy.placement(scope.group, node),
            None => Placement::Direct,
        }
    }

    /// The visible box standing in for a node, if it has one.
    fn box_for(&self, node: NodeId) -> (index: Option<usize>)
        requires
            self.inv(),
            self.graph@.has_node(node),
        ensures
            index == box_for(self.scope_view(), self.boxes(), node),
    {
        broadcast use vstd::std_specs::hash::group_hash_axioms;

        match self.placement(node) {
            Placement::Direct => {
                assert(as_op()(node.0) == ItemKind::Op(node));
                match self.node_by_id.get(&node.0) {
                    Some(index) => Some(*index),
                    None => None,
                }
            },
            Placement::Within(group) => {
                assert(as_group()(group.0) == ItemKind::Group(group));
                match self.group_by_id.get(&group.0) {
                    Some(index) => Some(*index),
                    None => None,
                }
            },
            Placement::Outside => None,
        }
    }

    /// Where the box for a value entering the view is.
    fn input_box(&self, id: ValueId) -> (index: Option<usize>)
        requires
            self.inv(),
        ensures
            index == box_of(self.boxes(), ItemKind::Input(id)),
    {
        broadcast use vstd::std_specs::hash::group_hash_axioms;

        assert(as_input()(id.0) == ItemKind::Input(id));
        match self.input_by_value.get(&id.0) {
            Some(index) => Some(*index),
            None => None,
        }
    }

    /// Box for a value arriving from outside the current scope.
    fn boundary_input(&mut self, value: &Value) -> (index: usize)
        requires
            old(self).inv(),
        ensures
            final(self).inv(),
            final(self).same_view(*old(self)),
            final(self).links@ == old(self).links@,
            final(self).boxes() == with_boundary(
                old(self).boxes(),
                ItemKind::Input(value.id),
                value@,
            ),
            index == boundary_place(old(self).boxes(), ItemKind::Input(value.id)),
    {
        match self.input_box(value.id) {
            Some(index) => index,
            None => self.push_value(ItemKind::Input(value.id), value),
        }
    }

    /// Box for a value leaving the current scope.
    fn boundary_output(&mut self, value: &Value) -> (index: usize)
        requires
            old(self).inv(),
        ensures
            final(self).inv(),
            final(self).same_view(*old(self)),
            final(self).links@ == old(self).links@,
            final(self).boxes() == with_boundary(
                old(self).boxes(),
                ItemKind::Output(value.id),
                value@,
            ),
            index == boundary_place(old(self).boxes(), ItemKind::Output(value.id)),
    {
        broadcast use vstd::std_specs::hash::group_hash_axioms;

        assert(as_output()(value.id.0) == ItemKind::Output(value.id));
        let known: Option<usize> = match self.output_by_value.get(&value.id.0) {
            Some(index) => Some(*index),
            None => None,
        };
        match known {
            Some(index) => index,
            None => self.push_value(ItemKind::Output(value.id), value),
        }
    }

    fn is_linked(&self, from: usize, to: usize) -> (found: bool)
        ensures
            found == linked(self.links@, from, to),
    {
        for j in 0..self.links.len()
            invariant
                forall|k: int|
                    0 <= k < j ==> !((#[trigger] self.links@[k]).from == from && self.links@[k].to
                        == to),
        {
            let link: Link = self.links[j];
            assert(link == self.links@[j as int]);
            if link.from == from && link.to == to {
                return true;
            }
        }
        false
    }

    fn link(&mut self, from: usize, to: usize, value: ValueId)
        requires
            old(self).inv(),
            from < old(self).boxes().len(),
            to < old(self).boxes().len(),
        ensures
            final(self).inv(),
            final(self).same_view(*old(self)),
            final(self).boxes() == old(self).boxes(),
            final(self).links@ == with_link(
                old(self).boxes(),
                old(self).links@,
                from,
                to,
                value,
            ),
    {
        // An edge wholly inside one group is not visible at this level.
        if from == to {
            return;
        }
        let involves_group: bool = matches!(self.nodes[from].kind, ItemKind::Group(_)) || matches!(
            self.nodes[to].kind,
            ItemKind::Group(_)
        );
        proof {
            assert(self.boxes()[from as int] == self.nodes@[from as int]@);
            assert(self.boxes()[to as int] == self.nodes@[to as int]@);
        }
        if involves_group && self.is_linked(from, to) {
            return;
        }
        self.links.push(Link { from, to, value });
    }

    /// The boxes standing for a value's consumers, in order.
    fn target_boxes(&self, value: &Value) -> (items: Vec<usize>)
        requires
            self.inv(),
            forall|j: int|
                0 <= j < value.consumers@.len() ==> self.graph@.has_node(
                    #[trigger] value.consumers@[j],
                ),
        ensures
            items@ == targets(
                self.scope_view(),
                self.boxes(),
                value.consumers@,
                self.boxes().len(),
            ),
    {
        let ghost scope = self.scope_view();
        let ghost boxes = self.boxes();
        let ghost consumers = value.consumers@;
        let _count: usize = self.nodes.len();
        assert(boxes.len() == _count);
        let mut items: Vec<usize> = Vec::new();
        for j in 0..value.consumers.len()
            invariant
                self.inv(),
                scope == self.scope_view(),
                boxes == self.boxes(),
                boxes.len() == _count,
                consumers == value.consumers@,
                forall|k: int|
                    0 <= k < consumers.len() ==> self.graph@.has_node(#[trigger] consumers[k]),
                increasing(items@),
                forall|x: usize| #[trigger]
                    items@.contains(x) <==> is_target(scope, boxes, consumers, j as nat, x),
        {
            let ghost held = items@;
            assert(self.graph@.has_node(consumers[j as int]));
            let found: Option<usize> = self.box_for(value.consumers[j]);
            if let Some(index) = found {
                insert_sorted(&mut items, index);
            }
            proof {
                assert forall|x: usize| #[trigger] items@.contains(x) <==> is_target(
                    scope,
                    boxes,
                    consumers,
                    j as nat + 1,
                    x,
                ) by {
                    assert(held.contains(x) <==> is_target(scope, boxes, consumers, j as nat, x));
                    if is_target(scope, boxes, consumers, j as nat, x) {
                        let k = choose|k: int|
                            0 <= k < j && box_for(scope, boxes, #[trigger] consumers[k]) == Some(x);
                        assert(box_for(scope, boxes, consumers[k]) == Some(x));
                        assert(is_target(scope, boxes, consumers, j as nat + 1, x));
                    }
                    if found == Some(x) {
                        assert(box_for(scope, boxes, consumers[j as int]) == Some(x));
                        assert(is_target(scope, boxes, consumers, j as nat + 1, x));
                    }
                    if is_target(scope, boxes, consumers, j as nat + 1, x) && found != Some(x) {
                        let k = choose|k: int|
                            0 <= k < j + 1 && box_for(scope, boxes, #[trigger] consumers[k]) == Some(
                                x,
                            );
                        assert(k < j);
                        assert(is_target(scope, boxes, consumers, j as nat, x));
                    }
                }
            }
        }
        proof {
            assert forall|x: usize| #[trigger] items@.contains(x) <==> x < boxes.len()
                && is_target(scope, boxes, consumers, consumers.len(), x) by {
                if is_target(scope, boxes, consumers, consumers.len(), x) {
                    let k = choose|k: int|
                        0 <= k < consumers.len() && box_for(
                            scope,
                            boxes,
                            #[trigger] consumers[k],
                        ) == Some(x);
                    lemma_box_for_within(scope, boxes, consumers[k]);
                }
            }
            lemma_targets_unique(scope, boxes, consumers, items@, boxes.len());
        }
        items
    }

    /// Whether a value is read outside the current scope.
    fn escapes(&self, value: &Value) -> (found: bool)
        requires
            self.inv(),
            forall|j: int|
                0 <= j < value.consumers@.len() ==> self.graph@.has_node(
                    #[trigger] value.consumers@[j],
                ),
        ensures
            found == escapes(self.scope_view(), value.consumers@, value.consumers@.len()),
    {
        for j in 0..value.consumers.len()
            invariant
                self.inv(),
                forall|k: int|
                    0 <= k < value.consumers@.len() ==> self.graph@.has_node(
                        #[trigger] value.consumers@[k],
                    ),
                forall|k: int|
                    0 <= k < j ==> placement_in(
                        self.scope_view(),
                        #[trigger] value.consumers@[k],
                    ) != Placement::Outside,
        {
            assert(self.graph@.has_node(value.consumers@[j as int]));
            if self.placement(value.consumers[j]) == Placement::Outside {
                assert(placement_in(self.scope_view(), value.consumers@[j as int])
                    == Placement::Outside);
                return true;
            }
        }
        false
    }

    fn collect_value(&mut self, value: &Value)
        requires
            old(self).inv(),
            value.producer is Some ==> old(self).graph@.has_node(value.producer->0),
            forall|j: int|
                0 <= j < value.consumers@.len() ==> old(self).graph@.has_node(
                    #[trigger] value.consumers@[j],
                ),
        ensures
            final(self).inv(),
            final(self).same_view(*old(self)),
            (Drawing { boxes: final(self).boxes(), links: final(self).links@ }) == with_value(
                old(self).graph@,
                old(self).scope_view(),
                Drawing { boxes: old(self).boxes(), links: old(self).links@ },
                value@,
            ),
    {
        if value.is_constant() {
            return;
        }
        let ghost g = self.graph@;
        let ghost scope = self.scope_view();
        let ghost start = Drawing { boxes: self.boxes(), links: self.links@ };
        let _count: usize = self.nodes.len();
        assert(start.boxes.len() == _count);
        let to: Vec<usize> = self.target_boxes(value);
        let source: Option<usize> = match value.producer {
            Some(producer) => self.box_for(producer),
            None => self.input_box(value.id),
        };
        let leaves: bool = self.escapes(value) || contains_value(&self.graph.outputs, value.id);
        proof {
            lemma_targets_within(scope, start.boxes, value.consumers@, start.boxes.len());
            lemma_source_within(scope, start.boxes, value@);
        }
        let from: usize = match source {
            Some(index) => index,
            None => {
                if to.len() == 0 {
                    return;
                }
                proof {
                    lemma_find_box(start.boxes, ItemKind::Input(value.id), start.boxes.len());
                }
                self.boundary_input(value)
            },
        };
        let ghost mid = self.boxes();
        let _grown: usize = self.nodes.len();
        assert(mid.len() == _grown);
        let ghost graph = self.graph;
        let ghost shown = self.scope;
        for k in 0..to.len()
            invariant
                self.inv(),
                self.graph == graph,
                self.scope == shown,
                self.boxes() == mid,
                from < mid.len(),
                forall|j: int| 0 <= j < to@.len() ==> #[trigger] to@[j] < mid.len(),
                self.links@ == with_links(mid, start.links, from, to@, value.id, k as nat),
        {
            self.link(from, to[k], value.id);
        }
        if leaves {
            proof {
                lemma_find_box(mid, ItemKind::Output(value.id), mid.len());
            }
            let target: usize = self.boundary_output(value);
            self.link(from, target, value.id);
        }
    }
}

pub(crate) proof fn lemma_box_for_within(scope: Option<ScopeView>, boxes: Seq<BoxView>, node: NodeId)
    requires
        boxes.len() <= usize::MAX,
    ensures
        box_for(scope, boxes, node) is Some ==> box_for(scope, boxes, node)->0 < boxes.len(),
{
    match placement_in(scope, node) {
        Placement::Direct => {
            lemma_find_box(boxes, ItemKind::Op(node), boxes.len());
        },
        Placement::Within(group) => {
            lemma_find_box(boxes, ItemKind::Group(group), boxes.len());
        },
        Placement::Outside => {},
    }
}

pub(crate) proof fn lemma_source_within(scope: Option<ScopeView>, boxes: Seq<BoxView>, value: ValueView)
    requires
        boxes.len() <= usize::MAX,
    ensures
        source_of(scope, boxes, value) is Some ==> source_of(scope, boxes, value)->0 < boxes.len(),
{
    match value.producer {
        Some(producer) => {
            lemma_box_for_within(scope, boxes, producer);
        },
        None => {
            lemma_find_box(boxes, ItemKind::Input(value.id), boxes.len());
        },
    }
}

/// The boxes of a view, where those of nodes and groups are, and the links.
pub struct Collected {
    pub nodes: Vec<LayoutNode>,
    pub node_by_id: HashMap<u32, usize>,
    pub group_by_id: HashMap<u32, usize>,
    pub links: Vec<Link>,
}

impl Collected {
    pub open spec fn boxes(self) -> Seq<BoxView> {
        chars::views(self.nodes@)
    }
}

/// Chooses which boxes to draw and how they connect.
pub fn collect<'a>(graph: &'a Graph, scope: Option<Scope<'a>>) -> (collected: Collected)
    requires
        graph@.wf(),
        scope_wf(chars::opt_view(scope), graph@),
    ensures
        ({
            let drawing = drawing(graph@, chars::opt_view(scope));
            &&& collected.boxes() == drawing.boxes
            &&& collected.links@ == drawing.links
        }),
        forall|id: u32|
            match box_of(collected.boxes(), #[trigger] op_kind(id)) {
                Some(index) => collected.node_by_id@.contains_key(id) && collected.node_by_id@[id]
                    == index,
                None => !collected.node_by_id@.contains_key(id),
            },
        forall|id: u32|
            match box_of(collected.boxes(), #[trigger] group_kind(id)) {
                Some(index) => collected.group_by_id@.contains_key(id) && collected.group_by_id@[id]
                    == index,
                None => !collected.group_by_id@.contains_key(id),
            },
{
    broadcast use vstd::std_specs::hash::group_hash_axioms;

    let mut builder = Collector {
        graph,
        scope,
        nodes: Vec::new(),
        node_by_id: HashMap::new(),
        group_by_id: HashMap::new(),
        input_by_value: HashMap::new(),
        output_by_value: HashMap::new(),
        links: Vec::new(),
    };
    assert(builder.boxes() =~= Seq::empty());
    builder.collect_boxes();
    let ghost shown = chars::opt_view(scope);
    assert(builder.links@ =~= Seq::empty());
    for i in 0..graph.values.len()
        invariant
            graph@.wf(),
            builder.inv(),
            builder.graph == graph,
            builder.scope == scope,
            shown == chars::opt_view(scope),
            (Drawing { boxes: builder.boxes(), links: builder.links@ }) == drawing_of(
                graph@,
                shown,
                i as nat,
            ),
    {
        proof {
            assert(graph@.values[i as int] == graph.values@[i as int]@);
            assert(graph@.value_wf(graph@.values[i as int], i as int));
            assert forall|j: int| 0 <= j < graph.values@[i as int].consumers@.len() implies graph@.has_node(
                #[trigger] graph.values@[i as int].consumers@[j],
            ) by {
                assert(graph@.has_node(graph@.values[i as int].consumers[j]));
            }
        }
        builder.collect_value(&graph.values[i]);
    }
    proof {
        assert forall|id: u32|
            match box_of(builder.boxes(), #[trigger] op_kind(id)) {
                Some(index) => builder.node_by_id@.contains_key(id) && builder.node_by_id@[id]
                    == index,
                None => !builder.node_by_id@.contains_key(id),
            } by {
            assert(as_op()(id) == op_kind(id));
        }
        assert forall|id: u32|
            match box_of(builder.boxes(), #[trigger] group_kind(id)) {
                Some(index) => builder.group_by_id@.contains_key(id) && builder.group_by_id@[id]
                    == index,
                None => !builder.group_by_id@.contains_key(id),
            } by {
            assert(as_group()(id) == group_kind(id));
        }
    }
    Collected {
        nodes: builder.nodes,
        node_by_id: builder.node_by_id,
        group_by_id: builder.group_by_id,
        links: builder.links,
    }
}

/// The kind of the box of a node.
pub open spec fn op_kind(id: u32) -> ItemKind {
    ItemKind::Op(NodeId(id))
}

/// The kind of the box of a group.
pub open spec fn group_kind(id: u32) -> ItemKind {
    ItemKind::Group(GroupId(id))
}

/// Whether every link is between two different boxes, and there is only one
/// between a pair of boxes where one is a block.
pub open spec fn links_wf(d: Drawing) -> bool {
    &&& ranks::links_within(d.links, d.boxes.len())
    &&& forall|j: int| 0 <= j < d.links.len() ==> (#[trigger] d.links[j]).from != d.links[j].to
    &&& forall|i: int, j: int|
        0 <= i < j < d.links.len() && (#[trigger] d.links[i]).from == (#[trigger] d.links[j]).from
            && d.links[i].to == d.links[j].to ==> !is_block(d.boxes[d.links[i].from as int])
            && !is_block(d.boxes[d.links[i].to as int])
}

proof fn lemma_links_wf_push(d: Drawing, b: BoxView)
    requires
        links_wf(d),
    ensures
        links_wf(Drawing { boxes: d.boxes.push(b), links: d.links }),
{
    let e = Drawing { boxes: d.boxes.push(b), links: d.links };
    assert forall|j: int| 0 <= j < e.links.len() implies (#[trigger] e.links[j]).from
        < e.boxes.len() && e.links[j].to < e.boxes.len() by {
        assert(d.links[j].from < d.boxes.len());
    }
    assert forall|i: int, j: int|
        0 <= i < j < e.links.len() && (#[trigger] e.links[i]).from == (#[trigger] e.links[j]).from
            && e.links[i].to == e.links[j].to implies !is_block(e.boxes[e.links[i].from as int])
        && !is_block(e.boxes[e.links[i].to as int]) by {
        assert(e.boxes[d.links[i].from as int] == d.boxes[d.links[i].from as int]);
        assert(e.boxes[d.links[i].to as int] == d.boxes[d.links[i].to as int]);
    }
}

proof fn lemma_with_link_wf(d: Drawing, from: usize, to: usize, value: ValueId)
    requires
        links_wf(d),
        from < d.boxes.len(),
        to < d.boxes.len(),
    ensures
        links_wf(Drawing { boxes: d.boxes, links: with_link(d.boxes, d.links, from, to, value) }),
{
    let links = with_link(d.boxes, d.links, from, to, value);
    assert forall|i: int, j: int|
        0 <= i < j < links.len() && (#[trigger] links[i]).from == (#[trigger] links[j]).from
            && links[i].to == links[j].to implies !is_block(d.boxes[links[i].from as int])
        && !is_block(d.boxes[links[i].to as int]) by {
        assert(links[i] == d.links[i]);
        if j < d.links.len() {
            assert(links[j] == d.links[j]);
        } else {
            assert(linked(d.links, from, to));
        }
    }
}

proof fn lemma_with_links_wf(d: Drawing, from: usize, to: Seq<usize>, value: ValueId, n: nat)
    requires
        links_wf(d),
        n <= to.len(),
        from < d.boxes.len(),
        forall|k: int| 0 <= k < to.len() ==> #[trigger] to[k] < d.boxes.len(),
    ensures
        links_wf(
            Drawing {
                boxes: d.boxes,
                links: with_links(d.boxes, d.links, from, to, value, n),
            },
        ),
    decreases n,
{
    if n > 0 {
        lemma_with_links_wf(d, from, to, value, (n - 1) as nat);
        let links = with_links(d.boxes, d.links, from, to, value, (n - 1) as nat);
        lemma_with_link_wf(Drawing { boxes: d.boxes, links }, from, to[n - 1], value);
    }
}

pub(crate) proof fn lemma_boundary(boxes: Seq<BoxView>, kind: ItemKind, value: ValueView)
    requires
        boxes.len() <= usize::MAX,
    ensures
        boxes.len() <= with_boundary(boxes, kind, value).len(),
        boundary_place(boxes, kind) < with_boundary(boxes, kind, value).len(),
{
    lemma_find_box(boxes, kind, boxes.len());
}

proof fn lemma_with_value_grows(
    g: GraphView,
    scope: Option<ScopeView>,
    d: Drawing,
    value: ValueView,
)
    ensures
        d.boxes.len() <= with_value(g, scope, d, value).boxes.len(),
{
}

pub(crate) proof fn lemma_drawing_grows(g: GraphView, scope: Option<ScopeView>, k: nat, n: nat)
    requires
        k <= n,
    ensures
        drawing_of(g, scope, k).boxes.len() <= drawing_of(g, scope, n).boxes.len(),
    decreases n,
{
    if k < n {
        lemma_drawing_grows(g, scope, k, (n - 1) as nat);
        lemma_with_value_grows(
            g,
            scope,
            drawing_of(g, scope, (n - 1) as nat),
            g.values[n - 1],
        );
    }
}

proof fn lemma_with_value_wf(g: GraphView, scope: Option<ScopeView>, d: Drawing, value: ValueView)
    requires
        links_wf(d),
        with_value(g, scope, d, value).boxes.len() <= usize::MAX,
    ensures
        links_wf(with_value(g, scope, d, value)),
{
    lemma_with_value_grows(g, scope, d, value);
    let boxes = d.boxes;
    let to = targets(scope, boxes, value.consumers, boxes.len());
    let source = source_of(scope, boxes, value);
    lemma_targets_within(scope, boxes, value.consumers, boxes.len());
    lemma_source_within(scope, boxes, value);
    if value.kind.is_constant() || (source is None && to.len() == 0) {
    } else {
        let input = ItemKind::Input(value.id);
        let mid = if source is Some {
            boxes
        } else {
            with_boundary(boxes, input, value)
        };
        let from = match source {
            Some(index) => index,
            None => boundary_place(boxes, input),
        };
        lemma_boundary(boxes, input, value);
        if source is None && box_of(boxes, input) is None {
            lemma_links_wf_push(d, value_box(input, value));
        }
        let start = Drawing { boxes: mid, links: d.links };
        assert(links_wf(start));
        lemma_with_links_wf(start, from, to, value.id, to.len());
        let links = with_links(mid, d.links, from, to, value.id, to.len());
        let output = ItemKind::Output(value.id);
        let more = with_boundary(mid, output, value);
        let leaves = escapes(scope, value.consumers, value.consumers.len()) || g.outputs.contains(
            value.id,
        );
        if leaves {
            lemma_boundary(mid, output, value);
            if box_of(mid, output) is None {
                lemma_links_wf_push(
                    Drawing { boxes: mid, links },
                    value_box(output, value),
                );
            }
            lemma_with_link_wf(
                Drawing { boxes: more, links },
                from,
                boundary_place(mid, output),
                value.id,
            );
        }
    }
}

pub(crate) proof fn lemma_drawing_wf(g: GraphView, scope: Option<ScopeView>, n: nat)
    requires
        drawing_of(g, scope, n).boxes.len() <= usize::MAX,
    ensures
        links_wf(drawing_of(g, scope, n)),
    decreases n,
{
    if n > 0 {
        let before = drawing_of(g, scope, (n - 1) as nat);
        lemma_with_value_grows(g, scope, before, g.values[n - 1]);
        lemma_drawing_wf(g, scope, (n - 1) as nat);
        lemma_with_value_wf(g, scope, before, g.values[n - 1]);
    }
}

/// In every drawing each link is between two different boxes, and the values
/// that cross the boundary of a block between the same two boxes are drawn as
/// one link.
pub proof fn law_links_are_between_boxes(g: GraphView, scope: Option<ScopeView>)
    requires
        drawing(g, scope).boxes.len() <= usize::MAX,
    ensures
        links_wf(drawing(g, scope)),
{
    lemma_drawing_wf(g, scope, g.values.len());
}

/// Whether every box stands for something that is there, and none for a node
/// that just supplies a constant.
pub open spec fn boxes_wf(g: GraphView, scope: Option<ScopeView>, boxes: Seq<BoxView>) -> bool {
    forall|i: int|
        0 <= i < boxes.len() ==> match (#[trigger] boxes[i]).kind {
            ItemKind::Op(id) => g.has_node(id) && !g.nodes[id.0 as int].is_constant(),
            ItemKind::Group(id) => match scope {
                Some(scope) => scope.hierarchy.has_group(id),
                None => false,
            },
            ItemKind::Input(id) => g.has_value(id),
            ItemKind::Output(id) => g.has_value(id),
        }
}

proof fn lemma_inputs_wf(g: GraphView, scope: Option<ScopeView>, boxes: Seq<BoxView>, n: nat)
    requires
        g.wf(),
        n <= g.inputs.len(),
        boxes_wf(g, scope, boxes),
    ensures
        boxes_wf(g, scope, with_inputs(boxes, g, n)),
    decreases n,
{
    if n > 0 {
        lemma_inputs_wf(g, scope, boxes, (n - 1) as nat);
        assert(g.has_value(g.inputs[n - 1]));
    }
}

proof fn lemma_outputs_wf(g: GraphView, scope: Option<ScopeView>, boxes: Seq<BoxView>, n: nat)
    requires
        g.wf(),
        n <= g.outputs.len(),
        boxes_wf(g, scope, boxes),
    ensures
        boxes_wf(g, scope, with_outputs(boxes, g, n)),
    decreases n,
{
    if n > 0 {
        lemma_outputs_wf(g, scope, boxes, (n - 1) as nat);
        assert(g.has_value(g.outputs[n - 1]));
    }
}

proof fn lemma_groups_wf(
    g: GraphView,
    scope: ScopeView,
    boxes: Seq<BoxView>,
    ids: Seq<GroupId>,
    n: nat,
)
    requires
        boxes_wf(g, Some(scope), boxes),
        n <= ids.len(),
        forall|k: int| 0 <= k < ids.len() ==> scope.hierarchy.has_group(#[trigger] ids[k]),
    ensures
        boxes_wf(g, Some(scope), with_groups(boxes, scope.hierarchy, ids, n)),
    decreases n,
{
    if n > 0 {
        lemma_groups_wf(g, scope, boxes, ids, (n - 1) as nat);
        assert(scope.hierarchy.has_group(ids[n - 1]));
    }
}

proof fn lemma_ops_wf(
    g: GraphView,
    scope: Option<ScopeView>,
    boxes: Seq<BoxView>,
    ids: Seq<NodeId>,
    n: nat,
)
    requires
        g.wf(),
        boxes_wf(g, scope, boxes),
        n <= ids.len(),
        forall|k: int| 0 <= k < ids.len() ==> g.has_node(#[trigger] ids[k]),
    ensures
        boxes_wf(g, scope, with_ops(boxes, g, ids, n)),
    decreases n,
{
    if n > 0 {
        lemma_ops_wf(g, scope, boxes, ids, (n - 1) as nat);
        assert(g.has_node(ids[n - 1]));
        assert(g.node_wf(g.nodes[ids[n - 1].0 as int], ids[n - 1].0 as int));
    }
}

proof fn lemma_drawing_boxes_wf(g: GraphView, scope: Option<ScopeView>, n: nat)
    requires
        g.wf(),
        scope_wf(scope, g),
        n <= g.values.len(),
    ensures
        boxes_wf(g, scope, drawing_of(g, scope, n).boxes),
    decreases n,
{
    if n > 0 {
        lemma_drawing_boxes_wf(g, scope, (n - 1) as nat);
        assert(g.value_wf(g.values[n - 1], n - 1));
    } else {
        let a = if at_top_level(scope) {
            with_inputs(Seq::empty(), g, g.inputs.len())
        } else {
            Seq::empty()
        };
        lemma_inputs_wf(g, scope, Seq::empty(), g.inputs.len());
        match scope {
            Some(s) => {
                let group = s.hierarchy.groups[s.group.0 as int];
                assert(s.hierarchy.members_wf(group, s.group.0 as int));
                assert(s.hierarchy.children_wf(group, s.group.0 as int));
                assert forall|k: int| 0 <= k < group.children.len() implies s.hierarchy.has_group(
                    #[trigger] group.children[k],
                ) by {}
                lemma_groups_wf(g, s, a, group.children, group.children.len());
                let blocks = with_groups(a, s.hierarchy, group.children, group.children.len());
                assert forall|k: int| 0 <= k < group.nodes.len() implies g.has_node(
                    #[trigger] group.nodes[k],
                ) by {}
                lemma_ops_wf(g, scope, blocks, group.nodes, group.nodes.len());
                lemma_outputs_wf(
                    g,
                    scope,
                    with_ops(blocks, g, group.nodes, group.nodes.len()),
                    g.outputs.len(),
                );
            },
            None => {
                lemma_ops_wf(g, scope, a, node_ids(g), g.nodes.len());
                lemma_outputs_wf(
                    g,
                    scope,
                    with_ops(a, g, node_ids(g), g.nodes.len()),
                    g.outputs.len(),
                );
            },
        }
    }
}

/// Every box of a drawing stands for something that is there, and none for a
/// node that just supplies a constant.
pub proof fn law_constants_are_not_drawn(g: GraphView, scope: Option<ScopeView>)
    requires
        g.wf(),
        scope_wf(scope, g),
    ensures
        boxes_wf(g, scope, drawing(g, scope).boxes),
{
    lemma_drawing_boxes_wf(g, scope, g.values.len());
}

/// Whether there is a box of this kind.
pub open spec fn is_drawn(boxes: Seq<BoxView>, kind: ItemKind) -> bool {
    exists|i: int| 0 <= i < boxes.len() && (#[trigger] boxes[i]).kind == kind
}

pub(crate) proof fn lemma_drawn_is_found(boxes: Seq<BoxView>, kind: ItemKind, i: int, n: nat)
    requires
        0 <= i < n <= boxes.len() <= usize::MAX,
        boxes[i].kind == kind,
    ensures
        find_box(boxes, kind, n) is Some,
    decreases n,
{
    if i < n - 1 {
        lemma_drawn_is_found(boxes, kind, i, (n - 1) as nat);
    }
}

proof fn lemma_drawn_stays(boxes: Seq<BoxView>, b: BoxView, kind: ItemKind)
    requires
        is_drawn(boxes, kind),
    ensures
        is_drawn(boxes.push(b), kind),
{
    let i = choose|i: int| 0 <= i < boxes.len() && (#[trigger] boxes[i]).kind == kind;
    assert(boxes.push(b)[i].kind == kind);
}

proof fn lemma_ops_drawn(g: GraphView, boxes: Seq<BoxView>, ids: Seq<NodeId>, n: nat, kind: ItemKind)
    requires
        n <= ids.len(),
        is_drawn(boxes, kind) || exists|k: int|
            0 <= k < n && (#[trigger] ids[k]).0 < g.nodes.len() && !g.nodes[ids[k].0 as int].is_constant()
                && op_box(g.nodes[ids[k].0 as int]).kind == kind,
    ensures
        is_drawn(with_ops(boxes, g, ids, n), kind),
    decreases n,
{
    if n > 0 {
        let before = with_ops(boxes, g, ids, (n - 1) as nat);
        let node = g.nodes[ids[n - 1].0 as int];
        if !is_drawn(boxes, kind) {
            let k = choose|k: int|
                0 <= k < n && (#[trigger] ids[k]).0 < g.nodes.len()
                    && !g.nodes[ids[k].0 as int].is_constant() && op_box(
                    g.nodes[ids[k].0 as int],
                ).kind == kind;
            if k == n - 1 {
                assert(before.push(op_box(node))[before.len() as int].kind == kind);
            } else {
                lemma_ops_drawn(g, boxes, ids, (n - 1) as nat, kind);
            }
        } else {
            lemma_ops_drawn(g, boxes, ids, (n - 1) as nat, kind);
        }
        if is_drawn(before, kind) && !node.is_constant() {
            lemma_drawn_stays(before, op_box(node), kind);
        }
    }
}

proof fn lemma_groups_drawn(
    boxes: Seq<BoxView>,
    h: HierarchyView,
    ids: Seq<GroupId>,
    n: nat,
    kind: ItemKind,
)
    requires
        n <= ids.len(),
        is_drawn(boxes, kind) || exists|k: int|
            0 <= k < n && ItemKind::Group(#[trigger] ids[k]) == kind,
    ensures
        is_drawn(with_groups(boxes, h, ids, n), kind),
    decreases n,
{
    if n > 0 {
        let before = with_groups(boxes, h, ids, (n - 1) as nat);
        let added = group_box(ids[n - 1], h.groups[ids[n - 1].0 as int]);
        if added.kind == kind {
            assert(before.push(added)[before.len() as int].kind == kind);
        } else {
            lemma_groups_drawn(boxes, h, ids, (n - 1) as nat, kind);
            lemma_drawn_stays(before, added, kind);
        }
    }
}

proof fn lemma_outputs_drawn(g: GraphView, boxes: Seq<BoxView>, n: nat, kind: ItemKind)
    requires
        is_drawn(boxes, kind),
    ensures
        is_drawn(with_outputs(boxes, g, n), kind),
    decreases n,
{
    if n > 0 {
        lemma_outputs_drawn(g, boxes, (n - 1) as nat, kind);
        let id = g.outputs[n - 1];
        lemma_drawn_stays(
            with_outputs(boxes, g, (n - 1) as nat),
            value_box(ItemKind::Output(id), g.values[id.0 as int]),
            kind,
        );
    }
}

proof fn lemma_values_drawn(g: GraphView, scope: Option<ScopeView>, n: nat, kind: ItemKind)
    requires
        is_drawn(first_boxes(g, scope), kind),
    ensures
        is_drawn(drawing_of(g, scope, n).boxes, kind),
    decreases n,
{
    if n > 0 {
        lemma_values_drawn(g, scope, (n - 1) as nat, kind);
        let d = drawing_of(g, scope, (n - 1) as nat);
        let value = g.values[n - 1];
        let input = ItemKind::Input(value.id);
        let output = ItemKind::Output(value.id);
        let mid = with_boundary(d.boxes, input, value);
        if box_of(d.boxes, input) is None {
            lemma_drawn_stays(d.boxes, value_box(input, value), kind);
        }
        if box_of(d.boxes, output) is None {
            lemma_drawn_stays(d.boxes, value_box(output, value), kind);
        }
        if box_of(mid, output) is None {
            lemma_drawn_stays(mid, value_box(output, value), kind);
        }
    }
}

/// Every node in the scope that does more than supply a constant is drawn: as
/// an operator where it is directly in the scope, and as part of the block that
/// stands in for it otherwise. Only a node outside the scope has no box.
pub proof fn law_nodes_are_drawn(g: GraphView, scope: Option<ScopeView>, n: NodeId)
    requires
        g.wf(),
        scope_wf(scope, g),
        g.has_node(n),
        drawing(g, scope).boxes.len() <= usize::MAX,
    ensures
        match placement_in(scope, n) {
            Placement::Direct => !g.nodes[n.0 as int].is_constant() ==> box_for(
                scope,
                drawing(g, scope).boxes,
                n,
            ) is Some,
            Placement::Within(_) => box_for(scope, drawing(g, scope).boxes, n) is Some,
            Placement::Outside => box_for(scope, drawing(g, scope).boxes, n) is None,
        },
{
    let boxes = drawing(g, scope).boxes;
    let top = at_top_level(scope);
    let a = if top {
        with_inputs(Seq::empty(), g, g.inputs.len())
    } else {
        Seq::empty()
    };
    assert(g.node_wf(g.nodes[n.0 as int], n.0 as int));
    let op = ItemKind::Op(n);
    match scope {
        Some(s) => {
            let h = s.hierarchy;
            let at = h.node_group[n.0 as int];
            assert(h.has_group(at));
            let group = h.groups[s.group.0 as int];
            let blocks = with_groups(a, h, group.children, group.children.len());
            let ops = with_ops(blocks, g, group.nodes, group.nodes.len());
            match placement_in(scope, n) {
                Placement::Direct => {
                    lemma_placed_direct(h, s.group, at);
                    if !g.nodes[n.0 as int].is_constant() {
                        assert(group.nodes.contains(NodeId(n.0)));
                        let k = group.nodes.index_of(n);
                        assert(group.nodes[k] == n);
                        lemma_ops_drawn(g, blocks, group.nodes, group.nodes.len(), op);
                        lemma_outputs_drawn(g, ops, g.outputs.len(), op);
                        lemma_found_in_drawing(g, scope, op);
                    }
                },
                Placement::Within(child) => {
                    let kind = ItemKind::Group(child);
                    lemma_placed_within(h, s.group, at, child);
                    assert(group.children.contains(child));
                    let k = group.children.index_of(child);
                    assert(group.children[k] == child);
                    lemma_groups_drawn(a, h, group.children, group.children.len(), kind);
                    lemma_ops_drawn(g, blocks, group.nodes, group.nodes.len(), kind);
                    lemma_outputs_drawn(g, ops, g.outputs.len(), kind);
                    lemma_found_in_drawing(g, scope, kind);
                },
                Placement::Outside => {},
            }
        },
        None => {
            if !g.nodes[n.0 as int].is_constant() {
                let ids = node_ids(g);
                let ops = with_ops(a, g, ids, g.nodes.len());
                assert(ids[n.0 as int] == n);
                lemma_ops_drawn(g, a, ids, g.nodes.len(), op);
                lemma_outputs_drawn(g, ops, g.outputs.len(), op);
                lemma_found_in_drawing(g, scope, op);
            }
        },
    }
}

proof fn lemma_found_in_drawing(g: GraphView, scope: Option<ScopeView>, kind: ItemKind)
    requires
        is_drawn(first_boxes(g, scope), kind),
        drawing(g, scope).boxes.len() <= usize::MAX,
    ensures
        box_of(drawing(g, scope).boxes, kind) is Some,
{
    let boxes = drawing(g, scope).boxes;
    lemma_values_drawn(g, scope, g.values.len(), kind);
    let i = choose|i: int| 0 <= i < boxes.len() && (#[trigger] boxes[i]).kind == kind;
    lemma_drawn_is_found(boxes, kind, i, boxes.len());
}

proof fn lemma_placed_direct(h: HierarchyView, scope: GroupId, at: GroupId)
    requires
        h.wf(),
        h.has_group(at),
        hierarchy::placed(h.groups, scope, at) == Placement::Direct,
    ensures
        at == scope,
    decreases at.0,
{
    if at != scope && at.0 > 0 {
        assert(h.has_parent(h.groups[at.0 as int], at.0 as int));
        let parent = h.groups[at.0 as int].parent->0;
        if parent != scope {
            lemma_placed_direct(h, scope, parent);
        }
    }
}

proof fn lemma_placed_within(h: HierarchyView, scope: GroupId, at: GroupId, child: GroupId)
    requires
        h.wf(),
        h.has_group(at),
        h.has_group(scope),
        hierarchy::placed(h.groups, scope, at) == Placement::Within(child),
    ensures
        h.groups[scope.0 as int].children.contains(child),
    decreases at.0,
{
    assert(at.0 > 0);
    assert(h.has_parent(h.groups[at.0 as int], at.0 as int));
    let parent = h.groups[at.0 as int].parent->0;
    if parent != scope {
        lemma_placed_within(h, scope, parent, child);
    }
}

/// Whether every link carries one of the first `count` values.
pub open spec fn values_within(links: Seq<Link>, count: nat) -> bool {
    forall|j: int| 0 <= j < links.len() ==> (#[trigger] links[j]).value.0 < count
}

proof fn lemma_with_links_values(
    boxes: Seq<BoxView>,
    links: Seq<Link>,
    from: usize,
    to: Seq<usize>,
    value: ValueId,
    n: nat,
    count: nat,
)
    requires
        values_within(links, count),
        value.0 < count,
    ensures
        values_within(with_links(boxes, links, from, to, value, n), count),
    decreases n,
{
    if n > 0 {
        lemma_with_links_values(boxes, links, from, to, value, (n - 1) as nat, count);
    }
}

/// Every link carries a value of the graph.
pub(crate) proof fn lemma_link_values(g: GraphView, scope: Option<ScopeView>, n: nat)
    requires
        g.wf(),
        n <= g.values.len(),
    ensures
        values_within(drawing_of(g, scope, n).links, g.values.len()),
    decreases n,
{
    if n > 0 {
        lemma_link_values(g, scope, (n - 1) as nat);
        let d = drawing_of(g, scope, (n - 1) as nat);
        let value = g.values[n - 1];
        assert(g.value_wf(value, n - 1));
        let to = targets(scope, d.boxes, value.consumers, d.boxes.len());
        let source = source_of(scope, d.boxes, value);
        let input = ItemKind::Input(value.id);
        let boxes = if source is Some {
            d.boxes
        } else {
            with_boundary(d.boxes, input, value)
        };
        let from = match source {
            Some(index) => index,
            None => boundary_place(d.boxes, input),
        };
        lemma_with_links_values(boxes, d.links, from, to, value.id, to.len(), g.values.len());
    }
}

} // verus!
