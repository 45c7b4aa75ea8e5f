//! How what is drawn of a graph follows the values that run through it.

use crate::collect::{self, BoxView, Drawing, ItemKind, ScopeView};
use crate::graph::GraphView;
use crate::hierarchy::Placement;
use crate::model::{NodeId, ValueId, ValueView};
use crate::ranks::{self, Link};
use vstd::prelude::*;

verus! {

/// What stands for a node in the view: the node itself, the block that it is
/// folded into, or nothing.
pub open spec fn stand_in(scope: Option<ScopeView>, node: NodeId) -> Option<ItemKind> {
    match collect::placement_in(scope, node) {
        Placement::Direct => Some(ItemKind::Op(node)),
        Placement::Within(group) => Some(ItemKind::Group(group)),
        Placement::Outside => None,
    }
}

/// Whether a link leads from a box of one kind to a box of another.
pub open spec fn leads(d: Drawing, link: Link, from: ItemKind, to: ItemKind) -> bool {
    &&& link.from < d.boxes.len()
    &&& link.to < d.boxes.len()
    &&& d.boxes[link.from as int].kind == from
    &&& d.boxes[link.to as int].kind == to
}

/// Whether two kinds of boxes are connected, by a link for this very value
/// unless one of them is a block.
pub open spec fn connected(d: Drawing, from: ItemKind, to: ItemKind, value: ValueId) -> bool {
    exists|j: int|
        0 <= j < d.links.len() && leads(d, #[trigger] d.links[j], from, to) && (d.links[j].value
            == value || from is Group || to is Group)
}

/// Whether a drawing is another one with more boxes and links behind.
spec fn grown(more: Drawing, d: Drawing) -> bool {
    &&& d.boxes.len() <= more.boxes.len()
    &&& d.links.len() <= more.links.len()
    &&& forall|i: int| 0 <= i < d.boxes.len() ==> #[trigger] more.boxes[i] == d.boxes[i]
    &&& forall|j: int| 0 <= j < d.links.len() ==> #[trigger] more.links[j] == d.links[j]
}

proof fn lemma_connected_stays(
    more: Drawing,
    d: Drawing,
    from: ItemKind,
    to: ItemKind,
    value: ValueId,
)
    requires
        grown(more, d),
        connected(d, from, to, value),
    ensures
        connected(more, from, to, value),
{
    let j = choose|j: int|
        0 <= j < d.links.len() && leads(d, #[trigger] d.links[j], from, to) && (d.links[j].value
            == value || from is Group || to is Group);
    assert(leads(more, more.links[j], from, to));
}

/// One more link connects its boxes.
proof fn lemma_link_connects(
    boxes: Seq<BoxView>,
    links: Seq<Link>,
    from: usize,
    to: usize,
    value: ValueId,
)
    requires
        from < boxes.len(),
        to < boxes.len(),
        from != to,
    ensures
        connected(
            Drawing { boxes, links: collect::with_link(boxes, links, from, to, value) },
            boxes[from as int].kind,
            boxes[to as int].kind,
            value,
        ),
{
    let after = collect::with_link(boxes, links, from, to, value);
    let d = Drawing { boxes, links: after };
    if (collect::is_block(boxes[from as int]) || collect::is_block(boxes[to as int]))
        && collect::linked(links, from, to) {
        let j = choose|j: int|
            0 <= j < links.len() && (#[trigger] links[j]).from == from && links[j].to == to;
        assert(leads(d, d.links[j], boxes[from as int].kind, boxes[to as int].kind));
    } else {
        let j = links.len() as int;
        assert(after[j] == (Link { from, to, value }));
        assert(leads(d, d.links[j], boxes[from as int].kind, boxes[to as int].kind));
    }
}

/// Links to several boxes connect each of them, and come from nowhere else.
proof fn lemma_links_connect(
    boxes: Seq<BoxView>,
    links: Seq<Link>,
    from: usize,
    to: Seq<usize>,
    value: ValueId,
    n: nat,
)
    requires
        from < boxes.len(),
        n <= to.len(),
        forall|k: int| 0 <= k < to.len() ==> #[trigger] to[k] < boxes.len(),
    ensures
        ({
            let after = collect::with_links(boxes, links, from, to, value, n);
            let d = Drawing { boxes, links: after };
            &&& links.len() <= after.len()
            &&& forall|j: int| 0 <= j < links.len() ==> #[trigger] after[j] == links[j]
            &&& forall|j: int|
                links.len() <= j < after.len() ==> (#[trigger] after[j]).from == from
                    && after[j].value == value && to.contains(after[j].to)
            &&& forall|k: int|
                0 <= k < n && #[trigger] to[k] != from ==> connected(
                    d,
                    boxes[from as int].kind,
                    boxes[to[k] as int].kind,
                    value,
                )
        }),
    decreases n,
{
    if n > 0 {
        lemma_links_connect(boxes, links, from, to, value, (n - 1) as nat);
        let before = collect::with_links(boxes, links, from, to, value, (n - 1) as nat);
        let after = collect::with_links(boxes, links, from, to, value, n);
        let was = Drawing { boxes, links: before };
        let now = Drawing { boxes, links: after };
        assert(to.contains(to[n - 1]));
        assert(grown(now, was));
        assert forall|k: int| 0 <= k < n && #[trigger] to[k] != from implies connected(
            now,
            boxes[from as int].kind,
            boxes[to[k] as int].kind,
            value,
        ) by {
            if k < n - 1 {
                lemma_connected_stays(
                    now,
                    was,
                    boxes[from as int].kind,
                    boxes[to[k] as int].kind,
                    value,
                );
            } else {
                lemma_link_connects(boxes, before, from, to[k], value);
            }
        }
        assert forall|j: int| links.len() <= j < after.len() implies (#[trigger] after[j]).from
            == from && after[j].value == value && to.contains(after[j].to) by {
            if j < before.len() {
                assert(after[j] == before[j]);
            }
        }
        assert forall|j: int| 0 <= j < links.len() implies #[trigger] after[j] == links[j] by {
            assert(after[j] == before[j]);
        }
    }
}

proof fn lemma_targets_found(
    scope: Option<ScopeView>,
    boxes: Seq<BoxView>,
    consumers: Seq<NodeId>,
    n: nat,
    t: usize,
)
    requires
        n <= boxes.len() <= usize::MAX,
    ensures
        collect::targets(scope, boxes, consumers, n).contains(t) <==> t < n && collect::is_target(
            scope,
            boxes,
            consumers,
            consumers.len(),
            t,
        ),
    decreases n,
{
    if n > 0 {
        lemma_targets_found(scope, boxes, consumers, (n - 1) as nat, t);
        let before = collect::targets(scope, boxes, consumers, (n - 1) as nat);
        let after = collect::targets(scope, boxes, consumers, n);
        if before.contains(t) {
            let k = before.index_of(t);
            assert(after[k] == t);
        }
        if t == n - 1 && collect::is_target(scope, boxes, consumers, consumers.len(), t) {
            assert(after[before.len() as int] == t);
        }
        if after.contains(t) {
            let k = after.index_of(t);
            if k < before.len() {
                assert(before[k] == t);
            }
        }
    }
}

/// What a value comes from in the view.
pub open spec fn origin(scope: Option<ScopeView>, boxes: Seq<BoxView>, value: ValueView) -> ItemKind {
    match collect::source_of(scope, boxes, value) {
        Some(s) => boxes[s as int].kind,
        None => ItemKind::Input(value.id),
    }
}

/// Whether a value is read from outside the view, or by whoever runs the graph.
pub open spec fn leaves(g: GraphView, scope: Option<ScopeView>, value: ValueView) -> bool {
    g.outputs.contains(value.id) || exists|j: int|
        0 <= j < value.consumers.len() && #[trigger] stand_in(scope, value.consumers[j]) is None
}

/// What one value adds to a drawing.
proof fn lemma_value_links(g: GraphView, scope: Option<ScopeView>, d: Drawing, value: ValueView)
    requires
        ranks::links_within(d.links, d.boxes.len()),
        collect::with_value(g, scope, d, value).boxes.len() <= usize::MAX,
    ensures
        ({
            let e = collect::with_value(g, scope, d, value);
            let from = origin(scope, d.boxes, value);
            &&& grown(e, d)
            &&& forall|j: int|
                d.links.len() <= j < e.links.len() ==> {
                    let link = #[trigger] e.links[j];
                    &&& link.value == value.id
                    &&& !value.kind.is_constant()
                    &&& link.from < e.boxes.len()
                    &&& link.to < e.boxes.len()
                    &&& e.boxes[link.from as int].kind == from
                    &&& collect::is_target(
                        scope,
                        d.boxes,
                        value.consumers,
                        value.consumers.len(),
                        link.to,
                    ) || (leaves(g, scope, value) && e.boxes[link.to as int].kind
                        == ItemKind::Output(value.id))
                }
            &&& !value.kind.is_constant() ==> {
                &&& forall|c: int|
                    #![trigger value.consumers[c]]
                    0 <= c < value.consumers.len() ==> match collect::box_for(
                        scope,
                        d.boxes,
                        value.consumers[c],
                    ) {
                        Some(t) => d.boxes[t as int].kind != from ==> connected(
                            e,
                            from,
                            d.boxes[t as int].kind,
                            value.id,
                        ),
                        None => true,
                    }
                &&& leaves(g, scope, value) && collect::source_of(scope, d.boxes, value) is Some
                    && !(from is Output) ==> connected(
                    e,
                    from,
                    ItemKind::Output(value.id),
                    value.id,
                )
            }
        }),
{
    let e = collect::with_value(g, scope, d, value);
    let boxes = d.boxes;
    let to = collect::targets(scope, boxes, value.consumers, boxes.len());
    let source = collect::source_of(scope, boxes, value);
    assert(boxes.len() <= e.boxes.len());
    collect::lemma_targets_within(scope, boxes, value.consumers, boxes.len());
    collect::lemma_source_within(scope, boxes, value);
    assert(leaves(g, scope, value) == (collect::escapes(
        scope,
        value.consumers,
        value.consumers.len(),
    ) || g.outputs.contains(value.id))) by {
        if collect::escapes(scope, value.consumers, value.consumers.len()) {
            let j = choose|j: int|
                0 <= j < value.consumers.len() && collect::placement_in(
                    scope,
                    #[trigger] value.consumers[j],
                ) == Placement::Outside;
            assert(stand_in(scope, value.consumers[j]) is None);
        }
        if exists|j: int|
            0 <= j < value.consumers.len() && #[trigger] stand_in(
                scope,
                value.consumers[j],
            ) is None {
            let j = choose|j: int|
                0 <= j < value.consumers.len() && #[trigger] stand_in(
                    scope,
                    value.consumers[j],
                ) is None;
            assert(collect::placement_in(scope, value.consumers[j]) == Placement::Outside);
        }
    }
    // Every box that stands for a consumer is a target.
    assert forall|c: int| 0 <= c < value.consumers.len() implies match collect::box_for(
        scope,
        boxes,
        #[trigger] value.consumers[c],
    ) {
        Some(t) => t < boxes.len() && to.contains(t),
        None => true,
    } by {
        collect::lemma_box_for_within(scope, boxes, value.consumers[c]);
        if let Some(t) = collect::box_for(scope, boxes, value.consumers[c]) {
            lemma_targets_found(scope, boxes, value.consumers, boxes.len(), t);
            assert(collect::is_target(scope, boxes, value.consumers, value.consumers.len(), t));
        }
    }
    if value.kind.is_constant() || (source is None && to.len() == 0) {
        assert(e == d);
        assert forall|c: int| 0 <= c < value.consumers.len() implies collect::box_for(
            scope,
            boxes,
            #[trigger] value.consumers[c],
        ) is None || value.kind.is_constant() by {
            if let Some(t) = collect::box_for(scope, boxes, value.consumers[c]) {
                assert(to.contains(t) && !value.kind.is_constant() ==> to.len() > 0);
            }
        }
    } else {
        let input = ItemKind::Input(value.id);
        let output = ItemKind::Output(value.id);
        let mid = if source is Some {
            boxes
        } else {
            collect::with_boundary(boxes, input, value)
        };
        let from = match source {
            Some(index) => index,
            None => collect::boundary_place(boxes, input),
        };
        collect::lemma_boundary(boxes, input, value);
        collect::lemma_find_box(boxes, input, boxes.len());
        assert(from < mid.len());
        let kind = mid[from as int].kind;
        assert(kind == origin(scope, boxes, value));
        let links = collect::with_links(mid, d.links, from, to, value.id, to.len());
        assert forall|k: int| 0 <= k < to.len() implies #[trigger] to[k] < mid.len() by {}
        lemma_links_connect(mid, d.links, from, to, value.id, to.len());
        let was = Drawing { boxes: mid, links };
        assert(grown(was, d));
        let out = leaves(g, scope, value);
        if out {
            collect::lemma_boundary(mid, output, value);
            collect::lemma_find_box(mid, output, mid.len());
            let more = collect::with_boundary(mid, output, value);
            let place = collect::boundary_place(mid, output);
            assert(more[place as int].kind == output);
            assert(e.boxes == more);
            assert(e.links == collect::with_link(more, links, from, place, value.id));
            assert(grown(e, was));
            if !(kind is Output) {
                assert(more[from as int].kind == kind);
                assert(from != place);
                lemma_link_connects(more, links, from, place, value.id);
            }
        } else {
            assert(e == was);
        }
        assert forall|c: int|
            #![trigger value.consumers[c]]
            0 <= c < value.consumers.len() implies match collect::box_for(
            scope,
            boxes,
            value.consumers[c],
        ) {
            Some(t) => boxes[t as int].kind != kind ==> connected(
                e,
                kind,
                boxes[t as int].kind,
                value.id,
            ),
            None => true,
        } by {
            if let Some(t) = collect::box_for(scope, boxes, value.consumers[c]) {
                let k = to.index_of(t);
                assert(to[k] == t);
                if boxes[t as int].kind != kind {
                    assert(mid[t as int] == boxes[t as int]);
                    assert(t != from);
                    assert(connected(was, kind, boxes[t as int].kind, value.id));
                    lemma_connected_stays(e, was, kind, boxes[t as int].kind, value.id);
                }
            }
        }
        assert forall|j: int| d.links.len() <= j < e.links.len() implies {
            let link = #[trigger] e.links[j];
            &&& link.value == value.id
            &&& !value.kind.is_constant()
            &&& link.from < e.boxes.len()
            &&& link.to < e.boxes.len()
            &&& e.boxes[link.from as int].kind == kind
            &&& collect::is_target(
                scope,
                boxes,
                value.consumers,
                value.consumers.len(),
                link.to,
            ) || (out && e.boxes[link.to as int].kind == output)
        } by {
            let link = e.links[j];
            if j < links.len() {
                assert(link == links[j]);
                assert(to.contains(link.to));
                let k = to.index_of(link.to);
                assert(to[k] == link.to);
                lemma_targets_found(scope, boxes, value.consumers, boxes.len(), link.to);
            }
        }
    }
}

proof fn lemma_stages(g: GraphView, scope: Option<ScopeView>, k: nat, n: nat)
    requires
        k <= n,
        collect::drawing_of(g, scope, n).boxes.len() <= usize::MAX,
    ensures
        grown(collect::drawing_of(g, scope, n), collect::drawing_of(g, scope, k)),
        ranks::links_within(
            collect::drawing_of(g, scope, k).links,
            collect::drawing_of(g, scope, k).boxes.len(),
        ),
        collect::drawing_of(g, scope, k).boxes.len() <= usize::MAX,
    decreases n,
{
    collect::lemma_drawing_grows(g, scope, k, n);
    collect::lemma_drawing_wf(g, scope, k);
    if k < n {
        collect::lemma_drawing_grows(g, scope, (n - 1) as nat, n);
        lemma_stages(g, scope, k, (n - 1) as nat);
        let before = collect::drawing_of(g, scope, (n - 1) as nat);
        collect::lemma_drawing_wf(g, scope, (n - 1) as nat);
        lemma_value_links(g, scope, before, g.values[n - 1]);
        let now = collect::drawing_of(g, scope, n);
        let then = collect::drawing_of(g, scope, k);
        assert forall|i: int| 0 <= i < then.boxes.len() implies #[trigger] now.boxes[i]
            == then.boxes[i] by {
            assert(now.boxes[i] == before.boxes[i]);
        }
        assert forall|j: int| 0 <= j < then.links.len() implies #[trigger] now.links[j]
            == then.links[j] by {
            assert(now.links[j] == before.links[j]);
        }
    }
}

/// The boxes of nodes and blocks are there from the start.
proof fn lemma_boxes_from_the_start(
    g: GraphView,
    scope: Option<ScopeView>,
    n: nat,
    kind: ItemKind,
)
    requires
        collect::drawing_of(g, scope, n).boxes.len() <= usize::MAX,
        kind is Op || kind is Group,
    ensures
        collect::box_of(collect::drawing_of(g, scope, n).boxes, kind) == collect::box_of(
            collect::first_boxes(g, scope),
            kind,
        ),
    decreases n,
{
    if n > 0 {
        let before = collect::drawing_of(g, scope, (n - 1) as nat);
        let value = g.values[n - 1];
        collect::lemma_drawing_grows(g, scope, (n - 1) as nat, n);
        lemma_boxes_from_the_start(g, scope, (n - 1) as nat, kind);
        let input = ItemKind::Input(value.id);
        let output = ItemKind::Output(value.id);
        collect::lemma_box_of_push(before.boxes, collect::value_box(input, value));
        collect::lemma_box_of_push(before.boxes, collect::value_box(output, value));
        let mid = before.boxes.push(collect::value_box(input, value));
        if mid.len() <= usize::MAX {
            collect::lemma_box_of_push(mid, collect::value_box(output, value));
        }
    }
}

/// What a node is drawn as at every stage.
proof fn lemma_node_box(g: GraphView, scope: Option<ScopeView>, n: nat, node: NodeId)
    requires
        g.wf(),
        collect::scope_wf(scope, g),
        g.has_node(node),
        !g.nodes[node.0 as int].is_constant(),
        n <= g.values.len(),
        collect::drawing(g, scope).boxes.len() <= usize::MAX,
    ensures
        ({
            let boxes = collect::drawing_of(g, scope, n).boxes;
            match stand_in(scope, node) {
                Some(kind) => {
                    let t = collect::box_for(scope, boxes, node);
                    t is Some && t->0 < boxes.len() && boxes[t->0 as int].kind == kind
                },
                None => collect::box_for(scope, boxes, node) is None,
            }
        }),
{
    let boxes = collect::drawing_of(g, scope, n).boxes;
    collect::law_nodes_are_drawn(g, scope, node);
    collect::lemma_drawing_grows(g, scope, n, g.values.len());
    if let Some(kind) = stand_in(scope, node) {
        lemma_boxes_from_the_start(g, scope, n, kind);
        lemma_boxes_from_the_start(g, scope, g.values.len(), kind);
        collect::lemma_find_box(boxes, kind, boxes.len());
    }
}

/// Where a value comes from in a view: what stands for the node that makes it,
/// or a box of its own where that is not in the view.
pub open spec fn source_kind(scope: Option<ScopeView>, value: ValueView) -> ItemKind {
    match value.producer {
        Some(producer) => match stand_in(scope, producer) {
            Some(kind) => kind,
            None => ItemKind::Input(value.id),
        },
        None => ItemKind::Input(value.id),
    }
}

/// Whether a value is made by a node that is drawn, or by none.
pub open spec fn made_by_drawn(g: GraphView, value: ValueView) -> bool {
    value.producer is Some ==> !g.nodes[(value.producer->0).0 as int].is_constant()
}

proof fn lemma_origin(g: GraphView, scope: Option<ScopeView>, v: int)
    requires
        g.wf(),
        collect::scope_wf(scope, g),
        0 <= v < g.values.len(),
        made_by_drawn(g, g.values[v]),
        collect::drawing(g, scope).boxes.len() <= usize::MAX,
    ensures
        origin(scope, collect::drawing_of(g, scope, v as nat).boxes, g.values[v]) == source_kind(
            scope,
            g.values[v],
        ),
        g.values[v].producer is Some && stand_in(scope, g.values[v].producer->0) is Some
            ==> collect::source_of(
            scope,
            collect::drawing_of(g, scope, v as nat).boxes,
            g.values[v],
        ) is Some,
{
    let value = g.values[v];
    let boxes = collect::drawing_of(g, scope, v as nat).boxes;
    assert(g.value_wf(value, v));
    collect::lemma_drawing_grows(g, scope, v as nat, g.values.len());
    match value.producer {
        Some(producer) => {
            lemma_node_box(g, scope, v as nat, producer);
        },
        None => {
            collect::lemma_find_box(boxes, ItemKind::Input(value.id), boxes.len());
        },
    }
}

/// Every value that is not a constant is drawn from where it is made, or from
/// the boundary of the view, to every node that reads it, as far as the two do
/// not fall into the same box. Where it is made in the view and read outside or
/// declared as an output, it is drawn to the boundary as well.
pub proof fn law_values_are_drawn_to_their_consumers(
    g: GraphView,
    scope: Option<ScopeView>,
    v: int,
    c: int,
)
    requires
        g.wf(),
        collect::scope_wf(scope, g),
        collect::drawing(g, scope).boxes.len() <= usize::MAX,
        0 <= v < g.values.len(),
        !g.values[v].kind.is_constant(),
        made_by_drawn(g, g.values[v]),
        0 <= c < g.values[v].consumers.len(),
        !g.nodes[g.values[v].consumers[c].0 as int].is_constant(),
    ensures
        ({
            let d = collect::drawing(g, scope);
            let value = g.values[v];
            let from = source_kind(scope, value);
            match stand_in(scope, value.consumers[c]) {
                Some(to) => from != to ==> connected(d, from, to, value.id),
                None => value.producer is Some && stand_in(scope, value.producer->0) is Some
                    ==> connected(d, from, ItemKind::Output(value.id), value.id),
            }
        }),
{
    let value = g.values[v];
    let d = collect::drawing(g, scope);
    let now = collect::drawing_of(g, scope, v as nat);
    let next = collect::drawing_of(g, scope, v as nat + 1);
    assert(g.value_wf(value, v));
    lemma_stages(g, scope, v as nat, g.values.len());
    lemma_stages(g, scope, v as nat + 1, g.values.len());
    lemma_value_links(g, scope, now, value);
    lemma_origin(g, scope, v);
    assert(g.has_node(value.consumers[c]));
    lemma_node_box(g, scope, v as nat, value.consumers[c]);
    let from = source_kind(scope, value);
    match stand_in(scope, value.consumers[c]) {
        Some(to) => {
            if from != to {
                assert(connected(next, from, to, value.id));
                lemma_connected_stays(d, next, from, to, value.id);
            }
        },
        None => {
            assert(leaves(g, scope, value));
            if value.producer is Some && stand_in(scope, value.producer->0) is Some {
                lemma_connected_stays(d, next, from, ItemKind::Output(value.id), value.id);
            }
        },
    }
}

/// A declared output that is made in the view is drawn to its box.
pub proof fn law_outputs_are_drawn(g: GraphView, scope: Option<ScopeView>, v: int)
    requires
        g.wf(),
        collect::scope_wf(scope, g),
        collect::drawing(g, scope).boxes.len() <= usize::MAX,
        0 <= v < g.values.len(),
        !g.values[v].kind.is_constant(),
        made_by_drawn(g, g.values[v]),
        g.outputs.contains(g.values[v].id),
        g.values[v].producer is Some,
        stand_in(scope, g.values[v].producer->0) is Some,
    ensures
        connected(
            collect::drawing(g, scope),
            source_kind(scope, g.values[v]),
            ItemKind::Output(g.values[v].id),
            g.values[v].id,
        ),
{
    let value = g.values[v];
    let d = collect::drawing(g, scope);
    let now = collect::drawing_of(g, scope, v as nat);
    let next = collect::drawing_of(g, scope, v as nat + 1);
    assert(g.value_wf(value, v));
    lemma_stages(g, scope, v as nat, g.values.len());
    lemma_stages(g, scope, v as nat + 1, g.values.len());
    lemma_value_links(g, scope, now, value);
    lemma_origin(g, scope, v);
    lemma_connected_stays(
        d,
        next,
        source_kind(scope, value),
        ItemKind::Output(value.id),
        value.id,
    );
}

proof fn lemma_link_stage(g: GraphView, scope: Option<ScopeView>, n: nat, j: int) -> (v: int)
    requires
        collect::drawing_of(g, scope, n).boxes.len() <= usize::MAX,
        0 <= j < collect::drawing_of(g, scope, n).links.len(),
    ensures
        0 <= v < n,
        collect::drawing_of(g, scope, v as nat).links.len() <= j < collect::drawing_of(
            g,
            scope,
            v as nat + 1,
        ).links.len(),
    decreases n,
{
    if n == 0 {
        0
    } else {
        collect::lemma_drawing_grows(g, scope, (n - 1) as nat, n);
        if j < collect::drawing_of(g, scope, (n - 1) as nat).links.len() {
            lemma_link_stage(g, scope, (n - 1) as nat, j)
        } else {
            n - 1
        }
    }
}

/// Every link carries a value that is no constant, from where that value comes
/// from, to what stands for a node that reads it or, where it is read outside
/// of the view or declared as an output, to the boundary.
pub proof fn law_links_carry_values(g: GraphView, scope: Option<ScopeView>, j: int)
    requires
        g.wf(),
        collect::scope_wf(scope, g),
        collect::drawing(g, scope).boxes.len() <= usize::MAX,
        0 <= j < collect::drawing(g, scope).links.len(),
    ensures
        ({
            let d = collect::drawing(g, scope);
            let link = d.links[j];
            let value = g.values[link.value.0 as int];
            let to = d.boxes[link.to as int].kind;
            &&& link.value.0 < g.values.len()
            &&& !value.kind.is_constant()
            &&& made_by_drawn(g, value) ==> d.boxes[link.from as int].kind == source_kind(
                scope,
                value,
            )
            &&& (exists|c: int|
                0 <= c < value.consumers.len() && stand_in(scope, #[trigger] value.consumers[c])
                    == Some(to)) || (to == ItemKind::Output(link.value) && leaves(g, scope, value))
        }),
{
    let d = collect::drawing(g, scope);
    let link = d.links[j];
    let v = lemma_link_stage(g, scope, g.values.len(), j);
    let value = g.values[v];
    let now = collect::drawing_of(g, scope, v as nat);
    let next = collect::drawing_of(g, scope, v as nat + 1);
    assert(g.value_wf(value, v));
    lemma_stages(g, scope, v as nat, g.values.len());
    lemma_stages(g, scope, v as nat + 1, g.values.len());
    lemma_value_links(g, scope, now, value);
    assert(d.links[j] == next.links[j]);
    assert(link.value == value.id);
    assert(d.boxes[link.from as int] == next.boxes[link.from as int]);
    assert(d.boxes[link.to as int] == next.boxes[link.to as int]);
    if made_by_drawn(g, value) {
        lemma_origin(g, scope, v);
    }
    if collect::is_target(scope, now.boxes, value.consumers, value.consumers.len(), link.to) {
        let c = choose|c: int|
            0 <= c < value.consumers.len() && collect::box_for(
                scope,
                now.boxes,
                #[trigger] value.consumers[c],
            ) == Some(link.to);
        let kind = stand_in(scope, value.consumers[c])->0;
        collect::lemma_find_box(now.boxes, kind, now.boxes.len());
        assert(now.boxes[link.to as int] == next.boxes[link.to as int]);
        assert(stand_in(scope, value.consumers[c]) == Some(d.boxes[link.to as int].kind));
    }
}

} // verus!
