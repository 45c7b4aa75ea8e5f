//! What each step of the user changes, and what it leaves alone.

use crate::canvas::CanvasEvent;
use crate::collect::{BoxView, ItemKind};
use crate::graph::ModelView;
use crate::hierarchy::{GroupId, HierarchyView};
use crate::model::{GraphId, ValueId};
use crate::navigation::{self, Focus, NavigationView, Pane, PaneEvent, Selection};
use crate::overview::Step;
use crate::search;
use vstd::prelude::*;

verus! {

/// Whether two states show the same graph in the same way and ask the same
/// question of it.
pub open spec fn same_view(a: NavigationView, b: NavigationView) -> bool {
    &&& a.graph == b.graph
    &&& a.grouped == b.grouped
    &&& a.query == b.query
    &&& a.filtering == b.filtering
    &&& a.matches == b.matches
}

/// The block that is open once a selection is brought into view: that of a node,
/// where blocks are drawn, and the one that was open otherwise.
pub open spec fn open_for(
    nav: NavigationView,
    hierarchy: Option<HierarchyView>,
    target: Selection,
) -> GroupId {
    match (target, hierarchy) {
        (Selection::Node(id), Some(h)) => if nav.grouped {
            h.node_group[id.0 as int]
        } else {
            nav.scope
        },
        _ => nav.scope,
    }
}

/// Following a link selects its target, opens the block that holds it, and puts
/// what was selected before on the trail unless it is its last place already.
pub proof fn law_following_a_link(
    nav: NavigationView,
    hierarchy: Option<HierarchyView>,
    target: Selection,
)
    ensures
        ({
            let then = nav.gone_to(hierarchy, target);
            &&& then.selection == Some(target)
            &&& same_view(nav, then)
            &&& then.scope == open_for(nav, hierarchy, target)
            &&& nav.selection is None ==> then.history == nav.history
            &&& nav.selection is Some && nav.history.len() > 0 && nav.history.last()
                == nav.selection->0 ==> then.history == nav.history
            &&& nav.selection is Some && (nav.history.len() == 0 || nav.history.last()
                != nav.selection->0) ==> then.history == nav.history.push(nav.selection->0)
        }),
{
}

/// Going back selects the last place of the trail, takes it off, and opens the
/// block that holds it. Without a trail nothing changes.
pub proof fn law_going_back(nav: NavigationView, hierarchy: Option<HierarchyView>)
    ensures
        ({
            let then = nav.gone_back(hierarchy);
            &&& same_view(nav, then)
            &&& nav.history.len() == 0 ==> then == nav
            &&& nav.history.len() > 0 ==> {
                &&& then.selection == Some(nav.history.last())
                &&& then.history == nav.history.drop_last()
                &&& then.scope == open_for(nav, hierarchy, nav.history.last())
            }
        }),
{
}

/// Clearing leaves nothing selected and no trail, and the view as it is.
pub proof fn law_clearing(nav: NavigationView)
    ensures
        nav.cleared().selection is None,
        nav.cleared().history.len() == 0,
        nav.cleared().scope == nav.scope,
        same_view(nav, nav.cleared()),
{
}

/// Opening a block clears the selection and the trail, and stays in the graph.
pub proof fn law_opening_a_block(nav: NavigationView, group: GroupId)
    ensures
        nav.entered(group).scope == group,
        nav.entered(group).selection is None,
        nav.entered(group).history.len() == 0,
        same_view(nav, nav.entered(group)),
{
}

/// Going to another graph shows it from its top level, with nothing selected,
/// and asks the same question of it.
pub proof fn law_going_to_a_graph(nav: NavigationView, model: ModelView, graph: GraphId)
    ensures
        ({
            let then = nav.at_graph(model, graph);
            let nodes = model.graphs[graph.0 as int].nodes;
            &&& then.graph == graph
            &&& then.scope.0 == 0
            &&& then.selection is None
            &&& then.history.len() == 0
            &&& then.grouped == nav.grouped
            &&& then.query == nav.query
            &&& then.filtering == nav.filtering
            &&& then.matches == search::found_among(nodes, nav.query, nodes.len())
        }),
{
}

/// Another question changes what matches, in the graph that is shown, and
/// nothing else.
pub proof fn law_asking(nav: NavigationView, model: ModelView, query: Seq<char>)
    ensures
        ({
            let then = nav.asking(model, query);
            let nodes = model.graphs[nav.graph.0 as int].nodes;
            &&& then.query == query
            &&& then.matches == search::found_among(nodes, query, nodes.len())
            &&& then.graph == nav.graph
            &&& then.grouped == nav.grouped
            &&& then.scope == nav.scope
            &&& then.selection == nav.selection
            &&& then.history == nav.history
            &&& then.filtering == nav.filtering
        }),
{
}

/// A click selects the operator or the value that a box stands for, and opens a
/// block. A click beside all boxes clears the selection. Either way the details
/// are shown again.
pub proof fn law_clicking(nav: NavigationView, boxes: Seq<BoxView>, index: usize)
    ensures
        ({
            let then = nav.after(CanvasEvent::Selected(index), boxes);
            let beside = nav.after(CanvasEvent::Cleared, boxes);
            &&& !then.filtering
            &&& then.graph == nav.graph
            &&& then.query == nav.query
            &&& then.matches == nav.matches
            &&& then.grouped == nav.grouped
            &&& match boxes[index as int].kind {
                ItemKind::Op(id) => then.selection == Some(Selection::Node(id)) && then.scope
                    == nav.scope,
                ItemKind::Input(id) => then.selection == Some(Selection::Value(id)) && then.scope
                    == nav.scope,
                ItemKind::Output(id) => then.selection == Some(Selection::Value(id)) && then.scope
                    == nav.scope,
                ItemKind::Group(group) => then.selection is None && then.scope == group
                    && then.history.len() == 0,
            }
            &&& !(boxes[index as int].kind is Group) ==> then.history == (if nav.selection is None
                || (nav.history.len() > 0 && nav.history.last() == nav.selection->0) {
                nav.history
            } else {
                nav.history.push(nav.selection->0)
            })
            &&& !beside.filtering
            &&& beside.selection is None
            &&& beside.history.len() == 0
            &&& beside.scope == nav.scope
            &&& beside.graph == nav.graph
            &&& nav.after(CanvasEvent::Nothing, boxes) == nav
        }),
{
}

/// The buttons and links beside the canvas do what they say: go back, clear,
/// follow, or open a graph or a block.
pub proof fn law_pane_events(
    nav: NavigationView,
    model: ModelView,
    hierarchy: Option<HierarchyView>,
    target: Selection,
    graph: GraphId,
    group: GroupId,
)
    ensures
        nav.after_pane(PaneEvent::Nothing, model, hierarchy) == nav,
        nav.after_pane(PaneEvent::Back, model, hierarchy) == nav.gone_back(hierarchy),
        nav.after_pane(PaneEvent::Clear, model, hierarchy) == nav.cleared(),
        nav.after_pane(PaneEvent::Follow(target), model, hierarchy) == nav.gone_to(
            hierarchy,
            target,
        ),
        nav.after_pane(PaneEvent::Open(Step::Graph(graph)), model, hierarchy) == nav.at_graph(
            model,
            graph,
        ),
        nav.after_pane(PaneEvent::Open(Step::Group(group)), model, hierarchy) == nav.entered(group),
{
}

/// The drawing is opened at its entry whenever another part of the model is
/// shown. A node that is gone to is brought into view, and nothing else moves
/// the drawing.
pub proof fn law_motions(
    nav: NavigationView,
    model: ModelView,
    hierarchy: Option<HierarchyView>,
    event: PaneEvent,
)
    ensures
        ({
            let motion = nav.pane_motion(event, hierarchy);
            let then = nav.after_pane(event, model, hierarchy);
            let moved = event is Follow || (event is Back && nav.history.len() > 0);
            &&& event is Open ==> motion.home && motion.focus is None
            &&& event is Nothing || event is Clear || (event is Back && nav.history.len() == 0)
                ==> !motion.home && motion.focus is None
            &&& moved ==> {
                &&& motion.home <==> then.scope != nav.scope
                &&& match then.selection {
                    Some(Selection::Node(id)) => motion.focus == Some(Focus::Node(id)),
                    _ => motion.focus is None,
                }
            }
        }),
{
}

/// The pane describes what is selected; where nothing is, the block that is
/// open, and the graph where none is.
pub proof fn law_pane_contents(nav: NavigationView, hierarchy: Option<HierarchyView>)
    ensures
        ({
            let pane = nav.pane(hierarchy);
            let in_block = nav.grouped && hierarchy is Some && nav.scope.0 != 0;
            &&& match nav.selection {
                Some(Selection::Node(id)) => pane == Pane::Node(id),
                Some(Selection::Value(id)) => pane == Pane::Value(id),
                None => if in_block {
                    pane == Pane::Block(nav.scope)
                } else {
                    pane == Pane::Graph
                },
            }
        }),
{
}

/// A part of a graph is drawn where blocks are, and its key names it.
pub proof fn law_views_and_keys(nav: NavigationView, hierarchy: Option<HierarchyView>)
    ensures
        ({
            let blocks = nav.grouped && hierarchy is Some;
            &&& nav.shown(hierarchy) is Some <==> blocks
            &&& blocks ==> nav.shown(hierarchy)->0.group == nav.scope && nav.shown(
                hierarchy,
            )->0.hierarchy == hierarchy->0
            &&& nav.key(hierarchy).graph == nav.graph
            &&& blocks ==> nav.key(hierarchy).group == Some(nav.scope)
            &&& !blocks ==> nav.key(hierarchy).group is None
        }),
{
}

/// The box of a value is the first that stands for it, as an input or an output.
pub proof fn law_value_boxes_are_found(boxes: Seq<BoxView>, id: ValueId, n: nat)
    requires
        n <= boxes.len(),
    ensures
        match navigation::first_value_box(boxes, id, n) {
            Some(i) => {
                &&& 0 <= i < n
                &&& boxes[i].kind == ItemKind::Input(id) || boxes[i].kind == ItemKind::Output(id)
                &&& forall|k: int|
                    0 <= k < i ==> (#[trigger] boxes[k]).kind != ItemKind::Input(id)
                        && boxes[k].kind != ItemKind::Output(id)
            },
            None => forall|k: int|
                0 <= k < n ==> (#[trigger] boxes[k]).kind != ItemKind::Input(id) && boxes[k].kind
                    != ItemKind::Output(id),
        },
    decreases n,
{
    if n > 0 {
        law_value_boxes_are_found(boxes, id, (n - 1) as nat);
    }
}

} // verus!
