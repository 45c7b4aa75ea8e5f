//! Where the user is in a model, and how they got there.

use crate::canvas::CanvasEvent;
use crate::chars;
use crate::collect::{self, BoxView, ItemKind, Scope, ScopeView};
use crate::graph::{Graph, GraphView, Model, ModelView};
use crate::hierarchy::{self, GroupId, Hierarchy, HierarchyView, Placement};
use crate::layout::Layout;
use crate::model::{GraphId, NodeId, ValueId};
use crate::overview::Step;
use crate::search::{self, find_nodes};
use vstd::prelude::*;
use vstd::string::*;

verus! {

/// What the details pane is describing.
#[derive(Copy, Clone, PartialEq, Eq, Debug, Structural)]
pub enum Selection {
    Node(NodeId),
    Value(ValueId),
}

/// Identifies one drawing: a graph, and the block within it that is open. A
/// graph laid out at two different levels of its hierarchy is two different
/// drawings.
#[derive(Copy, Clone, PartialEq, Eq, Hash, Debug, Structural)]
pub struct ViewKey {
    pub graph: GraphId,
    pub group: Option<GroupId>,
}

/// A box to bring into view.
#[derive(Copy, Clone, PartialEq, Eq, Debug, Structural)]
pub enum Focus {
    Node(NodeId),
    Group(GroupId),
}

/// How the view of the drawing is to change.
#[derive(Copy, Clone, PartialEq, Eq, Debug, Structural)]
pub struct Motion {
    /// Open the drawing at its entry.
    pub home: bool,
    /// Then bring this box into view, if it is drawn.
    pub focus: Option<Focus>,
}

/// What the details pane shows.
#[derive(Copy, Clone, PartialEq, Eq, Debug, Structural)]
pub enum Pane {
    Node(NodeId),
    Value(ValueId),
    /// The block that is open.
    Block(GroupId),
    /// The graph as a whole.
    Graph,
}

/// What the user did beside the canvas.
#[derive(Copy, Clone, PartialEq, Eq, Debug, Structural)]
pub enum PaneEvent {
    Nothing,
    /// The button that goes back was pressed.
    Back,
    /// The button that clears the selection was pressed.
    Clear,
    /// A link to a node or a value was followed.
    Follow(Selection),
    /// A link to a step of the trail, a subgraph or a block was followed.
    Open(Step),
}

/// Where the user is.
pub struct Navigation {
    /// Graph currently being viewed. Changes when entering a subgraph.
    pub graph: GraphId,
    /// Whether to draw blocks rather than individual operators, where the
    /// current graph's names support it.
    pub grouped: bool,
    /// The block currently open, within the current graph's hierarchy.
    pub scope: GroupId,
    pub selection: Option<Selection>,
    /// What was being looked at before the current selection, most recent last.
    ///
    /// Following a link to a constant leads away from the operator that reads
    /// it, and the constant has no box on the canvas to click back from.
    pub history: Vec<Selection>,
    pub query: String,
    /// Whether the filter's matches are listed in place of the details.
    pub filtering: bool,
    /// Nodes of the current graph matching `query`, in graph order.
    pub matches: Vec<NodeId>,
}

#[verifier::ext_equal]
pub struct NavigationView {
    pub graph: GraphId,
    pub grouped: bool,
    pub scope: GroupId,
    pub selection: Option<Selection>,
    pub history: Seq<Selection>,
    pub query: Seq<char>,
    pub filtering: bool,
    pub matches: Seq<NodeId>,
}

impl View for Navigation {
    type V = NavigationView;

    open spec fn view(&self) -> NavigationView {
        NavigationView {
            graph: self.graph,
            grouped: self.grouped,
            scope: self.scope,
            selection: self.selection,
            history: self.history@,
            query: self.query@,
            filtering: self.filtering,
            matches: self.matches@,
        }
    }
}

/// Open the drawing at its entry.
pub open spec fn to_home() -> Motion {
    Motion { home: true, focus: None }
}

/// Leave the drawing as it is.
pub open spec fn to_nowhere() -> Motion {
    Motion { home: false, focus: None }
}

/// The first of the first `n` boxes that stands for a value.
pub open spec fn first_value_box(boxes: Seq<BoxView>, id: ValueId, n: nat) -> Option<int>
    decreases n,
{
    if n == 0 {
        None
    } else {
        match first_value_box(boxes, id, (n - 1) as nat) {
            Some(i) => Some(i),
            None => if boxes[n - 1].kind == ItemKind::Input(id) || boxes[n - 1].kind
                == ItemKind::Output(id) {
                Some(n - 1)
            } else {
                None
            },
        }
    }
}

impl NavigationView {
    /// The hierarchy in use, if grouping is on and the graph supports it.
    pub open spec fn active(self, hierarchy: Option<HierarchyView>) -> Option<HierarchyView> {
        if self.grouped {
            hierarchy
        } else {
            None
        }
    }

    /// The part of the graph that is drawn.
    pub open spec fn shown(self, hierarchy: Option<HierarchyView>) -> Option<ScopeView> {
        match self.active(hierarchy) {
            Some(hierarchy) => Some(ScopeView { hierarchy, group: self.scope }),
            None => None,
        }
    }

    pub open spec fn key(self, hierarchy: Option<HierarchyView>) -> ViewKey {
        ViewKey {
            graph: self.graph,
            group: match self.active(hierarchy) {
                Some(_) => Some(self.scope),
                None => None,
            },
        }
    }

    /// Nothing is described any more, and the trail is gone with it.
    pub open spec fn cleared(self) -> NavigationView {
        NavigationView { selection: None, history: Seq::empty(), ..self }
    }

    /// The current selection is on the trail, if there is one to return to.
    pub open spec fn remembered(self) -> NavigationView {
        match self.selection {
            Some(current) => if self.history.len() > 0 && self.history.last() == current {
                self
            } else {
                NavigationView { history: self.history.push(current), ..self }
            },
            None => self,
        }
    }

    /// The block that holds a node is open.
    pub open spec fn revealed(self, hierarchy: Option<HierarchyView>, id: NodeId) -> NavigationView {
        match self.active(hierarchy) {
            Some(hierarchy) => NavigationView {
                scope: hierarchy.node_group[id.0 as int],
                ..self
            },
            None => self,
        }
    }

    /// How the view moves to bring a node into view.
    pub open spec fn reveal_motion(self, hierarchy: Option<HierarchyView>, id: NodeId) -> Motion {
        Motion { home: self.revealed(hierarchy, id).scope != self.scope, focus: Some(Focus::Node(id)) }
    }

    /// A node is selected where it is.
    pub open spec fn selecting(self, selection: Selection) -> NavigationView {
        NavigationView { selection: Some(selection), ..self.remembered() }
    }

    /// A link has been followed.
    pub open spec fn gone_to(
        self,
        hierarchy: Option<HierarchyView>,
        target: Selection,
    ) -> NavigationView {
        match target {
            Selection::Node(id) => self.selecting(target).revealed(hierarchy, id),
            Selection::Value(_) => self.selecting(target),
        }
    }

    /// How the view moves when a link is followed.
    pub open spec fn motion_to(self, hierarchy: Option<HierarchyView>, target: Selection) -> Motion {
        match target {
            Selection::Node(id) => self.reveal_motion(hierarchy, id),
            Selection::Value(_) => to_nowhere(),
        }
    }

    /// What was being looked at before is selected again, and gone from the
    /// trail.
    pub open spec fn gone_back(self, hierarchy: Option<HierarchyView>) -> NavigationView {
        if self.history.len() == 0 {
            self
        } else {
            let previous = self.history.last();
            let there = NavigationView {
                selection: Some(previous),
                history: self.history.drop_last(),
                ..self
            };
            match previous {
                Selection::Node(id) => there.revealed(hierarchy, id),
                Selection::Value(_) => there,
            }
        }
    }

    /// A block is open.
    pub open spec fn entered(self, group: GroupId) -> NavigationView {
        NavigationView { scope: group, ..self.cleared() }
    }

    /// Another graph is viewed, from its top level.
    pub open spec fn at_graph(self, model: ModelView, graph: GraphId) -> NavigationView {
        let nodes = model.graphs[graph.0 as int].nodes;
        NavigationView {
            graph,
            scope: GroupId(0),
            matches: search::found_among(nodes, self.query, nodes.len()),
            ..self.cleared()
        }
    }

    /// Another query has been typed.
    pub open spec fn asking(self, model: ModelView, query: Seq<char>) -> NavigationView {
        let nodes = model.graphs[self.graph.0 as int].nodes;
        NavigationView { query, matches: search::found_among(nodes, query, nodes.len()), ..self }
    }

    /// What a click on a box of this kind leads to.
    pub open spec fn clicked(self, kind: ItemKind) -> NavigationView {
        match kind {
            ItemKind::Group(group) => self.entered(group),
            ItemKind::Op(id) => self.selecting(Selection::Node(id)),
            ItemKind::Input(id) => self.selecting(Selection::Value(id)),
            ItemKind::Output(id) => self.selecting(Selection::Value(id)),
        }
    }

    /// What an event on the canvas leads to.
    pub open spec fn after(self, event: CanvasEvent, boxes: Seq<BoxView>) -> NavigationView {
        match event {
            CanvasEvent::Selected(index) => NavigationView {
                filtering: false,
                ..self.clicked(boxes[index as int].kind)
            },
            CanvasEvent::Cleared => NavigationView { filtering: false, ..self.cleared() },
            CanvasEvent::Nothing => self,
        }
    }

    /// What an event beside the canvas leads to.
    pub open spec fn after_pane(
        self,
        event: PaneEvent,
        model: ModelView,
        hierarchy: Option<HierarchyView>,
    ) -> NavigationView {
        match event {
            PaneEvent::Nothing => self,
            PaneEvent::Back => self.gone_back(hierarchy),
            PaneEvent::Clear => self.cleared(),
            PaneEvent::Follow(target) => self.gone_to(hierarchy, target),
            PaneEvent::Open(Step::Graph(graph)) => self.at_graph(model, graph),
            PaneEvent::Open(Step::Group(group)) => self.entered(group),
        }
    }

    /// How the view moves after an event beside the canvas.
    pub open spec fn pane_motion(
        self,
        event: PaneEvent,
        hierarchy: Option<HierarchyView>,
    ) -> Motion {
        match event {
            PaneEvent::Nothing => to_nowhere(),
            PaneEvent::Back => if self.history.len() == 0 {
                to_nowhere()
            } else {
                self.motion_to(hierarchy, self.history.last())
            },
            PaneEvent::Clear => to_nowhere(),
            PaneEvent::Follow(target) => self.motion_to(hierarchy, target),
            PaneEvent::Open(_) => to_home(),
        }
    }

    /// The box that stands for the selection.
    pub open spec fn selected_box(self, boxes: Seq<BoxView>) -> Option<int> {
        match self.selection {
            Some(Selection::Node(id)) => match collect::box_of(boxes, ItemKind::Op(id)) {
                Some(index) => Some(index as int),
                None => None,
            },
            Some(Selection::Value(id)) => first_value_box(boxes, id, boxes.len()),
            None => None,
        }
    }

    /// What the details pane shows.
    pub open spec fn pane(self, hierarchy: Option<HierarchyView>) -> Pane {
        match self.selection {
            Some(Selection::Node(id)) => Pane::Node(id),
            Some(Selection::Value(id)) => Pane::Value(id),
            None => if self.active(hierarchy) is Some && self.scope != GroupId(0) {
                Pane::Block(self.scope)
            } else {
                Pane::Graph
            },
        }
    }

    /// Whether a selection is something in the graph.
    pub open spec fn names(g: GraphView, selection: Selection) -> bool {
        match selection {
            Selection::Node(id) => g.has_node(id),
            Selection::Value(id) => g.has_value(id),
        }
    }

    /// Whether everything that is remembered is there in the model.
    pub open spec fn wf(self, model: ModelView, hierarchy: Option<HierarchyView>) -> bool {
        let g = model.graphs[self.graph.0 as int];
        &&& model.wf()
        &&& model.has_graph(self.graph)
        &&& hierarchy is Some ==> collect::scope_wf(
            Some(ScopeView { hierarchy: hierarchy->0, group: self.scope }),
            g,
        )
        &&& self.selection is Some ==> Self::names(g, self.selection->0)
        &&& forall|i: int|
            0 <= i < self.history.len() ==> Self::names(g, #[trigger] self.history[i])
        &&& forall|i: int| 0 <= i < self.matches.len() ==> g.has_node(#[trigger] self.matches[i])
    }

    /// Whether the trail never goes from a place to itself.
    pub open spec fn trail_moves(self) -> bool {
        forall|i: int, j: int|
            0 <= i && j == i + 1 && j < self.history.len() ==> #[trigger] self.history[i]
                != #[trigger] self.history[j]
    }
}

/// The view of a hierarchy, where there is one.
pub open spec fn opt_hierarchy(hierarchy: Option<&Hierarchy>) -> Option<HierarchyView> {
    match hierarchy {
        Some(hierarchy) => Some(hierarchy@),
        None => None,
    }
}

impl Navigation {
    /// Starts at the main graph, with blocks drawn wherever the names support
    /// it; this is the more useful way to read a large model.
    pub fn new(model: &Model) -> (nav: Navigation)
        requires
            model@.has_graph(model@.root),
        ensures
            nav@ == (NavigationView {
                graph: model@.root,
                grouped: true,
                scope: GroupId(0),
                selection: None,
                history: Seq::empty(),
                query: Seq::empty(),
                filtering: false,
                matches: Seq::empty(),
            }).asking(model@, Seq::empty()),
    {
        let matches: Vec<NodeId> = find_nodes(model.root(), "");
        proof {
            reveal_strlit("");
            assert(""@ =~= Seq::<char>::empty());
            assert(model@.graphs[model@.root.0 as int] == model.graphs@[model.root.0 as int]@);
        }
        Navigation {
            graph: model.root_id(),
            grouped: true,
            scope: GroupId(0),
            selection: None,
            history: Vec::new(),
            query: String::new(),
            filtering: false,
            matches,
        }
    }

    /// The hierarchy in use for the current graph, if grouping is on and the
    /// graph supports it.
    pub fn active_hierarchy<'a>(&self, hierarchy: Option<&'a Hierarchy>) -> (active: Option<
        &'a Hierarchy,
    >)
        ensures
            opt_hierarchy(active) == self@.active(opt_hierarchy(hierarchy)),
            active is Some ==> active == hierarchy,
    {
        if self.grouped {
            hierarchy
        } else {
            None
        }
    }

    /// The part of the current graph that is drawn.
    pub fn shown<'a>(&self, hierarchy: Option<&'a Hierarchy>) -> (scope: Option<Scope<'a>>)
        ensures
            chars::opt_view(scope) == self@.shown(opt_hierarchy(hierarchy)),
    {
        match self.active_hierarchy(hierarchy) {
            Some(hierarchy) => Some(Scope { hierarchy, group: self.scope }),
            None => None,
        }
    }

    pub fn view_key(&self, hierarchy: Option<&Hierarchy>) -> (key: ViewKey)
        ensures
            key == self@.key(opt_hierarchy(hierarchy)),
    {
        ViewKey {
            graph: self.graph,
            group: match self.active_hierarchy(hierarchy) {
                Some(_) => Some(self.scope),
                None => None,
            },
        }
    }

    /// The block that encloses the one that is open, if there is one.
    pub fn parent_group(&self, hierarchy: Option<&Hierarchy>) -> (parent: Option<GroupId>)
        requires
            hierarchy is Some ==> hierarchy->0@.has_group(self.scope),
        ensures
            parent == match self@.active(opt_hierarchy(hierarchy)) {
                Some(hierarchy) => hierarchy.groups[self.scope.0 as int].parent,
                None => None,
            },
    {
        match self.active_hierarchy(hierarchy) {
            Some(hierarchy) => hierarchy.group(self.scope).parent,
            None => None,
        }
    }

    /// Lists the nodes that answer the query.
    pub fn refresh_matches(&mut self, model: &Model)
        requires
            model@.has_graph(old(self).graph),
        ensures
            final(self)@ == old(self)@.asking(model@, old(self)@.query),
    {
        assert(model@.graphs[self.graph.0 as int] == model.graphs@[self.graph.0 as int]@);
        self.matches = find_nodes(model.graph(self.graph), self.query.as_str());
    }

    /// Changes the query, and the matches with it.
    pub fn set_query(&mut self, model: &Model, query: String)
        requires
            model@.has_graph(old(self).graph),
        ensures
            final(self)@ == old(self)@.asking(model@, query@),
    {
        self.query = query;
        self.refresh_matches(model);
    }

    /// Stops describing anything, discarding the trail with it.
    pub fn clear_selection(&mut self)
        ensures
            final(self)@ == old(self)@.cleared(),
    {
        self.selection = None;
        self.history = Vec::new();
    }

    /// Opens a block, so its contents are drawn in place of its box.
    pub fn enter_group(&mut self, group: GroupId) -> (motion: Motion)
        ensures
            final(self)@ == old(self)@.entered(group),
            motion == to_home(),
    {
        self.scope = group;
        self.clear_selection();
        Motion { home: true, focus: None }
    }

    /// Opens the block that encloses the one that is open, looking at the block
    /// just left rather than at the top of an unfamiliar drawing. At the top
    /// level nothing happens.
    pub fn leave_group(&mut self, hierarchy: Option<&Hierarchy>) -> (motion: Motion)
        requires
            hierarchy is Some ==> hierarchy->0@.has_group(old(self).scope),
        ensures
            match old(self)@.active(opt_hierarchy(hierarchy)) {
                Some(h) => match h.groups[old(self).scope.0 as int].parent {
                    Some(parent) => final(self)@ == old(self)@.entered(parent) && motion
                        == (Motion { home: true, focus: Some(Focus::Group(old(self).scope)) }),
                    None => final(self)@ == old(self)@ && motion == to_nowhere(),
                },
                None => final(self)@ == old(self)@ && motion == to_nowhere(),
            },
    {
        match self.parent_group(hierarchy) {
            Some(parent) => {
                let left: GroupId = self.scope;
                let _ = self.enter_group(parent);
                Motion { home: true, focus: Some(Focus::Group(left)) }
            },
            None => Motion { home: false, focus: None },
        }
    }

    /// Turns the drawing of blocks on or off. The drawing changes completely,
    /// so the previous view is no longer meaningful.
    pub fn set_grouped(&mut self, grouped: bool) -> (motion: Motion)
        ensures
            final(self)@ == (NavigationView { grouped, ..old(self)@.entered(GroupId(0)) }),
            motion == to_home(),
    {
        self.grouped = grouped;
        self.enter_group(GroupId(0))
    }

    /// Views another graph.
    pub fn go_to_graph(&mut self, model: &Model, graph: GraphId) -> (motion: Motion)
        requires
            model@.has_graph(graph),
        ensures
            final(self)@ == old(self)@.at_graph(model@, graph),
            motion == to_home(),
    {
        self.graph = graph;
        self.scope = GroupId(0);
        self.clear_selection();
        self.refresh_matches(model);
        Motion { home: true, focus: None }
    }

    /// Pushes the current selection onto the trail, if there is one to return
    /// to.
    fn remember(&mut self)
        ensures
            final(self)@ == old(self)@.remembered(),
    {
        if let Some(current) = self.selection {
            let count: usize = self.history.len();
            if count == 0 || self.history[count - 1] != current {
                self.history.push(current);
            }
        }
    }

    /// Brings a node into view, opening the block holding it if need be.
    fn reveal_node(&mut self, hierarchy: Option<&Hierarchy>, id: NodeId) -> (motion: Motion)
        requires
            hierarchy is Some ==> id.0 < hierarchy->0@.node_group.len(),
        ensures
            final(self)@ == old(self)@.revealed(opt_hierarchy(hierarchy), id),
            motion == old(self)@.reveal_motion(opt_hierarchy(hierarchy), id),
    {
        let mut home: bool = false;
        if let Some(hierarchy) = self.active_hierarchy(hierarchy) {
            let group: GroupId = hierarchy.group_of(id);
            if group != self.scope {
                self.scope = group;
                home = true;
            }
        }
        Motion { home, focus: Some(Focus::Node(id)) }
    }

    /// Selects a node, optionally bringing it into view on the canvas.
    ///
    /// With grouping on, the node may sit inside a block that is not open, so
    /// the view moves to the block that contains it first.
    pub fn select_node(&mut self, hierarchy: Option<&Hierarchy>, id: NodeId, reveal: bool)
        -> (motion: Motion)
        requires
            hierarchy is Some ==> id.0 < hierarchy->0@.node_group.len(),
        ensures
            final(self)@ == if reveal {
                old(self)@.gone_to(opt_hierarchy(hierarchy), Selection::Node(id))
            } else {
                old(self)@.selecting(Selection::Node(id))
            },
            motion == if reveal {
                old(self)@.motion_to(opt_hierarchy(hierarchy), Selection::Node(id))
            } else {
                to_nowhere()
            },
    {
        self.remember();
        self.selection = Some(Selection::Node(id));
        if !reveal {
            return Motion { home: false, focus: None };
        }
        self.reveal_node(hierarchy, id)
    }

    /// Moves to a selection, remembering where it was reached from.
    pub fn go_to(&mut self, hierarchy: Option<&Hierarchy>, target: Selection) -> (motion: Motion)
        requires
            hierarchy is Some && target is Node ==> (target->Node_0).0
                < hierarchy->0@.node_group.len(),
        ensures
            final(self)@ == old(self)@.gone_to(opt_hierarchy(hierarchy), target),
            motion == old(self)@.motion_to(opt_hierarchy(hierarchy), target),
    {
        match target {
            Selection::Node(id) => self.select_node(hierarchy, id, true),
            Selection::Value(_) => {
                self.remember();
                self.selection = Some(target);
                Motion { home: false, focus: None }
            },
        }
    }

    /// Returns to whatever was being looked at before the current selection.
    ///
    /// Nothing is recorded, or going back would push the selection being left
    /// onto the trail and trap the two.
    pub fn go_back(&mut self, hierarchy: Option<&Hierarchy>) -> (motion: Motion)
        requires
            hierarchy is Some && old(self)@.history.len() > 0 && old(self)@.history.last() is Node
                ==> (old(self)@.history.last()->Node_0).0 < hierarchy->0@.node_group.len(),
        ensures
            final(self)@ == old(self)@.gone_back(opt_hierarchy(hierarchy)),
            motion == if old(self)@.history.len() == 0 {
                to_nowhere()
            } else {
                old(self)@.motion_to(opt_hierarchy(hierarchy), old(self)@.history.last())
            },
    {
        match self.history.pop() {
            Some(previous) => {
                self.selection = Some(previous);
                match previous {
                    Selection::Node(id) => self.reveal_node(hierarchy, id),
                    Selection::Value(_) => Motion { home: false, focus: None },
                }
            },
            None => Motion { home: false, focus: None },
        }
    }

    /// Lists the matches in place of the details.
    pub fn open_filter(&mut self)
        ensures
            final(self)@ == (NavigationView { filtering: true, ..old(self)@ }),
    {
        self.filtering = true;
    }

    /// Shows the details again.
    pub fn close_filter(&mut self)
        ensures
            final(self)@ == (NavigationView { filtering: false, ..old(self)@ }),
    {
        self.filtering = false;
    }

    /// Goes to one of the matches, whose details replace the list.
    pub fn choose_match(&mut self, hierarchy: Option<&Hierarchy>, id: NodeId) -> (motion: Motion)
        requires
            hierarchy is Some ==> id.0 < hierarchy->0@.node_group.len(),
        ensures
            final(self)@ == (NavigationView {
                filtering: false,
                ..old(self)@.gone_to(opt_hierarchy(hierarchy), Selection::Node(id))
            }),
            motion == old(self)@.motion_to(opt_hierarchy(hierarchy), Selection::Node(id)),
    {
        let motion: Motion = self.select_node(hierarchy, id, true);
        self.filtering = false;
        motion
    }

    /// Acts on what was done on the canvas.
    ///
    /// Clicking a block opens it, which is the point of grouping. Anything else
    /// that is clicked is already on screen: moving the view would only shift
    /// the graph under the pointer.
    pub fn on_canvas(&mut self, event: CanvasEvent, layout: &Layout) -> (motion: Motion)
        requires
            event is Selected ==> event->Selected_0 < layout.nodes@.len(),
        ensures
            final(self)@ == old(self)@.after(event, layout.boxes()),
            motion == if event is Selected && layout.boxes()[event->Selected_0 as int].kind is Group {
                to_home()
            } else {
                to_nowhere()
            },
    {
        let mut motion: Motion = Motion { home: false, focus: None };
        match event {
            CanvasEvent::Selected(index) => {
                assert(layout.boxes()[index as int] == layout.nodes@[index as int]@);
                match layout.nodes[index].kind {
                    ItemKind::Group(group) => {
                        motion = self.enter_group(group);
                    },
                    ItemKind::Op(id) => {
                        let _ = self.select_node(None, id, false);
                    },
                    ItemKind::Input(id) => {
                        let _ = self.go_to(None, Selection::Value(id));
                    },
                    ItemKind::Output(id) => {
                        let _ = self.go_to(None, Selection::Value(id));
                    },
                }
                self.filtering = false;
            },
            CanvasEvent::Cleared => {
                self.clear_selection();
                self.filtering = false;
            },
            CanvasEvent::Nothing => {},
        }
        motion
    }

    /// Acts on what was done beside the canvas.
    pub fn on_pane(&mut self, event: PaneEvent, model: &Model, hierarchy: Option<&Hierarchy>)
        -> (motion: Motion)
        requires
            event is Back && hierarchy is Some && old(self)@.history.len() > 0
                && old(self)@.history.last() is Node ==> (old(self)@.history.last()->Node_0).0
                < hierarchy->0@.node_group.len(),
            event is Follow && hierarchy is Some && event->Follow_0 is Node
                ==> (event->Follow_0->Node_0).0 < hierarchy->0@.node_group.len(),
            event is Open && event->Open_0 is Graph ==> model@.has_graph(event->Open_0->Graph_0),
        ensures
            final(self)@ == old(self)@.after_pane(event, model@, opt_hierarchy(hierarchy)),
            motion == old(self)@.pane_motion(event, opt_hierarchy(hierarchy)),
    {
        match event {
            PaneEvent::Nothing => Motion { home: false, focus: None },
            PaneEvent::Back => self.go_back(hierarchy),
            PaneEvent::Clear => {
                self.clear_selection();
                Motion { home: false, focus: None }
            },
            PaneEvent::Follow(target) => self.go_to(hierarchy, target),
            PaneEvent::Open(Step::Graph(graph)) => self.go_to_graph(model, graph),
            PaneEvent::Open(Step::Group(group)) => self.enter_group(group),
        }
    }

    /// The box of a drawing that stands for the selection, if there is one.
    pub fn selected_index(&self, layout: &Layout) -> (index: Option<usize>)
        requires
            layout.indexed(),
        ensures
            match self@.selected_box(layout.boxes()) {
                Some(i) => index is Some && index->0 == i,
                None => index is None,
            },
    {
        match self.selection {
            Some(Selection::Node(id)) => layout.node_index(id),
            Some(Selection::Value(id)) => {
                let ghost boxes = layout.boxes();
                for i in 0..layout.nodes.len()
                    invariant
                        self.selection == Some(Selection::Value(id)),
                        boxes == layout.boxes(),
                        first_value_box(boxes, id, i as nat) is None,
                {
                    assert(boxes[i as int] == layout.nodes@[i as int]@);
                    let stands: bool = match layout.nodes[i].kind {
                        ItemKind::Input(v) => v == id,
                        ItemKind::Output(v) => v == id,
                        _ => false,
                    };
                    if stands {
                        proof {
                            assert(first_value_box(boxes, id, i as nat + 1) == Some(i as int));
                            lemma_first_value_box_stays(boxes, id, i as nat + 1, boxes.len());
                        }
                        return Some(i);
                    }
                }
                None
            },
            None => None,
        }
    }

    /// Decides what the details pane shows.
    pub fn pane(&self, hierarchy: Option<&Hierarchy>) -> (pane: Pane)
        ensures
            pane == self@.pane(opt_hierarchy(hierarchy)),
    {
        match self.selection {
            Some(Selection::Node(id)) => Pane::Node(id),
            Some(Selection::Value(id)) => Pane::Value(id),
            None => match self.active_hierarchy(hierarchy) {
                Some(hierarchy) => if self.scope != hierarchy.root() {
                    Pane::Block(self.scope)
                } else {
                    Pane::Graph
                },
                None => Pane::Graph,
            },
        }
    }

    /// What the button that goes back says, if there is anything to go back to.
    ///
    /// It names what it goes back to, since following a chain of links can leave
    /// it far from obvious.
    pub fn back_hint(&self) -> (hint: Option<&'static str>)
        ensures
            match hint {
                Some(hint) => self@.history.len() > 0 && hint@ == match self@.history.last() {
                    Selection::Node(_) => "Back to the operator that led here"@,
                    Selection::Value(_) => "Back to the value that led here"@,
                },
                None => self@.history.len() == 0,
            },
    {
        let count: usize = self.history.len();
        if count == 0 {
            None
        } else {
            match self.history[count - 1] {
                Selection::Node(_) => Some("Back to the operator that led here"),
                Selection::Value(_) => Some("Back to the value that led here"),
            }
        }
    }
}

proof fn lemma_first_value_box_stays(boxes: Seq<BoxView>, id: ValueId, k: nat, n: nat)
    requires
        k <= n,
        first_value_box(boxes, id, k) is Some,
    ensures
        first_value_box(boxes, id, n) == first_value_box(boxes, id, k),
    decreases n,
{
    if k < n {
        lemma_first_value_box_stays(boxes, id, k, (n - 1) as nat);
    }
}

/// Going back after following a link selects again what was selected before,
/// and leaves the trail as it was, or shorter by the place that was already its
/// last.
pub proof fn law_going_back_undoes_a_link(
    nav: NavigationView,
    hierarchy: Option<HierarchyView>,
    target: Selection,
)
    requires
        nav.selection is Some,
    ensures
        nav.gone_to(hierarchy, target).gone_back(hierarchy).selection == nav.selection,
        nav.gone_to(hierarchy, target).gone_back(hierarchy).history == if nav.history.len() > 0
            && nav.history.last() == nav.selection->0 {
            nav.history.drop_last()
        } else {
            nav.history
        },
{
    let current = nav.selection->0;
    if !(nav.history.len() > 0 && nav.history.last() == current) {
        assert(nav.history.push(current).drop_last() =~= nav.history);
    }
}

/// Going back always makes the trail shorter, so that it ends.
pub proof fn law_going_back_ends(nav: NavigationView, hierarchy: Option<HierarchyView>)
    requires
        nav.history.len() > 0,
    ensures
        nav.gone_back(hierarchy).history.len() + 1 == nav.history.len(),
        nav.gone_back(hierarchy).selection == Some(nav.history.last()),
{
}

/// The trail never goes from a place to itself, whatever is followed.
pub proof fn law_trail_moves(
    nav: NavigationView,
    hierarchy: Option<HierarchyView>,
    target: Selection,
)
    requires
        nav.trail_moves(),
    ensures
        nav.gone_to(hierarchy, target).trail_moves(),
        nav.gone_back(hierarchy).trail_moves(),
        nav.cleared().trail_moves(),
{
}

/// A node that is brought into view is directly in the block that is open.
pub proof fn law_revealed_nodes_are_in_the_open_block(
    nav: NavigationView,
    hierarchy: HierarchyView,
    id: NodeId,
)
    requires
        nav.grouped,
        hierarchy.wf(),
        id.0 < hierarchy.node_group.len(),
    ensures
        collect::placement_in(nav.revealed(Some(hierarchy), id).shown(Some(hierarchy)), id)
            == Placement::Direct,
{
}

/// A node that a link leads to is drawn in the view that is then shown, unless
/// it just supplies a constant.
pub proof fn law_a_linked_node_is_drawn(
    nav: NavigationView,
    model: ModelView,
    hierarchy: Option<HierarchyView>,
    id: NodeId,
)
    requires
        nav.wf(model, hierarchy),
        model.graphs[nav.graph.0 as int].has_node(id),
        !model.graphs[nav.graph.0 as int].nodes[id.0 as int].is_constant(),
        collect::drawing(
            model.graphs[nav.graph.0 as int],
            nav.gone_to(hierarchy, Selection::Node(id)).shown(hierarchy),
        ).boxes.len() <= usize::MAX,
    ensures
        nav.gone_to(hierarchy, Selection::Node(id)).selected_box(
            collect::drawing(
                model.graphs[nav.graph.0 as int],
                nav.gone_to(hierarchy, Selection::Node(id)).shown(hierarchy),
            ).boxes,
        ) is Some,
{
    let g = model.graphs[nav.graph.0 as int];
    let there = nav.gone_to(hierarchy, Selection::Node(id));
    let scope = there.shown(hierarchy);
    assert(g.wf());
    if let Some(scope) = scope {
        assert(scope.hierarchy.has_group(scope.hierarchy.node_group[id.0 as int]));
    }
    assert(collect::scope_wf(scope, g));
    assert(collect::placement_in(scope, id) == Placement::Direct);
    collect::law_nodes_are_drawn(g, scope, id);
}

/// Views with the same key draw the same part of the same graph.
pub proof fn law_keys_identify_drawings(
    a: NavigationView,
    b: NavigationView,
    hierarchy: Option<HierarchyView>,
)
    requires
        a.key(hierarchy) == b.key(hierarchy),
    ensures
        a.graph == b.graph,
        a.shown(hierarchy) == b.shown(hierarchy),
{
}

/// Everything that is remembered stays something in the model: when a link to
/// something in the graph is followed, on the way back, when a block is opened,
/// and when another graph is.
pub proof fn law_steps_stay_in_the_model(
    nav: NavigationView,
    model: ModelView,
    hierarchy: Option<HierarchyView>,
    target: Selection,
    group: GroupId,
    graph: GraphId,
    query: Seq<char>,
)
    requires
        nav.wf(model, hierarchy),
        NavigationView::names(model.graphs[nav.graph.0 as int], target),
        hierarchy is Some ==> hierarchy->0.has_group(group),
        model.has_graph(graph),
    ensures
        nav.gone_to(hierarchy, target).wf(model, hierarchy),
        nav.gone_back(hierarchy).wf(model, hierarchy),
        nav.cleared().wf(model, hierarchy),
        nav.entered(group).wf(model, hierarchy),
        nav.asking(model, query).wf(model, hierarchy),
        nav.at_graph(model, graph).wf(model, None),
{
    let g = model.graphs[nav.graph.0 as int];
    assert(g.wf());
    assert(model.graphs[graph.0 as int].wf());
    let there = nav.gone_to(hierarchy, target);
    if let Some(h) = hierarchy {
        if let Selection::Node(id) = target {
            assert(h.has_group(h.node_group[id.0 as int]));
        }
        if nav.history.len() > 0 {
            let last = nav.history[nav.history.len() - 1];
            assert(NavigationView::names(g, last));
            if let Selection::Node(id) = last {
                assert(h.has_group(h.node_group[id.0 as int]));
            }
        }
    }
    assert forall|i: int| 0 <= i < there.history.len() implies NavigationView::names(
        g,
        #[trigger] there.history[i],
    ) by {
        if i < nav.history.len() {
            assert(there.history[i] == nav.history[i]);
        }
    }
    assert forall|i: int| 0 <= i < nav.gone_back(hierarchy).history.len() implies NavigationView::names(
        g,
        #[trigger] nav.gone_back(hierarchy).history[i],
    ) by {
        assert(nav.gone_back(hierarchy).history[i] == nav.history[i]);
    }
    search::lemma_matches_are_nodes(g, query, g.nodes.len());
    let other = model.graphs[graph.0 as int];
    search::lemma_matches_are_nodes(other, nav.query, other.nodes.len());
}

} // verus!
