//! Grouping of graph nodes by the structure implied by their names.
//!
//! Exporters commonly name nodes after the module that produced them, written
//! like a path: `/layers.1/attn/MatMul` comes from the `attn` submodule of
//! `layers.1`. The last segment names the operator itself; everything before it
//! describes where the operator sits in the model.
//!
//! Recovering that tree gives a way to read a large model at the level of
//! blocks rather than individual operators. Not every model is named this way,
//! so [`Hierarchy::build`] returns `None` when the names carry no usable
//! structure and the graph should be shown as plain operators instead.

use crate::chars::{self, chars_of, split, string_of};
use crate::graph::Graph;
use crate::model::{NodeId, NodeView};
use vstd::prelude::*;
use vstd::string::*;

verus! {

/// Index of a [`Group`] within a [`Hierarchy`].
#[derive(Copy, Clone, PartialEq, Eq, Hash, PartialOrd, Ord, Debug, Structural)]
pub struct GroupId(pub u32);

pub struct Group {
    pub parent: Option<GroupId>,
    /// This group's own path segment, eg. `attn`. Empty for the root.
    pub name: String,
    /// Full path, eg. `/layers.1/attn`. Empty for the root.
    pub path: String,
    pub children: Vec<GroupId>,
    /// Nodes belonging to this group but not to any of its children.
    pub nodes: Vec<NodeId>,
    /// Nodes in this group and all of its descendants.
    pub total_nodes: usize,
    pub depth: usize,
}

#[verifier::ext_equal]
pub struct GroupView {
    pub parent: Option<GroupId>,
    pub name: Seq<char>,
    pub path: Seq<char>,
    pub children: Seq<GroupId>,
    pub nodes: Seq<NodeId>,
    pub total_nodes: nat,
    pub depth: nat,
}

impl View for Group {
    type V = GroupView;

    open spec fn view(&self) -> GroupView {
        GroupView {
            parent: self.parent,
            name: self.name@,
            path: self.path@,
            children: self.children@,
            nodes: self.nodes@,
            total_nodes: self.total_nodes as nat,
            depth: self.depth as nat,
        }
    }
}

/// The tree of groups.
pub struct Hierarchy {
    pub groups: Vec<Group>,
    /// The group directly containing each node, indexed by node index.
    pub node_group: Vec<GroupId>,
}

#[verifier::ext_equal]
pub struct HierarchyView {
    pub groups: Seq<GroupView>,
    pub node_group: Seq<GroupId>,
}

impl View for Hierarchy {
    type V = HierarchyView;

    open spec fn view(&self) -> HierarchyView {
        HierarchyView { groups: chars::views(self.groups@), node_group: self.node_group@ }
    }
}

/// Where a node sits relative to some scope.
#[derive(Copy, Clone, PartialEq, Eq, Debug, Structural)]
pub enum Placement {
    /// Directly inside the scope, so it is drawn as an operator.
    Direct,
    /// Inside this child group of the scope, which stands in for it.
    Within(GroupId),
    /// Not underneath the scope at all.
    Outside,
}

/// The pieces that are not empty, among the first `n`.
pub open spec fn non_empty(pieces: Seq<Seq<char>>, n: nat) -> Seq<Seq<char>>
    decreases n,
{
    if n == 0 {
        Seq::empty()
    } else {
        let before = non_empty(pieces, (n - 1) as nat);
        if pieces[n - 1].len() > 0 {
            before.push(pieces[n - 1])
        } else {
            before
        }
    }
}

/// The module path leading up to a name: its segments but for the last, which
/// names the operator.
pub open spec fn path_segments(name: Seq<char>) -> Seq<Seq<char>> {
    let pieces = chars::split_on(name, '/');
    non_empty(pieces, (pieces.len() - 1) as nat)
}

/// Splits a node name into the module path leading up to it.
///
/// The final segment names the operator rather than a module, so it is dropped:
/// `/layers.1/attn/MatMul` describes the module path `layers.1/attn`.
pub fn module_segments(name: &str) -> (segments: Vec<String>)
    ensures
        chars::views(segments@) == path_segments(name@),
{
    let text: Vec<char> = chars_of(name);
    let pieces: Vec<Vec<char>> = split(&text, '/');
    let ghost views = chars::pieces_view(pieces@);
    proof {
        chars::lemma_split_is_not_empty(name@, '/');
    }
    let mut segments: Vec<String> = Vec::new();
    assert(chars::views(segments@) =~= non_empty(views, 0));
    for i in 0..pieces.len() - 1
        invariant
            pieces@.len() > 0,
            views == chars::pieces_view(pieces@),
            chars::views(segments@) == non_empty(views, i as nat),
    {
        let ghost held = segments@;
        if pieces[i].len() > 0 {
            let segment: String = string_of(&pieces[i]);
            segments.push(segment);
            assert(chars::views(segments@) =~= chars::views(held).push(views[i as int]));
        }
    }
    segments
}

/// The module path of a node.
pub open spec fn segments_of(node: NodeView) -> Seq<Seq<char>> {
    path_segments(node.name)
}

/// Whether a path leads to or through `prefix`.
pub open spec fn leads_through(path: Seq<Seq<char>>, prefix: Seq<Seq<char>>) -> bool {
    prefix.len() <= path.len() && path.take(prefix.len() as int) == prefix
}

/// `paths` followed by those of the first `m` beginnings of `path` that are not
/// among them.
pub open spec fn with_beginnings(
    paths: Seq<Seq<Seq<char>>>,
    path: Seq<Seq<char>>,
    m: nat,
) -> Seq<Seq<Seq<char>>>
    decreases m,
{
    if m == 0 {
        paths
    } else {
        let before = with_beginnings(paths, path, (m - 1) as nat);
        if before.contains(path.take(m as int)) {
            before
        } else {
            before.push(path.take(m as int))
        }
    }
}

/// The paths of the groups: that of the root, and every beginning of the module
/// path of one of the first `n` nodes, in the order in which they appear.
pub open spec fn group_paths(nodes: Seq<NodeView>, n: nat) -> Seq<Seq<Seq<char>>>
    decreases n,
{
    if n == 0 {
        seq![Seq::<Seq<char>>::empty()]
    } else {
        let path = segments_of(nodes[n - 1]);
        with_beginnings(group_paths(nodes, (n - 1) as nat), path, path.len())
    }
}

/// The groups among the first `n` whose paths are one segment longer than
/// `path`.
pub open spec fn children_of(
    paths: Seq<Seq<Seq<char>>>,
    path: Seq<Seq<char>>,
    n: nat,
) -> Seq<GroupId>
    decreases n,
{
    if n == 0 {
        Seq::empty()
    } else {
        let before = children_of(paths, path, (n - 1) as nat);
        if paths[n - 1].len() > 0 && paths[n - 1].drop_last() == path {
            before.push(GroupId((n - 1) as u32))
        } else {
            before
        }
    }
}

/// Those of the first `n` nodes whose module path is `path`.
pub open spec fn members_of(nodes: Seq<NodeView>, path: Seq<Seq<char>>, n: nat) -> Seq<NodeId>
    decreases n,
{
    if n == 0 {
        Seq::empty()
    } else {
        let before = members_of(nodes, path, (n - 1) as nat);
        if segments_of(nodes[n - 1]) == path {
            before.push(nodes[n - 1].id)
        } else {
            before
        }
    }
}

/// How many of the first `n` nodes have a module path that leads to or through
/// `path`.
pub open spec fn count_below(nodes: Seq<NodeView>, path: Seq<Seq<char>>, n: nat) -> nat
    decreases n,
{
    if n == 0 {
        0
    } else {
        count_below(nodes, path, (n - 1) as nat) + if leads_through(
            segments_of(nodes[n - 1]),
            path,
        ) {
            1nat
        } else {
            0
        }
    }
}

/// A path as text, eg. `/layers.1/attn`.
pub open spec fn path_text(path: Seq<Seq<char>>) -> Seq<char>
    decreases path.len(),
{
    if path.len() == 0 {
        Seq::empty()
    } else {
        path_text(path.drop_last()) + "/"@ + path.last()
    }
}

/// The group that stands at `i`, with `total` nodes in it and below.
pub open spec fn group_model(
    nodes: Seq<NodeView>,
    n: nat,
    paths: Seq<Seq<Seq<char>>>,
    i: int,
    total: nat,
) -> GroupView {
    let path = paths[i];
    GroupView {
        parent: if path.len() == 0 {
            None
        } else {
            Some(GroupId(paths.index_of(path.drop_last()) as u32))
        },
        name: if path.len() == 0 {
            Seq::empty()
        } else {
            path.last()
        },
        path: path_text(path),
        children: children_of(paths, path, paths.len()),
        nodes: members_of(nodes, path, n),
        total_nodes: total,
        depth: path.len(),
    }
}

/// The groups of a graph with these nodes: one for the root and one for every
/// beginning of a module path, each with all the nodes below it counted.
pub open spec fn groups_model(nodes: Seq<NodeView>) -> Seq<GroupView> {
    let paths = group_paths(nodes, nodes.len());
    Seq::new(
        paths.len(),
        |i: int|
            group_model(
                nodes,
                nodes.len(),
                paths,
                i,
                count_below(nodes, paths[i], nodes.len()),
            ),
    )
}

/// The group that directly contains each node.
pub open spec fn node_groups_model(nodes: Seq<NodeView>) -> Seq<GroupId> {
    let paths = group_paths(nodes, nodes.len());
    Seq::new(
        nodes.len(),
        |i: int| GroupId(paths.index_of(segments_of(nodes[i])) as u32),
    )
}

/// The hierarchy of a graph with these nodes.
pub open spec fn hierarchy_model(nodes: Seq<NodeView>) -> HierarchyView {
    HierarchyView { groups: groups_model(nodes), node_group: node_groups_model(nodes) }
}

/// How many of the first `n` nodes are named by the model.
pub open spec fn named_count(nodes: Seq<NodeView>, n: nat) -> nat
    decreases n,
{
    if n == 0 {
        0
    } else {
        named_count(nodes, (n - 1) as nat) + if nodes[n - 1].named {
            1nat
        } else {
            0
        }
    }
}

/// How many of the first `n` nodes are named by the model with a module path.
pub open spec fn path_count(nodes: Seq<NodeView>, n: nat) -> nat
    decreases n,
{
    if n == 0 {
        0
    } else {
        path_count(nodes, (n - 1) as nat) + if nodes[n - 1].named && segments_of(
            nodes[n - 1],
        ).len() > 0 {
            1nat
        } else {
            0
        }
    }
}

/// Whether the names carry usable structure: there is a group beside the root,
/// and at least three in ten of the named nodes have a module path.
pub open spec fn has_structure(nodes: Seq<NodeView>) -> bool {
    let named = named_count(nodes, nodes.len());
    &&& named > 0
    &&& group_paths(nodes, nodes.len()).len() >= 2
    &&& 10 * path_count(nodes, nodes.len()) >= 3 * named
}

/// Whether the groups can be numbered in 32 bits.
pub open spec fn groups_fit(nodes: Seq<NodeView>) -> bool {
    group_paths(nodes, nodes.len()).len() <= u32::MAX
}

/// Paths that are those of a tree: the root first, no path twice, and every
/// other path behind the one that it extends.
pub open spec fn paths_wf(paths: Seq<Seq<Seq<char>>>) -> bool {
    &&& paths.len() > 0
    &&& paths[0].len() == 0
    &&& paths.no_duplicates()
    &&& forall|i: int| 0 < i < paths.len() ==> extends_earlier(paths, i, #[trigger] paths[i])
}

/// Whether `path` is one segment longer than one of the first `i` paths.
pub open spec fn extends_earlier(paths: Seq<Seq<Seq<char>>>, i: int, path: Seq<Seq<char>>) -> bool {
    path.len() > 0 && exists|j: int| 0 <= j < i && #[trigger] paths[j] == path.drop_last()
}

pub(crate) open spec fn extended(more: Seq<Seq<Seq<char>>>, paths: Seq<Seq<Seq<char>>>) -> bool {
    &&& paths.len() <= more.len()
    &&& forall|i: int| 0 <= i < paths.len() ==> #[trigger] more[i] == paths[i]
}

/// A path that is added behind the one that it extends keeps the paths those of
/// a tree.
proof fn lemma_add_path(paths: Seq<Seq<Seq<char>>>, path: Seq<Seq<char>>)
    requires
        paths_wf(paths),
        path.len() > 0,
        paths.contains(path.drop_last()),
        !paths.contains(path),
    ensures
        paths_wf(paths.push(path)),
{
    let more = paths.push(path);
    assert forall|i: int| 0 < i < more.len() implies extends_earlier(
        more,
        i,
        #[trigger] more[i],
    ) by {
        if i < paths.len() {
            assert(more[i] == paths[i]);
            assert(extends_earlier(paths, i, paths[i]));
            let j = choose|j: int| 0 <= j < i && #[trigger] paths[j] == paths[i].drop_last();
            assert(more[j] == paths[j]);
        } else {
            let j = paths.index_of(path.drop_last());
            assert(paths[j] == path.drop_last());
            assert(more[j] == paths[j]);
        }
    }
}

pub(crate) proof fn lemma_with_beginnings(paths: Seq<Seq<Seq<char>>>, path: Seq<Seq<char>>, m: nat)
    requires
        paths_wf(paths),
        m <= path.len(),
    ensures
        paths_wf(with_beginnings(paths, path, m)),
        extended(with_beginnings(paths, path, m), paths),
        forall|k: int|
            0 <= k <= m ==> with_beginnings(paths, path, m).contains(#[trigger] path.take(k)),
    decreases m,
{
    let after = with_beginnings(paths, path, m);
    if m == 0 {
        assert(path.take(0) =~= paths[0]);
    } else {
        let before = with_beginnings(paths, path, (m - 1) as nat);
        lemma_with_beginnings(paths, path, (m - 1) as nat);
        assert(path.take(m as int).drop_last() =~= path.take(m - 1));
        if !before.contains(path.take(m as int)) {
            lemma_add_path(before, path.take(m as int));
        }
        assert forall|k: int| 0 <= k <= m implies after.contains(#[trigger] path.take(k)) by {
            if k < m {
                assert(before.contains(path.take(k)));
                let at = before.index_of(path.take(k));
                assert(after[at] == path.take(k));
            } else if !before.contains(path.take(m as int)) {
                assert(after[before.len() as int] == path.take(m as int));
            }
        }
    }
}

/// The paths of the groups are those of a tree, and hold the module path of
/// every node.
pub(crate) proof fn lemma_group_paths(nodes: Seq<NodeView>, n: nat)
    requires
        n <= nodes.len(),
    ensures
        paths_wf(group_paths(nodes, n)),
        forall|i: int|
            0 <= i < n ==> group_paths(nodes, n).contains(segments_of(#[trigger] nodes[i])),
    decreases n,
{
    if n > 0 {
        let before = group_paths(nodes, (n - 1) as nat);
        let after = group_paths(nodes, n);
        let path = segments_of(nodes[n - 1]);
        lemma_group_paths(nodes, (n - 1) as nat);
        lemma_with_beginnings(before, path, path.len());
        assert(path.take(path.len() as int) =~= path);
        assert forall|i: int| 0 <= i < n implies after.contains(
            segments_of(#[trigger] nodes[i]),
        ) by {
            if i < n - 1 {
                let at = before.index_of(segments_of(nodes[i]));
                assert(before.contains(segments_of(nodes[i])));
                assert(after[at] == segments_of(nodes[i]));
            }
        }
    } else {
        assert(group_paths(nodes, 0)[0].len() == 0);
    }
}

pub(crate) proof fn lemma_group_paths_extend(nodes: Seq<NodeView>, k: nat, n: nat)
    requires
        k <= n <= nodes.len(),
    ensures
        extended(group_paths(nodes, n), group_paths(nodes, k)),
    decreases n,
{
    if k < n {
        lemma_group_paths_extend(nodes, k, (n - 1) as nat);
        lemma_group_paths(nodes, (n - 1) as nat);
        let path = segments_of(nodes[n - 1]);
        lemma_with_beginnings(group_paths(nodes, (n - 1) as nat), path, path.len());
    }
}

/// Where a path stands does not change as more are added.
pub(crate) proof fn lemma_place_stays(
    more: Seq<Seq<Seq<char>>>,
    paths: Seq<Seq<Seq<char>>>,
    path: Seq<Seq<char>>,
)
    requires
        extended(more, paths),
        paths_wf(more),
        paths.contains(path),
    ensures
        more.contains(path),
        more.index_of(path) == paths.index_of(path),
{
    let at = paths.index_of(path);
    assert(paths[at] == path);
    assert(more[at] == path);
    assert(more.contains(path));
    assert(more[more.index_of(path)] == path);
}

proof fn lemma_children_stay(
    more: Seq<Seq<Seq<char>>>,
    paths: Seq<Seq<Seq<char>>>,
    path: Seq<Seq<char>>,
    n: nat,
)
    requires
        extended(more, paths),
        n <= paths.len(),
    ensures
        children_of(more, path, n) == children_of(paths, path, n),
    decreases n,
{
    if n > 0 {
        lemma_children_stay(more, paths, path, (n - 1) as nat);
    }
}

/// What the children of a group are: the groups whose paths extend its own.
pub(crate) proof fn lemma_children(paths: Seq<Seq<Seq<char>>>, path: Seq<Seq<char>>, n: nat)
    requires
        n <= paths.len() <= u32::MAX,
    ensures
        forall|k: int|
            0 <= k < children_of(paths, path, n).len() ==> {
                let child = (#[trigger] children_of(paths, path, n)[k]).0 as int;
                &&& 0 <= child < n
                &&& paths[child].len() > 0
                &&& paths[child].drop_last() == path
            },
        forall|i: int|
            0 <= i < n && (#[trigger] paths[i]).len() > 0 && paths[i].drop_last() == path
                ==> children_of(paths, path, n).contains(GroupId(i as u32)),
    decreases n,
{
    if n > 0 {
        lemma_children(paths, path, (n - 1) as nat);
        let before = children_of(paths, path, (n - 1) as nat);
        let after = children_of(paths, path, n);
        assert forall|i: int|
            0 <= i < n && (#[trigger] paths[i]).len() > 0 && paths[i].drop_last()
                == path implies after.contains(GroupId(i as u32)) by {
            if i < n - 1 {
                let at = before.index_of(GroupId(i as u32));
                assert(before.contains(GroupId(i as u32)));
                assert(after[at] == GroupId(i as u32));
            } else {
                assert(after[before.len() as int] == GroupId(i as u32));
            }
        }
    }
}

/// Whether the module paths of the first `n` nodes are all among the paths.
spec fn paths_hold(paths: Seq<Seq<Seq<char>>>, nodes: Seq<NodeView>, n: nat) -> bool {
    forall|i: int| 0 <= i < n ==> paths.contains(segments_of(#[trigger] nodes[i]))
}

/// Whether the groups are those with these paths, holding the first `n` nodes,
/// with the totals still to be counted.
spec fn drafted(
    groups: Seq<Group>,
    nodes: Seq<NodeView>,
    n: nat,
    paths: Seq<Seq<Seq<char>>>,
) -> bool {
    &&& groups.len() == paths.len()
    &&& forall|g: int|
        0 <= g < groups.len() ==> (#[trigger] groups[g])@ == group_model(nodes, n, paths, g, 0)
}

proof fn lemma_no_members(nodes: Seq<NodeView>, path: Seq<Seq<char>>, n: nat)
    requires
        forall|i: int| 0 <= i < n ==> segments_of(#[trigger] nodes[i]) != path,
    ensures
        members_of(nodes, path, n).len() == 0,
    decreases n,
{
    if n > 0 {
        lemma_no_members(nodes, path, (n - 1) as nat);
    }
}

proof fn lemma_no_children(paths: Seq<Seq<Seq<char>>>, path: Seq<Seq<char>>, n: nat)
    requires
        forall|i: int|
            0 <= i < n ==> !((#[trigger] paths[i]).len() > 0 && paths[i].drop_last() == path),
    ensures
        children_of(paths, path, n).len() == 0,
    decreases n,
{
    if n > 0 {
        lemma_no_children(paths, path, (n - 1) as nat);
    }
}

/// What a group becomes as a path is added.
proof fn lemma_group_gains(
    nodes: Seq<NodeView>,
    n: nat,
    paths: Seq<Seq<Seq<char>>>,
    path: Seq<Seq<char>>,
    g: int,
)
    requires
        paths_wf(paths),
        path.len() > 0,
        paths.contains(path.drop_last()),
        !paths.contains(path),
        0 <= g < paths.len(),
    ensures
        ({
            let before = group_model(nodes, n, paths, g, 0);
            let after = group_model(nodes, n, paths.push(path), g, 0);
            after == GroupView {
                children: if paths[g] == path.drop_last() {
                    before.children.push(GroupId(paths.len() as u32))
                } else {
                    before.children
                },
                ..before
            }
        }),
{
    let more = paths.push(path);
    lemma_add_path(paths, path);
    assert(extended(more, paths));
    assert(more[g] == paths[g]);
    lemma_children_stay(more, paths, paths[g], paths.len());
    if paths[g].len() > 0 {
        assert(extends_earlier(paths, g, paths[g]));
        let j = choose|j: int| 0 <= j < g && #[trigger] paths[j] == paths[g].drop_last();
        assert(paths.contains(paths[g].drop_last()));
        lemma_place_stays(more, paths, paths[g].drop_last());
    }
}

/// What the group of a path is as it is added.
proof fn lemma_group_starts(
    nodes: Seq<NodeView>,
    n: nat,
    paths: Seq<Seq<Seq<char>>>,
    path: Seq<Seq<char>>,
    parent: int,
)
    requires
        paths_wf(paths),
        paths_hold(paths, nodes, n),
        path.len() > 0,
        0 <= parent < paths.len(),
        paths[parent] == path.drop_last(),
        !paths.contains(path),
    ensures
        group_model(nodes, n, paths.push(path), paths.len() as int, 0) == (GroupView {
            parent: Some(GroupId(parent as u32)),
            name: path.last(),
            path: path_text(path.drop_last()) + "/"@ + path.last(),
            children: Seq::empty(),
            nodes: Seq::empty(),
            total_nodes: 0,
            depth: path.len(),
        }),
{
    let more = paths.push(path);
    lemma_add_path(paths, path);
    let model = group_model(nodes, n, more, paths.len() as int, 0);
    assert(more[parent] == paths[parent]);
    assert(more.contains(path.drop_last()));
    assert(more[more.index_of(path.drop_last())] == more[parent]);
    assert forall|i: int| 0 <= i < more.len() implies !((#[trigger] more[i]).len() > 0
        && more[i].drop_last() == path) by {
        if more[i].len() > 0 && more[i].drop_last() == path {
            assert(i > 0);
            assert(extends_earlier(more, i, more[i]));
            let j = choose|j: int| 0 <= j < i && #[trigger] more[j] == more[i].drop_last();
            assert(more[paths.len() as int] == path);
            assert(j == paths.len());
        }
    }
    lemma_no_children(more, path, more.len());
    assert(model.children =~= Seq::empty());
    assert forall|i: int| 0 <= i < n implies segments_of(#[trigger] nodes[i]) != path by {
        assert(paths.contains(segments_of(nodes[i])));
    }
    lemma_no_members(nodes, path, n);
    assert(model.nodes =~= Seq::empty());
}

/// The group with the given name inside `parent`, which is created where there
/// is none, or `None` where it cannot be numbered.
fn child_group(
    groups: &mut Vec<Group>,
    parent: GroupId,
    name: &String,
    Ghost(nodes): Ghost<Seq<NodeView>>,
    Ghost(n): Ghost<nat>,
    Ghost(paths): Ghost<Seq<Seq<Seq<char>>>>,
) -> (id: Option<GroupId>)
    requires
        paths_wf(paths),
        paths.len() <= u32::MAX,
        paths_hold(paths, nodes, n),
        drafted(old(groups)@, nodes, n, paths),
        parent.0 < paths.len(),
        paths[parent.0 as int].len() < usize::MAX,
    ensures
        ({
            let path = paths[parent.0 as int].push(name@);
            let more = if paths.contains(path) {
                paths
            } else {
                paths.push(path)
            };
            match id {
                Some(id) => {
                    &&& more.len() <= u32::MAX
                    &&& drafted(final(groups)@, nodes, n, more)
                    &&& id.0 < more.len()
                    &&& more[id.0 as int] == path
                },
                None => more.len() > u32::MAX,
            }
        }),
{
    let ghost path = paths[parent.0 as int].push(name@);
    let ghost before = groups@;
    proof {
        assert(path.drop_last() =~= paths[parent.0 as int]);
        assert(paths.contains(path.drop_last()));
        lemma_children(paths, paths[parent.0 as int], paths.len());
        assert(groups@[parent.0 as int]@ == group_model(nodes, n, paths, parent.0 as int, 0));
    }
    let at: usize = parent.0 as usize;
    let ghost children = groups@[at as int].children@;
    let count: usize = groups[at].children.len();
    for k in 0..count
        invariant
            count == children.len(),
            at == parent.0,
            at < groups@.len(),
            groups@ == before,
            children == groups@[at as int].children@,
            path == paths[parent.0 as int].push(name@),
            path.drop_last() == paths[parent.0 as int],
            paths.len() <= u32::MAX,
            drafted(groups@, nodes, n, paths),
            children == children_of(paths, paths[parent.0 as int], paths.len()),
            forall|j: int|
                0 <= j < children.len() ==> {
                    let child = (#[trigger] children[j]).0 as int;
                    &&& 0 <= child < paths.len()
                    &&& paths[child].len() > 0
                    &&& paths[child].drop_last() == paths[parent.0 as int]
                },
            forall|j: int| 0 <= j < k ==> paths[(#[trigger] children[j]).0 as int] != path,
    {
        let child: GroupId = groups[at].children[k];
        assert(child == children[k as int]);
        let ghost held = paths[child.0 as int];
        assert(groups@[child.0 as int]@ == group_model(nodes, n, paths, child.0 as int, 0));
        if groups[child.0 as usize].name == *name {
            proof {
                assert(held =~= held.drop_last().push(held.last()));
                assert(held == path);
            }
            return Some(child);
        }
        assert(held.last() != path.last());
    }
    proof {
        assert(!paths.contains(path)) by {
            if paths.contains(path) {
                let i = paths.index_of(path);
                assert(paths[i] == path);
                assert(children.contains(GroupId(i as u32)));
                let j = children.index_of(GroupId(i as u32));
                assert(children[j] == GroupId(i as u32));
            }
        }
    }
    if groups.len() >= u32::MAX as usize {
        return None;
    }
    let id = GroupId(groups.len() as u32);
    let mut text: String = groups[at].path.clone();
    text.append("/");
    text.append(name.as_str());
    let depth: usize = groups[at].depth + 1;
    groups.push(
        Group {
            parent: Some(parent),
            name: name.clone(),
            path: text,
            children: Vec::new(),
            nodes: Vec::new(),
            total_nodes: 0,
            depth,
        },
    );
    groups[at].children.push(id);
    proof {
        let more = paths.push(path);
        assert forall|g: int| 0 <= g < groups@.len() implies (#[trigger] groups@[g])@ == group_model(
            nodes,
            n,
            more,
            g,
            0,
        ) by {
            if g < paths.len() {
                lemma_group_gains(nodes, n, paths, path, g);
                assert(before[g]@ == group_model(nodes, n, paths, g, 0));
                if g == parent.0 {
                    assert(groups@[g]@ =~= group_model(nodes, n, more, g, 0));
                } else {
                    assert(paths[g] != paths[parent.0 as int]);
                    assert(groups@[g] == before[g]);
                }
            } else {
                lemma_group_starts(nodes, n, paths, path, parent.0 as int);
                assert(groups@[g]@ =~= group_model(nodes, n, more, g, 0));
            }
        }
        assert(more[id.0 as int] == path);
    }
    Some(id)
}

proof fn lemma_beginnings_grow(
    paths: Seq<Seq<Seq<char>>>,
    path: Seq<Seq<char>>,
    k: nat,
    m: nat,
)
    requires
        k <= m,
    ensures
        with_beginnings(paths, path, k).len() <= with_beginnings(paths, path, m).len(),
    decreases m,
{
    if k < m {
        lemma_beginnings_grow(paths, path, k, (m - 1) as nat);
    }
}

/// The group at the end of a module path, with every group on the way created
/// where there is none, or `None` where one cannot be numbered.
fn descend(
    groups: &mut Vec<Group>,
    segments: &Vec<String>,
    Ghost(nodes): Ghost<Seq<NodeView>>,
    Ghost(n): Ghost<nat>,
    Ghost(start): Ghost<Seq<Seq<Seq<char>>>>,
) -> (id: Option<GroupId>)
    requires
        paths_wf(start),
        start.len() <= u32::MAX,
        paths_hold(start, nodes, n),
        drafted(old(groups)@, nodes, n, start),
    ensures
        ({
            let path = chars::views(segments@);
            let end = with_beginnings(start, path, path.len());
            match id {
                Some(id) => {
                    &&& end.len() <= u32::MAX
                    &&& drafted(final(groups)@, nodes, n, end)
                    &&& id.0 < end.len()
                    &&& end[id.0 as int] == path
                },
                None => end.len() > u32::MAX,
            }
        }),
{
    let ghost path = chars::views(segments@);
    let mut current = GroupId(0);
    assert(path.take(0) =~= start[0]);
    for k in 0..segments.len()
        invariant
            path == chars::views(segments@),
            paths_wf(start),
            paths_hold(start, nodes, n),
            with_beginnings(start, path, k as nat).len() <= u32::MAX,
            drafted(groups@, nodes, n, with_beginnings(start, path, k as nat)),
            current.0 < with_beginnings(start, path, k as nat).len(),
            with_beginnings(start, path, k as nat)[current.0 as int] == path.take(k as int),
    {
        let ghost now = with_beginnings(start, path, k as nat);
        proof {
            lemma_with_beginnings(start, path, k as nat);
            lemma_beginnings_grow(start, path, k as nat + 1, path.len());
            assert(path.take(k as int).push(path[k as int]) =~= path.take(k + 1));
            assert forall|j: int| 0 <= j < n implies now.contains(
                segments_of(#[trigger] nodes[j]),
            ) by {
                assert(start.contains(segments_of(nodes[j])));
                lemma_place_stays(now, start, segments_of(nodes[j]));
            }
            assert(segments@[k as int]@ == path[k as int]);
        }
        match child_group(groups, current, &segments[k], Ghost(nodes), Ghost(n), Ghost(now)) {
            Some(id) => {
                current = id;
            },
            None => {
                return None;
            },
        }
    }
    assert(path.take(path.len() as int) =~= path);
    Some(current)
}

/// The groups of the tree, with the totals still to be counted, the group of
/// each node, and how many nodes are named and named with a path; `None` where
/// the groups cannot be numbered.
fn gather(graph: &Graph) -> (result: Option<(Vec<Group>, Vec<GroupId>, usize, usize)>)
    requires
        graph@.wf(),
    ensures
        ({
            let nodes = graph@.nodes;
            match result {
                Some((groups, node_group, named, with_path)) => {
                    &&& groups_fit(nodes)
                    &&& drafted(groups@, nodes, nodes.len(), group_paths(nodes, nodes.len()))
                    &&& node_group@ == node_groups_model(nodes)
                    &&& named == named_count(nodes, nodes.len())
                    &&& with_path == path_count(nodes, nodes.len())
                },
                None => !groups_fit(nodes),
            }
        }),
{
    let ghost nodes = graph@.nodes;
    let mut groups: Vec<Group> = Vec::new();
    groups.push(
        Group {
            parent: None,
            name: String::new(),
            path: String::new(),
            children: Vec::new(),
            nodes: Vec::new(),
            total_nodes: 0,
            depth: 0,
        },
    );
    let mut node_group: Vec<GroupId> = Vec::new();
    let mut named: usize = 0;
    let mut with_path: usize = 0;
    proof {
        let paths = group_paths(nodes, 0);
        assert(children_of(paths, paths[0], 0) =~= Seq::empty());
        assert(children_of(paths, paths[0], 1) =~= Seq::empty());
        assert(groups@[0]@ =~= group_model(nodes, 0, paths, 0, 0));
        assert(drafted(groups@, nodes, 0, paths));
    }
    for i in 0..graph.nodes.len()
        invariant
            nodes == graph@.nodes,
            graph@.wf(),
            drafted(groups@, nodes, i as nat, group_paths(nodes, i as nat)),
            group_paths(nodes, i as nat).len() <= u32::MAX,
            node_group@.len() == i,
            forall|k: int|
                0 <= k < i ==> {
                    let id = #[trigger] node_group@[k];
                    &&& id.0 < group_paths(nodes, i as nat).len()
                    &&& group_paths(nodes, i as nat)[id.0 as int] == segments_of(nodes[k])
                },
            named == named_count(nodes, i as nat),
            with_path == path_count(nodes, i as nat),
            named <= i,
            with_path <= i,
    {
        let ghost start = group_paths(nodes, i as nat);
        let segments: Vec<String> = module_segments(graph.nodes[i].name.as_str());
        let ghost path = chars::views(segments@);
        let ghost end = group_paths(nodes, i as nat + 1);
        proof {
            assert(nodes[i as int] == graph.nodes@[i as int]@);
            assert(path == segments_of(nodes[i as int]));
            assert(graph@.node_wf(nodes[i as int], i as int));
            lemma_group_paths(nodes, i as nat);
            lemma_group_paths_extend(nodes, i as nat + 1, nodes.len());
        }
        // Only names the model actually supplied say anything about structure.
        if graph.nodes[i].named {
            named = named + 1;
            if segments.len() > 0 {
                with_path = with_path + 1;
            }
        }
        let current: GroupId = match descend(
            &mut groups,
            &segments,
            Ghost(nodes),
            Ghost(i as nat),
            Ghost(start),
        ) {
            Some(id) => id,
            None => {
                return None;
            },
        };
        proof {
            lemma_group_paths(nodes, i as nat + 1);
            lemma_group_paths_extend(nodes, i as nat, i as nat + 1);
        }
        let ghost held = groups@;
        let at: usize = current.0 as usize;
        groups[at].nodes.push(graph.nodes[i].id);
        node_group.push(current);
        proof {
            assert forall|g: int| 0 <= g < groups@.len() implies (#[trigger] groups@[g])@
                == group_model(nodes, i as nat + 1, end, g, 0) by {
                assert(held[g]@ == group_model(nodes, i as nat, end, g, 0));
                if g == current.0 {
                    assert(groups@[g]@ =~= group_model(nodes, i as nat + 1, end, g, 0));
                } else {
                    assert(end[g] != end[current.0 as int]);
                    assert(groups@[g] == held[g]);
                }
            }
        }
    }
    proof {
        let paths = group_paths(nodes, nodes.len());
        lemma_group_paths(nodes, nodes.len());
        let expected = node_groups_model(nodes);
        assert forall|k: int| 0 <= k < nodes.len() implies node_group@[k] == #[trigger] expected[k] by {
            let id = node_group@[k];
            assert(paths[id.0 as int] == segments_of(nodes[k]));
            assert(paths.contains(segments_of(nodes[k])));
            assert(paths[paths.index_of(segments_of(nodes[k]))] == segments_of(nodes[k]));
        }
        assert(node_group@ =~= expected);
    }
    Some((groups, node_group, named, with_path))
}

/// Whether the path at `i` is one segment longer than `path`.
spec fn is_child(paths: Seq<Seq<Seq<char>>>, path: Seq<Seq<char>>, i: int) -> bool {
    paths[i].len() > 0 && paths[i].drop_last() == path
}

/// The nodes below the children of `path` among the first `m` groups.
spec fn below_children(
    nodes: Seq<NodeView>,
    n: nat,
    paths: Seq<Seq<Seq<char>>>,
    path: Seq<Seq<char>>,
    m: nat,
) -> nat
    decreases m,
{
    if m == 0 {
        0
    } else {
        below_children(nodes, n, paths, path, (m - 1) as nat) + if is_child(paths, path, m - 1) {
            count_below(nodes, paths[m - 1], n)
        } else {
            0
        }
    }
}

/// How many children of `path` among the first `m` groups `s` leads through.
spec fn children_through(
    s: Seq<Seq<char>>,
    paths: Seq<Seq<Seq<char>>>,
    path: Seq<Seq<char>>,
    m: nat,
) -> nat
    decreases m,
{
    if m == 0 {
        0
    } else {
        children_through(s, paths, path, (m - 1) as nat) + if is_child(paths, path, m - 1)
            && leads_through(s, paths[m - 1]) {
            1nat
        } else {
            0
        }
    }
}

proof fn lemma_one_child(
    s: Seq<Seq<char>>,
    paths: Seq<Seq<Seq<char>>>,
    path: Seq<Seq<char>>,
    m: nat,
)
    requires
        paths.no_duplicates(),
        m <= paths.len(),
    ensures
        children_through(s, paths, path, m) == if leads_through(s, path) && s.len() > path.len()
            && paths.take(m as int).contains(s.take(path.len() as int + 1)) {
            1nat
        } else {
            0
        },
    decreases m,
{
    let next = s.take(path.len() as int + 1);
    if m > 0 {
        let k = m - 1;
        lemma_one_child(s, paths, path, k as nat);
        let before = paths.take(k);
        let after = paths.take(m as int);
        assert(after =~= before.push(paths[k]));
        if leads_through(s, path) && s.len() > path.len() {
            assert(next.drop_last() =~= s.take(path.len() as int));
            if paths[k] == next {
                assert(is_child(paths, path, k));
                assert(after[k] == next);
                assert(!before.contains(next)) by {
                    if before.contains(next) {
                        let j = before.index_of(next);
                        assert(paths[j] == paths[k]);
                    }
                }
            } else {
                if is_child(paths, path, k) && leads_through(s, paths[k]) {
                    assert(paths[k].len() == path.len() + 1);
                    assert(paths[k] == next);
                }
                assert(after.contains(next) == before.contains(next)) by {
                    if before.contains(next) {
                        let j = before.index_of(next);
                        assert(after[j] == next);
                    }
                    if after.contains(next) {
                        let j = after.index_of(next);
                        assert(after[j] == next);
                        assert(before[j] == next);
                    }
                }
            }
        } else {
            if is_child(paths, path, k) && leads_through(s, paths[k]) {
                assert(paths[k].len() == path.len() + 1);
                assert(s.take(path.len() as int) =~= paths[k].drop_last());
            }
        }
    }
}

proof fn lemma_below_children_step(
    nodes: Seq<NodeView>,
    n: nat,
    paths: Seq<Seq<Seq<char>>>,
    path: Seq<Seq<char>>,
    m: nat,
)
    requires
        n > 0,
    ensures
        below_children(nodes, n, paths, path, m) == below_children(
            nodes,
            (n - 1) as nat,
            paths,
            path,
            m,
        ) + children_through(segments_of(nodes[n - 1]), paths, path, m),
    decreases m,
{
    if m > 0 {
        lemma_below_children_step(nodes, n, paths, path, (m - 1) as nat);
    }
}

proof fn lemma_below_children_none(
    nodes: Seq<NodeView>,
    paths: Seq<Seq<Seq<char>>>,
    path: Seq<Seq<char>>,
    m: nat,
)
    ensures
        below_children(nodes, 0, paths, path, m) == 0,
    decreases m,
{
    if m > 0 {
        lemma_below_children_none(nodes, paths, path, (m - 1) as nat);
    }
}

/// Whether every beginning of the module paths of the first `n` nodes is among
/// the paths.
pub(crate) open spec fn beginnings_held(paths: Seq<Seq<Seq<char>>>, nodes: Seq<NodeView>, n: nat) -> bool {
    forall|i: int, k: int|
        0 <= i < n && 0 <= k <= segments_of(nodes[i]).len() ==> paths.contains(
            #[trigger] segments_of(nodes[i]).take(k),
        )
}

pub(crate) proof fn lemma_beginnings_held(nodes: Seq<NodeView>, n: nat)
    requires
        n <= nodes.len(),
    ensures
        beginnings_held(group_paths(nodes, n), nodes, n),
    decreases n,
{
    if n > 0 {
        let before = group_paths(nodes, (n - 1) as nat);
        let after = group_paths(nodes, n);
        let path = segments_of(nodes[n - 1]);
        lemma_beginnings_held(nodes, (n - 1) as nat);
        lemma_group_paths(nodes, (n - 1) as nat);
        lemma_with_beginnings(before, path, path.len());
        assert forall|i: int, k: int|
            0 <= i < n && 0 <= k <= segments_of(nodes[i]).len() implies after.contains(
            #[trigger] segments_of(nodes[i]).take(k),
        ) by {
            if i < n - 1 {
                lemma_place_stays(after, before, segments_of(nodes[i]).take(k));
            }
        }
    }
}

/// The nodes in a group and below are its own and those of its children and
/// below.
proof fn lemma_total(
    nodes: Seq<NodeView>,
    n: nat,
    paths: Seq<Seq<Seq<char>>>,
    path: Seq<Seq<char>>,
)
    requires
        paths.no_duplicates(),
        beginnings_held(paths, nodes, n),
    ensures
        count_below(nodes, path, n) == members_of(nodes, path, n).len() + below_children(
            nodes,
            n,
            paths,
            path,
            paths.len(),
        ),
    decreases n,
{
    if n == 0 {
        lemma_below_children_none(nodes, paths, path, paths.len());
    } else {
        let s = segments_of(nodes[n - 1]);
        lemma_total(nodes, (n - 1) as nat, paths, path);
        lemma_below_children_step(nodes, n, paths, path, paths.len());
        lemma_one_child(s, paths, path, paths.len());
        assert(paths.take(paths.len() as int) =~= paths);
        if leads_through(s, path) {
            if s.len() > path.len() {
                assert(paths.contains(s.take(path.len() as int + 1)));
            } else {
                assert(s.take(path.len() as int) =~= s);
            }
        } else {
            assert(s.take(s.len() as int) =~= s);
        }
    }
}

/// The nodes below the first `k` of the listed groups.
spec fn listed_below(
    nodes: Seq<NodeView>,
    n: nat,
    paths: Seq<Seq<Seq<char>>>,
    ids: Seq<GroupId>,
    k: nat,
) -> nat
    decreases k,
{
    if k == 0 {
        0
    } else {
        listed_below(nodes, n, paths, ids, (k - 1) as nat) + count_below(
            nodes,
            paths[ids[k - 1].0 as int],
            n,
        )
    }
}

proof fn lemma_listed_below_push(
    nodes: Seq<NodeView>,
    n: nat,
    paths: Seq<Seq<Seq<char>>>,
    ids: Seq<GroupId>,
    id: GroupId,
    k: nat,
)
    requires
        k <= ids.len(),
    ensures
        listed_below(nodes, n, paths, ids.push(id), k) == listed_below(nodes, n, paths, ids, k),
    decreases k,
{
    if k > 0 {
        lemma_listed_below_push(nodes, n, paths, ids, id, (k - 1) as nat);
    }
}

proof fn lemma_listed_below_grows(
    nodes: Seq<NodeView>,
    n: nat,
    paths: Seq<Seq<Seq<char>>>,
    ids: Seq<GroupId>,
    j: nat,
    k: nat,
)
    requires
        j <= k,
    ensures
        listed_below(nodes, n, paths, ids, j) <= listed_below(nodes, n, paths, ids, k),
    decreases k,
{
    if j < k {
        lemma_listed_below_grows(nodes, n, paths, ids, j, (k - 1) as nat);
    }
}

proof fn lemma_listed_children(
    nodes: Seq<NodeView>,
    n: nat,
    paths: Seq<Seq<Seq<char>>>,
    path: Seq<Seq<char>>,
    m: nat,
)
    requires
        m <= paths.len() <= u32::MAX,
    ensures
        listed_below(
            nodes,
            n,
            paths,
            children_of(paths, path, m),
            children_of(paths, path, m).len(),
        ) == below_children(nodes, n, paths, path, m),
    decreases m,
{
    if m > 0 {
        let before = children_of(paths, path, (m - 1) as nat);
        lemma_listed_children(nodes, n, paths, path, (m - 1) as nat);
        if is_child(paths, path, m - 1) {
            lemma_listed_below_push(
                nodes,
                n,
                paths,
                before,
                GroupId((m - 1) as u32),
                before.len(),
            );
        }
    }
}

proof fn lemma_count_below_bound(nodes: Seq<NodeView>, path: Seq<Seq<char>>, n: nat)
    ensures
        count_below(nodes, path, n) <= n,
    decreases n,
{
    if n > 0 {
        lemma_count_below_bound(nodes, path, (n - 1) as nat);
    }
}

/// Counts the nodes in each group and below.
///
/// Groups are always created before their children, so a reverse pass sees
/// every child's total before it needs it.
fn count_totals(groups: &mut Vec<Group>, Ghost(nodes): Ghost<Seq<NodeView>>)
    requires
        nodes.len() <= u32::MAX,
        groups_fit(nodes),
        drafted(old(groups)@, nodes, nodes.len(), group_paths(nodes, nodes.len())),
    ensures
        chars::views(final(groups)@) == groups_model(nodes),
{
    let ghost paths = group_paths(nodes, nodes.len());
    let ghost n = nodes.len();
    let ghost expected = groups_model(nodes);
    proof {
        lemma_group_paths(nodes, n);
        lemma_beginnings_held(nodes, n);
    }
    let mut index: usize = groups.len();
    while index > 0
        invariant
            paths == group_paths(nodes, nodes.len()),
            n == nodes.len(),
            n <= u32::MAX,
            expected == groups_model(nodes),
            paths.len() <= u32::MAX,
            paths_wf(paths),
            beginnings_held(paths, nodes, n),
            groups@.len() == paths.len(),
            index <= groups@.len(),
            forall|g: int|
                0 <= g < index ==> (#[trigger] groups@[g])@ == group_model(nodes, n, paths, g, 0),
            forall|g: int| index <= g < groups@.len() ==> (#[trigger] groups@[g])@ == expected[g],
        decreases index,
    {
        index = index - 1;
        let ghost path = paths[index as int];
        let ghost children = children_of(paths, path, paths.len());
        proof {
            assert(groups@[index as int]@ == group_model(nodes, n, paths, index as int, 0));
            lemma_children(paths, path, paths.len());
            lemma_total(nodes, n, paths, path);
            lemma_listed_children(nodes, n, paths, path, paths.len());
            lemma_count_below_bound(nodes, path, n);
        }
        let count: usize = groups[index].children.len();
        let mut descendants: usize = 0;
        for k in 0..count
            invariant
                n == nodes.len(),
                n <= u32::MAX,
                expected == groups_model(nodes),
                paths == group_paths(nodes, nodes.len()),
                paths.len() <= u32::MAX,
                paths_wf(paths),
                groups@.len() == paths.len(),
                index < groups@.len(),
                path == paths[index as int],
                children == children_of(paths, path, paths.len()),
                children == groups@[index as int].children@,
                count == children.len(),
                listed_below(nodes, n, paths, children, children.len()) <= n,
                descendants == listed_below(nodes, n, paths, children, k as nat),
                forall|j: int|
                    0 <= j < children.len() ==> {
                        let child = (#[trigger] children[j]).0 as int;
                        &&& 0 <= child < paths.len()
                        &&& paths[child].len() > 0
                        &&& paths[child].drop_last() == path
                    },
                forall|g: int|
                    index < g < groups@.len() ==> (#[trigger] groups@[g])@ == expected[g],
        {
            let child: GroupId = groups[index].children[k];
            proof {
                assert(child == children[k as int]);
                let c = child.0 as int;
                assert(extends_earlier(paths, c, paths[c]));
                let j = choose|j: int| 0 <= j < c && #[trigger] paths[j] == paths[c].drop_last();
                assert(j == index);
                assert(groups@[c]@ == expected[c]);
                lemma_listed_below_grows(
                    nodes,
                    n,
                    paths,
                    children,
                    k as nat + 1,
                    children.len(),
                );
            }
            descendants = descendants + groups[child.0 as usize].total_nodes;
        }
        let own: usize = groups[index].nodes.len();
        groups[index].total_nodes = own + descendants;
        assert(groups@[index as int]@ =~= expected[index as int]);
    }
    assert(chars::views(groups@) =~= expected);
}

impl Hierarchy {
    /// Whether the groups of a graph can be numbered in 32 bits.
    pub fn fits(graph: &Graph) -> (fits: bool)
        requires
            graph@.wf(),
        ensures
            fits == groups_fit(graph@.nodes),
    {
        gather(graph).is_some()
    }

    /// Builds the group tree for a graph.
    ///
    /// Returns `None` when node names carry no usable structure, either because
    /// too few are path-like or because they all fall into one group.
    pub fn build(graph: &Graph) -> (hierarchy: Option<Hierarchy>)
        requires
            graph@.wf(),
            groups_fit(graph@.nodes),
        ensures
            match hierarchy {
                Some(hierarchy) => {
                    &&& has_structure(graph@.nodes)
                    &&& hierarchy@ == hierarchy_model(graph@.nodes)
                    &&& hierarchy@.wf()
                    &&& hierarchy@.node_group.len() == graph@.nodes.len()
                },
                None => !has_structure(graph@.nodes),
            },
    {
        match gather(graph) {
            Some((groups, node_group, named, with_path)) => {
                if named == 0 || groups.len() < 2 {
                    return None;
                }
                // Fewer than three in ten is incidental rather than structure.
                if 10 * (with_path as u128) < 3 * (named as u128) {
                    return None;
                }
                let mut groups: Vec<Group> = groups;
                count_totals(&mut groups, Ghost(graph@.nodes));
                proof {
                    assert forall|i: int| 0 <= i < graph@.nodes.len() implies (
                    #[trigger] graph@.nodes[i]).id == NodeId(i as u32) by {
                        assert(graph@.node_wf(graph@.nodes[i], i));
                    }
                    law_hierarchy_is_well_formed(graph@.nodes);
                }
                Some(Hierarchy { groups, node_group })
            },
            None => None,
        }
    }
}

/// The groups from the root down to `id`.
pub open spec fn chain_of(groups: Seq<GroupView>, id: GroupId) -> Seq<GroupId>
    decreases id.0,
{
    match groups[id.0 as int].parent {
        Some(parent) => if parent.0 < id.0 {
            chain_of(groups, parent).push(id)
        } else {
            seq![id]
        },
        None => seq![id],
    }
}

/// Where what is in the group `at` sits relative to `scope`.
pub open spec fn placed(groups: Seq<GroupView>, scope: GroupId, at: GroupId) -> Placement
    decreases at.0,
{
    if at == scope {
        Placement::Direct
    } else {
        match groups[at.0 as int].parent {
            Some(parent) => if parent == scope {
                Placement::Within(at)
            } else if parent.0 < at.0 {
                placed(groups, scope, parent)
            } else {
                Placement::Outside
            },
            None => Placement::Outside,
        }
    }
}

/// The totals of the first `k` of the listed groups, added up.
pub open spec fn totals(groups: Seq<GroupView>, ids: Seq<GroupId>, k: nat) -> nat
    decreases k,
{
    if k == 0 {
        0
    } else {
        totals(groups, ids, (k - 1) as nat) + groups[ids[k - 1].0 as int].total_nodes
    }
}

impl HierarchyView {
    pub open spec fn has_group(self, id: GroupId) -> bool {
        id.0 < self.groups.len()
    }

    /// Whether the groups are a tree: the root first, every other group behind
    /// the one that contains it and listed among its children, every node in
    /// one group, and each group's total that of its own nodes and of its
    /// children.
    pub open spec fn wf(self) -> bool {
        &&& 0 < self.groups.len() <= u32::MAX
        &&& self.groups[0].parent is None
        &&& forall|i: int| 0 < i < self.groups.len() ==> self.has_parent(#[trigger] self.groups[i], i)
        &&& forall|i: int|
            0 <= i < self.groups.len() ==> self.children_wf(#[trigger] self.groups[i], i)
        &&& forall|i: int|
            0 <= i < self.groups.len() ==> self.members_wf(#[trigger] self.groups[i], i)
        &&& forall|n: int|
            0 <= n < self.node_group.len() ==> self.has_group(#[trigger] self.node_group[n])
                && self.groups[self.node_group[n].0 as int].nodes.contains(NodeId(n as u32))
    }

    pub open spec fn has_parent(self, group: GroupView, i: int) -> bool {
        match group.parent {
            Some(parent) => parent.0 < i && self.groups[parent.0 as int].children.contains(
                GroupId(i as u32),
            ),
            None => false,
        }
    }

    pub open spec fn children_wf(self, group: GroupView, i: int) -> bool {
        forall|k: int|
            0 <= k < group.children.len() ==> i < (#[trigger] group.children[k]).0
                < self.groups.len() && self.groups[group.children[k].0 as int].parent == Some(
                GroupId(i as u32),
            )
    }

    pub open spec fn members_wf(self, group: GroupView, i: int) -> bool {
        &&& group.total_nodes == group.nodes.len() + totals(
            self.groups,
            group.children,
            group.children.len(),
        )
        &&& forall|k: int|
            0 <= k < group.nodes.len() ==> (#[trigger] group.nodes[k]).0 < self.node_group.len()
                && self.node_group[group.nodes[k].0 as int] == GroupId(i as u32)
    }
}

pub(crate) proof fn lemma_members(nodes: Seq<NodeView>, path: Seq<Seq<char>>, n: nat)
    requires
        n <= nodes.len() <= u32::MAX,
        forall|i: int| 0 <= i < nodes.len() ==> (#[trigger] nodes[i]).id == NodeId(i as u32),
    ensures
        forall|k: int|
            0 <= k < members_of(nodes, path, n).len() ==> {
                let id = #[trigger] members_of(nodes, path, n)[k];
                id.0 < n && segments_of(nodes[id.0 as int]) == path
            },
        forall|i: int|
            0 <= i < n && segments_of(#[trigger] nodes[i]) == path ==> members_of(
                nodes,
                path,
                n,
            ).contains(NodeId(i as u32)),
    decreases n,
{
    if n > 0 {
        lemma_members(nodes, path, (n - 1) as nat);
        let before = members_of(nodes, path, (n - 1) as nat);
        let after = members_of(nodes, path, n);
        assert forall|i: int|
            0 <= i < n && segments_of(#[trigger] nodes[i]) == path implies after.contains(
            NodeId(i as u32),
        ) by {
            if i < n - 1 {
                assert(before.contains(NodeId(i as u32)));
                let at = before.index_of(NodeId(i as u32));
                assert(after[at] == NodeId(i as u32));
            } else {
                assert(after[before.len() as int] == NodeId(i as u32));
            }
        }
        assert forall|k: int| 0 <= k < after.len() implies {
            let id = #[trigger] after[k];
            id.0 < n && segments_of(nodes[id.0 as int]) == path
        } by {
            if k < before.len() {
                assert(after[k] == before[k]);
            }
        }
    }
}

proof fn lemma_totals_listed(nodes: Seq<NodeView>, ids: Seq<GroupId>, k: nat)
    requires
        k <= ids.len(),
        forall|j: int|
            0 <= j < ids.len() ==> (#[trigger] ids[j]).0 < group_paths(nodes, nodes.len()).len(),
    ensures
        totals(groups_model(nodes), ids, k) == listed_below(
            nodes,
            nodes.len(),
            group_paths(nodes, nodes.len()),
            ids,
            k,
        ),
    decreases k,
{
    if k > 0 {
        lemma_totals_listed(nodes, ids, (k - 1) as nat);
        assert(ids[k - 1].0 < group_paths(nodes, nodes.len()).len());
    }
}

/// The groups that are built are a tree: every group but the root has a parent
/// before it that lists it, every node is in one group, and a group's total is
/// the number of its own nodes and of those of all its descendants.
pub proof fn law_hierarchy_is_well_formed(nodes: Seq<NodeView>)
    requires
        nodes.len() <= u32::MAX,
        groups_fit(nodes),
        forall|i: int| 0 <= i < nodes.len() ==> (#[trigger] nodes[i]).id == NodeId(i as u32),
    ensures
        hierarchy_model(nodes).wf(),
        forall|i: int|
            0 <= i < groups_model(nodes).len() ==> (#[trigger] groups_model(nodes)[i]).total_nodes
                == count_below(nodes, group_paths(nodes, nodes.len())[i], nodes.len()),
{
    let n = nodes.len();
    let h = hierarchy_model(nodes);
    let paths = group_paths(nodes, n);
    lemma_group_paths(nodes, n);
    lemma_beginnings_held(nodes, n);
    assert forall|i: int| 0 < i < h.groups.len() implies h.has_parent(#[trigger] h.groups[i], i) by {
        assert(extends_earlier(paths, i, paths[i]));
        let j = choose|j: int| 0 <= j < i && #[trigger] paths[j] == paths[i].drop_last();
        assert(paths.contains(paths[i].drop_last()));
        let at = paths.index_of(paths[i].drop_last());
        assert(paths[at] == paths[j]);
        assert(at == j);
        lemma_children(paths, paths[j], paths.len());
    }
    assert forall|i: int| 0 <= i < h.groups.len() implies h.children_wf(#[trigger] h.groups[i], i) by {
        lemma_children(paths, paths[i], paths.len());
        let children = h.groups[i].children;
        assert forall|k: int| 0 <= k < children.len() implies i < (#[trigger] children[k]).0
            < h.groups.len() && h.groups[children[k].0 as int].parent == Some(GroupId(i as u32)) by {
            let c = children[k].0 as int;
            assert(paths[c].drop_last() == paths[i]);
            assert(c != 0);
            assert(extends_earlier(paths, c, paths[c]));
            let j = choose|j: int| 0 <= j < c && #[trigger] paths[j] == paths[c].drop_last();
            assert(j == i);
            assert(paths.contains(paths[c].drop_last()));
            assert(paths[paths.index_of(paths[i])] == paths[i]);
        }
    }
    assert forall|i: int| 0 <= i < h.groups.len() implies h.members_wf(#[trigger] h.groups[i], i) by {
        let path = paths[i];
        lemma_members(nodes, path, n);
        lemma_children(paths, path, paths.len());
        lemma_total(nodes, n, paths, path);
        lemma_listed_children(nodes, n, paths, path, paths.len());
        lemma_totals_listed(nodes, h.groups[i].children, h.groups[i].children.len());
        let members = h.groups[i].nodes;
        assert forall|k: int| 0 <= k < members.len() implies (#[trigger] members[k]).0
            < h.node_group.len() && h.node_group[members[k].0 as int] == GroupId(i as u32) by {
            assert(segments_of(nodes[members[k].0 as int]) == path);
            assert(paths.contains(path));
            assert(paths[paths.index_of(path)] == path);
        }
    }
    assert forall|m: int| 0 <= m < h.node_group.len() implies h.has_group(
        #[trigger] h.node_group[m],
    ) && h.groups[h.node_group[m].0 as int].nodes.contains(NodeId(m as u32)) by {
        let path = segments_of(nodes[m]);
        assert(paths.contains(path));
        assert(paths[paths.index_of(path)] == path);
        lemma_members(nodes, path, n);
    }
}

/// The placement of a group with this path relative to `scope`, by paths alone.
spec fn placed_by_path(
    paths: Seq<Seq<Seq<char>>>,
    scope: int,
    path: Seq<Seq<char>>,
) -> Placement {
    let within = paths[scope];
    if path == within {
        Placement::Direct
    } else if leads_through(path, within) {
        Placement::Within(GroupId(paths.index_of(path.take(within.len() as int + 1)) as u32))
    } else {
        Placement::Outside
    }
}

#[verifier::spinoff_prover]
#[verifier::rlimit(60)]
proof fn lemma_placed(nodes: Seq<NodeView>, scope: GroupId, at: GroupId)
    requires
        groups_fit(nodes),
        scope.0 < group_paths(nodes, nodes.len()).len(),
        at.0 < group_paths(nodes, nodes.len()).len(),
    ensures
        placed(groups_model(nodes), scope, at) == placed_by_path(
            group_paths(nodes, nodes.len()),
            scope.0 as int,
            group_paths(nodes, nodes.len())[at.0 as int],
        ),
    decreases at.0,
{
    let paths = group_paths(nodes, nodes.len());
    let groups = groups_model(nodes);
    lemma_group_paths(nodes, nodes.len());
    let path = paths[at.0 as int];
    let within = paths[scope.0 as int];
    if at != scope {
        assert(path != within);
        if path.len() == 0 {
            assert(at.0 == 0);
            if leads_through(path, within) {
                assert(within =~= path);
            }
        } else {
            let i = at.0 as int;
            assert(extends_earlier(paths, i, paths[i]));
            let j = choose|j: int| 0 <= j < i && #[trigger] paths[j] == paths[i].drop_last();
            assert(paths.contains(path.drop_last()));
            assert(paths[paths.index_of(path.drop_last())] == paths[j]);
            assert(groups[i].parent == Some(GroupId(j as u32)));
            if j == scope.0 {
                assert(path.take(within.len() as int) =~= within);
                assert(path.take(within.len() as int + 1) =~= path);
                assert(paths.contains(path));
                assert(paths[paths.index_of(path)] == path);
            } else {
                lemma_placed(nodes, scope, GroupId(j as u32));
                let up = paths[j];
                assert(up != within);
                if leads_through(path, within) {
                    assert(path.take(path.len() as int) =~= path);
                    assert(within.len() < path.len());
                    assert(up.take(within.len() as int) =~= path.take(within.len() as int));
                    assert(leads_through(up, within));
                    if within.len() == up.len() {
                        assert(up.take(up.len() as int) =~= up);
                    }
                    assert(up.take(within.len() as int + 1) =~= path.take(within.len() as int + 1));
                } else {
                    if leads_through(up, within) {
                        assert(path.take(within.len() as int) =~= up.take(within.len() as int));
                    }
                }
            }
        }
    }
}

/// A node is drawn directly in the scope that is its module path, is folded
/// into the child of the scope that its path leads through next, and is outside
/// of every scope that its path does not lead through.
pub proof fn law_placement_follows_paths(nodes: Seq<NodeView>, scope: GroupId, n: int)
    requires
        groups_fit(nodes),
        scope.0 < group_paths(nodes, nodes.len()).len(),
        0 <= n < nodes.len(),
    ensures
        ({
            let paths = group_paths(nodes, nodes.len());
            let path = segments_of(nodes[n]);
            let within = paths[scope.0 as int];
            match placed(groups_model(nodes), scope, node_groups_model(nodes)[n]) {
                Placement::Direct => path == within,
                Placement::Within(child) => path != within && leads_through(path, within)
                    && child.0 < paths.len() && paths[child.0 as int] == path.take(
                    within.len() as int + 1,
                ),
                Placement::Outside => !leads_through(path, within),
            }
        }),
{
    let paths = group_paths(nodes, nodes.len());
    let path = segments_of(nodes[n]);
    let within = paths[scope.0 as int];
    lemma_group_paths(nodes, nodes.len());
    lemma_beginnings_held(nodes, nodes.len());
    assert(paths.contains(path));
    assert(paths[paths.index_of(path)] == path);
    lemma_placed(nodes, scope, node_groups_model(nodes)[n]);
    assert(path.take(path.len() as int) =~= path);
    if leads_through(path, within) && path != within {
        assert(within.len() < path.len());
        let next = path.take(within.len() as int + 1);
        assert(paths.contains(next));
        assert(paths[paths.index_of(next)] == next);
    }
}

/// The chain of groups down to a group starts at the root, ends at the group,
/// and each group in it is the parent of the next.
pub proof fn law_chain_descends(h: HierarchyView, id: GroupId)
    requires
        h.wf(),
        h.has_group(id),
    ensures
        chain_of(h.groups, id).len() > 0,
        chain_of(h.groups, id)[0] == GroupId(0),
        chain_of(h.groups, id).last() == id,
        forall|k: int|
            0 < k < chain_of(h.groups, id).len() ==> h.has_group(
                #[trigger] chain_of(h.groups, id)[k],
            ) && h.groups[chain_of(h.groups, id)[k].0 as int].parent == Some(
                chain_of(h.groups, id)[k - 1],
            ),
    decreases id.0,
{
    if id.0 > 0 {
        assert(h.has_parent(h.groups[id.0 as int], id.0 as int));
        let parent = h.groups[id.0 as int].parent->0;
        law_chain_descends(h, parent);
        let before = chain_of(h.groups, parent);
        let chain = chain_of(h.groups, id);
        assert(chain == before.push(id));
        assert forall|k: int| 0 < k < chain.len() implies h.has_group(#[trigger] chain[k])
            && h.groups[chain[k].0 as int].parent == Some(chain[k - 1]) by {
            if k < before.len() {
                assert(chain[k] == before[k]);
                assert(chain[k - 1] == before[k - 1]);
            }
        }
    }
}

impl Hierarchy {
    pub fn root(&self) -> (id: GroupId)
        ensures
            id == GroupId(0),
    {
        GroupId(0)
    }

    pub fn group(&self, id: GroupId) -> (group: &Group)
        requires
            self@.has_group(id),
        ensures
            *group == self.groups@[id.0 as int],
            group@ == self@.groups[id.0 as int],
    {
        &self.groups[id.0 as usize]
    }

    pub fn group_count(&self) -> (count: usize)
        ensures
            count == self@.groups.len(),
    {
        self.groups.len()
    }

    /// The group that directly contains `node`.
    pub fn group_of(&self, node: NodeId) -> (group: GroupId)
        requires
            node.0 < self@.node_group.len(),
        ensures
            group == self@.node_group[node.0 as int],
    {
        self.node_group[node.0 as usize]
    }

    /// Chain of groups from the root down to `id`, for breadcrumbs.
    pub fn path_to(&self, id: GroupId) -> (path: Vec<GroupId>)
        requires
            self@.wf(),
            self@.has_group(id),
        ensures
            path@ == chain_of(self@.groups, id),
        decreases id.0,
    {
        proof {
            assert(self@.groups[id.0 as int] == self.groups@[id.0 as int]@);
            if id.0 > 0 {
                assert(self@.has_parent(self@.groups[id.0 as int], id.0 as int));
            }
        }
        let mut path: Vec<GroupId> = match self.groups[id.0 as usize].parent {
            Some(parent) => self.path_to(parent),
            None => Vec::new(),
        };
        path.push(id);
        assert(path@ =~= chain_of(self@.groups, id));
        path
    }

    /// Locates `node` relative to `scope`: drawn directly, represented by one of
    /// the scope's child groups, or outside the scope entirely.
    pub fn placement(&self, scope: GroupId, node: NodeId) -> (placement: Placement)
        requires
            self@.wf(),
            node.0 < self@.node_group.len(),
        ensures
            placement == placed(self@.groups, scope, self@.node_group[node.0 as int]),
    {
        assert(self@.has_group(self@.node_group[node.0 as int]));
        self.place_group(scope, self.group_of(node))
    }

    fn place_group(&self, scope: GroupId, at: GroupId) -> (placement: Placement)
        requires
            self@.wf(),
            self@.has_group(at),
        ensures
            placement == placed(self@.groups, scope, at),
        decreases at.0,
    {
        if at == scope {
            return Placement::Direct;
        }
        proof {
            if at.0 > 0 {
                assert(self@.has_parent(self@.groups[at.0 as int], at.0 as int));
            }
        }
        match self.group(at).parent {
            Some(parent) => if parent == scope {
                Placement::Within(at)
            } else {
                self.place_group(scope, parent)
            },
            None => Placement::Outside,
        }
    }
}

} // verus!
