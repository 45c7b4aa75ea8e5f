//! How the tree of blocks follows from the names of the nodes.

use crate::hierarchy::{self, GroupId, GroupView};
use crate::model::{NodeId, NodeView};
use crate::tally;
use vstd::prelude::*;

verus! {

/// The names of the groups from the root down to a group, the root left out.
pub open spec fn route(groups: Seq<GroupView>, i: int) -> Seq<Seq<char>>
    decreases i,
{
    match groups[i].parent {
        Some(parent) => if parent.0 < i {
            route(groups, parent.0 as int).push(groups[i].name)
        } else {
            Seq::empty()
        },
        None => Seq::empty(),
    }
}

/// Whether a list of names starts with those of another.
pub open spec fn starts_with(names: Seq<Seq<char>>, start: Seq<Seq<char>>) -> bool {
    &&& start.len() <= names.len()
    &&& forall|k: int| 0 <= k < start.len() ==> #[trigger] names[k] == start[k]
}

proof fn lemma_starts_with(names: Seq<Seq<char>>, start: Seq<Seq<char>>)
    ensures
        starts_with(names, start) == hierarchy::leads_through(names, start),
{
    if starts_with(names, start) {
        assert(names.take(start.len() as int) =~= start);
    }
    if hierarchy::leads_through(names, start) {
        assert forall|k: int| 0 <= k < start.len() implies #[trigger] names[k] == start[k] by {
            assert(names.take(start.len() as int)[k] == start[k]);
        }
    }
}

proof fn lemma_routes_are_paths(nodes: Seq<NodeView>, i: int)
    requires
        hierarchy::groups_fit(nodes),
        0 <= i < hierarchy::group_paths(nodes, nodes.len()).len(),
    ensures
        route(hierarchy::groups_model(nodes), i) == hierarchy::group_paths(nodes, nodes.len())[i],
        i > 0 ==> {
            let parent = hierarchy::groups_model(nodes)[i].parent;
            &&& parent is Some
            &&& (parent->0).0 < i
            &&& hierarchy::group_paths(nodes, nodes.len())[(parent->0).0 as int]
                == hierarchy::group_paths(nodes, nodes.len())[i].drop_last()
            &&& hierarchy::group_paths(nodes, nodes.len())[i].len() > 0
        },
    decreases i,
{
    let paths = hierarchy::group_paths(nodes, nodes.len());
    let groups = hierarchy::groups_model(nodes);
    hierarchy::lemma_group_paths(nodes, nodes.len());
    if i == 0 {
        assert(paths[0] =~= Seq::<Seq<char>>::empty());
    } else {
        assert(hierarchy::extends_earlier(paths, i, paths[i]));
        let j = choose|j: int| 0 <= j < i && #[trigger] paths[j] == paths[i].drop_last();
        assert(paths.contains(paths[i].drop_last()));
        assert(paths[paths.index_of(paths[i].drop_last())] == paths[j]);
        assert(groups[i].parent == Some(GroupId(j as u32)));
        lemma_routes_are_paths(nodes, j);
        assert(paths[i].drop_last().push(paths[i].last()) =~= paths[i]);
    }
}

/// Every node is in the group that its name leads to: the names of the groups
/// from the root down to it are the modules of the node's name.
pub proof fn law_nodes_are_where_their_names_lead(nodes: Seq<NodeView>, m: int)
    requires
        hierarchy::groups_fit(nodes),
        0 <= m < nodes.len(),
    ensures
        ({
            let h = hierarchy::hierarchy_model(nodes);
            &&& h.node_group.len() == nodes.len()
            &&& h.node_group[m].0 < h.groups.len()
            &&& route(h.groups, h.node_group[m].0 as int) == hierarchy::path_segments(
                nodes[m].name,
            )
        }),
{
    let paths = hierarchy::group_paths(nodes, nodes.len());
    hierarchy::lemma_group_paths(nodes, nodes.len());
    let path = hierarchy::segments_of(nodes[m]);
    assert(paths.contains(path));
    assert(paths[paths.index_of(path)] == path);
    lemma_routes_are_paths(nodes, paths.index_of(path));
}

/// A group is one level below its parent, its path is that of its parent and its
/// own name behind a slash, and no two groups lie on the same route. The root
/// has neither name nor path.
pub proof fn law_groups_extend_their_parents(nodes: Seq<NodeView>, i: int)
    requires
        hierarchy::groups_fit(nodes),
        0 <= i < hierarchy::groups_model(nodes).len(),
    ensures
        ({
            let groups = hierarchy::groups_model(nodes);
            let group = groups[i];
            &&& groups.len() > 0
            &&& i == 0 <==> group.parent is None
            &&& i == 0 ==> group.name.len() == 0 && group.path.len() == 0 && group.depth == 0
            &&& group.parent is Some ==> {
                let parent = groups[(group.parent->0).0 as int];
                &&& (group.parent->0).0 < i
                &&& group.path == parent.path + seq!['/'] + group.name
                &&& group.depth == parent.depth + 1
            }
            &&& group.depth == route(groups, i).len()
            &&& forall|j: int|
                0 <= j < groups.len() && #[trigger] route(groups, j) == route(groups, i) ==> j == i
        }),
{
    let paths = hierarchy::group_paths(nodes, nodes.len());
    let groups = hierarchy::groups_model(nodes);
    hierarchy::lemma_group_paths(nodes, nodes.len());
    lemma_routes_are_paths(nodes, i);
    if i > 0 {
        reveal_strlit("/");
        assert("/"@ =~= seq!['/']);
    }
    assert forall|j: int|
        0 <= j < groups.len() && #[trigger] route(groups, j) == route(groups, i) implies j == i by {
        lemma_routes_are_paths(nodes, j);
    }
}

proof fn lemma_groups_have_nodes(nodes: Seq<NodeView>, n: nat, i: int) -> (m: int)
    requires
        n <= nodes.len(),
        0 < i < hierarchy::group_paths(nodes, n).len(),
    ensures
        0 <= m < n,
        hierarchy::leads_through(
            hierarchy::segments_of(nodes[m]),
            hierarchy::group_paths(nodes, n)[i],
        ),
    decreases n,
{
    if n == 0 {
        0
    } else {
        let before = hierarchy::group_paths(nodes, (n - 1) as nat);
        let path = hierarchy::segments_of(nodes[n - 1]);
        hierarchy::lemma_group_paths(nodes, (n - 1) as nat);
        hierarchy::lemma_with_beginnings(before, path, path.len());
        if i < before.len() {
            lemma_groups_have_nodes(nodes, (n - 1) as nat, i)
        } else {
            lemma_new_paths_begin(before, path, path.len(), i);
            n - 1
        }
    }
}

proof fn lemma_new_paths_begin(
    paths: Seq<Seq<Seq<char>>>,
    path: Seq<Seq<char>>,
    m: nat,
    i: int,
)
    requires
        m <= path.len(),
        paths.len() <= i < hierarchy::with_beginnings(paths, path, m).len(),
    ensures
        hierarchy::leads_through(path, hierarchy::with_beginnings(paths, path, m)[i]),
    decreases m,
{
    if m > 0 {
        let before = hierarchy::with_beginnings(paths, path, (m - 1) as nat);
        if i < before.len() {
            lemma_new_paths_begin(paths, path, (m - 1) as nat, i);
        } else {
            let start = path.take(m as int);
            assert(path.take(start.len() as int) =~= start);
        }
    }
}

/// There is no group without a node in it or below, and groups are numbered in
/// the order in which the nodes first lead through them.
pub proof fn law_groups_come_with_their_nodes(nodes: Seq<NodeView>, i: int, j: int, m: int)
    requires
        hierarchy::groups_fit(nodes),
        0 < i <= j < hierarchy::groups_model(nodes).len(),
        0 <= m < nodes.len(),
        starts_with(
            hierarchy::path_segments(nodes[m].name),
            route(hierarchy::groups_model(nodes), j),
        ),
    ensures
        exists|first: int|
            0 <= first <= m && #[trigger] starts_with(
                hierarchy::path_segments(nodes[first].name),
                route(hierarchy::groups_model(nodes), i),
            ),
{
    let paths = hierarchy::group_paths(nodes, nodes.len());
    let groups = hierarchy::groups_model(nodes);
    let path = hierarchy::segments_of(nodes[m]);
    lemma_routes_are_paths(nodes, i);
    lemma_routes_are_paths(nodes, j);
    lemma_starts_with(path, paths[j]);
    let n = (m + 1) as nat;
    let early = hierarchy::group_paths(nodes, n);
    hierarchy::lemma_group_paths(nodes, n);
    hierarchy::lemma_group_paths(nodes, nodes.len());
    hierarchy::lemma_beginnings_held(nodes, n);
    hierarchy::lemma_group_paths_extend(nodes, n, nodes.len());
    assert(hierarchy::segments_of(nodes[m]).take(paths[j].len() as int) == paths[j]);
    assert(early.contains(paths[j]));
    hierarchy::lemma_place_stays(paths, early, paths[j]);
    assert(paths.index_of(paths[j]) == j);
    assert(early[early.index_of(paths[j])] == paths[j]);
    assert(j < early.len());
    let first = lemma_groups_have_nodes(nodes, n, i);
    assert(early[i] == paths[i]);
    lemma_starts_with(hierarchy::segments_of(nodes[first]), paths[i]);
    assert(starts_with(hierarchy::path_segments(nodes[first].name), route(groups, i)));
}

/// Every group but the root has a node in it or below.
pub proof fn law_groups_are_not_empty(nodes: Seq<NodeView>, i: int)
    requires
        hierarchy::groups_fit(nodes),
        0 < i < hierarchy::groups_model(nodes).len(),
    ensures
        exists|m: int|
            0 <= m < nodes.len() && #[trigger] starts_with(
                hierarchy::path_segments(nodes[m].name),
                route(hierarchy::groups_model(nodes), i),
            ),
{
    let m = lemma_groups_have_nodes(nodes, nodes.len(), i);
    lemma_routes_are_paths(nodes, i);
    lemma_starts_with(
        hierarchy::segments_of(nodes[m]),
        hierarchy::group_paths(nodes, nodes.len())[i],
    );
    assert(starts_with(
        hierarchy::path_segments(nodes[m].name),
        route(hierarchy::groups_model(nodes), i),
    ));
}

proof fn lemma_count_below_sum(nodes: Seq<NodeView>, path: Seq<Seq<char>>, n: nat)
    requires
        n <= nodes.len(),
    ensures
        hierarchy::count_below(nodes, path, n) == tally::sum(
            n,
            |m: int| tally::one(starts_with(hierarchy::path_segments(nodes[m].name), path)),
        ),
    decreases n,
{
    if n > 0 {
        lemma_count_below_sum(nodes, path, (n - 1) as nat);
        lemma_starts_with(hierarchy::segments_of(nodes[n - 1]), path);
    }
}

/// The total of a group is the number of nodes whose names lead to it or through
/// it.
pub proof fn law_totals_count_the_nodes_below(nodes: Seq<NodeView>, i: int)
    requires
        hierarchy::groups_fit(nodes),
        0 <= i < hierarchy::groups_model(nodes).len(),
    ensures
        hierarchy::groups_model(nodes)[i].total_nodes == tally::sum(
            nodes.len(),
            |m: int|
                tally::one(
                    starts_with(
                        hierarchy::path_segments(nodes[m].name),
                        route(hierarchy::groups_model(nodes), i),
                    ),
                ),
        ),
{
    let path = hierarchy::group_paths(nodes, nodes.len())[i];
    lemma_routes_are_paths(nodes, i);
    lemma_count_below_sum(nodes, path, nodes.len());
}

proof fn lemma_members_ascend(nodes: Seq<NodeView>, path: Seq<Seq<char>>, n: nat)
    requires
        n <= nodes.len() <= u32::MAX,
        forall|i: int| 0 <= i < nodes.len() ==> (#[trigger] nodes[i]).id == NodeId(i as u32),
    ensures
        forall|k: int|
            0 <= k < hierarchy::members_of(nodes, path, n).len() ==> (
            #[trigger] hierarchy::members_of(nodes, path, n)[k]).0 < n,
        forall|k: int, l: int|
            0 <= k < l < hierarchy::members_of(nodes, path, n).len() ==> (
            #[trigger] hierarchy::members_of(nodes, path, n)[k]).0 < (
            #[trigger] hierarchy::members_of(nodes, path, n)[l]).0,
    decreases n,
{
    if n > 0 {
        lemma_members_ascend(nodes, path, (n - 1) as nat);
        let before = hierarchy::members_of(nodes, path, (n - 1) as nat);
        let after = hierarchy::members_of(nodes, path, n);
        assert forall|k: int| 0 <= k < after.len() implies (#[trigger] after[k]).0 < n by {
            if k < before.len() {
                assert(after[k] == before[k]);
            }
        }
        assert forall|k: int, l: int| 0 <= k < l < after.len() implies (#[trigger] after[k]).0 < (
        #[trigger] after[l]).0 by {
            assert(after[k] == before[k]);
            if l < before.len() {
                assert(after[l] == before[l]);
            }
        }
    }
}

/// A group lists the nodes that are directly in it, in their own order, and the
/// groups directly below it, in theirs.
pub proof fn law_groups_list_what_they_hold(nodes: Seq<NodeView>, i: int, m: int, j: int)
    requires
        nodes.len() <= u32::MAX,
        hierarchy::groups_fit(nodes),
        forall|k: int| 0 <= k < nodes.len() ==> (#[trigger] nodes[k]).id == NodeId(k as u32),
        0 <= i < hierarchy::groups_model(nodes).len(),
        0 <= m < nodes.len(),
        0 <= j < hierarchy::groups_model(nodes).len(),
    ensures
        ({
            let h = hierarchy::hierarchy_model(nodes);
            let group = h.groups[i];
            &&& group.nodes.contains(NodeId(m as u32)) <==> h.node_group[m] == GroupId(i as u32)
            &&& group.children.contains(GroupId(j as u32)) <==> h.groups[j].parent == Some(
                GroupId(i as u32),
            )
            &&& forall|k: int, l: int|
                0 <= k < l < group.nodes.len() ==> (#[trigger] group.nodes[k]).0 < (
                #[trigger] group.nodes[l]).0
            &&& forall|k: int, l: int|
                0 <= k < l < group.children.len() ==> (#[trigger] group.children[k]).0 < (
                #[trigger] group.children[l]).0
        }),
{
    let h = hierarchy::hierarchy_model(nodes);
    let paths = hierarchy::group_paths(nodes, nodes.len());
    hierarchy::law_hierarchy_is_well_formed(nodes);
    lemma_members_ascend(nodes, paths[i], nodes.len());
    lemma_children_ascend(paths, paths[i], paths.len());
    let group = h.groups[i];
    assert(h.members_wf(group, i));
    assert(h.children_wf(group, i));
    if group.nodes.contains(NodeId(m as u32)) {
        let k = group.nodes.index_of(NodeId(m as u32));
        assert(group.nodes[k].0 == m);
    }
    assert(h.groups[h.node_group[m].0 as int].nodes.contains(NodeId(m as u32)));
    if group.children.contains(GroupId(j as u32)) {
        let k = group.children.index_of(GroupId(j as u32));
        assert(group.children[k].0 == j);
    }
    if h.groups[j].parent == Some(GroupId(i as u32)) {
        if j > 0 {
            assert(h.has_parent(h.groups[j], j));
        }
    }
}

proof fn lemma_children_ascend(paths: Seq<Seq<Seq<char>>>, path: Seq<Seq<char>>, n: nat)
    requires
        n <= paths.len() <= u32::MAX,
    ensures
        forall|k: int|
            0 <= k < hierarchy::children_of(paths, path, n).len() ==> (
            #[trigger] hierarchy::children_of(paths, path, n)[k]).0 < n,
        forall|k: int, l: int|
            0 <= k < l < hierarchy::children_of(paths, path, n).len() ==> (
            #[trigger] hierarchy::children_of(paths, path, n)[k]).0 < (
            #[trigger] hierarchy::children_of(paths, path, n)[l]).0,
    decreases n,
{
    if n > 0 {
        lemma_children_ascend(paths, path, (n - 1) as nat);
        let before = hierarchy::children_of(paths, path, (n - 1) as nat);
        let after = hierarchy::children_of(paths, path, n);
        assert forall|k: int| 0 <= k < after.len() implies (#[trigger] after[k]).0 < n by {
            if k < before.len() {
                assert(after[k] == before[k]);
            }
        }
        assert forall|k: int, l: int| 0 <= k < l < after.len() implies (#[trigger] after[k]).0 < (
        #[trigger] after[l]).0 by {
            assert(after[k] == before[k]);
            if l < before.len() {
                assert(after[l] == before[l]);
            }
        }
    }
}

proof fn lemma_name_counts(nodes: Seq<NodeView>, n: nat)
    requires
        n <= nodes.len(),
    ensures
        hierarchy::named_count(nodes, n) == tally::sum(n, |m: int| tally::one(nodes[m].named)),
        hierarchy::path_count(nodes, n) == tally::sum(
            n,
            |m: int|
                tally::one(
                    nodes[m].named && hierarchy::path_segments(nodes[m].name).len() > 0,
                ),
        ),
    decreases n,
{
    if n > 0 {
        lemma_name_counts(nodes, (n - 1) as nat);
    }
}

/// Names carry structure exactly where some node is named by the model, some
/// name leads through a module, and of the nodes that the model names at least
/// three in ten do.
pub proof fn law_structure_takes_three_in_ten(nodes: Seq<NodeView>)
    ensures
        hierarchy::has_structure(nodes) <==> {
            let named = tally::sum(nodes.len(), |m: int| tally::one(nodes[m].named));
            let with_path = tally::sum(
                nodes.len(),
                |m: int|
                    tally::one(
                        nodes[m].named && hierarchy::path_segments(nodes[m].name).len() > 0,
                    ),
            );
            &&& named > 0
            &&& 10 * with_path >= 3 * named
            &&& exists|m: int|
                0 <= m < nodes.len() && hierarchy::path_segments((#[trigger] nodes[m]).name).len()
                    > 0
        },
{
    let paths = hierarchy::group_paths(nodes, nodes.len());
    lemma_name_counts(nodes, nodes.len());
    hierarchy::lemma_group_paths(nodes, nodes.len());
    if paths.len() >= 2 {
        let m = lemma_groups_have_nodes(nodes, nodes.len(), 1);
        assert(hierarchy::extends_earlier(paths, 1, paths[1]));
        assert(hierarchy::path_segments(nodes[m].name).len() > 0);
    }
    if exists|m: int|
        0 <= m < nodes.len() && hierarchy::path_segments((#[trigger] nodes[m]).name).len() > 0 {
        let m = choose|m: int|
            0 <= m < nodes.len() && hierarchy::path_segments((#[trigger] nodes[m]).name).len() > 0;
        let path = hierarchy::segments_of(nodes[m]);
        assert(paths.contains(path));
        assert(paths[paths.index_of(path)] == path);
        assert(paths.index_of(path) != 0);
    }
}

} // verus!
