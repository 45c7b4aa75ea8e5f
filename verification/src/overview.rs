//! What is said of a model, a graph or a block as a whole.

use crate::chars;
use crate::collect::{Scope, ScopeView};
use crate::details::push_fact;
use crate::graph::{Graph, GraphView, Model, ModelView, OpsetImport, OpsetView};
use crate::hierarchy::{self, Group, GroupId, Hierarchy, HierarchyView};
use crate::model::{self, GraphId, NodeId, Value, ValueId};
use crate::queries;
use crate::search::{self, trim_end};
use crate::text::{self, decimal_text, elide, format_count, signed_text};
use vstd::prelude::*;
use vstd::string::*;

verus! {

/// The number of elements stored as constants in the first `n` graphs.
pub open spec fn graphs_parameters(graphs: Seq<GraphView>, n: nat) -> nat
    decreases n,
{
    if n == 0 {
        0
    } else {
        graphs_parameters(graphs, (n - 1) as nat) + graphs[n - 1].parameters()
    }
}

impl ModelView {
    /// The number of elements stored as constants in all graphs.
    pub open spec fn parameters(self) -> nat {
        graphs_parameters(self.graphs, self.graphs.len())
    }

    /// Whether the constants of all graphs can be counted in 64 bits.
    pub open spec fn parameters_countable(self) -> bool {
        &&& self.parameters() <= u64::MAX
        &&& forall|i: int|
            0 <= i < self.graphs.len() ==> (#[trigger] self.graphs[i]).parameters_countable()
    }
}

proof fn lemma_graphs_parameters_grow(graphs: Seq<GraphView>, k: nat, n: nat)
    requires
        k <= n,
    ensures
        graphs_parameters(graphs, k) <= graphs_parameters(graphs, n),
    decreases n,
{
    if k < n {
        lemma_graphs_parameters_grow(graphs, k, (n - 1) as nat);
    }
}

impl Model {
    /// The number of elements stored as constants in all graphs, or `None`
    /// where they cannot be counted in 64 bits.
    pub fn try_parameter_count(&self) -> (count: Option<u64>)
        ensures
            match count {
                Some(count) => self@.parameters_countable() && count == self@.parameters(),
                None => !self@.parameters_countable(),
            },
    {
        let ghost graphs = self@.graphs;
        let mut count: u64 = 0;
        for i in 0..self.graphs.len()
            invariant
                graphs == self@.graphs,
                count == graphs_parameters(graphs, i as nat),
                forall|k: int| 0 <= k < i ==> (#[trigger] graphs[k]).parameters_countable(),
        {
            assert(graphs[i as int] == self.graphs@[i as int]@);
            match self.graphs[i].try_parameter_count() {
                Some(more) => {
                    proof {
                        lemma_graphs_parameters_grow(graphs, i as nat + 1, graphs.len());
                    }
                    match count.checked_add(more) {
                        Some(sum) => {
                            count = sum;
                        },
                        None => {
                            return None;
                        },
                    }
                },
                None => {
                    assert(!graphs[i as int].parameters_countable());
                    return None;
                },
            }
        }
        Some(count)
    }

    /// The number of elements stored as constants in all graphs.
    pub fn parameter_count(&self) -> (count: u64)
        requires
            self@.parameters_countable(),
        ensures
            count == self@.parameters(),
    {
        match self.try_parameter_count() {
            Some(count) => count,
            None => 0,
        }
    }
}

impl ModelView {
    /// What produced the model: the name of the program and its version.
    pub open spec fn producer_text(self) -> Option<Seq<char>> {
        match self.producer_name {
            Some(name) => Some(
                search::trimmed_end(
                    name + " "@ + match self.producer_version {
                        Some(version) => version,
                        None => Seq::empty(),
                    },
                ),
            ),
            None => None,
        }
    }
}

impl Model {
    /// What produced the model: the name of the program and its version.
    pub fn producer(&self) -> (producer: Option<String>)
        ensures
            chars::opt_view(producer) == self@.producer_text(),
    {
        match &self.producer_name {
            Some(name) => {
                let mut text: String = name.clone();
                text.append(" ");
                match &self.producer_version {
                    Some(version) => {
                        text.append(version.as_str());
                    },
                    None => {
                        assert(text@ =~= name@ + " "@ + Seq::empty());
                    },
                }
                Some(trim_end(text.as_str()))
            },
            None => None,
        }
    }
}

impl OpsetView {
    /// The domain and the version, where there is one.
    pub open spec fn summary(self) -> Seq<char> {
        match self.version {
            Some(version) => self.display_domain() + " v"@ + text::signed_decimal(version as int),
            None => self.display_domain(),
        }
    }
}

impl OpsetImport {
    /// The domain and the version, eg. `ai.onnx v17`.
    pub fn summary(&self) -> (summary: String)
        ensures
            summary@ == self@.summary(),
    {
        let mut summary: String = self.display_domain().to_owned();
        if let Some(version) = self.version {
            summary.append(" v");
            let number: String = signed_text(version);
            summary.append(number.as_str());
        }
        summary
    }
}

/// The facts about a model.
pub open spec fn model_facts(model: ModelView) -> Seq<(Seq<char>, Seq<char>)> {
    let producer = match model.producer_text() {
        Some(producer) => seq![("Producer"@, producer)],
        None => Seq::empty(),
    };
    let version = match model.ir_version {
        Some(version) => seq![("IR version"@, text::signed_decimal(version as int))],
        None => Seq::empty(),
    };
    let opsets = Seq::new(
        model.opset_imports.len(),
        |i: int| ("Opset"@, model.opset_imports[i].summary()),
    );
    let sizes = seq![
        ("Graphs"@, text::decimal(model.graphs.len())),
        ("Parameters"@, text::compact_count(model.parameters())),
    ];
    let metadata = Seq::new(
        model.metadata.len(),
        |i: int| (model.metadata[i].0, text::elided(model.metadata[i].1, 64)),
    );
    producer + version + opsets + sizes + metadata
}

/// Lists the facts about a model, each with its name.
pub fn model_info(model: &Model) -> (facts: Vec<(String, String)>)
    requires
        model@.parameters_countable(),
    ensures
        model::pair_views(facts@) == model_facts(model@),
{
    let ghost m = model@;
    let mut facts: Vec<(String, String)> = Vec::new();
    if let Some(producer) = model.producer() {
        push_fact(&mut facts, "Producer".to_owned(), producer);
    }
    if let Some(version) = model.ir_version {
        push_fact(&mut facts, "IR version".to_owned(), signed_text(version));
    }
    let ghost opsets = Seq::new(
        m.opset_imports.len(),
        |i: int| ("Opset"@, m.opset_imports[i].summary()),
    );
    let ghost start = model::pair_views(facts@);
    assert(start =~= start + opsets.take(0));
    for i in 0..model.opset_imports.len()
        invariant
            m == model@,
            opsets == Seq::new(
                m.opset_imports.len(),
                |i: int| ("Opset"@, m.opset_imports[i].summary()),
            ),
            model::pair_views(facts@) == start + opsets.take(i as int),
    {
        assert(m.opset_imports[i as int] == model.opset_imports@[i as int]@);
        push_fact(&mut facts, "Opset".to_owned(), model.opset_imports[i].summary());
        assert(model::pair_views(facts@) =~= start + opsets.take(i + 1));
    }
    assert(opsets.take(opsets.len() as int) =~= opsets);
    push_fact(&mut facts, "Graphs".to_owned(), decimal_text(model.graph_count() as u64));
    push_fact(&mut facts, "Parameters".to_owned(), format_count(model.parameter_count()));
    let ghost metadata = Seq::new(
        m.metadata.len(),
        |i: int| (m.metadata[i].0, text::elided(m.metadata[i].1, 64)),
    );
    let ghost sizes = seq![
        ("Graphs"@, text::decimal(m.graphs.len())),
        ("Parameters"@, text::compact_count(m.parameters())),
    ];
    let ghost middle = model::pair_views(facts@);
    assert(middle =~= start + opsets + sizes);
    assert(middle =~= middle + metadata.take(0));
    for i in 0..model.metadata.len()
        invariant
            m == model@,
            metadata == Seq::new(
                m.metadata.len(),
                |i: int| (m.metadata[i].0, text::elided(m.metadata[i].1, 64)),
            ),
            model::pair_views(facts@) == middle + metadata.take(i as int),
    {
        push_fact(
            &mut facts,
            model.metadata[i].0.clone(),
            elide(model.metadata[i].1.as_str(), 64),
        );
        assert(model::pair_views(facts@) =~= middle + metadata.take(i + 1));
    }
    assert(metadata.take(metadata.len() as int) =~= metadata);
    assert(model::pair_views(facts@) =~= model_facts(m));
    facts
}

/// A link to a value, with its type.
pub struct ValueLink {
    pub value: ValueId,
    pub name: String,
    pub summary: String,
}

/// A link to a subgraph.
pub struct SubgraphLink {
    pub graph: GraphId,
    pub label: String,
}

/// What is said of a graph while nothing in it is selected.
pub struct GraphOverview {
    pub inputs: Vec<ValueLink>,
    pub outputs: Vec<ValueLink>,
    pub subgraphs: Vec<SubgraphLink>,
}

/// Whether the links are those to these values.
pub open spec fn value_links_show(links: Seq<ValueLink>, g: GraphView, ids: Seq<ValueId>) -> bool {
    &&& links.len() == ids.len()
    &&& forall|i: int| 0 <= i < ids.len() ==> value_link_shows(#[trigger] links[i], g, ids[i])
}

pub open spec fn value_link_shows(link: ValueLink, g: GraphView, id: ValueId) -> bool {
    let value = g.values[id.0 as int];
    &&& link.value == id
    &&& link.name@ == text::elided(value.name, 32)
    &&& link.summary@ == value.type_text()
}

/// Whether the link is that to the body of a node.
pub open spec fn subgraph_link_shows(
    link: SubgraphLink,
    model: ModelView,
    g: GraphView,
    body: (NodeId, Seq<char>, GraphId),
) -> bool {
    &&& link.graph == body.2
    &&& link.label@ == g.nodes[body.0.0 as int].name + "."@ + body.1 + " ("@ + text::decimal(
        model.graphs[body.2.0 as int].nodes.len(),
    ) + " nodes)"@
}

impl GraphOverview {
    /// Whether this is the overview of a graph.
    pub open spec fn shows(self, model: ModelView, g: GraphView) -> bool {
        let bodies = queries::nodes_subgraphs(g.nodes, g.nodes.len());
        &&& value_links_show(self.inputs@, g, g.inputs)
        &&& value_links_show(self.outputs@, g, g.outputs)
        &&& self.subgraphs@.len() == bodies.len()
        &&& forall|i: int|
            0 <= i < bodies.len() ==> subgraph_link_shows(
                #[trigger] self.subgraphs@[i],
                model,
                g,
                bodies[i],
            )
    }
}

fn value_links(graph: &Graph, ids: &Vec<ValueId>) -> (links: Vec<ValueLink>)
    requires
        forall|i: int| 0 <= i < ids@.len() ==> graph@.has_value(#[trigger] ids@[i]),
    ensures
        value_links_show(links@, graph@, ids@),
{
    let mut links: Vec<ValueLink> = Vec::new();
    for i in 0..ids.len()
        invariant
            forall|k: int| 0 <= k < ids@.len() ==> graph@.has_value(#[trigger] ids@[k]),
            links@.len() == i,
            forall|k: int| 0 <= k < i ==> value_link_shows(#[trigger] links@[k], graph@, ids@[k]),
    {
        let id: ValueId = ids[i];
        assert(graph@.has_value(ids@[i as int]));
        assert(graph@.values[id.0 as int] == graph.values@[id.0 as int]@);
        let value: &Value = graph.value(id);
        links.push(
            ValueLink {
                value: id,
                name: elide(value.name.as_str(), 32),
                summary: value.type_summary(),
            },
        );
    }
    links
}

/// Every body that a graph lists is one that a node of it has.
proof fn lemma_bodies_are_listed(g: GraphView, n: nat, i: int)
    requires
        g.wf(),
        n <= g.nodes.len(),
        0 <= i < queries::nodes_subgraphs(g.nodes, n).len(),
    ensures
        g.has_node(queries::nodes_subgraphs(g.nodes, n)[i].0),
        exists|at: int, j: int|
            #[trigger] crate::graph::has_body(
                g,
                at,
                j,
                queries::nodes_subgraphs(g.nodes, n)[i].2,
            ),
    decreases n,
{
    let before = queries::nodes_subgraphs(g.nodes, (n - 1) as nat);
    if i < before.len() {
        lemma_bodies_are_listed(g, (n - 1) as nat, i);
    } else {
        assert(g.node_wf(g.nodes[n - 1], n - 1));
        lemma_node_bodies(g, n - 1, g.nodes[n - 1].attrs.len(), i - before.len());
    }
}

proof fn lemma_node_bodies(g: GraphView, n: int, m: nat, i: int)
    requires
        0 <= n < g.nodes.len(),
        m <= g.nodes[n].attrs.len(),
        0 <= i < queries::node_subgraphs(g.nodes[n], m).len(),
    ensures
        queries::node_subgraphs(g.nodes[n], m)[i].0 == g.nodes[n].id,
        exists|j: int|
            #[trigger] crate::graph::has_body(
                g,
                n,
                j,
                queries::node_subgraphs(g.nodes[n], m)[i].2,
            ),
    decreases m,
{
    let before = queries::node_subgraphs(g.nodes[n], (m - 1) as nat);
    if i < before.len() {
        lemma_node_bodies(g, n, (m - 1) as nat, i);
    } else {
        assert(crate::graph::has_body(
            g,
            n,
            m - 1,
            queries::node_subgraphs(g.nodes[n], m)[i].2,
        ));
    }
}

/// Describes a graph as a whole.
pub fn graph_overview(model: &Model, id: GraphId) -> (overview: GraphOverview)
    requires
        model.wf(),
        model@.has_graph(id),
    ensures
        overview.shows(model@, model@.graphs[id.0 as int]),
{
    let ghost m = model@;
    let ghost k = id.0 as int;
    let ghost g = m.graphs[k];
    let graph: &Graph = model.graph(id);
    assert(g == graph@ && g.wf());
    let inputs: Vec<ValueLink> = value_links(graph, &graph.inputs);
    let outputs: Vec<ValueLink> = value_links(graph, &graph.outputs);
    let bodies: Vec<(NodeId, &str, GraphId)> = graph.subgraphs();
    let ghost views = queries::nodes_subgraphs(g.nodes, g.nodes.len());
    assert(queries::subgraph_views(bodies@) == views);
    let mut subgraphs: Vec<SubgraphLink> = Vec::new();
    for i in 0..bodies.len()
        invariant
            m == model@,
            m.wf(),
            0 <= k < m.graphs.len(),
            g == m.graphs[k],
            g == graph@,
            views == queries::nodes_subgraphs(g.nodes, g.nodes.len()),
            queries::subgraph_views(bodies@) == views,
            subgraphs@.len() == i,
            forall|j: int|
                0 <= j < i ==> subgraph_link_shows(#[trigger] subgraphs@[j], m, g, views[j]),
    {
        let (node, attr, sub): (NodeId, &str, GraphId) = bodies[i];
        proof {
            assert(views[i as int] == (node, attr@, sub));
            lemma_bodies_are_listed(g, g.nodes.len(), i as int);
            let (at, j) = choose|at: int, j: int| #[trigger]
                crate::graph::has_body(g, at, j, views[i as int].2);
            assert(crate::graph::has_body(m.graphs[k], at, j, sub));
            assert(g.nodes[node.0 as int] == graph.nodes@[node.0 as int]@);
            assert(m.graphs[sub.0 as int] == model.graphs@[sub.0 as int]@);
        }
        let mut label: String = graph.node(node).name.clone();
        label.append(".");
        label.append(attr);
        label.append(" (");
        let count: String = decimal_text(model.graph(sub).nodes.len() as u64);
        label.append(count.as_str());
        label.append(" nodes)");
        subgraphs.push(SubgraphLink { graph: sub, label });
    }
    GraphOverview { inputs, outputs, subgraphs }
}

/// A link to a block.
pub struct BlockLink {
    pub group: GroupId,
    pub label: String,
}

/// What is said of the block that is open while nothing in it is selected.
pub struct BlockOverview {
    pub name: String,
    pub path: String,
    /// Facts about the block, each with its name.
    pub facts: Vec<(String, String)>,
    pub blocks: Vec<BlockLink>,
}

pub open spec fn block_link_shows(link: BlockLink, h: HierarchyView, id: GroupId) -> bool {
    let group = h.groups[id.0 as int];
    &&& link.group == id
    &&& link.label@ == group.name + " ("@ + text::decimal(group.total_nodes) + " operators)"@
}

/// The facts about a block.
pub open spec fn block_facts(group: hierarchy::GroupView) -> Seq<(Seq<char>, Seq<char>)> {
    let operators = seq![("Operators"@, text::compact_count(group.total_nodes))];
    if group.children.len() > 0 {
        operators.push(("Blocks"@, text::decimal(group.children.len())))
    } else {
        operators
    }
}

impl BlockOverview {
    /// Whether this is the overview of a block.
    pub open spec fn shows(self, h: HierarchyView, id: GroupId) -> bool {
        let group = h.groups[id.0 as int];
        &&& self.name@ == group.name
        &&& self.path@ == group.path
        &&& model::pair_views(self.facts@) == block_facts(group)
        &&& self.blocks@.len() == group.children.len()
        &&& forall|i: int|
            0 <= i < group.children.len() ==> block_link_shows(
                #[trigger] self.blocks@[i],
                h,
                group.children[i],
            )
    }
}

/// Describes a block as a whole.
pub fn block_overview(hierarchy: &Hierarchy, id: GroupId) -> (overview: BlockOverview)
    requires
        hierarchy@.wf(),
        hierarchy@.has_group(id),
    ensures
        overview.shows(hierarchy@, id),
{
    let ghost h = hierarchy@;
    let ghost view = h.groups[id.0 as int];
    let group: &Group = hierarchy.group(id);
    assert(h.children_wf(view, id.0 as int));
    let mut facts: Vec<(String, String)> = Vec::new();
    push_fact(&mut facts, "Operators".to_owned(), format_count(group.total_nodes as u64));
    if group.children.len() > 0 {
        push_fact(&mut facts, "Blocks".to_owned(), decimal_text(group.children.len() as u64));
    }
    assert(model::pair_views(facts@) =~= block_facts(view));
    let mut blocks: Vec<BlockLink> = Vec::new();
    for i in 0..group.children.len()
        invariant
            h == hierarchy@,
            h.wf(),
            group@ == view,
            h.children_wf(view, id.0 as int),
            blocks@.len() == i,
            forall|k: int|
                0 <= k < i ==> block_link_shows(#[trigger] blocks@[k], h, view.children[k]),
    {
        let child_id: GroupId = group.children[i];
        assert(child_id == view.children[i as int]);
        let child: &Group = hierarchy.group(child_id);
        let mut label: String = child.name.clone();
        label.append(" (");
        let count: String = decimal_text(child.total_nodes as u64);
        label.append(count.as_str());
        label.append(" operators)");
        blocks.push(BlockLink { group: child_id, label });
    }
    BlockOverview { name: group.name.clone(), path: group.path.clone(), facts, blocks }
}

/// One step in the breadcrumb trail.
#[derive(Copy, Clone, PartialEq, Eq, Debug, Structural)]
pub enum Step {
    Graph(GraphId),
    Group(GroupId),
}

/// A step in the breadcrumb trail and what its link says.
pub struct Crumb {
    pub label: String,
    pub step: Step,
}

pub open spec fn crumb_views(crumbs: Seq<Crumb>) -> Seq<(Seq<char>, Step)> {
    Seq::new(crumbs.len(), |i: int| (crumbs[i].label@, crumbs[i].step))
}

/// The steps through the graphs that enclose a graph, down to the graph itself.
pub open spec fn graph_steps(model: ModelView, id: GraphId) -> Seq<(Seq<char>, Step)> {
    let path = queries::path_of(model.graphs, id);
    Seq::new(
        path.len(),
        |i: int| (model.graphs[path[i].0 as int].label, Step::Graph(path[i])),
    )
}

/// The steps through the blocks that enclose a block, down to the block itself.
/// The root group stands for the whole graph, which the steps through the
/// graphs already name.
pub open spec fn group_steps(h: HierarchyView, id: GroupId) -> Seq<(Seq<char>, Step)> {
    let chain = hierarchy::chain_of(h.groups, id);
    Seq::new(
        (chain.len() - 1) as nat,
        |i: int| (h.groups[chain[i + 1].0 as int].name, Step::Group(chain[i + 1])),
    )
}

/// The breadcrumb trail: through any enclosing subgraphs, then down through the
/// blocks opened within the current graph. A single step leads nowhere.
pub open spec fn trail(model: ModelView, graph: GraphId, scope: Option<ScopeView>) -> Seq<
    (Seq<char>, Step),
> {
    let steps = graph_steps(model, graph) + match scope {
        Some(scope) => group_steps(scope.hierarchy, scope.group),
        None => Seq::empty(),
    };
    if steps.len() < 2 {
        Seq::empty()
    } else {
        steps
    }
}

fn push_crumb(crumbs: &mut Vec<Crumb>, label: String, step: Step)
    ensures
        crumb_views(final(crumbs)@) == crumb_views(old(crumbs)@).push((label@, step)),
{
    crumbs.push(Crumb { label, step });
    assert(crumb_views(crumbs@) =~= crumb_views(old(crumbs)@).push((label@, step)));
}

fn push_graph_steps(crumbs: &mut Vec<Crumb>, model: &Model, graph: GraphId)
    requires
        model.wf(),
        model@.has_graph(graph),
    ensures
        crumb_views(final(crumbs)@) == crumb_views(old(crumbs)@) + graph_steps(model@, graph),
{
    let ghost m = model@;
    let ghost start = crumb_views(crumbs@);
    let ghost steps = graph_steps(m, graph);
    let path: Vec<GraphId> = model.path_to(graph);
    proof {
        queries::law_path_descends(m, graph);
        assert(start =~= start + steps.take(0));
    }
    for i in 0..path.len()
        invariant
            m == model@,
            m.wf(),
            path@ == queries::path_of(m.graphs, graph),
            path@.len() > 0,
            path@[0] == m.root,
            forall|k: int| 0 < k < path@.len() ==> m.has_graph(#[trigger] path@[k]),
            steps == graph_steps(m, graph),
            crumb_views(crumbs@) == start + steps.take(i as int),
    {
        let id: GraphId = path[i];
        assert(m.has_graph(id));
        assert(m.graphs[id.0 as int] == model.graphs@[id.0 as int]@);
        push_crumb(crumbs, model.graph(id).label.clone(), Step::Graph(id));
        assert(crumb_views(crumbs@) =~= start + steps.take(i + 1));
    }
    assert(steps.take(steps.len() as int) =~= steps);
}

fn push_group_steps(crumbs: &mut Vec<Crumb>, hierarchy: &Hierarchy, group: GroupId)
    requires
        hierarchy@.wf(),
        hierarchy@.has_group(group),
    ensures
        crumb_views(final(crumbs)@) == crumb_views(old(crumbs)@) + group_steps(hierarchy@, group),
{
    let ghost h = hierarchy@;
    let ghost start = crumb_views(crumbs@);
    let ghost steps = group_steps(h, group);
    let chain: Vec<GroupId> = hierarchy.path_to(group);
    proof {
        hierarchy::law_chain_descends(h, group);
        assert(start =~= start + steps.take(0));
    }
    let count: usize = chain.len();
    for i in 1..count
        invariant
            h == hierarchy@,
            h.wf(),
            count == chain@.len(),
            count > 0,
            chain@ == hierarchy::chain_of(h.groups, group),
            forall|k: int| 0 < k < chain@.len() ==> h.has_group(#[trigger] chain@[k]),
            steps == group_steps(h, group),
            crumb_views(crumbs@) == start + steps.take(i - 1),
    {
        let id: GroupId = chain[i];
        assert(h.has_group(chain@[i as int]));
        push_crumb(crumbs, hierarchy.group(id).name.clone(), Step::Group(id));
        assert(crumb_views(crumbs@) =~= start + steps.take(i as int));
    }
    assert(steps.take(steps.len() as int) =~= steps);
}

/// Path from the root graph to the current one, and on to the block that is
/// open in it.
pub fn breadcrumb<'a>(model: &Model, graph: GraphId, scope: Option<Scope<'a>>) -> (crumbs: Vec<
    Crumb,
>)
    requires
        model.wf(),
        model@.has_graph(graph),
        scope is Some ==> scope->0.hierarchy@.wf() && scope->0.hierarchy@.has_group(
            scope->0.group,
        ),
    ensures
        crumb_views(crumbs@) == trail(model@, graph, chars::opt_view(scope)),
{
    let mut crumbs: Vec<Crumb> = Vec::new();
    assert(crumb_views(crumbs@) =~= Seq::empty());
    push_graph_steps(&mut crumbs, model, graph);
    if let Some(scope) = scope {
        push_group_steps(&mut crumbs, scope.hierarchy, scope.group);
    }
    if crumbs.len() < 2 {
        let none: Vec<Crumb> = Vec::new();
        assert(crumb_views(none@) =~= Seq::empty());
        none
    } else {
        crumbs
    }
}

/// The trail starts at the main graph and ends where the view is: at the block
/// that is open, or at the graph where that is its root.
pub proof fn law_trail_ends_at_the_view(model: ModelView, graph: GraphId, scope: Option<ScopeView>)
    requires
        model.wf(),
        model.has_graph(graph),
        scope is Some ==> scope->0.hierarchy.wf() && scope->0.hierarchy.has_group(scope->0.group),
        trail(model, graph, scope).len() > 0,
    ensures
        trail(model, graph, scope)[0].1 == Step::Graph(model.root),
        trail(model, graph, scope).last().1 == match scope {
            Some(scope) => if scope.group == GroupId(0) {
                Step::Graph(graph)
            } else {
                Step::Group(scope.group)
            },
            None => Step::Graph(graph),
        },
{
    queries::law_path_descends(model, graph);
    if let Some(scope) = scope {
        hierarchy::law_chain_descends(scope.hierarchy, scope.group);
        if scope.group == GroupId(0) {
            assert(hierarchy::chain_of(scope.hierarchy.groups, scope.group).len() == 1);
        }
    }
}

} // verus!
