//! An overview of a model for the terminal.

use crate::chars;
use crate::graph::{Graph, GraphView, Model, ModelView};
use crate::hierarchy::{self, Group, Hierarchy, HierarchyView};
use crate::layout::Layout;
use crate::model::{NodeView, Value, ValueId};
use crate::queries;
use crate::text::{self, decimal_text, signed_text};
use vstd::prelude::*;
use vstd::string::*;

verus! {

/// The number of op types that are listed.
pub const MAX_OPERATORS: usize = 8;

/// Graphs with fewer nodes are laid out without a line of their own.
pub const MIN_REPORTED: usize = 100;

/// `n` spaces.
pub open spec fn spaces(n: nat) -> Seq<char> {
    Seq::new(n, |i: int| ' ')
}

/// The spaces that fill a text up to a width.
pub open spec fn filling(s: Seq<char>, width: nat) -> Seq<char> {
    if s.len() < width {
        spaces((width - s.len()) as nat)
    } else {
        Seq::empty()
    }
}

/// A text set at the right of a column.
pub open spec fn at_right(s: Seq<char>, width: nat) -> Seq<char> {
    filling(s, width) + s
}

/// A text set at the left of a column.
pub open spec fn at_left(s: Seq<char>, width: nat) -> Seq<char> {
    s + filling(s, width)
}

fn fill(s: &str, width: usize) -> (text: String)
    ensures
        text@ == filling(s@, width as nat),
{
    let len: usize = s.unicode_len();
    let mut text: String = String::new();
    if len < width {
        for i in 0..width - len
            invariant
                text@ == spaces(i as nat),
        {
            text.push(' ');
            assert(text@ =~= spaces(i as nat + 1));
        }
    } else {
        assert(text@ =~= filling(s@, width as nat));
    }
    text
}

fn pad_left(s: &str, width: usize) -> (text: String)
    ensures
        text@ == at_right(s@, width as nat),
{
    let mut text: String = fill(s, width);
    text.append(s);
    text
}

fn pad_right(s: &str, width: usize) -> (text: String)
    ensures
        text@ == at_left(s@, width as nat),
{
    let mut text: String = s.to_owned();
    let rest: String = fill(s, width);
    text.append(rest.as_str());
    text
}

fn push_line(lines: &mut Vec<String>, line: String)
    ensures
        chars::views(final(lines)@) == chars::views(old(lines)@).push(line@),
{
    lines.push(line);
    assert(chars::views(lines@) =~= chars::views(old(lines)@).push(line@));
}

/// The concatenation of a few texts.
fn line_of(start: &str, middle: &str, end: &str) -> (line: String)
    ensures
        line@ == start@ + middle@ + end@,
{
    let mut line: String = start.to_owned();
    line.append(middle);
    line.append(end);
    line
}

/// What made the model, and for which versions of the format.
pub open spec fn origin_lines(model: ModelView) -> Seq<Seq<char>> {
    let producer = match model.producer_text() {
        Some(producer) => seq!["  producer:   "@ + producer],
        None => Seq::empty(),
    };
    let version = match model.ir_version {
        Some(version) => seq!["  ir version: "@ + text::signed_decimal(version as int)],
        None => Seq::empty(),
    };
    let opsets = Seq::new(
        model.opset_imports.len(),
        |i: int| "  opset:      "@ + model.opset_imports[i].summary(),
    );
    producer + version + opsets
}

/// The number of nodes in the first `n` graphs.
pub open spec fn nodes_in(graphs: Seq<GraphView>, n: nat) -> nat
    decreases n,
{
    if n == 0 {
        0
    } else {
        nodes_in(graphs, (n - 1) as nat) + graphs[n - 1].nodes.len()
    }
}

/// The line on the blocks that the names of the nodes describe.
pub open spec fn block_line(nodes: Seq<NodeView>) -> Seq<char> {
    if hierarchy::has_structure(nodes) {
        "  blocks:     "@ + text::decimal(
            (hierarchy::hierarchy_model(nodes).groups.len() - 1) as nat,
        ) + " from node names"@
    } else {
        "  blocks:     none, node names are not hierarchical"@
    }
}

/// How large the model is.
pub open spec fn size_lines(model: ModelView) -> Seq<Seq<char>> {
    let root = model.graphs[model.root.0 as int];
    seq![
        "  graphs:     "@ + text::decimal(model.graphs.len()),
        block_line(root.nodes),
        "  nodes:      "@ + text::decimal(root.nodes.len()) + " in the main graph, "@
            + text::decimal(nodes_in(model.graphs, model.graphs.len())) + " in total"@,
        "  parameters: "@ + text::decimal(model.parameters()),
    ]
}

/// The lines on some of the values of a graph.
pub open spec fn value_lines(g: GraphView, ids: Seq<ValueId>) -> Seq<Seq<char>> {
    Seq::new(
        ids.len(),
        |i: int|
            "    "@ + g.values[ids[i].0 as int].name + " "@ + g.values[ids[i].0 as int].type_text(),
    )
}

/// The lines on the operators that a graph uses, given how often it uses each.
pub open spec fn operator_lines(counts: Seq<(Seq<char>, nat)>) -> Seq<Seq<char>> {
    let shown = if counts.len() < MAX_OPERATORS {
        counts.len()
    } else {
        MAX_OPERATORS as nat
    };
    seq!["  operators:  "@ + text::decimal(counts.len()) + " distinct"@] + Seq::new(
        shown,
        |i: int| "    "@ + at_right(text::decimal(counts[i].1), 6) + "  "@ + counts[i].0,
    )
}

/// The line on a graph that another one encloses.
pub open spec fn subgraph_line(model: ModelView, g: GraphView) -> Seq<char> {
    "  subgraph "@ + g.label + " of "@ + model.graphs[(g.parent->0).0 as int].label + ": "@
        + text::decimal(g.nodes.len()) + " nodes"@
}

/// The lines on those of the first `n` graphs that another one encloses.
pub open spec fn subgraph_lines(model: ModelView, n: nat) -> Seq<Seq<char>>
    decreases n,
{
    if n == 0 {
        Seq::empty()
    } else {
        let before = subgraph_lines(model, (n - 1) as nat);
        let g = model.graphs[n - 1];
        if g.parent is Some {
            before.push(subgraph_line(model, g))
        } else {
            before
        }
    }
}

/// The overview of a model, given how often its main graph uses each operator.
pub open spec fn summary_text(
    model: ModelView,
    file_name: Seq<char>,
    load_time: Seq<char>,
    counts: Seq<(Seq<char>, nat)>,
) -> Seq<Seq<char>> {
    let root = model.graphs[model.root.0 as int];
    seq![file_name + "  (loaded in "@ + load_time + " ms)"@] + origin_lines(model) + size_lines(
        model,
    ) + seq!["  inputs:"@] + value_lines(root, root.inputs) + seq!["  outputs:"@] + value_lines(
        root,
        root.outputs,
    ) + operator_lines(counts) + subgraph_lines(model, model.graphs.len())
}

/// Whether `counts` is how often the nodes use each operator, most often first.
pub open spec fn counts_operators(nodes: Seq<NodeView>, counts: Seq<(Seq<char>, nat)>) -> bool {
    queries::lists_op_types(nodes, counts) && queries::in_count_order(counts)
}

fn push_origin(lines: &mut Vec<String>, model: &Model)
    ensures
        chars::views(final(lines)@) == chars::views(old(lines)@) + origin_lines(model@),
{
    let ghost m = model@;
    let ghost start = chars::views(lines@);
    if let Some(producer) = model.producer() {
        push_line(lines, line_of("  producer:   ", producer.as_str(), ""));
    }
    if let Some(version) = model.ir_version {
        let number: String = signed_text(version);
        push_line(lines, line_of("  ir version: ", number.as_str(), ""));
    }
    let ghost opsets = Seq::new(
        m.opset_imports.len(),
        |i: int| "  opset:      "@ + m.opset_imports[i].summary(),
    );
    let ghost middle = chars::views(lines@);
    assert(middle =~= middle + opsets.take(0));
    for i in 0..model.opset_imports.len()
        invariant
            m == model@,
            opsets == Seq::new(
                m.opset_imports.len(),
                |i: int| "  opset:      "@ + m.opset_imports[i].summary(),
            ),
            chars::views(lines@) == middle + opsets.take(i as int),
    {
        let summary: String = model.opset_imports[i].summary();
        push_line(lines, line_of("  opset:      ", summary.as_str(), ""));
        proof {
            lemma_empty_text();
            assert(m.opset_imports[i as int] == model.opset_imports@[i as int]@);
            assert("  opset:      "@ + summary@ + ""@ =~= opsets[i as int]);
            assert(chars::views(lines@) =~= middle + opsets.take(i + 1));
        }
    }
    proof {
        lemma_empty_text();
        assert(opsets.take(opsets.len() as int) =~= opsets);
        if let Some(producer) = m.producer_text() {
            assert("  producer:   "@ + producer + ""@ =~= "  producer:   "@ + producer);
        }
        if let Some(version) = m.ir_version {
            let number = text::signed_decimal(version as int);
            assert("  ir version: "@ + number + ""@ =~= "  ir version: "@ + number);
        }
        assert(chars::views(lines@) =~= start + origin_lines(m));
    }
}

proof fn lemma_empty_text()
    ensures
        ""@ == Seq::<char>::empty(),
{
    reveal_strlit("");
    assert(""@ =~= Seq::<char>::empty());
}

proof fn lemma_nodes_bound(graphs: Seq<GraphView>, n: nat)
    requires
        n <= graphs.len(),
        forall|i: int| 0 <= i < graphs.len() ==> (#[trigger] graphs[i]).nodes.len() <= u32::MAX,
    ensures
        nodes_in(graphs, n) <= n * u32::MAX,
    decreases n,
{
    if n > 0 {
        lemma_nodes_bound(graphs, (n - 1) as nat);
        assert(n * u32::MAX == (n - 1) * u32::MAX + u32::MAX) by (nonlinear_arith)
            requires
                n > 0,
        ;
    }
}

fn count_nodes(model: &Model) -> (count: u64)
    requires
        model.wf(),
    ensures
        count == nodes_in(model@.graphs, model@.graphs.len()),
{
    let ghost graphs = model@.graphs;
    let mut count: u64 = 0;
    let total: usize = model.graphs.len();
    proof {
        assert forall|i: int| 0 <= i < graphs.len() implies (#[trigger] graphs[i]).nodes.len()
            <= u32::MAX by {
            assert(graphs[i].wf());
        }
    }
    for i in 0..total
        invariant
            total == model.graphs@.len(),
            total <= u32::MAX,
            graphs == model@.graphs,
            forall|i: int| 0 <= i < graphs.len() ==> (#[trigger] graphs[i]).nodes.len() <= u32::MAX,
            count == nodes_in(graphs, i as nat),
    {
        proof {
            lemma_nodes_bound(graphs, i as nat + 1);
            assert((i + 1) * u32::MAX <= u64::MAX) by (nonlinear_arith)
                requires
                    i + 1 <= u32::MAX,
            ;
            assert(graphs[i as int] == model.graphs@[i as int]@);
        }
        count = count + model.graphs[i].nodes.len() as u64;
    }
    count
}

fn write_blocks(root: &Graph) -> (line: String)
    requires
        root@.wf(),
        hierarchy::groups_fit(root@.nodes),
    ensures
        line@ == block_line(root@.nodes),
{
    match Hierarchy::build(root) {
        Some(hierarchy) => {
            let blocks: String = decimal_text((hierarchy.group_count() - 1) as u64);
            line_of("  blocks:     ", blocks.as_str(), " from node names")
        },
        None => "  blocks:     none, node names are not hierarchical".to_owned(),
    }
}

/// A label and a number.
fn write_number(label: &str, number: u64) -> (line: String)
    ensures
        line@ == label@ + text::decimal(number as nat),
{
    let mut line: String = label.to_owned();
    let digits: String = decimal_text(number);
    line.append(digits.as_str());
    line
}

fn push_sizes(lines: &mut Vec<String>, model: &Model)
    requires
        model.wf(),
        hierarchy::groups_fit(model@.graphs[model@.root.0 as int].nodes),
        model@.parameters_countable(),
    ensures
        chars::views(final(lines)@) == chars::views(old(lines)@) + size_lines(model@),
{
    let ghost m = model@;
    let ghost start = chars::views(lines@);
    let root: &Graph = model.root();
    assert(m.graphs[m.root.0 as int] == root@ && root@.wf());
    push_line(lines, write_number("  graphs:     ", model.graph_count() as u64));
    push_line(lines, write_blocks(root));
    let mut nodes: String = write_number("  nodes:      ", root.nodes.len() as u64);
    let rest: String = write_number(" in the main graph, ", count_nodes(model));
    nodes.append(rest.as_str());
    nodes.append(" in total");
    assert(nodes@ =~= size_lines(m)[2]);
    push_line(lines, nodes);
    push_line(lines, write_number("  parameters: ", model.parameter_count()));
    proof {
        assert(chars::views(lines@) =~= start + size_lines(m));
    }
}

fn push_values(lines: &mut Vec<String>, graph: &Graph, ids: &Vec<ValueId>)
    requires
        forall|i: int| 0 <= i < ids@.len() ==> graph@.has_value(#[trigger] ids@[i]),
    ensures
        chars::views(final(lines)@) == chars::views(old(lines)@) + value_lines(graph@, ids@),
{
    let ghost start = chars::views(lines@);
    let ghost wanted = value_lines(graph@, ids@);
    assert(start =~= start + wanted.take(0));
    for i in 0..ids.len()
        invariant
            forall|k: int| 0 <= k < ids@.len() ==> graph@.has_value(#[trigger] ids@[k]),
            wanted == value_lines(graph@, ids@),
            chars::views(lines@) == start + wanted.take(i as int),
    {
        let id: ValueId = ids[i];
        assert(graph@.has_value(ids@[i as int]));
        assert(graph@.values[id.0 as int] == graph.values@[id.0 as int]@);
        let value: &Value = graph.value(id);
        let summary: String = value.type_summary();
        let mut line: String = line_of("    ", value.name.as_str(), " ");
        line.append(summary.as_str());
        push_line(lines, line);
        assert(chars::views(lines@) =~= start + wanted.take(i + 1));
    }
    assert(wanted.take(wanted.len() as int) =~= wanted);
}

fn push_operators(lines: &mut Vec<String>, counts: &Vec<(&str, usize)>)
    ensures
        chars::views(final(lines)@) == chars::views(old(lines)@) + operator_lines(
            queries::count_views(counts@),
        ),
{
    let ghost views = queries::count_views(counts@);
    let ghost start = chars::views(lines@);
    let number: String = decimal_text(counts.len() as u64);
    push_line(lines, line_of("  operators:  ", number.as_str(), " distinct"));
    let shown: usize = if counts.len() < MAX_OPERATORS {
        counts.len()
    } else {
        MAX_OPERATORS
    };
    let ghost wanted = Seq::new(
        shown as nat,
        |i: int| "    "@ + at_right(text::decimal(views[i].1), 6) + "  "@ + views[i].0,
    );
    let ghost middle = chars::views(lines@);
    assert(middle =~= middle + wanted.take(0));
    for i in 0..shown
        invariant
            shown <= counts@.len(),
            views == queries::count_views(counts@),
            wanted == Seq::new(
                shown as nat,
                |i: int| "    "@ + at_right(text::decimal(views[i].1), 6) + "  "@ + views[i].0,
            ),
            chars::views(lines@) == middle + wanted.take(i as int),
    {
        let (op_type, count): (&str, usize) = counts[i];
        assert(views[i as int] == (op_type@, count as nat));
        let digits: String = decimal_text(count as u64);
        let column: String = pad_left(digits.as_str(), 6);
        let mut line: String = line_of("    ", column.as_str(), "  ");
        line.append(op_type);
        push_line(lines, line);
        assert(chars::views(lines@) =~= middle + wanted.take(i + 1));
    }
    assert(wanted.take(wanted.len() as int) =~= wanted);
    assert(chars::views(lines@) =~= start + operator_lines(views));
}

fn push_subgraphs(lines: &mut Vec<String>, model: &Model)
    requires
        model.wf(),
    ensures
        chars::views(final(lines)@) == chars::views(old(lines)@) + subgraph_lines(
            model@,
            model@.graphs.len(),
        ),
{
    let ghost m = model@;
    let ghost start = chars::views(lines@);
    assert(start =~= start + subgraph_lines(m, 0));
    for i in 0..model.graphs.len()
        invariant
            m == model@,
            m.wf(),
            chars::views(lines@) == start + subgraph_lines(m, i as nat),
    {
        let graph: &Graph = &model.graphs[i];
        assert(m.graphs[i as int] == graph@);
        if let Some(parent) = graph.parent {
            assert(m.graphs[i as int].parent == Some(parent));
            assert(m.graphs[parent.0 as int] == model.graphs@[parent.0 as int]@);
            let mut line: String = line_of("  subgraph ", graph.label.as_str(), " of ");
            line.append(model.graph(parent).label.as_str());
            line.append(": ");
            let count: String = decimal_text(graph.nodes.len() as u64);
            line.append(count.as_str());
            line.append(" nodes");
            push_line(lines, line);
        }
        assert(chars::views(lines@) =~= start + subgraph_lines(m, i as nat + 1));
    }
}

/// The lines of an overview of the model, for use from the terminal and as a
/// way to sanity check parsing without opening a window. The time that loading
/// took is given as it is to be written, in milliseconds.
pub fn summary(model: &Model, file_name: &str, load_time: &str) -> (lines: Vec<String>)
    requires
        model.wf(),
        hierarchy::groups_fit(model@.graphs[model@.root.0 as int].nodes),
        model@.parameters_countable(),
    ensures
        exists|counts: Seq<(Seq<char>, nat)>|
            #[trigger] counts_operators(model@.graphs[model@.root.0 as int].nodes, counts)
                && chars::views(lines@) == summary_text(model@, file_name@, load_time@, counts),
{
    let ghost m = model@;
    let root: &Graph = model.root();
    proof {
        assert(m.graphs[m.root.0 as int] == root@ && root@.wf());
        assert forall|i: int| 0 <= i < root.inputs@.len() implies root@.has_value(
            #[trigger] root.inputs@[i],
        ) by {
            assert(root@.has_value(root@.inputs[i]));
        }
        assert forall|i: int| 0 <= i < root.outputs@.len() implies root@.has_value(
            #[trigger] root.outputs@[i],
        ) by {
            assert(root@.has_value(root@.outputs[i]));
        }
    }
    let mut lines: Vec<String> = Vec::new();
    let mut first: String = line_of(file_name, "  (loaded in ", load_time);
    first.append(" ms)");
    push_line(&mut lines, first);
    push_origin(&mut lines, model);
    push_sizes(&mut lines, model);
    push_line(&mut lines, "  inputs:".to_owned());
    push_values(&mut lines, root, &root.inputs);
    push_line(&mut lines, "  outputs:".to_owned());
    push_values(&mut lines, root, &root.outputs);
    let counts: Vec<(&str, usize)> = root.op_type_counts();
    push_operators(&mut lines, &counts);
    push_subgraphs(&mut lines, model);
    proof {
        let views = queries::count_views(counts@);
        assert(counts_operators(root@.nodes, views));
        assert(chars::views(lines@) =~= summary_text(m, file_name@, load_time@, views));
    }
    lines
}

/// The line on the layout of a graph.
pub open spec fn layout_text(
    label: Seq<char>,
    nodes: nat,
    boxes: nat,
    edges: nat,
    ranks: nat,
    dummies: nat,
    time: Seq<char>,
) -> Seq<char> {
    "  "@ + at_left(label, 20) + " "@ + at_right(text::decimal(nodes), 6) + " nodes -> "@ + at_right(
        text::decimal(boxes),
        6,
    ) + " boxes, "@ + at_right(text::decimal(edges), 6) + " edges, "@ + at_right(
        text::decimal(ranks),
        6,
    ) + " ranks, "@ + at_right(text::decimal(dummies), 8) + " dummies, "@ + at_right(time, 8)
        + " ms"@
}

fn push_column(line: &mut String, number: usize, width: usize, unit: &str)
    ensures
        final(line)@ == old(line)@ + at_right(text::decimal(number as nat), width as nat) + unit@,
{
    let digits: String = decimal_text(number as u64);
    let column: String = pad_left(digits.as_str(), width);
    line.append(column.as_str());
    line.append(unit);
}

/// The line on how a graph was laid out, for a graph that is large enough to
/// have one. The time is given as it is to be written, in milliseconds.
pub fn layout_line(graph: &Graph, layout: &Layout, time: &str) -> (line: Option<String>)
    ensures
        match line {
            Some(line) => graph@.nodes.len() >= MIN_REPORTED && line@ == layout_text(
                graph@.label,
                graph@.nodes.len(),
                layout.nodes@.len(),
                layout.edges@.len(),
                layout.rank_count as nat,
                layout.dummy_count as nat,
                time@,
            ),
            None => graph@.nodes.len() < MIN_REPORTED,
        },
{
    if graph.nodes.len() < MIN_REPORTED {
        return None;
    }
    let mut line: String = "  ".to_owned();
    let label: String = pad_right(graph.label.as_str(), 20);
    line.append(label.as_str());
    line.append(" ");
    push_column(&mut line, graph.nodes.len(), 6, " nodes -> ");
    push_column(&mut line, layout.nodes.len(), 6, " boxes, ");
    push_column(&mut line, layout.edges.len(), 6, " edges, ");
    push_column(&mut line, layout.rank_count, 6, " ranks, ");
    push_column(&mut line, layout.dummy_count, 8, " dummies, ");
    let column: String = pad_left(time, 8);
    line.append(column.as_str());
    line.append(" ms");
    Some(line)
}

/// The line on the layout of the top level of a hierarchy.
pub open spec fn grouped_text(h: HierarchyView, boxes: nat, edges: nat, time: Seq<char>) -> Seq<
    char,
> {
    "  grouped top level:   "@ + text::decimal(h.groups[0].children.len()) + " blocks -> "@
        + text::decimal(boxes) + " boxes, "@ + text::decimal(edges) + " edges, "@ + time + " ms"@
}

/// The line on how the top level of a hierarchy was laid out. The time is given
/// as it is to be written, in milliseconds.
pub fn grouped_line(hierarchy: &Hierarchy, layout: &Layout, time: &str) -> (line: String)
    requires
        hierarchy@.wf(),
    ensures
        line@ == grouped_text(
            hierarchy@,
            layout.nodes@.len(),
            layout.edges@.len(),
            time@,
        ),
{
    let top: &Group = hierarchy.group(hierarchy.root());
    let blocks: String = decimal_text(top.children.len() as u64);
    let mut line: String = line_of("  grouped top level:   ", blocks.as_str(), " blocks -> ");
    let boxes: String = decimal_text(layout.nodes.len() as u64);
    line.append(boxes.as_str());
    line.append(" boxes, ");
    let edges: String = decimal_text(layout.edges.len() as u64);
    line.append(edges.as_str());
    line.append(" edges, ");
    line.append(time);
    line.append(" ms");
    line
}

} // verus!
