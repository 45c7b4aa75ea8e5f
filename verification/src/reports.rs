//! What the overviews of a model report, line by line.

use crate::graph::{GraphView, ModelView};
use crate::hierarchy::{self, HierarchyView};
use crate::model::{NodeView, ValueId};
use crate::overview;
use crate::summary;
use crate::tally;
use crate::text;
use vstd::prelude::*;

verus! {

/// The number of nodes in a model is that of all its graphs together.
pub proof fn law_nodes_add_up(graphs: Seq<GraphView>, n: nat)
    requires
        n <= graphs.len(),
    ensures
        summary::nodes_in(graphs, n) == tally::sum(n, |i: int| graphs[i].nodes.len() as int),
    decreases n,
{
    if n > 0 {
        law_nodes_add_up(graphs, (n - 1) as nat);
    }
}

proof fn lemma_parameters_add_up(graphs: Seq<GraphView>, n: nat)
    requires
        n <= graphs.len(),
    ensures
        overview::graphs_parameters(graphs, n) == tally::sum(
            n,
            |i: int| graphs[i].parameters() as int,
        ),
    decreases n,
{
    if n > 0 {
        lemma_parameters_add_up(graphs, (n - 1) as nat);
    }
}

/// The parameters of a model are those of all its graphs together, and can be
/// counted where those of each graph can and their number is in range.
pub proof fn law_parameters_add_up(model: ModelView)
    ensures
        model.parameters() == tally::sum(
            model.graphs.len(),
            |i: int| model.graphs[i].parameters() as int,
        ),
        model.parameters_countable() <==> model.parameters() <= u64::MAX && forall|i: int|
            0 <= i < model.graphs.len() ==> (#[trigger] model.graphs[i]).parameters_countable(),
{
    lemma_parameters_add_up(model.graphs, model.graphs.len());
}

/// Text in a column is filled up with blanks to its width, on the left or on
/// the right, and never cut.
pub proof fn law_columns_are_filled(s: Seq<char>, width: nat)
    ensures
        ({
            let right = summary::at_right(s, width);
            let left = summary::at_left(s, width);
            let gap = if s.len() < width {
                width - s.len()
            } else {
                0
            };
            &&& right.len() == gap + s.len()
            &&& left.len() == gap + s.len()
            &&& right.subrange(gap, right.len() as int) == s
            &&& left.take(s.len() as int) == s
            &&& forall|i: int| 0 <= i < gap ==> #[trigger] right[i] == ' '
            &&& forall|i: int| s.len() <= i < left.len() ==> #[trigger] left[i] == ' '
        }),
{
    let right = summary::at_right(s, width);
    let left = summary::at_left(s, width);
    let gap = if s.len() < width {
        width - s.len()
    } else {
        0
    };
    assert(right.subrange(gap, right.len() as int) =~= s);
    assert(left.take(s.len() as int) =~= s);
}

/// How many of the first `n` graphs are nested in another one.
pub open spec fn nested_before(model: ModelView, n: nat) -> int {
    tally::sum(n, |i: int| tally::one(model.graphs[i].parent is Some))
}

proof fn lemma_subgraph_lines(model: ModelView, n: nat, k: int)
    requires
        n <= model.graphs.len(),
    ensures
        summary::subgraph_lines(model, n).len() == nested_before(model, n),
        0 <= k < n && model.graphs[k].parent is Some ==> 0 <= nested_before(model, k as nat)
            < nested_before(model, n) && summary::subgraph_lines(model, n)[nested_before(
            model,
            k as nat,
        )] == summary::subgraph_line(model, model.graphs[k]),
    decreases n,
{
    if n > 0 {
        lemma_subgraph_lines(model, (n - 1) as nat, k);
        if k == n - 1 {
            lemma_subgraph_lines(model, (n - 1) as nat, 0);
        }
    }
}

/// How many of the operators are listed: the first eight.
pub open spec fn listed(counts: Seq<(Seq<char>, nat)>) -> int {
    if counts.len() < 8 {
        counts.len() as int
    } else {
        8
    }
}

/// Where the lines on the size of a model start: behind the file, the producer,
/// the version and the operator sets, as far as they are known.
pub open spec fn sizes_at(model: ModelView) -> int {
    1 + tally::one(model.producer_name is Some) + tally::one(model.ir_version is Some)
        + model.opset_imports.len()
}

/// The overview of a model names the file and how long it took to load, then
/// the producer, the version and the operator sets, then how many graphs,
/// blocks, nodes and parameters there are.
pub proof fn law_overviews_start_with_the_size(
    model: ModelView,
    file_name: Seq<char>,
    load_time: Seq<char>,
    counts: Seq<(Seq<char>, nat)>,
    i: int,
)
    ensures
        ({
            let lines = summary::summary_text(model, file_name, load_time, counts);
            let root = model.graphs[model.root.0 as int];
            let at = sizes_at(model);
            let named = tally::one(model.producer_name is Some);
            &&& lines.len() > at + 4
            &&& lines[0] == file_name + "  (loaded in "@ + load_time + " ms)"@
            &&& model.producer_name is Some ==> lines[1] == "  producer:   "@
                + model.producer_text()->0
            &&& model.ir_version is Some ==> lines[1 + named] == "  ir version: "@
                + text::signed_decimal(model.ir_version->0 as int)
            &&& 0 <= i < model.opset_imports.len() ==> lines[at - model.opset_imports.len() + i]
                == "  opset:      "@ + model.opset_imports[i].summary()
            &&& lines[at] == "  graphs:     "@ + text::decimal(model.graphs.len())
            &&& hierarchy::has_structure(root.nodes) ==> lines[at + 1] == "  blocks:     "@
                + text::decimal((hierarchy::groups_model(root.nodes).len() - 1) as nat)
                + " from node names"@
            &&& !hierarchy::has_structure(root.nodes) ==> lines[at + 1]
                == "  blocks:     none, node names are not hierarchical"@
            &&& lines[at + 2] == "  nodes:      "@ + text::decimal(root.nodes.len())
                + " in the main graph, "@ + text::decimal(
                tally::sum(
                    model.graphs.len(),
                    |k: int| model.graphs[k].nodes.len() as int,
                ) as nat,
            ) + " in total"@
            &&& lines[at + 3] == "  parameters: "@ + text::decimal(model.parameters())
        }),
{
    let root = model.graphs[model.root.0 as int];
    let first = seq![file_name + "  (loaded in "@ + load_time + " ms)"@];
    let origin = summary::origin_lines(model);
    let sizes = summary::size_lines(model);
    let head = first + origin + sizes;
    let rest = seq!["  inputs:"@] + summary::value_lines(root, root.inputs) + seq!["  outputs:"@]
        + summary::value_lines(root, root.outputs) + summary::operator_lines(counts)
        + summary::subgraph_lines(model, model.graphs.len());
    let lines = summary::summary_text(model, file_name, load_time, counts);
    let at = sizes_at(model);
    assert(lines =~= head + rest);
    assert(origin.len() == at - 1);
    assert(sizes.len() == 4);
    assert forall|k: int| 0 <= k < 4 implies lines[at + k] == #[trigger] sizes[k] by {
        assert(head[at + k] == sizes[k]);
    }
    assert forall|k: int| 0 <= k < origin.len() implies lines[1 + k] == #[trigger] origin[k] by {
        assert(head[1 + k] == origin[k]);
    }
    assert(lines[0] == head[0]);
    let named = tally::one(model.producer_name is Some);
    let dated = tally::one(model.ir_version is Some);
    if model.producer_name is Some {
        assert(origin[0] == "  producer:   "@ + model.producer_text()->0);
        assert(lines[1] == head[1] && head[1] == origin[0]);
    }
    if model.ir_version is Some {
        assert(origin[named] == "  ir version: "@ + text::signed_decimal(
            model.ir_version->0 as int,
        ));
        assert(lines[1 + named] == origin[named]);
    }
    if 0 <= i < model.opset_imports.len() {
        assert(origin[named + dated + i] == "  opset:      "@ + model.opset_imports[i].summary());
        assert(lines[1 + (named + dated + i)] == origin[named + dated + i]);
    }
    law_nodes_add_up(model.graphs, model.graphs.len());
    assert(lines[at + 0] == sizes[0]);
    assert(lines[at + 1] == sizes[1]);
    assert(lines[at + 2] == sizes[2]);
    assert(lines[at + 3] == sizes[3]);
}

/// The line on a value: its name and its type.
pub open spec fn value_line(g: GraphView, id: ValueId) -> Seq<char> {
    "    "@ + g.values[id.0 as int].name + " "@ + g.values[id.0 as int].type_text()
}

/// Behind its size, the overview of a model lists the inputs and outputs of the
/// main graph, the operators that it uses most, eight at most, and the graphs
/// that are nested in others. Nothing else follows.
pub proof fn law_overviews_list_what_is_there(
    model: ModelView,
    file_name: Seq<char>,
    load_time: Seq<char>,
    counts: Seq<(Seq<char>, nat)>,
    i: int,
)
    ensures
        ({
            let lines = summary::summary_text(model, file_name, load_time, counts);
            let root = model.graphs[model.root.0 as int];
            let inputs = sizes_at(model) + 4;
            let outputs = inputs + 1 + root.inputs.len();
            let operators = outputs + 1 + root.outputs.len();
            let nested = operators + 1 + listed(counts);
            &&& lines.len() == nested + nested_before(model, model.graphs.len())
            &&& lines[inputs] == "  inputs:"@
            &&& 0 <= i < root.inputs.len() ==> lines[inputs + 1 + i] == value_line(
                root,
                root.inputs[i],
            )
            &&& lines[outputs] == "  outputs:"@
            &&& 0 <= i < root.outputs.len() ==> lines[outputs + 1 + i] == value_line(
                root,
                root.outputs[i],
            )
            &&& lines[operators] == "  operators:  "@ + text::decimal(counts.len()) + " distinct"@
            &&& 0 <= i < listed(counts) ==> lines[operators + 1 + i] == "    "@ + summary::at_right(
                text::decimal(counts[i].1),
                6,
            ) + "  "@ + counts[i].0
            &&& 0 <= i < model.graphs.len() && model.graphs[i].parent is Some ==> lines[nested
                + nested_before(model, i as nat)] == "  subgraph "@ + model.graphs[i].label
                + " of "@ + model.graphs[(model.graphs[i].parent->0).0 as int].label + ": "@
                + text::decimal(model.graphs[i].nodes.len()) + " nodes"@
        }),
{
    let root = model.graphs[model.root.0 as int];
    let first = seq![file_name + "  (loaded in "@ + load_time + " ms)"@];
    let head = first + summary::origin_lines(model) + summary::size_lines(model);
    let a = summary::value_lines(root, root.inputs);
    let b = summary::value_lines(root, root.outputs);
    let c = summary::operator_lines(counts);
    let d = summary::subgraph_lines(model, model.graphs.len());
    let lines = summary::summary_text(model, file_name, load_time, counts);
    let inputs = sizes_at(model) + 4;
    let outputs = inputs + 1 + root.inputs.len();
    let operators = outputs + 1 + root.outputs.len();
    let nested = operators + 1 + listed(counts);
    assert(head.len() == inputs);
    assert(c.len() == 1 + listed(counts));
    lemma_subgraph_lines(model, model.graphs.len(), i);
    assert(lines =~= head + (seq!["  inputs:"@] + a) + (seq!["  outputs:"@] + b) + c + d);
    let upto_inputs = head + (seq!["  inputs:"@] + a);
    let upto_outputs = upto_inputs + (seq!["  outputs:"@] + b);
    let upto_operators = upto_outputs + c;
    assert(upto_inputs.len() == outputs);
    assert(upto_outputs.len() == operators);
    assert(upto_operators.len() == nested);
    assert(lines[inputs] == upto_inputs[inputs]);
    if 0 <= i < root.inputs.len() {
        assert(upto_inputs[inputs + 1 + i] == a[i]);
        assert(lines[inputs + 1 + i] == upto_inputs[inputs + 1 + i]);
    }
    assert(lines[outputs] == upto_outputs[outputs]);
    if 0 <= i < root.outputs.len() {
        assert(upto_outputs[outputs + 1 + i] == b[i]);
        assert(lines[outputs + 1 + i] == upto_outputs[outputs + 1 + i]);
    }
    assert(upto_operators[operators] == c[0]);
    assert(lines[operators] == upto_operators[operators]);
    if 0 <= i < listed(counts) {
        assert(upto_operators[operators + 1 + i] == c[1 + i]);
        assert(lines[operators + 1 + i] == upto_operators[operators + 1 + i]);
    }
    if 0 <= i < model.graphs.len() && model.graphs[i].parent is Some {
        let at = nested_before(model, i as nat);
        assert(lines[nested + at] == d[at]);
    }
}

/// The facts about a model are its producer, its version and its operator sets,
/// as far as they are known, then its size, then its metadata.
pub proof fn law_facts_of_a_model(model: ModelView, i: int)
    ensures
        ({
            let facts = overview::model_facts(model);
            let named = tally::one(model.producer_name is Some);
            let at = sizes_at(model) - 1;
            &&& facts.len() == at + 2 + model.metadata.len()
            &&& model.producer_name is Some ==> facts[0] == ("Producer"@, model.producer_text()->0)
            &&& model.ir_version is Some ==> facts[named] == (
                "IR version"@,
                text::signed_decimal(model.ir_version->0 as int),
            )
            &&& 0 <= i < model.opset_imports.len() ==> facts[at - model.opset_imports.len() + i]
                == ("Opset"@, model.opset_imports[i].summary())
            &&& facts[at] == ("Graphs"@, text::decimal(model.graphs.len()))
            &&& facts[at + 1] == ("Parameters"@, text::compact_count(model.parameters()))
            &&& 0 <= i < model.metadata.len() ==> facts[at + 2 + i] == (
                model.metadata[i].0,
                text::elided(model.metadata[i].1, 64),
            )
        }),
{
}

/// An operator set is shown with its domain, the default one spelled out, and
/// its version where that is known.
pub proof fn law_operator_sets_are_shown(opset: crate::graph::OpsetView)
    ensures
        ({
            let domain = if opset.domain.len() == 0 {
                "ai.onnx"@
            } else {
                opset.domain
            };
            &&& opset.version is None ==> opset.summary() == domain
            &&& opset.version is Some ==> opset.summary() == domain + " v"@ + text::signed_decimal(
                opset.version->0 as int,
            )
        }),
{
}

/// The line on a drawing gives the name and, each in its column, how many nodes,
/// boxes, edges, ranks and dummies there are, and how long it took.
pub proof fn law_lines_on_drawings(
    label: Seq<char>,
    nodes: nat,
    boxes: nat,
    edges: nat,
    ranks: nat,
    dummies: nat,
    time: Seq<char>,
)
    requires
        label.len() <= 20,
        text::decimal(nodes).len() <= 6,
        text::decimal(boxes).len() <= 6,
        text::decimal(edges).len() <= 6,
        text::decimal(ranks).len() <= 6,
        text::decimal(dummies).len() <= 8,
        time.len() <= 8,
    ensures
        ({
            let line = summary::layout_text(label, nodes, boxes, edges, ranks, dummies, time);
            &&& line.len() == 110
            &&& line.subrange(2, label.len() + 2int) == label
            &&& line.subrange(29 - text::decimal(nodes).len(), 38) == text::decimal(nodes)
                + " nodes ->"@
            &&& line.subrange(45 - text::decimal(boxes).len(), 52) == text::decimal(boxes)
                + " boxes,"@
            &&& line.subrange(59 - text::decimal(edges).len(), 66) == text::decimal(edges)
                + " edges,"@
            &&& line.subrange(73 - text::decimal(ranks).len(), 80) == text::decimal(ranks)
                + " ranks,"@
            &&& line.subrange(89 - text::decimal(dummies).len(), 98) == text::decimal(dummies)
                + " dummies,"@
            &&& line.subrange(107 - time.len(), 110) == time + " ms"@
        }),
{
    reveal_strlit("  ");
    reveal_strlit(" ");
    reveal_strlit(" nodes -> ");
    reveal_strlit(" nodes ->");
    reveal_strlit(" boxes, ");
    reveal_strlit(" boxes,");
    reveal_strlit(" edges, ");
    reveal_strlit(" edges,");
    reveal_strlit(" ranks, ");
    reveal_strlit(" ranks,");
    reveal_strlit(" dummies, ");
    reveal_strlit(" dummies,");
    reveal_strlit(" ms");
    let line = summary::layout_text(label, nodes, boxes, edges, ranks, dummies, time);
    let a = "  "@ + summary::at_left(label, 20) + " "@;
    assert(a.len() == 23);
    let b = a + summary::at_right(text::decimal(nodes), 6) + " nodes -> "@;
    assert(b.len() == 39);
    let c = b + summary::at_right(text::decimal(boxes), 6) + " boxes, "@;
    assert(c.len() == 53);
    let d = c + summary::at_right(text::decimal(edges), 6) + " edges, "@;
    assert(d.len() == 67);
    let e = d + summary::at_right(text::decimal(ranks), 6) + " ranks, "@;
    assert(e.len() == 81);
    let f = e + summary::at_right(text::decimal(dummies), 8) + " dummies, "@;
    assert(f.len() == 99);
    assert(line == f + summary::at_right(time, 8) + " ms"@);
    assert(line.len() == 110);
    assert(line.subrange(0, 99) =~= f);
    assert(f.subrange(0, 81) =~= e);
    assert(e.subrange(0, 67) =~= d);
    assert(d.subrange(0, 53) =~= c);
    assert(c.subrange(0, 39) =~= b);
    assert(b.subrange(0, 23) =~= a);
    assert(a.subrange(2, label.len() + 2int) =~= label);
    assert(line.subrange(2, label.len() + 2int) =~= label);
    assert(line.subrange(29 - text::decimal(nodes).len(), 38) =~= text::decimal(nodes)
        + " nodes ->"@);
    assert(line.subrange(45 - text::decimal(boxes).len(), 52) =~= text::decimal(boxes)
        + " boxes,"@);
    assert(line.subrange(59 - text::decimal(edges).len(), 66) =~= text::decimal(edges)
        + " edges,"@);
    assert(line.subrange(73 - text::decimal(ranks).len(), 80) =~= text::decimal(ranks)
        + " ranks,"@);
    assert(line.subrange(89 - text::decimal(dummies).len(), 98) =~= text::decimal(dummies)
        + " dummies,"@);
    assert(line.subrange(107 - time.len(), 110) =~= time + " ms"@);
}

/// The line on the top level of a hierarchy counts its blocks, and the boxes and
/// edges of the drawing.
pub proof fn law_lines_on_top_levels(h: HierarchyView, boxes: nat, edges: nat, time: Seq<char>)
    ensures
        ({
            let line = summary::grouped_text(h, boxes, edges, time);
            let first = "  grouped top level:   "@ + text::decimal(h.groups[0].children.len())
                + " blocks -> "@;
            let second = text::decimal(boxes) + " boxes, "@;
            let third = text::decimal(edges) + " edges, "@;
            &&& line.take(first.len() as int) == first
            &&& line.subrange(first.len() as int, (first.len() + second.len()) as int) == second
            &&& line.skip((first.len() + second.len()) as int) == third + time + " ms"@
        }),
{
    let line = summary::grouped_text(h, boxes, edges, time);
    let first = "  grouped top level:   "@ + text::decimal(h.groups[0].children.len())
        + " blocks -> "@;
    let second = text::decimal(boxes) + " boxes, "@;
    let third = text::decimal(edges) + " edges, "@;
    assert(line =~= first + second + third + time + " ms"@);
    assert(line.take(first.len() as int) =~= first);
    assert(line.subrange(first.len() as int, (first.len() + second.len()) as int) =~= second);
    assert(line.skip((first.len() + second.len()) as int) =~= third + time + " ms"@);
}

/// The overview of a model counts each operator once, the most used first.
pub proof fn law_overviews_count_operators(
    nodes: Seq<NodeView>,
    counts: Seq<(Seq<char>, nat)>,
    i: int,
    j: int,
)
    requires
        summary::counts_operators(nodes, counts),
        0 <= i < j < counts.len(),
        nodes.len() > 0,
    ensures
        counts[i].1 == tally::sum(
            nodes.len(),
            |m: int| tally::one(nodes[m].op_type == counts[i].0),
        ),
        counts[i].1 >= counts[j].1 > 0,
        counts[i].0 != counts[j].0,
{
    crate::outlines::law_operators_are_listed(nodes, counts, i, j, 0);
}

} // verus!
