//! What the details pane says of a node or a value.

use crate::chars;
use crate::graph::{self, Graph, GraphView, Model, ModelView};
use crate::model::{
    self, AttrValue, AttrValueView, AttributeView, GraphId, Node, NodeId, NodeView, Tensor,
    TensorData, TensorView, Value, ValueId, ValueKind, ValueView,
};
use crate::op_schema::{self, lookup, parameter, Arity, OpSchema};
use crate::schema_table::SCHEMAS;
use crate::text::{self, decimal_text, elide, format_count};
use crate::values::{self, index_label, read_elements, readable, Element, Reading};
use vstd::prelude::*;
use vstd::string::*;

verus! {

/// Largest constant written out on an input or output row.
///
/// Enough for a shape or a per-axis parameter, and short enough to leave the
/// row readable. Longer vectors are counted instead, and read in the value's
/// own pane.
pub const ROW_ELEMENTS: u64 = 8;

/// Largest tensor shown in full, rather than behind an expander.
///
/// A vector of a few dozen numbers is worth reading at a glance; anything
/// bigger is a wall of digits that pushes the rest of the pane off screen.
pub const INLINE_ELEMENTS: u64 = 32;

/// Label for one position in an operator's inputs or outputs.
pub open spec fn label_text(params: Option<Seq<(Seq<char>, Arity)>>, index: nat) -> Seq<char> {
    let name = match params {
        Some(params) => op_schema::parameter_name(params, index),
        None => None,
    };
    match name {
        Some(name) => name,
        None => text::decimal(index) + "."@,
    }
}

/// A list of parameters as plain values, where there is one.
pub open spec fn opt_params(params: Option<&Vec<(String, Arity)>>) -> Option<
    Seq<(Seq<char>, Arity)>,
> {
    match params {
        Some(params) => Some(op_schema::param_views(params@)),
        None => None,
    }
}

/// Label for one position in an operator's inputs or outputs.
///
/// Operators outside the domains that the table covers fall back to the
/// position itself, which is all the model says about them.
pub fn parameter_label(params: Option<&Vec<(String, Arity)>>, index: usize) -> (label: String)
    requires
        opt_params(params) is Some ==> op_schema::variadic_last(opt_params(params)->0),
    ensures
        label@ == label_text(opt_params(params), index as nat),
{
    let name: Option<String> = match params {
        Some(params) => parameter(params, index),
        None => None,
    };
    match name {
        Some(name) => name,
        None => {
            let mut label: String = decimal_text(index as u64);
            label.append(".");
            label
        },
    }
}

impl TensorView {
    pub open spec fn is_external(self) -> bool {
        self.data is External
    }

    /// Why the elements cannot be read, if they cannot.
    pub open spec fn refusal(self) -> Option<values::ReadErrorView> {
        if self.data is Missing {
            Some(values::ReadErrorView::NoData)
        } else if !values::is_decoded(self.data) && values::size_of(self.dtype.0) is None {
            Some(values::ReadErrorView::UnsupportedType(self.dtype))
        } else {
            None
        }
    }

    /// How many of the first `count` elements are held in the model itself.
    pub open spec fn held(self, count: nat) -> nat {
        match (self.data, values::size_of(self.dtype.0)) {
            (model::DataView::Raw(bytes), Some(size)) => values::window(
                bytes,
                0,
                (count * size) as nat,
            ).len() / size as nat,
            (model::DataView::Raw(_), None) => 0,
            _ => values::window(values::held_elements(self.data), 0, count).len(),
        }
    }

    /// Whether the elements are those at the start of the tensor, as many as
    /// its shape promises.
    pub open spec fn starts_with(self, elements: Vec<Element>) -> bool {
        values::reads_window(
            self,
            0,
            model::element_count(self.dims) as usize,
            Reading::Elements(elements),
        )
    }

    /// Whether the tensor is written out on the row of an input or output.
    /// Only scalars and short vectors are: a matrix has no reading that fits on
    /// a line.
    pub open spec fn fits_row(self) -> bool {
        let count = model::element_count(self.dims);
        &&& count <= ROW_ELEMENTS
        &&& self.dims.len() <= 1
        &&& !self.is_external()
        &&& self.held(count) > 0
    }

    /// Whether the tensor is written out in its own pane.
    pub open spec fn fits_pane(self) -> bool {
        &&& model::element_count(self.dims) <= INLINE_ELEMENTS
        &&& self.dims.len() <= 1
        &&& !self.is_external()
    }
}

fn is_external(tensor: &Tensor) -> (external: bool)
    ensures
        external == tensor@.is_external(),
{
    match &tensor.data {
        TensorData::External { .. } => true,
        _ => false,
    }
}

/// The elements of a constant small enough to show on its input row, if it is
/// one.
///
/// Tensors stored outside the model file are skipped whatever their size, so
/// that listing a node's inputs never waits on the disk.
pub fn inline_value(tensor: &Tensor) -> (elements: Option<Vec<Element>>)
    requires
        model::countable(tensor.dims@),
    ensures
        elements is Some <==> tensor@.fits_row(),
        elements is Some ==> tensor@.starts_with(elements->0),
{
    let count: u64 = tensor.elem_count();
    if count > ROW_ELEMENTS || tensor.dims.len() > 1 || is_external(tensor) {
        return None;
    }
    match read_elements(tensor, 0, count as usize) {
        Ok(Reading::Elements(elements)) => {
            assert(elements@.len() == tensor@.held(count as nat));
            if elements.len() == 0 {
                None
            } else {
                Some(elements)
            }
        },
        Ok(Reading::Wanted(_)) => None,
        Err(_) => None,
    }
}

/// Elements as they are written on one line, given how each is written.
pub open spec fn line_text(texts: Seq<Seq<char>>, scalar: bool) -> Seq<char> {
    let list = chars::joined(texts, ", "@);
    if scalar {
        list
    } else {
        "["@ + list + "]"@
    }
}

/// Elements as they are written on one line. A scalar is written as the bare
/// number; ONNX gives it no dimensions.
pub fn write_line(texts: &Vec<String>, scalar: bool) -> (line: String)
    ensures
        line@ == line_text(chars::views(texts@), scalar),
{
    let list: String = chars::join(texts, ", ");
    if scalar {
        list
    } else {
        let mut line: String = "[".to_owned();
        line.append(list.as_str());
        line.append("]");
        line
    }
}

/// Elements as they are written in the pane of a constant, which puts brackets
/// round them even where there is only one.
pub fn write_pane_line(texts: &Vec<String>) -> (line: String)
    ensures
        line@ == line_text(chars::views(texts@), false),
{
    write_line(texts, false)
}

/// How the elements of a constant are shown in its own pane.
pub enum TensorValues {
    /// There are none.
    Empty,
    /// They cannot be read, for this reason.
    Unreadable(String),
    /// All of them, on one line, as [`write_pane_line`] writes it.
    Line(Vec<Element>),
    /// A table with this many rows behind an expander with this title.
    Table(String, usize),
}

/// Whether the elements of a tensor are shown in the right way.
pub open spec fn values_show(shown: TensorValues, tensor: TensorView) -> bool {
    let count = model::element_count(tensor.dims);
    match shown {
        TensorValues::Empty => count == 0,
        TensorValues::Unreadable(text) => {
            &&& count > 0
            &&& tensor.refusal() is Some
            &&& text@ == tensor.refusal()->0.text()
        },
        TensorValues::Line(elements) => {
            &&& count > 0
            &&& tensor.refusal() is None
            &&& tensor.fits_pane()
            &&& tensor.starts_with(elements)
        },
        TensorValues::Table(title, rows) => {
            &&& count > 0
            &&& tensor.refusal() is None
            &&& !tensor.fits_pane()
            &&& title@ == text::compact_count(count) + " elements"@
            &&& rows == values::clipped(count, usize::MAX as nat)
        },
    }
}

/// Decides how to show the elements of a constant tensor.
///
/// Weights held in a separate file are read on demand and only once expanded,
/// which keeps a model whose data file has not been downloaded fully browsable:
/// anything external stays behind the expander however small.
pub fn tensor_values(tensor: &Tensor) -> (shown: TensorValues)
    requires
        model::countable(tensor.dims@),
    ensures
        values_show(shown, tensor@),
{
    let count: u64 = tensor.elem_count();
    if count == 0 {
        return TensorValues::Empty;
    }
    if let Err(error) = readable(tensor) {
        return TensorValues::Unreadable(error.to_string());
    }
    if count <= INLINE_ELEMENTS && tensor.dims.len() <= 1 && !is_external(tensor) {
        return match read_elements(tensor, 0, count as usize) {
            Ok(Reading::Elements(elements)) => TensorValues::Line(elements),
            Ok(Reading::Wanted(_)) => TensorValues::Empty,
            Err(error) => TensorValues::Unreadable(error.to_string()),
        };
    }
    let rows: usize = if count < usize::MAX as u64 {
        count as usize
    } else {
        usize::MAX
    };
    let mut title: String = format_count(count);
    title.append(" elements");
    TensorValues::Table(title, rows)
}

/// The rows of a table of elements, each with the place of the element and the
/// element itself.
pub open spec fn table_view(dims: Seq<i64>, start: u64, texts: Seq<Seq<char>>) -> Seq<
    (Seq<char>, Seq<char>),
> {
    Seq::new(
        texts.len(),
        |i: int| (values::index_text(dims, (start + i) as u64), texts[i]),
    )
}

/// The rows of a table of elements from `start` on, given how each is written.
pub fn table_rows(dims: &[i64], start: u64, texts: &Vec<String>) -> (rows: Vec<(String, String)>)
    requires
        start + texts@.len() <= u64::MAX,
    ensures
        model::pair_views(rows@) == table_view(dims@, start, chars::views(texts@)),
{
    let mut rows: Vec<(String, String)> = Vec::new();
    for i in 0..texts.len()
        invariant
            start + texts@.len() <= u64::MAX,
            rows@.len() == i,
            forall|k: int|
                0 <= k < i ==> (#[trigger] rows@[k]).0@ == values::index_text(
                    dims@,
                    (start + k) as u64,
                ) && rows@[k].1@ == texts@[k]@,
    {
        rows.push((index_label(dims, start + i as u64), texts[i].clone()));
    }
    assert(model::pair_views(rows@) =~= table_view(dims@, start, chars::views(texts@)));
    rows
}

/// What follows the name and type of a value on its row.
pub enum RowLink {
    /// A remark.
    Note(String),
    /// A link to the node that produces the value.
    Producer(NodeId),
    /// A link to the only node that reads the value.
    Consumer(NodeId),
    /// How many nodes read the value, and a link to each.
    Consumers(String, Vec<NodeId>),
}

/// What stands on the row of an input or output, behind its label.
pub enum RowContent {
    /// A constant written out in full says everything its name and type would,
    /// so the space goes to the value. A scalar is written without brackets.
    Line(Vec<Element>, bool),
    /// The name, which opens the value itself, its type, and the rest.
    Named(String, String, RowLink),
}

/// One input or output of a node.
pub struct ValueRow {
    pub label: String,
    /// The value that the name opens.
    pub value: ValueId,
    pub content: RowContent,
}

/// Whether a value's row goes on in the right way.
pub open spec fn link_shows(
    link: RowLink,
    g: GraphView,
    value: ValueView,
    is_input: bool,
) -> bool {
    if value.kind.is_constant() {
        link is Note && link->Note_0@ == "const · "@ + match g.constant_tensor(value) {
            Some(tensor) => text::compact_count(model::element_count(tensor.dims)),
            None => Seq::empty(),
        }
    } else if value.kind is OuterScope {
        link is Note && link->Note_0@ == "outer scope"@
    } else if is_input {
        match value.producer {
            Some(producer) => link == RowLink::Producer(producer),
            None => link is Note && link->Note_0@ == value.kind.label_text(),
        }
    } else if value.consumers.len() == 0 {
        link is Note && link->Note_0@ == value.kind.label_text()
    } else if value.consumers.len() == 1 {
        link == RowLink::Consumer(value.consumers[0])
    } else {
        &&& link is Consumers
        &&& link->Consumers_0@ == text::decimal(value.consumers.len()) + " consumers"@
        &&& link->Consumers_1@ == value.consumers
    }
}

/// Whether a row shows an input or output.
pub open spec fn row_shows(
    row: ValueRow,
    g: GraphView,
    value: ValueView,
    label: Seq<char>,
    is_input: bool,
) -> bool {
    let constant = g.constant_tensor(value);
    &&& row.label@ == label
    &&& row.value == value.id
    &&& match row.content {
        RowContent::Line(elements, scalar) => {
            &&& constant is Some
            &&& constant->0.fits_row()
            &&& constant->0.starts_with(elements)
            &&& scalar == (constant->0.dims.len() == 0)
        },
        RowContent::Named(name, summary, link) => {
            &&& constant is Some ==> !constant->0.fits_row()
            &&& name@ == text::elided(value.name, 36)
            &&& summary@ == value.type_text()
            &&& link_shows(link, g, value, is_input)
        },
    }
}

/// Whether the elements behind a value can be counted in 64 bits.
pub open spec fn value_countable(g: GraphView, value: ValueView) -> bool {
    match g.constant_tensor(value) {
        Some(tensor) => model::countable(tensor.dims),
        None => true,
    }
}

/// Whether the elements behind every value can be counted in 64 bits.
pub open spec fn constants_countable(g: GraphView) -> bool {
    forall|i: int| 0 <= i < g.values.len() ==> value_countable(g, #[trigger] g.values[i])
}

impl Graph {
    /// Whether the elements of every constant can be counted in 64 bits.
    pub fn constants_countable(&self) -> (countable: bool)
        requires
            self@.wf(),
        ensures
            countable == constants_countable(self@),
    {
        let ghost g = self@;
        for i in 0..self.values.len()
            invariant
                g == self@,
                g.wf(),
                forall|k: int| 0 <= k < i ==> value_countable(g, #[trigger] g.values[k]),
        {
            assert(g.values[i as int] == self.values@[i as int]@);
            assert(g.value_wf(g.values[i as int], i as int));
            if let Some(tensor) = self.constant_tensor(&self.values[i]) {
                if tensor.try_elem_count().is_none() {
                    assert(!value_countable(g, g.values[i as int]));
                    return false;
                }
            }
        }
        true
    }
}

fn row_link(value: &Value, constant: Option<&Tensor>, is_input: bool, Ghost(g): Ghost<GraphView>)
    -> (link: RowLink)
    requires
        match g.constant_tensor(value@) {
            Some(tensor) => constant is Some && constant->0@ == tensor && model::countable(
                tensor.dims,
            ),
            None => constant is None,
        },
    ensures
        link_shows(link, g, value@, is_input),
{
    match value.kind {
        ValueKind::Initializer | ValueKind::Constant => {
            let mut note: String = "const · ".to_owned();
            match constant {
                Some(tensor) => {
                    let count: String = format_count(tensor.elem_count());
                    note.append(count.as_str());
                },
                None => {
                    assert(note@ =~= "const · "@ + Seq::empty());
                },
            }
            RowLink::Note(note)
        },
        ValueKind::OuterScope => RowLink::Note("outer scope".to_owned()),
        _ => {
            if is_input {
                match value.producer {
                    Some(producer) => RowLink::Producer(producer),
                    None => RowLink::Note(value.kind.label().to_owned()),
                }
            } else if value.consumers.len() == 0 {
                RowLink::Note(value.kind.label().to_owned())
            } else if value.consumers.len() == 1 {
                RowLink::Consumer(value.consumers[0])
            } else {
                let mut note: String = decimal_text(value.consumers.len() as u64);
                note.append(" consumers");
                RowLink::Consumers(note, copy_nodes(&value.consumers))
            }
        },
    }
}

fn copy_nodes(nodes: &Vec<NodeId>) -> (copy: Vec<NodeId>)
    ensures
        copy@ == nodes@,
{
    let mut copy: Vec<NodeId> = Vec::new();
    for i in 0..nodes.len()
        invariant
            copy@ == nodes@.take(i as int),
    {
        copy.push(nodes[i]);
        assert(copy@ =~= nodes@.take(i + 1));
    }
    assert(copy@ =~= nodes@);
    copy
}

/// Describes one input or output of a node.
pub fn value_row(graph: &Graph, value: &Value, label: String, is_input: bool) -> (row: ValueRow)
    requires
        value.producer is Some ==> graph@.has_node(value.producer->0),
        value_countable(graph@, value@),
    ensures
        row_shows(row, graph@, value@, label@, is_input),
{
    let constant: Option<&Tensor> = graph.constant_tensor(value);
    if let Some(tensor) = constant {
        if let Some(elements) = inline_value(tensor) {
            return ValueRow {
                label,
                value: value.id,
                content: RowContent::Line(elements, tensor.dims.len() == 0),
            };
        }
    }
    let link: RowLink = row_link(value, constant, is_input, Ghost(graph@));
    ValueRow {
        label,
        value: value.id,
        content: RowContent::Named(elide(value.name.as_str(), 36), value.type_summary(), link),
    }
}

/// One position among the inputs or outputs of a node.
pub enum Position {
    /// Nothing is wired to it.
    Omitted(String),
    Present(ValueRow),
}

/// Whether the positions show the inputs or outputs of a node.
pub open spec fn positions_show(
    positions: Seq<Position>,
    g: GraphView,
    ids: Seq<Option<ValueId>>,
    params: Option<Seq<(Seq<char>, Arity)>>,
    is_input: bool,
) -> bool {
    &&& positions.len() == ids.len()
    &&& forall|i: int|
        0 <= i < ids.len() ==> position_shows(
            #[trigger] positions[i],
            g,
            ids[i],
            label_text(params, i as nat),
            is_input,
        )
}

pub open spec fn position_shows(
    position: Position,
    g: GraphView,
    id: Option<ValueId>,
    label: Seq<char>,
    is_input: bool,
) -> bool {
    match id {
        Some(id) => position is Present && row_shows(
            position->Present_0,
            g,
            g.values[id.0 as int],
            label,
            is_input,
        ),
        None => position is Omitted && position->Omitted_0@ == label + "  (omitted)"@,
    }
}

/// Whether the elements behind the values wired to these positions can be
/// counted in 64 bits.
pub open spec fn positions_countable(g: GraphView, ids: Seq<Option<ValueId>>) -> bool {
    forall|i: int|
        0 <= i < ids.len() ==> ((#[trigger] ids[i]) is Some ==> value_countable(
            g,
            g.values[(ids[i]->0).0 as int],
        ))
}

fn list_positions(
    graph: &Graph,
    ids: &Vec<Option<ValueId>>,
    params: Option<&Vec<(String, Arity)>>,
    is_input: bool,
) -> (positions: Vec<Position>)
    requires
        graph@.wf(),
        forall|i: int| 0 <= i < ids@.len() ==> ((#[trigger] ids@[i]) is Some ==> graph@.has_value(
            ids@[i]->0,
        )),
        positions_countable(graph@, ids@),
        opt_params(params) is Some ==> op_schema::variadic_last(opt_params(params)->0),
    ensures
        positions_show(positions@, graph@, ids@, opt_params(params), is_input),
{
    let ghost g = graph@;
    let mut positions: Vec<Position> = Vec::new();
    for i in 0..ids.len()
        invariant
            g == graph@,
            g.wf(),
            forall|k: int| 0 <= k < ids@.len() ==> ((#[trigger] ids@[k]) is Some ==> g.has_value(
                ids@[k]->0,
            )),
            positions_countable(g, ids@),
            opt_params(params) is Some ==> op_schema::variadic_last(opt_params(params)->0),
            positions@.len() == i,
            forall|k: int|
                0 <= k < i ==> position_shows(
                    #[trigger] positions@[k],
                    g,
                    ids@[k],
                    label_text(opt_params(params), k as nat),
                    is_input,
                ),
    {
        let mut label: String = parameter_label(params, i);
        match ids[i] {
            Some(id) => {
                assert(ids@[i as int] == Some(id));
                assert(g.value_wf(g.values[id.0 as int], id.0 as int));
                assert(g.values[id.0 as int] == graph.values@[id.0 as int]@);
                positions.push(
                    Position::Present(value_row(graph, graph.value(id), label, is_input)),
                );
            },
            None => {
                label.append("  (omitted)");
                positions.push(Position::Omitted(label));
            },
        }
    }
    positions
}

/// One attribute of a node.
pub struct AttrRow {
    pub name: String,
    pub type_label: String,
    /// The subgraph to open and what its link says, for an attribute that holds
    /// one. Any other attribute is written out, as [`write_attr`] does.
    pub body: Option<(GraphId, String)>,
}

/// An attribute as the details pane writes it, its floats being written as
/// given.
pub open spec fn attr_text(value: AttrValueView, numbers: Seq<Seq<char>>) -> Seq<char> {
    text::elided(value.text(numbers), 72)
}

/// An attribute as the details pane writes it, given how its floats are
/// written: its text, shortened to the width of the pane.
pub fn write_attr(value: &AttrValue, numbers: &Vec<String>) -> (shown: String)
    requires
        numbers@.len() == value@.shown_floats().len(),
    ensures
        shown@ == attr_text(value@, chars::views(numbers@)),
{
    let whole: String = value.text(numbers);
    elide(whole.as_str(), 72)
}

pub open spec fn attr_shows(row: AttrRow, model: ModelView, attr: AttributeView) -> bool {
    &&& row.name@ == attr.name
    &&& row.type_label@ == attr.value.type_text()
    &&& match attr.value {
        AttrValueView::Graph(sub) => {
            &&& row.body is Some
            &&& (row.body->0).0 == sub
            &&& (row.body->0).1@ == "open ("@ + text::decimal(
                model.graphs[sub.0 as int].nodes.len(),
            ) + " nodes)"@
        },
        _ => row.body is None,
    }
}

/// What the details pane says of a node.
pub struct NodeDetails {
    pub heading: String,
    pub subheading: String,
    pub inputs: Vec<Position>,
    pub outputs: Vec<Position>,
    pub attrs: Vec<AttrRow>,
}

/// The parameters of the operator that a node runs, where it is known.
pub open spec fn known_inputs(node: NodeView) -> Option<Seq<(Seq<char>, Arity)>> {
    match op_schema::schema_in(SCHEMAS@, node.domain, node.op_type) {
        Some(schema) => Some(schema.inputs),
        None => None,
    }
}

pub open spec fn known_outputs(node: NodeView) -> Option<Seq<(Seq<char>, Arity)>> {
    match op_schema::schema_in(SCHEMAS@, node.domain, node.op_type) {
        Some(schema) => Some(schema.outputs),
        None => None,
    }
}

impl NodeDetails {
    /// Whether these are the details of a node.
    pub open spec fn shows(self, model: ModelView, g: GraphView, node: NodeView) -> bool {
        &&& self.heading@ == node.qualified_op_type()
        &&& self.subheading@ == if node.named {
            node.name
        } else {
            node.name + " (unnamed)"@
        }
        &&& positions_show(self.inputs@, g, node.inputs, known_inputs(node), true)
        &&& positions_show(self.outputs@, g, node.outputs, known_outputs(node), false)
        &&& self.attrs@.len() == node.attrs.len()
        &&& forall|i: int|
            0 <= i < node.attrs.len() ==> attr_shows(
                #[trigger] self.attrs@[i],
                model,
                node.attrs[i],
            )
    }
}

fn list_attrs(model: &Model, node: &Node, Ghost(k): Ghost<int>, Ghost(n): Ghost<int>) -> (rows: Vec<
    AttrRow,
>)
    requires
        model.wf(),
        0 <= k < model@.graphs.len(),
        0 <= n < model@.graphs[k].nodes.len(),
        node@ == model@.graphs[k].nodes[n],
    ensures
        rows@.len() == node@.attrs.len(),
        forall|i: int|
            0 <= i < rows@.len() ==> attr_shows(#[trigger] rows@[i], model@, node@.attrs[i]),
{
    let ghost m = model@;
    let mut rows: Vec<AttrRow> = Vec::new();
    for i in 0..node.attrs.len()
        invariant
            m == model@,
            m.wf(),
            0 <= k < m.graphs.len(),
            0 <= n < m.graphs[k].nodes.len(),
            node@ == m.graphs[k].nodes[n],
            rows@.len() == i,
            forall|j: int| 0 <= j < i ==> attr_shows(#[trigger] rows@[j], m, node@.attrs[j]),
    {
        let attr = &node.attrs[i];
        assert(node@.attrs[i as int] == node.attrs@[i as int]@);
        let body: Option<(GraphId, String)> = match &attr.value {
            AttrValue::Graph(sub) => {
                assert(graph::has_body(m.graphs[k], n, i as int, *sub));
                assert(m.graphs[sub.0 as int] == model.graphs@[sub.0 as int]@);
                let mut label: String = "open (".to_owned();
                let count: String = decimal_text(model.graph(*sub).nodes.len() as u64);
                label.append(count.as_str());
                label.append(" nodes)");
                Some((*sub, label))
            },
            _ => None,
        };
        rows.push(
            AttrRow { name: attr.name.clone(), type_label: attr.value.type_label().to_owned(), body },
        );
    }
    rows
}

/// Describes a node.
pub fn node_details(model: &Model, graph: GraphId, id: NodeId) -> (details: NodeDetails)
    requires
        model.wf(),
        model@.has_graph(graph),
        model@.graphs[graph.0 as int].has_node(id),
        positions_countable(
            model@.graphs[graph.0 as int],
            model@.graphs[graph.0 as int].nodes[id.0 as int].inputs,
        ),
        positions_countable(
            model@.graphs[graph.0 as int],
            model@.graphs[graph.0 as int].nodes[id.0 as int].outputs,
        ),
    ensures
        details.shows(
            model@,
            model@.graphs[graph.0 as int],
            model@.graphs[graph.0 as int].nodes[id.0 as int],
        ),
{
    let ghost k = graph.0 as int;
    let ghost g = model@.graphs[k];
    let ghost view = g.nodes[id.0 as int];
    let graph: &Graph = model.graph(graph);
    proof {
        assert(g == graph@);
        assert(g.node_wf(view, id.0 as int));
        assert(view == graph.nodes@[id.0 as int]@);
    }
    let node: &Node = graph.node(id);
    let subheading: String = if node.named {
        node.name.clone()
    } else {
        let mut text: String = node.name.clone();
        text.append(" (unnamed)");
        text
    };
    let schema: Option<OpSchema> = lookup(node.domain.as_str(), node.op_type.as_str());
    let (input_params, output_params): (
        Option<&Vec<(String, Arity)>>,
        Option<&Vec<(String, Arity)>>,
    ) = match &schema {
        Some(schema) => (Some(&schema.inputs), Some(&schema.outputs)),
        None => (None, None),
    };
    let inputs: Vec<Position> = list_positions(graph, &node.inputs, input_params, true);
    let outputs: Vec<Position> = list_positions(graph, &node.outputs, output_params, false);
    let attrs: Vec<AttrRow> = list_attrs(model, node, Ghost(k), Ghost(id.0 as int));
    NodeDetails { heading: node.qualified_op_type(), subheading, inputs, outputs, attrs }
}

/// A link to a node.
pub struct NodeLink {
    pub node: NodeId,
    pub label: String,
}

/// What a link to a node says: its type and name, shortened.
pub open spec fn node_link_text(node: NodeView) -> Seq<char> {
    node.op_type + "  "@ + text::elided(node.name, 28)
}

fn node_link(graph: &Graph, id: NodeId) -> (link: NodeLink)
    requires
        graph@.has_node(id),
    ensures
        link.node == id,
        link.label@ == node_link_text(graph@.nodes[id.0 as int]),
{
    assert(graph@.nodes[id.0 as int] == graph.nodes@[id.0 as int]@);
    let node: &Node = graph.node(id);
    let mut label: String = node.op_type.clone();
    label.append("  ");
    let name: String = elide(node.name.as_str(), 28);
    label.append(name.as_str());
    NodeLink { node: id, label }
}

/// What the details pane says of a value.
pub struct ValueDetails {
    pub heading: String,
    pub subheading: String,
    /// Facts about the value, each with its name.
    pub facts: Vec<(String, String)>,
    /// How its elements are shown, for a constant.
    pub values: Option<TensorValues>,
    pub producer: Option<NodeLink>,
    pub consumers_heading: String,
    pub consumers: Vec<NodeLink>,
}

/// The facts about the tensor behind a constant. Weights kept outside the model
/// file describe where to find themselves, which is worth showing since the
/// data is not in the model.
pub open spec fn tensor_facts(tensor: TensorView) -> Seq<(Seq<char>, Seq<char>)> {
    let elements = seq![
        ("Elements"@, text::compact_count(model::element_count(tensor.dims))),
    ];
    let size = match tensor.stored_bytes() {
        Some(n) => seq![
            ("Size"@, text::compact_count(values::clipped(n, usize::MAX as nat)) + " bytes"@),
        ],
        None => Seq::empty(),
    };
    let entries = match tensor.data {
        model::DataView::External(entries) => Seq::new(
            entries.len(),
            |i: int| ("External "@ + entries[i].0, entries[i].1),
        ),
        _ => Seq::empty(),
    };
    elements + size + entries
}

/// The facts about a value.
pub open spec fn value_facts(model: ModelView, g: GraphView, value: ValueView) -> Seq<
    (Seq<char>, Seq<char>),
> {
    let about = seq![("Name"@, value.name), ("Type"@, value.type_text())];
    let tensor = match g.constant_tensor(value) {
        Some(tensor) => tensor_facts(tensor),
        None => Seq::empty(),
    };
    let outer = match value.outer {
        Some(outer) => seq![("Defined in"@, model.graphs[outer.graph.0 as int].label)],
        None => Seq::empty(),
    };
    about + tensor + outer
}

impl ValueDetails {
    /// Whether these are the details of a value.
    pub open spec fn shows(self, model: ModelView, g: GraphView, value: ValueView) -> bool {
        &&& self.heading@ == text::elided(value.name, 28)
        &&& self.subheading@ == value.kind.label_text()
        &&& model::pair_views(self.facts@) == value_facts(model, g, value)
        &&& match g.constant_tensor(value) {
            Some(tensor) => self.values is Some && values_show(self.values->0, tensor),
            None => self.values is None,
        }
        &&& match value.producer {
            Some(producer) => self.producer is Some && link_to(self.producer->0, g, producer),
            None => self.producer is None,
        }
        &&& self.consumers_heading@ == "Consumers ("@ + text::decimal(value.consumers.len()) + ")"@
        &&& self.consumers@.len() == value.consumers.len()
        &&& forall|i: int|
            0 <= i < value.consumers.len() ==> link_to(
                #[trigger] self.consumers@[i],
                g,
                value.consumers[i],
            )
    }
}

pub open spec fn link_to(link: NodeLink, g: GraphView, id: NodeId) -> bool {
    link.node == id && link.label@ == node_link_text(g.nodes[id.0 as int])
}

/// Adds a fact to the list.
pub(crate) fn push_fact(facts: &mut Vec<(String, String)>, name: String, fact: String)
    ensures
        model::pair_views(final(facts)@) == model::pair_views(old(facts)@).push((name@, fact@)),
{
    facts.push((name, fact));
    assert(model::pair_views(facts@) =~= model::pair_views(old(facts)@).push((name@, fact@)));
}

fn push_tensor_facts(facts: &mut Vec<(String, String)>, tensor: &Tensor)
    requires
        model::countable(tensor.dims@),
    ensures
        model::pair_views(final(facts)@) == model::pair_views(old(facts)@) + tensor_facts(tensor@),
{
    let ghost start = model::pair_views(facts@);
    push_fact(facts, "Elements".to_owned(), format_count(tensor.elem_count()));
    let ghost elements = seq![
        ("Elements"@, text::compact_count(model::element_count(tensor@.dims))),
    ];
    assert(model::pair_views(facts@) =~= start + elements);
    let ghost mut size: Seq<(Seq<char>, Seq<char>)> = Seq::empty();
    if let Some(bytes) = tensor.byte_len() {
        let mut text: String = format_count(bytes as u64);
        text.append(" bytes");
        push_fact(facts, "Size".to_owned(), text);
        proof {
            size = seq![("Size"@, text::compact_count(bytes as nat) + " bytes"@)];
        }
    }
    assert(model::pair_views(facts@) =~= start + elements + size);
    let ghost mut listed: Seq<(Seq<char>, Seq<char>)> = Seq::empty();
    if let TensorData::External { entries } = &tensor.data {
        let ghost all = Seq::new(
            entries@.len(),
            |i: int| ("External "@ + entries@[i].0@, entries@[i].1@),
        );
        let ghost before = model::pair_views(facts@);
        assert(before =~= before + all.take(0));
        for i in 0..entries.len()
            invariant
                all == Seq::new(
                    entries@.len(),
                    |i: int| ("External "@ + entries@[i].0@, entries@[i].1@),
                ),
                model::pair_views(facts@) == before + all.take(i as int),
        {
            let mut name: String = "External ".to_owned();
            name.append(entries[i].0.as_str());
            push_fact(facts, name, entries[i].1.clone());
            assert(model::pair_views(facts@) =~= before + all.take(i + 1));
        }
        proof {
            assert(all.take(all.len() as int) =~= all);
            listed = all;
        }
    }
    proof {
        assert(model::pair_views(facts@) =~= start + elements + size + listed);
        match tensor@.data {
            model::DataView::External(entries) => {
                assert(listed =~= Seq::new(
                    entries.len(),
                    |i: int| ("External "@ + entries[i].0, entries[i].1),
                ));
            },
            _ => {},
        }
        assert(start + elements + size + listed =~= start + (elements + size + listed));
        assert(elements + size + listed =~= tensor_facts(tensor@));
    }
}

/// Describes a value.
pub fn value_details(model: &Model, graph: GraphId, id: ValueId) -> (details: ValueDetails)
    requires
        model.wf(),
        model@.has_graph(graph),
        model@.graphs[graph.0 as int].has_value(id),
        value_countable(
            model@.graphs[graph.0 as int],
            model@.graphs[graph.0 as int].values[id.0 as int],
        ),
    ensures
        details.shows(
            model@,
            model@.graphs[graph.0 as int],
            model@.graphs[graph.0 as int].values[id.0 as int],
        ),
{
    let ghost m = model@;
    let ghost k = graph.0 as int;
    let ghost g = m.graphs[k];
    let ghost view = g.values[id.0 as int];
    let graph: &Graph = model.graph(graph);
    proof {
        assert(g == graph@);
        assert(g.value_wf(view, id.0 as int));
        assert(view == graph.values@[id.0 as int]@);
    }
    let value: &Value = graph.value(id);
    let constant: Option<&Tensor> = graph.constant_tensor(value);

    let mut facts: Vec<(String, String)> = Vec::new();
    push_fact(&mut facts, "Name".to_owned(), value.name.clone());
    push_fact(&mut facts, "Type".to_owned(), value.type_summary());
    let ghost about = seq![("Name"@, view.name), ("Type"@, view.type_text())];
    assert(model::pair_views(facts@) =~= about);
    let values: Option<TensorValues> = match constant {
        Some(tensor) => {
            push_tensor_facts(&mut facts, tensor);
            Some(tensor_values(tensor))
        },
        None => None,
    };
    let ghost tensor_part: Seq<(Seq<char>, Seq<char>)> = match g.constant_tensor(view) {
        Some(tensor) => tensor_facts(tensor),
        None => Seq::empty(),
    };
    assert(model::pair_views(facts@) =~= about + tensor_part);
    if let Some(outer) = value.outer {
        assert(graph::link_wf(m.graphs, k, m.graphs[k].values[id.0 as int]));
        assert(m.graphs[outer.graph.0 as int] == model.graphs@[outer.graph.0 as int]@);
        push_fact(&mut facts, "Defined in".to_owned(), model.graph(outer.graph).label.clone());
    }
    assert(model::pair_views(facts@) =~= value_facts(m, g, view));

    let producer: Option<NodeLink> = match value.producer {
        Some(producer) => Some(node_link(graph, producer)),
        None => None,
    };
    let mut consumers: Vec<NodeLink> = Vec::new();
    for i in 0..value.consumers.len()
        invariant
            g == graph@,
            view == value@,
            g.value_wf(view, id.0 as int),
            consumers@.len() == i,
            forall|j: int|
                0 <= j < i ==> link_to(#[trigger] consumers@[j], g, view.consumers[j]),
    {
        assert(g.has_node(view.consumers[i as int]));
        consumers.push(node_link(graph, value.consumers[i]));
    }
    let mut consumers_heading: String = "Consumers (".to_owned();
    let count: String = decimal_text(value.consumers.len() as u64);
    consumers_heading.append(count.as_str());
    consumers_heading.append(")");
    ValueDetails {
        heading: elide(value.name.as_str(), 28),
        subheading: value.kind.label().to_owned(),
        facts,
        values,
        producer,
        consumers_heading,
        consumers,
    }
}

/// On a row that describes an input or output, a link leads to a node at the
/// other end of the edge: one that writes the value for an input, and one that
/// reads it for an output.
pub proof fn law_row_links_follow_edges(g: GraphView, v: int, link: RowLink, is_input: bool)
    requires
        g.wf(),
        g.connected(),
        0 <= v < g.values.len(),
        link_shows(link, g, g.values[v], is_input),
    ensures
        match link {
            RowLink::Note(_) => true,
            RowLink::Producer(node) => is_input && g.has_node(node) && g.writes(node.0 as int, v),
            RowLink::Consumer(node) => !is_input && g.has_node(node) && g.reads(node.0 as int, v),
            RowLink::Consumers(_, nodes) => !is_input && forall|i: int|
                0 <= i < nodes@.len() ==> g.has_node(#[trigger] nodes@[i]) && g.reads(
                    nodes@[i].0 as int,
                    v,
                ),
        },
{
    let value = g.values[v];
    assert(g.value_wf(value, v));
    match link {
        RowLink::Note(_) => {},
        RowLink::Producer(node) => {
            assert(g.values[v].producer == Some(node));
        },
        RowLink::Consumer(node) => {
            assert(value.consumers[0] == node);
            assert(value.consumers.contains(NodeId(node.0)));
            assert(g.reads(node.0 as int, v));
        },
        RowLink::Consumers(_, nodes) => {
            assert forall|i: int| 0 <= i < nodes@.len() implies g.has_node(#[trigger] nodes@[i])
                && g.reads(nodes@[i].0 as int, v) by {
                assert(value.consumers[i] == nodes@[i]);
                assert(value.consumers.contains(NodeId(nodes@[i].0)));
                assert(g.reads(nodes@[i].0 as int, v));
            }
        },
    }
}

/// What is written out of a constant is held in the model: neither listing the
/// inputs of a node nor opening the pane of a value waits for another file.
pub proof fn law_what_is_written_out_is_held(tensor: TensorView)
    ensures
        tensor.fits_row() ==> !tensor.is_external() && tensor.refusal() is None,
        tensor.fits_pane() ==> !tensor.is_external(),
{
}

} // verus!
