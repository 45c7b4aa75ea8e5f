//! What is shown of a node or a value when it is looked at.

use crate::chars;
use crate::details::{
    self, NodeDetails, RowContent, RowLink, TensorValues, ValueDetails, ValueRow,
};
use crate::graph::{GraphView, ModelView};
use crate::measures;
use crate::model::{self, AttrValueView, DataView, NodeView, TensorView, ValueKind, ValueView};
use crate::text;
use crate::values::{self, Element, FloatBits, Reading};
use vstd::prelude::*;

verus! {

/// Joining nothing gives nothing, one text that text, and each further text
/// stands behind the separator.
pub proof fn law_joining(parts: Seq<Seq<char>>, sep: Seq<char>, more: Seq<char>)
    ensures
        parts.len() == 0 ==> chars::joined(parts, sep).len() == 0,
        parts.len() == 0 ==> chars::joined(parts.push(more), sep) == more,
        parts.len() > 0 ==> chars::joined(parts.push(more), sep) == chars::joined(parts, sep) + sep
            + more,
{
    assert(parts.push(more).drop_last() =~= parts);
}

/// The bytes of a tensor are those that it holds: as many as there are, or four
/// or eight for each number. Where nothing is held nothing is said.
pub proof fn law_sizes_of_tensors(tensor: TensorView)
    ensures
        match tensor.data {
            DataView::Raw(v) => tensor.stored_bytes() == Some(v.len()),
            DataView::Floats(v) => tensor.stored_bytes() == Some(4 * v.len()),
            DataView::Int32s(v) => tensor.stored_bytes() == Some(4 * v.len()),
            DataView::Int64s(v) => tensor.stored_bytes() == Some(8 * v.len()),
            DataView::Doubles(v) => tensor.stored_bytes() == Some(8 * v.len()),
            DataView::External(_) => tensor.stored_bytes() is None,
            DataView::Missing => tensor.stored_bytes() is None,
        },
{
}

/// Whether a tensor holds at least one element in the model itself.
pub open spec fn holds_some(tensor: TensorView) -> bool {
    match tensor.data {
        DataView::Raw(v) => values::size_of(tensor.dtype.0) is Some && v.len() >= values::size_of(
            tensor.dtype.0,
        )->0,
        DataView::Floats(v) => v.len() > 0,
        DataView::Int32s(v) => v.len() > 0,
        DataView::Int64s(v) => v.len() > 0,
        DataView::Doubles(v) => v.len() > 0,
        DataView::External(_) => false,
        DataView::Missing => false,
    }
}

/// A constant is written out on a row where it has at most one axis and one to
/// eight elements, which are held in the model.
pub proof fn law_short_constants_fit_a_row(tensor: TensorView)
    ensures
        tensor.fits_row() <==> {
            &&& tensor.dims.len() <= 1
            &&& 0 < measures::volume(tensor.dims) <= 8
            &&& holds_some(tensor)
        },
{
    measures::law_elements_fill_the_axes(tensor.dims);
    let count = model::element_count(tensor.dims);
    if let DataView::Raw(bytes) = tensor.data {
        if let Some(size) = values::size_of(tensor.dtype.0) {
            let want = (count * size) as nat;
            let part = values::window(bytes, 0, want);
            assert(part.len() == values::clipped(want, bytes.len()));
            assert(0 < size <= 16);
            let have = part.len();
            if count > 0 && bytes.len() >= size {
                assert(count * size >= size) by (nonlinear_arith)
                    requires
                        count > 0,
                        size > 0,
                ;
                assert(have / size as nat > 0) by (nonlinear_arith)
                    requires
                        have >= size,
                        size > 0,
                ;
            } else {
                assert(count == 0 ==> count * size == 0) by (nonlinear_arith);
                assert(have / size as nat == 0) by (nonlinear_arith)
                    requires
                        have < size,
                        size > 0,
                ;
            }
        }
    }
}

/// In its own pane a constant without elements is said to be empty, one that
/// cannot be read says why, one with at most one axis and up to thirty-two
/// elements in the model is written out, and any other has a table.
pub proof fn law_constants_in_their_pane(shown: TensorValues, tensor: TensorView)
    requires
        details::values_show(shown, tensor),
    ensures
        ({
            let count = measures::volume(tensor.dims);
            let decoded = tensor.data is Floats || tensor.data is Int32s || tensor.data is Int64s
                || tensor.data is Doubles;
            let readable = decoded || (!(tensor.data is Missing) && values::size_of(
                tensor.dtype.0,
            ) is Some);
            let short = count <= 32 && tensor.dims.len() <= 1 && !(tensor.data is External);
            &&& shown is Empty <==> count == 0
            &&& shown is Unreadable <==> count > 0 && !readable
            &&& shown is Line <==> count > 0 && readable && short
            &&& shown is Table <==> count > 0 && readable && !short
            &&& shown is Table && count <= usize::MAX ==> shown->Table_1 == count
            &&& shown is Table ==> shown->Table_0@ == text::compact_count(count) + " elements"@
        }),
{
    measures::law_elements_fill_the_axes(tensor.dims);
}

/// The facts about the tensor behind a constant: how many elements it has, how
/// many bytes where they are held, and every entry that says where else they
/// are.
pub proof fn law_facts_of_a_tensor(tensor: TensorView, i: int)
    ensures
        ({
            let facts = details::tensor_facts(tensor);
            &&& facts.len() > 0
            &&& facts[0] == ("Elements"@, text::compact_count(measures::volume(tensor.dims)))
            &&& tensor.stored_bytes() is Some && tensor.stored_bytes()->0 <= usize::MAX ==> {
                &&& facts.len() == 2
                &&& facts[1] == ("Size"@, text::compact_count(tensor.stored_bytes()->0)
                    + " bytes"@)
            }
            &&& tensor.data is Missing ==> facts.len() == 1
            &&& tensor.data is External ==> {
                let entries = tensor.data->External_0;
                &&& facts.len() == 1 + entries.len()
                &&& 0 <= i < entries.len() ==> facts[1 + i] == (
                    "External "@ + entries[i].0,
                    entries[i].1,
                )
            }
        }),
{
    measures::law_elements_fill_the_axes(tensor.dims);
}

/// The facts about a value: its name, its type, those of its data, and the graph
/// that defines it where that is another one.
pub proof fn law_facts_of_a_value(model: ModelView, g: GraphView, value: ValueView, i: int)
    ensures
        ({
            let facts = details::value_facts(model, g, value);
            let tensor = match g.constant_tensor(value) {
                Some(tensor) => details::tensor_facts(tensor),
                None => Seq::empty(),
            };
            &&& facts[0] == ("Name"@, value.name)
            &&& facts[1] == ("Type"@, value.type_text())
            &&& 0 <= i < tensor.len() ==> facts[2 + i] == tensor[i]
            &&& value.outer is None ==> facts.len() == 2 + tensor.len()
            &&& value.outer is Some ==> {
                &&& facts.len() == 3 + tensor.len()
                &&& facts[2 + tensor.len() as int] == (
                    "Defined in"@,
                    model.graphs[(value.outer->0).graph.0 as int].label,
                )
            }
        }),
{
}

/// The data behind a value is its own, or else that of the constant that makes
/// it.
pub proof fn law_data_behind_a_value(g: GraphView, value: ValueView)
    ensures
        value.tensor is Some ==> g.constant_tensor(value) == value.tensor,
        value.tensor is None && value.producer is Some ==> g.constant_tensor(value)
            == g.nodes[(value.producer->0).0 as int].constant_tensor(),
        value.tensor is None && value.producer is None ==> g.constant_tensor(value) is None,
{
}

/// A type is shown as its element type and its shape, a question mark standing
/// for what is not known.
pub proof fn law_types_are_shown(value: ValueView)
    ensures
        match (value.dtype, value.shape) {
            (Some(dtype), Some(shape)) => value.type_text() == model::data_type_text(dtype.0)
                + model::shape_text(shape),
            (Some(dtype), None) => value.type_text() == model::data_type_text(dtype.0) + "[?]"@,
            (None, Some(shape)) => value.type_text() == "?"@ + model::shape_text(shape),
            (None, None) => value.type_text() == "?"@,
        },
{
}

/// A shape is shown in brackets, each dimension as its number or its name, a
/// question mark standing for one that is unknown.
pub proof fn law_shapes_are_shown(shape: Seq<model::DimView>, last: model::DimView)
    ensures
        ({
            let shown = match last {
                model::DimView::Fixed(n) => text::signed_decimal(n as int),
                model::DimView::Param(name) => name,
                model::DimView::Unknown => "?"@,
            };
            &&& shape.len() == 0 ==> model::shape_text(shape) == "["@ + Seq::<char>::empty() + "]"@
            &&& shape.len() == 0 ==> model::shape_text(shape.push(last)) == "["@ + shown + "]"@
            &&& shape.len() > 0 ==> exists|inner: Seq<char>| model::shape_text(shape) == #[trigger] (
            "["@ + inner + "]"@) && model::shape_text(shape.push(last)) == "["@ + (inner + ", "@
                + shown) + "]"@
        }),
{
    let longer = shape.push(last);
    let dims = Seq::new(shape.len(), |i: int| model::dim_text(shape[i]));
    let more = Seq::new(longer.len(), |i: int| model::dim_text(longer[i]));
    assert(more =~= dims.push(model::dim_text(last)));
    law_joining(dims, ", "@, model::dim_text(last));
    let inner = chars::joined(dims, ", "@);
    if shape.len() == 0 {
        assert(inner =~= Seq::<char>::empty());
    }
    assert(model::shape_text(shape) == "["@ + inner + "]"@);
    assert(model::shape_text(longer) == "["@ + chars::joined(more, ", "@) + "]"@);
}

/// A node is headed by its operator, after its domain where that is not the
/// default one, and by its name, with a remark where the model gives none.
pub proof fn law_headings_of_a_node(
    shown: NodeDetails,
    model: ModelView,
    g: GraphView,
    node: NodeView,
)
    requires
        shown.shows(model, g, node),
    ensures
        node.domain.len() == 0 || node.domain == "ai.onnx"@ ==> shown.heading@ == node.op_type,
        node.domain.len() > 0 && node.domain != "ai.onnx"@ ==> shown.heading@ == node.domain + "."@
            + node.op_type,
        node.named ==> shown.subheading@ == node.name,
        !node.named ==> shown.subheading@ == node.name + " (unnamed)"@,
        shown.inputs@.len() == node.inputs.len(),
        shown.outputs@.len() == node.outputs.len(),
        shown.attrs@.len() == node.attrs.len(),
{
}

/// A position that is left out says so; any other shows the value that is there.
pub proof fn law_positions_of_a_node(
    shown: NodeDetails,
    model: ModelView,
    g: GraphView,
    node: NodeView,
    i: int,
)
    requires
        g.wf(),
        g.node_wf(node, node.id.0 as int),
        shown.shows(model, g, node),
    ensures
        0 <= i < node.inputs.len() ==> match node.inputs[i] {
            Some(id) => shown.inputs@[i] is Present && shown.inputs@[i]->Present_0.value == id,
            None => shown.inputs@[i] is Omitted && shown.inputs@[i]->Omitted_0@
                == details::label_text(details::known_inputs(node), i as nat) + "  (omitted)"@,
        },
        0 <= i < node.outputs.len() ==> match node.outputs[i] {
            Some(id) => shown.outputs@[i] is Present && shown.outputs@[i]->Present_0.value == id,
            None => shown.outputs@[i] is Omitted && shown.outputs@[i]->Omitted_0@
                == details::label_text(details::known_outputs(node), i as nat) + "  (omitted)"@,
        },
{
    if 0 <= i < node.inputs.len() {
        assert(details::position_shows(
            shown.inputs@[i],
            g,
            node.inputs[i],
            details::label_text(details::known_inputs(node), i as nat),
            true,
        ));
        if node.inputs[i] is Some {
            let id = node.inputs[i]->0;
            assert(g.value_wf(g.values[id.0 as int], id.0 as int));
        }
    }
    if 0 <= i < node.outputs.len() {
        assert(details::position_shows(
            shown.outputs@[i],
            g,
            node.outputs[i],
            details::label_text(details::known_outputs(node), i as nat),
            false,
        ));
        if node.outputs[i] is Some {
            let id = node.outputs[i]->0;
            assert(g.value_wf(g.values[id.0 as int], id.0 as int));
        }
    }
}

/// An attribute that holds a graph has a link that opens it; no other has one.
pub proof fn law_attributes_of_a_node(
    shown: NodeDetails,
    model: ModelView,
    g: GraphView,
    node: NodeView,
    i: int,
)
    requires
        shown.shows(model, g, node),
        0 <= i < node.attrs.len(),
    ensures
        shown.attrs@[i].name@ == node.attrs[i].name,
        shown.attrs@[i].body is Some <==> node.attrs[i].value is Graph,
        node.attrs[i].value is Graph ==> (shown.attrs@[i].body->0).0 == node.attrs[i].value->Graph_0
            && (shown.attrs@[i].body->0).1@ == "open ("@ + text::decimal(
            model.graphs[(node.attrs[i].value->Graph_0).0 as int].nodes.len(),
        ) + " nodes)"@,
{
    assert(details::attr_shows(shown.attrs@[i], model, node.attrs[i]));
}

/// A label is the name of the parameter where it is known, and the position with
/// a dot behind it otherwise.
pub proof fn law_labels(
    params: Option<Seq<(Seq<char>, crate::op_schema::Arity)>>,
    index: nat,
)
    ensures
        params is None ==> details::label_text(params, index) == text::decimal(index) + "."@,
        params is Some && crate::op_schema::parameter_name(params->0, index) is None
            ==> details::label_text(params, index) == text::decimal(index) + "."@,
        params is Some && crate::op_schema::parameter_name(params->0, index) is Some
            ==> details::label_text(params, index) == crate::op_schema::parameter_name(
            params->0,
            index,
        )->0,
{
}

/// A value is headed by its name, cut to the width of the pane, and by what kind
/// of value it is. It links to the node that makes it and to every node that
/// reads it, in order.
pub proof fn law_links_of_a_value(
    shown: ValueDetails,
    model: ModelView,
    g: GraphView,
    value: ValueView,
    i: int,
)
    requires
        shown.shows(model, g, value),
    ensures
        shown.heading@ == text::elided(value.name, 28),
        shown.subheading@ == value.kind.label_text(),
        shown.producer is Some <==> value.producer is Some,
        value.producer is Some ==> (shown.producer->0).node == value.producer->0,
        shown.consumers@.len() == value.consumers.len(),
        shown.consumers_heading@ == "Consumers ("@ + text::decimal(value.consumers.len()) + ")"@,
        0 <= i < value.consumers.len() ==> shown.consumers@[i].node == value.consumers[i],
        0 <= i < value.consumers.len() ==> shown.consumers@[i].label@
            == g.nodes[value.consumers[i].0 as int].op_type + "  "@ + text::elided(
            g.nodes[value.consumers[i].0 as int].name,
            28,
        ),
        shown.values is Some <==> g.constant_tensor(value) is Some,
{
    if 0 <= i < value.consumers.len() {
        assert(details::link_to(shown.consumers@[i], g, value.consumers[i]));
    }
}

/// The word for each kind of value.
pub proof fn law_words_for_kinds()
    ensures
        ValueKind::Input.label_text() == "input"@,
        ValueKind::Output.label_text() == "output"@,
        ValueKind::Initializer.label_text() == "initializer"@,
        ValueKind::Constant.label_text() == "constant"@,
        ValueKind::Intermediate.label_text() == "intermediate"@,
        ValueKind::OuterScope.label_text() == "outer scope"@,
{
}

/// Values that are stored or made by a constant are constants, and no others.
pub proof fn law_kinds_of_constants(kind: ValueKind)
    ensures
        kind.is_constant() <==> kind == ValueKind::Initializer || kind == ValueKind::Constant,
{
}

/// A list of up to sixteen items is written whole. Of a longer one the first
/// sixteen are written, and how many there are.
pub proof fn law_lists_are_cut(items: Seq<Seq<char>>, total: nat)
    ensures
        total <= 16 ==> crate::attributes::list_text(items, total) == "["@ + chars::joined(
            items,
            ", "@,
        ) + "]"@,
        total > 16 ==> crate::attributes::list_text(items, total) == "["@ + chars::joined(
            items,
            ", "@,
        ) + ", … ("@ + text::decimal(total) + " total)"@ + "]"@,
        items.len() <= 16 ==> crate::attributes::shown_items(items) == items,
        items.len() > 16 ==> {
            let shown = crate::attributes::shown_items(items);
            &&& shown.len() == 16
            &&& forall|i: int| 0 <= i < shown.len() ==> #[trigger] shown[i] == items[i]
        },
{
}

/// How each kind of attribute is written, given how floats are.
pub proof fn law_attributes_are_written(value: AttrValueView, numbers: Seq<Seq<char>>)
    ensures
        match value {
            AttrValueView::Float(_) => value.text(numbers) == numbers[0],
            AttrValueView::Int(v) => value.text(numbers) == text::signed_decimal(v as int),
            AttrValueView::Floats(v) => value.text(numbers) == crate::attributes::list_text(
                numbers,
                v.len(),
            ),
            AttrValueView::Ints(v) => {
                &&& v.len() <= 16 ==> value.text(numbers) == crate::attributes::list_text(
                    Seq::new(v.len(), |i: int| text::signed_decimal(v[i] as int)),
                    v.len(),
                )
                &&& v.len() > 16 ==> value.text(numbers) == crate::attributes::list_text(
                    Seq::new(16, |i: int| text::signed_decimal(v[i] as int)),
                    v.len(),
                )
            },
            AttrValueView::Tensor(v) => value.text(numbers) == model::data_type_text(v.dtype.0)
                + model::shape_text(Seq::new(v.dims.len(), |i: int| model::DimView::Fixed(v.dims[i]))),
            AttrValueView::String(v) => value.text(numbers) == crate::attributes::debug_text(v),
            AttrValueView::Strings(v) => {
                &&& v.len() <= 16 ==> value.text(numbers) == crate::attributes::list_text(
                    v,
                    v.len(),
                )
                &&& v.len() > 16 ==> value.text(numbers) == crate::attributes::list_text(
                    v.take(16),
                    v.len(),
                )
            },
            AttrValueView::Graph(_) => value.text(numbers) == "<subgraph>"@,
            AttrValueView::Unsupported(v) => value.text(numbers) == "<unsupported attribute type "@
                + text::signed_decimal(v as int) + ">"@,
        },
{
    if let AttrValueView::Ints(v) = value {
        let shown = Seq::new(
            crate::attributes::shown_items(v).len(),
            |i: int| text::signed_decimal(v[i] as int),
        );
        if v.len() <= 16 {
            assert(shown =~= Seq::new(v.len(), |i: int| text::signed_decimal(v[i] as int)));
        } else {
            assert(shown =~= Seq::new(16, |i: int| text::signed_decimal(v[i] as int)));
        }
    }
    if let AttrValueView::Tensor(v) = value {
        assert(v.shape() =~= Seq::new(v.dims.len(), |i: int| model::DimView::Fixed(v.dims[i])));
    }
}

/// Elements are written as words and numbers, and a complex number as its two
/// parts. What is to be written of a float is its bits, the real part first.
pub proof fn law_elements_are_written(
    n: u64,
    a: u32,
    b: u32,
    c: u64,
    d: u64,
    numbers: Seq<Seq<char>>,
)
    ensures
        Element::Bool(true).text(numbers) == "true"@,
        Element::Bool(false).text(numbers) == "false"@,
        Element::UInt(n).text(numbers) == text::decimal(n as nat),
        n < i64::MAX ==> Element::Int(n as i64).text(numbers) == text::decimal(n as nat),
        0 < n < i64::MAX ==> Element::Int((-n) as i64).text(numbers) == seq!['-'] + text::decimal(
            n as nat,
        ),
        Element::Single(a).text(numbers) == numbers[0],
        Element::Double(c).text(numbers) == numbers[0],
        Element::ComplexSingle(a, b).text(numbers) == numbers[0] + "+"@ + numbers[1] + "i"@,
        Element::ComplexDouble(c, d).text(numbers) == numbers[0] + "+"@ + numbers[1] + "i"@,
        Element::Single(a).parts() == seq![FloatBits::Single(a)],
        Element::Double(c).parts() == seq![FloatBits::Double(c)],
        Element::ComplexSingle(a, b).parts() == seq![FloatBits::Single(a), FloatBits::Single(b)],
        Element::ComplexDouble(c, d).parts() == seq![FloatBits::Double(c), FloatBits::Double(d)],
        Element::UInt(n).parts().len() == 0,
        Element::Bool(true).parts().len() == 0,
        Element::Unknown.parts().len() == 0,
{
}

/// Whether what follows a value on its row is right: the size of a constant,
/// that a value is from around, or where it comes from or goes to.
pub open spec fn link_tells(link: RowLink, g: GraphView, value: ValueView, is_input: bool) -> bool {
    let constant = value.kind is Initializer || value.kind is Constant;
    let plain = !constant && !(value.kind is OuterScope);
    &&& constant && g.constant_tensor(value) is Some ==> link is Note && link->Note_0@
        == "const · "@ + text::compact_count(
        model::element_count(g.constant_tensor(value)->0.dims),
    )
    &&& value.kind is OuterScope ==> link is Note && link->Note_0@ == "outer scope"@
    &&& plain && is_input && value.producer is Some ==> link == RowLink::Producer(
        value.producer->0,
    )
    &&& plain && is_input && value.producer is None ==> link is Note && link->Note_0@
        == value.kind.label_text()
    &&& plain && !is_input && value.consumers.len() == 0 ==> link is Note && link->Note_0@
        == value.kind.label_text()
    &&& plain && !is_input && value.consumers.len() == 1 ==> link == RowLink::Consumer(
        value.consumers[0],
    )
    &&& plain && !is_input && value.consumers.len() > 1 ==> {
        &&& link is Consumers
        &&& link->Consumers_0@ == text::decimal(value.consumers.len()) + " consumers"@
        &&& link->Consumers_1@ == value.consumers
    }
}

/// Whether a row tells of a value: what a short constant holds, and of any other
/// value its name, its type and where it leads.
pub open spec fn row_tells(
    row: ValueRow,
    g: GraphView,
    value: ValueView,
    label: Seq<char>,
    is_input: bool,
) -> bool {
    let constant = g.constant_tensor(value);
    &&& row.label@ == label
    &&& row.value == value.id
    &&& row.content is Line <==> constant is Some && constant->0.fits_row()
    &&& match row.content {
        RowContent::Line(elements, scalar) => {
            &&& scalar <==> constant->0.dims.len() == 0
            &&& values::reads_window(
                constant->0,
                0,
                model::element_count(constant->0.dims) as usize,
                Reading::Elements(elements),
            )
        },
        RowContent::Named(name, summary, link) => {
            &&& value.name.len() <= 36 ==> name@ == value.name
            &&& summary@ == value.type_text()
            &&& link_tells(link, g, value, is_input)
        },
    }
}

/// The rows of a node tell of what it reads and of what it writes.
pub proof fn law_rows_of_a_node(
    shown: NodeDetails,
    model: ModelView,
    g: GraphView,
    node: NodeView,
    i: int,
)
    requires
        shown.shows(model, g, node),
    ensures
        shown.inputs@.len() == node.inputs.len(),
        0 <= i < node.inputs.len() && node.inputs[i] is Some ==> shown.inputs@[i] is Present
            && row_tells(
            shown.inputs@[i]->Present_0,
            g,
            g.values[(node.inputs[i]->0).0 as int],
            details::label_text(details::known_inputs(node), i as nat),
            true,
        ),
        shown.outputs@.len() == node.outputs.len(),
        0 <= i < node.outputs.len() && node.outputs[i] is Some ==> shown.outputs@[i] is Present
            && row_tells(
            shown.outputs@[i]->Present_0,
            g,
            g.values[(node.outputs[i]->0).0 as int],
            details::label_text(details::known_outputs(node), i as nat),
            false,
        ),
{
    if 0 <= i < node.inputs.len() {
        assert(details::position_shows(
            shown.inputs@[i],
            g,
            node.inputs[i],
            details::label_text(details::known_inputs(node), i as nat),
            true,
        ));
    }
    if 0 <= i < node.outputs.len() {
        assert(details::position_shows(
            shown.outputs@[i],
            g,
            node.outputs[i],
            details::label_text(details::known_outputs(node), i as nat),
            false,
        ));
    }
}

} // verus!
