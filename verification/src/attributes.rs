//! How operator attributes are displayed.

use crate::chars::{self, join};
use crate::model::{self, AttrValue, AttrValueView, Shape};
use crate::text::{self, decimal_text, signed_text};
use vstd::prelude::*;
use vstd::string::*;

verus! {

/// Long lists are elided; the details pane has limited width and the full
/// contents are rarely useful at a glance.
pub const MAX_ITEMS: usize = 16;

/// What `Debug` writes for a string: the string in quotes, with the characters
/// escaped that cannot stand there as they are.
pub uninterp spec fn debug_text(text: Seq<char>) -> Seq<char>;

/// Formats a string with the `Debug` implementation of `str`. Nothing is said
/// of which characters it escapes.
#[verifier::external_body]
fn quote(text: &str) -> (quoted: String)
    ensures
        quoted@ == debug_text(text@),
{
    format!("{text:?}")
}

/// A list of `total` items as it is displayed, given how the first of them are
/// written.
pub open spec fn list_text(items: Seq<Seq<char>>, total: nat) -> Seq<char> {
    let shown = "["@ + chars::joined(items, ", "@);
    if total > MAX_ITEMS {
        shown + ", … ("@ + text::decimal(total) + " total)"@ + "]"@
    } else {
        shown + "]"@
    }
}

/// The items of a list that are written out.
pub open spec fn shown_items<T>(items: Seq<T>) -> Seq<T> {
    if items.len() > MAX_ITEMS {
        items.take(MAX_ITEMS as int)
    } else {
        items
    }
}

impl AttrValueView {
    /// The word for the attribute's type.
    pub open spec fn type_text(self) -> Seq<char> {
        match self {
            AttrValueView::Float(_) => "float"@,
            AttrValueView::Int(_) => "int"@,
            AttrValueView::String(_) => "string"@,
            AttrValueView::Floats(_) => "float[]"@,
            AttrValueView::Ints(_) => "int[]"@,
            AttrValueView::Strings(_) => "string[]"@,
            AttrValueView::Tensor(_) => "tensor"@,
            AttrValueView::Graph(_) => "graph"@,
            AttrValueView::Unsupported(_) => "unsupported"@,
        }
    }

    /// The floats that are written out, as their bits.
    pub open spec fn shown_floats(self) -> Seq<u32> {
        match self {
            AttrValueView::Float(v) => seq![v],
            AttrValueView::Floats(v) => shown_items(v),
            _ => Seq::empty(),
        }
    }

    /// The attribute as it is displayed, its floats being written as given.
    pub open spec fn text(self, numbers: Seq<Seq<char>>) -> Seq<char> {
        match self {
            AttrValueView::Float(_) => numbers[0],
            AttrValueView::Int(v) => text::signed_decimal(v as int),
            AttrValueView::String(v) => debug_text(v),
            AttrValueView::Floats(v) => list_text(numbers, v.len()),
            AttrValueView::Ints(v) => list_text(
                Seq::new(shown_items(v).len(), |i: int| text::signed_decimal(v[i] as int)),
                v.len(),
            ),
            AttrValueView::Strings(v) => list_text(shown_items(v), v.len()),
            AttrValueView::Tensor(v) => model::data_type_text(v.dtype.0) + model::shape_text(
                v.shape(),
            ),
            AttrValueView::Graph(_) => "<subgraph>"@,
            AttrValueView::Unsupported(v) => "<unsupported attribute type "@ + text::signed_decimal(
                v as int,
            ) + ">"@,
        }
    }
}

/// How many of `total` items are written out.
fn shown_count(total: usize) -> (count: usize)
    ensures
        count == if total > MAX_ITEMS {
            MAX_ITEMS
        } else {
            total
        },
{
    if total > MAX_ITEMS {
        MAX_ITEMS
    } else {
        total
    }
}

fn write_list(items: &Vec<String>, total: usize) -> (text: String)
    ensures
        text@ == list_text(chars::views(items@), total as nat),
{
    let mut text: String = "[".to_owned();
    let list: String = join(items, ", ");
    text.append(list.as_str());
    if total > MAX_ITEMS {
        text.append(", … (");
        let number: String = decimal_text(total as u64);
        text.append(number.as_str());
        text.append(" total)");
    }
    text.append("]");
    text
}

impl AttrValue {
    /// Name of the attribute's type, for display.
    pub fn type_label(&self) -> (name: &'static str)
        ensures
            name@ == self@.type_text(),
    {
        match self {
            AttrValue::Float(_) => "float",
            AttrValue::Int(_) => "int",
            AttrValue::String(_) => "string",
            AttrValue::Floats(_) => "float[]",
            AttrValue::Ints(_) => "int[]",
            AttrValue::Strings(_) => "string[]",
            AttrValue::Tensor(_) => "tensor",
            AttrValue::Graph(_) => "graph",
            AttrValue::Unsupported(_) => "unsupported",
        }
    }

    /// The floats that have to be written to display the attribute, as their
    /// bits.
    pub fn floats(&self) -> (floats: Vec<u32>)
        ensures
            floats@ == self@.shown_floats(),
    {
        let mut floats: Vec<u32> = Vec::new();
        match self {
            AttrValue::Float(v) => {
                floats.push(*v);
            },
            AttrValue::Floats(v) => {
                let count: usize = shown_count(v.len());
                for i in 0..count
                    invariant
                        count == shown_items(v@).len(),
                        floats@ == v@.take(i as int),
                {
                    floats.push(v[i]);
                    assert(floats@ =~= v@.take(i + 1));
                }
                assert(floats@ =~= shown_items(v@));
            },
            _ => {},
        }
        assert(floats@ =~= self@.shown_floats());
        floats
    }

    /// The attribute as it is displayed, given how its floats are written.
    pub fn text(&self, numbers: &Vec<String>) -> (text: String)
        requires
            numbers@.len() == self@.shown_floats().len(),
        ensures
            text@ == self@.text(chars::views(numbers@)),
    {
        match self {
            AttrValue::Float(_) => numbers[0].clone(),
            AttrValue::Int(v) => signed_text(*v),
            AttrValue::String(v) => quote(v.as_str()),
            AttrValue::Floats(v) => write_list(numbers, v.len()),
            AttrValue::Ints(v) => {
                let count: usize = shown_count(v.len());
                let mut items: Vec<String> = Vec::new();
                for i in 0..count
                    invariant
                        count == shown_items(v@).len(),
                        items@.len() == i,
                        forall|k: int|
                            0 <= k < i ==> (#[trigger] items@[k])@ == text::signed_decimal(
                                v@[k] as int,
                            ),
                {
                    items.push(signed_text(v[i]));
                }
                assert(chars::views(items@) =~= Seq::new(
                    shown_items(v@).len(),
                    |i: int| text::signed_decimal(v@[i] as int),
                ));
                write_list(&items, v.len())
            },
            AttrValue::Strings(v) => {
                let count: usize = shown_count(v.len());
                let mut items: Vec<String> = Vec::new();
                for i in 0..count
                    invariant
                        count == shown_items(v@).len(),
                        items@.len() == i,
                        forall|k: int| 0 <= k < i ==> (#[trigger] items@[k])@ == v@[k]@,
                {
                    items.push(v[i].clone());
                }
                assert(chars::views(items@) =~= shown_items(chars::views(v@)));
                write_list(&items, v.len())
            },
            AttrValue::Tensor(v) => {
                let mut text: String = v.dtype.to_string();
                let shape: Shape = v.shape();
                let shape_text: String = shape.to_string();
                text.append(shape_text.as_str());
                text
            },
            AttrValue::Graph(_) => "<subgraph>".to_owned(),
            AttrValue::Unsupported(v) => {
                let mut text: String = "<unsupported attribute type ".to_owned();
                let number: String = signed_text(*v as i64);
                text.append(number.as_str());
                text.append(">");
                text
            },
        }
    }
}

} // verus!
