//! What the counts of a graph add up to.

use crate::graph::GraphView;
use crate::model::{self, AttrValueView, AttributeView, NodeView, TensorView, ValueView};
use crate::queries;
use crate::tally;
use vstd::prelude::*;

verus! {

/// The product of the extents of all axes, an axis without an extent counting
/// as empty.
pub open spec fn volume(dims: Seq<i64>) -> nat
    decreases dims.len(),
{
    if dims.len() == 0 {
        1
    } else if dims[0] <= 0 {
        0
    } else {
        dims[0] as nat * volume(dims.skip(1))
    }
}

/// The elements of a tensor that may be there.
pub open spec fn held(tensor: Option<TensorView>) -> int {
    match tensor {
        Some(tensor) => volume(tensor.dims) as int,
        None => 0,
    }
}

/// The elements that an attribute holds.
pub open spec fn attr_held(attr: AttributeView) -> int {
    match attr.value {
        AttrValueView::Tensor(tensor) => volume(tensor.dims) as int,
        _ => 0,
    }
}

/// The elements that the attributes of a node hold.
pub open spec fn node_held(node: NodeView) -> int {
    tally::sum(node.attrs.len(), |j: int| attr_held(node.attrs[j]))
}

proof fn lemma_count_from_front(dims: Seq<i64>)
    requires
        dims.len() > 0,
    ensures
        model::element_count(dims) == (if dims[0] <= 0 {
            0
        } else {
            dims[0] as nat
        }) * model::element_count(dims.skip(1)),
    decreases dims.len(),
{
    let rest = dims.skip(1);
    if dims.len() == 1 {
        assert(rest =~= Seq::<i64>::empty());
        assert(dims.drop_last() =~= Seq::<i64>::empty());
        assert(model::element_count(dims) == 1 * model::extent(dims[0]));
    } else {
        lemma_count_from_front(dims.drop_last());
        assert(dims.drop_last().skip(1) =~= rest.drop_last());
        assert(rest.last() == dims.last());
        let x: nat = if dims[0] <= 0 {
            0
        } else {
            dims[0] as nat
        };
        let y = model::element_count(rest.drop_last());
        let z = model::extent(dims.last());
        assert((x * y) * z == x * (y * z)) by (nonlinear_arith);
    }
}

/// A tensor has as many elements as its axes span, whatever their number: one
/// where there are none, and one axis after the other otherwise.
pub proof fn law_elements_fill_the_axes(dims: Seq<i64>)
    ensures
        model::element_count(dims) == volume(dims),
    decreases dims.len(),
{
    if dims.len() > 0 {
        lemma_count_from_front(dims);
        law_elements_fill_the_axes(dims.skip(1));
    }
}

/// A tensor with one axis has as many elements as that is long.
pub proof fn law_one_axis_is_its_length(n: i64)
    ensures
        model::element_count(seq![n]) == if n > 0 {
            n as int
        } else {
            0
        },
{
    law_elements_fill_the_axes(seq![n]);
    let rest = volume(seq![n].skip(1));
    assert(seq![n].skip(1) =~= Seq::<i64>::empty());
    assert(n > 0 ==> n as nat * rest == n) by (nonlinear_arith)
        requires
            rest == 1,
    ;
}

proof fn lemma_stored_sum(values: Seq<ValueView>, n: nat)
    requires
        n <= values.len(),
    ensures
        queries::stored_elements(values, n) == tally::sum(n, |i: int| held(values[i].tensor)),
    decreases n,
{
    if n > 0 {
        lemma_stored_sum(values, (n - 1) as nat);
        if values[n - 1].tensor is Some {
            law_elements_fill_the_axes(values[n - 1].tensor->0.dims);
        }
    }
}

proof fn lemma_attr_sum(attrs: Seq<AttributeView>, n: nat)
    requires
        n <= attrs.len(),
    ensures
        queries::attr_elements(attrs, n) == tally::sum(n, |j: int| attr_held(attrs[j])),
    decreases n,
{
    if n > 0 {
        lemma_attr_sum(attrs, (n - 1) as nat);
        if let AttrValueView::Tensor(tensor) = attrs[n - 1].value {
            law_elements_fill_the_axes(tensor.dims);
        }
    }
}

proof fn lemma_node_sum(nodes: Seq<NodeView>, n: nat)
    requires
        n <= nodes.len(),
    ensures
        queries::node_elements(nodes, n) == tally::sum(n, |i: int| node_held(nodes[i])),
    decreases n,
{
    if n > 0 {
        lemma_node_sum(nodes, (n - 1) as nat);
        let node = nodes[n - 1];
        lemma_attr_sum(node.attrs, node.attrs.len());
        tally::lemma_sum_same(
            node.attrs.len(),
            |j: int| attr_held(node.attrs[j]),
            |j: int| attr_held(nodes[n - 1].attrs[j]),
        );
    }
}

/// A graph has as many parameters as all its initializers and all the tensors
/// among its attributes have elements.
pub proof fn law_parameters_are_all_elements(g: GraphView)
    ensures
        g.parameters() == tally::sum(g.values.len(), |i: int| held(g.values[i].tensor)) + tally::sum(
            g.nodes.len(),
            |i: int| node_held(g.nodes[i]),
        ),
{
    lemma_stored_sum(g.values, g.values.len());
    lemma_node_sum(g.nodes, g.nodes.len());
}

/// One more value adds the elements of its tensor to the parameters, whatever
/// its axes, and nothing if it has none.
pub proof fn law_a_value_adds_its_elements(g: GraphView, value: ValueView)
    ensures
        (GraphView { values: g.values.push(value), ..g }).parameters() == g.parameters() + held(
            value.tensor,
        ),
{
    let more = GraphView { values: g.values.push(value), ..g };
    law_parameters_are_all_elements(g);
    law_parameters_are_all_elements(more);
    tally::lemma_sum_same(
        g.values.len(),
        |i: int| held(g.values[i].tensor),
        |i: int| held(more.values[i].tensor),
    );
    tally::lemma_sum_same(
        g.nodes.len(),
        |i: int| node_held(g.nodes[i]),
        |i: int| node_held(more.nodes[i]),
    );
}

/// One more node adds the elements of the tensors among its attributes.
pub proof fn law_a_node_adds_its_elements(g: GraphView, node: NodeView)
    ensures
        (GraphView { nodes: g.nodes.push(node), ..g }).parameters() == g.parameters() + node_held(
            node,
        ),
{
    let more = GraphView { nodes: g.nodes.push(node), ..g };
    law_parameters_are_all_elements(g);
    law_parameters_are_all_elements(more);
    tally::lemma_sum_same(
        g.values.len(),
        |i: int| held(g.values[i].tensor),
        |i: int| held(more.values[i].tensor),
    );
    tally::lemma_sum_same(
        g.nodes.len(),
        |i: int| node_held(g.nodes[i]),
        |i: int| node_held(more.nodes[i]),
    );
}

/// An operator type is counted once for every node of that type.
pub proof fn law_operators_are_counted(nodes: Seq<NodeView>, op_type: Seq<char>)
    ensures
        queries::op_count(nodes, op_type) == tally::sum(
            nodes.len(),
            |i: int| tally::one(nodes[i].op_type == op_type),
        ),
    decreases nodes.len(),
{
    if nodes.len() > 0 {
        let before = nodes.drop_last();
        law_operators_are_counted(before, op_type);
        tally::lemma_sum_same(
            before.len(),
            |i: int| tally::one(before[i].op_type == op_type),
            |i: int| tally::one(nodes[i].op_type == op_type),
        );
    }
}

/// Elements can be counted exactly where none of the products of the first axes
/// is out of range.
pub proof fn law_countable_where_products_fit(dims: Seq<i64>)
    ensures
        model::countable(dims) <==> forall|k: int|
            0 <= k <= dims.len() ==> #[trigger] volume(dims.take(k)) <= u64::MAX,
{
    assert forall|k: int| 0 <= k <= dims.len() implies model::element_count(#[trigger] dims.take(k))
        == volume(dims.take(k)) by {
        law_elements_fill_the_axes(dims.take(k));
    }
    if model::countable(dims) {
        assert forall|k: int| 0 <= k <= dims.len() implies #[trigger] volume(dims.take(k))
            <= u64::MAX by {
            assert(model::element_count(dims.take(k)) <= u64::MAX);
        }
    }
    if forall|k: int| 0 <= k <= dims.len() ==> #[trigger] volume(dims.take(k)) <= u64::MAX {
        assert forall|k: int| 0 <= k <= dims.len() implies #[trigger] model::element_count(
            dims.take(k),
        ) <= u64::MAX by {
            assert(volume(dims.take(k)) <= u64::MAX);
        }
    }
}

/// The parameters of a graph can be counted exactly where those of each tensor
/// can, and their number is in range.
pub proof fn law_parameters_countable_where_tensors_are(g: GraphView)
    ensures
        g.parameters_countable() <==> {
            &&& tally::sum(g.values.len(), |i: int| held(g.values[i].tensor)) + tally::sum(
                g.nodes.len(),
                |i: int| node_held(g.nodes[i]),
            ) <= u64::MAX
            &&& forall|i: int|
                0 <= i < g.values.len() ==> match (#[trigger] g.values[i]).tensor {
                    Some(tensor) => model::countable(tensor.dims),
                    None => true,
                }
            &&& forall|i: int, j: int|
                0 <= i < g.nodes.len() && 0 <= j < g.nodes[i].attrs.len()
                    ==> match #[trigger] g.nodes[i].attrs[j].value {
                    AttrValueView::Tensor(tensor) => model::countable(tensor.dims),
                    _ => true,
                }
        },
{
    law_parameters_are_all_elements(g);
    if forall|i: int, j: int|
        0 <= i < g.nodes.len() && 0 <= j < g.nodes[i].attrs.len()
            ==> match #[trigger] g.nodes[i].attrs[j].value {
            AttrValueView::Tensor(tensor) => model::countable(tensor.dims),
            _ => true,
        } {
        assert forall|i: int| 0 <= i < g.nodes.len() implies queries::attrs_countable(
            (#[trigger] g.nodes[i]).attrs,
        ) by {
            assert forall|j: int| 0 <= j < g.nodes[i].attrs.len() implies match (
            #[trigger] g.nodes[i].attrs[j]).value {
                AttrValueView::Tensor(tensor) => model::countable(tensor.dims),
                _ => true,
            } by {
                assert(match g.nodes[i].attrs[j].value {
                    AttrValueView::Tensor(tensor) => model::countable(tensor.dims),
                    _ => true,
                });
            }
        }
    }
    if g.parameters_countable() {
        assert forall|i: int, j: int|
            0 <= i < g.nodes.len() && 0 <= j < g.nodes[i].attrs.len() implies match #[trigger] g.nodes[i].attrs[j].value {
            AttrValueView::Tensor(tensor) => model::countable(tensor.dims),
            _ => true,
        } by {
            assert(queries::attrs_countable(g.nodes[i].attrs));
            let attr = g.nodes[i].attrs[j];
        }
    }
}

} // verus!
