//! Fit sizing: a box that fits its children takes its size from them.
//!
//! The pass walks the tree bottom-up, so the size of every child is settled
//! before its parent reads it.

use crate::data_type::{DimensionConfig, ElementConfig};
use crate::element::{
    child_at, lemma_same_shape_post_ordered, lemma_tree_view_update, post_ordered, same_shape,
    tree_view, Element, ElementView, KindView,
};
use crate::units::{larger, sat, saturate, times};
use vstd::prelude::*;

verus! {

/// The sum of the sizes of the first `upto` children of `parent` on an axis.
pub open spec fn children_total(tree: Seq<ElementView>, parent: int, x_axis: bool, upto: int) -> int
    decreases upto,
{
    if upto <= 0 {
        0
    } else {
        children_total(tree, parent, x_axis, upto - 1) + tree[child_at(
            tree,
            parent,
            upto - 1,
        )].size(x_axis)
    }
}

/// The largest size among the first `upto` children of `parent` on an axis,
/// or zero if none is larger than that.
pub open spec fn children_largest(
    tree: Seq<ElementView>,
    parent: int,
    x_axis: bool,
    upto: int,
) -> int
    decreases upto,
{
    if upto <= 0 {
        0
    } else {
        larger(
            children_largest(tree, parent, x_axis, upto - 1),
            tree[child_at(tree, parent, upto - 1)].size(x_axis) as int,
        )
    }
}

/// The room taken by the gaps between `count` children in a row.
pub open spec fn gaps_between(count: int, gap: int) -> int {
    if count > 0 {
        (count - 1) * gap
    } else {
        0
    }
}

/// The room that the children of a box take on an axis: along the box's
/// direction they stand in a row with gaps, across it the largest decides.
pub open spec fn content_extent(
    tree: Seq<ElementView>,
    parent: int,
    config: ElementConfig,
    x_axis: bool,
) -> int {
    let count = tree[parent].children.len() as int;
    if config.runs_along(x_axis) {
        children_total(tree, parent, x_axis, count) + gaps_between(count, config.child_gap as int)
    } else {
        children_largest(tree, parent, x_axis, count)
    }
}

/// The size of a fitting box on an axis: its content and padding, but not
/// less than the descriptor's minimum.
pub open spec fn fit_extent(
    tree: Seq<ElementView>,
    parent: int,
    config: ElementConfig,
    min_size: int,
    x_axis: bool,
) -> int {
    larger(
        min_size,
        content_extent(tree, parent, config, x_axis) + config.padding_start(x_axis)
            + config.padding_end(x_axis),
    )
}

/// Node `i` after fit sizing on an axis, its children being settled in `tree`.
///
/// A text leaf only takes a positive minimum width from a fit descriptor; its
/// height always comes from wrapping.
pub open spec fn fit_node(tree: Seq<ElementView>, i: int, x_axis: bool) -> ElementView {
    let node = tree[i];
    match node.kind {
        KindView::Rectangle(config) => match node.sizing(x_axis) {
            DimensionConfig::Fit(fit) => node.with_size(
                x_axis,
                sat(fit_extent(tree, i, config, fit.min_size as int, x_axis)),
            ),
            _ => node,
        },
        KindView::Text(text) => match text.width {
            DimensionConfig::Fit(fit) => if x_axis && fit.min_size > 0 {
                node.with_size(true, fit.min_size)
            } else {
                node
            },
            _ => node,
        },
    }
}

/// The tree after fit sizing has visited its first `upto` nodes.
pub open spec fn fit_prefix(tree: Seq<ElementView>, x_axis: bool, upto: int) -> Seq<ElementView>
    decreases upto,
{
    if upto <= 0 {
        tree
    } else {
        let before = fit_prefix(tree, x_axis, upto - 1);
        before.update(upto - 1, fit_node(before, upto - 1, x_axis))
    }
}

/// The tree after fit sizing on an axis.
pub open spec fn fit_pass(tree: Seq<ElementView>, x_axis: bool) -> Seq<ElementView> {
    fit_prefix(tree, x_axis, tree.len() as int)
}

/// Fit sizing changes no child list and no configuration.
pub proof fn lemma_fit_prefix_shape(tree: Seq<ElementView>, x_axis: bool, upto: int)
    requires
        upto <= tree.len(),
    ensures
        same_shape(tree, fit_prefix(tree, x_axis, upto)),
    decreases upto,
{
    if upto > 0 {
        lemma_fit_prefix_shape(tree, x_axis, upto - 1);
        let before = fit_prefix(tree, x_axis, upto - 1);
        let after = fit_prefix(tree, x_axis, upto);
        assert forall|i: int| 0 <= i < tree.len() implies (#[trigger] tree[i]).declared()
            == after[i].declared() by {
            assert(tree[i].declared() == before[i].declared());
        }
    }
}

/// Fit sizing settles a node when it visits it: later visits leave it
/// alone, and a node that was not visited yet is as it was.
pub proof fn lemma_fit_prefix_settled(tree: Seq<ElementView>, x_axis: bool, upto: int, i: int)
    requires
        0 <= upto <= tree.len(),
        0 <= i < tree.len(),
    ensures
        fit_prefix(tree, x_axis, upto).len() == tree.len(),
        i < upto ==> fit_prefix(tree, x_axis, upto)[i] == fit_prefix(tree, x_axis, i + 1)[i],
        i >= upto ==> fit_prefix(tree, x_axis, upto)[i] == tree[i],
    decreases upto,
{
    if upto > 0 {
        lemma_fit_prefix_settled(tree, x_axis, upto - 1, i);
    }
}

/// The sum of children's sizes depends on the children only.
pub proof fn lemma_children_total_agrees(
    a: Seq<ElementView>,
    b: Seq<ElementView>,
    parent: int,
    x_axis: bool,
    upto: int,
)
    requires
        0 <= upto <= a[parent].children.len(),
        a[parent].children == b[parent].children,
        forall|slot: int|
            0 <= slot < upto ==> a[#[trigger] child_at(a, parent, slot)].size(x_axis)
                == b[child_at(a, parent, slot)].size(x_axis),
    ensures
        children_total(a, parent, x_axis, upto) == children_total(b, parent, x_axis, upto),
        children_largest(a, parent, x_axis, upto) == children_largest(b, parent, x_axis, upto),
    decreases upto,
{
    if upto > 0 {
        lemma_children_total_agrees(a, b, parent, x_axis, upto - 1);
        assert(child_at(a, parent, upto - 1) == child_at(b, parent, upto - 1));
    }
}

/// After fit sizing every fitting box has the size that its children, as
/// they are after the pass, call for.
pub proof fn lemma_fit_equation(tree: Seq<ElementView>, x_axis: bool, parent: int)
    requires
        post_ordered(tree),
        0 <= parent < tree.len(),
        tree[parent].kind is Rectangle,
        tree[parent].sizing(x_axis) is Fit,
    ensures
        fit_pass(tree, x_axis)[parent].size(x_axis) == sat(
            fit_extent(
                fit_pass(tree, x_axis),
                parent,
                tree[parent].kind->Rectangle_0,
                tree[parent].sizing(x_axis)->Fit_0.min_size as int,
                x_axis,
            ),
        ),
{
    let fitted = fit_pass(tree, x_axis);
    let before = fit_prefix(tree, x_axis, parent);
    let count = tree[parent].children.len() as int;
    lemma_fit_prefix_settled(tree, x_axis, tree.len() as int, parent);
    lemma_fit_prefix_settled(tree, x_axis, parent, parent);
    lemma_fit_prefix_shape(tree, x_axis, parent);
    lemma_fit_prefix_shape(tree, x_axis, tree.len() as int);
    assert(tree[parent].declared() == before[parent].declared());
    assert(tree[parent].declared() == fitted[parent].declared());
    assert forall|slot: int| 0 <= slot < count implies before[#[trigger] child_at(
        before,
        parent,
        slot,
    )].size(x_axis) == fitted[child_at(before, parent, slot)].size(x_axis) by {
        let child = child_at(before, parent, slot);
        assert(child == child_at(tree, parent, slot));
        assert(0 <= child < parent);
        lemma_fit_prefix_settled(tree, x_axis, tree.len() as int, child);
        lemma_fit_prefix_settled(tree, x_axis, parent, child);
    }
    lemma_children_total_agrees(before, fitted, parent, x_axis, count);
}

/// Conservation: after fit sizing a box that fits its children along its
/// direction holds them all, with the gaps between them and its padding,
/// provided that sum is a size at all. It is exactly as large as that unless
/// its minimum is larger.
pub proof fn lemma_fit_conserves(tree: Seq<ElementView>, x_axis: bool, parent: int)
    requires
        post_ordered(tree),
        0 <= parent < tree.len(),
        tree[parent].kind is Rectangle,
        tree[parent].sizing(x_axis) is Fit,
        tree[parent].kind->Rectangle_0.runs_along(x_axis),
        row_demand(fit_pass(tree, x_axis), parent, x_axis) <= i32::MAX,
    ensures
        row_demand(fit_pass(tree, x_axis), parent, x_axis) <= fit_pass(
            tree,
            x_axis,
        )[parent].size(x_axis),
        tree[parent].sizing(x_axis)->Fit_0.min_size <= row_demand(
            fit_pass(tree, x_axis),
            parent,
            x_axis,
        ) ==> fit_pass(tree, x_axis)[parent].size(x_axis) == row_demand(
            fit_pass(tree, x_axis),
            parent,
            x_axis,
        ),
{
    lemma_fit_equation(tree, x_axis, parent);
    lemma_fit_prefix_shape(tree, x_axis, tree.len() as int);
    assert(tree[parent].declared() == fit_pass(tree, x_axis)[parent].declared());
}

/// What the children of a box need along the box's direction: their sizes,
/// the gaps between them, and the padding at both ends.
pub open spec fn row_demand(tree: Seq<ElementView>, parent: int, x_axis: bool) -> int {
    let config = tree[parent].kind->Rectangle_0;
    let count = tree[parent].children.len() as int;
    children_total(tree, parent, x_axis, count) + gaps_between(count, config.child_gap as int)
        + config.padding_start(x_axis) + config.padding_end(x_axis)
}

/// Round trip: after fit sizing a fitting box without padding that holds a
/// single child of a size that is not negative, and whose minimum is not
/// larger, has the size of that child.
pub proof fn lemma_fit_single_child(tree: Seq<ElementView>, x_axis: bool, parent: int)
    requires
        post_ordered(tree),
        0 <= parent < tree.len(),
        tree[parent].kind is Rectangle,
        tree[parent].sizing(x_axis) is Fit,
        tree[parent].children.len() == 1,
        tree[parent].kind->Rectangle_0.padding_start(x_axis) == 0,
        tree[parent].kind->Rectangle_0.padding_end(x_axis) == 0,
        0 <= fit_pass(tree, x_axis)[child_at(tree, parent, 0)].size(x_axis),
        tree[parent].sizing(x_axis)->Fit_0.min_size <= fit_pass(tree, x_axis)[child_at(
            tree,
            parent,
            0,
        )].size(x_axis),
    ensures
        fit_pass(tree, x_axis)[parent].size(x_axis) == fit_pass(tree, x_axis)[child_at(
            tree,
            parent,
            0,
        )].size(x_axis),
{
    let fitted = fit_pass(tree, x_axis);
    lemma_fit_equation(tree, x_axis, parent);
    lemma_fit_prefix_shape(tree, x_axis, tree.len() as int);
    assert(tree[parent].declared() == fitted[parent].declared());
    assert(child_at(fitted, parent, 0) == child_at(tree, parent, 0));
    assert(children_total(fitted, parent, x_axis, 1) == children_total(fitted, parent, x_axis, 0)
        + fitted[child_at(fitted, parent, 0)].size(x_axis));
    assert(children_largest(fitted, parent, x_axis, 1) == larger(
        children_largest(fitted, parent, x_axis, 0),
        fitted[child_at(fitted, parent, 0)].size(x_axis) as int,
    ));
}

/// Fit sizing on an axis changes of a node only its size on that axis, and
/// nothing of a node that does not fit on the axis.
pub proof fn lemma_fit_keeps(tree: Seq<ElementView>, x_axis: bool, i: int)
    requires
        0 <= i < tree.len(),
    ensures
        fit_pass(tree, x_axis)[i] == tree[i].with_size(
            x_axis,
            fit_pass(tree, x_axis)[i].size(x_axis),
        ),
        !(tree[i].sizing(x_axis) is Fit) ==> fit_pass(tree, x_axis)[i] == tree[i],
{
    lemma_fit_prefix_settled(tree, x_axis, tree.len() as int, i);
    lemma_fit_prefix_settled(tree, x_axis, i, i);
}

/// The sum and the largest of the sizes of a box's children on an axis.
fn measure_children(nodes: &Vec<Element>, parent: usize, x_axis: bool) -> (found: (i128, i128))
    requires
        parent < nodes.len(),
        post_ordered(tree_view(nodes@)),
    ensures
        found.0 == children_total(
            tree_view(nodes@),
            parent as int,
            x_axis,
            nodes[parent as int].child_elements.len() as int,
        ),
        found.1 == children_largest(
            tree_view(nodes@),
            parent as int,
            x_axis,
            nodes[parent as int].child_elements.len() as int,
        ),
        -0x8000_0000 * nodes[parent as int].child_elements.len() <= found.0 <= 0x8000_0000
            * nodes[parent as int].child_elements.len(),
        0 <= found.1 <= 0x7fff_ffff,
{
    let ghost tree = tree_view(nodes@);
    let count = nodes[parent].child_elements.len();
    let mut total: i128 = 0;
    let mut largest: i128 = 0;
    let mut slot: usize = 0;
    while slot < count
        invariant
            parent < nodes.len(),
            tree == tree_view(nodes@),
            post_ordered(tree),
            count == nodes[parent as int].child_elements.len(),
            slot <= count,
            total == children_total(tree, parent as int, x_axis, slot as int),
            largest == children_largest(tree, parent as int, x_axis, slot as int),
            -0x8000_0000 * slot <= total <= 0x8000_0000 * slot,
            0 <= largest <= 0x7fff_ffff,
        decreases count - slot,
    {
        let child = nodes[parent].child_elements[slot];
        assert(child == child_at(tree, parent as int, slot as int));
        let size = nodes[child].size(x_axis) as i128;
        total = total + size;
        if size > largest {
            largest = size;
        }
        slot = slot + 1;
    }
    (total, largest)
}

/// Fit sizing on one axis, bottom-up over the whole tree.
pub fn fit_nodes(nodes: &mut Vec<Element>, x_axis: bool)
    requires
        post_ordered(tree_view(old(nodes)@)),
    ensures
        tree_view(final(nodes)@) == fit_pass(tree_view(old(nodes)@), x_axis),
        same_shape(tree_view(old(nodes)@), tree_view(final(nodes)@)),
{
    let ghost start = tree_view(nodes@);
    let count = nodes.len();
    let mut i: usize = 0;
    while i < count
        invariant
            nodes.len() == count,
            start.len() == count,
            i <= count,
            post_ordered(start),
            tree_view(nodes@) == fit_prefix(start, x_axis, i as int),
        decreases count - i,
    {
        let ghost before = tree_view(nodes@);
        proof {
            lemma_fit_prefix_shape(start, x_axis, i as int);
            lemma_same_shape_post_ordered(start, before);
        }
        let sizing = nodes[i].sizing(x_axis);
        match nodes[i].box_config() {
            Some(config) => {
                if let DimensionConfig::Fit(fit) = sizing {
                    let children = nodes[i].child_elements.len();
                    let (total, largest) = measure_children(nodes, i, x_axis);
                    let content: i128 = if config.runs_along_axis(x_axis) {
                        if children > 0 {
                            total + times(children - 1, config.child_gap)
                        } else {
                            total
                        }
                    } else {
                        largest
                    };
                    let padded: i128 = content + config.padding_before(x_axis) as i128
                        + config.padding_after(x_axis) as i128;
                    let extent: i128 = if fit.min_size as i128 >= padded {
                        fit.min_size as i128
                    } else {
                        padded
                    };
                    let size = saturate(extent);
                    let ghost old_nodes = nodes@;
                    nodes[i].set_size(x_axis, size);
                    proof {
                        lemma_tree_view_update(old_nodes, i as int, nodes@[i as int]);
                        assert(nodes@ =~= old_nodes.update(i as int, nodes@[i as int]));
                    }
                }
            },
            None => {
                let width_sizing = nodes[i].sizing(true);
                if let DimensionConfig::Fit(fit) = width_sizing {
                    if x_axis && fit.min_size > 0 {
                        let ghost old_nodes = nodes@;
                        nodes[i].set_size(true, fit.min_size);
                        proof {
                            lemma_tree_view_update(old_nodes, i as int, nodes@[i as int]);
                            assert(nodes@ =~= old_nodes.update(i as int, nodes@[i as int]));
                        }
                    }
                }
            },
        }
        assert(tree_view(nodes@) =~= before.update(i as int, fit_node(before, i as int, x_axis)));
        i = i + 1;
    }
    proof {
        lemma_fit_prefix_shape(start, x_axis, count as int);
    }
}

} // verus!
