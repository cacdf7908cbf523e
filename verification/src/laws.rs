//! What holds of every tree that the solver has resolved.
//!
//! The passes are stated one by one where they are defined. Here they are
//! followed through the whole solver: what the sizing passes of one axis
//! settle stays settled until the draw list is written.

use crate::data_type::{
    DimensionConfig, Dimensions, FixedDimensionConfig, PaddingConfig, TextMeasurement,
    PERCENT_WHOLE,
};
use crate::descent::{
    descend, hangs_from, is_child_of, lemma_descend_edge, lemma_descend_frame, lemma_descend_keeps,
};
use crate::element::{
    all_fresh, child_at, lemma_same_shape_chain, lemma_same_shape_nested,
    lemma_same_shape_well_formed, nested, same_shape, unmarked, well_formed, ElementView,
    KindView,
};
use crate::fit::{
    children_largest, children_total, fit_extent, fit_pass, gaps_between,
    lemma_children_total_agrees, lemma_fit_equation, lemma_fit_keeps, lemma_fit_prefix_shape,
    row_demand,
};
use crate::grow::{
    even_share, free_upto, gained_freely, grow_visit, growing_count, lemma_grow_edge,
    lemma_grow_even, lemma_grow_fair, lemma_grow_idle, lemma_grow_keeps, lemma_grow_local,
    lemma_grow_sums_agree, lemma_grow_within_cap, lemma_growing_count_agrees,
};
use crate::percent::{
    apportioned_total, lemma_apportioned_total, lemma_percent_idle, lemma_percent_keeps,
    lemma_percent_local, lemma_percent_share, lemma_shares_total_bounds, percent_child,
    percent_extent, percent_pass, percent_visit, percents_total, shares_are_sizes, shares_total,
};
use crate::position::{
    lemma_position_local, lemma_positioning_idempotent, position_pass, position_visit,
    unplaced_key,
};
use crate::measure::cache_kept;
use crate::render::draw_list;
use crate::solver::{axis_sized, sized, solved, wrapped};
use crate::wrap::{lemma_wrap_node_kept, node_cached, wrap_pass};
use crate::units::{larger, sat};
use vstd::prelude::*;

verus! {

/// The sizing passes of one axis keep the shape of the tree, and of every
/// node everything but its size on that axis and its mark.
pub proof fn lemma_axis_keeps(tree: Seq<ElementView>, x_axis: bool)
    requires
        well_formed(tree),
    ensures
        ({
            let fitted = fit_pass(tree, x_axis);
            let shared = percent_pass(fitted, x_axis);
            let grown = axis_sized(tree, x_axis);
            &&& same_shape(tree, fitted)
            &&& same_shape(tree, shared)
            &&& same_shape(tree, grown)
            &&& well_formed(fitted)
            &&& well_formed(shared)
            &&& well_formed(grown)
            &&& forall|i: int|
                #![trigger tree[i]]
                0 <= i < tree.len() ==> {
                    &&& fitted[i].off_axis(x_axis) == tree[i].off_axis(x_axis)
                    &&& fitted[i].mark == tree[i].mark
                    &&& shared[i].off_axis(x_axis) == tree[i].off_axis(x_axis)
                    &&& grown[i].off_axis(x_axis) == tree[i].off_axis(x_axis)
                }
        }),
{
    let fitted = fit_pass(tree, x_axis);
    let shared = percent_pass(fitted, x_axis);
    let grown = axis_sized(tree, x_axis);
    lemma_fit_prefix_shape(tree, x_axis, tree.len() as int);
    lemma_same_shape_well_formed(tree, fitted);
    lemma_percent_keeps(fitted, x_axis);
    lemma_same_shape_chain(tree, fitted, shared);
    lemma_same_shape_well_formed(tree, shared);
    lemma_grow_keeps(shared, x_axis);
    lemma_same_shape_chain(tree, shared, grown);
    lemma_same_shape_well_formed(tree, grown);
    assert forall|i: int| #![trigger tree[i]] 0 <= i < tree.len() implies {
        &&& fitted[i].off_axis(x_axis) == tree[i].off_axis(x_axis)
        &&& fitted[i].mark == tree[i].mark
        &&& shared[i].off_axis(x_axis) == tree[i].off_axis(x_axis)
        &&& grown[i].off_axis(x_axis) == tree[i].off_axis(x_axis)
    } by {
        lemma_fit_keeps(tree, x_axis, i);
        assert(shared[i].off_axis(x_axis) == fitted[i].off_axis(x_axis));
        assert(grown[i].off_axis(x_axis) == shared[i].off_axis(x_axis));
    }
}

/// The sizing passes of one axis leave no mark behind where there was none.
pub proof fn lemma_axis_unmarked(tree: Seq<ElementView>, x_axis: bool)
    requires
        well_formed(tree),
        unmarked(tree),
    ensures
        unmarked(axis_sized(tree, x_axis)),
{
    let fitted = fit_pass(tree, x_axis);
    let shared = percent_pass(fitted, x_axis);
    let grown = axis_sized(tree, x_axis);
    lemma_axis_keeps(tree, x_axis);
    lemma_percent_local(x_axis);
    lemma_grow_local(x_axis);
    assert forall|i: int| 0 <= i < tree.len() implies !(#[trigger] grown[i]).mark by {
        assert(!tree[i].mark);
        assert(!fitted[i].mark);
        if hangs_from(fitted, i, 0) {
            let parent = choose|parent: int|
                0 <= parent < fitted.len() && #[trigger] is_child_of(fitted, parent, i);
            let slot = choose|slot: int|
                0 <= slot < fitted[parent].children.len() && #[trigger] child_at(
                    fitted,
                    parent,
                    slot,
                ) == i;
            assert(tree[parent].declared() == fitted[parent].declared());
            assert(tree[parent].declared() == shared[parent].declared());
            assert(tree[parent].declared() == grown[parent].declared());
            assert(child_at(shared, parent, slot) == i);
            match fitted[parent].kind {
                KindView::Rectangle(config) => {
                    lemma_percent_share(fitted, x_axis, parent, slot);
                    lemma_grow_edge(shared, x_axis, parent, slot);
                },
                KindView::Text(_) => {
                    lemma_descend_edge(
                        fitted,
                        percent_visit(x_axis),
                        parent,
                        slot,
                        0,
                    );
                    lemma_descend_edge(shared, grow_visit(x_axis), parent, slot, 0);
                    let ready = descend(fitted, percent_visit(x_axis), parent + 1);
                    assert(fitted[parent].declared() == ready[parent].declared());
                    let later = descend(shared, grow_visit(x_axis), parent + 1);
                    assert(shared[parent].declared() == later[parent].declared());
                },
            }
        } else {
            lemma_descend_frame(fitted, percent_visit(x_axis), 0);
            assert(!hangs_from(shared, i, 0)) by {
                if hangs_from(shared, i, 0) {
                    let parent = choose|parent: int|
                        0 <= parent < shared.len() && #[trigger] is_child_of(shared, parent, i);
                    let slot = choose|slot: int|
                        0 <= slot < shared[parent].children.len() && #[trigger] child_at(
                            shared,
                            parent,
                            slot,
                        ) == i;
                    assert(tree[parent].declared() == fitted[parent].declared());
                    assert(tree[parent].declared() == shared[parent].declared());
                    assert(child_at(fitted, parent, slot) == i);
                    assert(is_child_of(fitted, parent, i));
                }
            }
            lemma_descend_frame(shared, grow_visit(x_axis), 0);
        }
    }
}

/// What fit sizing gives a node that is neither percent-sized nor growing
/// nor marked is what the sizing passes of the axis leave it with.
pub proof fn lemma_axis_settles(tree: Seq<ElementView>, x_axis: bool, i: int)
    requires
        well_formed(tree),
        0 <= i < tree.len(),
        !tree[i].mark,
        tree[i].sizing(x_axis) is Fit || tree[i].sizing(x_axis) is Fixed,
    ensures
        axis_sized(tree, x_axis)[i] == fit_pass(tree, x_axis)[i],
        tree[i].sizing(x_axis) is Fixed ==> axis_sized(tree, x_axis)[i] == tree[i],
{
    let fitted = fit_pass(tree, x_axis);
    let shared = percent_pass(fitted, x_axis);
    lemma_axis_keeps(tree, x_axis);
    lemma_fit_keeps(tree, x_axis, i);
    assert(tree[i].declared() == fitted[i].declared());
    lemma_percent_idle(fitted, x_axis, i);
    lemma_grow_idle(shared, x_axis, i);
}

/// Conservation on one axis: a box that fits its children, none of which is
/// percent-sized, growing or marked, has after the sizing passes of the axis
/// the size that its children as they are then call for.
pub proof fn lemma_axis_fit_equation(tree: Seq<ElementView>, x_axis: bool, parent: int)
    requires
        well_formed(tree),
        0 <= parent < tree.len(),
        tree[parent].kind is Rectangle,
        tree[parent].sizing(x_axis) is Fit,
        !tree[parent].mark,
        forall|slot: int|
            0 <= slot < tree[parent].children.len() ==> {
                let child = tree[#[trigger] child_at(tree, parent, slot)];
                !child.mark && (child.sizing(x_axis) is Fit || child.sizing(x_axis) is Fixed)
            },
    ensures
        axis_sized(tree, x_axis)[parent].size(x_axis) == sat(
            fit_extent(
                axis_sized(tree, x_axis),
                parent,
                tree[parent].kind->Rectangle_0,
                tree[parent].sizing(x_axis)->Fit_0.min_size as int,
                x_axis,
            ),
        ),
{
    let fitted = fit_pass(tree, x_axis);
    let grown = axis_sized(tree, x_axis);
    let count = tree[parent].children.len() as int;
    lemma_axis_keeps(tree, x_axis);
    lemma_fit_equation(tree, x_axis, parent);
    lemma_axis_settles(tree, x_axis, parent);
    assert(tree[parent].declared() == fitted[parent].declared());
    assert(tree[parent].declared() == grown[parent].declared());
    assert forall|slot: int| 0 <= slot < count implies fitted[#[trigger] child_at(
        fitted,
        parent,
        slot,
    )].size(x_axis) == grown[child_at(fitted, parent, slot)].size(x_axis) by {
        let child = child_at(tree, parent, slot);
        assert(child_at(fitted, parent, slot) == child);
        assert(0 <= child < parent);
        lemma_axis_settles(tree, x_axis, child);
    }
    lemma_children_total_agrees(fitted, grown, parent, x_axis, count);
}

/// Percent semantics on one axis: after the sizing passes of the axis a
/// percent child of a box that fits or is fixed has its share of the box's
/// size, less what it gives up for padding and gaps.
pub proof fn lemma_axis_percent_share(
    tree: Seq<ElementView>,
    x_axis: bool,
    parent: int,
    slot: int,
)
    requires
        well_formed(tree),
        unmarked(tree),
        0 <= parent < tree.len(),
        0 <= slot < tree[parent].children.len(),
        tree[parent].kind is Rectangle,
        tree[parent].sizing(x_axis) is Fit || tree[parent].sizing(x_axis) is Fixed,
        tree[child_at(tree, parent, slot)].sizing(x_axis) is Percent,
    ensures
        axis_sized(tree, x_axis)[child_at(tree, parent, slot)].size(x_axis) == sat(
            percent_extent(
                axis_sized(tree, x_axis)[parent].size(x_axis) as int,
                tree[child_at(tree, parent, slot)].sizing(x_axis)->Percent_0.percent,
                tree[parent].kind->Rectangle_0,
                x_axis,
                slot,
                tree[parent].children.len() as int,
            ),
        ),
{
    let fitted = fit_pass(tree, x_axis);
    let shared = percent_pass(fitted, x_axis);
    let child = child_at(tree, parent, slot);
    lemma_axis_keeps(tree, x_axis);
    assert(0 <= child < parent);
    assert(tree[parent].declared() == fitted[parent].declared());
    assert(tree[child].declared() == fitted[child].declared());
    assert(child_at(fitted, parent, slot) == child);
    assert(!tree[parent].mark && !tree[child].mark);
    lemma_percent_share(fitted, x_axis, parent, slot);
    lemma_axis_settles(tree, x_axis, parent);
    lemma_percent_idle(fitted, x_axis, parent);
    assert(!fitted[child].mark);
    assert(tree[child].declared() == shared[child].declared());
    let config = tree[parent].kind->Rectangle_0;
    let count = tree[parent].children.len() as int;
    assert(shared[child] == percent_child(
        fitted[child],
        shared[parent],
        config,
        x_axis,
        slot,
        count,
    ));
    assert(!shared[child].mark);
    lemma_grow_idle(shared, x_axis, child);
}

/// Grow clamp on one axis: a growing child of a box with a cap above zero
/// is within its cap after the sizing passes of the axis. Along the
/// direction of the box this holds of a child that starts out within its
/// cap; across it, it holds of every child.
pub proof fn lemma_axis_within_cap(tree: Seq<ElementView>, x_axis: bool, parent: int, slot: int)
    requires
        well_formed(tree),
        0 <= parent < tree.len(),
        0 <= slot < tree[parent].children.len(),
        tree[parent].kind is Rectangle,
        tree[child_at(tree, parent, slot)].sizing(x_axis) is Grow,
        tree[child_at(tree, parent, slot)].sizing(x_axis)->Grow_0.max_size > 0,
        tree[parent].kind->Rectangle_0.runs_along(x_axis) ==> tree[child_at(
            tree,
            parent,
            slot,
        )].size(x_axis) <= tree[child_at(tree, parent, slot)].sizing(x_axis)->Grow_0.max_size,
    ensures
        axis_sized(tree, x_axis)[child_at(tree, parent, slot)].size(x_axis) <= tree[child_at(
            tree,
            parent,
            slot,
        )].sizing(x_axis)->Grow_0.max_size,
{
    let fitted = fit_pass(tree, x_axis);
    let shared = percent_pass(fitted, x_axis);
    let child = child_at(tree, parent, slot);
    lemma_axis_keeps(tree, x_axis);
    assert(0 <= child < parent);
    lemma_fit_keeps(tree, x_axis, child);
    assert(tree[child].declared() == fitted[child].declared());
    lemma_percent_idle(fitted, x_axis, child);
    assert(tree[parent].declared() == shared[parent].declared());
    assert(child_at(shared, parent, slot) == child);
    lemma_grow_within_cap(shared, x_axis, parent, slot);
}

/// Grow fairness on one axis: two growing children of one box that both
/// gained size in the sizing passes of the axis, and that no cap holds back,
/// have the same size.
pub proof fn lemma_axis_fair(
    tree: Seq<ElementView>,
    x_axis: bool,
    parent: int,
    slot: int,
    other: int,
)
    requires
        well_formed(tree),
        0 <= parent < tree.len(),
        0 <= slot < tree[parent].children.len(),
        0 <= other < tree[parent].children.len(),
        tree[parent].kind is Rectangle,
        tree[child_at(tree, parent, slot)].sizing(x_axis) is Grow,
        tree[child_at(tree, parent, other)].sizing(x_axis) is Grow,
        gained_freely(tree, axis_sized(tree, x_axis), x_axis, child_at(tree, parent, slot)),
        gained_freely(tree, axis_sized(tree, x_axis), x_axis, child_at(tree, parent, other)),
    ensures
        axis_sized(tree, x_axis)[child_at(tree, parent, slot)].size(x_axis) == axis_sized(
            tree,
            x_axis,
        )[child_at(tree, parent, other)].size(x_axis),
{
    let fitted = fit_pass(tree, x_axis);
    let shared = percent_pass(fitted, x_axis);
    let one = child_at(tree, parent, slot);
    let two = child_at(tree, parent, other);
    lemma_axis_keeps(tree, x_axis);
    assert(0 <= one < parent);
    assert(0 <= two < parent);
    lemma_fit_keeps(tree, x_axis, one);
    lemma_fit_keeps(tree, x_axis, two);
    assert(tree[one].declared() == fitted[one].declared());
    assert(tree[two].declared() == fitted[two].declared());
    lemma_percent_idle(fitted, x_axis, one);
    lemma_percent_idle(fitted, x_axis, two);
    assert(tree[parent].declared() == shared[parent].declared());
    assert(child_at(shared, parent, slot) == one);
    assert(child_at(shared, parent, other) == two);
    lemma_grow_fair(shared, x_axis, parent, slot, other);
}

/// The tree that the sizing passes of an axis start from: the fresh tree for
/// the widths, and for the heights the tree with its widths resolved and its
/// texts wrapped.
pub open spec fn axis_start(
    tree: Seq<ElementView>,
    cache: Map<Seq<char>, TextMeasurement>,
    x_axis: bool,
) -> Seq<ElementView> {
    if x_axis {
        tree
    } else {
        wrapped(tree, cache)
    }
}

/// Through the whole solver the sizing passes of an axis start from a
/// well-formed tree without marks that has the shape of the fresh tree, in
/// which every box still has the size on that axis with which it was built;
/// and the size that they give a node on that axis is the size that the node
/// has in the end.
pub proof fn lemma_solved_by_axis(
    tree: Seq<ElementView>,
    cache: Map<Seq<char>, TextMeasurement>,
    x_axis: bool,
)
    requires
        well_formed(tree),
        all_fresh(tree),
    ensures
        ({
            let start = axis_start(tree, cache, x_axis);
            &&& well_formed(start)
            &&& unmarked(start)
            &&& same_shape(tree, start)
            &&& same_shape(tree, solved(tree, cache))
            &&& forall|i: int|
                #![trigger tree[i]]
                0 <= i < tree.len() ==> {
                    &&& solved(tree, cache)[i].size(x_axis) == axis_sized(start, x_axis)[i].size(
                        x_axis,
                    )
                    &&& tree[i].kind is Rectangle ==> start[i].size(x_axis) == tree[i].size(x_axis)
                    &&& x_axis ==> start[i] == tree[i]
                }
        }),
{
    let widths = axis_sized(tree, true);
    let lined = wrapped(tree, cache);
    let heights = sized(tree, cache);
    let placed = solved(tree, cache);
    assert(unmarked(tree)) by {
        assert forall|i: int| 0 <= i < tree.len() implies !(#[trigger] tree[i]).mark by {
            assert(tree[i].is_fresh());
        }
    }
    lemma_axis_keeps(tree, true);
    lemma_axis_unmarked(tree, true);
    assert(same_shape(widths, lined)) by {
        assert forall|i: int| 0 <= i < widths.len() implies (#[trigger] widths[i]).declared()
            == lined[i].declared() by {}
    }
    lemma_same_shape_chain(tree, widths, lined);
    lemma_same_shape_well_formed(tree, lined);
    assert(unmarked(lined)) by {
        assert forall|i: int| 0 <= i < lined.len() implies !(#[trigger] lined[i]).mark by {
            assert(!widths[i].mark);
        }
    }
    lemma_axis_keeps(lined, false);
    lemma_same_shape_chain(tree, lined, heights);
    lemma_same_shape_well_formed(tree, heights);
    lemma_position_local();
    lemma_descend_keeps(heights, position_visit(), unplaced_key(), 0);
    lemma_descend_frame(heights, position_visit(), 0);
    lemma_same_shape_chain(tree, heights, placed);
    let key = unplaced_key();
    assert forall|i: int| #![trigger tree[i]] 0 <= i < tree.len() implies {
        &&& placed[i].size(x_axis) == axis_sized(axis_start(tree, cache, x_axis), x_axis)[i].size(
            x_axis,
        )
        &&& tree[i].kind is Rectangle ==> axis_start(tree, cache, x_axis)[i].size(x_axis)
            == tree[i].size(x_axis)
        &&& x_axis ==> axis_start(tree, cache, x_axis)[i] == tree[i]
    } by {
        assert(key(placed[i]) == key(heights[i]));
        assert(heights[i].off_axis(false) == lined[i].off_axis(false));
        assert(widths[i].off_axis(true) == tree[i].off_axis(true));
        assert(tree[i].declared() == widths[i].declared());
    }
}

/// Conservation: in a solved tree a box that fits its children, none of
/// which is percent-sized or growing on the axis, has the size that its
/// children call for: their sizes with gaps and padding along its direction,
/// the largest of them with padding across it, and its minimum if that is
/// more.
pub proof fn lemma_solved_fit_equation(
    tree: Seq<ElementView>,
    cache: Map<Seq<char>, TextMeasurement>,
    x_axis: bool,
    parent: int,
)
    requires
        well_formed(tree),
        all_fresh(tree),
        0 <= parent < tree.len(),
        tree[parent].kind is Rectangle,
        tree[parent].sizing(x_axis) is Fit,
        forall|slot: int|
            0 <= slot < tree[parent].children.len() ==> {
                let child = tree[#[trigger] child_at(tree, parent, slot)];
                child.sizing(x_axis) is Fit || child.sizing(x_axis) is Fixed
            },
    ensures
        solved(tree, cache)[parent].size(x_axis) == sat(
            fit_extent(
                solved(tree, cache),
                parent,
                tree[parent].kind->Rectangle_0,
                tree[parent].sizing(x_axis)->Fit_0.min_size as int,
                x_axis,
            ),
        ),
{
    let start = axis_start(tree, cache, x_axis);
    let grown = axis_sized(start, x_axis);
    let placed = solved(tree, cache);
    let count = tree[parent].children.len() as int;
    lemma_solved_by_axis(tree, cache, x_axis);
    lemma_axis_keeps(start, x_axis);
    assert(tree[parent].declared() == start[parent].declared());
    assert(tree[parent].declared() == placed[parent].declared());
    assert(start[parent].declared() == grown[parent].declared());
    assert forall|slot: int| 0 <= slot < start[parent].children.len() implies {
        let child = start[#[trigger] child_at(start, parent, slot)];
        !child.mark && (child.sizing(x_axis) is Fit || child.sizing(x_axis) is Fixed)
    } by {
        let child = child_at(tree, parent, slot);
        assert(child_at(start, parent, slot) == child);
        assert(0 <= child < parent);
        assert(tree[child].declared() == start[child].declared());
    }
    lemma_axis_fit_equation(start, x_axis, parent);
    assert forall|slot: int| 0 <= slot < count implies grown[#[trigger] child_at(
        grown,
        parent,
        slot,
    )].size(x_axis) == placed[child_at(grown, parent, slot)].size(x_axis) by {
        let child = child_at(tree, parent, slot);
        assert(child_at(grown, parent, slot) == child);
        assert(0 <= child < parent);
    }
    lemma_children_total_agrees(grown, placed, parent, x_axis, count);
}

/// Conservation along the direction of a box: in a solved tree a box that
/// fits its children along its direction, none of which is percent-sized or
/// growing on that axis, holds them all with the gaps between them and its
/// padding, provided that sum is a size at all. It is exactly as large as
/// that unless its minimum is larger.
pub proof fn lemma_solved_conserves(
    tree: Seq<ElementView>,
    cache: Map<Seq<char>, TextMeasurement>,
    x_axis: bool,
    parent: int,
)
    requires
        well_formed(tree),
        all_fresh(tree),
        0 <= parent < tree.len(),
        tree[parent].kind is Rectangle,
        tree[parent].kind->Rectangle_0.runs_along(x_axis),
        tree[parent].sizing(x_axis) is Fit,
        forall|slot: int|
            0 <= slot < tree[parent].children.len() ==> {
                let child = tree[#[trigger] child_at(tree, parent, slot)];
                child.sizing(x_axis) is Fit || child.sizing(x_axis) is Fixed
            },
        row_demand(solved(tree, cache), parent, x_axis) <= i32::MAX,
    ensures
        row_demand(solved(tree, cache), parent, x_axis) <= solved(tree, cache)[parent].size(
            x_axis,
        ),
        tree[parent].sizing(x_axis)->Fit_0.min_size <= row_demand(
            solved(tree, cache),
            parent,
            x_axis,
        ) ==> solved(tree, cache)[parent].size(x_axis) == row_demand(
            solved(tree, cache),
            parent,
            x_axis,
        ),
{
    lemma_solved_fit_equation(tree, cache, x_axis, parent);
    lemma_solved_by_axis(tree, cache, x_axis);
    assert(tree[parent].declared() == solved(tree, cache)[parent].declared());
}

/// Percent semantics: in a solved tree a percent child of a box that fits
/// or is fixed has its share of the box's size, less what it gives up for
/// padding and gaps.
pub proof fn lemma_solved_percent_share(
    tree: Seq<ElementView>,
    cache: Map<Seq<char>, TextMeasurement>,
    x_axis: bool,
    parent: int,
    slot: int,
)
    requires
        well_formed(tree),
        all_fresh(tree),
        0 <= parent < tree.len(),
        0 <= slot < tree[parent].children.len(),
        tree[parent].kind is Rectangle,
        tree[parent].sizing(x_axis) is Fit || tree[parent].sizing(x_axis) is Fixed,
        tree[child_at(tree, parent, slot)].sizing(x_axis) is Percent,
    ensures
        solved(tree, cache)[child_at(tree, parent, slot)].size(x_axis) == sat(
            percent_extent(
                solved(tree, cache)[parent].size(x_axis) as int,
                tree[child_at(tree, parent, slot)].sizing(x_axis)->Percent_0.percent,
                tree[parent].kind->Rectangle_0,
                x_axis,
                slot,
                tree[parent].children.len() as int,
            ),
        ),
{
    let start = axis_start(tree, cache, x_axis);
    let child = child_at(tree, parent, slot);
    lemma_solved_by_axis(tree, cache, x_axis);
    assert(0 <= child < parent);
    assert(tree[parent].declared() == start[parent].declared());
    assert(tree[child].declared() == start[child].declared());
    assert(child_at(start, parent, slot) == child);
    lemma_axis_percent_share(start, x_axis, parent, slot);
}

/// In a solved tree the first children of a box of percent children are
/// together as large as their shares, less what they give up.
proof fn lemma_solved_percent_total(
    tree: Seq<ElementView>,
    cache: Map<Seq<char>, TextMeasurement>,
    x_axis: bool,
    parent: int,
    upto: int,
)
    requires
        well_formed(tree),
        all_fresh(tree),
        0 <= parent < tree.len(),
        0 <= upto <= tree[parent].children.len(),
        tree[parent].kind is Rectangle,
        tree[parent].sizing(x_axis) is Fit || tree[parent].sizing(x_axis) is Fixed,
        shares_are_sizes(tree, parent, x_axis, solved(tree, cache)[parent].size(x_axis) as int),
    ensures
        children_total(solved(tree, cache), parent, x_axis, upto) == shares_total(
            tree,
            parent,
            x_axis,
            solved(tree, cache)[parent].size(x_axis) as int,
            upto,
        ) - apportioned_total(
            tree[parent].kind->Rectangle_0,
            x_axis,
            tree[parent].children.len() as int,
            upto,
        ),
    decreases upto,
{
    if upto > 0 {
        lemma_solved_percent_total(tree, cache, x_axis, parent, upto - 1);
        lemma_solved_percent_share(tree, cache, x_axis, parent, upto - 1);
        lemma_solved_by_axis(tree, cache, x_axis);
        let placed = solved(tree, cache);
        assert(tree[parent].declared() == placed[parent].declared());
        assert(child_at(placed, parent, upto - 1) == child_at(tree, parent, upto - 1));
    }
}

/// Conservation of percent children: in a solved tree a box that fits or is
/// fixed and holds percent children only, none of which runs out of the
/// sizes, holds along its direction exactly what the shares of its size come
/// to together: the children, the gaps between them and the padding. Where
/// the percentages come to no more than the whole, that is no more than the
/// size of the box.
pub proof fn lemma_solved_percent_conserves(
    tree: Seq<ElementView>,
    cache: Map<Seq<char>, TextMeasurement>,
    x_axis: bool,
    parent: int,
)
    requires
        well_formed(tree),
        all_fresh(tree),
        0 <= parent < tree.len(),
        tree[parent].kind is Rectangle,
        tree[parent].kind->Rectangle_0.runs_along(x_axis),
        tree[parent].sizing(x_axis) is Fit || tree[parent].sizing(x_axis) is Fixed,
        tree[parent].children.len() >= 1,
        shares_are_sizes(tree, parent, x_axis, solved(tree, cache)[parent].size(x_axis) as int),
    ensures
        ({
            let placed = solved(tree, cache);
            let count = tree[parent].children.len() as int;
            let size = placed[parent].size(x_axis) as int;
            &&& row_demand(placed, parent, x_axis) == shares_total(
                tree,
                parent,
                x_axis,
                size,
                count,
            )
            &&& 0 <= size && percents_total(tree, parent, x_axis, count) <= PERCENT_WHOLE
                ==> row_demand(placed, parent, x_axis) <= size
        }),
{
    let placed = solved(tree, cache);
    let count = tree[parent].children.len() as int;
    let size = placed[parent].size(x_axis) as int;
    let config = tree[parent].kind->Rectangle_0;
    let shares = shares_total(tree, parent, x_axis, size, count);
    let percents = percents_total(tree, parent, x_axis, count);
    lemma_solved_percent_total(tree, cache, x_axis, parent, count);
    lemma_apportioned_total(config, x_axis, count, count);
    lemma_shares_total_bounds(tree, parent, x_axis, size, count);
    lemma_solved_by_axis(tree, cache, x_axis);
    assert(tree[parent].declared() == placed[parent].declared());
    let gap = config.child_gap as int;
    let between = (count - 1) * gap;
    assert(gaps_between(count, gap) == between);
    assert(count == 1 ==> between == 0) by (nonlinear_arith)
        requires
            between == (count - 1) * gap,
    ;
    assert(count > 1 ==> apportioned_total(config, x_axis, count, count) == config.padding_start(
        x_axis,
    ) + config.padding_end(x_axis) + between);
    if 0 <= size && percents <= PERCENT_WHOLE {
        assert(shares <= size) by (nonlinear_arith)
            requires
                PERCENT_WHOLE * shares <= size * percents,
                0 <= size,
                0 <= percents <= PERCENT_WHOLE,
                PERCENT_WHOLE == 10_000,
        ;
    }
}

/// Grow clamp: in a solved tree a growing box with a cap above zero is
/// within its cap, on either axis. Along the direction of the box around it
/// this holds where the cap is not below the minimum; across it, it holds of
/// every cap.
pub proof fn lemma_solved_within_cap(
    tree: Seq<ElementView>,
    cache: Map<Seq<char>, TextMeasurement>,
    x_axis: bool,
    parent: int,
    slot: int,
)
    requires
        well_formed(tree),
        all_fresh(tree),
        0 <= parent < tree.len(),
        0 <= slot < tree[parent].children.len(),
        tree[parent].kind is Rectangle,
        tree[child_at(tree, parent, slot)].kind is Rectangle,
        tree[child_at(tree, parent, slot)].sizing(x_axis) is Grow,
        0 < tree[child_at(tree, parent, slot)].sizing(x_axis)->Grow_0.max_size,
        tree[parent].kind->Rectangle_0.runs_along(x_axis) ==> tree[child_at(
            tree,
            parent,
            slot,
        )].sizing(x_axis)->Grow_0.min_size <= tree[child_at(tree, parent, slot)].sizing(
            x_axis,
        )->Grow_0.max_size,
    ensures
        solved(tree, cache)[child_at(tree, parent, slot)].size(x_axis) <= tree[child_at(
            tree,
            parent,
            slot,
        )].sizing(x_axis)->Grow_0.max_size,
{
    let start = axis_start(tree, cache, x_axis);
    let child = child_at(tree, parent, slot);
    lemma_solved_by_axis(tree, cache, x_axis);
    assert(0 <= child < parent);
    assert(tree[child].is_fresh());
    assert(tree[parent].declared() == start[parent].declared());
    assert(tree[child].declared() == start[child].declared());
    assert(child_at(start, parent, slot) == child);
    lemma_axis_within_cap(start, x_axis, parent, slot);
}

/// Grow fairness: in a solved tree two growing boxes in one box that both
/// ended up larger than their minimum, and that no cap holds back, have the
/// same size.
pub proof fn lemma_solved_fair(
    tree: Seq<ElementView>,
    cache: Map<Seq<char>, TextMeasurement>,
    x_axis: bool,
    parent: int,
    slot: int,
    other: int,
)
    requires
        well_formed(tree),
        all_fresh(tree),
        0 <= parent < tree.len(),
        0 <= slot < tree[parent].children.len(),
        0 <= other < tree[parent].children.len(),
        tree[parent].kind is Rectangle,
        tree[child_at(tree, parent, slot)].kind is Rectangle,
        tree[child_at(tree, parent, other)].kind is Rectangle,
        tree[child_at(tree, parent, slot)].sizing(x_axis) is Grow,
        tree[child_at(tree, parent, other)].sizing(x_axis) is Grow,
        gained_freely(tree, solved(tree, cache), x_axis, child_at(tree, parent, slot)),
        gained_freely(tree, solved(tree, cache), x_axis, child_at(tree, parent, other)),
    ensures
        solved(tree, cache)[child_at(tree, parent, slot)].size(x_axis) == solved(
            tree,
            cache,
        )[child_at(tree, parent, other)].size(x_axis),
{
    let start = axis_start(tree, cache, x_axis);
    let one = child_at(tree, parent, slot);
    let two = child_at(tree, parent, other);
    lemma_solved_by_axis(tree, cache, x_axis);
    assert(0 <= one < parent);
    assert(0 <= two < parent);
    assert(tree[parent].declared() == start[parent].declared());
    assert(tree[one].declared() == start[one].declared());
    assert(tree[two].declared() == start[two].declared());
    assert(child_at(start, parent, slot) == one);
    assert(child_at(start, parent, other) == two);
    lemma_axis_fair(start, x_axis, parent, slot, other);
}

/// Grow fairness on one axis, in general: where no grower of a box is
/// larger than the even share of the box's room and no cap lies at or below
/// that share, every grower has exactly the even share after the sizing
/// passes of the axis.
pub proof fn lemma_axis_even(tree: Seq<ElementView>, x_axis: bool, parent: int)
    requires
        well_formed(tree),
        0 <= parent < tree.len(),
        tree[parent].kind is Rectangle,
        tree[parent].kind->Rectangle_0.runs_along(x_axis),
        growing_count(tree, parent, x_axis, tree[parent].children.len() as int) >= 1,
        free_upto(tree, parent, x_axis, even_share(tree, axis_sized(tree, x_axis), parent, x_axis)),
    ensures
        forall|slot: int|
            0 <= slot < tree[parent].children.len() && tree[#[trigger] child_at(
                tree,
                parent,
                slot,
            )].sizing(x_axis) is Grow ==> axis_sized(tree, x_axis)[child_at(
                tree,
                parent,
                slot,
            )].size(x_axis) == even_share(tree, axis_sized(tree, x_axis), parent, x_axis),
{
    let fitted = fit_pass(tree, x_axis);
    let shared = percent_pass(fitted, x_axis);
    let grown = axis_sized(tree, x_axis);
    let count = tree[parent].children.len() as int;
    let level = even_share(tree, grown, parent, x_axis);
    lemma_axis_keeps(tree, x_axis);
    assert(tree[parent].declared() == shared[parent].declared());
    assert forall|slot: int| 0 <= slot < count implies {
        &&& tree[#[trigger] child_at(tree, parent, slot)].sizing(x_axis) == shared[child_at(
            tree,
            parent,
            slot,
        )].sizing(x_axis)
        &&& tree[child_at(tree, parent, slot)].sizing(x_axis) is Grow ==> tree[child_at(
            tree,
            parent,
            slot,
        )].size(x_axis) == shared[child_at(tree, parent, slot)].size(x_axis)
    } by {
        let child = child_at(tree, parent, slot);
        assert(0 <= child < parent);
        assert(tree[child].declared() == fitted[child].declared());
        assert(tree[child].declared() == shared[child].declared());
        if tree[child].sizing(x_axis) is Grow {
            lemma_fit_keeps(tree, x_axis, child);
            lemma_percent_idle(fitted, x_axis, child);
        }
    }
    lemma_growing_count_agrees(tree, shared, parent, x_axis, count);
    assert(even_share(shared, grown, parent, x_axis) == level);
    assert(free_upto(shared, parent, x_axis, level)) by {
        assert forall|slot: int| 0 <= slot < shared[parent].children.len() implies {
            let child = shared[#[trigger] child_at(shared, parent, slot)];
            child.sizing(x_axis) is Grow ==> child.size(x_axis) <= level && (child.sizing(
                x_axis,
            )->Grow_0.max_size <= 0 || child.sizing(x_axis)->Grow_0.max_size > level)
        } by {
            assert(child_at(shared, parent, slot) == child_at(tree, parent, slot));
        }
    }
    lemma_grow_even(shared, x_axis, parent);
    assert forall|slot: int|
        0 <= slot < tree[parent].children.len() && tree[#[trigger] child_at(
            tree,
            parent,
            slot,
        )].sizing(x_axis) is Grow implies grown[child_at(tree, parent, slot)].size(x_axis)
        == level by {
        assert(child_at(shared, parent, slot) == child_at(tree, parent, slot));
    }
}

/// Grow fairness in general: in a solved tree the growing boxes of a box
/// that share its room along its direction have exactly the even share of
/// that room each, where none of them has a minimum above that share or a
/// cap at or below it. The even share is what the box has left beside its
/// padding, its gaps and the children that do not grow, divided by the
/// number of the growers and rounded down.
pub proof fn lemma_solved_even(
    tree: Seq<ElementView>,
    cache: Map<Seq<char>, TextMeasurement>,
    x_axis: bool,
    parent: int,
)
    requires
        well_formed(tree),
        all_fresh(tree),
        0 <= parent < tree.len(),
        tree[parent].kind is Rectangle,
        tree[parent].kind->Rectangle_0.runs_along(x_axis),
        growing_count(tree, parent, x_axis, tree[parent].children.len() as int) >= 1,
        forall|slot: int|
            0 <= slot < tree[parent].children.len() && tree[#[trigger] child_at(
                tree,
                parent,
                slot,
            )].sizing(x_axis) is Grow ==> tree[child_at(tree, parent, slot)].kind is Rectangle,
        free_upto(tree, parent, x_axis, even_share(tree, solved(tree, cache), parent, x_axis)),
    ensures
        forall|slot: int|
            0 <= slot < tree[parent].children.len() && tree[#[trigger] child_at(
                tree,
                parent,
                slot,
            )].sizing(x_axis) is Grow ==> solved(tree, cache)[child_at(tree, parent, slot)].size(
                x_axis,
            ) == even_share(tree, solved(tree, cache), parent, x_axis),
{
    let start = axis_start(tree, cache, x_axis);
    let grown = axis_sized(start, x_axis);
    let placed = solved(tree, cache);
    let count = tree[parent].children.len() as int;
    let level = even_share(tree, placed, parent, x_axis);
    lemma_solved_by_axis(tree, cache, x_axis);
    lemma_axis_keeps(start, x_axis);
    assert(tree[parent].declared() == start[parent].declared());
    assert(tree[parent].declared() == placed[parent].declared());
    assert(start[parent].declared() == grown[parent].declared());
    assert forall|slot: int| 0 <= slot < count implies {
        &&& grown[#[trigger] child_at(grown, parent, slot)].size(x_axis) == placed[child_at(
            grown,
            parent,
            slot,
        )].size(x_axis)
        &&& grown[child_at(grown, parent, slot)].sizing(x_axis) == placed[child_at(
            grown,
            parent,
            slot,
        )].sizing(x_axis)
    } by {
        let child = child_at(tree, parent, slot);
        assert(child_at(grown, parent, slot) == child);
        assert(0 <= child < parent);
        assert(tree[child].declared() == placed[child].declared());
        assert(tree[child].declared() == start[child].declared());
        assert(start[child].declared() == grown[child].declared());
    }
    lemma_grow_sums_agree(grown, placed, parent, x_axis, count);
    assert forall|slot: int| 0 <= slot < count implies tree[#[trigger] child_at(
        tree,
        parent,
        slot,
    )].sizing(x_axis) == start[child_at(tree, parent, slot)].sizing(x_axis) by {
        let child = child_at(tree, parent, slot);
        assert(0 <= child < parent);
        assert(tree[child].declared() == start[child].declared());
    }
    lemma_growing_count_agrees(tree, start, parent, x_axis, count);
    assert(even_share(start, grown, parent, x_axis) == level);
    assert(free_upto(start, parent, x_axis, level)) by {
        assert forall|slot: int| 0 <= slot < start[parent].children.len() implies {
            let child = start[#[trigger] child_at(start, parent, slot)];
            child.sizing(x_axis) is Grow ==> child.size(x_axis) <= level && (child.sizing(
                x_axis,
            )->Grow_0.max_size <= 0 || child.sizing(x_axis)->Grow_0.max_size > level)
        } by {
            let child = child_at(tree, parent, slot);
            assert(child_at(start, parent, slot) == child);
            assert(0 <= child < parent);
            assert(tree[child].declared() == start[child].declared());
        }
    }
    lemma_axis_even(start, x_axis, parent);
    assert forall|slot: int|
        0 <= slot < tree[parent].children.len() && tree[#[trigger] child_at(
            tree,
            parent,
            slot,
        )].sizing(x_axis) is Grow implies placed[child_at(tree, parent, slot)].size(x_axis)
        == level by {
        let child = child_at(tree, parent, slot);
        assert(child_at(start, parent, slot) == child);
        assert(0 <= child < parent);
    }
}

/// Positioning idempotence: positioning a solved tree once more changes
/// nothing.
pub proof fn lemma_solved_stays_placed(
    tree: Seq<ElementView>,
    cache: Map<Seq<char>, TextMeasurement>,
)
    requires
        well_formed(tree),
    ensures
        position_pass(solved(tree, cache)) == solved(tree, cache),
{
    let widths = axis_sized(tree, true);
    let lined = wrapped(tree, cache);
    let heights = sized(tree, cache);
    lemma_axis_keeps(tree, true);
    assert(same_shape(widths, lined)) by {
        assert forall|i: int| 0 <= i < widths.len() implies (#[trigger] widths[i]).declared()
            == lined[i].declared() by {}
    }
    lemma_same_shape_well_formed(widths, lined);
    lemma_axis_keeps(lined, false);
    lemma_positioning_idempotent(heights);
}

/// The cache changes nothing that it has settled: a tree comes out of the
/// solver the same, and is drawn the same, with a cache that has gained
/// entries since it held every measurement that the wrap of the tree reads.
/// So a frame that is declared again as it was is solved and drawn as it was.
pub proof fn lemma_solved_with_more_cache(
    tree: Seq<ElementView>,
    before: Map<Seq<char>, TextMeasurement>,
    after: Map<Seq<char>, TextMeasurement>,
)
    requires
        forall|i: int|
            0 <= i < axis_sized(tree, true).len() ==> node_cached(
                #[trigger] axis_sized(tree, true)[i],
                before,
            ),
        cache_kept(before, after),
    ensures
        solved(tree, after) == solved(tree, before),
        forall|upto: int| #[trigger]
            draw_list(solved(tree, after), upto) == draw_list(solved(tree, before), upto),
{
    let widths = axis_sized(tree, true);
    assert forall|i: int| 0 <= i < widths.len() implies #[trigger] wrap_pass(widths, after)[i]
        == wrap_pass(widths, before)[i] by {
        lemma_wrap_node_kept(widths[i], before, after);
    }
    assert(wrap_pass(widths, after) =~= wrap_pass(widths, before));
}

/// Order: a solved tree is drawn in the order in which it was built. It
/// is as well formed and as nested as the fresh tree, so that every box is
/// drawn before what it holds, and whatever belongs to a later sibling
/// before whatever belongs to an earlier one.
pub proof fn lemma_solved_keeps_order(
    tree: Seq<ElementView>,
    cache: Map<Seq<char>, TextMeasurement>,
)
    requires
        well_formed(tree),
        nested(tree),
        all_fresh(tree),
    ensures
        same_shape(tree, solved(tree, cache)),
        well_formed(solved(tree, cache)),
        nested(solved(tree, cache)),
{
    lemma_solved_by_axis(tree, cache, true);
    lemma_same_shape_well_formed(tree, solved(tree, cache));
    lemma_same_shape_nested(tree, solved(tree, cache));
}

/// Round trip: in a solved tree a box that fits on both axes, has no padding
/// and holds a single box of a fixed size, not negative and not below the
/// minimum of the fitting box, has the size of that box.
pub proof fn lemma_solved_round_trip(
    tree: Seq<ElementView>,
    cache: Map<Seq<char>, TextMeasurement>,
    parent: int,
    width: i32,
    height: i32,
)
    requires
        well_formed(tree),
        all_fresh(tree),
        0 <= parent < tree.len(),
        tree[parent].kind is Rectangle,
        tree[parent].children.len() == 1,
        tree[parent].kind->Rectangle_0.padding == (PaddingConfig {
            left: 0,
            right: 0,
            top: 0,
            bottom: 0,
        }),
        tree[parent].sizing(true) is Fit,
        tree[parent].sizing(false) is Fit,
        tree[child_at(tree, parent, 0)].kind is Rectangle,
        tree[child_at(tree, parent, 0)].sizing(true) == DimensionConfig::Fixed(
            FixedDimensionConfig { size: width },
        ),
        tree[child_at(tree, parent, 0)].sizing(false) == DimensionConfig::Fixed(
            FixedDimensionConfig { size: height },
        ),
        0 <= width,
        0 <= height,
        tree[parent].sizing(true)->Fit_0.min_size <= width,
        tree[parent].sizing(false)->Fit_0.min_size <= height,
    ensures
        solved(tree, cache)[parent].dimensions == (Dimensions { width, height }),
        solved(tree, cache)[child_at(tree, parent, 0)].dimensions == (Dimensions { width, height }),
{
    let child = child_at(tree, parent, 0);
    let placed = solved(tree, cache);
    assert(0 <= child < parent);
    assert(tree[child].is_fresh());
    lemma_solved_by_axis(tree, cache, true);
    lemma_solved_by_axis(tree, cache, false);
    lemma_axis_settles(axis_start(tree, cache, true), true, child);
    assert(tree[child].declared() == axis_start(tree, cache, false)[child].declared());
    lemma_axis_settles(axis_start(tree, cache, false), false, child);
    lemma_solved_fit_equation(tree, cache, true, parent);
    lemma_solved_fit_equation(tree, cache, false, parent);
    assert(tree[parent].declared() == placed[parent].declared());
    assert(child_at(placed, parent, 0) == child);
    assert(children_total(placed, parent, true, 1) == children_total(
        placed,
        parent,
        true,
        0,
    ) + placed[child].size(true));
    assert(children_total(placed, parent, false, 1) == children_total(
        placed,
        parent,
        false,
        0,
    ) + placed[child].size(false));
    assert(children_largest(placed, parent, true, 1) == larger(
        children_largest(placed, parent, true, 0),
        placed[child].size(true) as int,
    ));
    assert(children_largest(placed, parent, false, 1) == larger(
        children_largest(placed, parent, false, 0),
        placed[child].size(false) as int,
    ));
}

} // verus!
