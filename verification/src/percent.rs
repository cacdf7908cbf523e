//! Percent sizing: a child takes a share of its parent's size.
//!
//! The pass walks the tree top-down, so a parent that is itself a percent
//! child has its size before its own children read it. Under a parent that
//! grows the size is not known yet: such a child is only marked, and the grow
//! pass resolves it.

use crate::data_type::{DimensionConfig, ElementConfig, PercentDimenionConfig, PERCENT_WHOLE};
use crate::descent::{
    children_fold, descend, hangs_from, idle_on, is_child_of, keeps_declared, lemma_descend_edge,
    lemma_descend_frame, lemma_descend_idle, lemma_descend_keeps, lemma_fold_child,
    lemma_fold_frame, lemma_fold_idle, lemma_fold_keeps, local, step_keeps, visit_keeps,
};
use crate::element::{
    child_at, lemma_same_shape_post_ordered, lemma_same_shape_well_formed, lemma_tree_view_update,
    off_axis_key, post_ordered, same_shape, tree_view, well_formed, Element, ElementView, KindView,
};
use crate::fit::{children_total, gaps_between, row_demand};
use crate::units::{floor_div, sat, saturate};
use vstd::arithmetic::div_mod::lemma_div_is_ordered;
use vstd::prelude::*;

verus! {

/// The share `percent` of `size`, rounded down.
pub open spec fn share_of(size: int, percent: u32) -> int {
    size * percent / (PERCENT_WHOLE as int)
}

/// What a percent child gives up for its parent's padding and gaps: the first
/// child the leading padding, the last child the trailing padding, and, in a
/// row of several children, half a gap at either end and a whole gap between.
/// The two halves make one gap: of an odd gap the first child gives up the
/// smaller half and the last child the larger, so that the children give up
/// exactly the gaps between them.
pub open spec fn apportioned(config: ElementConfig, x_axis: bool, slot: int, count: int) -> int {
    (if slot == 0 {
        config.padding_start(x_axis) as int
    } else {
        0
    }) + (if slot == count - 1 {
        config.padding_end(x_axis) as int
    } else {
        0
    }) + (if count > 1 && config.runs_along(x_axis) {
        if slot == 0 {
            config.child_gap as int / 2
        } else if slot == count - 1 {
            config.child_gap as int - config.child_gap as int / 2
        } else {
            config.child_gap as int
        }
    } else {
        0
    })
}

/// The size of a percent child in slot `slot` of `count` under a parent of
/// size `parent_size`.
pub open spec fn percent_extent(
    parent_size: int,
    percent: u32,
    config: ElementConfig,
    x_axis: bool,
    slot: int,
    count: int,
) -> int {
    share_of(parent_size, percent) - apportioned(config, x_axis, slot, count)
}

/// A child after percent sizing under its parent.
pub open spec fn percent_child(
    child: ElementView,
    parent: ElementView,
    config: ElementConfig,
    x_axis: bool,
    slot: int,
    count: int,
) -> ElementView {
    match child.sizing(x_axis) {
        DimensionConfig::Percent(p) => if parent.sizing(x_axis) is Grow {
            child.with_mark(true)
        } else {
            child.with_size(
                x_axis,
                sat(percent_extent(parent.size(x_axis) as int, p.percent, config, x_axis, slot, count)),
            )
        },
        _ => child,
    }
}

/// What percent sizing makes of the children of a box, as a step of a
/// top-down pass.
pub open spec fn percent_step(
    parent: ElementView,
    config: ElementConfig,
    x_axis: bool,
) -> spec_fn(int, ElementView) -> ElementView {
    |slot: int, child: ElementView|
        percent_child(child, parent, config, x_axis, slot, parent.children.len() as int)
}

/// The tree after the first `upto` children of box `parent` were sized.
pub open spec fn percent_children(
    tree: Seq<ElementView>,
    parent: int,
    config: ElementConfig,
    x_axis: bool,
    upto: int,
) -> Seq<ElementView> {
    children_fold(tree, parent, percent_step(tree[parent], config, x_axis), upto)
}

/// The tree after the children of node `parent` were sized.
pub open spec fn percent_parent(tree: Seq<ElementView>, parent: int, x_axis: bool) -> Seq<
    ElementView,
> {
    match tree[parent].kind {
        KindView::Rectangle(config) => percent_children(
            tree,
            parent,
            config,
            x_axis,
            tree[parent].children.len() as int,
        ),
        KindView::Text(_) => tree,
    }
}

/// Percent sizing at one node, as a visit of a top-down pass.
pub open spec fn percent_visit(x_axis: bool) -> spec_fn(Seq<ElementView>, int) -> Seq<ElementView> {
    |tree: Seq<ElementView>, parent: int| percent_parent(tree, parent, x_axis)
}

/// The tree after percent sizing has visited the nodes from the last down to
/// `from`.
pub open spec fn percent_suffix(tree: Seq<ElementView>, x_axis: bool, from: int) -> Seq<
    ElementView,
> {
    descend(tree, percent_visit(x_axis), from)
}

/// The tree after percent sizing on an axis.
pub open spec fn percent_pass(tree: Seq<ElementView>, x_axis: bool) -> Seq<ElementView> {
    percent_suffix(tree, x_axis, 0)
}

/// The size of a percent child, computed without overflow.
pub fn percent_size(
    parent_size: i32,
    percent: u32,
    config: &ElementConfig,
    x_axis: bool,
    slot: usize,
    count: usize,
) -> (size: i32)
    requires
        slot < count,
    ensures
        size == sat(
            percent_extent(parent_size as int, percent, *config, x_axis, slot as int, count as int),
        ),
{
    let wide_size: i128 = parent_size as i128;
    let wide_percent: i128 = percent as i128;
    assert(-0x8000_0000_0000_0000 <= wide_size * wide_percent <= 0x8000_0000_0000_0000)
        by (nonlinear_arith)
        requires
            -0x8000_0000 <= wide_size <= 0x7fff_ffff,
            0 <= wide_percent <= 0xffff_ffff,
    ;
    let product: i128 = wide_size * wide_percent;
    let mut extent: i128 = floor_div(product, PERCENT_WHOLE as i128);
    assert(-0x8000_0000_0000_0000 <= extent <= 0x8000_0000_0000_0000) by {
        lemma_div_is_ordered(
            product as int,
            0x8000_0000_0000_0000,
            PERCENT_WHOLE as int,
        );
        lemma_div_is_ordered(
            -0x8000_0000_0000_0000,
            product as int,
            PERCENT_WHOLE as int,
        );
    }
    if slot == 0 {
        extent = extent - config.padding_before(x_axis) as i128;
    }
    if slot == count - 1 {
        extent = extent - config.padding_after(x_axis) as i128;
    }
    if count > 1 && config.runs_along_axis(x_axis) {
        let half: i128 = floor_div(config.child_gap as i128, 2);
        if slot == 0 {
            extent = extent - half;
        } else if slot == count - 1 {
            extent = extent - (config.child_gap as i128 - half);
        } else {
            extent = extent - config.child_gap as i128;
        }
    }
    saturate(extent)
}

/// Percent sizing of the children of one box.
fn percent_box(nodes: &mut Vec<Element>, parent: usize, config: &ElementConfig, x_axis: bool)
    requires
        parent < old(nodes).len(),
        post_ordered(tree_view(old(nodes)@)),
        tree_view(old(nodes)@)[parent as int].kind == KindView::Rectangle(*config),
    ensures
        tree_view(final(nodes)@) == percent_parent(tree_view(old(nodes)@), parent as int, x_axis),
        same_shape(tree_view(old(nodes)@), tree_view(final(nodes)@)),
{
    let ghost start = tree_view(nodes@);
    let count = nodes[parent].child_elements.len();
    let parent_size = nodes[parent].size(x_axis);
    let parent_grows = match nodes[parent].sizing(x_axis) {
        DimensionConfig::Grow(_) => true,
        _ => false,
    };
    let mut slot: usize = 0;
    while slot < count
        invariant
            parent < nodes.len(),
            nodes.len() == start.len(),
            post_ordered(start),
            same_shape(start, tree_view(nodes@)),
            start[parent as int].kind == KindView::Rectangle(*config),
            tree_view(nodes@)[parent as int] == start[parent as int],
            count == start[parent as int].children.len(),
            parent_size == start[parent as int].size(x_axis),
            parent_grows == (start[parent as int].sizing(x_axis) is Grow),
            slot <= count,
            tree_view(nodes@) == percent_children(start, parent as int, *config, x_axis, slot as int),
        decreases count - slot,
    {
        let ghost before = tree_view(nodes@);
        let child = nodes[parent].child_elements[slot];
        assert(child == child_at(start, parent as int, slot as int));
        assert(start[child as int].declared() == before[child as int].declared());
        let ghost old_nodes = nodes@;
        if let DimensionConfig::Percent(p) = nodes[child].sizing(x_axis) {
            if parent_grows {
                nodes[child].grow_on_percent_mark = true;
            } else {
                let size = percent_size(parent_size, p.percent, config, x_axis, slot, count);
                nodes[child].set_size(x_axis, size);
            }
        }
        proof {
            lemma_tree_view_update(old_nodes, child as int, nodes@[child as int]);
            assert(nodes@ =~= old_nodes.update(child as int, nodes@[child as int]));
            assert(tree_view(nodes@) =~= before.update(
                child as int,
                percent_child(
                    before[child as int],
                    start[parent as int],
                    *config,
                    x_axis,
                    slot as int,
                    count as int,
                ),
            ));
            assert(same_shape(start, tree_view(nodes@)));
        }
        slot = slot + 1;
    }
}

/// Percent sizing on one axis, top-down over the whole tree.
pub fn percent_nodes(nodes: &mut Vec<Element>, x_axis: bool)
    requires
        post_ordered(tree_view(old(nodes)@)),
    ensures
        tree_view(final(nodes)@) == percent_pass(tree_view(old(nodes)@), x_axis),
        same_shape(tree_view(old(nodes)@), tree_view(final(nodes)@)),
{
    let ghost start = tree_view(nodes@);
    let count = nodes.len();
    let mut parent: usize = count;
    while parent > 0
        invariant
            nodes.len() == count,
            start.len() == count,
            parent <= count,
            post_ordered(start),
            same_shape(start, tree_view(nodes@)),
            tree_view(nodes@) == percent_suffix(start, x_axis, parent as int),
        decreases parent,
    {
        parent = parent - 1;
        proof {
            lemma_same_shape_post_ordered(start, tree_view(nodes@));
        }
        if let Some(config) = nodes[parent].box_config() {
            percent_box(nodes, parent, &config, x_axis);
        }
    }
}

/// Percent sizing at a node keeps the shape of the tree and changes nothing
/// but the children of the node.
pub proof fn lemma_percent_local(x_axis: bool)
    ensures
        local(percent_visit(x_axis)),
{
    let visit = percent_visit(x_axis);
    assert forall|tree: Seq<ElementView>, parent: int|
        #![trigger visit(tree, parent)]
        post_ordered(tree) && 0 <= parent < tree.len() implies {
        &&& same_shape(tree, visit(tree, parent))
        &&& forall|i: int|
            0 <= i < tree.len() && !is_child_of(tree, parent, i) ==> #[trigger] visit(
                tree,
                parent,
            )[i] == tree[i]
    } by {
        match tree[parent].kind {
            KindView::Rectangle(config) => {
                let step = percent_step(tree[parent], config, x_axis);
                assert(keeps_declared(step));
                lemma_fold_frame(tree, parent, step, tree[parent].children.len() as int);
            },
            KindView::Text(_) => {},
        }
    }
}

/// After percent sizing every child of a box is what the box's final size
/// makes of it. In particular a percent child of a box that does not grow
/// has its share of the box's size, less what it gives up for padding and
/// gaps; a percent child of a growing box is marked; any other child is as it
/// was.
pub proof fn lemma_percent_share(tree: Seq<ElementView>, x_axis: bool, parent: int, slot: int)
    requires
        well_formed(tree),
        0 <= parent < tree.len(),
        0 <= slot < tree[parent].children.len(),
        tree[parent].kind is Rectangle,
    ensures
        ({
            let sized = percent_pass(tree, x_axis);
            let child = child_at(tree, parent, slot);
            let config = tree[parent].kind->Rectangle_0;
            let count = tree[parent].children.len() as int;
            &&& sized[child] == percent_child(
                tree[child],
                sized[parent],
                config,
                x_axis,
                slot,
                count,
            )
            &&& forall|p: PercentDimenionConfig|
                tree[child].sizing(x_axis) == DimensionConfig::Percent(p) && !(
                tree[parent].sizing(x_axis) is Grow) ==> sized[child].size(x_axis) == sat(
                    share_of(sized[parent].size(x_axis) as int, p.percent) - apportioned(
                        config,
                        x_axis,
                        slot,
                        count,
                    ),
                )
        }),
{
    let visit = percent_visit(x_axis);
    let ready = descend(tree, visit, parent + 1);
    let config = tree[parent].kind->Rectangle_0;
    lemma_percent_local(x_axis);
    lemma_descend_edge(tree, visit, parent, slot, 0);
    lemma_same_shape_well_formed(tree, ready);
    assert(tree[parent].declared() == ready[parent].declared());
    let step = percent_step(ready[parent], config, x_axis);
    assert(keeps_declared(step));
    lemma_fold_child(ready, parent, step, ready[parent].children.len() as int, slot);
    assert(visit(ready, parent) == percent_parent(ready, parent, x_axis));
    assert(child_at(ready, parent, slot) == child_at(tree, parent, slot));
    assert(descend(tree, visit, 0)[parent].declared() == tree[parent].declared());
}

/// Percent sizing leaves a node alone that is no child of a box.
pub proof fn lemma_percent_root(tree: Seq<ElementView>, x_axis: bool, node: int)
    requires
        post_ordered(tree),
        0 <= node < tree.len(),
        !hangs_from(tree, node, 0),
    ensures
        percent_pass(tree, x_axis)[node] == tree[node],
{
    lemma_percent_local(x_axis);
    lemma_descend_frame(tree, percent_visit(x_axis), 0);
}

/// Percent sizing on an axis changes of a node only its size on that axis
/// and its mark.
pub proof fn lemma_percent_keeps(tree: Seq<ElementView>, x_axis: bool)
    requires
        post_ordered(tree),
    ensures
        same_shape(tree, percent_pass(tree, x_axis)),
        forall|i: int|
            0 <= i < tree.len() ==> (#[trigger] percent_pass(tree, x_axis)[i]).off_axis(x_axis)
                == tree[i].off_axis(x_axis),
{
    let visit = percent_visit(x_axis);
    let key = off_axis_key(x_axis);
    lemma_percent_local(x_axis);
    assert(visit_keeps(visit, key)) by {
        assert forall|tree: Seq<ElementView>, parent: int|
            #![trigger visit(tree, parent)]
            post_ordered(tree) && 0 <= parent < tree.len() implies forall|i: int|
            0 <= i < tree.len() ==> key(#[trigger] visit(tree, parent)[i]) == key(tree[i]) by {
            match tree[parent].kind {
                KindView::Rectangle(config) => {
                    let step = percent_step(tree[parent], config, x_axis);
                    assert(step_keeps(step, key));
                    lemma_fold_keeps(tree, parent, step, key, tree[parent].children.len() as int);
                },
                KindView::Text(_) => {},
            }
        }
    }
    lemma_descend_keeps(tree, visit, key, 0);
    lemma_descend_frame(tree, visit, 0);
    assert forall|i: int| 0 <= i < tree.len() implies (#[trigger] percent_pass(
        tree,
        x_axis,
    )[i]).off_axis(x_axis) == tree[i].off_axis(x_axis) by {
        assert(key(percent_pass(tree, x_axis)[i]) == key(tree[i]));
    }
}

/// Percent sizing leaves a node alone that is not percent-sized on the axis.
pub proof fn lemma_percent_idle(tree: Seq<ElementView>, x_axis: bool, i: int)
    requires
        post_ordered(tree),
        0 <= i < tree.len(),
        !(tree[i].sizing(x_axis) is Percent),
    ensures
        percent_pass(tree, x_axis)[i] == tree[i],
{
    let visit = percent_visit(x_axis);
    let value = tree[i];
    lemma_percent_local(x_axis);
    assert(idle_on(visit, value)) by {
        assert forall|tree: Seq<ElementView>, parent: int|
            #![trigger visit(tree, parent)]
            post_ordered(tree) && 0 <= parent < tree.len() implies forall|i: int|
            0 <= i < tree.len() && tree[i] == value ==> #[trigger] visit(tree, parent)[i]
                == value by {
            assert forall|i: int| 0 <= i < tree.len() && tree[i] == value implies #[trigger] visit(
                tree,
                parent,
            )[i] == value by {
                match tree[parent].kind {
                    KindView::Rectangle(config) => {
                        let step = percent_step(tree[parent], config, x_axis);
                        lemma_fold_idle(
                            tree,
                            parent,
                            step,
                            tree[parent].children.len() as int,
                            i,
                        );
                    },
                    KindView::Text(_) => {},
                }
            }
        }
    }
    lemma_descend_idle(tree, visit, 0, i);
}

/// The shares of a size that the first `upto` children of `parent` are
/// declared with, each rounded down, together. Only percent children count.
pub open spec fn shares_total(
    tree: Seq<ElementView>,
    parent: int,
    x_axis: bool,
    size: int,
    upto: int,
) -> int
    decreases upto,
{
    if upto <= 0 {
        0
    } else {
        shares_total(tree, parent, x_axis, size, upto - 1) + match tree[child_at(
            tree,
            parent,
            upto - 1,
        )].sizing(x_axis) {
            DimensionConfig::Percent(p) => share_of(size, p.percent),
            _ => 0,
        }
    }
}

/// The percentages that the first `upto` children of `parent` are declared
/// with, together.
pub open spec fn percents_total(tree: Seq<ElementView>, parent: int, x_axis: bool, upto: int) -> int
    decreases upto,
{
    if upto <= 0 {
        0
    } else {
        percents_total(tree, parent, x_axis, upto - 1) + match tree[child_at(
            tree,
            parent,
            upto - 1,
        )].sizing(x_axis) {
            DimensionConfig::Percent(p) => p.percent as int,
            _ => 0,
        }
    }
}

/// What the first `upto` of `count` percent children give up together.
pub open spec fn apportioned_total(
    config: ElementConfig,
    x_axis: bool,
    count: int,
    upto: int,
) -> int
    decreases upto,
{
    if upto <= 0 {
        0
    } else {
        apportioned_total(config, x_axis, count, upto - 1) + apportioned(
            config,
            x_axis,
            upto - 1,
            count,
        )
    }
}

/// Together the children of a box give up its padding and, along its
/// direction, exactly the gaps between them.
pub proof fn lemma_apportioned_total(config: ElementConfig, x_axis: bool, count: int, upto: int)
    requires
        0 <= upto <= count,
    ensures
        apportioned_total(config, x_axis, count, upto) == (if upto == 0 {
            0
        } else {
            config.padding_start(x_axis) + (if upto == count {
                config.padding_end(x_axis) as int
            } else {
                0
            }) + (if count > 1 && config.runs_along(x_axis) {
                (upto - 1) * config.child_gap + (if upto == count {
                    0
                } else {
                    config.child_gap as int / 2
                })
            } else {
                0
            })
        }),
    decreases upto,
{
    if upto > 0 {
        lemma_apportioned_total(config, x_axis, count, upto - 1);
        let gap = config.child_gap as int;
        assert((upto - 1) * gap == (upto - 2) * gap + gap) by (nonlinear_arith);
        assert(0 * gap == 0);
    }
}

/// The shares rounded down are together no more than the share of the
/// percentages together, and fall short of it by less than one unit for
/// every child.
pub proof fn lemma_shares_total_bounds(
    tree: Seq<ElementView>,
    parent: int,
    x_axis: bool,
    size: int,
    upto: int,
)
    requires
        0 <= upto,
    ensures
        PERCENT_WHOLE * shares_total(tree, parent, x_axis, size, upto) <= size * percents_total(
            tree,
            parent,
            x_axis,
            upto,
        ),
        size * percents_total(tree, parent, x_axis, upto) < PERCENT_WHOLE * shares_total(
            tree,
            parent,
            x_axis,
            size,
            upto,
        ) + PERCENT_WHOLE * upto || upto == 0,
        0 <= percents_total(tree, parent, x_axis, upto),
    decreases upto,
{
    if upto > 0 {
        lemma_shares_total_bounds(tree, parent, x_axis, size, upto - 1);
        let whole = PERCENT_WHOLE as int;
        let before_shares = shares_total(tree, parent, x_axis, size, upto - 1);
        let before_percents = percents_total(tree, parent, x_axis, upto - 1);
        match tree[child_at(tree, parent, upto - 1)].sizing(x_axis) {
            DimensionConfig::Percent(p) => {
                let percent = p.percent as int;
                let share = share_of(size, p.percent);
                vstd::arithmetic::div_mod::lemma_fundamental_div_mod(size * percent, whole);
                assert(0 <= (size * percent) % whole < whole);
                assert(whole * (before_shares + share) == whole * before_shares + whole * share)
                    by (nonlinear_arith);
                assert(size * (before_percents + percent) == size * before_percents + size
                    * percent) by (nonlinear_arith);
                assert(whole * upto == whole * (upto - 1) + whole) by (nonlinear_arith);
            },
            _ => {
                assert(whole * upto == whole * (upto - 1) + whole) by (nonlinear_arith);
            },
        }
    }
}

/// No percent child of `parent` runs out of the sizes under a parent of the
/// given size.
pub open spec fn shares_are_sizes(
    tree: Seq<ElementView>,
    parent: int,
    x_axis: bool,
    size: int,
) -> bool {
    forall|slot: int|
        0 <= slot < tree[parent].children.len() ==> {
            let child = tree[#[trigger] child_at(tree, parent, slot)];
            &&& child.sizing(x_axis) is Percent
            &&& i32::MIN <= percent_extent(
                size,
                child.sizing(x_axis)->Percent_0.percent,
                tree[parent].kind->Rectangle_0,
                x_axis,
                slot,
                tree[parent].children.len() as int,
            ) <= i32::MAX
        }
}

/// After percent sizing the first children of a box of percent children are
/// together as large as their shares, less what they give up.
proof fn lemma_percent_children_total(
    tree: Seq<ElementView>,
    x_axis: bool,
    parent: int,
    upto: int,
)
    requires
        well_formed(tree),
        0 <= parent < tree.len(),
        0 <= upto <= tree[parent].children.len(),
        tree[parent].kind is Rectangle,
        !(tree[parent].sizing(x_axis) is Grow),
        shares_are_sizes(tree, parent, x_axis, percent_pass(tree, x_axis)[parent].size(x_axis) as int),
    ensures
        children_total(percent_pass(tree, x_axis), parent, x_axis, upto) == shares_total(
            tree,
            parent,
            x_axis,
            percent_pass(tree, x_axis)[parent].size(x_axis) as int,
            upto,
        ) - apportioned_total(
            tree[parent].kind->Rectangle_0,
            x_axis,
            tree[parent].children.len() as int,
            upto,
        ),
    decreases upto,
{
    if upto > 0 {
        lemma_percent_children_total(tree, x_axis, parent, upto - 1);
        lemma_percent_share(tree, x_axis, parent, upto - 1);
        lemma_percent_keeps(tree, x_axis);
        let sized = percent_pass(tree, x_axis);
        assert(tree[parent].declared() == sized[parent].declared());
        assert(child_at(sized, parent, upto - 1) == child_at(tree, parent, upto - 1));
    }
}

/// Conservation of percent children: in a box that does not grow and holds
/// percent children only, none of which runs out of the sizes, the children
/// with the gaps between them and the padding take, after percent sizing,
/// exactly what their shares of the box's size come to together. The shares
/// together are no more than the share of the percentages together, and fall
/// short of it by less than one unit for every child. So where the
/// percentages come to no more than the whole, the children with gaps and
/// padding stay within the box.
pub proof fn lemma_percent_conserves(tree: Seq<ElementView>, x_axis: bool, parent: int)
    requires
        well_formed(tree),
        0 <= parent < tree.len(),
        tree[parent].kind is Rectangle,
        tree[parent].kind->Rectangle_0.runs_along(x_axis),
        !(tree[parent].sizing(x_axis) is Grow),
        tree[parent].children.len() >= 1,
        shares_are_sizes(tree, parent, x_axis, percent_pass(tree, x_axis)[parent].size(x_axis) as int),
    ensures
        ({
            let sized = percent_pass(tree, x_axis);
            let count = tree[parent].children.len() as int;
            let size = sized[parent].size(x_axis) as int;
            let shares = shares_total(tree, parent, x_axis, size, count);
            let percents = percents_total(tree, parent, x_axis, count);
            &&& row_demand(sized, parent, x_axis) == shares
            &&& PERCENT_WHOLE * shares <= size * percents < PERCENT_WHOLE * shares + PERCENT_WHOLE
                * count
            &&& 0 <= size && percents <= PERCENT_WHOLE ==> row_demand(sized, parent, x_axis)
                <= size
        }),
{
    let sized = percent_pass(tree, x_axis);
    let count = tree[parent].children.len() as int;
    let size = sized[parent].size(x_axis) as int;
    let config = tree[parent].kind->Rectangle_0;
    let shares = shares_total(tree, parent, x_axis, size, count);
    let percents = percents_total(tree, parent, x_axis, count);
    lemma_percent_children_total(tree, x_axis, parent, count);
    lemma_apportioned_total(config, x_axis, count, count);
    lemma_shares_total_bounds(tree, parent, x_axis, size, count);
    lemma_percent_keeps(tree, x_axis);
    assert(tree[parent].declared() == sized[parent].declared());
    let gap = config.child_gap as int;
    let between = (count - 1) * gap;
    assert(gaps_between(count, gap) == between);
    assert(count == 1 ==> between == 0) by (nonlinear_arith)
        requires
            between == (count - 1) * gap,
    ;
    assert(count > 1 ==> apportioned_total(config, x_axis, count, count) == config.padding_start(
        x_axis,
    ) + config.padding_end(x_axis) + between);
    if 0 <= size && percents <= PERCENT_WHOLE {
        assert(shares <= size) by (nonlinear_arith)
            requires
                PERCENT_WHOLE * shares <= size * percents,
                0 <= size,
                0 <= percents <= PERCENT_WHOLE,
                PERCENT_WHOLE == 10_000,
        ;
    }
}

} // verus!
