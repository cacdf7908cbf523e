//! Grow sizing: children that grow share the room their parent has left.
//!
//! The pass walks the tree top-down. Under each box it first resolves the
//! percent children that were waiting for the box's own size, then deals out
//! the room. Across the box's direction a growing child takes the box's
//! inner size, but no more than its cap. Along it the growing children are
//! raised like water in connected vessels: all of them are filled to one
//! common level, except that a child never falls below the size it has and
//! never rises above its cap. If the children already overflow the box, the
//! growing ones give way in equal parts instead.

use crate::data_type::{DimensionConfig, ElementConfig};
use crate::descent::{
    children_fold, descend, idle_on, is_child_in, is_child_of, keeps_declared, lemma_descend_edge,
    lemma_descend_frame, lemma_descend_idle, lemma_descend_keeps, lemma_descend_settled,
    lemma_fold_child, lemma_fold_frame, lemma_fold_idle, lemma_fold_keeps, local, step_keeps,
    visit_keeps,
};
use crate::element::{
    child_at, lemma_same_shape_chain, lemma_same_shape_post_ordered, lemma_same_shape_well_formed,
    lemma_tree_view_update, off_axis_key, post_ordered, same_shape, tree_view, well_formed,
    Element, ElementView, KindView,
};
use crate::fit::{children_total, gaps_between, row_demand};
use crate::percent::{percent_extent, percent_size};
use crate::units::{floor_div, larger, sat, saturate, smaller, times};
use vstd::arithmetic::div_mod::{lemma_div_is_ordered, lemma_fundamental_div_mod};
use vstd::prelude::*;

verus! {

/// A marked child after its percent size was resolved under a parent whose
/// size has become known. The mark is taken off again.
pub open spec fn resolve_child(
    child: ElementView,
    parent: ElementView,
    config: ElementConfig,
    x_axis: bool,
    slot: int,
    count: int,
) -> ElementView {
    if child.mark {
        match child.sizing(x_axis) {
            DimensionConfig::Percent(p) => child.with_size(
                x_axis,
                sat(percent_extent(parent.size(x_axis) as int, p.percent, config, x_axis, slot, count)),
            ).with_mark(false),
            _ => child.with_mark(false),
        }
    } else {
        child
    }
}

/// What resolving makes of the children of a box, as a step of a top-down
/// pass.
pub open spec fn resolve_step(
    parent: ElementView,
    config: ElementConfig,
    x_axis: bool,
) -> spec_fn(int, ElementView) -> ElementView {
    |slot: int, child: ElementView|
        resolve_child(child, parent, config, x_axis, slot, parent.children.len() as int)
}

/// The tree after the first `upto` children of box `parent` were resolved.
pub open spec fn resolve_children(
    tree: Seq<ElementView>,
    parent: int,
    config: ElementConfig,
    x_axis: bool,
    upto: int,
) -> Seq<ElementView> {
    children_fold(tree, parent, resolve_step(tree[parent], config, x_axis), upto)
}

/// The sum of the sizes of those among the first `upto` children of `parent`
/// that do not grow on the axis.
pub open spec fn settled_total(tree: Seq<ElementView>, parent: int, x_axis: bool, upto: int) -> int
    decreases upto,
{
    if upto <= 0 {
        0
    } else {
        let child = tree[child_at(tree, parent, upto - 1)];
        settled_total(tree, parent, x_axis, upto - 1) + if child.sizing(x_axis) is Grow {
            0
        } else {
            child.size(x_axis) as int
        }
    }
}

/// The sum of the sizes of those among the first `upto` children of `parent`
/// that grow on the axis.
pub open spec fn growing_total(tree: Seq<ElementView>, parent: int, x_axis: bool, upto: int) -> int
    decreases upto,
{
    if upto <= 0 {
        0
    } else {
        let child = tree[child_at(tree, parent, upto - 1)];
        growing_total(tree, parent, x_axis, upto - 1) + if child.sizing(x_axis) is Grow {
            child.size(x_axis) as int
        } else {
            0
        }
    }
}

/// How many of the first `upto` children of `parent` grow on the axis.
pub open spec fn growing_count(tree: Seq<ElementView>, parent: int, x_axis: bool, upto: int) -> int
    decreases upto,
{
    if upto <= 0 {
        0
    } else {
        let child = tree[child_at(tree, parent, upto - 1)];
        growing_count(tree, parent, x_axis, upto - 1) + if child.sizing(x_axis) is Grow {
            1int
        } else {
            0int
        }
    }
}

/// A size held under a cap: a cap above zero is a limit, any other cap is
/// none.
pub open spec fn capped(size: int, max_size: int) -> int {
    if max_size > 0 {
        smaller(size, max_size)
    } else {
        size
    }
}

/// The size of a growing child of size `size` and cap `max_size` when its
/// siblings are filled to `level`: the level, but no more than a cap above
/// zero and no less than the size the child has.
pub open spec fn filled(size: int, max_size: int, level: int) -> int {
    larger(size, capped(level, max_size))
}

/// The room that the growing ones among the first `upto` children of
/// `parent` take when they are filled to `level`.
pub open spec fn filled_total(
    tree: Seq<ElementView>,
    parent: int,
    x_axis: bool,
    level: int,
    upto: int,
) -> int
    decreases upto,
{
    if upto <= 0 {
        0
    } else {
        let child = tree[child_at(tree, parent, upto - 1)];
        filled_total(tree, parent, x_axis, level, upto - 1) + match child.sizing(x_axis) {
            DimensionConfig::Grow(g) => filled(child.size(x_axis) as int, g.max_size as int, level),
            _ => 0,
        }
    }
}

/// Whether the growing children of `parent`, filled to `level`, fit in `room`.
pub open spec fn level_fits(
    tree: Seq<ElementView>,
    parent: int,
    x_axis: bool,
    room: int,
    level: int,
) -> bool {
    filled_total(tree, parent, x_axis, level, tree[parent].children.len() as int) <= room
}

/// `level` is the highest level in the range of sizes to which the growing
/// children of `parent` can be filled without taking more than `room`.
pub open spec fn is_water_level(
    tree: Seq<ElementView>,
    parent: int,
    x_axis: bool,
    room: int,
    level: int,
) -> bool {
    &&& i32::MIN <= level <= i32::MAX
    &&& level_fits(tree, parent, x_axis, room, level)
    &&& level == i32::MAX || !level_fits(tree, parent, x_axis, room, level + 1)
}

/// The highest level to which the growing children of `parent` can be filled
/// in `room`. It is meaningful where the children fit in `room` as they are.
pub open spec fn water_level(tree: Seq<ElementView>, parent: int, x_axis: bool, room: int) -> int {
    choose|level: int| is_water_level(tree, parent, x_axis, room, level)
}

/// How the room of one box is dealt out to its growing children.
pub struct GrowShares {
    /// The axis runs across the box's direction: no sharing.
    pub cross: bool,
    /// The size of the box less its padding.
    pub inner: int,
    /// The children overflow the box as they are.
    pub shrinking: bool,
    /// What every growing child gives up when they overflow; zero or less.
    pub shrink: int,
    /// The level to which the growing children are filled otherwise.
    pub level: int,
}

/// The room that is left for the growing children of box `parent` on the
/// axis of its direction: its inner size less the gaps and the children that
/// do not grow.
pub open spec fn growing_room(
    tree: Seq<ElementView>,
    parent: int,
    config: ElementConfig,
    x_axis: bool,
) -> int {
    let count = tree[parent].children.len() as int;
    tree[parent].size(x_axis) - config.padding_start(x_axis) - config.padding_end(x_axis)
        - gaps_between(count, config.child_gap as int) - settled_total(tree, parent, x_axis, count)
}

/// How box `parent` deals out its room on an axis.
pub open spec fn grow_shares(
    tree: Seq<ElementView>,
    parent: int,
    config: ElementConfig,
    x_axis: bool,
) -> GrowShares {
    let count = tree[parent].children.len() as int;
    let inner = tree[parent].size(x_axis) - config.padding_start(x_axis) - config.padding_end(
        x_axis,
    );
    if !config.runs_along(x_axis) {
        GrowShares { cross: true, inner, shrinking: false, shrink: 0, level: 0 }
    } else {
        let room = growing_room(tree, parent, config, x_axis);
        let rest = room - growing_total(tree, parent, x_axis, count);
        let growers = growing_count(tree, parent, x_axis, count);
        if rest < 0 {
            GrowShares {
                cross: false,
                inner,
                shrinking: true,
                shrink: if growers > 0 {
                    rest / growers
                } else {
                    0
                },
                level: 0,
            }
        } else {
            GrowShares {
                cross: false,
                inner,
                shrinking: false,
                shrink: 0,
                level: water_level(tree, parent, x_axis, room),
            }
        }
    }
}

/// A child after grow sizing under its parent. Across the box's direction a
/// growing child takes the inner size of the box, held under its cap; along
/// it the child gives way where the children overflow, and is filled to the
/// common level otherwise.
pub open spec fn grow_child(child: ElementView, x_axis: bool, shares: GrowShares) -> ElementView {
    match child.sizing(x_axis) {
        DimensionConfig::Grow(g) => child.with_size(
            x_axis,
            if shares.cross {
                sat(capped(shares.inner, g.max_size as int))
            } else if shares.shrinking {
                sat(child.size(x_axis) + shares.shrink)
            } else {
                sat(filled(child.size(x_axis) as int, g.max_size as int, shares.level))
            },
        ),
        _ => child,
    }
}

/// What grow sizing makes of the children of a box, as a step of a top-down
/// pass.
pub open spec fn grow_step(x_axis: bool, shares: GrowShares) -> spec_fn(int, ElementView) -> ElementView {
    |slot: int, child: ElementView| grow_child(child, x_axis, shares)
}

/// The tree after the first `upto` children of box `parent` took their share.
pub open spec fn grow_children(
    tree: Seq<ElementView>,
    parent: int,
    shares: GrowShares,
    x_axis: bool,
    upto: int,
) -> Seq<ElementView> {
    children_fold(tree, parent, grow_step(x_axis, shares), upto)
}

/// The tree after the marked percent children of node `parent` were
/// resolved, which happens only under a box that grows.
pub open spec fn resolved_at(tree: Seq<ElementView>, parent: int, x_axis: bool) -> Seq<
    ElementView,
> {
    match tree[parent].kind {
        KindView::Rectangle(config) => if tree[parent].sizing(x_axis) is Grow {
            resolve_children(tree, parent, config, x_axis, tree[parent].children.len() as int)
        } else {
            tree
        },
        KindView::Text(_) => tree,
    }
}

/// The tree after the children of node `parent` were resolved and grown.
pub open spec fn grow_parent(tree: Seq<ElementView>, parent: int, x_axis: bool) -> Seq<
    ElementView,
> {
    match tree[parent].kind {
        KindView::Rectangle(config) => {
            let resolved = resolved_at(tree, parent, x_axis);
            grow_children(
                resolved,
                parent,
                grow_shares(resolved, parent, config, x_axis),
                x_axis,
                tree[parent].children.len() as int,
            )
        },
        KindView::Text(_) => tree,
    }
}

/// Grow sizing at one node, as a visit of a top-down pass.
pub open spec fn grow_visit(x_axis: bool) -> spec_fn(Seq<ElementView>, int) -> Seq<ElementView> {
    |tree: Seq<ElementView>, parent: int| grow_parent(tree, parent, x_axis)
}

/// The tree after grow sizing has visited the nodes from the last down to
/// `from`.
pub open spec fn grow_suffix(tree: Seq<ElementView>, x_axis: bool, from: int) -> Seq<ElementView> {
    descend(tree, grow_visit(x_axis), from)
}

/// The tree after grow sizing on an axis.
pub open spec fn grow_pass(tree: Seq<ElementView>, x_axis: bool) -> Seq<ElementView> {
    grow_suffix(tree, x_axis, 0)
}

/// Filling to a higher level never takes less room.
pub proof fn lemma_filled_total_monotone(
    tree: Seq<ElementView>,
    parent: int,
    x_axis: bool,
    low: int,
    high: int,
    upto: int,
)
    requires
        low <= high,
    ensures
        filled_total(tree, parent, x_axis, low, upto) <= filled_total(
            tree,
            parent,
            x_axis,
            high,
            upto,
        ),
    decreases upto,
{
    if upto > 0 {
        lemma_filled_total_monotone(tree, parent, x_axis, low, high, upto - 1);
    }
}

/// Filled to the lowest level, every growing child keeps the size it has.
pub proof fn lemma_filled_total_floor(tree: Seq<ElementView>, parent: int, x_axis: bool, upto: int)
    ensures
        filled_total(tree, parent, x_axis, i32::MIN as int, upto) == growing_total(
            tree,
            parent,
            x_axis,
            upto,
        ),
    decreases upto,
{
    if upto > 0 {
        lemma_filled_total_floor(tree, parent, x_axis, upto - 1);
    }
}

/// `level` is the highest level up to `above` to which the growing children
/// of `parent` can be filled without taking more than `room`.
pub open spec fn is_highest_upto(
    tree: Seq<ElementView>,
    parent: int,
    x_axis: bool,
    room: int,
    above: int,
    level: int,
) -> bool {
    &&& i32::MIN <= level <= above
    &&& level_fits(tree, parent, x_axis, room, level)
    &&& level == above || !level_fits(tree, parent, x_axis, room, level + 1)
}

/// Where the growing children fit as they are, there is a highest level up
/// to any bound to which they can be filled.
proof fn lemma_level_search(
    tree: Seq<ElementView>,
    parent: int,
    x_axis: bool,
    room: int,
    above: int,
)
    requires
        level_fits(tree, parent, x_axis, room, i32::MIN as int),
        i32::MIN <= above <= i32::MAX,
    ensures
        exists|level: int| #[trigger] is_highest_upto(tree, parent, x_axis, room, above, level),
    decreases above - i32::MIN,
{
    if above == i32::MIN || level_fits(tree, parent, x_axis, room, above) {
        assert(is_highest_upto(tree, parent, x_axis, room, above, above));
    } else {
        lemma_level_search(tree, parent, x_axis, room, above - 1);
        let level = choose|level: int| #[trigger]
            is_highest_upto(tree, parent, x_axis, room, above - 1, level);
        assert(is_highest_upto(tree, parent, x_axis, room, above, level));
    }
}

/// Where the growing children of a box fit in the room as they are, there is
/// a water level, and filled to it they fit in the room.
pub proof fn lemma_water_level_exists(
    tree: Seq<ElementView>,
    parent: int,
    x_axis: bool,
    room: int,
)
    requires
        0 <= parent < tree.len(),
        growing_total(tree, parent, x_axis, tree[parent].children.len() as int) <= room,
    ensures
        is_water_level(tree, parent, x_axis, room, water_level(tree, parent, x_axis, room)),
{
    lemma_filled_total_floor(tree, parent, x_axis, tree[parent].children.len() as int);
    lemma_level_search(tree, parent, x_axis, room, i32::MAX as int);
    let level = choose|level: int| #[trigger]
        is_highest_upto(tree, parent, x_axis, room, i32::MAX as int, level);
    assert(is_water_level(tree, parent, x_axis, room, level));
}

/// There is only one water level.
pub proof fn lemma_water_level_unique(
    tree: Seq<ElementView>,
    parent: int,
    x_axis: bool,
    room: int,
    level: int,
)
    requires
        is_water_level(tree, parent, x_axis, room, level),
    ensures
        water_level(tree, parent, x_axis, room) == level,
{
    let chosen = water_level(tree, parent, x_axis, room);
    let count = tree[parent].children.len() as int;
    assert(is_water_level(tree, parent, x_axis, room, chosen));
    if chosen < level {
        lemma_filled_total_monotone(tree, parent, x_axis, chosen + 1, level, count);
    }
    if level < chosen {
        lemma_filled_total_monotone(tree, parent, x_axis, level + 1, chosen, count);
    }
}

/// The sums that the sharing starts from: the sizes of the children that do
/// not grow, the sizes of those that do, and the number of the latter.
fn grow_totals(nodes: &Vec<Element>, parent: usize, x_axis: bool) -> (found: (i128, i128, usize))
    requires
        parent < nodes.len(),
        post_ordered(tree_view(nodes@)),
    ensures
        found.0 == settled_total(
            tree_view(nodes@),
            parent as int,
            x_axis,
            nodes[parent as int].child_elements.len() as int,
        ),
        found.1 == growing_total(
            tree_view(nodes@),
            parent as int,
            x_axis,
            nodes[parent as int].child_elements.len() as int,
        ),
        found.2 == growing_count(
            tree_view(nodes@),
            parent as int,
            x_axis,
            nodes[parent as int].child_elements.len() as int,
        ),
        -0x8000_0000 * nodes[parent as int].child_elements.len() <= found.0 <= 0x8000_0000
            * nodes[parent as int].child_elements.len(),
        -0x8000_0000 * nodes[parent as int].child_elements.len() <= found.1 <= 0x8000_0000
            * nodes[parent as int].child_elements.len(),
{
    let ghost tree = tree_view(nodes@);
    let count = nodes[parent].child_elements.len();
    let mut settled: i128 = 0;
    let mut growing: i128 = 0;
    let mut growers: usize = 0;
    let mut slot: usize = 0;
    while slot < count
        invariant
            parent < nodes.len(),
            tree == tree_view(nodes@),
            post_ordered(tree),
            count == nodes[parent as int].child_elements.len(),
            slot <= count,
            settled == settled_total(tree, parent as int, x_axis, slot as int),
            growing == growing_total(tree, parent as int, x_axis, slot as int),
            growers == growing_count(tree, parent as int, x_axis, slot as int),
            growers <= slot,
            -0x8000_0000 * slot <= settled <= 0x8000_0000 * slot,
            -0x8000_0000 * slot <= growing <= 0x8000_0000 * slot,
        decreases count - slot,
    {
        let child = nodes[parent].child_elements[slot];
        assert(child == child_at(tree, parent as int, slot as int));
        let size = nodes[child].size(x_axis) as i128;
        match nodes[child].sizing(x_axis) {
            DimensionConfig::Grow(_) => {
                growing = growing + size;
                growers = growers + 1;
            },
            _ => {
                settled = settled + size;
            },
        }
        slot = slot + 1;
    }
    (settled, growing, growers)
}

/// The size of one growing child filled to a level.
fn fill(size: i32, max_size: i32, level: i32) -> (r: i32)
    ensures
        r == filled(size as int, max_size as int, level as int),
{
    let capped = if max_size > 0 && max_size < level {
        max_size
    } else {
        level
    };
    if size >= capped {
        size
    } else {
        capped
    }
}

/// The room that the growing children of a box take at a level.
fn filled_sum(nodes: &Vec<Element>, parent: usize, x_axis: bool, level: i32) -> (total: i128)
    requires
        parent < nodes.len(),
        post_ordered(tree_view(nodes@)),
    ensures
        total == filled_total(
            tree_view(nodes@),
            parent as int,
            x_axis,
            level as int,
            nodes[parent as int].child_elements.len() as int,
        ),
{
    let ghost tree = tree_view(nodes@);
    let count = nodes[parent].child_elements.len();
    let mut total: i128 = 0;
    let mut slot: usize = 0;
    while slot < count
        invariant
            parent < nodes.len(),
            tree == tree_view(nodes@),
            post_ordered(tree),
            count == nodes[parent as int].child_elements.len(),
            slot <= count,
            total == filled_total(tree, parent as int, x_axis, level as int, slot as int),
            -0x8000_0000 * slot <= total <= 0x8000_0000 * slot,
        decreases count - slot,
    {
        let child = nodes[parent].child_elements[slot];
        assert(child == child_at(tree, parent as int, slot as int));
        if let DimensionConfig::Grow(g) = nodes[child].sizing(x_axis) {
            total = total + fill(nodes[child].size(x_axis), g.max_size, level) as i128;
        }
        slot = slot + 1;
    }
    total
}

/// Finds the water level of a box by bisection.
fn find_level(nodes: &Vec<Element>, parent: usize, x_axis: bool, room: i128) -> (level: i32)
    requires
        parent < nodes.len(),
        post_ordered(tree_view(nodes@)),
        growing_total(
            tree_view(nodes@),
            parent as int,
            x_axis,
            nodes[parent as int].child_elements.len() as int,
        ) <= room,
    ensures
        level == water_level(tree_view(nodes@), parent as int, x_axis, room as int),
{
    let ghost tree = tree_view(nodes@);
    let ghost count = nodes[parent as int].child_elements.len() as int;
    if filled_sum(nodes, parent, x_axis, i32::MAX) <= room {
        proof {
            lemma_water_level_unique(tree, parent as int, x_axis, room as int, i32::MAX as int);
        }
        return i32::MAX;
    }
    let mut low: i64 = i32::MIN as i64;
    let mut high: i64 = i32::MAX as i64;
    proof {
        lemma_filled_total_floor(tree, parent as int, x_axis, count);
    }
    while high - low > 1
        invariant
            parent < nodes.len(),
            tree == tree_view(nodes@),
            post_ordered(tree),
            i32::MIN <= low < high <= i32::MAX,
            level_fits(tree, parent as int, x_axis, room as int, low as int),
            !level_fits(tree, parent as int, x_axis, room as int, high as int),
        decreases high - low,
    {
        let middle: i64 = low + (high - low) / 2;
        if filled_sum(nodes, parent, x_axis, middle as i32) <= room {
            low = middle;
        } else {
            high = middle;
        }
    }
    proof {
        lemma_water_level_unique(tree, parent as int, x_axis, room as int, low as int);
    }
    low as i32
}

/// Resolves the marked percent children of one growing box.
fn resolve_box(nodes: &mut Vec<Element>, parent: usize, config: &ElementConfig, x_axis: bool)
    requires
        parent < old(nodes).len(),
        post_ordered(tree_view(old(nodes)@)),
        tree_view(old(nodes)@)[parent as int].kind == KindView::Rectangle(*config),
    ensures
        tree_view(final(nodes)@) == resolve_children(
            tree_view(old(nodes)@),
            parent as int,
            *config,
            x_axis,
            tree_view(old(nodes)@)[parent as int].children.len() as int,
        ),
        same_shape(tree_view(old(nodes)@), tree_view(final(nodes)@)),
        tree_view(final(nodes)@)[parent as int] == tree_view(old(nodes)@)[parent as int],
{
    let ghost start = tree_view(nodes@);
    let count = nodes[parent].child_elements.len();
    let parent_size = nodes[parent].size(x_axis);
    let mut slot: usize = 0;
    while slot < count
        invariant
            parent < nodes.len(),
            nodes.len() == start.len(),
            post_ordered(start),
            same_shape(start, tree_view(nodes@)),
            start[parent as int].kind == KindView::Rectangle(*config),
            tree_view(nodes@)[parent as int] == start[parent as int],
            count == start[parent as int].children.len(),
            parent_size == start[parent as int].size(x_axis),
            slot <= count,
            tree_view(nodes@) == resolve_children(start, parent as int, *config, x_axis, slot as int),
        decreases count - slot,
    {
        let ghost before = tree_view(nodes@);
        let child = nodes[parent].child_elements[slot];
        assert(child == child_at(start, parent as int, slot as int));
        assert(start[child as int].declared() == before[child as int].declared());
        let ghost old_nodes = nodes@;
        if nodes[child].grow_on_percent_mark {
            if let DimensionConfig::Percent(p) = nodes[child].sizing(x_axis) {
                let size = percent_size(parent_size, p.percent, config, x_axis, slot, count);
                nodes[child].set_size(x_axis, size);
            }
            nodes[child].grow_on_percent_mark = false;
        }
        proof {
            lemma_tree_view_update(old_nodes, child as int, nodes@[child as int]);
            assert(nodes@ =~= old_nodes.update(child as int, nodes@[child as int]));
            assert(tree_view(nodes@) =~= before.update(
                child as int,
                resolve_child(
                    before[child as int],
                    start[parent as int],
                    *config,
                    x_axis,
                    slot as int,
                    count as int,
                ),
            ));
            assert(same_shape(start, tree_view(nodes@)));
        }
        slot = slot + 1;
    }
}

/// Deals the room of one box out to its growing children.
fn grow_box(nodes: &mut Vec<Element>, parent: usize, config: &ElementConfig, x_axis: bool)
    requires
        parent < old(nodes).len(),
        post_ordered(tree_view(old(nodes)@)),
        tree_view(old(nodes)@)[parent as int].kind == KindView::Rectangle(*config),
    ensures
        tree_view(final(nodes)@) == grow_children(
            tree_view(old(nodes)@),
            parent as int,
            grow_shares(tree_view(old(nodes)@), parent as int, *config, x_axis),
            x_axis,
            tree_view(old(nodes)@)[parent as int].children.len() as int,
        ),
        same_shape(tree_view(old(nodes)@), tree_view(final(nodes)@)),
{
    let ghost start = tree_view(nodes@);
    let ghost shares = grow_shares(start, parent as int, *config, x_axis);
    let count = nodes[parent].child_elements.len();
    let inner: i128 = nodes[parent].size(x_axis) as i128 - config.padding_before(x_axis) as i128
        - config.padding_after(x_axis) as i128;
    let cross = !config.runs_along_axis(x_axis);
    let mut shrinking = false;
    let mut shrink: i128 = 0;
    let mut level: i32 = 0;
    if !cross {
        let (settled, growing, growers) = grow_totals(nodes, parent, x_axis);
        let gaps: i128 = if count > 0 {
            times(count - 1, config.child_gap)
        } else {
            0
        };
        let room: i128 = inner - gaps - settled;
        let rest: i128 = room - growing;
        if rest < 0 {
            shrinking = true;
            if growers > 0 {
                shrink = floor_div(rest, growers as i128);
                proof {
                    lemma_div_is_ordered(
                        rest as int,
                        0,
                        growers as int,
                    );
                    lemma_fundamental_div_mod(
                        rest as int,
                        growers as int,
                    );
                    assert(shrink >= rest) by (nonlinear_arith)
                        requires
                            rest == growers * shrink + (rest as int % growers as int),
                            0 <= (rest as int % growers as int),
                            (rest as int % growers as int) < growers,
                            shrink <= 0,
                            rest < 0,
                            growers >= 1,
                    ;
                }
            }
        } else {
            level = find_level(nodes, parent, x_axis, room);
        }
    }
    assert(shares == (GrowShares {
        cross,
        inner: inner as int,
        shrinking,
        shrink: shrink as int,
        level: level as int,
    }));
    let mut slot: usize = 0;
    while slot < count
        invariant
            parent < nodes.len(),
            nodes.len() == start.len(),
            post_ordered(start),
            same_shape(start, tree_view(nodes@)),
            count == start[parent as int].children.len(),
            slot <= count,
            shares == (GrowShares {
                cross,
                inner: inner as int,
                shrinking,
                shrink: shrink as int,
                level: level as int,
            }),
            -0x1_0000_0000_0000_0000_0000_0000_0000 <= shrink <= 0,
            tree_view(nodes@) == grow_children(start, parent as int, shares, x_axis, slot as int),
        decreases count - slot,
    {
        let ghost before = tree_view(nodes@);
        proof {
            lemma_same_shape_post_ordered(start, before);
        }
        let child = nodes[parent].child_elements[slot];
        assert(child == child_at(start, parent as int, slot as int));
        assert(start[child as int].declared() == before[child as int].declared());
        let ghost old_nodes = nodes@;
        if let DimensionConfig::Grow(g) = nodes[child].sizing(x_axis) {
            let size = if cross {
                if g.max_size > 0 && (g.max_size as i128) < inner {
                    g.max_size
                } else {
                    saturate(inner)
                }
            } else if shrinking {
                saturate(nodes[child].size(x_axis) as i128 + shrink)
            } else {
                fill(nodes[child].size(x_axis), g.max_size, level)
            };
            nodes[child].set_size(x_axis, size);
        }
        proof {
            lemma_tree_view_update(old_nodes, child as int, nodes@[child as int]);
            assert(nodes@ =~= old_nodes.update(child as int, nodes@[child as int]));
            assert(tree_view(nodes@) =~= before.update(
                child as int,
                grow_child(before[child as int], x_axis, shares),
            ));
            assert(same_shape(start, tree_view(nodes@)));
        }
        slot = slot + 1;
    }
}

/// Grow sizing on one axis, top-down over the whole tree.
pub fn grow_nodes(nodes: &mut Vec<Element>, x_axis: bool)
    requires
        post_ordered(tree_view(old(nodes)@)),
    ensures
        tree_view(final(nodes)@) == grow_pass(tree_view(old(nodes)@), x_axis),
        same_shape(tree_view(old(nodes)@), tree_view(final(nodes)@)),
{
    let ghost start = tree_view(nodes@);
    let count = nodes.len();
    let mut parent: usize = count;
    while parent > 0
        invariant
            nodes.len() == count,
            start.len() == count,
            parent <= count,
            post_ordered(start),
            same_shape(start, tree_view(nodes@)),
            tree_view(nodes@) == grow_suffix(start, x_axis, parent as int),
        decreases parent,
    {
        parent = parent - 1;
        proof {
            lemma_same_shape_post_ordered(start, tree_view(nodes@));
        }
        if let Some(config) = nodes[parent].box_config() {
            let ghost before = tree_view(nodes@);
            let grows = match nodes[parent].sizing(x_axis) {
                DimensionConfig::Grow(_) => true,
                _ => false,
            };
            if grows {
                resolve_box(nodes, parent, &config, x_axis);
            }
            proof {
                lemma_same_shape_post_ordered(before, tree_view(nodes@));
            }
            grow_box(nodes, parent, &config, x_axis);
        }
    }
}

/// Grow sizing at a node keeps the shape of the tree and changes nothing but
/// the children of the node.
pub proof fn lemma_grow_local(x_axis: bool)
    ensures
        local(grow_visit(x_axis)),
{
    let visit = grow_visit(x_axis);
    assert forall|tree: Seq<ElementView>, parent: int|
        #![trigger visit(tree, parent)]
        post_ordered(tree) && 0 <= parent < tree.len() implies {
        &&& same_shape(tree, visit(tree, parent))
        &&& forall|i: int|
            0 <= i < tree.len() && !is_child_of(tree, parent, i) ==> #[trigger] visit(
                tree,
                parent,
            )[i] == tree[i]
    } by {
        match tree[parent].kind {
            KindView::Rectangle(config) => {
                let count = tree[parent].children.len() as int;
                let resolving = resolve_step(tree[parent], config, x_axis);
                assert(keeps_declared(resolving));
                lemma_fold_frame(tree, parent, resolving, count);
                let resolved = resolved_at(tree, parent, x_axis);
                lemma_same_shape_post_ordered(tree, resolved);
                assert(tree[parent].declared() == resolved[parent].declared());
                let growing = grow_step(x_axis, grow_shares(resolved, parent, config, x_axis));
                assert(keeps_declared(growing));
                lemma_fold_frame(resolved, parent, growing, count);
                let grown = visit(tree, parent);
                assert forall|i: int| 0 <= i < tree.len() implies (#[trigger] tree[i]).declared()
                    == grown[i].declared() by {
                    assert(tree[i].declared() == resolved[i].declared());
                    assert(resolved[i].declared() == grown[i].declared());
                }
                assert forall|i: int|
                    0 <= i < tree.len() && !is_child_of(tree, parent, i) implies #[trigger] grown[i]
                    == tree[i] by {
                    assert(!is_child_of(resolved, parent, i)) by {
                        if is_child_of(resolved, parent, i) {
                            let slot = choose|slot: int|
                                0 <= slot < count && #[trigger] child_at(resolved, parent, slot)
                                    == i;
                            assert(child_at(tree, parent, slot) == i);
                        }
                    }
                }
            },
            KindView::Text(_) => {},
        }
    }
}

/// How box `parent` deals out its room when grow sizing reaches it.
pub open spec fn dealt(tree: Seq<ElementView>, x_axis: bool, parent: int) -> GrowShares {
    let ready = grow_suffix(tree, x_axis, parent + 1);
    grow_shares(
        resolved_at(ready, parent, x_axis),
        parent,
        tree[parent].kind->Rectangle_0,
        x_axis,
    )
}

/// After grow sizing every child of a box is what the box's final size and
/// the box's shares make of it: a marked child is resolved first if the box
/// grows, and a growing child then takes its share.
pub proof fn lemma_grow_edge(tree: Seq<ElementView>, x_axis: bool, parent: int, slot: int)
    requires
        well_formed(tree),
        0 <= parent < tree.len(),
        0 <= slot < tree[parent].children.len(),
        tree[parent].kind is Rectangle,
    ensures
        ({
            let grown = grow_pass(tree, x_axis);
            let child = child_at(tree, parent, slot);
            let config = tree[parent].kind->Rectangle_0;
            let count = tree[parent].children.len() as int;
            let settled = if grown[parent].sizing(x_axis) is Grow {
                resolve_child(tree[child], grown[parent], config, x_axis, slot, count)
            } else {
                tree[child]
            };
            let resolved = resolved_at(grow_suffix(tree, x_axis, parent + 1), parent, x_axis);
            &&& grown[child] == grow_child(settled, x_axis, dealt(tree, x_axis, parent))
            &&& same_shape(tree, resolved)
            &&& same_shape(tree, grown)
            &&& resolved[parent] == grown[parent]
            &&& resolved[child] == settled
        }),
{
    let visit = grow_visit(x_axis);
    let ready = descend(tree, visit, parent + 1);
    let config = tree[parent].kind->Rectangle_0;
    let count = tree[parent].children.len() as int;
    lemma_grow_local(x_axis);
    lemma_descend_edge(tree, visit, parent, slot, 0);
    lemma_same_shape_well_formed(tree, ready);
    assert(tree[parent].declared() == ready[parent].declared());
    assert(descend(tree, visit, 0)[parent].declared() == tree[parent].declared());
    assert(child_at(ready, parent, slot) == child_at(tree, parent, slot));
    let resolving = resolve_step(ready[parent], config, x_axis);
    assert(keeps_declared(resolving));
    lemma_fold_frame(ready, parent, resolving, count);
    lemma_fold_child(ready, parent, resolving, count, slot);
    let resolved = resolved_at(ready, parent, x_axis);
    lemma_same_shape_well_formed(ready, resolved);
    assert(ready[parent].declared() == resolved[parent].declared());
    assert(child_at(resolved, parent, slot) == child_at(tree, parent, slot));
    let growing = grow_step(x_axis, grow_shares(resolved, parent, config, x_axis));
    assert(keeps_declared(growing));
    lemma_fold_child(resolved, parent, growing, count, slot);
    assert(visit(ready, parent) == grow_parent(ready, parent, x_axis));
    lemma_same_shape_chain(tree, ready, resolved);
    assert(!is_child_in(ready, parent, parent, count)) by {
        if is_child_in(ready, parent, parent, count) {
            let place = choose|place: int|
                0 <= place < count && #[trigger] child_at(ready, parent, place) == parent;
            assert(child_at(ready, parent, place) < parent);
        }
    }
}

/// What the growing children give up when they overflow is never a gain.
pub proof fn lemma_shrink_sign(
    tree: Seq<ElementView>,
    parent: int,
    config: ElementConfig,
    x_axis: bool,
)
    ensures
        grow_shares(tree, parent, config, x_axis).shrink <= 0,
{
    let count = tree[parent].children.len() as int;
    let rest = growing_room(tree, parent, config, x_axis) - growing_total(
        tree,
        parent,
        x_axis,
        count,
    );
    let growers = growing_count(tree, parent, x_axis, count);
    if config.runs_along(x_axis) && rest < 0 && growers > 0 {
        lemma_div_is_ordered(rest, 0, growers);
    }
}

/// Grow clamp: a growing child of a box with a cap above zero ends up within
/// its cap. Along the direction of the box, where a child never gets
/// smaller than it is, this holds of a child that starts out within its cap;
/// across it, it holds of every child.
pub proof fn lemma_grow_within_cap(tree: Seq<ElementView>, x_axis: bool, parent: int, slot: int)
    requires
        well_formed(tree),
        0 <= parent < tree.len(),
        0 <= slot < tree[parent].children.len(),
        tree[parent].kind is Rectangle,
        tree[child_at(tree, parent, slot)].sizing(x_axis) is Grow,
        tree[child_at(tree, parent, slot)].sizing(x_axis)->Grow_0.max_size > 0,
        tree[parent].kind->Rectangle_0.runs_along(x_axis) ==> tree[child_at(
            tree,
            parent,
            slot,
        )].size(x_axis) <= tree[child_at(tree, parent, slot)].sizing(x_axis)->Grow_0.max_size,
    ensures
        grow_pass(tree, x_axis)[child_at(tree, parent, slot)].size(x_axis) <= tree[child_at(
            tree,
            parent,
            slot,
        )].sizing(x_axis)->Grow_0.max_size,
{
    lemma_grow_edge(tree, x_axis, parent, slot);
    let ready = grow_suffix(tree, x_axis, parent + 1);
    lemma_shrink_sign(
        resolved_at(ready, parent, x_axis),
        parent,
        tree[parent].kind->Rectangle_0,
        x_axis,
    );
}

/// Grow fairness: two growing children of one box that both gained size and
/// that no cap holds back end up with the same size.
pub proof fn lemma_grow_fair(
    tree: Seq<ElementView>,
    x_axis: bool,
    parent: int,
    slot: int,
    other: int,
)
    requires
        well_formed(tree),
        0 <= parent < tree.len(),
        0 <= slot < tree[parent].children.len(),
        0 <= other < tree[parent].children.len(),
        tree[parent].kind is Rectangle,
        tree[child_at(tree, parent, slot)].sizing(x_axis) is Grow,
        tree[child_at(tree, parent, other)].sizing(x_axis) is Grow,
        gained_freely(tree, grow_pass(tree, x_axis), x_axis, child_at(tree, parent, slot)),
        gained_freely(tree, grow_pass(tree, x_axis), x_axis, child_at(tree, parent, other)),
    ensures
        grow_pass(tree, x_axis)[child_at(tree, parent, slot)].size(x_axis) == grow_pass(
            tree,
            x_axis,
        )[child_at(tree, parent, other)].size(x_axis),
{
    lemma_grow_edge(tree, x_axis, parent, slot);
    lemma_grow_edge(tree, x_axis, parent, other);
    let ready = grow_suffix(tree, x_axis, parent + 1);
    lemma_shrink_sign(
        resolved_at(ready, parent, x_axis),
        parent,
        tree[parent].kind->Rectangle_0,
        x_axis,
    );
}

/// A growing node came out of grow sizing larger than it went in, and not
/// at its cap.
pub open spec fn gained_freely(
    tree: Seq<ElementView>,
    grown: Seq<ElementView>,
    x_axis: bool,
    node: int,
) -> bool {
    &&& grown[node].size(x_axis) > tree[node].size(x_axis)
    &&& tree[node].sizing(x_axis)->Grow_0.max_size <= 0 || grown[node].size(x_axis)
        < tree[node].sizing(x_axis)->Grow_0.max_size
}

/// Grow sizing on an axis changes of a node only its size on that axis and
/// its mark.
pub proof fn lemma_grow_keeps(tree: Seq<ElementView>, x_axis: bool)
    requires
        post_ordered(tree),
    ensures
        same_shape(tree, grow_pass(tree, x_axis)),
        forall|i: int|
            0 <= i < tree.len() ==> (#[trigger] grow_pass(tree, x_axis)[i]).off_axis(x_axis)
                == tree[i].off_axis(x_axis),
{
    let visit = grow_visit(x_axis);
    let key = off_axis_key(x_axis);
    lemma_grow_local(x_axis);
    assert(visit_keeps(visit, key)) by {
        assert forall|tree: Seq<ElementView>, parent: int|
            #![trigger visit(tree, parent)]
            post_ordered(tree) && 0 <= parent < tree.len() implies forall|i: int|
            0 <= i < tree.len() ==> key(#[trigger] visit(tree, parent)[i]) == key(tree[i]) by {
            match tree[parent].kind {
                KindView::Rectangle(config) => {
                    let count = tree[parent].children.len() as int;
                    let resolving = resolve_step(tree[parent], config, x_axis);
                    assert(step_keeps(resolving, key));
                    assert(keeps_declared(resolving));
                    lemma_fold_keeps(tree, parent, resolving, key, count);
                    lemma_fold_frame(tree, parent, resolving, count);
                    let resolved = resolved_at(tree, parent, x_axis);
                    lemma_same_shape_post_ordered(tree, resolved);
                    assert(tree[parent].declared() == resolved[parent].declared());
                    let growing = grow_step(x_axis, grow_shares(resolved, parent, config, x_axis));
                    assert(step_keeps(growing, key));
                    lemma_fold_keeps(resolved, parent, growing, key, count);
                    assert forall|i: int| 0 <= i < tree.len() implies key(
                        #[trigger] visit(tree, parent)[i],
                    ) == key(tree[i]) by {
                        assert(key(resolved[i]) == key(tree[i]));
                    }
                },
                KindView::Text(_) => {},
            }
        }
    }
    lemma_descend_keeps(tree, visit, key, 0);
    lemma_descend_frame(tree, visit, 0);
    assert forall|i: int| 0 <= i < tree.len() implies (#[trigger] grow_pass(tree, x_axis)[i]).off_axis(
        x_axis,
    ) == tree[i].off_axis(x_axis) by {
        assert(key(grow_pass(tree, x_axis)[i]) == key(tree[i]));
    }
}

/// Grow sizing leaves a node alone that does not grow on the axis and is not
/// marked.
pub proof fn lemma_grow_idle(tree: Seq<ElementView>, x_axis: bool, i: int)
    requires
        post_ordered(tree),
        0 <= i < tree.len(),
        !(tree[i].sizing(x_axis) is Grow),
        !tree[i].mark,
    ensures
        grow_pass(tree, x_axis)[i] == tree[i],
{
    let visit = grow_visit(x_axis);
    let value = tree[i];
    lemma_grow_local(x_axis);
    assert(idle_on(visit, value)) by {
        assert forall|tree: Seq<ElementView>, parent: int|
            #![trigger visit(tree, parent)]
            post_ordered(tree) && 0 <= parent < tree.len() implies forall|i: int|
            0 <= i < tree.len() && tree[i] == value ==> #[trigger] visit(tree, parent)[i]
                == value by {
            assert forall|i: int| 0 <= i < tree.len() && tree[i] == value implies #[trigger] visit(
                tree,
                parent,
            )[i] == value by {
                match tree[parent].kind {
                    KindView::Rectangle(config) => {
                        let count = tree[parent].children.len() as int;
                        let resolving = resolve_step(tree[parent], config, x_axis);
                        assert(keeps_declared(resolving));
                        lemma_fold_idle(tree, parent, resolving, count, i);
                        lemma_fold_frame(tree, parent, resolving, count);
                        let resolved = resolved_at(tree, parent, x_axis);
                        lemma_same_shape_post_ordered(tree, resolved);
                        assert(tree[parent].declared() == resolved[parent].declared());
                        let growing = grow_step(
                            x_axis,
                            grow_shares(resolved, parent, config, x_axis),
                        );
                        lemma_fold_idle(resolved, parent, growing, count, i);
                    },
                    KindView::Text(_) => {},
                }
            }
        }
    }
    lemma_descend_idle(tree, visit, 0, i);
}

/// What the children of a box need along the box's direction before those
/// that grow have grown: the sizes that the growing children came with, the
/// sizes that the others have in the end, the gaps and the padding.
pub open spec fn start_demand(
    tree: Seq<ElementView>,
    grown: Seq<ElementView>,
    parent: int,
    x_axis: bool,
) -> int {
    let config = tree[parent].kind->Rectangle_0;
    let count = tree[parent].children.len() as int;
    settled_total(grown, parent, x_axis, count) + growing_total(tree, parent, x_axis, count)
        + gaps_between(count, config.child_gap as int) + config.padding_start(x_axis)
        + config.padding_end(x_axis)
}

/// How the sums over the children of a box before it deals out its room
/// relate to the sums before and after the pass.
proof fn lemma_grow_totals(tree: Seq<ElementView>, x_axis: bool, parent: int, upto: int)
    requires
        well_formed(tree),
        0 <= parent < tree.len(),
        0 <= upto <= tree[parent].children.len(),
        tree[parent].kind is Rectangle,
        tree[parent].kind->Rectangle_0.runs_along(x_axis),
    ensures
        ({
            let grown = grow_pass(tree, x_axis);
            let resolved = resolved_at(grow_suffix(tree, x_axis, parent + 1), parent, x_axis);
            let shares = dealt(tree, x_axis, parent);
            &&& settled_total(grown, parent, x_axis, upto) == settled_total(
                resolved,
                parent,
                x_axis,
                upto,
            )
            &&& growing_total(resolved, parent, x_axis, upto) == growing_total(
                tree,
                parent,
                x_axis,
                upto,
            )
            &&& growing_count(resolved, parent, x_axis, upto) == growing_count(
                tree,
                parent,
                x_axis,
                upto,
            )
            &&& children_total(grown, parent, x_axis, upto) == settled_total(
                grown,
                parent,
                x_axis,
                upto,
            ) + growing_total(grown, parent, x_axis, upto)
            &&& !shares.shrinking && i32::MIN <= shares.level <= i32::MAX ==> growing_total(
                grown,
                parent,
                x_axis,
                upto,
            ) == filled_total(resolved, parent, x_axis, shares.level, upto)
        }),
    decreases upto,
{
    if upto > 0 {
        lemma_grow_totals(tree, x_axis, parent, upto - 1);
        lemma_grow_edge(tree, x_axis, parent, upto - 1);
        let grown = grow_pass(tree, x_axis);
        let resolved = resolved_at(grow_suffix(tree, x_axis, parent + 1), parent, x_axis);
        let child = child_at(tree, parent, upto - 1);
        assert(0 <= child < parent);
        assert(tree[parent].declared() == grown[parent].declared());
        assert(tree[parent].declared() == resolved[parent].declared());
        assert(tree[child].declared() == grown[child].declared());
        assert(tree[child].declared() == resolved[child].declared());
        assert(child_at(grown, parent, upto - 1) == child);
        assert(child_at(resolved, parent, upto - 1) == child);
    }
}

/// Conservation under growth: where the children of a box fit along its
/// direction before those that grow have grown, they still fit afterwards.
pub proof fn lemma_grow_conserves(tree: Seq<ElementView>, x_axis: bool, parent: int)
    requires
        well_formed(tree),
        0 <= parent < tree.len(),
        tree[parent].kind is Rectangle,
        tree[parent].kind->Rectangle_0.runs_along(x_axis),
        start_demand(tree, grow_pass(tree, x_axis), parent, x_axis) <= grow_pass(
            tree,
            x_axis,
        )[parent].size(x_axis),
    ensures
        row_demand(grow_pass(tree, x_axis), parent, x_axis) <= grow_pass(tree, x_axis)[parent].size(
            x_axis,
        ),
{
    let grown = grow_pass(tree, x_axis);
    let ready = grow_suffix(tree, x_axis, parent + 1);
    let resolved = resolved_at(ready, parent, x_axis);
    let config = tree[parent].kind->Rectangle_0;
    let count = tree[parent].children.len() as int;
    let room = growing_room(resolved, parent, config, x_axis);
    lemma_grow_totals(tree, x_axis, parent, count);
    lemma_grow_local(x_axis);
    lemma_descend_frame(tree, grow_visit(x_axis), parent + 1);
    lemma_descend_frame(tree, grow_visit(x_axis), 0);
    lemma_same_shape_post_ordered(tree, ready);
    assert(tree[parent].declared() == ready[parent].declared());
    assert(tree[parent].declared() == grown[parent].declared());
    let resolving = resolve_step(ready[parent], config, x_axis);
    assert(keeps_declared(resolving));
    lemma_fold_frame(ready, parent, resolving, count);
    assert(ready[parent].declared() == resolved[parent].declared());
    assert(!is_child_in(ready, parent, parent, count)) by {
        if is_child_in(ready, parent, parent, count) {
            let place = choose|place: int|
                0 <= place < count && #[trigger] child_at(ready, parent, place) == parent;
            assert(child_at(ready, parent, place) < parent);
        }
    }
    lemma_grow_parent_settled(tree, x_axis, parent);
    assert(resolved[parent].size(x_axis) == grown[parent].size(x_axis));
    lemma_water_level_exists(resolved, parent, x_axis, room);
}

/// When grow sizing reaches a node, the node is as it will stay.
proof fn lemma_grow_parent_settled(tree: Seq<ElementView>, x_axis: bool, parent: int)
    requires
        well_formed(tree),
        0 <= parent < tree.len(),
    ensures
        grow_pass(tree, x_axis)[parent] == grow_suffix(tree, x_axis, parent + 1)[parent],
{
    let visit = grow_visit(x_axis);
    lemma_grow_local(x_axis);
    lemma_descend_settled(tree, visit, parent, 0);
}

/// The common size of growers that share a room in equal parts: the room
/// divided by their number, rounded down, and no more than a size can be.
pub open spec fn even_level(room: int, growers: int) -> int {
    smaller(room / growers, i32::MAX as int)
}

/// Every growing child of `parent` is no larger than `level`, and has no cap
/// or a cap above `level`.
pub open spec fn free_upto(tree: Seq<ElementView>, parent: int, x_axis: bool, level: int) -> bool {
    forall|slot: int|
        0 <= slot < tree[parent].children.len() ==> {
            let child = tree[#[trigger] child_at(tree, parent, slot)];
            child.sizing(x_axis) is Grow ==> child.size(x_axis) <= level && (child.sizing(
                x_axis,
            )->Grow_0.max_size <= 0 || child.sizing(x_axis)->Grow_0.max_size > level)
        }
}

/// Growers that are free up to a level take the level each when they are
/// filled to it, and one more each when they are filled one higher.
proof fn lemma_even_totals(
    tree: Seq<ElementView>,
    parent: int,
    x_axis: bool,
    level: int,
    upto: int,
)
    requires
        free_upto(tree, parent, x_axis, level),
        0 <= upto <= tree[parent].children.len(),
    ensures
        0 <= growing_count(tree, parent, x_axis, upto) <= upto,
        growing_count(tree, parent, x_axis, upto) >= 1 ==> level >= i32::MIN,
        filled_total(tree, parent, x_axis, level, upto) == growing_count(
            tree,
            parent,
            x_axis,
            upto,
        ) * level,
        filled_total(tree, parent, x_axis, level + 1, upto) == growing_count(
            tree,
            parent,
            x_axis,
            upto,
        ) * (level + 1),
        growing_total(tree, parent, x_axis, upto) <= growing_count(tree, parent, x_axis, upto)
            * level,
    decreases upto,
{
    if upto > 0 {
        lemma_even_totals(tree, parent, x_axis, level, upto - 1);
        let child = tree[child_at(tree, parent, upto - 1)];
        let before = growing_count(tree, parent, x_axis, upto - 1);
        assert((before + 1) * level == before * level + level) by (nonlinear_arith);
        assert((before + 1) * (level + 1) == before * (level + 1) + (level + 1))
            by (nonlinear_arith);
    }
}

/// Where the growers of a box are free up to the even level of a room, that
/// level is the water level, and they fit in the room as they are.
pub proof fn lemma_even_level(tree: Seq<ElementView>, parent: int, x_axis: bool, room: int)
    requires
        0 <= parent < tree.len(),
        growing_count(tree, parent, x_axis, tree[parent].children.len() as int) >= 1,
        free_upto(
            tree,
            parent,
            x_axis,
            even_level(
                room,
                growing_count(tree, parent, x_axis, tree[parent].children.len() as int),
            ),
        ),
    ensures
        growing_total(tree, parent, x_axis, tree[parent].children.len() as int) <= room,
        i32::MIN <= even_level(
            room,
            growing_count(tree, parent, x_axis, tree[parent].children.len() as int),
        ) <= i32::MAX,
        water_level(tree, parent, x_axis, room) == even_level(
            room,
            growing_count(tree, parent, x_axis, tree[parent].children.len() as int),
        ),
{
    let count = tree[parent].children.len() as int;
    let growers = growing_count(tree, parent, x_axis, count);
    let level = even_level(room, growers);
    let share = room / growers;
    lemma_even_totals(tree, parent, x_axis, level, count);
    lemma_fundamental_div_mod(room, growers);
    assert(0 <= room % growers < growers);
    assert(growers * level <= room) by (nonlinear_arith)
        requires
            room == growers * share + room % growers,
            0 <= room % growers,
            level <= share,
            growers >= 1,
    ;
    if level < i32::MAX {
        assert(growers * (level + 1) > room) by (nonlinear_arith)
            requires
                room == growers * share + room % growers,
                room % growers < growers,
                level == share,
                growers >= 1,
        ;
    }
    lemma_water_level_unique(tree, parent, x_axis, room, level);
}

/// The size that the growers of a box end up with where they share its room
/// in equal parts: what the box has left beside its padding, its gaps and
/// the children that do not grow, divided by the number of the growers.
pub open spec fn even_share(
    tree: Seq<ElementView>,
    grown: Seq<ElementView>,
    parent: int,
    x_axis: bool,
) -> int {
    let config = tree[parent].kind->Rectangle_0;
    let count = tree[parent].children.len() as int;
    even_level(
        grown[parent].size(x_axis) - config.padding_start(x_axis) - config.padding_end(x_axis)
            - gaps_between(count, config.child_gap as int) - settled_total(
            grown,
            parent,
            x_axis,
            count,
        ),
        growing_count(tree, parent, x_axis, count),
    )
}

/// Grow fairness in general: where no grower of a box is larger than the
/// even share of the box's room and no cap lies at or below that share,
/// every grower ends up with exactly the even share. So the growers differ
/// from the room divided by their number by less than one unit, and from
/// each other not at all.
pub proof fn lemma_grow_even(tree: Seq<ElementView>, x_axis: bool, parent: int)
    requires
        well_formed(tree),
        0 <= parent < tree.len(),
        tree[parent].kind is Rectangle,
        tree[parent].kind->Rectangle_0.runs_along(x_axis),
        growing_count(tree, parent, x_axis, tree[parent].children.len() as int) >= 1,
        free_upto(
            tree,
            parent,
            x_axis,
            even_share(tree, grow_pass(tree, x_axis), parent, x_axis),
        ),
    ensures
        forall|slot: int|
            0 <= slot < tree[parent].children.len() && tree[#[trigger] child_at(
                tree,
                parent,
                slot,
            )].sizing(x_axis) is Grow ==> grow_pass(tree, x_axis)[child_at(
                tree,
                parent,
                slot,
            )].size(x_axis) == even_share(tree, grow_pass(tree, x_axis), parent, x_axis),
{
    let grown = grow_pass(tree, x_axis);
    let ready = grow_suffix(tree, x_axis, parent + 1);
    let resolved = resolved_at(ready, parent, x_axis);
    let config = tree[parent].kind->Rectangle_0;
    let count = tree[parent].children.len() as int;
    let level = even_share(tree, grown, parent, x_axis);
    let room = growing_room(resolved, parent, config, x_axis);
    lemma_grow_totals(tree, x_axis, parent, count);
    lemma_grow_parent_settled(tree, x_axis, parent);
    lemma_grow_local(x_axis);
    lemma_descend_frame(tree, grow_visit(x_axis), parent + 1);
    lemma_same_shape_post_ordered(tree, ready);
    assert(tree[parent].declared() == ready[parent].declared());
    let resolving = resolve_step(ready[parent], config, x_axis);
    assert(keeps_declared(resolving));
    lemma_fold_frame(ready, parent, resolving, count);
    assert(ready[parent].declared() == resolved[parent].declared());
    assert(!is_child_in(ready, parent, parent, count)) by {
        if is_child_in(ready, parent, parent, count) {
            let place = choose|place: int|
                0 <= place < count && #[trigger] child_at(ready, parent, place) == parent;
            assert(child_at(ready, parent, place) < parent);
        }
    }
    assert(resolved[parent] == grown[parent]);
    assert(room == grown[parent].size(x_axis) - config.padding_start(x_axis)
        - config.padding_end(x_axis) - gaps_between(count, config.child_gap as int)
        - settled_total(grown, parent, x_axis, count));
    assert(free_upto(resolved, parent, x_axis, level)) by {
        assert forall|slot: int| 0 <= slot < resolved[parent].children.len() implies {
            let child = resolved[#[trigger] child_at(resolved, parent, slot)];
            child.sizing(x_axis) is Grow ==> child.size(x_axis) <= level && (child.sizing(
                x_axis,
            )->Grow_0.max_size <= 0 || child.sizing(x_axis)->Grow_0.max_size > level)
        } by {
            lemma_grow_edge(tree, x_axis, parent, slot);
            let child = child_at(tree, parent, slot);
            assert(0 <= child < parent);
            assert(tree[child].declared() == resolved[child].declared());
            assert(child_at(resolved, parent, slot) == child);
        }
    }
    lemma_even_level(resolved, parent, x_axis, room);
    assert forall|slot: int|
        0 <= slot < tree[parent].children.len() && tree[#[trigger] child_at(
            tree,
            parent,
            slot,
        )].sizing(x_axis) is Grow implies grown[child_at(tree, parent, slot)].size(x_axis)
        == level by {
        lemma_grow_edge(tree, x_axis, parent, slot);
        let child = child_at(tree, parent, slot);
        assert(0 <= child < parent);
        assert(tree[child].declared() == resolved[child].declared());
        assert(child_at(resolved, parent, slot) == child);
    }
}

/// The sums over the children of a box depend only on the sizes and the
/// descriptors of the children.
pub proof fn lemma_grow_sums_agree(
    a: Seq<ElementView>,
    b: Seq<ElementView>,
    parent: int,
    x_axis: bool,
    upto: int,
)
    requires
        0 <= upto <= a[parent].children.len(),
        a[parent].children == b[parent].children,
        forall|slot: int|
            0 <= slot < upto ==> {
                &&& a[#[trigger] child_at(a, parent, slot)].size(x_axis) == b[child_at(
                    a,
                    parent,
                    slot,
                )].size(x_axis)
                &&& a[child_at(a, parent, slot)].sizing(x_axis) == b[child_at(
                    a,
                    parent,
                    slot,
                )].sizing(x_axis)
            },
    ensures
        settled_total(a, parent, x_axis, upto) == settled_total(b, parent, x_axis, upto),
        growing_total(a, parent, x_axis, upto) == growing_total(b, parent, x_axis, upto),
        growing_count(a, parent, x_axis, upto) == growing_count(b, parent, x_axis, upto),
    decreases upto,
{
    if upto > 0 {
        lemma_grow_sums_agree(a, b, parent, x_axis, upto - 1);
        assert(child_at(a, parent, upto - 1) == child_at(b, parent, upto - 1));
    }
}

/// The number of growers among the children of a box depends only on the
/// descriptors of the children.
pub proof fn lemma_growing_count_agrees(
    a: Seq<ElementView>,
    b: Seq<ElementView>,
    parent: int,
    x_axis: bool,
    upto: int,
)
    requires
        0 <= upto <= a[parent].children.len(),
        a[parent].children == b[parent].children,
        forall|slot: int|
            0 <= slot < upto ==> a[#[trigger] child_at(a, parent, slot)].sizing(x_axis)
                == b[child_at(a, parent, slot)].sizing(x_axis),
    ensures
        growing_count(a, parent, x_axis, upto) == growing_count(b, parent, x_axis, upto),
    decreases upto,
{
    if upto > 0 {
        lemma_growing_count_agrees(a, b, parent, x_axis, upto - 1);
        assert(child_at(a, parent, upto - 1) == child_at(b, parent, upto - 1));
    }
}

} // verus!
