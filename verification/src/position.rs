//! Positioning: every box places its children inside itself.
//!
//! The pass walks the tree top-down, so a box has its own position before it
//! places its children. Along the box's direction the children stand in a
//! row that is aligned as a whole; across it every child is aligned by
//! itself.

use crate::data_type::{ElementConfig, HorizontalAlignment, Position, VerticalAlignment};
use crate::descent::{
    children_fold, descend, is_child_of, keeps_declared, lemma_descend_edge, lemma_descend_frame,
    lemma_descend_keeps, lemma_fold_child, lemma_fold_frame, lemma_fold_keeps, local, step_keeps,
    visit_keeps,
};
use crate::element::{
    child_at, lemma_same_shape_post_ordered, lemma_same_shape_well_formed, lemma_tree_view_update,
    post_ordered, same_shape, tree_view, well_formed, Element, ElementView, KindView,
};
use crate::units::{floor_div, sat, saturate};
use vstd::prelude::*;

verus! {

/// Where along one axis a box puts what it holds.
#[derive(Clone, Copy, Debug, PartialEq, Eq)]
pub enum Placement {
    Start,
    Center,
    End,
}

impl ElementConfig {
    /// The alignment of the box's children on one axis.
    pub open spec fn placement(self, x_axis: bool) -> Placement {
        if x_axis {
            match self.child_alignment.align_x {
                HorizontalAlignment::Left => Placement::Start,
                HorizontalAlignment::Center => Placement::Center,
                HorizontalAlignment::Right => Placement::End,
            }
        } else {
            match self.child_alignment.align_y {
                VerticalAlignment::Top => Placement::Start,
                VerticalAlignment::Center => Placement::Center,
                VerticalAlignment::Bottom => Placement::End,
            }
        }
    }

    pub fn placement_on(&self, x_axis: bool) -> (placement: Placement)
        ensures
            placement == self.placement(x_axis),
    {
        if x_axis {
            match self.child_alignment.align_x {
                HorizontalAlignment::Left => Placement::Start,
                HorizontalAlignment::Center => Placement::Center,
                HorizontalAlignment::Right => Placement::End,
            }
        } else {
            match self.child_alignment.align_y {
                VerticalAlignment::Top => Placement::Start,
                VerticalAlignment::Center => Placement::Center,
                VerticalAlignment::Bottom => Placement::End,
            }
        }
    }
}

/// The room that the first `upto` children of `parent` take in a row, each
/// followed by one gap.
pub open spec fn row_extent(
    tree: Seq<ElementView>,
    parent: int,
    x_axis: bool,
    gap: int,
    upto: int,
) -> int
    decreases upto,
{
    if upto <= 0 {
        0
    } else {
        row_extent(tree, parent, x_axis, gap, upto - 1) + tree[child_at(
            tree,
            parent,
            upto - 1,
        )].size(x_axis) + gap
    }
}

/// The coordinate at which something that takes `taken` starts inside a box
/// that starts at `at` and is `size` long, with the given padding.
pub open spec fn aligned(
    at: int,
    size: int,
    taken: int,
    padding_start: int,
    padding_end: int,
    placement: Placement,
) -> int {
    match placement {
        Placement::Start => at + padding_start,
        Placement::Center => at + (size - taken - padding_start - padding_end) / 2,
        Placement::End => at + size - taken - padding_end,
    }
}

/// The coordinate on one axis of the child in slot `slot` of box `parent`.
pub open spec fn child_coordinate(
    tree: Seq<ElementView>,
    parent: int,
    config: ElementConfig,
    x_axis: bool,
    slot: int,
) -> int {
    let node = tree[parent];
    let count = node.children.len() as int;
    let gap = config.child_gap as int;
    if config.runs_along(x_axis) {
        aligned(
            node.coordinate(x_axis) as int,
            node.size(x_axis) as int,
            row_extent(tree, parent, x_axis, gap, count),
            config.padding_start(x_axis) as int,
            config.padding_end(x_axis) as int,
            config.placement(x_axis),
        ) + row_extent(tree, parent, x_axis, gap, slot)
    } else {
        aligned(
            node.coordinate(x_axis) as int,
            node.size(x_axis) as int,
            tree[child_at(tree, parent, slot)].size(x_axis) as int,
            config.padding_start(x_axis) as int,
            config.padding_end(x_axis) as int,
            config.placement(x_axis),
        )
    }
}

/// A child put where its box places the child in slot `slot`.
pub open spec fn place_child(
    child: ElementView,
    tree: Seq<ElementView>,
    parent: int,
    config: ElementConfig,
    slot: int,
) -> ElementView {
    child.with_coordinate(
        true,
        sat(child_coordinate(tree, parent, config, true, slot)),
    ).with_coordinate(false, sat(child_coordinate(tree, parent, config, false, slot)))
}

/// What positioning makes of the children of a box, as a step of a top-down
/// pass.
pub open spec fn position_step(
    tree: Seq<ElementView>,
    parent: int,
    config: ElementConfig,
) -> spec_fn(int, ElementView) -> ElementView {
    |slot: int, child: ElementView| place_child(child, tree, parent, config, slot)
}

/// The tree after the first `upto` children of box `parent` were placed.
pub open spec fn position_children(
    tree: Seq<ElementView>,
    parent: int,
    config: ElementConfig,
    upto: int,
) -> Seq<ElementView> {
    children_fold(tree, parent, position_step(tree, parent, config), upto)
}

/// The tree after the children of node `parent` were placed.
pub open spec fn position_parent(tree: Seq<ElementView>, parent: int) -> Seq<ElementView> {
    match tree[parent].kind {
        KindView::Rectangle(config) => position_children(
            tree,
            parent,
            config,
            tree[parent].children.len() as int,
        ),
        KindView::Text(_) => tree,
    }
}

/// Positioning at one node, as a visit of a top-down pass.
pub open spec fn position_visit() -> spec_fn(Seq<ElementView>, int) -> Seq<ElementView> {
    |tree: Seq<ElementView>, parent: int| position_parent(tree, parent)
}

/// The tree after positioning has visited the nodes from the last down to
/// `from`.
pub open spec fn position_suffix(tree: Seq<ElementView>, from: int) -> Seq<ElementView> {
    descend(tree, position_visit(), from)
}

/// The tree after positioning.
pub open spec fn position_pass(tree: Seq<ElementView>) -> Seq<ElementView> {
    position_suffix(tree, 0)
}

/// The aligned start of something inside a box, computed without overflow.
fn align(
    at: i32,
    size: i32,
    taken: i128,
    padding_start: i32,
    padding_end: i32,
    placement: Placement,
) -> (start: i128)
    requires
        -0x1_0000_0000_0000_0000_0000_0000_0000 <= taken <= 0x1_0000_0000_0000_0000_0000_0000_0000,
    ensures
        start == aligned(
            at as int,
            size as int,
            taken as int,
            padding_start as int,
            padding_end as int,
            placement,
        ),
        -0x2_0000_0000_0000_0000_0000_0000_0000 <= start <= 0x2_0000_0000_0000_0000_0000_0000_0000,
{
    match placement {
        Placement::Start => at as i128 + padding_start as i128,
        Placement::Center => at as i128 + floor_div(
            size as i128 - taken - padding_start as i128 - padding_end as i128,
            2,
        ),
        Placement::End => at as i128 + size as i128 - taken - padding_end as i128,
    }
}

/// The room that the children of a box take in a row, each with one gap.
fn row_span(nodes: &Vec<Element>, parent: usize, x_axis: bool, gap: i32) -> (span: i128)
    requires
        parent < nodes.len(),
        post_ordered(tree_view(nodes@)),
    ensures
        span == row_extent(
            tree_view(nodes@),
            parent as int,
            x_axis,
            gap as int,
            nodes[parent as int].child_elements.len() as int,
        ),
        -0x1_0000_0000 * nodes[parent as int].child_elements.len() <= span <= 0x1_0000_0000
            * nodes[parent as int].child_elements.len(),
{
    let ghost tree = tree_view(nodes@);
    let count = nodes[parent].child_elements.len();
    let mut span: i128 = 0;
    let mut slot: usize = 0;
    while slot < count
        invariant
            parent < nodes.len(),
            tree == tree_view(nodes@),
            post_ordered(tree),
            count == nodes[parent as int].child_elements.len(),
            slot <= count,
            span == row_extent(tree, parent as int, x_axis, gap as int, slot as int),
            -0x1_0000_0000 * slot <= span <= 0x1_0000_0000 * slot,
        decreases count - slot,
    {
        let child = nodes[parent].child_elements[slot];
        assert(child == child_at(tree, parent as int, slot as int));
        span = span + nodes[child].size(x_axis) as i128 + gap as i128;
        slot = slot + 1;
    }
    span
}

/// Places the children of one box.
fn position_box(nodes: &mut Vec<Element>, parent: usize, config: &ElementConfig)
    requires
        parent < old(nodes).len(),
        post_ordered(tree_view(old(nodes)@)),
        tree_view(old(nodes)@)[parent as int].kind == KindView::Rectangle(*config),
    ensures
        tree_view(final(nodes)@) == position_parent(tree_view(old(nodes)@), parent as int),
        same_shape(tree_view(old(nodes)@), tree_view(final(nodes)@)),
{
    let ghost start = tree_view(nodes@);
    let count = nodes[parent].child_elements.len();
    let row_x = config.runs_along_axis(true);
    let gap = config.child_gap;
    let at = nodes[parent].position;
    let size = nodes[parent].dimensions;
    let span = row_span(nodes, parent, row_x, gap);
    let (row_at, row_size) = if row_x {
        (at.x, size.width)
    } else {
        (at.y, size.height)
    };
    let (cross_at, cross_size) = if row_x {
        (at.y, size.height)
    } else {
        (at.x, size.width)
    };
    let row_start = align(
        row_at,
        row_size,
        span,
        config.padding_before(row_x),
        config.padding_after(row_x),
        config.placement_on(row_x),
    );
    let mut offset: i128 = 0;
    let mut slot: usize = 0;
    while slot < count
        invariant
            parent < nodes.len(),
            nodes.len() == start.len(),
            post_ordered(start),
            same_shape(start, tree_view(nodes@)),
            forall|i: int|
                0 <= i < start.len() ==> (#[trigger] tree_view(nodes@)[i]).dimensions
                    == start[i].dimensions,
            start[parent as int].kind == KindView::Rectangle(*config),
            count == start[parent as int].children.len(),
            row_x == config.runs_along(true),
            !row_x == config.runs_along(false),
            gap == config.child_gap,
            row_at == start[parent as int].coordinate(row_x),
            row_size == start[parent as int].size(row_x),
            cross_at == start[parent as int].coordinate(!row_x),
            cross_size == start[parent as int].size(!row_x),
            row_start == aligned(
                row_at as int,
                row_size as int,
                row_extent(start, parent as int, row_x, gap as int, count as int),
                config.padding_start(row_x) as int,
                config.padding_end(row_x) as int,
                config.placement(row_x),
            ),
            -0x2_0000_0000_0000_0000_0000_0000_0000 <= row_start
                <= 0x2_0000_0000_0000_0000_0000_0000_0000,
            slot <= count,
            offset == row_extent(start, parent as int, row_x, gap as int, slot as int),
            -0x1_0000_0000 * slot <= offset <= 0x1_0000_0000 * slot,
            tree_view(nodes@) == position_children(start, parent as int, *config, slot as int),
        decreases count - slot,
    {
        let ghost before = tree_view(nodes@);
        let child = nodes[parent].child_elements[slot];
        assert(child == child_at(start, parent as int, slot as int));
        assert(start[child as int].declared() == before[child as int].declared());
        assert(before[child as int].dimensions == start[child as int].dimensions);
        let row_place = saturate(row_start + offset);
        let cross_place = saturate(
            align(
                cross_at,
                cross_size,
                nodes[child].size(!row_x) as i128,
                config.padding_before(!row_x),
                config.padding_after(!row_x),
                config.placement_on(!row_x),
            ),
        );
        offset = offset + nodes[child].size(row_x) as i128 + gap as i128;
        let ghost old_nodes = nodes@;
        nodes[child].position = if row_x {
            Position { x: row_place, y: cross_place }
        } else {
            Position { x: cross_place, y: row_place }
        };
        proof {
            lemma_tree_view_update(old_nodes, child as int, nodes@[child as int]);
            assert(nodes@ =~= old_nodes.update(child as int, nodes@[child as int]));
            assert(tree_view(nodes@) =~= before.update(
                child as int,
                before[child as int].with_coordinate(
                    true,
                    sat(child_coordinate(start, parent as int, *config, true, slot as int)),
                ).with_coordinate(
                    false,
                    sat(child_coordinate(start, parent as int, *config, false, slot as int)),
                ),
            ));
            assert(same_shape(start, tree_view(nodes@)));
        }
        slot = slot + 1;
    }
}

/// Positioning, top-down over the whole tree.
pub fn position_nodes(nodes: &mut Vec<Element>)
    requires
        post_ordered(tree_view(old(nodes)@)),
    ensures
        tree_view(final(nodes)@) == position_pass(tree_view(old(nodes)@)),
        same_shape(tree_view(old(nodes)@), tree_view(final(nodes)@)),
{
    let ghost start = tree_view(nodes@);
    let count = nodes.len();
    let mut parent: usize = count;
    while parent > 0
        invariant
            nodes.len() == count,
            start.len() == count,
            parent <= count,
            post_ordered(start),
            same_shape(start, tree_view(nodes@)),
            tree_view(nodes@) == position_suffix(start, parent as int),
        decreases parent,
    {
        parent = parent - 1;
        proof {
            lemma_same_shape_post_ordered(start, tree_view(nodes@));
        }
        if let Some(config) = nodes[parent].box_config() {
            position_box(nodes, parent, &config);
        }
    }
}

impl ElementView {
    /// The node without its position.
    pub open spec fn unplaced(self) -> ElementView {
        ElementView { position: Position { x: 0, y: 0 }, ..self }
    }
}

/// Reading a node without its position, as a key of what positioning keeps.
pub open spec fn unplaced_key() -> spec_fn(ElementView) -> ElementView {
    |node: ElementView| node.unplaced()
}

/// Positioning at a node keeps the shape of the tree and changes nothing but
/// the children of the node, and of those nothing but the position.
pub proof fn lemma_position_local()
    ensures
        local(position_visit()),
        visit_keeps(position_visit(), unplaced_key()),
{
    let visit = position_visit();
    let key = unplaced_key();
    assert forall|tree: Seq<ElementView>, parent: int|
        #![trigger visit(tree, parent)]
        post_ordered(tree) && 0 <= parent < tree.len() implies {
        &&& same_shape(tree, visit(tree, parent))
        &&& forall|i: int|
            0 <= i < tree.len() && !is_child_of(tree, parent, i) ==> #[trigger] visit(
                tree,
                parent,
            )[i] == tree[i]
        &&& forall|i: int| 0 <= i < tree.len() ==> key(#[trigger] visit(tree, parent)[i]) == key(tree[i])
    } by {
        match tree[parent].kind {
            KindView::Rectangle(config) => {
                let step = position_step(tree, parent, config);
                assert(keeps_declared(step));
                assert(step_keeps(step, key));
                lemma_fold_frame(tree, parent, step, tree[parent].children.len() as int);
                lemma_fold_keeps(tree, parent, step, key, tree[parent].children.len() as int);
            },
            KindView::Text(_) => {},
        }
    }
}

/// The room that children take in a row depends on their sizes only.
pub proof fn lemma_row_extent_agrees(
    a: Seq<ElementView>,
    b: Seq<ElementView>,
    parent: int,
    x_axis: bool,
    gap: int,
    upto: int,
)
    requires
        post_ordered(a),
        a.len() == b.len(),
        0 <= parent < a.len(),
        0 <= upto <= a[parent].children.len(),
        a[parent].children == b[parent].children,
        forall|i: int| 0 <= i < a.len() ==> (#[trigger] a[i]).dimensions == b[i].dimensions,
    ensures
        row_extent(a, parent, x_axis, gap, upto) == row_extent(b, parent, x_axis, gap, upto),
    decreases upto,
{
    if upto > 0 {
        lemma_row_extent_agrees(a, b, parent, x_axis, gap, upto - 1);
        let child = child_at(a, parent, upto - 1);
        assert(0 <= child < parent);
        assert(a[child].dimensions == b[child].dimensions);
    }
}

/// After positioning every child of a box stands where the box, as it was
/// placed itself, puts the child in its slot.
pub proof fn lemma_position_edge(tree: Seq<ElementView>, parent: int, slot: int)
    requires
        well_formed(tree),
        0 <= parent < tree.len(),
        0 <= slot < tree[parent].children.len(),
        tree[parent].kind is Rectangle,
    ensures
        ({
            let placed = position_pass(tree);
            let child = child_at(tree, parent, slot);
            placed[child] == place_child(
                tree[child],
                placed,
                parent,
                tree[parent].kind->Rectangle_0,
                slot,
            )
        }),
{
    let visit = position_visit();
    let key = unplaced_key();
    let ready = descend(tree, visit, parent + 1);
    let placed = position_pass(tree);
    let config = tree[parent].kind->Rectangle_0;
    let count = tree[parent].children.len() as int;
    let child = child_at(tree, parent, slot);
    lemma_position_local();
    lemma_descend_edge(tree, visit, parent, slot, 0);
    lemma_descend_keeps(tree, visit, key, parent + 1);
    lemma_descend_keeps(tree, visit, key, 0);
    lemma_same_shape_well_formed(tree, ready);
    assert(tree[parent].declared() == ready[parent].declared());
    assert(tree[parent].declared() == placed[parent].declared());
    assert(child_at(ready, parent, slot) == child);
    let step = position_step(ready, parent, config);
    assert(keeps_declared(step));
    lemma_fold_child(ready, parent, step, count, slot);
    assert(visit(ready, parent) == position_parent(ready, parent));
    assert forall|i: int| 0 <= i < tree.len() implies (#[trigger] ready[i]).dimensions
        == placed[i].dimensions by {
        assert(key(ready[i]) == key(tree[i]));
        assert(key(placed[i]) == key(tree[i]));
    }
    assert(0 <= child < parent);
    assert(child_at(placed, parent, slot) == child);
    lemma_row_extent_agrees(ready, placed, parent, true, config.child_gap as int, count);
    lemma_row_extent_agrees(ready, placed, parent, true, config.child_gap as int, slot);
    lemma_row_extent_agrees(ready, placed, parent, false, config.child_gap as int, count);
    lemma_row_extent_agrees(ready, placed, parent, false, config.child_gap as int, slot);
    assert(child_coordinate(ready, parent, config, true, slot) == child_coordinate(
        placed,
        parent,
        config,
        true,
        slot,
    ));
    assert(child_coordinate(ready, parent, config, false, slot) == child_coordinate(
        placed,
        parent,
        config,
        false,
        slot,
    ));
}

/// Positioning a placed tree from node `from` down changes nothing.
proof fn lemma_position_settled(tree: Seq<ElementView>, from: int)
    requires
        well_formed(tree),
        0 <= from <= tree.len(),
    ensures
        position_suffix(position_pass(tree), from) == position_pass(tree),
    decreases tree.len() - from,
{
    let placed = position_pass(tree);
    let visit = position_visit();
    lemma_position_local();
    lemma_descend_frame(tree, visit, 0);
    lemma_same_shape_well_formed(tree, placed);
    if from < tree.len() {
        lemma_position_settled(tree, from + 1);
        assert(tree[from].declared() == placed[from].declared());
        match placed[from].kind {
            KindView::Rectangle(config) => {
                let count = placed[from].children.len() as int;
                let step = position_step(placed, from, config);
                let again = children_fold(placed, from, step, count);
                assert(keeps_declared(step));
                lemma_fold_frame(placed, from, step, count);
                assert forall|i: int| 0 <= i < placed.len() implies #[trigger] again[i]
                    == placed[i] by {
                    if is_child_of(placed, from, i) {
                        let slot = choose|slot: int|
                            0 <= slot < count && #[trigger] child_at(placed, from, slot) == i;
                        lemma_fold_child(placed, from, step, count, slot);
                        assert(child_at(tree, from, slot) == i);
                        lemma_position_edge(tree, from, slot);
                    }
                }
                assert(again =~= placed);
            },
            KindView::Text(_) => {},
        }
    }
}

/// Positioning idempotence: positioning a tree that has been positioned
/// changes nothing.
pub proof fn lemma_positioning_idempotent(tree: Seq<ElementView>)
    requires
        well_formed(tree),
    ensures
        position_pass(position_pass(tree)) == position_pass(tree),
{
    lemma_position_settled(tree, 0);
}

} // verus!
