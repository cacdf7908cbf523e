//! The nodes of a layout tree and their mathematical view.
//!
//! A tree is kept as one list in post-order: every node stands after all of
//! its descendants, and the children of a node are named by their indices in
//! that list, in the order in which they were added.

use crate::data_type::{
    Color, DimensionConfig, Dimensions, ElementConfig, LayoutDirection, Position, TextConfig,
};
use std::rc::Rc;
use vstd::prelude::*;

verus! {

/// One line of a wrapped text node: the characters `start..end` of the node's
/// string, drawn `y` units below the node's top.
#[derive(Clone, Copy, Debug, PartialEq, Eq)]
pub struct TextLine {
    pub start: usize,
    pub end: usize,
    pub y: i32,
}

/// A text leaf's configuration with its string and, once wrapped, its lines.
#[derive(Clone, Debug, PartialEq, Eq)]
pub struct InternalTextConfig {
    pub width: DimensionConfig,
    pub height: DimensionConfig,
    pub font_id: u32,
    pub break_word: bool,
    pub text: String,
    pub font_size: u16,
    pub font_color: Color,
    pub text_lines: Vec<TextLine>,
}

/// What kind of node an element is, with the configuration of that kind.
#[derive(Clone, Debug, PartialEq, Eq)]
pub enum TypeConfig {
    Rectangle(Rc<ElementConfig>),
    Text(InternalTextConfig),
}

/// A node of the layout tree.
#[derive(Clone, Debug, PartialEq, Eq)]
pub struct Element {
    pub id: u64,
    pub dimensions: Dimensions,
    pub position: Position,
    pub child_elements: Vec<usize>,
    pub element_config: TypeConfig,
    /// Set on a percent-sized child whose parent grows, until the parent's
    /// size is known.
    pub grow_on_percent_mark: bool,
}

/// A text leaf as a value: its string is a sequence of characters.
pub struct TextView {
    pub width: DimensionConfig,
    pub height: DimensionConfig,
    pub font_id: u32,
    pub break_word: bool,
    pub text: Seq<char>,
    pub font_size: u16,
    pub font_color: Color,
    pub lines: Seq<TextLine>,
}

pub enum KindView {
    Rectangle(ElementConfig),
    Text(TextView),
}

/// A node as a value.
pub struct ElementView {
    pub id: u64,
    pub dimensions: Dimensions,
    pub position: Position,
    pub children: Seq<usize>,
    pub kind: KindView,
    pub mark: bool,
}

impl View for InternalTextConfig {
    type V = TextView;

    open spec fn view(&self) -> TextView {
        TextView {
            width: self.width,
            height: self.height,
            font_id: self.font_id,
            break_word: self.break_word,
            text: self.text@,
            font_size: self.font_size,
            font_color: self.font_color,
            lines: self.text_lines@,
        }
    }
}

impl View for TypeConfig {
    type V = KindView;

    open spec fn view(&self) -> KindView {
        match self {
            TypeConfig::Rectangle(config) => KindView::Rectangle(**config),
            TypeConfig::Text(text) => KindView::Text(text@),
        }
    }
}

impl View for Element {
    type V = ElementView;

    open spec fn view(&self) -> ElementView {
        ElementView {
            id: self.id,
            dimensions: self.dimensions,
            position: self.position,
            children: self.child_elements@,
            kind: self.element_config@,
            mark: self.grow_on_percent_mark,
        }
    }
}

impl ElementView {
    /// The sizing descriptor of the node on one axis.
    pub open spec fn sizing(self, x_axis: bool) -> DimensionConfig {
        match self.kind {
            KindView::Rectangle(config) => if x_axis {
                config.width
            } else {
                config.height
            },
            KindView::Text(text) => if x_axis {
                text.width
            } else {
                text.height
            },
        }
    }

    /// The resolved size of the node on one axis.
    pub open spec fn size(self, x_axis: bool) -> i32 {
        if x_axis {
            self.dimensions.width
        } else {
            self.dimensions.height
        }
    }

    /// The node with its size on one axis replaced.
    pub open spec fn with_size(self, x_axis: bool, size: i32) -> ElementView {
        if x_axis {
            ElementView {
                dimensions: Dimensions { width: size, height: self.dimensions.height },
                ..self
            }
        } else {
            ElementView {
                dimensions: Dimensions { width: self.dimensions.width, height: size },
                ..self
            }
        }
    }

    /// The resolved coordinate of the node on one axis.
    pub open spec fn coordinate(self, x_axis: bool) -> i32 {
        if x_axis {
            self.position.x
        } else {
            self.position.y
        }
    }

    /// The node with its coordinate on one axis replaced.
    pub open spec fn with_coordinate(self, x_axis: bool, at: i32) -> ElementView {
        if x_axis {
            ElementView { position: Position { x: at, y: self.position.y }, ..self }
        } else {
            ElementView { position: Position { x: self.position.x, y: at }, ..self }
        }
    }

    pub open spec fn with_mark(self, mark: bool) -> ElementView {
        ElementView { mark, ..self }
    }
}

impl ElementConfig {
    /// Whether the box lines its children up along the given axis.
    pub open spec fn runs_along(self, x_axis: bool) -> bool {
        (self.child_layout_direction is LeftToRight) == x_axis
    }

    /// The padding in front of the children on the given axis.
    pub open spec fn padding_start(self, x_axis: bool) -> i32 {
        if x_axis {
            self.padding.left
        } else {
            self.padding.top
        }
    }

    /// The padding behind the children on the given axis.
    pub open spec fn padding_end(self, x_axis: bool) -> i32 {
        if x_axis {
            self.padding.right
        } else {
            self.padding.bottom
        }
    }
}

/// The values of a list of nodes.
pub open spec fn tree_view(nodes: Seq<Element>) -> Seq<ElementView> {
    Seq::new(nodes.len(), |i: int| nodes[i]@)
}

/// The child of node `parent` in slot `slot`.
pub open spec fn child_at(tree: Seq<ElementView>, parent: int, slot: int) -> int {
    tree[parent].children[slot] as int
}

/// Every node stands after all of its children, and only boxes have children.
pub open spec fn post_ordered(tree: Seq<ElementView>) -> bool {
    forall|parent: int, slot: int|
        0 <= parent < tree.len() && 0 <= slot < tree[parent].children.len() ==> 0 <= (
        #[trigger] child_at(tree, parent, slot)) < parent
}

impl ElementView {
    /// Whether the node is as the builder leaves it: at the origin, not
    /// marked, a box with the sizes that its descriptors give by themselves,
    /// a text leaf without height and without lines.
    pub open spec fn is_fresh(self) -> bool {
        &&& !self.mark
        &&& self.position == Position { x: 0, y: 0 }
        &&& match self.kind {
            KindView::Rectangle(config) => self.dimensions == Dimensions {
                width: config.width.initial_size(),
                height: config.height.initial_size(),
            },
            KindView::Text(text) => self.dimensions.height == 0 && text.lines.len() == 0,
        }
    }
}

/// Every node of the tree is as the builder leaves it.
pub open spec fn all_fresh(tree: Seq<ElementView>) -> bool {
    forall|i: int| 0 <= i < tree.len() ==> (#[trigger] tree[i]).is_fresh()
}

impl ElementView {
    /// The node without its size on one axis and without its mark: what the
    /// sizing passes on that axis keep.
    pub open spec fn off_axis(self, x_axis: bool) -> ElementView {
        self.with_size(x_axis, 0).with_mark(false)
    }
}

/// Reading a node without its size on one axis and without its mark.
pub open spec fn off_axis_key(x_axis: bool) -> spec_fn(ElementView) -> ElementView {
    |node: ElementView| node.off_axis(x_axis)
}

/// No node of the tree is marked.
pub open spec fn unmarked(tree: Seq<ElementView>) -> bool {
    forall|i: int| 0 <= i < tree.len() ==> !(#[trigger] tree[i]).mark
}

/// The children of every node are listed in rising order.
pub open spec fn siblings_ordered(tree: Seq<ElementView>) -> bool {
    forall|parent: int, first: int, second: int|
        0 <= parent < tree.len() && 0 <= first < second < tree[parent].children.len()
            ==> #[trigger] child_at(tree, parent, first) < #[trigger] child_at(
            tree,
            parent,
            second,
        )
}

/// No node is a child twice: not of two nodes, and not in two slots of one.
pub open spec fn single_parent(tree: Seq<ElementView>) -> bool {
    forall|one: int, slot: int, other: int, place: int|
        0 <= one < tree.len() && 0 <= slot < tree[one].children.len() && 0 <= other < tree.len()
            && 0 <= place < tree[other].children.len() && #[trigger] child_at(tree, one, slot)
            == #[trigger] child_at(tree, other, place) ==> one == other && slot == place
}

/// The subtrees lie in one another like brackets: no node that stands
/// between a node and one of that node's children is the child of a node
/// further behind. So the descendants of a node stand together, right in
/// front of it.
pub open spec fn nested(tree: Seq<ElementView>) -> bool {
    forall|outer: int, slot: int, inner: int, place: int|
        0 <= outer < tree.len() && 0 <= slot < tree[outer].children.len() && 0 <= inner
            < tree.len() && 0 <= place < tree[inner].children.len() && #[trigger] child_at(
            tree,
            outer,
            slot,
        ) < #[trigger] child_at(tree, inner, place) < outer ==> inner <= outer
}

/// The list is a forest in post-order: every node stands after its
/// children, siblings stand in the order of their slots, and no node has two
/// parents.
pub open spec fn well_formed(tree: Seq<ElementView>) -> bool {
    &&& post_ordered(tree)
    &&& siblings_ordered(tree)
    &&& single_parent(tree)
}

impl ElementView {
    /// What the passes never change in a node: its identity, its children and
    /// its configuration.
    pub open spec fn declared(self) -> ElementView {
        ElementView {
            dimensions: Dimensions { width: 0, height: 0 },
            position: Position { x: 0, y: 0 },
            mark: false,
            kind: match self.kind {
                KindView::Rectangle(config) => KindView::Rectangle(config),
                KindView::Text(text) => KindView::Text(
                    TextView { lines: Seq::<TextLine>::empty(), ..text },
                ),
            },
            ..self
        }
    }
}

/// The two trees have the same nodes with the same children and
/// configuration; only resolved sizes, positions, marks and text lines may
/// differ.
pub open spec fn same_shape(a: Seq<ElementView>, b: Seq<ElementView>) -> bool {
    &&& a.len() == b.len()
    &&& forall|i: int| 0 <= i < a.len() ==> (#[trigger] a[i]).declared() == b[i].declared()
}

pub proof fn lemma_same_shape_post_ordered(a: Seq<ElementView>, b: Seq<ElementView>)
    requires
        same_shape(a, b),
        post_ordered(a),
    ensures
        post_ordered(b),
{
    assert forall|parent: int, slot: int|
        0 <= parent < b.len() && 0 <= slot < b[parent].children.len() implies 0 <= (
    #[trigger] child_at(b, parent, slot)) < parent by {
        assert(a[parent].declared() == b[parent].declared());
        assert(child_at(a, parent, slot) == child_at(b, parent, slot));
    }
}

/// Having the same shape carries over.
pub proof fn lemma_same_shape_chain(
    a: Seq<ElementView>,
    b: Seq<ElementView>,
    c: Seq<ElementView>,
)
    requires
        same_shape(a, b),
        same_shape(b, c),
    ensures
        same_shape(a, c),
        same_shape(b, a),
{
    assert forall|i: int| 0 <= i < a.len() implies (#[trigger] a[i]).declared()
        == c[i].declared() by {
        assert(a[i].declared() == b[i].declared());
        assert(b[i].declared() == c[i].declared());
    }
    assert forall|i: int| 0 <= i < b.len() implies (#[trigger] b[i]).declared()
        == a[i].declared() by {
        assert(a[i].declared() == b[i].declared());
    }
}

/// Trees of the same shape are nested together.
pub proof fn lemma_same_shape_nested(a: Seq<ElementView>, b: Seq<ElementView>)
    requires
        same_shape(a, b),
        nested(a),
    ensures
        nested(b),
{
    assert forall|parent: int| 0 <= parent < b.len() implies (#[trigger] b[parent]).children
        == a[parent].children by {
        assert(a[parent].declared() == b[parent].declared());
    }
    assert forall|outer: int, slot: int, inner: int, place: int|
        0 <= outer < b.len() && 0 <= slot < b[outer].children.len() && 0 <= inner < b.len() && 0
            <= place < b[inner].children.len() && #[trigger] child_at(b, outer, slot)
            < #[trigger] child_at(b, inner, place) < outer implies inner <= outer by {
        assert(child_at(a, outer, slot) == child_at(b, outer, slot));
        assert(child_at(a, inner, place) == child_at(b, inner, place));
    }
}

/// Trees of the same shape are well formed together.
pub proof fn lemma_same_shape_well_formed(a: Seq<ElementView>, b: Seq<ElementView>)
    requires
        same_shape(a, b),
        well_formed(a),
    ensures
        well_formed(b),
{
    lemma_same_shape_post_ordered(a, b);
    assert forall|parent: int, slot: int|
        0 <= parent < b.len() && 0 <= slot < b[parent].children.len() implies #[trigger] child_at(
        b,
        parent,
        slot,
    ) == child_at(a, parent, slot) by {
        assert(a[parent].declared() == b[parent].declared());
    }
    assert forall|parent: int| 0 <= parent < b.len() implies (#[trigger] b[parent]).children.len()
        == a[parent].children.len() by {
        assert(a[parent].declared() == b[parent].declared());
    }
    assert forall|parent: int, first: int, second: int|
        0 <= parent < b.len() && 0 <= first < second < b[parent].children.len()
        implies #[trigger] child_at(b, parent, first) < #[trigger] child_at(b, parent, second) by {
        assert(child_at(a, parent, first) < child_at(a, parent, second));
    }
    assert forall|one: int, slot: int, other: int, place: int|
        0 <= one < b.len() && 0 <= slot < b[one].children.len() && 0 <= other < b.len() && 0
            <= place < b[other].children.len() && #[trigger] child_at(b, one, slot)
            == #[trigger] child_at(b, other, place) implies one == other && slot == place by {
        assert(child_at(a, one, slot) == child_at(a, other, place));
    }
}

pub proof fn lemma_tree_view_update(nodes: Seq<Element>, i: int, e: Element)
    requires
        0 <= i < nodes.len(),
    ensures
        tree_view(nodes.update(i, e)) == tree_view(nodes).update(i, e@),
{
    assert(tree_view(nodes.update(i, e)) =~= tree_view(nodes).update(i, e@));
}

pub proof fn lemma_tree_view_push(nodes: Seq<Element>, e: Element)
    ensures
        tree_view(nodes.push(e)) == tree_view(nodes).push(e@),
{
    assert(tree_view(nodes.push(e)) =~= tree_view(nodes).push(e@));
}

impl Element {
    /// A node with no children, at the origin, of no size.
    pub fn new(id: u64, element_config: TypeConfig) -> (element: Element)
        ensures
            element@ == (ElementView {
                id,
                dimensions: Dimensions { width: 0, height: 0 },
                position: Position { x: 0, y: 0 },
                children: Seq::<usize>::empty(),
                kind: element_config@,
                mark: false,
            }),
            element.element_config == element_config,
    {
        Element {
            dimensions: Dimensions { width: 0, height: 0 },
            id,
            position: Position { x: 0, y: 0 },
            child_elements: Vec::new(),
            element_config,
            grow_on_percent_mark: false,
        }
    }

    /// The configuration of a box, and nothing for a text leaf.
    pub fn box_config(&self) -> (config: Option<ElementConfig>)
        ensures
            config == match self@.kind {
                KindView::Rectangle(c) => Some(c),
                KindView::Text(_) => None,
            },
    {
        match &self.element_config {
            TypeConfig::Rectangle(config) => Some(**config),
            TypeConfig::Text(_) => None,
        }
    }

    /// The sizing descriptor of the node on one axis.
    pub fn sizing(&self, x_axis: bool) -> (config: DimensionConfig)
        ensures
            config == self@.sizing(x_axis),
    {
        match &self.element_config {
            TypeConfig::Rectangle(config) => if x_axis {
                config.width
            } else {
                config.height
            },
            TypeConfig::Text(text) => if x_axis {
                text.width
            } else {
                text.height
            },
        }
    }

    /// The resolved size of the node on one axis.
    pub fn size(&self, x_axis: bool) -> (size: i32)
        ensures
            size == self@.size(x_axis),
    {
        if x_axis {
            self.dimensions.width
        } else {
            self.dimensions.height
        }
    }

    /// Replaces the resolved size of the node on one axis.
    pub fn set_size(&mut self, x_axis: bool, size: i32)
        ensures
            final(self)@ == old(self)@.with_size(x_axis, size),
    {
        if x_axis {
            self.dimensions.width = size;
        } else {
            self.dimensions.height = size;
        }
    }
}

impl ElementConfig {
    /// Whether the box lines its children up along the given axis.
    pub fn runs_along_axis(&self, x_axis: bool) -> (along: bool)
        ensures
            along == self.runs_along(x_axis),
    {
        match self.child_layout_direction {
            LayoutDirection::LeftToRight => x_axis,
            LayoutDirection::TopToBottom => !x_axis,
        }
    }

    /// The padding in front of the children on the given axis.
    pub fn padding_before(&self, x_axis: bool) -> (padding: i32)
        ensures
            padding == self.padding_start(x_axis),
    {
        if x_axis {
            self.padding.left
        } else {
            self.padding.top
        }
    }

    /// The padding behind the children on the given axis.
    pub fn padding_after(&self, x_axis: bool) -> (padding: i32)
        ensures
            padding == self.padding_end(x_axis),
    {
        if x_axis {
            self.padding.right
        } else {
            self.padding.bottom
        }
    }
}

impl InternalTextConfig {
    /// The configuration of a text leaf that has not been wrapped yet.
    pub fn new_from(text: &str, text_config: TextConfig) -> (config: InternalTextConfig)
        ensures
            config@ == (TextView {
                width: text_config.width,
                height: text_config.height,
                font_id: text_config.font_id,
                break_word: text_config.break_word,
                text: text@,
                font_size: text_config.font_size,
                font_color: text_config.font_color,
                lines: Seq::<TextLine>::empty(),
            }),
    {
        InternalTextConfig {
            width: text_config.width,
            height: text_config.height,
            font_id: text_config.font_id,
            break_word: text_config.break_word,
            text: text.to_owned(),
            font_size: text_config.font_size,
            font_color: text_config.font_color,
            text_lines: Vec::new(),
        }
    }
}

} // verus!
