//! The layout context and its tree builder.
//!
//! A frame is declared between `begin_layout` and `end_layout`. Boxes are
//! opened and closed like brackets; a box that is closed, and a text leaf
//! that is added, goes to the end of the post-order list and into the child
//! list of the box that is open around it.

use crate::data_type::{
    AlignmentConfig, Color, DimensionConfig, Dimensions, ElementConfig, FixedDimensionConfig,
    HorizontalAlignment, LayoutDirection, PaddingConfig, Position, TextConfig, TextMeasurement,
    VerticalAlignment,
};
use crate::element::{
    all_fresh, child_at, lemma_tree_view_push, nested, post_ordered, siblings_ordered, tree_view,
    Element, ElementView, InternalTextConfig, KindView, TextLine, TextView, TypeConfig,
};
use crate::measure::{cache_kept, cached, get_measurement, is_cached, key_of, TextMeasurer};
use std::collections::VecDeque;
use std::rc::Rc;
use vstd::hash_map::StringHashMap;
use vstd::prelude::*;

verus! {

/// The state of one layout context.
pub struct LayoutContext<M: TextMeasurer> {
    /// The boxes that are open, the implicit root first.
    pub element_stack: VecDeque<Element>,
    /// The id that the next node gets.
    pub top_id: u64,
    /// The size of the viewport.
    pub root_dimensions: Dimensions,
    /// The nodes that are finished, every node after its descendants.
    pub element_tree_post_order: Vec<Element>,
    /// The host's text measurement, once it is installed.
    pub measure_text_fn: Option<M>,
    /// What the host has measured so far.
    pub measure_text_cache: StringHashMap<TextMeasurement>,
    /// For every finished node, the place where it hangs.
    pub links: Ghost<Seq<Link>>,
}

/// The place where a finished node hangs: in a slot of a box that is still
/// open, or in a slot of a finished box.
pub enum Link {
    Open { level: int, slot: int },
    Closed { parent: int, slot: int },
}

/// Every child of a finished node and of an open box is recorded with the
/// place where it hangs.
pub open spec fn linked(context: ContextView, links: Seq<Link>) -> bool {
    &&& links.len() == context.tree.len()
    &&& forall|parent: int, slot: int|
        0 <= parent < context.tree.len() && 0 <= slot < context.tree[parent].children.len()
            ==> links[#[trigger] child_at(context.tree, parent, slot)] == (Link::Closed {
            parent,
            slot,
        })
    &&& forall|level: int, slot: int|
        0 <= level < context.open.len() && 0 <= slot < context.open[level].children.len()
            ==> links[#[trigger] child_at(context.open, level, slot)] == (Link::Open {
            level,
            slot,
        })
}

/// A layout context as a value.
pub struct ContextView {
    pub open: Seq<ElementView>,
    pub tree: Seq<ElementView>,
    pub top_id: u64,
    pub root_dimensions: Dimensions,
    pub has_measurer: bool,
    pub cache: Map<Seq<char>, TextMeasurement>,
}

impl<M: TextMeasurer> View for LayoutContext<M> {
    type V = ContextView;

    open spec fn view(&self) -> ContextView {
        ContextView {
            open: tree_view(self.element_stack@),
            tree: tree_view(self.element_tree_post_order@),
            top_id: self.top_id,
            root_dimensions: self.root_dimensions,
            has_measurer: self.measure_text_fn is Some,
            cache: self.measure_text_cache@,
        }
    }
}

/// A box as it is opened: nothing resolved, no children.
pub open spec fn opened_box(id: u64, config: ElementConfig) -> ElementView {
    ElementView {
        id,
        dimensions: Dimensions { width: 0, height: 0 },
        position: Position { x: 0, y: 0 },
        children: Seq::<usize>::empty(),
        kind: KindView::Rectangle(config),
        mark: false,
    }
}

/// The configuration of the implicit root: fixed to the viewport, otherwise
/// the default.
pub open spec fn root_config(viewport: Dimensions) -> ElementConfig {
    ElementConfig {
        width: DimensionConfig::Fixed(FixedDimensionConfig { size: viewport.width }),
        height: DimensionConfig::Fixed(FixedDimensionConfig { size: viewport.height }),
        ..ElementConfig::default_spec()
    }
}

/// A text leaf as it is added, `width` wide.
pub open spec fn added_text(id: u64, text: Seq<char>, config: TextConfig, width: i32) -> ElementView {
    ElementView {
        id,
        dimensions: Dimensions { width, height: 0 },
        position: Position { x: 0, y: 0 },
        children: Seq::<usize>::empty(),
        kind: KindView::Text(
            TextView {
                width: config.width,
                height: config.height,
                font_id: config.font_id,
                break_word: config.break_word,
                text,
                font_size: config.font_size,
                font_color: config.font_color,
                lines: Seq::<TextLine>::empty(),
            },
        ),
        mark: false,
    }
}

impl ContextView {
    /// The builder's invariant: the finished nodes are in post-order and as
    /// the builder leaves them, the open nodes are boxes of which the first
    /// is the implicit root, every child that an open box has collected is a
    /// finished node, and children are listed in rising order.
    pub open spec fn wf(self) -> bool {
        &&& post_ordered(self.tree)
        &&& siblings_ordered(self.tree)
        &&& siblings_ordered(self.open)
        &&& all_fresh(self.tree)
        &&& self.open.len() > 0 ==> self.open[0].kind == KindView::Rectangle(
            root_config(self.root_dimensions),
        )
        &&& forall|level: int|
            0 <= level < self.open.len() ==> {
                &&& (#[trigger] self.open[level]).kind is Rectangle
                &&& !self.open[level].mark
                &&& self.open[level].position == Position { x: 0, y: 0 }
            }
        &&& forall|level: int, slot: int|
            0 <= level < self.open.len() && 0 <= slot < self.open[level].children.len() ==> (
            #[trigger] child_at(self.open, level, slot)) < self.tree.len()
    }

    /// The frame is bracketed so far: the finished subtrees are nested, no
    /// node that an open box has collected stands inside a finished subtree
    /// below its top, and what an outer box has collected stands before what
    /// a box inside it has collected.
    pub open spec fn nests(self) -> bool {
        &&& nested(self.tree)
        &&& forall|parent: int, slot: int, level: int, place: int|
            0 <= parent < self.tree.len() && 0 <= slot < self.tree[parent].children.len() && 0
                <= level < self.open.len() && 0 <= place < self.open[level].children.len() ==> !(
            #[trigger] child_at(self.tree, parent, slot) < #[trigger] child_at(
                self.open,
                level,
                place,
            ) && child_at(self.open, level, place) < parent)
        &&& forall|lower: int, place: int, upper: int, spot: int|
            0 <= lower < upper < self.open.len() && 0 <= place < self.open[lower].children.len()
                && 0 <= spot < self.open[upper].children.len() ==> #[trigger] child_at(
                self.open,
                lower,
                place,
            ) < #[trigger] child_at(self.open, upper, spot)
    }

    /// The node may end the post-order list: none of its children stands
    /// inside a finished subtree below its top, and all of them stand behind
    /// what the open boxes have collected.
    pub open spec fn takes(self, node: ElementView) -> bool {
        &&& forall|parent: int, slot: int, k: int|
            0 <= parent < self.tree.len() && 0 <= slot < self.tree[parent].children.len() && 0
                <= k < node.children.len() ==> !(#[trigger] child_at(self.tree, parent, slot)
                < #[trigger] node.children[k] && node.children[k] < parent)
        &&& forall|level: int, place: int, k: int|
            0 <= level < self.open.len() && 0 <= place < self.open[level].children.len() && 0
                <= k < node.children.len() ==> #[trigger] child_at(self.open, level, place)
                < #[trigger] node.children[k]
    }

    /// The context at the start of a frame: only the implicit root is open.
    pub open spec fn begun(self) -> ContextView {
        ContextView {
            open: seq![opened_box(0, root_config(self.root_dimensions))],
            tree: Seq::<ElementView>::empty(),
            top_id: 1,
            ..self
        }
    }

    /// The context after a box was opened.
    pub open spec fn opened(self, config: ElementConfig) -> ContextView {
        ContextView {
            open: self.open.push(opened_box(self.top_id, config)),
            top_id: (self.top_id + 1) as u64,
            ..self
        }
    }

    /// The context after a finished node was handed to the innermost open
    /// box: the node ends the post-order list and the box's child list.
    pub open spec fn attached(self, node: ElementView) -> ContextView {
        let parent = self.open.last();
        ContextView {
            open: self.open.drop_last().push(
                ElementView { children: parent.children.push(self.tree.len() as usize), ..parent },
            ),
            tree: self.tree.push(node),
            ..self
        }
    }

    /// The context after the innermost open box was closed. The box starts
    /// out with the sizes that its descriptors give by themselves.
    pub open spec fn closed(self) -> ContextView {
        let current = self.open.last();
        let outer = ContextView { open: self.open.drop_last(), ..self };
        outer.attached(
            ElementView {
                dimensions: Dimensions {
                    width: current.sizing(true).initial_size(),
                    height: current.sizing(false).initial_size(),
                },
                ..current
            },
        )
    }

    /// The width that a text leaf starts out with: its fixed width, or, where
    /// it grows, the width of the whole text on one line as the cache holds
    /// it. Without a measurer a growing text starts out empty.
    pub open spec fn text_seed(self, text: Seq<char>, config: TextConfig) -> i32 {
        match config.width {
            DimensionConfig::Fixed(fixed) => fixed.size,
            DimensionConfig::Grow(_) => if self.has_measurer {
                cached(self.cache, text, config.font_id, config.font_size).width
            } else {
                0
            },
            _ => 0,
        }
    }
}

/// Handing a node to the innermost open box keeps the frame bracketed.
pub proof fn lemma_attached_nests(before: ContextView, node: ElementView)
    requires
        before.wf(),
        before.nests(),
        before.open.len() >= 1,
        before.tree.len() <= usize::MAX,
        before.takes(node),
        forall|k: int|
            0 <= k < node.children.len() ==> (#[trigger] node.children[k]) < before.tree.len(),
    ensures
        before.attached(node).nests(),
{
    let after = before.attached(node);
    let index = before.tree.len() as int;
    let last = before.open.len() - 1;
    let taken = before.open[last].children.len() as int;
    assert forall|parent: int, slot: int|
        0 <= parent < after.tree.len() && 0 <= slot < after.tree[parent].children.len()
        implies #[trigger] child_at(after.tree, parent, slot) == (if parent < index {
        child_at(before.tree, parent, slot)
    } else {
        node.children[slot] as int
    }) by {}
    assert forall|level: int, place: int|
        0 <= level < after.open.len() && 0 <= place < after.open[level].children.len()
        implies #[trigger] child_at(after.open, level, place) == (if level < last || place
        < taken {
        child_at(before.open, level, place)
    } else {
        index
    }) by {}
    assert(nested(after.tree)) by {
        assert forall|outer: int, slot: int, inner: int, place: int|
            0 <= outer < after.tree.len() && 0 <= slot < after.tree[outer].children.len() && 0
                <= inner < after.tree.len() && 0 <= place < after.tree[inner].children.len()
                && #[trigger] child_at(after.tree, outer, slot) < #[trigger] child_at(
                after.tree,
                inner,
                place,
            ) < outer implies inner <= outer by {
            if outer < index && inner < index {
                assert(child_at(before.tree, outer, slot) < child_at(before.tree, inner, place));
            } else if outer < index {
                assert(child_at(before.tree, outer, slot) < node.children[place]);
            }
        }
    }
    assert forall|parent: int, slot: int, level: int, place: int|
        0 <= parent < after.tree.len() && 0 <= slot < after.tree[parent].children.len() && 0
            <= level < after.open.len() && 0 <= place < after.open[level].children.len()
        implies !(#[trigger] child_at(after.tree, parent, slot) < #[trigger] child_at(
        after.open,
        level,
        place,
    ) && child_at(after.open, level, place) < parent) by {
        if level < last || place < taken {
            if parent < index {
                assert(!(child_at(before.tree, parent, slot) < child_at(
                    before.open,
                    level,
                    place,
                ) && child_at(before.open, level, place) < parent));
            } else {
                assert(child_at(before.open, level, place) < node.children[slot]);
            }
        }
    }
    assert forall|lower: int, place: int, upper: int, spot: int|
        0 <= lower < upper < after.open.len() && 0 <= place < after.open[lower].children.len()
            && 0 <= spot < after.open[upper].children.len() implies #[trigger] child_at(
        after.open,
        lower,
        place,
    ) < #[trigger] child_at(after.open, upper, spot) by {
        if upper < last || spot < taken {
            assert(child_at(before.open, lower, place) < child_at(before.open, upper, spot));
        } else {
            assert(child_at(before.open, lower, place) < before.tree.len());
        }
    }
}

/// Taking the innermost open box off keeps the frame bracketed, and the box
/// may then end the post-order list.
pub proof fn lemma_popped_nests(before: ContextView, node: ElementView)
    requires
        before.nests(),
        before.open.len() >= 1,
        node.children == before.open.last().children,
    ensures
        (ContextView { open: before.open.drop_last(), ..before }).nests(),
        (ContextView { open: before.open.drop_last(), ..before }).takes(node),
{
    let outer = ContextView { open: before.open.drop_last(), ..before };
    let last = before.open.len() - 1;
    assert forall|level: int, place: int|
        0 <= level < outer.open.len() && 0 <= place < outer.open[level].children.len()
        implies #[trigger] child_at(outer.open, level, place) == child_at(
        before.open,
        level,
        place,
    ) by {}
    assert forall|parent: int, slot: int, level: int, place: int|
        0 <= parent < outer.tree.len() && 0 <= slot < outer.tree[parent].children.len() && 0
            <= level < outer.open.len() && 0 <= place < outer.open[level].children.len()
        implies !(#[trigger] child_at(outer.tree, parent, slot) < #[trigger] child_at(
        outer.open,
        level,
        place,
    ) && child_at(outer.open, level, place) < parent) by {
        assert(!(child_at(before.tree, parent, slot) < child_at(before.open, level, place)
            && child_at(before.open, level, place) < parent));
    }
    assert forall|lower: int, place: int, upper: int, spot: int|
        0 <= lower < upper < outer.open.len() && 0 <= place < outer.open[lower].children.len()
            && 0 <= spot < outer.open[upper].children.len() implies #[trigger] child_at(
        outer.open,
        lower,
        place,
    ) < #[trigger] child_at(outer.open, upper, spot) by {
        assert(child_at(before.open, lower, place) < child_at(before.open, upper, spot));
    }
    assert forall|parent: int, slot: int, k: int|
        0 <= parent < outer.tree.len() && 0 <= slot < outer.tree[parent].children.len() && 0
            <= k < node.children.len() implies !(#[trigger] child_at(outer.tree, parent, slot)
        < #[trigger] node.children[k] && node.children[k] < parent) by {
        assert(node.children[k] == child_at(before.open, last, k));
        assert(!(child_at(before.tree, parent, slot) < child_at(before.open, last, k)
            && child_at(before.open, last, k) < parent));
    }
    assert forall|level: int, place: int, k: int|
        0 <= level < outer.open.len() && 0 <= place < outer.open[level].children.len() && 0
            <= k < node.children.len() implies #[trigger] child_at(outer.open, level, place)
        < #[trigger] node.children[k] by {
        assert(node.children[k] == child_at(before.open, last, k));
        assert(child_at(before.open, level, place) < child_at(before.open, last, k));
    }
}

/// Opening a box keeps the frame bracketed.
pub proof fn lemma_opened_nests(before: ContextView, config: ElementConfig)
    requires
        before.nests(),
    ensures
        before.opened(config).nests(),
{
    let after = before.opened(config);
    assert forall|level: int, place: int|
        0 <= level < after.open.len() && 0 <= place < after.open[level].children.len()
        implies level < before.open.len() && #[trigger] child_at(after.open, level, place)
        == child_at(before.open, level, place) by {}
    assert forall|parent: int, slot: int, level: int, place: int|
        0 <= parent < after.tree.len() && 0 <= slot < after.tree[parent].children.len() && 0
            <= level < after.open.len() && 0 <= place < after.open[level].children.len()
        implies !(#[trigger] child_at(after.tree, parent, slot) < #[trigger] child_at(
        after.open,
        level,
        place,
    ) && child_at(after.open, level, place) < parent) by {
        assert(!(child_at(before.tree, parent, slot) < child_at(before.open, level, place)
            && child_at(before.open, level, place) < parent));
    }
    assert forall|lower: int, place: int, upper: int, spot: int|
        0 <= lower < upper < after.open.len() && 0 <= place < after.open[lower].children.len()
            && 0 <= spot < after.open[upper].children.len() implies #[trigger] child_at(
        after.open,
        lower,
        place,
    ) < #[trigger] child_at(after.open, upper, spot) by {
        assert(child_at(before.open, lower, place) < child_at(before.open, upper, spot));
    }
}

impl<M: TextMeasurer> LayoutContext<M> {
    /// The builder's invariant, with the record of where each finished node
    /// hangs.
    pub open spec fn wf(&self) -> bool {
        &&& self@.wf()
        &&& self@.nests()
        &&& linked(self@, self.links@)
    }

    /// An empty context for a viewport of the given size. No frame is begun
    /// and no measurer is installed.
    pub fn create_context(width: i32, height: i32) -> (context: LayoutContext<M>)
        ensures
            context@ == (ContextView {
                open: Seq::<ElementView>::empty(),
                tree: Seq::<ElementView>::empty(),
                top_id: 0,
                root_dimensions: Dimensions { width, height },
                has_measurer: false,
                cache: Map::<Seq<char>, TextMeasurement>::empty(),
            }),
            context.wf(),
    {
        let context = LayoutContext {
            root_dimensions: Dimensions { width, height },
            element_stack: VecDeque::new(),
            top_id: 0,
            element_tree_post_order: Vec::new(),
            measure_text_fn: None,
            measure_text_cache: StringHashMap::new(),
            links: Ghost(Seq::empty()),
        };
        assert(context@.open =~= Seq::<ElementView>::empty());
        assert(context@.tree =~= Seq::<ElementView>::empty());
        context
    }

    /// Installs the host's text measurement.
    pub fn set_measurement_fn(&mut self, function: M)
        ensures
            final(self)@ == (ContextView { has_measurer: true, ..old(self)@ }),
            final(self).measure_text_fn == Some(function),
            old(self).wf() ==> final(self).wf(),
    {
        self.measure_text_fn = Some(function);
    }

    /// Starts a frame: whatever was declared before is dropped, and the
    /// implicit root is opened. The cache is kept.
    pub fn begin_layout(&mut self)
        ensures
            final(self)@ == old(self)@.begun(),
            final(self).wf(),
            final(self).measure_text_fn == old(self).measure_text_fn,
    {
        self.links = Ghost(Seq::empty());
        self.element_stack.clear();
        self.element_tree_post_order.clear();
        self.top_id = 1;
        let root_config = ElementConfig {
            width: DimensionConfig::fixed(self.root_dimensions.width),
            height: DimensionConfig::fixed(self.root_dimensions.height),
            padding: PaddingConfig { left: 0, right: 0, top: 0, bottom: 0 },
            child_gap: 0,
            child_alignment: AlignmentConfig {
                align_x: HorizontalAlignment::Left,
                align_y: VerticalAlignment::Top,
            },
            child_layout_direction: LayoutDirection::LeftToRight,
            color: Color { r: 249, g: 4, b: 225, a: 255 },
        };
        self.element_stack.push_back(Element::new(0, TypeConfig::Rectangle(Rc::new(root_config))));
        assert(self@.open =~= old(self)@.begun().open);
        assert(self@.tree =~= old(self)@.begun().tree);
    }

    /// Opens a box inside the innermost open box.
    pub fn open_element(&mut self, element_config: Rc<ElementConfig>)
        requires
            old(self).wf(),
            old(self)@.open.len() >= 1,
            old(self).top_id < u64::MAX,
        ensures
            final(self)@ == old(self)@.opened(*element_config),
            final(self).wf(),
            final(self).measure_text_fn == old(self).measure_text_fn,
    {
        let ghost before = self.element_stack@;
        let element = Element::new(self.top_id, TypeConfig::Rectangle(element_config));
        self.element_stack.push_back(element);
        self.top_id = self.top_id + 1;
        proof {
            lemma_tree_view_push(before, element);
            lemma_opened_nests(old(self)@, *element_config);
            let after = self@;
            assert forall|level: int, slot: int|
                0 <= level < after.open.len() && 0 <= slot < after.open[level].children.len()
                implies #[trigger] child_at(after.open, level, slot) == child_at(
                old(self)@.open,
                level,
                slot,
            ) by {}
            assert(siblings_ordered(after.open)) by {
                assert forall|parent: int, first: int, second: int|
                    0 <= parent < after.open.len() && 0 <= first < second
                        < after.open[parent].children.len() implies #[trigger] child_at(
                    after.open,
                    parent,
                    first,
                ) < #[trigger] child_at(after.open, parent, second) by {
                    assert(child_at(old(self)@.open, parent, first) < child_at(
                        old(self)@.open,
                        parent,
                        second,
                    ));
                }
            }
        }
    }

    /// Hands a finished node to the innermost open box. The children of the
    /// node must already be recorded as hanging under it.
    fn attach(&mut self, node: Element)
        requires
            old(self).wf(),
            old(self)@.open.len() >= 1,
            old(self)@.takes(node@),
            node@.is_fresh(),
            forall|slot: int|
                0 <= slot < node@.children.len() ==> {
                    &&& (#[trigger] node@.children[slot]) < old(self).element_tree_post_order.len()
                    &&& old(self).links@[node@.children[slot] as int] == (Link::Closed {
                        parent: old(self).element_tree_post_order.len() as int,
                        slot,
                    })
                },
            forall|first: int, second: int|
                0 <= first < second < node@.children.len() ==> node@.children[first]
                    < node@.children[second],
        ensures
            final(self)@ == old(self)@.attached(node@),
            final(self).wf(),
            final(self).measure_text_fn == old(self).measure_text_fn,
    {
        let ghost before = self@;
        let ghost links_before = self.links@;
        let ghost nodes_before = self.element_tree_post_order@;
        let index = self.element_tree_post_order.len();
        self.element_tree_post_order.push(node);
        let ghost last = self.element_stack.len() - 1;
        let ghost slot_taken = self.element_stack@[last as int].child_elements.len() as int;
        if let Some(mut parent_element) = self.element_stack.pop_back() {
            parent_element.child_elements.push(index);
            self.element_stack.push_back(parent_element);
        }
        self.links = Ghost(links_before.push(Link::Open { level: last as int, slot: slot_taken }));
        proof {
            lemma_tree_view_push(nodes_before, node);
            let after = self@;
            let links = self.links@;
            assert(after.open =~= before.attached(node@).open);
            lemma_attached_nests(before, node@);
            assert forall|parent: int, slot: int|
                0 <= parent < before.tree.len() && 0 <= slot < after.tree[parent].children.len()
                implies #[trigger] child_at(after.tree, parent, slot) == child_at(
                before.tree,
                parent,
                slot,
            ) by {}
            assert forall|slot: int| 0 <= slot < node@.children.len() implies #[trigger] child_at(
                after.tree,
                index as int,
                slot,
            ) == node@.children[slot] by {}
            assert forall|level: int, slot: int|
                0 <= level < after.open.len() && 0 <= slot < after.open[level].children.len() && (
                level < last || slot < slot_taken) implies #[trigger] child_at(
                after.open,
                level,
                slot,
            ) == child_at(before.open, level, slot) by {}
            assert(child_at(after.open, last as int, slot_taken) == index);
            assert(post_ordered(after.tree));
            assert(siblings_ordered(after.tree)) by {
                assert forall|parent: int, first: int, second: int|
                    0 <= parent < after.tree.len() && 0 <= first < second
                        < after.tree[parent].children.len() implies #[trigger] child_at(
                    after.tree,
                    parent,
                    first,
                ) < #[trigger] child_at(after.tree, parent, second) by {
                    if parent < before.tree.len() {
                        assert(child_at(before.tree, parent, first) < child_at(
                            before.tree,
                            parent,
                            second,
                        ));
                    }
                }
            }
            assert(siblings_ordered(after.open)) by {
                assert forall|parent: int, first: int, second: int|
                    0 <= parent < after.open.len() && 0 <= first < second
                        < after.open[parent].children.len() implies #[trigger] child_at(
                    after.open,
                    parent,
                    first,
                ) < #[trigger] child_at(after.open, parent, second) by {
                    if parent < last || second < slot_taken {
                        assert(child_at(before.open, parent, first) < child_at(
                            before.open,
                            parent,
                            second,
                        ));
                    } else {
                        assert(child_at(before.open, parent, first) < before.tree.len());
                    }
                }
            }
            assert(linked(after, links)) by {
                assert forall|parent: int, slot: int|
                    0 <= parent < after.tree.len() && 0 <= slot
                        < after.tree[parent].children.len() implies links[#[trigger] child_at(
                    after.tree,
                    parent,
                    slot,
                )] == (Link::Closed { parent, slot }) by {
                    if parent < before.tree.len() {
                        assert(links_before[child_at(before.tree, parent, slot)] == (Link::Closed {
                            parent,
                            slot,
                        }));
                    }
                }
                assert forall|level: int, slot: int|
                    0 <= level < after.open.len() && 0 <= slot
                        < after.open[level].children.len() implies links[#[trigger] child_at(
                    after.open,
                    level,
                    slot,
                )] == (Link::Open { level, slot }) by {
                    if level < last || slot < slot_taken {
                        assert(links_before[child_at(before.open, level, slot)] == (Link::Open {
                            level,
                            slot,
                        }));
                    }
                }
            }
        }
    }

    /// Closes the innermost open box.
    pub fn close_element(&mut self)
        requires
            old(self).wf(),
            old(self)@.open.len() >= 2,
        ensures
            final(self)@ == old(self)@.closed(),
            final(self).wf(),
            final(self).measure_text_fn == old(self).measure_text_fn,
    {
        let ghost before = self@;
        let ghost links_before = self.links@;
        let ghost level_closed = self.element_stack.len() - 1;
        let ghost index = self.element_tree_post_order.len() as int;
        if let Some(mut current_element) = self.element_stack.pop_back() {
            assert(current_element@ == before.open.last());
            assert(self@.open =~= before.open.drop_last());
            current_element.dimensions.width = initial_size(current_element.sizing(true));
            current_element.dimensions.height = initial_size(current_element.sizing(false));
            self.links = Ghost(
                Seq::new(
                    links_before.len(),
                    |i: int|
                        match links_before[i] {
                            Link::Open { level, slot } => if level == level_closed {
                                Link::Closed { parent: index, slot }
                            } else {
                                links_before[i]
                            },
                            Link::Closed { .. } => links_before[i],
                        },
                ),
            );
            proof {
                let outer = self@;
                let links = self.links@;
                lemma_popped_nests(before, current_element@);
                assert forall|level: int, slot: int|
                    0 <= level < outer.open.len() && 0 <= slot < outer.open[level].children.len()
                    implies #[trigger] child_at(outer.open, level, slot) == child_at(
                    before.open,
                    level,
                    slot,
                ) by {}
                assert(siblings_ordered(outer.open)) by {
                    assert forall|parent: int, first: int, second: int|
                        0 <= parent < outer.open.len() && 0 <= first < second
                            < outer.open[parent].children.len() implies #[trigger] child_at(
                        outer.open,
                        parent,
                        first,
                    ) < #[trigger] child_at(outer.open, parent, second) by {
                        assert(child_at(before.open, parent, first) < child_at(
                            before.open,
                            parent,
                            second,
                        ));
                    }
                }
                assert(linked(outer, links)) by {
                    assert forall|parent: int, slot: int|
                        0 <= parent < outer.tree.len() && 0 <= slot
                            < outer.tree[parent].children.len() implies links[#[trigger] child_at(
                        outer.tree,
                        parent,
                        slot,
                    )] == (Link::Closed { parent, slot }) by {
                        assert(links_before[child_at(before.tree, parent, slot)] == (Link::Closed {
                            parent,
                            slot,
                        }));
                    }
                    assert forall|level: int, slot: int|
                        0 <= level < outer.open.len() && 0 <= slot
                            < outer.open[level].children.len() implies links[#[trigger] child_at(
                        outer.open,
                        level,
                        slot,
                    )] == (Link::Open { level, slot }) by {
                        assert(links_before[child_at(before.open, level, slot)] == (Link::Open {
                            level,
                            slot,
                        }));
                    }
                }
                assert forall|slot: int| 0 <= slot < current_element@.children.len() implies {
                    &&& (#[trigger] current_element@.children[slot]) < index
                    &&& links[current_element@.children[slot] as int] == (Link::Closed {
                        parent: index,
                        slot,
                    })
                } by {
                    assert(current_element@.children[slot] == child_at(
                        before.open,
                        level_closed,
                        slot,
                    ));
                }
                assert forall|first: int, second: int|
                    0 <= first < second < current_element@.children.len()
                    implies current_element@.children[first] < current_element@.children[second] by {
                    assert(child_at(before.open, level_closed, first) < child_at(
                        before.open,
                        level_closed,
                        second,
                    ));
                }
            }
            self.attach(current_element);
        }
    }

    /// Adds a box: opens it, lets `inner_layout` declare what is inside, and
    /// closes the box that is then innermost. `inner_layout` may leave boxes
    /// open; the frame is then unbalanced, which shows at its end. It must
    /// leave a box open beside the root, since there has to be one to close.
    pub fn add_element<F: FnOnce(&mut LayoutContext<M>)>(
        &mut self,
        element_config: Rc<ElementConfig>,
        inner_layout: F,
    )
        requires
            old(self).wf(),
            old(self)@.open.len() >= 1,
            old(self).top_id < u64::MAX,
            forall|context: &mut LayoutContext<M>|
                context.wf() && context@ == old(self)@.opened(*element_config)
                    && context.measure_text_fn == old(self).measure_text_fn ==> call_requires(
                    inner_layout,
                    (context,),
                ),
            forall|context: &mut LayoutContext<M>| #[trigger]
                call_ensures(inner_layout, (context,), ()) ==> {
                    &&& final(context).wf()
                    &&& final(context)@.open.len() >= 2
                },
        ensures
            final(self).wf(),
            final(self)@.open.len() >= 1,
            exists|context: &mut LayoutContext<M>|
                context@ == old(self)@.opened(*element_config) && #[trigger] call_ensures(
                    inner_layout,
                    (context,),
                    (),
                ) && final(self)@ == final(context)@.closed(),
    {
        self.open_element(element_config);
        inner_layout(self);
        self.close_element();
    }

    /// Adds a text leaf to the innermost open box. Where the text grows and
    /// a measurer is installed, the width of the whole text on one line is
    /// taken from the cache, which gains it if it did not hold it; otherwise
    /// the cache stays as it is.
    pub fn add_text(&mut self, text: &str, text_config: TextConfig)
        requires
            old(self).wf(),
            old(self)@.open.len() >= 1,
            old(self).top_id < u64::MAX,
        ensures
            cache_kept(old(self)@.cache, final(self)@.cache),
            text_config.width is Grow && old(self)@.has_measurer ==> {
                &&& is_cached(
                    final(self)@.cache,
                    text@,
                    text_config.font_id,
                    text_config.font_size,
                )
                &&& is_cached(old(self)@.cache, text@, text_config.font_id, text_config.font_size)
                    ==> final(self)@.cache == old(self)@.cache
                &&& !is_cached(
                    old(self)@.cache,
                    text@,
                    text_config.font_id,
                    text_config.font_size,
                ) ==> final(self)@.cache == old(self)@.cache.insert(
                    key_of(text@, text_config.font_id, text_config.font_size),
                    cached(
                        final(self)@.cache,
                        text@,
                        text_config.font_id,
                        text_config.font_size,
                    ),
                )
            },
            !(text_config.width is Grow && old(self)@.has_measurer) ==> final(self)@.cache == old(
                self,
            )@.cache,
            final(self)@ == (ContextView {
                top_id: (old(self).top_id + 1) as u64,
                cache: final(self)@.cache,
                ..old(self)@
            }).attached(
                added_text(
                    old(self).top_id,
                    text@,
                    text_config,
                    final(self)@.text_seed(text@, text_config),
                ),
            ),
            final(self).wf(),
            final(self).measure_text_fn == old(self).measure_text_fn,
    {
        let ghost before = self@;
        let element_starting_width: i32 = match text_config.width {
            DimensionConfig::Grow(_) => match &self.measure_text_fn {
                Some(measurer) => get_measurement(
                    &mut self.measure_text_cache,
                    measurer,
                    text,
                    text_config.font_id,
                    text_config.font_size,
                ).width,
                None => 0,
            },
            DimensionConfig::Fixed(fixed_config) => fixed_config.size,
            _ => 0,
        };
        let text_config = InternalTextConfig::new_from(text, text_config);
        let mut current_element = Element::new(self.top_id, TypeConfig::Text(text_config));
        current_element.dimensions.width = element_starting_width;
        self.top_id = self.top_id + 1;
        self.attach(current_element);
    }
}

/// The size that a descriptor gives by itself.
pub fn initial_size(config: DimensionConfig) -> (size: i32)
    ensures
        size == config.initial_size(),
{
    match config {
        DimensionConfig::Fixed(c) => c.size,
        DimensionConfig::Grow(c) => c.min_size,
        DimensionConfig::Fit(_) => 0,
        DimensionConfig::Percent(_) => 0,
    }
}

} // verus!
