//! The layout solver: eight passes over the post-order list, in a fixed
//! order, and the draw list at the end of a frame.

use crate::context::{ContextView, LayoutContext, Link};
use crate::data_type::{RenderCommand, TextMeasurement};
use crate::element::{
    all_fresh, child_at, lemma_same_shape_post_ordered, lemma_tree_view_push, nested,
    post_ordered, same_shape, siblings_ordered, single_parent, tree_view, well_formed, Element,
    ElementView, TypeConfig,
};
use crate::fit::{fit_nodes, fit_pass};
use crate::grow::{grow_nodes, grow_pass};
use crate::measure::{cache_kept, TextMeasurer};
use crate::percent::{percent_nodes, percent_pass};
use crate::position::{position_nodes, position_pass};
use crate::render::{commands_view, draw_list, emit_commands};
use crate::wrap::{node_cached, wrap_nodes, wrap_pass};
use vstd::prelude::*;

verus! {

/// Why a frame could not be finished.
#[derive(Clone, Copy, Debug, PartialEq, Eq)]
pub enum LayoutError {
    /// The frame holds text, but no text measurement was installed.
    NoMeasurementFunction,
    /// A box is still open, or the root itself was closed.
    UnbalancedTree,
    /// The solver met a state that its own rules exclude. No function of
    /// this library returns it; it is here for hosts that name every kind.
    InvariantViolation,
}

/// Whether a tree holds a text leaf.
pub open spec fn has_text(tree: Seq<ElementView>) -> bool {
    exists|i: int| 0 <= i < tree.len() && (#[trigger] tree[i]).kind is Text
}

/// The sizes of a tree on one axis: fit, then percent, then grow.
pub open spec fn axis_sized(tree: Seq<ElementView>, x_axis: bool) -> Seq<ElementView> {
    grow_pass(percent_pass(fit_pass(tree, x_axis), x_axis), x_axis)
}

/// The tree with its widths resolved and its texts wrapped at those widths.
pub open spec fn wrapped(tree: Seq<ElementView>, cache: Map<Seq<char>, TextMeasurement>) -> Seq<
    ElementView,
> {
    wrap_pass(axis_sized(tree, true), cache)
}

/// The sizes of a tree: the widths, then the wrap of the texts, then the
/// heights.
pub open spec fn sized(tree: Seq<ElementView>, cache: Map<Seq<char>, TextMeasurement>) -> Seq<
    ElementView,
> {
    axis_sized(wrapped(tree, cache), false)
}

/// A tree with all eight passes done.
pub open spec fn solved(tree: Seq<ElementView>, cache: Map<Seq<char>, TextMeasurement>) -> Seq<
    ElementView,
> {
    position_pass(sized(tree, cache))
}

impl ContextView {
    /// The whole tree of a frame in which only the root is open: the finished
    /// nodes and, last, the root with the size of the viewport.
    pub open spec fn full_tree(self) -> Seq<ElementView> {
        self.tree.push(ElementView { dimensions: self.root_dimensions, ..self.open[0] })
    }
}

/// The whole tree of a frame in which only the root is open is a
/// well-formed tree of nested subtrees, of nodes as the builder leaves them.
pub proof fn lemma_full_tree_well_formed<M: TextMeasurer>(context: &LayoutContext<M>)
    requires
        context.wf(),
        context@.open.len() == 1,
    ensures
        well_formed(context@.full_tree()),
        nested(context@.full_tree()),
        all_fresh(context@.full_tree()),
{
    let view = context@;
    let whole = view.full_tree();
    let links = context.links@;
    let last = view.tree.len() as int;
    assert forall|parent: int, slot: int|
        0 <= parent < whole.len() && 0 <= slot < whole[parent].children.len()
        implies #[trigger] child_at(whole, parent, slot) == (if parent < last {
        child_at(view.tree, parent, slot)
    } else {
        child_at(view.open, 0, slot)
    }) by {}
    assert(post_ordered(whole)) by {
        assert forall|parent: int, slot: int|
            0 <= parent < whole.len() && 0 <= slot < whole[parent].children.len() implies 0 <= (
        #[trigger] child_at(whole, parent, slot)) < parent by {
            if parent < last {
                assert(0 <= child_at(view.tree, parent, slot) < parent);
            } else {
                assert(child_at(view.open, 0, slot) < last);
            }
        }
    }
    assert(siblings_ordered(whole)) by {
        assert forall|parent: int, first: int, second: int|
            0 <= parent < whole.len() && 0 <= first < second < whole[parent].children.len()
            implies #[trigger] child_at(whole, parent, first) < #[trigger] child_at(
            whole,
            parent,
            second,
        ) by {
            if parent < last {
                assert(child_at(view.tree, parent, first) < child_at(view.tree, parent, second));
            } else {
                assert(child_at(view.open, 0, first) < child_at(view.open, 0, second));
            }
        }
    }
    assert(single_parent(whole)) by {
        assert forall|one: int, slot: int, other: int, place: int|
            0 <= one < whole.len() && 0 <= slot < whole[one].children.len() && 0 <= other
                < whole.len() && 0 <= place < whole[other].children.len() && #[trigger] child_at(
                whole,
                one,
                slot,
            ) == #[trigger] child_at(whole, other, place) implies one == other && slot == place by {
            if one < last {
                assert(links[child_at(view.tree, one, slot)] == (Link::Closed {
                    parent: one,
                    slot,
                }));
            } else {
                assert(links[child_at(view.open, 0, slot)] == (Link::Open { level: 0, slot }));
            }
            if other < last {
                assert(links[child_at(view.tree, other, place)] == (Link::Closed {
                    parent: other,
                    slot: place,
                }));
            } else {
                assert(links[child_at(view.open, 0, place)] == (Link::Open {
                    level: 0,
                    slot: place,
                }));
            }
        }
    }
    assert(all_fresh(whole)) by {
        assert forall|i: int| 0 <= i < whole.len() implies (#[trigger] whole[i]).is_fresh() by {
            if i < last {
                assert(view.tree[i].is_fresh());
            }
        }
    }
    assert(nested(whole)) by {
        assert forall|outer: int, slot: int, inner: int, place: int|
            0 <= outer < whole.len() && 0 <= slot < whole[outer].children.len() && 0 <= inner
                < whole.len() && 0 <= place < whole[inner].children.len() && #[trigger] child_at(
                whole,
                outer,
                slot,
            ) < #[trigger] child_at(whole, inner, place) < outer implies inner <= outer by {
            if outer < last && inner < last {
                assert(child_at(view.tree, outer, slot) < child_at(view.tree, inner, place));
            } else if outer < last {
                assert(!(child_at(view.tree, outer, slot) < child_at(view.open, 0, place)
                    && child_at(view.open, 0, place) < outer));
            }
        }
    }
}

/// Whether the list holds a text leaf.
fn holds_text(nodes: &Vec<Element>) -> (found: bool)
    ensures
        found == has_text(tree_view(nodes@)),
{
    let mut i: usize = 0;
    while i < nodes.len()
        invariant
            i <= nodes.len(),
            forall|j: int| 0 <= j < i ==> !((#[trigger] tree_view(nodes@)[j]).kind is Text),
        decreases nodes.len() - i,
    {
        match &nodes[i].element_config {
            TypeConfig::Text(_) => {
                assert(tree_view(nodes@)[i as int].kind is Text);
                return true;
            },
            TypeConfig::Rectangle(_) => {},
        }
        i = i + 1;
    }
    false
}

/// Without a text leaf wrapping changes nothing.
proof fn lemma_wrap_without_text(tree: Seq<ElementView>, cache: Map<Seq<char>, TextMeasurement>)
    requires
        !has_text(tree),
    ensures
        wrap_pass(tree, cache) == tree,
{
    assert forall|i: int| 0 <= i < tree.len() implies #[trigger] wrap_pass(tree, cache)[i]
        == tree[i] by {
        assert(!(tree[i].kind is Text));
    }
    assert(wrap_pass(tree, cache) =~= tree);
}

/// Trees of the same shape hold text leaves in the same places.
proof fn lemma_same_shape_text(a: Seq<ElementView>, b: Seq<ElementView>)
    requires
        same_shape(a, b),
    ensures
        has_text(a) == has_text(b),
{
    if has_text(a) {
        let i = choose|i: int| 0 <= i < a.len() && (#[trigger] a[i]).kind is Text;
        assert(a[i].declared() == b[i].declared());
        assert(b[i].kind is Text);
    }
    if has_text(b) {
        let i = choose|i: int| 0 <= i < b.len() && (#[trigger] b[i]).kind is Text;
        assert(a[i].declared() == b[i].declared());
        assert(a[i].kind is Text);
    }
}

impl<M: TextMeasurer> LayoutContext<M> {
    /// Fit sizing on one axis.
    pub fn fit_sizing(&mut self, x_axis: bool)
        requires
            post_ordered(old(self)@.tree),
        ensures
            final(self)@ == (ContextView { tree: fit_pass(old(self)@.tree, x_axis), ..old(self)@ }),
            same_shape(old(self)@.tree, final(self)@.tree),
            final(self).element_stack == old(self).element_stack,
            final(self).measure_text_fn == old(self).measure_text_fn,
    {
        fit_nodes(&mut self.element_tree_post_order, x_axis);
    }

    /// Percent sizing on one axis.
    pub fn percent_sizing(&mut self, x_axis: bool)
        requires
            post_ordered(old(self)@.tree),
        ensures
            final(self)@ == (ContextView {
                tree: percent_pass(old(self)@.tree, x_axis),
                ..old(self)@
            }),
            same_shape(old(self)@.tree, final(self)@.tree),
            final(self).element_stack == old(self).element_stack,
            final(self).measure_text_fn == old(self).measure_text_fn,
    {
        percent_nodes(&mut self.element_tree_post_order, x_axis);
    }

    /// Grow sizing on one axis.
    pub fn grow_sizing(&mut self, x_axis: bool)
        requires
            post_ordered(old(self)@.tree),
        ensures
            final(self)@ == (ContextView { tree: grow_pass(old(self)@.tree, x_axis), ..old(self)@ }),
            same_shape(old(self)@.tree, final(self)@.tree),
            final(self).element_stack == old(self).element_stack,
            final(self).measure_text_fn == old(self).measure_text_fn,
    {
        grow_nodes(&mut self.element_tree_post_order, x_axis);
    }

    /// Text wrapping. Every text is wrapped with the measurements that the
    /// cache holds afterwards; what the cache held before is kept. Without a
    /// measurer nothing is wrapped.
    pub fn wrap_text(&mut self)
        ensures
            cache_kept(old(self)@.cache, final(self)@.cache),
            final(self)@ == (ContextView {
                tree: if old(self)@.has_measurer {
                    wrap_pass(old(self)@.tree, final(self)@.cache)
                } else {
                    old(self)@.tree
                },
                cache: final(self)@.cache,
                ..old(self)@
            }),
            old(self)@.has_measurer ==> forall|i: int|
                0 <= i < old(self)@.tree.len() ==> node_cached(
                    #[trigger] old(self)@.tree[i],
                    final(self)@.cache,
                ),
            same_shape(old(self)@.tree, final(self)@.tree),
            final(self).element_stack == old(self).element_stack,
            final(self).measure_text_fn == old(self).measure_text_fn,
    {
        match &self.measure_text_fn {
            Some(measurer) => {
                wrap_nodes(&mut self.element_tree_post_order, &mut self.measure_text_cache, measurer);
            },
            None => {},
        }
    }

    /// Positioning.
    pub fn position_element(&mut self)
        requires
            post_ordered(old(self)@.tree),
        ensures
            final(self)@ == (ContextView { tree: position_pass(old(self)@.tree), ..old(self)@ }),
            same_shape(old(self)@.tree, final(self)@.tree),
            final(self).element_stack == old(self).element_stack,
            final(self).measure_text_fn == old(self).measure_text_fn,
    {
        position_nodes(&mut self.element_tree_post_order);
    }

    /// Closes the implicit root: it gets the size of the viewport and ends
    /// the post-order list.
    fn close_root(&mut self)
        requires
            old(self).wf(),
            old(self)@.open.len() == 1,
        ensures
            final(self)@ == (ContextView {
                open: Seq::<ElementView>::empty(),
                tree: old(self)@.full_tree(),
                ..old(self)@
            }),
            post_ordered(final(self)@.tree),
            has_text(final(self)@.tree) == has_text(old(self)@.tree),
            final(self).measure_text_fn == old(self).measure_text_fn,
    {
        let ghost before = self@;
        let ghost whole = before.full_tree();
        let ghost nodes_before = self.element_tree_post_order@;
        proof {
            lemma_full_tree_well_formed(&*self);
        }
        if let Some(mut root_element) = self.element_stack.pop_back() {
            root_element.dimensions.width = self.root_dimensions.width;
            root_element.dimensions.height = self.root_dimensions.height;
            self.element_tree_post_order.push(root_element);
            proof {
                lemma_tree_view_push(nodes_before, root_element);
                assert(self@.tree =~= whole);
                assert(self@.open =~= Seq::<ElementView>::empty());
                assert(has_text(whole) == has_text(before.tree)) by {
                    if has_text(whole) {
                        let i = choose|i: int| 0 <= i < whole.len() && (#[trigger] whole[i]).kind is Text;
                        assert(before.open[0].kind is Rectangle);
                        assert(before.tree[i].kind is Text);
                    }
                    if has_text(before.tree) {
                        let i = choose|i: int|
                            0 <= i < before.tree.len() && (#[trigger] before.tree[i]).kind is Text;
                        assert(whole[i].kind is Text);
                    }
                }
            }
        }
    }

    /// Runs the eight passes over the post-order list.
    fn solve(&mut self)
        requires
            post_ordered(old(self)@.tree),
            has_text(old(self)@.tree) ==> old(self)@.has_measurer,
        ensures
            cache_kept(old(self)@.cache, final(self)@.cache),
            final(self)@ == (ContextView {
                tree: solved(old(self)@.tree, final(self)@.cache),
                cache: final(self)@.cache,
                ..old(self)@
            }),
            final(self)@.tree.len() == old(self)@.tree.len(),
            forall|i: int|
                0 <= i < axis_sized(old(self)@.tree, true).len() ==> node_cached(
                    #[trigger] axis_sized(old(self)@.tree, true)[i],
                    final(self)@.cache,
                ),
            final(self).element_stack == old(self).element_stack,
            final(self).measure_text_fn == old(self).measure_text_fn,
    {
        let ghost whole = self@.tree;
        self.fit_sizing(true);
        proof {
            lemma_same_shape_post_ordered(whole, self@.tree);
        }
        self.percent_sizing(true);
        proof {
            lemma_same_shape_post_ordered(fit_pass(whole, true), self@.tree);
        }
        self.grow_sizing(true);
        let ghost widths = self@.tree;
        proof {
            lemma_same_shape_post_ordered(percent_pass(fit_pass(whole, true), true), widths);
            lemma_same_shape_text(whole, fit_pass(whole, true));
            lemma_same_shape_text(fit_pass(whole, true), percent_pass(fit_pass(whole, true), true));
            lemma_same_shape_text(percent_pass(fit_pass(whole, true), true), widths);
        }
        self.measure_lines();
        let ghost lined = self@.tree;
        proof {
            lemma_same_shape_post_ordered(widths, lined);
        }
        self.fit_sizing(false);
        proof {
            lemma_same_shape_post_ordered(lined, self@.tree);
        }
        self.percent_sizing(false);
        proof {
            lemma_same_shape_post_ordered(fit_pass(lined, false), self@.tree);
        }
        self.grow_sizing(false);
        proof {
            lemma_same_shape_post_ordered(percent_pass(fit_pass(lined, false), false), self@.tree);
        }
        self.position_element();
    }

    /// Wraps the texts of a tree whose widths are resolved. A tree that holds
    /// text needs a measurer.
    fn measure_lines(&mut self)
        requires
            has_text(old(self)@.tree) ==> old(self)@.has_measurer,
        ensures
            cache_kept(old(self)@.cache, final(self)@.cache),
            final(self)@ == (ContextView {
                tree: wrap_pass(old(self)@.tree, final(self)@.cache),
                cache: final(self)@.cache,
                ..old(self)@
            }),
            forall|i: int|
                0 <= i < old(self)@.tree.len() ==> node_cached(
                    #[trigger] old(self)@.tree[i],
                    final(self)@.cache,
                ),
            same_shape(old(self)@.tree, final(self)@.tree),
            final(self).element_stack == old(self).element_stack,
            final(self).measure_text_fn == old(self).measure_text_fn,
    {
        self.wrap_text();
        proof {
            if !old(self)@.has_measurer {
                lemma_wrap_without_text(old(self)@.tree, self@.cache);
                assert forall|i: int| 0 <= i < old(self)@.tree.len() implies node_cached(
                    #[trigger] old(self)@.tree[i],
                    self@.cache,
                ) by {
                    assert(!(old(self)@.tree[i].kind is Text));
                }
            }
        }
    }

    /// Ends the frame: resolves the tree and returns its draw list.
    ///
    /// The frame must be balanced, with only the implicit root left open, and
    /// a frame that holds text needs a measurer. Otherwise the call fails and
    /// leaves the context as it was: so it does where no frame was begun,
    /// where a box is still open, and where the frame was ended before. On
    /// success the root is given the size of the viewport, the eight passes
    /// run over the whole tree, and the draw list holds the commands of every
    /// node but the root, the last node first. The cache then holds every
    /// measurement that the wrap has read, and the measurer is the one that
    /// was installed. Afterwards nothing is open; the resolved nodes stay
    /// until the next frame begins.
    pub fn end_layout(&mut self) -> (result: Result<Vec<RenderCommand>, LayoutError>)
        requires
            old(self)@.open.len() == 1 ==> old(self).wf(),
        ensures
            match result {
                Ok(commands) => {
                    let tree = solved(old(self)@.full_tree(), final(self)@.cache);
                    &&& old(self)@.open.len() == 1
                    &&& has_text(old(self)@.tree) ==> old(self)@.has_measurer
                    &&& cache_kept(old(self)@.cache, final(self)@.cache)
                    &&& forall|i: int|
                        0 <= i < axis_sized(old(self)@.full_tree(), true).len() ==> node_cached(
                            #[trigger] axis_sized(old(self)@.full_tree(), true)[i],
                            final(self)@.cache,
                        )
                    &&& final(self).measure_text_fn == old(self).measure_text_fn
                    &&& commands_view(commands@) == draw_list(tree, old(self)@.tree.len() as int)
                    &&& final(self)@ == (ContextView {
                        open: Seq::<ElementView>::empty(),
                        tree: tree.drop_last(),
                        cache: final(self)@.cache,
                        ..old(self)@
                    })
                },
                Err(error) => {
                    &&& *final(self) == *old(self)
                    &&& error == if old(self)@.open.len() != 1 {
                        LayoutError::UnbalancedTree
                    } else {
                        LayoutError::NoMeasurementFunction
                    }
                    &&& old(self)@.open.len() != 1 || (has_text(old(self)@.tree) && !old(
                        self,
                    )@.has_measurer)
                },
            },
    {
        if self.element_stack.len() != 1 {
            return Err(LayoutError::UnbalancedTree);
        }
        let with_text = holds_text(&self.element_tree_post_order);
        if with_text && self.measure_text_fn.is_none() {
            return Err(LayoutError::NoMeasurementFunction);
        }
        self.close_root();
        self.solve();
        let count = self.element_tree_post_order.len();
        assert(count == old(self)@.tree.len() + 1);
        let commands = emit_commands(&self.element_tree_post_order, count - 1);
        let ghost done = self.element_tree_post_order@;
        self.element_tree_post_order.pop();
        proof {
            assert(self@.tree =~= tree_view(done).drop_last());
        }
        Ok(commands)
    }
}

} // verus!
