//! The shape of a top-down pass, and what holds of every such pass.
//!
//! A top-down pass visits the nodes from the last to the first. At each box
//! it walks the box's children in the order of their slots and replaces each
//! child by what a step makes of it. Since a node stands after its children,
//! a box has been dealt with by its own parent before it deals with its
//! children.

use crate::element::{
    child_at, lemma_same_shape_post_ordered, post_ordered, same_shape, siblings_ordered,
    well_formed, ElementView,
};
use vstd::prelude::*;

verus! {

/// The tree after a step was applied to the first `upto` children of `parent`.
/// The step sees the slot of a child and the child as it is.
pub open spec fn children_fold(
    tree: Seq<ElementView>,
    parent: int,
    step: spec_fn(int, ElementView) -> ElementView,
    upto: int,
) -> Seq<ElementView>
    decreases upto,
{
    if upto <= 0 {
        tree
    } else {
        let before = children_fold(tree, parent, step, upto - 1);
        let child = child_at(tree, parent, upto - 1);
        before.update(child, step(upto - 1, before[child]))
    }
}

/// The tree after the nodes from the last down to `from` were visited.
pub open spec fn descend(
    tree: Seq<ElementView>,
    visit: spec_fn(Seq<ElementView>, int) -> Seq<ElementView>,
    from: int,
) -> Seq<ElementView>
    decreases tree.len() - from,
{
    if from >= tree.len() {
        tree
    } else {
        visit(descend(tree, visit, from + 1), from)
    }
}

/// The step changes nothing that was declared.
pub open spec fn keeps_declared(step: spec_fn(int, ElementView) -> ElementView) -> bool {
    forall|slot: int, child: ElementView| (#[trigger] step(slot, child)).declared() == child.declared()
}

/// Whether `node` is one of the first `upto` children of `parent`.
pub open spec fn is_child_in(tree: Seq<ElementView>, parent: int, node: int, upto: int) -> bool {
    exists|slot: int| 0 <= slot < upto && #[trigger] child_at(tree, parent, slot) == node
}

/// Whether `node` is a child of `parent`.
pub open spec fn is_child_of(tree: Seq<ElementView>, parent: int, node: int) -> bool {
    is_child_in(tree, parent, node, tree[parent].children.len() as int)
}

/// Whether `node` is a child of a node at `from` or after it.
pub open spec fn hangs_from(tree: Seq<ElementView>, node: int, from: int) -> bool {
    exists|parent: int| from <= parent < tree.len() && #[trigger] is_child_of(tree, parent, node)
}

/// A visit is local if it keeps the shape of the tree and changes nothing
/// but the children of the node that it visits.
pub open spec fn local(visit: spec_fn(Seq<ElementView>, int) -> Seq<ElementView>) -> bool {
    forall|tree: Seq<ElementView>, parent: int|
        #![trigger visit(tree, parent)]
        post_ordered(tree) && 0 <= parent < tree.len() ==> {
            &&& same_shape(tree, visit(tree, parent))
            &&& forall|i: int|
                0 <= i < tree.len() && !is_child_of(tree, parent, i) ==> #[trigger] visit(
                    tree,
                    parent,
                )[i] == tree[i]
        }
}

/// Walking the children of a box keeps the shape of the tree and leaves
/// every node alone that is not among the children walked.
pub proof fn lemma_fold_frame(
    tree: Seq<ElementView>,
    parent: int,
    step: spec_fn(int, ElementView) -> ElementView,
    upto: int,
)
    requires
        post_ordered(tree),
        0 <= parent < tree.len(),
        0 <= upto <= tree[parent].children.len(),
        keeps_declared(step),
    ensures
        same_shape(tree, children_fold(tree, parent, step, upto)),
        forall|i: int|
            0 <= i < tree.len() && !is_child_in(tree, parent, i, upto) ==> #[trigger] children_fold(
                tree,
                parent,
                step,
                upto,
            )[i] == tree[i],
    decreases upto,
{
    if upto > 0 {
        lemma_fold_frame(tree, parent, step, upto - 1);
        let before = children_fold(tree, parent, step, upto - 1);
        let after = children_fold(tree, parent, step, upto);
        let child = child_at(tree, parent, upto - 1);
        assert(0 <= child < parent);
        assert(tree[child].declared() == before[child].declared());
        assert forall|i: int| 0 <= i < tree.len() implies (#[trigger] tree[i]).declared()
            == after[i].declared() by {
            assert(tree[i].declared() == before[i].declared());
        }
        assert forall|i: int|
            0 <= i < tree.len() && !is_child_in(tree, parent, i, upto) implies #[trigger] after[i]
            == tree[i] by {
            assert(i != child);
            assert(!is_child_in(tree, parent, i, upto - 1)) by {
                if is_child_in(tree, parent, i, upto - 1) {
                    let slot = choose|slot: int|
                        0 <= slot < upto - 1 && #[trigger] child_at(tree, parent, slot) == i;
                    assert(child_at(tree, parent, slot) == i);
                }
            }
        }
    }
}

/// Walking the children of a box makes of each child what the step makes of
/// it.
pub proof fn lemma_fold_child(
    tree: Seq<ElementView>,
    parent: int,
    step: spec_fn(int, ElementView) -> ElementView,
    upto: int,
    slot: int,
)
    requires
        post_ordered(tree),
        siblings_ordered(tree),
        0 <= parent < tree.len(),
        0 <= slot < upto <= tree[parent].children.len(),
        keeps_declared(step),
    ensures
        children_fold(tree, parent, step, upto)[child_at(tree, parent, slot)] == step(
            slot,
            tree[child_at(tree, parent, slot)],
        ),
    decreases upto,
{
    let before = children_fold(tree, parent, step, upto - 1);
    let last = child_at(tree, parent, upto - 1);
    lemma_fold_frame(tree, parent, step, upto - 1);
    assert(0 <= last < parent);
    if slot == upto - 1 {
        assert(!is_child_in(tree, parent, last, upto - 1)) by {
            if is_child_in(tree, parent, last, upto - 1) {
                let other = choose|other: int|
                    0 <= other < upto - 1 && #[trigger] child_at(tree, parent, other) == last;
                assert(child_at(tree, parent, other) < child_at(tree, parent, upto - 1));
            }
        }
    } else {
        lemma_fold_child(tree, parent, step, upto - 1, slot);
        assert(child_at(tree, parent, slot) < child_at(tree, parent, upto - 1));
        assert(0 <= child_at(tree, parent, slot));
    }
}

/// A top-down pass of local visits keeps the shape of the tree and leaves
/// every node alone whose parent it did not visit.
pub proof fn lemma_descend_frame(
    tree: Seq<ElementView>,
    visit: spec_fn(Seq<ElementView>, int) -> Seq<ElementView>,
    from: int,
)
    requires
        local(visit),
        post_ordered(tree),
        0 <= from <= tree.len(),
    ensures
        same_shape(tree, descend(tree, visit, from)),
        forall|i: int|
            0 <= i < tree.len() && !hangs_from(tree, i, from) ==> #[trigger] descend(
                tree,
                visit,
                from,
            )[i] == tree[i],
    decreases tree.len() - from,
{
    if from < tree.len() {
        lemma_descend_frame(tree, visit, from + 1);
        let before = descend(tree, visit, from + 1);
        let after = visit(before, from);
        lemma_same_shape_post_ordered(tree, before);
        assert(same_shape(before, after));
        assert forall|i: int| 0 <= i < tree.len() implies (#[trigger] tree[i]).declared()
            == after[i].declared() by {
            assert(tree[i].declared() == before[i].declared());
            assert(before[i].declared() == after[i].declared());
        }
        assert(tree[from].declared() == before[from].declared());
        assert forall|i: int|
            0 <= i < tree.len() && !hangs_from(tree, i, from) implies #[trigger] after[i]
            == tree[i] by {
            assert(!is_child_of(tree, from, i));
            assert(!is_child_of(before, from, i)) by {
                if is_child_of(before, from, i) {
                    let slot = choose|slot: int|
                        0 <= slot < before[from].children.len() && #[trigger] child_at(
                            before,
                            from,
                            slot,
                        ) == i;
                    assert(child_at(tree, from, slot) == i);
                }
            }
            assert(!hangs_from(tree, i, from + 1)) by {
                if hangs_from(tree, i, from + 1) {
                    let parent = choose|parent: int|
                        from + 1 <= parent < tree.len() && #[trigger] is_child_of(tree, parent, i);
                    assert(is_child_of(tree, parent, i));
                }
            }
            assert(after[i] == before[i]);
        }
    }
}

/// In a top-down pass of local visits over a well-formed tree, a child is
/// changed by the visit of its parent and by no other: when the parent is
/// visited, the child is still as it was and the parent is as it will stay.
pub proof fn lemma_descend_edge(
    tree: Seq<ElementView>,
    visit: spec_fn(Seq<ElementView>, int) -> Seq<ElementView>,
    parent: int,
    slot: int,
    from: int,
)
    requires
        local(visit),
        well_formed(tree),
        0 <= from <= parent < tree.len(),
        0 <= slot < tree[parent].children.len(),
    ensures
        same_shape(tree, descend(tree, visit, parent + 1)),
        same_shape(tree, descend(tree, visit, from)),
        descend(tree, visit, parent + 1)[child_at(tree, parent, slot)] == tree[child_at(
            tree,
            parent,
            slot,
        )],
        descend(tree, visit, from)[child_at(tree, parent, slot)] == visit(
            descend(tree, visit, parent + 1),
            parent,
        )[child_at(tree, parent, slot)],
        descend(tree, visit, from)[parent] == descend(tree, visit, parent + 1)[parent],
    decreases parent - from,
{
    let child = child_at(tree, parent, slot);
    let ready = descend(tree, visit, parent + 1);
    lemma_descend_frame(tree, visit, parent + 1);
    lemma_descend_frame(tree, visit, from);
    lemma_same_shape_post_ordered(tree, ready);
    assert(0 <= child < parent);
    assert(!hangs_from(tree, child, parent + 1)) by {
        if hangs_from(tree, child, parent + 1) {
            let other = choose|other: int|
                parent + 1 <= other < tree.len() && #[trigger] is_child_of(tree, other, child);
            let place = choose|place: int|
                0 <= place < tree[other].children.len() && #[trigger] child_at(tree, other, place)
                    == child;
            assert(child_at(tree, other, place) == child_at(tree, parent, slot));
        }
    }
    if from == parent {
        assert(tree[parent].declared() == ready[parent].declared());
        assert(!is_child_of(ready, parent, parent)) by {
            if is_child_of(ready, parent, parent) {
                let place = choose|place: int|
                    0 <= place < ready[parent].children.len() && #[trigger] child_at(
                        ready,
                        parent,
                        place,
                    ) == parent;
                assert(child_at(ready, parent, place) < parent);
            }
        }
    } else {
        lemma_descend_edge(tree, visit, parent, slot, from + 1);
        let before = descend(tree, visit, from + 1);
        lemma_same_shape_post_ordered(tree, before);
        assert(tree[from].declared() == before[from].declared());
        assert(!is_child_of(before, from, child)) by {
            if is_child_of(before, from, child) {
                let place = choose|place: int|
                    0 <= place < before[from].children.len() && #[trigger] child_at(
                        before,
                        from,
                        place,
                    ) == child;
                assert(child_at(tree, from, place) == child_at(tree, parent, slot));
            }
        }
        assert(!is_child_of(before, from, parent)) by {
            if is_child_of(before, from, parent) {
                let place = choose|place: int|
                    0 <= place < before[from].children.len() && #[trigger] child_at(
                        before,
                        from,
                        place,
                    ) == parent;
                assert(child_at(before, from, place) < from);
            }
        }
    }
}

/// In a top-down pass of local visits a node is as it will stay once the
/// nodes behind it were visited: no later visit changes it.
pub proof fn lemma_descend_settled(
    tree: Seq<ElementView>,
    visit: spec_fn(Seq<ElementView>, int) -> Seq<ElementView>,
    node: int,
    from: int,
)
    requires
        local(visit),
        post_ordered(tree),
        0 <= from <= node < tree.len(),
    ensures
        descend(tree, visit, from)[node] == descend(tree, visit, node + 1)[node],
    decreases node - from,
{
    lemma_descend_frame(tree, visit, from + 1);
    let before = descend(tree, visit, from + 1);
    lemma_same_shape_post_ordered(tree, before);
    if from < node {
        lemma_descend_settled(tree, visit, node, from + 1);
    }
    assert(!is_child_of(before, from, node)) by {
        if is_child_of(before, from, node) {
            let place = choose|place: int|
                0 <= place < before[from].children.len() && #[trigger] child_at(
                    before,
                    from,
                    place,
                ) == node;
            assert(child_at(before, from, place) < from);
        }
    }
}

/// The step keeps what `key` reads of a child.
pub open spec fn step_keeps(
    step: spec_fn(int, ElementView) -> ElementView,
    key: spec_fn(ElementView) -> ElementView,
) -> bool {
    forall|slot: int, child: ElementView| key(#[trigger] step(slot, child)) == key(child)
}

/// The visit keeps what `key` reads of every node.
pub open spec fn visit_keeps(
    visit: spec_fn(Seq<ElementView>, int) -> Seq<ElementView>,
    key: spec_fn(ElementView) -> ElementView,
) -> bool {
    forall|tree: Seq<ElementView>, parent: int|
        #![trigger visit(tree, parent)]
        post_ordered(tree) && 0 <= parent < tree.len() ==> forall|i: int|
            0 <= i < tree.len() ==> key(#[trigger] visit(tree, parent)[i]) == key(tree[i])
}

/// Walking the children of a box keeps of every node what the step keeps.
pub proof fn lemma_fold_keeps(
    tree: Seq<ElementView>,
    parent: int,
    step: spec_fn(int, ElementView) -> ElementView,
    key: spec_fn(ElementView) -> ElementView,
    upto: int,
)
    requires
        post_ordered(tree),
        0 <= parent < tree.len(),
        0 <= upto <= tree[parent].children.len(),
        step_keeps(step, key),
    ensures
        children_fold(tree, parent, step, upto).len() == tree.len(),
        forall|i: int|
            0 <= i < tree.len() ==> key(#[trigger] children_fold(tree, parent, step, upto)[i])
                == key(tree[i]),
    decreases upto,
{
    if upto > 0 {
        lemma_fold_keeps(tree, parent, step, key, upto - 1);
        let child = child_at(tree, parent, upto - 1);
        assert(0 <= child < parent);
    }
}

/// A top-down pass keeps of every node what its visits keep.
pub proof fn lemma_descend_keeps(
    tree: Seq<ElementView>,
    visit: spec_fn(Seq<ElementView>, int) -> Seq<ElementView>,
    key: spec_fn(ElementView) -> ElementView,
    from: int,
)
    requires
        local(visit),
        visit_keeps(visit, key),
        post_ordered(tree),
        0 <= from <= tree.len(),
    ensures
        forall|i: int|
            0 <= i < tree.len() ==> key(#[trigger] descend(tree, visit, from)[i]) == key(tree[i]),
    decreases tree.len() - from,
{
    if from < tree.len() {
        lemma_descend_keeps(tree, visit, key, from + 1);
        lemma_descend_frame(tree, visit, from + 1);
        let before = descend(tree, visit, from + 1);
        lemma_same_shape_post_ordered(tree, before);
        assert forall|i: int| 0 <= i < tree.len() implies key(
            #[trigger] descend(tree, visit, from)[i],
        ) == key(tree[i]) by {
            assert(key(visit(before, from)[i]) == key(before[i]));
        }
    }
}

/// The visit leaves a node of the given value alone, wherever it stands.
pub open spec fn idle_on(
    visit: spec_fn(Seq<ElementView>, int) -> Seq<ElementView>,
    value: ElementView,
) -> bool {
    forall|tree: Seq<ElementView>, parent: int|
        #![trigger visit(tree, parent)]
        post_ordered(tree) && 0 <= parent < tree.len() ==> forall|i: int|
            0 <= i < tree.len() && tree[i] == value ==> #[trigger] visit(tree, parent)[i] == value
}

/// Walking the children of a box leaves a node alone of which the step
/// makes nothing new.
pub proof fn lemma_fold_idle(
    tree: Seq<ElementView>,
    parent: int,
    step: spec_fn(int, ElementView) -> ElementView,
    upto: int,
    i: int,
)
    requires
        post_ordered(tree),
        0 <= parent < tree.len(),
        0 <= upto <= tree[parent].children.len(),
        0 <= i < tree.len(),
        forall|slot: int| #[trigger] step(slot, tree[i]) == tree[i],
    ensures
        children_fold(tree, parent, step, upto).len() == tree.len(),
        children_fold(tree, parent, step, upto)[i] == tree[i],
    decreases upto,
{
    if upto > 0 {
        lemma_fold_idle(tree, parent, step, upto - 1, i);
        let child = child_at(tree, parent, upto - 1);
        assert(0 <= child < parent);
        assert(step(upto - 1, tree[i]) == tree[i]);
    }
}

/// A top-down pass leaves a node alone that all its visits leave alone.
pub proof fn lemma_descend_idle(
    tree: Seq<ElementView>,
    visit: spec_fn(Seq<ElementView>, int) -> Seq<ElementView>,
    from: int,
    i: int,
)
    requires
        local(visit),
        post_ordered(tree),
        0 <= from <= tree.len(),
        0 <= i < tree.len(),
        idle_on(visit, tree[i]),
    ensures
        descend(tree, visit, from)[i] == tree[i],
    decreases tree.len() - from,
{
    if from < tree.len() {
        lemma_descend_idle(tree, visit, from + 1, i);
        lemma_descend_frame(tree, visit, from + 1);
        let before = descend(tree, visit, from + 1);
        lemma_same_shape_post_ordered(tree, before);
        assert(visit(before, from)[i] == tree[i]);
    }
}

} // verus!
