//! The render-command emitter: a resolved tree becomes a flat draw list.
//!
//! The list follows the post-order list backwards. A box therefore comes
//! before everything inside it, and of two siblings the one that was added
//! later comes first.

use crate::data_type::{
    Position, RectangleRenderData, RenderCommand, RenderCommandView, RenderData, RenderDataView,
    TextRenderData,
};
use crate::element::{
    child_at, nested, post_ordered, siblings_ordered, tree_view, well_formed, Element,
    ElementView, KindView, TextLine, TextView, TypeConfig,
};
use crate::units::{sat, saturate, smaller};
use vstd::prelude::*;
use vstd::string::StrSliceExecFns;
use vstd::string::StringExecFns;

verus! {

/// The characters of a line. A range that reaches beyond the text is cut off
/// at its end.
pub open spec fn line_text(text: Seq<char>, line: TextLine) -> Seq<char> {
    let end = smaller(line.end as int, text.len() as int);
    let start = smaller(line.start as int, end);
    text.subrange(start, end)
}

/// The command that draws one line of a text leaf: the line's characters in
/// the leaf's style, at the leaf's position lowered by the line's offset.
pub open spec fn line_command(node: ElementView, text: TextView, line: TextLine) -> RenderCommandView {
    RenderCommandView {
        position: Position { x: node.position.x, y: sat(node.position.y + line.y) },
        render_data: RenderDataView::Text {
            font_id: text.font_id,
            text: line_text(text.text, line),
            font_size: text.font_size,
            font_color: text.font_color,
        },
    }
}

/// The commands of one node: a rectangle for a box, and for a text leaf one
/// text command for each of its lines, from the top.
pub open spec fn node_commands(node: ElementView) -> Seq<RenderCommandView> {
    match node.kind {
        KindView::Rectangle(config) => seq![
            RenderCommandView {
                position: node.position,
                render_data: RenderDataView::Rectangle(
                    RectangleRenderData { dimenions: node.dimensions, color: config.color },
                ),
            },
        ],
        KindView::Text(text) => Seq::new(
            text.lines.len(),
            |k: int| line_command(node, text, text.lines[k]),
        ),
    }
}

/// The commands of the first `upto` nodes of the post-order list, the last
/// of them first.
pub open spec fn draw_list(tree: Seq<ElementView>, upto: int) -> Seq<RenderCommandView>
    decreases upto,
{
    if upto <= 0 {
        Seq::<RenderCommandView>::empty()
    } else {
        node_commands(tree[upto - 1]) + draw_list(tree, upto - 1)
    }
}

/// The values of a list of commands.
pub open spec fn commands_view(commands: Seq<RenderCommand>) -> Seq<RenderCommandView> {
    Seq::new(commands.len(), |i: int| commands[i]@)
}

/// The place in the draw list of the first `upto` nodes at which the
/// commands of node `node` begin.
pub open spec fn command_start(tree: Seq<ElementView>, upto: int, node: int) -> int {
    draw_list(tree, upto).len() - draw_list(tree, node + 1).len()
}

/// The place in the draw list of the first `upto` nodes behind the last
/// command of node `node`.
pub open spec fn command_end(tree: Seq<ElementView>, upto: int, node: int) -> int {
    command_start(tree, upto, node) + node_commands(tree[node]).len()
}

/// A draw list of more nodes is not shorter.
pub proof fn lemma_draw_list_grows(tree: Seq<ElementView>, fewer: int, more: int)
    requires
        0 <= fewer <= more,
    ensures
        draw_list(tree, fewer).len() <= draw_list(tree, more).len(),
    decreases more - fewer,
{
    if fewer < more {
        lemma_draw_list_grows(tree, fewer, more - 1);
    }
}

/// The commands of a node stand together in the draw list, from the node's
/// start to its end.
pub proof fn lemma_draw_list_holds(tree: Seq<ElementView>, upto: int, node: int)
    requires
        0 <= node < upto,
    ensures
        0 <= command_start(tree, upto, node),
        command_end(tree, upto, node) <= draw_list(tree, upto).len(),
        draw_list(tree, upto).subrange(
            command_start(tree, upto, node),
            command_end(tree, upto, node),
        ) == node_commands(tree[node]),
    decreases upto,
{
    let own = node_commands(tree[upto - 1]);
    let rest = draw_list(tree, upto - 1);
    if node == upto - 1 {
        assert((own + rest).subrange(0, own.len() as int) =~= own);
    } else {
        lemma_draw_list_holds(tree, upto - 1, node);
        let start = command_start(tree, upto - 1, node);
        let end = command_end(tree, upto - 1, node);
        assert((own + rest).subrange(own.len() + start, own.len() + end) =~= rest.subrange(
            start,
            end,
        ));
    }
}

/// Of two nodes the one that stands later in the post-order list is drawn
/// first: its commands end before those of the other begin.
pub proof fn lemma_drawn_in_reverse(tree: Seq<ElementView>, upto: int, earlier: int, later: int)
    requires
        0 <= earlier < later < upto,
    ensures
        command_end(tree, upto, later) <= command_start(tree, upto, earlier),
{
    lemma_draw_list_grows(tree, earlier + 1, later);
}

/// Order: a box is drawn before each of its children.
pub proof fn lemma_parent_drawn_first(tree: Seq<ElementView>, upto: int, parent: int, slot: int)
    requires
        post_ordered(tree),
        0 <= parent < upto <= tree.len(),
        0 <= slot < tree[parent].children.len(),
    ensures
        command_end(tree, upto, parent) <= command_start(
            tree,
            upto,
            child_at(tree, parent, slot),
        ),
{
    lemma_drawn_in_reverse(tree, upto, child_at(tree, parent, slot), parent);
}

/// Order: of two children of one box the one that was added later is drawn
/// first.
pub proof fn lemma_later_sibling_drawn_first(
    tree: Seq<ElementView>,
    upto: int,
    parent: int,
    first: int,
    second: int,
)
    requires
        post_ordered(tree),
        siblings_ordered(tree),
        0 <= parent < upto <= tree.len(),
        0 <= first < second < tree[parent].children.len(),
    ensures
        command_end(tree, upto, child_at(tree, parent, second)) <= command_start(
            tree,
            upto,
            child_at(tree, parent, first),
        ),
{
    assert(0 <= child_at(tree, parent, first));
    assert(child_at(tree, parent, second) < parent);
    lemma_drawn_in_reverse(
        tree,
        upto,
        child_at(tree, parent, first),
        child_at(tree, parent, second),
    );
}

/// Whether `node` is reached from `ancestor` by going down `depth` times
/// from a node to one of its children.
pub open spec fn descends(tree: Seq<ElementView>, node: int, ancestor: int, depth: nat) -> bool
    decreases depth,
{
    if depth == 0 {
        node == ancestor
    } else {
        exists|parent: int, slot: int|
            0 <= parent < tree.len() && 0 <= slot < tree[parent].children.len()
                && #[trigger] child_at(tree, parent, slot) == node && descends(
                tree,
                parent,
                ancestor,
                (depth - 1) as nat,
            )
    }
}

/// A descendant stands before its ancestor in the post-order list.
pub proof fn lemma_descendant_stands_before(
    tree: Seq<ElementView>,
    node: int,
    ancestor: int,
    depth: nat,
)
    requires
        post_ordered(tree),
        depth > 0,
        descends(tree, node, ancestor, depth),
    ensures
        0 <= node < ancestor,
    decreases depth,
{
    let (parent, slot) = choose|parent: int, slot: int|
        0 <= parent < tree.len() && 0 <= slot < tree[parent].children.len() && #[trigger] child_at(
            tree,
            parent,
            slot,
        ) == node && descends(tree, parent, ancestor, (depth - 1) as nat);
    assert(0 <= child_at(tree, parent, slot) < parent);
    if depth > 1 {
        lemma_descendant_stands_before(tree, parent, ancestor, (depth - 1) as nat);
    }
}

/// Order: a box is drawn before each of its descendants.
pub proof fn lemma_ancestor_drawn_first(
    tree: Seq<ElementView>,
    upto: int,
    node: int,
    ancestor: int,
    depth: nat,
)
    requires
        post_ordered(tree),
        depth > 0,
        descends(tree, node, ancestor, depth),
        0 <= ancestor < upto <= tree.len(),
    ensures
        command_end(tree, upto, ancestor) <= command_start(tree, upto, node),
{
    lemma_descendant_stands_before(tree, node, ancestor, depth);
    lemma_drawn_in_reverse(tree, upto, node, ancestor);
}

/// Whether `node` is `ancestor` itself or one of its descendants.
pub open spec fn belongs_to(tree: Seq<ElementView>, node: int, ancestor: int) -> bool {
    exists|depth: nat| descends(tree, node, ancestor, depth)
}

/// In a tree of nested subtrees whatever belongs to a later sibling stands
/// behind the earlier sibling.
pub proof fn lemma_later_subtree_stands_behind(
    tree: Seq<ElementView>,
    parent: int,
    first: int,
    second: int,
    node: int,
    depth: nat,
)
    requires
        well_formed(tree),
        nested(tree),
        0 <= parent < tree.len(),
        0 <= first < second < tree[parent].children.len(),
        descends(tree, node, child_at(tree, parent, second), depth),
    ensures
        child_at(tree, parent, first) < node <= child_at(tree, parent, second),
    decreases depth,
{
    let earlier = child_at(tree, parent, first);
    let later = child_at(tree, parent, second);
    assert(0 <= earlier < later < parent);
    if depth > 0 {
        let (above, slot) = choose|above: int, slot: int|
            0 <= above < tree.len() && 0 <= slot < tree[above].children.len()
                && #[trigger] child_at(tree, above, slot) == node && descends(
                tree,
                above,
                later,
                (depth - 1) as nat,
            );
        lemma_later_subtree_stands_behind(
            tree,
            parent,
            first,
            second,
            above,
            (depth - 1) as nat,
        );
        assert(0 <= child_at(tree, above, slot) < above);
        if node <= earlier {
            if node == earlier {
                assert(child_at(tree, above, slot) == child_at(tree, parent, first));
            } else {
                assert(child_at(tree, above, slot) < child_at(tree, parent, first));
            }
        }
    }
}

/// Order between subtrees: of two children of one box, whatever belongs to
/// the one that was added later is drawn before whatever belongs to the
/// other.
pub proof fn lemma_later_subtree_drawn_first(
    tree: Seq<ElementView>,
    upto: int,
    parent: int,
    first: int,
    second: int,
    node: int,
    other: int,
)
    requires
        well_formed(tree),
        nested(tree),
        0 <= parent < upto <= tree.len(),
        0 <= first < second < tree[parent].children.len(),
        belongs_to(tree, node, child_at(tree, parent, second)),
        belongs_to(tree, other, child_at(tree, parent, first)),
    ensures
        command_end(tree, upto, node) <= command_start(tree, upto, other),
{
    let earlier = child_at(tree, parent, first);
    let later = child_at(tree, parent, second);
    assert(0 <= earlier < later < parent);
    let depth = choose|depth: nat| descends(tree, node, later, depth);
    let other_depth = choose|depth: nat| descends(tree, other, earlier, depth);
    lemma_later_subtree_stands_behind(tree, parent, first, second, node, depth);
    if other_depth > 0 {
        lemma_descendant_stands_before(tree, other, earlier, other_depth);
    }
    lemma_drawn_in_reverse(tree, upto, other, node);
}

/// The characters of a line as a string of their own.
fn line_string(text: &str, line: &TextLine) -> (s: String)
    ensures
        s@ == line_text(text@, *line),
{
    let length = text.unicode_len();
    let end = if line.end < length {
        line.end
    } else {
        length
    };
    let start = if line.start < end {
        line.start
    } else {
        end
    };
    String::from_str(text.substring_char(start, end))
}

/// Appends the commands of one node to a draw list.
fn emit_node(node: &Element, commands: &mut Vec<RenderCommand>)
    ensures
        commands_view(final(commands)@) == commands_view(old(commands)@) + node_commands(node@),
{
    let ghost before = commands_view(commands@);
    match &node.element_config {
        TypeConfig::Rectangle(config) => {
            commands.push(
                RenderCommand {
                    position: node.position,
                    render_data: RenderData::Rectangle(
                        RectangleRenderData { dimenions: node.dimensions, color: config.color },
                    ),
                },
            );
            assert(commands_view(commands@) =~= before + node_commands(node@));
        },
        TypeConfig::Text(text) => {
            let count = text.text_lines.len();
            let mut k: usize = 0;
            while k < count
                invariant
                    node.element_config == TypeConfig::Text(*text),
                    count == text.text_lines.len(),
                    k <= count,
                    commands_view(commands@) == before + Seq::new(
                        k as nat,
                        |j: int| line_command(node@, text@, text.text_lines[j]),
                    ),
                decreases count - k,
            {
                let ghost so_far = commands_view(commands@);
                let line = text.text_lines[k];
                let command = RenderCommand {
                    position: Position {
                        x: node.position.x,
                        y: saturate(node.position.y as i128 + line.y as i128),
                    },
                    render_data: RenderData::Text(
                        TextRenderData {
                            font_id: text.font_id,
                            text: line_string(text.text.as_str(), &line),
                            font_size: text.font_size,
                            font_color: text.font_color,
                        },
                    ),
                };
                commands.push(command);
                assert(commands_view(commands@) =~= so_far.push(command@));
                assert(commands_view(commands@) =~= before + Seq::new(
                    (k + 1) as nat,
                    |j: int| line_command(node@, text@, text.text_lines[j]),
                ));
                k = k + 1;
            }
            assert(commands_view(commands@) =~= before + node_commands(node@));
        },
    }
}

/// The draw list of the first `upto` nodes of a resolved tree.
pub fn emit_commands(nodes: &Vec<Element>, upto: usize) -> (commands: Vec<RenderCommand>)
    requires
        upto <= nodes.len(),
    ensures
        commands_view(commands@) == draw_list(tree_view(nodes@), upto as int),
{
    let ghost tree = tree_view(nodes@);
    let mut commands: Vec<RenderCommand> = Vec::new();
    let mut i: usize = upto;
    assert(commands_view(commands@) =~= Seq::<RenderCommandView>::empty());
    while i > 0
        invariant
            i <= upto <= nodes.len(),
            tree == tree_view(nodes@),
            commands_view(commands@) + draw_list(tree, i as int) == draw_list(tree, upto as int),
        decreases i,
    {
        let ghost so_far = commands_view(commands@);
        i = i - 1;
        emit_node(&nodes[i], &mut commands);
        assert(commands_view(commands@) + draw_list(tree, i as int) =~= so_far + draw_list(
            tree,
            i + 1,
        ));
    }
    assert(commands_view(commands@) + draw_list(tree, 0) =~= commands_view(commands@));
    commands
}

} // verus!
