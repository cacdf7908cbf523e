//! Text wrapping: a greedy, single-pass word wrap against a node's width.
//!
//! A text is cut into words at every single space. Words are put on a line
//! for as long as they fit; a word that is too long for any line gets a line
//! of its own. A line is remembered as a range of the text's characters and
//! its distance from the top of the node.

use crate::data_type::{Dimensions, TextMeasurement};
use crate::element::{
    lemma_tree_view_update, same_shape, tree_view, Element, ElementView, InternalTextConfig,
    KindView, TextLine, TextView, TypeConfig,
};
use crate::measure::{cache_kept, cached, get_measurement, is_cached, TextMeasurer};
use crate::units::{larger, sat, saturate};
use vstd::hash_map::StringHashMap;
use vstd::prelude::*;
use vstd::std_specs::iter::IteratorSpec;
use vstd::string::StrSliceExecFns;

verus! {

/// A word: the characters `start..end` of a text.
#[derive(Clone, Copy, Debug, PartialEq, Eq)]
pub struct TextSpan {
    pub start: usize,
    pub end: usize,
}

/// The words of `text` from character `at` on, where the word that is being
/// read began at `start`. Every space ends a word, so two spaces in a row
/// hold an empty word between them, and a text always has a last word.
pub open spec fn words_from(text: Seq<char>, start: int, at: int) -> Seq<TextSpan>
    decreases text.len() - at,
{
    if at >= text.len() {
        seq![TextSpan { start: start as usize, end: text.len() as usize }]
    } else if text[at] == ' ' {
        seq![TextSpan { start: start as usize, end: at as usize }] + words_from(
            text,
            at + 1,
            at + 1,
        )
    } else {
        words_from(text, start, at + 1)
    }
}

/// The words of a text.
pub open spec fn words(text: Seq<char>) -> Seq<TextSpan> {
    words_from(text, 0, 0)
}

/// Where a wrap stands between two words.
pub struct WrapState {
    /// The lines that are finished.
    pub lines: Seq<TextLine>,
    /// The height of the finished lines together.
    pub cursor: i32,
    /// Whether the line that is being filled holds no word yet.
    pub run_empty: bool,
    /// The characters of the line that is being filled.
    pub run_start: usize,
    pub run_end: usize,
    pub run_width: i32,
    pub run_height: i32,
    /// The largest baseline offset on the line that is being filled.
    pub run_offset: i32,
}

/// The state before the first word.
pub open spec fn wrap_start() -> WrapState {
    WrapState {
        lines: Seq::<TextLine>::empty(),
        cursor: 0,
        run_empty: true,
        run_start: 0,
        run_end: 0,
        run_width: 0,
        run_height: 0,
        run_offset: 0,
    }
}

/// The state after the line that is being filled was finished: it lies at
/// the cursor, lowered by its baseline offset, and the cursor moves on by its
/// height.
pub open spec fn wrap_flush(state: WrapState) -> WrapState {
    WrapState {
        lines: state.lines.push(
            TextLine {
                start: state.run_start,
                end: state.run_end,
                y: sat(state.cursor + state.run_offset),
            },
        ),
        cursor: sat(state.cursor + state.run_height),
        run_empty: true,
        run_start: state.run_end,
        run_end: state.run_end,
        run_width: 0,
        run_height: 0,
        run_offset: 0,
    }
}

/// Whether a word of the given width no longer fits on the line that is
/// being filled, a space before it included.
pub open spec fn overflows(state: WrapState, word_width: i32, space_width: i32, width: i32) -> bool {
    !state.run_empty && state.run_width + space_width + word_width > width
}

/// The state after one more word.
pub open spec fn wrap_step(
    state: WrapState,
    word: TextSpan,
    measured: TextMeasurement,
    space_width: i32,
    width: i32,
) -> WrapState {
    if state.run_empty && measured.width > width {
        WrapState {
            lines: state.lines.push(TextLine { start: word.start, end: word.end, y: state.cursor }),
            cursor: sat(state.cursor + measured.height),
            run_start: word.end,
            run_end: word.end,
            ..state
        }
    } else {
        let open = if overflows(state, measured.width, space_width, width) {
            wrap_flush(state)
        } else {
            state
        };
        WrapState {
            run_empty: false,
            run_start: if open.run_empty {
                word.start
            } else {
                open.run_start
            },
            run_end: word.end,
            run_width: if open.run_empty {
                sat(open.run_width + measured.width)
            } else {
                sat(open.run_width + space_width + measured.width)
            },
            run_height: larger(open.run_height as int, measured.height as int) as i32,
            run_offset: larger(open.run_offset as int, measured.y_offset as int) as i32,
            ..open
        }
    }
}

/// The state after the first `upto` words.
pub open spec fn wrap_fold(
    spans: Seq<TextSpan>,
    measurements: Seq<TextMeasurement>,
    space_width: i32,
    width: i32,
    upto: int,
) -> WrapState
    decreases upto,
{
    if upto <= 0 {
        wrap_start()
    } else {
        wrap_step(
            wrap_fold(spans, measurements, space_width, width, upto - 1),
            spans[upto - 1],
            measurements[upto - 1],
            space_width,
            width,
        )
    }
}

/// The state after all words, the last line finished. Its `lines` are the
/// lines of the text and its `cursor` is the height of the text.
pub open spec fn wrap_result(
    spans: Seq<TextSpan>,
    measurements: Seq<TextMeasurement>,
    space_width: i32,
    width: i32,
) -> WrapState {
    wrap_flush(wrap_fold(spans, measurements, space_width, width, spans.len() as int))
}

/// What the cache holds for each word of a text.
pub open spec fn word_measurements(
    text: Seq<char>,
    spans: Seq<TextSpan>,
    font_id: u32,
    font_size: u16,
    cache: Map<Seq<char>, TextMeasurement>,
) -> Seq<TextMeasurement> {
    Seq::new(
        spans.len(),
        |j: int|
            cached(cache, text.subrange(spans[j].start as int, spans[j].end as int), font_id, font_size),
    )
}

/// Whether the cache holds a measurement for a space and for every word of a
/// text.
pub open spec fn words_cached(
    text: TextView,
    cache: Map<Seq<char>, TextMeasurement>,
) -> bool {
    &&& is_cached(cache, seq![' '], text.font_id, text.font_size)
    &&& forall|j: int|
        0 <= j < words(text.text).len() ==> is_cached(
            cache,
            #[trigger] text.text.subrange(
                words(text.text)[j].start as int,
                words(text.text)[j].end as int,
            ),
            text.font_id,
            text.font_size,
        )
}

/// The wrap of a text at a width, with the measurements that the cache holds.
pub open spec fn wrapped_text(
    text: TextView,
    width: i32,
    cache: Map<Seq<char>, TextMeasurement>,
) -> WrapState {
    wrap_result(
        words(text.text),
        word_measurements(text.text, words(text.text), text.font_id, text.font_size, cache),
        cached(cache, seq![' '], text.font_id, text.font_size).width,
        width,
    )
}

/// A node after wrapping. Only a text leaf that breaks words changes: it
/// gets its lines and, from them, its height.
pub open spec fn wrap_node(node: ElementView, cache: Map<Seq<char>, TextMeasurement>) -> ElementView {
    match node.kind {
        KindView::Text(text) => if text.break_word {
            let wrapped = wrapped_text(text, node.dimensions.width, cache);
            ElementView {
                dimensions: Dimensions { width: node.dimensions.width, height: wrapped.cursor },
                kind: KindView::Text(TextView { lines: wrapped.lines, ..text }),
                ..node
            }
        } else {
            node
        },
        KindView::Rectangle(_) => node,
    }
}

/// The tree after wrapping, with the measurements that the cache holds.
pub open spec fn wrap_pass(tree: Seq<ElementView>, cache: Map<Seq<char>, TextMeasurement>) -> Seq<
    ElementView,
> {
    Seq::new(tree.len(), |i: int| wrap_node(tree[i], cache))
}

/// Whether the cache holds every measurement that wrapping node needs.
pub open spec fn node_cached(node: ElementView, cache: Map<Seq<char>, TextMeasurement>) -> bool {
    match node.kind {
        KindView::Text(text) => text.break_word ==> words_cached(text, cache),
        KindView::Rectangle(_) => true,
    }
}

/// A wrap does not change when the cache gains entries.
pub proof fn lemma_wrap_node_kept(
    node: ElementView,
    before: Map<Seq<char>, TextMeasurement>,
    after: Map<Seq<char>, TextMeasurement>,
)
    requires
        node_cached(node, before),
        cache_kept(before, after),
    ensures
        node_cached(node, after),
        wrap_node(node, after) == wrap_node(node, before),
{
    match node.kind {
        KindView::Text(text) => {
            if text.break_word {
                let spans = words(text.text);
                assert(word_measurements(text.text, spans, text.font_id, text.font_size, after)
                    =~= word_measurements(text.text, spans, text.font_id, text.font_size, before))
                    by {
                    assert forall|j: int| 0 <= j < spans.len() implies cached(
                        after,
                        text.text.subrange(spans[j].start as int, spans[j].end as int),
                        text.font_id,
                        text.font_size,
                    ) == cached(
                        before,
                        text.text.subrange(spans[j].start as int, spans[j].end as int),
                        text.font_id,
                        text.font_size,
                    ) by {
                        assert(is_cached(
                            before,
                            text.text.subrange(spans[j].start as int, spans[j].end as int),
                            text.font_id,
                            text.font_size,
                        ));
                    }
                }
                assert forall|j: int| 0 <= j < spans.len() implies is_cached(
                    after,
                    #[trigger] text.text.subrange(spans[j].start as int, spans[j].end as int),
                    text.font_id,
                    text.font_size,
                ) by {
                    assert(is_cached(
                        before,
                        text.text.subrange(spans[j].start as int, spans[j].end as int),
                        text.font_id,
                        text.font_size,
                    ));
                }
            }
        },
        KindView::Rectangle(_) => {},
    }
}

/// The word with which the line that is being filled begins after the first
/// `upto` words; `upto` itself while the line holds no word.
pub open spec fn run_first(
    spans: Seq<TextSpan>,
    measurements: Seq<TextMeasurement>,
    space_width: i32,
    width: i32,
    upto: int,
) -> int
    decreases upto,
{
    if upto <= 0 {
        0
    } else {
        let state = wrap_fold(spans, measurements, space_width, width, upto - 1);
        let measured = measurements[upto - 1];
        if state.run_empty && measured.width > width {
            upto
        } else if state.run_empty || overflows(state, measured.width, space_width, width) {
            upto - 1
        } else {
            run_first(spans, measurements, space_width, width, upto - 1)
        }
    }
}

/// The width of the words `from..upto` on one line, with a space between
/// every two of them.
pub open spec fn joined_width(
    measurements: Seq<TextMeasurement>,
    space_width: int,
    from: int,
    upto: int,
) -> int
    decreases upto - from,
{
    if upto <= from {
        0
    } else if upto == from + 1 {
        measurements[from].width as int
    } else {
        joined_width(measurements, space_width, from, upto - 1) + space_width + measurements[upto
            - 1].width
    }
}

/// No width is negative, and all words on one line have a width that is a
/// size.
pub open spec fn plain_widths(measurements: Seq<TextMeasurement>, space_width: i32) -> bool {
    &&& space_width >= 0
    &&& forall|j: int| 0 <= j < measurements.len() ==> (#[trigger] measurements[j]).width >= 0
    &&& joined_width(measurements, space_width as int, 0, measurements.len() as int) <= i32::MAX
}

/// A line of words is not narrower than a part of it.
pub proof fn lemma_joined_width_orders(
    measurements: Seq<TextMeasurement>,
    space_width: int,
    from: int,
    later: int,
    upto: int,
)
    requires
        space_width >= 0,
        forall|j: int| 0 <= j < measurements.len() ==> (#[trigger] measurements[j]).width >= 0,
        0 <= from <= later,
        upto <= measurements.len(),
    ensures
        0 <= joined_width(measurements, space_width, later, upto) <= joined_width(
            measurements,
            space_width,
            from,
            upto,
        ),
        upto > 0 ==> joined_width(measurements, space_width, from, upto - 1) <= joined_width(
            measurements,
            space_width,
            from,
            upto,
        ),
    decreases upto - from,
{
    if upto > from {
        lemma_joined_width_orders(measurements, space_width, from, later, upto - 1);
        assert(measurements[upto - 1].width >= 0);
        if upto > from + 1 {
            lemma_joined_width_orders(measurements, space_width, from, from, upto - 1);
        }
    }
}

/// The words on one line up to some word are not wider than all words.
pub proof fn lemma_joined_width_grows(
    measurements: Seq<TextMeasurement>,
    space_width: int,
    fewer: int,
    more: int,
)
    requires
        space_width >= 0,
        forall|j: int| 0 <= j < measurements.len() ==> (#[trigger] measurements[j]).width >= 0,
        0 <= fewer <= more <= measurements.len(),
    ensures
        joined_width(measurements, space_width, 0, fewer) <= joined_width(
            measurements,
            space_width,
            0,
            more,
        ),
    decreases more - fewer,
{
    if fewer < more {
        lemma_joined_width_grows(measurements, space_width, fewer, more - 1);
        lemma_joined_width_orders(measurements, space_width, 0, 0, more);
    }
}

/// The line that is being filled holds the words from `run_first` on, and
/// its width is their width on one line.
pub proof fn lemma_run_tracked(
    spans: Seq<TextSpan>,
    measurements: Seq<TextMeasurement>,
    space_width: i32,
    width: i32,
    upto: int,
)
    requires
        plain_widths(measurements, space_width),
        0 <= upto <= measurements.len(),
    ensures
        0 <= run_first(spans, measurements, space_width, width, upto) <= upto,
        wrap_fold(spans, measurements, space_width, width, upto).run_empty == (run_first(
            spans,
            measurements,
            space_width,
            width,
            upto,
        ) == upto),
        wrap_fold(spans, measurements, space_width, width, upto).run_width == joined_width(
            measurements,
            space_width as int,
            run_first(spans, measurements, space_width, width, upto),
            upto,
        ),
    decreases upto,
{
    if upto > 0 {
        lemma_run_tracked(spans, measurements, space_width, width, upto - 1);
        let first = run_first(spans, measurements, space_width, width, upto);
        lemma_joined_width_orders(measurements, space_width as int, 0, first, upto);
        lemma_joined_width_grows(
            measurements,
            space_width as int,
            upto,
            measurements.len() as int,
        );
        assert(measurements[upto - 1].width >= 0);
    }
}

/// Wrap-monotonicity: at a smaller width a text has at least as many lines.
/// This holds where no width is negative and all words on one line have a
/// width that is a size.
pub proof fn lemma_narrower_wraps_longer(
    spans: Seq<TextSpan>,
    measurements: Seq<TextMeasurement>,
    space_width: i32,
    narrow: i32,
    wide: i32,
)
    requires
        plain_widths(measurements, space_width),
        spans.len() == measurements.len(),
        narrow <= wide,
    ensures
        wrap_result(spans, measurements, space_width, narrow).lines.len() >= wrap_result(
            spans,
            measurements,
            space_width,
            wide,
        ).lines.len(),
{
    lemma_narrower_breaks_sooner(
        spans,
        measurements,
        space_width,
        narrow,
        wide,
        spans.len() as int,
    );
}

/// After any number of words the wrap at the smaller width has finished more
/// lines, or as many while its open line began no later.
pub proof fn lemma_narrower_breaks_sooner(
    spans: Seq<TextSpan>,
    measurements: Seq<TextMeasurement>,
    space_width: i32,
    narrow: i32,
    wide: i32,
    upto: int,
)
    requires
        plain_widths(measurements, space_width),
        narrow <= wide,
        0 <= upto <= measurements.len(),
    ensures
        ({
            let tight = wrap_fold(spans, measurements, space_width, narrow, upto);
            let loose = wrap_fold(spans, measurements, space_width, wide, upto);
            ||| tight.lines.len() > loose.lines.len()
            ||| tight.lines.len() == loose.lines.len() && run_first(
                spans,
                measurements,
                space_width,
                narrow,
                upto,
            ) <= run_first(spans, measurements, space_width, wide, upto)
        }),
    decreases upto,
{
    if upto > 0 {
        lemma_narrower_breaks_sooner(spans, measurements, space_width, narrow, wide, upto - 1);
        lemma_run_tracked(spans, measurements, space_width, narrow, upto - 1);
        lemma_run_tracked(spans, measurements, space_width, wide, upto - 1);
        lemma_run_tracked(spans, measurements, space_width, narrow, upto);
        lemma_run_tracked(spans, measurements, space_width, wide, upto);
        let tight_first = run_first(spans, measurements, space_width, narrow, upto - 1);
        let loose_first = run_first(spans, measurements, space_width, wide, upto - 1);
        if tight_first <= loose_first {
            lemma_joined_width_orders(
                measurements,
                space_width as int,
                tight_first,
                loose_first,
                upto - 1,
            );
        }
        assert(measurements[upto - 1].width >= 0);
    }
}

/// All words are equally high, and a line for every word and one more have
/// a height that is a size.
pub open spec fn even_heights(measurements: Seq<TextMeasurement>, height: i32) -> bool {
    &&& height >= 0
    &&& forall|j: int| 0 <= j < measurements.len() ==> (#[trigger] measurements[j]).height == height
    &&& (measurements.len() + 1) * height <= i32::MAX
}

/// Where all words are equally high, the finished lines are as high as one
/// word each, and so is the open line once it holds a word.
pub proof fn lemma_even_lines(
    spans: Seq<TextSpan>,
    measurements: Seq<TextMeasurement>,
    space_width: i32,
    width: i32,
    height: i32,
    upto: int,
)
    requires
        even_heights(measurements, height),
        0 <= upto <= measurements.len(),
    ensures
        ({
            let state = wrap_fold(spans, measurements, space_width, width, upto);
            &&& state.lines.len() <= upto
            &&& state.cursor == state.lines.len() * height
            &&& state.run_height == if state.run_empty {
                0
            } else {
                height
            }
        }),
    decreases upto,
{
    if upto > 0 {
        lemma_even_lines(spans, measurements, space_width, width, height, upto - 1);
        let before = wrap_fold(spans, measurements, space_width, width, upto - 1);
        let lines = before.lines.len() as int;
        assert(measurements[upto - 1].height == height);
        assert((lines + 1) * height == lines * height + height) by (nonlinear_arith);
        assert((lines + 1) * height <= (measurements.len() + 1) * height) by (nonlinear_arith)
            requires
                lines + 1 <= measurements.len() + 1,
                height >= 0,
        ;
        assert(0 <= lines * height) by (nonlinear_arith)
            requires
                lines >= 0,
                height >= 0,
        ;
    }
}

/// Wrap-monotonicity of the height: at a smaller width a text of equally
/// high words is at least as high. This holds where no width is negative and
/// neither the widths nor the heights run out of the sizes.
pub proof fn lemma_narrower_wraps_higher(
    spans: Seq<TextSpan>,
    measurements: Seq<TextMeasurement>,
    space_width: i32,
    narrow: i32,
    wide: i32,
    height: i32,
)
    requires
        plain_widths(measurements, space_width),
        even_heights(measurements, height),
        spans.len() == measurements.len(),
        narrow <= wide,
    ensures
        wrap_result(spans, measurements, space_width, narrow).cursor >= wrap_result(
            spans,
            measurements,
            space_width,
            wide,
        ).cursor,
{
    let count = spans.len() as int;
    let tight = wrap_fold(spans, measurements, space_width, narrow, count);
    let loose = wrap_fold(spans, measurements, space_width, wide, count);
    lemma_narrower_breaks_sooner(spans, measurements, space_width, narrow, wide, count);
    lemma_run_tracked(spans, measurements, space_width, narrow, count);
    lemma_run_tracked(spans, measurements, space_width, wide, count);
    lemma_even_lines(spans, measurements, space_width, narrow, height, count);
    lemma_even_lines(spans, measurements, space_width, wide, height, count);
    let tight_lines = tight.lines.len() as int;
    let loose_lines = loose.lines.len() as int;
    assert((tight_lines + 1) * height == tight_lines * height + height) by (nonlinear_arith);
    assert((loose_lines + 1) * height == loose_lines * height + height) by (nonlinear_arith);
    assert((tight_lines + 1) * height <= (measurements.len() + 1) * height) by (nonlinear_arith)
        requires
            tight_lines + 1 <= measurements.len() + 1,
            height >= 0,
    ;
    assert((loose_lines + 1) * height <= (measurements.len() + 1) * height) by (nonlinear_arith)
        requires
            loose_lines + 1 <= measurements.len() + 1,
            height >= 0,
    ;
    assert(0 <= tight_lines * height && 0 <= loose_lines * height) by (nonlinear_arith)
        requires
            tight_lines >= 0,
            loose_lines >= 0,
            height >= 0,
    ;
    if tight_lines > loose_lines {
        assert(tight_lines * height >= (loose_lines + 1) * height) by (nonlinear_arith)
            requires
                tight_lines >= loose_lines + 1,
                height >= 0,
        ;
    }
}

/// The words lie in a text of `length` characters, one behind the other.
pub open spec fn words_in_order(spans: Seq<TextSpan>, length: int) -> bool {
    &&& forall|j: int|
        0 <= j < spans.len() ==> (#[trigger] spans[j]).start <= spans[j].end <= length
    &&& forall|j: int|
        0 <= j && j + 1 < spans.len() ==> (#[trigger] spans[j]).end <= spans[j + 1].start
}

/// The words of a text lie in the text, one behind the other, and the first
/// begins where the reading began.
pub proof fn lemma_words_in_order(text: Seq<char>, start: int, at: int)
    requires
        0 <= start <= at <= text.len() <= usize::MAX,
    ensures
        words_from(text, start, at).len() >= 1,
        words_from(text, start, at)[0].start == start,
        words_from(text, start, at)[0].end >= at,
        words_in_order(words_from(text, start, at), text.len() as int),
    decreases text.len() - at,
{
    if at < text.len() {
        if text[at] == ' ' {
            lemma_words_in_order(text, at + 1, at + 1);
            let rest = words_from(text, at + 1, at + 1);
            let all = words_from(text, start, at);
            assert forall|j: int| 0 <= j < all.len() implies (#[trigger] all[j]).start
                <= all[j].end <= text.len() by {
                if j > 0 {
                    assert(all[j] == rest[j - 1]);
                }
            }
            assert forall|j: int| 0 <= j && j + 1 < all.len() implies (#[trigger] all[j]).end
                <= all[j + 1].start by {
                assert(all[j + 1] == rest[j]);
                if j > 0 {
                    assert(all[j] == rest[j - 1]);
                }
            }
        } else {
            lemma_words_in_order(text, start, at + 1);
        }
    }
}

/// Every line of a wrap is a range of characters of the text, and so is the
/// line that is being filled.
pub proof fn lemma_wrap_within(
    spans: Seq<TextSpan>,
    measurements: Seq<TextMeasurement>,
    space_width: i32,
    width: i32,
    length: int,
    upto: int,
)
    requires
        words_in_order(spans, length),
        0 <= length,
        0 <= upto <= spans.len(),
    ensures
        ({
            let state = wrap_fold(spans, measurements, space_width, width, upto);
            &&& state.run_start <= state.run_end <= length
            &&& upto > 0 ==> state.run_end == spans[upto - 1].end
            &&& forall|k: int|
                0 <= k < state.lines.len() ==> (#[trigger] state.lines[k]).start
                    <= state.lines[k].end <= length
        }),
    decreases upto,
{
    if upto > 0 {
        lemma_wrap_within(spans, measurements, space_width, width, length, upto - 1);
        let word = spans[upto - 1];
        assert(word.start <= word.end <= length);
        if upto > 1 {
            assert(spans[upto - 2].end <= spans[upto - 2 + 1].start);
        }
    }
}

/// The lines of a wrapped text are ranges of its characters.
pub proof fn lemma_wrapped_lines_within(
    text: TextView,
    width: i32,
    cache: Map<Seq<char>, TextMeasurement>,
)
    requires
        text.text.len() <= usize::MAX,
    ensures
        forall|k: int|
            0 <= k < wrapped_text(text, width, cache).lines.len() ==> (
            #[trigger] wrapped_text(text, width, cache).lines[k]).start <= wrapped_text(
                text,
                width,
                cache,
            ).lines[k].end <= text.text.len(),
{
    let spans = words(text.text);
    lemma_words_in_order(text.text, 0, 0);
    lemma_wrap_within(
        spans,
        word_measurements(text.text, spans, text.font_id, text.font_size, cache),
        cached(cache, seq![' '], text.font_id, text.font_size).width,
        width,
        text.text.len() as int,
        spans.len() as int,
    );
}

/// Cuts a text into its words.
pub fn split_words(text: &str) -> (spans: Vec<TextSpan>)
    ensures
        spans@ == words(text@),
        forall|j: int|
            0 <= j < spans.len() ==> (#[trigger] spans[j]).start <= spans[j].end <= text@.len(),
{
    let mut spans: Vec<TextSpan> = Vec::new();
    let length = text.unicode_len();
    let mut start: usize = 0;
    let mut at: usize = 0;
    for c in it: text.chars()
        invariant
            it.seq() == text@,
            length == text@.len(),
            at == it.index(),
            start <= at,
            spans@ + words_from(text@, start as int, at as int) == words(text@),
            forall|j: int|
                0 <= j < spans.len() ==> (#[trigger] spans[j]).start <= spans[j].end <= text@.len(),
    {
        assert(at < text@.len());
        assert(c == text@[at as int]);
        if c == ' ' {
            let ghost before = spans@;
            spans.push(TextSpan { start, end: at });
            assert(spans@ + words_from(text@, at + 1, at + 1) =~= before + words_from(
                text@,
                start as int,
                at as int,
            ));
            start = at + 1;
        }
        at = at + 1;
    }
    let ghost before = spans@;
    spans.push(TextSpan { start, end: at });
    assert(spans@ =~= before + words_from(text@, start as int, at as int));
    spans
}

/// Wraps words of known measurements at a width: returns the lines and the
/// height of the text.
pub fn wrap_words(
    spans: &Vec<TextSpan>,
    measurements: &Vec<TextMeasurement>,
    space_width: i32,
    width: i32,
) -> (wrapped: (Vec<TextLine>, i32))
    requires
        spans.len() == measurements.len(),
    ensures
        wrapped.0@ == wrap_result(spans@, measurements@, space_width, width).lines,
        wrapped.1 == wrap_result(spans@, measurements@, space_width, width).cursor,
{
    let mut lines: Vec<TextLine> = Vec::new();
    let mut cursor: i32 = 0;
    let mut run_empty = true;
    let mut run_start: usize = 0;
    let mut run_end: usize = 0;
    let mut run_width: i32 = 0;
    let mut run_height: i32 = 0;
    let mut run_offset: i32 = 0;
    let count = spans.len();
    let mut i: usize = 0;
    while i < count
        invariant
            count == spans.len(),
            count == measurements.len(),
            i <= count,
            wrap_fold(spans@, measurements@, space_width, width, i as int) == (WrapState {
                lines: lines@,
                cursor,
                run_empty,
                run_start,
                run_end,
                run_width,
                run_height,
                run_offset,
            }),
        decreases count - i,
    {
        let word = spans[i];
        let measured = measurements[i];
        if run_empty && measured.width > width {
            lines.push(TextLine { start: word.start, end: word.end, y: cursor });
            cursor = saturate(cursor as i128 + measured.height as i128);
            run_start = word.end;
            run_end = word.end;
        } else {
            if !run_empty && run_width as i128 + space_width as i128 + measured.width as i128
                > width as i128 {
                lines.push(
                    TextLine {
                        start: run_start,
                        end: run_end,
                        y: saturate(cursor as i128 + run_offset as i128),
                    },
                );
                cursor = saturate(cursor as i128 + run_height as i128);
                run_empty = true;
                run_start = run_end;
                run_width = 0;
                run_height = 0;
                run_offset = 0;
            }
            if run_empty {
                run_start = word.start;
                run_width = saturate(run_width as i128 + measured.width as i128);
            } else {
                run_width = saturate(
                    run_width as i128 + space_width as i128 + measured.width as i128,
                );
            }
            run_empty = false;
            run_end = word.end;
            if measured.height > run_height {
                run_height = measured.height;
            }
            if measured.y_offset > run_offset {
                run_offset = measured.y_offset;
            }
        }
        i = i + 1;
    }
    lines.push(
        TextLine { start: run_start, end: run_end, y: saturate(cursor as i128 + run_offset as i128) },
    );
    cursor = saturate(cursor as i128 + run_height as i128);
    (lines, cursor)
}

/// Measures every word of a text through the cache.
fn measure_words<M: TextMeasurer>(
    text: &str,
    spans: &Vec<TextSpan>,
    font_id: u32,
    font_size: u16,
    cache: &mut StringHashMap<TextMeasurement>,
    measurer: &M,
) -> (measurements: Vec<TextMeasurement>)
    requires
        forall|j: int|
            0 <= j < spans.len() ==> (#[trigger] spans[j]).start <= spans[j].end <= text@.len(),
    ensures
        measurements@ == word_measurements(text@, spans@, font_id, font_size, final(cache)@),
        forall|j: int|
            0 <= j < spans.len() ==> is_cached(
                final(cache)@,
                #[trigger] text@.subrange(spans[j].start as int, spans[j].end as int),
                font_id,
                font_size,
            ),
        cache_kept(old(cache)@, final(cache)@),
{
    let mut measurements: Vec<TextMeasurement> = Vec::new();
    let count = spans.len();
    let mut i: usize = 0;
    while i < count
        invariant
            count == spans.len(),
            i <= count,
            measurements.len() == i,
            forall|j: int|
                0 <= j < spans.len() ==> (#[trigger] spans[j]).start <= spans[j].end <= text@.len(),
            forall|j: int|
                0 <= j < i ==> is_cached(
                    cache@,
                    #[trigger] text@.subrange(spans[j].start as int, spans[j].end as int),
                    font_id,
                    font_size,
                ),
            forall|j: int|
                0 <= j < i ==> #[trigger] measurements[j] == cached(
                    cache@,
                    text@.subrange(spans[j].start as int, spans[j].end as int),
                    font_id,
                    font_size,
                ),
            cache_kept(old(cache)@, cache@),
        decreases count - i,
    {
        let word = text.substring_char(spans[i].start, spans[i].end);
        let ghost before = cache@;
        let measured = get_measurement(cache, measurer, word, font_id, font_size);
        proof {
            assert forall|j: int| 0 <= j < i implies is_cached(
                cache@,
                #[trigger] text@.subrange(spans[j].start as int, spans[j].end as int),
                font_id,
                font_size,
            ) && measurements[j] == cached(
                cache@,
                text@.subrange(spans[j].start as int, spans[j].end as int),
                font_id,
                font_size,
            ) by {
                assert(is_cached(
                    before,
                    text@.subrange(spans[j].start as int, spans[j].end as int),
                    font_id,
                    font_size,
                ));
            }
        }
        measurements.push(measured);
        i = i + 1;
    }
    assert(measurements@ =~= word_measurements(text@, spans@, font_id, font_size, cache@));
    measurements
}

/// Wraps one text at a width: returns its lines and its height.
fn wrap_text_config<M: TextMeasurer>(
    text: &InternalTextConfig,
    width: i32,
    cache: &mut StringHashMap<TextMeasurement>,
    measurer: &M,
) -> (wrapped: (Vec<TextLine>, i32))
    ensures
        wrapped.0@ == wrapped_text(text@, width, final(cache)@).lines,
        wrapped.1 == wrapped_text(text@, width, final(cache)@).cursor,
        words_cached(text@, final(cache)@),
        cache_kept(old(cache)@, final(cache)@),
{
    proof {
        reveal_strlit(" ");
    }
    assert(" "@ =~= seq![' ']);
    let space = get_measurement(cache, measurer, " ", text.font_id, text.font_size);
    let ghost with_space = cache@;
    let spans = split_words(text.text.as_str());
    let measurements = measure_words(
        text.text.as_str(),
        &spans,
        text.font_id,
        text.font_size,
        cache,
        measurer,
    );
    proof {
        assert(is_cached(with_space, seq![' '], text.font_id, text.font_size));
    }
    wrap_words(&spans, &measurements, space.width, width)
}

/// Text wrapping over the whole tree.
pub fn wrap_nodes<M: TextMeasurer>(
    nodes: &mut Vec<Element>,
    cache: &mut StringHashMap<TextMeasurement>,
    measurer: &M,
)
    ensures
        tree_view(final(nodes)@) == wrap_pass(tree_view(old(nodes)@), final(cache)@),
        same_shape(tree_view(old(nodes)@), tree_view(final(nodes)@)),
        forall|i: int|
            0 <= i < old(nodes).len() ==> node_cached(
                #[trigger] tree_view(old(nodes)@)[i],
                final(cache)@,
            ),
        cache_kept(old(cache)@, final(cache)@),
{
    let ghost start = tree_view(nodes@);
    let count = nodes.len();
    let mut i: usize = 0;
    while i < count
        invariant
            nodes.len() == count,
            start.len() == count,
            i <= count,
            same_shape(start, tree_view(nodes@)),
            forall|j: int| 0 <= j < i ==> node_cached(#[trigger] start[j], cache@),
            forall|j: int| 0 <= j < i ==> #[trigger] tree_view(nodes@)[j] == wrap_node(start[j], cache@),
            forall|j: int| i <= j < count ==> #[trigger] tree_view(nodes@)[j] == start[j],
            cache_kept(old(cache)@, cache@),
        decreases count - i,
    {
        let ghost before = cache@;
        let ghost old_nodes = nodes@;
        let width = nodes[i].dimensions.width;
        let wrapped: Option<(Vec<TextLine>, i32)> = match &nodes[i].element_config {
            TypeConfig::Text(text) => if text.break_word {
                Some(wrap_text_config(text, width, cache, measurer))
            } else {
                None
            },
            TypeConfig::Rectangle(_) => None,
        };
        if let Some((lines, height)) = wrapped {
            nodes[i].dimensions.height = height;
            match &mut nodes[i].element_config {
                TypeConfig::Text(text) => {
                    text.text_lines = lines;
                },
                TypeConfig::Rectangle(_) => {},
            }
        }
        proof {
            lemma_tree_view_update(old_nodes, i as int, nodes@[i as int]);
            assert(nodes@ =~= old_nodes.update(i as int, nodes@[i as int]));
            assert forall|j: int| 0 <= j < i implies node_cached(#[trigger] start[j], cache@)
                && tree_view(nodes@)[j] == wrap_node(start[j], cache@) by {
                lemma_wrap_node_kept(start[j], before, cache@);
            }
            assert(tree_view(nodes@)[i as int] == wrap_node(start[i as int], cache@));
            assert(same_shape(start, tree_view(nodes@)));
        }
        i = i + 1;
    }
    assert(tree_view(nodes@) =~= wrap_pass(start, cache@));
}

} // verus!
