use std::cell::Cell;
use ui_library::measure::{construct_key, get_measurement};
use ui_library::render::emit_commands;
use ui_library::units::{floor_div, saturate, times};
use ui_library::wrap::{split_words, wrap_words, TextSpan};
use ui_library::{
    Color, DimensionConfig, Dimensions, Element, ElementConfig, InternalTextConfig, LayoutContext,
    Position, RenderData, TextConfig, TextLine, TextMeasurement, TextMeasurer, TypeConfig,
};
use vstd::hash_map::StringHashMap;

/// Ten units for every character; a run is as high as it has characters and
/// its baseline lies at the number of its `g`s.
struct Glyphs {
    calls: Cell<u32>,
}

impl TextMeasurer for Glyphs {
    fn measure(&self, text: &str, font_id: u32, font_size: u16) -> TextMeasurement {
        self.calls.set(self.calls.get() + 1);
        TextMeasurement {
            width: 10 * text.chars().count() as i32 + font_id as i32,
            height: text.chars().count() as i32 + font_size as i32,
            x_offset: 0,
            y_offset: text.chars().filter(|c| *c == 'g').count() as i32,
        }
    }
}

fn span(start: usize, end: usize) -> TextSpan {
    TextSpan { start, end }
}

fn line(start: usize, end: usize, y: i32) -> TextLine {
    TextLine { start, end, y }
}

fn measured(width: i32, height: i32, y_offset: i32) -> TextMeasurement {
    TextMeasurement { width, height, x_offset: 0, y_offset }
}

#[test]
fn a_key_names_font_size_and_text() {
    assert_eq!(construct_key("ab c", 12, 7), "12:7:ab c");
    assert_eq!(construct_key("", 0, 0), "0:0:");
    assert_eq!(construct_key("3:x", u32::MAX, u16::MAX), "4294967295:65535:3:x");
    assert_ne!(construct_key("x", 1, 23), construct_key("x", 12, 3));
}

#[test]
fn a_measurement_is_asked_for_once() {
    let measurer = Glyphs { calls: Cell::new(0) };
    let mut cache: StringHashMap<TextMeasurement> = StringHashMap::new();
    let first = get_measurement(&mut cache, &measurer, "egg", 2, 5);
    assert_eq!(first, measured(32, 8, 2));
    assert_eq!(measurer.calls.get(), 1);
    assert_eq!(cache.len(), 1);
    assert_eq!(cache.get("2:5:egg"), Some(&first));
    let second = get_measurement(&mut cache, &measurer, "egg", 2, 5);
    assert_eq!(second, first);
    assert_eq!(measurer.calls.get(), 1);
    let other = get_measurement(&mut cache, &measurer, "egg", 3, 5);
    assert_eq!(other, measured(33, 8, 2));
    assert_eq!(measurer.calls.get(), 2);
    assert_eq!(cache.len(), 2);
}

#[test]
fn words_end_at_every_space() {
    assert_eq!(split_words("AA BB CC"), vec![span(0, 2), span(3, 5), span(6, 8)]);
    assert_eq!(split_words(""), vec![span(0, 0)]);
    assert_eq!(split_words("abc"), vec![span(0, 3)]);
    assert_eq!(split_words(" a"), vec![span(0, 0), span(1, 2)]);
    assert_eq!(split_words("a "), vec![span(0, 1), span(2, 2)]);
    assert_eq!(split_words("a  b"), vec![span(0, 1), span(2, 2), span(3, 4)]);
    assert_eq!(split_words("é ü"), vec![span(0, 1), span(2, 3)]);
    assert_eq!(split_words("a\nb c"), vec![span(0, 3), span(4, 5)]);
}

#[test]
fn words_fill_a_line_up_to_its_width() {
    let spans = vec![span(0, 2), span(3, 5), span(6, 8)];
    let sizes = vec![measured(20, 10, 0); 3];
    assert_eq!(wrap_words(&spans, &sizes, 10, 50), (vec![line(0, 5, 0), line(6, 8, 10)], 20));
    assert_eq!(
        wrap_words(&spans, &sizes, 10, 49),
        (vec![line(0, 2, 0), line(3, 5, 10), line(6, 8, 20)], 30)
    );
    assert_eq!(wrap_words(&spans, &sizes, 10, 80), (vec![line(0, 8, 0)], 10));
}

#[test]
fn a_word_that_is_too_long_gets_a_line_of_its_own() {
    let spans = vec![span(0, 4), span(5, 7)];
    let sizes = vec![measured(40, 8, 5), measured(20, 6, 1)];
    assert_eq!(wrap_words(&spans, &sizes, 10, 25), (vec![line(0, 4, 0), line(5, 7, 9)], 14));
    let spans = vec![span(0, 2), span(3, 7)];
    let sizes = vec![measured(20, 6, 1), measured(40, 8, 5)];
    assert_eq!(wrap_words(&spans, &sizes, 10, 25), (vec![line(0, 2, 1), line(3, 7, 11)], 14));
    let spans = vec![span(0, 4)];
    let sizes = vec![measured(40, 8, 5)];
    assert_eq!(wrap_words(&spans, &sizes, 10, 25), (vec![line(0, 4, 0), line(4, 4, 8)], 8));
}

#[test]
fn a_line_is_as_high_as_its_highest_word() {
    let spans = vec![span(0, 1), span(2, 3), span(4, 5), span(6, 7)];
    let sizes =
        vec![measured(10, 1, 0), measured(10, 1, 4), measured(10, 10, 2), measured(10, 10, 0)];
    assert_eq!(wrap_words(&spans, &sizes, 0, 30), (vec![line(0, 5, 4), line(6, 7, 10)], 20));
    assert_eq!(wrap_words(&spans, &sizes, 0, 20), (vec![line(0, 3, 4), line(4, 7, 3)], 11));
}

#[test]
fn an_empty_text_has_one_empty_line() {
    assert_eq!(wrap_words(&vec![span(0, 0)], &vec![measured(0, 7, 2)], 10, 50), (vec![line(0, 0, 2)], 7));
    assert_eq!(wrap_words(&vec![], &vec![], 10, 50), (vec![line(0, 0, 0)], 0));
}

#[test]
fn a_wrapped_text_is_drawn_line_by_line() {
    let mut context: LayoutContext<Glyphs> = LayoutContext::create_context(400, 400);
    context.set_measurement_fn(Glyphs { calls: Cell::new(0) });
    context.begin_layout();
    context.open_element(ElementConfig::new(ElementConfig {
        padding: ui_library::PaddingConfig::same_padding(4),
        ..ElementConfig::default()
    }));
    context.add_text(
        "big egg on a leg",
        TextConfig {
            width: DimensionConfig::fixed(75),
            height: DimensionConfig::fit(),
            font_id: 0,
            break_word: true,
            font_size: 20,
            font_color: Color { r: 9, g: 8, b: 7, a: 6 },
        },
    );
    context.close_element();
    let commands = context.end_layout().unwrap();
    assert_eq!(commands.len(), 4);
    match &commands[0].render_data {
        RenderData::Rectangle(data) => {
            assert_eq!(data.dimenions, Dimensions { width: 83, height: 76 });
        }
        _ => panic!("the box comes first"),
    }
    let expected = [("big egg", 4 + 2), ("on a", 4 + 23), ("leg", 4 + 22 + 23 + 1)];
    for (command, (text, y)) in commands[1..].iter().zip(expected) {
        assert_eq!(command.position, Position { x: 4, y });
        match &command.render_data {
            RenderData::Text(data) => {
                assert_eq!(data.text, text);
                assert_eq!(data.font_id, 0);
                assert_eq!(data.font_size, 20);
                assert_eq!(data.font_color, Color { r: 9, g: 8, b: 7, a: 6 });
            }
            _ => panic!("a text command"),
        }
    }
    let node = &context.element_tree_post_order[0];
    assert_eq!(node.dimensions, Dimensions { width: 75, height: 68 });
    match &node.element_config {
        TypeConfig::Text(text) => {
            assert_eq!(text.text_lines, vec![line(0, 7, 2), line(8, 12, 23), line(13, 16, 46)]);
        }
        TypeConfig::Rectangle(_) => panic!("a text node"),
    }
    assert_eq!(context.measure_text_fn.as_ref().unwrap().calls.get(), 6);
    assert_eq!(context.measure_text_cache.len(), 6);
}

#[test]
fn a_text_that_does_not_break_is_not_drawn() {
    let mut context: LayoutContext<Glyphs> = LayoutContext::create_context(400, 400);
    context.set_measurement_fn(Glyphs { calls: Cell::new(0) });
    context.begin_layout();
    context.add_text(
        "one two",
        TextConfig {
            width: DimensionConfig::fit_clamped(30),
            height: DimensionConfig::fit(),
            font_id: 0,
            break_word: false,
            font_size: 20,
            font_color: Color::default(),
        },
    );
    assert_eq!(context.end_layout().unwrap().len(), 0);
    assert_eq!(context.element_tree_post_order[0].dimensions, Dimensions { width: 30, height: 0 });
    assert_eq!(context.measure_text_fn.as_ref().unwrap().calls.get(), 0);
}

#[test]
fn a_line_beyond_the_text_is_cut_off() {
    let mut text = InternalTextConfig::new_from(
        "héllo",
        TextConfig {
            width: DimensionConfig::fit(),
            height: DimensionConfig::fit(),
            font_id: 3,
            break_word: true,
            font_size: 4,
            font_color: Color::default(),
        },
    );
    text.text_lines = vec![line(1, 3, 5), line(4, 9, i32::MAX), line(7, 2, 0)];
    let mut node = Element::new(1, TypeConfig::Text(text));
    node.position = Position { x: 10, y: 20 };
    let nodes = vec![node, Element::new(0, TypeConfig::Rectangle(ElementConfig::new(ElementConfig::default())))];
    let commands = emit_commands(&nodes, 1);
    let found: Vec<(Position, String)> = commands
        .iter()
        .map(|command| match &command.render_data {
            RenderData::Text(data) => (command.position, data.text.clone()),
            _ => panic!("a text command"),
        })
        .collect();
    assert_eq!(
        found,
        vec![
            (Position { x: 10, y: 25 }, "él".to_string()),
            (Position { x: 10, y: i32::MAX }, "o".to_string()),
            (Position { x: 10, y: 20 }, "".to_string()),
        ]
    );
    assert_eq!(emit_commands(&nodes, 0).len(), 0);
    assert_eq!(emit_commands(&nodes, 2).len(), 4);
}

#[test]
fn units_saturate_and_divide_downwards() {
    assert_eq!(saturate(5), 5);
    assert_eq!(saturate(i32::MAX as i128 + 1), i32::MAX);
    assert_eq!(saturate(i32::MIN as i128 - 1), i32::MIN);
    assert_eq!(saturate(i128::MAX), i32::MAX);
    assert_eq!(floor_div(7, 2), 3);
    assert_eq!(floor_div(-7, 2), -4);
    assert_eq!(floor_div(-8, 2), -4);
    assert_eq!(floor_div(-1, 10_000), -1);
    assert_eq!(floor_div(0, 3), 0);
    assert_eq!(times(3, -4), -12);
    assert_eq!(times(usize::MAX, i32::MIN), usize::MAX as i128 * i32::MIN as i128);
}

#[test]
fn a_narrower_text_has_no_fewer_lines() {
    let text = "a bb ccc dddd eeeee ffffff ggggggg hh i jjjjjjjjjj k";
    let spans = split_words(text);
    let sizes: Vec<TextMeasurement> =
        spans.iter().map(|word| measured(10 * (word.end - word.start) as i32, 7, 2)).collect();
    let mut wider = wrap_words(&spans, &sizes, 10, 0);
    for width in 1..=600 {
        let (lines, height) = wrap_words(&spans, &sizes, 10, width);
        assert!(lines.len() <= wider.0.len());
        assert!(height <= wider.1);
        for line in &lines {
            assert!(line.start <= line.end && line.end <= text.len());
        }
        wider = (lines, height);
    }
    assert_eq!(wider.0, vec![line(0, text.len(), 2)]);
    assert_eq!(wider.1, 7);
}

#[test]
fn a_frame_declared_again_is_drawn_as_it_was() {
    let mut context: LayoutContext<Glyphs> = LayoutContext::create_context(400, 400);
    context.set_measurement_fn(Glyphs { calls: Cell::new(0) });
    let mut frames = Vec::new();
    for _ in 0..3 {
        context.begin_layout();
        context.open_element(ElementConfig::new(ElementConfig {
            width: DimensionConfig::fixed(120),
            child_gap: 7,
            ..ElementConfig::default()
        }));
        context.add_text(
            "a frame of eggs and legs",
            TextConfig {
                width: DimensionConfig::grow(),
                height: DimensionConfig::fit(),
                font_id: 2,
                break_word: true,
                font_size: 11,
                font_color: Color::default(),
            },
        );
        context.open_element(ElementConfig::new(ElementConfig {
            width: DimensionConfig::percent(2_500),
            height: DimensionConfig::grow(),
            ..ElementConfig::default()
        }));
        context.close_element();
        context.close_element();
        frames.push((context.end_layout().unwrap(), context.measure_text_fn.as_ref().unwrap().calls.get()));
    }
    assert!(frames[0].0.len() > 2);
    assert_eq!(frames[0], frames[1]);
    assert_eq!(frames[0], frames[2]);
}
