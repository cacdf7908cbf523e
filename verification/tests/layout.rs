use ui_library::{
    AlignmentConfig, Color, DimensionConfig, Dimensions, ElementConfig, HorizontalAlignment,
    LayoutContext, LayoutDirection, LayoutError, PaddingConfig, Position, RenderCommand,
    RenderData, TextConfig, TextMeasurement, TextMeasurer, TypeConfig, VerticalAlignment,
};

/// Every character but a space is 10 wide, a space is 10 wide too, and every
/// run is 10 high.
struct Blocks;

impl TextMeasurer for Blocks {
    fn measure(&self, text: &str, _font_id: u32, _font_size: u16) -> TextMeasurement {
        TextMeasurement {
            width: 10 * text.chars().count() as i32,
            height: 10,
            x_offset: 0,
            y_offset: 0,
        }
    }
}

fn boxed(width: DimensionConfig, height: DimensionConfig) -> ElementConfig {
    ElementConfig { width, height, ..ElementConfig::default() }
}

fn rectangle(command: &RenderCommand) -> (Position, Dimensions) {
    match &command.render_data {
        RenderData::Rectangle(data) => (command.position, data.dimenions),
        _ => panic!("not a rectangle"),
    }
}

fn text_of(command: &RenderCommand) -> (Position, String) {
    match &command.render_data {
        RenderData::Text(data) => (command.position, data.text.clone()),
        _ => panic!("not a text"),
    }
}

#[test]
fn fit_over_one_fixed_child() {
    let mut context: LayoutContext<Blocks> = LayoutContext::create_context(100, 100);
    context.begin_layout();
    context.open_element(ElementConfig::new(boxed(DimensionConfig::fit(), DimensionConfig::fit())));
    context.open_element(ElementConfig::new(boxed(
        DimensionConfig::fixed(40),
        DimensionConfig::fixed(30),
    )));
    context.close_element();
    context.close_element();
    let commands = context.end_layout().unwrap();
    assert_eq!(commands.len(), 2);
    assert_eq!(
        rectangle(&commands[0]),
        (Position { x: 0, y: 0 }, Dimensions { width: 40, height: 30 })
    );
    assert_eq!(
        rectangle(&commands[1]),
        (Position { x: 0, y: 0 }, Dimensions { width: 40, height: 30 })
    );
}

#[test]
fn grow_is_shared_fairly() {
    let mut context: LayoutContext<Blocks> = LayoutContext::create_context(400, 400);
    context.begin_layout();
    context.open_element(ElementConfig::new(ElementConfig {
        child_gap: 10,
        ..boxed(DimensionConfig::fixed(200), DimensionConfig::fixed(50))
    }));
    for _ in 0..3 {
        context.open_element(ElementConfig::new(boxed(
            DimensionConfig::grow(),
            DimensionConfig::fixed(5),
        )));
        context.close_element();
    }
    context.close_element();
    let commands = context.end_layout().unwrap();
    assert_eq!(commands.len(), 4);
    assert_eq!(
        rectangle(&commands[0]),
        (Position { x: 0, y: 0 }, Dimensions { width: 200, height: 50 })
    );
    assert_eq!(
        rectangle(&commands[1]),
        (Position { x: 140, y: 0 }, Dimensions { width: 60, height: 5 })
    );
    assert_eq!(
        rectangle(&commands[2]),
        (Position { x: 70, y: 0 }, Dimensions { width: 60, height: 5 })
    );
    assert_eq!(
        rectangle(&commands[3]),
        (Position { x: 0, y: 0 }, Dimensions { width: 60, height: 5 })
    );
}

#[test]
fn grow_respects_a_cap() {
    let mut context: LayoutContext<Blocks> = LayoutContext::create_context(400, 400);
    context.begin_layout();
    context.open_element(ElementConfig::new(boxed(
        DimensionConfig::fixed(200),
        DimensionConfig::fixed(50),
    )));
    context.open_element(ElementConfig::new(boxed(
        DimensionConfig::grow_clamped(0, 80),
        DimensionConfig::fixed(5),
    )));
    context.close_element();
    context.open_element(ElementConfig::new(boxed(
        DimensionConfig::grow(),
        DimensionConfig::fixed(5),
    )));
    context.close_element();
    context.close_element();
    let commands = context.end_layout().unwrap();
    assert_eq!(commands.len(), 3);
    assert_eq!(rectangle(&commands[2]).1.width, 80);
    assert_eq!(rectangle(&commands[1]).1.width, 120);
    assert_eq!(rectangle(&commands[2]).0.x, 0);
    assert_eq!(rectangle(&commands[1]).0.x, 80);
}

#[test]
fn percent_gives_up_padding_and_gap() {
    let mut context: LayoutContext<Blocks> = LayoutContext::create_context(400, 400);
    context.begin_layout();
    context.open_element(ElementConfig::new(ElementConfig {
        padding: PaddingConfig::individual_padding(0, 10, 0, 10),
        child_gap: 10,
        ..boxed(DimensionConfig::fixed(100), DimensionConfig::fixed(50))
    }));
    for _ in 0..2 {
        context.open_element(ElementConfig::new(boxed(
            DimensionConfig::percent(5_000),
            DimensionConfig::fixed(5),
        )));
        context.close_element();
    }
    context.close_element();
    let commands = context.end_layout().unwrap();
    assert_eq!(commands.len(), 3);
    assert_eq!(rectangle(&commands[2]).1.width, 35);
    assert_eq!(rectangle(&commands[1]).1.width, 35);
}

#[test]
fn centered_child() {
    let mut context: LayoutContext<Blocks> = LayoutContext::create_context(400, 400);
    context.begin_layout();
    context.open_element(ElementConfig::new(ElementConfig {
        child_alignment: AlignmentConfig::new(
            HorizontalAlignment::Center,
            VerticalAlignment::Center,
        ),
        ..boxed(DimensionConfig::fixed(100), DimensionConfig::fixed(100))
    }));
    context.open_element(ElementConfig::new(boxed(
        DimensionConfig::fixed(40),
        DimensionConfig::fixed(20),
    )));
    context.close_element();
    context.close_element();
    let commands = context.end_layout().unwrap();
    assert_eq!(
        rectangle(&commands[1]),
        (Position { x: 30, y: 40 }, Dimensions { width: 40, height: 20 })
    );
}

fn wrapped_in_fifty(width: DimensionConfig) -> (Vec<RenderCommand>, LayoutContext<Blocks>) {
    let mut context: LayoutContext<Blocks> = LayoutContext::create_context(400, 400);
    context.set_measurement_fn(Blocks);
    context.begin_layout();
    context.open_element(ElementConfig::new(boxed(
        DimensionConfig::fixed(50),
        DimensionConfig::fit(),
    )));
    context.add_text(
        "AA BB CC",
        TextConfig {
            width,
            height: DimensionConfig::fit(),
            font_id: 0,
            break_word: true,
            font_size: 16,
            font_color: Color { r: 1, g: 2, b: 3, a: 4 },
        },
    );
    context.close_element();
    let commands = context.end_layout().unwrap();
    (commands, context)
}

#[test]
fn text_wraps_at_the_width_of_its_node() {
    for width in [
        DimensionConfig::percent(10_000),
        DimensionConfig::fixed(50),
        DimensionConfig::grow(),
    ] {
        let (commands, context) = wrapped_in_fifty(width);
        assert_eq!(commands.len(), 3);
        assert_eq!(
            rectangle(&commands[0]),
            (Position { x: 0, y: 0 }, Dimensions { width: 50, height: 20 })
        );
        assert_eq!(text_of(&commands[1]), (Position { x: 0, y: 0 }, "AA BB".to_string()));
        assert_eq!(text_of(&commands[2]), (Position { x: 0, y: 10 }, "CC".to_string()));
        let text_node = &context.element_tree_post_order[0];
        assert_eq!(text_node.dimensions, Dimensions { width: 50, height: 20 });
        assert!(matches!(text_node.element_config, TypeConfig::Text(_)));
    }
}

#[test]
fn a_box_left_open_is_unbalanced() {
    let mut context: LayoutContext<Blocks> = LayoutContext::create_context(100, 100);
    context.begin_layout();
    context.open_element(ElementConfig::new(ElementConfig::default()));
    assert_eq!(context.end_layout(), Err(LayoutError::UnbalancedTree));
    context.close_element();
    assert_eq!(context.end_layout().unwrap().len(), 1);
}

#[test]
fn text_without_a_measurer_fails() {
    let mut context: LayoutContext<Blocks> = LayoutContext::create_context(100, 100);
    context.begin_layout();
    context.add_text(
        "hello",
        TextConfig {
            width: DimensionConfig::fixed(10),
            height: DimensionConfig::fit(),
            font_id: 0,
            break_word: true,
            font_size: 16,
            font_color: Color::default(),
        },
    );
    assert_eq!(context.end_layout(), Err(LayoutError::NoMeasurementFunction));
    context.set_measurement_fn(Blocks);
    assert!(context.end_layout().is_ok());
}

#[test]
fn top_to_bottom_stacks_children() {
    let mut context: LayoutContext<Blocks> = LayoutContext::create_context(400, 400);
    context.begin_layout();
    context.open_element(ElementConfig::new(ElementConfig {
        child_layout_direction: LayoutDirection::TopToBottom,
        child_gap: 5,
        padding: PaddingConfig::same_padding(3),
        ..boxed(DimensionConfig::fit(), DimensionConfig::fit())
    }));
    context.open_element(ElementConfig::new(boxed(
        DimensionConfig::fixed(40),
        DimensionConfig::fixed(30),
    )));
    context.close_element();
    context.open_element(ElementConfig::new(boxed(
        DimensionConfig::fixed(60),
        DimensionConfig::fixed(10),
    )));
    context.close_element();
    context.close_element();
    let commands = context.end_layout().unwrap();
    assert_eq!(
        rectangle(&commands[0]),
        (Position { x: 0, y: 0 }, Dimensions { width: 66, height: 51 })
    );
    assert_eq!(
        rectangle(&commands[1]),
        (Position { x: 3, y: 38 }, Dimensions { width: 60, height: 10 })
    );
    assert_eq!(
        rectangle(&commands[2]),
        (Position { x: 3, y: 3 }, Dimensions { width: 40, height: 30 })
    );
}
