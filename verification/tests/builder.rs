use std::cell::Cell;
use ui_library::{
    Color, DimensionConfig, Dimensions, ElementConfig, LayoutContext, Position, TextConfig,
    TextMeasurement, TextMeasurer, TypeConfig,
};

/// Ten units for every character, and a count of the calls.
struct Counting {
    calls: Cell<u32>,
}

impl Counting {
    fn new() -> Counting {
        Counting { calls: Cell::new(0) }
    }
}

impl TextMeasurer for Counting {
    fn measure(&self, text: &str, _font_id: u32, _font_size: u16) -> TextMeasurement {
        self.calls.set(self.calls.get() + 1);
        TextMeasurement {
            width: 10 * text.chars().count() as i32,
            height: 12,
            x_offset: 0,
            y_offset: 3,
        }
    }
}

fn text_config(width: DimensionConfig) -> TextConfig {
    TextConfig {
        width,
        height: DimensionConfig::fit(),
        font_id: 1,
        break_word: false,
        font_size: 9,
        font_color: Color::default(),
    }
}

fn boxed(width: DimensionConfig, height: DimensionConfig) -> ElementConfig {
    ElementConfig { width, height, ..ElementConfig::default() }
}

#[test]
fn a_new_context_is_empty() {
    let context: LayoutContext<Counting> = LayoutContext::create_context(640, 480);
    assert!(context.element_stack.is_empty());
    assert!(context.element_tree_post_order.is_empty());
    assert_eq!(context.top_id, 0);
    assert_eq!(context.root_dimensions, Dimensions { width: 640, height: 480 });
    assert!(context.measure_text_fn.is_none());
    assert_eq!(context.measure_text_cache.len(), 0);
}

#[test]
fn begin_opens_the_root() {
    let mut context: LayoutContext<Counting> = LayoutContext::create_context(640, 480);
    context.begin_layout();
    assert_eq!(context.element_stack.len(), 1);
    assert_eq!(context.top_id, 1);
    let root = &context.element_stack[0];
    assert_eq!(root.id, 0);
    match &root.element_config {
        TypeConfig::Rectangle(config) => {
            assert_eq!(
                **config,
                ElementConfig {
                    width: DimensionConfig::fixed(640),
                    height: DimensionConfig::fixed(480),
                    ..ElementConfig::default()
                }
            );
        }
        TypeConfig::Text(_) => panic!("the root is a box"),
    }
}

#[test]
fn ids_rise_in_the_order_of_declaration() {
    let mut context: LayoutContext<Counting> = LayoutContext::create_context(640, 480);
    context.begin_layout();
    context.open_element(ElementConfig::new(ElementConfig::default()));
    context.add_text("a", text_config(DimensionConfig::fixed(5)));
    context.open_element(ElementConfig::new(ElementConfig::default()));
    context.close_element();
    context.close_element();
    assert_eq!(context.top_id, 4);
    let ids: Vec<u64> = context.element_tree_post_order.iter().map(|node| node.id).collect();
    assert_eq!(ids, vec![2, 3, 1]);
    assert_eq!(context.element_tree_post_order[2].child_elements, vec![0, 1]);
    assert_eq!(context.element_stack[0].child_elements, vec![2]);
}

#[test]
fn a_closed_box_starts_from_its_descriptors() {
    let mut context: LayoutContext<Counting> = LayoutContext::create_context(640, 480);
    context.begin_layout();
    let cases = [
        (DimensionConfig::fixed(31), 31),
        (DimensionConfig::grow_clamped(7, 90), 7),
        (DimensionConfig::percent(5_000), 0),
        (DimensionConfig::fit_clamped(20), 0),
    ];
    for (config, _) in cases {
        context.open_element(ElementConfig::new(boxed(config, config)));
        context.close_element();
    }
    for (index, (_, size)) in cases.iter().enumerate() {
        let node = &context.element_tree_post_order[index];
        assert_eq!(node.dimensions, Dimensions { width: *size, height: *size });
        assert_eq!(node.position, Position { x: 0, y: 0 });
        assert!(!node.grow_on_percent_mark);
    }
}

#[test]
fn a_text_starts_from_its_width_descriptor() {
    let mut context: LayoutContext<Counting> = LayoutContext::create_context(640, 480);
    context.set_measurement_fn(Counting::new());
    context.begin_layout();
    context.add_text("abc def", text_config(DimensionConfig::fixed(33)));
    context.add_text("abc def", text_config(DimensionConfig::grow()));
    context.add_text("abc def", text_config(DimensionConfig::percent(100)));
    context.add_text("abc def", text_config(DimensionConfig::fit_clamped(40)));
    let widths: Vec<i32> =
        context.element_tree_post_order.iter().map(|node| node.dimensions.width).collect();
    assert_eq!(widths, vec![33, 70, 0, 0]);
    for node in &context.element_tree_post_order {
        assert_eq!(node.dimensions.height, 0);
        match &node.element_config {
            TypeConfig::Text(text) => {
                assert_eq!(text.text, "abc def");
                assert_eq!(text.font_id, 1);
                assert_eq!(text.font_size, 9);
                assert!(text.text_lines.is_empty());
            }
            TypeConfig::Rectangle(_) => panic!("a text was added"),
        }
    }
}

#[test]
fn a_growing_text_without_a_measurer_starts_empty() {
    let mut context: LayoutContext<Counting> = LayoutContext::create_context(640, 480);
    context.begin_layout();
    context.add_text("abc def", text_config(DimensionConfig::grow()));
    assert_eq!(context.element_tree_post_order[0].dimensions.width, 0);
}

#[test]
fn the_seed_of_a_growing_text_is_measured_once() {
    let mut context: LayoutContext<Counting> = LayoutContext::create_context(640, 480);
    context.set_measurement_fn(Counting::new());
    context.begin_layout();
    context.add_text("abc def", text_config(DimensionConfig::grow()));
    context.add_text("abc def", text_config(DimensionConfig::grow()));
    assert_eq!(context.measure_text_fn.as_ref().unwrap().calls.get(), 1);
    assert_eq!(context.measure_text_cache.len(), 1);
    context.begin_layout();
    context.add_text("abc def", text_config(DimensionConfig::grow()));
    assert_eq!(context.measure_text_fn.as_ref().unwrap().calls.get(), 1);
}

#[test]
fn add_element_brackets_what_is_declared_inside() {
    let mut context: LayoutContext<Counting> = LayoutContext::create_context(640, 480);
    context.set_measurement_fn(Counting::new());
    context.begin_layout();
    context.add_element(
        ElementConfig::new(boxed(DimensionConfig::fixed(100), DimensionConfig::fixed(50))),
        |inner| {
            inner.add_element(
                ElementConfig::new(boxed(DimensionConfig::fixed(10), DimensionConfig::fixed(5))),
                |_| {},
            );
            inner.add_text("x", text_config(DimensionConfig::fixed(3)));
        },
    );
    assert_eq!(context.element_stack.len(), 1);
    let ids: Vec<u64> = context.element_tree_post_order.iter().map(|node| node.id).collect();
    assert_eq!(ids, vec![2, 3, 1]);
    assert_eq!(context.element_tree_post_order[2].child_elements, vec![0, 1]);
    assert_eq!(
        context.element_tree_post_order[2].dimensions,
        Dimensions { width: 100, height: 50 }
    );
    let commands = context.end_layout().unwrap();
    assert_eq!(commands.len(), 2);
}

#[test]
fn begin_drops_the_last_frame() {
    let mut context: LayoutContext<Counting> = LayoutContext::create_context(640, 480);
    context.begin_layout();
    context.open_element(ElementConfig::new(ElementConfig::default()));
    context.close_element();
    assert_eq!(context.end_layout().unwrap().len(), 1);
    assert!(context.element_stack.is_empty());
    assert_eq!(context.element_tree_post_order.len(), 1);
    context.begin_layout();
    assert_eq!(context.element_stack.len(), 1);
    assert!(context.element_tree_post_order.is_empty());
    assert_eq!(context.top_id, 1);
    assert_eq!(context.end_layout().unwrap().len(), 0);
}

#[test]
fn a_failed_end_changes_nothing() {
    let mut context: LayoutContext<Counting> = LayoutContext::create_context(640, 480);
    context.begin_layout();
    context.open_element(ElementConfig::new(ElementConfig::default()));
    context.open_element(ElementConfig::new(ElementConfig::default()));
    context.close_element();
    let stack = context.element_stack.clone();
    let nodes = context.element_tree_post_order.clone();
    assert!(context.end_layout().is_err());
    assert_eq!(context.element_stack, stack);
    assert_eq!(context.element_tree_post_order, nodes);
    assert_eq!(context.top_id, 3);
}

#[test]
fn ending_before_begin_is_unbalanced() {
    let mut context: LayoutContext<Counting> = LayoutContext::create_context(640, 480);
    assert_eq!(context.end_layout(), Err(ui_library::LayoutError::UnbalancedTree));
}

#[test]
fn ending_twice_is_unbalanced() {
    let mut context: LayoutContext<Counting> = LayoutContext::create_context(640, 480);
    context.begin_layout();
    context.open_element(ElementConfig::new(ElementConfig::default()));
    context.close_element();
    assert_eq!(context.end_layout().unwrap().len(), 1);
    let nodes = context.element_tree_post_order.clone();
    assert_eq!(context.end_layout(), Err(ui_library::LayoutError::UnbalancedTree));
    assert_eq!(context.element_tree_post_order, nodes);
    assert!(context.element_stack.is_empty());
}

#[test]
fn ending_inside_a_box_is_unbalanced() {
    let mut context: LayoutContext<Counting> = LayoutContext::create_context(640, 480);
    context.begin_layout();
    context.add_element(ElementConfig::new(ElementConfig::default()), |inner| {
        assert_eq!(inner.end_layout(), Err(ui_library::LayoutError::UnbalancedTree));
    });
    assert_eq!(context.end_layout().unwrap().len(), 1);
}

#[test]
fn a_box_left_open_inside_add_element_shows_at_the_end() {
    let mut context: LayoutContext<Counting> = LayoutContext::create_context(640, 480);
    context.begin_layout();
    context.add_element(
        ElementConfig::new(boxed(DimensionConfig::fixed(100), DimensionConfig::fixed(50))),
        |inner| {
            inner.open_element(ElementConfig::new(boxed(
                DimensionConfig::fixed(10),
                DimensionConfig::fixed(5),
            )));
        },
    );
    assert_eq!(context.element_stack.len(), 2);
    assert_eq!(context.element_tree_post_order.len(), 1);
    assert_eq!(context.element_tree_post_order[0].id, 2);
    assert_eq!(context.end_layout(), Err(ui_library::LayoutError::UnbalancedTree));
    context.close_element();
    assert_eq!(context.end_layout().unwrap().len(), 2);
}

#[test]
fn a_text_that_does_not_grow_leaves_the_cache_alone() {
    let mut context: LayoutContext<Counting> = LayoutContext::create_context(640, 480);
    context.set_measurement_fn(Counting::new());
    context.begin_layout();
    context.add_text("abc", text_config(DimensionConfig::fixed(5)));
    context.add_text("abc", text_config(DimensionConfig::percent(5)));
    context.add_text("abc", text_config(DimensionConfig::fit()));
    assert_eq!(context.measure_text_cache.len(), 0);
    context.add_text("abc", text_config(DimensionConfig::grow()));
    assert_eq!(context.measure_text_cache.len(), 1);
    assert!(context.measure_text_cache.contains_key("1:9:abc"));
}
