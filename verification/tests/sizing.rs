use ui_library::{
    AlignmentConfig, DimensionConfig, Dimensions, ElementConfig, HorizontalAlignment,
    LayoutContext, LayoutDirection, PaddingConfig, Position, RenderCommand, RenderData,
    TextMeasurement, TextMeasurer, VerticalAlignment,
};

struct Silent;

impl TextMeasurer for Silent {
    fn measure(&self, _text: &str, _font_id: u32, _font_size: u16) -> TextMeasurement {
        TextMeasurement { width: 0, height: 0, x_offset: 0, y_offset: 0 }
    }
}

fn boxed(width: DimensionConfig, height: DimensionConfig) -> ElementConfig {
    ElementConfig { width, height, ..ElementConfig::default() }
}

fn leaf(context: &mut LayoutContext<Silent>, width: DimensionConfig, height: DimensionConfig) {
    context.open_element(ElementConfig::new(boxed(width, height)));
    context.close_element();
}

fn rectangle(command: &RenderCommand) -> (Position, Dimensions) {
    match &command.render_data {
        RenderData::Rectangle(data) => (command.position, data.dimenions),
        _ => panic!("not a rectangle"),
    }
}

/// Lays out one box with the given children and returns the box and its
/// children, in the order in which they were added.
fn solve(
    parent: ElementConfig,
    children: &[(DimensionConfig, DimensionConfig)],
) -> Vec<(Position, Dimensions)> {
    let mut context: LayoutContext<Silent> = LayoutContext::create_context(1000, 1000);
    context.begin_layout();
    context.open_element(ElementConfig::new(parent));
    for (width, height) in children {
        leaf(&mut context, *width, *height);
    }
    context.close_element();
    let commands = context.end_layout().unwrap();
    assert_eq!(commands.len(), children.len() + 1);
    let mut found = vec![rectangle(&commands[0])];
    for index in (1..commands.len()).rev() {
        found.push(rectangle(&commands[index]));
    }
    found
}

fn widths(found: &[(Position, Dimensions)]) -> Vec<i32> {
    found.iter().map(|(_, size)| size.width).collect()
}

fn heights(found: &[(Position, Dimensions)]) -> Vec<i32> {
    found.iter().map(|(_, size)| size.height).collect()
}

fn fixed(width: i32, height: i32) -> (DimensionConfig, DimensionConfig) {
    (DimensionConfig::fixed(width), DimensionConfig::fixed(height))
}

#[test]
fn fit_adds_children_gaps_and_padding_along_the_row() {
    let found = solve(
        ElementConfig {
            child_gap: 5,
            padding: PaddingConfig::individual_padding(1, 4, 2, 3),
            ..boxed(DimensionConfig::fit(), DimensionConfig::fit())
        },
        &[fixed(40, 10), fixed(60, 30)],
    );
    assert_eq!(found[0].1, Dimensions { width: 112, height: 33 });
}

#[test]
fn fit_keeps_its_minimum() {
    let found = solve(
        ElementConfig {
            child_gap: 5,
            ..boxed(DimensionConfig::fit_clamped(200), DimensionConfig::fit_clamped(7))
        },
        &[fixed(40, 10), fixed(60, 30)],
    );
    assert_eq!(found[0].1, Dimensions { width: 200, height: 30 });
}

#[test]
fn fit_of_an_empty_box_is_its_padding() {
    let found = solve(
        ElementConfig {
            child_gap: 50,
            padding: PaddingConfig::axis_padding(2, 3),
            ..boxed(DimensionConfig::fit(), DimensionConfig::fit())
        },
        &[],
    );
    assert_eq!(found[0].1, Dimensions { width: 6, height: 4 });
}

#[test]
fn fit_takes_the_largest_across_the_row() {
    let found = solve(
        ElementConfig {
            child_layout_direction: LayoutDirection::TopToBottom,
            child_gap: 4,
            ..boxed(DimensionConfig::fit(), DimensionConfig::fit())
        },
        &[fixed(40, 10), fixed(60, 30), fixed(20, 1)],
    );
    assert_eq!(found[0].1, Dimensions { width: 60, height: 49 });
}

#[test]
fn fit_of_one_child_is_the_child() {
    for (width, height) in [(40, 30), (0, 0), (1, 999)] {
        let found = solve(
            boxed(DimensionConfig::fit(), DimensionConfig::fit()),
            &[fixed(width, height)],
        );
        assert_eq!(found[0].1, Dimensions { width, height });
        assert_eq!(found[1], (Position { x: 0, y: 0 }, Dimensions { width, height }));
    }
}

#[test]
fn fit_saturates() {
    let found = solve(
        boxed(DimensionConfig::fit(), DimensionConfig::fit()),
        &[fixed(i32::MAX, 1), fixed(i32::MAX, 1)],
    );
    assert_eq!(found[0].1.width, i32::MAX);
    assert_eq!(found[2].0.x, i32::MAX);
}

#[test]
fn percent_across_the_row_gives_up_padding_only() {
    let share = (DimensionConfig::percent(5_000), DimensionConfig::percent(2_500));
    let found = solve(
        ElementConfig {
            child_layout_direction: LayoutDirection::TopToBottom,
            child_gap: 10,
            padding: PaddingConfig::same_padding(10),
            ..boxed(DimensionConfig::fixed(100), DimensionConfig::fixed(200))
        },
        &[share, share, share],
    );
    assert_eq!(widths(&found), vec![100, 40, 50, 40]);
    assert_eq!(heights(&found), vec![200, 35, 40, 35]);
}

#[test]
fn percent_of_a_single_child_gives_up_both_paddings() {
    let found = solve(
        ElementConfig {
            child_gap: 10,
            padding: PaddingConfig::individual_padding(0, 7, 0, 5),
            ..boxed(DimensionConfig::fixed(100), DimensionConfig::fixed(200))
        },
        &[(DimensionConfig::percent(10_000), DimensionConfig::fixed(1))],
    );
    assert_eq!(widths(&found), vec![100, 88]);
}

#[test]
fn percent_halves_an_odd_gap_into_a_smaller_and_a_larger_half() {
    let share = (DimensionConfig::percent(2_500), DimensionConfig::fixed(1));
    let found = solve(
        ElementConfig {
            child_gap: 5,
            ..boxed(DimensionConfig::fixed(100), DimensionConfig::fixed(200))
        },
        &[share, share, share],
    );
    assert_eq!(widths(&found), vec![100, 23, 20, 22]);
}

#[test]
fn percent_rounds_its_share_downwards() {
    let found = solve(
        boxed(DimensionConfig::fixed(10), DimensionConfig::fixed(10)),
        &[(DimensionConfig::percent(3_333), DimensionConfig::percent(9_999))],
    );
    assert_eq!(found[1].1, Dimensions { width: 3, height: 9 });
}

#[test]
fn percent_may_go_below_zero() {
    let found = solve(
        ElementConfig {
            padding: PaddingConfig::individual_padding(0, 0, 0, 30),
            ..boxed(DimensionConfig::fixed(10), DimensionConfig::fixed(10))
        },
        &[(DimensionConfig::percent(10_000), DimensionConfig::fixed(1))],
    );
    assert_eq!(found[1].1.width, -20);
}

#[test]
fn percent_under_a_growing_box_waits_for_the_box() {
    let mut context: LayoutContext<Silent> = LayoutContext::create_context(1000, 1000);
    context.begin_layout();
    context.open_element(ElementConfig::new(boxed(
        DimensionConfig::fixed(200),
        DimensionConfig::fixed(80),
    )));
    context.open_element(ElementConfig::new(ElementConfig {
        child_layout_direction: LayoutDirection::TopToBottom,
        ..boxed(DimensionConfig::grow(), DimensionConfig::grow())
    }));
    leaf(&mut context, DimensionConfig::percent(5_000), DimensionConfig::percent(2_500));
    context.close_element();
    context.close_element();
    let commands = context.end_layout().unwrap();
    assert_eq!(rectangle(&commands[1]).1, Dimensions { width: 200, height: 80 });
    assert_eq!(rectangle(&commands[2]).1, Dimensions { width: 100, height: 20 });
    for node in &context.element_tree_post_order {
        assert!(!node.grow_on_percent_mark);
    }
}

#[test]
fn grow_leaves_a_remainder_unused() {
    let grow = (DimensionConfig::grow(), DimensionConfig::fixed(1));
    let found = solve(
        boxed(DimensionConfig::fixed(100), DimensionConfig::fixed(10)),
        &[grow, grow, grow],
    );
    assert_eq!(widths(&found), vec![100, 33, 33, 33]);
}

#[test]
fn grow_shares_what_the_others_leave() {
    let found = solve(
        ElementConfig {
            child_gap: 10,
            padding: PaddingConfig::same_padding(5),
            ..boxed(DimensionConfig::fixed(200), DimensionConfig::fixed(10))
        },
        &[
            (DimensionConfig::grow(), DimensionConfig::fixed(1)),
            fixed(50, 1),
            (DimensionConfig::grow(), DimensionConfig::fixed(1)),
        ],
    );
    assert_eq!(widths(&found), vec![200, 60, 50, 60]);
    let places: Vec<i32> = found.iter().map(|(at, _)| at.x).collect();
    assert_eq!(places, vec![0, 5, 75, 135]);
}

#[test]
fn grow_never_takes_from_a_larger_sibling() {
    let found = solve(
        boxed(DimensionConfig::fixed(200), DimensionConfig::fixed(10)),
        &[
            (DimensionConfig::grow_clamped(150, 0), DimensionConfig::fixed(1)),
            (DimensionConfig::grow(), DimensionConfig::fixed(1)),
        ],
    );
    assert_eq!(widths(&found), vec![200, 150, 50]);
}

#[test]
fn grow_raises_the_smallest_first() {
    let found = solve(
        boxed(DimensionConfig::fixed(100), DimensionConfig::fixed(10)),
        &[
            (DimensionConfig::grow_clamped(10, 0), DimensionConfig::fixed(1)),
            (DimensionConfig::grow_clamped(40, 0), DimensionConfig::fixed(1)),
            (DimensionConfig::grow_clamped(20, 25), DimensionConfig::fixed(1)),
        ],
    );
    assert_eq!(widths(&found), vec![100, 35, 40, 25]);
}

#[test]
fn grow_gives_way_in_equal_parts_when_the_box_overflows() {
    let found = solve(
        boxed(DimensionConfig::fixed(100), DimensionConfig::fixed(10)),
        &[
            (DimensionConfig::grow_clamped(80, 0), DimensionConfig::fixed(1)),
            (DimensionConfig::grow_clamped(70, 0), DimensionConfig::fixed(1)),
            fixed(11, 1),
        ],
    );
    assert_eq!(widths(&found), vec![100, 49, 39, 11]);
}

#[test]
fn grow_across_the_row_takes_the_inner_size_under_its_cap() {
    let found = solve(
        ElementConfig {
            child_layout_direction: LayoutDirection::TopToBottom,
            padding: PaddingConfig::same_padding(5),
            child_gap: 3,
            ..boxed(DimensionConfig::fixed(100), DimensionConfig::fixed(60))
        },
        &[
            (DimensionConfig::grow_clamped(0, 20), DimensionConfig::grow()),
            (DimensionConfig::grow(), DimensionConfig::grow_clamped(0, 10)),
        ],
    );
    assert_eq!(widths(&found), vec![100, 20, 90]);
    assert_eq!(heights(&found), vec![60, 37, 10]);
}

#[test]
fn grow_in_a_box_without_growing_children_changes_nothing() {
    let found = solve(
        boxed(DimensionConfig::fixed(100), DimensionConfig::fixed(10)),
        &[fixed(30, 1), fixed(90, 2)],
    );
    assert_eq!(widths(&found), vec![100, 30, 90]);
    assert_eq!(heights(&found), vec![10, 1, 2]);
}

#[test]
fn children_are_aligned_to_the_end() {
    let found = solve(
        ElementConfig {
            child_alignment: AlignmentConfig::new(
                HorizontalAlignment::Right,
                VerticalAlignment::Bottom,
            ),
            child_gap: 10,
            padding: PaddingConfig::individual_padding(1, 2, 3, 4),
            ..boxed(DimensionConfig::fixed(100), DimensionConfig::fixed(50))
        },
        &[fixed(20, 10), fixed(30, 20)],
    );
    assert_eq!(found[1].0, Position { x: 28, y: 37 });
    assert_eq!(found[2].0, Position { x: 58, y: 27 });
}

#[test]
fn children_are_centred_in_a_column() {
    let found = solve(
        ElementConfig {
            child_layout_direction: LayoutDirection::TopToBottom,
            child_alignment: AlignmentConfig::new(
                HorizontalAlignment::Center,
                VerticalAlignment::Center,
            ),
            child_gap: 10,
            padding: PaddingConfig::individual_padding(2, 0, 4, 10),
            ..boxed(DimensionConfig::fixed(100), DimensionConfig::fixed(100))
        },
        &[fixed(20, 10), fixed(31, 20)],
    );
    assert_eq!(found[1].0, Position { x: 35, y: 22 });
    assert_eq!(found[2].0, Position { x: 29, y: 42 });
}

#[test]
fn children_start_behind_the_padding() {
    let found = solve(
        ElementConfig {
            child_gap: 10,
            padding: PaddingConfig::individual_padding(1, 2, 3, 4),
            ..boxed(DimensionConfig::fixed(100), DimensionConfig::fixed(50))
        },
        &[fixed(20, 10), fixed(30, 20)],
    );
    assert_eq!(found[1].0, Position { x: 4, y: 1 });
    assert_eq!(found[2].0, Position { x: 34, y: 1 });
}

#[test]
fn positions_are_absolute() {
    let mut context: LayoutContext<Silent> = LayoutContext::create_context(1000, 1000);
    context.begin_layout();
    leaf(&mut context, DimensionConfig::fixed(100), DimensionConfig::fixed(10));
    context.open_element(ElementConfig::new(ElementConfig {
        padding: PaddingConfig::same_padding(7),
        ..boxed(DimensionConfig::fit(), DimensionConfig::fit())
    }));
    context.open_element(ElementConfig::new(ElementConfig {
        padding: PaddingConfig::same_padding(2),
        ..boxed(DimensionConfig::fit(), DimensionConfig::fit())
    }));
    leaf(&mut context, DimensionConfig::fixed(5), DimensionConfig::fixed(5));
    context.close_element();
    context.close_element();
    let commands = context.end_layout().unwrap();
    let found: Vec<(Position, Dimensions)> = commands.iter().map(rectangle).collect();
    assert_eq!(
        found,
        vec![
            (Position { x: 100, y: 0 }, Dimensions { width: 23, height: 23 }),
            (Position { x: 107, y: 7 }, Dimensions { width: 9, height: 9 }),
            (Position { x: 109, y: 9 }, Dimensions { width: 5, height: 5 }),
            (Position { x: 0, y: 0 }, Dimensions { width: 100, height: 10 }),
        ]
    );
}

#[test]
fn positioning_again_changes_nothing() {
    let mut context: LayoutContext<Silent> = LayoutContext::create_context(1000, 1000);
    context.begin_layout();
    context.open_element(ElementConfig::new(ElementConfig {
        child_alignment: AlignmentConfig::new(
            HorizontalAlignment::Center,
            VerticalAlignment::Bottom,
        ),
        padding: PaddingConfig::same_padding(7),
        child_gap: 3,
        ..boxed(DimensionConfig::fixed(300), DimensionConfig::fixed(200))
    }));
    leaf(&mut context, DimensionConfig::fixed(50), DimensionConfig::grow());
    leaf(&mut context, DimensionConfig::grow(), DimensionConfig::percent(5_000));
    context.close_element();
    context.end_layout().unwrap();
    let solved = context.element_tree_post_order.clone();
    context.position_element();
    assert_eq!(context.element_tree_post_order, solved);
}

#[test]
fn the_draw_list_runs_backwards_through_the_tree() {
    let mut context: LayoutContext<Silent> = LayoutContext::create_context(1000, 1000);
    context.begin_layout();
    for outer in 0..3 {
        context.open_element(ElementConfig::new(boxed(
            DimensionConfig::fixed(100 + outer),
            DimensionConfig::fixed(100),
        )));
        for inner in 0..2 {
            leaf(
                &mut context,
                DimensionConfig::fixed(10 * (outer + 1) + inner),
                DimensionConfig::fixed(1),
            );
        }
        context.close_element();
    }
    let commands = context.end_layout().unwrap();
    let found: Vec<i32> = commands.iter().map(|command| rectangle(command).1.width).collect();
    assert_eq!(found, vec![102, 31, 30, 101, 21, 20, 100, 11, 10]);
}

#[test]
fn grow_across_the_row_keeps_a_cap_in_a_wide_box() {
    let found = solve(
        ElementConfig {
            child_layout_direction: LayoutDirection::TopToBottom,
            ..boxed(DimensionConfig::fixed(200), DimensionConfig::fixed(100))
        },
        &[
            (DimensionConfig::grow_clamped(0, 80), DimensionConfig::fixed(10)),
            (DimensionConfig::grow_clamped(0, 300), DimensionConfig::fixed(10)),
            (DimensionConfig::grow_clamped(90, 80), DimensionConfig::fixed(10)),
        ],
    );
    assert_eq!(widths(&found), vec![200, 80, 200, 80]);
}

#[test]
fn grow_across_the_column_keeps_a_cap() {
    let found = solve(
        ElementConfig {
            padding: PaddingConfig::same_padding(10),
            ..boxed(DimensionConfig::fixed(200), DimensionConfig::fixed(100))
        },
        &[
            (DimensionConfig::fixed(10), DimensionConfig::grow_clamped(0, 30)),
            (DimensionConfig::fixed(10), DimensionConfig::grow()),
        ],
    );
    assert_eq!(heights(&found), vec![100, 30, 80]);
}

#[test]
fn percent_children_with_gaps_and_padding_take_their_shares() {
    let half = (DimensionConfig::percent(5_000), DimensionConfig::fixed(1));
    let even = solve(
        ElementConfig {
            child_gap: 6,
            padding: PaddingConfig::individual_padding(0, 4, 0, 3),
            ..boxed(DimensionConfig::fixed(100), DimensionConfig::fixed(10))
        },
        &[half, half],
    );
    assert_eq!(widths(&even), vec![100, 44, 43]);
    assert_eq!(44 + 43 + 6 + 3 + 4, 100);
    let odd = solve(
        ElementConfig {
            child_gap: 5,
            ..boxed(DimensionConfig::fixed(100), DimensionConfig::fixed(10))
        },
        &[half, half],
    );
    assert_eq!(widths(&odd), vec![100, 48, 47]);
    assert_eq!(48 + 47 + 5, 100);
    let negative = solve(
        ElementConfig {
            child_gap: -5,
            ..boxed(DimensionConfig::fixed(100), DimensionConfig::fixed(10))
        },
        &[half, half],
    );
    assert_eq!(widths(&negative), vec![100, 53, 52]);
    assert_eq!(53 + 52 - 5, 100);
    let third = (DimensionConfig::percent(3_333), DimensionConfig::fixed(1));
    let thirds = solve(
        boxed(DimensionConfig::fixed(100), DimensionConfig::fixed(10)),
        &[third, third, third],
    );
    assert_eq!(widths(&thirds), vec![100, 33, 33, 33]);
}

#[test]
fn growers_of_one_minimum_take_the_even_share() {
    let grower = (DimensionConfig::grow_clamped(10, 0), DimensionConfig::fixed(1));
    let found = solve(
        ElementConfig {
            child_gap: 4,
            padding: PaddingConfig::individual_padding(0, 2, 0, 1),
            ..boxed(DimensionConfig::fixed(100), DimensionConfig::fixed(10))
        },
        &[grower, fixed(20, 1), grower, grower],
    );
    assert_eq!((100 - 1 - 2 - 3 * 4 - 20) / 3, 21);
    assert_eq!(widths(&found), vec![100, 21, 20, 21, 21]);
}
