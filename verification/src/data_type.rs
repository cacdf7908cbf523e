//! Value types of the layout engine: geometry, sizing descriptors, element
//! configuration and the render commands that a finished layout yields.
//!
//! All lengths and coordinates are whole layout units held in `i32`. The host
//! picks the scale of a unit (a device pixel, or a fraction of one).

use std::rc::Rc;
use vstd::prelude::*;

verus! {

/// The value of `PercentDimenionConfig::percent` that stands for the whole of
/// the parent: a share is counted in hundredths of a percent.
pub const PERCENT_WHOLE: u32 = 10_000;

/// Resolved extent of a node.
#[derive(Clone, Copy, Debug, PartialEq, Eq)]
pub struct Dimensions {
    pub width: i32,
    pub height: i32,
}

/// Resolved place of a node's top-left corner; y grows downwards.
#[derive(Clone, Copy, Debug, PartialEq, Eq)]
pub struct Position {
    pub x: i32,
    pub y: i32,
}

/// Four 8-bit channels.
#[derive(Clone, Copy, Debug, PartialEq, Eq)]
pub struct Color {
    pub r: u8,
    pub g: u8,
    pub b: u8,
    pub a: u8,
}

/// Shrink to the children, but never below `min_size`.
#[derive(Clone, Copy, Debug, PartialEq, Eq)]
pub struct FitSizingConfig {
    pub min_size: i32,
}

/// Exactly `size`.
#[derive(Clone, Copy, Debug, PartialEq, Eq)]
pub struct FixedDimensionConfig {
    pub size: i32,
}

/// Start at `min_size` and take a share of the room that the parent has
/// left. A `max_size` above zero caps the growth; zero or less means no cap.
#[derive(Clone, Copy, Debug, PartialEq, Eq)]
pub struct GrowDimensionConfig {
    pub min_size: i32,
    pub max_size: i32,
}

/// A share of the parent's size, in units of 1 / `PERCENT_WHOLE`.
#[derive(Clone, Copy, Debug, PartialEq, Eq)]
pub struct PercentDimenionConfig {
    pub percent: u32,
}

/// How one axis of a node is sized.
#[derive(Clone, Copy, Debug, PartialEq, Eq)]
pub enum DimensionConfig {
    Fixed(FixedDimensionConfig),
    Fit(FitSizingConfig),
    Grow(GrowDimensionConfig),
    Percent(PercentDimenionConfig),
}

/// Room kept free between a box's border and its children.
#[derive(Clone, Copy, Debug, PartialEq, Eq)]
pub struct PaddingConfig {
    pub left: i32,
    pub right: i32,
    pub top: i32,
    pub bottom: i32,
}

#[derive(Clone, Copy, Debug, PartialEq, Eq)]
pub enum HorizontalAlignment {
    Left,
    Center,
    Right,
}

#[derive(Clone, Copy, Debug, PartialEq, Eq)]
pub enum VerticalAlignment {
    Top,
    Center,
    Bottom,
}

/// The axis along which a box lines up its children.
#[derive(Clone, Copy, Debug, PartialEq, Eq)]
pub enum LayoutDirection {
    LeftToRight,
    TopToBottom,
}

/// Where a box puts its children inside its padded area.
#[derive(Clone, Copy, Debug, PartialEq, Eq)]
pub struct AlignmentConfig {
    pub align_x: HorizontalAlignment,
    pub align_y: VerticalAlignment,
}

/// Everything a box is declared with.
#[derive(Clone, Copy, Debug, PartialEq, Eq)]
pub struct ElementConfig {
    pub width: DimensionConfig,
    pub height: DimensionConfig,
    pub padding: PaddingConfig,
    pub child_gap: i32,
    pub child_alignment: AlignmentConfig,
    pub child_layout_direction: LayoutDirection,
    pub color: Color,
}

/// Everything a text leaf is declared with, apart from the string itself.
#[derive(Clone, Copy, Debug, PartialEq, Eq)]
pub struct TextConfig {
    pub width: DimensionConfig,
    pub height: DimensionConfig,
    pub font_id: u32,
    pub break_word: bool,
    pub font_size: u16,
    pub font_color: Color,
}

/// What the host reports for one run of text.
#[derive(Clone, Copy, Debug, PartialEq, Eq)]
pub struct TextMeasurement {
    pub width: i32,
    pub height: i32,
    /// Advance offsets of the run; `y_offset` is the distance from the top of
    /// the line to the baseline.
    pub x_offset: i32,
    pub y_offset: i32,
}

#[derive(Clone, Debug, PartialEq, Eq)]
pub struct TextRenderData {
    pub font_id: u32,
    pub text: String,
    pub font_size: u16,
    pub font_color: Color,
}

#[derive(Clone, Copy, Debug, PartialEq, Eq)]
pub struct RectangleRenderData {
    pub dimenions: Dimensions,
    pub color: Color,
}

#[derive(Clone, Copy, Debug, PartialEq, Eq)]
pub struct ImageRenderData {
    pub image_id: u32,
    pub dimensions: Dimensions,
}

#[derive(Clone, Copy, Debug, PartialEq, Eq)]
pub struct BorderRenderData {}

/// What to draw. Only `Text` and `Rectangle` are produced by a layout; the
/// other variants are reserved.
#[derive(Clone, Debug, PartialEq, Eq)]
pub enum RenderData {
    Text(TextRenderData),
    Rectangle(RectangleRenderData),
    Image(ImageRenderData),
    Border(BorderRenderData),
    Custom,
}

/// One entry of the draw list.
#[derive(Clone, Debug, PartialEq, Eq)]
pub struct RenderCommand {
    pub position: Position,
    pub render_data: RenderData,
}

/// A render payload with its string seen as a sequence of characters.
pub enum RenderDataView {
    Text { font_id: u32, text: Seq<char>, font_size: u16, font_color: Color },
    Rectangle(RectangleRenderData),
    Image(ImageRenderData),
    Border(BorderRenderData),
    Custom,
}

/// A render command with its string seen as a sequence of characters.
pub struct RenderCommandView {
    pub position: Position,
    pub render_data: RenderDataView,
}

impl View for RenderData {
    type V = RenderDataView;

    open spec fn view(&self) -> RenderDataView {
        match *self {
            RenderData::Text(t) => RenderDataView::Text {
                font_id: t.font_id,
                text: t.text@,
                font_size: t.font_size,
                font_color: t.font_color,
            },
            RenderData::Rectangle(r) => RenderDataView::Rectangle(r),
            RenderData::Image(i) => RenderDataView::Image(i),
            RenderData::Border(b) => RenderDataView::Border(b),
            RenderData::Custom => RenderDataView::Custom,
        }
    }
}

impl View for RenderCommand {
    type V = RenderCommandView;

    open spec fn view(&self) -> RenderCommandView {
        RenderCommandView { position: self.position, render_data: self.render_data@ }
    }
}

impl ElementConfig {
    /// Puts a configuration behind a shared pointer, as the builder takes it.
    pub fn new(config: ElementConfig) -> (shared: Rc<ElementConfig>)
        ensures
            *shared == config,
    {
        Rc::new(config)
    }

    /// A fresh shared pointer to a copy of `config`.
    pub fn new_from(config: Rc<ElementConfig>) -> (shared: Rc<ElementConfig>)
        ensures
            *shared == *config,
    {
        Rc::new(*config)
    }
}

impl DimensionConfig {
    pub fn fit() -> (config: DimensionConfig)
        ensures
            config == DimensionConfig::Fit(FitSizingConfig { min_size: 0 }),
    {
        DimensionConfig::Fit(FitSizingConfig { min_size: 0 })
    }

    pub fn fit_clamped(min_size: i32) -> (config: DimensionConfig)
        ensures
            config == DimensionConfig::Fit(FitSizingConfig { min_size }),
    {
        DimensionConfig::Fit(FitSizingConfig { min_size })
    }

    pub fn grow() -> (config: DimensionConfig)
        ensures
            config == DimensionConfig::Grow(GrowDimensionConfig { min_size: 0, max_size: 0 }),
    {
        DimensionConfig::Grow(GrowDimensionConfig { min_size: 0, max_size: 0 })
    }

    pub fn grow_clamped(min_size: i32, max_size: i32) -> (config: DimensionConfig)
        ensures
            config == DimensionConfig::Grow(GrowDimensionConfig { min_size, max_size }),
    {
        DimensionConfig::Grow(GrowDimensionConfig { min_size, max_size })
    }

    pub fn fixed(size: i32) -> (config: DimensionConfig)
        ensures
            config == DimensionConfig::Fixed(FixedDimensionConfig { size }),
    {
        DimensionConfig::Fixed(FixedDimensionConfig { size })
    }

    pub fn percent(percent: u32) -> (config: DimensionConfig)
        ensures
            config == DimensionConfig::Percent(PercentDimenionConfig { percent }),
    {
        DimensionConfig::Percent(PercentDimenionConfig { percent })
    }

    /// The size a node has before any pass has run: a fixed size, the lower
    /// bound of a growing one, and zero where only the solver can tell.
    pub open spec fn initial_size(self) -> i32 {
        match self {
            DimensionConfig::Fixed(c) => c.size,
            DimensionConfig::Grow(c) => c.min_size,
            DimensionConfig::Fit(_) => 0,
            DimensionConfig::Percent(_) => 0,
        }
    }
}

impl PaddingConfig {
    pub fn same_padding(padding: i32) -> (config: PaddingConfig)
        ensures
            config == (PaddingConfig { left: padding, right: padding, top: padding, bottom: padding }),
    {
        PaddingConfig { left: padding, right: padding, top: padding, bottom: padding }
    }

    pub fn axis_padding(top_bottom: i32, left_right: i32) -> (config: PaddingConfig)
        ensures
            config == (PaddingConfig {
                left: left_right,
                right: left_right,
                top: top_bottom,
                bottom: top_bottom,
            }),
    {
        PaddingConfig { left: left_right, right: left_right, top: top_bottom, bottom: top_bottom }
    }

    pub fn individual_padding(top: i32, right: i32, bottom: i32, left: i32) -> (config:
        PaddingConfig)
        ensures
            config == (PaddingConfig { left, right, top, bottom }),
    {
        PaddingConfig { top, right, bottom, left }
    }

    pub fn no_padding() -> (config: PaddingConfig)
        ensures
            config == (PaddingConfig { left: 0, right: 0, top: 0, bottom: 0 }),
    {
        PaddingConfig { left: 0, right: 0, top: 0, bottom: 0 }
    }
}

impl AlignmentConfig {
    pub fn new(align_x: HorizontalAlignment, align_y: VerticalAlignment) -> (config:
        AlignmentConfig)
        ensures
            config == (AlignmentConfig { align_x, align_y }),
    {
        AlignmentConfig { align_y, align_x }
    }
}

impl Default for AlignmentConfig {
    fn default() -> (config: AlignmentConfig)
        ensures
            config == (AlignmentConfig {
                align_x: HorizontalAlignment::Left,
                align_y: VerticalAlignment::Top,
            }),
    {
        AlignmentConfig { align_x: HorizontalAlignment::Left, align_y: VerticalAlignment::Top }
    }
}

impl Default for Color {
    fn default() -> (color: Color)
        ensures
            color == (Color { r: 249, g: 4, b: 225, a: 255 }),
    {
        Color { r: 249, g: 4, b: 225, a: 255 }
    }
}

impl Default for Dimensions {
    fn default() -> (dimensions: Dimensions)
        ensures
            dimensions == (Dimensions { width: 0, height: 0 }),
    {
        Dimensions { width: 0, height: 0 }
    }
}

impl Default for Position {
    fn default() -> (position: Position)
        ensures
            position == (Position { x: 0, y: 0 }),
    {
        Position { x: 0, y: 0 }
    }
}

impl ElementConfig {
    /// The configuration that `ElementConfig::default()` returns: fit on both
    /// axes, no padding, no gap, children from the left at the top.
    pub open spec fn default_spec() -> ElementConfig {
        ElementConfig {
            width: DimensionConfig::Fit(FitSizingConfig { min_size: 0 }),
            height: DimensionConfig::Fit(FitSizingConfig { min_size: 0 }),
            padding: PaddingConfig { left: 0, right: 0, top: 0, bottom: 0 },
            child_gap: 0,
            child_alignment: AlignmentConfig {
                align_x: HorizontalAlignment::Left,
                align_y: VerticalAlignment::Top,
            },
            child_layout_direction: LayoutDirection::LeftToRight,
            color: Color { r: 249, g: 4, b: 225, a: 255 },
        }
    }
}

impl Default for ElementConfig {
    fn default() -> (config: ElementConfig)
        ensures
            config == ElementConfig::default_spec(),
    {
        ElementConfig {
            width: DimensionConfig::fit(),
            height: DimensionConfig::fit(),
            padding: PaddingConfig::same_padding(0),
            child_gap: 0,
            child_alignment: AlignmentConfig {
                align_x: HorizontalAlignment::Left,
                align_y: VerticalAlignment::Top,
            },
            child_layout_direction: LayoutDirection::LeftToRight,
            color: Color { r: 249, g: 4, b: 225, a: 255 },
        }
    }
}

} // verus!
