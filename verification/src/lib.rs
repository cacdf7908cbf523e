//! An immediate-mode layout engine. Each frame the host declares a tree of
//! boxes and text leaves; the engine resolves sizes and positions in a fixed
//! sequence of passes and hands back an ordered draw list.

pub mod context;
pub mod data_type;
pub mod descent;
pub mod element;
pub mod fit;
pub mod grow;
pub mod laws;
pub mod measure;
pub mod percent;
pub mod position;
pub mod render;
pub mod solver;
pub mod units;
pub mod wrap;

pub use context::LayoutContext;
pub use data_type::{
    AlignmentConfig, BorderRenderData, Color, DimensionConfig, Dimensions, ElementConfig,
    FitSizingConfig, FixedDimensionConfig, GrowDimensionConfig, HorizontalAlignment,
    ImageRenderData, LayoutDirection, PaddingConfig, PercentDimenionConfig, Position,
    RectangleRenderData, RenderCommand, RenderData, TextConfig, TextMeasurement, TextRenderData,
    VerticalAlignment, PERCENT_WHOLE,
};
pub use element::{Element, InternalTextConfig, TextLine, TypeConfig};
pub use measure::{construct_key, get_measurement, TextMeasurer};
pub use solver::LayoutError;
