//! Recovers curve data from raster images of line charts.
//!
//! The pipeline discovers the distinct curve colours of an image, masks each
//! colour, splits every column of the mask into vertical runs, groups those runs
//! into tracks, stitches and aggregates the tracks and finally maps them onto a
//! grid of data coordinates.

mod color;
mod export;
mod geometry;
mod group;
mod mask;
mod palette;
mod pipeline;
mod raster;
mod settings;
mod stitch;
mod tracer;
mod track;
mod verticals;

pub use color::{color_distance, Color};
pub use geometry::{Error, QuadrilateralU32, UnitInterval, UnitPoint, UnitQuadrilateral};
pub use mask::color_filtering;
pub use raster::{Image, Mask};
pub use settings::{gold, Settings};
pub use verticals::{column_runs, VerticalComponent, VerticalComponentList, VerticalComponents};
pub use group::{
    find_long_components, group_large_components_and_remaining, CombinedVerticals, Range,
    VerticalComponentCombined, X,
};
pub use track::{Distance, GraphMultiNode, MultiNode};
pub use stitch::stitch;
pub use palette::{extract_colors, ColorExtractor};
pub use tracer::{trace, ImagePixel, LineDetectionSettings};
pub use pipeline::{
    aggregate_graphs, clip_to_mask, curves_of_mask, line_detection, passes_filters,
    survives_opening_exec, LineDetected,
};
pub use export::{csv_grid, grid_fraction};
