//! Verified core of a declarative chart renderer: SVG/JSON text emission,
//! colour parsing, image header sniffing and temporal tick planning.

mod text;
pub mod color;
pub mod svg;
pub mod draw_list;
pub mod sink;
pub mod theme;
pub mod raster;
pub mod assets;
pub mod stats;
pub mod rows;
pub mod number;
pub mod metadata;
pub mod calendar;
pub mod temporal;
pub mod temporal_bins;
pub mod path_data;
pub mod steps;
pub mod categories;
pub mod row_match;
