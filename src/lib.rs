//! Line dithering: edge-based segmentation, flood-fill region labelling,
//! procedural ordered-dither matrices and the per-pixel compositing rule.
pub mod compose;
pub mod gradient;
pub mod grid;
pub mod matrix;
pub mod quantize;
pub mod regions;

pub use compose::{composite, dither_color, line_dither, Levels, Rgb, UNIT};
pub use gradient::{edge_detect, gradient_magnitudes, sample};
pub use grid::Grid;
pub use matrix::{dithering_matrices_from, make_dithering_matrices, submod};
pub use quantize::quantize;
pub use regions::{label_components, make_direction_or_offset_matrix, stamp_labels};
