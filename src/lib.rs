//! Exact conversion between world coordinates and pixel coordinates of a raster,
//! following the six-entry geotransform layout of the GDAL raster model.
pub mod affine;
pub mod transformer;
pub mod lemmas;

pub use affine::ENTRY_LIMIT;
pub use transformer::{Coordinate, GeoTransform, GeoTransformer, Rect, TransformError};
