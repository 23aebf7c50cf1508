//! Palette extraction: k-means clustering of color samples, hue ordering of
//! the resulting centroids, and rendering of a swatch strip.
pub mod color;
pub mod draw;
pub mod kmeans;
pub mod palette;
pub mod swatch;
