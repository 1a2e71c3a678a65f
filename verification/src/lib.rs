//! Discrete core of a Walker Delta constellation calculator: the gap
//! analysis of pass positions around a circle, and the coverage raster that
//! records when each pixel of the planet was first seen.
pub mod sorting;
pub mod circle;
pub mod gaps;
pub mod coverage;
pub mod convergents;
