//! Verified image-preprocessing pipeline for OCR of captured screen regions.
//!
//! The library turns a raw screen-region capture into a cleaned, OCR-ready
//! image: it maps a fractional screen region to pixel coordinates, decides the
//! background polarity from the border ring, isolates likely text pixels,
//! labels connected foreground regions, filters regions by size, composites
//! the removal mask over the source, normalizes brightness, and ranks the
//! dominant colors.  All stages are pure transforms over plain pixel buffers.
#![verifier::loop_isolation(false)]

pub mod pixel;
pub mod grid;
pub mod error;
pub mod foreground;
pub mod background;
pub mod composite;
pub mod normalize;
pub mod size_filter;
pub mod label;
pub mod region;
pub mod dominant;
pub mod pipeline;
pub mod translator;
pub mod openaiapi;
pub mod hotkey;
pub mod display;
