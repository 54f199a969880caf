//! Reconstruction of a solitaire board from symbol detections.
//!
//! The pipeline turns template-match positions into bounding boxes, removes
//! redundant overlapping boxes, pairs each rank glyph with its suit glyph,
//! buckets the result into horizontal zones and vertical rows, and assembles
//! the draw pile, the seven tableau piles and the four discard slots.

pub mod boxes;
pub mod grouping;
pub mod suppress;
pub mod associate;
pub mod state;
pub mod pipeline;
