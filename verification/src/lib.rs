//! A text-mode sprite compositing engine.
//!
//! The engine stores rectangular grids of characters, parses sprite art
//! from raw text by trimming surrounding whitespace down to the tight
//! bounding box of its non-whitespace content, and composites sprites
//! onto a destination grid at arbitrary signed offsets with clipping
//! against the grid edges.

pub mod display;
pub mod geometry;
pub mod input;
pub mod sprite;
pub mod text;
