//! Segmentation of inline text into shaping runs.
//!
//! The library merges adjacent text fragments into clumps, applies CSS
//! whitespace collapsing and text casing, computes bidirectional embedding
//! levels and per-character scripts, splits the text at font, level and
//! script boundaries, and maps every byte of the resulting runs back to the
//! fragment it came from, so that the shaped output can be reassembled onto
//! the original fragment boundaries.

pub mod bidi;
pub mod byterange;
pub mod chars;
pub mod fonts;
pub mod fragment;
pub mod reassemble;
pub mod request;
pub mod run;
pub mod scanner;
pub mod script;
pub mod style;
pub mod strutil;
pub mod transform;
