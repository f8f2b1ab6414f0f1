//! `si` — a string interpolator.
//!
//! Replaces placeholders of the form `${name}` in a block of text with
//! values from a case-insensitive definitions mapping.  The mapping can be
//! built from explicit pairs (e.g. the process environment), from flat
//! `key=value` text lines, or from a JSON object whose nested keys are
//! flattened into dotted paths.

pub mod chars;
pub mod defs;
pub mod engine;
pub mod jsondefs;
pub mod textdefs;
