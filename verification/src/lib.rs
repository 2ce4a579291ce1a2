//! A Qwen2 decoder whose attention layers keep a bounded key/value cache: a
//! sliding window of recent entries plus a small set of heavy hitters, the
//! entries that have drawn the most attention so far.
//!
//! What holds of the parts together is stated and proved in modules of their own:
//! `formulas`, `rows` and `layers` write out what is computed, `names` which weights
//! a model is made of, `laws` and `retention` what is seen and what is kept, and
//! `existence`, `success` and `runs` when there is a result.

pub mod array;
pub mod attention;
pub mod cache;
pub mod config;
pub mod decoder;
pub mod error;
pub mod existence;
pub mod formulas;
pub mod generation;
pub mod language;
pub mod laws;
pub mod layers;
pub mod layout;
pub mod masks;
pub mod mlp;
pub mod model;
pub mod names;
pub mod nn;
pub mod number;
pub mod retention;
pub mod rotary;
pub mod rows;
pub mod runs;
pub mod success;
pub mod tensor;
pub mod weights;
