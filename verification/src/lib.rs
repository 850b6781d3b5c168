//! A typed, scope-aware value store for per-neuron diagnostic data, the
//! builder that assembles it and ranks neurons by a chosen metric, and the
//! template mini-language that resolves named values against the store,
//! validates their shapes and types, and slices out the per-neuron view
//! that a renderer receives.
//!
//! Floating-point data is carried as IEEE 754 single-precision bit patterns
//! (`u32`), so that every operation on it, including the total-order ranking,
//! is exact integer logic.

pub mod codec;
pub mod element;
pub mod errors;
pub mod navigation;
pub mod neuron_rankings;
pub mod neuron_template;
pub mod payload;
pub mod payload_builder;
pub mod text;
pub mod value;
pub mod values;
