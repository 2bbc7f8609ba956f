//! Text, naming and file-library logic of the IEM tool: filter-type codes,
//! measurement and ParametricEQ text scanning, curve-name normalisation and
//! the JSON index of the curve library.

pub mod biquad;
pub mod text;
pub mod manifest;
pub mod converter;
pub mod graphiceq;
pub mod engine;
