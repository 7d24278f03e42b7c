//! Runtime settings of a swap taker, read from a sectioned text file with
//! per-field fallback to built-in defaults.
pub mod config;
pub mod document;
pub mod field;

pub use config::TakerConfig;
