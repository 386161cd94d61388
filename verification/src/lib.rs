//! Search, filter and ordering core for a catalogue of AI-model records.

pub mod cache;
pub mod i18n;
pub mod models;
pub mod order;
pub mod pipeline;
pub mod sort;
pub mod text;
pub mod utils;
