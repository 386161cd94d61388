//! Text utilities: tokenizing names and matching queries against them.

pub mod filter;
pub mod format;
pub mod tokenize;

pub use filter::{has_all_modalities, matches_any_token_sequence};
pub use format::{
    format_price_per_invocation, format_price_per_million, format_timestamp, format_with_commas,
};
pub use tokenize::tokenize;
