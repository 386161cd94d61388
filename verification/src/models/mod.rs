//! The record types of the catalogue.

pub mod api;
pub mod architecture;
pub mod pricing;
pub mod ui;

pub use api::{ApiResponse, Model, ModelView, TopProvider};
pub use architecture::{Architecture, Modality, ModalitySet};
pub use pricing::{Price, Pricing};
pub use ui::{SortDirection, SortField};
