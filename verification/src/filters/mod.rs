//! Data filtering: bit-packed weights and the filters built on them.
pub mod weights;

pub use weights::Weights;
pub mod filtering;

pub use filtering::{get_good_values, get_indices};
pub mod api;
pub mod byte_weights;
