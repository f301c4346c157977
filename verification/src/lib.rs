//! Event filtering and histogramming for neutron event data: bit-packed
//! event weights, frame filters, and histogram counting.
pub mod filters;
pub mod stats;
