//! The data an anonymization works on: the table, its quasi-identifiers and
//! their taxonomies.
pub mod dataset;
pub mod qi;
pub mod table;

pub use dataset::Dataset;
pub use qi::{QIType, QuasiIdentifier, QuasiIdentifiers};
