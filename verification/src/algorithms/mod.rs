//! k-anonymity algorithms.
pub mod anonymization_algorithm;
pub mod counting;
pub mod incognito;
pub mod mondrian;
