pub mod algorithms;
pub mod anonymize;
pub mod data;
pub mod data_interface;
pub mod taxonomy;
pub mod text;
