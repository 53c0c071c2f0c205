//! Partition tables for ESP-IDF style flash layouts: a verified model of the
//! entries, a binary codec, a CSV codec and the structural validator.

pub mod binary;
pub mod entry;
pub mod error;
pub mod names;
pub mod table;
pub mod text;
pub mod validate;
