//! Obfuscated-pattern search engine: enumerates candidate wildcard
//! expressions over an identifier and accepts the first one that resolves
//! uniquely to that identifier inside a dictionary of known values.

pub mod bitfield;
pub mod dictionary;
pub mod glob;
pub mod pattern;
pub mod payload;
pub mod search;
pub mod substring;
pub mod text;
pub mod worker;
