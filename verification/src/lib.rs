//! A stateful tabular-data accumulation core: tables of named, typed columns
//! are decoded from delimited text, merged by vertical concatenation into a
//! single current table, optionally reduced by group-by-sum, and rendered back
//! to text.

pub mod aggregate;
pub mod codec;
pub mod merge;
pub mod numeral;
pub mod store;
pub mod table;
pub mod text;
