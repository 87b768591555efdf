//! Statistics of a large file of `key;value` lines: for each key the least,
//! the mean and the greatest of its values, which have one decimal place.
//!
//! The input is cut into ranges at line ends (`split`). Each range is read by a
//! cursor that borrows the keys from the input (`reader`) and is summed up in a
//! table of its own (`table`, `aggregate`). The tables are merged, and the
//! report is written with the keys in order (`report`). What the bytes of an
//! input mean is said in `record`, what records amount to in `stats`.
pub mod aggregate;
pub mod fixed;
pub mod keys;
pub mod pipeline;
pub mod reader;
pub mod record;
pub mod report;
pub mod split;
pub mod stats;
pub mod table;
pub mod workers;
