//! Per-key minimum, mean and maximum over `<key>;<reading>` records held in
//! one byte buffer, computed chunk by chunk and merged.

pub mod parse;
pub mod stats;
pub mod table;
pub mod records;
pub mod merge;
pub mod split;
pub mod reorder;
pub mod chunks;
pub mod render;
pub mod report;
pub mod engine;
