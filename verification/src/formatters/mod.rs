//! Output formatters: what the renderers compute from trees, records and statistics.

pub mod streaming_tree;
pub mod table;
pub mod tree;
