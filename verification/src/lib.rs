//! Word ladders by single-character deletion.

pub mod dictionary;
pub mod lexicographic;
pub mod order;
pub mod report;
pub mod word;
pub mod word_lineage;
pub mod word_tree;
