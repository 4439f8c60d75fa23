pub mod bptree;
pub mod contents;
pub mod insertion;
pub mod keys;
pub mod laws;
pub mod node;
pub mod range;
pub mod rebalance;
