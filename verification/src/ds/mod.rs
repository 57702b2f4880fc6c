pub mod bit;
pub mod priority_queue;

pub use bit::BinaryIndexedTree;
