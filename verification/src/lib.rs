//! Persistent priority queues: a binomial heap and a leftist heap.
//!
//! Every operation returns a new heap and leaves its arguments untouched;
//! sub-trees are shared between versions through reference counting.

pub mod order;
pub mod heap;
pub mod sharing;
pub mod binomial_heap;
pub mod leftist_heap;
pub mod laws;
