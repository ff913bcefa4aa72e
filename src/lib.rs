//! Collections with machine-checked contracts: an unbalanced binary search
//! tree with parent links, a singly linked list, queue and stack adapters over
//! them, and an insertion sort.

pub mod dictionary;
pub mod linked_list;
pub mod queue;
pub mod ranked;
pub mod sort;
pub mod stack;
pub mod tree;
