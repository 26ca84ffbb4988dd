//! Algorithm study library: an ordered key/value container backed by an
//! unbalanced binary search tree, two sequence containers, sorting routines
//! and a Fibonacci generator, all with verified contracts.

pub mod order;
pub mod bstree;
pub mod linked_list;
pub mod doubly_linked_list;
pub mod fibonacci;
pub mod sorting;
