//! A small container toolkit built on a shared backing-buffer abstraction:
//! a growable vector, a chained-bucket hash map with a set on top of it, and
//! an arena-indexed doubly linked list whose nodes live in a dense array.

pub mod hasher;
pub mod hashmap;
pub mod hashset;
pub mod linked_list;
pub mod raw_vec;
pub mod vec;

pub use hashmap::HashMap;
pub use hashset::HashSet;
pub use linked_list::LinkedList;
pub use vec::Vec;
