//! An evicting cache: the adaptive replacement policy, cache entries, and
//! the doubly linked lists that order them.

pub mod arc;
pub mod entry;
pub mod list;
