//! Linked sequence containers: a singly linked list, a doubly linked list,
//! and the space-efficient list built from a chain of bounded blocks.

pub mod dllist;
pub mod selist;
pub mod slist;
