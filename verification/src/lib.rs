//! A doubly linked list stored in a growable arena of index-linked slots.
//!
//! Nodes are not heap-allocated individually: they live in a slot store and
//! refer to their neighbours by slot index. Freed slots are chained into a
//! free list and reused in LIFO order, so the store never grows while a free
//! slot remains.

pub mod list;
pub mod ops;
