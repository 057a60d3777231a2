//! Persistent collections: every operation gives a new version and leaves
//! the version it started from as it was, and the versions share what they
//! have in common.
//!
//! The heart of the crate are the collections that keep a worst-case bound
//! per operation although any version may be used again: they put work off
//! into memo cells ([`lazy`]) and do a fixed number of put-off steps with
//! every operation ([`queue::real_time_queue`], [`deque::real_time_deque`],
//! [`heap::scheduled_binomial_heap`]), or walk an explicit state machine a
//! fixed number of steps ([`queue::hood_melville_queue`]).
//!
//! Contracts speak of the elements of a version: a sequence for lists, queues
//! and deques, a multiset for heaps, a set or a map for search trees.

pub mod deque;
pub mod element;
pub mod error;
pub mod heap;
pub mod lazy;
pub mod queue;
pub mod random_access_list;
pub mod red_black_tree;
pub mod stack;
pub mod tree;

pub use stack::Stack as List;
