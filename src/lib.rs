//! Pointer-free data structures that live in caller-supplied storage.
//!
//! The core is [`u8_avl_tree`]: a self-balancing search tree laid over a
//! header and a flat array of node slots addressed by one-byte indices, with
//! an embedded allocator whose free list is threaded through released slots.
//! Around it stand a sorted-array set, fixed-size and length-prefixed string
//! views, and small plain-data wrappers.
pub mod array_set;
pub mod error;
pub mod maybe_null;
pub mod nullable;
pub mod pod_str;
pub mod prefix_str;
pub mod record;
pub mod tree_model;
pub mod types;
pub mod u8_avl_tree;
