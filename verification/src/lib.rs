//! A hash array mapped trie whose nodes can be kept in a content-addressed block store.
//!
//! `node` holds the nodes and their operations. `tree` says what an operation does to the trie
//! that a node stands for. `canonical` defines the canonical form of a trie, and `laws` states
//! what follows from it: a trie is a map, and it does not depend on its history. `walk` states
//! what the operations do step by step along a digest, in any trie, and `outcomes` what callers
//! can rely on of the results. `loading` and `identity` state what holds of tries that are partly
//! in a block store, and of writing and reading their blocks.

pub mod bitmask;
pub mod canonical;
pub mod constant;
pub mod equality;
pub mod error;
pub mod hash;
pub mod identity;
pub mod ipld;
pub mod laws;
pub mod link;
pub mod loading;
pub mod namefilter;
pub mod node;
pub mod outcomes;
pub mod pointer;
pub mod preserve;
pub mod store;
pub mod tree;
pub mod unique;
pub mod walk;
