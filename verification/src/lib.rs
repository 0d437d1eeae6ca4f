//! A self-auditing AVL map over byte-string keys and values.
//!
//! Nodes live in a generational arena (`storage`), every node carries a BLAKE3
//! digest of its key, its value and its children's digests (`digest`), and the
//! tree is kept balanced by AVL rotations (`avl`). Keys are ordered
//! lexicographically by their bytes (`keys`).

pub mod error;
pub mod keys;
pub mod digest;
pub mod storage;
pub mod tree;
pub mod avl;
