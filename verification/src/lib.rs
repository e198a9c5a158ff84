//! Data structures: a union-find forest, a binary heap, a bloom filter,
//! a compressed radix trie, and the backoff and index arithmetic of
//! ring-buffer queues.
pub mod backoff;
pub mod bloom;
pub mod hash;
pub mod heap;
pub mod index;
pub mod ring;
pub mod steps;
pub mod trie;
pub mod union_find;
