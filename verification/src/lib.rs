//! A continuous active learning retrieval core: a byte-compressed
//! inverted index with random access, an external sort for corpora
//! beyond memory, dense string-to-id maps, and the builders that tie
//! them into one on-disk collection.

pub mod builder;
pub mod compress;
pub mod docs;
pub mod extsort;
pub mod index;
pub mod lrucache;
pub mod odch;
pub mod ptuple;
pub mod qrels;
pub mod store;
pub mod tok;
