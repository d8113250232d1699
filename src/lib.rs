//! Semantic nearest-neighbour search over a corpus of text files.
//!
//! Embeddings are held as quantised integer vectors, so that similarity
//! scoring, ranking, corpus traversal and the content-addressed vector cache
//! can all be stated and proved exactly.
pub mod cache;
pub mod corpus;
pub mod embeddings;
pub mod ranking;
pub mod scan;
pub mod similarity;
