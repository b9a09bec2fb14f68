//! An embeddable inverted index: a sorted term dictionary, dense postings
//! lists, an item store, a builder that assembles them and two retrieval
//! strategies.

pub mod codec;
pub mod order;
pub mod merge;
pub mod dict;
pub mod postings;
pub mod postings_map;
pub mod storage;
pub mod backend;
pub mod builder;
pub mod retrieve;
pub mod retriever;
pub mod ngram;
