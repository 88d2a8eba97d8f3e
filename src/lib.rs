//! Builder for a static full-text search index served from a constrained
//! edge runtime: term dictionary, inverted index over compressed bitsets,
//! popularity partitioning and the two chunk packers.
pub mod bitmap;
pub mod endian;
pub mod text;
pub mod keys;
pub mod tree;
pub mod search;
pub mod bst;
pub mod direct;
pub mod reader;
pub mod index;
pub mod order;
pub mod partition;
pub mod frames;
pub mod pipeline;
