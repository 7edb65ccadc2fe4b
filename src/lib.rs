//! An embeddable vector store: named collections of fixed-dimension vectors
//! with string metadata, k-nearest-neighbour selection, metadata filters and
//! a per-collection binary file format.
//!
//! Vector components and scores are IEEE-754 binary32 values held as their
//! bit patterns (`u32`); the floating-point arithmetic itself (normalisation,
//! dot products, distances) is done by the embedding application.

pub mod api;
pub mod codec;
pub mod collection;
pub mod db;
pub mod embedding;
pub mod score;
pub mod store;
pub mod text;
pub mod topk;
