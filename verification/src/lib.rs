//! The indexing core of a vector database: a layered proximity graph over
//! vectors that are addressed by their byte range in an append-only file.
pub mod audit;
pub mod delete_log;
pub mod elements;
pub mod errors;
pub mod graph_log;
pub mod hnsw_params;
pub mod index;
pub mod layer;
pub mod linking;
pub mod traversal;
pub mod txn_entity;
pub mod wire;
