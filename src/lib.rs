//! A local code-intelligence index: incremental change detection, a typed
//! dependency graph, an embedding cache and a vector index.
pub mod dependency;
pub mod graph;
pub mod state;
pub mod manager;
pub mod cache;
pub mod store;
pub mod context;
pub mod modality;
pub mod chunking;
pub mod tracker;
pub mod fingerprint;
