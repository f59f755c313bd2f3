//! A versioned, content-addressed key-value state store with verified
//! lifecycle rules: writable and read-only states, deterministic roots,
//! a branching trie engine and a strictly sequential engine, and retention.
pub mod bytes;
pub mod epoch_retrieval;
pub mod hash;
pub mod keyspace;
pub mod laws;
pub mod manager;
pub mod state;
