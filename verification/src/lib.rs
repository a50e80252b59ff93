//! An embedded, append-only, content-addressed object store backed by a
//! single memory mapping, together with a persistent copy-on-write
//! key-value tree whose nodes live inside that store as blobs.

pub mod errors;
pub mod base64;
pub mod le;
pub mod hasher;
pub mod compression;
pub mod sieve;
pub mod mapping;
pub mod store;
pub mod serializer;
pub mod tree;
