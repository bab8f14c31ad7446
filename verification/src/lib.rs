//! Bytestack: an append-only packed-blob storage format.
//!
//! Billions of small immutable blobs are packed into a bounded set of large
//! append-only containers called stacks. A stack is realized as three sibling
//! objects (data, index, meta) that share a magic-header convention and a
//! stack identifier. This crate holds the verified core: the binary codecs
//! for the three files, the index-identifier and path grammar, the sequential
//! writer with size-bounded rollover, the fetch and listing logic, and the
//! allocation control-plane state machine.



pub mod controller;
pub mod data;
pub mod digits;
pub mod errors;
pub mod handler;
pub mod index;
pub mod index_id;
pub mod laws;
pub mod meta;
pub mod outside;
pub mod paths;
pub mod reader;
pub mod writer;

