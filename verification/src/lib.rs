//! The plumbing layer of a content-addressable version-control engine: a
//! repository layout that is provisioned and discovered over an abstract
//! storage backend, an object store addressed by digest, the binary tree
//! and textual key-value-list-message codecs, and a hierarchical
//! configuration store.  Every operation carries a contract over a
//! mathematical model of its data, and the stated round-trip and
//! idempotence laws are proved.

pub mod actions;
pub mod assoc;
pub mod digest;
pub mod directory;
pub mod directory_config;
pub mod gaal_core;
pub mod hex_codec;
pub mod kvlm;
pub mod memory;
pub mod object;
pub mod object_error;
pub mod repository;
pub mod text;
pub mod tree;
