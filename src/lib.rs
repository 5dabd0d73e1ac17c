//! A content-addressed build store: store paths and hashes, the hash-part
//! scanner, modulo hashing of file trees, derivations and the decisions of
//! the build engine.
pub mod builtins;
pub mod drv;
pub mod engine;
pub mod hash;
pub mod hashmod;
pub mod instantiate;
pub mod rewrite;
pub mod scan;
pub mod store;
pub mod store_path;
