//! A sandboxed media directory served as a tree of file metadata: path
//! resolution under one root, scanning and patching of the cached tree,
//! byte-range planning for streamed reads, and the decisions behind upload,
//! replace, delete and folder creation.

pub mod auth;
pub mod cache;
pub mod config;
pub mod error;
pub mod handlers;
pub mod locks;
pub mod media;
pub mod paths;
pub mod range;
pub mod sandbox;
pub mod store;
pub mod text;
pub mod tree;
pub mod turns;
pub mod watch;
