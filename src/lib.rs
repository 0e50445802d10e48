//! A content-addressed package container: a single file that bundles blobs,
//! each named by the hash of its bytes, with a manifest that says how they
//! compose into an app or a comic.
pub mod codec;
pub mod laws;
pub mod manifest;
pub mod package;
pub mod resolve;
pub mod server;
pub mod subcommand;
pub mod template;
pub mod writer;
