//! What the `xsec` command line tool decides and computes.
pub mod atomic;
pub mod base64url;
pub mod commands;
pub mod document;
pub mod dotenv;
pub mod edits;
pub mod environment;
pub mod error;
pub mod file;
pub mod laws;
pub mod plain;
pub mod protection;
pub mod readback;
pub mod rewriting;
pub mod storage;
pub mod value;
pub mod written;
