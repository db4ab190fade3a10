//! A chunked, encrypted, replicated block store with a small filesystem on top.
//!
//! Byte payloads are split into chunks that live in named buckets. A block
//! tree records where each chunk lives. Files and directories sit on top.

pub mod encryption;
pub mod source;
pub mod bucket;
pub mod global;
pub mod service;
pub mod stored;
pub mod block;
pub mod inode;
pub mod metadata;
pub mod shell;
