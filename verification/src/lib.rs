//! Storage core of a small log-structured key-value engine.
//!
//! Every file the engine keeps is held here as a byte image. The functions of
//! this crate read and change those images and state, in contracts, what the
//! bytes mean. Moving the images to and from a disk is left to the caller.

pub mod bytes;
pub mod codec;
pub mod config;
pub mod db;
pub mod disktable;
pub mod errors;
pub mod hex;
pub mod lock;
pub mod memtable;
pub mod names;
pub mod system;
pub mod validate;
pub mod wal;
