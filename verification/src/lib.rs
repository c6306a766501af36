//! A log-structured key/value store.
//!
//! String keys are mapped to string values by appending serialized commands
//! to segmented log files.  An in-memory index maps each live key to the
//! extent of its latest `Set` record; superseded records are reclaimed by
//! compaction.  This crate holds the verified core: the command codec, the
//! log engine, the directory-name scanner, and the request/response
//! protocol logic.  File, socket and thread plumbing live outside it.

pub mod client;
pub mod codec;
pub mod common;
pub mod engine;
pub mod error;
pub mod scan;
pub mod server;
pub mod store;

pub use codec::Command;
pub use common::{GetResponse, RemoveResponse, Request, SetResponse};
pub use engine::KvsEngine;
pub use error::KvsError;
pub use server::KvsServer;
pub use store::KvStore;
