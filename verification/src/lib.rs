//! A distributed SQL database's core logic: the PostgreSQL wire codec, the
//! command-line grammar, the Raft log storage decisions and query planning.
use vstd::prelude::*;

pub mod wire;
pub mod pg;
pub mod cli;
pub mod data;
pub mod cmd;
pub mod raft;
pub mod plan;

verus! {

/// The address the Raft node listens on unless told otherwise.
pub const DEFAULT_LISTEN_ADDR: &'static str = "127.0.0.1:26629";

/// The address the PostgreSQL front end listens on unless told otherwise.
pub const DEFAULT_PG_ADDR: &'static str = "127.0.0.1:26630";

} // verus!
