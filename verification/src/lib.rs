//! An in-memory key/value store speaking the RESP2 wire protocol.
//!
//! The crate verifies the protocol core: the RESP value model and its
//! byte-level codec, the keyed store, command parsing and execution, and
//! the per-connection MULTI/EXEC/DISCARD transaction state machine.

use vstd::prelude::*;

pub mod cmd;
pub mod handler;
pub mod resp;
pub mod storage;
pub mod text;

verus! {

} // verus!
