//! A minimal in-memory key-value store speaking a subset of the RESP
//! request/reply protocol: an incremental frame decoder, a reply encoder,
//! a keyed store with per-entry millisecond expiry, a command dispatcher,
//! and a per-connection session step function.

pub mod command;
pub mod dispatch;
pub mod resp;
pub mod session;
pub mod store;

use vstd::prelude::*;

verus! {

} // verus!
