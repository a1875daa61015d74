//! A minimal liveness-check server: recognition of `PING` requests in a byte
//! stream, collection of connection failures, and the supervisor's decisions.
pub mod aggregator;
pub mod error;
pub mod handler;
pub mod laws;
pub mod supervisor;

use vstd::prelude::*;

verus! {

/// The library's result type.
pub type Result<T> = core::result::Result<T, error::Error>;

} // verus!
