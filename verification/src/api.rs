//! The request and response of the engine's HTTP interface: a UCI command
//! in, the engine's answer lines out.
use vstd::prelude::*;

verus! {

/// A UCI command sent to the engine.
pub struct UciRequest {
    pub command: String,
}

/// The lines the engine answers a command with.
pub struct UciResponse {
    pub responses: Vec<String>,
}

} // verus!
