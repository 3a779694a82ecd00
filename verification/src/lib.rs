//! Remote memory engine: discover the mapped regions of a running process,
//! snapshot them with chunked remote reads, match snapshot entries against a
//! byte pattern, and write replacement bytes back at the matched addresses.

use vstd::prelude::*;

pub mod region;
pub mod patcher;
pub mod scanner;

verus! {

/// Errors of the engine. Per-chunk read failures and per-request write
/// failures are recovered locally and never surfaced through this type.
#[derive(Clone, Copy, PartialEq, Eq, Debug)]
pub enum EngineError {
    /// The target's memory-map description could not be opened: the process
    /// is absent or inaccessible. Fatal for the whole session.
    NoSuchProcess,
    /// A memory-map line could not be parsed into a start/end address pair.
    /// Fatal for the discovery call that saw it.
    MalformedMapEntry,
}

} // verus!
