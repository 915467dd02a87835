//! Error taxonomy of the bridge boundary.
//!
//! Every operation reports failure through one of these variants so a host
//! runtime can tell an unreachable endpoint, a protocol-level failure, a
//! stale handle, a bad argument, and a missing capability apart.

use vstd::prelude::*;

verus! {

/// The failure modes a caller of the bridge can observe.
///
/// - `ConnectionFailed`: the server endpoint could not be reached or the
///   handshake failed; fatal to that connect attempt, never retried here.
/// - `ProtocolError`: a decode or dispatch failure on an established
///   connection; the connection is left in the handle table, the caller
///   decides whether to keep using it.
/// - `ResourceNotFound`: the given handle is absent or stale; always safe
///   to surface, never retried.
/// - `InvalidArgument`: a caller-supplied value was rejected.
/// - `Unimplemented`: the operation is a stub whose backing protocol flow
///   does not exist yet; distinct from `ProtocolError` so callers can tell
///   a missing capability from a genuine failure.
#[derive(Debug, PartialEq, Eq)]
pub enum WaylandError {
    ConnectionFailed(String),
    ProtocolError(String),
    ResourceNotFound,
    InvalidArgument(String),
    Unimplemented,
}

} // verus!
