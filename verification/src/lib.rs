//! A synchronous client core for the nREPL network protocol.
//!
//! The crate holds the protocol logic: the self-delimiting message codec, the
//! read-side byte accumulator that survives timed-out reads, the correlation
//! of asynchronous response fragments with the request that produced them,
//! and session handling.  Socket and process I/O stay outside; callers feed
//! bytes and events in and send the returned encoded requests themselves.
use vstd::prelude::*;

pub mod client;
pub mod ports;
pub mod codec;
pub mod correlate;
pub mod transport;

verus! {

/// The error taxonomy of the client.
///
/// `ConnectError` is a failed TCP handshake; `Timeout` a deadline that
/// elapsed while the connection stays usable; `ConnectionClosed` an observed
/// EOF or earlier fatal failure, permanent for the connection; `ProtocolError`
/// a malformed byte sequence or a terminal response missing a required field,
/// fatal as well; `IoError` any other read or write failure, treated like a
/// closed connection.
#[derive(Clone, Copy, Debug, PartialEq, Eq, Structural)]
pub enum NreplError {
    ConnectError,
    Timeout,
    ConnectionClosed,
    ProtocolError,
    IoError,
}

} // verus!
