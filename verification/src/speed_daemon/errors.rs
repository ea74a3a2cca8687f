//! Errors of the speed daemon.
use vstd::prelude::*;

verus! {

/// The standard library's I/O error, carried unchanged inside
/// `SpeedDaemonError::IOError`.
#[verifier::external_type_specification]
#[verifier::external_body]
pub struct ExIoError(std::io::Error);

/// All the errors returned by this library.
#[derive(Debug)]
pub enum SpeedDaemonError {
    /// The in-bound message could not be parsed.
    ParseFailure,
    /// Duplicate client.
    DuplicateClient,
    DisconnectedClient,
    /// A client announced itself as a camera twice.
    DuplicateCamera,
    /// A client announced itself as a dispatcher twice, or after being a camera.
    DuplicateDispatcher,
    /// Any other `std::io::Error`.
    IOError(std::io::Error),
}

} // verus!
