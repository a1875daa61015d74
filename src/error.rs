use vstd::prelude::*;

verus! {

/// The standard library's I/O error, carried unopened.
#[verifier::external_type_specification]
#[verifier::external_body]
pub struct ExIoError(std::io::Error);

/// A failure to join a spawned task, carried unopened.
#[verifier::external_type_specification]
#[verifier::external_body]
pub struct ExJoinError(tokio::task::JoinError);

/// A failure record of the service.
#[derive(Debug)]
pub enum Error {
    /// A read, write or flush on a connection failed.
    IO(std::io::Error),
    /// A spawned task could not be joined.
    TokioTaskError(tokio::task::JoinError),
    /// Every failure collected while the service ran, in arrival order.
    Multiple(Vec<Error>),
    /// An unclassified failure.
    Unknown,
    /// The error channel was asked for a capacity it cannot have.
    InvalidCapacity,
}

} // verus!
