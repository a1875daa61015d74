use crate::error::Error;
use vstd::prelude::*;

verus! {

/// The largest capacity that the error channel can be given.
pub const MAX_CAPACITY: usize = usize::MAX >> 3;

/// The capacity to build the error channel with. A channel of no capacity is
/// refused rather than turned into a hand-off, as is one beyond what the
/// channel supports.
pub fn check_capacity(buffer: usize) -> (r: Result<usize, Error>)
    ensures
        r is Ok <==> 0 < buffer <= MAX_CAPACITY,
        r matches Ok(c) ==> c == buffer,
        r matches Err(e) ==> e is InvalidCapacity,
{
    if buffer == 0 || buffer > MAX_CAPACITY {
        Err(Error::InvalidCapacity)
    } else {
        Ok(buffer)
    }
}

/// The side of the service that concluded first, with what it returned.
pub enum Finished {
    /// The accept loop ended.
    Acceptor(Result<(), Error>),
    /// The aggregating task ended, or could not be joined.
    Aggregator(Result<Result<(), Error>, tokio::task::JoinError>),
}

/// The service's outcome when `first` concluded before the other side.
pub fn conclude(first: Finished) -> (r: Result<(), Error>)
    ensures
        match first {
            Finished::Acceptor(res) => r == res,
            Finished::Aggregator(Ok(res)) => r == res,
            Finished::Aggregator(Err(j)) => r == Err::<(), Error>(Error::TokioTaskError(j)),
        },
{
    match first {
        Finished::Acceptor(res) => res,
        Finished::Aggregator(Ok(res)) => res,
        Finished::Aggregator(Err(j)) => Err(Error::TokioTaskError(j)),
    }
}

} // verus!
