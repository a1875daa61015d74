use crate::error::Error;
use vstd::prelude::*;

verus! {

/// What a connection's finishing task hands to the error channel: its
/// failure, and nothing for a clean close.
pub open spec fn report_of(outcome: Result<(), Error>) -> Option<Error> {
    match outcome {
        Ok(_) => None,
        Err(e) => Some(e),
    }
}

/// The records that a run of connection outcomes leaves on the channel, in
/// the order the outcomes arrived.
pub open spec fn failures(outcomes: Seq<Result<(), Error>>) -> Seq<Error>
    decreases outcomes.len(),
{
    if outcomes.len() == 0 {
        Seq::empty()
    } else {
        let rest = failures(outcomes.drop_last());
        match report_of(outcomes.last()) {
            None => rest,
            Some(e) => rest.push(e),
        }
    }
}

/// The service outcome owed for the collected `records`: success when there
/// are none, else one failure that carries them all.
pub open spec fn concluded(records: Seq<Error>, r: Result<(), Error>) -> bool {
    if records.len() == 0 {
        r is Ok
    } else {
        r matches Err(Error::Multiple(v)) && v@ == records
    }
}

/// What a connection's finishing task sends to the aggregator, if anything.
pub fn report(outcome: Result<(), Error>) -> (r: Option<Error>)
    ensures
        r == report_of(outcome),
{
    match outcome {
        Ok(()) => None,
        Err(e) => Some(e),
    }
}

/// The consumer side's collection of failure records.
pub struct Aggregator {
    records: Vec<Error>,
}

impl View for Aggregator {
    type V = Seq<Error>;

    closed spec fn view(&self) -> Seq<Error> {
        self.records@
    }
}

impl Aggregator {
    /// An aggregator that has received nothing.
    pub fn new() -> (r: Aggregator)
        ensures
            r@ == Seq::<Error>::empty(),
    {
        Aggregator { records: Vec::new() }
    }

    /// Keeps one received record after those received before it.
    pub fn record(&mut self, e: Error)
        ensures
            final(self)@ == old(self)@.push(e),
    {
        self.records.push(e);
    }

    /// The outcome once the channel has closed.
    pub fn finish(self) -> (r: Result<(), Error>)
        ensures
            concluded(self@, r),
    {
        if self.records.len() == 0 {
            Ok(())
        } else {
            Err(Error::Multiple(self.records))
        }
    }
}

} // verus!
