use vstd::prelude::*;
use crate::arbitrate::PriceCandidate;

verus! {

/// One input row: an identifier to be priced and an optional positive quantity.
/// A missing quantity counts as one.
#[derive(Debug, Clone, PartialEq, Eq)]
pub struct Record {
    pub identifier: String,
    pub count: Option<u32>,
}

/// Why a single lookup call produced no candidate set. Each kind is kept
/// distinct so a failed call is never mistaken for a quote of zero prices.
#[derive(Clone, Copy, Debug, PartialEq, Eq, Structural)]
pub enum LookupError {
    /// The request never completed (connection or protocol failure).
    Transport,
    /// The service answered with a non-success status.
    Status,
    /// The response body could not be parsed into candidates.
    Parse,
    /// The call exceeded its per-lookup time budget.
    Timeout,
}

/// The terminal result of pricing one record: a record never leaves the
/// pipeline in a pending state.
#[derive(Clone, Copy, Debug, PartialEq, Eq, Structural)]
pub enum Outcome {
    /// Arbitration assigned this unit price, in cents.
    Priced(u64),
    /// The lookup call itself failed.
    LookupFailed(LookupError),
    /// The lookup succeeded but the service quoted zero candidates.
    PriceUnavailable,
}

/// One output row: the input row together with its terminal pricing outcome.
#[derive(Debug, Clone, PartialEq, Eq)]
pub struct PricedRecord {
    pub identifier: String,
    pub count: Option<u32>,
    pub outcome: Outcome,
}

/// What one lookup call handed back: a candidate set (possibly empty), or
/// the reason it failed.
pub type LookupResult = Result<Vec<PriceCandidate>, LookupError>;

/// The mathematical value of a lookup result: the candidate sequence or the error.
pub open spec fn lookup_view(r: LookupResult) -> Result<Seq<PriceCandidate>, LookupError> {
    match r {
        Ok(v) => Ok(v@),
        Err(e) => Err(e),
    }
}

} // verus!
