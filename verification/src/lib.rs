//! Price reconciliation for a table of card records: each record's identifier
//! is looked up against a pricing service, an ambiguous multi-candidate quote
//! is collapsed into one deterministic price by a configured arbitration
//! strategy, and the priced records come out in input order with per-record
//! failures recorded rather than propagated. Prices are fixed-point amounts
//! in cents. The lookup call itself is I/O and lives with the caller; this
//! crate holds the decisions: response-text parsing, arbitration, per-record
//! outcome, order restoration, and the aggregate total.

pub mod aggregate;
pub mod arbitrate;
pub mod parse;
pub mod pipeline;
pub mod record;
