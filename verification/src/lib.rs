//! A small record-keeping library: keyed in-memory stores for task, user and
//! currency-pair records, a snapshot codec that turns a whole store into a
//! flat word stream and back, and the decision logic (login checks, price
//! merges) that a service layer drives.

pub mod forex;
pub mod snapshot;
pub mod store;
