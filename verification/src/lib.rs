//! An embedded, expiry-aware key-value store: string keys map to string
//! values, each with an absolute expiry timestamp computed from a caller
//! supplied time-to-live.  Expired records are deleted lazily when read and
//! in bulk by an explicit sweep.  The host applies the returned storage
//! actions to its durable backing table to keep it in step.

pub mod laws;
pub mod model;
pub mod store;
