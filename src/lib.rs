//! Laterbase: a bi-temporal, replicated event store. Each replica keeps an
//! append-only log of opaque events keyed by time-prefixed identifiers, and
//! replicas converge by exchanging the events added since they last heard from
//! each other.
pub mod bytes;
pub mod event;
pub mod storage;
pub mod log;
pub mod message;
pub mod replica;
pub mod convergence;
