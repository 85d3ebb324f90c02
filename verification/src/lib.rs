//! An in-memory key-value cache with two independent eviction mechanisms: an
//! optional capacity bound, enforced by evicting the oldest-inserted key, and
//! an optional time-to-live, enforced at every read and by an explicit sweep
//! step meant to run on a background worker.
//!
//! The crate is the cache's sequential core, verified against the model in
//! [`model`]: a host shares it across threads behind its own locks, reads a
//! monotonic clock for the `now` arguments, and drives the sweeper through
//! the states of [`lifecycle::SweeperState`].

pub mod cache;
pub mod laws;
pub mod lifecycle;
pub mod model;

pub use cache::Cache;
pub use lifecycle::SweeperState;
