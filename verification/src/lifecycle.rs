//! The sweeper's lifecycle, as a small state machine.
//!
//! The cache owns at most one background sweeper. Its life is described by
//! four states: it does not exist until a time-to-live is configured, it then
//! runs, the owner asks it to stop on teardown, and teardown completes only
//! once the owner has seen it exit. The cache records the current state and
//! the host drives the actual worker through these transitions, so that no
//! sweep can run after the cache's storage is gone.

use vstd::prelude::*;

verus! {

/// Where the background sweeper stands in its life.
#[derive(Clone, Copy, Debug, PartialEq, Eq, Structural)]
pub enum SweeperState {
    /// No time-to-live was configured, so no sweeper exists.
    NotStarted,
    /// A time-to-live was configured and the sweeper is expected to run.
    Running,
    /// The owner has raised the stop flag; the sweeper may still be mid-cycle.
    StopRequested,
    /// The owner has observed the sweeper exit; no background work remains.
    Stopped,
}

} // verus!
