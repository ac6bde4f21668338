//! The daemon's own state.

use vstd::prelude::*;

verus! {

/// What the daemon remembers across restarts.
#[derive(Debug, Clone, Copy, PartialEq, Eq, Structural)]
pub struct DaemonState {
    /// Whether the daemon was last told to stop.
    pub idle_requested: bool,
}

impl DaemonState {
    /// The state of a daemon that was never told anything.
    pub open spec fn initial() -> DaemonState {
        DaemonState { idle_requested: false }
    }

    /// The stored state, or the initial one where nothing readable is stored.
    pub open spec fn recalled(stored: Option<DaemonState>) -> DaemonState {
        match stored {
            Some(s) => s,
            None => DaemonState::initial(),
        }
    }
}

impl Default for DaemonState {
    fn default() -> (r: Self)
        ensures
            r == DaemonState::initial(),
    {
        DaemonState { idle_requested: false }
    }
}

/// The stored state, or the initial one where nothing readable is stored.
pub fn stored_or_initial(stored: Option<DaemonState>) -> (r: DaemonState)
    ensures
        r == DaemonState::recalled(stored),
{
    match stored {
        Some(s) => s,
        None => DaemonState { idle_requested: false },
    }
}

/// What is stored is recalled; a daemon of which nothing is stored was never told to
/// stop.
pub proof fn law_stored_state_is_recalled(stored: DaemonState)
    ensures
        DaemonState::recalled(Some(stored)) == stored,
        !DaemonState::recalled(None).idle_requested,
{
}

} // verus!
