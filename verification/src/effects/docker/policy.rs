//! Whether drift is corrected.

use vstd::prelude::*;

verus! {

/// What is done about a container that is not in the desired state.
#[derive(Debug, Clone, Copy, PartialEq, Eq, Structural)]
pub enum DockerHealPolicy {
    /// Drift is reported, and nothing else.
    ObserverOnly,
    /// Drift is corrected as well.
    AutoHeal,
}

impl Default for DockerHealPolicy {
    fn default() -> (r: Self)
        ensures
            r == DockerHealPolicy::ObserverOnly,
    {
        DockerHealPolicy::ObserverOnly
    }
}

} // verus!
