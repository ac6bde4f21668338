//! Keeps the further names of running containers in the hosts file.

use vstd::prelude::*;

use crate::effects::FannedInEffect;
use crate::hosts_file::{sync, synced};
use crate::query::{additional_hosts, additional_hosts_of};
use crate::state::{WorkspaceState, WorkspaceStateView};
use crate::strmap::StrMap;

verus! {

/// Keeps the further names of running containers in the hosts file.
pub struct HostsEffect;

impl FannedInEffect for HostsEffect {
    type Snapshot = Vec<String>;

    open spec fn depends_on(&self, states: Map<Seq<char>, WorkspaceStateView>) -> Seq<Seq<char>> {
        additional_hosts_of(states)
    }

    fn extract(&self, states: &StrMap<WorkspaceState>) -> (r: Vec<String>) {
        additional_hosts(states)
    }
}

impl HostsEffect {
    /// What the hosts file is to hold.
    pub fn converge(&self, existing: &str, snapshot: &Vec<String>) -> (r: String)
        ensures
            r@ == synced(existing@, snapshot.deep_view()),
    {
        sync(existing, snapshot)
    }
}

} // verus!
