//! Comparing values by what they stand for.

use vstd::prelude::*;

use crate::state::{
    ContainerDesired, ContainerInfo, ContainerObserved, PendingAction, PortRoute, RunSpec,
    RunState, SyncStatus, VolumeInfo,
};
use crate::strmap::StrMap;
use crate::text::same_text;

verus! {

/// Values that can be compared by their views.
pub trait Same: DeepView + Sized {
    /// Whether both stand for the same value.
    fn same(&self, other: &Self) -> (r: bool)
        ensures
            r == (self.deep_view() == other.deep_view()),
    ;
}

impl Same for bool {
    fn same(&self, other: &Self) -> (r: bool) {
        *self == *other
    }
}

impl Same for u16 {
    fn same(&self, other: &Self) -> (r: bool) {
        *self == *other
    }
}

impl Same for String {
    fn same(&self, other: &Self) -> (r: bool) {
        same_text(self.as_str(), other.as_str())
    }
}

impl Same for SyncStatus {
    fn same(&self, other: &Self) -> (r: bool) {
        *self == *other
    }
}

impl Same for PendingAction {
    fn same(&self, other: &Self) -> (r: bool) {
        *self == *other
    }
}

impl<T: Same> Same for Option<T> {
    fn same(&self, other: &Self) -> (r: bool) {
        match (self, other) {
            (Some(a), Some(b)) => a.same(b),
            (None, None) => true,
            _ => false,
        }
    }
}

impl<T: Same> Same for Vec<T> {
    fn same(&self, other: &Self) -> (r: bool) {
        let ghost a = self.deep_view();
        let ghost b = other.deep_view();
        if self.len() != other.len() {
            proof {
                assert(a.len() != b.len());
            }
            return false;
        }
        let mut i: usize = 0;
        while i < self.len()
            invariant
                i <= self@.len(),
                self@.len() == other@.len(),
                a == self.deep_view(),
                b == other.deep_view(),
                forall|j: int| 0 <= j < i ==> a[j] == b[j],
            decreases self@.len() - i,
        {
            if !self[i].same(&other[i]) {
                proof {
                    assert(a[i as int] != b[i as int]);
                }
                return false;
            }
            i += 1;
        }
        proof {
            assert(a =~= b);
        }
        true
    }
}

impl<V: Same> Same for StrMap<V> {
    fn same(&self, other: &Self) -> (r: bool) {
        let n: usize = self.len();
        if n != other.len() {
            return false;
        }
        let mut i: usize = 0;
        while i < n
            invariant
                i <= n,
                n == self@.dom().len(),
                n == other@.dom().len(),
                n == self.keys().len(),
                n == other.keys().len(),
                forall|j: int|
                    #![trigger self.keys()[j]]
                    0 <= j < i ==> self.keys()[j] == other.keys()[j] && self@[self.keys()[j]]
                        == other@[self.keys()[j]],
            decreases n - i,
        {
            if !same_text(self.key_at(i).as_str(), other.key_at(i).as_str()) {
                return false;
            }
            if !self.value_at(i).same(other.value_at(i)) {
                return false;
            }
            i += 1;
        }
        proof {
            assert(self.keys() =~= other.keys());
            assert(self@.dom() =~= other@.dom());
            assert forall|k: Seq<char>| #[trigger] self@.dom().contains(k) implies self@[k]
                == other@[k] by {
                assert(self.keys().to_set().contains(k));
                let j = choose|j: int| 0 <= j < self.keys().len() && self.keys()[j] == k;
                assert(self.keys()[j] == k);
            }
            assert(self@ =~= other@);
        }
        true
    }
}

impl Same for PortRoute {
    fn same(&self, other: &Self) -> (r: bool) {
        self.domain.same(&other.domain) && self.host_port == other.host_port && self.wildcard
            == other.wildcard && self.container_port.same(&other.container_port) && self.https
            == other.https
    }
}

impl Same for ContainerDesired {
    fn same(&self, other: &Self) -> (r: bool) {
        self.running == other.running && self.container_name.same(&other.container_name)
            && self.domain.same(&other.domain) && self.raw_domain.same(&other.raw_domain)
            && self.routes.same(&other.routes) && self.additional_hosts.same(
            &other.additional_hosts,
        ) && self.status_port.same(&other.status_port) && self.config_hash.same(&other.config_hash)
    }
}

impl Same for ContainerObserved {
    fn same(&self, other: &Self) -> (r: bool) {
        self.status.same(&other.status) && self.published_port.same(&other.published_port)
            && self.ip.same(&other.ip) && self.ports.same(&other.ports) && self.sync == other.sync
    }
}

impl Same for ContainerInfo {
    fn same(&self, other: &Self) -> (r: bool) {
        self.node_id.same(&other.node_id) && self.desired.same(&other.desired)
            && self.observed.same(&other.observed) && self.pending_action.same(
            &other.pending_action,
        )
    }
}

impl Same for VolumeInfo {
    fn same(&self, other: &Self) -> (r: bool) {
        self.desired.name.same(&other.desired.name) && self.observed.exists
            == other.observed.exists
    }
}

impl Same for RunSpec {
    fn same(&self, other: &Self) -> (r: bool) {
        self.run_id.same(&other.run_id) && self.flow.same(&other.flow)
    }
}

impl Same for RunState {
    fn same(&self, other: &Self) -> (r: bool) {
        self.run_id.same(&other.run_id) && self.network.same(&other.network)
            && self.containers.same(&other.containers) && self.volumes.same(&other.volumes)
            && self.sidecar_container_name.same(&other.sidecar_container_name)
            && self.sidecar_ip.same(&other.sidecar_ip) && self.pending_create.same(
            &other.pending_create,
        ) && self.pending_teardown == other.pending_teardown
    }
}

} // verus!
