//! Keeps the virtual addresses of running containers.

use vstd::prelude::*;

use crate::effects::FannedInEffect;
use crate::query::{raw_endpoints, raw_endpoints_of};
use crate::raw_net::{
    endpoint_routes, reconcile, table_of, RawEndpoint, RawEndpointView, RouteSpec,
};
use crate::same::Same;
use crate::state::{WorkspaceState, WorkspaceStateView};
use crate::strmap::StrMap;

verus! {

impl Same for RawEndpoint {
    fn same(&self, other: &Self) -> (r: bool) {
        self.raw_domain.same(&other.raw_domain) && self.ports.same(&other.ports)
    }
}

/// Keeps the virtual addresses of running containers.
pub struct RawNetEffect;

impl FannedInEffect for RawNetEffect {
    type Snapshot = Vec<RawEndpoint>;

    open spec fn depends_on(&self, states: Map<Seq<char>, WorkspaceStateView>) -> Seq<
        RawEndpointView,
    > {
        raw_endpoints_of(states)
    }

    fn extract(&self, states: &StrMap<WorkspaceState>) -> (r: Vec<RawEndpoint>) {
        raw_endpoints(states)
    }
}

impl RawNetEffect {
    /// Brings the table of addresses up to date; returns the rules that are to be
    /// in force.
    pub fn converge(&self, table: &mut StrMap<u32>, snapshot: &Vec<RawEndpoint>) -> (r: Vec<
        RouteSpec,
    >)
        ensures
            final(table)@ == table_of(snapshot.deep_view(), old(table)@),
            r@ == snapshot.deep_view().flat_map(
                |e: RawEndpointView| endpoint_routes(final(table)@, e),
            ),
    {
        reconcile(table, snapshot)
    }
}

} // verus!
