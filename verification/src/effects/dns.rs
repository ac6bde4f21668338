//! Routes the wildcard names of running containers to the DNS server.

use vstd::prelude::*;

use crate::dns::{
    files_to_remove, install_os_resolver_config, resolver_text, routed_zones, zones_to_write,
    ResolverChanges,
};
use crate::effects::FannedInEffect;
use crate::query::{wildcard_suffixes, wildcard_suffixes_of};
use crate::state::{WorkspaceState, WorkspaceStateView};
use crate::strmap::StrMap;

verus! {

/// Routes the wildcard names of running containers to the DNS server at a port.
pub struct DnsEffect {
    pub port: u16,
}

impl FannedInEffect for DnsEffect {
    type Snapshot = Vec<String>;

    open spec fn depends_on(&self, states: Map<Seq<char>, WorkspaceStateView>) -> Seq<Seq<char>> {
        wildcard_suffixes_of(states)
    }

    fn extract(&self, states: &StrMap<WorkspaceState>) -> (r: Vec<String>) {
        wildcard_suffixes(states)
    }
}

impl DnsEffect {
    /// The changes to the resolver directory that the effect's work consists of.
    pub fn converge(&self, macos: bool, files: &StrMap<String>, snapshot: &Vec<String>) -> (r:
        Option<ResolverChanges>)
        ensures
            r is Some <==> macos,
            match r {
                Some(c) => {
                    let zones = routed_zones(snapshot.deep_view());
                    &&& c.content@ == resolver_text(self.port)
                    &&& c.write.deep_view() == zones_to_write(
                        files@,
                        resolver_text(self.port),
                        zones,
                    )
                    &&& c.remove.deep_view() == files_to_remove(files@, zones)
                },
                None => true,
            },
    {
        install_os_resolver_config(macos, files, self.port, snapshot)
    }
}

} // verus!
