//! Reports what containers look like.

use vstd::prelude::*;

use crate::action::Action;
use crate::reducer::reduced;
use crate::state::{
    ContainerObserved, ContainerObservedView, DriftReport, SyncStatus, WorkspaceStateView,
};

verus! {

/// Whether an action reports whether a container runs what it should.
pub open spec fn reports_sync(
    a: Action,
    run_id: Seq<char>,
    node_id: Seq<char>,
    sync: SyncStatus,
) -> bool {
    match a {
        Action::ConfigDriftObserved { run_id: run, node_id: node, drift } => run@ == run_id && node@
            == node_id && drift == sync,
        _ => false,
    }
}

/// Whether an action reports what a container looked like.
pub open spec fn reports_look(
    a: Action,
    run_id: Seq<char>,
    node_id: Seq<char>,
    observed: ContainerObservedView,
) -> bool {
    match a {
        Action::ContainerObserved { run_id: run, node_id: node, status, published_port, ip, ports } => {
            &&& run@ == run_id
            &&& node@ == node_id
            &&& status@ == observed.status
            &&& published_port == observed.published_port
            &&& ip is None
            &&& ports@ == observed.ports
        },
        _ => false,
    }
}

/// The report of whether a container runs what it should.
pub fn config_drift_observed(report: &DriftReport) -> (r: Action)
    ensures
        reports_sync(r, report.run_id@, report.node_id@, report.sync),
{
    Action::ConfigDriftObserved {
        run_id: report.run_id.clone(),
        node_id: report.node_id.clone(),
        drift: report.sync,
    }
}

/// The report of what a container looked like. Its address is not among what an
/// inspection looks at.
pub fn container_observed(run_id: &str, node_id: &str, observed: &ContainerObserved) -> (r: Action)
    ensures
        reports_look(r, run_id@, node_id@, observed@),
{
    Action::ContainerObserved {
        run_id: run_id.to_owned(),
        node_id: node_id.to_owned(),
        status: observed.status.clone(),
        published_port: observed.published_port,
        ip: None,
        ports: observed.ports.clone(),
    }
}

/// What is reported of a container is what is known of it from then on: its status,
/// its ports and whether it runs what it should. What it is to be is not touched, and
/// neither is what is being done to it.
pub proof fn law_reports_reach_the_container(
    s: WorkspaceStateView,
    run_id: Seq<char>,
    node_id: Seq<char>,
    look: Action,
    observed: ContainerObservedView,
    drift: Action,
    sync: SyncStatus,
)
    requires
        s.runs.contains_key(run_id),
        s.runs[run_id].containers.contains_key(node_id),
        reports_look(look, run_id, node_id, observed),
        reports_sync(drift, run_id, node_id, sync),
    ensures
        ({
            let before = s.runs[run_id].containers[node_id];
            &&& reduced(s, look) matches Ok(next) && {
                let c = next.runs[run_id].containers[node_id];
                &&& c.observed.status == observed.status
                &&& c.observed.published_port == observed.published_port
                &&& c.observed.ports == observed.ports
                &&& c.observed.ip is None
                &&& c.observed.sync == before.observed.sync
                &&& c.desired == before.desired
                &&& c.pending_action == before.pending_action
            }
            &&& reduced(s, drift) matches Ok(next) && {
                let c = next.runs[run_id].containers[node_id];
                &&& c.observed.sync == sync
                &&& c.observed.status == before.observed.status
                &&& c.observed.published_port == before.observed.published_port
                &&& c.observed.ports == before.observed.ports
                &&& c.desired == before.desired
                &&& c.pending_action == before.pending_action
            }
        }),
{
}

} // verus!
