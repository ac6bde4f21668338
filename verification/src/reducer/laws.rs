//! What holds of every state and every action.

use vstd::prelude::*;

use crate::action::{Action, ActionRejected};
use crate::reducer::observation::{action_settled, create_settled, observed, teardown_settled};
use crate::reducer::reduced;
use crate::reducer::run::{
    node_deleted, node_started, node_stopped, placeholder, planned, run_stopped,
};
use crate::state::{
    ContainerInfo, ContainerInfoView, PendingAction, RunCreateError, RunSpec, RunSpecView,
    RunState, RunStateView, SyncStatus, WorkspaceOwner, WorkspaceStateView,
};
use crate::strmap::StrMap;

verus! {

/// The run that an action is about.
pub open spec fn target_run(action: Action) -> Option<Seq<char>> {
    match action {
        Action::RunPlanned { run_id, .. } => Some(run_id@),
        Action::RunStopRequested { run_id } => Some(run_id@),
        Action::RunNodeStartRequested { run_id, .. } => Some(run_id@),
        Action::RunNodeStopRequested { run_id, .. } => Some(run_id@),
        Action::RunNodeDeleteRequested { run_id, .. } => Some(run_id@),
        Action::ContainerObserved { run_id, .. } => Some(run_id@),
        Action::ContainerActionSettled { run_id, .. } => Some(run_id@),
        Action::RunCreateProgress { run_id, .. } => Some(run_id@),
        Action::RunCreateSettled { run_id, .. } => Some(run_id@),
        Action::RunTeardownSettled { run_id, .. } => Some(run_id@),
        Action::VolumeObserved { run_id, .. } => Some(run_id@),
        Action::ConfigDriftObserved { run_id, .. } => Some(run_id@),
        Action::OwnerSet { .. } => None,
    }
}

/// The node that an action on one node is about.
pub open spec fn target_node(action: Action) -> Option<Seq<char>> {
    match action {
        Action::RunNodeStartRequested { node_id, .. } => Some(node_id@),
        Action::RunNodeStopRequested { node_id, .. } => Some(node_id@),
        Action::RunNodeDeleteRequested { node_id, .. } => Some(node_id@),
        Action::ContainerObserved { node_id, .. } => Some(node_id@),
        Action::ContainerActionSettled { node_id, .. } => Some(node_id@),
        Action::RunCreateProgress { info, .. } => Some(info.node_id@),
        Action::ConfigDriftObserved { node_id, .. } => Some(node_id@),
        _ => None,
    }
}

/// A report is never refused.
pub proof fn law_reports_are_never_refused(s: WorkspaceStateView, action: Action)
    requires
        action.is_report(),
    ensures
        reduced(s, action) is Ok,
{
}

/// A report never brings a run back that is gone.
pub proof fn law_reports_never_add_a_run(s: WorkspaceStateView, action: Action, run_id: Seq<char>)
    requires
        action.is_report(),
        !s.runs.dom().contains(run_id),
    ensures
        !observed(s, action).runs.dom().contains(run_id),
{
}

/// Only planning a run can add one.
pub proof fn law_only_planning_adds_a_run(s: WorkspaceStateView, action: Action, run_id: Seq<char>)
    requires
        !s.runs.dom().contains(run_id),
        reduced(s, action) is Ok,
        reduced(s, action)->Ok_0.runs.dom().contains(run_id),
    ensures
        action is RunPlanned,
        target_run(action) == Some(run_id),
{
}

/// A request about a run that is not there is refused as such, unless it
/// plans that run.
pub proof fn law_unknown_run_is_refused(s: WorkspaceStateView, action: Action)
    requires
        action.is_run_request(),
        !(action is RunPlanned),
        !s.runs.dom().contains(target_run(action)->Some_0),
    ensures
        reduced(s, action) == Err::<WorkspaceStateView, ActionRejected>(
            ActionRejected::RunNotFound,
        ),
{
}

/// An action changes no run but the one it is about.
pub proof fn law_other_runs_are_untouched(s: WorkspaceStateView, action: Action, run_id: Seq<char>)
    requires
        reduced(s, action) is Ok,
        target_run(action) != Some(run_id),
    ensures
        reduced(s, action)->Ok_0.runs.dom().contains(run_id) == s.runs.dom().contains(run_id),
        s.runs.dom().contains(run_id) ==> reduced(s, action)->Ok_0.runs[run_id] == s.runs[run_id],
{
}

/// An action on one node changes no other container of its run.
pub proof fn law_other_nodes_are_untouched(
    s: WorkspaceStateView,
    action: Action,
    run_id: Seq<char>,
    node_id: Seq<char>,
)
    requires
        target_run(action) == Some(run_id),
        target_node(action) is Some,
        target_node(action) != Some(node_id),
        s.runs.dom().contains(run_id),
        reduced(s, action) is Ok,
    ensures
        ({
            let before = s.runs[run_id].containers;
            let after = reduced(s, action)->Ok_0.runs[run_id].containers;
            &&& after.dom().contains(node_id) == before.dom().contains(node_id)
            &&& before.dom().contains(node_id) ==> after[node_id] == before[node_id]
        }),
{
}

/// The owner changes only when it is set, and the path never does.
pub proof fn law_owner_and_path_are_kept(s: WorkspaceStateView, action: Action)
    requires
        reduced(s, action) is Ok,
    ensures
        reduced(s, action)->Ok_0.path == s.path,
        !(action is OwnerSet) ==> reduced(s, action)->Ok_0.owner == s.owner,
{
}

/// Once a request on a node is accepted, every further one on that node is
/// refused until it settles.
pub proof fn law_accepted_request_blocks_the_node(
    s: WorkspaceStateView,
    first: Action,
    second: Action,
)
    requires
        first is RunNodeStartRequested || first is RunNodeStopRequested
            || first is RunNodeDeleteRequested,
        second is RunNodeStartRequested || second is RunNodeStopRequested
            || second is RunNodeDeleteRequested,
        target_run(first) == target_run(second),
        target_node(first) == target_node(second),
        reduced(s, first) is Ok,
    ensures
        reduced(reduced(s, first)->Ok_0, second) == Err::<WorkspaceStateView, ActionRejected>(
            ActionRejected::AlreadyInFlight,
        ),
{
}

/// A failed action frees its node: the next request on it is accepted.
pub proof fn law_failure_frees_the_node(
    s: WorkspaceStateView,
    run_id: Seq<char>,
    node_id: Seq<char>,
    message: String,
)
    requires
        s.runs.dom().contains(run_id),
        s.runs[run_id].containers.dom().contains(node_id),
    ensures
        ({
            let after = action_settled(s, run_id, node_id, Err(message));
            &&& node_started(after, run_id, node_id) is Ok
            &&& node_stopped(after, run_id, node_id) is Ok
            &&& node_deleted(after, run_id, node_id) is Ok
        }),
{
}

/// A node whose container was removed can be started again.
pub proof fn law_removed_node_can_be_started(
    s: WorkspaceStateView,
    run_id: Seq<char>,
    node_id: Seq<char>,
)
    requires
        s.runs.dom().contains(run_id),
    ensures
        ({
            let after = action_settled(s, run_id, node_id, Ok(None));
            &&& !after.runs[run_id].containers.dom().contains(node_id)
            &&& node_started(after, run_id, node_id) is Ok
            &&& node_started(after, run_id, node_id)->Ok_0.runs[run_id].containers[node_id]
                == placeholder(node_id)
        }),
{
}

/// A run that is being created cannot be planned again before that settles,
/// and can be afterwards, whatever the failure was.
pub proof fn law_planning_is_exclusive(
    s: WorkspaceStateView,
    run_id: Seq<char>,
    plan: RunSpecView,
    again: RunSpecView,
    failure: RunCreateError,
)
    requires
        planned(s, run_id, plan) is Ok,
    ensures
        ({
            let during = planned(s, run_id, plan)->Ok_0;
            &&& planned(during, run_id, again) == Err::<WorkspaceStateView, ActionRejected>(
                ActionRejected::AlreadyInFlight,
            )
            &&& planned(create_settled(during, run_id, Err(failure)), run_id, again) is Ok
        }),
{
}

/// Planning keeps the containers and volumes that a run already has.
pub proof fn law_planning_keeps_the_run(
    s: WorkspaceStateView,
    run_id: Seq<char>,
    plan: RunSpecView,
)
    requires
        s.runs.dom().contains(run_id),
        planned(s, run_id, plan) is Ok,
    ensures
        planned(s, run_id, plan)->Ok_0.runs[run_id].containers == s.runs[run_id].containers,
        planned(s, run_id, plan)->Ok_0.runs[run_id].volumes == s.runs[run_id].volumes,
{
}

/// A creation that settles after its run was torn down changes nothing.
pub proof fn law_late_creation_is_ignored(
    s: WorkspaceStateView,
    run_id: Seq<char>,
    result: Result<RunState, RunCreateError>,
)
    ensures
        create_settled(teardown_settled(s, run_id, true), run_id, result) == teardown_settled(
            s,
            run_id,
            true,
        ),
{
}

/// A teardown that fails leaves the run as it can be torn down again: the
/// wish is withdrawn, and no container is stopping any more.
pub proof fn law_failed_teardown_can_be_retried(s: WorkspaceStateView, run_id: Seq<char>)
    requires
        run_stopped(s, run_id) is Ok,
    ensures
        ({
            let after = teardown_settled(run_stopped(s, run_id)->Ok_0, run_id, false);
            let run = after.runs[run_id];
            &&& after.runs.dom().contains(run_id)
            &&& !run.pending_teardown
            &&& run.containers.dom() == s.runs[run_id].containers.dom()
            &&& forall|n: Seq<char>| #[trigger]
                run.containers.dom().contains(n) ==> run.containers[n].pending_action != Some(
                    PendingAction::Stopping,
                )
            &&& run_stopped(after, run_id) is Ok
        }),
{
    let during = run_stopped(s, run_id)->Ok_0;
    let after = teardown_settled(during, run_id, false);
    assert(after.runs[run_id].containers.dom() =~= s.runs[run_id].containers.dom());
}

/// Stopping a run leaves every container that was being acted on as it was,
/// and marks every other one.
pub proof fn law_stopping_a_run_spares_busy_nodes(
    s: WorkspaceStateView,
    run_id: Seq<char>,
    node_id: Seq<char>,
)
    requires
        run_stopped(s, run_id) is Ok,
        s.runs[run_id].containers.dom().contains(node_id),
    ensures
        ({
            let before = s.runs[run_id].containers[node_id];
            let after = run_stopped(s, run_id)->Ok_0.runs[run_id].containers[node_id];
            if before.pending_action is Some {
                after == before
            } else {
                after.pending_action == Some(PendingAction::Stopping) && !after.desired.running
            }
        }),
{
}

/// Observing containers, volumes and configuration never changes what a
/// container should be.
pub proof fn law_observation_keeps_the_desired_state(
    s: WorkspaceStateView,
    action: Action,
    run_id: Seq<char>,
    node_id: Seq<char>,
)
    requires
        action is ContainerObserved || action is VolumeObserved || action is ConfigDriftObserved,
        s.runs.dom().contains(run_id),
        s.runs[run_id].containers.dom().contains(node_id),
    ensures
        ({
            let after = observed(s, action);
            &&& after.runs.dom().contains(run_id)
            &&& after.runs[run_id].containers.dom().contains(node_id)
            &&& after.runs[run_id].containers[node_id].desired
                == s.runs[run_id].containers[node_id].desired
            &&& after.runs[run_id].containers[node_id].pending_action
                == s.runs[run_id].containers[node_id].pending_action
        }),
{
}

/// Whether an action leaves all of a run as it was but for its containers.
pub open spec fn same_but_containers(before: RunStateView, after: RunStateView) -> bool {
    &&& after.run_id == before.run_id
    &&& after.network == before.network
    &&& after.volumes == before.volumes
    &&& after.sidecar_container_name == before.sidecar_container_name
    &&& after.sidecar_ip == before.sidecar_ip
    &&& after.pending_create == before.pending_create
    &&& after.pending_teardown == before.pending_teardown
}

/// A container that an action on a node reports replaces whatever was there, field
/// by field: nothing of the old one is left, and nothing else of the run changes.
pub proof fn law_reported_container_replaces_the_old_one(
    s: WorkspaceStateView,
    run_id: String,
    node_id: String,
    info: ContainerInfo,
)
    requires
        s.runs.dom().contains(run_id@),
    ensures
        ({
            let action = Action::ContainerActionSettled { run_id, node_id, result: Ok(Some(info)) };
            let run = reduced(s, action)->Ok_0.runs[run_id@];
            let c = run.containers[node_id@];
            &&& reduced(s, action) is Ok
            &&& reduced(s, action)->Ok_0.runs.dom().contains(run_id@)
            &&& run.containers.dom() == s.runs[run_id@].containers.dom().insert(node_id@)
            &&& c.node_id == info.node_id@
            &&& c.desired.running == info.desired.running
            &&& c.desired.container_name == info.desired.container_name@
            &&& c.desired.domain == info.desired.domain@
            &&& c.desired.raw_domain == info.desired.raw_domain@
            &&& c.desired.routes == info.desired.routes.deep_view()
            &&& c.desired.additional_hosts == info.desired.additional_hosts.deep_view()
            &&& c.desired.status_port == info.desired.status_port.deep_view()
            &&& c.desired.config_hash == info.desired.config_hash@
            &&& c.observed.status == info.observed.status@
            &&& c.observed.published_port == info.observed.published_port
            &&& c.observed.ip == info.observed.ip.deep_view()
            &&& c.observed.ports == info.observed.ports@
            &&& c.observed.sync == info.observed.sync
            &&& c.pending_action == info.pending_action
            &&& same_but_containers(s.runs[run_id@], run)
        }),
{
    let action = Action::ContainerActionSettled { run_id, node_id, result: Ok(Some(info)) };
    let run = reduced(s, action)->Ok_0.runs[run_id@];
    assert(run.containers.dom() =~= s.runs[run_id@].containers.dom().insert(node_id@));
}

/// A container that is reported gone is gone, and nothing else of its run changes.
pub proof fn law_container_reported_gone_is_gone(
    s: WorkspaceStateView,
    run_id: String,
    node_id: String,
)
    requires
        s.runs.dom().contains(run_id@),
    ensures
        ({
            let action = Action::ContainerActionSettled { run_id, node_id, result: Ok(None) };
            let run = reduced(s, action)->Ok_0.runs[run_id@];
            &&& reduced(s, action) is Ok
            &&& reduced(s, action)->Ok_0.runs.dom().contains(run_id@)
            &&& run.containers.dom() == s.runs[run_id@].containers.dom().remove(node_id@)
            &&& same_but_containers(s.runs[run_id@], run)
        }),
{
    let action = Action::ContainerActionSettled { run_id, node_id, result: Ok(None) };
    let run = reduced(s, action)->Ok_0.runs[run_id@];
    assert(run.containers.dom() =~= s.runs[run_id@].containers.dom().remove(node_id@));
}

/// An action on a node that failed leaves its container as it was, no longer acted
/// on.
pub proof fn law_failed_action_only_ends(
    s: WorkspaceStateView,
    run_id: String,
    node_id: String,
    message: String,
)
    requires
        s.runs.dom().contains(run_id@),
    ensures
        ({
            let action = Action::ContainerActionSettled { run_id, node_id, result: Err(message) };
            let before = s.runs[run_id@];
            let after = reduced(s, action)->Ok_0.runs[run_id@];
            &&& reduced(s, action) is Ok
            &&& reduced(s, action)->Ok_0.runs.dom().contains(run_id@)
            &&& after.containers.dom() == before.containers.dom()
            &&& same_but_containers(before, after)
            &&& before.containers.dom().contains(node_id@) ==> {
                &&& after.containers[node_id@].node_id == before.containers[node_id@].node_id
                &&& after.containers[node_id@].desired == before.containers[node_id@].desired
                &&& after.containers[node_id@].observed == before.containers[node_id@].observed
                &&& after.containers[node_id@].pending_action is None
            }
        }),
{
    let action = Action::ContainerActionSettled { run_id, node_id, result: Err(message) };
    let after = reduced(s, action)->Ok_0.runs[run_id@];
    assert(after.containers.dom() =~= s.runs[run_id@].containers.dom());
}

/// What an inspection saw of a container is taken over, all of it; its verdict on the
/// configuration, what is desired and what is being done stay. A container that is not
/// known is not made up.
pub proof fn law_inspection_is_taken_over(
    s: WorkspaceStateView,
    run_id: String,
    node_id: String,
    status: String,
    published_port: Option<u16>,
    ip: Option<String>,
    ports: StrMap<Option<u16>>,
)
    requires
        s.runs.dom().contains(run_id@),
    ensures
        ({
            let action = Action::ContainerObserved {
                run_id,
                node_id,
                status,
                published_port,
                ip,
                ports,
            };
            let before = s.runs[run_id@];
            let after = reduced(s, action)->Ok_0.runs[run_id@];
            &&& reduced(s, action) is Ok
            &&& after.containers.dom() == before.containers.dom()
            &&& same_but_containers(before, after)
            &&& before.containers.dom().contains(node_id@) ==> {
                let old_one = before.containers[node_id@];
                let new_one = after.containers[node_id@];
                &&& new_one.node_id == old_one.node_id
                &&& new_one.desired == old_one.desired
                &&& new_one.pending_action == old_one.pending_action
                &&& new_one.observed.status == status@
                &&& new_one.observed.published_port == published_port
                &&& new_one.observed.ip == ip.deep_view()
                &&& new_one.observed.ports == ports@
                &&& new_one.observed.sync == old_one.observed.sync
            }
        }),
{
    let action = Action::ContainerObserved { run_id, node_id, status, published_port, ip, ports };
    let after = reduced(s, action)->Ok_0.runs[run_id@];
    assert(after.containers.dom() =~= s.runs[run_id@].containers.dom());
}

/// A verdict on a container's configuration is taken over, and nothing but it.
pub proof fn law_verdict_is_taken_over(
    s: WorkspaceStateView,
    run_id: String,
    node_id: String,
    drift: SyncStatus,
)
    requires
        s.runs.dom().contains(run_id@),
    ensures
        ({
            let action = Action::ConfigDriftObserved { run_id, node_id, drift };
            let before = s.runs[run_id@];
            let after = reduced(s, action)->Ok_0.runs[run_id@];
            &&& reduced(s, action) is Ok
            &&& after.containers.dom() == before.containers.dom()
            &&& same_but_containers(before, after)
            &&& before.containers.dom().contains(node_id@) ==> {
                let old_one = before.containers[node_id@];
                let new_one = after.containers[node_id@];
                &&& new_one.node_id == old_one.node_id
                &&& new_one.desired == old_one.desired
                &&& new_one.pending_action == old_one.pending_action
                &&& new_one.observed.sync == drift
                &&& new_one.observed.status == old_one.observed.status
                &&& new_one.observed.published_port == old_one.observed.published_port
                &&& new_one.observed.ip == old_one.observed.ip
                &&& new_one.observed.ports == old_one.observed.ports
            }
        }),
{
    let action = Action::ConfigDriftObserved { run_id, node_id, drift };
    let after = reduced(s, action)->Ok_0.runs[run_id@];
    assert(after.containers.dom() =~= s.runs[run_id@].containers.dom());
}

/// A volume that was looked for is known from then on, and whether it is there.
pub proof fn law_volume_is_known_once_seen(
    s: WorkspaceStateView,
    run_id: String,
    volume_name: String,
    exists: bool,
    other: Seq<char>,
)
    requires
        s.runs.dom().contains(run_id@),
    ensures
        ({
            let action = Action::VolumeObserved { run_id, volume_name, exists };
            let before = s.runs[run_id@];
            let after = reduced(s, action)->Ok_0.runs[run_id@];
            &&& reduced(s, action) is Ok
            &&& after.volumes.dom() == before.volumes.dom().insert(volume_name@)
            &&& after.volumes[volume_name@].exists == exists
            &&& before.volumes.dom().contains(volume_name@) ==> after.volumes[volume_name@].name
                == before.volumes[volume_name@].name
            &&& !before.volumes.dom().contains(volume_name@) ==> after.volumes[volume_name@].name
                == volume_name@
            &&& other != volume_name@ && before.volumes.dom().contains(other)
                ==> after.volumes[other] == before.volumes[other]
            &&& after.containers == before.containers
            &&& after.run_id == before.run_id
            &&& after.network == before.network
            &&& after.sidecar_container_name == before.sidecar_container_name
            &&& after.sidecar_ip == before.sidecar_ip
            &&& after.pending_create == before.pending_create
            &&& after.pending_teardown == before.pending_teardown
        }),
{
    let action = Action::VolumeObserved { run_id, volume_name, exists };
    let after = reduced(s, action)->Ok_0.runs[run_id@];
    assert(after.volumes.dom() =~= s.runs[run_id@].volumes.dom().insert(volume_name@));
}

/// A container that comes up while its run is created is there at once, as it is
/// reported, with the network and the sidecar that it came up in; the run is still
/// being created.
pub proof fn law_progress_shows_at_once(
    s: WorkspaceStateView,
    run_id: String,
    network: String,
    sidecar_container_name: String,
    sidecar_ip: Option<String>,
    info: ContainerInfo,
)
    requires
        s.runs.dom().contains(run_id@),
    ensures
        ({
            let action = Action::RunCreateProgress {
                run_id,
                network,
                sidecar_container_name,
                sidecar_ip,
                info,
            };
            let before = s.runs[run_id@];
            let after = reduced(s, action)->Ok_0.runs[run_id@];
            &&& reduced(s, action) is Ok
            &&& after.network == network@
            &&& after.sidecar_container_name == sidecar_container_name@
            &&& after.sidecar_ip == sidecar_ip.deep_view()
            &&& after.containers.dom() == before.containers.dom().insert(info.node_id@)
            &&& after.containers[info.node_id@] == info@
            &&& after.run_id == before.run_id
            &&& after.volumes == before.volumes
            &&& after.pending_create == before.pending_create
            &&& after.pending_teardown == before.pending_teardown
        }),
{
    let action = Action::RunCreateProgress {
        run_id,
        network,
        sidecar_container_name,
        sidecar_ip,
        info,
    };
    let after = reduced(s, action)->Ok_0.runs[run_id@];
    assert(after.containers.dom() =~= s.runs[run_id@].containers.dom().insert(info.node_id@));
}

/// A run that was created is what its creation reports.
pub proof fn law_created_run_is_what_was_reported(
    s: WorkspaceStateView,
    run_id: String,
    run: RunState,
)
    requires
        s.runs.dom().contains(run_id@),
    ensures
        ({
            let action = Action::RunCreateSettled { run_id, result: Ok(run) };
            let after = reduced(s, action)->Ok_0.runs[run_id@];
            &&& reduced(s, action) is Ok
            &&& after.run_id == run.run_id@
            &&& after.network == run.network@
            &&& after.containers == run.containers@
            &&& after.volumes == run.volumes@
            &&& after.sidecar_container_name == run.sidecar_container_name@
            &&& after.sidecar_ip == run.sidecar_ip.deep_view()
            &&& after.pending_create == run.pending_create.deep_view()
            &&& after.pending_teardown == run.pending_teardown
        }),
{
}

/// Of a creation that failed what came up is kept, and without that what was there;
/// either way the run is no longer being created.
pub proof fn law_failed_creation_keeps_what_came_up(
    s: WorkspaceStateView,
    run_id: String,
    e: RunCreateError,
)
    requires
        s.runs.dom().contains(run_id@),
    ensures
        ({
            let action = Action::RunCreateSettled { run_id, result: Err(e) };
            let after = reduced(s, action)->Ok_0.runs[run_id@];
            let kept = match e.partial {
                Some(run) => run@,
                None => s.runs[run_id@],
            };
            &&& reduced(s, action) is Ok
            &&& after.pending_create is None
            &&& after.run_id == kept.run_id
            &&& after.network == kept.network
            &&& after.containers == kept.containers
            &&& after.volumes == kept.volumes
            &&& after.sidecar_container_name == kept.sidecar_container_name
            &&& after.sidecar_ip == kept.sidecar_ip
            &&& after.pending_teardown == kept.pending_teardown
        }),
{
}

/// A run that was torn down is gone; one that could not be is no longer being torn
/// down, and each of its containers is as it was but no longer stopping.
pub proof fn law_teardown_takes_the_run_or_lets_go_of_it(
    s: WorkspaceStateView,
    run_id: String,
    result: Result<(), String>,
    node_id: Seq<char>,
)
    ensures
        ({
            let action = Action::RunTeardownSettled { run_id, result };
            let next = reduced(s, action)->Ok_0;
            &&& reduced(s, action) is Ok
            &&& result is Ok ==> next.runs.dom() == s.runs.dom().remove(run_id@)
            &&& result is Err ==> next.runs.dom() == s.runs.dom()
            &&& result is Err && s.runs.dom().contains(run_id@) ==> {
                let before = s.runs[run_id@];
                let after = next.runs[run_id@];
                &&& !after.pending_teardown
                &&& after.run_id == before.run_id
                &&& after.network == before.network
                &&& after.volumes == before.volumes
                &&& after.sidecar_container_name == before.sidecar_container_name
                &&& after.sidecar_ip == before.sidecar_ip
                &&& after.pending_create == before.pending_create
                &&& after.containers.dom() == before.containers.dom()
                &&& before.containers.dom().contains(node_id) ==> {
                    let old_one = before.containers[node_id];
                    let new_one = after.containers[node_id];
                    &&& new_one.node_id == old_one.node_id
                    &&& new_one.desired == old_one.desired
                    &&& new_one.observed == old_one.observed
                    &&& new_one.pending_action == (if old_one.pending_action == Some(
                        PendingAction::Stopping,
                    ) {
                        None
                    } else {
                        old_one.pending_action
                    })
                }
            }
        }),
{
    let action = Action::RunTeardownSettled { run_id, result };
    let next = reduced(s, action)->Ok_0;
    if result is Ok {
        assert(next.runs.dom() =~= s.runs.dom().remove(run_id@));
    } else {
        assert(next.runs.dom() =~= s.runs.dom());
        if s.runs.dom().contains(run_id@) {
            assert(next.runs[run_id@].containers.dom() =~= s.runs[run_id@].containers.dom());
        }
    }
}

/// The owner that is set is the owner, in every part; the runs stay.
pub proof fn law_owner_is_set(s: WorkspaceStateView, owner: WorkspaceOwner)
    ensures
        ({
            let next = reduced(s, Action::OwnerSet { owner })->Ok_0;
            &&& reduced(s, Action::OwnerSet { owner }) is Ok
            &&& next.owner matches Some(o) && o.uid == owner.uid && o.gid == owner.gid && o.home
                == owner.home@ && o.ssh_auth_sock == owner.ssh_auth_sock.deep_view()
            &&& next.runs == s.runs
            &&& next.path == s.path
        }),
{
}

/// A run is planned unless one of its id is being created. The plan is recorded as it
/// is asked for; an existing run keeps all that it has, and a new one has nothing yet.
pub proof fn law_plan_is_recorded(s: WorkspaceStateView, run_id: String, plan: RunSpec)
    ensures
        ({
            let action = Action::RunPlanned { run_id, plan };
            let known = s.runs.dom().contains(run_id@);
            let busy = known && s.runs[run_id@].pending_create is Some;
            let next = reduced(s, action)->Ok_0;
            let after = next.runs[run_id@];
            &&& busy ==> reduced(s, action) == Err::<WorkspaceStateView, ActionRejected>(
                ActionRejected::AlreadyInFlight,
            )
            &&& !busy ==> {
                &&& reduced(s, action) is Ok
                &&& next.runs.dom() == s.runs.dom().insert(run_id@)
                &&& after.pending_create matches Some(p) && p.run_id == plan.run_id.deep_view()
                    && p.flow == plan.flow.deep_view()
            }
            &&& !busy && known ==> {
                &&& after.run_id == s.runs[run_id@].run_id
                &&& after.network == s.runs[run_id@].network
                &&& after.containers == s.runs[run_id@].containers
                &&& after.volumes == s.runs[run_id@].volumes
                &&& after.sidecar_container_name == s.runs[run_id@].sidecar_container_name
                &&& after.sidecar_ip == s.runs[run_id@].sidecar_ip
                &&& after.pending_teardown == s.runs[run_id@].pending_teardown
            }
            &&& !known ==> {
                &&& after.run_id == run_id@
                &&& after.network.len() == 0
                &&& after.containers.dom().is_empty()
                &&& after.volumes.dom().is_empty()
                &&& after.sidecar_container_name.len() == 0
                &&& after.sidecar_ip is None
                &&& !after.pending_teardown
            }
        }),
{
    let next = reduced(s, Action::RunPlanned { run_id, plan })->Ok_0;
    if !(s.runs.dom().contains(run_id@) && s.runs[run_id@].pending_create is Some) {
        assert(next.runs.dom() =~= s.runs.dom().insert(run_id@));
        if !s.runs.dom().contains(run_id@) {
            assert(next.runs[run_id@].containers.dom() =~= Set::empty());
            assert(next.runs[run_id@].volumes.dom() =~= Set::empty());
        }
    }
}

/// A run that is known can be stopped: its teardown is recorded, and of each container
/// that nothing is being done to that it is not to run and is stopping; the rest stays.
pub proof fn law_stopping_a_run_is_recorded(
    s: WorkspaceStateView,
    run_id: String,
    node_id: Seq<char>,
)
    requires
        s.runs.dom().contains(run_id@),
    ensures
        ({
            let action = Action::RunStopRequested { run_id };
            let before = s.runs[run_id@];
            let after = reduced(s, action)->Ok_0.runs[run_id@];
            &&& reduced(s, action) is Ok
            &&& after.pending_teardown
            &&& after.run_id == before.run_id
            &&& after.network == before.network
            &&& after.volumes == before.volumes
            &&& after.sidecar_container_name == before.sidecar_container_name
            &&& after.sidecar_ip == before.sidecar_ip
            &&& after.pending_create == before.pending_create
            &&& after.containers.dom() == before.containers.dom()
            &&& before.containers.dom().contains(node_id) ==> {
                let old_one = before.containers[node_id];
                let new_one = after.containers[node_id];
                &&& old_one.pending_action is Some ==> new_one == old_one
                &&& old_one.pending_action is None ==> asked_of(
                    old_one,
                    new_one,
                    false,
                    PendingAction::Stopping,
                )
            }
        }),
{
    let action = Action::RunStopRequested { run_id };
    let after = reduced(s, action)->Ok_0.runs[run_id@];
    assert(after.containers.dom() =~= s.runs[run_id@].containers.dom());
}

/// Whether a container is the same but for whether it is to run and what is being done
/// to it.
pub open spec fn asked_of(
    before: ContainerInfoView,
    after: ContainerInfoView,
    running: bool,
    pending: PendingAction,
) -> bool {
    &&& after.node_id == before.node_id
    &&& after.desired.running == running
    &&& after.desired.container_name == before.desired.container_name
    &&& after.desired.domain == before.desired.domain
    &&& after.desired.raw_domain == before.desired.raw_domain
    &&& after.desired.routes == before.desired.routes
    &&& after.desired.additional_hosts == before.desired.additional_hosts
    &&& after.desired.status_port == before.desired.status_port
    &&& after.desired.config_hash == before.desired.config_hash
    &&& after.observed == before.observed
    &&& after.pending_action == Some(pending)
}

/// A start is accepted on every node of a known run that nothing is being done to, also
/// on one without a container. It is recorded that the node is to run and is starting,
/// and nothing else changes; a new entry has nothing yet but its id.
pub proof fn law_start_is_recorded(s: WorkspaceStateView, run_id: String, node_id: String)
    requires
        s.runs.dom().contains(run_id@),
    ensures
        ({
            let action = Action::RunNodeStartRequested { run_id, node_id };
            let before = s.runs[run_id@];
            let after = reduced(s, action)->Ok_0.runs[run_id@];
            let known = before.containers.dom().contains(node_id@);
            let busy = known && before.containers[node_id@].pending_action is Some;
            &&& busy ==> reduced(s, action) == Err::<WorkspaceStateView, ActionRejected>(
                ActionRejected::AlreadyInFlight,
            )
            &&& !busy ==> {
                &&& reduced(s, action) is Ok
                &&& after.containers.dom() == before.containers.dom().insert(node_id@)
                &&& same_but_containers(before, after)
            }
            &&& known && !busy ==> asked_of(
                before.containers[node_id@],
                after.containers[node_id@],
                true,
                PendingAction::Starting,
            )
            &&& !known ==> {
                let c = after.containers[node_id@];
                &&& c.node_id == node_id@
                &&& c.desired.running
                &&& c.desired.container_name.len() == 0
                &&& c.desired.domain.len() == 0
                &&& c.desired.raw_domain.len() == 0
                &&& c.desired.routes.len() == 0
                &&& c.desired.additional_hosts.len() == 0
                &&& c.desired.status_port is None
                &&& c.desired.config_hash.len() == 0
                &&& c.observed.status.len() == 0
                &&& c.observed.published_port is None
                &&& c.observed.ip is None
                &&& c.observed.ports.dom().is_empty()
                &&& c.observed.sync == SyncStatus::Unknown
                &&& c.pending_action == Some(PendingAction::Starting)
            }
        }),
{
    let action = Action::RunNodeStartRequested { run_id, node_id };
    let before = s.runs[run_id@];
    let after = reduced(s, action)->Ok_0.runs[run_id@];
    if reduced(s, action) is Ok {
        assert(after.containers.dom() =~= before.containers.dom().insert(node_id@));
        if !before.containers.dom().contains(node_id@) {
            assert(after.containers[node_id@].observed.ports.dom() =~= Set::empty());
        }
    }
}

/// A stop is accepted on every container that nothing is being done to, and on nothing
/// else. It is recorded that the node is not to run and is stopping.
pub proof fn law_stop_is_recorded(s: WorkspaceStateView, run_id: String, node_id: String)
    requires
        s.runs.dom().contains(run_id@),
    ensures
        ({
            let action = Action::RunNodeStopRequested { run_id, node_id };
            let before = s.runs[run_id@];
            let after = reduced(s, action)->Ok_0.runs[run_id@];
            let known = before.containers.dom().contains(node_id@);
            let busy = known && before.containers[node_id@].pending_action is Some;
            &&& !known ==> reduced(s, action) == Err::<WorkspaceStateView, ActionRejected>(
                ActionRejected::NodeNotFound,
            )
            &&& busy ==> reduced(s, action) == Err::<WorkspaceStateView, ActionRejected>(
                ActionRejected::AlreadyInFlight,
            )
            &&& known && !busy ==> {
                &&& reduced(s, action) is Ok
                &&& after.containers.dom() == before.containers.dom()
                &&& same_but_containers(before, after)
                &&& asked_of(
                    before.containers[node_id@],
                    after.containers[node_id@],
                    false,
                    PendingAction::Stopping,
                )
            }
        }),
{
    let action = Action::RunNodeStopRequested { run_id, node_id };
    let after = reduced(s, action)->Ok_0.runs[run_id@];
    if reduced(s, action) is Ok {
        assert(after.containers.dom() =~= s.runs[run_id@].containers.dom());
    }
}

/// A removal is accepted on every container that nothing is being done to, and on
/// nothing else. What the node is to do meanwhile stays.
pub proof fn law_removal_is_recorded(s: WorkspaceStateView, run_id: String, node_id: String)
    requires
        s.runs.dom().contains(run_id@),
    ensures
        ({
            let action = Action::RunNodeDeleteRequested { run_id, node_id };
            let before = s.runs[run_id@];
            let after = reduced(s, action)->Ok_0.runs[run_id@];
            let known = before.containers.dom().contains(node_id@);
            let busy = known && before.containers[node_id@].pending_action is Some;
            &&& !known ==> reduced(s, action) == Err::<WorkspaceStateView, ActionRejected>(
                ActionRejected::NodeNotFound,
            )
            &&& busy ==> reduced(s, action) == Err::<WorkspaceStateView, ActionRejected>(
                ActionRejected::AlreadyInFlight,
            )
            &&& known && !busy ==> {
                &&& reduced(s, action) is Ok
                &&& after.containers.dom() == before.containers.dom()
                &&& same_but_containers(before, after)
                &&& asked_of(
                    before.containers[node_id@],
                    after.containers[node_id@],
                    before.containers[node_id@].desired.running,
                    PendingAction::Removing,
                )
            }
        }),
{
    let action = Action::RunNodeDeleteRequested { run_id, node_id };
    let after = reduced(s, action)->Ok_0.runs[run_id@];
    if reduced(s, action) is Ok {
        assert(after.containers.dom() =~= s.runs[run_id@].containers.dom());
    }
}

} // verus!
