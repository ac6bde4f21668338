//! Reports: what a poll or a finished piece of work found out.
//!
//! A report about a run or a node that is gone changes nothing.

use vstd::prelude::*;

use crate::action::Action;
use crate::reducer::run::{put_container, put_run, with_container, with_run};
use crate::state::{
    ContainerInfo, ContainerInfoView, ContainerObservedView, PendingAction, RunCreateError,
    RunState, RunStateView, SyncStatus, VolumeDesired, VolumeInfo, VolumeInfoView, VolumeObserved,
    WorkspaceState, WorkspaceStateView,
};
use crate::strmap::{lemma_take_next, StrMap};

verus! {

/// Whether the state has a container for a node.
pub open spec fn has_container(
    s: WorkspaceStateView,
    run_id: Seq<char>,
    node_id: Seq<char>,
) -> bool {
    s.runs.dom().contains(run_id) && s.runs[run_id].containers.dom().contains(node_id)
}

/// Takes over what an inspection saw; the desired state is left alone.
pub open spec fn container_observed(
    s: WorkspaceStateView,
    run_id: Seq<char>,
    node_id: Seq<char>,
    seen: ContainerObservedView,
) -> WorkspaceStateView {
    if has_container(s, run_id, node_id) {
        let c = s.runs[run_id].containers[node_id];
        with_container(
            s,
            run_id,
            node_id,
            ContainerInfoView {
                observed: ContainerObservedView { sync: c.observed.sync, ..seen },
                ..c
            },
        )
    } else {
        s
    }
}

/// Takes over the outcome of an action on a container.
pub open spec fn action_settled(
    s: WorkspaceStateView,
    run_id: Seq<char>,
    node_id: Seq<char>,
    result: Result<Option<ContainerInfo>, String>,
) -> WorkspaceStateView {
    if !s.runs.dom().contains(run_id) {
        s
    } else {
        let run = s.runs[run_id];
        match result {
            Ok(Some(info)) => with_container(s, run_id, node_id, info@),
            Ok(None) => with_run(
                s,
                run_id,
                RunStateView { containers: run.containers.remove(node_id), ..run },
            ),
            Err(_) => if run.containers.dom().contains(node_id) {
                with_container(
                    s,
                    run_id,
                    node_id,
                    ContainerInfoView { pending_action: None, ..run.containers[node_id] },
                )
            } else {
                s
            },
        }
    }
}

/// Takes over the outcome of a run's creation: the run itself, what came up
/// before a failure, or nothing but the end of the attempt.
pub open spec fn create_settled(
    s: WorkspaceStateView,
    run_id: Seq<char>,
    result: Result<RunState, RunCreateError>,
) -> WorkspaceStateView {
    if !s.runs.dom().contains(run_id) {
        s
    } else {
        match result {
            Ok(run) => with_run(s, run_id, run@),
            Err(e) => match e.partial {
                Some(run) => with_run(s, run_id, RunStateView { pending_create: None, ..run@ }),
                None => with_run(
                    s,
                    run_id,
                    RunStateView { pending_create: None, ..s.runs[run_id] },
                ),
            },
        }
    }
}

/// Takes over one container that came up while its run is being created.
pub open spec fn create_progressed(
    s: WorkspaceStateView,
    run_id: Seq<char>,
    network: Seq<char>,
    sidecar_container_name: Seq<char>,
    sidecar_ip: Option<Seq<char>>,
    info: ContainerInfoView,
) -> WorkspaceStateView {
    if !s.runs.dom().contains(run_id) {
        s
    } else {
        let run = s.runs[run_id];
        with_run(
            s,
            run_id,
            RunStateView {
                network,
                sidecar_container_name,
                sidecar_ip,
                containers: run.containers.insert(info.node_id, info),
                ..run
            },
        )
    }
}

/// A container whose run could not be torn down: it is no longer stopping.
pub open spec fn stop_unmarked(c: ContainerInfoView) -> ContainerInfoView {
    if c.pending_action == Some(PendingAction::Stopping) {
        ContainerInfoView { pending_action: None, ..c }
    } else {
        c
    }
}

/// Takes over the outcome of a teardown: the run goes, or can be torn down
/// again.
pub open spec fn teardown_settled(
    s: WorkspaceStateView,
    run_id: Seq<char>,
    ok: bool,
) -> WorkspaceStateView {
    if ok {
        WorkspaceStateView { runs: s.runs.remove(run_id), ..s }
    } else if s.runs.dom().contains(run_id) {
        let run = s.runs[run_id];
        with_run(
            s,
            run_id,
            RunStateView {
                pending_teardown: false,
                containers: run.containers.map_values(|c: ContainerInfoView| stop_unmarked(c)),
                ..run
            },
        )
    } else {
        s
    }
}

/// Takes over whether a volume exists; an unknown volume becomes known.
pub open spec fn volume_observed(
    s: WorkspaceStateView,
    run_id: Seq<char>,
    volume_name: Seq<char>,
    exists: bool,
) -> WorkspaceStateView {
    if !s.runs.dom().contains(run_id) {
        s
    } else {
        let run = s.runs[run_id];
        let name = if run.volumes.dom().contains(volume_name) {
            run.volumes[volume_name].name
        } else {
            volume_name
        };
        with_run(
            s,
            run_id,
            RunStateView {
                volumes: run.volumes.insert(volume_name, VolumeInfoView { name, exists }),
                ..run
            },
        )
    }
}

/// Takes over a verdict on a container's configuration.
pub open spec fn drift_observed(
    s: WorkspaceStateView,
    run_id: Seq<char>,
    node_id: Seq<char>,
    drift: SyncStatus,
) -> WorkspaceStateView {
    if has_container(s, run_id, node_id) {
        let c = s.runs[run_id].containers[node_id];
        with_container(
            s,
            run_id,
            node_id,
            ContainerInfoView { observed: ContainerObservedView { sync: drift, ..c.observed }, ..c },
        )
    } else {
        s
    }
}

/// What a report makes of the state `s`.
pub open spec fn observed(s: WorkspaceStateView, action: Action) -> WorkspaceStateView
    recommends
        action.is_report(),
{
    match action {
        Action::ContainerObserved { run_id, node_id, status, published_port, ip, ports } =>
            container_observed(
            s,
            run_id@,
            node_id@,
            ContainerObservedView {
                status: status@,
                published_port,
                ip: ip.deep_view(),
                ports: ports@,
                sync: SyncStatus::Unknown,
            },
        ),
        Action::ContainerActionSettled { run_id, node_id, result } => action_settled(
            s,
            run_id@,
            node_id@,
            result,
        ),
        Action::RunCreateProgress {
            run_id,
            network,
            sidecar_container_name,
            sidecar_ip,
            info,
        } => create_progressed(
            s,
            run_id@,
            network@,
            sidecar_container_name@,
            sidecar_ip.deep_view(),
            info@,
        ),
        Action::RunCreateSettled { run_id, result } => create_settled(s, run_id@, result),
        Action::RunTeardownSettled { run_id, result } => teardown_settled(
            s,
            run_id@,
            result is Ok,
        ),
        Action::VolumeObserved { run_id, volume_name, exists } => volume_observed(
            s,
            run_id@,
            volume_name@,
            exists,
        ),
        Action::ConfigDriftObserved { run_id, node_id, drift } => drift_observed(
            s,
            run_id@,
            node_id@,
            drift,
        ),
        _ => s,
    }
}

/// Applies a report.
pub fn reduce(state: &WorkspaceState, action: Action) -> (next: WorkspaceState)
    requires
        action.is_report(),
    ensures
        next@ == observed(state@, action),
{
    match action {
        Action::ContainerObserved { run_id, node_id, status, published_port, ip, ports } => {
            match find_container(state, run_id.as_str(), node_id.as_str()) {
                Some(mut c) => {
                    c.observed.status = status;
                    c.observed.published_port = published_port;
                    c.observed.ip = ip;
                    c.observed.ports = ports;
                    put_container(state, run_id, node_id, c)
                },
                None => state.clone(),
            }
        },
        Action::ContainerActionSettled { run_id, node_id, result } => {
            match state.runs.get(run_id.as_str()) {
                None => state.clone(),
                Some(run) => match result {
                    Ok(Some(info)) => put_container(state, run_id, node_id, info),
                    Ok(None) => {
                        let mut run = run.clone();
                        run.containers.remove(node_id.as_str());
                        put_run(state, run_id, run)
                    },
                    Err(_) => match find_container(state, run_id.as_str(), node_id.as_str()) {
                        Some(mut c) => {
                            c.pending_action = None;
                            put_container(state, run_id, node_id, c)
                        },
                        None => state.clone(),
                    },
                },
            }
        },
        Action::RunCreateSettled { run_id, result } => {
            match state.runs.get(run_id.as_str()) {
                None => state.clone(),
                Some(present) => {
                    let run = match result {
                        Ok(run) => run,
                        Err(e) => {
                            let mut run = match e.partial {
                                Some(run) => run,
                                None => present.clone(),
                            };
                            run.pending_create = None;
                            run
                        },
                    };
                    put_run(state, run_id, run)
                },
            }
        },
        Action::RunCreateProgress {
            run_id,
            network,
            sidecar_container_name,
            sidecar_ip,
            info,
        } => {
            match state.runs.get(run_id.as_str()) {
                None => state.clone(),
                Some(run) => {
                    let mut run = run.clone();
                    run.network = network;
                    run.sidecar_container_name = sidecar_container_name;
                    run.sidecar_ip = sidecar_ip;
                    run.containers.insert(info.node_id.clone(), info);
                    put_run(state, run_id, run)
                },
            }
        },
        Action::RunTeardownSettled { run_id, result } => {
            match result {
                Ok(()) => {
                    let mut next = state.clone();
                    next.runs.remove(run_id.as_str());
                    next
                },
                Err(_) => match state.runs.get(run_id.as_str()) {
                    None => state.clone(),
                    Some(run) => {
                        let mut run = run.clone();
                        run.pending_teardown = false;
                        run.containers = unmark_stopping(&run.containers);
                        put_run(state, run_id, run)
                    },
                },
            }
        },
        Action::VolumeObserved { run_id, volume_name, exists } => {
            match state.runs.get(run_id.as_str()) {
                None => state.clone(),
                Some(run) => {
                    let mut run = run.clone();
                    let name = match run.volumes.get(volume_name.as_str()) {
                        Some(v) => v.desired.name.clone(),
                        None => volume_name.clone(),
                    };
                    let volume = VolumeInfo {
                        desired: VolumeDesired { name },
                        observed: VolumeObserved { exists },
                    };
                    run.volumes.insert(volume_name, volume);
                    put_run(state, run_id, run)
                },
            }
        },
        Action::ConfigDriftObserved { run_id, node_id, drift } => {
            match find_container(state, run_id.as_str(), node_id.as_str()) {
                Some(mut c) => {
                    c.observed.sync = drift;
                    put_container(state, run_id, node_id, c)
                },
                None => state.clone(),
            }
        },
        _ => state.clone(),
    }
}

/// A copy of the container of a node.
fn find_container(state: &WorkspaceState, run_id: &str, node_id: &str) -> (r: Option<ContainerInfo>)
    ensures
        match r {
            Some(c) => has_container(state@, run_id@, node_id@) && c@
                == state@.runs[run_id@].containers[node_id@],
            None => !has_container(state@, run_id@, node_id@),
        },
{
    match state.runs.get(run_id) {
        None => None,
        Some(run) => match run.containers.get(node_id) {
            None => None,
            Some(c) => Some(c.clone()),
        },
    }
}

/// Clears the mark that a teardown left on every container it reached.
fn unmark_stopping(containers: &StrMap<ContainerInfo>) -> (r: StrMap<ContainerInfo>)
    ensures
        r@ == containers@.map_values(|c: ContainerInfoView| stop_unmarked(c)),
{
    let mut r: StrMap<ContainerInfo> = StrMap::new();
    let n: usize = containers.len();
    let mut i: usize = 0;
    while i < n
        invariant
            n == containers@.dom().len(),
            n == containers.keys().len(),
            i <= n,
            forall|k: Seq<char>|
                #![trigger r@.dom().contains(k)]
                r@.dom().contains(k) <==> containers.keys().take(i as int).contains(k),
            forall|k: Seq<char>|
                #![trigger r@[k]]
                r@.dom().contains(k) ==> r@[k] == stop_unmarked(containers@[k]),
        decreases n - i,
    {
        let key = containers.key_at(i);
        let value = containers.value_at(i);
        let mut c = value.clone();
        let stopping = match c.pending_action {
            Some(p) => p == PendingAction::Stopping,
            None => false,
        };
        if stopping {
            c.pending_action = None;
        }
        proof {
            lemma_take_next(containers.keys(), i as int);
        }
        r.insert(key.clone(), c);
        i += 1;
    }
    proof {
        let ks = containers.keys();
        assert(ks.take(n as int) =~= ks);
        let unmarked = containers@.map_values(|c: ContainerInfoView| stop_unmarked(c));
        assert forall|k: Seq<char>| r@.dom().contains(k) <==> unmarked.dom().contains(k) by {
            assert(ks.to_set().contains(k) <==> ks.contains(k));
        }
        assert(r@ =~= unmarked);
    }
    r
}

} // verus!
