use fghj::action::{Action, ActionRejected};
use fghj::reducer::reduce;
use fghj::state::{
    ContainerDesired, ContainerInfo, ContainerObserved, PendingAction, RunCreateError, RunSpec,
    RunState, SyncStatus, WorkspaceOwner, WorkspaceState,
};
use fghj::strmap::StrMap;

fn owner() -> WorkspaceOwner {
    WorkspaceOwner {
        uid: 501,
        gid: 20,
        home: "/Users/dev".to_string(),
        ssh_auth_sock: None,
    }
}

fn container(node_id: &str) -> ContainerInfo {
    ContainerInfo {
        node_id: node_id.to_string(),
        desired: ContainerDesired {
            running: false,
            container_name: format!("fghj-{node_id}"),
            domain: format!("{node_id}.fghj.internal"),
            raw_domain: String::new(),
            routes: vec![],
            additional_hosts: vec![],
            status_port: None,
            config_hash: "hash".to_string(),
        },
        observed: ContainerObserved::default(),
        pending_action: None,
    }
}

fn containers(list: Vec<ContainerInfo>) -> StrMap<ContainerInfo> {
    let mut map = StrMap::new();
    for c in list {
        map.insert(c.node_id.clone(), c);
    }
    map
}

fn run(run_id: &str, list: Vec<ContainerInfo>) -> RunState {
    RunState {
        run_id: run_id.to_string(),
        network: "fghj-net".to_string(),
        containers: containers(list),
        volumes: StrMap::new(),
        sidecar_container_name: "fghj-sidecar".to_string(),
        sidecar_ip: None,
        pending_create: None,
        pending_teardown: false,
    }
}

fn state_of(run: RunState) -> WorkspaceState {
    let mut state = WorkspaceState::default();
    state.runs.insert(run.run_id.clone(), run);
    state
}

fn state_with_run(run_id: &str, list: Vec<ContainerInfo>) -> WorkspaceState {
    state_of(run(run_id, list))
}

fn run_in<'a>(state: &'a WorkspaceState, run_id: &str) -> &'a RunState {
    state.runs.get(run_id).unwrap()
}

fn node_in<'a>(state: &'a WorkspaceState, run_id: &str, node_id: &str) -> &'a ContainerInfo {
    run_in(state, run_id).containers.get(node_id).unwrap()
}

fn no_plan() -> RunSpec {
    RunSpec { run_id: None, flow: None }
}

fn planned(run_id: &str) -> Action {
    Action::RunPlanned { run_id: run_id.to_string(), plan: no_plan() }
}

#[test]
fn owner_set_replaces_the_workspace_owner() {
    let state = WorkspaceState::default();
    let next = reduce(&state, Action::OwnerSet { owner: owner() }).unwrap();
    assert_eq!(next.owner.unwrap().uid, 501);
}

#[test]
fn owner_set_overwrites_a_previously_set_owner() {
    let state = WorkspaceState { owner: Some(owner()), ..WorkspaceState::default() };
    let mut replacement = owner();
    replacement.uid = 999;
    let next = reduce(&state, Action::OwnerSet { owner: replacement }).unwrap();
    assert_eq!(next.owner.unwrap().uid, 999);
}

#[test]
fn dispatch_never_mutates_the_original_state() {
    let state = WorkspaceState::default();
    let _ = reduce(&state, Action::OwnerSet { owner: owner() }).unwrap();
    assert!(state.owner.is_none());
}

#[test]
fn run_planned_creates_an_empty_run_with_pending_create_set() {
    let state = WorkspaceState::default();
    let plan = no_plan();
    let next = reduce(
        &state,
        Action::RunPlanned { run_id: "default".to_string(), plan: plan.clone() },
    )
    .unwrap();
    let run = next.runs.get("default").unwrap();
    assert!(run.containers.is_empty());
    assert_eq!(run.pending_create, Some(plan));
}

#[test]
fn run_planned_preserves_an_existing_runs_containers() {
    let state = state_with_run("default", vec![container("web")]);
    let next = reduce(&state, planned("default")).unwrap();
    let run = next.runs.get("default").unwrap();
    assert!(run.containers.contains_key("web"));
    assert!(run.pending_create.is_some());
}

#[test]
fn run_planned_rejects_when_a_creation_is_already_in_flight() {
    let state = state_with_run("default", vec![container("web")]);
    let first = reduce(&state, planned("default")).unwrap();
    let err = reduce(&first, planned("default")).unwrap_err();
    assert_eq!(err, ActionRejected::AlreadyInFlight);
}

#[test]
fn node_start_requested_sets_pending_and_desired_running() {
    let state = state_with_run("default", vec![container("web")]);
    let next = reduce(
        &state,
        Action::RunNodeStartRequested {
            run_id: "default".to_string(),
            node_id: "web".to_string(),
        },
    )
    .unwrap();
    let c = node_in(&next, "default", "web");
    assert_eq!(c.pending_action, Some(PendingAction::Starting));
    assert!(c.desired.running);
}

#[test]
fn node_start_requested_rejects_when_already_in_flight() {
    let mut web = container("web");
    web.pending_action = Some(PendingAction::Starting);
    let state = state_with_run("default", vec![web]);
    let err = reduce(
        &state,
        Action::RunNodeStartRequested {
            run_id: "default".to_string(),
            node_id: "web".to_string(),
        },
    )
    .unwrap_err();
    assert_eq!(err, ActionRejected::AlreadyInFlight);
}

#[test]
fn node_start_requested_rejects_unknown_run() {
    let state = WorkspaceState::default();
    let err = reduce(
        &state,
        Action::RunNodeStartRequested {
            run_id: "missing".to_string(),
            node_id: "web".to_string(),
        },
    )
    .unwrap_err();
    assert_eq!(err, ActionRejected::RunNotFound);
}

#[test]
fn node_start_requested_inserts_a_placeholder_for_a_node_with_no_live_entry() {
    let state = state_with_run("default", vec![container("web")]);
    let next = reduce(
        &state,
        Action::RunNodeStartRequested {
            run_id: "default".to_string(),
            node_id: "missing".to_string(),
        },
    )
    .unwrap();
    let c = node_in(&next, "default", "missing");
    assert_eq!(c.pending_action, Some(PendingAction::Starting));
    assert!(c.desired.running);
}

#[test]
fn node_stop_requested_sets_pending_and_clears_desired_running() {
    let mut web = container("web");
    web.desired.running = true;
    let state = state_with_run("default", vec![web]);
    let next = reduce(
        &state,
        Action::RunNodeStopRequested {
            run_id: "default".to_string(),
            node_id: "web".to_string(),
        },
    )
    .unwrap();
    let c = node_in(&next, "default", "web");
    assert_eq!(c.pending_action, Some(PendingAction::Stopping));
    assert!(!c.desired.running);
}

#[test]
fn node_stop_and_delete_requested_reject_a_node_that_is_not_there() {
    let state = state_with_run("default", vec![]);
    let stop = reduce(
        &state,
        Action::RunNodeStopRequested {
            run_id: "default".to_string(),
            node_id: "web".to_string(),
        },
    );
    assert_eq!(stop.unwrap_err(), ActionRejected::NodeNotFound);
    let delete = reduce(
        &state,
        Action::RunNodeDeleteRequested {
            run_id: "default".to_string(),
            node_id: "web".to_string(),
        },
    );
    assert_eq!(delete.unwrap_err(), ActionRejected::NodeNotFound);
}

#[test]
fn node_delete_requested_sets_removing_without_touching_desired() {
    let mut web = container("web");
    web.desired.running = true;
    let state = state_with_run("default", vec![web]);
    let next = reduce(
        &state,
        Action::RunNodeDeleteRequested {
            run_id: "default".to_string(),
            node_id: "web".to_string(),
        },
    )
    .unwrap();
    let c = node_in(&next, "default", "web");
    assert_eq!(c.pending_action, Some(PendingAction::Removing));
    assert!(c.desired.running);
}

#[test]
fn run_stop_requested_stops_idle_containers_but_skips_in_flight_ones() {
    let mut web = container("web");
    web.desired.running = true;
    let mut api = container("api");
    api.desired.running = true;
    api.pending_action = Some(PendingAction::Starting);
    let state = state_with_run("default", vec![web, api]);

    let next =
        reduce(&state, Action::RunStopRequested { run_id: "default".to_string() }).unwrap();

    let web = node_in(&next, "default", "web");
    assert_eq!(web.pending_action, Some(PendingAction::Stopping));
    assert!(!web.desired.running);
    let api = node_in(&next, "default", "api");
    assert_eq!(api.pending_action, Some(PendingAction::Starting));
    assert!(api.desired.running);
}

#[test]
fn run_stop_requested_rejects_unknown_run() {
    let state = WorkspaceState::default();
    let err =
        reduce(&state, Action::RunStopRequested { run_id: "missing".to_string() }).unwrap_err();
    assert_eq!(err, ActionRejected::RunNotFound);
}

#[test]
fn container_observed_updates_status_and_port_and_ip_and_ports() {
    let state = state_with_run("default", vec![container("web")]);
    let mut ports = StrMap::new();
    ports.insert("http".to_string(), Some(54321));
    ports.insert("db".to_string(), None);
    let next = reduce(
        &state,
        Action::ContainerObserved {
            run_id: "default".to_string(),
            node_id: "web".to_string(),
            status: "running".to_string(),
            published_port: Some(54321),
            ip: Some("172.20.0.5".to_string()),
            ports,
        },
    )
    .unwrap();
    let c = node_in(&next, "default", "web");
    assert_eq!(c.observed.status, "running");
    assert_eq!(c.observed.published_port, Some(54321));
    assert_eq!(c.observed.ip.as_deref(), Some("172.20.0.5"));
    assert_eq!(c.observed.ports.get("http"), Some(&Some(54321)));
    assert_eq!(c.observed.ports.get("db"), Some(&None));
}

#[test]
fn container_observed_for_unknown_node_is_a_silent_no_op() {
    let state = state_with_run("default", vec![]);
    let next = reduce(
        &state,
        Action::ContainerObserved {
            run_id: "default".to_string(),
            node_id: "ghost".to_string(),
            status: "running".to_string(),
            published_port: None,
            ip: None,
            ports: StrMap::new(),
        },
    )
    .unwrap();
    assert!(run_in(&next, "default").containers.is_empty());
}

#[test]
fn container_observed_for_unknown_run_is_a_silent_no_op() {
    let state = WorkspaceState::default();
    let next = reduce(
        &state,
        Action::ContainerObserved {
            run_id: "missing".to_string(),
            node_id: "web".to_string(),
            status: "running".to_string(),
            published_port: None,
            ip: None,
            ports: StrMap::new(),
        },
    )
    .unwrap();
    assert!(next.runs.is_empty());
}

#[test]
fn container_action_settled_replaces_the_container_with_the_settled_observation() {
    let mut web = container("web");
    web.pending_action = Some(PendingAction::Starting);
    let state = state_with_run("default", vec![web]);
    let mut fresh = container("web");
    fresh.observed.status = "running".to_string();
    fresh.observed.published_port = Some(54321);
    let next = reduce(
        &state,
        Action::ContainerActionSettled {
            run_id: "default".to_string(),
            node_id: "web".to_string(),
            result: Ok(Some(fresh)),
        },
    )
    .unwrap();
    let c = node_in(&next, "default", "web");
    assert!(c.pending_action.is_none());
    assert_eq!(c.observed.status, "running");
    assert_eq!(c.observed.published_port, Some(54321));
}

#[test]
fn container_action_settled_clears_pending_action_on_failure() {
    let mut web = container("web");
    web.pending_action = Some(PendingAction::Stopping);
    let state = state_with_run("default", vec![web]);
    let next = reduce(
        &state,
        Action::ContainerActionSettled {
            run_id: "default".to_string(),
            node_id: "web".to_string(),
            result: Err("docker daemon unreachable".to_string()),
        },
    )
    .unwrap();
    assert!(node_in(&next, "default", "web").pending_action.is_none());
}

#[test]
fn container_action_settled_removes_the_container_when_a_removal_succeeds() {
    let mut web = container("web");
    web.pending_action = Some(PendingAction::Removing);
    let state = state_with_run("default", vec![web]);
    let next = reduce(
        &state,
        Action::ContainerActionSettled {
            run_id: "default".to_string(),
            node_id: "web".to_string(),
            result: Ok(None),
        },
    )
    .unwrap();
    assert!(!run_in(&next, "default").containers.contains_key("web"));
}

#[test]
fn container_action_settled_keeps_the_container_when_a_removal_fails() {
    let mut web = container("web");
    web.pending_action = Some(PendingAction::Removing);
    let state = state_with_run("default", vec![web]);
    let next = reduce(
        &state,
        Action::ContainerActionSettled {
            run_id: "default".to_string(),
            node_id: "web".to_string(),
            result: Err("container in use".to_string()),
        },
    )
    .unwrap();
    assert!(node_in(&next, "default", "web").pending_action.is_none());
}

#[test]
fn run_create_settled_replaces_the_planned_entry_on_success() {
    let state = state_with_run("default", vec![]);
    let created = RunState {
        network: "fghj-net-default".to_string(),
        sidecar_ip: Some("172.20.0.2".to_string()),
        ..run("default", vec![container("web")])
    };
    let next = reduce(
        &state,
        Action::RunCreateSettled { run_id: "default".to_string(), result: Ok(created) },
    )
    .unwrap();
    assert!(run_in(&next, "default").containers.contains_key("web"));
}

#[test]
fn run_create_settled_clears_pending_create_without_touching_containers_on_failure() {
    let existing = state_of(RunState {
        pending_create: Some(no_plan()),
        ..run("default", vec![container("web")])
    });
    let next = reduce(
        &existing,
        Action::RunCreateSettled {
            run_id: "default".to_string(),
            result: Err(RunCreateError::bare("docker daemon unreachable")),
        },
    )
    .unwrap();
    let run = run_in(&next, "default");
    assert!(run.pending_create.is_none());
    assert!(run.containers.contains_key("web"));
}

#[test]
fn run_create_settled_adopts_the_partial_state_of_a_failed_top_up() {
    let existing = state_of(RunState {
        pending_create: Some(no_plan()),
        ..run("default", vec![container("web")])
    });
    let partial = RunState {
        network: "fghj-net-default".to_string(),
        sidecar_ip: Some("172.20.0.2".to_string()),
        pending_create: Some(no_plan()),
        ..run("default", vec![container("web"), container("api")])
    };
    let next = reduce(
        &existing,
        Action::RunCreateSettled {
            run_id: "default".to_string(),
            result: Err(RunCreateError {
                message: "worker: image pull failed".to_string(),
                partial: Some(partial),
            }),
        },
    )
    .unwrap();
    let run = run_in(&next, "default");
    assert!(run.pending_create.is_none());
    assert!(run.containers.contains_key("web"));
    assert!(
        run.containers.contains_key("api"),
        "the container that did come up must be visible"
    );
}

#[test]
fn volume_observed_creates_a_new_entry_when_none_existed() {
    let state = state_with_run("default", vec![]);
    let next = reduce(
        &state,
        Action::VolumeObserved {
            run_id: "default".to_string(),
            volume_name: "fghj-vol-web".to_string(),
            exists: true,
        },
    )
    .unwrap();
    let volume = run_in(&next, "default").volumes.get("fghj-vol-web").unwrap();
    assert_eq!(volume.desired.name, "fghj-vol-web");
    assert!(volume.observed.exists);
}

#[test]
fn volume_observed_updates_an_existing_entry_in_place() {
    let state = state_with_run("default", vec![]);
    let created = reduce(
        &state,
        Action::VolumeObserved {
            run_id: "default".to_string(),
            volume_name: "fghj-vol-web".to_string(),
            exists: true,
        },
    )
    .unwrap();
    let updated = reduce(
        &created,
        Action::VolumeObserved {
            run_id: "default".to_string(),
            volume_name: "fghj-vol-web".to_string(),
            exists: false,
        },
    )
    .unwrap();
    let volumes = &run_in(&updated, "default").volumes;
    assert!(!volumes.get("fghj-vol-web").unwrap().observed.exists);
    assert_eq!(volumes.len(), 1);
}

#[test]
fn config_drift_observed_updates_the_containers_sync_status() {
    let state = state_with_run("default", vec![container("web")]);
    let next = reduce(
        &state,
        Action::ConfigDriftObserved {
            run_id: "default".to_string(),
            node_id: "web".to_string(),
            drift: SyncStatus::Drifted,
        },
    )
    .unwrap();
    assert_eq!(node_in(&next, "default", "web").observed.sync, SyncStatus::Drifted);
}

#[test]
fn run_teardown_settled_ok_drops_the_run_entirely() {
    let state = state_of(RunState {
        pending_teardown: true,
        ..run("default", vec![container("web")])
    });
    let next = reduce(
        &state,
        Action::RunTeardownSettled { run_id: "default".to_string(), result: Ok(()) },
    )
    .unwrap();
    assert!(next.runs.is_empty());
}

#[test]
fn run_teardown_settled_err_unsticks_the_run_for_a_retry() {
    let mut web = container("web");
    web.pending_action = Some(PendingAction::Stopping);
    let state = state_of(RunState { pending_teardown: true, ..run("default", vec![web]) });
    let next = reduce(
        &state,
        Action::RunTeardownSettled {
            run_id: "default".to_string(),
            result: Err("docker refused".to_string()),
        },
    )
    .unwrap();
    let run = run_in(&next, "default");
    assert!(!run.pending_teardown);
    assert_eq!(run.containers.get("web").unwrap().pending_action, None);
}

#[test]
fn run_create_progress_records_a_node_as_soon_as_it_comes_up() {
    let state = state_with_run("default", vec![]);
    let next = reduce(
        &state,
        Action::RunCreateProgress {
            run_id: "default".to_string(),
            network: "fghj-default".to_string(),
            sidecar_container_name: "fghj-default-sidecar".to_string(),
            sidecar_ip: Some("172.30.0.2".to_string()),
            info: container("web"),
        },
    )
    .unwrap();
    let run = run_in(&next, "default");
    assert_eq!(run.network, "fghj-default");
    assert_eq!(run.sidecar_ip.as_deref(), Some("172.30.0.2"));
    assert!(run.containers.contains_key("web"));
}

#[test]
fn a_create_that_settles_after_its_run_was_torn_down_does_not_resurrect_it() {
    let state = WorkspaceState::default();

    let after_progress = reduce(
        &state,
        Action::RunCreateProgress {
            run_id: "default".to_string(),
            network: "fghj-default".to_string(),
            sidecar_container_name: "fghj-default-sidecar".to_string(),
            sidecar_ip: None,
            info: container("web"),
        },
    )
    .unwrap();
    assert!(after_progress.runs.is_empty());

    let after_ok = reduce(
        &state,
        Action::RunCreateSettled {
            run_id: "default".to_string(),
            result: Ok(RunState { run_id: "default".to_string(), ..Default::default() }),
        },
    )
    .unwrap();
    assert!(after_ok.runs.is_empty());

    let after_partial = reduce(
        &state,
        Action::RunCreateSettled {
            run_id: "default".to_string(),
            result: Err(RunCreateError {
                message: "node 2 of 3 failed".to_string(),
                partial: Some(RunState { run_id: "default".to_string(), ..Default::default() }),
            }),
        },
    )
    .unwrap();
    assert!(after_partial.runs.is_empty());
}

#[test]
fn action_rejected_variants_are_distinguishable() {
    assert_ne!(ActionRejected::AlreadyInFlight, ActionRejected::RunNotFound);
    assert_ne!(ActionRejected::RunNotFound, ActionRejected::NodeNotFound);
}

#[test]
fn action_rejected_display_is_human_readable() {
    assert_eq!(
        ActionRejected::AlreadyInFlight.message(),
        "an action is already in flight"
    );
    assert_eq!(ActionRejected::RunNotFound.message(), "no such run");
    assert_eq!(ActionRejected::NodeNotFound.message(), "no such node");
}

#[test]
fn a_refusal_is_answered_with_a_status_code() {
    assert_eq!(ActionRejected::AlreadyInFlight.status_code(), 409);
    assert_eq!(ActionRejected::RunNotFound.status_code(), 404);
    assert_eq!(ActionRejected::NodeNotFound.status_code(), 404);
}

#[test]
fn a_request_for_one_run_leaves_the_others_alone() {
    let mut state = state_with_run("default", vec![container("web")]);
    state.runs.insert("other".to_string(), run("other", vec![container("web")]));
    let next =
        reduce(&state, Action::RunStopRequested { run_id: "default".to_string() }).unwrap();
    assert_eq!(run_in(&next, "other"), run_in(&state, "other"));
    assert_ne!(run_in(&next, "default"), run_in(&state, "default"));
    assert!(run_in(&next, "default").pending_teardown);
}

#[test]
fn a_failed_action_frees_the_node_for_another_request() {
    let state = state_with_run("default", vec![container("web")]);
    let start = || Action::RunNodeStartRequested {
        run_id: "default".to_string(),
        node_id: "web".to_string(),
    };
    let busy = reduce(&state, start()).unwrap();
    assert_eq!(reduce(&busy, start()).unwrap_err(), ActionRejected::AlreadyInFlight);
    let freed = reduce(
        &busy,
        Action::ContainerActionSettled {
            run_id: "default".to_string(),
            node_id: "web".to_string(),
            result: Err("no space left".to_string()),
        },
    )
    .unwrap();
    assert!(reduce(&freed, start()).is_ok());
}

#[test]
fn a_removed_node_can_be_started_again() {
    let mut web = container("web");
    web.pending_action = Some(PendingAction::Removing);
    let state = state_with_run("default", vec![web]);
    let removed = reduce(
        &state,
        Action::ContainerActionSettled {
            run_id: "default".to_string(),
            node_id: "web".to_string(),
            result: Ok(None),
        },
    )
    .unwrap();
    let started = reduce(
        &removed,
        Action::RunNodeStartRequested {
            run_id: "default".to_string(),
            node_id: "web".to_string(),
        },
    )
    .unwrap();
    assert_eq!(node_in(&started, "default", "web").node_id, "web");
}

#[test]
fn a_failed_teardown_can_be_requested_again() {
    let state = state_with_run("default", vec![container("web")]);
    let stop = || Action::RunStopRequested { run_id: "default".to_string() };
    let stopping = reduce(&state, stop()).unwrap();
    let failed = reduce(
        &stopping,
        Action::RunTeardownSettled {
            run_id: "default".to_string(),
            result: Err("docker refused".to_string()),
        },
    )
    .unwrap();
    let again = reduce(&failed, stop()).unwrap();
    assert!(run_in(&again, "default").pending_teardown);
    assert_eq!(
        node_in(&again, "default", "web").pending_action,
        Some(PendingAction::Stopping)
    );
}

#[test]
fn an_observation_never_changes_what_is_desired() {
    let mut web = container("web");
    web.desired.running = true;
    let state = state_with_run("default", vec![web]);
    let next = reduce(
        &state,
        Action::ContainerObserved {
            run_id: "default".to_string(),
            node_id: "web".to_string(),
            status: "exited".to_string(),
            published_port: None,
            ip: None,
            ports: StrMap::new(),
        },
    )
    .unwrap();
    assert_eq!(
        node_in(&next, "default", "web").desired,
        node_in(&state, "default", "web").desired
    );
    assert_eq!(node_in(&next, "default", "web").observed.status, "exited");
}
