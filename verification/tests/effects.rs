use fghj::action::{Action, ActionRejected};
use fghj::actor::{reply_of_actor, WorkspaceActor};
use fghj::effects::dns::DnsEffect;
use fghj::effects::docker::converge::{
    create_job, extract_pending, extract_pending_creates, extract_pending_teardowns, job_for, plan,
    plan_creates, plan_teardowns, settled_action, settled_create, settled_teardown,
    teardown_target, CreateJob, DockerConvergeEffect, Job, PendingCreate, PendingEntry,
    LOST_ACTION, LOST_CREATE, LOST_TEARDOWN,
};
use fghj::effects::docker::observe::{config_drift_observed, container_observed};
use fghj::effects::docker::policy::DockerHealPolicy;
use fghj::effects::docker::volumes::observed_volumes;
use fghj::effects::hosts::HostsEffect;
use fghj::effects::persist::PersistEffect;
use fghj::effects::raw_net::RawNetEffect;
use fghj::effects::routes::RouteTableEffect;
use fghj::effects::{watch_changes, AsyncEffect, Driver, Effect, FannedInEffect};
use fghj::query::{additional_hosts, wildcard_suffixes};
use fghj::raw_net::virtual_ip_for;
use fghj::state::{
    ContainerDesired, ContainerInfo, ContainerObserved, DriftReport, PendingAction, PortRoute,
    RunSpec, RunState, SyncStatus, WorkspaceOwner, WorkspaceState,
};
use fghj::strmap::StrMap;

fn route(domain: &str, wildcard: bool) -> PortRoute {
    PortRoute {
        https: true,
        domain: domain.to_string(),
        host_port: 8080,
        wildcard,
        container_port: "8080/tcp".to_string(),
    }
}

fn container(
    node_id: &str,
    status: &str,
    routes: Vec<PortRoute>,
    additional_hosts: &[&str],
) -> ContainerInfo {
    ContainerInfo {
        node_id: node_id.to_string(),
        desired: ContainerDesired {
            running: status == "running",
            container_name: format!("fghj-{node_id}-1"),
            domain: format!("{node_id}.fghj.internal"),
            raw_domain: format!("{node_id}.fghj.raw.internal"),
            routes,
            additional_hosts: additional_hosts.iter().map(|h| h.to_string()).collect(),
            status_port: None,
            config_hash: "hash".to_string(),
        },
        observed: ContainerObserved {
            status: status.to_string(),
            published_port: None,
            ip: None,
            ports: StrMap::new(),
            sync: SyncStatus::Unknown,
        },
        pending_action: None,
    }
}

fn pending(node_id: &str, action: Option<PendingAction>) -> ContainerInfo {
    let mut c = container(node_id, "", vec![], &[]);
    c.desired.running = true;
    c.pending_action = action;
    c
}

fn run_state(run_id: &str, containers: Vec<ContainerInfo>) -> RunState {
    let mut map = StrMap::new();
    for c in containers {
        map.insert(c.node_id.clone(), c);
    }
    RunState {
        run_id: run_id.to_string(),
        network: "fghj-net".to_string(),
        containers: map,
        volumes: StrMap::new(),
        sidecar_container_name: "fghj-sidecar".to_string(),
        sidecar_ip: None,
        pending_create: None,
        pending_teardown: false,
    }
}

fn no_plan() -> RunSpec {
    RunSpec { run_id: None, flow: None }
}

fn workspace_with(containers: Vec<ContainerInfo>) -> WorkspaceState {
    let mut state = WorkspaceState::default();
    state.runs.insert("default".to_string(), run_state("default", containers));
    state
}

fn states(list: Vec<(&str, WorkspaceState)>) -> StrMap<WorkspaceState> {
    let mut map = StrMap::new();
    for (id, state) in list {
        map.insert(id.to_string(), state);
    }
    map
}

fn owner(uid: u32) -> WorkspaceOwner {
    WorkspaceOwner { uid, gid: 20, home: "/Users/dev".to_string(), ssh_auth_sock: None }
}

#[test]
fn extracts_wildcard_suffixes_of_running_containers() {
    let web = container("web", "running", vec![route("myservice.local", true)], &[]);
    let states = states(vec![("ws", workspace_with(vec![web]))]);
    assert_eq!(wildcard_suffixes(&states), vec!["myservice.local"]);
    assert_eq!(DnsEffect { port: 5300 }.extract(&states), vec!["myservice.local"]);
}

#[test]
fn excludes_non_wildcard_routes() {
    let web = container("web", "running", vec![route("web.fghj.internal", false)], &[]);
    let states = states(vec![("ws", workspace_with(vec![web]))]);
    assert!(wildcard_suffixes(&states).is_empty());
}

#[test]
fn dns_excludes_containers_that_are_not_running() {
    let web = container("web", "exited", vec![route("myservice.local", true)], &[]);
    let states = states(vec![("ws", workspace_with(vec![web]))]);
    assert!(wildcard_suffixes(&states).is_empty());
}

#[test]
fn dns_sorts_and_deduplicates_across_workspaces() {
    let web = container("web", "running", vec![route("b.local", true)], &[]);
    let api = container(
        "api",
        "running",
        vec![route("a.local", true), route("b.local", true)],
        &[],
    );
    let states =
        states(vec![("ws-a", workspace_with(vec![web])), ("ws-b", workspace_with(vec![api]))]);
    assert_eq!(wildcard_suffixes(&states), vec!["a.local", "b.local"]);
}

#[test]
fn extracting_from_no_workspaces_yields_no_zones() {
    assert!(wildcard_suffixes(&StrMap::new()).is_empty());
}

#[test]
fn extracts_additional_hosts_of_running_containers() {
    let web = container("web", "running", vec![], &["app.local.aikido.io"]);
    let states = states(vec![("ws", workspace_with(vec![web]))]);
    assert_eq!(additional_hosts(&states), vec!["app.local.aikido.io"]);
    assert_eq!(HostsEffect.extract(&states), vec!["app.local.aikido.io"]);
}

#[test]
fn hosts_excludes_containers_that_are_not_running() {
    let web = container("web", "exited", vec![], &["app.local.aikido.io"]);
    let states = states(vec![("ws", workspace_with(vec![web]))]);
    assert!(additional_hosts(&states).is_empty());
}

#[test]
fn hosts_sorts_and_deduplicates_across_workspaces() {
    let web = container("web", "running", vec![], &["b.local"]);
    let api = container("api", "running", vec![], &["a.local", "b.local"]);
    let states =
        states(vec![("ws-a", workspace_with(vec![web])), ("ws-b", workspace_with(vec![api]))]);
    assert_eq!(additional_hosts(&states), vec!["a.local", "b.local"]);
}

#[test]
fn extracting_from_no_workspaces_yields_no_hosts() {
    assert!(additional_hosts(&StrMap::new()).is_empty());
}

#[test]
fn hosts_effect_writes_the_hosts_of_its_snapshot() {
    let text = HostsEffect.converge("127.0.0.1 localhost\n", &vec!["app.local".to_string()]);
    assert!(text.contains("127.0.0.1 localhost\n"));
    assert!(text.contains("127.0.0.1 app.local"));
}

#[test]
fn dns_effect_routes_its_zones_where_the_system_can() {
    let effect = DnsEffect { port: 5300 };
    let zones = vec!["myservice.local".to_string()];
    let changes = effect.converge(true, &StrMap::new(), &zones).unwrap();
    assert!(changes.write.contains(&"myservice.local".to_string()));
    assert!(changes.write.contains(&"fghj.internal".to_string()));
    assert!(effect.converge(false, &StrMap::new(), &zones).is_none());
}

#[test]
fn raw_net_effect_gives_every_running_endpoint_an_address() {
    let mut web = container("web", "running", vec![], &[]);
    web.observed.ports.insert("5432".to_string(), Some(49000));
    let states = states(vec![("ws", workspace_with(vec![web]))]);
    let snapshot = RawNetEffect.extract(&states);
    let mut table = StrMap::new();
    let routes = RawNetEffect.converge(&mut table, &snapshot);
    let ip = virtual_ip_for("web.fghj.raw.internal");
    assert_eq!(table.get("web.fghj.raw.internal"), Some(&ip));
    assert_eq!(routes.len(), 1);
    assert_eq!(routes[0].virtual_ip, ip);
    assert_eq!(routes[0].container_port, 5432);
    assert_eq!(routes[0].host_port, 49000);
}

#[test]
fn extract_pending_only_includes_containers_with_a_pending_action() {
    let state = workspace_with(vec![
        pending("web", Some(PendingAction::Starting)),
        pending("api", None),
    ]);
    let snapshot = extract_pending(&state);
    assert_eq!(snapshot.len(), 1);
    assert_eq!(snapshot[0].node_id, "web");
}

#[test]
fn extract_pending_of_an_idle_workspace_is_empty() {
    let state = workspace_with(vec![pending("web", None)]);
    assert!(extract_pending(&state).is_empty());
}

#[test]
fn extract_pending_creates_only_includes_runs_with_a_pending_create() {
    let mut state = WorkspaceState::default();
    state.runs.insert(
        "default".to_string(),
        RunState { pending_create: Some(no_plan()), ..run_state("default", vec![]) },
    );
    state.runs.insert("other".to_string(), run_state("default", vec![]));
    let snapshot = extract_pending_creates(&state);
    assert_eq!(snapshot.len(), 1);
    assert_eq!(snapshot[0].run_id, "default");
}

#[test]
fn extract_pending_creates_of_an_idle_workspace_is_empty() {
    let state = workspace_with(vec![pending("web", None)]);
    assert!(extract_pending_creates(&state).is_empty());
}

#[test]
fn extract_pending_teardowns_only_includes_runs_to_tear_down() {
    let mut state = workspace_with(vec![]);
    state.runs.insert(
        "old".to_string(),
        RunState { pending_teardown: true, ..run_state("old", vec![]) },
    );
    assert_eq!(extract_pending_teardowns(&state), vec!["old"]);
}

fn entry(node_id: &str, action: PendingAction) -> PendingEntry {
    PendingEntry { run_id: "default".to_string(), node_id: node_id.to_string(), action }
}

fn key(node_id: &str) -> (String, String) {
    ("default".to_string(), node_id.to_string())
}

#[test]
fn plan_spawns_every_entry_when_nothing_is_already_in_flight() {
    let in_flight = vec![];
    let snapshot = vec![entry("web", PendingAction::Starting)];
    let (to_spawn, still_in_flight) = plan(&in_flight, &snapshot);
    assert_eq!(to_spawn.len(), 1);
    assert!(still_in_flight.contains(&key("web")));
}

#[test]
fn plan_does_not_respawn_an_entry_already_in_flight() {
    let in_flight = vec![key("web")];
    let snapshot = vec![entry("web", PendingAction::Starting)];
    let (to_spawn, still_in_flight) = plan(&in_flight, &snapshot);
    assert!(to_spawn.is_empty());
    assert!(still_in_flight.contains(&key("web")));
}

#[test]
fn plan_drops_bookkeeping_for_an_entry_that_settled() {
    let in_flight = vec![key("web")];
    let (to_spawn, still_in_flight) = plan(&in_flight, &vec![]);
    assert!(to_spawn.is_empty());
    assert!(still_in_flight.is_empty());
}

#[test]
fn plan_only_spawns_the_newly_pending_entry_among_several() {
    let in_flight = vec![key("web")];
    let snapshot =
        vec![entry("web", PendingAction::Starting), entry("api", PendingAction::Stopping)];
    let (to_spawn, still_in_flight) = plan(&in_flight, &snapshot);
    assert_eq!(to_spawn.len(), 1);
    assert_eq!(to_spawn[0].node_id, "api");
    assert_eq!(still_in_flight.len(), 2);
}

fn create() -> PendingCreate {
    PendingCreate { run_id: "default".to_string(), plan: no_plan() }
}

#[test]
fn plan_creates_spawns_every_entry_when_nothing_is_already_in_flight() {
    let (to_spawn, still_in_flight) = plan_creates(&vec![], &vec![create()]);
    assert_eq!(to_spawn.len(), 1);
    assert!(still_in_flight.contains(&"default".to_string()));
}

#[test]
fn plan_creates_does_not_respawn_a_run_already_in_flight() {
    let in_flight = vec!["default".to_string()];
    let (to_spawn, still_in_flight) = plan_creates(&in_flight, &vec![create()]);
    assert!(to_spawn.is_empty());
    assert!(still_in_flight.contains(&"default".to_string()));
}

#[test]
fn plan_creates_drops_bookkeeping_for_a_run_that_settled() {
    let in_flight = vec!["default".to_string()];
    let (to_spawn, still_in_flight) = plan_creates(&in_flight, &vec![]);
    assert!(to_spawn.is_empty());
    assert!(still_in_flight.is_empty());
}

#[test]
fn plan_teardowns_begins_only_what_is_not_in_flight() {
    let in_flight = vec!["a".to_string()];
    let snapshot = vec!["a".to_string(), "b".to_string()];
    let (to_begin, still_in_flight) = plan_teardowns(&in_flight, &snapshot);
    assert_eq!(to_begin, vec!["b"]);
    assert_eq!(still_in_flight, vec!["a", "b"]);
}

#[test]
fn converge_begins_work_once_and_again_after_it_settled() {
    let busy = workspace_with(vec![pending("web", Some(PendingAction::Starting))]);
    let idle = workspace_with(vec![pending("web", None)]);
    let mut effect = DockerConvergeEffect::new();
    let snapshot = effect.extract(&busy);
    assert_eq!(effect.converge(&snapshot).pending.len(), 1);
    assert_eq!(effect.converge(&snapshot).pending.len(), 0);
    let settled = effect.extract(&idle);
    assert_eq!(effect.converge(&settled).pending.len(), 0);
    assert_eq!(effect.converge(&snapshot).pending.len(), 1);
}

#[test]
fn a_job_is_found_in_the_run_as_it_is_now() {
    let run = run_state("default", vec![pending("web", None)]);
    match job_for(&entry("web", PendingAction::Starting), Some(&run)) {
        Ok(Job::Start { network, sidecar_ip }) => {
            assert_eq!(network, "fghj-net");
            assert_eq!(sidecar_ip, None);
        }
        _ => panic!("expected a start"),
    }
    match job_for(&entry("web", PendingAction::Stopping), Some(&run)) {
        Ok(Job::Stop(c)) => assert_eq!(c.node_id, "web"),
        _ => panic!("expected a stop"),
    }
    match job_for(&entry("web", PendingAction::Removing), Some(&run)) {
        Ok(Job::Remove(c)) => assert_eq!(c.node_id, "web"),
        _ => panic!("expected a removal"),
    }
    match job_for(&entry("ghost", PendingAction::Stopping), Some(&run)) {
        Err(e) => assert_eq!(e, "no such node in run default: ghost"),
        _ => panic!("expected a failure"),
    }
    match job_for(&entry("web", PendingAction::Starting), None) {
        Err(e) => assert_eq!(e, "no such run: default"),
        _ => panic!("expected a failure"),
    }
}

#[test]
fn a_named_run_starts_afresh_and_the_default_one_is_topped_up() {
    match create_job(&create()) {
        CreateJob::EnsureRunning(flow) => assert_eq!(flow, None),
        _ => panic!("expected a top-up"),
    }
    let named = PendingCreate {
        run_id: "qa".to_string(),
        plan: RunSpec { run_id: Some("qa".to_string()), flow: Some("checkout".to_string()) },
    };
    match create_job(&named) {
        CreateJob::Start(plan) => assert_eq!(plan.flow.as_deref(), Some("checkout")),
        _ => panic!("expected a start"),
    }
}

#[test]
fn settle_guard_dispatches_the_recorded_outcome_when_settled_normally() {
    let mut actor = WorkspaceActor::new(workspace_with(vec![pending(
        "web",
        Some(PendingAction::Starting),
    )]));
    let outcome = Some(Ok(Some(pending("web", None))));
    let action = settled_action("default".to_string(), "web".to_string(), outcome);
    actor.dispatch(action).unwrap();
    let run = actor.current().runs.get("default").unwrap();
    assert!(run.containers.get("web").unwrap().pending_action.is_none());
}

#[test]
fn settle_guard_dispatches_a_fallback_outcome_when_dropped_unsettled() {
    let mut actor = WorkspaceActor::new(workspace_with(vec![pending(
        "web",
        Some(PendingAction::Stopping),
    )]));
    let action = settled_action("default".to_string(), "web".to_string(), None);
    match &action {
        Action::ContainerActionSettled { result: Err(e), .. } => assert_eq!(e, LOST_ACTION),
        _ => panic!("expected a failure"),
    }
    actor.dispatch(action).unwrap();
    let run = actor.current().runs.get("default").unwrap();
    assert!(run.containers.get("web").unwrap().pending_action.is_none());
}

fn pending_create_state() -> WorkspaceState {
    let mut state = WorkspaceState::default();
    state.runs.insert(
        "default".to_string(),
        RunState { pending_create: Some(no_plan()), ..run_state("default", vec![]) },
    );
    state
}

#[test]
fn create_settle_guard_dispatches_the_recorded_outcome_when_settled_normally() {
    let mut actor = WorkspaceActor::new(pending_create_state());
    let created = run_state("default", vec![pending("web", None)]);
    actor.dispatch(settled_create("default".to_string(), Some(Ok(created)))).unwrap();
    let run = actor.current().runs.get("default").unwrap();
    assert!(run.containers.contains_key("web"));
}

#[test]
fn create_settle_guard_dispatches_a_fallback_outcome_when_dropped_unsettled() {
    let mut actor = WorkspaceActor::new(pending_create_state());
    let action = settled_create("default".to_string(), None);
    match &action {
        Action::RunCreateSettled { result: Err(e), .. } => assert_eq!(e.message, LOST_CREATE),
        _ => panic!("expected a failure"),
    }
    actor.dispatch(action).unwrap();
    assert!(actor.current().runs.get("default").unwrap().pending_create.is_none());
}

#[test]
fn a_teardown_is_reported_as_it_went() {
    match settled_teardown("default".to_string(), Some(Ok(()))) {
        Action::RunTeardownSettled { run_id, result } => {
            assert_eq!(run_id, "default");
            assert_eq!(result, Ok(()));
        }
        _ => panic!("expected a teardown report"),
    }
    match settled_teardown("default".to_string(), None) {
        Action::RunTeardownSettled { result, .. } => {
            assert_eq!(result, Err(LOST_TEARDOWN.to_string()));
        }
        _ => panic!("expected a teardown report"),
    }
    let state = workspace_with(vec![]);
    assert!(teardown_target(&state, "default").is_some());
    assert!(teardown_target(&state, "gone").is_none());
}

fn observed(node_id: &str, status: &str) -> ContainerInfo {
    let mut ports = StrMap::new();
    ports.insert("http".to_string(), Some(8080));
    ContainerInfo {
        node_id: node_id.to_string(),
        desired: ContainerDesired {
            running: true,
            container_name: format!("fghj-{node_id}-1"),
            domain: format!("{node_id}.fghj.internal"),
            raw_domain: format!("{node_id}.fghj.raw.internal"),
            status_port: Some("http".to_string()),
            config_hash: "hash".to_string(),
            ..Default::default()
        },
        observed: ContainerObserved {
            status: status.to_string(),
            published_port: Some(8080),
            ports,
            ..Default::default()
        },
        pending_action: None,
    }
}

#[test]
fn container_observed_translates_status_and_ports_without_touching_desired() {
    let c = observed("web", "running");
    let action = container_observed("default", &c.node_id, &c.observed);
    match action {
        Action::ContainerObserved { run_id, node_id, status, published_port, ip, ports } => {
            assert_eq!(run_id, "default");
            assert_eq!(node_id, "web");
            assert_eq!(status, "running");
            assert_eq!(published_port, Some(8080));
            assert_eq!(ip, None);
            assert_eq!(ports.get("http"), Some(&Some(8080)));
        }
        other => panic!("expected ContainerObserved, got {other:?}"),
    }
}

#[test]
fn config_drift_observed_carries_every_verdict_through() {
    let verdict = |sync| match config_drift_observed(&DriftReport {
        run_id: "default".to_string(),
        node_id: "web".to_string(),
        sync,
    }) {
        Action::ConfigDriftObserved { drift, .. } => drift,
        other => panic!("expected ConfigDriftObserved, got {other:?}"),
    };
    for sync in
        [SyncStatus::Synced, SyncStatus::Drifted, SyncStatus::Unknown, SyncStatus::Orphaned]
    {
        assert_eq!(verdict(sync), sync);
    }
}

#[test]
fn report_dispatches_observed_for_a_crashed_container_without_changing_desired() {
    let mut actor = WorkspaceActor::new(workspace_with(vec![observed("web", "running")]));
    let crashed = observed("web", "exited");
    let action = container_observed("default", &crashed.node_id, &crashed.observed);
    actor.dispatch(action).unwrap();
    let run = actor.current().runs.get("default").unwrap();
    let web = run.containers.get("web").unwrap();
    assert_eq!(web.observed.status, "exited");
    assert!(web.desired.running);
}

#[test]
fn default_policy_is_observer_only() {
    assert_eq!(DockerHealPolicy::default(), DockerHealPolicy::ObserverOnly);
}

#[test]
fn dispatch_observed_volumes_reports_every_discovered_name() {
    let mut actor = WorkspaceActor::new(workspace_with(vec![]));
    for action in observed_volumes("default", &vec!["pgdata".to_string(), "cache".to_string()]) {
        actor.dispatch(action).unwrap();
    }
    let volumes = &actor.current().runs.get("default").unwrap().volumes;
    assert!(volumes.get("pgdata").unwrap().observed.exists);
    assert!(volumes.get("cache").unwrap().observed.exists);
}

#[test]
fn dispatch_observed_volumes_for_unknown_run_is_a_silent_no_op() {
    let mut actor = WorkspaceActor::new(WorkspaceState::default());
    for action in observed_volumes("missing", &vec!["pgdata".to_string()]) {
        actor.dispatch(action).unwrap();
    }
    assert!(actor.current().runs.is_empty());
}

#[test]
fn dispatch_applies_the_reducer_and_returns_ok() {
    let mut actor = WorkspaceActor::new(WorkspaceState::default());
    let result = actor.dispatch(Action::OwnerSet { owner: owner(501) });
    assert!(result.is_ok());
    assert_eq!(actor.current().owner.as_ref().unwrap().uid, 501);
}

#[test]
fn dispatch_surfaces_a_reducer_rejection() {
    let mut actor = WorkspaceActor::new(WorkspaceState::default());
    let result = actor.dispatch(Action::RunNodeStartRequested {
        run_id: "missing".to_string(),
        node_id: "web".to_string(),
    });
    assert_eq!(result.unwrap_err(), ActionRejected::RunNotFound);
}

#[test]
fn dispatch_reports_not_found_once_the_actor_is_gone() {
    assert_eq!(reply_of_actor(None).unwrap_err(), ActionRejected::RunNotFound);
    assert_eq!(reply_of_actor(Some(Ok(()))), Ok(()));
    assert_eq!(
        reply_of_actor(Some(Err(ActionRejected::AlreadyInFlight))),
        Err(ActionRejected::AlreadyInFlight)
    );
}

#[test]
fn run_effect_converges_once_for_the_initial_state() {
    let mut driver: Driver<Option<u16>> = Driver::new();
    assert!(driver.is_due(&None));
    driver.settle(None, true);
    assert!(!driver.is_due(&None));
}

#[test]
fn run_effect_converges_again_only_when_the_snapshot_actually_changes() {
    let mut driver: Driver<Option<u16>> = Driver::new();
    let mut converged = vec![];
    for snapshot in [None, Some(501), Some(501)] {
        if driver.is_due(&snapshot) {
            converged.push(snapshot);
            driver.settle(snapshot, true);
        }
    }
    assert_eq!(converged, vec![None, Some(501)]);
}

#[test]
fn an_effect_that_failed_is_due_again() {
    let mut driver: Driver<Vec<String>> = Driver::new();
    let zones = vec!["a.local".to_string()];
    driver.settle(zones.clone(), false);
    assert!(driver.is_due(&zones));
    driver.settle(zones.clone(), true);
    assert!(!driver.is_due(&zones));
    assert!(driver.is_due(&vec![]));
}

#[test]
fn exactly_the_registered_workspaces_are_watched() {
    let watched = vec!["a".to_string(), "b".to_string()];
    let registered = vec!["b".to_string(), "c".to_string()];
    let changes = watch_changes(&watched, &registered);
    assert_eq!(changes.stop, vec!["a"]);
    assert_eq!(changes.start, vec!["c"]);
}

fn created_run(run_id: &str) -> RunState {
    RunState {
        run_id: run_id.to_string(),
        network: format!("fghj-net-{run_id}"),
        ..Default::default()
    }
}

fn snapshot_of(runs: Vec<RunState>) -> StrMap<RunState> {
    let mut map = StrMap::new();
    for run in runs {
        map.insert(run.run_id.clone(), run);
    }
    map
}

#[test]
fn a_created_run_is_to_be_saved_and_an_uncreated_one_is_not() {
    let effect = PersistEffect::new();
    let uncreated = RunState { run_id: "qa".to_string(), ..Default::default() };
    let snapshot = snapshot_of(vec![created_run("default"), uncreated]);
    assert_eq!(effect.runs_to_save(&snapshot), vec!["default"]);
    let state = WorkspaceState { runs: snapshot, ..WorkspaceState::default() };
    assert_eq!(effect.extract(&state).len(), 2);
}

#[test]
fn a_run_that_leaves_state_is_to_be_deleted() {
    let mut effect = PersistEffect::new();
    let snapshot = snapshot_of(vec![created_run("default")]);
    assert!(effect.take_runs_to_delete(&snapshot).is_empty());
    effect.record_known(&snapshot);
    assert_eq!(effect.take_runs_to_delete(&StrMap::new()), vec!["default"]);
}

#[test]
fn deletion_is_limited_to_runs_this_effect_wrote() {
    let mut effect = PersistEffect::new();
    let empty: StrMap<RunState> = StrMap::new();
    assert!(effect.take_runs_to_delete(&empty).is_empty());
    effect.record_known(&empty);
    assert!(effect.take_runs_to_delete(&empty).is_empty());
}

fn run_with_route(run_id: &str, network: &str, domain: &str) -> RunState {
    let mut web = container("web", "running", vec![route(domain, false)], &[]);
    web.desired.domain = domain.to_string();
    let run = run_state(run_id, vec![web]);
    RunState { network: network.to_string(), ..run }
}

#[test]
fn the_snapshot_tracks_the_runs_map() {
    let effect = RouteTableEffect::new();
    let mut state = WorkspaceState::default();
    assert!(effect.extract(&state).is_empty());
    state.runs.insert("default".to_string(), run_with_route("default", "net", "a.test"));
    assert_eq!(effect.extract(&state).len(), 1);
}

#[test]
fn a_run_without_a_network_yet_is_skipped() {
    let mut effect = RouteTableEffect::new();
    let snapshot =
        snapshot_of(vec![RunState { run_id: "default".to_string(), ..Default::default() }]);
    assert!(effect.tables_to_write(&snapshot).is_empty());
    assert!(effect.drop_gone(&StrMap::new()).is_empty());
}

#[test]
fn the_table_of_a_run_that_is_gone_is_dropped() {
    let mut effect = RouteTableEffect::new();
    let snapshot = snapshot_of(vec![run_with_route("default", "net", "a.test")]);
    assert_eq!(effect.tables_to_write(&snapshot), vec!["default"]);
    effect.record_written("default", "net");
    assert!(effect.drop_gone(&snapshot).is_empty());
    assert_eq!(effect.drop_gone(&StrMap::new()), vec!["net"]);
    assert!(effect.drop_gone(&StrMap::new()).is_empty());
}

#[test]
fn what_is_accepted_becomes_work() {
    let mut actor = WorkspaceActor::new(workspace_with(vec![pending("web", None)]));
    actor
        .dispatch(Action::RunNodeStopRequested {
            run_id: "default".to_string(),
            node_id: "web".to_string(),
        })
        .unwrap();
    let work = extract_pending(actor.current());
    assert_eq!(work.len(), 1);
    assert_eq!((work[0].node_id.as_str(), work[0].action), ("web", PendingAction::Stopping));
    actor
        .dispatch(Action::RunPlanned { run_id: "qa".to_string(), plan: no_plan() })
        .unwrap();
    assert_eq!(extract_pending_creates(actor.current())[0].run_id, "qa");
    actor.dispatch(Action::RunStopRequested { run_id: "default".to_string() }).unwrap();
    assert_eq!(extract_pending_teardowns(actor.current()), vec!["default"]);
}

#[test]
fn an_effect_of_all_workspaces_works_when_what_it_takes_from_them_changes() {
    let zone = |status: &str, domain: &str| {
        workspace_with(vec![container("web", status, vec![route(domain, true)], &[])])
    };
    let effect = DnsEffect { port: 5300 };
    let mut driver: Driver<Vec<String>> = Driver::new();
    let mut done = vec![];
    for registered in [
        vec![],
        vec![("a", zone("running", "a.local"))],
        vec![("a", zone("running", "a.local")), ("b", zone("exited", "b.local"))],
        vec![("a", zone("running", "a.local")), ("b", zone("running", "b.local"))],
        vec![("b", zone("running", "b.local"))],
        vec![("b", zone("running", "b.local"))],
    ] {
        let snapshot = effect.extract(&states(registered));
        if driver.is_due(&snapshot) {
            done.push(snapshot.clone());
            driver.settle(snapshot, true);
        }
    }
    assert_eq!(
        done,
        vec![
            vec![],
            vec!["a.local".to_string()],
            vec!["a.local".to_string(), "b.local".to_string()],
            vec!["b.local".to_string()],
        ]
    );
}
