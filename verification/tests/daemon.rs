use fghj::action::{Action, ActionRejected};
use fghj::daemon::answers::{
    action_rejected_response, container_name_for, post_run_node, post_run_stop, post_runs,
    workspace_of, NodeRequest, Reply,
};
use fghj::daemon::api::{
    container_for, no_such_run, plan_run, query_param, raw_domain_of, DEFAULT_DAEMON_LOGS_LIMIT,
    DEFAULT_HISTORY_LIMIT, DEFAULT_TAIL,
};
use fghj::daemon::control::{state_to_store, DaemonControl};
use fghj::daemon::exec::{
    exit_code, goes_on, on_event, on_first_message, ExecEvent, ExecStart, ExecStep, FirstMessage,
    FirstStep,
};
use fghj::daemon::registry::WorkspaceRegistry;
use fghj::daemon::workspace_id::{domain_label, hash_bytes, stem_of, workspace_id};
use fghj::daemon::{ca_dir, context_host, socket_path};
use fghj::dns::{ZoneSource, ANSWER};
use fghj::persistence::daemon_state::DaemonState;
use fghj::proxy::RouteResolver;
use fghj::query::resolve_route;
use fghj::raw_net::{virtual_ip_for, RawEndpoint};
use fghj::runs::derive_domain;
use fghj::state::{
    ContainerDesired, ContainerInfo, ContainerObserved, PendingAction, PortRoute, RunSpec,
    RunState,
};
use fghj::strmap::StrMap;

#[test]
fn daemon_workspace_id_is_deterministic_and_path_specific() {
    let a = workspace_id("/tmp/fixtures/foo");
    let b = workspace_id("/tmp/fixtures/foo");
    let c = workspace_id("/tmp/fixtures/bar");
    assert_eq!(a, b, "same path must hash to the same id");
    assert_ne!(a, c, "different paths must not collide");
    assert!(a.starts_with("foo-"), "id should carry a readable slug: {a}");
}

#[test]
fn workspace_id_workspace_id_is_deterministic_and_path_specific() {
    let a = workspace_id("/tmp/fixtures/foo");
    let b = workspace_id("/tmp/fixtures/foo");
    let c = workspace_id("/tmp/fixtures/bar");
    assert_eq!(a, b, "same path must hash to the same id");
    assert_ne!(a, c, "different paths must not collide");
    assert!(a.starts_with("foo-"), "id should carry a readable slug: {a}");
}

#[test]
fn an_id_is_a_label_and_a_hash() {
    assert_eq!(hash_bytes(b""), 0xcbf29ce484222325);
    assert_eq!(hash_bytes(b"a"), 0xaf63dc4c8601ec8c);
    let hash = hash_bytes(b"/tmp/My Shop");
    assert_eq!(workspace_id("/tmp/My Shop"), format!("my-shop-{hash:012x}"));
    assert_eq!(stem_of("/"), "workspace");
}

#[test]
fn domain_label_matches_what_derive_domain_would_produce() {
    assert_eq!(domain_label("/home/me/work/shop"), domain_label("/home/me/scratch/shop"));
    assert_eq!(domain_label("/tmp/My Shop"), "my-shop");
    assert!(derive_domain("web", "stable", "My Shop", "default").contains(".my-shop."));
}

#[test]
fn registry_resolve_is_idempotent_and_rejects_nested_workspaces() {
    let mut registry = WorkspaceRegistry::new();
    let root = "/srv/root";
    let first = registry.resolve(root).ok().unwrap();
    assert!(!first.known);
    registry.register(&first.id, root, StrMap::new());

    let second = registry.resolve(root).ok().unwrap();
    assert!(second.known);
    assert_eq!(first.id, second.id);
    assert_eq!(registry.list().len(), 1);
    assert_eq!(registry.get(&first.id).map(String::as_str), Some(root));

    let err = registry.resolve("/srv/root/nested-service").err().unwrap();
    assert!(
        err.message().contains("is inside the already-wired workspace"),
        "unexpected error message: {}",
        err.message()
    );
}

#[test]
fn resolve_rejects_a_workspace_whose_name_collides_with_a_wired_one() {
    let mut registry = WorkspaceRegistry::new();
    let first = registry.resolve("/srv/work/shop").ok().unwrap();
    registry.register(&first.id, "/srv/work/shop", StrMap::new());
    let err = registry.resolve("/srv/scratch/shop").err().unwrap();
    assert!(
        err.message().contains("identical *.fghj.internal names"),
        "unexpected error message: {}",
        err.message()
    );
    assert!(registry.resolve("/srv/scratch/other").is_ok());
}

#[test]
fn registry_stop_removes_workspace_from_registry_and_index() {
    let mut registry = WorkspaceRegistry::new();
    let id = registry.resolve("/srv/root").ok().unwrap().id;
    registry.register(&id, "/srv/root", StrMap::new());

    assert!(registry.stop(&id).is_some());
    assert!(registry.get(&id).is_none());
    assert!(!registry.list().contains_key(&id));
    assert!(registry.stop(&id).is_none());
}

#[test]
fn get_returns_none_for_an_unregistered_workspace() {
    let registry = WorkspaceRegistry::new();
    assert!(registry.get("missing").is_none());
    assert!(registry.state("missing").is_none());
}

#[test]
fn remove_of_an_unregistered_workspace_is_a_no_op() {
    let mut registry = WorkspaceRegistry::new();
    registry.stop("missing");
    assert!(registry.get("missing").is_none());
    assert!(registry.states().is_empty());
}

fn served(route: PortRoute) -> StrMap<RunState> {
    let mut containers = StrMap::new();
    containers.insert(
        "web".to_string(),
        ContainerInfo {
            node_id: "web".to_string(),
            desired: ContainerDesired { routes: vec![route], ..Default::default() },
            observed: ContainerObserved { status: "running".to_string(), ..Default::default() },
            pending_action: None,
        },
    );
    let mut runs = StrMap::new();
    runs.insert(
        "default".to_string(),
        RunState { run_id: "default".to_string(), containers, ..Default::default() },
    );
    runs
}

fn route(domain: &str, wildcard: bool) -> PortRoute {
    PortRoute {
        domain: domain.to_string(),
        host_port: 49152,
        wildcard,
        container_port: "8080".to_string(),
        https: true,
    }
}

#[test]
fn registered_workspaces_are_routed_and_answered() {
    let mut registry = WorkspaceRegistry::new();
    registry.register("ws", "/srv/ws", served(route("myservice.local", true)));
    let backend = RouteResolver::resolve(&registry, "deep.myservice.local").unwrap();
    assert_eq!((backend.host.as_str(), backend.port), ("127.0.0.1", 49152));
    assert_eq!(resolve_route(registry.states(), "deep.myservice.local"), Some(49152));
    assert_eq!(registry.answer_for("deep.myservice.local"), Some(ANSWER));
    assert_eq!(registry.answer_for("anything.fghj.internal"), Some(ANSWER));
    assert_eq!(registry.answer_for("example.com"), None);
    let raw = "db.ws.fghj.raw.internal";
    assert_eq!(registry.answer_for(raw), Some(virtual_ip_for(raw)));
    let mut given = StrMap::new();
    given.insert(raw.to_string(), 0x0ade_0909);
    registry.set_raw_addresses(given);
    assert_eq!(registry.answer_for(raw), Some(0x0ade_0909));
    assert_eq!(registry.raw_addresses().len(), 1);
}

#[test]
fn an_action_reaches_the_workspace_that_it_is_for() {
    let mut registry = WorkspaceRegistry::new();
    registry.register("ws", "/srv/ws", served(route("web.local", false)));
    let stop = || Action::RunStopRequested { run_id: "default".to_string() };
    assert_eq!(registry.dispatch("other", stop()), Err(ActionRejected::RunNotFound));
    assert_eq!(registry.dispatch("ws", stop()), Ok(()));
    let run = registry.state("ws").unwrap().runs.get("default").unwrap();
    assert!(run.pending_teardown);
}

#[test]
fn control_idle_requested_is_cached_in_memory_and_written_through_on_change() {
    let mut stored = DaemonState::default();
    let mut daemon = DaemonControl::new(&stored);
    assert!(!daemon.is_idle_requested());
    assert!(daemon.starts_active());

    stored = state_to_store(&stored, true);
    daemon.set_idle_requested(true, true);
    assert!(
        daemon.is_idle_requested(),
        "in-memory cache must reflect the change immediately"
    );
    assert!(
        stored.idle_requested,
        "the change must be written through to disk, not just cached in memory"
    );

    assert!(!DaemonControl::new(&stored).starts_active());
    let out_of_band = state_to_store(&stored, false);
    assert!(!out_of_band.idle_requested);
    assert!(
        daemon.is_idle_requested(),
        "the in-memory cache must not silently pick up an out-of-band disk change"
    );
}

#[test]
fn a_request_that_could_not_be_stored_is_not_taken_up() {
    let mut daemon = DaemonControl::new(&DaemonState::default());
    daemon.set_idle_requested(true, false);
    assert!(!daemon.is_idle_requested());
}

#[test]
fn the_daemon_is_active_between_activation_and_deactivation() {
    let mut daemon = DaemonControl::new(&DaemonState::default());
    assert!(!daemon.is_active());
    daemon.activate(false);
    assert!(!daemon.is_active());
    daemon.activate(true);
    assert!(daemon.is_active());
    daemon.reconciled(17);
    assert_eq!(daemon.last_reconcile_ms(), Some(17));
    assert!(daemon.deactivate());
    assert!(!daemon.is_active());
    assert!(!daemon.deactivate());
}

fn start(tty: bool, cols: u16, rows: u16) -> ExecStart {
    ExecStart { cmd: vec!["sh".to_string()], user: None, working_dir: None, tty, cols, rows }
}

#[test]
fn the_first_message_says_what_to_run() {
    match on_first_message(FirstMessage::Start(start(true, 0, 24))) {
        FirstStep::Begin { size, .. } => assert_eq!(size, Some((1, 24))),
        _ => panic!("expected a beginning"),
    }
    match on_first_message(FirstMessage::Start(start(false, 80, 24))) {
        FirstStep::Begin { size, start } => {
            assert_eq!(size, None);
            assert_eq!(start.cmd, vec!["sh"]);
        }
        _ => panic!("expected a beginning"),
    }
    match on_first_message(FirstMessage::Malformed("no cmd".to_string())) {
        FirstStep::Refuse(text) => assert_eq!(text, "invalid exec start message: no cmd"),
        _ => panic!("expected a refusal"),
    }
    assert!(matches!(on_first_message(FirstMessage::Else), FirstStep::End));
}

#[test]
fn a_running_command_exchanges_bytes_with_its_client() {
    assert!(matches!(
        on_event(ExecEvent::Output(vec![1])),
        ExecStep::SendToClient(bytes) if bytes == vec![1]
    ));
    assert!(matches!(
        on_event(ExecEvent::Input(vec![2])),
        ExecStep::WriteToCommand(bytes) if bytes == vec![2]
    ));
    let closing = on_event(ExecEvent::Input(vec![]));
    assert!(matches!(closing, ExecStep::CloseInput));
    assert!(goes_on(&closing, false));
    assert!(matches!(
        on_event(ExecEvent::Resize { cols: 3, rows: 4 }),
        ExecStep::Resize { cols: 3, rows: 4 }
    ));
    assert!(matches!(on_event(ExecEvent::OtherMessage), ExecStep::Nothing));
    for event in [ExecEvent::OutputEnded, ExecEvent::ClientGone] {
        let step = on_event(event);
        assert!(matches!(step, ExecStep::Finish));
        assert!(!goes_on(&step, true));
    }
    let sending = on_event(ExecEvent::Output(vec![1]));
    assert!(goes_on(&sending, true));
    assert!(!goes_on(&sending, false));
    assert_eq!(exit_code(Some(3)), 3);
    assert_eq!(exit_code(None), -1);
}

#[test]
fn a_query_is_read_by_its_keys() {
    assert_eq!(query_param("workspace=a-1&tail=20", "tail").as_deref(), Some("20"));
    assert_eq!(query_param("tail=1&tail=2", "tail").as_deref(), Some("1"));
    assert_eq!(query_param("tail", "tail"), None);
    assert_eq!(query_param("a=b=c", "a").as_deref(), Some("b=c"));
    assert_eq!(query_param("a=%20", "a").as_deref(), Some("%20"));
    assert_eq!(query_param("", "a"), None);
}

#[test]
fn a_request_without_a_run_plans_the_default_one() {
    let (id, action) = plan_run(RunSpec { run_id: None, flow: None });
    assert_eq!(id, "default");
    assert!(matches!(action, Action::RunPlanned { run_id, .. } if run_id == "default"));
    let (id, _) = plan_run(RunSpec { run_id: Some("qa".to_string()), flow: None });
    assert_eq!(id, "qa");
    assert_eq!(no_such_run("qa"), "no such run: qa");
}

#[test]
fn a_container_is_found_by_run_and_node() {
    let mut registry = WorkspaceRegistry::new();
    registry.register("ws", "/srv/ws", served(route("web.local", false)));
    let state = registry.state("ws").unwrap();
    assert_eq!(container_for(state, "default", "web").unwrap().node_id, "web");
    assert!(container_for(state, "default", "api").is_none());
    assert!(container_for(state, "qa", "web").is_none());
}

#[test]
fn an_address_is_traced_back_to_its_name() {
    let endpoint = |name: &str| RawEndpoint { raw_domain: name.to_string(), ports: StrMap::new() };
    let endpoints = vec![endpoint("a.fghj.raw.internal"), endpoint("b.fghj.raw.internal")];
    let ip = virtual_ip_for("b.fghj.raw.internal");
    assert_eq!(
        raw_domain_of(&endpoints, &StrMap::new(), ip).as_deref(),
        Some("b.fghj.raw.internal")
    );
    assert_eq!(raw_domain_of(&endpoints, &StrMap::new(), 1), None);
}

#[test]
fn limits_and_places_are_as_documented() {
    assert_eq!((DEFAULT_TAIL, DEFAULT_HISTORY_LIMIT, DEFAULT_DAEMON_LOGS_LIMIT), (200, 500, 500));
    assert_eq!(socket_path(), "/var/run/fghjd.sock");
    assert_eq!(ca_dir(false), "/var/lib/fghjd/ca");
    assert_eq!(context_host(true, " unix:///run/docker.sock\n").as_deref(), Some("unix:///run/docker.sock"));
    assert_eq!(context_host(true, "\n"), None);
    assert_eq!(context_host(false, "unix:///run/docker.sock"), None);
}

#[test]
fn a_domain_is_derived_from_node_run_and_workspace() {
    assert_eq!(
        derive_domain("web.shop", "run", "My Shop", "default"),
        "web.shop.my-shop.fghj.internal"
    );
    assert_eq!(
        derive_domain("web.shop", "run", "My Shop", "qa"),
        "web.shop.qa.my-shop.fghj.internal"
    );
    assert_eq!(
        derive_domain("web.shop", "stable", "My Shop", "qa"),
        "web.shop.my-shop.fghj.internal"
    );
}

fn refusal(reply: Reply) -> (u16, String) {
    match reply {
        Reply::Refused(f) => (f.status, f.error),
        _ => panic!("expected a refusal"),
    }
}

#[test]
fn a_request_for_a_run_is_answered_with_the_run() {
    let mut registry = WorkspaceRegistry::new();
    registry.register("ws", "/srv/ws", StrMap::new());
    let no_plan = || RunSpec { run_id: None, flow: None };
    match post_runs(&mut registry, "ws", no_plan()) {
        Reply::Run(run) => {
            assert_eq!(run.run_id, "default");
            assert_eq!(run.pending_create, Some(no_plan()));
        }
        _ => panic!("expected a run"),
    }
    assert_eq!(
        refusal(post_runs(&mut registry, "ws", no_plan())),
        (409, "an action is already in flight".to_string())
    );
    assert_eq!(
        refusal(post_runs(&mut registry, "other", no_plan())),
        (404, "no such run".to_string())
    );
}

#[test]
fn a_request_on_a_node_is_answered_with_its_container() {
    let mut registry = WorkspaceRegistry::new();
    registry.register("ws", "/srv/ws", served(route("web.local", false)));
    match post_run_node(&mut registry, "ws", "default", "web", NodeRequest::Stop) {
        Reply::Container(c) => assert_eq!(c.pending_action, Some(PendingAction::Stopping)),
        _ => panic!("expected a container"),
    }
    assert_eq!(
        refusal(post_run_node(&mut registry, "ws", "default", "web", NodeRequest::Start)),
        (409, "an action is already in flight".to_string())
    );
    assert_eq!(
        refusal(post_run_node(&mut registry, "ws", "default", "api", NodeRequest::Delete)),
        (404, "no such node".to_string())
    );
    assert_eq!(
        refusal(post_run_node(&mut registry, "ws", "qa", "web", NodeRequest::Delete)),
        (404, "no such run".to_string())
    );
    assert!(matches!(
        post_run_node(&mut registry, "ws", "default", "api", NodeRequest::Start),
        Reply::Container(_)
    ));
}

#[test]
fn a_run_is_asked_to_be_torn_down() {
    let mut registry = WorkspaceRegistry::new();
    registry.register("ws", "/srv/ws", served(route("web.local", false)));
    assert!(matches!(post_run_stop(&mut registry, "ws", "default"), Reply::Done));
    assert!(registry.state("ws").unwrap().runs.get("default").unwrap().pending_teardown);
    assert_eq!(
        refusal(post_run_stop(&mut registry, "ws", "qa")),
        (404, "no such run".to_string())
    );
}

#[test]
fn a_request_names_its_workspace() {
    let mut registry = WorkspaceRegistry::new();
    registry.register("ws", "/srv/ws", StrMap::new());
    assert_eq!(workspace_of(&registry, "tail=2&workspace=ws").ok().as_deref(), Some("ws"));
    for query in ["", "workspace=", "workspace=other", "ws"] {
        let f = workspace_of(&registry, query).err().unwrap();
        assert_eq!(f.status, 400);
        assert_eq!(f.error, "unknown or missing ?workspace=<id>; POST /workspaces first");
    }
}

#[test]
fn output_is_asked_for_by_run_and_node() {
    let mut registry = WorkspaceRegistry::new();
    registry.register("ws", "/srv/ws", served(route("web.local", false)));
    let state = registry.state("ws").unwrap();
    assert_eq!(container_name_for(state, "default", "web").ok().as_deref(), Some(""));
    let f = container_name_for(state, "qa", "web").err().unwrap();
    assert_eq!((f.status, f.error.as_str()), (404, "no such run: qa"));
    let f = container_name_for(state, "default", "api").err().unwrap();
    assert_eq!((f.status, f.error.as_str()), (400, "no such node: api"));
}

#[test]
fn a_refused_action_is_a_conflict_or_not_found() {
    let f = action_rejected_response(ActionRejected::AlreadyInFlight);
    assert_eq!((f.status, f.error.as_str()), (409, "an action is already in flight"));
    assert_eq!(action_rejected_response(ActionRejected::RunNotFound).status, 404);
    assert_eq!(action_rejected_response(ActionRejected::NodeNotFound).status, 404);
}

#[test]
fn runs_keep_their_domains_apart() {
    let a = derive_domain("web", "run", "shop", "qa");
    assert_ne!(a, derive_domain("web", "run", "shop", "qb"));
    assert_ne!(a, derive_domain("web", "run", "shop", "default"));
    assert_eq!(
        derive_domain("web", "stable", "shop", "qa"),
        derive_domain("web", "stable", "shop", "qb")
    );
}

#[test]
fn a_raw_name_under_a_wildcard_keeps_its_own_address() {
    let mut registry = WorkspaceRegistry::new();
    registry.register("ws", "/srv/ws", served(route("raw.internal", true)));
    assert_eq!(registry.answer_for("db.raw.internal"), Some(ANSWER));
    let raw = "db.ws.fghj.raw.internal";
    assert_eq!(registry.answer_for(raw), Some(virtual_ip_for(raw)));
}

#[test]
fn a_path_inside_a_wired_workspace_adds_nothing() {
    let mut registry = WorkspaceRegistry::new();
    for _ in 0..2 {
        let admitted = registry.resolve("/srv/root").ok().unwrap();
        if !admitted.known {
            registry.register(&admitted.id, "/srv/root", StrMap::new());
        }
        assert!(registry.resolve("/srv/root/deep/inside").is_err());
        assert_eq!(registry.list().len(), 1);
    }
}
