use fghj::persistence::daemon_state::{stored_or_initial, DaemonState};
use fghj::persistence::events::next_event_seq;
use fghj::persistence::logs::{discarded_up_to, log_page, next_generation, LogLine};
use fghj::persistence::paths::{
    database_path, default_index_path, default_state_path, fghjd_root,
};
use fghj::persistence::rehydrate::{rehydrate, revive_run};
use fghj::persistence::runs::{load_runs, rows_of_run, ContainerRow, RunRow};
use fghj::persistence::workspace_owner::{
    command_identity, live_ssh_auth_sock, SessionEntry,
};
use fghj::state::{
    ContainerDesired, ContainerInfo, ContainerObserved, PortRoute, RunState, SyncStatus,
    WorkspaceOwner,
};
use fghj::strmap::StrMap;

#[test]
fn daemon_state_round_trips_and_defaults_to_active() {
    let defaulted = stored_or_initial(None);
    assert!(
        !defaulted.idle_requested,
        "a freshly-started fghjd with no prior `daemon stop` must default to active"
    );
    assert!(stored_or_initial(Some(DaemonState { idle_requested: true })).idle_requested);
    assert!(!stored_or_initial(Some(DaemonState { idle_requested: false })).idle_requested);
    assert!(!DaemonState::default().idle_requested);
}

#[test]
fn the_daemon_keeps_its_files_in_one_place() {
    assert_eq!(fghjd_root(true), "/private/var/lib/fghjd");
    assert_eq!(fghjd_root(false), "/var/lib/fghjd");
    assert_eq!(default_index_path(false), "/var/lib/fghjd/workspaces.json");
    assert_eq!(default_state_path(true), "/private/var/lib/fghjd/daemon-state.json");
    assert_eq!(database_path("/home/me/shop"), "/home/me/shop/.fghj/fghj.db");
}

fn container(node_id: &str) -> ContainerInfo {
    let mut ports = StrMap::new();
    ports.insert("8080".to_string(), Some(8080));
    ContainerInfo {
        node_id: node_id.to_string(),
        desired: ContainerDesired {
            running: true,
            container_name: format!("fghj-demo-default-{node_id}"),
            domain: format!("{node_id}.demo.fghj"),
            raw_domain: format!("{node_id}.demo.fghj.raw.internal"),
            routes: vec![PortRoute {
                domain: format!("{node_id}.demo.fghj"),
                host_port: 8080,
                wildcard: false,
                https: true,
                container_port: "8080".to_string(),
            }],
            additional_hosts: Vec::new(),
            status_port: Some("8080".to_string()),
            config_hash: "deadbeef".to_string(),
        },
        observed: ContainerObserved {
            status: "running".to_string(),
            published_port: Some(8080),
            ip: None,
            ports,
            sync: SyncStatus::Synced,
        },
        pending_action: None,
    }
}

fn run() -> RunState {
    let mut containers = StrMap::new();
    containers.insert("svc-a".to_string(), container("svc-a"));
    RunState {
        run_id: "default".to_string(),
        network: "fghj-demo-default".to_string(),
        containers,
        sidecar_container_name: "fghj-demo-default-sidecar".to_string(),
        sidecar_ip: Some("172.20.0.5".to_string()),
        ..Default::default()
    }
}

#[test]
fn a_saved_run_loads_back() {
    let (row, rows) = rows_of_run(&run());
    assert_eq!(rows.len(), 1);
    let loaded = load_runs(&vec![row], &rows);
    assert_eq!(loaded.len(), 1);
    let restored = loaded.get("default").unwrap();
    assert_eq!(restored.network, "fghj-demo-default");
    assert_eq!(restored.containers.len(), 1);
    let c = restored.containers.get("svc-a").unwrap();
    assert_eq!(c.observed.published_port, Some(8080));
    assert_eq!(c.desired.routes.len(), 1);
    assert_eq!(c.desired.routes[0].host_port, 8080);
    assert_eq!(restored.sidecar_container_name, "fghj-demo-default-sidecar");
    assert_eq!(restored.sidecar_ip, Some("172.20.0.5".to_string()));
    assert_eq!(restored, &run());
}

#[test]
fn rows_of_older_tables_load_with_what_they_have() {
    let row = RunRow {
        run_id: "default".to_string(),
        network: "net".to_string(),
        sidecar_container_name: None,
        sidecar_ip: None,
    };
    let container = |run_id: &str, synced: Option<i64>| ContainerRow {
        run_id: run_id.to_string(),
        node_id: "web".to_string(),
        container_name: "fghj-web".to_string(),
        status: "exited".to_string(),
        published_port: None,
        domain: "web.fghj.internal".to_string(),
        routes: vec![],
        additional_hosts: vec![],
        ports: StrMap::new(),
        status_port: None,
        config_hash: None,
        synced,
        raw_domain: None,
    };
    let loaded = load_runs(
        &vec![row],
        &vec![container("default", Some(0)), container("gone", Some(1))],
    );
    assert_eq!(loaded.len(), 1);
    let run = loaded.get("default").unwrap();
    assert_eq!(run.sidecar_container_name, "");
    let web = run.containers.get("web").unwrap();
    assert_eq!(web.desired.config_hash, "");
    assert_eq!(web.desired.raw_domain, "");
    assert!(!web.desired.running);
    assert_eq!(web.observed.sync, SyncStatus::Drifted);
}

#[test]
fn drops_dead_containers_and_prunes_now_empty_runs() {
    let mut persisted = StrMap::new();
    persisted.insert("dead".to_string(), RunState { run_id: "dead".to_string(), ..run() });
    let reconciled = rehydrate(&persisted, &StrMap::new());
    assert!(reconciled.runs.is_empty());
    assert_eq!(reconciled.delete, vec!["dead"]);
}

#[test]
fn a_surviving_container_keeps_what_is_desired_and_takes_its_status() {
    let mut statuses = StrMap::new();
    statuses.insert("svc-a".to_string(), "exited".to_string());
    let revived = revive_run(&run(), &statuses);
    let c = revived.containers.get("svc-a").unwrap();
    assert_eq!(c.observed.status, "exited");
    assert!(c.desired.running);

    let mut all = StrMap::new();
    all.insert("default".to_string(), statuses);
    let mut persisted = StrMap::new();
    persisted.insert("default".to_string(), run());
    let reconciled = rehydrate(&persisted, &all);
    assert!(reconciled.delete.is_empty());
    assert_eq!(reconciled.runs.get("default"), Some(&revived));
}

#[test]
fn log_generations_are_numbered_and_pruned_to_the_last_two() {
    let gen0 = next_generation(None);
    assert_eq!(gen0, 0);
    let gen1 = next_generation(Some(gen0));
    assert_eq!(gen1, 1);
    assert!(gen0 > discarded_up_to(gen1), "still within the retention window");
    let gen2 = next_generation(Some(gen1));
    assert_eq!(gen2, 2);
    assert!(gen0 <= discarded_up_to(gen2));
    assert!(gen1 > discarded_up_to(gen2));
}

#[test]
fn a_page_holds_the_newest_lines_before_a_number() {
    let lines: Vec<LogLine> = (0..6)
        .map(|seq| LogLine {
            seq,
            stream: "stdout".to_string(),
            ts: "2026-01-01T00:00:00Z".to_string(),
            line: format!("{seq}"),
        })
        .collect();
    let texts = |page: Vec<LogLine>| page.iter().map(|l| l.line.clone()).collect::<Vec<_>>();
    assert_eq!(texts(log_page(&lines, None, 2)), vec!["4", "5"]);
    assert_eq!(texts(log_page(&lines, Some(4), 2)), vec!["2", "3"]);
    assert_eq!(texts(log_page(&lines, Some(1), 5)), vec!["0"]);
    assert_eq!(texts(log_page(&lines, None, 0)).len(), 0);
    assert_eq!(texts(log_page(&lines, None, -1)).len(), 6);
}

#[test]
fn steps_of_a_cycle_are_numbered_from_zero() {
    let first = next_event_seq(None);
    assert_eq!(first, 0);
    assert_eq!(next_event_seq(Some(first)), 1);
}

#[test]
fn a_live_agent_is_found() {
    let entry = |name: &str, live: bool| SessionEntry { name: name.to_string(), live };
    let entries = vec![
        entry("other", true),
        entry("com.apple.launchd.aaa", false),
        entry("com.apple.launchd.bbb", true),
    ];
    assert_eq!(
        live_ssh_auth_sock(Some("/tmp/agent"), true, true, &entries).as_deref(),
        Some("/tmp/agent")
    );
    assert_eq!(
        live_ssh_auth_sock(Some("/tmp/agent"), false, true, &entries).as_deref(),
        Some("/private/tmp/com.apple.launchd.bbb/Listeners")
    );
    assert_eq!(live_ssh_auth_sock(Some("/tmp/agent"), false, false, &entries), None);
    assert_eq!(live_ssh_auth_sock(None, false, true, &vec![]), None);
}

#[test]
fn a_command_is_run_as_the_owner() {
    let owner = WorkspaceOwner {
        uid: 501,
        gid: 20,
        home: "/Users/dev".to_string(),
        ssh_auth_sock: Some("/old".to_string()),
    };
    let identity = command_identity(&owner, None);
    assert_eq!((identity.uid, identity.gid), (501, 20));
    assert_eq!(identity.home, "/Users/dev");
    assert_eq!(identity.ssh_auth_sock, None);
}

#[test]
fn a_saved_run_loads_back_beside_others_until_it_is_deleted() {
    let mut other = run();
    other.run_id = "staging".to_string();
    other.network = "fghj-demo-staging".to_string();
    other.containers.insert("svc-b".to_string(), container("svc-b"));
    let (row, rows) = rows_of_run(&run());
    let (other_row, other_rows) = rows_of_run(&other);
    let mut mixed = other_rows;
    mixed.insert(1, rows.into_iter().next().unwrap());
    let loaded = load_runs(&vec![other_row, row], &mixed);
    assert_eq!(loaded.len(), 2);
    assert_eq!(loaded.get("default"), Some(&run()));
    assert_eq!(loaded.get("staging"), Some(&other));

    let (other_row, other_rows) = rows_of_run(&other);
    let left = load_runs(&vec![other_row], &other_rows);
    assert!(left.get("default").is_none());
    assert_eq!(left.get("staging"), Some(&other));
}
