use fghj::downloads::{
    clone_command, download_of_node, log_chunk, missing_nodes, pull_all_key, replace_returns,
    DownloadRegistry, NodeDownload,
};
use fghj::resolver::graph::{
    ComponentConfig, Dependency, Graph, Node, Scan, ScannedRepo, ServiceConfig,
};
use fghj::resolver::resolve_universe;
use fghj::strmap::StrMap;

fn graph() -> Graph {
    let web = ServiceConfig {
        dependencies: vec![Dependency::Service {
            repo: Some("https://example.com/api.git".to_string()),
            default_branch: Some("trunk".to_string()),
            services: vec![],
        }],
        ..ServiceConfig::default()
    };
    let mut services = StrMap::new();
    services.insert("web".to_string(), web);
    let repo = ScannedRepo {
        component: ComponentConfig { services, flows: StrMap::new() },
        remote: None,
        branch: None,
        dirty: false,
    };
    let mut repos = StrMap::new();
    repos.insert("shop".to_string(), repo);
    resolve_universe(&Scan { workspace_name: "ws".to_string(), repos })
}

fn missing(graph: &Graph) -> &Node {
    graph.nodes.iter().find(|n| !n.downloaded).unwrap()
}

#[test]
fn a_missing_repo_is_cloned_from_its_branch() {
    let graph = graph();
    let node = missing(&graph);
    let command = clone_command(node).ok().unwrap();
    assert_eq!(command.repo, "https://example.com/api.git");
    assert_eq!(command.branch, "trunk");
    assert_eq!(
        command.arguments(),
        vec!["clone", "--progress", "--branch", "trunk", "--single-branch", "https://example.com/api.git"]
    );
    assert_eq!(
        command.announcement(),
        format!("$ git clone --branch trunk https://example.com/api.git {}\n", command.local_path)
    );
    assert_eq!(
        command.failure(),
        "git clone failed for https://example.com/api.git (branch trunk)"
    );
}

#[test]
fn a_node_without_a_repo_cannot_be_cloned() {
    let graph = graph();
    let mut node = missing(&graph).clone();
    node.repo = None;
    assert_eq!(
        clone_command(&node).err(),
        Some(format!("stub node {} has no repo to clone", node.id))
    );
    node.repo = Some("r".to_string());
    node.branch = None;
    node.local_path = None;
    let command = clone_command(&node).ok().unwrap();
    assert_eq!((command.branch.as_str(), &command.local_path), ("main", &node.id));
}

#[test]
fn a_node_s_download_depends_on_whether_it_is_there() {
    let graph = graph();
    assert!(matches!(download_of_node(&graph, "web.shop"), Ok(NodeDownload::AlreadyThere)));
    let id = missing(&graph).id.clone();
    assert!(matches!(download_of_node(&graph, &id), Ok(NodeDownload::Clone(_))));
    assert_eq!(download_of_node(&graph, "ghost").err().as_deref(), Some("no such node: ghost"));
}

#[test]
fn missing_services_are_picked_by_flow() {
    let mut graph = graph();
    assert_eq!(missing_nodes(&graph, None).len(), 1);
    assert_eq!(missing_nodes(&graph, Some("checkout")).len(), 0);
    for node in &mut graph.nodes {
        node.flows.push("checkout".to_string());
    }
    assert_eq!(missing_nodes(&graph, Some("checkout")).len(), 1);
}

#[test]
fn a_job_runs_once_at_a_time_and_is_known_by_its_key() {
    let mut jobs = DownloadRegistry::new();
    assert!(jobs.status("node:api").is_none());
    let started = jobs.start_node("api");
    assert!(started.fresh);
    assert_eq!(started.state.status, "running");
    assert!(!jobs.start_node("api").fresh);
    jobs.append_log("node:api", "one\n");
    jobs.append_log("node:api", "two\n");
    jobs.append_log("ghost", "lost\n");
    jobs.finish("node:api", Some("no network"));
    let state = jobs.status("node:api").unwrap();
    assert_eq!(state.status, "error");
    assert_eq!(state.log, "one\ntwo\n\nerror: no network\n");
    assert!(jobs.start_node("api").fresh, "a finished job can begin again");
    assert_eq!(jobs.status("node:api").unwrap().log, "");
    jobs.finish("node:api", None);
    assert_eq!(jobs.status("node:api").unwrap().status, "done");
    assert_eq!(jobs.list().len(), 1);
}

#[test]
fn a_pull_of_everything_and_of_a_flow_have_keys_of_their_own() {
    let mut jobs = DownloadRegistry::default();
    assert!(jobs.start_pull_all(None).fresh);
    assert!(jobs.start_pull_all(Some("checkout")).fresh);
    assert!(!jobs.start_pull_all(Some("checkout")).fresh);
    assert_ne!(pull_all_key(None), pull_all_key(Some("checkout")));
    assert!(jobs.status(&pull_all_key(None)).is_some());
    assert!(jobs.status(&pull_all_key(Some("checkout"))).is_some());
    assert_eq!(jobs.list().len(), 2);
}

#[test]
fn progress_that_overwrites_its_line_becomes_lines() {
    assert_eq!(replace_returns("10%\r20%\r\n"), "10%\n20%\n\n");
    assert_eq!(log_chunk(b"10%\r\xff"), "10%\n\u{FFFD}");
}

#[test]
fn jobs_are_listed_by_their_first_start_the_latest_first() {
    let mut jobs = DownloadRegistry::new();
    jobs.start_node("web");
    jobs.start_pull_all(None);
    jobs.finish("node:web", None);
    jobs.start_node("api");
    jobs.start_node("web");
    jobs.append_log("ghost", "lost\n");
    let keys: Vec<String> = jobs.list().into_iter().map(|j| j.key).collect();
    assert_eq!(keys, vec!["node:api".to_string(), pull_all_key(None), "node:web".to_string()]);
}
