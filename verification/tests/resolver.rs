use fghj::resolver::checkout::{
    checkouts, git_fact, git_status_dirty, mirror_failure, mirror_path, Printed, WorkspaceEntry,
};
use fghj::resolver::flows::reachable_from;
use fghj::resolver::graph::{
    default_context, default_dockerfile, BackingDependencyConfig, ComponentConfig, Dependency,
    Edge, Environment, FlowConfig, Graph, Healthcheck, Node, NodeBuild, PortConfig, Scan,
    ScannedRepo, ServiceConfig, VolumeMount,
};
use fghj::resolver::resolve_universe;
use fghj::resolver::url::{normalize_repo_url, repo_name_from_url};
use fghj::resolver::visit::{index_repos, to_pairs, ResolveCtx};
use fghj::strmap::StrMap;

fn ports(list: Vec<(&str, PortConfig)>) -> StrMap<PortConfig> {
    let mut m = StrMap::new();
    for (k, v) in list {
        m.insert(k.to_string(), v);
    }
    m
}

fn pairs(list: Vec<(&str, String)>) -> StrMap<String> {
    let mut m = StrMap::new();
    for (k, v) in list {
        m.insert(k.to_string(), v);
    }
    m
}

fn texts(list: &[&str]) -> Vec<String> {
    list.iter().map(|s| s.to_string()).collect()
}

fn repo(services: Vec<(&str, ServiceConfig)>) -> ScannedRepo {
    repo_with_flows(services, vec![])
}

fn repo_with_flows(
    services: Vec<(&str, ServiceConfig)>,
    flows: Vec<(&str, FlowConfig)>,
) -> ScannedRepo {
    let mut component = ComponentConfig { services: StrMap::new(), flows: StrMap::new() };
    for (name, service) in services {
        component.services.insert(name.to_string(), service);
    }
    for (name, flow) in flows {
        component.flows.insert(name.to_string(), flow);
    }
    ScannedRepo {
        component,
        remote: None,
        branch: None,
        dirty: false,
    }
}

fn resolve(repos: Vec<(&str, ScannedRepo)>) -> Graph {
    let mut scan = Scan { workspace_name: "ws".to_string(), repos: StrMap::new() };
    for (folder, repo) in repos {
        scan.repos.insert(folder.to_string(), repo);
    }
    resolve_universe(&scan)
}

fn one(service: ServiceConfig) -> Graph {
    resolve(vec![("myservice", repo(vec![("myservice", service)]))])
}

fn node<'a>(graph: &'a Graph, id: &str) -> &'a Node {
    graph.nodes.iter().find(|n| n.id == id).unwrap()
}

fn primary() -> PortConfig {
    PortConfig { primary: true, ..PortConfig::default() }
}

fn built() -> ServiceConfig {
    ServiceConfig {
        build: Some(NodeBuild {
            context: default_context(),
            dockerfile: default_dockerfile(),
            args: StrMap::new(),
        }),
        ..ServiceConfig::default()
    }
}

fn git(repo: Option<&str>, services: &[&str]) -> Dependency {
    Dependency::Service {
        repo: repo.map(|r| r.to_string()),
        default_branch: repo.map(|_| "main".to_string()),
        services: texts(services),
    }
}

#[test]
fn service_domain_scope_defaults_to_run_and_can_opt_into_stable() {
    let stable = ServiceConfig { domain_scope: "stable".to_string(), ..ServiceConfig::default() };
    let graph = resolve(vec![
        ("svc-a", repo(vec![("svc-a", ServiceConfig::default())])),
        ("svc-b", repo(vec![("svc-b", stable)])),
    ]);
    assert_eq!(node(&graph, "svc-a.svc-a").domain_scope, "run");
    assert_eq!(node(&graph, "svc-b.svc-b").domain_scope, "stable");
}

#[test]
fn ports_round_trip_into_graph_nodes() {
    let metrics = PortConfig { name: Some("metrics".to_string()), ..PortConfig::default() };
    let graph = one(ServiceConfig {
        ports: ports(vec![("8080", primary()), ("9090", metrics)]),
        ..ServiceConfig::default()
    });
    let node = node(&graph, "myservice.myservice");
    assert_eq!(node.ports.len(), 2);
    assert!(node.ports.get("8080").unwrap().primary);
    assert_eq!(node.ports.get("9090").unwrap().name.as_deref(), Some("metrics"));
    assert!(graph.warnings.is_empty());
}

#[test]
fn warns_when_more_than_one_port_is_primary() {
    let graph = one(ServiceConfig {
        ports: ports(vec![("8080", primary()), ("9090", primary())]),
        ..ServiceConfig::default()
    });
    assert!(graph
        .warnings
        .iter()
        .any(|w| w.contains("myservice") && w.contains("8080") && w.contains("9090")));
}

#[test]
fn service_bind_mount_round_trips_into_graph_node() {
    let graph = one(ServiceConfig {
        volumes: vec![
            VolumeMount::Bind {
                host: "./src".to_string(),
                container: "/app/src".to_string(),
                read_only: false,
            },
            VolumeMount::Bind {
                host: "../intel".to_string(),
                container: "/app/intel".to_string(),
                read_only: true,
            },
        ],
        ..ServiceConfig::default()
    });
    let node = node(&graph, "myservice.myservice");
    assert_eq!(node.volumes.len(), 2);
    assert!(matches!(
        &node.volumes[0],
        VolumeMount::Bind { host, container, read_only }
            if host == "./src" && container == "/app/src" && !read_only
    ));
    assert!(matches!(
        &node.volumes[1],
        VolumeMount::Bind { host, container, read_only }
            if host == "../intel" && container == "/app/intel" && *read_only
    ));
}

#[test]
fn named_volume_round_trips_into_graph_node() {
    let postgres = BackingDependencyConfig {
        ports: texts(&["5432"]),
        volumes: vec![VolumeMount::Named {
            name: "pgdata".to_string(),
            scope: "run".to_string(),
            container: "/var/lib/postgresql/data".to_string(),
            read_only: false,
        }],
        ..BackingDependencyConfig::plain("postgres", "postgres:16")
    };
    let graph = one(ServiceConfig {
        dependencies: vec![Dependency::Backing(postgres)],
        ..ServiceConfig::default()
    });
    let node = node(&graph, "postgres.myservice.myservice");
    assert_eq!(node.volumes.len(), 1);
    assert!(matches!(
        &node.volumes[0],
        VolumeMount::Named { name, scope, container, read_only }
            if name == "pgdata" && scope == "run" && container == "/var/lib/postgresql/data"
                && !read_only
    ));
}

#[test]
fn command_round_trips_into_graph_node_for_service_and_backing() {
    let mysql = BackingDependencyConfig {
        ports: texts(&["3306"]),
        command: texts(&["mysqld", "--sql_mode=NO_ENGINE_SUBSTITUTION"]),
        ..BackingDependencyConfig::plain("mysql", "mysql:8.0.33")
    };
    let graph = one(ServiceConfig {
        command: texts(&["npm", "run", "dev"]),
        dependencies: vec![Dependency::Backing(mysql)],
        ..ServiceConfig::default()
    });
    assert_eq!(node(&graph, "myservice.myservice").command, vec!["npm", "run", "dev"]);
    assert_eq!(
        node(&graph, "mysql.myservice.myservice").command,
        vec!["mysqld", "--sql_mode=NO_ENGINE_SUBSTITUTION"]
    );
}

#[test]
fn run_options_round_trip_into_graph_node_for_service_and_backing() {
    let postgres = BackingDependencyConfig {
        ports: texts(&["5432"]),
        platform: Some("linux/amd64".to_string()),
        env_file: texts(&[".env.postgres"]),
        restart: "unless-stopped".to_string(),
        healthcheck: Some(Healthcheck {
            test: texts(&["CMD", "pg_isready"]),
            interval: Some(5),
            timeout: None,
            start_period: None,
            retries: Some(3),
        }),
        ..BackingDependencyConfig::plain("postgres", "postgres:16")
    };
    let graph = one(ServiceConfig {
        env_file: texts(&[".env"]),
        platform: Some("linux/arm64".to_string()),
        restart: "always".to_string(),
        user: Some("1000:1000".to_string()),
        working_dir: Some("/app".to_string()),
        labels: pairs(vec![("team", "platform".to_string())]),
        cap_add: texts(&["NET_ADMIN"]),
        cap_drop: texts(&["ALL"]),
        privileged: true,
        extra_hosts: texts(&["metadata:169.254.169.254"]),
        dependencies: vec![Dependency::Backing(postgres)],
        ..ServiceConfig::default()
    });

    let service = node(&graph, "myservice.myservice");
    assert_eq!(service.env_file, vec![".env"]);
    assert_eq!(service.restart, "always");
    assert_eq!(service.user.as_deref(), Some("1000:1000"));
    assert_eq!(service.working_dir.as_deref(), Some("/app"));
    assert_eq!(service.labels.get("team").map(String::as_str), Some("platform"));
    assert_eq!(service.cap_add, vec!["NET_ADMIN"]);
    assert_eq!(service.cap_drop, vec!["ALL"]);
    assert!(service.privileged);
    assert_eq!(service.extra_hosts, vec!["metadata:169.254.169.254"]);
    assert_eq!(service.platform.as_deref(), Some("linux/arm64"));

    let backing = node(&graph, "postgres.myservice.myservice");
    assert_eq!(backing.platform.as_deref(), Some("linux/amd64"));
    assert_eq!(backing.env_file, vec![".env.postgres"]);
    assert_eq!(backing.restart, "unless-stopped");
    let hc = backing.healthcheck.as_ref().unwrap();
    assert_eq!(hc.test, vec!["CMD", "pg_isready"]);
    assert_eq!(hc.interval, Some(5));
    assert_eq!(hc.retries, Some(3));
}

#[test]
fn run_options_default_to_compose_equivalent_no_ops() {
    let graph = one(ServiceConfig::default());
    let service = node(&graph, "myservice.myservice");
    assert_eq!(service.restart, "no");
    assert!(service.user.is_none());
    assert!(service.labels.is_empty());
    assert!(!service.privileged);
    assert!(service.healthcheck.is_none());
}

#[test]
fn additional_hosts_round_trip_into_graph_node() {
    let graph = one(ServiceConfig {
        ports: ports(vec![("8080", primary())]),
        additional_hosts: texts(&["aikido.local", "demo.example.com"]),
        ..ServiceConfig::default()
    });
    assert_eq!(
        node(&graph, "myservice.myservice").additional_hosts,
        vec!["aikido.local", "demo.example.com"]
    );
    assert!(graph.warnings.is_empty());
}

#[test]
fn warns_when_additional_hosts_declared_without_a_primary_port() {
    let graph = one(ServiceConfig {
        additional_hosts: texts(&["aikido.local"]),
        ..ServiceConfig::default()
    });
    assert!(graph
        .warnings
        .iter()
        .any(|w| w.contains("myservice") && w.contains("additional_hosts")));
}

#[test]
fn git_dependency_services_list_targets_multiple_services_in_one_repo() {
    let web = ServiceConfig {
        dependencies: vec![git(Some("https://example.com/repo-b.git"), &["api", "jobs"])],
        ..built()
    };
    let graph = resolve(vec![
        ("repo-b", repo(vec![("api", built()), ("jobs", built())])),
        ("repo-a", repo(vec![("web", web)])),
    ]);

    assert!(graph.nodes.iter().any(|n| n.id == "api.repo-b"));
    assert!(graph.nodes.iter().any(|n| n.id == "jobs.repo-b"));
    let depends_on: Vec<&str> = graph
        .edges
        .iter()
        .filter(|e| e.from == "web.repo-a" && e.kind == "depends-on")
        .map(|e| e.to.as_str())
        .collect();
    assert_eq!(depends_on.len(), 2);
    assert!(depends_on.contains(&"api.repo-b"));
    assert!(depends_on.contains(&"jobs.repo-b"));
    assert!(graph.warnings.is_empty());
}

#[test]
fn git_dependency_without_services_defaults_to_the_sole_service() {
    let web = ServiceConfig {
        dependencies: vec![git(Some("https://example.com/repo-b.git"), &[])],
        ..built()
    };
    let graph = resolve(vec![
        ("repo-b", repo(vec![("repo-b", ServiceConfig::default())])),
        ("repo-a", repo(vec![("web", web)])),
    ]);
    assert!(graph.edges.iter().any(|e| e.from == "web.repo-a" && e.to == "repo-b.repo-b"));
    assert!(graph.warnings.is_empty());
}

#[test]
fn git_dependency_without_repo_targets_a_sibling_service_in_the_same_repo() {
    let vite = ServiceConfig { dependencies: vec![git(None, &["php"])], ..built() };
    let graph = resolve(vec![("shop-web", repo(vec![("vite", vite), ("php", built())]))]);
    assert!(graph.nodes.iter().any(|n| n.id == "vite.shop-web"));
    assert!(graph.nodes.iter().any(|n| n.id == "php.shop-web"));
    assert!(graph.edges.iter().any(|e| {
        e.from == "vite.shop-web" && e.to == "php.shop-web" && e.kind == "depends-on"
    }));
    assert!(graph.warnings.is_empty());
}

#[test]
fn git_dependency_without_repo_on_itself_warns_instead_of_crashing() {
    let vite = ServiceConfig { dependencies: vec![git(None, &["vite"])], ..built() };
    let graph = resolve(vec![("shop-web", repo(vec![("vite", vite)]))]);
    assert!(!graph.edges.iter().any(|e| e.kind == "depends-on"));
    assert!(graph.warnings.iter().any(|w| w.contains("itself")));
}

#[test]
fn repos_that_depend_on_each_other_are_followed_once() {
    let a = ServiceConfig {
        dependencies: vec![git(Some("https://example.com/b.git"), &[])],
        ..built()
    };
    let b = ServiceConfig {
        dependencies: vec![git(Some("https://example.com/a.git"), &[])],
        ..built()
    };
    let graph = resolve(vec![("a", repo(vec![("a", a)])), ("b", repo(vec![("b", b)]))]);
    let ids: Vec<&str> = graph.nodes.iter().map(|n| n.id.as_str()).collect();
    assert_eq!(ids, vec!["a.a", "b.b"]);
    assert_eq!(graph.edges.len(), 2);
}

#[test]
fn a_repo_that_is_not_there_becomes_a_node_to_download() {
    let web = ServiceConfig {
        dependencies: vec![git(Some("https://example.com/gone.git"), &[])],
        ..built()
    };
    let graph = resolve(vec![("repo-a", repo(vec![("web", web)]))]);
    let gone = graph.nodes.iter().find(|n| !n.downloaded).unwrap();
    assert_eq!(gone.repo.as_deref(), Some("https://example.com/gone.git"));
    assert_eq!(gone.branch.as_deref(), Some("main"));
    assert!(graph.edges.iter().any(|e| e.from == "web.repo-a" && e.to == gone.id));
}

#[test]
fn a_repo_is_found_by_its_remote_whatever_its_folder_is_called() {
    let mut checkout = repo(vec![("api", built())]);
    checkout.remote = Some("git@example.com:Acme/Repo-B.git".to_string());
    let web = ServiceConfig {
        dependencies: vec![git(Some("https://example.com/acme/repo-b"), &[])],
        ..built()
    };
    let graph = resolve(vec![
        ("elsewhere", checkout),
        ("repo-a", repo(vec![("web", web)])),
    ]);
    assert!(graph.edges.iter().any(|e| e.from == "web.repo-a" && e.to == "api.elsewhere"));
}

#[test]
fn a_shared_backing_that_nobody_owns_is_warned_of() {
    let web = ServiceConfig {
        dependencies: vec![Dependency::SharedBacking {
            repo: None,
            service: "api".to_string(),
            name: "postgres".to_string(),
        }],
        ..built()
    };
    let graph = resolve(vec![("repo-a", repo(vec![("web", web)]))]);
    let edge = graph.edges.iter().find(|e| e.kind == "shared-backing").unwrap();
    assert!(!graph.nodes.iter().any(|n| n.id == edge.to));
    assert!(!graph.warnings.is_empty());
}

#[test]
fn flows_mark_what_is_reachable_from_them() {
    let web = ServiceConfig { dependencies: vec![git(None, &["api"])], ..built() };
    let flow = FlowConfig { service: Some("web".to_string()), dependencies: vec![] };
    let graph = resolve(vec![(
        "shop",
        repo_with_flows(
            vec![("web", web), ("api", built()), ("batch", built())],
            vec![("checkout", flow)],
        ),
    )]);
    assert_eq!(node(&graph, "web.shop").flows.len(), 1);
    assert_eq!(node(&graph, "api.shop").flows, node(&graph, "web.shop").flows);
    assert!(node(&graph, "batch.shop").flows.is_empty());
}

#[test]
fn reachability_follows_edges_forward_only() {
    let edge = |from: &str, to: &str| Edge {
        from: from.to_string(),
        to: to.to_string(),
        kind: "depends-on".to_string(),
        branch: None,
        flows: vec![],
    };
    let edges = vec![edge("a", "b"), edge("b", "c"), edge("c", "a"), edge("d", "a")];
    let mut seen = reachable_from(&edges, "b");
    seen.sort();
    assert_eq!(seen, vec!["a", "b", "c"]);
    assert_eq!(reachable_from(&edges, "x"), vec!["x"]);
}

#[test]
fn an_environment_is_told_as_pairs() {
    let table = Environment::Table(pairs(vec![("B", "2".to_string()), ("A", "1".to_string())]));
    assert_eq!(to_pairs(&table), vec!["A=1", "B=2"]);
    let list = Environment::List(texts(&["B=2", "A=1"]));
    assert_eq!(to_pairs(&list), vec!["B=2", "A=1"]);
}

#[test]
fn a_repo_is_named_after_the_end_of_its_url() {
    assert_eq!(repo_name_from_url("https://example.com/acme/shop.git"), "shop");
    assert_eq!(repo_name_from_url("git@example.com:acme/shop.git.git"), "shop");
    assert_eq!(repo_name_from_url("https://example.com/acme/shop/"), "");
    assert_eq!(repo_name_from_url("shop"), "shop");
}

#[test]
fn urls_of_one_repo_are_normalized_alike() {
    let plain = normalize_repo_url("https://example.com/acme/shop");
    assert_eq!(normalize_repo_url("https://Example.com/Acme/Shop.git"), plain);
    assert_eq!(normalize_repo_url("git@example.com:acme/shop.git"), plain);
    assert_eq!(normalize_repo_url("ssh://git@example.com/acme/shop.git"), plain);
    assert_ne!(normalize_repo_url("https://example.com/acme/other"), plain);
}

#[test]
fn checkouts_are_directories_with_a_component_file() {
    let entry = |name: &str, is_dir: bool, has_component: bool| WorkspaceEntry {
        name: name.to_string(),
        is_dir,
        has_component,
    };
    let entries = vec![
        entry("shop", true, true),
        entry("notes", true, false),
        entry("fghj.yaml", false, true),
        entry("api", true, true),
    ];
    assert_eq!(checkouts(&entries), vec!["shop", "api"]);
}

#[test]
fn git_is_believed_only_where_it_succeeds() {
    let printed = |succeeded: bool, stdout: &[u8]| Printed { succeeded, stdout: stdout.to_vec() };
    assert_eq!(git_fact(&printed(true, b" main\n")).as_deref(), Some("main"));
    assert_eq!(git_fact(&printed(true, b"\xff\n")).as_deref(), Some("\u{FFFD}"));
    assert_eq!(git_fact(&printed(false, b"main\n")), None);
    assert!(!git_status_dirty(&printed(true, b"")));
    assert!(git_status_dirty(&printed(true, b" M a\n")));
    assert!(git_status_dirty(&printed(false, b"")));
}

#[test]
fn a_mirror_is_named_after_its_repo() {
    assert_eq!(mirror_path("https://example.com/acme/shop.git", "/work"), "/work/shop.git");
    assert_eq!(mirror_path("https://example.com/acme/shop", "/work"), "/work/shop.git");
    assert_eq!(
        mirror_failure("r", b"fatal: no\n"),
        "git clone --mirror failed for r: fatal: no"
    );
}

#[test]
fn two_references_to_a_missing_repo_share_one_stub() {
    let web = ServiceConfig {
        dependencies: vec![git(Some("https://example.com/acme/gone.git"), &[])],
        ..built()
    };
    let api = ServiceConfig {
        dependencies: vec![git(Some("git@example.com:Acme/Gone"), &["any"])],
        ..built()
    };
    let graph = resolve(vec![("repo-a", repo(vec![("api", api), ("web", web)]))]);
    let stubs: Vec<&Node> = graph.nodes.iter().filter(|n| !n.downloaded).collect();
    assert_eq!(stubs.len(), 1);
    assert_eq!(stubs[0].repo.as_deref(), Some("git@example.com:Acme/Gone"));
    for from in ["api.repo-a", "web.repo-a"] {
        assert!(graph.edges.iter().any(|e| e.from == from
            && e.to == stubs[0].id
            && e.kind == "depends-on"));
    }
    assert!(graph.warnings.is_empty());
}

#[test]
fn a_second_reference_to_a_missing_repo_adds_an_edge_and_nothing_else() {
    let mut scan = Scan { workspace_name: "ws".to_string(), repos: StrMap::new() };
    scan.repos.insert("repo-a".to_string(), repo(vec![("api", built()), ("web", built())]));
    let index = index_repos(&scan);
    let mut ctx = ResolveCtx::new();
    for n in resolve_universe(&scan).nodes {
        ctx.nodes.insert(n.id.clone(), n);
    }

    let first = "https://example.com/acme/gone.git";
    let id = ctx.visit_service_dependency(&scan, &index, "web.repo-a", first, "main", None);
    assert_eq!(id.as_deref(), Some("gone"));
    assert_eq!((ctx.nodes.len(), ctx.edges.len()), (3, 1));

    let second = "git@example.com:Acme/Gone";
    let again = ctx.visit_service_dependency(
        &scan,
        &index,
        "api.repo-a",
        second,
        "develop",
        Some("any"),
    );
    assert_eq!(again, id);
    assert_eq!((ctx.nodes.len(), ctx.edges.len()), (3, 2));
    let stub = ctx.nodes.get("gone").unwrap();
    assert!(!stub.downloaded);
    assert_eq!(stub.repo.as_deref(), Some(first));
    assert_eq!(stub.branch.as_deref(), Some("main"));
    let edge = &ctx.edges[1];
    assert_eq!((edge.from.as_str(), edge.to.as_str()), ("api.repo-a", "gone"));
    assert_eq!((edge.kind.as_str(), edge.branch.as_deref()), ("depends-on", Some("develop")));
    assert!(edge.flows.is_empty());
    assert!(ctx.warnings.is_empty());
}

#[test]
fn a_reference_leads_to_the_service_that_it_names() {
    let mut scan = Scan { workspace_name: "ws".to_string(), repos: StrMap::new() };
    scan.repos.insert("repo-a".to_string(), repo(vec![("web", built())]));
    scan.repos.insert("repo-b".to_string(), repo(vec![("api", built()), ("job", built())]));
    let index = index_repos(&scan);
    let mut ctx = ResolveCtx::new();
    for n in resolve_universe(&scan).nodes {
        ctx.nodes.insert(n.id.clone(), n);
    }
    let mut visit = |wanted: Option<&str>| {
        let url = "https://example.com/acme/repo-b";
        ctx.visit_service_dependency(&scan, &index, "web.repo-a", url, "main", wanted)
    };
    assert_eq!(visit(Some("job")).as_deref(), Some("job.repo-b"));
    assert_eq!(visit(None), None);
    assert_eq!(visit(Some("ghost")), None);
    assert_eq!((ctx.edges.len(), ctx.warnings.len()), (1, 2));
}
