use fghj::docker::{
    after_docker_call, combine_logs, container_is_missing, container_status, create_request,
    healthcheck_fits, network_is_there, on_build_step, restart_policy_name, BuildStep, DockerStep,
    NextCall, RestartPolicyName, RunOpts, MAX_SECONDS,
};
use fghj::resolver::graph::Healthcheck;
use fghj::strmap::StrMap;

fn texts(list: &[&str]) -> Vec<String> {
    list.iter().map(|s| s.to_string()).collect()
}

fn healthcheck(interval: Option<u64>) -> Healthcheck {
    Healthcheck {
        test: texts(&["CMD", "pg_isready"]),
        interval,
        timeout: None,
        start_period: Some(2),
        retries: Some(3),
    }
}

#[test]
fn a_container_is_asked_for_as_it_is_configured() {
    let none: Vec<String> = vec![];
    let aliases = texts(&["db", "db.shop"]);
    let env = texts(&["A=1"]);
    let ports = vec![("5432".to_string(), Some(15432)), ("80/udp".to_string(), None)];
    let command = texts(&["postgres", "-c", "fsync=off"]);
    let mut labels = StrMap::new();
    labels.insert("team".to_string(), "platform".to_string());
    labels.insert("com.docker.compose.project".to_string(), "mine".to_string());
    let hc = healthcheck(Some(5));
    let r = create_request(&RunOpts {
        name: "fghj-db-1",
        network: "fghj-net",
        aliases: &aliases,
        env: &env,
        ports: &ports,
        image: "postgres:16",
        command: &command,
        project: "fghj-shop-default",
        service_name: "db",
        binds: &none,
        restart_policy: "always",
        user: Some("1000"),
        working_dir: None,
        labels: &labels,
        cap_add: &env,
        cap_drop: &none,
        privileged: true,
        extra_hosts: &none,
        healthcheck: Some(&hc),
        platform: Some("linux/arm64"),
    });
    assert_eq!(r.name, "fghj-db-1");
    assert_eq!(r.image, "postgres:16");
    assert_eq!(r.cmd, Some(command));
    assert_eq!(r.env, env);
    assert_eq!(r.exposed_ports, vec!["5432/tcp", "80/tcp"]);
    assert_eq!(r.user.as_deref(), Some("1000"));
    assert_eq!(r.working_dir, None);
    assert_eq!(r.platform.as_deref(), Some("linux/arm64"));
    let fixed = r.port_bindings.get("5432/tcp").unwrap();
    assert_eq!((fixed.host_ip.as_str(), fixed.host_port.as_deref()), ("127.0.0.1", Some("15432")));
    assert_eq!(r.port_bindings.get("80/tcp").unwrap().host_port, None);
    assert_eq!(r.binds, None);
    assert_eq!(r.cap_add, Some(env));
    assert_eq!(r.cap_drop, None);
    assert!(r.privileged);
    assert_eq!(r.extra_hosts, None);
    assert_eq!((r.network.as_str(), r.aliases), ("fghj-net", aliases));
    assert_eq!(r.restart_policy, RestartPolicyName::Always);
    let health = r.healthcheck.unwrap();
    assert_eq!(health.test, vec!["CMD", "pg_isready"]);
    assert_eq!(health.interval, Some(5_000_000_000));
    assert_eq!(health.timeout, None);
    assert_eq!(health.start_period, Some(2_000_000_000));
    assert_eq!(health.retries, Some(3));
    assert_eq!(r.labels.get("team").unwrap(), "platform");
    assert_eq!(
        r.labels.get("com.docker.compose.project").unwrap(),
        "fghj-shop-default",
        "the grouping labels win over declared ones"
    );
    assert_eq!(r.labels.get("com.docker.compose.service").unwrap(), "db");
    assert_eq!(r.labels.get("com.docker.compose.oneoff").unwrap(), "False");
}

#[test]
fn an_empty_command_leaves_the_image_s_own() {
    let none: Vec<String> = vec![];
    let ports = vec![];
    let labels = StrMap::new();
    let r = create_request(&RunOpts {
        name: "n",
        network: "net",
        aliases: &none,
        env: &none,
        ports: &ports,
        image: "i",
        command: &none,
        project: "p",
        service_name: "s",
        binds: &none,
        restart_policy: "whatever",
        user: None,
        working_dir: None,
        labels: &labels,
        cap_add: &none,
        cap_drop: &none,
        privileged: false,
        extra_hosts: &none,
        healthcheck: None,
        platform: None,
    });
    assert_eq!(r.cmd, None);
    assert!(r.healthcheck.is_none());
    assert_eq!(r.restart_policy, RestartPolicyName::No);
    assert!(r.exposed_ports.is_empty() && r.port_bindings.is_empty());
}

#[test]
fn restart_policies_are_named() {
    assert_eq!(restart_policy_name("always"), RestartPolicyName::Always);
    assert_eq!(restart_policy_name("on-failure"), RestartPolicyName::OnFailure);
    assert_eq!(restart_policy_name("unless-stopped"), RestartPolicyName::UnlessStopped);
    assert_eq!(restart_policy_name("no"), RestartPolicyName::No);
    assert_eq!(restart_policy_name(""), RestartPolicyName::No);
}

#[test]
fn a_probe_s_times_are_counted_in_nanoseconds_as_far_as_they_go() {
    assert!(healthcheck_fits(&healthcheck(Some(MAX_SECONDS))));
    assert!(!healthcheck_fits(&healthcheck(Some(MAX_SECONDS + 1))));
}

#[test]
fn an_inspection_gives_status_and_port() {
    let mut ports = StrMap::new();
    ports.insert("8080/tcp".to_string(), vec![Some("49153".to_string()), Some("1".to_string())]);
    ports.insert("53/udp".to_string(), vec![Some("5353".to_string())]);
    ports.insert("9090/tcp".to_string(), vec![]);
    ports.insert("70/tcp".to_string(), vec![None]);
    ports.insert("71/tcp".to_string(), vec![Some("x".to_string())]);
    let published = |port: &str| {
        container_status(Some("running".to_string()), &ports, port).published_port
    };
    assert_eq!(published("8080"), Some(49153));
    assert_eq!(published("8080/tcp"), Some(49153));
    assert_eq!(published("53/udp"), Some(5353));
    for port in ["53", "9090", "70", "71", "1"] {
        assert_eq!(published(port), None);
    }
    assert_eq!(container_status(None, &ports, "1").status, "unknown");
    assert_eq!(container_status(Some("exited".to_string()), &ports, "1").status, "exited");
}

#[test]
fn refusals_of_docker_are_told_apart() {
    assert!(network_is_there(409) && !network_is_there(404));
    assert!(container_is_missing(404) && !container_is_missing(409));
}

#[test]
fn logs_are_put_together_up_to_the_first_failure() {
    let items = vec![
        Ok("a\n".to_string()),
        Ok("b\n".to_string()),
        Err("torn".to_string()),
        Ok("c\n".to_string()),
    ];
    assert_eq!(combine_logs(&items), "a\nb\n[fghj: log read error: torn]\n");
    assert_eq!(combine_logs(&vec![]), "");
}

#[test]
fn a_build_ends_with_the_first_failure() {
    assert_eq!(on_build_step("web:1", &BuildStep::Progress), Ok(()));
    assert_eq!(
        on_build_step("web:1", &BuildStep::Failed(Some("no space".to_string()))),
        Err("docker build -t web:1 failed: no space".to_string())
    );
    assert_eq!(
        on_build_step("web:1", &BuildStep::Failed(None)),
        Err("docker build -t web:1 failed: ".to_string())
    );
}

#[test]
fn a_container_is_started_once_created_and_removed_if_either_fails() {
    assert_eq!(after_docker_call(DockerStep::Create, true), NextCall::Start);
    assert_eq!(after_docker_call(DockerStep::Start, true), NextCall::Done);
    assert_eq!(after_docker_call(DockerStep::Create, false), NextCall::RemoveAndFail);
    assert_eq!(after_docker_call(DockerStep::Start, false), NextCall::RemoveAndFail);
}
