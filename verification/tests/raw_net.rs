use std::collections::HashMap;

use fghj::raw_net::macos::{
    diff_ips, hook_to_install, hook_to_remove, in_pool, install_anchor_hook, parse_ipv4,
    parse_pool_aliases, pf_status_enabled, render_ruleset, sorted_addresses, strip_managed_block,
    MacosPfBackend, ANCHOR_HOOK_LINE, HOOK_MARKER_BEGIN, HOOK_MARKER_END,
};
use fghj::raw_net::{
    address_of_digest, assign, clear, ipv4, ipv4_text, octets, pick_ip, reconcile, resolve,
    routes_for, virtual_ip_for, NoopBackend, RawEndpoint, RouteSpec,
};
use fghj::strmap::StrMap;

#[test]
fn virtual_ip_for_is_deterministic() {
    let a = virtual_ip_for("minio.myworkspace.fghj.raw.internal");
    let b = virtual_ip_for("minio.myworkspace.fghj.raw.internal");
    assert_eq!(a, b);
}

#[test]
fn virtual_ip_for_lands_inside_the_pool() {
    for name in [
        "minio.myworkspace.fghj.raw.internal",
        "postgres.otherrun.myworkspace.fghj.raw.internal",
        "",
        "a-very-long-domain-name-with-many-labels.deep.sub.myworkspace.fghj.raw.internal",
    ] {
        let ip = virtual_ip_for(name);
        let (a, b, _, _) = octets(ip);
        assert_eq!(a, 10, "{name} produced {ip}, outside 10.222.0.0/16");
        assert_eq!(b, 222, "{name} produced {ip}, outside 10.222.0.0/16");
    }
}

#[test]
fn virtual_ip_for_differs_across_distinct_names() {
    let a = virtual_ip_for("minio.myworkspace.fghj.raw.internal");
    let b = virtual_ip_for("postgres.myworkspace.fghj.raw.internal");
    assert_ne!(a, b);
}

#[test]
fn virtual_ip_for_reads_the_first_bytes_of_the_digest() {
    // The digest of the empty text begins with e3 b0 c4 42.
    let expected = address_of_digest(&[0xe3, 0xb0, 0xc4, 0x42]);
    assert_eq!(virtual_ip_for(""), expected);
    let n = 0xe3b0_c442u32 % 65534 + 1;
    assert_eq!(expected, ipv4(10, 222, 0, 0) + n);
}

fn ports(list: &[(&str, u16)]) -> StrMap<u16> {
    let mut map = StrMap::new();
    for (port, host_port) in list {
        map.insert(port.to_string(), *host_port);
    }
    map
}

#[test]
fn routes_for_builds_one_route_per_declared_port() {
    let endpoints = vec![RawEndpoint {
        raw_domain: "minio.myworkspace.fghj.raw.internal".to_string(),
        ports: ports(&[("9000", 54321), ("9001", 54322)]),
    }];
    let expected_ip = virtual_ip_for("minio.myworkspace.fghj.raw.internal");
    let mut assigned = StrMap::new();
    assigned.insert("minio.myworkspace.fghj.raw.internal".to_string(), expected_ip);
    let routes = routes_for(&endpoints, &assigned);
    assert_eq!(routes.len(), 2);
    assert!(routes.contains(&RouteSpec {
        virtual_ip: expected_ip,
        container_port: 9000,
        host_port: 54321,
    }));
    assert!(routes.contains(&RouteSpec {
        virtual_ip: expected_ip,
        container_port: 9001,
        host_port: 54322,
    }));
}

#[test]
fn routes_for_falls_back_to_the_naive_hash_when_unassigned() {
    let endpoints = vec![RawEndpoint {
        raw_domain: "minio.myworkspace.fghj.raw.internal".to_string(),
        ports: ports(&[("9000", 54321)]),
    }];
    let routes = routes_for(&endpoints, &StrMap::new());
    assert_eq!(routes[0].virtual_ip, virtual_ip_for("minio.myworkspace.fghj.raw.internal"));
}

#[test]
fn routes_for_skips_unparseable_ports_rather_than_erroring() {
    let endpoints = vec![RawEndpoint {
        raw_domain: "weird.myworkspace.fghj.raw.internal".to_string(),
        ports: ports(&[("not-a-port", 1234)]),
    }];
    assert!(routes_for(&endpoints, &StrMap::new()).is_empty());
}

fn some_route() -> RouteSpec {
    RouteSpec { virtual_ip: ipv4(10, 222, 1, 1), container_port: 9000, host_port: 54321 }
}

#[test]
fn noop_backend_only_warns_when_routes_are_non_empty() {
    let mut backend = NoopBackend::new();
    assert!(!backend.apply(&vec![]));
    assert!(backend.status().is_empty());
    assert!(backend.apply(&vec![some_route()]));
    assert!(!backend.apply(&vec![some_route()]), "it warns once");
    assert!(backend.status().is_empty());
}

fn endpoint(name: &str, port: u16) -> RawEndpoint {
    RawEndpoint { raw_domain: name.to_string(), ports: ports(&[(&port.to_string(), 1)]) }
}

fn find_colliding_pair() -> (String, String) {
    let mut seen: HashMap<u32, String> = HashMap::new();
    for i in 0.. {
        let name = format!("svc-{i}.myworkspace.fghj.raw.internal");
        let ip = virtual_ip_for(&name);
        if let Some(other) = seen.get(&ip) {
            return (other.clone(), name);
        }
        seen.insert(ip, name);
    }
    unreachable!()
}

#[test]
fn pick_ip_keeps_the_preferred_slot_when_free() {
    let preferred = ipv4(10, 222, 1, 1);
    let naive = ipv4(10, 222, 2, 2);
    let ip = pick_ip(Some(preferred), naive, &vec![80], &vec![]);
    assert_eq!(ip, preferred);
}

#[test]
fn pick_ip_probes_forward_when_the_preferred_slot_conflicts() {
    let preferred = ipv4(10, 222, 1, 1);
    let naive = ipv4(10, 222, 1, 1);
    let claimed = vec![(preferred, 80)];
    let ip = pick_ip(Some(preferred), naive, &vec![80], &claimed);
    assert_ne!(ip, preferred);
    assert!(!claimed.contains(&(ip, 80)));
    assert_eq!(ip, ipv4(10, 222, 1, 2));
}

#[test]
fn pick_ip_probes_past_the_end_of_the_pool() {
    let last = ipv4(10, 222, 255, 254);
    let ip = pick_ip(None, last, &vec![80], &vec![(last, 80)]);
    assert_eq!(ip, ipv4(10, 222, 0, 1));
}

#[test]
fn pick_ip_ignores_conflicts_on_ports_it_does_not_use() {
    let preferred = ipv4(10, 222, 1, 1);
    let claimed = vec![(preferred, 443)];
    let ip = pick_ip(Some(preferred), preferred, &vec![80], &claimed);
    assert_eq!(ip, preferred);
}

#[test]
fn assign_gives_new_uncontested_names_their_naive_hash() {
    let endpoints = vec![endpoint("solo.myworkspace.fghj.raw.internal", 80)];
    let assigned = assign(&endpoints, &StrMap::new());
    assert_eq!(
        *assigned.get("solo.myworkspace.fghj.raw.internal").unwrap(),
        virtual_ip_for("solo.myworkspace.fghj.raw.internal")
    );
}

#[test]
fn assign_drops_entries_for_names_no_longer_active() {
    let mut previous = StrMap::new();
    previous.insert("gone.myworkspace.fghj.raw.internal".to_string(), ipv4(10, 222, 9, 9));
    assert!(assign(&vec![], &previous).is_empty());
}

#[test]
fn assign_resolves_a_fresh_collision_by_moving_one_name() {
    let (a, b) = find_colliding_pair();
    let endpoints = vec![endpoint(&a, 80), endpoint(&b, 80)];

    let assigned = assign(&endpoints, &StrMap::new());
    assert_ne!(
        assigned.get(&a),
        assigned.get(&b),
        "colliding names sharing a port must end up on different virtual IPs"
    );
    let naive = virtual_ip_for(&a);
    assert!(*assigned.get(&a).unwrap() != naive || *assigned.get(&b).unwrap() != naive);
}

#[test]
fn assign_does_not_collide_two_names_on_different_ports() {
    let (a, b) = find_colliding_pair();
    let endpoints = vec![endpoint(&a, 80), endpoint(&b, 81)];
    let assigned = assign(&endpoints, &StrMap::new());
    assert_eq!(*assigned.get(&a).unwrap(), virtual_ip_for(&a));
    assert_eq!(*assigned.get(&b).unwrap(), virtual_ip_for(&b));
}

#[test]
fn assign_keeps_an_incumbent_when_its_collision_partner_disappears() {
    let (a, b) = find_colliding_pair();
    let endpoints = vec![endpoint(&a, 80), endpoint(&b, 80)];
    let first_round = assign(&endpoints, &StrMap::new());

    let remaining = vec![endpoint(&b, 80)];
    let second_round = assign(&remaining, &first_round);

    assert_eq!(
        second_round.get(&b),
        first_round.get(&b),
        "removing an unrelated collision partner shouldn't reassign the survivor"
    );
}

#[test]
fn resolve_falls_back_to_the_naive_hash_for_unknown_names() {
    let name = "unknown-to-resolve-test.fghj.raw.internal";
    assert_eq!(resolve(&StrMap::new(), name), virtual_ip_for(name));
}

#[test]
fn reconcile_fills_the_table_and_clear_empties_it() {
    let mut table = StrMap::new();
    let routes = reconcile(&mut table, &vec![endpoint("db.fghj.raw.internal", 5432)]);
    let ip = virtual_ip_for("db.fghj.raw.internal");
    assert_eq!(table.get("db.fghj.raw.internal"), Some(&ip));
    assert_eq!(
        routes,
        vec![RouteSpec { virtual_ip: ip, container_port: 5432, host_port: 1 }]
    );
    clear(&mut table);
    assert!(table.is_empty());
}

#[test]
fn diff_ips_computes_additions_and_removals() {
    let current = vec![ipv4(10, 222, 0, 1), ipv4(10, 222, 0, 2)];
    let desired = vec![ipv4(10, 222, 0, 2), ipv4(10, 222, 0, 3)];

    let (add, remove) = diff_ips(&current, &desired);
    assert_eq!(add, vec![ipv4(10, 222, 0, 3)]);
    assert_eq!(remove, vec![ipv4(10, 222, 0, 1)]);
}

#[test]
fn diff_ips_is_empty_when_sets_match() {
    let set = vec![ipv4(10, 222, 0, 1)];
    let (add, remove) = diff_ips(&set, &set);
    assert!(add.is_empty());
    assert!(remove.is_empty());
}

#[test]
fn addresses_are_sorted_and_told_once() {
    assert_eq!(sorted_addresses(&vec![9, 3, 9, 1]), vec![1, 3, 9]);
}

#[test]
fn render_ruleset_formats_one_rdr_line_per_route() {
    assert_eq!(
        render_ruleset(&vec![some_route()]),
        "rdr pass on lo0 inet proto tcp from any to 10.222.1.1 port 9000 -> 127.0.0.1 port 54321\n"
    );
}

#[test]
fn render_ruleset_of_no_routes_is_empty() {
    assert_eq!(render_ruleset(&vec![]), "");
}

#[test]
fn parse_pool_aliases_extracts_only_pool_range_addresses() {
    let output = "\tinet 127.0.0.1 netmask 0xff000000\n\
                  \tinet 10.222.5.9 netmask 0xffffffff\n\
                  \tinet 192.168.1.1 netmask 0xffffff00\n";
    assert_eq!(parse_pool_aliases(output), vec![ipv4(10, 222, 5, 9)]);
}

#[test]
fn in_pool_matches_only_10_222_range() {
    assert!(in_pool(ipv4(10, 222, 0, 1)));
    assert!(!in_pool(ipv4(10, 223, 0, 1)));
    assert!(!in_pool(ipv4(127, 0, 0, 1)));
}

#[test]
fn an_address_is_read_and_written() {
    let chars = |s: &str| s.chars().collect::<Vec<char>>();
    assert_eq!(parse_ipv4(&chars("10.222.5.9")), Some(ipv4(10, 222, 5, 9)));
    assert_eq!(parse_ipv4(&chars("10.222.5")), None);
    assert_eq!(parse_ipv4(&chars("10.222.5.256")), None);
    assert_eq!(parse_ipv4(&chars("10.222.05.9")), None);
    assert_eq!(parse_ipv4(&chars("")), None);
    assert_eq!(ipv4_text(ipv4(10, 222, 5, 9)), "10.222.5.9");
    assert_eq!(octets(0x7f00_0001), (127, 0, 0, 1));
}

const SAMPLE_PF_CONF: &str = "#\n\
    # Default PF configuration file.\n\
    #\n\
    \n\
    scrub-anchor \"com.apple/*\"\n\
    nat-anchor \"com.apple/*\"\n\
    rdr-anchor \"com.apple/*\"\n\
    dummynet-anchor \"com.apple/*\"\n\
    anchor \"com.apple/*\"\n\
    load anchor \"com.apple\" from \"/etc/pf.anchors/com.apple\"\n";

#[test]
fn install_anchor_hook_inserts_after_the_last_translation_hook() {
    let out = install_anchor_hook(SAMPLE_PF_CONF);
    let lines: Vec<&str> = out.lines().collect();
    let rdr_anchor_idx =
        lines.iter().position(|l| *l == "rdr-anchor \"com.apple/*\"").unwrap();
    let dummynet_idx =
        lines.iter().position(|l| *l == "dummynet-anchor \"com.apple/*\"").unwrap();
    assert_eq!(lines[rdr_anchor_idx + 1], HOOK_MARKER_BEGIN);
    assert_eq!(lines[rdr_anchor_idx + 2], ANCHOR_HOOK_LINE);
    assert_eq!(lines[rdr_anchor_idx + 3], HOOK_MARKER_END);
    assert_eq!(lines[rdr_anchor_idx + 4], "dummynet-anchor \"com.apple/*\"");
    assert!(dummynet_idx > rdr_anchor_idx);
}

#[test]
fn strip_managed_block_restores_pristine_content() {
    let with_hook = install_anchor_hook(SAMPLE_PF_CONF);
    let restored = strip_managed_block(&with_hook);
    assert_eq!(restored, SAMPLE_PF_CONF);
}

#[test]
fn install_anchor_hook_reapplied_does_not_duplicate_the_block() {
    let once = install_anchor_hook(SAMPLE_PF_CONF);
    let twice = install_anchor_hook(&once);
    assert_eq!(once, twice);
    assert_eq!(twice.matches(HOOK_MARKER_BEGIN).count(), 1);
}

#[test]
fn install_anchor_hook_preserves_unrelated_content_around_the_block() {
    let out = install_anchor_hook(SAMPLE_PF_CONF);
    assert!(out.contains("# Default PF configuration file."));
    assert!(out.contains("load anchor \"com.apple\" from \"/etc/pf.anchors/com.apple\""));
}

#[test]
fn install_anchor_hook_falls_back_to_before_the_first_anchor_line() {
    let conf = "anchor \"com.apple/*\"\nload anchor \"com.apple\" from \"/etc/pf.anchors/com.apple\"\n";
    let out = install_anchor_hook(conf);
    let lines: Vec<&str> = out.lines().collect();
    assert_eq!(lines[0], HOOK_MARKER_BEGIN);
    assert_eq!(lines[1], ANCHOR_HOOK_LINE);
    assert_eq!(lines[2], HOOK_MARKER_END);
    assert_eq!(lines[3], "anchor \"com.apple/*\"");
}

#[test]
fn the_hook_is_written_only_where_it_changes_something() {
    let installed = hook_to_install(SAMPLE_PF_CONF).unwrap();
    assert_eq!(hook_to_install(&installed), None);
    assert_eq!(hook_to_remove(&installed).as_deref(), Some(SAMPLE_PF_CONF));
    assert_eq!(hook_to_remove(SAMPLE_PF_CONF), None);
}

#[test]
fn the_packet_filter_is_turned_off_only_by_whom_it_was_turned_on() {
    let mut backend = MacosPfBackend::new();
    let listing = "\tinet 10.222.5.9 netmask 0xffffffff\n";
    let changes = backend.plan(&vec![some_route()], listing);
    assert_eq!(changes.add, vec![ipv4(10, 222, 1, 1)]);
    assert_eq!(changes.remove, vec![ipv4(10, 222, 5, 9)]);
    assert!(changes.needs_pf);
    assert_eq!(backend.record_enable(false, "pfctl: pf already enabled\n"), Ok(()));
    backend.record_applied(changes.routes);
    assert_eq!(backend.status(), vec![some_route()]);
    assert!(!backend.clear());
    assert!(backend.status().is_empty());
    assert_eq!(backend.record_enable(true, ""), Ok(()));
    assert!(backend.clear());
    assert!(!backend.clear());
    assert_eq!(
        backend.record_enable(false, " permission denied\n"),
        Err("pfctl -e failed: permission denied".to_string())
    );
    let nothing = backend.plan(&vec![], listing);
    assert!(!nothing.needs_pf);
    assert_eq!(nothing.remove, vec![ipv4(10, 222, 5, 9)]);
}

#[test]
fn the_packet_filter_s_report_is_read() {
    assert!(pf_status_enabled("Status: Enabled for 0 days\n"));
    assert!(!pf_status_enabled("Status: Disabled\n"));
}

#[test]
fn every_survivor_keeps_its_address_in_whatever_order_they_come() {
    let (a, b) = find_colliding_pair();
    let c = "minio.myworkspace.fghj.raw.internal".to_string();
    let all = vec![endpoint(&a, 80), endpoint(&b, 80), endpoint(&c, 80)];
    let first = assign(&all, &StrMap::new());
    for survivors in [vec![&c, &b], vec![&b, &a], vec![&c, &b, &a], vec![&a]] {
        let list: Vec<RawEndpoint> = survivors.iter().map(|n| endpoint(n, 80)).collect();
        let second = assign(&list, &first);
        assert_eq!(second.len(), list.len());
        for name in survivors {
            assert_eq!(second.get(name), first.get(name));
        }
    }
}

#[test]
fn the_order_of_the_endpoints_does_not_matter() {
    let (a, b) = find_colliding_pair();
    let forward = assign(&vec![endpoint(&a, 80), endpoint(&b, 80)], &StrMap::new());
    let backward = assign(&vec![endpoint(&b, 80), endpoint(&a, 80)], &StrMap::new());
    assert_eq!(forward.get(&a), backward.get(&a));
    assert_eq!(forward.get(&b), backward.get(&b));
    assert_ne!(forward.get(&a), forward.get(&b));
}

#[test]
fn endpoints_of_many_ports_share_no_address_and_port() {
    let (a, b) = find_colliding_pair();
    let many: Vec<(String, u16)> = (1..400u16).map(|p| (p.to_string(), p)).collect();
    let listed: Vec<(&str, u16)> = many.iter().map(|(k, p)| (k.as_str(), *p)).collect();
    let endpoints = vec![
        RawEndpoint { raw_domain: a.clone(), ports: ports(&listed) },
        RawEndpoint { raw_domain: b.clone(), ports: ports(&listed) },
    ];
    let table = assign(&endpoints, &StrMap::new());
    assert_ne!(table.get(&a), table.get(&b));
}

#[test]
fn the_hook_is_installed_once_whatever_blocks_were_there() {
    let torn = format!(
        "{HOOK_MARKER_BEGIN}\nold\n{HOOK_MARKER_END}\nset skip on lo0\n{HOOK_MARKER_BEGIN}\nold\n"
    );
    for conf in ["", SAMPLE_PF_CONF, torn.as_str()] {
        let installed = install_anchor_hook(conf);
        assert_eq!(installed.lines().filter(|l| *l == HOOK_MARKER_BEGIN).count(), 1);
    }
}
