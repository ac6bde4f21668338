use fghj::dns::{
    build_response, cert_eligible, clear_os_resolver_config, in_zone, install_os_resolver_config,
    is_fghjd_resolver_content, is_reserved_alias, managed_resolver_zones, matches_zone,
    parse_fghjd_resolver_port, parse_query, react, resolver_content, sync_resolver_files,
    to_ascii_lower, Reaction, ResolverChanges, ANSWER, CLASS_IN, TYPE_A, ZONE, ZONE_RAW,
};
use fghj::raw_net::ipv4;
use fghj::sidecar::{FileRoutes, RouteFileEntry};
use fghj::strmap::StrMap;

fn encode_query(id: u16, name: &str, qtype: u16) -> Vec<u8> {
    let mut buf = Vec::new();
    buf.extend(id.to_be_bytes());
    buf.push(0x01);
    buf.push(0x00);
    buf.extend(1u16.to_be_bytes());
    buf.extend(0u16.to_be_bytes());
    buf.extend(0u16.to_be_bytes());
    buf.extend(0u16.to_be_bytes());
    for label in name.split('.') {
        buf.push(label.len() as u8);
        buf.extend(label.as_bytes());
    }
    buf.push(0);
    buf.extend(qtype.to_be_bytes());
    buf.extend(CLASS_IN.to_be_bytes());
    buf
}

fn header_flags(resp: &[u8]) -> (u8, u8) {
    (resp[2], resp[3])
}

fn ancount(resp: &[u8]) -> u16 {
    u16::from_be_bytes([resp[6], resp[7]])
}

#[test]
fn is_reserved_alias_matches_special_use_tlds_only() {
    assert!(is_reserved_alias("aikido.local"));
    assert!(is_reserved_alias("deep.sub.aikido.local"));
    assert!(is_reserved_alias("demo.test"));
    assert!(is_reserved_alias("demo.internal"));
    assert!(is_reserved_alias("demo.localhost"));
    assert!(
        !is_reserved_alias("app.local.aikido.io"),
        "the TLD is .io, not .local — the last label is what counts"
    );
    assert!(!is_reserved_alias("aikido.io"));
    assert!(!is_reserved_alias("example.com"));
}

#[test]
fn in_zone_matches_apex_and_subdomains_only() {
    assert!(in_zone("fghj.internal"));
    assert!(in_zone("cart.fghj.internal"));
    assert!(in_zone("deep.sub.cart.fghj.internal"));
    assert!(!in_zone("fghj.internal.evil.com"));
    assert!(!in_zone("notfghj.internal"));
    assert!(!in_zone("example.com"));
}

#[test]
fn a_query_in_zone_resolves_to_localhost() {
    let raw = encode_query(0x1234, "cart.fghj.internal", TYPE_A);
    let query = parse_query(&raw).expect("valid query parses");
    assert_eq!(query.qname, "cart.fghj.internal");

    let resp = build_response(&query, Some(ANSWER));
    let (flags0, flags1) = header_flags(&resp);
    assert_eq!(flags0 & 0x80, 0x80, "QR bit must be set on a response");
    assert_eq!(flags0 & 0x04, 0x04, "AA bit must be set for our own zone");
    assert_eq!(flags1 & 0x0F, 0, "RCODE must be NOERROR");
    assert_eq!(ancount(&resp), 1);
    assert_eq!(&resp[resp.len() - 4..], &[127, 0, 0, 1]);
}

#[test]
fn apex_domain_also_resolves() {
    let raw = encode_query(1, "fghj.internal", TYPE_A);
    let query = parse_query(&raw).unwrap();
    let resp = build_response(&query, Some(ANSWER));
    assert_eq!(ancount(&resp), 1);
}

#[test]
fn non_a_query_in_zone_is_noerror_with_no_answer() {
    const TYPE_AAAA: u16 = 28;
    let raw = encode_query(2, "cart.fghj.internal", TYPE_AAAA);
    let query = parse_query(&raw).unwrap();
    let resp = build_response(&query, Some(ANSWER));
    let (_, flags1) = header_flags(&resp);
    assert_eq!(flags1 & 0x0F, 0, "name exists, so RCODE should still be NOERROR");
    assert_eq!(ancount(&resp), 0, "no AAAA record exists for this zone");
}

#[test]
fn query_outside_zone_is_nxdomain() {
    let raw = encode_query(3, "example.com", TYPE_A);
    let query = parse_query(&raw).unwrap();
    let resp = build_response(&query, None);
    let (flags0, flags1) = header_flags(&resp);
    assert_eq!(flags0 & 0x04, 0, "must not claim authority outside our zone");
    assert_eq!(flags1 & 0x0F, 3, "RCODE must be NXDOMAIN");
    assert_eq!(ancount(&resp), 0);
}

#[test]
fn response_echoes_request_id_and_question() {
    let raw = encode_query(0xBEEF, "auth.fghj.internal", TYPE_A);
    let query = parse_query(&raw).unwrap();
    let resp = build_response(&query, Some(ANSWER));
    assert_eq!(u16::from_be_bytes([resp[0], resp[1]]), 0xBEEF);
    assert_eq!(&resp[12..12 + query.question_bytes.len()], &query.question_bytes[..]);
}

#[test]
fn multi_question_packets_are_rejected() {
    let mut raw = encode_query(4, "cart.fghj.internal", TYPE_A);
    raw[4] = 0;
    raw[5] = 2;
    assert!(parse_query(&raw).is_none());
}

#[test]
fn a_query_under_an_active_wildcard_zone_resolves_to_localhost() {
    let raw = encode_query(5, "acme.myservice.local", TYPE_A);
    let query = parse_query(&raw).unwrap();

    let resp = build_response(&query, Some(ANSWER));
    let (flags0, flags1) = header_flags(&resp);
    assert_eq!(flags0 & 0x04, 0x04, "AA bit must be set for an active zone");
    assert_eq!(flags1 & 0x0F, 0, "RCODE must be NOERROR");
    assert_eq!(ancount(&resp), 1);

    let resp = build_response(&query, None);
    let (_, flags1) = header_flags(&resp);
    assert_eq!(flags1 & 0x0F, 3, "RCODE must be NXDOMAIN once inactive");
}

#[test]
fn a_response_is_exact() {
    let raw = encode_query(0x0102, "a.b", TYPE_A);
    let query = parse_query(&raw).unwrap();
    let resp = build_response(&query, Some(ipv4(10, 0, 0, 7)));
    let mut expected = vec![0x01, 0x02, 0x85, 0x00, 0, 1, 0, 1, 0, 0, 0, 0];
    expected.extend([1, b'a', 1, b'b', 0, 0, 1, 0, 1]);
    expected.extend([0xC0, 0x0C, 0, 1, 0, 1, 0, 0, 0, 5, 0, 4, 10, 0, 0, 7]);
    assert_eq!(resp, expected);
}

#[test]
fn a_query_that_cannot_be_read_is_rejected() {
    let raw = encode_query(4, "cart.fghj.internal", TYPE_A);
    assert!(parse_query(&raw[..11]).is_none());
    assert!(parse_query(&raw[..raw.len() - 1]).is_none());
    let mut compressed = raw.clone();
    compressed[12] = 0xC0;
    assert!(parse_query(&compressed).is_none());
    let mut opcode = raw.clone();
    opcode[2] = 0x09;
    assert_eq!(parse_query(&opcode).unwrap().opcode, 1);
}

#[test]
fn a_queried_name_is_read_as_it_is_and_looked_up_in_lower_case() {
    let mut raw = encode_query(4, "Checkout.FGHJ.internal", TYPE_A);
    assert_eq!(parse_query(&raw).unwrap().qname, "Checkout.FGHJ.internal");
    assert!(matches!(react(&raw, &routes(ANSWER), true), Reaction::Respond(_)));
    raw[13] = 0xFF;
    assert_eq!(parse_query(&raw).unwrap().qname, "\u{FFFD}heckout.FGHJ.internal");
    assert_eq!(to_ascii_lower("ÀB"), "Àb");
}

fn routes(own_ip: u32) -> FileRoutes {
    FileRoutes {
        own_ip,
        routes: vec![RouteFileEntry {
            lookup: "checkout.fghj.internal".to_string(),
            wildcard: false,
            connect_host: "checkout".to_string(),
            connect_port: 8080,
        }],
    }
}

#[test]
fn a_known_name_is_answered_with_the_source_s_own_address() {
    let query = encode_query(0x1111, "checkout.fghj.internal", TYPE_A);
    match react(&query, &routes(ipv4(172, 20, 0, 5)), true) {
        Reaction::Respond(resp) => assert_eq!(&resp[resp.len() - 4..], &[172, 20, 0, 5]),
        _ => panic!("expected a response"),
    }
}

#[test]
fn an_unknown_name_is_forwarded_where_there_is_an_upstream() {
    let query = encode_query(0x2222, "some-plain-docker-service", TYPE_A);
    let zones = routes(ANSWER);
    assert!(matches!(react(&query, &zones, true), Reaction::Forward));
    match react(&query, &zones, false) {
        Reaction::Respond(resp) => assert_eq!(resp[3] & 0x0F, 3),
        _ => panic!("expected a response"),
    }
    assert!(matches!(react(&query[..5], &zones, true), Reaction::Ignore));
}

fn apply(files: &mut StrMap<String>, changes: ResolverChanges) {
    for zone in &changes.write {
        files.insert(zone.clone(), changes.content.clone());
    }
    for zone in &changes.remove {
        files.remove(zone);
    }
}

fn sync(files: &mut StrMap<String>, port: u16, zones: &[&str]) {
    let zones = zones.iter().map(|z| z.to_string()).collect();
    let changes = sync_resolver_files(files, port, &zones);
    apply(files, changes);
}

#[test]
fn sync_macos_resolver_is_idempotent_and_writes_expected_content() {
    let mut files = StrMap::new();
    sync(&mut files, 54321, &[ZONE]);
    let contents = files.get(ZONE).unwrap().clone();
    assert_eq!(contents, "nameserver 127.0.0.1\nport 54321\n");

    let again = sync_resolver_files(&files, 54321, &vec![ZONE.to_string()]);
    assert!(again.write.is_empty());
    assert!(again.remove.is_empty());
    sync(&mut files, 54321, &[ZONE]);
    assert_eq!(files.get(ZONE).unwrap(), &contents);
}

#[test]
fn sync_macos_resolver_writes_multiple_zones_and_prunes_stale_ones() {
    let mut files = StrMap::new();
    sync(&mut files, 1234, &[ZONE, "myservice.local"]);
    assert!(files.contains_key(ZONE));
    assert!(files.contains_key("myservice.local"));

    files.insert("example.com".to_string(), "nameserver 8.8.8.8\n".to_string());

    sync(&mut files, 1234, &[ZONE]);
    assert!(files.contains_key(ZONE));
    assert!(!files.contains_key("myservice.local"));
    assert_eq!(files.get("example.com").unwrap(), "nameserver 8.8.8.8\n");
}

#[test]
fn clear_macos_resolver_removes_only_fghjd_authored_files() {
    let mut files = StrMap::new();
    sync(&mut files, 1234, &[ZONE, "myservice.local"]);
    files.insert("example.com".to_string(), "nameserver 8.8.8.8\n".to_string());

    for zone in clear_os_resolver_config(true, &files) {
        files.remove(&zone);
    }

    assert!(!files.contains_key(ZONE));
    assert!(!files.contains_key("myservice.local"));
    assert!(files.contains_key("example.com"));
}

#[test]
fn managed_resolver_zones_reads_back_fghjd_authored_zones_only() {
    let mut files = StrMap::new();
    sync(&mut files, 5353, &[ZONE, "myservice.local"]);
    files.insert("example.com".to_string(), "nameserver 8.8.8.8\n".to_string());

    let mut zones = managed_resolver_zones(&files);
    zones.sort();
    let mut expected = vec![(ZONE.to_string(), 5353), ("myservice.local".to_string(), 5353)];
    expected.sort();
    assert_eq!(zones, expected);
}

#[test]
fn managed_resolver_zones_of_a_missing_dir_is_empty() {
    assert!(managed_resolver_zones(&StrMap::new()).is_empty());
}

#[test]
fn the_fixed_zones_are_installed_beside_the_wildcard_ones() {
    let wildcard = vec!["myservice.local".to_string()];
    let changes = install_os_resolver_config(true, &StrMap::new(), 5300, &wildcard).unwrap();
    assert_eq!(changes.content, "nameserver 127.0.0.1\nport 5300\n");
    for zone in [ZONE, ZONE_RAW, "myservice.local"] {
        assert!(changes.write.contains(&zone.to_string()));
    }
    assert!(install_os_resolver_config(false, &StrMap::new(), 5300, &wildcard).is_none());
    let mut files = StrMap::new();
    apply(&mut files, changes);
    assert!(clear_os_resolver_config(false, &files).is_empty());
    assert_eq!(clear_os_resolver_config(true, &files).len(), 3);
}

#[test]
fn a_resolver_file_reads_back_its_port() {
    assert_eq!(parse_fghjd_resolver_port(&resolver_content(65535)), Some(65535));
    assert_eq!(parse_fghjd_resolver_port("nameserver 127.0.0.1\nport 65536\n"), None);
    assert_eq!(parse_fghjd_resolver_port("nameserver 8.8.8.8\n"), None);
    assert!(is_fghjd_resolver_content("nameserver 127.0.0.1\nport 53\n"));
    assert!(!is_fghjd_resolver_content("nameserver 127.0.0.1\n"));
}

#[test]
fn certificates_stay_in_reserved_domains() {
    assert!(cert_eligible("cart.fghj.internal", false));
    assert!(cert_eligible("aikido.local", true));
    assert!(!cert_eligible("aikido.local", false));
    assert!(!cert_eligible("app.local.aikido.io", true));
    assert!(!cert_eligible("minio.ws.fghj.raw.internal", true));
    assert!(!cert_eligible("fghj.raw.internal", true));
}

#[test]
fn a_zone_holds_its_apex_and_what_is_below() {
    assert!(matches_zone("a.myservice.local", "myservice.local"));
    assert!(matches_zone("myservice.local", "myservice.local"));
    assert!(!matches_zone("notmyservice.local", "myservice.local"));
}

#[test]
fn a_response_says_whether_the_name_is_known_whatever_was_asked_of_it() {
    let mut raw = encode_query(4, "cart.fghj.internal", TYPE_A);
    raw[2] = 0x29;
    let query = parse_query(&raw).unwrap();
    assert_eq!(query.opcode, 5);
    let known = build_response(&query, Some(ANSWER));
    assert_eq!(known[3], 0);
    assert_eq!(known[2] & 0x04, 0x04);
    let unknown = build_response(&query, None);
    assert_eq!(unknown[3], 3);
    assert_eq!(unknown[2] & 0x04, 0);
}

#[test]
fn a_query_ends_with_its_question() {
    let raw = encode_query(4, "cart.fghj.internal", TYPE_A);
    let query = parse_query(&raw).unwrap();
    assert_eq!(query.question_bytes, raw[12..]);
    for k in 0..raw.len() {
        assert!(parse_query(&raw[..k]).is_none());
    }
    let mut longer = raw.clone();
    longer.extend([0, 0, 41, 4, 208]);
    let same = parse_query(&longer).unwrap();
    assert_eq!(same.qname, query.qname);
    assert_eq!(same.question_bytes, query.question_bytes);
}

#[test]
fn synced_zones_are_told_sorted_and_once() {
    let mut files = StrMap::new();
    files.insert("example.com".to_string(), "nameserver 8.8.8.8\n".to_string());
    files.insert("old.local".to_string(), resolver_content(53));
    sync(&mut files, 5353, &["b.local", "a.local", "b.local"]);
    assert_eq!(
        managed_resolver_zones(&files),
        vec![("a.local".to_string(), 5353), ("b.local".to_string(), 5353)]
    );
}
