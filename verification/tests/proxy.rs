use fghj::dns::{ZoneSource, ANSWER, ZONE};
use fghj::proxy::{
    backend_for, build_redirect_response, ends_head, is_benign_disconnect, local,
    not_found_response, on_line_bytes, parse_host_header, parse_request_path, redirect_response,
    relay_outcome, Disconnect, LineStep, RelayFailure, RouteResolver, MAX_LINE_LEN, NOT_FOUND_PAGE,
};
use fghj::sidecar::{FileRoutes, RouteFileEntry};

#[test]
fn parses_request_line_and_host_header() {
    assert_eq!(parse_request_path("GET /cart HTTP/1.1\r\n").as_deref(), Some("/cart"));
    assert_eq!(parse_request_path("GET / HTTP/1.1\r\n").as_deref(), Some("/"));
    assert_eq!(
        parse_host_header("Host: cart.fghj.internal\r\n").as_deref(),
        Some("cart.fghj.internal")
    );
    assert_eq!(
        parse_host_header("host: cart.fghj.internal\r\n").as_deref(),
        Some("cart.fghj.internal")
    );
    assert_eq!(parse_host_header("Content-Type: text/html\r\n"), None);
}

#[test]
fn a_request_line_without_a_path_has_none() {
    assert_eq!(parse_request_path("GET\r\n"), None);
    assert_eq!(parse_request_path(""), None);
    assert_eq!(parse_host_header("HOST: x\r\n"), None);
}

#[test]
fn builds_expected_redirect_bytes() {
    let resp = build_redirect_response("cart.fghj.internal", "/checkout");
    let text = String::from_utf8(resp).unwrap();
    assert!(text.starts_with("HTTP/1.1 301 Moved Permanently\r\n"));
    assert!(text.contains("Location: https://cart.fghj.internal/checkout\r\n"));
}

#[test]
fn a_plain_request_is_redirected_to_the_host_that_it_names_last() {
    let headers = vec![
        "Host: first.fghj.internal\r\n".to_string(),
        "Accept: */*\r\n".to_string(),
        "Host: second.fghj.internal\r\n".to_string(),
    ];
    assert_eq!(
        redirect_response("GET /a?b=c HTTP/1.1\r\n", &headers),
        build_redirect_response("second.fghj.internal", "/a?b=c")
    );
    assert_eq!(redirect_response("", &vec![]), build_redirect_response("", "/"));
}

#[test]
fn the_end_of_a_head_and_lines_that_are_too_long_are_told() {
    assert!(ends_head("") && ends_head("\n") && ends_head("\r\n"));
    assert!(!ends_head("Host: x\r\n"));
    assert_eq!(on_line_bytes(0, b"GET / HTTP/1.1\r\nHost: x\r\n"), LineStep::Take {
        count: 16,
        complete: true,
    });
    assert_eq!(on_line_bytes(3, b"no end yet"), LineStep::Take { count: 10, complete: false });
    assert_eq!(on_line_bytes(7, b""), LineStep::Take { count: 0, complete: false });
    assert_eq!(on_line_bytes(MAX_LINE_LEN - 1, b"\nmore"), LineStep::Take {
        count: 1,
        complete: true,
    });
    assert_eq!(on_line_bytes(MAX_LINE_LEN - 1, b"x\n"), LineStep::TooLong);
    assert_eq!(on_line_bytes(MAX_LINE_LEN, b"x"), LineStep::TooLong);
    let endless = vec![b'x'; MAX_LINE_LEN + 1];
    assert_eq!(on_line_bytes(0, &endless), LineStep::TooLong);
    assert_eq!(on_line_bytes(0, &endless[1..]), LineStep::Take {
        count: MAX_LINE_LEN,
        complete: false,
    });
}

#[test]
fn benign_disconnect_kinds_are_recognized() {
    assert!(is_benign_disconnect(Disconnect::ConnectionReset));
    assert!(is_benign_disconnect(Disconnect::BrokenPipe));
    assert!(is_benign_disconnect(Disconnect::UnexpectedEof));
    assert!(!is_benign_disconnect(Disconnect::TimedOut));
    assert!(!is_benign_disconnect(Disconnect::PermissionDenied));
    assert!(!is_benign_disconnect(Disconnect::Other));
}

#[test]
fn client_side_reset_is_not_reported_as_a_relay_failure() {
    assert_eq!(relay_outcome(Some(Disconnect::ConnectionReset), None), Ok(()));
    assert_eq!(relay_outcome(None, None), Ok(()));
    assert_eq!(
        relay_outcome(Some(Disconnect::TimedOut), None),
        Err(RelayFailure::ClientToBackend)
    );
}

#[test]
fn backend_side_reset_is_reported_as_a_relay_failure() {
    assert_eq!(
        relay_outcome(None, Some(Disconnect::ConnectionReset)),
        Err(RelayFailure::BackendToClient)
    );
}

fn entry(lookup: &str, wildcard: bool, host: &str) -> RouteFileEntry {
    RouteFileEntry {
        lookup: lookup.to_string(),
        wildcard,
        connect_host: host.to_string(),
        connect_port: 8080,
    }
}

fn table() -> FileRoutes {
    FileRoutes {
        own_ip: 7,
        routes: vec![
            entry("shop.local", true, "wild"),
            entry("cart.shop.local", false, "exact"),
            entry("cart.shop.local", false, "later"),
        ],
    }
}

#[test]
fn an_exact_route_wins_over_a_wildcard_and_the_first_over_later_ones() {
    let t = table();
    assert_eq!(t.resolve("cart.shop.local").unwrap().host, "exact");
    assert_eq!(t.resolve("deep.cart.shop.local").unwrap().host, "wild");
    assert_eq!(t.resolve("shop.local").unwrap().host, "wild");
    assert!(t.resolve("notshop.local").is_none());
    assert_eq!(t.answer_for("cart.shop.local"), Some(7));
    assert_eq!(t.answer_for("notshop.local"), None);
}

#[test]
fn the_apex_goes_to_the_control_api() {
    let t = table();
    let apex = backend_for(ZONE, 4321, &t).unwrap();
    assert_eq!((apex.host.as_str(), apex.port), ("127.0.0.1", 4321));
    assert_eq!(backend_for("cart.shop.local", 4321, &t).unwrap().host, "exact");
    assert!(backend_for("unknown.fghj.internal", 4321, &t).is_none());
    assert_eq!(local(80).host, "127.0.0.1");
    assert_eq!(ANSWER, 0x7f00_0001);
}

#[test]
fn an_unknown_name_gets_a_page_of_its_own() {
    let text = String::from_utf8(not_found_response()).unwrap();
    assert!(text.starts_with("HTTP/1.1 404 Not Found\r\n"));
    let body = text.split("\r\n\r\n").nth(1).unwrap();
    assert_eq!(body, NOT_FOUND_PAGE);
    assert!(text.contains(&format!("Content-Length: {}\r\n", NOT_FOUND_PAGE.len())));
}
