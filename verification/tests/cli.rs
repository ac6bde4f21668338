use fghj::cli::{
    exec_url, find_workspace, not_wired, request_text, response_body, status_line, terminal_size,
    wants_tty, ClientEvent, ClientStep, ExecClient, ListedWorkspace, Outcome,
};
use fghj::workspace::{clone_failure, resolve_workspace};

#[test]
fn a_request_names_the_bytes_of_its_body() {
    assert_eq!(
        request_text("POST", "/wire", "{\"a\":\"ü\"}"),
        "POST /wire HTTP/1.1\r\nHost: fghjd\r\nContent-Type: application/json\r\n\
         Content-Length: 10\r\nConnection: close\r\n\r\n{\"a\":\"ü\"}"
    );
}

#[test]
fn a_response_s_body_follows_the_first_empty_line() {
    assert_eq!(response_body("HTTP/1.1 200 OK\r\nA: b\r\n\r\nx\r\n\r\ny"), "x\r\n\r\ny");
    assert_eq!(response_body("no head"), "no head");
    assert_eq!(response_body(""), "");
}

#[test]
fn a_workspace_is_found_by_its_path() {
    let listed = |path: Option<&str>, id: Option<&str>| ListedWorkspace {
        path: path.map(|p| p.to_string()),
        id: id.map(|i| i.to_string()),
    };
    let list = vec![
        listed(None, Some("x")),
        listed(Some("/srv/shop/"), Some("shop-1")),
        listed(Some("/srv/shop"), Some("shop-2")),
        listed(Some("/srv/bare"), None),
    ];
    assert_eq!(find_workspace(&list, "/srv/shop").as_deref(), Some("shop-1"));
    assert_eq!(find_workspace(&list, "/srv/bare"), None);
    assert_eq!(find_workspace(&list, "/srv/other"), None);
    assert_eq!(
        not_wired("/srv/other"),
        "/srv/other isn't wired into fghjd — run `fghj wire` first"
    );
}

#[test]
fn a_terminal_is_given_where_there_is_one() {
    assert!(wants_tty(false, true, true));
    assert!(!wants_tty(true, true, true));
    assert!(!wants_tty(false, false, true));
    assert!(!wants_tty(false, true, false));
    assert_eq!(terminal_size(Some((120, 40))), (120, 40));
    assert_eq!(terminal_size(Some((0, 40))), (80, 24));
    assert_eq!(terminal_size(Some((120, 0))), (80, 24));
    assert_eq!(terminal_size(None), (80, 24));
    assert_eq!(
        exec_url("default", "web.shop", "shop-1"),
        "ws://fghjd/runs/default/nodes/web.shop/exec/ws?workspace=shop-1"
    );
}

#[test]
fn a_session_passes_bytes_on_both_ways() {
    let mut client = ExecClient::new();
    assert!(client.reads_input());
    assert!(matches!(
        client.on_event(ClientEvent::Typed(vec![1])),
        ClientStep::Send(bytes) if bytes == vec![1]
    ));
    assert!(client.reads_input());
    assert!(matches!(
        client.on_event(ClientEvent::Typed(vec![])),
        ClientStep::Send(bytes) if bytes.is_empty()
    ));
    assert!(!client.reads_input(), "the end of what is typed is told once");
    assert!(matches!(
        client.on_event(ClientEvent::Printed(vec![2])),
        ClientStep::Print(bytes) if bytes == vec![2]
    ));
    assert!(matches!(
        client.on_event(ClientEvent::Resized { cols: 3, rows: 4 }),
        ClientStep::SendSize { cols: 3, rows: 4 }
    ));
    assert!(matches!(client.on_event(ClientEvent::Other), ClientStep::Nothing));
    assert!(!client.reads_input());
}

fn outcome(event: ClientEvent) -> Outcome {
    match ExecClient::new().on_event(event) {
        ClientStep::Finish(outcome) => outcome,
        _ => panic!("expected the end"),
    }
}

#[test]
fn a_session_ends_with_the_command() {
    assert!(matches!(outcome(ClientEvent::Exited(Some(3))), Outcome::Exit(3)));
    assert!(matches!(outcome(ClientEvent::Exited(None)), Outcome::Exit(-1)));
    assert!(matches!(outcome(ClientEvent::Exited(Some(0x1_0000_0002))), Outcome::Exit(2)));
    assert!(matches!(outcome(ClientEvent::Closed), Outcome::Exit(-1)));
    assert!(matches!(outcome(ClientEvent::TypingFailed), Outcome::Exit(-1)));
    assert!(matches!(
        outcome(ClientEvent::Failed(Some("no such node".to_string()))),
        Outcome::Failure(text) if text == "exec failed: no such node"
    ));
    assert!(matches!(
        outcome(ClientEvent::Failed(None)),
        Outcome::Failure(text) if text == "exec failed: unknown error"
    ));
}

#[test]
fn the_daemon_s_state_has_a_name() {
    assert_eq!(status_line(true), "fghjd is running and active");
    assert_eq!(status_line(false), "fghjd is running and idle");
}

#[test]
fn resolve_workspace_creates_dir_without_entry() {
    let target = "/tmp/nested/workspace";
    let plan = resolve_workspace(None, Some(target));
    assert_eq!(plan.dir, target);
    assert!(plan.entry.is_none());
}

#[test]
fn resolve_workspace_defaults_to_current_dir() {
    assert_eq!(resolve_workspace(None, None).dir, ".");
}

#[test]
fn the_entry_of_a_workspace_is_cloned_into_it() {
    let plan = resolve_workspace(Some("https://example.com/shop.git"), Some("/tmp/ws"));
    let entry = plan.entry.unwrap();
    assert_eq!(entry.url, "https://example.com/shop.git");
    assert_eq!(entry.dest, "/tmp/ws/shop");
    assert_eq!(clone_failure("u", b" fatal: no\n"), "git clone failed for u: fatal: no");
}
