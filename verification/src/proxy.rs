//! The HTTP and HTTPS front: redirects, and which backend answers for a name.

use vstd::prelude::*;
use vstd::utf8::encode_utf8;

use crate::dns::ZONE;
use crate::lines::{
    law_parts_make_up_the_text, lemma_split_append, lemma_split_one, split_on, split_text,
};
use crate::number::{all_digits, dec, decimal, digits_value, lemma_dec_reads_back};
use crate::text::{
    after_prefix, begins_with, chars_of, law_prefix_and_suffix_make_up_a_text,
    law_trimming_takes_off_white_space_only, same_text, string_of, trim_end, trim_start, trimmed,
    trimmed_end, white_space,
};

verus! {

/// The port of plain HTTP.
pub const HTTP_PORT: u16 = 80;

/// The port of HTTPS.
pub const HTTPS_PORT: u16 = 443;

/// The most bytes that a line of a request may have.
pub const MAX_LINE_LEN: usize = 8192;

/// Where a name is answered.
#[derive(Debug)]
pub struct Backend {
    pub host: String,
    pub port: u16,
}

/// Where a name is answered.
pub struct BackendView {
    pub host: Seq<char>,
    pub port: u16,
}

impl View for Backend {
    type V = BackendView;

    open spec fn view(&self) -> BackendView {
        BackendView { host: self.host@, port: self.port }
    }
}

impl DeepView for Backend {
    type V = BackendView;

    open spec fn deep_view(&self) -> BackendView {
        self@
    }
}

/// A port of the local host.
pub open spec fn local_backend(port: u16) -> BackendView {
    BackendView { host: "127.0.0.1"@, port }
}

/// A port of the local host.
pub fn local(port: u16) -> (r: Backend)
    ensures
        r@ == local_backend(port),
{
    Backend { host: "127.0.0.1".to_owned(), port }
}

/// Which backend answers for which name.
pub trait RouteResolver {
    /// The backend that answers for a name.
    spec fn routed(&self, host: Seq<char>) -> Option<BackendView>;

    /// The backend that answers for a name.
    fn resolve(&self, host: &str) -> (r: Option<Backend>)
        ensures
            r.deep_view() == self.routed(host@),
    ;
}

/// The backend for a server name: the zone itself leads to the daemon's own API,
/// any other name where it is routed to.
pub open spec fn backend_of<R: RouteResolver>(
    name: Seq<char>,
    control_port: u16,
    routes: R,
) -> Option<BackendView> {
    if name == ZONE@ {
        Some(local_backend(control_port))
    } else {
        routes.routed(name)
    }
}

/// The backend for a server name; where there is none, the name is answered with
/// [`not_found_response`].
pub fn backend_for<R: RouteResolver>(name: &str, control_port: u16, routes: &R) -> (r: Option<
    Backend,
>)
    ensures
        r.deep_view() == backend_of(name@, control_port, *routes),
{
    if same_text(name, ZONE) {
        Some(local(control_port))
    } else {
        routes.resolve(name)
    }
}

/// The path that a request line asks for: its second word.
pub open spec fn request_path(line: Seq<char>) -> Option<Seq<char>> {
    let words = split_on(trimmed_end(line), ' ');
    if words.len() > 1 {
        Some(words[1])
    } else {
        None
    }
}

/// The path that a request line asks for.
pub fn parse_request_path(request_line: &str) -> (r: Option<String>)
    ensures
        r.deep_view() == request_path(request_line@),
{
    let cs = chars_of(request_line);
    let words = split_text(trim_end(cs.as_slice()), ' ');
    if words.len() > 1 {
        proof {
            assert(words.deep_view()[1] == words@[1]@);
        }
        Some(words[1].clone())
    } else {
        None
    }
}

/// The host that a header line names.
pub open spec fn host_header(line: Seq<char>) -> Option<Seq<char>> {
    if begins_with(line, "Host:"@) {
        Some(trimmed(line.skip("Host:"@.len() as int)))
    } else if begins_with(line, "host:"@) {
        Some(trimmed(line.skip("host:"@.len() as int)))
    } else {
        None
    }
}

/// The host that a header line names.
pub fn parse_host_header(line: &str) -> (r: Option<String>)
    ensures
        r.deep_view() == host_header(line@),
{
    let cs = chars_of(line);
    let upper = chars_of("Host:");
    let lower = chars_of("host:");
    match after_prefix(cs.as_slice(), upper.as_slice()) {
        Some(rest) => Some(string_of(trim_end(trim_start(rest)))),
        None => match after_prefix(cs.as_slice(), lower.as_slice()) {
            Some(rest) => Some(string_of(trim_end(trim_start(rest)))),
            None => None,
        },
    }
}

/// The bytes of a text.
fn bytes_of(text: &str) -> (r: Vec<u8>)
    ensures
        r@ == encode_utf8(text@),
{
    let b = text.as_bytes();
    let mut r: Vec<u8> = Vec::new();
    let mut i: usize = 0;
    while i < b.len()
        invariant
            i <= b@.len(),
            r@ == b@.take(i as int),
        decreases b@.len() - i,
    {
        r.push(b[i]);
        proof {
            assert(b@.take(i + 1) =~= b@.take(i as int).push(b@[i as int]));
        }
        i += 1;
    }
    proof {
        assert(b@.take(b@.len() as int) =~= b@);
    }
    r
}

/// The response that sends a browser to the same address over HTTPS.
pub open spec fn redirect_text(host: Seq<char>, path: Seq<char>) -> Seq<char> {
    "HTTP/1.1 301 Moved Permanently\r\nLocation: https://"@ + host + path
        + "\r\nContent-Length: 0\r\nConnection: close\r\n\r\n"@
}

/// The response that sends a browser to the same address over HTTPS.
pub fn build_redirect_response(host: &str, path: &str) -> (r: Vec<u8>)
    ensures
        r@ == encode_utf8(redirect_text(host@, path@)),
{
    let mut text = "HTTP/1.1 301 Moved Permanently\r\nLocation: https://".to_owned();
    text.append(host);
    text.append(path);
    text.append("\r\nContent-Length: 0\r\nConnection: close\r\n\r\n");
    bytes_of(text.as_str())
}

/// Whether a line is the last one of a request's head: an empty one, or none.
pub fn ends_head(line: &str) -> (r: bool)
    ensures
        r == (line@.len() == 0 || line@ == "\r\n"@ || line@ == "\n"@),
{
    let cs = chars_of(line);
    cs.len() == 0 || same_text(line, "\r\n") || same_text(line, "\n")
}

/// What becomes of bytes that arrive while a line is read.
#[derive(Debug, Clone, Copy, PartialEq, Eq, Structural)]
pub enum LineStep {
    /// So many of them belong to the line, which may be complete with them.
    Take { count: usize, complete: bool },
    /// The line is longer than any that is read.
    TooLong,
}

/// How many of some bytes belong to a line: those up to a line feed, or all.
pub open spec fn line_share(chunk: Seq<u8>) -> int
    decreases chunk.len(),
{
    if chunk.len() == 0 {
        0
    } else if chunk[0] == 10 {
        1
    } else {
        1 + line_share(chunk.drop_first())
    }
}

/// What becomes of bytes that arrive when so many bytes of the line are held: no
/// line is ever held beyond the longest that is read.
pub open spec fn line_step(held: nat, chunk: Seq<u8>) -> LineStep {
    if held + line_share(chunk) > MAX_LINE_LEN {
        LineStep::TooLong
    } else {
        LineStep::Take { count: line_share(chunk) as usize, complete: chunk.contains(10) }
    }
}

/// What becomes of bytes that arrive when so many bytes of the line are held.
pub fn on_line_bytes(held: usize, chunk: &[u8]) -> (r: LineStep)
    ensures
        r == line_step(held as nat, chunk@),
        r matches LineStep::Take { count, complete } ==> {
            &&& held + count <= MAX_LINE_LEN
            &&& count <= chunk@.len()
            &&& complete ==> count > 0 && chunk@[count - 1] == 10
            &&& !complete ==> count == chunk@.len()
        },
{
    let mut count: usize = 0;
    let mut complete = false;
    proof {
        assert(chunk@.skip(0) =~= chunk@);
    }
    while count < chunk.len() && !complete
        invariant
            count <= chunk@.len(),
            complete ==> count > 0 && chunk@[count - 1] == 10,
            complete ==> line_share(chunk@) == count,
            !complete ==> line_share(chunk@) == count + line_share(chunk@.skip(count as int)),
            !complete ==> forall|i: int| 0 <= i < count ==> (#[trigger] chunk@[i]) != 10,
        decreases chunk@.len() - count,
    {
        let ghost rest = chunk@.skip(count as int);
        complete = chunk[count] == 10;
        proof {
            assert(rest[0] == chunk@[count as int]);
            assert(rest.drop_first() =~= chunk@.skip(count + 1));
        }
        count += 1;
    }
    proof {
        if complete {
            assert(chunk@[count - 1] == 10);
            assert(chunk@.contains(10));
        } else {
            assert(chunk@.skip(count as int).len() == 0);
        }
    }
    if held > MAX_LINE_LEN || count > MAX_LINE_LEN - held {
        LineStep::TooLong
    } else {
        LineStep::Take { count, complete }
    }
}

/// The host that the last `Host` line names, or an empty one.
pub open spec fn requested_host(headers: Seq<Seq<char>>) -> Seq<char>
    decreases headers.len(),
{
    if headers.len() == 0 {
        Seq::empty()
    } else {
        match host_header(headers.last()) {
            Some(host) => host,
            None => requested_host(headers.drop_last()),
        }
    }
}

/// The address to which a request is redirected.
pub open spec fn redirect_of(request_line: Seq<char>, headers: Seq<Seq<char>>) -> Seq<char> {
    redirect_text(
        requested_host(headers),
        match request_path(request_line) {
            Some(path) => path,
            None => "/"@,
        },
    )
}

/// The response to a plain HTTP request, given its first line and its headers.
pub fn redirect_response(request_line: &str, headers: &Vec<String>) -> (r: Vec<u8>)
    ensures
        r@ == encode_utf8(redirect_of(request_line@, headers.deep_view())),
{
    let path = match parse_request_path(request_line) {
        Some(path) => path,
        None => "/".to_owned(),
    };
    let ghost hs = headers.deep_view();
    let mut host = String::new();
    let mut i: usize = 0;
    proof {
        assert(host@ =~= requested_host(hs.take(0)));
    }
    while i < headers.len()
        invariant
            i <= headers@.len(),
            hs == headers.deep_view(),
            host@ == requested_host(hs.take(i as int)),
        decreases headers@.len() - i,
    {
        proof {
            assert(hs.take(i + 1).drop_last() =~= hs.take(i as int));
            assert(hs.take(i + 1).last() == headers@[i as int]@);
        }
        match parse_host_header(headers[i].as_str()) {
            Some(h) => {
                host = h;
            },
            None => {},
        }
        i += 1;
    }
    proof {
        assert(hs.take(hs.len() as int) =~= hs);
    }
    build_redirect_response(host.as_str(), path.as_str())
}

/// The page for a name that nothing answers for.
pub const NOT_FOUND_PAGE: &'static str = "<!doctype html>
<html><head><meta charset=\"utf-8\"><title>fghj</title>
<style>
  body { background: #0b0b0d; color: #e6e6e6; font-family: ui-monospace, \"SF Mono\", Menlo, monospace;
         display: flex; align-items: center; justify-content: center; height: 100vh; margin: 0; }
  .card { text-align: center; }
  h1 { font-size: 4rem; margin: 0; color: #ff7a1a; }
  p { color: #999; }
</style></head>
<body><div class=\"card\"><h1>404</h1><p>fghj doesn't know this service yet.</p></div></body></html>
";

/// The response for a name that nothing answers for.
pub open spec fn not_found_text() -> Seq<char> {
    "HTTP/1.1 404 Not Found\r\nContent-Type: text/html; charset=utf-8\r\nContent-Length: "@ + dec(
        encode_utf8(NOT_FOUND_PAGE@).len(),
    ) + "\r\nConnection: close\r\n\r\n"@ + NOT_FOUND_PAGE@
}

/// The response for a name that nothing answers for.
pub fn not_found_response() -> (r: Vec<u8>)
    ensures
        r@ == encode_utf8(not_found_text()),
{
    let mut text =
        "HTTP/1.1 404 Not Found\r\nContent-Type: text/html; charset=utf-8\r\nContent-Length: ".to_owned();
    text.append(decimal(NOT_FOUND_PAGE.as_bytes().len() as u64).as_str());
    text.append("\r\nConnection: close\r\n\r\n");
    text.append(NOT_FOUND_PAGE);
    bytes_of(text.as_str())
}

/// How a connection broke.
#[derive(Debug, Clone, Copy, PartialEq, Eq, Structural)]
pub enum Disconnect {
    ConnectionReset,
    BrokenPipe,
    UnexpectedEof,
    TimedOut,
    PermissionDenied,
    /// In any other way.
    Other,
}

/// Whether a browser routinely breaks connections like that.
pub open spec fn benign(d: Disconnect) -> bool {
    d is ConnectionReset || d is BrokenPipe || d is UnexpectedEof
}

/// Whether a browser routinely breaks connections like that.
pub fn is_benign_disconnect(d: Disconnect) -> (r: bool)
    ensures
        r == benign(d),
{
    match d {
        Disconnect::ConnectionReset => true,
        Disconnect::BrokenPipe => true,
        Disconnect::UnexpectedEof => true,
        Disconnect::TimedOut => false,
        Disconnect::PermissionDenied => false,
        Disconnect::Other => false,
    }
}

/// Which direction of a relay failed.
#[derive(Debug, Clone, Copy, PartialEq, Eq, Structural)]
pub enum RelayFailure {
    ClientToBackend,
    BackendToClient,
}

/// How a relay between a client and a backend ended, given how each direction
/// broke if it did.
pub open spec fn relay_end(
    client_to_backend: Option<Disconnect>,
    backend_to_client: Option<Disconnect>,
) -> Result<(), RelayFailure> {
    if client_to_backend matches Some(d) && !benign(d) {
        Err(RelayFailure::ClientToBackend)
    } else if backend_to_client is Some {
        Err(RelayFailure::BackendToClient)
    } else {
        Ok(())
    }
}

/// How a relay between a client and a backend ended, given how each direction
/// broke if it did. What a browser routinely does is no failure; that the backend
/// breaks off always is.
pub fn relay_outcome(
    client_to_backend: Option<Disconnect>,
    backend_to_client: Option<Disconnect>,
) -> (r: Result<(), RelayFailure>)
    ensures
        r == relay_end(client_to_backend, backend_to_client),
{
    match client_to_backend {
        Some(d) => {
            if !is_benign_disconnect(d) {
                return Err(RelayFailure::ClientToBackend);
            }
        },
        None => {},
    }
    match backend_to_client {
        Some(_) => Err(RelayFailure::BackendToClient),
        None => Ok(()),
    }
}

/// The zone itself is answered by the daemon's own API; every other name by
/// whatever it is routed to.
pub proof fn law_zone_leads_to_the_daemon<R: RouteResolver>(
    name: Seq<char>,
    control_port: u16,
    routes: R,
)
    ensures
        backend_of("fghj.internal"@, control_port, routes) matches Some(b) && b.host
            == "127.0.0.1"@ && b.port == control_port,
        name != "fghj.internal"@ ==> backend_of(name, control_port, routes) == routes.routed(name),
{
}

/// A request line names the path between its method and its version.
pub proof fn law_request_line_names_the_path(
    method: Seq<char>,
    path: Seq<char>,
    version: Seq<char>,
)
    requires
        !method.contains(' '),
        !path.contains(' '),
        version.len() > 0,
        !white_space(version.last()),
        method.len() > 0,
    ensures
        request_path(method + " "@ + path + " "@ + version + "\r\n"@) == Some(path),
        !white_space(method.last()) ==> request_path(method + "\r\n"@) is None,
{
    reveal_strlit(" ");
    reveal_strlit("\r\n");
    assert(" "@ =~= seq![' ']);
    let line = method + " "@ + path + " "@ + version;
    let end = "\r\n"@;
    assert(trimmed_end(line + end) == line) by {
        assert(line.last() == version.last());
        assert((line + end).drop_last() =~= line.push('\r'));
        assert(line.push('\r').drop_last() =~= line);
        assert((line + end).last() == '\n');
        assert(line.push('\r').last() == '\r');
        reveal_with_fuel(trimmed_end, 3);
    }
    lemma_split_append(method, path + " "@ + version, ' ');
    lemma_split_append(path, version, ' ');
    lemma_split_one(method, ' ');
    lemma_split_one(path, ' ');
    assert(method + seq![' '] + (path + " "@ + version) =~= line);
    let words = split_on(line, ' ');
    law_parts_make_up_the_text(version, ' ');
    assert(words[1] == path);
    if !white_space(method.last()) {
        assert((method + end).drop_last() =~= method.push('\r'));
        assert(method.push('\r').drop_last() =~= method);
        assert(trimmed_end(method + end) == method) by {
            reveal_with_fuel(trimmed_end, 3);
        }
    }
}

/// A header line names a host if it is a `Host` line, in either spelling, and then
/// the host is what stands there without the white space around it.
pub proof fn law_host_line_names_the_host(
    line: Seq<char>,
    before: Seq<char>,
    host: Seq<char>,
    after: Seq<char>,
)
    requires
        forall|i: int| 0 <= i < before.len() ==> white_space(#[trigger] before[i]),
        forall|i: int| 0 <= i < after.len() ==> white_space(#[trigger] after[i]),
        host.len() > 0 ==> !white_space(host[0]) && !white_space(host.last()),
    ensures
        host_header("Host:"@ + (before + host + after)) == Some(host),
        host_header("host:"@ + (before + host + after)) == Some(host),
        host_header(line) is Some <==> line.len() >= 5 && (line[0] == 'H' || line[0] == 'h')
            && line[1] == 'o' && line[2] == 's' && line[3] == 't' && line[4] == ':',
{
    reveal_strlit("Host:");
    reveal_strlit("host:");
    let value = before + host + after;
    law_trimming_takes_off_white_space_only(before, host, after);
    law_prefix_and_suffix_make_up_a_text(line, "Host:"@, value);
    law_prefix_and_suffix_make_up_a_text(line, "host:"@, value);
    assert(("Host:"@ + value).skip(5) =~= value);
    assert(("host:"@ + value).skip(5) =~= value);
    assert(("host:"@ + value).take(5)[0] == 'h');
    assert("Host:"@[0] == 'H');
    if line.len() >= 5 {
        let head = line.take(5);
        if host_header(line) is Some {
            assert(line[0] == head[0] && line[1] == head[1] && line[2] == head[2] && line[3]
                == head[3] && line[4] == head[4]);
        }
        if line[1] == 'o' && line[2] == 's' && line[3] == 't' && line[4] == ':' {
            if line[0] == 'H' {
                assert(head =~= "Host:"@);
            }
            if line[0] == 'h' {
                assert(head =~= "host:"@);
            }
        }
    }
}

/// Of several `Host` lines the last one counts; without any, no host is named.
pub proof fn law_last_host_line_counts(
    before: Seq<Seq<char>>,
    host: Seq<char>,
    after: Seq<Seq<char>>,
)
    requires
        host.len() > 0 ==> !white_space(host[0]) && !white_space(host.last()),
        forall|i: int| 0 <= i < after.len() ==> host_header(#[trigger] after[i]) is None,
    ensures
        requested_host(before.push("Host:"@ + (" "@ + host + "\r\n"@)) + after) == host,
        requested_host(after) == Seq::<char>::empty(),
    decreases after.len(),
{
    let line = "Host:"@ + (" "@ + host + "\r\n"@);
    let headers = before.push(line) + after;
    if after.len() == 0 {
        reveal_strlit(" ");
        reveal_strlit("\r\n");
        law_host_line_names_the_host(line, " "@, host, "\r\n"@);
        assert(headers =~= before.push(line));
        assert(headers.last() == line);
    } else {
        law_last_host_line_counts(before, host, after.drop_last());
        assert(headers.last() == after[after.len() - 1]);
        assert(headers.drop_last() =~= before.push(line) + after.drop_last());
    }
}

/// A plain request is redirected to the path that it asked for, on the host that
/// it asked, over HTTPS; the response has no body.
pub proof fn law_redirect_leads_to_the_same_address(
    method: Seq<char>,
    path: Seq<char>,
    version: Seq<char>,
    headers: Seq<Seq<char>>,
)
    requires
        !method.contains(' '),
        !path.contains(' '),
        version.len() > 0,
        !white_space(version.last()),
        method.len() > 0,
        !white_space(method.last()),
    ensures
        redirect_of(method + " "@ + path + " "@ + version + "\r\n"@, headers)
            == "HTTP/1.1 301 Moved Permanently\r\nLocation: https://"@ + requested_host(headers)
            + path + "\r\nContent-Length: 0\r\nConnection: close\r\n\r\n"@,
        redirect_of(method + "\r\n"@, headers)
            == "HTTP/1.1 301 Moved Permanently\r\nLocation: https://"@ + requested_host(headers)
            + "/"@ + "\r\nContent-Length: 0\r\nConnection: close\r\n\r\n"@,
{
    law_request_line_names_the_path(method, path, version);
}

/// The response for a name that nothing answers for says how many bytes its page
/// has.
pub proof fn law_response_counts_the_bytes_of_its_page()
    ensures
        exists|digits: Seq<char>|
            #[trigger] all_digits(digits) && digits_value(digits) == encode_utf8(
                NOT_FOUND_PAGE@,
            ).len() && not_found_text()
                == "HTTP/1.1 404 Not Found\r\nContent-Type: text/html; charset=utf-8\r\nContent-Length: "@
                + digits + "\r\nConnection: close\r\n\r\n"@ + NOT_FOUND_PAGE@,
{
    let digits = dec(encode_utf8(NOT_FOUND_PAGE@).len());
    lemma_dec_reads_back(encode_utf8(NOT_FOUND_PAGE@).len());
    assert(all_digits(digits));
}

/// A line ends at its line feed, and one of more than 8192 bytes is not read.
pub proof fn law_line_ends_at_its_line_feed(held: nat, line: Seq<u8>, rest: Seq<u8>)
    requires
        !line.contains(10),
    ensures
        line_step(held, line.push(10) + rest) == (if held + line.len() + 1 <= 8192 {
            LineStep::Take { count: (line.len() + 1) as usize, complete: true }
        } else {
            LineStep::TooLong
        }),
        line_step(held, line) == (if held + line.len() <= 8192 {
            LineStep::Take { count: line.len() as usize, complete: false }
        } else {
            LineStep::TooLong
        }),
{
    lemma_line_share(line, rest);
    assert((line.push(10) + rest)[line.len() as int] == 10);
}

proof fn lemma_line_share(line: Seq<u8>, rest: Seq<u8>)
    requires
        !line.contains(10),
    ensures
        line_share(line.push(10) + rest) == line.len() + 1,
        line_share(line) == line.len(),
    decreases line.len(),
{
    let all = line.push(10) + rest;
    if line.len() == 0 {
        assert(all[0] == 10);
    } else {
        let shorter = line.drop_first();
        assert(line.contains(line[0]));
        assert forall|i: int| 0 <= i < shorter.len() implies #[trigger] shorter[i] != 10 by {
            assert(line.contains(line[i + 1]));
        }
        lemma_line_share(shorter, rest);
        assert(all[0] == line[0]);
        assert(all.drop_first() =~= shorter.push(10) + rest);
    }
}

/// A browser may reset a connection or close it early; a timeout or a refusal is a
/// failure.
pub proof fn law_timeouts_and_refusals_are_failures(d: Disconnect)
    ensures
        d == Disconnect::ConnectionReset || d == Disconnect::BrokenPipe || d
            == Disconnect::UnexpectedEof ==> benign(d),
        d == Disconnect::TimedOut || d == Disconnect::PermissionDenied || d == Disconnect::Other
            ==> !benign(d),
{
}

/// A relay fails if the client's side breaks in a way that browsers do not break
/// it, or if the backend breaks off in any way; otherwise it ends well.
pub proof fn law_backend_never_breaks_off_unnoticed(
    client: Option<Disconnect>,
    d: Disconnect,
)
    ensures
        relay_end(None, None) is Ok,
        relay_end(client, Some(d)) is Err,
        relay_end(Some(Disconnect::TimedOut), None) == Err::<(), RelayFailure>(
            RelayFailure::ClientToBackend,
        ),
        relay_end(None, Some(d)) == Err::<(), RelayFailure>(RelayFailure::BackendToClient),
        relay_end(Some(d), None) is Ok <==> d == Disconnect::ConnectionReset || d
            == Disconnect::BrokenPipe || d == Disconnect::UnexpectedEof,
{
}

} // verus!
