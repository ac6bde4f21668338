//! The command line's side of the control API.

use vstd::prelude::*;
use vstd::utf8::encode_utf8;

use crate::number::{all_digits, dec, decimal, digits_value, lemma_dec_reads_back};
use crate::paths::{same_path, same_path_of};
use crate::text::{
    after_part, begins_with, chars_of, find_after, law_part_is_found_where_it_first_occurs,
    string_of,
};

verus! {

/// A request to the control API.
pub open spec fn request(method: Seq<char>, path: Seq<char>, body: Seq<char>) -> Seq<char> {
    method + " "@ + path
        + " HTTP/1.1\r\nHost: fghjd\r\nContent-Type: application/json\r\nContent-Length: "@ + dec(
        encode_utf8(body).len(),
    ) + "\r\nConnection: close\r\n\r\n"@ + body
}

/// A request to the control API.
pub fn request_text(method: &str, path: &str, body: &str) -> (r: String)
    ensures
        r@ == request(method@, path@, body@),
{
    let mut r = method.to_owned();
    r.append(" ");
    r.append(path);
    r.append(" HTTP/1.1\r\nHost: fghjd\r\nContent-Type: application/json\r\nContent-Length: ");
    r.append(decimal(body.as_bytes().len() as u64).as_str());
    r.append("\r\nConnection: close\r\n\r\n");
    r.append(body);
    r
}

/// The body of a response: what follows the first empty line, or all of it.
pub open spec fn body_of(response: Seq<char>) -> Seq<char> {
    match after_part(response, "\r\n\r\n"@) {
        Some(body) => body,
        None => response,
    }
}

/// The body of a response.
pub fn response_body(response: &str) -> (r: String)
    ensures
        r@ == body_of(response@),
{
    let cs = chars_of(response);
    let gap = chars_of("\r\n\r\n");
    match find_after(cs.as_slice(), gap.as_slice()) {
        Some(body) => string_of(body),
        None => response.to_owned(),
    }
}

/// Where a command is run over a socket.
pub fn exec_url(run: &str, node: &str, workspace_id: &str) -> (r: String)
    ensures
        r@ == "ws://fghjd/runs/"@ + run@ + "/nodes/"@ + node@ + "/exec/ws?workspace="@
            + workspace_id@,
{
    let mut r = "ws://fghjd/runs/".to_owned();
    r.append(run);
    r.append("/nodes/");
    r.append(node);
    r.append("/exec/ws?workspace=");
    r.append(workspace_id);
    r
}

/// A workspace as the control API lists it.
pub struct ListedWorkspace {
    pub path: Option<String>,
    pub id: Option<String>,
}

/// The position of the first workspace at a path, or the number of workspaces.
pub open spec fn workspace_at(list: Seq<ListedWorkspace>, path: Seq<char>) -> int
    decreases list.len(),
{
    if list.len() == 0 || (list[0].path matches Some(p) && same_path_of(p@, path)) {
        0
    } else {
        1 + workspace_at(list.drop_first(), path)
    }
}

/// The id of the workspace at a path.
pub fn find_workspace(list: &Vec<ListedWorkspace>, path: &str) -> (r: Option<String>)
    ensures
        ({
            let i = workspace_at(list@, path@);
            r.deep_view() == (if i < list@.len() {
                list@[i].id.deep_view()
            } else {
                None
            })
        }),
{
    let mut i: usize = 0;
    proof {
        assert(list@.skip(0) =~= list@);
    }
    while i < list.len()
        invariant
            i <= list@.len(),
            workspace_at(list@, path@) == i + workspace_at(list@.skip(i as int), path@),
        decreases list@.len() - i,
    {
        proof {
            assert(list@.skip(i as int)[0] == list@[i as int]);
            assert(list@.skip(i as int).drop_first() =~= list@.skip(i + 1));
        }
        let here = match &list[i].path {
            Some(p) => same_path(p.as_str(), path),
            None => false,
        };
        if here {
            return list[i].id.clone();
        }
        i += 1;
    }
    None
}

/// That a workspace is not served.
pub fn not_wired(path: &str) -> (r: String)
    ensures
        r@ == path@ + " isn't wired into fghjd — run `fghj wire` first"@,
{
    let mut r = path.to_owned();
    r.append(" isn't wired into fghjd — run `fghj wire` first");
    r
}

/// Whether a command gets a terminal: if both ends are one, and it is not
/// declined.
pub fn wants_tty(no_tty: bool, stdin_is_terminal: bool, stdout_is_terminal: bool) -> (r: bool)
    ensures
        r == (!no_tty && stdin_is_terminal && stdout_is_terminal),
{
    !no_tty && stdin_is_terminal && stdout_is_terminal
}

/// The size of a terminal: what the system reports, or else 80 by 24.
pub open spec fn size_or_default(reported: Option<(u16, u16)>) -> (u16, u16) {
    match reported {
        Some((cols, rows)) => if cols > 0 && rows > 0 {
            (cols, rows)
        } else {
            (80, 24)
        },
        None => (80, 24),
    }
}

/// The size of a terminal: what the system reports, or else 80 by 24.
pub fn terminal_size(reported: Option<(u16, u16)>) -> (r: (u16, u16))
    ensures
        r == size_or_default(reported),
{
    match reported {
        Some((cols, rows)) => if cols > 0 && rows > 0 {
            (cols, rows)
        } else {
            (80, 24)
        },
        None => (80, 24),
    }
}

/// What happens while a command is run over a socket.
pub enum ClientEvent {
    /// Bytes were typed; none mean that there will be no more.
    Typed(Vec<u8>),
    /// What is typed cannot be read.
    TypingFailed,
    /// The terminal has another size.
    Resized { cols: u16, rows: u16 },
    /// The command printed something.
    Printed(Vec<u8>),
    /// The command ended, with the code if one is given.
    Exited(Option<i64>),
    /// The command could not be run, with the reason if one is given.
    Failed(Option<String>),
    /// Anything else came.
    Other,
    /// The connection ended.
    Closed,
}

/// How a session ended.
pub enum Outcome {
    /// With an exit code.
    Exit(i32),
    /// With a failure.
    Failure(String),
}

/// What is done about an event.
pub enum ClientStep {
    /// Bytes go to the command; none mean that its input ends. If that fails, the
    /// session ends.
    Send(Vec<u8>),
    /// The terminal's size goes to the command.
    SendSize { cols: u16, rows: u16 },
    /// Bytes are printed. If that fails, the session ends.
    Print(Vec<u8>),
    Nothing,
    /// The session ends.
    Finish(Outcome),
}

/// A session in which a command is run over a socket.
pub struct ExecClient {
    stdin_eof: bool,
}

/// What an event leads to.
pub open spec fn leads_to(event: ClientEvent, step: ClientStep) -> bool {
    match event {
        ClientEvent::Typed(bytes) => step == ClientStep::Send(bytes),
        ClientEvent::TypingFailed => step == ClientStep::Finish(Outcome::Exit(-1i32)),
        ClientEvent::Resized { cols, rows } => step == (ClientStep::SendSize { cols, rows }),
        ClientEvent::Printed(bytes) => step == ClientStep::Print(bytes),
        ClientEvent::Exited(code) => step == ClientStep::Finish(
            Outcome::Exit(
                match code {
                    Some(n) => n as i32,
                    None => -1i32,
                },
            ),
        ),
        ClientEvent::Failed(reason) => step matches ClientStep::Finish(Outcome::Failure(text))
            && text@ == "exec failed: "@ + (match reason {
            Some(r) => r@,
            None => "unknown error"@,
        }),
        ClientEvent::Other => step is Nothing,
        ClientEvent::Closed => step == ClientStep::Finish(Outcome::Exit(-1i32)),
    }
}

impl ExecClient {
    /// Whether nothing more is typed.
    pub closed spec fn at_end_of_input(self) -> bool {
        self.stdin_eof
    }

    /// A session that begins.
    pub fn new() -> (r: Self)
        ensures
            !r.at_end_of_input(),
    {
        ExecClient { stdin_eof: false }
    }

    /// Whether what is typed is still read.
    pub fn reads_input(&self) -> (r: bool)
        ensures
            r == !self.at_end_of_input(),
    {
        !self.stdin_eof
    }

    /// What an event leads to. The end of what is typed does not end the session.
    pub fn on_event(&mut self, event: ClientEvent) -> (step: ClientStep)
        ensures
            leads_to(event, step),
            final(self).at_end_of_input() == (old(self).at_end_of_input() || (
            event matches ClientEvent::Typed(bytes) && bytes@.len() == 0)),
    {
        match event {
            ClientEvent::Typed(bytes) => {
                if bytes.len() == 0 {
                    self.stdin_eof = true;
                }
                ClientStep::Send(bytes)
            },
            ClientEvent::TypingFailed => ClientStep::Finish(Outcome::Exit(-1)),
            ClientEvent::Resized { cols, rows } => ClientStep::SendSize { cols, rows },
            ClientEvent::Printed(bytes) => ClientStep::Print(bytes),
            ClientEvent::Exited(code) => {
                let n: i32 = match code {
                    Some(n) => #[verifier::truncate] (n as i32),
                    None => -1,
                };
                ClientStep::Finish(Outcome::Exit(n))
            },
            ClientEvent::Failed(reason) => {
                let mut text = "exec failed: ".to_owned();
                match reason {
                    Some(r) => {
                        text.append(r.as_str());
                    },
                    None => {
                        text.append("unknown error");
                    },
                }
                ClientStep::Finish(Outcome::Failure(text))
            },
            ClientEvent::Other => ClientStep::Nothing,
            ClientEvent::Closed => ClientStep::Finish(Outcome::Exit(-1)),
        }
    }
}

/// What the daemon's state is called.
pub fn status_line(active: bool) -> (r: String)
    ensures
        r@ == (if active {
            "fghjd is running and active"@
        } else {
            "fghjd is running and idle"@
        }),
{
    if active {
        "fghjd is running and active".to_owned()
    } else {
        "fghjd is running and idle".to_owned()
    }
}

/// A request names its method and path, and says how many bytes its body has,
/// which stands behind an empty line.
pub proof fn law_request_counts_the_bytes_of_its_body(
    method: Seq<char>,
    path: Seq<char>,
    body: Seq<char>,
)
    ensures
        exists|digits: Seq<char>|
            #[trigger] all_digits(digits) && digits_value(digits) == encode_utf8(body).len()
                && request(method, path, body) == method + " "@ + path
                + " HTTP/1.1\r\nHost: fghjd\r\nContent-Type: application/json\r\nContent-Length: "@
                + digits + "\r\nConnection: close\r\n\r\n"@ + body,
{
    let digits = dec(encode_utf8(body).len());
    lemma_dec_reads_back(encode_utf8(body).len());
    assert(all_digits(digits));
}

/// The body of a response is all that follows its first empty line; a response
/// without one is its own body.
pub proof fn law_body_follows_the_first_empty_line(head: Seq<char>, body: Seq<char>)
    requires
        forall|j: int|
            0 <= j < head.len() ==> !begins_with(
                #[trigger] (head + "\r\n\r\n"@ + body).skip(j),
                "\r\n\r\n"@,
            ),
    ensures
        body_of(head + "\r\n\r\n"@ + body) == body,
        (forall|j: int|
            0 <= j <= head.len() ==> !begins_with(#[trigger] head.skip(j), "\r\n\r\n"@)) ==> body_of(
            head,
        ) == head,
{
    let gap = "\r\n\r\n"@;
    let all = head + gap + body;
    law_part_is_found_where_it_first_occurs(all, gap);
    let n = head.len() as int;
    assert(all.skip(n).take(gap.len() as int) =~= gap);
    assert(begins_with(all.skip(n), gap));
    let t = after_part(all, gap)->Some_0;
    let k = all.len() - gap.len() - t.len();
    assert(all.skip(k).take(gap.len() as int) =~= gap);
    assert(begins_with(all.skip(k), gap));
    assert(k == n);
    assert(t =~= all.skip(n + gap.len()));
    assert(t =~= body);
    if forall|j: int| 0 <= j <= head.len() ==> !begins_with(#[trigger] head.skip(j), gap) {
        law_part_is_found_where_it_first_occurs(head, gap);
        if after_part(head, gap) is Some {
            let u = after_part(head, gap)->Some_0;
            let i = head.len() - gap.len() - u.len();
            assert(head.skip(i).take(gap.len() as int) =~= gap);
            assert(begins_with(head.skip(i), gap));
        }
    }
}

/// The first workspace that is listed at a path is the one that is found there.
pub proof fn law_workspace_is_found_by_its_path(
    list: Seq<ListedWorkspace>,
    path: Seq<char>,
    k: int,
)
    requires
        0 <= k <= list.len(),
        forall|i: int|
            0 <= i < k ==> !((#[trigger] list[i]).path matches Some(p) && same_path_of(p@, path)),
        k < list.len() ==> (list[k].path matches Some(p) && same_path_of(p@, path)),
    ensures
        workspace_at(list, path) == k,
    decreases list.len(),
{
    if list.len() > 0 && k > 0 {
        let rest = list.drop_first();
        assert(!(list[0].path matches Some(p) && same_path_of(p@, path)));
        assert forall|i: int| 0 <= i < k - 1 implies !((#[trigger] rest[i]).path matches Some(p)
            && same_path_of(p@, path)) by {
            assert(rest[i] == list[i + 1]);
        }
        law_workspace_is_found_by_its_path(rest, path, k - 1);
    }
}

/// A terminal has the size that is reported, unless none is or there is nothing of
/// it; then it has 80 columns and 24 rows.
pub proof fn law_terminal_always_has_a_size(cols: u16, rows: u16)
    ensures
        cols > 0 && rows > 0 ==> size_or_default(Some((cols, rows))) == (cols, rows),
        cols == 0 || rows == 0 ==> size_or_default(Some((cols, rows))) == (80u16, 24u16),
        size_or_default(None) == (80u16, 24u16),
{
}

/// What is typed goes to the command and what it prints to the terminal, byte for
/// byte; the session ends with the command's exit code, and with -1 where there is
/// none.
pub proof fn law_session_passes_on_what_comes(
    event: ClientEvent,
    step: ClientStep,
)
    requires
        leads_to(event, step),
    ensures
        event matches ClientEvent::Typed(b) ==> (step matches ClientStep::Send(sent) && sent@
            == b@),
        event matches ClientEvent::Printed(b) ==> (step matches ClientStep::Print(shown) && shown@
            == b@),
        event matches ClientEvent::Resized { cols: c, rows: r } ==> (
        step matches ClientStep::SendSize { cols, rows } && cols == c && rows == r),
        event matches ClientEvent::Exited(Some(n)) ==> (i32::MIN <= n <= i32::MAX ==> (
        step matches ClientStep::Finish(Outcome::Exit(code)) && code == n)),
        event matches ClientEvent::Exited(None) ==> (
        step matches ClientStep::Finish(Outcome::Exit(code)) && code == -1),
        event is Closed || event is TypingFailed ==> (
        step matches ClientStep::Finish(Outcome::Exit(code)) && code == -1),
        event matches ClientEvent::Failed(Some(why)) ==> (
        step matches ClientStep::Finish(Outcome::Failure(text)) && text@ == "exec failed: "@
            + why@),
        step is Finish <==> event is Exited || event is Failed || event is Closed
            || event is TypingFailed,
        step is Nothing <==> event is Other,
{
}

} // verus!
