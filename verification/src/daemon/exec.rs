//! Commands in containers over a socket: what each message leads to.

use vstd::prelude::*;

use crate::text::concat_text;

verus! {

/// What a client asks to run.
pub struct ExecStart {
    pub cmd: Vec<String>,
    pub user: Option<String>,
    pub working_dir: Option<String>,
    pub tty: bool,
    pub cols: u16,
    pub rows: u16,
}

/// The first message of a client.
pub enum FirstMessage {
    /// A text that says what to run.
    Start(ExecStart),
    /// A text that does not, and why.
    Malformed(String),
    /// No text, or the end of the connection.
    Else,
}

/// What the first message leads to.
pub enum FirstStep {
    /// The command starts; on a terminal it gets the given size.
    Begin { start: ExecStart, size: Option<(u16, u16)> },
    /// The client is told why not.
    Refuse(String),
    /// The connection ends without a word.
    End,
}

/// A size of a terminal is at least one.
pub open spec fn at_least_one(n: u16) -> u16 {
    if n == 0 {
        1
    } else {
        n
    }
}

/// The size with which a command starts.
pub open spec fn initial_size(start: ExecStart) -> Option<(u16, u16)> {
    if start.tty {
        Some((at_least_one(start.cols), at_least_one(start.rows)))
    } else {
        None
    }
}

fn one_at_least(n: u16) -> (r: u16)
    ensures
        r == at_least_one(n),
{
    if n == 0 {
        1
    } else {
        n
    }
}

/// What the first message leads to.
pub fn on_first_message(message: FirstMessage) -> (r: FirstStep)
    ensures
        match message {
            FirstMessage::Start(s) => r matches FirstStep::Begin { start, size } && start == s
                && size == initial_size(s),
            FirstMessage::Malformed(e) => r matches FirstStep::Refuse(text) && text@
                == "invalid exec start message: "@ + e@,
            FirstMessage::Else => r is End,
        },
{
    match message {
        FirstMessage::Start(start) => {
            let size = if start.tty {
                Some((one_at_least(start.cols), one_at_least(start.rows)))
            } else {
                None
            };
            FirstStep::Begin { start, size }
        },
        FirstMessage::Malformed(e) => FirstStep::Refuse(
            concat_text("invalid exec start message: ", e.as_str()),
        ),
        FirstMessage::Else => FirstStep::End,
    }
}

/// What happens while a command runs.
pub enum ExecEvent {
    /// The command printed something.
    Output(Vec<u8>),
    /// The command's output ended, or could not be read.
    OutputEnded,
    /// The client sent bytes for the command; none mean that its input ended.
    Input(Vec<u8>),
    /// The client sent the new size of its terminal.
    Resize { cols: u16, rows: u16 },
    /// The client sent anything else.
    OtherMessage,
    /// The client is gone.
    ClientGone,
}

/// What is done about it.
pub enum ExecStep {
    /// Bytes go to the client; if that fails, the session ends.
    SendToClient(Vec<u8>),
    /// Bytes go to the command; if that fails, the session ends.
    WriteToCommand(Vec<u8>),
    /// The command's input ends; its output goes on.
    CloseInput,
    /// The command's terminal gets another size.
    Resize { cols: u16, rows: u16 },
    Nothing,
    /// The session ends: the client is told the exit code.
    Finish,
}

/// What an event leads to.
pub open spec fn step_for(event: ExecEvent) -> ExecStep {
    match event {
        ExecEvent::Output(bytes) => ExecStep::SendToClient(bytes),
        ExecEvent::OutputEnded => ExecStep::Finish,
        ExecEvent::Input(bytes) => if bytes@.len() == 0 {
            ExecStep::CloseInput
        } else {
            ExecStep::WriteToCommand(bytes)
        },
        ExecEvent::Resize { cols, rows } => ExecStep::Resize { cols, rows },
        ExecEvent::OtherMessage => ExecStep::Nothing,
        ExecEvent::ClientGone => ExecStep::Finish,
    }
}

/// What an event leads to.
pub fn on_event(event: ExecEvent) -> (r: ExecStep)
    ensures
        r == step_for(event),
{
    match event {
        ExecEvent::Output(bytes) => ExecStep::SendToClient(bytes),
        ExecEvent::OutputEnded => ExecStep::Finish,
        ExecEvent::Input(bytes) => {
            if bytes.len() == 0 {
                ExecStep::CloseInput
            } else {
                ExecStep::WriteToCommand(bytes)
            }
        },
        ExecEvent::Resize { cols, rows } => ExecStep::Resize { cols, rows },
        ExecEvent::OtherMessage => ExecStep::Nothing,
        ExecEvent::ClientGone => ExecStep::Finish,
    }
}

/// Whether the session goes on after a step, given whether the step worked.
pub open spec fn stays_open(step: ExecStep, worked: bool) -> bool {
    match step {
        ExecStep::SendToClient(_) => worked,
        ExecStep::WriteToCommand(_) => worked,
        ExecStep::CloseInput => true,
        ExecStep::Resize { .. } => true,
        ExecStep::Nothing => true,
        ExecStep::Finish => false,
    }
}

/// Whether the session goes on after a step, given whether the step worked:
/// a resize or the end of input may fail, bytes that go nowhere end it.
pub fn goes_on(step: &ExecStep, worked: bool) -> (r: bool)
    ensures
        r == stays_open(*step, worked),
{
    match step {
        ExecStep::SendToClient(_) => worked,
        ExecStep::WriteToCommand(_) => worked,
        ExecStep::CloseInput => true,
        ExecStep::Resize { .. } => true,
        ExecStep::Nothing => true,
        ExecStep::Finish => false,
    }
}

/// The exit code that the client is told.
pub open spec fn told_code(reported: Option<i64>) -> int {
    match reported {
        Some(code) => code as int,
        None => -1,
    }
}

/// The exit code that the client is told: what Docker reports, or else -1.
pub fn exit_code(reported: Option<i64>) -> (r: i64)
    ensures
        r == told_code(reported),
{
    match reported {
        Some(code) => code,
        None => -1,
    }
}

/// A command on a terminal starts with the size that the client has, where none of
/// it is zero; without a terminal it has no size.
pub proof fn law_terminal_starts_with_the_clients_size(start: ExecStart)
    ensures
        initial_size(start) is Some <==> start.tty,
        initial_size(start) matches Some((cols, rows)) ==> {
            &&& cols > 0 && rows > 0
            &&& start.cols > 0 ==> cols == start.cols
            &&& start.rows > 0 ==> rows == start.rows
            &&& start.cols == 0 ==> cols == 1
            &&& start.rows == 0 ==> rows == 1
        },
{
}

/// What a command prints goes to the client and what the client sends to the command,
/// byte for byte; an empty message ends the input, and the session ends with the
/// command's output or with the client.
pub proof fn law_bytes_are_passed_on(event: ExecEvent)
    ensures
        event matches ExecEvent::Output(b) ==> (step_for(event) matches ExecStep::SendToClient(sent)
            && sent@ == b@),
        event matches ExecEvent::Input(b) ==> (b@.len() > 0 ==> (
        step_for(event) matches ExecStep::WriteToCommand(sent) && sent@ == b@)),
        event matches ExecEvent::Input(b) ==> (b@.len() == 0 ==> step_for(event) is CloseInput),
        event matches ExecEvent::Resize { cols: c, rows: r } ==> (
        step_for(event) matches ExecStep::Resize { cols, rows } && cols == c && rows == r),
        step_for(event) is Finish <==> event is OutputEnded || event is ClientGone,
        step_for(event) is Nothing <==> event is OtherMessage,
{
}

/// A session ends when it is finished, and when bytes cannot be passed on; nothing else
/// ends it.
pub proof fn law_only_lost_bytes_end_a_session(event: ExecEvent, worked: bool)
    ensures
        stays_open(step_for(event), worked) <==> !(event is OutputEnded || event is ClientGone) && (
        worked || !(event is Output || (event matches ExecEvent::Input(b) && b@.len() > 0))),
{
}

/// The client is told the exit code that is reported, and -1 where none is.
pub proof fn law_exit_code_is_the_reported_one(code: i64)
    ensures
        told_code(Some(code)) == code,
        told_code(None) == -1,
{
}

} // verus!
