//! As whom commands are run for a workspace.

use vstd::prelude::*;

use crate::state::WorkspaceOwner;
use crate::text::{after_prefix, begins_with, chars_of};

verus! {

/// How git reaches a remote: it never asks, and it accepts hosts that it does not
/// know yet.
pub const GIT_SSH_COMMAND: &'static str = "ssh -o BatchMode=yes -o StrictHostKeyChecking=accept-new";

/// Where the sockets of login sessions are found on macOS.
pub const SESSION_DIR: &'static str = "/private/tmp";

/// An entry of that directory, and whether its socket belongs to the user and is
/// alive.
pub struct SessionEntry {
    pub name: String,
    pub live: bool,
}

/// The socket of a session.
pub open spec fn session_socket(name: Seq<char>) -> Seq<char> {
    "/private/tmp/"@ + name + "/Listeners"@
}

/// The position of the first entry of a login session with a live socket, or the
/// number of entries.
pub open spec fn live_session(entries: Seq<SessionEntry>) -> int
    decreases entries.len(),
{
    if entries.len() == 0 || (begins_with(entries[0].name@, "com.apple.launchd."@)
        && entries[0].live) {
        0
    } else {
        1 + live_session(entries.drop_first())
    }
}

/// The socket of a live ssh agent.
pub open spec fn agent_socket(
    hint: Option<&str>,
    hint_live: bool,
    macos: bool,
    entries: Seq<SessionEntry>,
) -> Option<Seq<char>> {
    match hint {
        Some(h) if hint_live => Some(h@),
        _ => {
            let i = live_session(entries);
            if macos && i < entries.len() {
                Some(session_socket(entries[i].name@))
            } else {
                None
            }
        },
    }
}

/// The socket of a live ssh agent: the one that was known, if it is alive, or on
/// macOS that of a login session.
pub fn live_ssh_auth_sock(
    hint: Option<&str>,
    hint_live: bool,
    macos: bool,
    entries: &Vec<SessionEntry>,
) -> (r: Option<String>)
    ensures
        r.deep_view() == agent_socket(hint, hint_live, macos, entries@),
{
    match hint {
        Some(h) => {
            if hint_live {
                return Some(h.to_owned());
            }
        },
        None => {},
    }
    if !macos {
        return None;
    }
    let prefix = chars_of("com.apple.launchd.");
    let mut i: usize = 0;
    proof {
        assert(entries@.skip(0) =~= entries@);
    }
    while i < entries.len()
        invariant
            i <= entries@.len(),
            prefix@ == "com.apple.launchd."@,
            macos,
            hint is None || !hint_live,
            live_session(entries@) == i + live_session(entries@.skip(i as int)),
        decreases entries@.len() - i,
    {
        proof {
            assert(entries@.skip(i as int)[0] == entries@[i as int]);
            assert(entries@.skip(i as int).drop_first() =~= entries@.skip(i + 1));
        }
        let name = chars_of(entries[i].name.as_str());
        if after_prefix(name.as_slice(), prefix.as_slice()).is_some() && entries[i].live {
            let mut s = "/private/tmp/".to_owned();
            s.append(entries[i].name.as_str());
            s.append("/Listeners");
            return Some(s);
        }
        i += 1;
    }
    None
}

/// As whom a command is run.
pub struct CommandIdentity {
    pub uid: u32,
    pub gid: u32,
    pub home: String,
    /// `None` takes the variable out of the command's environment.
    pub ssh_auth_sock: Option<String>,
}

/// As whom a command is run for an owner, given the socket that was found.
pub fn command_identity(owner: &WorkspaceOwner, sock: Option<String>) -> (r: CommandIdentity)
    ensures
        r.uid == owner.uid,
        r.gid == owner.gid,
        r.home@ == owner.home@,
        r.ssh_auth_sock == sock,
{
    CommandIdentity {
        uid: owner.uid,
        gid: owner.gid,
        home: owner.home.clone(),
        ssh_auth_sock: sock,
    }
}

/// The session that is found is the first one of a login with a live socket; the
/// socket lies in its directory.
pub proof fn law_first_live_session_is_found(entries: Seq<SessionEntry>, k: int)
    requires
        0 <= k <= entries.len(),
        k < entries.len() ==> entries[k].live && begins_with(
            entries[k].name@,
            "com.apple.launchd."@,
        ),
        forall|i: int|
            0 <= i < k ==> !(#[trigger] entries[i]).live || !begins_with(
                entries[i].name@,
                "com.apple.launchd."@,
            ),
    ensures
        live_session(entries) == k,
        k < entries.len() ==> session_socket(entries[k].name@) == "/private/tmp/"@
            + entries[k].name@ + "/Listeners"@,
    decreases entries.len(),
{
    if entries.len() > 0 && k > 0 {
        let rest = entries.drop_first();
        assert(!entries[0].live || !begins_with(entries[0].name@, "com.apple.launchd."@));
        assert forall|i: int| 0 <= i < k - 1 implies !(#[trigger] rest[i]).live || !begins_with(
            rest[i].name@,
            "com.apple.launchd."@,
        ) by {
            assert(rest[i] == entries[i + 1]);
        }
        law_first_live_session_is_found(rest, k - 1);
    }
}

/// A socket that was known is kept while it is alive; otherwise a login session's one
/// is taken, on macOS and if there is a live one.
pub proof fn law_live_socket_is_kept(
    hint: &str,
    macos: bool,
    entries: Seq<SessionEntry>,
    k: int,
)
    requires
        0 <= k <= entries.len(),
        k < entries.len() ==> entries[k].live && begins_with(
            entries[k].name@,
            "com.apple.launchd."@,
        ),
        forall|i: int|
            0 <= i < k ==> !(#[trigger] entries[i]).live || !begins_with(
                entries[i].name@,
                "com.apple.launchd."@,
            ),
    ensures
        agent_socket(Some(hint), true, macos, entries) == Some(hint@),
        agent_socket(Some(hint), false, macos, entries) == agent_socket(None, true, macos, entries),
        agent_socket(None, true, false, entries) is None,
        agent_socket(None, true, true, entries) == (if k < entries.len() {
            Some("/private/tmp/"@ + entries[k].name@ + "/Listeners"@)
        } else {
            None
        }),
{
    law_first_live_session_is_found(entries, k);
}

} // verus!
