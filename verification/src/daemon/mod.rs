//! The daemon's rules: which workspaces it serves, and when it is active.

use vstd::prelude::*;

use crate::paths::{join_path, joined_path};
use crate::persistence::paths::{fghjd_root, root_path};

pub mod answers;
pub mod api;
pub mod control;
pub mod exec;
pub mod registry;
pub mod workspace_id;

verus! {

/// Where the control API listens.
pub fn socket_path() -> (r: String)
    ensures
        r@ == "/var/run/fghjd.sock"@,
{
    "/var/run/fghjd.sock".to_owned()
}

/// Where the certificate authority is kept.
pub fn ca_dir(macos: bool) -> (r: String)
    ensures
        r@ == joined_path(root_path(macos), "ca"@),
{
    join_path(fghjd_root(macos).as_str(), "ca")
}

/// The socket of Docker's active context, given whether the `docker` command
/// succeeded and what it printed.
pub fn context_host(succeeded: bool, printed: &str) -> (r: Option<String>)
    ensures
        r.deep_view() == (if succeeded && crate::text::trimmed(printed@).len() > 0 {
            Some(crate::text::trimmed(printed@))
        } else {
            None
        }),
{
    if !succeeded {
        return None;
    }
    let cs = crate::text::chars_of(printed);
    let host = crate::text::trim_end(crate::text::trim_start(cs.as_slice()));
    if host.len() == 0 {
        None
    } else {
        Some(crate::text::string_of(host))
    }
}

} // verus!
