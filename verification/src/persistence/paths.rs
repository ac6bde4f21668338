//! Where durable state is kept.

use vstd::prelude::*;

use crate::paths::{join_path, joined_path};

verus! {

/// The directory that the daemon owns. On macOS it is spelled without the
/// symbolic link that `/var` is there.
pub open spec fn root_path(macos: bool) -> Seq<char> {
    if macos {
        "/private/var/lib/fghjd"@
    } else {
        "/var/lib/fghjd"@
    }
}

/// The directory that the daemon owns.
pub fn fghjd_root(macos: bool) -> (r: String)
    ensures
        r@ == root_path(macos),
{
    if macos {
        "/private/var/lib/fghjd".to_owned()
    } else {
        "/var/lib/fghjd".to_owned()
    }
}

/// The file that lists the workspaces.
pub fn default_index_path(macos: bool) -> (r: String)
    ensures
        r@ == joined_path(root_path(macos), "workspaces.json"@),
{
    join_path(fghjd_root(macos).as_str(), "workspaces.json")
}

/// The file that holds the daemon's own state.
pub fn default_state_path(macos: bool) -> (r: String)
    ensures
        r@ == joined_path(root_path(macos), "daemon-state.json"@),
{
    join_path(fghjd_root(macos).as_str(), "daemon-state.json")
}

/// The database of a workspace.
pub open spec fn database_file(workspace: Seq<char>) -> Seq<char> {
    joined_path(joined_path(workspace, ".fghj"@), "fghj.db"@)
}

/// The database of a workspace.
pub fn database_path(workspace: &str) -> (r: String)
    ensures
        r@ == database_file(workspace@),
{
    join_path(join_path(workspace, ".fghj").as_str(), "fghj.db")
}

/// The daemon's state lies in its own directory, and the database of a workspace
/// within the workspace.
pub proof fn law_state_has_its_place(workspace: Seq<char>)
    requires
        workspace.len() > 0,
        workspace.last() != '/',
    ensures
        root_path(true) == "/private"@ + root_path(false),
        root_path(false) == "/var/lib/fghjd"@,
        joined_path(root_path(false), "workspaces.json"@) == "/var/lib/fghjd/workspaces.json"@,
        database_file(workspace) == workspace + "/.fghj/fghj.db"@,
{
    reveal_strlit("/private/var/lib/fghjd");
    reveal_strlit("/private");
    reveal_strlit("/var/lib/fghjd");
    reveal_strlit("/var/lib/fghjd/workspaces.json");
    reveal_strlit("workspaces.json");
    reveal_strlit("/");
    reveal_strlit(".fghj");
    reveal_strlit("fghj.db");
    reveal_strlit("/.fghj/fghj.db");
    assert(root_path(true) =~= "/private"@ + root_path(false));
    assert(joined_path(root_path(false), "workspaces.json"@) =~= "/var/lib/fghjd/workspaces.json"@);
    assert(joined_path(workspace, ".fghj"@) =~= workspace + "/.fghj"@) by {
        reveal_strlit("/.fghj");
    }
    assert(database_file(workspace) =~= workspace + "/.fghj/fghj.db"@) by {
        reveal_strlit("/.fghj");
    }
}

} // verus!
