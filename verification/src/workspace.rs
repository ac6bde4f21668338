//! Where a workspace is, and what is cloned into it.

use vstd::prelude::*;

use crate::paths::{join_path, joined_path, plain_name};
use crate::resolver::url::{law_repo_is_named_by_its_last_segment, repo_name, repo_name_from_url};
use crate::text::{
    chars_of, finishes_with, lossy, lossy_text, string_of, trim_end, trim_start, trimmed,
};

verus! {

/// A repo to clone.
pub struct EntryClone {
    pub url: String,
    pub dest: String,
}

/// Where a workspace is, and what is cloned into it.
pub struct WorkspacePlan {
    pub dir: String,
    /// The repo that the workspace is entered by; it is cloned unless its
    /// directory is there.
    pub entry: Option<EntryClone>,
}

/// The directory of a workspace: the given one, or else the current one.
pub open spec fn workspace_dir(workspace: Option<&str>) -> Seq<char> {
    match workspace {
        Some(dir) => dir@,
        None => "."@,
    }
}

/// Where the repo of an entry is cloned to: a directory of the workspace that is
/// called like the repo.
pub open spec fn entry_dest(dir: Seq<char>, url: Seq<char>) -> Seq<char> {
    joined_path(dir, repo_name(url))
}

/// Where a workspace is, and what is cloned into it.
pub fn resolve_workspace(entry: Option<&str>, workspace: Option<&str>) -> (r: WorkspacePlan)
    ensures
        r.dir@ == workspace_dir(workspace),
        match entry {
            Some(url) => r.entry matches Some(c) && c.url@ == url@ && c.dest@ == entry_dest(
                workspace_dir(workspace),
                url@,
            ),
            None => r.entry is None,
        },
{
    let dir = match workspace {
        Some(dir) => dir.to_owned(),
        None => ".".to_owned(),
    };
    let entry = match entry {
        Some(url) => {
            let name = repo_name_from_url(url);
            Some(
                EntryClone { url: url.to_owned(), dest: join_path(dir.as_str(), name.as_str()) },
            )
        },
        None => None,
    };
    WorkspacePlan { dir, entry }
}

/// That a repo could not be cloned.
pub fn clone_failure(url: &str, stderr: &[u8]) -> (r: String)
    ensures
        r@ == "git clone failed for "@ + url@ + ": "@ + trimmed(lossy(stderr@)),
{
    let text = lossy_text(stderr);
    let cs = chars_of(text.as_str());
    let mut r = "git clone failed for ".to_owned();
    r.append(url);
    r.append(": ");
    r.append(string_of(trim_end(trim_start(cs.as_slice()))).as_str());
    r
}

/// A workspace is where it is said to be, and otherwise here; the repo that it is
/// entered by is cloned into it, to a directory that is called like the repo.
pub proof fn law_entry_is_cloned_into_the_workspace(
    dir: &str,
    front: Seq<char>,
    name: Seq<char>,
)
    requires
        dir@.len() > 0,
        dir@.last() != '/',
        plain_name(name),
        !finishes_with(name, ".git"@),
    ensures
        workspace_dir(Some(dir)) == dir@,
        workspace_dir(None) == "."@,
        entry_dest(dir@, front + "/"@ + name + ".git"@) == dir@ + "/"@ + name,
        entry_dest("."@, front + "/"@ + name) == "."@ + "/"@ + name,
{
    reveal_strlit(".");
    law_repo_is_named_by_its_last_segment(front, name);
    assert(name.contains(name[0]));
}

} // verus!
