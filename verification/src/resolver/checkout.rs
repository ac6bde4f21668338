//! What is read off the checkouts of a workspace.

use vstd::prelude::*;

use crate::paths::{join_path, joined_path};
use crate::resolver::url::{law_repo_is_named_by_its_last_segment, repo_name, repo_name_from_url};
use crate::seqs::lemma_filter_holds;
use crate::text::{
    chars_of, finishes_with, lossy, lossy_text, string_of, trim_end, trim_start, trimmed,
};

verus! {

/// The file by which a directory of a workspace is known as a checkout.
pub const COMPONENT_FILE: &'static str = "fghj.yaml";

/// An entry of a workspace's directory.
pub struct WorkspaceEntry {
    pub name: String,
    pub is_dir: bool,
    /// Whether it holds a component file.
    pub has_component: bool,
}

/// Whether an entry is a checkout.
pub open spec fn is_checkout(e: WorkspaceEntry) -> bool {
    e.is_dir && e.has_component
}

/// The names of the checkouts of a workspace, in the order of its entries.
pub fn checkouts(entries: &Vec<WorkspaceEntry>) -> (r: Vec<String>)
    ensures
        r.deep_view() == entries@.filter(|e: WorkspaceEntry| is_checkout(e)).map_values(
            |e: WorkspaceEntry| e.name@,
        ),
{
    let ghost p = |e: WorkspaceEntry| is_checkout(e);
    let ghost f = |e: WorkspaceEntry| e.name@;
    let mut r: Vec<String> = Vec::new();
    let mut i: usize = 0;
    proof {
        assert(r.deep_view() =~= entries@.take(0).filter(p).map_values(f));
    }
    while i < entries.len()
        invariant
            i <= entries@.len(),
            p == (|e: WorkspaceEntry| is_checkout(e)),
            f == (|e: WorkspaceEntry| e.name@),
            r.deep_view() == entries@.take(i as int).filter(p).map_values(f),
        decreases entries@.len() - i,
    {
        let e = &entries[i];
        let ghost kept = entries@.take(i as int).filter(p);
        proof {
            assert(entries@.take(i + 1) =~= entries@.take(i as int).push(entries@[i as int]));
            entries@.take(i as int).lemma_filter_push(entries@[i as int], p);
            assert(kept.push(*e).map_values(f) =~= kept.map_values(f).push(f(*e)));
        }
        if e.is_dir && e.has_component {
            let ghost before = r.deep_view();
            r.push(e.name.clone());
            proof {
                assert(r.deep_view() =~= before.push(e.name@));
            }
        }
        i += 1;
    }
    proof {
        assert(entries@.take(entries@.len() as int) =~= entries@);
    }
    r
}

/// What a git command printed.
pub struct Printed {
    /// Whether the command could be run and succeeded.
    pub succeeded: bool,
    pub stdout: Vec<u8>,
}

/// What a git command says of a checkout, if it succeeded.
pub open spec fn fact_of(printed: Printed) -> Option<Seq<char>> {
    if printed.succeeded {
        Some(trimmed(lossy(printed.stdout@)))
    } else {
        None
    }
}

/// Whether a checkout is taken to have changes, given what `git status` printed.
pub open spec fn seems_dirty(printed: Printed) -> bool {
    !printed.succeeded || printed.stdout@.len() > 0
}

/// What git says of a checkout, such as its remote or its branch: what it printed,
/// without white space around it; nothing if it failed.
pub fn git_fact(printed: &Printed) -> (r: Option<String>)
    ensures
        r.deep_view() == fact_of(*printed),
{
    if printed.succeeded {
        let text = lossy_text(printed.stdout.as_slice());
        let cs = chars_of(text.as_str());
        Some(string_of(trim_end(trim_start(cs.as_slice()))))
    } else {
        None
    }
}

/// Whether a checkout has changes that are not committed, given what git printed
/// of its status. One whose status cannot be read counts as changed.
pub fn git_status_dirty(printed: &Printed) -> (r: bool)
    ensures
        r == seems_dirty(*printed),
{
    !printed.succeeded || printed.stdout.len() > 0
}

/// Where the mirror of a repo is kept.
pub open spec fn mirror_of(repo: Seq<char>, workdir: Seq<char>) -> Seq<char> {
    joined_path(workdir, repo_name(repo) + ".git"@)
}

/// Where the mirror of a repo is kept.
pub fn mirror_path(repo: &str, workdir: &str) -> (r: String)
    ensures
        r@ == mirror_of(repo@, workdir@),
{
    let mut name = repo_name_from_url(repo);
    name.append(".git");
    join_path(workdir, name.as_str())
}

/// That a repo could not be mirrored.
pub fn mirror_failure(repo: &str, stderr: &[u8]) -> (r: String)
    ensures
        r@ == "git clone --mirror failed for "@ + repo@ + ": "@ + trimmed(lossy(stderr@)),
{
    let text = lossy_text(stderr);
    let cs = chars_of(text.as_str());
    let mut r = "git clone --mirror failed for ".to_owned();
    r.append(repo);
    r.append(": ");
    r.append(string_of(trim_end(trim_start(cs.as_slice()))).as_str());
    r
}

/// A checkout is a directory with a component file; the checkouts are listed by their
/// names.
pub proof fn law_checkouts_are_directories_with_a_component(
    entries: Seq<WorkspaceEntry>,
    name: Seq<char>,
)
    ensures
        entries.filter(|e: WorkspaceEntry| is_checkout(e)).map_values(
            |e: WorkspaceEntry| e.name@,
        ).contains(name) <==> exists|i: int|
            0 <= i < entries.len() && (#[trigger] entries[i]).name@ == name && entries[i].is_dir
                && entries[i].has_component,
{
    let p = |e: WorkspaceEntry| is_checkout(e);
    let f = |e: WorkspaceEntry| e.name@;
    let kept = entries.filter(p);
    let names = kept.map_values(f);
    if names.contains(name) {
        let k = choose|k: int| 0 <= k < names.len() && names[k] == name;
        assert(kept.contains(kept[k]));
        lemma_filter_holds(entries, p, kept[k]);
        let i = choose|i: int| 0 <= i < entries.len() && entries[i] == kept[k];
        assert(entries[i].name@ == name);
    }
    if exists|i: int|
        0 <= i < entries.len() && (#[trigger] entries[i]).name@ == name && entries[i].is_dir
            && entries[i].has_component {
        let i = choose|i: int|
            0 <= i < entries.len() && (#[trigger] entries[i]).name@ == name && entries[i].is_dir
                && entries[i].has_component;
        assert(entries.contains(entries[i]));
        lemma_filter_holds(entries, p, entries[i]);
        let k = choose|k: int| 0 <= k < kept.len() && kept[k] == entries[i];
        assert(names[k] == name);
    }
}

/// A mirror is a directory of the working directory that is called like the repo, with
/// the ending of a bare one.
pub proof fn law_mirror_is_called_like_its_repo(
    front: Seq<char>,
    name: Seq<char>,
    workdir: Seq<char>,
)
    requires
        name.len() > 0,
        !name.contains('/'),
        !finishes_with(name, ".git"@),
        workdir.len() > 0,
        workdir.last() != '/',
    ensures
        mirror_of(front + "/"@ + name, workdir) == workdir + "/"@ + (name + ".git"@),
        mirror_of(front + "/"@ + name + ".git"@, workdir) == workdir + "/"@ + (name + ".git"@),
{
    law_repo_is_named_by_its_last_segment(front, name);
    assert(name.contains(name[0]));
    assert((name + ".git"@)[0] == name[0]);
}

/// A checkout is clean only if git could say so and found no change; a fact is what git
/// printed without the white space around it, and there is none where it failed.
pub proof fn law_failed_commands_say_nothing(printed: Printed)
    ensures
        !seems_dirty(printed) <==> printed.succeeded && printed.stdout@.len() == 0,
        !printed.succeeded ==> fact_of(printed) is None,
        printed.succeeded ==> fact_of(printed) == Some(trimmed(lossy(printed.stdout@))),
{
}

} // verus!
