//! Names that a run's containers are reachable under.

use vstd::prelude::*;

use crate::text::{chars_of, label_char, label_text, same_text, sanitize_label, to_label_char};

verus! {

/// The id of the run that every workspace has.
pub const DEFAULT_RUN_ID: &'static str = "default";

/// The suffix of every name that a node can be reached under.
pub const ZONE_SUFFIX: &'static str = ".fghj.internal";

/// A node id as it stands in a domain: every label is sanitized, the dots
/// between them stay.
pub open spec fn id_labels(id: Seq<char>) -> Seq<char> {
    id.map_values(|c: char| if c == '.' { c } else { label_char(c) })
}

/// The domain of a node: its id, the run unless it is the default one or the
/// node has one fixed identity, and the workspace.
pub open spec fn domain_of(
    id: Seq<char>,
    domain_scope: Seq<char>,
    workspace_name: Seq<char>,
    run_id: Seq<char>,
) -> Seq<char> {
    let run = if domain_scope == "stable"@ || run_id == DEFAULT_RUN_ID@ {
        Seq::empty()
    } else {
        "."@ + label_text(run_id)
    };
    id_labels(id) + run + "."@ + label_text(workspace_name) + ZONE_SUFFIX@
}

fn sanitize_id(id: &str) -> (r: String)
    ensures
        r@ == id_labels(id@),
{
    let cs = chars_of(id);
    let mut out = String::new();
    let mut i: usize = 0;
    while i < cs.len()
        invariant
            i <= cs@.len(),
            out@ == id_labels(cs@.take(i as int)),
        decreases cs@.len() - i,
    {
        let c: char = cs[i];
        out.push(if c == '.' { c } else { to_label_char(c) });
        proof {
            assert(out@ =~= id_labels(cs@.take(i + 1)));
        }
        i += 1;
    }
    proof {
        assert(cs@.take(cs@.len() as int) =~= cs@);
    }
    out
}

/// The domain of a node in a run.
pub fn derive_domain(id: &str, domain_scope: &str, workspace_name: &str, run_id: &str) -> (r: String)
    ensures
        r@ == domain_of(id@, domain_scope@, workspace_name@, run_id@),
{
    let mut r = sanitize_id(id);
    if !same_text(domain_scope, "stable") && !same_text(run_id, DEFAULT_RUN_ID) {
        r.append(".");
        r.append(sanitize_label(run_id).as_str());
        proof {
            assert(r@ =~= id_labels(id@) + ("."@ + label_text(run_id@)));
        }
    } else {
        proof {
            assert(r@ =~= id_labels(id@) + Seq::<char>::empty());
        }
    }
    r.append(".");
    r.append(sanitize_label(workspace_name).as_str());
    r.append(ZONE_SUFFIX);
    r
}

/// Two runs never give one node the same domain, unless their ids have the same
/// label; a node with one fixed identity has the same domain in all of them.
pub proof fn law_runs_keep_their_domains_apart(
    id: Seq<char>,
    domain_scope: Seq<char>,
    workspace_name: Seq<char>,
    a: Seq<char>,
    b: Seq<char>,
)
    ensures
        domain_scope == "stable"@ ==> domain_of(id, domain_scope, workspace_name, a) == domain_of(
            id,
            domain_scope,
            workspace_name,
            b,
        ),
        domain_scope != "stable"@ && a != b && (a == DEFAULT_RUN_ID@ || b == DEFAULT_RUN_ID@
            || label_text(a) != label_text(b)) ==> domain_of(id, domain_scope, workspace_name, a)
            != domain_of(id, domain_scope, workspace_name, b),
{
    reveal_strlit(".");
    let x = domain_of(id, domain_scope, workspace_name, a);
    let y = domain_of(id, domain_scope, workspace_name, b);
    if domain_scope != "stable"@ && a != b && x == y {
        assert(x.len() == y.len());
        let n = id_labels(id).len() as int;
        if a != DEFAULT_RUN_ID@ && b != DEFAULT_RUN_ID@ {
            let la = label_text(a);
            let lb = label_text(b);
            assert(x.subrange(n + 1, n + 1 + la.len()) =~= la);
            assert(y.subrange(n + 1, n + 1 + lb.len()) =~= lb);
            assert(la == lb);
        }
    }
}

/// Whether a text can stand in a domain as it is.
pub open spec fn domain_ready(s: Seq<char>) -> bool {
    forall|i: int|
        0 <= i < s.len() ==> ('a' <= #[trigger] s[i] <= 'z' || '0' <= s[i] <= '9' || s[i] == '-')
}

/// A domain names the node, the run and the workspace, in this order and below
/// the zone; the default run, and a node with one fixed identity, go without the
/// run. The dots of a node's id stay, and each label of it is a label.
pub proof fn law_domain_names_node_run_and_workspace(
    id: Seq<char>,
    domain_scope: Seq<char>,
    workspace_name: Seq<char>,
    run_id: Seq<char>,
)
    requires
        domain_ready(workspace_name),
        domain_ready(run_id),
    ensures
        ({
            let name = Seq::new(
                id.len(),
                |i: int|
                    if id[i] == '.' {
                        '.'
                    } else {
                        label_text(id)[i]
                    },
            );
            domain_of(id, domain_scope, workspace_name, run_id) == (if run_id == "default"@
                || domain_scope == "stable"@ {
                name + "."@ + workspace_name + ".fghj.internal"@
            } else {
                name + "."@ + run_id + "."@ + workspace_name + ".fghj.internal"@
            })
        }),
{
    let name = Seq::new(
        id.len(),
        |i: int|
            if id[i] == '.' {
                '.'
            } else {
                label_text(id)[i]
            },
    );
    assert(id_labels(id) =~= name);
    assert(label_text(workspace_name) =~= workspace_name);
    assert(label_text(run_id) =~= run_id);
    assert(name + Seq::<char>::empty() =~= name);
    assert(name + ("."@ + run_id) =~= name + "."@ + run_id);
}

} // verus!
