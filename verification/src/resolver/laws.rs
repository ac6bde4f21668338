//! What holds of the graph of every workspace: each declaration has its edge, and each
//! edge its declaration.

use vstd::prelude::*;

use crate::resolver::flows::{flows_reaching, reachable, reachable_in, step, FlowRootView};
use crate::resolver::graph::{
    BackingDependencyConfigView, DependencyView, EdgeView, EnvironmentView, NodeView,
    PortConfigView, ScanView, ScannedRepoView,
};
use crate::resolver::url::{normalized, repo_name};
use crate::resolver::visit::{
    backing_id, backing_node, choice, dependencies_followed, dependency_followed, env_pairs,
    folder_of, index_of_repos, ports_checked, repo_visited, service_followed,
    service_id, service_node, service_picked, services_followed, services_registered,
    sibling_followed, stub_node, wanted_followed, wanted_services, CtxView,
};
use crate::resolver::{
    dangling, dangling_warning, finished_node, flows_followed, has_node,
    repo_flows_followed, repos_visited, universe, walked,
};
use crate::runs::domain_of;
use crate::seqs::lemma_filter_holds;
use crate::strmap::{
    ascending, lemma_ascending_len, lemma_ascending_of_set, strictly_ascending,
};
use crate::text::text_lt;

verus! {

/// Whether all that a scan holds can be counted.
pub open spec fn countable_scan(scan: ScanView) -> bool {
    &&& scan.repos.dom().finite()
    &&& forall|f: Seq<char>| #[trigger]
        scan.repos.dom().contains(f) ==> scan.repos[f].component.services.dom().finite()
            && scan.repos[f].component.flows.dom().finite()
}

/// Whether the remote of a repo on disk is a spelling of a URL.
pub open spec fn has_remote(scan: ScanView, folder: Seq<char>, url: Seq<char>) -> bool {
    &&& scan.repos.dom().contains(folder)
    &&& scan.repos[folder].remote matches Some(remote) && normalized(remote) == normalized(url)
}

proof fn lemma_index_of_repos(scan: ScanView, folders: Seq<Seq<char>>, url: Seq<char>)
    requires
        strictly_ascending(folders),
        forall|i: int| 0 <= i < folders.len() ==> scan.repos.dom().contains(#[trigger] folders[i]),
    ensures
        ({
            let m = index_of_repos(scan.repos, folders);
            let key = normalized(url);
            &&& m.dom().contains(key) <==> exists|i: int|
                0 <= i < folders.len() && has_remote(scan, #[trigger] folders[i], url)
            &&& m.dom().contains(key) ==> folders.contains(m[key]) && has_remote(scan, m[key], url)
                && forall|i: int|
                0 <= i < folders.len() && has_remote(scan, #[trigger] folders[i], url)
                    ==> folders[i] == m[key] || text_lt(m[key], folders[i])
        }),
    decreases folders.len(),
{
    if folders.len() > 0 {
        let front = folders.drop_last();
        let last = folders.last();
        let key = normalized(url);
        assert forall|i: int, j: int|
            #![trigger front[i], front[j]]
            0 <= i < j < front.len() implies text_lt(front[i], front[j]) by {
            assert(text_lt(folders[i], folders[j]));
        }
        assert forall|i: int| 0 <= i < front.len() implies scan.repos.dom().contains(
            #[trigger] front[i],
        ) by {
            assert(scan.repos.dom().contains(folders[i]));
        }
        lemma_index_of_repos(scan, front, url);
        let m = index_of_repos(scan.repos, front);
        let after = index_of_repos(scan.repos, folders);
        assert(folders[folders.len() - 1] == last);
        if m.dom().contains(key) {
            let k = choose|k: int| 0 <= k < front.len() && front[k] == m[key];
            assert(after[key] == m[key]);
            assert(folders[k] == m[key]);
            assert forall|i: int|
                0 <= i < folders.len() && has_remote(
                    scan,
                    #[trigger] folders[i],
                    url,
                ) implies folders[i] == after[key] || text_lt(after[key], folders[i]) by {
                if i < front.len() {
                    assert(front[i] == folders[i]);
                } else {
                    assert(text_lt(folders[k], folders[i]));
                }
            }
        } else if has_remote(scan, last, url) {
            assert(after[key] == last);
            assert forall|i: int|
                0 <= i < folders.len() && has_remote(
                    scan,
                    #[trigger] folders[i],
                    url,
                ) implies folders[i] == last by {
                if i < front.len() {
                    assert(front[i] == folders[i]);
                }
            }
        } else {
            assert(!after.dom().contains(key));
            assert forall|i: int| 0 <= i < folders.len() implies !has_remote(
                scan,
                #[trigger] folders[i],
                url,
            ) by {
                if i < front.len() {
                    assert(front[i] == folders[i]);
                }
            }
        }
        if after.dom().contains(key) && m.dom().contains(key) {
            let i = choose|i: int|
                0 <= i < front.len() && has_remote(scan, #[trigger] front[i], url);
            assert(folders[i] == front[i]);
        }
    }
}

/// A repo is looked for where a checkout has it as its remote, however either is spelled,
/// and in the first folder if there are several; only without such a checkout in the
/// folder of its own name.
pub proof fn law_repo_is_found_by_its_remote(scan: ScanView, url: Seq<char>)
    requires
        countable_scan(scan),
    ensures
        ({
            let home = folder_of(scan, url);
            &&& (exists|f: Seq<char>| has_remote(scan, f, url)) ==> has_remote(scan, home, url)
            &&& (forall|f: Seq<char>| !has_remote(scan, f, url)) ==> home == repo_name(url)
            &&& forall|f: Seq<char>|
                has_remote(scan, f, url) ==> f == home || text_lt(home, f)
        }),
{
    let folders = ascending(scan.repos.dom());
    lemma_ascending_of_set(scan.repos.dom());
    assert forall|i: int| 0 <= i < folders.len() implies scan.repos.dom().contains(
        #[trigger] folders[i],
    ) by {
        assert(folders.to_set().contains(folders[i]));
    }
    lemma_index_of_repos(scan, folders, url);
    assert forall|f: Seq<char>| has_remote(scan, f, url) implies exists|i: int|
        0 <= i < folders.len() && #[trigger] folders[i] == f by {
        assert(folders.to_set().contains(f));
        let i = choose|i: int| 0 <= i < folders.len() && folders[i] == f;
        assert(folders[i] == f);
    }
}

/// The folder that a dependency refers to: the owner's own without a repo.
pub open spec fn home_of(scan: ScanView, folder: Seq<char>, repo: Option<Seq<char>>) -> Seq<char> {
    match repo {
        Some(url) => folder_of(scan, url),
        None => folder,
    }
}

/// Whether an edge is there.
pub open spec fn has_edge(
    edges: Seq<EdgeView>,
    from: Seq<char>,
    to: Seq<char>,
    kind: Seq<char>,
    branch: Option<Seq<char>>,
) -> bool {
    exists|i: int|
        0 <= i < edges.len() && (#[trigger] edges[i]).from == from && edges[i].to == to
            && edges[i].kind == kind && edges[i].branch == branch
}

/// Whether a reference means a service of a repo: by its name, or as the only one.
pub open spec fn means(
    scan: ScanView,
    home: Seq<char>,
    wanted: Option<Seq<char>>,
    name: Seq<char>,
) -> bool {
    let services = scan.repos[home].component.services.dom();
    &&& services.contains(name)
    &&& match wanted {
        Some(n) => n == name,
        None => forall|other: Seq<char>| #[trigger] services.contains(other) ==> other == name,
    }
}

/// Whether a reference to one service has its edge: to the service that is meant where
/// the repo is on disk, and else to a node that stands for the repo.
pub open spec fn met(
    scan: ScanView,
    c: CtxView,
    owner: Seq<char>,
    folder: Seq<char>,
    repo: Option<Seq<char>>,
    branch: Seq<char>,
    wanted: Option<Seq<char>>,
) -> bool {
    let home = home_of(scan, folder, repo);
    match repo {
        None => forall|name: Seq<char>| #[trigger]
            means(scan, home, wanted, name) && name + "."@ + home != owner ==> has_edge(
                c.edges,
                owner,
                name + "."@ + home,
                "depends-on"@,
                None,
            ),
        Some(_) => if scan.repos.dom().contains(home) {
            forall|name: Seq<char>| #[trigger]
                means(scan, home, wanted, name) ==> has_edge(
                    c.edges,
                    owner,
                    name + "."@ + home,
                    "depends-on"@,
                    Some(branch),
                )
        } else {
            exists|id: Seq<char>| #[trigger]
                c.nodes.dom().contains(id) && has_edge(
                    c.edges,
                    owner,
                    id,
                    "depends-on"@,
                    Some(branch),
                )
        },
    }
}

/// The branch that a dependency names, or none.
pub open spec fn named_branch(default_branch: Option<Seq<char>>) -> Seq<char> {
    match default_branch {
        Some(b) => b,
        None => Seq::empty(),
    }
}

/// Whether a dependency of an owner has its edges.
pub open spec fn honoured(
    scan: ScanView,
    c: CtxView,
    owner: Seq<char>,
    folder: Seq<char>,
    dep: DependencyView,
) -> bool {
    match dep {
        DependencyView::Backing(b) => c.nodes.dom().contains(b.name + "."@ + owner) && has_edge(
            c.edges,
            owner,
            b.name + "."@ + owner,
            "owns"@,
            None,
        ),
        DependencyView::SharedBacking { repo, service, name } => has_edge(
            c.edges,
            owner,
            name + "."@ + (service + "."@ + home_of(scan, folder, repo)),
            "shared-backing"@,
            None,
        ),
        DependencyView::Service { repo, default_branch, services } => {
            let branch = named_branch(default_branch);
            &&& services.len() == 0 ==> met(scan, c, owner, folder, repo, branch, None)
            &&& forall|k: int|
                0 <= k < services.len() ==> met(
                    scan,
                    c,
                    owner,
                    folder,
                    repo,
                    branch,
                    Some(#[trigger] services[k]),
                )
        },
    }
}

/// Whether every dependency of every service of a repo has its edges.
pub open spec fn all_honoured(scan: ScanView, c: CtxView, folder: Seq<char>) -> bool {
    forall|name: Seq<char>, k: int|
        #![trigger scan.repos[folder].component.services[name].dependencies[k]]
        scan.repos[folder].component.services.dom().contains(name) && 0 <= k
            < scan.repos[folder].component.services[name].dependencies.len() ==> honoured(
            scan,
            c,
            name + "."@ + folder,
            folder,
            scan.repos[folder].component.services[name].dependencies[k],
        )
}

/// Whether an edge is one that a dependency of an owner asks for.
pub open spec fn stems_from(
    scan: ScanView,
    owner: Seq<char>,
    folder: Seq<char>,
    dep: DependencyView,
    e: EdgeView,
) -> bool {
    &&& e.from == owner
    &&& match dep {
        DependencyView::Backing(b) => e.kind == "owns"@ && e.to == b.name + "."@ + owner
            && e.branch is None,
        DependencyView::SharedBacking { repo, service, name } => e.kind == "shared-backing"@
            && e.to == name + "."@ + (service + "."@ + home_of(scan, folder, repo))
            && e.branch is None,
        DependencyView::Service { repo, default_branch, services } => {
            let home = home_of(scan, folder, repo);
            &&& e.kind == "depends-on"@
            &&& e.branch == (if repo is Some {
                Some(named_branch(default_branch))
            } else {
                None
            })
            &&& repo is None || scan.repos.dom().contains(home) ==> exists|name: Seq<char>|
                e.to == #[trigger] (name + "."@ + home) && ((services.len() == 0 && means(
                    scan,
                    home,
                    None,
                    name,
                )) || (services.contains(name) && means(scan, home, Some(name), name)))
        },
    }
}

/// Whether an edge is one that a service or a flow of a repo on disk asks for.
pub open spec fn declared(scan: ScanView, e: EdgeView) -> bool {
    ||| exists|folder: Seq<char>, name: Seq<char>, k: int|
        #![trigger scan.repos[folder].component.services[name].dependencies[k]]
        scan.repos.dom().contains(folder)
            && scan.repos[folder].component.services.dom().contains(name) && 0 <= k
            < scan.repos[folder].component.services[name].dependencies.len() && stems_from(
            scan,
            name + "."@ + folder,
            folder,
            scan.repos[folder].component.services[name].dependencies[k],
            e,
        )
    ||| exists|folder: Seq<char>, flow: Seq<char>, root: Seq<char>, k: int|
        #![trigger scan.repos[folder].component.flows[flow].dependencies[k], means(scan, folder, scan.repos[folder].component.flows[flow].service, root)]
        scan.repos.dom().contains(folder) && scan.repos[folder].component.flows.dom().contains(flow)
            && means(scan, folder, scan.repos[folder].component.flows[flow].service, root) && 0
            <= k < scan.repos[folder].component.flows[flow].dependencies.len() && stems_from(
            scan,
            root + "."@ + folder,
            folder,
            scan.repos[folder].component.flows[flow].dependencies[k],
            e,
        )
}

/// Whether a node is the node of a service of a repo on disk, of a backing dependency of
/// some owner, or of a repo that is not on disk.
pub open spec fn stands_for_something(scan: ScanView, n: NodeView) -> bool {
    ||| exists|folder: Seq<char>, name: Seq<char>|
        scan.repos.dom().contains(folder)
            && scan.repos[folder].component.services.dom().contains(name) && n
            == #[trigger] service_node(name, folder, scan.repos[folder])
    ||| exists|owner: Seq<char>, b: BackingDependencyConfigView|
        n == #[trigger] backing_node(owner, b)
    ||| exists|url: Seq<char>, branch: Seq<char>|
        n == #[trigger] stub_node(n.id, url, branch) && !scan.repos.dom().contains(
            folder_of(scan, url),
        )
}

/// What a part of the walk does: nothing that was known is lost, every repo that it is
/// the first to enter has its edges in the end, and every new edge is declared.
spec fn walks(scan: ScanView, a: CtxView, b: CtxView) -> bool {
    &&& a.grows_into(b)
    &&& a.nodes.dom().finite() ==> b.nodes.dom().finite()
    &&& forall|k: Seq<char>| #[trigger]
        b.nodes.dom().contains(k) && !a.nodes.dom().contains(k) ==> b.nodes[k].id == k
            && stands_for_something(scan, b.nodes[k])
    &&& forall|f: Seq<char>| #[trigger]
        b.visited.contains(f) && !a.visited.contains(f) ==> all_honoured(scan, b, f)
    &&& forall|i: int|
        a.edges.len() <= i < b.edges.len() ==> declared(scan, #[trigger] b.edges[i])
}

/// The same, but that some new edges may stem from one dependency of an owner.
spec fn walks_for(
    scan: ScanView,
    a: CtxView,
    b: CtxView,
    owner: Seq<char>,
    folder: Seq<char>,
    dep: DependencyView,
) -> bool {
    &&& a.grows_into(b)
    &&& a.nodes.dom().finite() ==> b.nodes.dom().finite()
    &&& forall|k: Seq<char>| #[trigger]
        b.nodes.dom().contains(k) && !a.nodes.dom().contains(k) ==> b.nodes[k].id == k
            && stands_for_something(scan, b.nodes[k])
    &&& forall|f: Seq<char>| #[trigger]
        b.visited.contains(f) && !a.visited.contains(f) ==> all_honoured(scan, b, f)
    &&& forall|i: int|
        a.edges.len() <= i < b.edges.len() ==> declared(scan, #[trigger] b.edges[i]) || stems_from(
            scan,
            owner,
            folder,
            dep,
            b.edges[i],
        )
}

proof fn lemma_edge_stays(
    a: CtxView,
    b: CtxView,
    from: Seq<char>,
    to: Seq<char>,
    kind: Seq<char>,
    branch: Option<Seq<char>>,
)
    requires
        a.grows_into(b),
        has_edge(a.edges, from, to, kind, branch),
    ensures
        has_edge(b.edges, from, to, kind, branch),
{
    let i = choose|i: int|
        0 <= i < a.edges.len() && (#[trigger] a.edges[i]).from == from && a.edges[i].to == to
            && a.edges[i].kind == kind && a.edges[i].branch == branch;
    assert(b.edges[i] == a.edges[i]);
}

proof fn lemma_met_stays(
    scan: ScanView,
    a: CtxView,
    b: CtxView,
    owner: Seq<char>,
    folder: Seq<char>,
    repo: Option<Seq<char>>,
    branch: Seq<char>,
    wanted: Option<Seq<char>>,
)
    requires
        a.grows_into(b),
        met(scan, a, owner, folder, repo, branch, wanted),
    ensures
        met(scan, b, owner, folder, repo, branch, wanted),
{
    let home = home_of(scan, folder, repo);
    match repo {
        None => {
            assert forall|name: Seq<char>| #[trigger]
                means(scan, home, wanted, name) && name + "."@ + home != owner implies has_edge(
                b.edges,
                owner,
                name + "."@ + home,
                "depends-on"@,
                None,
            ) by {
                lemma_edge_stays(a, b, owner, name + "."@ + home, "depends-on"@, None);
            }
        },
        Some(_) => {
            if scan.repos.dom().contains(home) {
                assert forall|name: Seq<char>| #[trigger]
                    means(scan, home, wanted, name) implies has_edge(
                    b.edges,
                    owner,
                    name + "."@ + home,
                    "depends-on"@,
                    Some(branch),
                ) by {
                    lemma_edge_stays(a, b, owner, name + "."@ + home, "depends-on"@, Some(branch));
                }
            } else {
                let id = choose|id: Seq<char>| #[trigger]
                    a.nodes.dom().contains(id) && has_edge(
                        a.edges,
                        owner,
                        id,
                        "depends-on"@,
                        Some(branch),
                    );
                lemma_edge_stays(a, b, owner, id, "depends-on"@, Some(branch));
                assert(b.nodes.dom().contains(id));
            }
        },
    }
}

proof fn lemma_honoured_stays(
    scan: ScanView,
    a: CtxView,
    b: CtxView,
    owner: Seq<char>,
    folder: Seq<char>,
    dep: DependencyView,
)
    requires
        a.grows_into(b),
        honoured(scan, a, owner, folder, dep),
    ensures
        honoured(scan, b, owner, folder, dep),
{
    match dep {
        DependencyView::Backing(d) => {
            lemma_edge_stays(a, b, owner, d.name + "."@ + owner, "owns"@, None);
        },
        DependencyView::SharedBacking { repo, service, name } => {
            let to = name + "."@ + (service + "."@ + home_of(scan, folder, repo));
            lemma_edge_stays(a, b, owner, to, "shared-backing"@, None);
        },
        DependencyView::Service { repo, default_branch, services } => {
            let branch = named_branch(default_branch);
            if services.len() == 0 {
                lemma_met_stays(scan, a, b, owner, folder, repo, branch, None);
            }
            assert forall|k: int| 0 <= k < services.len() implies met(
                scan,
                b,
                owner,
                folder,
                repo,
                branch,
                Some(#[trigger] services[k]),
            ) by {
                lemma_met_stays(scan, a, b, owner, folder, repo, branch, Some(services[k]));
            }
        },
    }
}

proof fn lemma_all_honoured_stays(scan: ScanView, a: CtxView, b: CtxView, folder: Seq<char>)
    requires
        a.grows_into(b),
        all_honoured(scan, a, folder),
    ensures
        all_honoured(scan, b, folder),
{
    assert forall|name: Seq<char>, k: int|
        #![trigger scan.repos[folder].component.services[name].dependencies[k]]
        scan.repos[folder].component.services.dom().contains(name) && 0 <= k
            < scan.repos[folder].component.services[name].dependencies.len() implies honoured(
        scan,
        b,
        name + "."@ + folder,
        folder,
        scan.repos[folder].component.services[name].dependencies[k],
    ) by {
        let dep = scan.repos[folder].component.services[name].dependencies[k];
        lemma_honoured_stays(scan, a, b, name + "."@ + folder, folder, dep);
    }
}

proof fn lemma_walks_on(scan: ScanView, a: CtxView, b: CtxView, c: CtxView)
    requires
        walks(scan, a, b),
        walks(scan, b, c),
    ensures
        walks(scan, a, c),
{
    crate::resolver::visit::lemma_grows_transitive(a, b, c);
    assert forall|f: Seq<char>| #[trigger]
        c.visited.contains(f) && !a.visited.contains(f) implies all_honoured(scan, c, f) by {
        if b.visited.contains(f) {
            lemma_all_honoured_stays(scan, b, c, f);
        }
    }
    assert forall|i: int| a.edges.len() <= i < c.edges.len() implies declared(
        scan,
        #[trigger] c.edges[i],
    ) by {
        if i < b.edges.len() {
            assert(c.edges[i] == b.edges[i]);
        }
    }
}

proof fn lemma_walks_on_for(
    scan: ScanView,
    a: CtxView,
    b: CtxView,
    c: CtxView,
    owner: Seq<char>,
    folder: Seq<char>,
    dep: DependencyView,
)
    requires
        walks_for(scan, a, b, owner, folder, dep),
        walks_for(scan, b, c, owner, folder, dep),
    ensures
        walks_for(scan, a, c, owner, folder, dep),
{
    crate::resolver::visit::lemma_grows_transitive(a, b, c);
    assert forall|f: Seq<char>| #[trigger]
        c.visited.contains(f) && !a.visited.contains(f) implies all_honoured(scan, c, f) by {
        if b.visited.contains(f) {
            lemma_all_honoured_stays(scan, b, c, f);
        }
    }
    assert forall|i: int| a.edges.len() <= i < c.edges.len() implies declared(
        scan,
        #[trigger] c.edges[i],
    ) || stems_from(scan, owner, folder, dep, c.edges[i]) by {
        if i < b.edges.len() {
            assert(c.edges[i] == b.edges[i]);
        }
    }
}

proof fn lemma_registered_grow(
    scan: ScanView,
    c: CtxView,
    repo: ScannedRepoView,
    local_path: Seq<char>,
    names: Seq<Seq<char>>,
)
    requires
        scan.repos.dom().contains(local_path),
        repo == scan.repos[local_path],
        forall|i: int|
            0 <= i < names.len() ==> repo.component.services.dom().contains(#[trigger] names[i]),
    ensures
        walks(scan, c, services_registered(c, repo, local_path, names)),
        services_registered(c, repo, local_path, names).visited == c.visited,
        services_registered(c, repo, local_path, names).edges == c.edges,
    decreases names.len(),
{
    if names.len() > 0 {
        let front = names.drop_last();
        assert forall|i: int| 0 <= i < front.len() implies repo.component.services.dom().contains(
            #[trigger] front[i],
        ) by {
            assert(front[i] == names[i]);
        }
        lemma_registered_grow(scan, c, repo, local_path, front);
        assert(names[names.len() - 1] == names.last());
        assert(stands_for_something(scan, service_node(names.last(), local_path, repo)));
    }
}

/// What is chosen of a repo's services is what a reference means.
pub proof fn lemma_choice_is_meant(
    scan: ScanView,
    home: Seq<char>,
    wanted: Option<Seq<char>>,
    name: Seq<char>,
)
    requires
        countable_scan(scan),
        scan.repos.dom().contains(home),
    ensures
        ({
            let names = ascending(scan.repos[home].component.services.dom());
            &&& means(scan, home, wanted, name) ==> choice(names, home, wanted) == Ok::<
                Seq<char>,
                Seq<char>,
            >(name + "."@ + home)
            &&& choice(names, home, wanted) matches Ok(id) ==> exists|n: Seq<char>|
                id == #[trigger] (n + "."@ + home) && means(scan, home, wanted, n)
        }),
{
    let dom = scan.repos[home].component.services.dom();
    let names = ascending(dom);
    lemma_ascending_of_set(dom);
    lemma_ascending_len(names);
    assert forall|n: Seq<char>| names.contains(n) <==> dom.contains(n) by {
        assert(names.to_set().contains(n) <==> names.contains(n));
    }
    match wanted {
        Some(n) => {
            if names.contains(n) {
                assert(means(scan, home, wanted, n));
                assert(service_id(n, home) == n + "."@ + home);
            }
        },
        None => {
            if means(scan, home, wanted, name) {
                assert(names.contains(name));
                let i = choose|i: int| 0 <= i < names.len() && names[i] == name;
                if names.len() > 1 {
                    let j = if i == 0 {
                        1int
                    } else {
                        0int
                    };
                    assert(names.contains(names[j]));
                    assert(dom.contains(names[j]));
                    assert(names[j] != names[i]);
                }
                assert(i == 0);
            }
            if names.len() == 1 {
                let n = names[0];
                assert(names.contains(n));
                assert forall|other: Seq<char>| #[trigger] dom.contains(other) implies other
                    == n by {
                    assert(names.contains(other));
                }
                assert(means(scan, home, wanted, n));
                assert(choice(names, home, wanted) == Ok::<Seq<char>, Seq<char>>(
                    n + "."@ + home,
                ));
            }
        },
    }
}

proof fn lemma_repo_visited(depth: nat, scan: ScanView, c: CtxView, folder: Seq<char>)
    requires
        countable_scan(scan),
        scan.repos.dom().contains(folder),
    ensures
        walks(scan, c, repo_visited(depth, scan, c, folder)),
        depth > 0 ==> repo_visited(depth, scan, c, folder).visited.contains(folder),
    decreases depth, 0nat, 0nat,
{
    let repo = scan.repos[folder];
    let names = ascending(repo.component.services.dom());
    let c1 = services_registered(c, repo, folder, names);
    lemma_ascending_of_set(repo.component.services.dom());
    assert forall|i: int| 0 <= i < names.len() implies repo.component.services.dom().contains(
        #[trigger] names[i],
    ) by {
        assert(names.to_set().contains(names[i]));
    }
    lemma_registered_grow(scan, c, repo, folder, names);
    if !c1.visited.contains(folder) && depth > 0 {
        let c2 = CtxView { visited: c1.visited.insert(folder), ..c1 };
        let r = services_followed((depth - 1) as nat, scan, c2, folder, names);
        lemma_services_followed((depth - 1) as nat, scan, c2, folder, names);
        assert(c1.grows_into(c2));
        crate::resolver::visit::lemma_grows_transitive(c1, c2, r);
        crate::resolver::visit::lemma_grows_transitive(c, c1, r);
        assert(all_honoured(scan, r, folder)) by {
            assert forall|name: Seq<char>, k: int|
                #![trigger scan.repos[folder].component.services[name].dependencies[k]]
                scan.repos[folder].component.services.dom().contains(name) && 0 <= k
                    < scan.repos[folder].component.services[name].dependencies.len() implies honoured(
                scan,
                r,
                name + "."@ + folder,
                folder,
                scan.repos[folder].component.services[name].dependencies[k],
            ) by {
                assert(names.to_set().contains(name));
                let i = choose|i: int| 0 <= i < names.len() && names[i] == name;
                assert(names[i] == name);
            }
        }
        assert forall|f: Seq<char>| #[trigger]
            r.visited.contains(f) && !c.visited.contains(f) implies all_honoured(scan, r, f) by {
            if f != folder {
                assert(!c2.visited.contains(f));
            }
        }
        assert(r.visited.contains(folder));
    }
}

proof fn lemma_services_followed(
    depth: nat,
    scan: ScanView,
    c: CtxView,
    folder: Seq<char>,
    names: Seq<Seq<char>>,
)
    requires
        countable_scan(scan),
        scan.repos.dom().contains(folder),
        forall|i: int|
            0 <= i < names.len() ==> scan.repos[folder].component.services.dom().contains(
                #[trigger] names[i],
            ),
    ensures
        walks(scan, c, services_followed(depth, scan, c, folder, names)),
        forall|i: int, k: int|
            #![trigger names[i], scan.repos[folder].component.services[names[i]].dependencies[k]]
            0 <= i < names.len() && 0 <= k
                < scan.repos[folder].component.services[names[i]].dependencies.len() ==> honoured(
                scan,
                services_followed(depth, scan, c, folder, names),
                names[i] + "."@ + folder,
                folder,
                scan.repos[folder].component.services[names[i]].dependencies[k],
            ),
    decreases depth, 6nat, names.len(),
{
    if names.len() > 0 {
        let front = names.drop_last();
        let name = names.last();
        assert(names[names.len() - 1] == name);
        assert forall|i: int| 0 <= i < front.len() implies scan.repos[folder].component.services.dom().contains(
            #[trigger] front[i],
        ) by {
            assert(front[i] == names[i]);
        }
        lemma_services_followed(depth, scan, c, folder, front);
        let before = services_followed(depth, scan, c, folder, front);
        let id = service_id(name, folder);
        assert(id == name + "."@ + folder);
        let service = scan.repos[folder].component.services[name];
        let checked = ports_checked(before, id, service);
        let r = dependencies_followed(depth, scan, checked, id, folder, service.dependencies);
        assert(walks(scan, before, checked));
        lemma_dependencies_followed(depth, scan, checked, id, folder, service.dependencies);
        assert forall|i: int| checked.edges.len() <= i < r.edges.len() implies declared(
            scan,
            #[trigger] r.edges[i],
        ) by {
            if !declared(scan, r.edges[i]) {
                let k = choose|k: int|
                    0 <= k < service.dependencies.len() && stems_from(
                        scan,
                        id,
                        folder,
                        #[trigger] service.dependencies[k],
                        r.edges[i],
                    );
                assert(stems_from(
                    scan,
                    name + "."@ + folder,
                    folder,
                    scan.repos[folder].component.services[name].dependencies[k],
                    r.edges[i],
                ));
            }
        }
        lemma_walks_on(scan, c, before, checked);
        lemma_walks_on(scan, c, checked, r);
        lemma_walks_on(scan, before, checked, r);
        assert forall|i: int, k: int|
            #![trigger names[i], scan.repos[folder].component.services[names[i]].dependencies[k]]
            0 <= i < names.len() && 0 <= k
                < scan.repos[folder].component.services[names[i]].dependencies.len() implies honoured(
            scan,
            r,
            names[i] + "."@ + folder,
            folder,
            scan.repos[folder].component.services[names[i]].dependencies[k],
        ) by {
            let dep = scan.repos[folder].component.services[names[i]].dependencies[k];
            if i < front.len() {
                assert(front[i] == names[i]);
                lemma_honoured_stays(scan, before, r, names[i] + "."@ + folder, folder, dep);
            }
        }
    }
}

proof fn lemma_dependencies_followed(
    depth: nat,
    scan: ScanView,
    c: CtxView,
    owner: Seq<char>,
    folder: Seq<char>,
    deps: Seq<DependencyView>,
)
    requires
        countable_scan(scan),
        scan.repos.dom().contains(folder),
    ensures
        ({
            let r = dependencies_followed(depth, scan, c, owner, folder, deps);
            &&& c.grows_into(r)
            &&& c.nodes.dom().finite() ==> r.nodes.dom().finite()
            &&& forall|k: Seq<char>| #[trigger]
                r.nodes.dom().contains(k) && !c.nodes.dom().contains(k) ==> r.nodes[k].id == k
                    && stands_for_something(scan, r.nodes[k])
            &&& forall|f: Seq<char>| #[trigger]
                r.visited.contains(f) && !c.visited.contains(f) ==> all_honoured(scan, r, f)
            &&& forall|i: int|
                c.edges.len() <= i < r.edges.len() ==> declared(scan, #[trigger] r.edges[i])
                    || exists|k: int|
                    0 <= k < deps.len() && stems_from(
                        scan,
                        owner,
                        folder,
                        #[trigger] deps[k],
                        r.edges[i],
                    )
            &&& forall|k: int|
                0 <= k < deps.len() ==> honoured(scan, r, owner, folder, #[trigger] deps[k])
        }),
    decreases depth, 5nat, deps.len(),
{
    if deps.len() > 0 {
        let front = deps.drop_last();
        let last = deps.last();
        lemma_dependencies_followed(depth, scan, c, owner, folder, front);
        let before = dependencies_followed(depth, scan, c, owner, folder, front);
        let r = dependency_followed(depth, scan, before, owner, folder, last);
        lemma_dependency_followed(depth, scan, before, owner, folder, last);
        crate::resolver::visit::lemma_grows_transitive(c, before, r);
        assert forall|f: Seq<char>| #[trigger]
            r.visited.contains(f) && !c.visited.contains(f) implies all_honoured(scan, r, f) by {
            if before.visited.contains(f) {
                lemma_all_honoured_stays(scan, before, r, f);
            }
        }
        assert forall|i: int| c.edges.len() <= i < r.edges.len() implies declared(
            scan,
            #[trigger] r.edges[i],
        ) || exists|k: int|
            0 <= k < deps.len() && stems_from(
                scan,
                owner,
                folder,
                #[trigger] deps[k],
                r.edges[i],
            ) by {
            if i < before.edges.len() {
                assert(r.edges[i] == before.edges[i]);
                if !declared(scan, r.edges[i]) {
                    let k = choose|k: int|
                        0 <= k < front.len() && stems_from(
                            scan,
                            owner,
                            folder,
                            #[trigger] front[k],
                            before.edges[i],
                        );
                    assert(deps[k] == front[k]);
                }
            } else if !declared(scan, r.edges[i]) {
                assert(stems_from(scan, owner, folder, deps[deps.len() - 1], r.edges[i]));
            }
        }
        assert forall|k: int| 0 <= k < deps.len() implies honoured(
            scan,
            r,
            owner,
            folder,
            #[trigger] deps[k],
        ) by {
            if k < front.len() {
                assert(front[k] == deps[k]);
                lemma_honoured_stays(scan, before, r, owner, folder, deps[k]);
            }
        }
    }
}

proof fn lemma_dependency_followed(
    depth: nat,
    scan: ScanView,
    c: CtxView,
    owner: Seq<char>,
    folder: Seq<char>,
    dep: DependencyView,
)
    requires
        countable_scan(scan),
        scan.repos.dom().contains(folder),
    ensures
        walks_for(
            scan,
            c,
            dependency_followed(depth, scan, c, owner, folder, dep),
            owner,
            folder,
            dep,
        ),
        honoured(scan, dependency_followed(depth, scan, c, owner, folder, dep), owner, folder, dep),
    decreases depth, 4nat, 0nat,
{
    let r = dependency_followed(depth, scan, c, owner, folder, dep);
    match dep {
        DependencyView::Service { repo, default_branch, services } => {
            let wanted = wanted_services(services);
            let branch = named_branch(default_branch);
            lemma_wanted_followed(depth, scan, c, owner, folder, dep, wanted);
            if services.len() == 0 {
                assert(wanted[0] == None::<Seq<char>>);
            }
            assert forall|k: int| 0 <= k < services.len() implies met(
                scan,
                r,
                owner,
                folder,
                repo,
                branch,
                Some(#[trigger] services[k]),
            ) by {
                assert(wanted[k] == Some(services[k]));
            }
        },
        DependencyView::Backing(b) => {
            let node = backing_node(owner, b);
            let known = c.registered(node);
            assert(node.id == b.name + "."@ + owner);
            assert(r.edges.last() == r.edges[r.edges.len() - 1]);
            assert(has_edge(r.edges, owner, b.name + "."@ + owner, "owns"@, None)) by {
                assert(r.edges[r.edges.len() - 1].from == owner);
            }
        },
        DependencyView::SharedBacking { repo, service, name } => {
            let to = name + "."@ + (service + "."@ + home_of(scan, folder, repo));
            assert(backing_id(name, service_id(service, home_of(scan, folder, repo))) == to);
            assert(has_edge(r.edges, owner, to, "shared-backing"@, None)) by {
                assert(r.edges[r.edges.len() - 1].from == owner);
            }
        },
    }
}

proof fn lemma_wanted_followed(
    depth: nat,
    scan: ScanView,
    c: CtxView,
    owner: Seq<char>,
    folder: Seq<char>,
    dep: DependencyView,
    wanted: Seq<Option<Seq<char>>>,
)
    requires
        countable_scan(scan),
        scan.repos.dom().contains(folder),
        dep is Service,
        forall|k: int|
            0 <= k < wanted.len() ==> if dep->services.len() == 0 {
                #[trigger] wanted[k] is None
            } else {
                wanted[k] matches Some(n) && dep->services.contains(n)
            },
    ensures
        ({
            let branch = named_branch(dep->default_branch);
            let r = wanted_followed(
                depth,
                scan,
                c,
                owner,
                folder,
                dep->Service_repo,
                branch,
                wanted,
            );
            &&& walks_for(scan, c, r, owner, folder, dep)
            &&& forall|k: int|
                0 <= k < wanted.len() ==> met(
                    scan,
                    r,
                    owner,
                    folder,
                    dep->Service_repo,
                    branch,
                    #[trigger] wanted[k],
                )
        }),
    decreases depth, 3nat, wanted.len(),
{
    let branch = named_branch(dep->default_branch);
    let repo = dep->Service_repo;
    if wanted.len() > 0 {
        let front = wanted.drop_last();
        let last = wanted.last();
        assert(wanted[wanted.len() - 1] == last);
        assert forall|k: int| 0 <= k < front.len() implies if dep->services.len() == 0 {
            #[trigger] front[k] is None
        } else {
            front[k] matches Some(n) && dep->services.contains(n)
        } by {
            assert(front[k] == wanted[k]);
        }
        lemma_wanted_followed(depth, scan, c, owner, folder, dep, front);
        let before = wanted_followed(depth, scan, c, owner, folder, repo, branch, front);
        let r = wanted_followed(depth, scan, c, owner, folder, repo, branch, wanted);
        match repo {
            Some(url) => {
                lemma_service_followed(depth, scan, before, owner, folder, dep, last);
            },
            None => {
                lemma_sibling_followed(depth, scan, before, owner, folder, dep, last);
            },
        }
        lemma_walks_on_for(scan, c, before, r, owner, folder, dep);
        assert forall|k: int| 0 <= k < wanted.len() implies met(
            scan,
            r,
            owner,
            folder,
            repo,
            branch,
            #[trigger] wanted[k],
        ) by {
            if k < front.len() {
                assert(front[k] == wanted[k]);
                lemma_met_stays(scan, before, r, owner, folder, repo, branch, wanted[k]);
            }
        }
    }
}

proof fn lemma_service_followed(
    depth: nat,
    scan: ScanView,
    c: CtxView,
    owner: Seq<char>,
    folder: Seq<char>,
    dep: DependencyView,
    wanted: Option<Seq<char>>,
)
    requires
        countable_scan(scan),
        dep is Service,
        dep->Service_repo is Some,
        if dep->services.len() == 0 {
            wanted is None
        } else {
            wanted matches Some(n) && dep->services.contains(n)
        },
    ensures
        ({
            let branch = named_branch(dep->default_branch);
            let url = dep->Service_repo->Some_0;
            let r = service_followed(depth, scan, c, owner, url, branch, wanted);
            &&& walks_for(scan, c, r, owner, folder, dep)
            &&& met(scan, r, owner, folder, dep->Service_repo, branch, wanted)
        }),
    decreases depth, 2nat, 0nat,
{
    let branch = named_branch(dep->default_branch);
    let url = dep->Service_repo->Some_0;
    let home = folder_of(scan, url);
    let r = service_followed(depth, scan, c, owner, url, branch, wanted);
    if scan.repos.dom().contains(home) {
        let (after, id) = service_picked(depth, scan, c, home, wanted);
        lemma_repo_visited(depth, scan, c, home);
        lemma_choice_is_meant(scan, home, wanted, Seq::empty());
        let names = ascending(scan.repos[home].component.services.dom());
        assert forall|name: Seq<char>| #[trigger]
            means(scan, home, wanted, name) implies has_edge(
            r.edges,
            owner,
            name + "."@ + home,
            "depends-on"@,
            Some(branch),
        ) by {
            lemma_choice_is_meant(scan, home, wanted, name);
            assert(r.edges[r.edges.len() - 1].to == name + "."@ + home);
        }
        match id {
            Some(id) => {
                let n = choose|n: Seq<char>|
                    id == #[trigger] (n + "."@ + home) && means(scan, home, wanted, n);
                let e = r.edges[r.edges.len() - 1];
                assert(e.to == n + "."@ + home);
                assert(stems_from(scan, owner, folder, dep, e));
                assert(after.grows_into(r));
                crate::resolver::visit::lemma_grows_transitive(c, after, r);
                assert forall|f: Seq<char>| #[trigger]
                    r.visited.contains(f) && !c.visited.contains(f) implies all_honoured(
                    scan,
                    r,
                    f,
                ) by {
                    assert(after.visited.contains(f));
                    lemma_all_honoured_stays(scan, after, r, f);
                }
                assert forall|i: int| c.edges.len() <= i < r.edges.len() implies declared(
                    scan,
                    #[trigger] r.edges[i],
                ) || stems_from(scan, owner, folder, dep, r.edges[i]) by {
                    if i < after.edges.len() {
                        assert(r.edges[i] == after.edges[i]);
                    }
                }
            },
            None => {
                assert(r == after);
                let visited = repo_visited(depth, scan, c, home);
                assert(visited.grows_into(after));
                assert forall|f: Seq<char>| #[trigger]
                    r.visited.contains(f) && !c.visited.contains(f) implies all_honoured(
                    scan,
                    r,
                    f,
                ) by {
                    assert(visited.visited.contains(f));
                    lemma_all_honoured_stays(scan, visited, r, f);
                }
            },
        }
    } else {
        let e = r.edges[r.edges.len() - 1];
        assert(r.nodes.dom().contains(e.to));
        assert(has_edge(r.edges, owner, e.to, "depends-on"@, Some(branch)));
        assert(stems_from(scan, owner, folder, dep, e));
    }
}

proof fn lemma_sibling_followed(
    depth: nat,
    scan: ScanView,
    c: CtxView,
    owner: Seq<char>,
    folder: Seq<char>,
    dep: DependencyView,
    wanted: Option<Seq<char>>,
)
    requires
        countable_scan(scan),
        scan.repos.dom().contains(folder),
        dep is Service,
        dep->Service_repo is None,
        if dep->services.len() == 0 {
            wanted is None
        } else {
            wanted matches Some(n) && dep->services.contains(n)
        },
    ensures
        ({
            let branch = named_branch(dep->default_branch);
            let r = sibling_followed(depth, scan, c, owner, folder, wanted);
            &&& walks_for(scan, c, r, owner, folder, dep)
            &&& met(scan, r, owner, folder, dep->Service_repo, branch, wanted)
        }),
    decreases depth, 2nat, 0nat,
{
    let r = sibling_followed(depth, scan, c, owner, folder, wanted);
    let (after, id) = service_picked(depth, scan, c, folder, wanted);
    let visited = repo_visited(depth, scan, c, folder);
    lemma_repo_visited(depth, scan, c, folder);
    lemma_choice_is_meant(scan, folder, wanted, Seq::empty());
    assert(visited.grows_into(after));
    assert(after.grows_into(r));
    crate::resolver::visit::lemma_grows_transitive(visited, after, r);
    crate::resolver::visit::lemma_grows_transitive(c, visited, r);
    assert forall|name: Seq<char>| #[trigger]
        means(scan, folder, wanted, name) && name + "."@ + folder != owner implies has_edge(
        r.edges,
        owner,
        name + "."@ + folder,
        "depends-on"@,
        None,
    ) by {
        lemma_choice_is_meant(scan, folder, wanted, name);
        assert(r.edges[r.edges.len() - 1].to == name + "."@ + folder);
    }
    assert forall|f: Seq<char>| #[trigger]
        r.visited.contains(f) && !c.visited.contains(f) implies all_honoured(scan, r, f) by {
        assert(visited.visited.contains(f));
        lemma_all_honoured_stays(scan, visited, r, f);
    }
    assert forall|i: int| c.edges.len() <= i < r.edges.len() implies declared(
        scan,
        #[trigger] r.edges[i],
    ) || stems_from(scan, owner, folder, dep, r.edges[i]) by {
        if i < visited.edges.len() {
            assert(r.edges[i] == visited.edges[i]);
        } else {
            let n = choose|n: Seq<char>|
                id->Some_0 == #[trigger] (n + "."@ + folder) && means(scan, folder, wanted, n);
            let e = r.edges[i];
            assert(after.edges == visited.edges);
            assert(id is Some);
            assert(e.to == n + "."@ + home_of(scan, folder, dep->Service_repo));
            assert(e.from == owner && e.kind == "depends-on"@ && e.branch is None);
            if wanted is Some {
                assert(wanted == Some(n));
            }
            assert(stems_from(scan, owner, folder, dep, e));
        }
    }
}

/// Whether a flow of a repo starts at a service.
pub open spec fn starts_at(
    scan: ScanView,
    folder: Seq<char>,
    flow: Seq<char>,
    root: Seq<char>,
) -> bool {
    &&& scan.repos.dom().contains(folder)
    &&& scan.repos[folder].component.flows.dom().contains(flow)
    &&& exists|name: Seq<char>|
        root == #[trigger] (name + "."@ + folder) && means(
            scan,
            folder,
            scan.repos[folder].component.flows[flow].service,
            name,
        )
}

/// Whether the dependencies of a flow have their edges.
spec fn flow_honoured(
    scan: ScanView,
    c: CtxView,
    folder: Seq<char>,
    flow: Seq<char>,
) -> bool {
    forall|root: Seq<char>, k: int|
        #![trigger starts_at(scan, folder, flow, root), scan.repos[folder].component.flows[flow].dependencies[k]]
        starts_at(scan, folder, flow, root) && 0 <= k
            < scan.repos[folder].component.flows[flow].dependencies.len() ==> honoured(
            scan,
            c,
            root,
            folder,
            scan.repos[folder].component.flows[flow].dependencies[k],
        )
}

proof fn lemma_flow_honoured_stays(
    scan: ScanView,
    a: CtxView,
    b: CtxView,
    folder: Seq<char>,
    flow: Seq<char>,
)
    requires
        a.grows_into(b),
        flow_honoured(scan, a, folder, flow),
    ensures
        flow_honoured(scan, b, folder, flow),
{
    assert forall|root: Seq<char>, k: int|
        #![trigger starts_at(scan, folder, flow, root), scan.repos[folder].component.flows[flow].dependencies[k]]
        starts_at(scan, folder, flow, root) && 0 <= k
            < scan.repos[folder].component.flows[flow].dependencies.len() implies honoured(
        scan,
        b,
        root,
        folder,
        scan.repos[folder].component.flows[flow].dependencies[k],
    ) by {
        let dep = scan.repos[folder].component.flows[flow].dependencies[k];
        lemma_honoured_stays(scan, a, b, root, folder, dep);
    }
}

/// What a flow starts at is chosen in one way.
proof fn lemma_start_is_chosen(
    scan: ScanView,
    folder: Seq<char>,
    flow: Seq<char>,
    root: Seq<char>,
)
    requires
        countable_scan(scan),
        scan.repos.dom().contains(folder),
        scan.repos[folder].component.flows.dom().contains(flow),
    ensures
        starts_at(scan, folder, flow, root) <==> choice(
            ascending(scan.repos[folder].component.services.dom()),
            folder,
            scan.repos[folder].component.flows[flow].service,
        ) == Ok::<Seq<char>, Seq<char>>(root),
{
    let wanted = scan.repos[folder].component.flows[flow].service;
    lemma_choice_is_meant(scan, folder, wanted, Seq::empty());
    if starts_at(scan, folder, flow, root) {
        let name = choose|name: Seq<char>|
            root == #[trigger] (name + "."@ + folder) && means(scan, folder, wanted, name);
        lemma_choice_is_meant(scan, folder, wanted, name);
    }
}

proof fn lemma_repo_flows(
    depth: nat,
    scan: ScanView,
    c: CtxView,
    roots: Seq<FlowRootView>,
    folder: Seq<char>,
    names: Seq<Seq<char>>,
)
    requires
        countable_scan(scan),
        scan.repos.dom().contains(folder),
        forall|i: int|
            0 <= i < names.len() ==> scan.repos[folder].component.flows.dom().contains(
                #[trigger] names[i],
            ),
    ensures
        ({
            let (r, rs) = repo_flows_followed(depth, scan, c, roots, folder, names);
            &&& walks(scan, c, r)
            &&& forall|i: int|
                0 <= i < names.len() ==> flow_honoured(scan, r, folder, #[trigger] names[i])
            &&& forall|root: FlowRootView| #[trigger]
                rs.contains(root) <==> roots.contains(root) || (names.contains(root.name)
                    && starts_at(scan, folder, root.name, root.root))
        }),
    decreases names.len(),
{
    if names.len() > 0 {
        let front = names.drop_last();
        let last = names.last();
        assert(names[names.len() - 1] == last);
        assert forall|i: int| 0 <= i < front.len() implies scan.repos[folder].component.flows.dom().contains(
            #[trigger] front[i],
        ) by {
            assert(front[i] == names[i]);
        }
        lemma_repo_flows(depth, scan, c, roots, folder, front);
        let (c1, roots1) = repo_flows_followed(depth, scan, c, roots, folder, front);
        let (r, rs) = repo_flows_followed(depth, scan, c, roots, folder, names);
        let flow = scan.repos[folder].component.flows[last];
        let (c2, id) = service_picked(depth, scan, c1, folder, flow.service);
        let visited = repo_visited(depth, scan, c1, folder);
        lemma_repo_visited(depth, scan, c1, folder);
        lemma_choice_is_meant(scan, folder, flow.service, Seq::empty());
        assert(walks(scan, visited, c2));
        lemma_walks_on(scan, c1, visited, c2);
        assert forall|root: Seq<char>| #[trigger]
            starts_at(scan, folder, last, root) <==> id == Some(root) by {
            lemma_start_is_chosen(scan, folder, last, root);
        }
        match id {
            Some(id) => {
                lemma_dependencies_followed(depth, scan, c2, id, folder, flow.dependencies);
                assert(starts_at(scan, folder, last, id));
                let n = choose|n: Seq<char>|
                    id == #[trigger] (n + "."@ + folder) && means(scan, folder, flow.service, n);
                assert forall|i: int| c2.edges.len() <= i < r.edges.len() implies declared(
                    scan,
                    #[trigger] r.edges[i],
                ) by {
                    if !declared(scan, r.edges[i]) {
                        let k = choose|k: int|
                            0 <= k < flow.dependencies.len() && stems_from(
                                scan,
                                id,
                                folder,
                                #[trigger] flow.dependencies[k],
                                r.edges[i],
                            );
                        assert(means(scan, folder, scan.repos[folder].component.flows[last].service, n));
                        assert(stems_from(
                            scan,
                            n + "."@ + folder,
                            folder,
                            scan.repos[folder].component.flows[last].dependencies[k],
                            r.edges[i],
                        ));
                    }
                }
                assert(walks(scan, c2, r));
                lemma_walks_on(scan, c1, c2, r);
                lemma_push_holds_for(roots1, FlowRootView { name: last, root: id });
            },
            None => {},
        }
        lemma_walks_on(scan, c, c1, r);
        assert forall|i: int| 0 <= i < names.len() implies flow_honoured(
            scan,
            r,
            folder,
            #[trigger] names[i],
        ) by {
            if i < front.len() {
                assert(front[i] == names[i]);
                lemma_flow_honoured_stays(scan, c1, r, folder, names[i]);
            }
        }
        assert forall|root: FlowRootView| #[trigger]
            rs.contains(root) <==> roots.contains(root) || (names.contains(root.name)
                && starts_at(scan, folder, root.name, root.root)) by {
            assert(names =~= front.push(last));
            crate::seqs::lemma_push_holds(front, last, root.name);
            if id is Some {
                crate::seqs::lemma_push_holds(
                    roots1,
                    FlowRootView { name: last, root: id->Some_0 },
                    root,
                );
            }
            assert(roots1.contains(root) <==> roots.contains(root) || (front.contains(root.name)
                && starts_at(scan, folder, root.name, root.root)));
            assert(starts_at(scan, folder, last, root.root) <==> id == Some(root.root));
        }
    }
}

proof fn lemma_push_holds_for(roots: Seq<FlowRootView>, root: FlowRootView)
    ensures
        forall|x: FlowRootView| #[trigger]
            roots.push(root).contains(x) <==> roots.contains(x) || x == root,
{
    assert forall|x: FlowRootView| #[trigger]
        roots.push(root).contains(x) <==> roots.contains(x) || x == root by {
        crate::seqs::lemma_push_holds(roots, root, x);
    }
}

proof fn lemma_flows_followed(depth: nat, scan: ScanView, folders: Seq<Seq<char>>)
    requires
        countable_scan(scan),
        forall|i: int| 0 <= i < folders.len() ==> scan.repos.dom().contains(#[trigger] folders[i]),
    ensures
        ({
            let (r, rs) = flows_followed(depth, scan, folders);
            &&& walks(scan, CtxView::start(), r)
            &&& forall|folder: Seq<char>, flow: Seq<char>|
                #![trigger scan.repos[folder].component.flows.dom().contains(flow)]
                folders.contains(folder) && scan.repos[folder].component.flows.dom().contains(flow)
                    ==> flow_honoured(scan, r, folder, flow)
            &&& forall|root: FlowRootView| #[trigger]
                rs.contains(root) <==> exists|folder: Seq<char>|
                    folders.contains(folder) && #[trigger] starts_at(
                        scan,
                        folder,
                        root.name,
                        root.root,
                    )
        }),
    decreases folders.len(),
{
    if folders.len() > 0 {
        let front = folders.drop_last();
        let last = folders.last();
        assert(folders[folders.len() - 1] == last);
        assert forall|i: int| 0 <= i < front.len() implies scan.repos.dom().contains(
            #[trigger] front[i],
        ) by {
            assert(front[i] == folders[i]);
        }
        lemma_flows_followed(depth, scan, front);
        let (c, roots) = flows_followed(depth, scan, front);
        let (r, rs) = flows_followed(depth, scan, folders);
        let dom = scan.repos[last].component.flows.dom();
        let names = ascending(dom);
        lemma_ascending_of_set(dom);
        assert forall|i: int| 0 <= i < names.len() implies dom.contains(#[trigger] names[i]) by {
            assert(names.to_set().contains(names[i]));
        }
        lemma_repo_flows(depth, scan, c, roots, last, names);
        lemma_walks_on(scan, CtxView::start(), c, r);
        assert(folders =~= front.push(last));
        assert forall|folder: Seq<char>, flow: Seq<char>|
            #![trigger scan.repos[folder].component.flows.dom().contains(flow)]
            folders.contains(folder) && scan.repos[folder].component.flows.dom().contains(
                flow,
            ) implies flow_honoured(scan, r, folder, flow) by {
            crate::seqs::lemma_push_holds(front, last, folder);
            if front.contains(folder) {
                lemma_flow_honoured_stays(scan, c, r, folder, flow);
            } else {
                assert(names.to_set().contains(flow));
                let i = choose|i: int| 0 <= i < names.len() && names[i] == flow;
                assert(flow_honoured(scan, r, last, names[i]));
            }
        }
        assert forall|root: FlowRootView| #[trigger]
            rs.contains(root) <==> exists|folder: Seq<char>|
                folders.contains(folder) && #[trigger] starts_at(
                    scan,
                    folder,
                    root.name,
                    root.root,
                ) by {
            assert(names.to_set().contains(root.name) <==> names.contains(root.name));
            if roots.contains(root) {
                let folder = choose|folder: Seq<char>|
                    front.contains(folder) && #[trigger] starts_at(
                        scan,
                        folder,
                        root.name,
                        root.root,
                    );
                crate::seqs::lemma_push_holds(front, last, folder);
                assert(folders.contains(folder));
            }
            crate::seqs::lemma_push_holds(front, last, last);
            if exists|folder: Seq<char>|
                folders.contains(folder) && #[trigger] starts_at(
                    scan,
                    folder,
                    root.name,
                    root.root,
                ) {
                let folder = choose|folder: Seq<char>|
                    folders.contains(folder) && #[trigger] starts_at(
                        scan,
                        folder,
                        root.name,
                        root.root,
                    );
                crate::seqs::lemma_push_holds(front, last, folder);
            }
        }
    }
}

proof fn lemma_repos_visited(depth: nat, scan: ScanView, c: CtxView, folders: Seq<Seq<char>>)
    requires
        countable_scan(scan),
        depth > 0,
        forall|i: int| 0 <= i < folders.len() ==> scan.repos.dom().contains(#[trigger] folders[i]),
    ensures
        walks(scan, c, repos_visited(depth, scan, c, folders)),
        forall|i: int|
            0 <= i < folders.len() ==> repos_visited(depth, scan, c, folders).visited.contains(
                #[trigger] folders[i],
            ),
    decreases folders.len(),
{
    if folders.len() > 0 {
        let front = folders.drop_last();
        assert(folders[folders.len() - 1] == folders.last());
        assert forall|i: int| 0 <= i < front.len() implies scan.repos.dom().contains(
            #[trigger] front[i],
        ) by {
            assert(front[i] == folders[i]);
        }
        lemma_repos_visited(depth, scan, c, front);
        let before = repos_visited(depth, scan, c, front);
        lemma_repo_visited(depth, scan, before, folders.last());
        let r = repos_visited(depth, scan, c, folders);
        lemma_walks_on(scan, c, before, r);
        assert forall|i: int| 0 <= i < folders.len() implies r.visited.contains(
            #[trigger] folders[i],
        ) by {
            if i < front.len() {
                assert(front[i] == folders[i]);
            }
        }
    }
}

proof fn lemma_walked(scan: ScanView)
    requires
        countable_scan(scan),
    ensures
        ({
            let (c, roots) = walked(scan);
            &&& walks(scan, CtxView::start(), c)
            &&& forall|folder: Seq<char>| #[trigger]
                scan.repos.dom().contains(folder) ==> all_honoured(scan, c, folder)
            &&& forall|folder: Seq<char>, flow: Seq<char>|
                #![trigger scan.repos[folder].component.flows.dom().contains(flow)]
                scan.repos.dom().contains(folder)
                    && scan.repos[folder].component.flows.dom().contains(flow) ==> flow_honoured(
                    scan,
                    c,
                    folder,
                    flow,
                )
            &&& forall|root: FlowRootView| #[trigger]
                roots.contains(root) <==> exists|folder: Seq<char>| #[trigger]
                    starts_at(scan, folder, root.name, root.root)
        }),
{
    let folders = ascending(scan.repos.dom());
    let depth = scan.repos.dom().len();
    lemma_ascending_of_set(scan.repos.dom());
    lemma_ascending_len(folders);
    assert forall|i: int| 0 <= i < folders.len() implies scan.repos.dom().contains(
        #[trigger] folders[i],
    ) by {
        assert(folders.to_set().contains(folders[i]));
    }
    lemma_flows_followed(depth, scan, folders);
    let (flowed, roots) = flows_followed(depth, scan, folders);
    let (c, _) = walked(scan);
    if depth > 0 {
        lemma_repos_visited(depth, scan, flowed, folders);
        lemma_walks_on(scan, CtxView::start(), flowed, c);
    } else {
        assert(folders =~= Seq::empty());
        assert(c == flowed);
    }
    assert forall|folder: Seq<char>| #[trigger]
        scan.repos.dom().contains(folder) implies all_honoured(scan, c, folder) by {
        assert(folders.to_set().contains(folder));
        let i = choose|i: int| 0 <= i < folders.len() && folders[i] == folder;
        assert(c.visited.contains(folders[i]));
    }
    assert forall|folder: Seq<char>, flow: Seq<char>|
        #![trigger scan.repos[folder].component.flows.dom().contains(flow)]
        scan.repos.dom().contains(folder) && scan.repos[folder].component.flows.dom().contains(
            flow,
        ) implies flow_honoured(scan, c, folder, flow) by {
        assert(folders.to_set().contains(folder));
        assert(folders.contains(folder));
        lemma_flow_honoured_stays(scan, flowed, c, folder, flow);
    }
    assert forall|root: FlowRootView| #[trigger]
        roots.contains(root) <==> exists|folder: Seq<char>| #[trigger]
            starts_at(scan, folder, root.name, root.root) by {
        if exists|folder: Seq<char>| #[trigger] starts_at(scan, folder, root.name, root.root) {
            let folder = choose|folder: Seq<char>| #[trigger]
                starts_at(scan, folder, root.name, root.root);
            assert(folders.to_set().contains(folder));
            assert(folders.contains(folder));
        }
    }
}

/// The graph has the nodes and the edges of the walk.
proof fn lemma_graph_is_the_walk(scan: ScanView)
    requires
        countable_scan(scan),
    ensures
        ({
            let g = universe(scan);
            let (c, roots) = walked(scan);
            &&& forall|id: Seq<char>| #[trigger] has_node(g, id) <==> c.nodes.dom().contains(id)
            &&& forall|from: Seq<char>, to: Seq<char>, kind: Seq<char>, branch: Option<Seq<char>>|
                #[trigger]
                has_edge(g.edges, from, to, kind, branch) <==> has_edge(
                    c.edges,
                    from,
                    to,
                    kind,
                    branch,
                )
            &&& g.edges.len() == c.edges.len()
            &&& forall|i: int|
                0 <= i < g.edges.len() ==> (#[trigger] g.edges[i]).from == c.edges[i].from
                    && g.edges[i].to == c.edges[i].to && g.edges[i].kind == c.edges[i].kind
                    && g.edges[i].branch == c.edges[i].branch
        }),
{
    let g = universe(scan);
    let (c, roots) = walked(scan);
    lemma_walked(scan);
    lemma_ascending_of_set(c.nodes.dom());
    let ids = ascending(c.nodes.dom());
    assert forall|i: int| 0 <= i < g.nodes.len() implies (#[trigger] g.nodes[i]).id == ids[i] by {
        assert(ids.to_set().contains(ids[i]));
        assert(c.nodes.dom().contains(ids[i]));
    }
    assert forall|id: Seq<char>| #[trigger] has_node(g, id) <==> c.nodes.dom().contains(id) by {
        if has_node(g, id) {
            let i = choose|i: int| 0 <= i < g.nodes.len() && (#[trigger] g.nodes[i]).id == id;
            assert(ids.to_set().contains(ids[i]));
        }
        if c.nodes.dom().contains(id) {
            assert(ids.to_set().contains(id));
            let i = choose|i: int| 0 <= i < ids.len() && ids[i] == id;
            assert(g.nodes[i].id == id);
        }
    }
    assert forall|from: Seq<char>, to: Seq<char>, kind: Seq<char>, branch: Option<Seq<char>>|
        #[trigger]
        has_edge(g.edges, from, to, kind, branch) <==> has_edge(c.edges, from, to, kind, branch) by {
        if has_edge(g.edges, from, to, kind, branch) {
            let i = choose|i: int|
                0 <= i < g.edges.len() && (#[trigger] g.edges[i]).from == from && g.edges[i].to
                    == to && g.edges[i].kind == kind && g.edges[i].branch == branch;
            assert(c.edges[i].from == from);
        }
        if has_edge(c.edges, from, to, kind, branch) {
            let i = choose|i: int|
                0 <= i < c.edges.len() && (#[trigger] c.edges[i]).from == from && c.edges[i].to
                    == to && c.edges[i].kind == kind && c.edges[i].branch == branch;
            assert(g.edges[i].from == from);
        }
    }
}

/// Every backing dependency that a service owns is a node, and the service owns it by an
/// edge.
pub proof fn law_owned_backing_has_its_node_and_edge(
    scan: ScanView,
    folder: Seq<char>,
    service: Seq<char>,
    k: int,
)
    requires
        countable_scan(scan),
        scan.repos.dom().contains(folder),
        scan.repos[folder].component.services.dom().contains(service),
        0 <= k < scan.repos[folder].component.services[service].dependencies.len(),
        scan.repos[folder].component.services[service].dependencies[k] is Backing,
    ensures
        ({
            let b = scan.repos[folder].component.services[service].dependencies[k]->Backing_0;
            let owner = service + "."@ + folder;
            &&& has_node(universe(scan), b.name + "."@ + owner)
            &&& has_edge(
                universe(scan).edges,
                owner,
                b.name + "."@ + owner,
                "owns"@,
                None,
            )
        }),
{
    let dep = scan.repos[folder].component.services[service].dependencies[k];
    lemma_walked(scan);
    lemma_graph_is_the_walk(scan);
    let (c, roots) = walked(scan);
    assert(all_honoured(scan, c, folder));
    assert(honoured(scan, c, service + "."@ + folder, folder, dep));
}

/// A reference to a backing dependency that another service owns leads to that service's
/// one: in the repo that it names, wherever a checkout has that as its remote, and in the
/// owner's own repo without one. Where the other service does own it, the graph has the
/// node, so nothing dangles.
pub proof fn law_shared_backing_leads_to_its_owner(
    scan: ScanView,
    folder: Seq<char>,
    service: Seq<char>,
    k: int,
    home: Seq<char>,
    j: int,
)
    requires
        countable_scan(scan),
        scan.repos.dom().contains(folder),
        scan.repos[folder].component.services.dom().contains(service),
        0 <= k < scan.repos[folder].component.services[service].dependencies.len(),
        scan.repos[folder].component.services[service].dependencies[k] is SharedBacking,
        ({
            let dep = scan.repos[folder].component.services[service].dependencies[k];
            match dep->SharedBacking_repo {
                None => home == folder,
                Some(url) => {
                    ||| has_remote(scan, home, url) && forall|f: Seq<char>|
                        has_remote(scan, f, url) ==> f == home || text_lt(home, f)
                    ||| home == repo_name(url) && forall|f: Seq<char>| !has_remote(scan, f, url)
                },
            }
        }),
    ensures
        ({
            let dep = scan.repos[folder].component.services[service].dependencies[k];
            let other = scan.repos[home].component.services[dep->service];
            let to = dep->name + "."@ + (dep->service + "."@ + home);
            &&& has_edge(
                universe(scan).edges,
                service + "."@ + folder,
                to,
                "shared-backing"@,
                None,
            )
            &&& scan.repos.dom().contains(home)
                && scan.repos[home].component.services.dom().contains(dep->service) && 0 <= j
                < other.dependencies.len() && (other.dependencies[j] matches DependencyView::Backing(
                b,
            ) && b.name == dep->name) ==> has_node(universe(scan), to)
        }),
{
    let dep = scan.repos[folder].component.services[service].dependencies[k];
    let other = scan.repos[home].component.services[dep->service];
    lemma_walked(scan);
    lemma_graph_is_the_walk(scan);
    let (c, roots) = walked(scan);
    assert(all_honoured(scan, c, folder));
    assert(honoured(scan, c, service + "."@ + folder, folder, dep));
    if dep->SharedBacking_repo is Some {
        let url = dep->SharedBacking_repo->Some_0;
        law_repo_is_found_by_its_remote(scan, url);
        let found = folder_of(scan, url);
        if has_remote(scan, home, url) {
            if found != home {
                assert(text_lt(home, found) && text_lt(found, home));
                crate::text::lemma_text_lt_asymmetric(home, found);
            }
        }
    }
    assert(home_of(scan, folder, dep->SharedBacking_repo) == home);
    if scan.repos.dom().contains(home) && scan.repos[home].component.services.dom().contains(
        dep->service,
    ) && 0 <= j < other.dependencies.len() && other.dependencies[j] is Backing {
        law_owned_backing_has_its_node_and_edge(scan, home, dep->service, j);
    }
}

/// Every service that a dependency means has its edge. A reference by name means the
/// service of that name, and one without a name the only service; without a repo it is
/// one of the owner's own repo, and no service depends on itself. A repo that is not on
/// disk is a node all the same.
pub proof fn law_service_dependency_has_its_edge(
    scan: ScanView,
    folder: Seq<char>,
    service: Seq<char>,
    k: int,
    wanted: Option<Seq<char>>,
    name: Seq<char>,
)
    requires
        countable_scan(scan),
        scan.repos.dom().contains(folder),
        scan.repos[folder].component.services.dom().contains(service),
        0 <= k < scan.repos[folder].component.services[service].dependencies.len(),
        scan.repos[folder].component.services[service].dependencies[k] is Service,
        ({
            let wants = scan.repos[folder].component.services[service].dependencies[k]->services;
            match wanted {
                Some(n) => wants.contains(n),
                None => wants.len() == 0,
            }
        }),
    ensures
        ({
            let dep = scan.repos[folder].component.services[service].dependencies[k];
            let edges = universe(scan).edges;
            let owner = service + "."@ + folder;
            let branch = match dep->default_branch {
                Some(b) => b,
                None => Seq::empty(),
            };
            match dep->Service_repo {
                None => means(scan, folder, wanted, name) && name + "."@ + folder != owner
                    ==> has_edge(edges, owner, name + "."@ + folder, "depends-on"@, None),
                Some(url) => {
                    let home = folder_of(scan, url);
                    if scan.repos.dom().contains(home) {
                        means(scan, home, wanted, name) ==> has_edge(
                            edges,
                            owner,
                            name + "."@ + home,
                            "depends-on"@,
                            Some(branch),
                        )
                    } else {
                        exists|id: Seq<char>| #[trigger]
                            has_node(universe(scan), id) && has_edge(
                                edges,
                                owner,
                                id,
                                "depends-on"@,
                                Some(branch),
                            )
                    }
                },
            }
        }),
{
    let dep = scan.repos[folder].component.services[service].dependencies[k];
    let owner = service + "."@ + folder;
    lemma_walked(scan);
    lemma_graph_is_the_walk(scan);
    let (c, roots) = walked(scan);
    assert(all_honoured(scan, c, folder));
    assert(honoured(scan, c, owner, folder, dep));
    let branch = named_branch(dep->default_branch);
    if wanted is Some {
        let i = choose|i: int| 0 <= i < dep->services.len() && dep->services[i] == wanted->Some_0;
        assert(met(scan, c, owner, folder, dep->Service_repo, branch, Some(dep->services[i])));
    }
    assert(met(scan, c, owner, folder, dep->Service_repo, branch, wanted));
    if dep->Service_repo is Some && !scan.repos.dom().contains(
        folder_of(scan, dep->Service_repo->Some_0),
    ) {
        let id = choose|id: Seq<char>| #[trigger]
            c.nodes.dom().contains(id) && has_edge(
                c.edges,
                owner,
                id,
                "depends-on"@,
                Some(branch),
            );
        assert(has_node(universe(scan), id));
        assert(has_edge(universe(scan).edges, owner, id, "depends-on"@, Some(branch)));
    } else {
        let home = home_of(scan, folder, dep->Service_repo);
        let said = if dep->Service_repo is Some {
            Some(branch)
        } else {
            None
        };
        if means(scan, home, wanted, name) && (dep->Service_repo is Some || name + "."@ + home
            != owner) {
            assert(has_edge(c.edges, owner, name + "."@ + home, "depends-on"@, said));
            assert(has_edge(universe(scan).edges, owner, name + "."@ + home, "depends-on"@, said));
        }
    }
}

/// Every edge of the graph is one that a service or a flow of a repo on disk declares.
pub proof fn law_every_edge_is_declared(scan: ScanView, i: int)
    requires
        countable_scan(scan),
        0 <= i < universe(scan).edges.len(),
    ensures
        exists|e: EdgeView| #[trigger]
            declared(scan, e) && e.from == universe(scan).edges[i].from && e.to == universe(
                scan,
            ).edges[i].to && e.kind == universe(scan).edges[i].kind && e.branch == universe(
                scan,
            ).edges[i].branch,
{
    lemma_walked(scan);
    lemma_graph_is_the_walk(scan);
    let (c, roots) = walked(scan);
    assert(declared(scan, c.edges[i]));
    assert(universe(scan).edges[i].from == c.edges[i].from);
}

/// Every node of the graph is that of a service of a repo on disk, of a backing
/// dependency, or of a repo that is not on disk, but for its domain and its flows.
pub proof fn law_every_node_stands_for_something(scan: ScanView, i: int)
    requires
        countable_scan(scan),
        0 <= i < universe(scan).nodes.len(),
    ensures
        exists|n: NodeView| #[trigger]
            stands_for_something(scan, n) && universe(scan).nodes[i] == (NodeView {
                domain: universe(scan).nodes[i].domain,
                flows: universe(scan).nodes[i].flows,
                ..n
            }),
{
    lemma_walked(scan);
    let (c, roots) = walked(scan);
    lemma_ascending_of_set(c.nodes.dom());
    let ids = ascending(c.nodes.dom());
    assert(ids.to_set().contains(ids[i]));
    assert(c.nodes.dom().contains(ids[i]));
    assert(stands_for_something(scan, c.nodes[ids[i]]));
    assert(universe(scan).nodes[i] == finished_node(scan, c, roots, ids[i]));
}

/// A walk warns of a reference as dangling only where the graph lacks what it refers to.
pub proof fn law_only_missing_targets_dangle(scan: ScanView, w: Seq<char>)
    requires
        countable_scan(scan),
    ensures
        universe(scan).warnings.contains(w) <==> walked(scan).0.warnings.contains(w) || exists|
            i: int,
        |
            0 <= i < universe(scan).edges.len() && (#[trigger] universe(scan).edges[i]).kind
                == "shared-backing"@ && !has_node(universe(scan), universe(scan).edges[i].to) && w
                == "dangling shared-backing reference: '"@ + universe(scan).edges[i].from
                + "' points at '"@ + universe(scan).edges[i].to
                + "', which was never resolved as a backing dependency"@,
{
    lemma_graph_is_the_walk(scan);
    let g = universe(scan);
    let (c, roots) = walked(scan);
    let p = |e: EdgeView| dangling(c, e);
    let f = |e: EdgeView| dangling_warning(e);
    let kept = c.edges.filter(p);
    let said = kept.map_values(f);
    crate::seqs::lemma_append_holds(c.warnings, said, w);
    if said.contains(w) {
        let j = choose|j: int| 0 <= j < said.len() && said[j] == w;
        assert(kept.contains(kept[j]));
        lemma_filter_holds(c.edges, p, kept[j]);
        let i = choose|i: int| 0 <= i < c.edges.len() && c.edges[i] == kept[j];
        assert(g.edges[i].from == c.edges[i].from);
        assert(g.edges[i].kind == "shared-backing"@);
    }
    if exists|i: int|
        0 <= i < g.edges.len() && (#[trigger] g.edges[i]).kind == "shared-backing"@ && !has_node(
            g,
            g.edges[i].to,
        ) && w == "dangling shared-backing reference: '"@ + g.edges[i].from + "' points at '"@
            + g.edges[i].to + "', which was never resolved as a backing dependency"@ {
        let i = choose|i: int|
            0 <= i < g.edges.len() && (#[trigger] g.edges[i]).kind == "shared-backing"@
                && !has_node(g, g.edges[i].to) && w == "dangling shared-backing reference: '"@
                + g.edges[i].from + "' points at '"@ + g.edges[i].to
                + "', which was never resolved as a backing dependency"@;
        assert(p(c.edges[i]));
        lemma_filter_holds(c.edges, p, c.edges[i]);
        assert(c.edges.contains(c.edges[i]));
        let j = choose|j: int| 0 <= j < kept.len() && kept[j] == c.edges[i];
        assert(said[j] == w);
    }
}

/// What reaches from a node: itself, whatever a dependency or an ownership leads to from
/// there, and nothing beyond; a reference to a shared backing dependency leads nowhere.
pub proof fn law_reach_follows_dependencies_and_ownership(
    edges: Seq<EdgeView>,
    root: Seq<char>,
    a: Seq<char>,
    i: int,
    closed: Set<Seq<char>>,
)
    ensures
        reachable(edges, root, root),
        reachable(edges, root, a) && 0 <= i < edges.len() && edges[i].from == a && (edges[i].kind
            == "depends-on"@ || edges[i].kind == "owns"@) ==> reachable(edges, root, edges[i].to),
        closed.contains(root) && (forall|j: int|
            0 <= j < edges.len() && closed.contains((#[trigger] edges[j]).from) && (edges[j].kind
                == "depends-on"@ || edges[j].kind == "owns"@) ==> closed.contains(edges[j].to))
            && reachable(edges, root, a) ==> closed.contains(a),
{
    assert(reachable_in(edges, root, root, 0));
    if reachable(edges, root, a) && 0 <= i < edges.len() && edges[i].from == a && (edges[i].kind
        == "depends-on"@ || edges[i].kind == "owns"@) {
        let n = choose|n: nat| #[trigger] reachable_in(edges, root, a, n);
        assert(step(edges, a, edges[i].to));
        assert(reachable_in(edges, root, edges[i].to, n + 1));
    }
    if closed.contains(root) && (forall|j: int|
        0 <= j < edges.len() && closed.contains((#[trigger] edges[j]).from) && (edges[j].kind
            == "depends-on"@ || edges[j].kind == "owns"@) ==> closed.contains(edges[j].to))
        && reachable(edges, root, a) {
        let n = choose|n: nat| #[trigger] reachable_in(edges, root, a, n);
        lemma_closed_set(edges, root, a, closed, n);
    }
}

proof fn lemma_closed_set(
    edges: Seq<EdgeView>,
    root: Seq<char>,
    a: Seq<char>,
    closed: Set<Seq<char>>,
    n: nat,
)
    requires
        closed.contains(root),
        forall|j: int|
            0 <= j < edges.len() && closed.contains((#[trigger] edges[j]).from) && (edges[j].kind
                == "depends-on"@ || edges[j].kind == "owns"@) ==> closed.contains(edges[j].to),
        reachable_in(edges, root, a, n),
    ensures
        closed.contains(a),
    decreases n,
{
    if n > 0 {
        let b = choose|b: Seq<char>|
            reachable_in(edges, root, b, (n - 1) as nat) && #[trigger] step(edges, b, a);
        lemma_closed_set(edges, root, b, closed, (n - 1) as nat);
        let j = choose|j: int|
            0 <= j < edges.len() && crate::resolver::flows::structural(#[trigger] edges[j])
                && edges[j].from == b && edges[j].to == a;
        assert(closed.contains(edges[j].from));
    }
}

/// A node is marked with a flow exactly if a flow of that name, in some repo, starts at a
/// service from which the node is reached; and an edge exactly if its source is.
pub proof fn law_flows_mark_what_they_reach(scan: ScanView, i: int, j: int, flow: Seq<char>)
    requires
        countable_scan(scan),
        0 <= i < universe(scan).nodes.len(),
    ensures
        ({
            let g = universe(scan);
            &&& g.nodes[i].flows.contains(flow) <==> exists|folder: Seq<char>, root: Seq<char>|
                #[trigger] starts_at(scan, folder, flow, root) && reachable(
                    g.edges,
                    root,
                    g.nodes[i].id,
                )
            &&& 0 <= j < g.edges.len() ==> (g.edges[j].flows.contains(flow) <==> exists|
                folder: Seq<char>,
                root: Seq<char>,
            |
                #[trigger] starts_at(scan, folder, flow, root) && reachable(
                    g.edges,
                    root,
                    g.edges[j].from,
                ))
        }),
{
    lemma_walked(scan);
    lemma_graph_is_the_walk(scan);
    let g = universe(scan);
    let (c, roots) = walked(scan);
    lemma_ascending_of_set(c.nodes.dom());
    let ids = ascending(c.nodes.dom());
    assert(ids.to_set().contains(ids[i]));
    assert(c.nodes.dom().contains(ids[i]));
    assert(g.nodes[i].id == ids[i]);
    lemma_flows_reaching(scan, ids[i], flow);
    if 0 <= j < g.edges.len() {
        let from = c.edges[j].from;
        lemma_flows_reaching(scan, from, flow);
        let names = flows_reaching(roots, c.edges, from);
        vstd::seq_lib::seq_to_set_is_finite(names);
        lemma_ascending_of_set(names.to_set());
        let sorted = ascending(names.to_set());
        assert(g.edges[j].flows == sorted);
        assert(sorted.to_set().contains(flow) <==> sorted.contains(flow));
        assert(names.to_set().contains(flow) <==> names.contains(flow));
    }
}

proof fn lemma_flows_reaching(scan: ScanView, id: Seq<char>, flow: Seq<char>)
    requires
        countable_scan(scan),
    ensures
        flows_reaching(walked(scan).1, walked(scan).0.edges, id).contains(flow) <==> exists|
            folder: Seq<char>,
            root: Seq<char>,
        |
            #[trigger] starts_at(scan, folder, flow, root) && reachable(
                universe(scan).edges,
                root,
                id,
            ),
{
    lemma_walked(scan);
    lemma_graph_is_the_walk(scan);
    let g = universe(scan);
    let (c, roots) = walked(scan);
    let p = |r: FlowRootView| reachable(c.edges, r.root, id);
    let kept = roots.filter(p);
    let names = flows_reaching(roots, c.edges, id);
    if names.contains(flow) {
        let k = choose|k: int| 0 <= k < names.len() && names[k] == flow;
        assert(kept.contains(kept[k]));
        lemma_filter_holds(roots, p, kept[k]);
        let r = kept[k];
        assert(r.name == flow);
        let folder = choose|folder: Seq<char>| #[trigger] starts_at(scan, folder, r.name, r.root);
        lemma_same_reach(c.edges, g.edges, r.root, id);
        assert(starts_at(scan, folder, flow, r.root));
    }
    if exists|folder: Seq<char>, root: Seq<char>|
        #[trigger] starts_at(scan, folder, flow, root) && reachable(g.edges, root, id) {
        let (folder, root) = choose|folder: Seq<char>, root: Seq<char>|
            #[trigger] starts_at(scan, folder, flow, root) && reachable(g.edges, root, id);
        let r = FlowRootView { name: flow, root };
        assert(starts_at(scan, folder, r.name, r.root));
        assert(roots.contains(r));
        lemma_same_reach(g.edges, c.edges, root, id);
        lemma_filter_holds(roots, p, r);
        let k = choose|k: int| 0 <= k < kept.len() && kept[k] == r;
        assert(names[k] == flow);
    }
}

proof fn lemma_same_reach(a: Seq<EdgeView>, b: Seq<EdgeView>, root: Seq<char>, id: Seq<char>)
    requires
        a.len() == b.len(),
        forall|i: int|
            0 <= i < a.len() ==> (#[trigger] a[i]).from == b[i].from && a[i].to == b[i].to
                && a[i].kind == b[i].kind,
        reachable(a, root, id),
    ensures
        reachable(b, root, id),
{
    let n = choose|n: nat| #[trigger] reachable_in(a, root, id, n);
    lemma_same_reach_in(a, b, root, id, n);
}

proof fn lemma_same_reach_in(
    a: Seq<EdgeView>,
    b: Seq<EdgeView>,
    root: Seq<char>,
    id: Seq<char>,
    n: nat,
)
    requires
        a.len() == b.len(),
        forall|i: int|
            0 <= i < a.len() ==> (#[trigger] a[i]).from == b[i].from && a[i].to == b[i].to
                && a[i].kind == b[i].kind,
        reachable_in(a, root, id, n),
    ensures
        reachable_in(b, root, id, n),
    decreases n,
{
    if n > 0 {
        let x = choose|x: Seq<char>|
            reachable_in(a, root, x, (n - 1) as nat) && #[trigger] step(a, x, id);
        lemma_same_reach_in(a, b, root, x, (n - 1) as nat);
        let j = choose|j: int|
            0 <= j < a.len() && crate::resolver::flows::structural(#[trigger] a[j]) && a[j].from
                == x && a[j].to == id;
        assert(b[j].from == x);
        assert(step(b, x, id));
    }
}

/// A list of an environment is kept as it is, and of a table each entry is a line of its
/// key and its value, in the order of the keys.
pub proof fn law_environment_keeps_every_entry(
    list: Seq<Seq<char>>,
    table: Map<Seq<char>, Seq<char>>,
    line: Seq<char>,
)
    requires
        table.dom().finite(),
    ensures
        env_pairs(EnvironmentView::List(list)) == list,
        env_pairs(EnvironmentView::Table(table)).len() == table.dom().len(),
        env_pairs(EnvironmentView::Table(table)).contains(line) <==> exists|key: Seq<char>|
            #[trigger] table.dom().contains(key) && line == key + "="@ + table[key],
{
    let ks = ascending(table.dom());
    lemma_ascending_of_set(table.dom());
    lemma_ascending_len(ks);
    let pairs = env_pairs(EnvironmentView::Table(table));
    if pairs.contains(line) {
        let i = choose|i: int| 0 <= i < pairs.len() && pairs[i] == line;
        assert(ks.to_set().contains(ks[i]));
    }
    if exists|key: Seq<char>| #[trigger]
        table.dom().contains(key) && line == key + "="@ + table[key] {
        let key = choose|key: Seq<char>| #[trigger]
            table.dom().contains(key) && line == key + "="@ + table[key];
        assert(ks.to_set().contains(key));
        let i = choose|i: int| 0 <= i < ks.len() && ks[i] == key;
        assert(pairs[i] == line);
    }
}

/// The node of a service is the service as it is configured, in its checkout as it is.
pub proof fn law_service_node_is_as_configured(
    name: Seq<char>,
    folder: Seq<char>,
    repo: ScannedRepoView,
)
    ensures
        ({
            let n = service_node(name, folder, repo);
            let s = repo.component.services[name];
            &&& n.id == name + "."@ + folder
            &&& n.label == name
            &&& n.kind == "service"@
            &&& n.image is None
            &&& n.branch == repo.branch
            &&& n.repo == repo.remote
            &&& n.local_path == Some(folder)
            &&& n.downloaded
            &&& n.dirty == repo.dirty
            &&& n.domain_scope == s.domain_scope
            &&& n.build == s.build
            &&& n.ports == s.ports
            &&& n.environment == env_pairs(s.environment)
            &&& n.command == s.command
            &&& n.volumes == s.volumes
            &&& n.additional_hosts == s.additional_hosts
            &&& n.env_file == s.env_file
            &&& n.restart == s.restart
            &&& n.user == s.user
            &&& n.working_dir == s.working_dir
            &&& n.labels == s.labels
            &&& n.cap_add == s.cap_add
            &&& n.cap_drop == s.cap_drop
            &&& n.privileged == s.privileged
            &&& n.extra_hosts == s.extra_hosts
            &&& n.healthcheck == s.healthcheck
            &&& n.platform == s.platform
        }),
{
}

/// The node of a backing dependency is the dependency as it is configured; its ports have
/// no role of their own.
pub proof fn law_backing_node_is_as_configured(
    owner: Seq<char>,
    b: BackingDependencyConfigView,
    port: Seq<char>,
)
    ensures
        ({
            let n = backing_node(owner, b);
            &&& n.id == b.name + "."@ + owner
            &&& n.label == b.name
            &&& n.kind == "backing"@
            &&& n.image == Some(b.image)
            &&& n.branch is None
            &&& n.repo is None
            &&& n.local_path is None
            &&& n.downloaded
            &&& !n.dirty
            &&& n.domain_scope == b.domain_scope
            &&& n.build is None
            &&& n.ports.dom().contains(port) <==> b.ports.contains(port)
            &&& b.ports.contains(port) ==> n.ports[port] == (PortConfigView {
                primary: false,
                name: None,
                host_port: None,
            })
            &&& n.environment == env_pairs(b.environment)
            &&& n.command == b.command
            &&& n.volumes == b.volumes
            &&& n.additional_hosts.len() == 0
            &&& n.env_file == b.env_file
            &&& n.restart == b.restart
            &&& n.user == b.user
            &&& n.working_dir == b.working_dir
            &&& n.labels == b.labels
            &&& n.cap_add == b.cap_add
            &&& n.cap_drop == b.cap_drop
            &&& n.privileged == b.privileged
            &&& n.extra_hosts == b.extra_hosts
            &&& n.healthcheck == b.healthcheck
            &&& n.platform == b.platform
        }),
{
}

/// The node of a repo that is not on disk says where to get it, and nothing else.
pub proof fn law_stub_says_where_to_get_the_repo(
    id: Seq<char>,
    url: Seq<char>,
    branch: Seq<char>,
)
    ensures
        ({
            let n = stub_node(id, url, branch);
            &&& n.id == id
            &&& n.label == id
            &&& n.kind == "service"@
            &&& n.repo == Some(url)
            &&& n.branch == Some(branch)
            &&& n.local_path == Some(id)
            &&& !n.downloaded
            &&& !n.dirty
            &&& n.domain_scope == "run"@
            &&& n.image is None
            &&& n.build is None
            &&& n.ports.dom().is_empty()
            &&& n.environment.len() == 0
            &&& n.command.len() == 0
            &&& n.volumes.len() == 0
            &&& n.additional_hosts.len() == 0
            &&& n.env_file.len() == 0
            &&& n.restart == "no"@
            &&& n.user is None
            &&& n.working_dir is None
            &&& n.labels.dom().is_empty()
            &&& n.cap_add.len() == 0
            &&& n.cap_drop.len() == 0
            &&& !n.privileged
            &&& n.extra_hosts.len() == 0
            &&& n.healthcheck is None
            &&& n.platform is None
        }),
{
    let n = stub_node(id, url, branch);
    assert(n.ports.dom() =~= Set::empty());
    assert(n.labels.dom() =~= Set::empty());
}

/// What a flow depends on, the service that it starts at has its edges to, as if the
/// service had declared it.
pub proof fn law_flow_dependencies_have_their_edges(
    scan: ScanView,
    folder: Seq<char>,
    flow: Seq<char>,
    root: Seq<char>,
    k: int,
    name: Seq<char>,
    i: int,
)
    requires
        countable_scan(scan),
        starts_at(scan, folder, flow, root),
        0 <= k < scan.repos[folder].component.flows[flow].dependencies.len(),
    ensures
        ({
            let dep = scan.repos[folder].component.flows[flow].dependencies[k];
            let edges = universe(scan).edges;
            match dep {
                DependencyView::Backing(b) => has_node(universe(scan), b.name + "."@ + root)
                    && has_edge(edges, root, b.name + "."@ + root, "owns"@, None),
                DependencyView::SharedBacking { repo, service, name } => has_edge(
                    edges,
                    root,
                    name + "."@ + (service + "."@ + home_of(scan, folder, repo)),
                    "shared-backing"@,
                    None,
                ),
                DependencyView::Service { repo, default_branch, services } => {
                    let home = home_of(scan, folder, repo);
                    let branch = if repo is Some {
                        Some(named_branch(default_branch))
                    } else {
                        None
                    };
                    let meant = (services.len() == 0 && means(scan, home, None, name)) || (0 <= i
                        < services.len() && means(scan, home, Some(services[i]), name));
                    meant && scan.repos.dom().contains(home) && (repo is Some || name + "."@ + home
                        != root) ==> has_edge(
                        edges,
                        root,
                        name + "."@ + home,
                        "depends-on"@,
                        branch,
                    )
                },
            }
        }),
{
    let dep = scan.repos[folder].component.flows[flow].dependencies[k];
    lemma_walked(scan);
    lemma_graph_is_the_walk(scan);
    let (c, roots) = walked(scan);
    assert(scan.repos[folder].component.flows.dom().contains(flow));
    assert(flow_honoured(scan, c, folder, flow));
    assert(honoured(scan, c, root, folder, dep));
    if let DependencyView::Service { repo, default_branch, services } = dep {
        let branch = named_branch(default_branch);
        if 0 <= i < services.len() {
            assert(met(scan, c, root, folder, repo, branch, Some(services[i])));
        }
    }
}

/// Every node has the domain that its id has in the default run of the workspace, which
/// the graph is named after.
pub proof fn law_nodes_have_their_default_domains(scan: ScanView, i: int)
    requires
        countable_scan(scan),
        0 <= i < universe(scan).nodes.len(),
    ensures
        universe(scan).workspace_name == scan.workspace_name,
        universe(scan).nodes[i].domain == domain_of(
            universe(scan).nodes[i].id,
            universe(scan).nodes[i].domain_scope,
            scan.workspace_name,
            "default"@,
        ),
{
    let (c, roots) = walked(scan);
    lemma_walked(scan);
    lemma_ascending_of_set(c.nodes.dom());
    let ids = ascending(c.nodes.dom());
    assert(ids.to_set().contains(ids[i]));
    assert(c.nodes.dom().contains(ids[i]));
    assert(c.nodes[ids[i]].id == ids[i]);
}

} // verus!
