//! What a graph warns of.

use vstd::prelude::*;

use crate::resolver::graph::{DependencyView, ScanView, ScannedRepoView, ServiceConfigView};
use crate::resolver::laws::{countable_scan, home_of, lemma_choice_is_meant, means};
use crate::resolver::visit::{
    choice, dependencies_followed, dependency_followed, folder_of, ports_checked, primary_ports,
    repo_visited, service_followed, service_id, service_picked, services_followed,
    services_registered, sibling_followed, wanted_followed, wanted_services, CtxView,
};
use crate::resolver::{flows_followed, repo_flows_followed, repos_visited, universe, walked};
use crate::seqs::{lemma_append_holds, lemma_filter_holds, lemma_push_holds};
use crate::strmap::{ascending, lemma_ascending_len, lemma_ascending_of_set};
use crate::text::joined;

verus! {

/// What is said of a reference that means no service of a repo, or more than one.
pub open spec fn unclear(scan: ScanView, home: Seq<char>, wanted: Option<Seq<char>>) -> Option<
    Seq<char>,
> {
    let services = scan.repos[home].component.services.dom();
    match wanted {
        Some(name) => if services.contains(name) {
            None
        } else {
            Some("'"@ + home + "' has no service named '"@ + name + "'"@)
        },
        None => if services.len() == 0 {
            Some("'"@ + home + "' declares no services"@)
        } else if services.len() == 1 {
            None
        } else {
            Some(
                "'"@ + home + "' declares multiple services ("@ + joined(
                    ascending(services),
                    ", "@,
                ) + "); specify which one with `service:`"@,
            )
        },
    }
}

/// What is said of a service that depends on itself.
pub open spec fn own_dependency(owner: Seq<char>) -> Seq<char> {
    "'"@ + owner + "' declares a same-repo `kind: service` dependency on itself"@
}

/// Whether a reference means the service that makes it.
pub open spec fn means_owner(
    scan: ScanView,
    home: Seq<char>,
    wanted: Option<Seq<char>>,
    owner: Seq<char>,
) -> bool {
    exists|name: Seq<char>| #[trigger]
        means(scan, home, wanted, name) && name + "."@ + home == owner
}

/// What is said of a service with several primary ports.
pub open spec fn several_primaries(id: Seq<char>, service: ServiceConfigView) -> Seq<char> {
    "'"@ + id + "' declares more than one primary port ("@ + joined(primary_ports(service), ", "@)
        + "); only one can sit at its own domain"@
}

/// What is said of a service with hosts of its own and no primary port.
pub open spec fn unrouted_hosts(id: Seq<char>) -> Seq<char> {
    "'"@ + id
        + "' declares additional_hosts but no primary port; those hosts won't be routed to anything"@
}

/// Whether a port of a service is a primary one.
pub open spec fn is_primary(service: ServiceConfigView, port: Seq<char>) -> bool {
    service.ports.contains_key(port) && service.ports[port].primary
}

/// Whether two ports of a service are primary ones.
pub open spec fn has_two_primaries(service: ServiceConfigView) -> bool {
    exists|a: Seq<char>, b: Seq<char>| #[trigger]
        is_primary(service, a) && #[trigger] is_primary(service, b) && a != b
}

/// Whether a service has hosts of its own and no primary port.
pub open spec fn has_unrouted_hosts(service: ServiceConfigView) -> bool {
    service.additional_hosts.len() > 0 && forall|p: Seq<char>| !#[trigger] is_primary(service, p)
}

/// The primary ports of a service, each once and in order.
pub proof fn law_primary_ports_are_listed(service: ServiceConfigView, port: Seq<char>)
    requires
        service.ports.dom().finite(),
    ensures
        primary_ports(service).contains(port) <==> is_primary(service, port),
        has_two_primaries(service) <==> primary_ports(service).len() > 1,
        (forall|p: Seq<char>| !#[trigger] is_primary(service, p)) <==> primary_ports(service).len()
            == 0,
{
    let ks = ascending(service.ports.dom());
    let f = |p: Seq<char>| service.ports[p].primary;
    let ps = primary_ports(service);
    lemma_ascending_of_set(service.ports.dom());
    lemma_ascending_len(ks);
    assert forall|p: Seq<char>| #[trigger] ps.contains(p) <==> is_primary(service, p) by {
        lemma_filter_holds(ks, f, p);
        assert(ks.to_set().contains(p) <==> ks.contains(p));
    }
    let apart = |a: Seq<char>, b: Seq<char>| a != b;
    assert forall|i: int, j: int| 0 <= i < j < ks.len() implies #[trigger] apart(ks[i], ks[j]) by {
    }
    crate::seqs::lemma_filter_keeps_order(ks, f, apart);
    if ps.len() > 1 {
        assert(ps.contains(ps[0]) && ps.contains(ps[1]));
        assert(apart(ps[0], ps[1]));
        assert(is_primary(service, ps[0]) && is_primary(service, ps[1]));
    }
    if has_two_primaries(service) {
        let (a, b) = choose|a: Seq<char>, b: Seq<char>| #[trigger]
            is_primary(service, a) && #[trigger] is_primary(service, b) && a != b;
        assert(ps.contains(a) && ps.contains(b));
        let i = choose|i: int| 0 <= i < ps.len() && ps[i] == a;
        let j = choose|j: int| 0 <= j < ps.len() && ps[j] == b;
        assert(i != j);
    }
    if ps.len() > 0 {
        assert(ps.contains(ps[0]));
        assert(is_primary(service, ps[0]));
    } else {
        assert forall|p: Seq<char>| !#[trigger] is_primary(service, p) by {
            if is_primary(service, p) {
                assert(ps.contains(p));
            }
        }
    }
}

/// Whether what is wrong with a reference has been said.
spec fn minded(
    scan: ScanView,
    c: CtxView,
    owner: Seq<char>,
    folder: Seq<char>,
    repo: Option<Seq<char>>,
    wanted: Option<Seq<char>>,
) -> bool {
    let home = home_of(scan, folder, repo);
    repo is None || scan.repos.dom().contains(home) ==> {
        &&& unclear(scan, home, wanted) is Some ==> c.warnings.contains(
            unclear(scan, home, wanted)->Some_0,
        )
        &&& repo is None && means_owner(scan, home, wanted, owner) ==> c.warnings.contains(
            own_dependency(owner),
        )
    }
}

/// Whether what is wrong with a dependency has been said.
spec fn dependency_minded(
    scan: ScanView,
    c: CtxView,
    owner: Seq<char>,
    folder: Seq<char>,
    dep: DependencyView,
) -> bool {
    dep matches DependencyView::Service { repo, default_branch, services } ==> {
        &&& services.len() == 0 ==> minded(scan, c, owner, folder, repo, None)
        &&& forall|k: int|
            0 <= k < services.len() ==> minded(
                scan,
                c,
                owner,
                folder,
                repo,
                Some(#[trigger] services[k]),
            )
    }
}

/// Whether what is wrong with the ports of a service has been said.
spec fn ports_minded(c: CtxView, id: Seq<char>, service: ServiceConfigView) -> bool {
    service.ports.dom().finite() ==> {
        &&& has_two_primaries(service) ==> c.warnings.contains(several_primaries(id, service))
        &&& has_unrouted_hosts(service) ==> c.warnings.contains(unrouted_hosts(id))
    }
}

/// Whether what is wrong with a service has been said.
spec fn service_minded(scan: ScanView, c: CtxView, folder: Seq<char>, name: Seq<char>) -> bool {
    let service = scan.repos[folder].component.services[name];
    let id = name + "."@ + folder;
    &&& ports_minded(c, id, service)
    &&& forall|k: int|
        0 <= k < service.dependencies.len() ==> dependency_minded(
            scan,
            c,
            id,
            folder,
            #[trigger] service.dependencies[k],
        )
}

/// Whether what is wrong with the services of a repo has been said.
spec fn repo_minded(scan: ScanView, c: CtxView, folder: Seq<char>) -> bool {
    forall|name: Seq<char>|
        scan.repos[folder].component.services.dom().contains(name) ==> #[trigger] service_minded(
            scan,
            c,
            folder,
            name,
        )
}

/// Whether what is wrong with a flow has been said.
spec fn flow_minded(scan: ScanView, c: CtxView, folder: Seq<char>, name: Seq<char>) -> bool {
    let flow = scan.repos[folder].component.flows[name];
    &&& unclear(scan, folder, flow.service) is Some ==> c.warnings.contains(
        unclear(scan, folder, flow.service)->Some_0,
    )
    &&& forall|root: Seq<char>, k: int|
        #![trigger means(scan, folder, flow.service, root), flow.dependencies[k]]
        means(scan, folder, flow.service, root) && 0 <= k < flow.dependencies.len()
            ==> dependency_minded(
            scan,
            c,
            root + "."@ + folder,
            folder,
            flow.dependencies[k],
        )
}

/// Whether there is something wrong that a warning speaks of.
pub open spec fn has_cause(scan: ScanView, w: Seq<char>) -> bool {
    ||| exists|folder: Seq<char>, name: Seq<char>|
        #![trigger scan.repos[folder].component.services[name]]
        {
            let service = scan.repos[folder].component.services[name];
            let id = name + "."@ + folder;
            &&& scan.repos.dom().contains(folder)
            &&& scan.repos[folder].component.services.dom().contains(name)
            &&& service.ports.dom().finite() ==> (has_two_primaries(service) && w
                == several_primaries(id, service)) || (has_unrouted_hosts(service) && w
                == unrouted_hosts(id))
        }
    ||| exists|home: Seq<char>, wanted: Option<Seq<char>>|
        scan.repos.dom().contains(home) && #[trigger] unclear(scan, home, wanted) == Some(w)
    ||| exists|home: Seq<char>, wanted: Option<Seq<char>>, owner: Seq<char>|
        scan.repos.dom().contains(home) && #[trigger] means_owner(scan, home, wanted, owner) && w
            == own_dependency(owner)
}

/// Whether a walk goes on to say what is wrong: it takes no warning back, gives none
/// without a cause, and says all that is wrong with a repo that it visits.
spec fn minds(scan: ScanView, a: CtxView, b: CtxView) -> bool {
    &&& a.visited.subset_of(b.visited)
    &&& forall|w: Seq<char>| #[trigger] a.warnings.contains(w) ==> b.warnings.contains(w)
    &&& forall|w: Seq<char>| #[trigger]
        b.warnings.contains(w) && !a.warnings.contains(w) ==> has_cause(scan, w)
    &&& forall|f: Seq<char>| #[trigger]
        b.visited.contains(f) && !a.visited.contains(f) ==> repo_minded(scan, b, f)
}

proof fn lemma_service_minded_stays(
    scan: ScanView,
    a: CtxView,
    b: CtxView,
    folder: Seq<char>,
    name: Seq<char>,
)
    requires
        forall|w: Seq<char>| #[trigger] a.warnings.contains(w) ==> b.warnings.contains(w),
        service_minded(scan, a, folder, name),
    ensures
        service_minded(scan, b, folder, name),
{
    let service = scan.repos[folder].component.services[name];
    let id = name + "."@ + folder;
    assert forall|k: int| 0 <= k < service.dependencies.len() implies dependency_minded(
        scan,
        b,
        id,
        folder,
        #[trigger] service.dependencies[k],
    ) by {
        lemma_dependency_minded_stays(scan, a, b, id, folder, service.dependencies[k]);
    }
}

proof fn lemma_dependency_minded_stays(
    scan: ScanView,
    a: CtxView,
    b: CtxView,
    owner: Seq<char>,
    folder: Seq<char>,
    dep: DependencyView,
)
    requires
        forall|w: Seq<char>| #[trigger] a.warnings.contains(w) ==> b.warnings.contains(w),
        dependency_minded(scan, a, owner, folder, dep),
    ensures
        dependency_minded(scan, b, owner, folder, dep),
{
    if let DependencyView::Service { repo, default_branch, services } = dep {
        assert forall|k: int| 0 <= k < services.len() implies minded(
            scan,
            b,
            owner,
            folder,
            repo,
            Some(#[trigger] services[k]),
        ) by {
            assert(minded(scan, a, owner, folder, repo, Some(services[k])));
        }
    }
}

proof fn lemma_repo_minded_stays(scan: ScanView, a: CtxView, b: CtxView, folder: Seq<char>)
    requires
        forall|w: Seq<char>| #[trigger] a.warnings.contains(w) ==> b.warnings.contains(w),
        repo_minded(scan, a, folder),
    ensures
        repo_minded(scan, b, folder),
{
    assert forall|name: Seq<char>|
        scan.repos[folder].component.services.dom().contains(
            name,
        ) implies #[trigger] service_minded(scan, b, folder, name) by {
        assert(service_minded(scan, a, folder, name));
        lemma_service_minded_stays(scan, a, b, folder, name);
    }
}

proof fn lemma_flow_minded_stays(
    scan: ScanView,
    a: CtxView,
    b: CtxView,
    folder: Seq<char>,
    name: Seq<char>,
)
    requires
        forall|w: Seq<char>| #[trigger] a.warnings.contains(w) ==> b.warnings.contains(w),
        flow_minded(scan, a, folder, name),
    ensures
        flow_minded(scan, b, folder, name),
{
    let flow = scan.repos[folder].component.flows[name];
    assert forall|root: Seq<char>, k: int|
        #![trigger means(scan, folder, flow.service, root), flow.dependencies[k]]
        means(scan, folder, flow.service, root) && 0 <= k
            < flow.dependencies.len() implies dependency_minded(
        scan,
        b,
        root + "."@ + folder,
        folder,
        flow.dependencies[k],
    ) by {
        lemma_dependency_minded_stays(
            scan,
            a,
            b,
            root + "."@ + folder,
            folder,
            flow.dependencies[k],
        );
    }
}

proof fn lemma_minds_on(scan: ScanView, a: CtxView, b: CtxView, d: CtxView)
    requires
        minds(scan, a, b),
        minds(scan, b, d),
    ensures
        minds(scan, a, d),
{
    assert forall|f: Seq<char>| #[trigger]
        d.visited.contains(f) && !a.visited.contains(f) implies repo_minded(scan, d, f) by {
        if b.visited.contains(f) {
            lemma_repo_minded_stays(scan, b, d, f);
        }
    }
    assert forall|w: Seq<char>| #[trigger]
        d.warnings.contains(w) && !a.warnings.contains(w) implies has_cause(scan, w) by {
        if b.warnings.contains(w) {
            assert(has_cause(scan, w));
        }
    }
}

/// A warning with a cause is one more.
proof fn lemma_warned(scan: ScanView, c: CtxView, w: Seq<char>)
    requires
        has_cause(scan, w),
    ensures
        minds(scan, c, c.warned(w)),
        c.warned(w).warnings.contains(w),
{
    assert forall|v: Seq<char>| #[trigger] c.warned(w).warnings.contains(v) <==> c.warnings.contains(
        v,
    ) || v == w by {
        lemma_push_holds(c.warnings, w, v);
    }
}

/// What is chosen of a repo's services is clear, and nothing else is.
proof fn lemma_choice_is_clear(scan: ScanView, home: Seq<char>, wanted: Option<Seq<char>>)
    requires
        countable_scan(scan),
        scan.repos.dom().contains(home),
    ensures
        ({
            let names = ascending(scan.repos[home].component.services.dom());
            match choice(names, home, wanted) {
                Ok(id) => unclear(scan, home, wanted) is None,
                Err(w) => unclear(scan, home, wanted) == Some(w),
            }
        }),
{
    let dom = scan.repos[home].component.services.dom();
    let names = ascending(dom);
    lemma_ascending_of_set(dom);
    lemma_ascending_len(names);
    assert forall|n: Seq<char>| names.contains(n) <==> dom.contains(n) by {
        assert(names.to_set().contains(n) <==> names.contains(n));
    }
}

proof fn lemma_registered(
    c: CtxView,
    repo: ScannedRepoView,
    folder: Seq<char>,
    names: Seq<Seq<char>>,
)
    ensures
        services_registered(c, repo, folder, names).warnings == c.warnings,
        services_registered(c, repo, folder, names).visited == c.visited,
    decreases names.len(),
{
    if names.len() > 0 {
        lemma_registered(c, repo, folder, names.drop_last());
    }
}

proof fn lemma_repo_visited(depth: nat, scan: ScanView, c: CtxView, folder: Seq<char>)
    requires
        countable_scan(scan),
        scan.repos.dom().contains(folder),
    ensures
        minds(scan, c, repo_visited(depth, scan, c, folder)),
        depth > 0 ==> repo_visited(depth, scan, c, folder).visited.contains(folder),
    decreases depth, 0nat, 0nat,
{
    let repo = scan.repos[folder];
    let names = ascending(repo.component.services.dom());
    let c1 = services_registered(c, repo, folder, names);
    lemma_ascending_of_set(repo.component.services.dom());
    assert forall|i: int| 0 <= i < names.len() implies repo.component.services.dom().contains(
        #[trigger] names[i],
    ) by {
        assert(names.to_set().contains(names[i]));
    }
    lemma_registered(c, repo, folder, names);
    if !c1.visited.contains(folder) && depth > 0 {
        let c2 = CtxView { visited: c1.visited.insert(folder), ..c1 };
        let r = services_followed((depth - 1) as nat, scan, c2, folder, names);
        lemma_services_followed((depth - 1) as nat, scan, c2, folder, names);
        assert(repo_minded(scan, r, folder)) by {
            assert forall|name: Seq<char>|
                scan.repos[folder].component.services.dom().contains(
                    name,
                ) implies #[trigger] service_minded(scan, r, folder, name) by {
                assert(names.to_set().contains(name));
                let i = choose|i: int| 0 <= i < names.len() && names[i] == name;
                assert(service_minded(scan, r, folder, names[i]));
            }
        }
        assert forall|f: Seq<char>| #[trigger]
            r.visited.contains(f) && !c.visited.contains(f) implies repo_minded(scan, r, f) by {
            if f != folder {
                assert(!c2.visited.contains(f));
            }
        }
        assert(c2.visited.contains(folder));
        assert(c2.warnings == c.warnings);
        assert(minds(scan, c2, r));
        assert(c.visited.subset_of(r.visited)) by {
            assert forall|f: Seq<char>| c.visited.contains(f) implies r.visited.contains(f) by {
                assert(c2.visited.contains(f));
            }
        }
        assert forall|w: Seq<char>| #[trigger]
            r.warnings.contains(w) && !c.warnings.contains(w) implies has_cause(scan, w) by {
            assert(!c2.warnings.contains(w));
        }
        assert forall|w: Seq<char>| #[trigger] c.warnings.contains(w) implies r.warnings.contains(
            w,
        ) by {
            assert(c2.warnings.contains(w));
        }
    }
}

proof fn lemma_services_followed(
    depth: nat,
    scan: ScanView,
    c: CtxView,
    folder: Seq<char>,
    names: Seq<Seq<char>>,
)
    requires
        countable_scan(scan),
        scan.repos.dom().contains(folder),
        forall|i: int|
            0 <= i < names.len() ==> scan.repos[folder].component.services.dom().contains(
                #[trigger] names[i],
            ),
    ensures
        minds(scan, c, services_followed(depth, scan, c, folder, names)),
        forall|i: int|
            0 <= i < names.len() ==> service_minded(
                scan,
                services_followed(depth, scan, c, folder, names),
                folder,
                #[trigger] names[i],
            ),
    decreases depth, 6nat, names.len(),
{
    if names.len() > 0 {
        let front = names.drop_last();
        let name = names.last();
        assert(names[names.len() - 1] == name);
        assert forall|i: int| 0 <= i < front.len() implies scan.repos[folder].component.services.dom().contains(
            #[trigger] front[i],
        ) by {
            assert(front[i] == names[i]);
        }
        lemma_services_followed(depth, scan, c, folder, front);
        let before = services_followed(depth, scan, c, folder, front);
        let id = service_id(name, folder);
        let service = scan.repos[folder].component.services[name];
        let checked = ports_checked(before, id, service);
        let r = dependencies_followed(depth, scan, checked, id, folder, service.dependencies);
        lemma_ports_checked(scan, before, folder, name);
        lemma_dependencies_followed(depth, scan, checked, id, folder, service.dependencies);
        lemma_minds_on(scan, before, checked, r);
        lemma_minds_on(scan, c, before, r);
        assert forall|i: int| 0 <= i < names.len() implies service_minded(
            scan,
            r,
            folder,
            #[trigger] names[i],
        ) by {
            if i < front.len() {
                assert(front[i] == names[i]);
                lemma_service_minded_stays(scan, before, r, folder, names[i]);
            }
        }
    }
}

proof fn lemma_ports_checked(scan: ScanView, c: CtxView, folder: Seq<char>, name: Seq<char>)
    requires
        scan.repos.dom().contains(folder),
        scan.repos[folder].component.services.dom().contains(name),
    ensures
        ({
            let id = name + "."@ + folder;
            let service = scan.repos[folder].component.services[name];
            &&& minds(scan, c, ports_checked(c, id, service))
            &&& ports_minded(ports_checked(c, id, service), id, service)
        }),
{
    let id = name + "."@ + folder;
    let service = scan.repos[folder].component.services[name];
    let several = several_primaries(id, service);
    let unrouted = unrouted_hosts(id);
    let primaries = primary_ports(service);
    if service.ports.dom().finite() {
        law_primary_ports_are_listed(service, id);
    }
    let c1 = if primaries.len() > 1 {
        c.warned(several)
    } else {
        c
    };
    if primaries.len() > 1 {
        assert(has_cause(scan, several));
        lemma_warned(scan, c, several);
    }
    let r = ports_checked(c, id, service);
    if service.additional_hosts.len() > 0 && primaries.len() == 0 {
        assert(has_cause(scan, unrouted));
        lemma_warned(scan, c1, unrouted);
        lemma_minds_on(scan, c, c1, r);
    }
}

proof fn lemma_dependencies_followed(
    depth: nat,
    scan: ScanView,
    c: CtxView,
    owner: Seq<char>,
    folder: Seq<char>,
    deps: Seq<DependencyView>,
)
    requires
        countable_scan(scan),
        scan.repos.dom().contains(folder),
    ensures
        minds(scan, c, dependencies_followed(depth, scan, c, owner, folder, deps)),
        forall|k: int|
            0 <= k < deps.len() ==> dependency_minded(
                scan,
                dependencies_followed(depth, scan, c, owner, folder, deps),
                owner,
                folder,
                #[trigger] deps[k],
            ),
    decreases depth, 5nat, deps.len(),
{
    if deps.len() > 0 {
        let front = deps.drop_last();
        lemma_dependencies_followed(depth, scan, c, owner, folder, front);
        let before = dependencies_followed(depth, scan, c, owner, folder, front);
        let r = dependency_followed(depth, scan, before, owner, folder, deps.last());
        lemma_dependency_followed(depth, scan, before, owner, folder, deps.last());
        lemma_minds_on(scan, c, before, r);
        assert forall|k: int| 0 <= k < deps.len() implies dependency_minded(
            scan,
            r,
            owner,
            folder,
            #[trigger] deps[k],
        ) by {
            if k < front.len() {
                assert(front[k] == deps[k]);
                lemma_dependency_minded_stays(scan, before, r, owner, folder, deps[k]);
            }
        }
    }
}

proof fn lemma_dependency_followed(
    depth: nat,
    scan: ScanView,
    c: CtxView,
    owner: Seq<char>,
    folder: Seq<char>,
    dep: DependencyView,
)
    requires
        countable_scan(scan),
        scan.repos.dom().contains(folder),
    ensures
        minds(scan, c, dependency_followed(depth, scan, c, owner, folder, dep)),
        dependency_minded(
            scan,
            dependency_followed(depth, scan, c, owner, folder, dep),
            owner,
            folder,
            dep,
        ),
    decreases depth, 4nat, 0nat,
{
    let r = dependency_followed(depth, scan, c, owner, folder, dep);
    if let DependencyView::Service { repo, default_branch, services } = dep {
        let branch = match default_branch {
            Some(b) => b,
            None => Seq::empty(),
        };
        let wanted = wanted_services(services);
        lemma_wanted_followed(depth, scan, c, owner, folder, repo, branch, wanted);
        if services.len() == 0 {
            assert(minded(scan, r, owner, folder, repo, wanted[0]));
        }
        assert forall|k: int| 0 <= k < services.len() implies minded(
            scan,
            r,
            owner,
            folder,
            repo,
            Some(#[trigger] services[k]),
        ) by {
            assert(wanted[k] == Some(services[k]));
        }
    }
}

proof fn lemma_wanted_followed(
    depth: nat,
    scan: ScanView,
    c: CtxView,
    owner: Seq<char>,
    folder: Seq<char>,
    repo: Option<Seq<char>>,
    branch: Seq<char>,
    wanted: Seq<Option<Seq<char>>>,
)
    requires
        countable_scan(scan),
        scan.repos.dom().contains(folder),
    ensures
        minds(scan, c, wanted_followed(depth, scan, c, owner, folder, repo, branch, wanted)),
        forall|k: int|
            0 <= k < wanted.len() ==> minded(
                scan,
                wanted_followed(depth, scan, c, owner, folder, repo, branch, wanted),
                owner,
                folder,
                repo,
                #[trigger] wanted[k],
            ),
    decreases depth, 3nat, wanted.len(),
{
    if wanted.len() > 0 {
        let front = wanted.drop_last();
        lemma_wanted_followed(depth, scan, c, owner, folder, repo, branch, front);
        let before = wanted_followed(depth, scan, c, owner, folder, repo, branch, front);
        let r = wanted_followed(depth, scan, c, owner, folder, repo, branch, wanted);
        match repo {
            Some(url) => {
                lemma_service_followed(depth, scan, before, owner, folder, url, branch, wanted.last());
            },
            None => {
                lemma_sibling_followed(depth, scan, before, owner, folder, wanted.last());
            },
        }
        lemma_minds_on(scan, c, before, r);
        assert forall|k: int| 0 <= k < wanted.len() implies minded(
            scan,
            r,
            owner,
            folder,
            repo,
            #[trigger] wanted[k],
        ) by {
            if k < front.len() {
                assert(front[k] == wanted[k]);
                assert(minded(scan, before, owner, folder, repo, front[k]));
            }
        }
    }
}

proof fn lemma_service_followed(
    depth: nat,
    scan: ScanView,
    c: CtxView,
    owner: Seq<char>,
    folder: Seq<char>,
    url: Seq<char>,
    branch: Seq<char>,
    wanted: Option<Seq<char>>,
)
    requires
        countable_scan(scan),
    ensures
        minds(scan, c, service_followed(depth, scan, c, owner, url, branch, wanted)),
        minded(
            scan,
            service_followed(depth, scan, c, owner, url, branch, wanted),
            owner,
            folder,
            Some(url),
            wanted,
        ),
    decreases depth, 2nat, 0nat,
{
    let home = folder_of(scan, url);
    if scan.repos.dom().contains(home) {
        lemma_service_picked(depth, scan, c, home, wanted);
        let (after, id) = service_picked(depth, scan, c, home, wanted);
        let r = service_followed(depth, scan, c, owner, url, branch, wanted);
        assert(r.warnings == after.warnings);
        assert(r.visited == after.visited);
        assert(minds(scan, after, r));
        lemma_minds_on(scan, c, after, r);
    }
}

proof fn lemma_sibling_followed(
    depth: nat,
    scan: ScanView,
    c: CtxView,
    owner: Seq<char>,
    folder: Seq<char>,
    wanted: Option<Seq<char>>,
)
    requires
        countable_scan(scan),
        scan.repos.dom().contains(folder),
    ensures
        minds(scan, c, sibling_followed(depth, scan, c, owner, folder, wanted)),
        minded(
            scan,
            sibling_followed(depth, scan, c, owner, folder, wanted),
            owner,
            folder,
            None,
            wanted,
        ),
    decreases depth, 2nat, 0nat,
{
    lemma_service_picked(depth, scan, c, folder, wanted);
    let (after, id) = service_picked(depth, scan, c, folder, wanted);
    let r = sibling_followed(depth, scan, c, owner, folder, wanted);
    lemma_choice_is_meant(scan, folder, wanted, Seq::empty());
    if id == Some(owner) {
        let n = choose|n: Seq<char>|
            owner == #[trigger] (n + "."@ + folder) && means(scan, folder, wanted, n);
        assert(means_owner(scan, folder, wanted, owner));
        assert(has_cause(scan, own_dependency(owner)));
        lemma_warned(scan, after, own_dependency(owner));
    } else {
        assert(r.warnings == after.warnings);
        assert(r.visited == after.visited);
        assert(minds(scan, after, r));
        if means_owner(scan, folder, wanted, owner) {
            let n = choose|n: Seq<char>| #[trigger]
                means(scan, folder, wanted, n) && n + "."@ + folder == owner;
            lemma_choice_is_meant(scan, folder, wanted, n);
        }
    }
    lemma_minds_on(scan, c, after, r);
}

proof fn lemma_service_picked(
    depth: nat,
    scan: ScanView,
    c: CtxView,
    home: Seq<char>,
    wanted: Option<Seq<char>>,
)
    requires
        countable_scan(scan),
        scan.repos.dom().contains(home),
    ensures
        minds(scan, c, service_picked(depth, scan, c, home, wanted).0),
        unclear(scan, home, wanted) is Some ==> service_picked(
            depth,
            scan,
            c,
            home,
            wanted,
        ).0.warnings.contains(unclear(scan, home, wanted)->Some_0),
    decreases depth, 1nat, 0nat,
{
    let after = repo_visited(depth, scan, c, home);
    lemma_repo_visited(depth, scan, c, home);
    lemma_choice_is_clear(scan, home, wanted);
    if unclear(scan, home, wanted) is Some {
        let w = unclear(scan, home, wanted)->Some_0;
        assert(has_cause(scan, w));
        lemma_warned(scan, after, w);
        lemma_minds_on(scan, c, after, after.warned(w));
    }
}

proof fn lemma_repo_flows_followed(
    depth: nat,
    scan: ScanView,
    c: CtxView,
    folder: Seq<char>,
    roots: Seq<crate::resolver::flows::FlowRootView>,
    names: Seq<Seq<char>>,
)
    requires
        countable_scan(scan),
        scan.repos.dom().contains(folder),
    ensures
        minds(scan, c, repo_flows_followed(depth, scan, c, roots, folder, names).0),
        forall|i: int|
            0 <= i < names.len() ==> flow_minded(
                scan,
                repo_flows_followed(depth, scan, c, roots, folder, names).0,
                folder,
                #[trigger] names[i],
            ),
    decreases names.len(),
{
    if names.len() > 0 {
        let front = names.drop_last();
        let name = names.last();
        let flow = scan.repos[folder].component.flows[name];
        lemma_repo_flows_followed(depth, scan, c, folder, roots, front);
        let (c1, roots1) = repo_flows_followed(depth, scan, c, roots, folder, front);
        let (c2, id) = service_picked(depth, scan, c1, folder, flow.service);
        let r = repo_flows_followed(depth, scan, c, roots, folder, names).0;
        lemma_service_picked(depth, scan, c1, folder, flow.service);
        lemma_minds_on(scan, c, c1, c2);
        if let Some(root) = id {
            lemma_dependencies_followed(depth, scan, c2, root, folder, flow.dependencies);
            lemma_minds_on(scan, c1, c2, r);
        }
        lemma_minds_on(scan, c, c1, r);
        assert forall|i: int| 0 <= i < names.len() implies flow_minded(
            scan,
            r,
            folder,
            #[trigger] names[i],
        ) by {
            if i < front.len() {
                assert(front[i] == names[i]);
                lemma_flow_minded_stays(scan, c1, r, folder, names[i]);
            } else {
                assert forall|root: Seq<char>, k: int|
                    #![trigger means(scan, folder, flow.service, root), flow.dependencies[k]]
                    means(scan, folder, flow.service, root) && 0 <= k
                        < flow.dependencies.len() implies dependency_minded(
                    scan,
                    r,
                    root + "."@ + folder,
                    folder,
                    flow.dependencies[k],
                ) by {
                    lemma_choice_is_meant(scan, folder, flow.service, root);
                }
            }
        }
    }
}

proof fn lemma_flows_followed(depth: nat, scan: ScanView, folders: Seq<Seq<char>>)
    requires
        countable_scan(scan),
        forall|i: int| 0 <= i < folders.len() ==> scan.repos.dom().contains(#[trigger] folders[i]),
    ensures
        minds(scan, CtxView::start(), flows_followed(depth, scan, folders).0),
        forall|i: int, flow: Seq<char>|
            #![trigger folders[i], scan.repos[folders[i]].component.flows.dom().contains(flow)]
            0 <= i < folders.len() && scan.repos[folders[i]].component.flows.dom().contains(flow)
                ==> flow_minded(scan, flows_followed(depth, scan, folders).0, folders[i], flow),
    decreases folders.len(),
{
    if folders.len() > 0 {
        let front = folders.drop_last();
        let folder = folders.last();
        assert(folders[folders.len() - 1] == folder);
        assert forall|i: int| 0 <= i < front.len() implies scan.repos.dom().contains(
            #[trigger] front[i],
        ) by {
            assert(front[i] == folders[i]);
        }
        lemma_flows_followed(depth, scan, front);
        let (c, roots) = flows_followed(depth, scan, front);
        let dom = scan.repos[folder].component.flows.dom();
        let names = ascending(dom);
        lemma_ascending_of_set(dom);
        lemma_repo_flows_followed(depth, scan, c, folder, roots, names);
        let r = flows_followed(depth, scan, folders).0;
        lemma_minds_on(scan, CtxView::start(), c, r);
        assert forall|i: int, flow: Seq<char>|
            #![trigger folders[i], scan.repos[folders[i]].component.flows.dom().contains(flow)]
            0 <= i < folders.len() && scan.repos[folders[i]].component.flows.dom().contains(
                flow,
            ) implies flow_minded(scan, r, folders[i], flow) by {
            if i < front.len() {
                assert(front[i] == folders[i]);
                lemma_flow_minded_stays(scan, c, r, folders[i], flow);
            } else {
                assert(names.to_set().contains(flow));
                let k = choose|k: int| 0 <= k < names.len() && names[k] == flow;
                assert(flow_minded(scan, r, folder, names[k]));
            }
        }
    }
}

proof fn lemma_repos_visited(depth: nat, scan: ScanView, c: CtxView, folders: Seq<Seq<char>>)
    requires
        countable_scan(scan),
        depth > 0,
        forall|i: int| 0 <= i < folders.len() ==> scan.repos.dom().contains(#[trigger] folders[i]),
    ensures
        minds(scan, c, repos_visited(depth, scan, c, folders)),
        forall|i: int|
            0 <= i < folders.len() ==> repos_visited(depth, scan, c, folders).visited.contains(
                #[trigger] folders[i],
            ),
    decreases folders.len(),
{
    if folders.len() > 0 {
        let front = folders.drop_last();
        assert forall|i: int| 0 <= i < front.len() implies scan.repos.dom().contains(
            #[trigger] front[i],
        ) by {
            assert(front[i] == folders[i]);
        }
        lemma_repos_visited(depth, scan, c, front);
        let before = repos_visited(depth, scan, c, front);
        let r = repos_visited(depth, scan, c, folders);
        assert(folders[folders.len() - 1] == folders.last());
        lemma_repo_visited(depth, scan, before, folders.last());
        lemma_minds_on(scan, c, before, r);
        assert forall|i: int| 0 <= i < folders.len() implies r.visited.contains(
            #[trigger] folders[i],
        ) by {
            if i < front.len() {
                assert(front[i] == folders[i]);
                assert(before.visited.contains(front[i]));
            }
        }
    }
}

/// A walk says all that is wrong, and nothing without a cause.
proof fn lemma_walked(scan: ScanView)
    requires
        countable_scan(scan),
    ensures
        ({
            let c = walked(scan).0;
            &&& forall|f: Seq<char>| #[trigger]
                scan.repos.dom().contains(f) ==> repo_minded(scan, c, f)
            &&& forall|f: Seq<char>, flow: Seq<char>|
                #![trigger scan.repos[f].component.flows.dom().contains(flow)]
                scan.repos.dom().contains(f) && scan.repos[f].component.flows.dom().contains(flow)
                    ==> flow_minded(scan, c, f, flow)
            &&& forall|w: Seq<char>| #[trigger] c.warnings.contains(w) ==> has_cause(scan, w)
        }),
{
    let folders = ascending(scan.repos.dom());
    let depth = scan.repos.dom().len();
    lemma_ascending_of_set(scan.repos.dom());
    lemma_ascending_len(folders);
    assert forall|i: int| 0 <= i < folders.len() implies scan.repos.dom().contains(
        #[trigger] folders[i],
    ) by {
        assert(folders.to_set().contains(folders[i]));
    }
    lemma_flows_followed(depth, scan, folders);
    let flowed = flows_followed(depth, scan, folders).0;
    let c = walked(scan).0;
    if depth > 0 {
        lemma_repos_visited(depth, scan, flowed, folders);
    } else {
        assert(folders =~= Seq::empty());
        assert(c == flowed);
    }
    lemma_minds_on(scan, CtxView::start(), flowed, c);
    assert forall|f: Seq<char>| #[trigger] scan.repos.dom().contains(f) implies repo_minded(
        scan,
        c,
        f,
    ) by {
        assert(folders.to_set().contains(f));
        let i = choose|i: int| 0 <= i < folders.len() && folders[i] == f;
        assert(c.visited.contains(folders[i]));
    }
    assert forall|f: Seq<char>, flow: Seq<char>|
        #![trigger scan.repos[f].component.flows.dom().contains(flow)]
        scan.repos.dom().contains(f) && scan.repos[f].component.flows.dom().contains(
            flow,
        ) implies flow_minded(scan, c, f, flow) by {
        assert(folders.to_set().contains(f));
        let i = choose|i: int| 0 <= i < folders.len() && folders[i] == f;
        assert(flow_minded(scan, flowed, folders[i], flow));
        lemma_flow_minded_stays(scan, flowed, c, f, flow);
    }
}

/// A reference to a service that is not there, or that leaves open which one is
/// meant, is warned of, and so is one of a service to itself.
pub proof fn law_unclear_references_are_warned_of(
    scan: ScanView,
    folder: Seq<char>,
    service: Seq<char>,
    k: int,
    wanted: Option<Seq<char>>,
)
    requires
        countable_scan(scan),
        scan.repos.dom().contains(folder),
        scan.repos[folder].component.services.dom().contains(service),
        0 <= k < scan.repos[folder].component.services[service].dependencies.len(),
        scan.repos[folder].component.services[service].dependencies[k] is Service,
        ({
            let wants = scan.repos[folder].component.services[service].dependencies[k]->services;
            match wanted {
                Some(n) => wants.contains(n),
                None => wants.len() == 0,
            }
        }),
    ensures
        ({
            let dep = scan.repos[folder].component.services[service].dependencies[k];
            let home = home_of(scan, folder, dep->Service_repo);
            let owner = service + "."@ + folder;
            &&& dep->Service_repo is None || scan.repos.dom().contains(home) ==> (unclear(
                scan,
                home,
                wanted,
            ) matches Some(w) ==> universe(scan).warnings.contains(w))
            &&& dep->Service_repo is None && means_owner(scan, folder, wanted, owner) ==> universe(
                scan,
            ).warnings.contains(own_dependency(owner))
        }),
{
    lemma_walked(scan);
    let c = walked(scan).0;
    let dep = scan.repos[folder].component.services[service].dependencies[k];
    let repo = dep->Service_repo;
    let services = dep->services;
    let home = home_of(scan, folder, repo);
    let owner = service + "."@ + folder;
    assert(repo_minded(scan, c, folder));
    assert(service_minded(scan, c, folder, service));
    assert(dependency_minded(scan, c, owner, folder, dep));
    if let Some(n) = wanted {
        let i = choose|i: int| 0 <= i < services.len() && services[i] == n;
        assert(minded(scan, c, owner, folder, repo, Some(services[i])));
    }
    assert(minded(scan, c, owner, folder, repo, wanted));
    lemma_warnings_of_the_walk(scan);
}

proof fn lemma_warnings_of_the_walk(scan: ScanView)
    ensures
        forall|w: Seq<char>| #[trigger]
            walked(scan).0.warnings.contains(w) ==> universe(scan).warnings.contains(w),
{
    let c = walked(scan).0;
    let all = universe(scan).warnings;
    let rest = all.skip(c.warnings.len() as int);
    assert forall|w: Seq<char>| #[trigger] c.warnings.contains(w) implies all.contains(w) by {
        assert(all =~= c.warnings + rest);
        lemma_append_holds(c.warnings, rest, w);
    }
}

/// A service with two primary ports is warned of, and so is one with hosts of its own
/// and no primary port.
pub proof fn law_ports_that_cannot_be_routed_are_warned_of(
    scan: ScanView,
    folder: Seq<char>,
    name: Seq<char>,
)
    requires
        countable_scan(scan),
        scan.repos.dom().contains(folder),
        scan.repos[folder].component.services.dom().contains(name),
        scan.repos[folder].component.services[name].ports.dom().finite(),
    ensures
        ({
            let service = scan.repos[folder].component.services[name];
            let id = name + "."@ + folder;
            &&& has_two_primaries(service) ==> universe(scan).warnings.contains(
                several_primaries(id, service),
            )
            &&& has_unrouted_hosts(service) ==> universe(scan).warnings.contains(
                unrouted_hosts(id),
            )
        }),
{
    lemma_walked(scan);
    let c = walked(scan).0;
    assert(repo_minded(scan, c, folder));
    assert(service_minded(scan, c, folder, name));
    lemma_warnings_of_the_walk(scan);
}

/// A flow that does not say where it starts is warned of.
pub proof fn law_flows_without_a_start_are_warned_of(
    scan: ScanView,
    folder: Seq<char>,
    flow: Seq<char>,
)
    requires
        countable_scan(scan),
        scan.repos.dom().contains(folder),
        scan.repos[folder].component.flows.dom().contains(flow),
    ensures
        unclear(scan, folder, scan.repos[folder].component.flows[flow].service) matches Some(w)
            ==> universe(scan).warnings.contains(w),
{
    lemma_walked(scan);
    let c = walked(scan).0;
    assert(flow_minded(scan, c, folder, flow));
    lemma_warnings_of_the_walk(scan);
}

/// Nothing that is in order is warned of on the way.
pub proof fn law_warnings_have_a_cause(scan: ScanView, w: Seq<char>)
    requires
        countable_scan(scan),
    ensures
        walked(scan).0.warnings.contains(w) ==> has_cause(scan, w),
{
    lemma_walked(scan);
}

} // verus!
