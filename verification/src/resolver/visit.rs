//! Walking the repos of a workspace: nodes, edges and warnings.

use vstd::prelude::*;

use crate::resolver::graph::{
    BackingDependencyConfig, BackingDependencyConfigView, Dependency, DependencyView, Edge,
    EdgeView, Environment, EnvironmentView, Node, NodeView, PortConfig, PortConfigView, Scan,
    ScanView, ScannedRepo, ScannedRepoView, ServiceConfig, ServiceConfigView,
};
use crate::resolver::url::{normalize_repo_url, normalized, repo_name, repo_name_from_url};
use crate::strmap::{ascending, lemma_take_next, StrMap};
use crate::text::{concat_text, contains_text, join_texts, joined, same_text};

verus! {

/// What has been found out so far.
pub struct CtxView {
    pub nodes: Map<Seq<char>, NodeView>,
    /// The stub that stands for a repo that is not on disk, by its URL.
    pub stubs: Map<Seq<char>, Seq<char>>,
    pub edges: Seq<EdgeView>,
    /// The repos whose dependencies have been followed.
    pub visited: Set<Seq<char>>,
    pub warnings: Seq<Seq<char>>,
}

impl CtxView {
    /// Nothing found out yet.
    pub open spec fn start() -> CtxView {
        CtxView {
            nodes: Map::empty(),
            stubs: Map::empty(),
            edges: Seq::empty(),
            visited: Set::empty(),
            warnings: Seq::empty(),
        }
    }

    /// With one warning more.
    pub open spec fn warned(self, w: Seq<char>) -> CtxView {
        CtxView { warnings: self.warnings.push(w), ..self }
    }

    /// With one edge more.
    pub open spec fn linked(
        self,
        from: Seq<char>,
        to: Seq<char>,
        kind: Seq<char>,
        branch: Option<Seq<char>>,
    ) -> CtxView {
        CtxView {
            edges: self.edges.push(
                EdgeView { from, to, kind, branch, flows: Seq::empty() },
            ),
            ..self
        }
    }

    /// With a node, unless there is one of that id already.
    pub open spec fn registered(self, node: NodeView) -> CtxView {
        if self.nodes.dom().contains(node.id) {
            self
        } else {
            CtxView { nodes: self.nodes.insert(node.id, node), ..self }
        }
    }

    /// Every node stands under its own id, one that is not on disk is a stub, and
    /// every edge but a reference to a shared backing dependency joins two nodes.
    pub open spec fn consistent(self) -> bool {
        &&& forall|k: Seq<char>| #[trigger]
            self.nodes.dom().contains(k) ==> self.nodes[k].id == k && (self.nodes[k].downloaded
                || is_stub(self.nodes[k]))
        &&& forall|i: int|
            #![trigger self.edges[i]]
            0 <= i < self.edges.len() ==> {
                &&& self.nodes.dom().contains(self.edges[i].from)
                &&& self.edges[i].kind == "shared-backing"@ || self.nodes.dom().contains(
                    self.edges[i].to,
                )
            }
    }

    /// Whether nothing of `self` is lost in `later`.
    pub open spec fn grows_into(self, later: CtxView) -> bool {
        &&& self.visited.subset_of(later.visited)
        &&& forall|k: Seq<char>| #[trigger]
            self.nodes.dom().contains(k) ==> later.nodes.dom().contains(k) && later.nodes[k]
                == self.nodes[k]
        &&& forall|url: Seq<char>| #[trigger]
            self.stubs.dom().contains(url) ==> later.stubs.dom().contains(url)
                && later.stubs[url] == self.stubs[url]
        &&& self.edges.len() <= later.edges.len()
        &&& forall|i: int|
            #![trigger later.edges[i]]
            0 <= i < self.edges.len() ==> later.edges[i] == self.edges[i]
    }
}

/// The id of a service: its name, qualified by the folder of its repo.
pub open spec fn service_id(name: Seq<char>, local_path: Seq<char>) -> Seq<char> {
    name + "."@ + local_path
}

/// The id of a backing dependency: its name, qualified by its owner.
pub open spec fn backing_id(name: Seq<char>, owner_id: Seq<char>) -> Seq<char> {
    name + "."@ + owner_id
}

/// An environment as a list of `KEY=value` strings.
pub open spec fn env_pairs(e: EnvironmentView) -> Seq<Seq<char>> {
    match e {
        EnvironmentView::Table(m) => ascending(m.dom()).map_values(
            |k: Seq<char>| k + "="@ + m[k],
        ),
        EnvironmentView::List(l) => l,
    }
}

/// The node of a service whose repo is on disk.
pub open spec fn service_node(
    name: Seq<char>,
    local_path: Seq<char>,
    repo: ScannedRepoView,
) -> NodeView {
    let service = repo.component.services[name];
    NodeView {
        id: service_id(name, local_path),
        label: name,
        kind: "service"@,
        image: None,
        branch: repo.branch,
        repo: repo.remote,
        domain_scope: service.domain_scope,
        local_path: Some(local_path),
        domain: Seq::empty(),
        downloaded: true,
        dirty: repo.dirty,
        flows: Seq::empty(),
        build: service.build,
        ports: service.ports,
        environment: env_pairs(service.environment),
        command: service.command,
        volumes: service.volumes,
        additional_hosts: service.additional_hosts,
        env_file: service.env_file,
        restart: service.restart,
        user: service.user,
        working_dir: service.working_dir,
        labels: service.labels,
        cap_add: service.cap_add,
        cap_drop: service.cap_drop,
        privileged: service.privileged,
        extra_hosts: service.extra_hosts,
        healthcheck: service.healthcheck,
        platform: service.platform,
    }
}

/// The node that stands for a repo that is not on disk yet.
pub open spec fn stub_node(id: Seq<char>, repo: Seq<char>, branch: Seq<char>) -> NodeView {
    NodeView {
        id,
        label: id,
        kind: "service"@,
        image: None,
        branch: Some(branch),
        repo: Some(repo),
        domain_scope: "run"@,
        local_path: Some(id),
        domain: Seq::empty(),
        downloaded: false,
        dirty: false,
        flows: Seq::empty(),
        build: None,
        ports: Map::empty(),
        environment: Seq::empty(),
        command: Seq::empty(),
        volumes: Seq::empty(),
        additional_hosts: Seq::empty(),
        env_file: Seq::empty(),
        restart: "no"@,
        user: None,
        working_dir: None,
        labels: Map::empty(),
        cap_add: Seq::empty(),
        cap_drop: Seq::empty(),
        privileged: false,
        extra_hosts: Seq::empty(),
        healthcheck: None,
        platform: None,
    }
}

/// Whether a node stands for a repo that is not on disk yet.
pub open spec fn is_stub(n: NodeView) -> bool {
    n.repo matches Some(repo) && n.branch matches Some(branch) && n == stub_node(n.id, repo, branch)
}

/// The ports of a backing dependency, none of which has a role.
pub open spec fn plain_ports(ports: Seq<Seq<char>>) -> Map<Seq<char>, PortConfigView> {
    Map::new(|p: Seq<char>| ports.contains(p), |p: Seq<char>| PortConfigView::plain())
}

/// The node of a backing dependency.
pub open spec fn backing_node(owner_id: Seq<char>, b: BackingDependencyConfigView) -> NodeView {
    NodeView {
        id: backing_id(b.name, owner_id),
        label: b.name,
        kind: "backing"@,
        image: Some(b.image),
        branch: None,
        repo: None,
        domain_scope: b.domain_scope,
        local_path: None,
        domain: Seq::empty(),
        downloaded: true,
        dirty: false,
        flows: Seq::empty(),
        build: None,
        ports: plain_ports(b.ports),
        environment: env_pairs(b.environment),
        command: b.command,
        volumes: b.volumes,
        additional_hosts: Seq::empty(),
        env_file: b.env_file,
        restart: b.restart,
        user: b.user,
        working_dir: b.working_dir,
        labels: b.labels,
        cap_add: b.cap_add,
        cap_drop: b.cap_drop,
        privileged: b.privileged,
        extra_hosts: b.extra_hosts,
        healthcheck: b.healthcheck,
        platform: b.platform,
    }
}

/// The folder of every repo on disk by the URL of its remote, the first
/// folder where several have the same.
pub open spec fn index_of_repos(
    repos: Map<Seq<char>, ScannedRepoView>,
    folders: Seq<Seq<char>>,
) -> Map<Seq<char>, Seq<char>>
    decreases folders.len(),
{
    if folders.len() == 0 {
        Map::empty()
    } else {
        let m = index_of_repos(repos, folders.drop_last());
        match repos[folders.last()].remote {
            Some(remote) => if m.dom().contains(normalized(remote)) {
                m
            } else {
                m.insert(normalized(remote), folders.last())
            },
            None => m,
        }
    }
}

/// The folder of every repo on disk by the URL of its remote.
pub open spec fn repo_index(scan: ScanView) -> Map<Seq<char>, Seq<char>> {
    index_of_repos(scan.repos, ascending(scan.repos.dom()))
}

/// The folder of a repo: where it is on disk, or else where it would be.
pub open spec fn folder_of(scan: ScanView, repo: Seq<char>) -> Seq<char> {
    let index = repo_index(scan);
    if index.dom().contains(normalized(repo)) {
        index[normalized(repo)]
    } else {
        repo_name(repo)
    }
}

/// The ports of a service that are to sit at its own domain.
pub open spec fn primary_ports(service: ServiceConfigView) -> Seq<Seq<char>> {
    ascending(service.ports.dom()).filter(|p: Seq<char>| service.ports[p].primary)
}

/// With the warnings that a service's ports give rise to.
pub open spec fn ports_checked(c: CtxView, id: Seq<char>, service: ServiceConfigView) -> CtxView {
    let primaries = primary_ports(service);
    let c1 = if primaries.len() > 1 {
        c.warned(
            "'"@ + id + "' declares more than one primary port ("@ + joined(primaries, ", "@)
                + "); only one can sit at its own domain"@,
        )
    } else {
        c
    };
    if service.additional_hosts.len() > 0 && primaries.len() == 0 {
        c1.warned(
            "'"@ + id
                + "' declares additional_hosts but no primary port; those hosts won't be routed to anything"@,
        )
    } else {
        c1
    }
}

/// With the nodes of the named services of a repo.
pub open spec fn services_registered(
    c: CtxView,
    repo: ScannedRepoView,
    local_path: Seq<char>,
    names: Seq<Seq<char>>,
) -> CtxView
    decreases names.len(),
{
    if names.len() == 0 {
        c
    } else {
        services_registered(c, repo, local_path, names.drop_last()).registered(
            service_node(names.last(), local_path, repo),
        )
    }
}

/// What is known after a repo on disk has been visited: its services are
/// nodes, and the first time their dependencies are followed. `depth` bounds
/// how many repos may be entered on the way.
pub open spec fn repo_visited(
    depth: nat,
    scan: ScanView,
    c: CtxView,
    local_path: Seq<char>,
) -> CtxView
    decreases depth, 0nat, 0nat,
{
    let repo = scan.repos[local_path];
    let names = ascending(repo.component.services.dom());
    let c1 = services_registered(c, repo, local_path, names);
    if c1.visited.contains(local_path) || depth == 0 {
        c1
    } else {
        services_followed(
            (depth - 1) as nat,
            scan,
            CtxView { visited: c1.visited.insert(local_path), ..c1 },
            local_path,
            names,
        )
    }
}

/// What is known after the dependencies of the named services were followed.
pub open spec fn services_followed(
    depth: nat,
    scan: ScanView,
    c: CtxView,
    local_path: Seq<char>,
    names: Seq<Seq<char>>,
) -> CtxView
    decreases depth, 6nat, names.len(),
{
    if names.len() == 0 {
        c
    } else {
        let before = services_followed(depth, scan, c, local_path, names.drop_last());
        let id = service_id(names.last(), local_path);
        let service = scan.repos[local_path].component.services[names.last()];
        dependencies_followed(
            depth,
            scan,
            ports_checked(before, id, service),
            id,
            local_path,
            service.dependencies,
        )
    }
}

/// What is known after a list of dependencies was followed.
pub open spec fn dependencies_followed(
    depth: nat,
    scan: ScanView,
    c: CtxView,
    owner_id: Seq<char>,
    local_path: Seq<char>,
    deps: Seq<DependencyView>,
) -> CtxView
    decreases depth, 5nat, deps.len(),
{
    if deps.len() == 0 {
        c
    } else {
        dependency_followed(
            depth,
            scan,
            dependencies_followed(depth, scan, c, owner_id, local_path, deps.drop_last()),
            owner_id,
            local_path,
            deps.last(),
        )
    }
}

/// The services that a dependency on a repo names; `None` stands for its only
/// one.
pub open spec fn wanted_services(services: Seq<Seq<char>>) -> Seq<Option<Seq<char>>> {
    if services.len() == 0 {
        seq![None]
    } else {
        services.map_values(|n: Seq<char>| Some(n))
    }
}

/// What is known after one dependency was followed.
pub open spec fn dependency_followed(
    depth: nat,
    scan: ScanView,
    c: CtxView,
    owner_id: Seq<char>,
    local_path: Seq<char>,
    dep: DependencyView,
) -> CtxView
    decreases depth, 4nat, 0nat,
{
    match dep {
        DependencyView::Service { repo, default_branch, services } => wanted_followed(
            depth,
            scan,
            c,
            owner_id,
            local_path,
            repo,
            match default_branch {
                Some(b) => b,
                None => Seq::empty(),
            },
            wanted_services(services),
        ),
        DependencyView::Backing(b) => c.registered(backing_node(owner_id, b)).linked(
            owner_id,
            backing_id(b.name, owner_id),
            "owns"@,
            None,
        ),
        DependencyView::SharedBacking { repo, service, name } => {
            let folder = match repo {
                Some(r) => folder_of(scan, r),
                None => local_path,
            };
            c.linked(
                owner_id,
                backing_id(name, service_id(service, folder)),
                "shared-backing"@,
                None,
            )
        },
    }
}

/// What is known after every wanted service was followed.
pub open spec fn wanted_followed(
    depth: nat,
    scan: ScanView,
    c: CtxView,
    owner_id: Seq<char>,
    local_path: Seq<char>,
    repo: Option<Seq<char>>,
    branch: Seq<char>,
    wanted: Seq<Option<Seq<char>>>,
) -> CtxView
    decreases depth, 3nat, wanted.len(),
{
    if wanted.len() == 0 {
        c
    } else {
        let before = wanted_followed(
            depth,
            scan,
            c,
            owner_id,
            local_path,
            repo,
            branch,
            wanted.drop_last(),
        );
        match repo {
            Some(r) => service_followed(depth, scan, before, owner_id, r, branch, wanted.last()),
            None => sibling_followed(depth, scan, before, owner_id, local_path, wanted.last()),
        }
    }
}

/// What is known after a service of another repo was followed: into the repo
/// where it is on disk, up to a stub where it is not.
pub open spec fn service_followed(
    depth: nat,
    scan: ScanView,
    c: CtxView,
    owner_id: Seq<char>,
    repo: Seq<char>,
    branch: Seq<char>,
    wanted: Option<Seq<char>>,
) -> CtxView
    decreases depth, 2nat, 0nat,
{
    let folder = folder_of(scan, repo);
    if scan.repos.dom().contains(folder) {
        let (after, id) = service_picked(depth, scan, c, folder, wanted);
        match id {
            Some(id) => after.linked(owner_id, id, "depends-on"@, Some(branch)),
            None => after,
        }
    } else {
        let url = normalized(repo);
        let (stubs, id) = if c.stubs.dom().contains(url) {
            (c.stubs, c.stubs[url])
        } else {
            (c.stubs.insert(url, folder), folder)
        };
        CtxView { stubs, ..c }.registered(stub_node(id, repo, branch)).linked(
            owner_id,
            id,
            "depends-on"@,
            Some(branch),
        )
    }
}

/// The node that a reference to a service of another repo leads to: the service
/// where the repo is on disk, if there is one that is meant; its stub where it is
/// not.
pub open spec fn service_target(
    scan: ScanView,
    c: CtxView,
    repo: Seq<char>,
    wanted: Option<Seq<char>>,
) -> Option<Seq<char>> {
    let folder = folder_of(scan, repo);
    if scan.repos.dom().contains(folder) {
        match choice(ascending(scan.repos[folder].component.services.dom()), folder, wanted) {
            Ok(id) => Some(id),
            Err(_) => None,
        }
    } else if c.stubs.dom().contains(normalized(repo)) {
        Some(c.stubs[normalized(repo)])
    } else {
        Some(folder)
    }
}

/// Two references to one repo that is not on disk share one stub, however the
/// repo is spelled and whatever is found out between them. The stub is that of
/// the first reference; the second adds an edge to it, with the branch of its
/// own, and nothing else.
pub proof fn law_references_to_a_missing_repo_share_a_stub(
    depth: nat,
    scan: ScanView,
    c: CtxView,
    owner_id: Seq<char>,
    repo: Seq<char>,
    branch: Seq<char>,
    wanted: Option<Seq<char>>,
    later_depth: nat,
    later: CtxView,
    later_owner_id: Seq<char>,
    later_repo: Seq<char>,
    later_branch: Seq<char>,
    later_wanted: Option<Seq<char>>,
)
    requires
        normalized(repo) == normalized(later_repo),
        !repo_index(scan).dom().contains(normalized(repo)),
        !scan.repos.dom().contains(repo_name(repo)),
        !scan.repos.dom().contains(repo_name(later_repo)),
        !c.stubs.dom().contains(normalized(repo)),
        !c.nodes.dom().contains(repo_name(repo)),
        service_followed(depth, scan, c, owner_id, repo, branch, wanted).grows_into(later),
    ensures
        ({
            let id = repo_name(repo);
            let first = service_followed(depth, scan, c, owner_id, repo, branch, wanted);
            let second = service_followed(
                later_depth,
                scan,
                later,
                later_owner_id,
                later_repo,
                later_branch,
                later_wanted,
            );
            &&& service_target(scan, c, repo, wanted) == Some(id)
            &&& service_target(scan, later, later_repo, later_wanted) == Some(id)
            &&& first.nodes == c.nodes.insert(id, stub_node(id, repo, branch))
            &&& second.nodes[id] == stub_node(id, repo, branch)
            &&& second == (CtxView {
                edges: later.edges.push(
                    EdgeView {
                        from: later_owner_id,
                        to: id,
                        kind: "depends-on"@,
                        branch: Some(later_branch),
                        flows: Seq::empty(),
                    },
                ),
                ..later
            })
        }),
{
    let first = service_followed(depth, scan, c, owner_id, repo, branch, wanted);
    assert(first.stubs.dom().contains(normalized(repo)));
    assert(first.nodes.dom().contains(repo_name(repo)));
}

/// What is known after a service of the owner's own repo was followed.
pub open spec fn sibling_followed(
    depth: nat,
    scan: ScanView,
    c: CtxView,
    owner_id: Seq<char>,
    local_path: Seq<char>,
    wanted: Option<Seq<char>>,
) -> CtxView
    decreases depth, 2nat, 0nat,
{
    let (after, id) = service_picked(depth, scan, c, local_path, wanted);
    match id {
        Some(id) => if id == owner_id {
            after.warned(
                "'"@ + owner_id + "' declares a same-repo `kind: service` dependency on itself"@,
            )
        } else {
            after.linked(owner_id, id, "depends-on"@, None)
        },
        None => after,
    }
}

/// Which service of a repo is meant: the wanted one, or the only one. What is
/// wrong with the reference otherwise.
pub open spec fn choice(
    names: Seq<Seq<char>>,
    local_path: Seq<char>,
    wanted: Option<Seq<char>>,
) -> Result<Seq<char>, Seq<char>> {
    match wanted {
        Some(name) => if names.contains(name) {
            Ok(service_id(name, local_path))
        } else {
            Err("'"@ + local_path + "' has no service named '"@ + name + "'"@)
        },
        None => if names.len() == 1 {
            Ok(service_id(names[0], local_path))
        } else if names.len() == 0 {
            Err("'"@ + local_path + "' declares no services"@)
        } else {
            Err(
                "'"@ + local_path + "' declares multiple services ("@ + joined(names, ", "@)
                    + "); specify which one with `service:`"@,
            )
        },
    }
}

/// What is known after a repo was visited for one of its services, and which
/// service that is.
pub open spec fn service_picked(
    depth: nat,
    scan: ScanView,
    c: CtxView,
    local_path: Seq<char>,
    wanted: Option<Seq<char>>,
) -> (CtxView, Option<Seq<char>>)
    decreases depth, 1nat, 0nat,
{
    let after = repo_visited(depth, scan, c, local_path);
    let names = ascending(scan.repos[local_path].component.services.dom());
    match choice(names, local_path, wanted) {
        Ok(id) => (after, Some(id)),
        Err(w) => (after.warned(w), None),
    }
}

/// How many repos have not been entered yet.
pub open spec fn unvisited(scan: ScanView, c: CtxView) -> nat {
    scan.repos.dom().difference(c.visited).len()
}

proof fn lemma_unvisited_shrinks(scan: ScanView, a: CtxView, b: CtxView)
    requires
        scan.repos.dom().finite(),
        a.visited.subset_of(b.visited),
    ensures
        unvisited(scan, b) <= unvisited(scan, a),
{
    let x = scan.repos.dom().difference(a.visited);
    let y = scan.repos.dom().difference(b.visited);
    assert(y.subset_of(x));
    vstd::set_lib::lemma_len_subset(y, x);
}

proof fn lemma_unvisited_drops(scan: ScanView, c: CtxView, local_path: Seq<char>)
    requires
        scan.repos.dom().finite(),
        scan.repos.dom().contains(local_path),
        !c.visited.contains(local_path),
    ensures
        unvisited(scan, CtxView { visited: c.visited.insert(local_path), ..c }) + 1 == unvisited(
            scan,
            c,
        ),
{
    let x = scan.repos.dom().difference(c.visited);
    let y = scan.repos.dom().difference(c.visited.insert(local_path));
    assert(y =~= x.remove(local_path));
}

/// The state of a walk.
pub struct ResolveCtx {
    pub nodes: StrMap<Node>,
    pub stubs: StrMap<String>,
    pub edges: Vec<Edge>,
    pub visited: Vec<String>,
    pub warnings: Vec<String>,
}

impl View for ResolveCtx {
    type V = CtxView;

    open spec fn view(&self) -> CtxView {
        CtxView {
            nodes: self.nodes@,
            stubs: self.stubs@,
            edges: self.edges.deep_view(),
            visited: self.visited.deep_view().to_set(),
            warnings: self.warnings.deep_view(),
        }
    }
}

impl ResolveCtx {
    /// A walk that has not begun.
    pub fn new() -> (r: Self)
        ensures
            r@ == CtxView::start(),
            r@.consistent(),
    {
        let r = ResolveCtx {
            nodes: StrMap::new(),
            stubs: StrMap::new(),
            edges: Vec::new(),
            visited: Vec::new(),
            warnings: Vec::new(),
        };
        proof {
            assert(r.edges.deep_view() =~= Seq::<EdgeView>::empty());
            assert(r.warnings.deep_view() =~= Seq::<Seq<char>>::empty());
            assert(r.visited.deep_view().to_set() =~= Set::<Seq<char>>::empty());
        }
        r
    }

    fn warn(&mut self, w: String)
        requires
            old(self)@.consistent(),
        ensures
            final(self)@ == old(self)@.warned(w@),
            final(self)@.consistent(),
            old(self)@.grows_into(final(self)@),
    {
        self.warnings.push(w);
        proof {
            assert(self.warnings.deep_view() =~= old(self).warnings.deep_view().push(w@));
        }
    }

    fn link(&mut self, from: &str, to: String, kind: &str, branch: Option<String>)
        requires
            old(self)@.consistent(),
            old(self)@.nodes.dom().contains(from@),
            kind@ == "shared-backing"@ || old(self)@.nodes.dom().contains(to@),
        ensures
            final(self)@ == old(self)@.linked(from@, to@, kind@, branch.deep_view()),
            final(self)@.consistent(),
            old(self)@.grows_into(final(self)@),
    {
        let flows: Vec<String> = Vec::new();
        proof {
            assert(flows.deep_view() =~= Seq::<Seq<char>>::empty());
        }
        let edge = Edge { from: from.to_owned(), to, kind: kind.to_owned(), branch, flows };
        self.edges.push(edge);
        proof {
            assert(self.edges.deep_view() =~= old(self).edges.deep_view().push(edge@));
        }
    }

    fn register(&mut self, node: Node)
        requires
            old(self)@.consistent(),
            node@.downloaded || is_stub(node@),
        ensures
            final(self)@ == old(self)@.registered(node@),
            final(self)@.consistent(),
            final(self)@.nodes.dom().contains(node@.id),
            old(self)@.grows_into(final(self)@),
    {
        if !self.nodes.contains_key(node.id.as_str()) {
            self.nodes.insert(node.id.clone(), node);
        }
    }

    fn mark_visited(&mut self, local_path: &str)
        requires
            old(self)@.consistent(),
        ensures
            final(self)@ == (CtxView {
                visited: old(self)@.visited.insert(local_path@),
                ..old(self)@
            }),
            final(self)@.consistent(),
            old(self)@.grows_into(final(self)@),
    {
        let ghost before = self.visited.deep_view();
        self.visited.push(local_path.to_owned());
        proof {
            let after = self.visited.deep_view();
            assert(after =~= before.push(local_path@));
            assert forall|k: Seq<char>| after.to_set().contains(k) == before.to_set().insert(
                local_path@,
            ).contains(k) by {
                if before.to_set().contains(k) {
                    let i = choose|i: int| 0 <= i < before.len() && before[i] == k;
                    assert(after[i] == k);
                }
                assert(after[before.len() as int] == local_path@);
            }
            assert(after.to_set() =~= before.to_set().insert(local_path@));
        }
    }
}

/// An environment as a list of `KEY=value` strings.
pub fn to_pairs(e: &Environment) -> (r: Vec<String>)
    ensures
        r.deep_view() == env_pairs(e@),
{
    match e {
        Environment::List(l) => {
            let copy = l.clone();
            proof {
                assert(copy.deep_view() =~= l.deep_view());
            }
            copy
        },
        Environment::Table(m) => {
            let mut out: Vec<String> = Vec::new();
            let n: usize = m.len();
            let mut i: usize = 0;
            let ghost f = |k: Seq<char>| k + "="@ + m@[k];
            while i < n
                invariant
                    n == m@.dom().len(),
                    n == m.keys().len(),
                    i <= n,
                    f == (|k: Seq<char>| k + "="@ + m@[k]),
                    out.deep_view() == m.keys().take(i as int).map_values(f),
                decreases n - i,
            {
                let mut pair = concat_text(m.key_at(i).as_str(), "=");
                pair.append(m.value_at(i).as_str());
                let ghost before = out.deep_view();
                out.push(pair);
                proof {
                    lemma_take_next(m.keys(), i as int);
                    assert(out.deep_view() =~= before.push(pair@));
                    assert(m.keys().take(i + 1).map_values(f) =~= m.keys().take(i as int).map_values(
                        f,
                    ).push(f(m.keys()[i as int])));
                }
                i += 1;
            }
            proof {
                assert(m.keys().take(n as int) =~= m.keys());
            }
            out
        },
    }
}

fn make_service_node(name: &str, local_path: &str, repo: &ScannedRepo, service: &ServiceConfig) -> (r:
    Node)
    requires
        repo@.component.services.dom().contains(name@),
        repo@.component.services[name@] == service@,
    ensures
        r@ == service_node(name@, local_path@, repo@),
{
    let mut id = concat_text(name, ".");
    id.append(local_path);
    let flows: Vec<String> = Vec::new();
    let s = service.clone();
    let r = Node {
        id,
        label: name.to_owned(),
        kind: "service".to_owned(),
        image: None,
        branch: repo.branch.clone(),
        repo: repo.remote.clone(),
        domain_scope: s.domain_scope,
        local_path: Some(local_path.to_owned()),
        domain: String::new(),
        downloaded: true,
        dirty: repo.dirty,
        flows,
        build: s.build,
        ports: s.ports,
        environment: to_pairs(&service.environment),
        command: s.command,
        volumes: s.volumes,
        additional_hosts: s.additional_hosts,
        env_file: s.env_file,
        restart: s.restart,
        user: s.user,
        working_dir: s.working_dir,
        labels: s.labels,
        cap_add: s.cap_add,
        cap_drop: s.cap_drop,
        privileged: s.privileged,
        extra_hosts: s.extra_hosts,
        healthcheck: s.healthcheck,
        platform: s.platform,
    };
    proof {
        assert(r.flows.deep_view() =~= Seq::<Seq<char>>::empty());
    }
    r
}

fn make_stub_node(id: &str, repo: &str, branch: &str) -> (r: Node)
    ensures
        r@ == stub_node(id@, repo@, branch@),
{
    let r = Node {
        id: id.to_owned(),
        label: id.to_owned(),
        kind: "service".to_owned(),
        image: None,
        branch: Some(branch.to_owned()),
        repo: Some(repo.to_owned()),
        domain_scope: "run".to_owned(),
        local_path: Some(id.to_owned()),
        domain: String::new(),
        downloaded: false,
        dirty: false,
        flows: Vec::new(),
        build: None,
        ports: StrMap::new(),
        environment: Vec::new(),
        command: Vec::new(),
        volumes: Vec::new(),
        additional_hosts: Vec::new(),
        env_file: Vec::new(),
        restart: "no".to_owned(),
        user: None,
        working_dir: None,
        labels: StrMap::new(),
        cap_add: Vec::new(),
        cap_drop: Vec::new(),
        privileged: false,
        extra_hosts: Vec::new(),
        healthcheck: None,
        platform: None,
    };
    proof {
        assert(r.flows.deep_view() =~= Seq::empty());
        assert(r.environment.deep_view() =~= Seq::empty());
        assert(r.command.deep_view() =~= Seq::empty());
        assert(r.volumes.deep_view() =~= Seq::empty());
        assert(r.additional_hosts.deep_view() =~= Seq::empty());
        assert(r.env_file.deep_view() =~= Seq::empty());
        assert(r.cap_add.deep_view() =~= Seq::empty());
        assert(r.cap_drop.deep_view() =~= Seq::empty());
        assert(r.extra_hosts.deep_view() =~= Seq::empty());
    }
    r
}

fn make_plain_ports(ports: &Vec<String>) -> (r: StrMap<PortConfig>)
    ensures
        r@ == plain_ports(ports.deep_view()),
{
    let ghost ps = ports.deep_view();
    let mut r: StrMap<PortConfig> = StrMap::new();
    let mut i: usize = 0;
    while i < ports.len()
        invariant
            i <= ports@.len(),
            ps == ports.deep_view(),
            forall|k: Seq<char>|
                #![trigger r@.dom().contains(k)]
                r@.dom().contains(k) <==> ps.take(i as int).contains(k),
            forall|k: Seq<char>|
                #![trigger r@[k]]
                r@.dom().contains(k) ==> r@[k] == PortConfigView::plain(),
        decreases ports@.len() - i,
    {
        proof {
            lemma_take_next(ps, i as int);
        }
        r.insert(ports[i].clone(), PortConfig::default());
        i += 1;
    }
    proof {
        assert(ps.take(ps.len() as int) =~= ps);
        assert(r@ =~= plain_ports(ps));
    }
    r
}

fn make_backing_node(owner_id: &str, backing: &BackingDependencyConfig) -> (r: Node)
    ensures
        r@ == backing_node(owner_id@, backing@),
{
    let mut id = concat_text(backing.name.as_str(), ".");
    id.append(owner_id);
    let b = backing.clone();
    let r = Node {
        id,
        label: b.name,
        kind: "backing".to_owned(),
        image: Some(b.image),
        branch: None,
        repo: None,
        domain_scope: b.domain_scope,
        local_path: None,
        domain: String::new(),
        downloaded: true,
        dirty: false,
        flows: Vec::new(),
        build: None,
        ports: make_plain_ports(&backing.ports),
        environment: to_pairs(&backing.environment),
        command: b.command,
        volumes: b.volumes,
        additional_hosts: Vec::new(),
        env_file: b.env_file,
        restart: b.restart,
        user: b.user,
        working_dir: b.working_dir,
        labels: b.labels,
        cap_add: b.cap_add,
        cap_drop: b.cap_drop,
        privileged: b.privileged,
        extra_hosts: b.extra_hosts,
        healthcheck: b.healthcheck,
        platform: b.platform,
    };
    proof {
        assert(r.flows.deep_view() =~= Seq::empty());
        assert(r.additional_hosts.deep_view() =~= Seq::empty());
    }
    r
}

/// The folder of every repo on disk by the URL of its remote.
pub fn index_repos(scan: &Scan) -> (r: StrMap<String>)
    ensures
        r@ == repo_index(scan@),
{
    let mut r: StrMap<String> = StrMap::new();
    let n: usize = scan.repos.len();
    let mut i: usize = 0;
    while i < n
        invariant
            n == scan.repos@.dom().len(),
            n == scan.repos.keys().len(),
            i <= n,
            r@ == index_of_repos(scan.repos@, scan.repos.keys().take(i as int)),
        decreases n - i,
    {
        let folder = scan.repos.key_at(i);
        let repo = scan.repos.value_at(i);
        proof {
            let ks = scan.repos.keys();
            assert(ks.take(i + 1).drop_last() =~= ks.take(i as int));
            assert(ks.take(i + 1).last() == ks[i as int]);
        }
        match &repo.remote {
            Some(remote) => {
                let url = normalize_repo_url(remote.as_str());
                if !r.contains_key(url.as_str()) {
                    r.insert(url, folder.clone());
                }
            },
            None => {},
        }
        i += 1;
    }
    proof {
        assert(scan.repos.keys().take(n as int) =~= scan.repos.keys());
    }
    r
}

fn find_folder(scan: &Scan, index: &StrMap<String>, repo: &str) -> (r: String)
    requires
        index@ == repo_index(scan@),
    ensures
        r@ == folder_of(scan@, repo@),
{
    match index.get(normalize_repo_url(repo).as_str()) {
        Some(folder) => folder.clone(),
        None => repo_name_from_url(repo),
    }
}

fn collect_primary_ports(service: &ServiceConfig) -> (r: Vec<String>)
    ensures
        r.deep_view() == primary_ports(service@),
{
    let mut r: Vec<String> = Vec::new();
    let n: usize = service.ports.len();
    let mut i: usize = 0;
    let ghost f = |p: Seq<char>| service@.ports[p].primary;
    proof {
        assert(service.ports.keys().take(0).filter(f) =~= Seq::<Seq<char>>::empty());
        assert(r.deep_view() =~= Seq::<Seq<char>>::empty());
    }
    while i < n
        invariant
            n == service.ports@.dom().len(),
            n == service.ports.keys().len(),
            i <= n,
            f == (|p: Seq<char>| service@.ports[p].primary),
            r.deep_view() == service.ports.keys().take(i as int).filter(f),
        decreases n - i,
    {
        let port = service.ports.key_at(i);
        let config = service.ports.value_at(i);
        proof {
            let ks = service.ports.keys();
            lemma_take_next(ks, i as int);
            ks.take(i as int).lemma_filter_push(ks[i as int], f);
        }
        if config.primary {
            let ghost before = r.deep_view();
            r.push(port.clone());
            proof {
                assert(r.deep_view() =~= before.push(port@));
            }
        }
        i += 1;
    }
    proof {
        assert(service.ports.keys().take(n as int) =~= service.ports.keys());
    }
    r
}

/// Whether a walk may go on: it is sound so far, and at most `depth` repos are
/// left to be entered.
pub open spec fn ready(scan: ScanView, c: CtxView, depth: nat) -> bool {
    &&& scan.repos.dom().finite()
    &&& c.consistent()
    &&& unvisited(scan, c) <= depth
}

/// As many repos as there are bound every walk.
pub(crate) proof fn lemma_ready(scan: ScanView, c: CtxView)
    requires
        scan.repos.dom().finite(),
        c.consistent(),
    ensures
        ready(scan, c, scan.repos.dom().len()),
{
    let rest = scan.repos.dom().difference(c.visited);
    assert(rest.subset_of(scan.repos.dom()));
    vstd::set_lib::lemma_len_subset(rest, scan.repos.dom());
}

proof fn lemma_still_ready(scan: ScanView, a: CtxView, b: CtxView, depth: nat)
    requires
        ready(scan, a, depth),
        b.consistent(),
        a.grows_into(b),
    ensures
        ready(scan, b, depth),
{
    lemma_unvisited_shrinks(scan, a, b);
}

pub(crate) proof fn lemma_grows_transitive(a: CtxView, b: CtxView, c: CtxView)
    requires
        a.grows_into(b),
        b.grows_into(c),
    ensures
        a.grows_into(c),
{
    assert forall|i: int| #![trigger c.edges[i]] 0 <= i < a.edges.len() implies c.edges[i]
        == a.edges[i] by {
        assert(b.edges[i] == a.edges[i]);
    }
}

impl ResolveCtx {
    fn register_services(&mut self, repo: &ScannedRepo, local_path: &str, names: &Vec<String>)
        requires
            old(self)@.consistent(),
            names.deep_view().to_set() == repo@.component.services.dom(),
        ensures
            final(self)@ == services_registered(
                old(self)@,
                repo@,
                local_path@,
                names.deep_view(),
            ),
            final(self)@.consistent(),
            old(self)@.grows_into(final(self)@),
            forall|n: Seq<char>| #[trigger]
                repo@.component.services.dom().contains(n) ==> final(self)@.nodes.dom().contains(
                    service_id(n, local_path@),
                ),
    {
        let ghost ns = names.deep_view();
        let ghost start = self@;
        let mut i: usize = 0;
        proof {
            assert(ns.take(0) =~= Seq::empty());
        }
        while i < names.len()
            invariant
                i <= names@.len(),
                ns == names.deep_view(),
                ns.to_set() == repo@.component.services.dom(),
                self@ == services_registered(start, repo@, local_path@, ns.take(i as int)),
                self@.consistent(),
                start.grows_into(self@),
                forall|j: int|
                    #![trigger ns[j]]
                    0 <= j < i ==> self@.nodes.dom().contains(service_id(ns[j], local_path@)),
            decreases names@.len() - i,
        {
            let ghost before = self@;
            proof {
                assert(ns.take(i + 1).drop_last() =~= ns.take(i as int));
                assert(ns.take(i + 1).last() == ns[i as int]);
                assert(ns.to_set().contains(ns[i as int]));
            }
            match repo.component.services.get(names[i].as_str()) {
                Some(service) => {
                    let node = make_service_node(names[i].as_str(), local_path, repo, service);
                    self.register(node);
                },
                None => {},
            }
            proof {
                lemma_grows_transitive(start, before, self@);
            }
            i += 1;
        }
        proof {
            assert(ns.take(ns.len() as int) =~= ns);
            assert forall|n: Seq<char>| #[trigger]
                repo@.component.services.dom().contains(n) implies self@.nodes.dom().contains(
                service_id(n, local_path@),
            ) by {
                assert(ns.to_set().contains(n));
                let j = choose|j: int| 0 <= j < ns.len() && ns[j] == n;
                assert(ns[j] == n);
            }
        }
    }

    /// Warns of a service with more than one primary port, and of one with
    /// additional hosts that no port answers on.
    fn check_ports(&mut self, service_id: &str, service: &ServiceConfig)
        requires
            old(self)@.consistent(),
        ensures
            final(self)@ == ports_checked(old(self)@, service_id@, service@),
            final(self)@.consistent(),
            old(self)@.grows_into(final(self)@),
    {
        let primaries = collect_primary_ports(service);
        let ghost start = self@;
        if primaries.len() > 1 {
            let mut w = concat_text("'", service_id);
            w.append("' declares more than one primary port (");
            w.append(join_texts(&primaries, ", ").as_str());
            w.append("); only one can sit at its own domain");
            self.warn(w);
        }
        let ghost middle = self@;
        if service.additional_hosts.len() > 0 && primaries.len() == 0 {
            let mut w = concat_text("'", service_id);
            w.append(
                "' declares additional_hosts but no primary port; those hosts won't be routed to anything",
            );
            self.warn(w);
        }
        proof {
            lemma_grows_transitive(start, middle, self@);
        }
    }

    /// Makes nodes of the services of a repo on disk and, the first time,
    /// follows their dependencies. Returns the names of the services.
    pub(crate) fn visit_local_services(
        &mut self,
        scan: &Scan,
        index: &StrMap<String>,
        local_path: &str,
        Ghost(depth): Ghost<nat>,
    ) -> (names: Vec<String>)
        requires
            ready(scan@, old(self)@, depth),
            index@ == repo_index(scan@),
            scan@.repos.dom().contains(local_path@),
        ensures
            final(self)@ == repo_visited(depth, scan@, old(self)@, local_path@),
            final(self)@.consistent(),
            old(self)@.grows_into(final(self)@),
            final(self)@.visited.contains(local_path@),
            names.deep_view() == ascending(scan@.repos[local_path@].component.services.dom()),
            forall|n: Seq<char>| #[trigger]
                scan@.repos[local_path@].component.services.dom().contains(n)
                    ==> final(self)@.nodes.dom().contains(service_id(n, local_path@)),
            forall|n: Seq<char>| #[trigger]
                scan@.repos[local_path@].component.services.dom().contains(n)
                    == names.deep_view().contains(n),
        decreases depth, 0nat,
    {
        match scan.repos.get(local_path) {
            None => Vec::new(),
            Some(repo) => {
                let names = repo.component.services.key_list();
                let ghost start = self@;
                let ghost ns = names.deep_view();
                let ghost services = repo@.component.services;
                proof {
                    assert forall|n: Seq<char>| #[trigger]
                        services.dom().contains(n) == ns.contains(n) by {
                        assert(ns.to_set().contains(n) == ns.contains(n));
                    }
                }
                self.register_services(repo, local_path, &names);
                let ghost registered = self@;
                if contains_text(&self.visited, local_path) {
                    proof {
                        assert(self@.visited.contains(local_path@));
                    }
                    return names;
                }
                proof {
                    assert(!self@.visited.contains(local_path@));
                    lemma_still_ready(scan@, start, self@, depth);
                    lemma_unvisited_drops(scan@, self@, local_path@);
                }
                self.mark_visited(local_path);
                let ghost marked = self@;
                let ghost inner: nat = (depth - 1) as nat;
                proof {
                    lemma_grows_transitive(start, registered, marked);
                }
                let mut i: usize = 0;
                proof {
                    assert(ns.take(0) =~= Seq::empty());
                }
                while i < names.len()
                    invariant
                        i <= names@.len(),
                        ns == names.deep_view(),
                        services == repo@.component.services,
                        scan@.repos.dom().contains(local_path@),
                        scan@.repos[local_path@] == repo@,
                        index@ == repo_index(scan@),
                        forall|n: Seq<char>| #[trigger] services.dom().contains(n) == ns.contains(n),
                        depth >= 1,
                        inner == depth - 1,
                        ready(scan@, self@, inner),
                        marked.grows_into(self@),
                        marked.visited.contains(local_path@),
                        forall|n: Seq<char>| #[trigger]
                            services.dom().contains(n) ==> marked.nodes.dom().contains(
                                service_id(n, local_path@),
                            ),
                        self@ == services_followed(
                            inner,
                            scan@,
                            marked,
                            local_path@,
                            ns.take(i as int),
                        ),
                    decreases names@.len() - i,
                {
                    let ghost before = self@;
                    let mut id = concat_text(names[i].as_str(), ".");
                    id.append(local_path);
                    proof {
                        assert(ns.take(i + 1).drop_last() =~= ns.take(i as int));
                        assert(ns.take(i + 1).last() == ns[i as int]);
                        assert(ns.contains(ns[i as int]));
                        assert(services.dom().contains(ns[i as int]));
                    }
                    match repo.component.services.get(names[i].as_str()) {
                        None => {},
                        Some(service) => {
                            self.check_ports(id.as_str(), service);
                            proof {
                                lemma_still_ready(scan@, before, self@, inner);
                                lemma_grows_transitive(marked, before, self@);
                            }
                            let ghost checked = self@;
                            self.visit_dependencies(
                                scan,
                                index,
                                id.as_str(),
                                local_path,
                                &service.dependencies,
                                Ghost(inner),
                            );
                            proof {
                                lemma_still_ready(scan@, checked, self@, inner);
                                lemma_grows_transitive(marked, checked, self@);
                            }
                        },
                    }
                    i += 1;
                }
                proof {
                    assert(ns.take(ns.len() as int) =~= ns);
                    lemma_grows_transitive(start, marked, self@);
                }
                names
            },
        }
    }

    /// Visits a repo for one of its services: the wanted one, or its only one.
    /// Warns where there is no such service.
    pub(crate) fn visit_local_service(
        &mut self,
        scan: &Scan,
        index: &StrMap<String>,
        local_path: &str,
        wanted: Option<&str>,
        Ghost(depth): Ghost<nat>,
    ) -> (r: Option<String>)
        requires
            ready(scan@, old(self)@, depth),
            index@ == repo_index(scan@),
            scan@.repos.dom().contains(local_path@),
        ensures
            (final(self)@, r.deep_view()) == service_picked(
                depth,
                scan@,
                old(self)@,
                local_path@,
                wanted.deep_view(),
            ),
            final(self)@.consistent(),
            old(self)@.grows_into(final(self)@),
            r is Some ==> final(self)@.nodes.dom().contains(r->Some_0@),
        decreases depth, 1nat,
    {
        let ghost start = self@;
        let names = self.visit_local_services(scan, index, local_path, Ghost(depth));
        let ghost after = self@;
        let ghost ns = names.deep_view();
        let ghost services = scan@.repos[local_path@].component.services;
        match wanted {
            Some(name) => {
                if contains_text(&names, name) {
                    let mut id = concat_text(name, ".");
                    id.append(local_path);
                    proof {
                        assert(services.dom().contains(name@));
                    }
                    Some(id)
                } else {
                    let mut w = concat_text("'", local_path);
                    w.append("' has no service named '");
                    w.append(name);
                    w.append("'");
                    self.warn(w);
                    proof {
                        lemma_grows_transitive(start, after, self@);
                    }
                    None
                }
            },
            None => {
                if names.len() == 1 {
                    let mut id = concat_text(names[0].as_str(), ".");
                    id.append(local_path);
                    proof {
                        assert(ns.contains(ns[0]));
                        assert(services.dom().contains(ns[0]));
                    }
                    return Some(id);
                }
                let mut w = concat_text("'", local_path);
                if names.len() == 0 {
                    w.append("' declares no services");
                } else {
                    w.append("' declares multiple services (");
                    w.append(join_texts(&names, ", ").as_str());
                    w.append("); specify which one with `service:`");
                }
                self.warn(w);
                proof {
                    lemma_grows_transitive(start, after, self@);
                }
                None
            },
        }
    }

    /// Follows a dependency on a service of another repo: into the repo where it is
    /// on disk, up to a stub where it is not. Returns the node that it leads to.
    pub fn visit_service_dependency(
        &mut self,
        scan: &Scan,
        index: &StrMap<String>,
        owner_id: &str,
        repo: &str,
        default_branch: &str,
        wanted: Option<&str>,
    ) -> (r: Option<String>)
        requires
            old(self)@.consistent(),
            index@ == repo_index(scan@),
            old(self)@.nodes.dom().contains(owner_id@),
        ensures
            r.deep_view() == service_target(scan@, old(self)@, repo@, wanted.deep_view()),
            final(self)@ == service_followed(
                scan@.repos.dom().len(),
                scan@,
                old(self)@,
                owner_id@,
                repo@,
                default_branch@,
                wanted.deep_view(),
            ),
            final(self)@.consistent(),
            old(self)@.grows_into(final(self)@),
    {
        // Only so many repos can be entered.
        let _bound: usize = scan.repos.len();
        let ghost depth: nat = scan@.repos.dom().len();
        proof {
            lemma_ready(scan@, self@);
        }
        self.follow_service(scan, index, owner_id, repo, default_branch, wanted, Ghost(depth))
    }

    fn follow_service(
        &mut self,
        scan: &Scan,
        index: &StrMap<String>,
        owner_id: &str,
        repo: &str,
        default_branch: &str,
        wanted: Option<&str>,
        Ghost(depth): Ghost<nat>,
    ) -> (r: Option<String>)
        requires
            ready(scan@, old(self)@, depth),
            index@ == repo_index(scan@),
            old(self)@.nodes.dom().contains(owner_id@),
        ensures
            r.deep_view() == service_target(scan@, old(self)@, repo@, wanted.deep_view()),
            final(self)@ == service_followed(
                depth,
                scan@,
                old(self)@,
                owner_id@,
                repo@,
                default_branch@,
                wanted.deep_view(),
            ),
            final(self)@.consistent(),
            old(self)@.grows_into(final(self)@),
        decreases depth, 2nat,
    {
        let ghost start = self@;
        let folder = find_folder(scan, index, repo);
        if scan.repos.contains_key(folder.as_str()) {
            let picked = self.visit_local_service(
                scan,
                index,
                folder.as_str(),
                wanted,
                Ghost(depth),
            );
            let ghost after = self@;
            match picked {
                Some(id) => {
                    self.link(owner_id, id.clone(), "depends-on", Some(default_branch.to_owned()));
                    proof {
                        lemma_grows_transitive(start, after, self@);
                    }
                    Some(id)
                },
                None => None,
            }
        } else {
            let url = normalize_repo_url(repo);
            let id = match self.stubs.get(url.as_str()) {
                Some(id) => id.clone(),
                None => {
                    self.stubs.insert(url, folder.clone());
                    folder
                },
            };
            let ghost noted = self@;
            let node = make_stub_node(id.as_str(), repo, default_branch);
            self.register(node);
            let ghost registered = self@;
            self.link(owner_id, id.clone(), "depends-on", Some(default_branch.to_owned()));
            proof {
                lemma_grows_transitive(start, noted, registered);
                lemma_grows_transitive(start, registered, self@);
            }
            Some(id)
        }
    }

    /// Follows a dependency on a service of the owner's own repo.
    fn visit_sibling_service_dependency(
        &mut self,
        scan: &Scan,
        index: &StrMap<String>,
        owner_id: &str,
        local_path: &str,
        wanted: Option<&str>,
        Ghost(depth): Ghost<nat>,
    )
        requires
            ready(scan@, old(self)@, depth),
            index@ == repo_index(scan@),
            scan@.repos.dom().contains(local_path@),
            old(self)@.nodes.dom().contains(owner_id@),
        ensures
            final(self)@ == sibling_followed(
                depth,
                scan@,
                old(self)@,
                owner_id@,
                local_path@,
                wanted.deep_view(),
            ),
            final(self)@.consistent(),
            old(self)@.grows_into(final(self)@),
        decreases depth, 2nat,
    {
        let ghost start = self@;
        let picked = self.visit_local_service(scan, index, local_path, wanted, Ghost(depth));
        let ghost after = self@;
        match picked {
            None => {},
            Some(id) => {
                if same_text(id.as_str(), owner_id) {
                    let mut w = concat_text("'", owner_id);
                    w.append("' declares a same-repo `kind: service` dependency on itself");
                    self.warn(w);
                } else {
                    self.link(owner_id, id, "depends-on", None);
                }
                proof {
                    lemma_grows_transitive(start, after, self@);
                }
            },
        }
    }

    /// Follows one service that a dependency names.
    fn visit_wanted(
        &mut self,
        scan: &Scan,
        index: &StrMap<String>,
        owner_id: &str,
        local_path: &str,
        repo: &Option<String>,
        branch: &str,
        wanted: Option<&str>,
        Ghost(depth): Ghost<nat>,
    )
        requires
            ready(scan@, old(self)@, depth),
            index@ == repo_index(scan@),
            scan@.repos.dom().contains(local_path@),
            old(self)@.nodes.dom().contains(owner_id@),
        ensures
            final(self)@ == (match repo.deep_view() {
                Some(r) => service_followed(
                    depth,
                    scan@,
                    old(self)@,
                    owner_id@,
                    r,
                    branch@,
                    wanted.deep_view(),
                ),
                None => sibling_followed(
                    depth,
                    scan@,
                    old(self)@,
                    owner_id@,
                    local_path@,
                    wanted.deep_view(),
                ),
            }),
            final(self)@.consistent(),
            old(self)@.grows_into(final(self)@),
        decreases depth, 3nat,
    {
        match repo {
            Some(r) => {
                let _ = self.follow_service(
                    scan,
                    index,
                    owner_id,
                    r.as_str(),
                    branch,
                    wanted,
                    Ghost(depth),
                );
            },
            None => self.visit_sibling_service_dependency(
                scan,
                index,
                owner_id,
                local_path,
                wanted,
                Ghost(depth),
            ),
        }
    }

    /// Follows a list of dependencies.
    pub(crate) fn visit_dependencies(
        &mut self,
        scan: &Scan,
        index: &StrMap<String>,
        owner_id: &str,
        local_path: &str,
        deps: &Vec<Dependency>,
        Ghost(depth): Ghost<nat>,
    )
        requires
            ready(scan@, old(self)@, depth),
            index@ == repo_index(scan@),
            scan@.repos.dom().contains(local_path@),
            old(self)@.nodes.dom().contains(owner_id@),
        ensures
            final(self)@ == dependencies_followed(
                depth,
                scan@,
                old(self)@,
                owner_id@,
                local_path@,
                deps.deep_view(),
            ),
            final(self)@.consistent(),
            old(self)@.grows_into(final(self)@),
        decreases depth, 5nat,
    {
        let ghost start = self@;
        let ghost ds = deps.deep_view();
        let mut i: usize = 0;
        proof {
            assert(ds.take(0) =~= Seq::empty());
        }
        while i < deps.len()
            invariant
                i <= deps@.len(),
                ds == deps.deep_view(),
                ready(scan@, self@, depth),
                index@ == repo_index(scan@),
                scan@.repos.dom().contains(local_path@),
                start.nodes.dom().contains(owner_id@),
                start.grows_into(self@),
                self@ == dependencies_followed(
                    depth,
                    scan@,
                    start,
                    owner_id@,
                    local_path@,
                    ds.take(i as int),
                ),
            decreases deps@.len() - i,
        {
            let ghost before = self@;
            proof {
                assert(ds.take(i + 1).drop_last() =~= ds.take(i as int));
                assert(ds.take(i + 1).last() == ds[i as int]);
            }
            self.visit_dependency(scan, index, owner_id, local_path, &deps[i], Ghost(depth));
            proof {
                lemma_still_ready(scan@, before, self@, depth);
                lemma_grows_transitive(start, before, self@);
            }
            i += 1;
        }
        proof {
            assert(ds.take(ds.len() as int) =~= ds);
        }
    }

    /// Follows one dependency.
    fn visit_dependency(
        &mut self,
        scan: &Scan,
        index: &StrMap<String>,
        owner_id: &str,
        local_path: &str,
        dep: &Dependency,
        Ghost(depth): Ghost<nat>,
    )
        requires
            ready(scan@, old(self)@, depth),
            index@ == repo_index(scan@),
            scan@.repos.dom().contains(local_path@),
            old(self)@.nodes.dom().contains(owner_id@),
        ensures
            final(self)@ == dependency_followed(
                depth,
                scan@,
                old(self)@,
                owner_id@,
                local_path@,
                dep@,
            ),
            final(self)@.consistent(),
            old(self)@.grows_into(final(self)@),
        decreases depth, 4nat,
    {
        let ghost start = self@;
        match dep {
            Dependency::Service { repo, default_branch, services } => {
                let branch = match default_branch {
                    Some(b) => b.clone(),
                    None => String::new(),
                };
                let ghost names = services.deep_view();
                let ghost wanted = wanted_services(names);
                if services.len() == 0 {
                    self.visit_wanted(
                        scan,
                        index,
                        owner_id,
                        local_path,
                        repo,
                        branch.as_str(),
                        None,
                        Ghost(depth),
                    );
                    proof {
                        assert(wanted.drop_last() =~= Seq::empty());
                        reveal_with_fuel(wanted_followed, 2);
                    }
                } else {
                    let mut i: usize = 0;
                    proof {
                        assert(wanted.take(0) =~= Seq::empty());
                    }
                    while i < services.len()
                        invariant
                            i <= services@.len(),
                            names == services.deep_view(),
                            names.len() > 0,
                            wanted == wanted_services(names),
                            ready(scan@, self@, depth),
                            index@ == repo_index(scan@),
                            scan@.repos.dom().contains(local_path@),
                            start.nodes.dom().contains(owner_id@),
                            start.grows_into(self@),
                            self@ == wanted_followed(
                                depth,
                                scan@,
                                start,
                                owner_id@,
                                local_path@,
                                repo.deep_view(),
                                branch@,
                                wanted.take(i as int),
                            ),
                        decreases services@.len() - i,
                    {
                        let ghost before = self@;
                        proof {
                            assert(wanted.take(i + 1).drop_last() =~= wanted.take(i as int));
                            assert(wanted.take(i + 1).last() == Some(names[i as int]));
                        }
                        self.visit_wanted(
                            scan,
                            index,
                            owner_id,
                            local_path,
                            repo,
                            branch.as_str(),
                            Some(services[i].as_str()),
                            Ghost(depth),
                        );
                        proof {
                            lemma_still_ready(scan@, before, self@, depth);
                            lemma_grows_transitive(start, before, self@);
                        }
                        i += 1;
                    }
                    proof {
                        assert(wanted.take(wanted.len() as int) =~= wanted);
                    }
                }
            },
            Dependency::Backing(backing) => {
                let node = make_backing_node(owner_id, backing);
                let id = node.id.clone();
                self.register(node);
                let ghost registered = self@;
                self.link(owner_id, id, "owns", None);
                proof {
                    lemma_grows_transitive(start, registered, self@);
                }
            },
            Dependency::SharedBacking { repo, service, name } => {
                let folder = match repo {
                    Some(r) => find_folder(scan, index, r.as_str()),
                    None => local_path.to_owned(),
                };
                let mut owner = concat_text(service.as_str(), ".");
                owner.append(folder.as_str());
                let mut id = concat_text(name.as_str(), ".");
                id.append(owner.as_str());
                self.link(owner_id, id, "shared-backing", None);
            },
        }
    }
}

} // verus!
