//! The workspaces that the daemon serves.

use vstd::prelude::*;

use crate::action::{Action, ActionRejected};
use crate::daemon::workspace_id::{domain_label, domain_label_of, id_of, workspace_id};
use crate::dns::{in_zone, matches_zone, zone_name, ZoneSource, ANSWER, ZONE_RAW};
use crate::paths::{lies_within, path_within, same_path, same_path_of};
use crate::proxy::{local, local_backend, Backend, BackendView, RouteResolver};
use crate::query::{
    at_or_below, first_route, law_wildcard_takes_in_its_domain_and_all_below, resolve_route,
    route_of, running_containers, under_wildcard, wildcard_domains, wildcard_suffixes,
    wildcard_suffixes_of,
};
use crate::raw_net::{address, address_of, resolve, virtual_ip};
use crate::reducer::{reduce, reduced};
use crate::seqs::{lemma_filter_holds, lemma_flat_map_holds};
use crate::state::{
    ContainerInfoView, PortRouteView, RunState, RunStateView, WorkspaceState, WorkspaceStateView,
};
use crate::strmap::{ascending, lemma_ascending_of_set, StrMap};
use crate::text::same_text;

verus! {

/// Why a workspace is not admitted.
#[derive(Debug)]
pub enum WireError {
    /// It lies inside one that is.
    Nested { path: String, inside: String },
    /// Its services would have the names of another's.
    SameLabel { path: String, other: String, label: String },
}

/// Why a workspace is not admitted.
#[allow(inconsistent_fields)]
pub enum WireErrorView {
    Nested { path: Seq<char>, inside: Seq<char> },
    SameLabel { path: Seq<char>, other: Seq<char>, label: Seq<char> },
}

impl View for WireError {
    type V = WireErrorView;

    open spec fn view(&self) -> WireErrorView {
        match self {
            WireError::Nested { path, inside } => WireErrorView::Nested {
                path: path@,
                inside: inside@,
            },
            WireError::SameLabel { path, other, label } => WireErrorView::SameLabel {
                path: path@,
                other: other@,
                label: label@,
            },
        }
    }
}

impl WireErrorView {
    /// What the error says to a person.
    pub open spec fn message(self) -> Seq<char> {
        match self {
            WireErrorView::Nested { path, inside } => path
                + " is inside the already-wired workspace "@ + inside,
            WireErrorView::SameLabel { path, other, label } => path
                + " and the already-wired workspace "@ + other
                + " both derive the domain segment '"@ + label
                + "', so their services would claim identical *.fghj.internal names. Rename one folder."@,
        }
    }
}

impl WireError {
    /// What the error says to a person.
    pub fn message(&self) -> (r: String)
        ensures
            r@ == self@.message(),
    {
        match self {
            WireError::Nested { path, inside } => {
                let mut r = path.clone();
                r.append(" is inside the already-wired workspace ");
                r.append(inside.as_str());
                r
            },
            WireError::SameLabel { path, other, label } => {
                let mut r = path.clone();
                r.append(" and the already-wired workspace ");
                r.append(other.as_str());
                r.append(" both derive the domain segment '");
                r.append(label.as_str());
                r.append(
                    "', so their services would claim identical *.fghj.internal names. Rename one folder.",
                );
                r
            },
        }
    }
}

/// Why a workspace cannot be served beside another, if it cannot.
pub open spec fn conflict(path: Seq<char>, other: Seq<char>) -> Option<WireErrorView> {
    if same_path_of(path, other) {
        None
    } else if path_within(path, other) {
        Some(WireErrorView::Nested { path, inside: other })
    } else if domain_label_of(path) == domain_label_of(other) {
        Some(WireErrorView::SameLabel { path, other, label: domain_label_of(path) })
    } else {
        None
    }
}

fn find_conflict(path: &str, other: &str) -> (r: Option<WireError>)
    ensures
        match r {
            Some(e) => conflict(path@, other@) == Some(e@),
            None => conflict(path@, other@) is None,
        },
{
    if same_path(path, other) {
        return None;
    }
    if lies_within(path, other) {
        return Some(WireError::Nested { path: path.to_owned(), inside: other.to_owned() });
    }
    let label = domain_label(path);
    if same_text(label.as_str(), domain_label(other).as_str()) {
        Some(WireError::SameLabel { path: path.to_owned(), other: other.to_owned(), label })
    } else {
        None
    }
}

/// The first of some workspaces beside which another cannot be served.
pub open spec fn first_conflict(
    paths: Map<Seq<char>, Seq<char>>,
    ids: Seq<Seq<char>>,
    path: Seq<char>,
) -> Option<WireErrorView>
    decreases ids.len(),
{
    if ids.len() == 0 {
        None
    } else {
        match first_conflict(paths, ids.drop_last(), path) {
            Some(e) => Some(e),
            None => conflict(path, paths[ids.last()]),
        }
    }
}

/// The id under which a workspace is admitted, or why it is not.
pub open spec fn admission(paths: Map<Seq<char>, Seq<char>>, path: Seq<char>) -> Result<
    Seq<char>,
    WireErrorView,
> {
    match first_conflict(paths, ascending(paths.dom()), path) {
        Some(e) => Err(e),
        None => Ok(id_of(path)),
    }
}

/// A workspace that is admitted.
pub struct Admission {
    pub id: String,
    /// Whether it is served already.
    pub known: bool,
}

/// The workspaces that the daemon serves: their paths, their states, and the
/// addresses that were given out to their raw names.
pub struct WorkspaceRegistry {
    paths: StrMap<String>,
    states: StrMap<WorkspaceState>,
    raw_addresses: StrMap<u32>,
}

/// The workspaces that the daemon serves.
pub struct RegistryView {
    pub paths: Map<Seq<char>, Seq<char>>,
    pub states: Map<Seq<char>, WorkspaceStateView>,
    pub raw_addresses: Map<Seq<char>, u32>,
}

impl View for WorkspaceRegistry {
    type V = RegistryView;

    closed spec fn view(&self) -> RegistryView {
        RegistryView {
            paths: self.paths@,
            states: self.states@,
            raw_addresses: self.raw_addresses@,
        }
    }
}

/// The state of a workspace that is served for the first time since the daemon
/// started.
pub open spec fn seeded(runs: Map<Seq<char>, RunStateView>) -> WorkspaceStateView {
    WorkspaceStateView { path: Seq::empty(), owner: None, runs }
}

impl RegistryView {
    /// With a workspace served, with the runs that it was found with.
    pub open spec fn serving(
        self,
        id: Seq<char>,
        path: Seq<char>,
        runs: Map<Seq<char>, RunStateView>,
    ) -> RegistryView {
        RegistryView {
            paths: self.paths.insert(id, path),
            states: self.states.insert(id, seeded(runs)),
            raw_addresses: self.raw_addresses,
        }
    }

    /// The runs of a workspace.
    pub open spec fn runs_of(self, id: Seq<char>) -> Map<Seq<char>, RunStateView> {
        if self.states.contains_key(id) {
            self.states[id].runs
        } else {
            Map::empty()
        }
    }

    /// With a workspace no longer served.
    pub open spec fn without(self, id: Seq<char>) -> RegistryView {
        RegistryView {
            paths: self.paths.remove(id),
            states: self.states.remove(id),
            raw_addresses: self.raw_addresses,
        }
    }

    /// With an action applied to a workspace.
    pub open spec fn dispatched(self, id: Seq<char>, action: Action) -> Result<
        RegistryView,
        ActionRejected,
    > {
        if self.states.contains_key(id) {
            match reduced(self.states[id], action) {
                Ok(next) => Ok(RegistryView { states: self.states.insert(id, next), ..self }),
                Err(e) => Err(e),
            }
        } else {
            Err(ActionRejected::RunNotFound)
        }
    }
}

impl WorkspaceRegistry {
    /// A registry that serves no workspace.
    pub fn new() -> (r: Self)
        ensures
            r@ == (RegistryView {
                paths: Map::empty(),
                states: Map::empty(),
                raw_addresses: Map::empty(),
            }),
    {
        WorkspaceRegistry {
            paths: StrMap::new(),
            states: StrMap::new(),
            raw_addresses: StrMap::new(),
        }
    }

    /// Whether a workspace may be served, and under which id. It may not lie
    /// inside another, and its directory may not have the label of another's.
    pub fn resolve(&self, path: &str) -> (r: Result<Admission, WireError>)
        ensures
            match r {
                Ok(a) => admission(self@.paths, path@) == Ok::<Seq<char>, WireErrorView>(a.id@)
                    && a.known == self@.paths.contains_key(a.id@),
                Err(e) => admission(self@.paths, path@) == Err::<Seq<char>, WireErrorView>(e@),
            },
    {
        let ghost ks = self.paths.keys();
        let n: usize = self.paths.len();
        let mut i: usize = 0;
        while i < n
            invariant
                n == self.paths@.dom().len(),
                n == ks.len(),
                ks == self.paths.keys(),
                i <= n,
                first_conflict(self.paths@, ks.take(i as int), path@) is None,
            decreases n - i,
        {
            proof {
                assert(ks.take(i + 1).drop_last() =~= ks.take(i as int));
                assert(ks.take(i + 1).last() == ks[i as int]);
            }
            match find_conflict(path, self.paths.value_at(i).as_str()) {
                Some(e) => {
                    proof {
                        lemma_first_conflict_is_kept(self.paths@, ks, path@, i + 1);
                        assert(ks.take(n as int) =~= ks);
                    }
                    return Err(e);
                },
                None => {},
            }
            i += 1;
        }
        proof {
            assert(ks.take(n as int) =~= ks);
        }
        let id = workspace_id(path);
        let known = self.paths.contains_key(id.as_str());
        Ok(Admission { id, known })
    }

    /// Serves a workspace, with the runs that it was found with.
    pub fn register(&mut self, id: &str, path: &str, runs: StrMap<RunState>)
        ensures
            final(self)@ == old(self)@.serving(id@, path@, runs@),
    {
        let state = WorkspaceState { path: String::new(), owner: None, runs };
        proof {
            assert(state.path@ =~= Seq::empty());
        }
        self.paths.insert(id.to_owned(), path.to_owned());
        self.states.insert(id.to_owned(), state);
    }

    /// Stops serving a workspace. Returns the runs that it had, which are to be
    /// torn down; none if it was not served.
    pub fn stop(&mut self, id: &str) -> (r: Option<StrMap<RunState>>)
        ensures
            match r {
                Some(runs) => {
                    &&& old(self)@.paths.contains_key(id@)
                    &&& runs@ == old(self)@.runs_of(id@)
                    &&& final(self)@ == old(self)@.without(id@)
                },
                None => !old(self)@.paths.contains_key(id@) && final(self)@ == old(self)@,
            },
    {
        if !self.paths.contains_key(id) {
            return None;
        }
        let _ = self.paths.remove(id);
        match self.states.remove(id) {
            Some(state) => Some(state.runs),
            None => Some(StrMap::new()),
        }
    }

    /// The path of a workspace.
    pub fn get(&self, id: &str) -> (r: Option<&String>)
        ensures
            match r {
                Some(p) => self@.paths.contains_key(id@) && p@ == self@.paths[id@],
                None => !self@.paths.contains_key(id@),
            },
    {
        self.paths.get(id)
    }

    /// The state of a workspace.
    pub fn state(&self, id: &str) -> (r: Option<&WorkspaceState>)
        ensures
            match r {
                Some(s) => self@.states.contains_key(id@) && s@ == self@.states[id@],
                None => !self@.states.contains_key(id@),
            },
    {
        self.states.get(id)
    }

    /// The states of all workspaces.
    pub fn states(&self) -> (r: &StrMap<WorkspaceState>)
        ensures
            r@ == self@.states,
    {
        &self.states
    }

    /// The paths of all workspaces, by id.
    pub fn list(&self) -> (r: &StrMap<String>)
        ensures
            r@ == self@.paths,
    {
        &self.paths
    }

    /// The addresses that were given out to raw names.
    pub fn raw_addresses(&self) -> (r: &StrMap<u32>)
        ensures
            r@ == self@.raw_addresses,
    {
        &self.raw_addresses
    }

    /// Replaces the addresses that were given out to raw names.
    pub fn set_raw_addresses(&mut self, raw_addresses: StrMap<u32>)
        ensures
            final(self)@ == (RegistryView { raw_addresses: raw_addresses@, ..old(self)@ }),
    {
        self.raw_addresses = raw_addresses;
    }

    /// Applies an action to a workspace. One to a workspace that is not served is
    /// refused like one to a run that there is not.
    pub fn dispatch(&mut self, id: &str, action: Action) -> (r: Result<(), ActionRejected>)
        ensures
            match old(self)@.dispatched(id@, action) {
                Ok(next) => r is Ok && final(self)@ == next,
                Err(e) => r == Err::<(), ActionRejected>(e) && final(self)@ == old(self)@,
            },
    {
        let next = match self.states.get(id) {
            Some(state) => match reduce(state, action) {
                Ok(next) => next,
                Err(e) => {
                    return Err(e);
                },
            },
            None => {
                return Err(ActionRejected::RunNotFound);
            },
        };
        self.states.insert(id.to_owned(), next);
        Ok(())
    }
}

impl RouteResolver for WorkspaceRegistry {
    open spec fn routed(&self, host: Seq<char>) -> Option<BackendView> {
        match route_of(self@.states, host) {
            Some(port) => Some(local_backend(port)),
            None => None,
        }
    }

    fn resolve(&self, host: &str) -> (r: Option<Backend>) {
        match resolve_route(&self.states, host) {
            Some(port) => Some(local(port)),
            None => None,
        }
    }
}

/// Whether a name lies in one of some zones.
pub open spec fn in_any_zone(qname: Seq<char>, zones: Seq<Seq<char>>) -> bool {
    exists|i: int| 0 <= i < zones.len() && under_wildcard(qname, #[trigger] zones[i])
}

/// The address that is answered for a name: an address of its own for a raw name,
/// the local host for a name of the zone and for one under a wildcard of a running
/// container.
pub open spec fn host_answer(
    states: Map<Seq<char>, WorkspaceStateView>,
    raw_addresses: Map<Seq<char>, u32>,
    qname: Seq<char>,
) -> Option<u32> {
    if under_wildcard(qname, ZONE_RAW@) {
        Some(address_of(raw_addresses, qname))
    } else if zone_name(qname) || in_any_zone(qname, wildcard_suffixes_of(states)) {
        Some(ANSWER)
    } else {
        None
    }
}

fn matches_any_zone(qname: &str, zones: &Vec<String>) -> (r: bool)
    ensures
        r == in_any_zone(qname@, zones.deep_view()),
{
    let ghost zs = zones.deep_view();
    let mut i: usize = 0;
    while i < zones.len()
        invariant
            i <= zones@.len(),
            zs == zones.deep_view(),
            forall|j: int| 0 <= j < i ==> !under_wildcard(qname@, #[trigger] zs[j]),
        decreases zones@.len() - i,
    {
        if matches_zone(qname, zones[i].as_str()) {
            proof {
                assert(under_wildcard(qname@, zs[i as int]));
            }
            return true;
        }
        proof {
            assert(zs[i as int] == zones@[i as int]@);
        }
        i += 1;
    }
    false
}

impl ZoneSource for WorkspaceRegistry {
    open spec fn answers(&self, qname: Seq<char>) -> Option<u32> {
        host_answer(self@.states, self@.raw_addresses, qname)
    }

    fn answer_for(&self, qname: &str) -> (r: Option<u32>) {
        if matches_zone(qname, ZONE_RAW) {
            Some(resolve(&self.raw_addresses, qname))
        } else if in_zone(qname) || matches_any_zone(qname, &wildcard_suffixes(&self.states)) {
            Some(ANSWER)
        } else {
            None
        }
    }
}

proof fn lemma_first_conflict_is_kept(
    paths: Map<Seq<char>, Seq<char>>,
    ids: Seq<Seq<char>>,
    path: Seq<char>,
    n: int,
)
    requires
        0 <= n <= ids.len(),
        first_conflict(paths, ids.take(n), path) is Some,
    ensures
        first_conflict(paths, ids, path) == first_conflict(paths, ids.take(n), path),
    decreases ids.len(),
{
    if n < ids.len() {
        assert(ids.drop_last().take(n) =~= ids.take(n));
        lemma_first_conflict_is_kept(paths, ids.drop_last(), path, n);
    } else {
        assert(ids.take(n) =~= ids);
    }
}

proof fn lemma_no_conflict(
    paths: Map<Seq<char>, Seq<char>>,
    ids: Seq<Seq<char>>,
    path: Seq<char>,
    id: Seq<char>,
)
    requires
        first_conflict(paths, ids, path) is None,
        ids.contains(id),
    ensures
        conflict(path, paths[id]) is None,
    decreases ids.len(),
{
    let i = choose|i: int| 0 <= i < ids.len() && ids[i] == id;
    if i < ids.len() - 1 {
        assert(ids.drop_last()[i] == id);
        lemma_no_conflict(paths, ids.drop_last(), path, id);
    }
}

/// Whether no two workspaces stand for one part of a domain.
pub open spec fn labels_differ(paths: Map<Seq<char>, Seq<char>>) -> bool {
    forall|a: Seq<char>, b: Seq<char>|
        #![trigger paths[a], paths[b]]
        paths.contains_key(a) && paths.contains_key(b) && !same_path_of(paths[a], paths[b])
            ==> domain_label_of(paths[a]) != domain_label_of(paths[b])
}

/// Admitting a workspace keeps the names of different workspaces apart.
pub proof fn law_admitted_workspaces_keep_their_names_apart(
    paths: Map<Seq<char>, Seq<char>>,
    path: Seq<char>,
)
    requires
        paths.dom().finite(),
        labels_differ(paths),
        admission(paths, path) is Ok,
    ensures
        labels_differ(paths.insert(id_of(path), path)),
{
    let after = paths.insert(id_of(path), path);
    lemma_ascending_of_set(paths.dom());
    let ids = ascending(paths.dom());
    assert forall|a: Seq<char>, b: Seq<char>|
        #![trigger after[a], after[b]]
        after.contains_key(a) && after.contains_key(b) && !same_path_of(
            after[a],
            after[b],
        ) implies domain_label_of(after[a]) != domain_label_of(after[b]) by {
        if a != id_of(path) && b == id_of(path) {
            assert(ids.to_set().contains(a));
            lemma_no_conflict(paths, ids, path, a);
        } else if b != id_of(path) && a == id_of(path) {
            assert(ids.to_set().contains(b));
            lemma_no_conflict(paths, ids, path, b);
        } else if a != id_of(path) && b != id_of(path) {
            assert(after[a] == paths[a] && after[b] == paths[b]);
        }
    }
}

/// An admitted workspace lies inside no other that is served.
pub proof fn law_admitted_workspace_is_not_nested(
    paths: Map<Seq<char>, Seq<char>>,
    path: Seq<char>,
    id: Seq<char>,
)
    requires
        paths.dom().finite(),
        admission(paths, path) is Ok,
        paths.contains_key(id),
    ensures
        path_within(path, paths[id]) ==> same_path_of(path, paths[id]),
{
    lemma_ascending_of_set(paths.dom());
    let ids = ascending(paths.dom());
    assert(ids.to_set().contains(id));
    lemma_no_conflict(paths, ids, path, id);
}

proof fn lemma_conflict_is_found(
    paths: Map<Seq<char>, Seq<char>>,
    ids: Seq<Seq<char>>,
    path: Seq<char>,
)
    ensures
        first_conflict(paths, ids, path) is Some <==> exists|i: int|
            0 <= i < ids.len() && conflict(path, paths[#[trigger] ids[i]]) is Some,
    decreases ids.len(),
{
    if ids.len() > 0 {
        let front = ids.drop_last();
        lemma_conflict_is_found(paths, front, path);
        if first_conflict(paths, ids, path) is Some {
            if first_conflict(paths, front, path) is Some {
                let i = choose|i: int|
                    0 <= i < front.len() && conflict(path, paths[#[trigger] front[i]]) is Some;
                assert(ids[i] == front[i]);
            } else {
                assert(conflict(path, paths[ids[ids.len() - 1]]) is Some);
            }
        }
        if first_conflict(paths, ids, path) is None {
            assert forall|i: int| 0 <= i < ids.len() implies conflict(
                path,
                paths[#[trigger] ids[i]],
            ) is None by {
                if i < front.len() {
                    assert(front[i] == ids[i]);
                }
            }
        }
    }
}

/// The paths of the workspaces that are served, by id, once a path was wired: one
/// that is admitted under a new id is added, anything else changes nothing.
pub open spec fn wired(paths: Map<Seq<char>, Seq<char>>, path: Seq<char>) -> Map<
    Seq<char>,
    Seq<char>,
> {
    match admission(paths, path) {
        Ok(id) if !paths.contains_key(id) => paths.insert(id, path),
        _ => paths,
    }
}

/// A workspace that was wired and is wired again has the same id, and nothing is
/// added.
pub proof fn law_wiring_again_changes_nothing(paths: Map<Seq<char>, Seq<char>>, path: Seq<char>)
    requires
        paths.dom().finite(),
        admission(paths, path) is Ok,
    ensures
        wired(paths, path).contains_key(id_of(path)),
        admission(wired(paths, path), path) == Ok::<Seq<char>, WireErrorView>(id_of(path)),
        wired(wired(paths, path), path) == wired(paths, path),
{
    let after = wired(paths, path);
    if after != paths {
        let ids = ascending(after.dom());
        lemma_ascending_of_set(paths.dom());
        lemma_ascending_of_set(after.dom());
        lemma_conflict_is_found(after, ids, path);
        assert forall|i: int| 0 <= i < ids.len() implies conflict(
            path,
            after[#[trigger] ids[i]],
        ) is None by {
            assert(ids.to_set().contains(ids[i]));
            if ids[i] != id_of(path) {
                assert(ascending(paths.dom()).to_set().contains(ids[i]));
                lemma_no_conflict(paths, ascending(paths.dom()), path, ids[i]);
            }
        }
    }
}

/// A path strictly inside a workspace that was wired is refused, and wiring it
/// adds nothing.
pub proof fn law_path_inside_wired_workspace_is_refused(
    paths: Map<Seq<char>, Seq<char>>,
    path: Seq<char>,
    inner: Seq<char>,
)
    requires
        paths.dom().finite(),
        admission(paths, path) is Ok,
        path_within(inner, wired(paths, path)[id_of(path)]),
        !same_path_of(inner, wired(paths, path)[id_of(path)]),
    ensures
        admission(wired(paths, path), inner) is Err,
        wired(wired(paths, path), inner) == wired(paths, path),
{
    let after = wired(paths, path);
    let ids = ascending(after.dom());
    lemma_ascending_of_set(after.dom());
    lemma_conflict_is_found(after, ids, inner);
    assert(ids.to_set().contains(id_of(path)));
    let i = choose|i: int| 0 <= i < ids.len() && ids[i] == id_of(path);
    assert(conflict(inner, after[ids[i]]) is Some);
}

proof fn lemma_first_route_matches(routes: Seq<PortRouteView>, host: Seq<char>)
    requires
        first_route(routes, host, true) is Some,
    ensures
        exists|i: int|
            0 <= i < routes.len() && (#[trigger] routes[i]).wildcard && under_wildcard(
                host,
                routes[i].domain,
            ),
    decreases routes.len(),
{
    if first_route(routes.drop_last(), host, true) is Some {
        lemma_first_route_matches(routes.drop_last(), host);
        let i = choose|i: int|
            0 <= i < routes.len() - 1 && (#[trigger] routes.drop_last()[i]).wildcard
                && under_wildcard(host, routes.drop_last()[i].domain);
        assert(routes[i] == routes.drop_last()[i]);
    } else {
        assert(routes[routes.len() - 1] == routes.last());
    }
}

/// A name that is routed by a wildcard is answered with the local host, where the
/// proxy takes it up. A raw name leads past the proxy.
pub proof fn law_names_routed_by_wildcard_are_answered(
    states: Map<Seq<char>, WorkspaceStateView>,
    raw_addresses: Map<Seq<char>, u32>,
    host: Seq<char>,
)
    requires
        first_route(
            running_containers(states).flat_map(|c: ContainerInfoView| c.desired.routes),
            host,
            true,
        ) is Some,
        !under_wildcard(host, ZONE_RAW@),
    ensures
        host_answer(states, raw_addresses, host) == Some(ANSWER),
{
    let running = running_containers(states);
    let f = |c: ContainerInfoView| c.desired.routes;
    let g = |c: ContainerInfoView| wildcard_domains(c);
    let routes = running.flat_map(f);
    lemma_first_route_matches(routes, host);
    let k = choose|k: int|
        0 <= k < routes.len() && (#[trigger] routes[k]).wildcard && under_wildcard(
            host,
            routes[k].domain,
        );
    let route = routes[k];
    assert(routes.contains(route));
    lemma_flat_map_holds(running, f, route);
    let i = choose|i: int| 0 <= i < running.len() && #[trigger] f(running[i]).contains(route);
    let w = |r: PortRouteView| r.wildcard;
    let c = running[i];
    lemma_filter_holds(c.desired.routes, w, route);
    let wild = c.desired.routes.filter(w);
    let j = choose|j: int| 0 <= j < wild.len() && wild[j] == route;
    assert(wildcard_domains(c)[j] == route.domain);
    assert(g(running[i]).contains(route.domain));
    lemma_flat_map_holds(running, g, route.domain);
    let all = running.flat_map(g);
    vstd::seq_lib::seq_to_set_is_finite(all);
    lemma_ascending_of_set(all.to_set());
    let zones = wildcard_suffixes_of(states);
    assert(all.to_set().contains(route.domain));
    assert(zones.to_set().contains(route.domain));
    let z = choose|z: int| 0 <= z < zones.len() && zones[z] == route.domain;
    assert(under_wildcard(host, zones[z]));
}

/// A workspace is refused because of another that it lies inside, or whose label it
/// would share; the refusal names both. Its own path refuses no workspace.
pub proof fn law_refusal_names_what_is_in_the_way(path: Seq<char>, other: Seq<char>)
    ensures
        conflict(path, other) matches Some(WireErrorView::Nested { path: p, inside }) ==> p == path
            && inside == other && path_within(path, other) && !same_path_of(path, other),
        conflict(path, other) matches Some(WireErrorView::SameLabel { path: p, other: o, label })
            ==> p == path && o == other && label == domain_label_of(path) && label
            == domain_label_of(other) && !same_path_of(path, other),
        conflict(path, other) is None <==> same_path_of(path, other) || (!path_within(path, other)
            && domain_label_of(path) != domain_label_of(other)),
        conflict(path, path) is None,
{
}

/// A workspace that is admitted goes by the id of its path; one that is refused
/// conflicts with one that is served.
pub proof fn law_admission_gives_the_id_or_the_conflict(
    paths: Map<Seq<char>, Seq<char>>,
    path: Seq<char>,
)
    requires
        paths.dom().finite(),
    ensures
        match admission(paths, path) {
            Ok(id) => id == id_of(path) && forall|other: Seq<char>| #[trigger]
                paths.contains_key(other) ==> conflict(path, paths[other]) is None,
            Err(e) => exists|other: Seq<char>| #[trigger]
                paths.contains_key(other) && conflict(path, paths[other]) == Some(e),
        },
{
    let ids = ascending(paths.dom());
    lemma_ascending_of_set(paths.dom());
    match admission(paths, path) {
        Ok(id) => {
            assert forall|other: Seq<char>| #[trigger] paths.contains_key(other) implies conflict(
                path,
                paths[other],
            ) is None by {
                assert(ids.to_set().contains(other));
                lemma_no_conflict(paths, ids, path, other);
            }
        },
        Err(e) => {
            lemma_conflict_is_one_of_them(paths, ids, path);
            let i = choose|i: int|
                0 <= i < ids.len() && conflict(path, paths[#[trigger] ids[i]]) == Some(e);
            assert(ids.to_set().contains(ids[i]));
            assert(paths.contains_key(ids[i]));
        },
    }
}

proof fn lemma_conflict_is_one_of_them(
    paths: Map<Seq<char>, Seq<char>>,
    ids: Seq<Seq<char>>,
    path: Seq<char>,
)
    ensures
        first_conflict(paths, ids, path) matches Some(e) ==> exists|i: int|
            0 <= i < ids.len() && conflict(path, paths[#[trigger] ids[i]]) == Some(e),
    decreases ids.len(),
{
    if ids.len() > 0 {
        let front = ids.drop_last();
        lemma_conflict_is_one_of_them(paths, front, path);
        if first_conflict(paths, front, path) is Some {
            let e = first_conflict(paths, front, path)->Some_0;
            let i = choose|i: int|
                0 <= i < front.len() && conflict(path, paths[#[trigger] front[i]]) == Some(e);
            assert(ids[i] == front[i]);
        } else {
            assert(ids[ids.len() - 1] == ids.last());
        }
    }
}

/// What a person is told of a refusal.
pub proof fn law_refusal_says_what_to_do(
    path: Seq<char>,
    other: Seq<char>,
    label: Seq<char>,
)
    ensures
        (WireErrorView::Nested { path, inside: other }).message() == path
            + " is inside the already-wired workspace "@ + other,
        (WireErrorView::SameLabel { path, other, label }).message() == path
            + " and the already-wired workspace "@ + other + " both derive the domain segment '"@
            + label
            + "', so their services would claim identical *.fghj.internal names. Rename one folder."@,
{
}

/// A workspace that is served anew has the runs that were stored of it, and no
/// owner yet.
pub proof fn law_workspace_starts_with_its_stored_runs(runs: Map<Seq<char>, RunStateView>)
    ensures
        seeded(runs).runs == runs,
        seeded(runs).owner is None,
        seeded(runs).path.len() == 0,
{
}

/// A name is served from the port of the local host that its route leads to.
pub proof fn law_routed_names_are_served_locally(registry: WorkspaceRegistry, host: Seq<char>)
    ensures
        registry.routed(host) is Some <==> route_of(registry@.states, host) is Some,
        registry.routed(host) matches Some(b) ==> b.host == "127.0.0.1"@ && route_of(
            registry@.states,
            host,
        ) == Some(b.port),
{
}

/// A raw name is answered with its own address; a name of the zone, or under a
/// wildcard of a running container, with that of the local host; any other name is
/// not answered.
pub proof fn law_each_name_is_answered_by_its_zone(
    states: Map<Seq<char>, WorkspaceStateView>,
    raw_addresses: Map<Seq<char>, u32>,
    qname: Seq<char>,
)
    ensures
        ({
            let answer = host_answer(states, raw_addresses, qname);
            let zones = wildcard_suffixes_of(states);
            let wild = exists|i: int|
                0 <= i < zones.len() && at_or_below(qname, #[trigger] zones[i]);
            if at_or_below(qname, "fghj.raw.internal"@) {
                &&& answer is Some
                &&& raw_addresses.contains_key(qname) ==> answer == Some(raw_addresses[qname])
                &&& !raw_addresses.contains_key(qname) ==> answer == Some(virtual_ip(qname))
            } else if at_or_below(qname, "fghj.internal"@) || wild {
                answer == Some(address(127, 0, 0, 1))
            } else {
                answer is None
            }
        }),
{
    let zones = wildcard_suffixes_of(states);
    law_wildcard_takes_in_its_domain_and_all_below(qname, "fghj.raw.internal"@);
    law_wildcard_takes_in_its_domain_and_all_below(qname, "fghj.internal"@);
    assert forall|zone: Seq<char>| #[trigger] under_wildcard(qname, zone) <==> at_or_below(
        qname,
        zone,
    ) by {
        law_wildcard_takes_in_its_domain_and_all_below(qname, zone);
    }
    if exists|i: int| 0 <= i < zones.len() && at_or_below(qname, #[trigger] zones[i]) {
        let i = choose|i: int| 0 <= i < zones.len() && at_or_below(qname, #[trigger] zones[i]);
        assert(under_wildcard(qname, zones[i]));
    }
}

/// A workspace that is served is found under its id with its path and its runs; once
/// it is no longer served it is gone, and its runs are handed out. No other workspace
/// is touched by either.
pub proof fn law_serving_and_stopping_concern_one_workspace(
    r: RegistryView,
    id: Seq<char>,
    path: Seq<char>,
    runs: Map<Seq<char>, RunStateView>,
    other: Seq<char>,
)
    ensures
        ({
            let served = r.serving(id, path, runs);
            let gone = served.without(id);
            &&& served.paths.contains_key(id) && served.paths[id] == path
            &&& served.states.contains_key(id) && served.states[id].runs == runs
            &&& served.runs_of(id) == runs
            &&& served.raw_addresses == r.raw_addresses && gone.raw_addresses == r.raw_addresses
            &&& !gone.paths.contains_key(id) && !gone.states.contains_key(id)
            &&& other != id ==> {
                &&& served.paths.contains_key(other) <==> r.paths.contains_key(other)
                &&& gone.paths.contains_key(other) <==> r.paths.contains_key(other)
                &&& served.paths[other] == r.paths[other] && gone.paths[other] == r.paths[other]
                &&& served.states.contains_key(other) <==> r.states.contains_key(other)
                &&& gone.states.contains_key(other) <==> r.states.contains_key(other)
                &&& served.states[other] == r.states[other] && gone.states[other]
                    == r.states[other]
            }
        }),
{
}

/// An action changes the state of the workspace that it is for as the reducer says,
/// and nothing else; where it is refused, or the workspace is not served, nothing
/// changes.
pub proof fn law_actions_concern_one_workspace(
    r: RegistryView,
    id: Seq<char>,
    action: Action,
    other: Seq<char>,
)
    ensures
        !r.states.contains_key(id) ==> r.dispatched(id, action) == Err::<
            RegistryView,
            ActionRejected,
        >(ActionRejected::RunNotFound),
        r.states.contains_key(id) ==> (r.dispatched(id, action) is Ok <==> reduced(
            r.states[id],
            action,
        ) is Ok),
        r.states.contains_key(id) && reduced(r.states[id], action) is Err ==> r.dispatched(
            id,
            action,
        )->Err_0 == reduced(r.states[id], action)->Err_0,
        r.dispatched(id, action) matches Ok(next) ==> {
            &&& next.states.contains_key(id) && next.states[id] == reduced(
                r.states[id],
                action,
            )->Ok_0
            &&& next.paths == r.paths
            &&& next.raw_addresses == r.raw_addresses
            &&& other != id ==> (next.states.contains_key(other) <==> r.states.contains_key(other))
                && next.states[other] == r.states[other]
        },
{
}

} // verus!
