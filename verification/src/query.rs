//! What the running containers of all workspaces claim together.

use vstd::prelude::*;

use crate::raw_net::{RawEndpoint, RawEndpointView};
use crate::state::{
    ContainerInfo, ContainerInfoView, PortRouteView, RunStateView, WorkspaceState,
    WorkspaceStateView,
};
use crate::seqs::{lemma_filter_holds, lemma_flat_map_holds};
use crate::strmap::{
    ascending, lemma_ascending_len, lemma_ascending_of_set, lemma_take_next, sorted_unique,
    strictly_ascending, StrMap,
};
use crate::text::{
    before_suffix, chars_of, concat_text, finishes_with, lemma_text_lt_asymmetric, same_text,
    text_lt,
};

verus! {

/// The containers of a run in the order of their node ids.
pub open spec fn run_containers(run: RunStateView) -> Seq<ContainerInfoView> {
    ascending(run.containers.dom()).map_values(|k: Seq<char>| run.containers[k])
}

/// The containers of a workspace, run by run.
pub open spec fn workspace_containers(ws: WorkspaceStateView) -> Seq<ContainerInfoView> {
    ascending(ws.runs.dom()).flat_map(|k: Seq<char>| run_containers(ws.runs[k]))
}

/// The containers of all workspaces, workspace by workspace.
pub open spec fn all_containers(states: Map<Seq<char>, WorkspaceStateView>) -> Seq<
    ContainerInfoView,
> {
    ascending(states.dom()).flat_map(|k: Seq<char>| workspace_containers(states[k]))
}

/// Whether a container was last seen running.
pub open spec fn is_running(c: ContainerInfoView) -> bool {
    c.observed.status == "running"@
}

/// The running containers of all workspaces.
pub open spec fn running_containers(states: Map<Seq<char>, WorkspaceStateView>) -> Seq<
    ContainerInfoView,
> {
    all_containers(states).filter(|c: ContainerInfoView| is_running(c))
}

/// Appends the containers of a run.
fn push_run<'a>(out: &mut Vec<&'a ContainerInfo>, containers: &'a StrMap<ContainerInfo>)
    ensures
        final(out).deep_view() == old(out).deep_view() + ascending(
            containers@.dom(),
        ).map_values(|k: Seq<char>| containers@[k]),
{
    let ghost start = out.deep_view();
    let ghost ks = containers.keys();
    let ghost f = |k: Seq<char>| containers@[k];
    let n: usize = containers.len();
    let mut i: usize = 0;
    proof {
        assert(start + ks.take(0).map_values(f) =~= start);
    }
    while i < n
        invariant
            n == containers@.dom().len(),
            n == ks.len(),
            ks == containers.keys(),
            f == (|k: Seq<char>| containers@[k]),
            i <= n,
            out.deep_view() == start + ks.take(i as int).map_values(f),
        decreases n - i,
    {
        let ghost before = out.deep_view();
        let c = containers.value_at(i);
        out.push(c);
        proof {
            lemma_take_next(ks, i as int);
            assert(out.deep_view() =~= before.push(c@));
            assert(start + ks.take(i + 1).map_values(f) =~= (start + ks.take(i as int).map_values(
                f,
            )).push(f(ks[i as int])));
        }
        i += 1;
    }
    proof {
        assert(ks.take(n as int) =~= ks);
    }
}

/// The running containers of all workspaces.
pub fn collect_running<'a>(states: &'a StrMap<WorkspaceState>) -> (r: Vec<&'a ContainerInfo>)
    ensures
        r.deep_view() == running_containers(states@),
{
    let all = collect_containers(states);
    let ghost av = all.deep_view();
    let ghost p = |c: ContainerInfoView| is_running(c);
    let mut r: Vec<&'a ContainerInfo> = Vec::new();
    let mut i: usize = 0;
    proof {
        assert(av.take(0).filter(p) =~= Seq::empty());
        assert(r.deep_view() =~= Seq::empty());
    }
    while i < all.len()
        invariant
            i <= all@.len(),
            av == all.deep_view(),
            p == (|c: ContainerInfoView| is_running(c)),
            r.deep_view() == av.take(i as int).filter(p),
        decreases all@.len() - i,
    {
        let c = all[i];
        proof {
            assert(av[i as int] == c@);
            lemma_take_next(av, i as int);
            av.take(i as int).lemma_filter_push(av[i as int], p);
        }
        if same_text(c.observed.status.as_str(), "running") {
            let ghost before = r.deep_view();
            r.push(c);
            proof {
                assert(r.deep_view() =~= before.push(c@));
            }
        }
        i += 1;
    }
    proof {
        assert(av.take(av.len() as int) =~= av);
    }
    r
}

/// The containers of all workspaces, workspace by workspace.
fn collect_containers<'a>(states: &'a StrMap<WorkspaceState>) -> (r: Vec<&'a ContainerInfo>)
    ensures
        r.deep_view() == all_containers(states@),
{
    let mut out: Vec<&'a ContainerInfo> = Vec::new();
    let ghost ks = states.keys();
    let ghost f = |k: Seq<char>| workspace_containers(states@[k]);
    let n: usize = states.len();
    let mut i: usize = 0;
    proof {
        assert(out.deep_view() =~= ks.take(0).flat_map(f));
    }
    while i < n
        invariant
            n == states@.dom().len(),
            n == ks.len(),
            ks == states.keys(),
            f == (|k: Seq<char>| workspace_containers(states@[k])),
            i <= n,
            out.deep_view() == ks.take(i as int).flat_map(f),
        decreases n - i,
    {
        let ghost before = out.deep_view();
        let ws = states.value_at(i);
        let ghost rs = ws.runs.keys();
        let ghost g = |k: Seq<char>| run_containers(ws@.runs[k]);
        let m: usize = ws.runs.len();
        let mut j: usize = 0;
        proof {
            assert(before + rs.take(0).flat_map(g) =~= before);
        }
        while j < m
            invariant
                m == ws.runs@.dom().len(),
                m == rs.len(),
                rs == ws.runs.keys(),
                g == (|k: Seq<char>| run_containers(ws@.runs[k])),
                j <= m,
                out.deep_view() == before + rs.take(j as int).flat_map(g),
            decreases m - j,
        {
            let run = ws.runs.value_at(j);
            let ghost so_far = out.deep_view();
            push_run(&mut out, &run.containers);
            proof {
                rs.lemma_flat_map_take_append(g, j as int);
                assert(out.deep_view() =~= before + rs.take(j + 1).flat_map(g));
            }
            j += 1;
        }
        proof {
            assert(rs.take(m as int) =~= rs);
            ks.lemma_flat_map_take_append(f, i as int);
            assert(out.deep_view() =~= ks.take(i + 1).flat_map(f));
        }
        i += 1;
    }
    proof {
        assert(ks.take(n as int) =~= ks);
    }
    out
}

/// The wildcard domains that a container routes.
pub open spec fn wildcard_domains(c: ContainerInfoView) -> Seq<Seq<char>> {
    c.desired.routes.filter(|r: PortRouteView| r.wildcard).map_values(
        |r: PortRouteView| r.domain,
    )
}

/// Every wildcard domain that a running container routes, in ascending order.
pub open spec fn wildcard_suffixes_of(states: Map<Seq<char>, WorkspaceStateView>) -> Seq<Seq<char>> {
    ascending(
        running_containers(states).flat_map(|c: ContainerInfoView| wildcard_domains(c)).to_set(),
    )
}

/// Every wildcard domain that a running container routes, in ascending order.
pub fn wildcard_suffixes(states: &StrMap<WorkspaceState>) -> (r: Vec<String>)
    ensures
        r.deep_view() == wildcard_suffixes_of(states@),
{
    let running = collect_running(states);
    let ghost cs = running.deep_view();
    let ghost f = |c: ContainerInfoView| wildcard_domains(c);
    let ghost w = |r: PortRouteView| r.wildcard;
    let ghost d = |r: PortRouteView| r.domain;
    let mut out: Vec<String> = Vec::new();
    let mut i: usize = 0;
    proof {
        assert(out.deep_view() =~= cs.take(0).flat_map(f));
    }
    while i < running.len()
        invariant
            i <= running@.len(),
            cs == running.deep_view(),
            f == (|c: ContainerInfoView| wildcard_domains(c)),
            w == (|r: PortRouteView| r.wildcard),
            d == (|r: PortRouteView| r.domain),
            out.deep_view() == cs.take(i as int).flat_map(f),
        decreases running@.len() - i,
    {
        let c = running[i];
        let ghost before = out.deep_view();
        let ghost rs = c@.desired.routes;
        let mut j: usize = 0;
        proof {
            assert(before + rs.take(0).filter(w).map_values(d) =~= before);
        }
        while j < c.desired.routes.len()
            invariant
                j <= c.desired.routes@.len(),
                rs == c.desired.routes.deep_view(),
                w == (|r: PortRouteView| r.wildcard),
                d == (|r: PortRouteView| r.domain),
                out.deep_view() == before + rs.take(j as int).filter(w).map_values(d),
            decreases c.desired.routes@.len() - j,
        {
            let route = &c.desired.routes[j];
            let ghost so_far = out.deep_view();
            let ghost kept = rs.take(j as int).filter(w);
            proof {
                assert(rs[j as int] == route@);
                lemma_take_next(rs, j as int);
                rs.take(j as int).lemma_filter_push(rs[j as int], w);
            }
            if route.wildcard {
                out.push(route.domain.clone());
                proof {
                    assert(out.deep_view() =~= so_far.push(route@.domain));
                    assert(kept.push(route@).map_values(d) =~= kept.map_values(d).push(d(route@)));
                    assert(out.deep_view() =~= before + rs.take(j + 1).filter(w).map_values(d));
                }
            }
            j += 1;
        }
        proof {
            assert(rs.take(rs.len() as int) =~= rs);
            assert(cs[i as int] == c@);
            cs.lemma_flat_map_take_append(f, i as int);
            assert(out.deep_view() =~= cs.take(i + 1).flat_map(f));
        }
        i += 1;
    }
    proof {
        assert(cs.take(cs.len() as int) =~= cs);
    }
    sorted_unique(&out)
}

/// Every additional host of a running container, in ascending order.
pub open spec fn additional_hosts_of(states: Map<Seq<char>, WorkspaceStateView>) -> Seq<Seq<char>> {
    ascending(
        running_containers(states).flat_map(
            |c: ContainerInfoView| c.desired.additional_hosts,
        ).to_set(),
    )
}

/// Every additional host of a running container, in ascending order.
pub fn additional_hosts(states: &StrMap<WorkspaceState>) -> (r: Vec<String>)
    ensures
        r.deep_view() == additional_hosts_of(states@),
{
    let running = collect_running(states);
    let ghost cs = running.deep_view();
    let ghost f = |c: ContainerInfoView| c.desired.additional_hosts;
    let mut out: Vec<String> = Vec::new();
    let mut i: usize = 0;
    proof {
        assert(out.deep_view() =~= cs.take(0).flat_map(f));
    }
    while i < running.len()
        invariant
            i <= running@.len(),
            cs == running.deep_view(),
            f == (|c: ContainerInfoView| c.desired.additional_hosts),
            out.deep_view() == cs.take(i as int).flat_map(f),
        decreases running@.len() - i,
    {
        let c = running[i];
        let ghost before = out.deep_view();
        let ghost hs = c@.desired.additional_hosts;
        let mut j: usize = 0;
        proof {
            assert(before + hs.take(0) =~= before);
        }
        while j < c.desired.additional_hosts.len()
            invariant
                j <= c.desired.additional_hosts@.len(),
                hs == c.desired.additional_hosts.deep_view(),
                out.deep_view() == before + hs.take(j as int),
            decreases c.desired.additional_hosts@.len() - j,
        {
            let ghost so_far = out.deep_view();
            out.push(c.desired.additional_hosts[j].clone());
            proof {
                lemma_take_next(hs, j as int);
                assert(out.deep_view() =~= so_far.push(hs[j as int]));
                assert(out.deep_view() =~= before + hs.take(j + 1));
            }
            j += 1;
        }
        proof {
            assert(hs.take(hs.len() as int) =~= hs);
            assert(cs[i as int] == c@);
            cs.lemma_flat_map_take_append(f, i as int);
            assert(out.deep_view() =~= cs.take(i + 1).flat_map(f));
        }
        i += 1;
    }
    proof {
        assert(cs.take(cs.len() as int) =~= cs);
    }
    sorted_unique(&out)
}

/// The ports that are published, with their host ports.
pub open spec fn published_ports(ports: Map<Seq<char>, Option<u16>>) -> Map<Seq<char>, u16> {
    Map::new(
        |k: Seq<char>| ports.dom().contains(k) && ports[k] is Some,
        |k: Seq<char>| ports[k]->Some_0,
    )
}

/// What a container offers in the raw zone.
pub open spec fn raw_endpoint_of(c: ContainerInfoView) -> RawEndpointView {
    RawEndpointView {
        raw_domain: c.desired.raw_domain,
        ports: published_ports(c.observed.ports),
    }
}

/// What the running containers offer in the raw zone.
pub open spec fn raw_endpoints_of(states: Map<Seq<char>, WorkspaceStateView>) -> Seq<
    RawEndpointView,
> {
    running_containers(states).map_values(|c: ContainerInfoView| raw_endpoint_of(c))
}

fn collect_published(ports: &StrMap<Option<u16>>) -> (r: StrMap<u16>)
    ensures
        r@ == published_ports(ports@),
{
    let mut r: StrMap<u16> = StrMap::new();
    let ghost ks = ports.keys();
    let n: usize = ports.len();
    let mut i: usize = 0;
    while i < n
        invariant
            n == ports@.dom().len(),
            n == ks.len(),
            ks == ports.keys(),
            i <= n,
            forall|k: Seq<char>|
                #![trigger r@.dom().contains(k)]
                r@.dom().contains(k) <==> ks.take(i as int).contains(k) && ports@[k] is Some,
            forall|k: Seq<char>|
                #![trigger r@[k]]
                r@.dom().contains(k) ==> r@[k] == ports@[k]->Some_0,
        decreases n - i,
    {
        let key = ports.key_at(i);
        proof {
            lemma_take_next(ks, i as int);
        }
        match ports.value_at(i) {
            Some(p) => {
                r.insert(key.clone(), *p);
            },
            None => {},
        }
        i += 1;
    }
    proof {
        assert(ks.take(n as int) =~= ks);
        let expected = published_ports(ports@);
        assert forall|k: Seq<char>| r@.dom().contains(k) <==> expected.dom().contains(k) by {
            assert(ks.to_set().contains(k) <==> ks.contains(k));
        }
        assert(r@ =~= expected);
    }
    r
}

/// What the running containers offer in the raw zone.
pub fn raw_endpoints(states: &StrMap<WorkspaceState>) -> (r: Vec<RawEndpoint>)
    ensures
        r.deep_view() == raw_endpoints_of(states@),
{
    let running = collect_running(states);
    let ghost cs = running.deep_view();
    let ghost f = |c: ContainerInfoView| raw_endpoint_of(c);
    let mut out: Vec<RawEndpoint> = Vec::new();
    let mut i: usize = 0;
    proof {
        assert(out.deep_view() =~= cs.take(0).map_values(f));
    }
    while i < running.len()
        invariant
            i <= running@.len(),
            cs == running.deep_view(),
            f == (|c: ContainerInfoView| raw_endpoint_of(c)),
            out.deep_view() == cs.take(i as int).map_values(f),
        decreases running@.len() - i,
    {
        let c = running[i];
        let ghost before = out.deep_view();
        let e = RawEndpoint {
            raw_domain: c.desired.raw_domain.clone(),
            ports: collect_published(&c.observed.ports),
        };
        out.push(e);
        proof {
            assert(cs[i as int] == c@);
            assert(e@ == f(cs[i as int]));
            lemma_take_next(cs, i as int);
            assert(out.deep_view() =~= before.push(e@));
            assert(cs.take(i + 1).map_values(f) =~= cs.take(i as int).map_values(f).push(
                f(cs[i as int]),
            ));
        }
        i += 1;
    }
    proof {
        assert(cs.take(cs.len() as int) =~= cs);
    }
    out
}

/// Whether a name is a wildcard domain or lies under it.
pub open spec fn under_wildcard(host: Seq<char>, domain: Seq<char>) -> bool {
    host == domain || finishes_with(host, "."@ + domain)
}

/// Whether a route answers for a name: by itself, or as a wildcard.
pub open spec fn route_matches(r: PortRouteView, host: Seq<char>, wildcard: bool) -> bool {
    if wildcard {
        r.wildcard && under_wildcard(host, r.domain)
    } else {
        !r.wildcard && r.domain == host
    }
}

/// The host port of the first route that answers for a name.
pub open spec fn first_route(
    routes: Seq<PortRouteView>,
    host: Seq<char>,
    wildcard: bool,
) -> Option<u16>
    decreases routes.len(),
{
    if routes.len() == 0 {
        None
    } else {
        match first_route(routes.drop_last(), host, wildcard) {
            Some(p) => Some(p),
            None => if route_matches(routes.last(), host, wildcard) {
                Some(routes.last().host_port)
            } else {
                None
            },
        }
    }
}

/// The host port that a name is routed to: an exact route wins over every
/// wildcard one, and the first of several wins.
pub open spec fn route_of(
    states: Map<Seq<char>, WorkspaceStateView>,
    host: Seq<char>,
) -> Option<u16> {
    let routes = running_containers(states).flat_map(|c: ContainerInfoView| c.desired.routes);
    match first_route(routes, host, false) {
        Some(p) => Some(p),
        None => first_route(routes, host, true),
    }
}

/// Whether a name is a wildcard domain or lies under it.
pub fn is_under_wildcard(host: &str, domain: &str) -> (r: bool)
    ensures
        r == under_wildcard(host@, domain@),
{
    if same_text(host, domain) {
        return true;
    }
    let h = chars_of(host);
    let suffix = chars_of(concat_text(".", domain).as_str());
    match before_suffix(h.as_slice(), suffix.as_slice()) {
        Some(_) => true,
        None => false,
    }
}

proof fn lemma_first_route_append(
    a: Seq<PortRouteView>,
    b: Seq<PortRouteView>,
    host: Seq<char>,
    wildcard: bool,
)
    ensures
        first_route(a + b, host, wildcard) == (match first_route(a, host, wildcard) {
            Some(p) => Some(p),
            None => first_route(b, host, wildcard),
        }),
    decreases b.len(),
{
    if b.len() == 0 {
        assert(a + b =~= a);
    } else {
        assert((a + b).drop_last() =~= a + b.drop_last());
        assert((a + b).last() == b.last());
        lemma_first_route_append(a, b.drop_last(), host, wildcard);
    }
}

fn find_route(running: &Vec<&ContainerInfo>, host: &str, wildcard: bool) -> (r: Option<u16>)
    ensures
        r == first_route(
            running.deep_view().flat_map(|c: ContainerInfoView| c.desired.routes),
            host@,
            wildcard,
        ),
{
    let ghost cs = running.deep_view();
    let ghost f = |c: ContainerInfoView| c.desired.routes;
    let ghost all = cs.flat_map(f);
    let mut i: usize = 0;
    proof {
        assert(cs.take(0).flat_map(f) =~= Seq::empty());
    }
    while i < running.len()
        invariant
            i <= running@.len(),
            cs == running.deep_view(),
            f == (|c: ContainerInfoView| c.desired.routes),
            first_route(cs.take(i as int).flat_map(f), host@, wildcard) is None,
        decreases running@.len() - i,
    {
        let c = running[i];
        let ghost rs = c@.desired.routes;
        let mut j: usize = 0;
        proof {
            assert(cs[i as int] == c@);
            cs.lemma_flat_map_take_append(f, i as int);
            lemma_first_route_append(cs.take(i as int).flat_map(f), rs, host@, wildcard);
            assert(rs.take(0) =~= Seq::empty());
        }
        while j < c.desired.routes.len()
            invariant
                i < running@.len(),
                cs == running.deep_view(),
                cs[i as int] == c@,
                f == (|c: ContainerInfoView| c.desired.routes),
                rs == c.desired.routes.deep_view(),
                j <= c.desired.routes@.len(),
                first_route(rs.take(j as int), host@, wildcard) is None,
                first_route(cs.take(i + 1).flat_map(f), host@, wildcard) == first_route(
                    rs,
                    host@,
                    wildcard,
                ),
            decreases c.desired.routes@.len() - j,
        {
            let route = &c.desired.routes[j];
            proof {
                assert(rs[j as int] == route@);
                assert(rs.take(j + 1).drop_last() =~= rs.take(j as int));
                assert(rs.take(j + 1).last() == rs[j as int]);
            }
            let hit = if wildcard {
                route.wildcard && is_under_wildcard(host, route.domain.as_str())
            } else {
                !route.wildcard && same_text(route.domain.as_str(), host)
            };
            if hit {
                proof {
                    lemma_first_route_append(rs.take(j + 1), rs.skip(j + 1), host@, wildcard);
                    assert(rs.take(j + 1) + rs.skip(j + 1) =~= rs);
                    let head = cs.take(i + 1).flat_map(f);
                    let tail = cs.skip(i + 1).flat_map(f);
                    lemma_flat_map_split(cs, f, i + 1);
                    lemma_first_route_append(head, tail, host@, wildcard);
                }
                return Some(route.host_port);
            }
            j += 1;
        }
        proof {
            assert(rs.take(rs.len() as int) =~= rs);
        }
        i += 1;
    }
    proof {
        assert(cs.take(cs.len() as int) =~= cs);
    }
    None
}

/// Flattening a sequence is flattening its two parts.
pub proof fn lemma_flat_map_split<A, B>(s: Seq<A>, f: spec_fn(A) -> Seq<B>, k: int)
    requires
        0 <= k <= s.len(),
    ensures
        s.flat_map(f) == s.take(k).flat_map(f) + s.skip(k).flat_map(f),
    decreases s.len() - k,
{
    if k == s.len() {
        assert(s.take(k) =~= s);
        assert(s.skip(k) =~= Seq::empty());
        assert(s.skip(k).flat_map(f) =~= Seq::empty());
        assert(s.flat_map(f) =~= s.take(k).flat_map(f) + s.skip(k).flat_map(f));
    } else {
        lemma_flat_map_split(s, f, k + 1);
        s.lemma_flat_map_take_append(f, k);
        let rest = s.skip(k);
        lemma_flat_map_head(rest, f);
        assert(rest[0] == s[k]);
        assert(rest.skip(1) =~= s.skip(k + 1));
        assert(s.flat_map(f) =~= s.take(k).flat_map(f) + s.skip(k).flat_map(f));
    }
}

proof fn lemma_flat_map_head<A, B>(s: Seq<A>, f: spec_fn(A) -> Seq<B>)
    requires
        s.len() > 0,
    ensures
        s.flat_map(f) == f(s[0]) + s.skip(1).flat_map(f),
{
    let m = s.map_values(f);
    assert(m.drop_first() =~= s.skip(1).map_values(f));
    assert(m.first() == f(s[0]));
}

/// The host port that a name is routed to.
pub fn resolve_route(states: &StrMap<WorkspaceState>, host: &str) -> (r: Option<u16>)
    ensures
        r == route_of(states@, host@),
{
    let running = collect_running(states);
    match find_route(&running, host, false) {
        Some(p) => Some(p),
        None => find_route(&running, host, true),
    }
}

/// The container of a node in a run of a workspace.
pub open spec fn container_at(
    states: Map<Seq<char>, WorkspaceStateView>,
    workspace: Seq<char>,
    run_id: Seq<char>,
    node_id: Seq<char>,
) -> Option<ContainerInfoView> {
    if states.contains_key(workspace) && states[workspace].runs.contains_key(run_id)
        && states[workspace].runs[run_id].containers.contains_key(node_id) {
        Some(states[workspace].runs[run_id].containers[node_id])
    } else {
        None
    }
}

/// Whether a container is one of a workspace and was last seen running.
pub open spec fn runs_somewhere(
    states: Map<Seq<char>, WorkspaceStateView>,
    c: ContainerInfoView,
) -> bool {
    &&& c.observed.status == "running"@
    &&& exists|workspace: Seq<char>, run_id: Seq<char>, node_id: Seq<char>| #[trigger]
        container_at(states, workspace, run_id, node_id) == Some(c)
}

/// Whether all that the states hold can be counted.
pub open spec fn countable_states(states: Map<Seq<char>, WorkspaceStateView>) -> bool {
    &&& states.dom().finite()
    &&& forall|w: Seq<char>| #[trigger]
        states.contains_key(w) ==> states[w].runs.dom().finite() && forall|r: Seq<char>| #[trigger]
            states[w].runs.contains_key(r) ==> states[w].runs[r].containers.dom().finite()
}

proof fn lemma_running_containers(
    states: Map<Seq<char>, WorkspaceStateView>,
    c: ContainerInfoView,
)
    requires
        countable_states(states),
    ensures
        running_containers(states).contains(c) <==> runs_somewhere(states, c),
{
    let ws = ascending(states.dom());
    let f = |k: Seq<char>| workspace_containers(states[k]);
    lemma_filter_holds(all_containers(states), |c: ContainerInfoView| is_running(c), c);
    lemma_flat_map_holds(ws, f, c);
    lemma_ascending_of_set(states.dom());
    if all_containers(states).contains(c) {
        let i = choose|i: int| 0 <= i < ws.len() && #[trigger] f(ws[i]).contains(c);
        assert(ws.to_set().contains(ws[i]));
        assert(states.contains_key(ws[i]));
        let w = states[ws[i]];
        let rs = ascending(w.runs.dom());
        let g = |k: Seq<char>| run_containers(w.runs[k]);
        lemma_flat_map_holds(rs, g, c);
        lemma_ascending_of_set(w.runs.dom());
        let j = choose|j: int| 0 <= j < rs.len() && #[trigger] g(rs[j]).contains(c);
        assert(rs.to_set().contains(rs[j]));
        assert(w.runs.contains_key(rs[j]));
        let run = w.runs[rs[j]];
        let ns = ascending(run.containers.dom());
        lemma_ascending_of_set(run.containers.dom());
        let cs = run_containers(run);
        let n = choose|n: int| 0 <= n < cs.len() && cs[n] == c;
        assert(ns.to_set().contains(ns[n]));
        assert(container_at(states, ws[i], rs[j], ns[n]) == Some(c));
    }
    if exists|workspace: Seq<char>, run_id: Seq<char>, node_id: Seq<char>| #[trigger]
        container_at(states, workspace, run_id, node_id) == Some(c) {
        let (a, b, d) = choose|workspace: Seq<char>, run_id: Seq<char>, node_id: Seq<char>| #[trigger]
            container_at(states, workspace, run_id, node_id) == Some(c);
        let w = states[a];
        let run = w.runs[b];
        let rs = ascending(w.runs.dom());
        let ns = ascending(run.containers.dom());
        let g = |k: Seq<char>| run_containers(w.runs[k]);
        assert(states.contains_key(a));
        assert(w.runs.contains_key(b));
        lemma_ascending_of_set(w.runs.dom());
        lemma_ascending_of_set(run.containers.dom());
        assert(ns.to_set().contains(d));
        let n = choose|n: int| 0 <= n < ns.len() && ns[n] == d;
        assert(run_containers(run)[n] == c);
        assert(rs.to_set().contains(b));
        let j = choose|j: int| 0 <= j < rs.len() && rs[j] == b;
        assert(g(rs[j]).contains(c));
        lemma_flat_map_holds(rs, g, c);
        assert(ws.to_set().contains(a));
        let i = choose|i: int| 0 <= i < ws.len() && ws[i] == a;
        assert(f(ws[i]).contains(c));
    }
}

/// Whether a running container has a route for exactly this host, to a port.
pub open spec fn claims_exactly(
    states: Map<Seq<char>, WorkspaceStateView>,
    host: Seq<char>,
    port: u16,
) -> bool {
    exists|c: ContainerInfoView, i: int|
        #![trigger c.desired.routes[i]]
        runs_somewhere(states, c) && 0 <= i < c.desired.routes.len()
            && !c.desired.routes[i].wildcard && c.desired.routes[i].domain == host
            && c.desired.routes[i].host_port == port
}

/// Whether a host is a domain, or lies below it.
pub open spec fn at_or_below(host: Seq<char>, domain: Seq<char>) -> bool {
    host == domain || exists|front: Seq<char>| host == #[trigger] (front + seq!['.'] + domain)
}

/// Whether a running container has a wildcard route that takes in this host, to a port.
pub open spec fn claims_by_wildcard(
    states: Map<Seq<char>, WorkspaceStateView>,
    host: Seq<char>,
    port: u16,
) -> bool {
    exists|c: ContainerInfoView, i: int|
        #![trigger c.desired.routes[i]]
        runs_somewhere(states, c) && 0 <= i < c.desired.routes.len() && c.desired.routes[i].wildcard
            && at_or_below(host, c.desired.routes[i].domain) && c.desired.routes[i].host_port
            == port
}

/// A host is under a wildcard exactly if it is the wildcard's domain or lies below it.
pub proof fn law_wildcard_takes_in_its_domain_and_all_below(host: Seq<char>, domain: Seq<char>)
    ensures
        under_wildcard(host, domain) <==> at_or_below(host, domain),
{
    reveal_strlit(".");
    let suffix = "."@ + domain;
    assert("."@ =~= seq!['.']);
    if finishes_with(host, suffix) {
        let front = host.take(host.len() - suffix.len());
        assert(host =~= front + suffix);
        assert(front + suffix =~= front + seq!['.'] + domain);
    }
    if exists|front: Seq<char>| host == #[trigger] (front + seq!['.'] + domain) {
        let front = choose|front: Seq<char>| host == #[trigger] (front + seq!['.'] + domain);
        assert(host.skip(host.len() - suffix.len()) =~= suffix);
    }
}

proof fn lemma_first_route(routes: Seq<PortRouteView>, host: Seq<char>, wildcard: bool)
    ensures
        match first_route(routes, host, wildcard) {
            Some(p) => exists|i: int|
                0 <= i < routes.len() && route_matches(#[trigger] routes[i], host, wildcard)
                    && routes[i].host_port == p,
            None => forall|i: int|
                0 <= i < routes.len() ==> !route_matches(#[trigger] routes[i], host, wildcard),
        },
    decreases routes.len(),
{
    if routes.len() > 0 {
        let front = routes.drop_last();
        lemma_first_route(front, host, wildcard);
        match first_route(front, host, wildcard) {
            Some(p) => {
                let i = choose|i: int|
                    0 <= i < front.len() && route_matches(#[trigger] front[i], host, wildcard)
                        && front[i].host_port == p;
                assert(routes[i] == front[i]);
            },
            None => {
                assert forall|i: int| 0 <= i < front.len() implies !route_matches(
                    #[trigger] routes[i],
                    host,
                    wildcard,
                ) by {
                    assert(front[i] == routes[i]);
                }
                assert(routes[routes.len() - 1] == routes.last());
            },
        }
    }
}

/// A host is routed to a port of a running container. A route for exactly this host
/// always wins; a wildcard is asked only where there is none; and a host that no running
/// container claims is routed nowhere.
pub proof fn law_exact_route_wins(states: Map<Seq<char>, WorkspaceStateView>, host: Seq<char>)
    requires
        countable_states(states),
    ensures
        match route_of(states, host) {
            Some(p) => claims_exactly(states, host, p) || (claims_by_wildcard(states, host, p)
                && forall|q: u16| !claims_exactly(states, host, q)),
            None => forall|q: u16|
                !claims_exactly(states, host, q) && !claims_by_wildcard(states, host, q),
        },
{
    let running = running_containers(states);
    let f = |c: ContainerInfoView| c.desired.routes;
    let routes = running.flat_map(f);
    lemma_first_route(routes, host, false);
    lemma_first_route(routes, host, true);
    assert forall|route: PortRouteView| #[trigger] routes.contains(route) implies exists|
        c: ContainerInfoView,
        i: int,
    |
        #![trigger c.desired.routes[i]]
        runs_somewhere(states, c) && 0 <= i < c.desired.routes.len() && c.desired.routes[i]
            == route by {
        lemma_flat_map_holds(running, f, route);
        let k = choose|k: int| 0 <= k < running.len() && #[trigger] f(running[k]).contains(route);
        let c = running[k];
        assert(running.contains(c));
        lemma_running_containers(states, c);
        let i = choose|i: int| 0 <= i < c.desired.routes.len() && c.desired.routes[i] == route;
        assert(c.desired.routes[i] == route);
    }
    assert forall|c: ContainerInfoView, i: int|
        #![trigger c.desired.routes[i]]
        runs_somewhere(states, c) && 0 <= i < c.desired.routes.len() implies routes.contains(
        c.desired.routes[i],
    ) by {
        lemma_running_containers(states, c);
        let k = choose|k: int| 0 <= k < running.len() && running[k] == c;
        assert(f(running[k]).contains(c.desired.routes[i]));
        lemma_flat_map_holds(running, f, c.desired.routes[i]);
    }
    assert forall|domain: Seq<char>| #[trigger] under_wildcard(host, domain) <==> at_or_below(
        host,
        domain,
    ) by {
        law_wildcard_takes_in_its_domain_and_all_below(host, domain);
    }
    assert forall|q: u16| claims_exactly(states, host, q) implies first_route(
        routes,
        host,
        false,
    ) is Some by {
        let (c, i) = choose|c: ContainerInfoView, i: int|
            #![trigger c.desired.routes[i]]
            runs_somewhere(states, c) && 0 <= i < c.desired.routes.len()
                && !c.desired.routes[i].wildcard && c.desired.routes[i].domain == host
                && c.desired.routes[i].host_port == q;
        assert(routes.contains(c.desired.routes[i]));
        let k = choose|k: int| 0 <= k < routes.len() && routes[k] == c.desired.routes[i];
        assert(route_matches(routes[k], host, false));
    }
    assert forall|q: u16| claims_by_wildcard(states, host, q) implies first_route(
        routes,
        host,
        true,
    ) is Some by {
        let (c, i) = choose|c: ContainerInfoView, i: int|
            #![trigger c.desired.routes[i]]
            runs_somewhere(states, c) && 0 <= i < c.desired.routes.len()
                && c.desired.routes[i].wildcard && at_or_below(host, c.desired.routes[i].domain)
                && c.desired.routes[i].host_port == q;
        assert(routes.contains(c.desired.routes[i]));
        let k = choose|k: int| 0 <= k < routes.len() && routes[k] == c.desired.routes[i];
        assert(under_wildcard(host, routes[k].domain));
        assert(route_matches(routes[k], host, true));
    }
    match first_route(routes, host, false) {
        Some(p) => {
            let k = choose|k: int|
                0 <= k < routes.len() && route_matches(#[trigger] routes[k], host, false)
                    && routes[k].host_port == p;
            assert(routes.contains(routes[k]));
            assert(claims_exactly(states, host, p));
        },
        None => {
            match first_route(routes, host, true) {
                Some(p) => {
                    let k = choose|k: int|
                        0 <= k < routes.len() && route_matches(#[trigger] routes[k], host, true)
                            && routes[k].host_port == p;
                    assert(routes.contains(routes[k]));
                    assert(under_wildcard(host, routes[k].domain));
                    assert(claims_by_wildcard(states, host, p));
                },
                None => {},
            }
        },
    }
}

/// The wildcard zones are the domains of the wildcard routes of running containers, in
/// ascending order and each once.
pub proof fn law_zones_are_those_of_running_wildcards(
    states: Map<Seq<char>, WorkspaceStateView>,
    zone: Seq<char>,
)
    requires
        countable_states(states),
    ensures
        strictly_ascending(wildcard_suffixes_of(states)),
        wildcard_suffixes_of(states).contains(zone) <==> exists|c: ContainerInfoView, i: int|
            #![trigger c.desired.routes[i]]
            runs_somewhere(states, c) && 0 <= i < c.desired.routes.len()
                && c.desired.routes[i].wildcard && c.desired.routes[i].domain == zone,
{
    let running = running_containers(states);
    let g = |c: ContainerInfoView| wildcard_domains(c);
    let all = running.flat_map(g);
    vstd::seq_lib::seq_to_set_is_finite(all);
    lemma_ascending_of_set(all.to_set());
    let zones = wildcard_suffixes_of(states);
    assert(zones.contains(zone) <==> zones.to_set().contains(zone));
    assert(all.to_set().contains(zone) <==> all.contains(zone));
    lemma_flat_map_holds(running, g, zone);
    let p = |r: PortRouteView| r.wildcard;
    let d = |r: PortRouteView| r.domain;
    if all.contains(zone) {
        let k = choose|k: int| 0 <= k < running.len() && #[trigger] g(running[k]).contains(zone);
        let c = running[k];
        assert(running.contains(c));
        lemma_running_containers(states, c);
        let kept = c.desired.routes.filter(p);
        let j = choose|j: int| 0 <= j < kept.len() && wildcard_domains(c)[j] == zone;
        assert(kept.contains(kept[j]));
        lemma_filter_holds(c.desired.routes, p, kept[j]);
        let i = choose|i: int| 0 <= i < c.desired.routes.len() && c.desired.routes[i] == kept[j];
        assert(c.desired.routes[i].domain == zone);
    }
    if exists|c: ContainerInfoView, i: int|
        #![trigger c.desired.routes[i]]
        runs_somewhere(states, c) && 0 <= i < c.desired.routes.len()
            && c.desired.routes[i].wildcard && c.desired.routes[i].domain == zone {
        let (c, i) = choose|c: ContainerInfoView, i: int|
            #![trigger c.desired.routes[i]]
            runs_somewhere(states, c) && 0 <= i < c.desired.routes.len()
                && c.desired.routes[i].wildcard && c.desired.routes[i].domain == zone;
        lemma_running_containers(states, c);
        let kept = c.desired.routes.filter(p);
        lemma_filter_holds(c.desired.routes, p, c.desired.routes[i]);
        let j = choose|j: int| 0 <= j < kept.len() && kept[j] == c.desired.routes[i];
        assert(wildcard_domains(c)[j] == zone);
        let k = choose|k: int| 0 <= k < running.len() && running[k] == c;
        assert(g(running[k]).contains(zone));
    }
}

/// The additional hosts are those of running containers, in ascending order and each
/// once.
pub proof fn law_hosts_are_those_of_running_containers(
    states: Map<Seq<char>, WorkspaceStateView>,
    host: Seq<char>,
)
    requires
        countable_states(states),
    ensures
        strictly_ascending(additional_hosts_of(states)),
        additional_hosts_of(states).contains(host) <==> exists|c: ContainerInfoView|
            runs_somewhere(states, c) && #[trigger] c.desired.additional_hosts.contains(host),
{
    let running = running_containers(states);
    let g = |c: ContainerInfoView| c.desired.additional_hosts;
    let all = running.flat_map(g);
    vstd::seq_lib::seq_to_set_is_finite(all);
    lemma_ascending_of_set(all.to_set());
    let hosts = additional_hosts_of(states);
    assert(hosts.contains(host) <==> hosts.to_set().contains(host));
    assert(all.to_set().contains(host) <==> all.contains(host));
    lemma_flat_map_holds(running, g, host);
    if all.contains(host) {
        let k = choose|k: int| 0 <= k < running.len() && #[trigger] g(running[k]).contains(host);
        assert(running.contains(running[k]));
        lemma_running_containers(states, running[k]);
        assert(running[k].desired.additional_hosts.contains(host));
    }
    if exists|c: ContainerInfoView|
        runs_somewhere(states, c) && #[trigger] c.desired.additional_hosts.contains(host) {
        let c = choose|c: ContainerInfoView|
            runs_somewhere(states, c) && #[trigger] c.desired.additional_hosts.contains(host);
        lemma_running_containers(states, c);
        let k = choose|k: int| 0 <= k < running.len() && running[k] == c;
        assert(g(running[k]).contains(host));
    }
}

/// Every running container has a raw endpoint, under its raw name and with exactly the
/// ports that are published, each with its host port; and there are no others.
pub proof fn law_raw_endpoints_are_those_of_running_containers(
    states: Map<Seq<char>, WorkspaceStateView>,
    e: RawEndpointView,
)
    requires
        countable_states(states),
    ensures
        raw_endpoints_of(states).contains(e) <==> exists|c: ContainerInfoView|
            #[trigger] runs_somewhere(states, c) && e.raw_domain == c.desired.raw_domain
                && forall|port: Seq<char>, host_port: u16|
                #![trigger e.ports.contains_pair(port, host_port)]
                e.ports.contains_pair(port, host_port) <==> c.observed.ports.contains_pair(
                    port,
                    Some(host_port),
                ),
{
    let running = running_containers(states);
    let f = |c: ContainerInfoView| raw_endpoint_of(c);
    let all = running.map_values(f);
    if all.contains(e) {
        let k = choose|k: int| 0 <= k < all.len() && all[k] == e;
        let c = running[k];
        assert(running.contains(c));
        lemma_running_containers(states, c);
        assert(runs_somewhere(states, c));
    }
    if exists|c: ContainerInfoView|
        #[trigger] runs_somewhere(states, c) && e.raw_domain == c.desired.raw_domain && forall|
            port: Seq<char>,
            host_port: u16,
        |
            #![trigger e.ports.contains_pair(port, host_port)]
            e.ports.contains_pair(port, host_port) <==> c.observed.ports.contains_pair(
                port,
                Some(host_port),
            ) {
        let c = choose|c: ContainerInfoView|
            #[trigger] runs_somewhere(states, c) && e.raw_domain == c.desired.raw_domain && forall|
                port: Seq<char>,
                host_port: u16,
            |
                #![trigger e.ports.contains_pair(port, host_port)]
                e.ports.contains_pair(port, host_port) <==> c.observed.ports.contains_pair(
                    port,
                    Some(host_port),
                );
        lemma_running_containers(states, c);
        let k = choose|k: int| 0 <= k < running.len() && running[k] == c;
        let made = raw_endpoint_of(c);
        assert forall|port: Seq<char>| e.ports.contains_key(port) <==> made.ports.contains_key(
            port,
        ) by {
            if e.ports.contains_key(port) {
                assert(e.ports.contains_pair(port, e.ports[port]));
            }
            if made.ports.contains_key(port) {
                assert(c.observed.ports.contains_pair(port, Some(made.ports[port])));
                assert(e.ports.contains_pair(port, made.ports[port]));
            }
        }
        assert forall|port: Seq<char>| e.ports.contains_key(port) implies e.ports[port]
            == made.ports[port] by {
            assert(e.ports.contains_pair(port, e.ports[port]));
        }
        assert(e.ports =~= made.ports);
        assert(all[k] == e);
    }
}

/// Of several routes that take a host in, the first one counts.
pub proof fn law_first_route_counts(
    routes: Seq<PortRouteView>,
    host: Seq<char>,
    wildcard: bool,
    k: int,
)
    requires
        0 <= k < routes.len(),
        routes[k].wildcard == wildcard,
        if wildcard {
            at_or_below(host, routes[k].domain)
        } else {
            routes[k].domain == host
        },
        forall|j: int|
            0 <= j < k && (#[trigger] routes[j]).wildcard == wildcard ==> if wildcard {
                !at_or_below(host, routes[j].domain)
            } else {
                routes[j].domain != host
            },
    ensures
        first_route(routes, host, wildcard) == Some(routes[k].host_port),
    decreases routes.len(),
{
    law_wildcard_takes_in_its_domain_and_all_below(host, routes[k].domain);
    let front = routes.drop_last();
    if k < front.len() {
        assert(front[k] == routes[k]);
        assert forall|j: int| 0 <= j < k && (#[trigger] front[j]).wildcard == wildcard implies if wildcard {
            !at_or_below(host, front[j].domain)
        } else {
            front[j].domain != host
        } by {
            assert(front[j] == routes[j]);
        }
        law_first_route_counts(front, host, wildcard, k);
    } else {
        lemma_first_route(front, host, wildcard);
        if first_route(front, host, wildcard) is Some {
            let p = first_route(front, host, wildcard)->Some_0;
            let i = choose|i: int|
                0 <= i < front.len() && route_matches(#[trigger] front[i], host, wildcard)
                    && front[i].host_port == p;
            assert(front[i] == routes[i]);
            law_wildcard_takes_in_its_domain_and_all_below(host, routes[i].domain);
        }
        assert(route_matches(routes.last(), host, wildcard));
    }
}

/// The containers of a run come in the order of their ids, each once.
pub proof fn law_containers_come_in_the_order_of_their_ids(
    run: RunStateView,
    a: Seq<char>,
    b: Seq<char>,
)
    requires
        run.containers.dom().finite(),
        run.containers.contains_key(a),
        run.containers.contains_key(b),
        text_lt(a, b),
    ensures
        run_containers(run).len() == run.containers.dom().len(),
        exists|i: int, j: int|
            0 <= i < j < run_containers(run).len() && #[trigger] run_containers(run)[i]
                == run.containers[a] && #[trigger] run_containers(run)[j] == run.containers[b],
{
    let ks = ascending(run.containers.dom());
    lemma_ascending_of_set(run.containers.dom());
    lemma_ascending_len(ks);
    assert(ks.to_set().contains(a) && ks.to_set().contains(b));
    let i = choose|i: int| 0 <= i < ks.len() && ks[i] == a;
    let j = choose|j: int| 0 <= j < ks.len() && ks[j] == b;
    lemma_text_lt_asymmetric(a, b);
    if j < i {
        assert(text_lt(ks[j], ks[i]));
    }
    assert(run_containers(run)[i] == run.containers[a]);
    assert(run_containers(run)[j] == run.containers[b]);
}

} // verus!
