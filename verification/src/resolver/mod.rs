//! Resolving the repos of a workspace into one graph.

use vstd::prelude::*;

pub mod checkout;
pub mod flows;
pub mod graph;
pub mod laws;
pub mod url;
pub mod visit;
pub mod warnings;

use crate::resolver::flows::{
    collect_flows, flows_reaching, reach_of_roots, reachable, FlowRoot, FlowRootView,
};
use crate::resolver::graph::{Edge, EdgeView, Graph, GraphView, Node, NodeView, Scan, ScanView};
use crate::resolver::visit::{
    dependencies_followed, index_repos, is_stub, repo_index, repo_visited, service_id,
    service_picked, CtxView, ResolveCtx,
};
use crate::runs::{derive_domain, domain_of, DEFAULT_RUN_ID};
use crate::strmap::{
    ascending, lemma_ascending_is, lemma_take_next, sorted_unique, strictly_ascending, StrMap,
};
use crate::text::{concat_text, same_text, text_lt};

verus! {

/// What is known after some flows of a repo were followed, and where they
/// start.
pub open spec fn repo_flows_followed(
    depth: nat,
    scan: ScanView,
    c: CtxView,
    roots: Seq<FlowRootView>,
    folder: Seq<char>,
    names: Seq<Seq<char>>,
) -> (CtxView, Seq<FlowRootView>)
    decreases names.len(),
{
    if names.len() == 0 {
        (c, roots)
    } else {
        let (c1, roots1) = repo_flows_followed(depth, scan, c, roots, folder, names.drop_last());
        let flow = scan.repos[folder].component.flows[names.last()];
        let (c2, id) = service_picked(depth, scan, c1, folder, flow.service);
        match id {
            Some(id) => (
                dependencies_followed(depth, scan, c2, id, folder, flow.dependencies),
                roots1.push(FlowRootView { name: names.last(), root: id }),
            ),
            None => (c2, roots1),
        }
    }
}

/// What is known after the flows of some repos were followed.
pub open spec fn flows_followed(depth: nat, scan: ScanView, folders: Seq<Seq<char>>) -> (
    CtxView,
    Seq<FlowRootView>,
)
    decreases folders.len(),
{
    if folders.len() == 0 {
        (CtxView::start(), Seq::empty())
    } else {
        let (c, roots) = flows_followed(depth, scan, folders.drop_last());
        repo_flows_followed(
            depth,
            scan,
            c,
            roots,
            folders.last(),
            ascending(scan.repos[folders.last()].component.flows.dom()),
        )
    }
}

/// What is known after some repos were visited for their own sake.
pub open spec fn repos_visited(
    depth: nat,
    scan: ScanView,
    c: CtxView,
    folders: Seq<Seq<char>>,
) -> CtxView
    decreases folders.len(),
{
    if folders.len() == 0 {
        c
    } else {
        repo_visited(
            depth,
            scan,
            repos_visited(depth, scan, c, folders.drop_last()),
            folders.last(),
        )
    }
}

/// What is known after the whole workspace was walked, and where its flows
/// start.
pub open spec fn walked(scan: ScanView) -> (CtxView, Seq<FlowRootView>) {
    let folders = ascending(scan.repos.dom());
    let depth = scan.repos.dom().len();
    let (c, roots) = flows_followed(depth, scan, folders);
    (repos_visited(depth, scan, c, folders), roots)
}

/// Whether an edge refers to a backing dependency that nothing declares.
pub open spec fn dangling(c: CtxView, e: EdgeView) -> bool {
    e.kind == "shared-backing"@ && !c.nodes.dom().contains(e.to)
}

/// What is said of a dangling edge.
pub open spec fn dangling_warning(e: EdgeView) -> Seq<char> {
    "dangling shared-backing reference: '"@ + e.from + "' points at '"@ + e.to
        + "', which was never resolved as a backing dependency"@
}

/// A node with the flows that reach it and its domain in the default run.
pub open spec fn finished_node(
    scan: ScanView,
    c: CtxView,
    roots: Seq<FlowRootView>,
    id: Seq<char>,
) -> NodeView {
    NodeView {
        flows: flows_reaching(roots, c.edges, id),
        domain: domain_of(id, c.nodes[id].domain_scope, scan.workspace_name, DEFAULT_RUN_ID@),
        ..c.nodes[id]
    }
}

/// An edge with the flows that reach its source.
pub open spec fn finished_edge(
    roots: Seq<FlowRootView>,
    edges: Seq<EdgeView>,
    e: EdgeView,
) -> EdgeView {
    EdgeView { flows: ascending(flows_reaching(roots, edges, e.from).to_set()), ..e }
}

/// The graph of a workspace: what the walk found, nodes by id, with the flows
/// marked.
pub open spec fn universe(scan: ScanView) -> GraphView {
    let (c, roots) = walked(scan);
    GraphView {
        workspace_name: scan.workspace_name,
        nodes: ascending(c.nodes.dom()).map_values(
            |id: Seq<char>| finished_node(scan, c, roots, id),
        ),
        edges: c.edges.map_values(|e: EdgeView| finished_edge(roots, c.edges, e)),
        warnings: c.warnings + c.edges.filter(|e: EdgeView| dangling(c, e)).map_values(
            |e: EdgeView| dangling_warning(e),
        ),
    }
}

/// Whether a graph has a node of the given id.
pub open spec fn has_node(g: GraphView, id: Seq<char>) -> bool {
    exists|i: int| 0 <= i < g.nodes.len() && (#[trigger] g.nodes[i]).id == id
}

/// The nodes stand in ascending order of their ids, so no id occurs twice.
pub open spec fn sorted_by_id(g: GraphView) -> bool {
    forall|i: int, j: int|
        #![trigger g.nodes[i], g.nodes[j]]
        0 <= i < j < g.nodes.len() ==> text_lt(g.nodes[i].id, g.nodes[j].id)
}

/// Every service of every repo on disk is a node.
pub open spec fn holds_every_service(scan: ScanView, g: GraphView) -> bool {
    forall|folder: Seq<char>, name: Seq<char>|
        #![trigger scan.repos[folder].component.services.dom().contains(name)]
        scan.repos.dom().contains(folder)
            && scan.repos[folder].component.services.dom().contains(name) ==> has_node(
            g,
            service_id(name, folder),
        )
}

/// Every edge starts at a node. Every edge ends at a node, unless it refers to
/// a shared backing dependency that is missing, of which the graph warns.
pub open spec fn edges_join_nodes(g: GraphView) -> bool {
    forall|i: int|
        #![trigger g.edges[i]]
        0 <= i < g.edges.len() ==> {
            &&& has_node(g, g.edges[i].from)
            &&& has_node(g, g.edges[i].to) || (g.edges[i].kind == "shared-backing"@
                && g.warnings.contains(dangling_warning(g.edges[i])))
        }
}

/// Every node that is not on disk is a service of a repo whose URL is known, with
/// a domain of its run, and nothing to commit.
pub open spec fn missing_nodes_have_repos(g: GraphView) -> bool {
    forall|i: int|
        #![trigger g.nodes[i]]
        0 <= i < g.nodes.len() && !g.nodes[i].downloaded ==> {
            &&& g.nodes[i].kind == "service"@
            &&& g.nodes[i].repo is Some
            &&& g.nodes[i].branch is Some
            &&& g.nodes[i].domain_scope == "run"@
            &&& !g.nodes[i].dirty
        }
}

/// Whether every service of some repos is known.
spec fn knows_services(scan: ScanView, c: CtxView, folders: Seq<Seq<char>>) -> bool {
    forall|folder: Seq<char>, name: Seq<char>|
        #![trigger scan.repos[folder].component.services.dom().contains(name)]
        folders.contains(folder) && scan.repos[folder].component.services.dom().contains(name)
            ==> c.nodes.dom().contains(service_id(name, folder))
}

proof fn lemma_graph_is_sound(scan: ScanView, c: CtxView, roots: Seq<FlowRootView>, ks: Seq<Seq<char>>)
    requires
        (c, roots) == walked(scan),
        c.consistent(),
        strictly_ascending(ks),
        ks.to_set() == c.nodes.dom(),
        knows_services(scan, c, ascending(scan.repos.dom())),
        ascending(scan.repos.dom()).to_set() == scan.repos.dom(),
    ensures
        sorted_by_id(universe(scan)),
        holds_every_service(scan, universe(scan)),
        edges_join_nodes(universe(scan)),
        missing_nodes_have_repos(universe(scan)),
{
    let g = universe(scan);
    lemma_ascending_is(ks);
    assert forall|i: int| 0 <= i < g.nodes.len() implies (#[trigger] g.nodes[i]).id == ks[i] by {
        assert(ks.to_set().contains(ks[i]));
    }
    assert forall|i: int| #![trigger g.nodes[i]] 0 <= i < g.nodes.len()
        && !g.nodes[i].downloaded implies {
        &&& g.nodes[i].kind == "service"@
        &&& g.nodes[i].repo is Some
        &&& g.nodes[i].branch is Some
        &&& g.nodes[i].domain_scope == "run"@
        &&& !g.nodes[i].dirty
    } by {
        assert(ks.to_set().contains(ks[i]));
        assert(c.nodes.dom().contains(ks[i]));
        assert(is_stub(c.nodes[ks[i]]));
    }
    assert forall|id: Seq<char>| #[trigger] c.nodes.dom().contains(id) implies has_node(g, id) by {
        assert(ks.to_set().contains(id));
        let i = choose|i: int| 0 <= i < ks.len() && ks[i] == id;
        assert(g.nodes[i].id == id);
    }
    assert forall|folder: Seq<char>, name: Seq<char>|
        #![trigger scan.repos[folder].component.services.dom().contains(name)]
        scan.repos.dom().contains(folder)
            && scan.repos[folder].component.services.dom().contains(name) implies has_node(
        g,
        service_id(name, folder),
    ) by {
        assert(ascending(scan.repos.dom()).to_set().contains(folder));
        assert(c.nodes.dom().contains(service_id(name, folder)));
    }
    assert forall|i: int| #![trigger g.edges[i]] 0 <= i < g.edges.len() implies {
        &&& has_node(g, g.edges[i].from)
        &&& has_node(g, g.edges[i].to) || (g.edges[i].kind == "shared-backing"@
            && g.warnings.contains(dangling_warning(g.edges[i])))
    } by {
        let e = c.edges[i];
        assert(c.nodes.dom().contains(e.from));
        if !c.nodes.dom().contains(e.to) {
            let f = |e: EdgeView| dangling(c, e);
            assert(f(e));
            c.edges.lemma_filter_contains(f, i);
            let kept = c.edges.filter(f);
            let k = choose|k: int| 0 <= k < kept.len() && kept[k] == e;
            let said = kept.map_values(|e: EdgeView| dangling_warning(e));
            assert(said[k] == dangling_warning(e));
            assert(g.warnings[c.warnings.len() + k] == dangling_warning(e));
            assert(dangling_warning(g.edges[i]) == dangling_warning(e));
        }
    }
}

/// Follows the flows of one repo.
fn follow_repo_flows(
    ctx: &mut ResolveCtx,
    roots: &mut Vec<FlowRoot>,
    scan: &Scan,
    index: &StrMap<String>,
    folder: &str,
    Ghost(depth): Ghost<nat>,
)
    requires
        scan@.repos.dom().finite(),
        depth == scan@.repos.dom().len(),
        old(ctx)@.consistent(),
        index@ == repo_index(scan@),
        scan@.repos.dom().contains(folder@),
    ensures
        (final(ctx)@, final(roots).deep_view()) == repo_flows_followed(
            depth,
            scan@,
            old(ctx)@,
            old(roots).deep_view(),
            folder@,
            ascending(scan@.repos[folder@].component.flows.dom()),
        ),
        final(ctx)@.consistent(),
        old(ctx)@.grows_into(final(ctx)@),
{
    let ghost start = ctx@;
    let ghost first = roots.deep_view();
    match scan.repos.get(folder) {
        None => {},
        Some(repo) => {
            let flows = &repo.component.flows;
            let ghost ks = flows.keys();
            let n: usize = flows.len();
            let mut i: usize = 0;
            proof {
                assert(ks.take(0) =~= Seq::empty());
            }
            while i < n
                invariant
                    n == flows@.dom().len(),
                    n == ks.len(),
                    ks == flows.keys(),
                    i <= n,
                    flows@ == scan@.repos[folder@].component.flows,
                    scan@.repos.dom().finite(),
                    depth == scan@.repos.dom().len(),
                    index@ == repo_index(scan@),
                    scan@.repos.dom().contains(folder@),
                    ctx@.consistent(),
                    start.grows_into(ctx@),
                    (ctx@, roots.deep_view()) == repo_flows_followed(
                        depth,
                        scan@,
                        start,
                        first,
                        folder@,
                        ks.take(i as int),
                    ),
                decreases n - i,
            {
                let name = flows.key_at(i);
                let flow = flows.value_at(i);
                let ghost before = ctx@;
                let ghost roots_before = roots.deep_view();
                proof {
                    assert(ks.take(i + 1).drop_last() =~= ks.take(i as int));
                    assert(ks.take(i + 1).last() == ks[i as int]);
                    visit::lemma_ready(scan@, ctx@);
                }
                let wanted: Option<&str> = match &flow.service {
                    Some(s) => Some(s.as_str()),
                    None => None,
                };
                let picked = ctx.visit_local_service(scan, index, folder, wanted, Ghost(depth));
                proof {
                    visit::lemma_grows_transitive(start, before, ctx@);
                }
                match picked {
                    None => {},
                    Some(id) => {
                        let ghost after = ctx@;
                        roots.push(FlowRoot { name: name.clone(), root: id.clone() });
                        proof {
                            assert(roots.deep_view() =~= roots_before.push(
                                FlowRootView { name: name@, root: id@ },
                            ));
                            visit::lemma_ready(scan@, ctx@);
                        }
                        ctx.visit_dependencies(
                            scan,
                            index,
                            id.as_str(),
                            folder,
                            &flow.dependencies,
                            Ghost(depth),
                        );
                        proof {
                            visit::lemma_grows_transitive(start, after, ctx@);
                        }
                    },
                }
                i += 1;
            }
            proof {
                assert(ks.take(n as int) =~= ks);
            }
        },
    }
}

/// The warnings for all edges that refer to nothing.
fn dangling_warnings(ctx: &ResolveCtx) -> (r: Vec<String>)
    ensures
        r.deep_view() == ctx@.edges.filter(|e: EdgeView| dangling(ctx@, e)).map_values(
            |e: EdgeView| dangling_warning(e),
        ),
{
    let ghost c = ctx@;
    let ghost f = |e: EdgeView| dangling(c, e);
    let ghost g = |e: EdgeView| dangling_warning(e);
    let mut r: Vec<String> = Vec::new();
    let mut i: usize = 0;
    proof {
        assert(c.edges.take(0).filter(f).map_values(g) =~= Seq::<Seq<char>>::empty());
        assert(r.deep_view() =~= Seq::<Seq<char>>::empty());
    }
    while i < ctx.edges.len()
        invariant
            i <= ctx.edges@.len(),
            c == ctx@,
            f == (|e: EdgeView| dangling(c, e)),
            g == (|e: EdgeView| dangling_warning(e)),
            r.deep_view() == c.edges.take(i as int).filter(f).map_values(g),
        decreases ctx.edges@.len() - i,
    {
        let e = &ctx.edges[i];
        proof {
            assert(c.edges[i as int] == e@);
            lemma_take_next(c.edges, i as int);
            c.edges.take(i as int).lemma_filter_push(e@, f);
        }
        if same_text(e.kind.as_str(), "shared-backing") && !ctx.nodes.contains_key(e.to.as_str()) {
            let mut w = concat_text("dangling shared-backing reference: '", e.from.as_str());
            w.append("' points at '");
            w.append(e.to.as_str());
            w.append("', which was never resolved as a backing dependency");
            let ghost before = r.deep_view();
            let ghost kept = c.edges.take(i as int).filter(f);
            r.push(w);
            proof {
                assert(f(e@));
                assert(r.deep_view() =~= before.push(w@));
                assert(kept.push(e@).map_values(g) =~= kept.map_values(g).push(g(e@)));
            }
        } else {
            proof {
                assert(!f(e@));
            }
        }
        i += 1;
    }
    proof {
        assert(c.edges.take(c.edges.len() as int) =~= c.edges);
    }
    r
}

/// Resolves everything that the repos of a workspace declare into one graph.
/// Every repo on disk is part of it, whether or not a flow reaches it; a repo
/// that is only referred to appears as a stub.
pub fn resolve_universe(scan: &Scan) -> (g: Graph)
    ensures
        g@ == universe(scan@),
        sorted_by_id(g@),
        holds_every_service(scan@, g@),
        edges_join_nodes(g@),
        missing_nodes_have_repos(g@),
{
    let index = index_repos(scan);
    let n: usize = scan.repos.len();
    let ghost depth: nat = scan@.repos.dom().len();
    let ghost folders = scan.repos.keys();
    let mut ctx = ResolveCtx::new();
    let mut roots: Vec<FlowRoot> = Vec::new();
    let mut i: usize = 0;
    proof {
        assert(folders.take(0) =~= Seq::empty());
        assert(roots.deep_view() =~= Seq::<FlowRootView>::empty());
    }
    while i < n
        invariant
            n == scan.repos@.dom().len(),
            n == folders.len(),
            folders == scan.repos.keys(),
            i <= n,
            scan@.repos.dom().finite(),
            depth == scan@.repos.dom().len(),
            index@ == repo_index(scan@),
            ctx@.consistent(),
            (ctx@, roots.deep_view()) == flows_followed(depth, scan@, folders.take(i as int)),
        decreases n - i,
    {
        let folder = scan.repos.key_at(i);
        proof {
            assert(folders.take(i + 1).drop_last() =~= folders.take(i as int));
            assert(folders.take(i + 1).last() == folders[i as int]);
        }
        follow_repo_flows(&mut ctx, &mut roots, scan, &index, folder.as_str(), Ghost(depth));
        i += 1;
    }
    let ghost flowed = ctx@;
    proof {
        assert(folders.take(n as int) =~= folders);
        assert(folders.take(0) =~= Seq::empty());
    }
    i = 0;
    while i < n
        invariant
            n == scan.repos@.dom().len(),
            n == folders.len(),
            folders == scan.repos.keys(),
            i <= n,
            scan@.repos.dom().finite(),
            depth == scan@.repos.dom().len(),
            index@ == repo_index(scan@),
            ctx@.consistent(),
            ctx@ == repos_visited(depth, scan@, flowed, folders.take(i as int)),
            knows_services(scan@, ctx@, folders.take(i as int)),
        decreases n - i,
    {
        let folder = scan.repos.key_at(i);
        let ghost before = ctx@;
        proof {
            assert(folders.take(i + 1).drop_last() =~= folders.take(i as int));
            assert(folders.take(i + 1).last() == folders[i as int]);
            visit::lemma_ready(scan@, ctx@);
        }
        ctx.visit_local_services(scan, &index, folder.as_str(), Ghost(depth));
        proof {
            lemma_take_next(folders, i as int);
            assert forall|f: Seq<char>, name: Seq<char>|
                #![trigger scan@.repos[f].component.services.dom().contains(name)]
                folders.take(i + 1).contains(f) && scan@.repos[f].component.services.dom().contains(
                    name,
                ) implies ctx@.nodes.dom().contains(service_id(name, f)) by {
                if folders.take(i as int).contains(f) {
                    assert(before.nodes.dom().contains(service_id(name, f)));
                }
            }
        }
        i += 1;
    }
    proof {
        assert(folders.take(n as int) =~= folders);
    }
    finish(scan, ctx, roots)
}

/// Turns what the walk found into the graph.
fn finish(scan: &Scan, ctx: ResolveCtx, roots: Vec<FlowRoot>) -> (g: Graph)
    requires
        (ctx@, roots.deep_view()) == walked(scan@),
        ctx@.consistent(),
        knows_services(scan@, ctx@, ascending(scan@.repos.dom())),
        ascending(scan@.repos.dom()).to_set() == scan@.repos.dom(),
    ensures
        g@ == universe(scan@),
        sorted_by_id(g@),
        holds_every_service(scan@, g@),
        edges_join_nodes(g@),
        missing_nodes_have_repos(g@),
{
    let ghost c = ctx@;
    let ghost rs = roots.deep_view();
    let mut warnings = ctx.warnings.clone();
    let mut dangling_ones = dangling_warnings(&ctx);
    proof {
        assert(warnings.deep_view() =~= c.warnings);
    }
    let ghost w0 = warnings.deep_view();
    let ghost w1 = dangling_ones.deep_view();
    warnings.append(&mut dangling_ones);
    proof {
        assert(warnings.deep_view() =~= w0 + w1);
    }
    let reach = reach_of_roots(&ctx.edges, &roots);

    let ghost f = |id: Seq<char>| finished_node(scan@, c, rs, id);
    let ghost ks = ctx.nodes.keys();
    let mut nodes: Vec<Node> = Vec::new();
    let n: usize = ctx.nodes.len();
    let mut i: usize = 0;
    proof {
        lemma_graph_is_sound(scan@, c, rs, ks);
        assert(nodes.deep_view() =~= ks.take(0).map_values(f));
    }
    while i < n
        invariant
            n == ctx.nodes@.dom().len(),
            n == ks.len(),
            ks == ctx.nodes.keys(),
            i <= n,
            c == ctx@,
            c.consistent(),
            rs == roots.deep_view(),
            f == (|id: Seq<char>| finished_node(scan@, c, rs, id)),
            reach@.len() == roots@.len(),
            forall|i: int, x: Seq<char>|
                #![trigger reach@[i].deep_view().contains(x)]
                0 <= i < roots@.len() ==> (reach@[i].deep_view().contains(x) <==> reachable(
                    ctx.edges.deep_view(),
                    roots@[i].root@,
                    x,
                )),
            nodes.deep_view() == ks.take(i as int).map_values(f),
        decreases n - i,
    {
        let id = ctx.nodes.key_at(i);
        let mut node = ctx.nodes.value_at(i).clone();
        node.flows = collect_flows(&ctx.edges, &roots, &reach, id.as_str());
        node.domain = derive_domain(
            id.as_str(),
            node.domain_scope.as_str(),
            scan.workspace_name.as_str(),
            DEFAULT_RUN_ID,
        );
        let ghost before = nodes.deep_view();
        nodes.push(node);
        proof {
            assert(node@ == f(ks[i as int]));
            lemma_take_next(ks, i as int);
            assert(nodes.deep_view() =~= before.push(node@));
            assert(ks.take(i + 1).map_values(f) =~= ks.take(i as int).map_values(f).push(
                f(ks[i as int]),
            ));
        }
        i += 1;
    }
    proof {
        assert(ks.take(n as int) =~= ks);
    }

    let ghost h = |e: EdgeView| finished_edge(rs, c.edges, e);
    let mut edges: Vec<Edge> = Vec::new();
    let mut j: usize = 0;
    proof {
        assert(edges.deep_view() =~= c.edges.take(0).map_values(h));
    }
    while j < ctx.edges.len()
        invariant
            j <= ctx.edges@.len(),
            c == ctx@,
            rs == roots.deep_view(),
            h == (|e: EdgeView| finished_edge(rs, c.edges, e)),
            reach@.len() == roots@.len(),
            forall|i: int, x: Seq<char>|
                #![trigger reach@[i].deep_view().contains(x)]
                0 <= i < roots@.len() ==> (reach@[i].deep_view().contains(x) <==> reachable(
                    ctx.edges.deep_view(),
                    roots@[i].root@,
                    x,
                )),
            edges.deep_view() == c.edges.take(j as int).map_values(h),
        decreases ctx.edges@.len() - j,
    {
        let mut edge = ctx.edges[j].clone();
        let names = collect_flows(&ctx.edges, &roots, &reach, edge.from.as_str());
        edge.flows = sorted_unique(&names);
        let ghost before = edges.deep_view();
        edges.push(edge);
        proof {
            assert(c.edges[j as int] == ctx.edges@[j as int]@);
            assert(edge@ == h(c.edges[j as int]));
            lemma_take_next(c.edges, j as int);
            assert(edges.deep_view() =~= before.push(edge@));
            assert(c.edges.take(j + 1).map_values(h) =~= c.edges.take(j as int).map_values(h).push(
                h(c.edges[j as int]),
            ));
        }
        j += 1;
    }
    proof {
        assert(c.edges.take(c.edges.len() as int) =~= c.edges);
    }
    Graph { workspace_name: scan.workspace_name.clone(), nodes, edges, warnings }
}

} // verus!
