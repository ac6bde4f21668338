//! Which flows reach which parts of the graph.

use vstd::prelude::*;

use crate::resolver::graph::{Edge, EdgeView};
use crate::strmap::lemma_take_next;
use crate::text::{contains_text, same_text};

verus! {

/// Whether an edge makes its target part of what the source needs. A
/// reference to a shared backing dependency does not.
pub open spec fn structural(e: EdgeView) -> bool {
    e.kind == "depends-on"@ || e.kind == "owns"@
}

/// Whether a structural edge leads from `a` to `b`.
pub open spec fn step(edges: Seq<EdgeView>, a: Seq<char>, b: Seq<char>) -> bool {
    exists|i: int|
        0 <= i < edges.len() && structural(#[trigger] edges[i]) && edges[i].from == a
            && edges[i].to == b
}

/// Whether `n` structural edges lead from `a` to `b`.
pub open spec fn reachable_in(edges: Seq<EdgeView>, a: Seq<char>, b: Seq<char>, n: nat) -> bool
    decreases n,
{
    if n == 0 {
        a == b
    } else {
        exists|c: Seq<char>|
            reachable_in(edges, a, c, (n - 1) as nat) && #[trigger] step(edges, c, b)
    }
}

/// Whether structural edges lead from `a` to `b`.
pub open spec fn reachable(edges: Seq<EdgeView>, a: Seq<char>, b: Seq<char>) -> bool {
    exists|n: nat| #[trigger] reachable_in(edges, a, b, n)
}

/// A flow's name and the node at which it starts.
pub struct FlowRoot {
    pub name: String,
    pub root: String,
}

/// The view of a [`FlowRoot`].
pub struct FlowRootView {
    pub name: Seq<char>,
    pub root: Seq<char>,
}

impl View for FlowRoot {
    type V = FlowRootView;

    open spec fn view(&self) -> FlowRootView {
        FlowRootView { name: self.name@, root: self.root@ }
    }
}

impl DeepView for FlowRoot {
    type V = FlowRootView;

    open spec fn deep_view(&self) -> FlowRootView {
        self@
    }
}

/// The names of the flows that reach a node, in the order of their roots.
pub open spec fn flows_reaching(
    roots: Seq<FlowRootView>,
    edges: Seq<EdgeView>,
    id: Seq<char>,
) -> Seq<Seq<char>> {
    roots.filter(|r: FlowRootView| reachable(edges, r.root, id)).map_values(
        |r: FlowRootView| r.name,
    )
}

proof fn lemma_reach_step(edges: Seq<EdgeView>, a: Seq<char>, b: Seq<char>, c: Seq<char>)
    requires
        reachable(edges, a, b),
        step(edges, b, c),
    ensures
        reachable(edges, a, c),
{
    let n = choose|n: nat| #[trigger] reachable_in(edges, a, b, n);
    assert(reachable_in(edges, a, c, n + 1));
}

proof fn lemma_closed_set_holds_all(
    edges: Seq<EdgeView>,
    root: Seq<char>,
    seen: Seq<Seq<char>>,
    x: Seq<char>,
    n: nat,
)
    requires
        seen.contains(root),
        forall|a: Seq<char>, b: Seq<char>|
            #![trigger seen.contains(a), step(edges, a, b)]
            seen.contains(a) && step(edges, a, b) ==> seen.contains(b),
        reachable_in(edges, root, x, n),
    ensures
        seen.contains(x),
    decreases n,
{
    if n > 0 {
        let c = choose|c: Seq<char>|
            reachable_in(edges, root, c, (n - 1) as nat) && #[trigger] step(edges, c, x);
        lemma_closed_set_holds_all(edges, root, seen, c, (n - 1) as nat);
    }
}

/// Whether a text is the root or the target of an edge.
spec fn candidate(edges: Seq<EdgeView>, root: Seq<char>, x: Seq<char>) -> bool {
    x == root || exists|i: int| 0 <= i < edges.len() && (#[trigger] edges[i]).to == x
}

proof fn lemma_seen_is_bounded(edges: Seq<EdgeView>, root: Seq<char>, seen: Seq<Seq<char>>)
    requires
        seen.no_duplicates(),
        forall|x: Seq<char>| #[trigger] seen.contains(x) ==> candidate(edges, root, x),
    ensures
        seen.len() <= edges.len() + 1,
{
    let all = Seq::new(edges.len(), |i: int| edges[i].to).push(root);
    assert forall|x: Seq<char>| seen.to_set().contains(x) implies all.to_set().contains(x) by {
        assert(seen.contains(x));
        if x == root {
            assert(all[edges.len() as int] == x);
        } else {
            let i = choose|i: int| 0 <= i < edges.len() && (#[trigger] edges[i]).to == x;
            assert(all[i] == x);
        }
    }
    seen.unique_seq_to_set();
    all.lemma_cardinality_of_set();
    vstd::set_lib::lemma_len_subset(seen.to_set(), all.to_set());
}

/// Every node that structural edges lead to from `root`, itself included.
pub fn reachable_from(edges: &Vec<Edge>, root: &str) -> (seen: Vec<String>)
    ensures
        forall|x: Seq<char>| #[trigger]
            seen.deep_view().contains(x) <==> reachable(edges.deep_view(), root@, x),
{
    let ghost es = edges.deep_view();
    let mut seen: Vec<String> = Vec::new();
    seen.push(root.to_owned());
    let mut queue: Vec<String> = Vec::new();
    queue.push(root.to_owned());
    proof {
        let sv = seen.deep_view();
        let qv = queue.deep_view();
        assert(sv =~= seq![root@]);
        assert(qv =~= seq![root@]);
        assert(sv[0] == root@);
        assert(qv[0] == root@);
        assert(reachable_in(es, root@, root@, 0));
    }
    while queue.len() > 0
        invariant
            es == edges.deep_view(),
            seen.deep_view().no_duplicates(),
            seen.deep_view().contains(root@),
            forall|x: Seq<char>| #[trigger]
                seen.deep_view().contains(x) ==> reachable(es, root@, x) && candidate(es, root@, x),
            forall|x: Seq<char>| #[trigger]
                queue.deep_view().contains(x) ==> seen.deep_view().contains(x),
            forall|x: Seq<char>, y: Seq<char>|
                #![trigger seen.deep_view().contains(x), step(es, x, y)]
                seen.deep_view().contains(x) && !queue.deep_view().contains(x) && step(es, x, y)
                    ==> seen.deep_view().contains(y),
        decreases es.len() + 1 - seen.deep_view().len(), queue.deep_view().len(),
    {
        let ghost seen0 = seen.deep_view();
        let ghost queue0 = queue.deep_view();
        let popped = queue.pop();
        if let Some(id) = popped {
            let ghost queue1 = queue.deep_view();
            proof {
                assert(queue1 =~= queue0.drop_last());
                assert(queue0.last() == id@);
                assert(queue0.contains(id@));
                assert forall|x: Seq<char>| #[trigger] queue1.contains(x) implies queue0.contains(x) by {
                    let p = choose|p: int| 0 <= p < queue1.len() && queue1[p] == x;
                    assert(queue0[p] == x);
                }
                assert forall|x: Seq<char>| #[trigger] queue0.contains(x) && x != id@ implies queue1.contains(
                    x,
                ) by {
                    let p = choose|p: int| 0 <= p < queue0.len() && queue0[p] == x;
                    assert(queue1[p] == x);
                }
            }
            let mut i: usize = 0;
            while i < edges.len()
                invariant
                    i <= edges@.len(),
                    es == edges.deep_view(),
                    seen.deep_view().no_duplicates(),
                    seen.deep_view().contains(root@),
                    seen.deep_view().contains(id@),
                    forall|x: Seq<char>| #[trigger]
                        seen.deep_view().contains(x) ==> reachable(es, root@, x) && candidate(
                            es,
                            root@,
                            x,
                        ),
                    forall|x: Seq<char>| #[trigger]
                        queue.deep_view().contains(x) ==> seen.deep_view().contains(x),
                    forall|x: Seq<char>, y: Seq<char>|
                        #![trigger seen.deep_view().contains(x), step(es, x, y)]
                        seen.deep_view().contains(x) && !queue.deep_view().contains(x) && x != id@
                            && step(es, x, y) ==> seen.deep_view().contains(y),
                    forall|j: int|
                        #![trigger es[j]]
                        0 <= j < i && structural(es[j]) && es[j].from == id@
                            ==> seen.deep_view().contains(es[j].to),
                    seen.deep_view().len() > seen0.len() || (seen.deep_view().len() == seen0.len()
                        && queue.deep_view() == queue1),
                decreases edges@.len() - i,
            {
                let e = &edges[i];
                proof {
                    assert(es[i as int] == e@);
                }
                let follows = same_text(e.kind.as_str(), "depends-on") || same_text(
                    e.kind.as_str(),
                    "owns",
                );
                if follows && same_text(e.from.as_str(), id.as_str()) {
                    if !contains_text(&seen, e.to.as_str()) {
                        let ghost sb = seen.deep_view();
                        let ghost qb = queue.deep_view();
                        proof {
                            assert(step(es, id@, e@.to));
                            lemma_reach_step(es, root@, id@, e@.to);
                            assert(candidate(es, root@, e@.to));
                        }
                        seen.push(e.to.clone());
                        queue.push(e.to.clone());
                        proof {
                            let sa = seen.deep_view();
                            let qa = queue.deep_view();
                            assert(sa =~= sb.push(e@.to));
                            assert(qa =~= qb.push(e@.to));
                            assert forall|x: Seq<char>| #[trigger] sa.contains(x) <==> (sb.contains(
                                x,
                            ) || x == e@.to) by {
                                if sb.contains(x) {
                                    let p = choose|p: int| 0 <= p < sb.len() && sb[p] == x;
                                    assert(sa[p] == x);
                                }
                                assert(sa[sb.len() as int] == e@.to);
                            }
                            assert forall|x: Seq<char>| #[trigger] qa.contains(x) <==> (qb.contains(
                                x,
                            ) || x == e@.to) by {
                                if qb.contains(x) {
                                    let p = choose|p: int| 0 <= p < qb.len() && qb[p] == x;
                                    assert(qa[p] == x);
                                }
                                assert(qa[qb.len() as int] == e@.to);
                            }
                            assert forall|x: Seq<char>, y: Seq<char>|
                                #![trigger sa.contains(x), step(es, x, y)]
                                sa.contains(x) && !qa.contains(x) && x != id@ && step(es, x, y)
                                implies sa.contains(y) by {
                                assert(sb.contains(x));
                                assert(sb.contains(y));
                            }
                            assert(sa.no_duplicates());
                        }
                    }
                }
                i += 1;
            }
            proof {
                let sa = seen.deep_view();
                let qa = queue.deep_view();
                assert forall|x: Seq<char>, y: Seq<char>|
                    #![trigger sa.contains(x), step(es, x, y)]
                    sa.contains(x) && !qa.contains(x) && step(es, x, y) implies sa.contains(y) by {
                    if x == id@ {
                        let j = choose|j: int|
                            0 <= j < es.len() && structural(#[trigger] es[j]) && es[j].from == x
                                && es[j].to == y;
                        assert(sa.contains(es[j].to));
                    }
                }
                lemma_seen_is_bounded(es, root@, sa);
                lemma_seen_is_bounded(es, root@, seen0);
            }
        }
    }
    proof {
        let sv = seen.deep_view();
        assert forall|x: Seq<char>| #[trigger] sv.contains(x) <==> reachable(es, root@, x) by {
            if reachable(es, root@, x) {
                let n = choose|n: nat| #[trigger] reachable_in(es, root@, x, n);
                assert forall|a: Seq<char>, b: Seq<char>|
                    #![trigger sv.contains(a), step(es, a, b)]
                    sv.contains(a) && step(es, a, b) implies sv.contains(b) by {
                    assert(!queue.deep_view().contains(a));
                }
                lemma_closed_set_holds_all(es, root@, sv, x, n);
            }
        }
    }
    seen
}

/// What each flow reaches, in the order of the flows.
pub fn reach_of_roots(edges: &Vec<Edge>, roots: &Vec<FlowRoot>) -> (r: Vec<Vec<String>>)
    ensures
        r@.len() == roots@.len(),
        forall|i: int, x: Seq<char>|
            #![trigger r@[i].deep_view().contains(x)]
            0 <= i < roots@.len() ==> (r@[i].deep_view().contains(x) <==> reachable(
                edges.deep_view(),
                roots@[i].root@,
                x,
            )),
{
    let mut r: Vec<Vec<String>> = Vec::new();
    let mut i: usize = 0;
    while i < roots.len()
        invariant
            i <= roots@.len(),
            r@.len() == i,
            forall|j: int, x: Seq<char>|
                #![trigger r@[j].deep_view().contains(x)]
                0 <= j < i ==> (r@[j].deep_view().contains(x) <==> reachable(
                    edges.deep_view(),
                    roots@[j].root@,
                    x,
                )),
        decreases roots@.len() - i,
    {
        r.push(reachable_from(edges, roots[i].root.as_str()));
        i += 1;
    }
    r
}

/// The names of the flows that reach a node.
pub fn collect_flows(
    edges: &Vec<Edge>,
    roots: &Vec<FlowRoot>,
    reach: &Vec<Vec<String>>,
    id: &str,
) -> (r: Vec<String>)
    requires
        reach@.len() == roots@.len(),
        forall|i: int, x: Seq<char>|
            #![trigger reach@[i].deep_view().contains(x)]
            0 <= i < roots@.len() ==> (reach@[i].deep_view().contains(x) <==> reachable(
                edges.deep_view(),
                roots@[i].root@,
                x,
            )),
    ensures
        r.deep_view() == flows_reaching(roots.deep_view(), edges.deep_view(), id@),
{
    let ghost es = edges.deep_view();
    let ghost rs = roots.deep_view();
    let ghost f = |r: FlowRootView| reachable(es, r.root, id@);
    let ghost g = |r: FlowRootView| r.name;
    let mut r: Vec<String> = Vec::new();
    let mut i: usize = 0;
    proof {
        assert(rs.take(0).filter(f).map_values(g) =~= Seq::<Seq<char>>::empty());
        assert(r.deep_view() =~= Seq::<Seq<char>>::empty());
    }
    while i < roots.len()
        invariant
            i <= roots@.len(),
            es == edges.deep_view(),
            rs == roots.deep_view(),
            f == (|r: FlowRootView| reachable(es, r.root, id@)),
            g == (|r: FlowRootView| r.name),
            reach@.len() == roots@.len(),
            forall|i: int, x: Seq<char>|
                #![trigger reach@[i].deep_view().contains(x)]
                0 <= i < roots@.len() ==> (reach@[i].deep_view().contains(x) <==> reachable(
                    es,
                    roots@[i].root@,
                    x,
                )),
            r.deep_view() == rs.take(i as int).filter(f).map_values(g),
        decreases roots@.len() - i,
    {
        proof {
            lemma_take_next(rs, i as int);
            rs.take(i as int).lemma_filter_push(rs[i as int], f);
        }
        if contains_text(&reach[i], id) {
            let ghost before = r.deep_view();
            let ghost kept = rs.take(i as int).filter(f);
            r.push(roots[i].name.clone());
            proof {
                assert(f(rs[i as int]));
                assert(r.deep_view() =~= before.push(rs[i as int].name));
                assert(kept.push(rs[i as int]).map_values(g) =~= kept.map_values(g).push(
                    g(rs[i as int]),
                ));
            }
        } else {
            proof {
                assert(!f(rs[i as int]));
            }
        }
        i += 1;
    }
    proof {
        assert(rs.take(rs.len() as int) =~= rs);
    }
    r
}

} // verus!
