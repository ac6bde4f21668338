//! Keeps a route table on disk for the sidecar of each run.

use vstd::prelude::*;

use crate::effects::Effect;
use crate::seqs::lemma_filter_holds;
use crate::state::{RunState, RunStateView, WorkspaceState, WorkspaceStateView};
use crate::strmap::{
    ascending, lemma_ascending_of_set, lemma_take_next, lemma_take_next_set, StrMap,
};

verus! {

/// Keeps a route table on disk for the sidecar of each run.
pub struct RouteTableEffect {
    /// The network of each run whose table was written.
    written: StrMap<String>,
}

impl View for RouteTableEffect {
    type V = Map<Seq<char>, Seq<char>>;

    closed spec fn view(&self) -> Map<Seq<char>, Seq<char>> {
        self.written@
    }
}

impl Effect for RouteTableEffect {
    type Snapshot = StrMap<RunState>;

    open spec fn depends_on(&self, state: WorkspaceStateView) -> Map<Seq<char>, RunStateView> {
        state.runs
    }

    fn extract(&self, state: &WorkspaceState) -> (r: StrMap<RunState>) {
        state.runs.clone()
    }
}

/// The runs that have a network, and so a place for a table, in the order of
/// their ids.
pub open spec fn runs_with_network(snapshot: Map<Seq<char>, RunStateView>) -> Seq<Seq<char>> {
    ascending(snapshot.dom()).filter(|id: Seq<char>| snapshot[id].network.len() > 0)
}

/// The runs whose table was written and that are gone.
pub open spec fn gone_runs(
    written: Map<Seq<char>, Seq<char>>,
    snapshot: Map<Seq<char>, RunStateView>,
) -> Seq<Seq<char>> {
    ascending(written.dom()).filter(|id: Seq<char>| !snapshot.contains_key(id))
}

impl RouteTableEffect {
    /// An effect that has written no table.
    pub fn new() -> (r: Self)
        ensures
            r@ == Map::<Seq<char>, Seq<char>>::empty(),
    {
        RouteTableEffect { written: StrMap::new() }
    }

    /// The runs whose tables are to be written, in order.
    pub fn tables_to_write(&self, snapshot: &StrMap<RunState>) -> (r: Vec<String>)
        ensures
            r.deep_view() == runs_with_network(snapshot@),
    {
        let ghost ks = snapshot.keys();
        let ghost p = |id: Seq<char>| snapshot@[id].network.len() > 0;
        let mut r: Vec<String> = Vec::new();
        let n: usize = snapshot.len();
        let mut i: usize = 0;
        proof {
            assert(r.deep_view() =~= ks.take(0).filter(p));
        }
        while i < n
            invariant
                n == snapshot@.dom().len(),
                n == ks.len(),
                ks == snapshot.keys(),
                p == (|id: Seq<char>| snapshot@[id].network.len() > 0),
                i <= n,
                r.deep_view() == ks.take(i as int).filter(p),
            decreases n - i,
        {
            proof {
                lemma_take_next(ks, i as int);
                ks.take(i as int).lemma_filter_push(ks[i as int], p);
            }
            if !snapshot.value_at(i).network.as_str().is_empty() {
                let ghost before = r.deep_view();
                r.push(snapshot.key_at(i).clone());
                proof {
                    assert(r.deep_view() =~= before.push(ks[i as int]));
                }
            }
            i += 1;
        }
        proof {
            assert(ks.take(n as int) =~= ks);
        }
        r
    }

    /// Records that a run's table was written.
    pub fn record_written(&mut self, run_id: &str, network: &str)
        ensures
            final(self)@ == old(self)@.insert(run_id@, network@),
    {
        self.written.insert(run_id.to_owned(), network.to_owned());
    }

    /// Forgets the runs that are gone; returns the networks whose tables are to
    /// be removed.
    pub fn drop_gone(&mut self, snapshot: &StrMap<RunState>) -> (r: Vec<String>)
        ensures
            r.deep_view() == gone_runs(old(self)@, snapshot@).map_values(
                |id: Seq<char>| old(self)@[id],
            ),
            final(self)@ == old(self)@.restrict(snapshot@.dom()),
    {
        let ghost all = self.written@;
        let ghost ks = self.written.keys();
        let ghost p = |id: Seq<char>| !snapshot@.contains_key(id);
        let ghost f = |id: Seq<char>| all[id];
        let mut kept: StrMap<String> = StrMap::new();
        let mut r: Vec<String> = Vec::new();
        let n: usize = self.written.len();
        let mut i: usize = 0;
        proof {
            assert(r.deep_view() =~= ks.take(0).filter(p).map_values(f));
            assert(kept@ =~= all.restrict(snapshot@.dom()).restrict(ks.take(0).to_set()));
        }
        while i < n
            invariant
                self.written@ == all,
                n == all.dom().len(),
                n == ks.len(),
                ks == self.written.keys(),
                ks.to_set() == all.dom(),
                p == (|id: Seq<char>| !snapshot@.contains_key(id)),
                f == (|id: Seq<char>| all[id]),
                i <= n,
                r.deep_view() == ks.take(i as int).filter(p).map_values(f),
                kept@ == all.restrict(snapshot@.dom()).restrict(ks.take(i as int).to_set()),
            decreases n - i,
        {
            let id = self.written.key_at(i);
            let network = self.written.value_at(i);
            let ghost before = r.deep_view();
            let ghost kept_before = kept@;
            proof {
                lemma_take_next(ks, i as int);
                ks.take(i as int).lemma_filter_push(ks[i as int], p);
                assert(ks.to_set().contains(ks[i as int]));
                lemma_take_next_set(ks, i as int);
            }
            if snapshot.contains_key(id.as_str()) {
                kept.insert(id.clone(), network.clone());
            } else {
                r.push(network.clone());
                proof {
                    assert(r.deep_view() =~= before.push(network@));
                    assert(ks.take(i + 1).filter(p).map_values(f) =~= before.push(f(ks[i as int])));
                }
            }
            proof {
                assert(kept@ =~= all.restrict(snapshot@.dom()).restrict(
                    ks.take(i + 1).to_set(),
                ));
            }
            i += 1;
        }
        self.written = kept;
        proof {
            assert(ks.take(n as int) =~= ks);
            assert(all.restrict(snapshot@.dom()).restrict(ks.to_set()) =~= all.restrict(
                snapshot@.dom(),
            ));
        }
        r
    }
}

impl Default for RouteTableEffect {
    fn default() -> (r: Self)
        ensures
            r@ == Map::<Seq<char>, Seq<char>>::empty(),
    {
        RouteTableEffect::new()
    }
}

/// A map with the networks of some runs entered.
pub open spec fn with_written(
    written: Map<Seq<char>, Seq<char>>,
    snapshot: Map<Seq<char>, RunStateView>,
    ids: Seq<Seq<char>>,
) -> Map<Seq<char>, Seq<char>>
    decreases ids.len(),
{
    if ids.len() == 0 {
        written
    } else {
        with_written(written, snapshot, ids.drop_last()).insert(
            ids.last(),
            snapshot[ids.last()].network,
        )
    }
}

proof fn lemma_with_written(
    written: Map<Seq<char>, Seq<char>>,
    snapshot: Map<Seq<char>, RunStateView>,
    ids: Seq<Seq<char>>,
    id: Seq<char>,
)
    ensures
        with_written(written, snapshot, ids).contains_key(id) <==> written.contains_key(id)
            || ids.contains(id),
        ids.contains(id) ==> with_written(written, snapshot, ids)[id] == snapshot[id].network,
    decreases ids.len(),
{
    if ids.len() > 0 {
        let shorter = ids.drop_last();
        lemma_with_written(written, snapshot, shorter, id);
        assert(ids.contains(id) <==> shorter.contains(id) || id == ids.last()) by {
            if ids.contains(id) {
                let i = choose|i: int| 0 <= i < ids.len() && ids[i] == id;
                if i < shorter.len() {
                    assert(shorter[i] == id);
                }
            }
            if shorter.contains(id) {
                let i = choose|i: int| 0 <= i < shorter.len() && shorter[i] == id;
                assert(ids[i] == id);
            }
            assert(ids[ids.len() - 1] == ids.last());
        }
    }
}

/// Once the tables of a snapshot are written and the gone ones dropped, a table
/// is on record for every run with a network, under that network, and for no run
/// that the snapshot does not hold.
pub proof fn law_tables_follow_the_runs(
    written: Map<Seq<char>, Seq<char>>,
    snapshot: Map<Seq<char>, RunStateView>,
    id: Seq<char>,
)
    requires
        snapshot.dom().finite(),
    ensures
        ({
            let after = with_written(written, snapshot, runs_with_network(snapshot)).restrict(
                snapshot.dom(),
            );
            &&& snapshot.contains_key(id) && snapshot[id].network.len() > 0
                ==> after.contains_key(id) && after[id] == snapshot[id].network
            &&& !snapshot.contains_key(id) ==> !after.contains_key(id)
        }),
{
    let p = |k: Seq<char>| snapshot[k].network.len() > 0;
    lemma_ascending_of_set(snapshot.dom());
    lemma_filter_holds(ascending(snapshot.dom()), p, id);
    assert(ascending(snapshot.dom()).to_set().contains(id) <==> ascending(
        snapshot.dom(),
    ).contains(id));
    lemma_with_written(written, snapshot, runs_with_network(snapshot), id);
}

/// A table is written for each run with a network, and taken away for each run
/// that has one and is gone.
pub proof fn law_tables_are_for_runs_with_a_network(
    written: Map<Seq<char>, Seq<char>>,
    snapshot: Map<Seq<char>, RunStateView>,
    id: Seq<char>,
)
    requires
        snapshot.dom().finite(),
        written.dom().finite(),
    ensures
        runs_with_network(snapshot).contains(id) <==> snapshot.contains_key(id)
            && snapshot[id].network.len() > 0,
        gone_runs(written, snapshot).contains(id) <==> written.contains_key(id)
            && !snapshot.contains_key(id),
{
    let p = |k: Seq<char>| snapshot[k].network.len() > 0;
    let q = |k: Seq<char>| !snapshot.contains_key(k);
    let ks = ascending(snapshot.dom());
    let ws = ascending(written.dom());
    lemma_ascending_of_set(snapshot.dom());
    lemma_ascending_of_set(written.dom());
    lemma_filter_holds(ks, p, id);
    lemma_filter_holds(ws, q, id);
    assert(ks.to_set().contains(id) <==> ks.contains(id));
    assert(ws.to_set().contains(id) <==> ws.contains(id));
}

} // verus!
