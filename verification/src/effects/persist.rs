//! Keeps the runs of a workspace in its database.

use vstd::prelude::*;

use crate::effects::AsyncEffect;
use crate::seqs::lemma_filter_holds;
use crate::state::{RunState, RunStateView, WorkspaceState, WorkspaceStateView};
use crate::strmap::{ascending, lemma_ascending_of_set, lemma_take_next, StrMap};
use crate::text::texts_without;

verus! {

/// Keeps the runs of a workspace in its database.
pub struct PersistEffect {
    /// The runs of the snapshot that was last carried out.
    known: Vec<String>,
}

impl View for PersistEffect {
    type V = Seq<Seq<char>>;

    closed spec fn view(&self) -> Seq<Seq<char>> {
        self.known.deep_view()
    }
}

impl AsyncEffect for PersistEffect {
    type Snapshot = StrMap<RunState>;

    open spec fn depends_on(&self, state: WorkspaceStateView) -> Map<Seq<char>, RunStateView> {
        state.runs
    }

    fn extract(&self, state: &WorkspaceState) -> (r: StrMap<RunState>) {
        state.runs.clone()
    }
}

/// Whether a run was created: a run that was only planned is not kept.
pub open spec fn created(run: RunStateView) -> bool {
    run.network.len() > 0 || run.containers.dom().len() > 0
}

/// The runs to save, in the order of their ids.
pub open spec fn runs_to_save(snapshot: Map<Seq<char>, RunStateView>) -> Seq<Seq<char>> {
    ascending(snapshot.dom()).filter(|id: Seq<char>| created(snapshot[id]))
}

/// The runs to delete: those that are known and gone.
pub open spec fn runs_to_delete(
    known: Seq<Seq<char>>,
    snapshot: Map<Seq<char>, RunStateView>,
) -> Seq<Seq<char>> {
    known.filter(|id: Seq<char>| !snapshot.contains_key(id))
}

impl PersistEffect {
    /// An effect that knows no run.
    pub fn new() -> (r: Self)
        ensures
            r@ == Seq::<Seq<char>>::empty(),
    {
        let r = PersistEffect { known: Vec::new() };
        proof {
            assert(r@ =~= Seq::empty());
        }
        r
    }

    /// The runs to save, in order.
    pub fn runs_to_save(&self, snapshot: &StrMap<RunState>) -> (r: Vec<String>)
        ensures
            r.deep_view() == runs_to_save(snapshot@),
    {
        let ghost ks = snapshot.keys();
        let ghost p = |id: Seq<char>| created(snapshot@[id]);
        let mut r: Vec<String> = Vec::new();
        let n: usize = snapshot.len();
        let mut i: usize = 0;
        proof {
            assert(r.deep_view() =~= ks.take(0).filter(p));
        }
        while i < n
            invariant
                n == snapshot@.dom().len(),
                n == ks.len(),
                ks == snapshot.keys(),
                p == (|id: Seq<char>| created(snapshot@[id])),
                i <= n,
                r.deep_view() == ks.take(i as int).filter(p),
            decreases n - i,
        {
            proof {
                lemma_take_next(ks, i as int);
                ks.take(i as int).lemma_filter_push(ks[i as int], p);
            }
            let run = snapshot.value_at(i);
            if !run.network.as_str().is_empty() || run.containers.len() > 0 {
                let ghost before = r.deep_view();
                r.push(snapshot.key_at(i).clone());
                proof {
                    assert(r.deep_view() =~= before.push(ks[i as int]));
                }
            }
            i += 1;
        }
        proof {
            assert(ks.take(n as int) =~= ks);
        }
        r
    }

    /// The runs to delete: those that are known and gone. None is known until the
    /// snapshot is recorded as carried out.
    pub fn take_runs_to_delete(&mut self, snapshot: &StrMap<RunState>) -> (r: Vec<String>)
        ensures
            r.deep_view() == runs_to_delete(old(self)@, snapshot@),
            final(self)@ == Seq::<Seq<char>>::empty(),
    {
        let present = snapshot.key_list();
        let r = texts_without(&self.known, &present);
        proof {
            let ks = present.deep_view();
            assert forall|id: Seq<char>| ks.contains(id) == snapshot@.contains_key(id) by {
                assert(ks.to_set().contains(id) <==> ks.contains(id));
            }
            assert((|s: Seq<char>| !ks.contains(s)) =~= (|id: Seq<char>|
                !snapshot@.contains_key(id)));
        }
        self.known = Vec::new();
        proof {
            assert(self@ =~= Seq::empty());
        }
        r
    }

    /// Records that a snapshot was carried out.
    pub fn record_known(&mut self, snapshot: &StrMap<RunState>)
        ensures
            final(self)@ == ascending(snapshot@.dom()),
    {
        self.known = snapshot.key_list();
    }
}

/// What the database holds once runs were saved and others deleted.
pub open spec fn stored_after(
    stored: Set<Seq<char>>,
    saved: Seq<Seq<char>>,
    deleted: Seq<Seq<char>>,
) -> Set<Seq<char>> {
    stored.union(saved.to_set()).difference(deleted.to_set())
}

/// A database that holds only known runs holds, after a snapshot was carried out,
/// only runs of that snapshot, and all of them that were created.
pub proof fn law_database_follows_the_runs(
    stored: Set<Seq<char>>,
    known: Seq<Seq<char>>,
    snapshot: Map<Seq<char>, RunStateView>,
    id: Seq<char>,
)
    requires
        snapshot.dom().finite(),
        stored.subset_of(known.to_set()),
    ensures
        ({
            let after = stored_after(
                stored,
                runs_to_save(snapshot),
                runs_to_delete(known, snapshot),
            );
            &&& after.contains(id) ==> ascending(snapshot.dom()).contains(id)
            &&& snapshot.contains_key(id) && created(snapshot[id]) ==> after.contains(id)
        }),
{
    let p = |k: Seq<char>| created(snapshot[k]);
    let q = |k: Seq<char>| !snapshot.contains_key(k);
    lemma_ascending_of_set(snapshot.dom());
    let ks = ascending(snapshot.dom());
    lemma_filter_holds(ks, p, id);
    lemma_filter_holds(known, q, id);
    assert(ks.to_set().contains(id) <==> ks.contains(id));
    assert(known.to_set().contains(id) <==> known.contains(id));
    assert(runs_to_save(snapshot).to_set().contains(id) <==> runs_to_save(snapshot).contains(id));
    assert(known.filter(q).to_set().contains(id) <==> known.filter(q).contains(id));
}

/// A run is saved if it has a network or a container, and only then.
pub proof fn law_runs_with_something_to_show_are_saved(
    snapshot: Map<Seq<char>, RunStateView>,
    id: Seq<char>,
)
    requires
        snapshot.dom().finite(),
        snapshot[id].containers.dom().finite(),
    ensures
        runs_to_save(snapshot).contains(id) <==> snapshot.contains_key(id) && (
        snapshot[id].network.len() > 0 || exists|node: Seq<char>|
            #[trigger] snapshot[id].containers.contains_key(node)),
{
    let p = |k: Seq<char>| created(snapshot[k]);
    let ks = ascending(snapshot.dom());
    let nodes = snapshot[id].containers.dom();
    lemma_ascending_of_set(snapshot.dom());
    lemma_filter_holds(ks, p, id);
    assert(ks.to_set().contains(id) <==> ks.contains(id));
    if nodes.len() > 0 {
        let node = nodes.choose();
        assert(nodes.contains(node));
        assert(snapshot[id].containers.contains_key(node));
    } else {
        assert(nodes =~= Set::empty());
    }
}

/// A run is deleted if it is known and gone, and only then.
pub proof fn law_runs_that_are_gone_are_deleted(
    known: Seq<Seq<char>>,
    snapshot: Map<Seq<char>, RunStateView>,
    id: Seq<char>,
)
    ensures
        runs_to_delete(known, snapshot).contains(id) <==> known.contains(id)
            && !snapshot.contains_key(id),
{
    lemma_filter_holds(known, |k: Seq<char>| !snapshot.contains_key(k), id);
}

} // verus!
