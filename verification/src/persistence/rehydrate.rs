//! Bringing stored runs back in line with the containers that are still there.

use vstd::prelude::*;

use crate::seqs::lemma_filter_holds;
use crate::state::{
    ContainerInfo, ContainerInfoView, ContainerObservedView, RunState, RunStateView,
};
use crate::strmap::{
    ascending, lemma_ascending_of_set, lemma_take_next, lemma_take_next_set, StrMap,
};

verus! {

/// A container with the status that an inspection found.
pub open spec fn with_status(c: ContainerInfoView, status: Seq<char>) -> ContainerInfoView {
    ContainerInfoView {
        observed: ContainerObservedView { status, ..c.observed },
        ..c
    }
}

/// The containers that were found, each with its status.
pub open spec fn surviving(
    containers: Map<Seq<char>, ContainerInfoView>,
    statuses: Map<Seq<char>, Seq<char>>,
) -> Map<Seq<char>, ContainerInfoView> {
    Map::new(
        |id: Seq<char>| containers.contains_key(id) && statuses.contains_key(id),
        |id: Seq<char>| with_status(containers[id], statuses[id]),
    )
}

/// A run with the containers that were found.
pub open spec fn revived(run: RunStateView, statuses: Map<Seq<char>, Seq<char>>) -> RunStateView {
    RunStateView { containers: surviving(run.containers, statuses), ..run }
}

/// A run with the containers that were found. `statuses` gives the status of each
/// node whose container was found.
pub fn revive_run(run: &RunState, statuses: &StrMap<String>) -> (r: RunState)
    ensures
        r@ == revived(run@, statuses@),
{
    let ghost all = run.containers@;
    let ghost ks = run.containers.keys();
    let mut alive: StrMap<ContainerInfo> = StrMap::new();
    let n: usize = run.containers.len();
    let mut i: usize = 0;
    proof {
        assert(alive@ =~= surviving(all, statuses@).restrict(ks.take(0).to_set()));
    }
    while i < n
        invariant
            run.containers@ == all,
            n == all.dom().len(),
            n == ks.len(),
            ks == run.containers.keys(),
            ks.to_set() == all.dom(),
            i <= n,
            alive@ == surviving(all, statuses@).restrict(ks.take(i as int).to_set()),
        decreases n - i,
    {
        let id = run.containers.key_at(i);
        let c = run.containers.value_at(i);
        proof {
            assert(ks.to_set().contains(ks[i as int]));
            lemma_take_next_set(ks, i as int);
        }
        match statuses.get(id.as_str()) {
            Some(status) => {
                let mut kept = c.clone();
                kept.observed.status = status.clone();
                alive.insert(id.clone(), kept);
            },
            None => {},
        }
        proof {
            assert(alive@ =~= surviving(all, statuses@).restrict(ks.take(i + 1).to_set()));
        }
        i += 1;
    }
    let mut r = run.clone();
    r.containers = alive;
    proof {
        assert(ks.take(n as int) =~= ks);
        assert(surviving(all, statuses@).restrict(ks.to_set()) =~= surviving(all, statuses@));
    }
    r
}

/// The statuses of a run's containers; none if the run was not looked at.
pub open spec fn statuses_of(
    statuses: Map<Seq<char>, Map<Seq<char>, Seq<char>>>,
    run_id: Seq<char>,
) -> Map<Seq<char>, Seq<char>> {
    if statuses.contains_key(run_id) {
        statuses[run_id]
    } else {
        Map::empty()
    }
}

/// Whether any container of a run was found.
pub open spec fn lives(
    runs: Map<Seq<char>, RunStateView>,
    statuses: Map<Seq<char>, Map<Seq<char>, Seq<char>>>,
    run_id: Seq<char>,
) -> bool {
    runs.contains_key(run_id) && surviving(
        runs[run_id].containers,
        statuses_of(statuses, run_id),
    ).dom().len() > 0
}

/// The runs of which any container was found.
pub open spec fn rehydrated(
    runs: Map<Seq<char>, RunStateView>,
    statuses: Map<Seq<char>, Map<Seq<char>, Seq<char>>>,
) -> Map<Seq<char>, RunStateView> {
    Map::new(
        |id: Seq<char>| lives(runs, statuses, id),
        |id: Seq<char>| revived(runs[id], statuses_of(statuses, id)),
    )
}

/// What is left of the stored runs, and which of them to delete.
pub struct Rehydrated {
    pub runs: StrMap<RunState>,
    pub delete: Vec<String>,
}

/// What is left of the stored runs: each with those of its containers that were
/// found. A run of which none was found is to be deleted.
pub fn rehydrate(persisted: &StrMap<RunState>, statuses: &StrMap<StrMap<String>>) -> (r: Rehydrated)
    ensures
        r.runs@ == rehydrated(persisted@, statuses@),
        r.delete.deep_view() == ascending(persisted@.dom()).filter(
            |id: Seq<char>| !lives(persisted@, statuses@, id),
        ),
{
    let ghost all = persisted@;
    let ghost ks = persisted.keys();
    let ghost p = |id: Seq<char>| !lives(all, statuses@, id);
    let none: StrMap<String> = StrMap::new();
    let mut runs: StrMap<RunState> = StrMap::new();
    let mut delete: Vec<String> = Vec::new();
    let n: usize = persisted.len();
    let mut i: usize = 0;
    proof {
        assert(delete.deep_view() =~= ks.take(0).filter(p));
        assert(runs@ =~= rehydrated(all, statuses@).restrict(ks.take(0).to_set()));
    }
    while i < n
        invariant
            persisted@ == all,
            n == all.dom().len(),
            n == ks.len(),
            ks == persisted.keys(),
            ks.to_set() == all.dom(),
            none@ == Map::<Seq<char>, Seq<char>>::empty(),
            p == (|id: Seq<char>| !lives(all, statuses@, id)),
            i <= n,
            delete.deep_view() == ks.take(i as int).filter(p),
            runs@ == rehydrated(all, statuses@).restrict(ks.take(i as int).to_set()),
        decreases n - i,
    {
        let id = persisted.key_at(i);
        let run = persisted.value_at(i);
        let found = match statuses.get(id.as_str()) {
            Some(found) => found,
            None => &none,
        };
        let revived_run = revive_run(run, found);
        proof {
            assert(found@ == statuses_of(statuses@, id@));
            assert(ks.to_set().contains(ks[i as int]));
            lemma_take_next(ks, i as int);
            ks.take(i as int).lemma_filter_push(ks[i as int], p);
            lemma_take_next_set(ks, i as int);
        }
        if revived_run.containers.len() == 0 {
            let ghost before = delete.deep_view();
            delete.push(id.clone());
            proof {
                assert(delete.deep_view() =~= before.push(id@));
            }
        } else {
            runs.insert(id.clone(), revived_run);
        }
        proof {
            assert(runs@ =~= rehydrated(all, statuses@).restrict(ks.take(i + 1).to_set()));
        }
        i += 1;
    }
    proof {
        assert(ks.take(n as int) =~= ks);
        assert(rehydrated(all, statuses@).restrict(ks.to_set()) =~= rehydrated(all, statuses@));
    }
    Rehydrated { runs, delete }
}

/// What was desired of a container outlives a restart, whatever was found: only
/// its status changes. No run comes back without containers.
pub proof fn law_desires_survive_a_restart(
    runs: Map<Seq<char>, RunStateView>,
    statuses: Map<Seq<char>, Map<Seq<char>, Seq<char>>>,
    run_id: Seq<char>,
    node_id: Seq<char>,
)
    requires
        rehydrated(runs, statuses).contains_key(run_id),
    ensures
        ({
            let run = rehydrated(runs, statuses)[run_id];
            &&& run.containers.dom().len() > 0
            &&& run.containers.contains_key(node_id) ==> runs[run_id].containers.contains_key(
                node_id,
            ) && run.containers[node_id].desired == runs[run_id].containers[node_id].desired
        }),
{
}

/// Of a stored run exactly the containers come back that were found. Each is as it was
/// stored but for its status, which is the one that was found; the rest of the run stays.
pub proof fn law_found_containers_come_back_as_stored(
    run: RunStateView,
    statuses: Map<Seq<char>, Seq<char>>,
    node_id: Seq<char>,
)
    ensures
        ({
            let after = revived(run, statuses);
            let c = after.containers[node_id];
            let stored = run.containers[node_id];
            &&& after.containers.contains_key(node_id) <==> run.containers.contains_key(node_id)
                && statuses.contains_key(node_id)
            &&& after.containers.contains_key(node_id) ==> {
                &&& c.observed.status == statuses[node_id]
                &&& c.observed.published_port == stored.observed.published_port
                &&& c.observed.ip == stored.observed.ip
                &&& c.observed.ports == stored.observed.ports
                &&& c.observed.sync == stored.observed.sync
                &&& c.node_id == stored.node_id
                &&& c.desired == stored.desired
                &&& c.pending_action == stored.pending_action
            }
            &&& after.run_id == run.run_id
            &&& after.network == run.network
            &&& after.volumes == run.volumes
            &&& after.sidecar_container_name == run.sidecar_container_name
            &&& after.sidecar_ip == run.sidecar_ip
            &&& after.pending_create == run.pending_create
            &&& after.pending_teardown == run.pending_teardown
        }),
{
}

/// A stored run comes back exactly if one of its containers was found, and then as what
/// was found of it; any other is to be deleted.
pub proof fn law_runs_come_back_with_their_containers(
    runs: Map<Seq<char>, RunStateView>,
    statuses: Map<Seq<char>, Map<Seq<char>, Seq<char>>>,
    run_id: Seq<char>,
)
    requires
        runs.dom().finite(),
        runs.contains_key(run_id),
        runs[run_id].containers.dom().finite(),
    ensures
        ({
            let found = exists|n: Seq<char>| #[trigger]
                runs[run_id].containers.contains_key(n) && statuses.contains_key(run_id)
                    && statuses[run_id].contains_key(n);
            let deleted = ascending(runs.dom()).filter(
                |id: Seq<char>| !lives(runs, statuses, id),
            );
            &&& rehydrated(runs, statuses).contains_key(run_id) <==> found
            &&& deleted.contains(run_id) <==> !found
            &&& found ==> rehydrated(runs, statuses)[run_id] == revived(
                runs[run_id],
                statuses[run_id],
            )
        }),
{
    let all = runs[run_id].containers;
    let seen = statuses_of(statuses, run_id);
    let left = surviving(all, seen);
    assert(left.dom().subset_of(all.dom()));
    vstd::set_lib::lemma_set_subset_finite(all.dom(), left.dom());
    let found = exists|n: Seq<char>| #[trigger]
        all.contains_key(n) && statuses.contains_key(run_id) && statuses[run_id].contains_key(n);
    if found {
        let n = choose|n: Seq<char>| #[trigger]
            all.contains_key(n) && statuses.contains_key(run_id) && statuses[run_id].contains_key(
                n,
            );
        assert(left.dom().contains(n));
        if left.dom().len() == 0 {
            assert(left.dom() =~= Set::empty());
        }
    } else {
        assert forall|n: Seq<char>| !left.dom().contains(n) by {
            if left.dom().contains(n) {
                assert(all.contains_key(n));
            }
        }
        assert(left.dom() =~= Set::empty());
    }
    lemma_ascending_of_set(runs.dom());
    let p = |id: Seq<char>| !lives(runs, statuses, id);
    lemma_filter_holds(ascending(runs.dom()), p, run_id);
    assert(ascending(runs.dom()).to_set().contains(run_id));
}

} // verus!
