//! Starts, stops, removes, creates and tears down what was asked for.
//!
//! The effect decides which work begins, and what is reported of it when it ends.
//! Work that is in flight is not begun again.

use vstd::prelude::*;

use crate::action::{Action, ActionRejected};
use crate::effects::Effect;
use crate::reducer::reduced;
use crate::reducer::run::{node_deleted, node_started, node_stopped, planned, run_stopped};
use crate::same::Same;
use crate::seqs::{lemma_filter_holds, lemma_filter_map_holds, lemma_flat_map_holds};
use crate::state::{
    ContainerInfo, ContainerInfoView, PendingAction, RunCreateError, RunSpec, RunSpecView, RunState,
    RunStateView, WorkspaceState, WorkspaceStateView,
};
use crate::strmap::{ascending, lemma_ascending_of_set, lemma_take_next};
use crate::text::{contains_text, same_text, texts_without};

verus! {

/// A container that is to be started, stopped or removed.
#[derive(Debug)]
pub struct PendingEntry {
    pub run_id: String,
    pub node_id: String,
    pub action: PendingAction,
}

/// A container that is to be started, stopped or removed.
pub struct PendingEntryView {
    pub run_id: Seq<char>,
    pub node_id: Seq<char>,
    pub action: PendingAction,
}

impl View for PendingEntry {
    type V = PendingEntryView;

    open spec fn view(&self) -> PendingEntryView {
        PendingEntryView { run_id: self.run_id@, node_id: self.node_id@, action: self.action }
    }
}

impl DeepView for PendingEntry {
    type V = PendingEntryView;

    open spec fn deep_view(&self) -> PendingEntryView {
        self@
    }
}

impl Clone for PendingEntry {
    fn clone(&self) -> (r: Self)
        ensures
            r@ == self@,
    {
        PendingEntry {
            run_id: self.run_id.clone(),
            node_id: self.node_id.clone(),
            action: self.action,
        }
    }
}

impl Same for PendingEntry {
    fn same(&self, other: &Self) -> (r: bool) {
        self.run_id.same(&other.run_id) && self.node_id.same(&other.node_id) && self.action.same(
            &other.action,
        )
    }
}

/// A run that is to be created or topped up.
#[derive(Debug)]
pub struct PendingCreate {
    pub run_id: String,
    pub plan: RunSpec,
}

/// A run that is to be created or topped up.
pub struct PendingCreateView {
    pub run_id: Seq<char>,
    pub plan: RunSpecView,
}

impl View for PendingCreate {
    type V = PendingCreateView;

    open spec fn view(&self) -> PendingCreateView {
        PendingCreateView { run_id: self.run_id@, plan: self.plan@ }
    }
}

impl DeepView for PendingCreate {
    type V = PendingCreateView;

    open spec fn deep_view(&self) -> PendingCreateView {
        self@
    }
}

impl Clone for PendingCreate {
    fn clone(&self) -> (r: Self)
        ensures
            r@ == self@,
    {
        PendingCreate { run_id: self.run_id.clone(), plan: self.plan.clone() }
    }
}

impl Same for PendingCreate {
    fn same(&self, other: &Self) -> (r: bool) {
        self.run_id.same(&other.run_id) && self.plan.same(&other.plan)
    }
}

/// All work that a workspace's state asks for.
#[derive(Debug)]
pub struct ConvergeSnapshot {
    pub pending: Vec<PendingEntry>,
    pub creates: Vec<PendingCreate>,
    pub teardowns: Vec<String>,
}

/// All work that a workspace's state asks for.
pub struct ConvergeSnapshotView {
    pub pending: Seq<PendingEntryView>,
    pub creates: Seq<PendingCreateView>,
    pub teardowns: Seq<Seq<char>>,
}

impl View for ConvergeSnapshot {
    type V = ConvergeSnapshotView;

    open spec fn view(&self) -> ConvergeSnapshotView {
        ConvergeSnapshotView {
            pending: self.pending.deep_view(),
            creates: self.creates.deep_view(),
            teardowns: self.teardowns.deep_view(),
        }
    }
}

impl DeepView for ConvergeSnapshot {
    type V = ConvergeSnapshotView;

    open spec fn deep_view(&self) -> ConvergeSnapshotView {
        self@
    }
}

impl Same for ConvergeSnapshot {
    fn same(&self, other: &Self) -> (r: bool) {
        self.pending.same(&other.pending) && self.creates.same(&other.creates)
            && self.teardowns.same(&other.teardowns)
    }
}

/// The entry of a container, if an action on it is pending.
pub open spec fn pending_entry(run_id: Seq<char>, c: ContainerInfoView) -> Option<PendingEntryView> {
    match c.pending_action {
        Some(action) => Some(PendingEntryView { run_id, node_id: c.node_id, action }),
        None => None,
    }
}

/// The pending entries of a run, in the order of its nodes.
pub open spec fn pending_in_run(run_id: Seq<char>, run: RunStateView) -> Seq<PendingEntryView> {
    ascending(run.containers.dom()).filter_map(
        |node: Seq<char>| pending_entry(run_id, run.containers[node]),
    )
}

/// The pending entries of a workspace, run by run.
pub open spec fn pending_entries(ws: WorkspaceStateView) -> Seq<PendingEntryView> {
    ascending(ws.runs.dom()).flat_map(|run_id: Seq<char>| pending_in_run(run_id, ws.runs[run_id]))
}

fn push_pending(out: &mut Vec<PendingEntry>, run_id: &String, run: &RunState)
    ensures
        final(out).deep_view() == old(out).deep_view() + pending_in_run(run_id@, run@),
{
    let ghost start = out.deep_view();
    let ghost ks = run.containers.keys();
    let ghost f = |node: Seq<char>| pending_entry(run_id@, run@.containers[node]);
    let n: usize = run.containers.len();
    let mut i: usize = 0;
    proof {
        assert(start + ks.take(0).filter_map(f) =~= start);
    }
    while i < n
        invariant
            n == run.containers@.dom().len(),
            n == ks.len(),
            ks == run.containers.keys(),
            f == (|node: Seq<char>| pending_entry(run_id@, run@.containers[node])),
            i <= n,
            out.deep_view() == start + ks.take(i as int).filter_map(f),
        decreases n - i,
    {
        let c = run.containers.value_at(i);
        proof {
            ks.lemma_filter_map_take_succ(f, i as int);
            assert(run@.containers[ks[i as int]] == c@);
        }
        let ghost before = out.deep_view();
        match c.pending_action {
            Some(action) => {
                let entry = PendingEntry {
                    run_id: run_id.clone(),
                    node_id: c.node_id.clone(),
                    action,
                };
                out.push(entry);
                proof {
                    assert(out.deep_view() =~= before.push(entry@));
                    assert(out.deep_view() =~= start + ks.take(i + 1).filter_map(f));
                }
            },
            None => {
                proof {
                    assert(out.deep_view() =~= start + ks.take(i + 1).filter_map(f));
                }
            },
        }
        i += 1;
    }
    proof {
        assert(ks.take(n as int) =~= ks);
    }
}

/// The containers that are to be started, stopped or removed.
pub fn extract_pending(state: &WorkspaceState) -> (r: Vec<PendingEntry>)
    ensures
        r.deep_view() == pending_entries(state@),
{
    let mut out: Vec<PendingEntry> = Vec::new();
    let ghost ks = state.runs.keys();
    let ghost f = |run_id: Seq<char>| pending_in_run(run_id, state@.runs[run_id]);
    let n: usize = state.runs.len();
    let mut i: usize = 0;
    proof {
        assert(out.deep_view() =~= ks.take(0).flat_map(f));
    }
    while i < n
        invariant
            n == state.runs@.dom().len(),
            n == ks.len(),
            ks == state.runs.keys(),
            f == (|run_id: Seq<char>| pending_in_run(run_id, state@.runs[run_id])),
            i <= n,
            out.deep_view() == ks.take(i as int).flat_map(f),
        decreases n - i,
    {
        push_pending(&mut out, state.runs.key_at(i), state.runs.value_at(i));
        proof {
            ks.lemma_flat_map_take_append(f, i as int);
        }
        i += 1;
    }
    proof {
        assert(ks.take(n as int) =~= ks);
    }
    out
}

/// The entry of a run, if its creation is pending.
pub open spec fn pending_create(run_id: Seq<char>, run: RunStateView) -> Option<PendingCreateView> {
    match run.pending_create {
        Some(plan) => Some(PendingCreateView { run_id, plan }),
        None => None,
    }
}

/// The runs of a workspace that are to be created.
pub open spec fn pending_creates(ws: WorkspaceStateView) -> Seq<PendingCreateView> {
    ascending(ws.runs.dom()).filter_map(
        |run_id: Seq<char>| pending_create(run_id, ws.runs[run_id]),
    )
}

/// The runs that are to be created or topped up.
pub fn extract_pending_creates(state: &WorkspaceState) -> (r: Vec<PendingCreate>)
    ensures
        r.deep_view() == pending_creates(state@),
{
    let mut out: Vec<PendingCreate> = Vec::new();
    let ghost ks = state.runs.keys();
    let ghost f = |run_id: Seq<char>| pending_create(run_id, state@.runs[run_id]);
    let n: usize = state.runs.len();
    let mut i: usize = 0;
    proof {
        assert(out.deep_view() =~= ks.take(0).filter_map(f));
    }
    while i < n
        invariant
            n == state.runs@.dom().len(),
            n == ks.len(),
            ks == state.runs.keys(),
            f == (|run_id: Seq<char>| pending_create(run_id, state@.runs[run_id])),
            i <= n,
            out.deep_view() == ks.take(i as int).filter_map(f),
        decreases n - i,
    {
        let run = state.runs.value_at(i);
        proof {
            ks.lemma_filter_map_take_succ(f, i as int);
            assert(state@.runs[ks[i as int]] == run@);
        }
        match &run.pending_create {
            Some(plan) => {
                let ghost before = out.deep_view();
                let entry = PendingCreate {
                    run_id: state.runs.key_at(i).clone(),
                    plan: plan.clone(),
                };
                out.push(entry);
                proof {
                    assert(out.deep_view() =~= before.push(entry@));
                }
            },
            None => {},
        }
        i += 1;
    }
    proof {
        assert(ks.take(n as int) =~= ks);
    }
    out
}

/// The runs of a workspace that are to be torn down.
pub open spec fn pending_teardowns(ws: WorkspaceStateView) -> Seq<Seq<char>> {
    ascending(ws.runs.dom()).filter(|run_id: Seq<char>| ws.runs[run_id].pending_teardown)
}

/// The runs that are to be torn down.
pub fn extract_pending_teardowns(state: &WorkspaceState) -> (r: Vec<String>)
    ensures
        r.deep_view() == pending_teardowns(state@),
{
    let mut out: Vec<String> = Vec::new();
    let ghost ks = state.runs.keys();
    let ghost p = |run_id: Seq<char>| state@.runs[run_id].pending_teardown;
    let n: usize = state.runs.len();
    let mut i: usize = 0;
    proof {
        assert(out.deep_view() =~= ks.take(0).filter(p));
    }
    while i < n
        invariant
            n == state.runs@.dom().len(),
            n == ks.len(),
            ks == state.runs.keys(),
            p == (|run_id: Seq<char>| state@.runs[run_id].pending_teardown),
            i <= n,
            out.deep_view() == ks.take(i as int).filter(p),
        decreases n - i,
    {
        let run = state.runs.value_at(i);
        proof {
            lemma_take_next(ks, i as int);
            ks.take(i as int).lemma_filter_push(ks[i as int], p);
            assert(state@.runs[ks[i as int]] == run@);
        }
        if run.pending_teardown {
            let ghost before = out.deep_view();
            out.push(state.runs.key_at(i).clone());
            proof {
                assert(out.deep_view() =~= before.push(ks[i as int]));
            }
        }
        i += 1;
    }
    proof {
        assert(ks.take(n as int) =~= ks);
    }
    out
}

/// A list without its later repetitions.
pub open spec fn distinct<A>(s: Seq<A>) -> Seq<A>
    decreases s.len(),
{
    if s.len() == 0 {
        s
    } else {
        let before = distinct(s.drop_last());
        if before.contains(s.last()) {
            before
        } else {
            before.push(s.last())
        }
    }
}

/// By which an entry is known while it is in flight.
pub open spec fn entry_key(e: PendingEntryView) -> (Seq<char>, Seq<char>) {
    (e.run_id, e.node_id)
}

/// The keys of entries.
pub open spec fn entry_keys(es: Seq<PendingEntryView>) -> Seq<(Seq<char>, Seq<char>)> {
    es.map_values(|e: PendingEntryView| entry_key(e))
}

/// The entries that are not in flight.
pub open spec fn fresh_entries(
    in_flight: Seq<(Seq<char>, Seq<char>)>,
    es: Seq<PendingEntryView>,
) -> Seq<PendingEntryView> {
    es.filter(|e: PendingEntryView| !in_flight.contains(entry_key(e)))
}

fn contains_key(v: &Vec<(String, String)>, run_id: &str, node_id: &str) -> (r: bool)
    ensures
        r == v.deep_view().contains((run_id@, node_id@)),
{
    let ghost keys = v.deep_view();
    let mut i: usize = 0;
    while i < v.len()
        invariant
            i <= v@.len(),
            keys == v.deep_view(),
            forall|j: int| 0 <= j < i ==> #[trigger] keys[j] != (run_id@, node_id@),
        decreases v@.len() - i,
    {
        if same_text(v[i].0.as_str(), run_id) && same_text(v[i].1.as_str(), node_id) {
            proof {
                assert(keys[i as int] == (run_id@, node_id@));
            }
            return true;
        }
        i += 1;
    }
    false
}

/// Which entries begin, and which are in flight from then on: a snapshot holds
/// all that is pending, so what it does not hold has settled.
pub fn plan(in_flight: &Vec<(String, String)>, snapshot: &Vec<PendingEntry>) -> (r: (
    Vec<PendingEntry>,
    Vec<(String, String)>,
))
    ensures
        r.0.deep_view() == fresh_entries(in_flight.deep_view(), snapshot.deep_view()),
        r.1.deep_view() == distinct(entry_keys(snapshot.deep_view())),
{
    let ghost known = in_flight.deep_view();
    let ghost es = snapshot.deep_view();
    let ghost p = |e: PendingEntryView| !known.contains(entry_key(e));
    let mut to_spawn: Vec<PendingEntry> = Vec::new();
    let mut still: Vec<(String, String)> = Vec::new();
    let mut i: usize = 0;
    proof {
        assert(to_spawn.deep_view() =~= es.take(0).filter(p));
        assert(entry_keys(es.take(0)) =~= Seq::empty());
        assert(still.deep_view() =~= distinct(entry_keys(es.take(0))));
    }
    while i < snapshot.len()
        invariant
            i <= snapshot@.len(),
            known == in_flight.deep_view(),
            es == snapshot.deep_view(),
            p == (|e: PendingEntryView| !known.contains(entry_key(e))),
            to_spawn.deep_view() == es.take(i as int).filter(p),
            still.deep_view() == distinct(entry_keys(es.take(i as int))),
        decreases snapshot@.len() - i,
    {
        let entry = &snapshot[i];
        proof {
            assert(es[i as int] == entry@);
            lemma_take_next(es, i as int);
            es.take(i as int).lemma_filter_push(es[i as int], p);
            assert(entry_keys(es.take(i + 1)).drop_last() =~= entry_keys(es.take(i as int)));
            assert(entry_keys(es.take(i + 1)).last() == entry_key(entry@));
        }
        if !contains_key(in_flight, entry.run_id.as_str(), entry.node_id.as_str()) {
            let ghost before = to_spawn.deep_view();
            to_spawn.push(entry.clone());
            proof {
                assert(to_spawn.deep_view() =~= before.push(entry@));
            }
        }
        if !contains_key(&still, entry.run_id.as_str(), entry.node_id.as_str()) {
            let ghost before = still.deep_view();
            still.push((entry.run_id.clone(), entry.node_id.clone()));
            proof {
                assert(still.deep_view() =~= before.push(entry_key(entry@)));
            }
        }
        i += 1;
    }
    proof {
        assert(es.take(es.len() as int) =~= es);
        assert(p =~= (|e: PendingEntryView| !in_flight.deep_view().contains(entry_key(e))));
    }
    (to_spawn, still)
}

/// The runs of creations.
pub open spec fn create_keys(es: Seq<PendingCreateView>) -> Seq<Seq<char>> {
    es.map_values(|e: PendingCreateView| e.run_id)
}

/// The creations that are not in flight.
pub open spec fn fresh_creates(in_flight: Seq<Seq<char>>, es: Seq<PendingCreateView>) -> Seq<
    PendingCreateView,
> {
    es.filter(|e: PendingCreateView| !in_flight.contains(e.run_id))
}

/// Which creations begin, and which are in flight from then on.
pub fn plan_creates(in_flight: &Vec<String>, snapshot: &Vec<PendingCreate>) -> (r: (
    Vec<PendingCreate>,
    Vec<String>,
))
    ensures
        r.0.deep_view() == fresh_creates(in_flight.deep_view(), snapshot.deep_view()),
        r.1.deep_view() == distinct(create_keys(snapshot.deep_view())),
{
    let ghost known = in_flight.deep_view();
    let ghost es = snapshot.deep_view();
    let ghost p = |e: PendingCreateView| !known.contains(e.run_id);
    let mut to_spawn: Vec<PendingCreate> = Vec::new();
    let mut still: Vec<String> = Vec::new();
    let mut i: usize = 0;
    proof {
        assert(to_spawn.deep_view() =~= es.take(0).filter(p));
        assert(create_keys(es.take(0)) =~= Seq::empty());
        assert(still.deep_view() =~= distinct(create_keys(es.take(0))));
    }
    while i < snapshot.len()
        invariant
            i <= snapshot@.len(),
            known == in_flight.deep_view(),
            es == snapshot.deep_view(),
            p == (|e: PendingCreateView| !known.contains(e.run_id)),
            to_spawn.deep_view() == es.take(i as int).filter(p),
            still.deep_view() == distinct(create_keys(es.take(i as int))),
        decreases snapshot@.len() - i,
    {
        let entry = &snapshot[i];
        proof {
            assert(es[i as int] == entry@);
            lemma_take_next(es, i as int);
            es.take(i as int).lemma_filter_push(es[i as int], p);
            assert(create_keys(es.take(i + 1)).drop_last() =~= create_keys(es.take(i as int)));
            assert(create_keys(es.take(i + 1)).last() == entry@.run_id);
        }
        if !contains_text(in_flight, entry.run_id.as_str()) {
            let ghost before = to_spawn.deep_view();
            to_spawn.push(entry.clone());
            proof {
                assert(to_spawn.deep_view() =~= before.push(entry@));
            }
        }
        push_distinct(&mut still, &entry.run_id);
        i += 1;
    }
    proof {
        assert(es.take(es.len() as int) =~= es);
        assert(p =~= (|e: PendingCreateView| !in_flight.deep_view().contains(e.run_id)));
    }
    (to_spawn, still)
}

fn push_distinct(v: &mut Vec<String>, s: &String)
    ensures
        final(v).deep_view() == (if old(v).deep_view().contains(s@) {
            old(v).deep_view()
        } else {
            old(v).deep_view().push(s@)
        }),
{
    let ghost before = v.deep_view();
    if !contains_text(v, s.as_str()) {
        v.push(s.clone());
        proof {
            assert(v.deep_view() =~= before.push(s@));
        }
    }
}

/// Which teardowns begin, and which are in flight from then on.
pub fn plan_teardowns(in_flight: &Vec<String>, snapshot: &Vec<String>) -> (r: (
    Vec<String>,
    Vec<String>,
))
    ensures
        r.0.deep_view() == snapshot.deep_view().filter(
            |id: Seq<char>| !in_flight.deep_view().contains(id),
        ),
        r.1.deep_view() == distinct(snapshot.deep_view()),
{
    let ghost ids = snapshot.deep_view();
    let mut still: Vec<String> = Vec::new();
    let mut i: usize = 0;
    proof {
        assert(still.deep_view() =~= distinct(ids.take(0)));
    }
    while i < snapshot.len()
        invariant
            i <= snapshot@.len(),
            ids == snapshot.deep_view(),
            still.deep_view() == distinct(ids.take(i as int)),
        decreases snapshot@.len() - i,
    {
        push_distinct(&mut still, &snapshot[i]);
        proof {
            assert(ids.take(i + 1).drop_last() =~= ids.take(i as int));
            assert(ids.take(i + 1).last() == ids[i as int]);
        }
        i += 1;
    }
    proof {
        assert(ids.take(ids.len() as int) =~= ids);
    }
    (texts_without(snapshot, in_flight), still)
}

/// The work on the containers of one workspace.
pub struct DockerConvergeEffect {
    in_flight: Vec<(String, String)>,
    creates_in_flight: Vec<String>,
    teardowns_in_flight: Vec<String>,
}

/// What is in flight in one workspace.
pub struct InFlightView {
    pub nodes: Seq<(Seq<char>, Seq<char>)>,
    pub creates: Seq<Seq<char>>,
    pub teardowns: Seq<Seq<char>>,
}

impl View for DockerConvergeEffect {
    type V = InFlightView;

    closed spec fn view(&self) -> InFlightView {
        InFlightView {
            nodes: self.in_flight.deep_view(),
            creates: self.creates_in_flight.deep_view(),
            teardowns: self.teardowns_in_flight.deep_view(),
        }
    }
}

impl Effect for DockerConvergeEffect {
    type Snapshot = ConvergeSnapshot;

    open spec fn depends_on(&self, state: WorkspaceStateView) -> ConvergeSnapshotView {
        wanted_work(state)
    }

    fn extract(&self, state: &WorkspaceState) -> (r: ConvergeSnapshot) {
        ConvergeSnapshot {
            pending: extract_pending(state),
            creates: extract_pending_creates(state),
            teardowns: extract_pending_teardowns(state),
        }
    }
}

/// All work that a state asks for.
pub open spec fn wanted_work(state: WorkspaceStateView) -> ConvergeSnapshotView {
    ConvergeSnapshotView {
        pending: pending_entries(state),
        creates: pending_creates(state),
        teardowns: pending_teardowns(state),
    }
}

/// The work of a snapshot that is not in flight.
pub open spec fn fresh_work(f: InFlightView, s: ConvergeSnapshotView) -> ConvergeSnapshotView {
    ConvergeSnapshotView {
        pending: fresh_entries(f.nodes, s.pending),
        creates: fresh_creates(f.creates, s.creates),
        teardowns: s.teardowns.filter(|id: Seq<char>| !f.teardowns.contains(id)),
    }
}

/// What is in flight once a snapshot's work has begun.
pub open spec fn in_flight_after(s: ConvergeSnapshotView) -> InFlightView {
    InFlightView {
        nodes: distinct(entry_keys(s.pending)),
        creates: distinct(create_keys(s.creates)),
        teardowns: distinct(s.teardowns),
    }
}

impl DockerConvergeEffect {
    /// An effect with nothing in flight.
    pub fn new() -> (r: Self)
        ensures
            r@.nodes.len() == 0,
            r@.creates.len() == 0,
            r@.teardowns.len() == 0,
    {
        DockerConvergeEffect {
            in_flight: Vec::new(),
            creates_in_flight: Vec::new(),
            teardowns_in_flight: Vec::new(),
        }
    }

    /// The work that begins now.
    pub fn converge(&mut self, snapshot: &ConvergeSnapshot) -> (r: ConvergeSnapshot)
        ensures
            r@ == fresh_work(old(self)@, snapshot@),
            final(self)@ == in_flight_after(snapshot@),
    {
        let (pending, in_flight) = plan(&self.in_flight, &snapshot.pending);
        let (creates, creating) = plan_creates(&self.creates_in_flight, &snapshot.creates);
        let (teardowns, tearing_down) = plan_teardowns(
            &self.teardowns_in_flight,
            &snapshot.teardowns,
        );
        self.in_flight = in_flight;
        self.creates_in_flight = creating;
        self.teardowns_in_flight = tearing_down;
        ConvergeSnapshot { pending, creates, teardowns }
    }
}

/// A list without repetitions holds what the list holds, each once.
pub proof fn lemma_distinct<A>(s: Seq<A>)
    ensures
        distinct(s).no_duplicates(),
        forall|x: A| distinct(s).contains(x) <==> s.contains(x),
    decreases s.len(),
{
    if s.len() > 0 {
        let before = distinct(s.drop_last());
        lemma_distinct(s.drop_last());
        assert forall|x: A| distinct(s).contains(x) <==> s.contains(x) by {
            if s.contains(x) {
                let i = choose|i: int| 0 <= i < s.len() && s[i] == x;
                if i < s.len() - 1 {
                    assert(s.drop_last()[i] == x);
                }
            }
            if s.drop_last().contains(x) {
                let i = choose|i: int| 0 <= i < s.len() - 1 && s.drop_last()[i] == x;
                assert(s[i] == x);
            }
            assert(s[s.len() - 1] == s.last());
            if !before.contains(s.last()) {
                let longer = before.push(s.last());
                if before.contains(x) {
                    let i = choose|i: int| 0 <= i < before.len() && before[i] == x;
                    assert(longer[i] == x);
                }
                assert(longer[before.len() as int] == s.last());
                if longer.contains(x) {
                    let i = choose|i: int| 0 <= i < longer.len() && longer[i] == x;
                    if i < before.len() {
                        assert(before[i] == x);
                    }
                }
            }
        }
    }
}

/// Work that has begun is not begun again while it is still asked for.
pub proof fn law_work_in_flight_is_not_begun_again(s: ConvergeSnapshotView)
    ensures
        fresh_work(in_flight_after(s), s).pending.len() == 0,
        fresh_work(in_flight_after(s), s).creates.len() == 0,
        fresh_work(in_flight_after(s), s).teardowns.len() == 0,
{
    let f = in_flight_after(s);
    let again = fresh_work(f, s);
    lemma_distinct(entry_keys(s.pending));
    lemma_distinct(create_keys(s.creates));
    lemma_distinct(s.teardowns);
    if again.pending.len() > 0 {
        let e = again.pending[0];
        lemma_filter_holds(s.pending, |e: PendingEntryView| !f.nodes.contains(entry_key(e)), e);
        assert(again.pending.contains(e));
        let i = choose|i: int| 0 <= i < s.pending.len() && s.pending[i] == e;
        assert(entry_keys(s.pending)[i] == entry_key(e));
        assert(entry_keys(s.pending).contains(entry_key(e)));
        assert(f.nodes.contains(entry_key(e)));
    }
    if again.creates.len() > 0 {
        let e = again.creates[0];
        lemma_filter_holds(s.creates, |e: PendingCreateView| !f.creates.contains(e.run_id), e);
        assert(again.creates.contains(e));
        let i = choose|i: int| 0 <= i < s.creates.len() && s.creates[i] == e;
        assert(create_keys(s.creates)[i] == e.run_id);
        assert(create_keys(s.creates).contains(e.run_id));
        assert(f.creates.contains(e.run_id));
    }
    if again.teardowns.len() > 0 {
        let id = again.teardowns[0];
        lemma_filter_holds(s.teardowns, |id: Seq<char>| !f.teardowns.contains(id), id);
        assert(again.teardowns.contains(id));
    }
}

/// Work that is no longer asked for is no longer in flight, so that it begins
/// when it is asked for again.
pub proof fn law_settled_work_can_begin_again(
    before: ConvergeSnapshotView,
    next: ConvergeSnapshotView,
    e: PendingEntryView,
)
    requires
        !entry_keys(before.pending).contains(entry_key(e)),
        next.pending.contains(e),
    ensures
        fresh_work(in_flight_after(before), next).pending.contains(e),
{
    let f = in_flight_after(before);
    lemma_distinct(entry_keys(before.pending));
    lemma_filter_holds(next.pending, |e: PendingEntryView| !f.nodes.contains(entry_key(e)), e);
}

/// What an accepted request makes of a state.
pub open spec fn after_request(
    s: WorkspaceStateView,
    run_id: Seq<char>,
    node_id: Seq<char>,
    action: PendingAction,
) -> Result<WorkspaceStateView, ActionRejected> {
    match action {
        PendingAction::Starting => node_started(s, run_id, node_id),
        PendingAction::Stopping => node_stopped(s, run_id, node_id),
        PendingAction::Removing => node_deleted(s, run_id, node_id),
    }
}

/// What is accepted for a node is work from then on. A container stands under the
/// id of its node.
pub proof fn law_accepted_requests_become_work(
    s: WorkspaceStateView,
    run_id: Seq<char>,
    node_id: Seq<char>,
    action: PendingAction,
)
    requires
        s.runs.dom().finite(),
        s.runs[run_id].containers.dom().finite(),
        s.runs[run_id].containers.contains_key(node_id)
            ==> s.runs[run_id].containers[node_id].node_id == node_id,
    ensures
        after_request(s, run_id, node_id, action) matches Ok(next) ==> pending_entries(
            next,
        ).contains(PendingEntryView { run_id, node_id, action }),
{
    if let Ok(next) = after_request(s, run_id, node_id, action) {
        let e = PendingEntryView { run_id, node_id, action };
        let run = next.runs[run_id];
        let nodes = ascending(run.containers.dom());
        let g = |node: Seq<char>| pending_entry(run_id, run.containers[node]);
        lemma_ascending_of_set(run.containers.dom());
        assert(nodes.to_set().contains(node_id));
        let i = choose|i: int| 0 <= i < nodes.len() && nodes[i] == node_id;
        assert(g(nodes[i]) == Some(e));
        lemma_filter_map_holds(nodes, g, i);
        assert(pending_in_run(run_id, run).contains(e));
        let ids = ascending(next.runs.dom());
        let f = |id: Seq<char>| pending_in_run(id, next.runs[id]);
        lemma_ascending_of_set(next.runs.dom());
        assert(ids.to_set().contains(run_id));
        let k = choose|k: int| 0 <= k < ids.len() && ids[k] == run_id;
        assert(f(ids[k]).contains(e));
        lemma_flat_map_holds(ids, f, e);
    }
}

/// A run that is planned is to be created from then on, one that is stopped is to
/// be torn down.
pub proof fn law_accepted_runs_become_work(
    s: WorkspaceStateView,
    run_id: Seq<char>,
    plan: RunSpecView,
)
    requires
        s.runs.dom().finite(),
    ensures
        planned(s, run_id, plan) matches Ok(next) ==> pending_creates(next).contains(
            PendingCreateView { run_id, plan },
        ),
        run_stopped(s, run_id) matches Ok(next) ==> pending_teardowns(next).contains(run_id),
{
    if let Ok(next) = planned(s, run_id, plan) {
        let ids = ascending(next.runs.dom());
        let f = |id: Seq<char>| pending_create(id, next.runs[id]);
        lemma_ascending_of_set(next.runs.dom());
        assert(ids.to_set().contains(run_id));
        let k = choose|k: int| 0 <= k < ids.len() && ids[k] == run_id;
        assert(f(ids[k]) == Some(PendingCreateView { run_id, plan }));
        lemma_filter_map_holds(ids, f, k);
    }
    if let Ok(next) = run_stopped(s, run_id) {
        let ids = ascending(next.runs.dom());
        lemma_ascending_of_set(next.runs.dom());
        assert(ids.to_set().contains(run_id));
        lemma_filter_holds(ids, |id: Seq<char>| next.runs[id].pending_teardown, run_id);
    }
}

/// What a pending entry amounts to.
pub enum Job {
    /// Starts the node afresh, in the run's network.
    Start { network: String, sidecar_ip: Option<String> },
    /// Stops the container.
    Stop(ContainerInfo),
    /// Stops and removes the container.
    Remove(ContainerInfo),
}

/// What a pending entry amounts to.
pub enum JobView {
    Start { network: Seq<char>, sidecar_ip: Option<Seq<char>> },
    Stop(ContainerInfoView),
    Remove(ContainerInfoView),
}

impl View for Job {
    type V = JobView;

    open spec fn view(&self) -> JobView {
        match self {
            Job::Start { network, sidecar_ip } => JobView::Start {
                network: network@,
                sidecar_ip: sidecar_ip.deep_view(),
            },
            Job::Stop(c) => JobView::Stop(c@),
            Job::Remove(c) => JobView::Remove(c@),
        }
    }
}

/// That an entry's run is not there.
pub open spec fn no_such_run(run_id: Seq<char>) -> Seq<char> {
    "no such run: "@ + run_id
}

/// That an entry's container is not there.
pub open spec fn no_such_node(run_id: Seq<char>, node_id: Seq<char>) -> Seq<char> {
    "no such node in run "@ + run_id + ": "@ + node_id
}

/// What a pending entry amounts to, given its run as it is now.
pub open spec fn job_of(entry: PendingEntryView, run: Option<RunStateView>) -> Result<
    JobView,
    Seq<char>,
> {
    match run {
        None => Err(no_such_run(entry.run_id)),
        Some(run) => {
            let there = run.containers.contains_key(entry.node_id);
            let info = run.containers[entry.node_id];
            match entry.action {
                PendingAction::Starting => Ok(
                    JobView::Start { network: run.network, sidecar_ip: run.sidecar_ip },
                ),
                PendingAction::Stopping => if there {
                    Ok(JobView::Stop(info))
                } else {
                    Err(no_such_node(entry.run_id, entry.node_id))
                },
                PendingAction::Removing => if there {
                    Ok(JobView::Remove(info))
                } else {
                    Err(no_such_node(entry.run_id, entry.node_id))
                },
            }
        },
    }
}

/// What a pending entry amounts to, given its run as it is now.
pub fn job_for(entry: &PendingEntry, run: Option<&RunState>) -> (r: Result<Job, String>)
    ensures
        ({
            let now = match run {
                Some(run) => Some(run@),
                None => None,
            };
            match r {
                Ok(job) => job_of(entry@, now) == Ok::<JobView, Seq<char>>(job@),
                Err(e) => job_of(entry@, now) == Err::<JobView, Seq<char>>(e@),
            }
        }),
{
    let run = match run {
        None => {
            let mut e = "no such run: ".to_owned();
            e.append(entry.run_id.as_str());
            return Err(e);
        },
        Some(run) => run,
    };
    match entry.action {
        PendingAction::Starting => Ok(
            Job::Start { network: run.network.clone(), sidecar_ip: run.sidecar_ip.clone() },
        ),
        PendingAction::Stopping => match run.containers.get(entry.node_id.as_str()) {
            Some(c) => Ok(Job::Stop(c.clone())),
            None => Err(missing_node(entry)),
        },
        PendingAction::Removing => match run.containers.get(entry.node_id.as_str()) {
            Some(c) => Ok(Job::Remove(c.clone())),
            None => Err(missing_node(entry)),
        },
    }
}

fn missing_node(entry: &PendingEntry) -> (r: String)
    ensures
        r@ == no_such_node(entry.run_id@, entry.node_id@),
{
    let mut e = "no such node in run ".to_owned();
    e.append(entry.run_id.as_str());
    e.append(": ");
    e.append(entry.node_id.as_str());
    e
}

/// How a pending creation is carried out.
pub enum CreateJob {
    /// A named run starts afresh.
    Start(RunSpec),
    /// The default environment is topped up, for the given flow or for all.
    EnsureRunning(Option<String>),
}

/// Whether a plan is carried out like that.
pub open spec fn creates(job: CreateJob, plan: RunSpecView) -> bool {
    match job {
        CreateJob::Start(p) => plan.run_id is Some && p@ == plan,
        CreateJob::EnsureRunning(flow) => plan.run_id is None && flow.deep_view() == plan.flow,
    }
}

/// How a pending creation is carried out: whether the request named a run decides.
pub fn create_job(entry: &PendingCreate) -> (r: CreateJob)
    ensures
        creates(r, entry@.plan),
{
    match &entry.plan.run_id {
        Some(_) => CreateJob::Start(entry.plan.clone()),
        None => CreateJob::EnsureRunning(entry.plan.flow.clone()),
    }
}

/// What is reported of work on a container that ended without a result.
pub const LOST_ACTION: &'static str =
    "action task ended without reporting a result (likely a panic or cancellation)";

/// What is reported of a creation that ended without a result.
pub const LOST_CREATE: &'static str =
    "run creation task ended without reporting a result (likely a panic or cancellation)";

/// What is reported of a teardown that ended without a result.
pub const LOST_TEARDOWN: &'static str =
    "teardown task ended without reporting a result (likely a panic or cancellation)";

/// Whether an action reports how work on a container ended.
pub open spec fn settles_action(
    a: Action,
    run_id: Seq<char>,
    node_id: Seq<char>,
    outcome: Option<Result<Option<ContainerInfo>, String>>,
) -> bool {
    match a {
        Action::ContainerActionSettled { run_id: run, node_id: node, result } => {
            &&& run@ == run_id
            &&& node@ == node_id
            &&& match outcome {
                Some(o) => result == o,
                None => result matches Err(e) && e@ == LOST_ACTION@,
            }
        },
        _ => false,
    }
}

/// The report of work on a container. Work that ended without a result is
/// reported as failed, so that the container does not stay busy.
pub fn settled_action(
    run_id: String,
    node_id: String,
    outcome: Option<Result<Option<ContainerInfo>, String>>,
) -> (r: Action)
    ensures
        settles_action(r, run_id@, node_id@, outcome),
{
    let result = match outcome {
        Some(o) => o,
        None => Err(LOST_ACTION.to_owned()),
    };
    Action::ContainerActionSettled { run_id, node_id, result }
}

/// Whether an action reports how a creation ended.
pub open spec fn settles_create(
    a: Action,
    run_id: Seq<char>,
    outcome: Option<Result<RunState, RunCreateError>>,
) -> bool {
    match a {
        Action::RunCreateSettled { run_id: run, result } => {
            &&& run@ == run_id
            &&& match outcome {
                Some(o) => result == o,
                None => result matches Err(e) && e.message@ == LOST_CREATE@ && e.partial is None,
            }
        },
        _ => false,
    }
}

/// The report of a creation.
pub fn settled_create(run_id: String, outcome: Option<Result<RunState, RunCreateError>>) -> (r:
    Action)
    ensures
        settles_create(r, run_id@, outcome),
{
    let result = match outcome {
        Some(o) => o,
        None => Err(RunCreateError { message: LOST_CREATE.to_owned(), partial: None }),
    };
    Action::RunCreateSettled { run_id, result }
}

/// Whether an action reports how a teardown ended.
pub open spec fn settles_teardown(
    a: Action,
    run_id: Seq<char>,
    outcome: Option<Result<(), String>>,
) -> bool {
    match a {
        Action::RunTeardownSettled { run_id: run, result } => {
            &&& run@ == run_id
            &&& match outcome {
                Some(o) => result == o,
                None => result matches Err(e) && e@ == LOST_TEARDOWN@,
            }
        },
        _ => false,
    }
}

/// The report of a teardown.
pub fn settled_teardown(run_id: String, outcome: Option<Result<(), String>>) -> (r: Action)
    ensures
        settles_teardown(r, run_id@, outcome),
{
    let result = match outcome {
        Some(o) => o,
        None => Err(LOST_TEARDOWN.to_owned()),
    };
    Action::RunTeardownSettled { run_id, result }
}

/// Whether there is anything to tear down: a run that the state has forgotten is
/// reported as torn down.
pub fn teardown_target<'a>(state: &'a WorkspaceState, run_id: &str) -> (r: Option<&'a RunState>)
    ensures
        match r {
            Some(run) => state@.runs.contains_key(run_id@) && run@ == state@.runs[run_id@],
            None => !state@.runs.contains_key(run_id@),
        },
{
    state.runs.get(run_id)
}

/// Whether a container of a node has an action pending.
pub open spec fn has_pending(
    containers: Map<Seq<char>, ContainerInfoView>,
    node_id: Seq<char>,
    action: PendingAction,
) -> bool {
    exists|node: Seq<char>| #[trigger]
        containers.contains_key(node) && containers[node].node_id == node_id
            && containers[node].pending_action == Some(action)
}

/// What is to be done is what is pending, no more and no less: an action for each
/// container that has one, a creation for each run that is being created, a
/// teardown for each that is being torn down.
pub proof fn law_work_is_what_is_pending(
    ws: WorkspaceStateView,
    e: PendingEntryView,
    c: PendingCreateView,
    run_id: Seq<char>,
)
    requires
        ws.runs.dom().finite(),
        forall|id: Seq<char>| #[trigger]
            ws.runs.contains_key(id) ==> ws.runs[id].containers.dom().finite(),
    ensures
        wanted_work(ws).pending.contains(e) <==> ws.runs.contains_key(e.run_id) && has_pending(
            ws.runs[e.run_id].containers,
            e.node_id,
            e.action,
        ),
        wanted_work(ws).creates.contains(c) <==> ws.runs.contains_key(c.run_id)
            && ws.runs[c.run_id].pending_create == Some(c.plan),
        wanted_work(ws).teardowns.contains(run_id) <==> ws.runs.contains_key(run_id)
            && ws.runs[run_id].pending_teardown,
{
    let ids = ascending(ws.runs.dom());
    lemma_ascending_of_set(ws.runs.dom());
    assert forall|id: Seq<char>| #[trigger] ids.contains(id) <==> ws.runs.contains_key(id) by {
        assert(ids.to_set().contains(id) <==> ids.contains(id));
    }
    let f = |id: Seq<char>| pending_in_run(id, ws.runs[id]);
    lemma_flat_map_holds(ids, f, e);
    assert forall|id: Seq<char>| ws.runs.contains_key(id) implies (#[trigger] pending_in_run(
        id,
        ws.runs[id],
    ).contains(e) <==> e.run_id == id && has_pending(ws.runs[id].containers, e.node_id, e.action)) by {
        let containers = ws.runs[id].containers;
        let nodes = ascending(containers.dom());
        let g = |node: Seq<char>| pending_entry(id, containers[node]);
        lemma_ascending_of_set(containers.dom());
        if nodes.filter_map(g).contains(e) {
            nodes.lemma_filter_map_contains(g, e);
            let node = choose|node: Seq<char>| #[trigger] nodes.contains(node) && g(node) == Some(e);
            assert(nodes.to_set().contains(node));
            assert(containers.contains_key(node));
        }
        if e.run_id == id && has_pending(containers, e.node_id, e.action) {
            let node = choose|node: Seq<char>| #[trigger]
                containers.contains_key(node) && containers[node].node_id == e.node_id
                    && containers[node].pending_action == Some(e.action);
            assert(nodes.to_set().contains(node));
            let i = choose|i: int| 0 <= i < nodes.len() && nodes[i] == node;
            lemma_filter_map_holds(nodes, g, i);
        }
    }
    if wanted_work(ws).pending.contains(e) {
        let i = choose|i: int| 0 <= i < ids.len() && #[trigger] f(ids[i]).contains(e);
        assert(ids.contains(ids[i]));
        assert(pending_in_run(ids[i], ws.runs[ids[i]]).contains(e));
    }
    if ws.runs.contains_key(e.run_id) && pending_in_run(
        e.run_id,
        ws.runs[e.run_id],
    ).contains(e) {
        assert(ids.contains(e.run_id));
        let i = choose|i: int| 0 <= i < ids.len() && ids[i] == e.run_id;
        assert(f(ids[i]).contains(e));
    }
    let h = |id: Seq<char>| pending_create(id, ws.runs[id]);
    if ids.filter_map(h).contains(c) {
        ids.lemma_filter_map_contains(h, c);
        let id = choose|id: Seq<char>| #[trigger] ids.contains(id) && h(id) == Some(c);
        assert(id == c.run_id);
    }
    if ws.runs.contains_key(c.run_id) && ws.runs[c.run_id].pending_create == Some(c.plan) {
        assert(ids.contains(c.run_id));
        let i = choose|i: int| 0 <= i < ids.len() && ids[i] == c.run_id;
        lemma_filter_map_holds(ids, h, i);
    }
    let q = |id: Seq<char>| ws.runs[id].pending_teardown;
    lemma_filter_holds(ids, q, run_id);
}

/// Of what is to be done, all that is not in flight is begun, and nothing else;
/// then exactly what is to be done is in flight.
pub proof fn law_only_new_work_begins(
    f: InFlightView,
    s: ConvergeSnapshotView,
    e: PendingEntryView,
    c: PendingCreateView,
    run_id: Seq<char>,
    node_id: Seq<char>,
)
    ensures
        fresh_work(f, s).pending.contains(e) <==> s.pending.contains(e) && !f.nodes.contains(
            (e.run_id, e.node_id),
        ),
        fresh_work(f, s).creates.contains(c) <==> s.creates.contains(c) && !f.creates.contains(
            c.run_id,
        ),
        fresh_work(f, s).teardowns.contains(run_id) <==> s.teardowns.contains(run_id)
            && !f.teardowns.contains(run_id),
        in_flight_after(s).nodes.contains((run_id, node_id)) <==> exists|i: int|
            0 <= i < s.pending.len() && (#[trigger] s.pending[i]).run_id == run_id
                && s.pending[i].node_id == node_id,
        in_flight_after(s).creates.contains(run_id) <==> exists|i: int|
            0 <= i < s.creates.len() && (#[trigger] s.creates[i]).run_id == run_id,
        in_flight_after(s).teardowns.contains(run_id) <==> s.teardowns.contains(run_id),
{
    lemma_filter_holds(
        s.pending,
        |x: PendingEntryView| !f.nodes.contains(entry_key(x)),
        e,
    );
    lemma_filter_holds(s.creates, |x: PendingCreateView| !f.creates.contains(x.run_id), c);
    lemma_filter_holds(s.teardowns, |id: Seq<char>| !f.teardowns.contains(id), run_id);
    let nodes = entry_keys(s.pending);
    let creates = create_keys(s.creates);
    lemma_distinct(nodes);
    lemma_distinct(creates);
    lemma_distinct(s.teardowns);
    let key = (run_id, node_id);
    if nodes.contains(key) {
        let i = choose|i: int| 0 <= i < nodes.len() && nodes[i] == key;
        assert(s.pending[i].run_id == run_id);
    }
    if exists|i: int|
        0 <= i < s.pending.len() && (#[trigger] s.pending[i]).run_id == run_id && s.pending[i].node_id
            == node_id {
        let i = choose|i: int|
            0 <= i < s.pending.len() && (#[trigger] s.pending[i]).run_id == run_id
                && s.pending[i].node_id == node_id;
        assert(nodes[i] == key);
    }
    if creates.contains(run_id) {
        let i = choose|i: int| 0 <= i < creates.len() && creates[i] == run_id;
        assert(s.creates[i].run_id == run_id);
    }
    if exists|i: int| 0 <= i < s.creates.len() && (#[trigger] s.creates[i]).run_id == run_id {
        let i = choose|i: int|
            0 <= i < s.creates.len() && (#[trigger] s.creates[i]).run_id == run_id;
        assert(creates[i] == run_id);
    }
}

/// A pending action is carried out on the run and the container that it is pending
/// on: a start in the run's network, a stop or a removal of the container as it is
/// known; where either is gone, there is nothing to do.
pub proof fn law_jobs_match_what_is_pending(entry: PendingEntryView, run: RunStateView)
    ensures
        job_of(entry, None) == Err::<JobView, Seq<char>>("no such run: "@ + entry.run_id),
        entry.action == PendingAction::Starting ==> (job_of(entry, Some(run)) matches Ok(
            JobView::Start { network, sidecar_ip },
        ) && network == run.network && sidecar_ip == run.sidecar_ip),
        entry.action != PendingAction::Starting && !run.containers.contains_key(entry.node_id)
            ==> job_of(entry, Some(run)) == Err::<JobView, Seq<char>>(
            "no such node in run "@ + entry.run_id + ": "@ + entry.node_id,
        ),
        entry.action == PendingAction::Stopping && run.containers.contains_key(entry.node_id) ==> (
        job_of(entry, Some(run)) matches Ok(JobView::Stop(c)) && c
            == run.containers[entry.node_id]),
        entry.action == PendingAction::Removing && run.containers.contains_key(entry.node_id) ==> (
        job_of(entry, Some(run)) matches Ok(JobView::Remove(c)) && c
            == run.containers[entry.node_id]),
{
}

/// Work that ends without a result leaves nothing busy: the container can be acted on
/// again, and the run can be created or torn down again.
pub proof fn law_lost_work_frees_what_it_was_for(
    s: WorkspaceStateView,
    run_id: Seq<char>,
    node_id: Seq<char>,
    lost_action: Action,
    lost_create: Action,
    lost_teardown: Action,
)
    requires
        s.runs.contains_key(run_id),
        s.runs[run_id].containers.contains_key(node_id),
        settles_action(lost_action, run_id, node_id, None),
        settles_create(lost_create, run_id, None),
        settles_teardown(lost_teardown, run_id, None),
    ensures
        reduced(s, lost_action) matches Ok(next)
            && next.runs[run_id].containers[node_id].pending_action is None,
        reduced(s, lost_create) matches Ok(next) && (next.runs.contains_key(run_id)
            ==> next.runs[run_id].pending_create is None),
        reduced(s, lost_teardown) matches Ok(next) && next.runs.contains_key(run_id)
            && !next.runs[run_id].pending_teardown,
{
}

/// A result is reported as it came, for the run and the node that it is about.
pub proof fn law_results_are_reported_as_they_came(
    a: Action,
    run_id: Seq<char>,
    node_id: Seq<char>,
    outcome: Result<Option<ContainerInfo>, String>,
    created: Result<RunState, RunCreateError>,
    torn_down: Result<(), String>,
)
    ensures
        settles_action(a, run_id, node_id, Some(outcome)) ==> (
        a matches Action::ContainerActionSettled { run_id: run, node_id: node, result } && run@
            == run_id && node@ == node_id && result == outcome),
        settles_create(a, run_id, Some(created)) ==> (
        a matches Action::RunCreateSettled { run_id: run, result } && run@ == run_id && result
            == created),
        settles_teardown(a, run_id, Some(torn_down)) ==> (
        a matches Action::RunTeardownSettled { run_id: run, result } && run@ == run_id && result
            == torn_down),
{
}

/// A plan that names a run starts it as planned; one that names none tops the default
/// environment up, for the flow that it names.
pub proof fn law_named_runs_start_afresh(job: CreateJob, plan: RunSpecView)
    requires
        creates(job, plan),
    ensures
        job is Start <==> plan.run_id is Some,
        job matches CreateJob::Start(p) ==> p@.run_id == plan.run_id && p@.flow == plan.flow,
        job matches CreateJob::EnsureRunning(flow) ==> flow.deep_view() == plan.flow,
{
}

} // verus!
