//! Effects: what has to be done outside so that it matches the state.
//!
//! Each effect takes from the state the part that it depends on. A driver
//! compares that part with what was last carried out, and has the effect do its
//! work only where the two differ.

use vstd::prelude::*;

use crate::same::Same;
use crate::seqs::lemma_filter_holds;
use crate::state::{WorkspaceState, WorkspaceStateView};
use crate::strmap::StrMap;
use crate::text::texts_without;

pub mod dns;
pub mod docker;
pub mod hosts;
pub mod persist;
pub mod raw_net;
pub mod routes;

verus! {

/// An effect of one workspace.
pub trait Effect {
    type Snapshot: Same;

    /// What the effect depends on.
    spec fn depends_on(&self, state: WorkspaceStateView) -> <Self::Snapshot as DeepView>::V;

    /// What the effect depends on.
    fn extract(&self, state: &WorkspaceState) -> (r: Self::Snapshot)
        ensures
            r.deep_view() == self.depends_on(state@),
    ;
}

/// An effect of one workspace whose work is awaited.
pub trait AsyncEffect {
    type Snapshot: Same;

    /// What the effect depends on.
    spec fn depends_on(&self, state: WorkspaceStateView) -> <Self::Snapshot as DeepView>::V;

    /// What the effect depends on.
    fn extract(&self, state: &WorkspaceState) -> (r: Self::Snapshot)
        ensures
            r.deep_view() == self.depends_on(state@),
    ;
}

/// An effect of all workspaces together.
pub trait FannedInEffect {
    type Snapshot: Same;

    /// What the effect depends on.
    spec fn depends_on(&self, states: Map<Seq<char>, WorkspaceStateView>) -> <Self::Snapshot as DeepView>::V;

    /// What the effect depends on.
    fn extract(&self, states: &StrMap<WorkspaceState>) -> (r: Self::Snapshot)
        ensures
            r.deep_view() == self.depends_on(states@),
    ;
}

/// Remembers what an effect last carried out.
pub struct Driver<S> {
    last: Option<S>,
}

impl<S: DeepView> View for Driver<S> {
    type V = Option<S::V>;

    closed spec fn view(&self) -> Option<S::V> {
        match self.last {
            Some(s) => Some(s.deep_view()),
            None => None,
        }
    }
}

impl<S: Same> Driver<S> {
    /// A driver of an effect that has carried out nothing yet.
    pub fn new() -> (r: Self)
        ensures
            r@ is None,
    {
        Driver { last: None }
    }

    /// Whether the effect has work to do: what it depends on is not what it last
    /// carried out.
    pub fn is_due(&self, snapshot: &S) -> (r: bool)
        ensures
            r == (self@ != Some(snapshot.deep_view())),
    {
        match &self.last {
            Some(last) => !last.same(snapshot),
            None => true,
        }
    }

    /// Records that the effect did its work. Where it failed, what it last
    /// carried out stays, so that the next change of state has it try again.
    pub fn settle(&mut self, snapshot: S, succeeded: bool)
        ensures
            final(self)@ == driven(old(self)@, snapshot.deep_view(), succeeded),
    {
        if succeeded {
            self.last = Some(snapshot);
        }
    }
}

/// What was last carried out after one more attempt.
pub open spec fn driven<V>(last: Option<V>, snapshot: V, succeeded: bool) -> Option<V> {
    if succeeded {
        Some(snapshot)
    } else {
        last
    }
}

/// Whether an effect has work to do.
pub open spec fn due<V>(last: Option<V>, snapshot: V) -> bool {
    last != Some(snapshot)
}

/// Work that was carried out is not done again until what it depends on changes;
/// work that failed is due as before.
pub proof fn law_work_is_repeated_only_after_change_or_failure<V>(
    last: Option<V>,
    snapshot: V,
    succeeded: bool,
    next: V,
)
    ensures
        succeeded ==> (due(driven(last, snapshot, succeeded), next) <==> next != snapshot),
        !succeeded ==> (due(driven(last, snapshot, succeeded), next) <==> due(last, next)),
{
}

/// What was last carried out after attempts that all succeed.
pub open spec fn driven_by_all<V>(last: Option<V>, snapshots: Seq<V>) -> Option<V> {
    if snapshots.len() == 0 {
        last
    } else {
        Some(snapshots.last())
    }
}

/// The work that is done over a sequence of snapshots while every attempt
/// succeeds: at each snapshot for which work is due, that snapshot.
pub open spec fn work_done<V>(last: Option<V>, snapshots: Seq<V>) -> Seq<V>
    decreases snapshots.len(),
{
    if snapshots.len() == 0 {
        Seq::empty()
    } else {
        let before = work_done(last, snapshots.drop_last());
        if due(driven_by_all(last, snapshots.drop_last()), snapshots.last()) {
            before.push(snapshots.last())
        } else {
            before
        }
    }
}

/// A snapshot that is carried out, or that was carried out already, is the one
/// that a driver remembers.
pub proof fn law_driver_remembers_the_latest_snapshot<V>(
    last: Option<V>,
    snapshots: Seq<V>,
    next: V,
)
    ensures
        driven_by_all(last, snapshots.push(next)) == (if due(driven_by_all(last, snapshots), next) {
            driven(driven_by_all(last, snapshots), next, true)
        } else {
            driven_by_all(last, snapshots)
        }),
{
}

/// While every attempt succeeds, no two consecutive pieces of work are equal, the
/// first is not what was carried out before, and the last is the latest snapshot
/// or what was carried out before.
pub proof fn law_no_work_is_done_twice_in_a_row<V>(last: Option<V>, snapshots: Seq<V>)
    ensures
        ({
            let work = work_done(last, snapshots);
            &&& forall|i: int| 0 < i < work.len() ==> work[i - 1] != #[trigger] work[i]
            &&& work.len() > 0 ==> Some(work[0]) != last
            &&& driven_by_all(last, work) == driven_by_all(last, snapshots)
        }),
    decreases snapshots.len(),
{
    if snapshots.len() > 0 {
        law_no_work_is_done_twice_in_a_row(last, snapshots.drop_last());
    }
}

/// An effect that has carried out nothing yet begins with the first snapshot, and
/// does that work once however often the snapshot comes.
pub proof fn law_first_work_is_done_once<V>(snapshots: Seq<V>)
    requires
        snapshots.len() > 0,
    ensures
        work_done(None, snapshots).len() > 0,
        work_done(None, snapshots)[0] == snapshots[0],
        (forall|i: int| 0 <= i < snapshots.len() ==> #[trigger] snapshots[i] == snapshots[0])
            ==> work_done(None, snapshots) == seq![snapshots[0]],
    decreases snapshots.len(),
{
    let front = snapshots.drop_last();
    if front.len() > 0 {
        law_first_work_is_done_once(front);
        assert(front[0] == snapshots[0]);
        if forall|i: int| 0 <= i < snapshots.len() ==> #[trigger] snapshots[i] == snapshots[0] {
            assert forall|i: int| 0 <= i < front.len() implies #[trigger] front[i] == front[0] by {
                assert(front[i] == snapshots[i]);
            }
            assert(front.last() == snapshots[front.len() - 1]);
            assert(snapshots.last() == snapshots[snapshots.len() - 1]);
        }
    } else {
        assert(work_done(None, front) =~= Seq::empty());
        assert(work_done(None, snapshots) =~= seq![snapshots[0]]);
    }
}

/// What happens to a workspace.
pub enum WorkspaceEvent {
    /// It is registered, in some state.
    Registered(Seq<char>, WorkspaceStateView),
    /// It comes into another state.
    Changed(Seq<char>, WorkspaceStateView),
    /// It leaves.
    Left(Seq<char>),
}

/// The latest states of the registered workspaces after an event. One that is not
/// registered is not heard.
pub open spec fn states_after(
    states: Map<Seq<char>, WorkspaceStateView>,
    event: WorkspaceEvent,
) -> Map<Seq<char>, WorkspaceStateView> {
    match event {
        WorkspaceEvent::Registered(id, state) => states.insert(id, state),
        WorkspaceEvent::Changed(id, state) => if states.contains_key(id) {
            states.insert(id, state)
        } else {
            states
        },
        WorkspaceEvent::Left(id) => states.remove(id),
    }
}

/// The latest states of the registered workspaces after some events.
pub open spec fn states_after_all(
    states: Map<Seq<char>, WorkspaceStateView>,
    events: Seq<WorkspaceEvent>,
) -> Map<Seq<char>, WorkspaceStateView>
    decreases events.len(),
{
    if events.len() == 0 {
        states
    } else {
        states_after(states_after_all(states, events.drop_last()), events.last())
    }
}

/// What an effect of all workspaces depends on, at first and after each event.
pub open spec fn fanned_in<E: FannedInEffect>(
    effect: &E,
    states: Map<Seq<char>, WorkspaceStateView>,
    events: Seq<WorkspaceEvent>,
) -> Seq<<E::Snapshot as DeepView>::V> {
    Seq::new(
        events.len() + 1,
        |i: int| effect.depends_on(states_after_all(states, events.take(i))),
    )
}

/// Every piece of work of an effect of all workspaces is taken from the latest
/// states of exactly the registered workspaces. It is done at an event that
/// changes what the effect depends on, and at no other.
pub proof fn law_fanned_in_work_follows_the_registered_workspaces<E: FannedInEffect>(
    effect: &E,
    states: Map<Seq<char>, WorkspaceStateView>,
    events: Seq<WorkspaceEvent>,
    event: WorkspaceEvent,
)
    ensures
        ({
            let work = work_done(None, fanned_in(effect, states, events));
            let before = effect.depends_on(states_after_all(states, events));
            let after = effect.depends_on(
                states_after(states_after_all(states, events), event),
            );
            &&& work.len() > 0 && work[0] == effect.depends_on(states)
            &&& work.last() == before
            &&& work_done(None, fanned_in(effect, states, events.push(event))) == (if after
                == before {
                work
            } else {
                work.push(after)
            })
        }),
{
    let first = fanned_in(effect, states, events);
    let longer = fanned_in(effect, states, events.push(event));
    let more = events.push(event);
    assert(more.drop_last() =~= events);
    assert(more.take(more.len() as int) =~= more);
    assert(events.take(events.len() as int) =~= events);
    assert(longer.drop_last() =~= first) by {
        assert forall|i: int| 0 <= i < first.len() implies longer[i] == first[i] by {
            assert(more.take(i) =~= events.take(i));
        }
    }
    assert(first.last() == effect.depends_on(states_after_all(states, events)));
    assert(events.take(0) =~= Seq::empty());
    law_first_work_is_done_once(first);
    law_no_work_is_done_twice_in_a_row(None, first);
}

/// A workspace that left causes no more work, whatever states it comes into.
pub proof fn law_workspace_that_left_causes_no_work<E: FannedInEffect>(
    effect: &E,
    states: Map<Seq<char>, WorkspaceStateView>,
    events: Seq<WorkspaceEvent>,
    id: Seq<char>,
    later: Seq<WorkspaceStateView>,
)
    ensures
        ({
            let gone = events.push(WorkspaceEvent::Left(id));
            let heard = later.map_values(|s: WorkspaceStateView| WorkspaceEvent::Changed(id, s));
            &&& !states_after_all(states, gone + heard).contains_key(id)
            &&& states_after_all(states, gone + heard) == states_after_all(states, gone)
            &&& work_done(None, fanned_in(effect, states, gone + heard)) == work_done(
                None,
                fanned_in(effect, states, gone),
            )
        }),
    decreases later.len(),
{
    let gone = events.push(WorkspaceEvent::Left(id));
    let f = |s: WorkspaceStateView| WorkspaceEvent::Changed(id, s);
    let heard = later.map_values(f);
    assert(gone.drop_last() =~= events);
    if later.len() == 0 {
        assert(gone + heard =~= gone);
    } else {
        let front = later.drop_last();
        law_workspace_that_left_causes_no_work(effect, states, events, id, front);
        let all = gone + front.map_values(f);
        let last = f(later.last());
        assert(gone + heard =~= all.push(last));
        assert(all.push(last).drop_last() =~= all);
        law_fanned_in_work_follows_the_registered_workspaces(effect, states, all, last);
    }
}

/// Which workspaces to begin and to stop watching.
pub struct WatchChanges {
    pub start: Vec<String>,
    pub stop: Vec<String>,
}

/// Which workspaces to begin and to stop watching so that exactly the registered
/// ones are watched.
pub fn watch_changes(watched: &Vec<String>, registered: &Vec<String>) -> (r: WatchChanges)
    ensures
        r.start.deep_view() == registered.deep_view().filter(
            |id: Seq<char>| !watched.deep_view().contains(id),
        ),
        r.stop.deep_view() == watched.deep_view().filter(
            |id: Seq<char>| !registered.deep_view().contains(id),
        ),
{
    WatchChanges {
        start: texts_without(registered, watched),
        stop: texts_without(watched, registered),
    }
}

/// Once the changes are carried out, exactly the registered workspaces are
/// watched.
pub proof fn law_exactly_registered_workspaces_are_watched(
    watched: Seq<Seq<char>>,
    registered: Seq<Seq<char>>,
    id: Seq<char>,
)
    ensures
        ({
            let start = registered.filter(|k: Seq<char>| !watched.contains(k));
            let stop = watched.filter(|k: Seq<char>| !registered.contains(k));
            start.contains(id) || (watched.contains(id) && !stop.contains(id))
                <==> registered.contains(id)
        }),
{
    let p = |k: Seq<char>| !watched.contains(k);
    let q = |k: Seq<char>| !registered.contains(k);
    lemma_filter_holds(registered, p, id);
    lemma_filter_holds(watched, q, id);
}

} // verus!
