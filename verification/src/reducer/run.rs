//! Requests: planning and stopping a run, starting, stopping and deleting one
//! of its nodes.

use vstd::prelude::*;

use crate::action::{Action, ActionRejected};
use crate::state::{
    ContainerDesired, ContainerDesiredView, ContainerInfo, ContainerInfoView, ContainerObserved,
    ContainerObservedView, PendingAction, RunSpec, RunState, RunStateView, WorkspaceState,
    WorkspaceStateView,
};
use crate::strmap::{lemma_take_next, StrMap};

verus! {

/// The state with one run replaced or added.
pub open spec fn with_run(
    s: WorkspaceStateView,
    run_id: Seq<char>,
    run: RunStateView,
) -> WorkspaceStateView {
    WorkspaceStateView { runs: s.runs.insert(run_id, run), ..s }
}

/// The state with one container of an existing run replaced or added.
pub open spec fn with_container(
    s: WorkspaceStateView,
    run_id: Seq<char>,
    node_id: Seq<char>,
    c: ContainerInfoView,
) -> WorkspaceStateView {
    let run = s.runs[run_id];
    with_run(s, run_id, RunStateView { containers: run.containers.insert(node_id, c), ..run })
}

/// Records the wish for a run, keeping what an existing one holds.
pub open spec fn planned(
    s: WorkspaceStateView,
    run_id: Seq<char>,
    plan: crate::state::RunSpecView,
) -> Result<WorkspaceStateView, ActionRejected> {
    let run = if s.runs.dom().contains(run_id) {
        s.runs[run_id]
    } else {
        RunStateView::blank(run_id)
    };
    if run.pending_create is Some {
        Err(ActionRejected::AlreadyInFlight)
    } else {
        Ok(with_run(s, run_id, RunStateView { pending_create: Some(plan), ..run }))
    }
}

/// A container as it is marked when its whole run is stopped: idle ones begin
/// to stop, the others are left to what is being done to them.
pub open spec fn stop_marked(c: ContainerInfoView) -> ContainerInfoView {
    if c.pending_action is Some {
        c
    } else {
        ContainerInfoView {
            desired: ContainerDesiredView { running: false, ..c.desired },
            pending_action: Some(PendingAction::Stopping),
            ..c
        }
    }
}

/// Records the wish to tear a run down.
pub open spec fn run_stopped(s: WorkspaceStateView, run_id: Seq<char>) -> Result<
    WorkspaceStateView,
    ActionRejected,
> {
    if !s.runs.dom().contains(run_id) {
        Err(ActionRejected::RunNotFound)
    } else {
        let run = s.runs[run_id];
        Ok(
            with_run(
                s,
                run_id,
                RunStateView {
                    pending_teardown: true,
                    containers: run.containers.map_values(
                        |c: ContainerInfoView| stop_marked(c),
                    ),
                    ..run
                },
            ),
        )
    }
}

/// The entry made for a node that is started while it has no container.
pub open spec fn placeholder(node_id: Seq<char>) -> ContainerInfoView {
    ContainerInfoView {
        node_id,
        desired: ContainerDesiredView { running: true, ..ContainerDesiredView::blank() },
        observed: ContainerObservedView::blank(),
        pending_action: Some(PendingAction::Starting),
    }
}

/// Records the wish to start a node; one without a container gets a
/// placeholder.
pub open spec fn node_started(
    s: WorkspaceStateView,
    run_id: Seq<char>,
    node_id: Seq<char>,
) -> Result<WorkspaceStateView, ActionRejected> {
    if !s.runs.dom().contains(run_id) {
        Err(ActionRejected::RunNotFound)
    } else if !s.runs[run_id].containers.dom().contains(node_id) {
        Ok(with_container(s, run_id, node_id, placeholder(node_id)))
    } else {
        let c = s.runs[run_id].containers[node_id];
        if c.pending_action is Some {
            Err(ActionRejected::AlreadyInFlight)
        } else {
            Ok(
                with_container(
                    s,
                    run_id,
                    node_id,
                    ContainerInfoView {
                        desired: ContainerDesiredView { running: true, ..c.desired },
                        pending_action: Some(PendingAction::Starting),
                        ..c
                    },
                ),
            )
        }
    }
}

/// Why an idle container of the named node cannot be had.
pub open spec fn idle_lookup(s: WorkspaceStateView, run_id: Seq<char>, node_id: Seq<char>) -> Result<
    ContainerInfoView,
    ActionRejected,
> {
    if !s.runs.dom().contains(run_id) {
        Err(ActionRejected::RunNotFound)
    } else if !s.runs[run_id].containers.dom().contains(node_id) {
        Err(ActionRejected::NodeNotFound)
    } else if s.runs[run_id].containers[node_id].pending_action is Some {
        Err(ActionRejected::AlreadyInFlight)
    } else {
        Ok(s.runs[run_id].containers[node_id])
    }
}

/// Records the wish to stop a node.
pub open spec fn node_stopped(
    s: WorkspaceStateView,
    run_id: Seq<char>,
    node_id: Seq<char>,
) -> Result<WorkspaceStateView, ActionRejected> {
    match idle_lookup(s, run_id, node_id) {
        Err(e) => Err(e),
        Ok(c) => Ok(
            with_container(
                s,
                run_id,
                node_id,
                ContainerInfoView {
                    desired: ContainerDesiredView { running: false, ..c.desired },
                    pending_action: Some(PendingAction::Stopping),
                    ..c
                },
            ),
        ),
    }
}

/// Records the wish to remove a node's container. What it should be doing
/// meanwhile is left as it is.
pub open spec fn node_deleted(
    s: WorkspaceStateView,
    run_id: Seq<char>,
    node_id: Seq<char>,
) -> Result<WorkspaceStateView, ActionRejected> {
    match idle_lookup(s, run_id, node_id) {
        Err(e) => Err(e),
        Ok(c) => Ok(
            with_container(
                s,
                run_id,
                node_id,
                ContainerInfoView { pending_action: Some(PendingAction::Removing), ..c },
            ),
        ),
    }
}

/// What a request makes of the state `s`.
pub open spec fn requested(s: WorkspaceStateView, action: Action) -> Result<
    WorkspaceStateView,
    ActionRejected,
>
    recommends
        action.is_run_request(),
{
    match action {
        Action::RunPlanned { run_id, plan } => planned(s, run_id@, plan@),
        Action::RunStopRequested { run_id } => run_stopped(s, run_id@),
        Action::RunNodeStartRequested { run_id, node_id } => node_started(s, run_id@, node_id@),
        Action::RunNodeStopRequested { run_id, node_id } => node_stopped(s, run_id@, node_id@),
        Action::RunNodeDeleteRequested { run_id, node_id } => node_deleted(s, run_id@, node_id@),
        _ => Ok(s),
    }
}

/// Applies a request.
pub fn reduce(state: &WorkspaceState, action: Action) -> (r: Result<WorkspaceState, ActionRejected>)
    requires
        action.is_run_request(),
    ensures
        match r {
            Ok(next) => requested(state@, action) == Ok::<WorkspaceStateView, ActionRejected>(
                next@,
            ),
            Err(e) => requested(state@, action) == Err::<WorkspaceStateView, ActionRejected>(e),
        },
{
    match action {
        Action::RunPlanned { run_id, plan } => plan_run(state, run_id, plan),
        Action::RunStopRequested { run_id } => stop_run(state, run_id),
        Action::RunNodeStartRequested { run_id, node_id } => start_node(state, run_id, node_id),
        Action::RunNodeStopRequested { run_id, node_id } => {
            let mut c = idle_container(state, run_id.as_str(), node_id.as_str())?;
            c.desired.running = false;
            c.pending_action = Some(PendingAction::Stopping);
            Ok(put_container(state, run_id, node_id, c))
        },
        Action::RunNodeDeleteRequested { run_id, node_id } => {
            let mut c = idle_container(state, run_id.as_str(), node_id.as_str())?;
            c.pending_action = Some(PendingAction::Removing);
            Ok(put_container(state, run_id, node_id, c))
        },
        _ => Ok(state.clone()),
    }
}

/// The state with one run replaced or added.
pub(crate) fn put_run(state: &WorkspaceState, run_id: String, run: RunState) -> (next: WorkspaceState)
    ensures
        next@ == with_run(state@, run_id@, run@),
{
    let mut next = state.clone();
    next.runs.insert(run_id, run);
    next
}

/// The state with one container of an existing run replaced or added.
pub(crate) fn put_container(
    state: &WorkspaceState,
    run_id: String,
    node_id: String,
    c: ContainerInfo,
) -> (next: WorkspaceState)
    requires
        state@.runs.dom().contains(run_id@),
    ensures
        next@ == with_container(state@, run_id@, node_id@, c@),
{
    match state.runs.get(run_id.as_str()) {
        Some(run) => {
            let mut run = run.clone();
            run.containers.insert(node_id, c);
            put_run(state, run_id, run)
        },
        None => state.clone(),
    }
}

fn plan_run(state: &WorkspaceState, run_id: String, plan: RunSpec) -> (r: Result<
    WorkspaceState,
    ActionRejected,
>)
    ensures
        match r {
            Ok(next) => planned(state@, run_id@, plan@) == Ok::<WorkspaceStateView, ActionRejected>(
                next@,
            ),
            Err(e) => planned(state@, run_id@, plan@) == Err::<WorkspaceStateView, ActionRejected>(
                e,
            ),
        },
{
    let mut run = match state.runs.get(run_id.as_str()) {
        Some(run) => run.clone(),
        None => RunState::blank(run_id.clone()),
    };
    if run.pending_create.is_some() {
        return Err(ActionRejected::AlreadyInFlight);
    }
    run.pending_create = Some(plan);
    Ok(put_run(state, run_id, run))
}

/// Marks every idle container as stopping.
fn mark_stopping(containers: &StrMap<ContainerInfo>) -> (r: StrMap<ContainerInfo>)
    ensures
        r@ == containers@.map_values(|c: ContainerInfoView| stop_marked(c)),
{
    let mut r: StrMap<ContainerInfo> = StrMap::new();
    let n: usize = containers.len();
    let mut i: usize = 0;
    while i < n
        invariant
            n == containers@.dom().len(),
            n == containers.keys().len(),
            i <= n,
            forall|k: Seq<char>|
                #![trigger r@.dom().contains(k)]
                r@.dom().contains(k) <==> containers.keys().take(i as int).contains(k),
            forall|k: Seq<char>|
                #![trigger r@[k]]
                r@.dom().contains(k) ==> r@[k] == stop_marked(containers@[k]),
        decreases n - i,
    {
        let key = containers.key_at(i);
        let value = containers.value_at(i);
        let mut c = value.clone();
        if c.pending_action.is_none() {
            c.desired.running = false;
            c.pending_action = Some(PendingAction::Stopping);
        }
        proof {
            lemma_take_next(containers.keys(), i as int);
        }
        r.insert(key.clone(), c);
        i += 1;
    }
    proof {
        let ks = containers.keys();
        assert(ks.take(n as int) =~= ks);
        let marked = containers@.map_values(|c: ContainerInfoView| stop_marked(c));
        assert forall|k: Seq<char>| r@.dom().contains(k) <==> marked.dom().contains(k) by {
            assert(ks.to_set().contains(k) <==> ks.contains(k));
        }
        assert(r@ =~= marked);
    }
    r
}

fn stop_run(state: &WorkspaceState, run_id: String) -> (r: Result<WorkspaceState, ActionRejected>)
    ensures
        match r {
            Ok(next) => run_stopped(state@, run_id@) == Ok::<WorkspaceStateView, ActionRejected>(
                next@,
            ),
            Err(e) => run_stopped(state@, run_id@) == Err::<WorkspaceStateView, ActionRejected>(e),
        },
{
    match state.runs.get(run_id.as_str()) {
        None => Err(ActionRejected::RunNotFound),
        Some(run) => {
            let mut run = run.clone();
            run.pending_teardown = true;
            run.containers = mark_stopping(&run.containers);
            Ok(put_run(state, run_id, run))
        },
    }
}

/// The container of a node that nothing is being done to.
fn idle_container(state: &WorkspaceState, run_id: &str, node_id: &str) -> (r: Result<
    ContainerInfo,
    ActionRejected,
>)
    ensures
        match r {
            Ok(c) => idle_lookup(state@, run_id@, node_id@) == Ok::<
                ContainerInfoView,
                ActionRejected,
            >(c@),
            Err(e) => idle_lookup(state@, run_id@, node_id@) == Err::<
                ContainerInfoView,
                ActionRejected,
            >(e),
        },
{
    match state.runs.get(run_id) {
        None => Err(ActionRejected::RunNotFound),
        Some(run) => match run.containers.get(node_id) {
            None => Err(ActionRejected::NodeNotFound),
            Some(c) => {
                if c.pending_action.is_some() {
                    Err(ActionRejected::AlreadyInFlight)
                } else {
                    Ok(c.clone())
                }
            },
        },
    }
}

fn start_node(state: &WorkspaceState, run_id: String, node_id: String) -> (r: Result<
    WorkspaceState,
    ActionRejected,
>)
    ensures
        match r {
            Ok(next) => node_started(state@, run_id@, node_id@) == Ok::<
                WorkspaceStateView,
                ActionRejected,
            >(next@),
            Err(e) => node_started(state@, run_id@, node_id@) == Err::<
                WorkspaceStateView,
                ActionRejected,
            >(e),
        },
{
    match state.runs.get(run_id.as_str()) {
        None => Err(ActionRejected::RunNotFound),
        Some(run) => match run.containers.get(node_id.as_str()) {
            Some(c) => {
                if c.pending_action.is_some() {
                    return Err(ActionRejected::AlreadyInFlight);
                }
                let mut c = c.clone();
                c.desired.running = true;
                c.pending_action = Some(PendingAction::Starting);
                Ok(put_container(state, run_id, node_id, c))
            },
            None => {
                let mut desired = ContainerDesired::default();
                desired.running = true;
                let c = ContainerInfo {
                    node_id: node_id.clone(),
                    desired,
                    observed: ContainerObserved::default(),
                    pending_action: Some(PendingAction::Starting),
                };
                Ok(put_container(state, run_id, node_id, c))
            },
        },
    }
}

} // verus!
