//! How requests of the control API are answered.

use vstd::prelude::*;

use crate::action::{Action, ActionRejected};
use crate::daemon::api::{
    no_such_run, plan_run, planned_id, query_param, query_value, UNKNOWN_WORKSPACE,
};
use crate::daemon::registry::{RegistryView, WorkspaceRegistry};
use crate::reducer::reduced;
use crate::reducer::run::{node_deleted, node_started, node_stopped, planned, run_stopped};
use crate::state::{
    ContainerInfo, ContainerInfoView, RunSpec, RunSpecView, RunState, RunStateView, WorkspaceState,
    WorkspaceStateView,
};
use crate::text::concat_text;

verus! {

/// Why a request is not carried out.
#[derive(Debug)]
pub struct Refusal {
    /// The HTTP status.
    pub status: u16,
    pub error: String,
}

/// Why a request is not carried out.
pub struct RefusalView {
    pub status: u16,
    pub error: Seq<char>,
}

impl View for Refusal {
    type V = RefusalView;

    open spec fn view(&self) -> RefusalView {
        RefusalView { status: self.status, error: self.error@ }
    }
}

/// What a request is answered.
pub enum Reply {
    /// The run as it is now.
    Run(RunState),
    /// The container as it is now.
    Container(ContainerInfo),
    /// That it is done.
    Done,
    Refused(Refusal),
}

/// What a request is answered.
pub enum ReplyView {
    Run(RunStateView),
    Container(ContainerInfoView),
    Done,
    Refused(RefusalView),
}

impl View for Reply {
    type V = ReplyView;

    open spec fn view(&self) -> ReplyView {
        match self {
            Reply::Run(run) => ReplyView::Run(run@),
            Reply::Container(c) => ReplyView::Container(c@),
            Reply::Done => ReplyView::Done,
            Reply::Refused(f) => ReplyView::Refused(f@),
        }
    }
}

/// How a refused action is answered: as a conflict where something is in flight,
/// as not found otherwise.
pub open spec fn rejection(e: ActionRejected) -> RefusalView {
    RefusalView {
        status: if e == ActionRejected::AlreadyInFlight {
            409
        } else {
            404
        },
        error: e.spec_message(),
    }
}

/// How a refused action is answered.
pub fn action_rejected_response(e: ActionRejected) -> (r: Refusal)
    ensures
        r@ == rejection(e),
{
    Refusal { status: e.status_code(), error: e.message() }
}

/// How a request is answered that names no workspace, or one that is not served.
pub open spec fn no_workspace() -> RefusalView {
    RefusalView { status: 400, error: UNKNOWN_WORKSPACE@ }
}

fn unknown_workspace() -> (r: Refusal)
    ensures
        r@ == no_workspace(),
{
    Refusal { status: 400, error: UNKNOWN_WORKSPACE.to_owned() }
}

/// The workspace that a request's query names, if it is served.
pub open spec fn workspace_named(registry: RegistryView, query: Seq<char>) -> Result<
    Seq<char>,
    RefusalView,
> {
    match query_value(query, "workspace"@) {
        Some(id) if registry.paths.contains_key(id) => Ok(id),
        _ => Err(no_workspace()),
    }
}

/// The workspace that a request's query names, if it is served.
pub fn workspace_of(registry: &WorkspaceRegistry, query: &str) -> (r: Result<String, Refusal>)
    ensures
        match r {
            Ok(id) => workspace_named(registry@, query@) == Ok::<Seq<char>, RefusalView>(id@),
            Err(f) => workspace_named(registry@, query@) == Err::<Seq<char>, RefusalView>(f@),
        },
{
    match query_param(query, "workspace") {
        Some(id) => match registry.get(id.as_str()) {
            Some(_) => Ok(id),
            None => Err(unknown_workspace()),
        },
        None => Err(unknown_workspace()),
    }
}

/// The registry after one workspace's state was replaced, or as it was.
pub open spec fn registry_after(
    registry: RegistryView,
    id: Seq<char>,
    outcome: Result<WorkspaceStateView, ActionRejected>,
) -> RegistryView {
    match outcome {
        Ok(next) => RegistryView { states: registry.states.insert(id, next), ..registry },
        Err(_) => registry,
    }
}

/// What is made of a workspace's state; nothing if it is not served.
pub open spec fn outcome_for(
    registry: RegistryView,
    id: Seq<char>,
    change: spec_fn(WorkspaceStateView) -> Result<WorkspaceStateView, ActionRejected>,
) -> Result<WorkspaceStateView, ActionRejected> {
    if registry.states.contains_key(id) {
        change(registry.states[id])
    } else {
        Err(ActionRejected::RunNotFound)
    }
}

/// What a request for a run is answered: the run as it is then.
pub open spec fn run_reply(
    outcome: Result<WorkspaceStateView, ActionRejected>,
    run_id: Seq<char>,
) -> ReplyView {
    match outcome {
        Ok(next) => if next.runs.contains_key(run_id) {
            ReplyView::Run(next.runs[run_id])
        } else {
            ReplyView::Done
        },
        Err(e) => ReplyView::Refused(rejection(e)),
    }
}

/// What a request on a node is answered: its container as it is then.
pub open spec fn node_reply(
    outcome: Result<WorkspaceStateView, ActionRejected>,
    run_id: Seq<char>,
    node_id: Seq<char>,
) -> ReplyView {
    match outcome {
        Ok(next) => if next.runs.contains_key(run_id)
            && next.runs[run_id].containers.contains_key(node_id) {
            ReplyView::Container(next.runs[run_id].containers[node_id])
        } else {
            ReplyView::Done
        },
        Err(e) => ReplyView::Refused(rejection(e)),
    }
}

/// What becomes of a workspace for which a run is requested.
pub open spec fn run_request(registry: RegistryView, id: Seq<char>, plan: RunSpecView) -> Result<
    WorkspaceStateView,
    ActionRejected,
> {
    outcome_for(
        registry,
        id,
        |s: WorkspaceStateView| planned(s, planned_id(plan.run_id), plan),
    )
}

/// Requests a run. The answer comes as soon as the wish is recorded.
pub fn post_runs(registry: &mut WorkspaceRegistry, id: &str, spec_of_run: RunSpec) -> (r: Reply)
    ensures
        final(registry)@ == registry_after(
            old(registry)@,
            id@,
            run_request(old(registry)@, id@, spec_of_run@),
        ),
        r@ == run_reply(
            run_request(old(registry)@, id@, spec_of_run@),
            planned_id(spec_of_run@.run_id),
        ),
{
    let (run_id, action) = plan_run(spec_of_run);
    match registry.dispatch(id, action) {
        Ok(_) => match registry.state(id) {
            Some(state) => match state.runs.get(run_id.as_str()) {
                Some(run) => Reply::Run(run.clone()),
                None => Reply::Done,
            },
            None => Reply::Done,
        },
        Err(e) => Reply::Refused(action_rejected_response(e)),
    }
}

/// What can be asked of a node.
#[derive(Debug, Clone, Copy, PartialEq, Eq, Structural)]
pub enum NodeRequest {
    Start,
    Stop,
    Delete,
}

/// What becomes of a workspace of which something is asked for a node.
pub open spec fn node_request(
    registry: RegistryView,
    id: Seq<char>,
    run_id: Seq<char>,
    node_id: Seq<char>,
    request: NodeRequest,
) -> Result<WorkspaceStateView, ActionRejected> {
    outcome_for(
        registry,
        id,
        |s: WorkspaceStateView|
            match request {
                NodeRequest::Start => node_started(s, run_id, node_id),
                NodeRequest::Stop => node_stopped(s, run_id, node_id),
                NodeRequest::Delete => node_deleted(s, run_id, node_id),
            },
    )
}

/// Asks something for a node. The answer comes as soon as the wish is recorded.
pub fn post_run_node(
    registry: &mut WorkspaceRegistry,
    id: &str,
    run_id: &str,
    node_id: &str,
    request: NodeRequest,
) -> (r: Reply)
    ensures
        final(registry)@ == registry_after(
            old(registry)@,
            id@,
            node_request(old(registry)@, id@, run_id@, node_id@, request),
        ),
        r@ == node_reply(
            node_request(old(registry)@, id@, run_id@, node_id@, request),
            run_id@,
            node_id@,
        ),
{
    let run = run_id.to_owned();
    let node = node_id.to_owned();
    let action = match request {
        NodeRequest::Start => Action::RunNodeStartRequested { run_id: run, node_id: node },
        NodeRequest::Stop => Action::RunNodeStopRequested { run_id: run, node_id: node },
        NodeRequest::Delete => Action::RunNodeDeleteRequested { run_id: run, node_id: node },
    };
    match registry.dispatch(id, action) {
        Ok(_) => match registry.state(id) {
            Some(state) => match state.runs.get(run_id) {
                Some(run) => match run.containers.get(node_id) {
                    Some(c) => Reply::Container(c.clone()),
                    None => Reply::Done,
                },
                None => Reply::Done,
            },
            None => Reply::Done,
        },
        Err(e) => Reply::Refused(action_rejected_response(e)),
    }
}

/// What becomes of a workspace of which a run is to be torn down.
pub open spec fn stop_request(registry: RegistryView, id: Seq<char>, run_id: Seq<char>) -> Result<
    WorkspaceStateView,
    ActionRejected,
> {
    outcome_for(registry, id, |s: WorkspaceStateView| run_stopped(s, run_id))
}

/// What a request to tear a run down is answered.
pub open spec fn stop_reply(outcome: Result<WorkspaceStateView, ActionRejected>) -> ReplyView {
    match outcome {
        Ok(_) => ReplyView::Done,
        Err(e) => ReplyView::Refused(rejection(e)),
    }
}

/// Asks for a run to be torn down.
pub fn post_run_stop(registry: &mut WorkspaceRegistry, id: &str, run_id: &str) -> (r: Reply)
    ensures
        final(registry)@ == registry_after(
            old(registry)@,
            id@,
            stop_request(old(registry)@, id@, run_id@),
        ),
        r@ == stop_reply(stop_request(old(registry)@, id@, run_id@)),
{
    let action = Action::RunStopRequested { run_id: run_id.to_owned() };
    match registry.dispatch(id, action) {
        Ok(_) => Reply::Done,
        Err(e) => Reply::Refused(action_rejected_response(e)),
    }
}

/// The name of a node's container, or why there is none: an unknown run is not
/// found, a run without the node makes a bad request.
pub open spec fn container_name(
    s: WorkspaceStateView,
    run_id: Seq<char>,
    node_id: Seq<char>,
) -> Result<Seq<char>, RefusalView> {
    if !s.runs.contains_key(run_id) {
        Err(RefusalView { status: 404, error: "no such run: "@ + run_id })
    } else if !s.runs[run_id].containers.contains_key(node_id) {
        Err(RefusalView { status: 400, error: "no such node: "@ + node_id })
    } else {
        Ok(s.runs[run_id].containers[node_id].desired.container_name)
    }
}

/// The name of the container whose output is asked for, or in which a command is
/// to be run.
pub fn container_name_for(state: &WorkspaceState, run_id: &str, node_id: &str) -> (r: Result<
    String,
    Refusal,
>)
    ensures
        match r {
            Ok(name) => container_name(state@, run_id@, node_id@) == Ok::<Seq<char>, RefusalView>(
                name@,
            ),
            Err(f) => container_name(state@, run_id@, node_id@) == Err::<Seq<char>, RefusalView>(
                f@,
            ),
        },
{
    match state.runs.get(run_id) {
        None => Err(Refusal { status: 404, error: no_such_run(run_id) }),
        Some(run) => match run.containers.get(node_id) {
            None => Err(Refusal { status: 400, error: concat_text("no such node: ", node_id) }),
            Some(c) => Ok(c.desired.container_name.clone()),
        },
    }
}

/// What a refused request leaves behind is what it found, and its answer says why:
/// 409 where the target is busy, 404 where it is not there.
pub proof fn law_refused_requests_change_nothing(
    registry: RegistryView,
    id: Seq<char>,
    run_id: Seq<char>,
    node_id: Seq<char>,
    request: NodeRequest,
    plan: RunSpecView,
)
    ensures
        ({
            let o = node_request(registry, id, run_id, node_id, request);
            &&& node_reply(o, run_id, node_id) is Refused <==> o is Err
            &&& o matches Err(e) ==> registry_after(registry, id, o) == registry && node_reply(
                o,
                run_id,
                node_id,
            ) == ReplyView::Refused(rejection(e))
        }),
        ({
            let o = run_request(registry, id, plan);
            &&& run_reply(o, planned_id(plan.run_id)) is Refused <==> o is Err
            &&& o matches Err(e) ==> registry_after(registry, id, o) == registry && run_reply(
                o,
                planned_id(plan.run_id),
            ) == ReplyView::Refused(rejection(e))
        }),
        ({
            let o = stop_request(registry, id, run_id);
            &&& stop_reply(o) is Refused <==> o is Err
            &&& o matches Err(e) ==> registry_after(registry, id, o) == registry && stop_reply(o)
                == ReplyView::Refused(rejection(e))
        }),
{
}

/// A request for a run that is accepted is answered with the run, which is being
/// created from then on; an accepted request on a node, with its container, which
/// is busy from then on.
pub proof fn law_accepted_requests_show_the_recorded_wish(
    registry: RegistryView,
    id: Seq<char>,
    run_id: Seq<char>,
    node_id: Seq<char>,
    request: NodeRequest,
    plan: RunSpecView,
)
    ensures
        ({
            let o = run_request(registry, id, plan);
            o is Ok ==> (run_reply(o, planned_id(plan.run_id)) matches ReplyView::Run(run)
                && run.pending_create == Some(plan))
        }),
        ({
            let o = node_request(registry, id, run_id, node_id, request);
            o is Ok ==> (node_reply(o, run_id, node_id) matches ReplyView::Container(c)
                && c.pending_action is Some)
        }),
{
}

/// A request on a node does to a served workspace what the action of the same name
/// does to its state; so do a request for a run and one to tear a run down. Where
/// the workspace is not served, there is no run.
pub proof fn law_requests_are_actions(
    registry: RegistryView,
    id: Seq<char>,
    run_id: String,
    node_id: String,
    plan: RunSpec,
)
    ensures
        registry.states.contains_key(id) ==> {
            let s = registry.states[id];
            &&& node_request(registry, id, run_id@, node_id@, NodeRequest::Start) == reduced(
                s,
                Action::RunNodeStartRequested { run_id, node_id },
            )
            &&& node_request(registry, id, run_id@, node_id@, NodeRequest::Stop) == reduced(
                s,
                Action::RunNodeStopRequested { run_id, node_id },
            )
            &&& node_request(registry, id, run_id@, node_id@, NodeRequest::Delete) == reduced(
                s,
                Action::RunNodeDeleteRequested { run_id, node_id },
            )
            &&& stop_request(registry, id, run_id@) == reduced(
                s,
                Action::RunStopRequested { run_id },
            )
            &&& plan@.run_id == Some(run_id@) || (plan@.run_id is None && run_id@ == "default"@)
                ==> run_request(registry, id, plan@) == reduced(
                s,
                Action::RunPlanned { run_id, plan },
            )
        },
        !registry.states.contains_key(id) ==> {
            let gone = Err::<WorkspaceStateView, ActionRejected>(ActionRejected::RunNotFound);
            &&& node_request(registry, id, run_id@, node_id@, NodeRequest::Start) == gone
            &&& node_request(registry, id, run_id@, node_id@, NodeRequest::Stop) == gone
            &&& node_request(registry, id, run_id@, node_id@, NodeRequest::Delete) == gone
            &&& stop_request(registry, id, run_id@) == gone
            &&& run_request(registry, id, plan@) == gone
        },
{
}

/// A request changes nothing but the state of the workspace that it is made on.
pub proof fn law_requests_touch_one_workspace(
    registry: RegistryView,
    id: Seq<char>,
    other: Seq<char>,
    next: WorkspaceStateView,
)
    ensures
        ({
            let after = registry_after(
                registry,
                id,
                Ok::<WorkspaceStateView, ActionRejected>(next),
            );
            &&& after.states.contains_key(id) && after.states[id] == next
            &&& other != id ==> (after.states.contains_key(other) <==> registry.states.contains_key(
                other,
            )) && after.states[other] == registry.states[other]
            &&& after.paths == registry.paths
            &&& after.raw_addresses == registry.raw_addresses
        }),
{
}

/// An answer shows what is there after the request: the run or the container as it
/// is in the new state, and the reason where there is no new state.
pub proof fn law_answers_show_the_new_state(
    next: WorkspaceStateView,
    run_id: Seq<char>,
    node_id: Seq<char>,
    e: ActionRejected,
)
    ensures
        ({
            let done = Ok::<WorkspaceStateView, ActionRejected>(next);
            let refused = Err::<WorkspaceStateView, ActionRejected>(e);
            &&& next.runs.contains_key(run_id) ==> (run_reply(done, run_id) matches ReplyView::Run(run)
                && run == next.runs[run_id])
            &&& next.runs.contains_key(run_id) && next.runs[run_id].containers.contains_key(node_id)
                ==> (node_reply(done, run_id, node_id) matches ReplyView::Container(c) && c
                == next.runs[run_id].containers[node_id])
            &&& !next.runs.contains_key(run_id) ==> run_reply(done, run_id) is Done && node_reply(
                done,
                run_id,
                node_id,
            ) is Done
            &&& stop_reply(done) is Done
            &&& run_reply(refused, run_id) matches ReplyView::Refused(f) && f == rejection(e)
            &&& node_reply(refused, run_id, node_id) matches ReplyView::Refused(f) && f == rejection(
                e,
            )
            &&& stop_reply(refused) matches ReplyView::Refused(f) && f == rejection(e)
        }),
{
}

/// A refusal says what is wrong: 409 if the target is busy, 404 if it is not
/// there, 400 if the request names no workspace that is served.
pub proof fn law_refusals_tell_busy_from_missing()
    ensures
        rejection(ActionRejected::AlreadyInFlight) == (RefusalView {
            status: 409,
            error: "an action is already in flight"@,
        }),
        rejection(ActionRejected::RunNotFound) == (RefusalView {
            status: 404,
            error: "no such run"@,
        }),
        rejection(ActionRejected::NodeNotFound) == (RefusalView {
            status: 404,
            error: "no such node"@,
        }),
        no_workspace() == (RefusalView {
            status: 400,
            error: "unknown or missing ?workspace=<id>; POST /workspaces first"@,
        }),
{
}

/// A container goes by the name that its node has in the run; without the run the
/// answer is 404, without the node 400.
pub proof fn law_container_goes_by_the_name_of_its_node(
    s: WorkspaceStateView,
    run_id: Seq<char>,
    node_id: Seq<char>,
)
    ensures
        match container_name(s, run_id, node_id) {
            Ok(name) => s.runs.contains_key(run_id) && s.runs[run_id].containers.contains_key(
                node_id,
            ) && name == s.runs[run_id].containers[node_id].desired.container_name,
            Err(f) => if s.runs.contains_key(run_id) {
                f.status == 400 && f.error == "no such node: "@ + node_id
                    && !s.runs[run_id].containers.contains_key(node_id)
            } else {
                f.status == 404 && f.error == "no such run: "@ + run_id
            },
        },
{
}

/// A request is for the workspace that its query names, if that is served; otherwise it
/// is a bad one.
pub proof fn law_workspace_is_named_by_the_query(
    registry: RegistryView,
    query: Seq<char>,
    id: Seq<char>,
)
    ensures
        query_value(query, "workspace"@) == Some(id) && registry.paths.contains_key(id)
            ==> workspace_named(registry, query) == Ok::<Seq<char>, RefusalView>(id),
        query_value(query, "workspace"@) == Some(id) && !registry.paths.contains_key(id) ==> (
        workspace_named(registry, query) matches Err(f) && f.status == 400),
        query_value(query, "workspace"@) is None ==> (workspace_named(registry, query) matches Err(
            f,
        ) && f.status == 400),
{
}

} // verus!
