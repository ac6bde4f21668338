//! Every way a workspace's state can change.
//!
//! Requests say what should become true and can be refused. Reports say what
//! already is true and never are.

use vstd::prelude::*;

use crate::state::{
    ContainerInfo, RunCreateError, RunSpec, RunState, SyncStatus, WorkspaceOwner,
};
use crate::strmap::StrMap;

verus! {

/// A change to a workspace's state.
#[derive(Debug)]
#[allow(inconsistent_fields)]
pub enum Action {
    /// Creates a run, or tops up an existing one.
    RunPlanned { run_id: String, plan: RunSpec },
    /// Tears a whole run down.
    RunStopRequested { run_id: String },
    RunNodeStartRequested { run_id: String, node_id: String },
    RunNodeStopRequested { run_id: String, node_id: String },
    RunNodeDeleteRequested { run_id: String, node_id: String },
    /// What a container looked like when it was last inspected.
    ContainerObserved {
        run_id: String,
        node_id: String,
        status: String,
        published_port: Option<u16>,
        ip: Option<String>,
        ports: StrMap<Option<u16>>,
    },
    /// A start, stop or removal came to its end. `Ok(None)` means that the
    /// container is gone.
    ContainerActionSettled {
        run_id: String,
        node_id: String,
        result: Result<Option<ContainerInfo>, String>,
    },
    /// One container of a run that is being created came up.
    RunCreateProgress {
        run_id: String,
        network: String,
        sidecar_container_name: String,
        sidecar_ip: Option<String>,
        info: ContainerInfo,
    },
    /// The creation of a run came to its end.
    RunCreateSettled { run_id: String, result: Result<RunState, RunCreateError> },
    /// The teardown of a run came to its end.
    RunTeardownSettled { run_id: String, result: Result<(), String> },
    VolumeObserved { run_id: String, volume_name: String, exists: bool },
    ConfigDriftObserved { run_id: String, node_id: String, drift: SyncStatus },
    OwnerSet { owner: WorkspaceOwner },
}

impl Action {
    /// Whether the action asks for a change to a run or a node.
    pub open spec fn is_run_request(self) -> bool {
        self is RunPlanned || self is RunStopRequested || self is RunNodeStartRequested
            || self is RunNodeStopRequested || self is RunNodeDeleteRequested
    }

    /// Whether the action describes what already is.
    pub open spec fn is_report(self) -> bool {
        !self.is_run_request() && !(self is OwnerSet)
    }
}

/// Why a requested action was refused.
#[derive(Debug, Clone, Copy, PartialEq, Eq, Structural)]
pub enum ActionRejected {
    /// The target is already being acted on.
    AlreadyInFlight,
    /// The workspace has no run of that id.
    RunNotFound,
    /// The run has no node of that id.
    NodeNotFound,
}

impl ActionRejected {
    /// What the refusal says to a person.
    pub open spec fn spec_message(self) -> Seq<char> {
        match self {
            ActionRejected::AlreadyInFlight => "an action is already in flight"@,
            ActionRejected::RunNotFound => "no such run"@,
            ActionRejected::NodeNotFound => "no such node"@,
        }
    }

    /// What the refusal says to a person.
    pub fn message(&self) -> (r: String)
        ensures
            r@ == self.spec_message(),
    {
        match self {
            ActionRejected::AlreadyInFlight => "an action is already in flight".to_owned(),
            ActionRejected::RunNotFound => "no such run".to_owned(),
            ActionRejected::NodeNotFound => "no such node".to_owned(),
        }
    }

    /// The HTTP status with which the refusal is answered: a conflict where
    /// something is in flight, not found otherwise.
    pub fn status_code(&self) -> (r: u16)
        ensures
            r == (if *self == ActionRejected::AlreadyInFlight {
                409u16
            } else {
                404u16
            }),
    {
        match self {
            ActionRejected::AlreadyInFlight => 409,
            ActionRejected::RunNotFound => 404,
            ActionRejected::NodeNotFound => 404,
        }
    }
}

} // verus!
