//! The state of a workspace: its runs, their containers and volumes.
//!
//! Every type has a view made of sequences and maps; the contracts of the
//! library speak of those views.

use vstd::prelude::*;

use crate::strmap::StrMap;

verus! {

/// The user a workspace was wired by, captured so that privileged work can
/// later be done on their behalf.
#[derive(Debug, PartialEq, Eq)]
pub struct WorkspaceOwner {
    pub uid: u32,
    pub gid: u32,
    pub home: String,
    pub ssh_auth_sock: Option<String>,
}

/// The view of a [`WorkspaceOwner`].
pub struct WorkspaceOwnerView {
    pub uid: u32,
    pub gid: u32,
    pub home: Seq<char>,
    pub ssh_auth_sock: Option<Seq<char>>,
}

impl View for WorkspaceOwner {
    type V = WorkspaceOwnerView;

    open spec fn view(&self) -> WorkspaceOwnerView {
        WorkspaceOwnerView {
            uid: self.uid,
            gid: self.gid,
            home: self.home@,
            ssh_auth_sock: self.ssh_auth_sock.deep_view(),
        }
    }
}

impl DeepView for WorkspaceOwner {
    type V = WorkspaceOwnerView;

    open spec fn deep_view(&self) -> WorkspaceOwnerView {
        self@
    }
}

impl Clone for WorkspaceOwner {
    fn clone(&self) -> (r: Self)
        ensures
            r@ == self@,
    {
        WorkspaceOwner {
            uid: self.uid,
            gid: self.gid,
            home: self.home.clone(),
            ssh_auth_sock: self.ssh_auth_sock.clone(),
        }
    }
}

/// How a container's configuration compares with the resolved one.
#[derive(Debug, Clone, Copy, PartialEq, Eq, Structural)]
pub enum SyncStatus {
    Synced,
    Drifted,
    Unknown,
    Orphaned,
}

impl DeepView for SyncStatus {
    type V = SyncStatus;

    open spec fn deep_view(&self) -> SyncStatus {
        *self
    }
}

/// What is being done to a container right now.
#[derive(Debug, Clone, Copy, PartialEq, Eq, Structural)]
pub enum PendingAction {
    Starting,
    Stopping,
    Removing,
}

impl DeepView for PendingAction {
    type V = PendingAction;

    open spec fn deep_view(&self) -> PendingAction {
        *self
    }
}

/// A name under which a container's port is reachable.
#[derive(Debug, PartialEq, Eq)]
pub struct PortRoute {
    pub domain: String,
    pub host_port: u16,
    pub wildcard: bool,
    pub container_port: String,
    pub https: bool,
}

/// The view of a [`PortRoute`].
pub struct PortRouteView {
    pub domain: Seq<char>,
    pub host_port: u16,
    pub wildcard: bool,
    pub container_port: Seq<char>,
    pub https: bool,
}

impl View for PortRoute {
    type V = PortRouteView;

    open spec fn view(&self) -> PortRouteView {
        PortRouteView {
            domain: self.domain@,
            host_port: self.host_port,
            wildcard: self.wildcard,
            container_port: self.container_port@,
            https: self.https,
        }
    }
}

impl DeepView for PortRoute {
    type V = PortRouteView;

    open spec fn deep_view(&self) -> PortRouteView {
        self@
    }
}

impl Clone for PortRoute {
    fn clone(&self) -> (r: Self)
        ensures
            r@ == self@,
    {
        PortRoute {
            domain: self.domain.clone(),
            host_port: self.host_port,
            wildcard: self.wildcard,
            container_port: self.container_port.clone(),
            https: self.https,
        }
    }
}

/// What a container should be.
#[derive(Debug, PartialEq, Eq)]
pub struct ContainerDesired {
    pub running: bool,
    pub container_name: String,
    pub domain: String,
    pub raw_domain: String,
    pub routes: Vec<PortRoute>,
    pub additional_hosts: Vec<String>,
    pub status_port: Option<String>,
    pub config_hash: String,
}

/// The view of a [`ContainerDesired`].
pub struct ContainerDesiredView {
    pub running: bool,
    pub container_name: Seq<char>,
    pub domain: Seq<char>,
    pub raw_domain: Seq<char>,
    pub routes: Seq<PortRouteView>,
    pub additional_hosts: Seq<Seq<char>>,
    pub status_port: Option<Seq<char>>,
    pub config_hash: Seq<char>,
}

impl View for ContainerDesired {
    type V = ContainerDesiredView;

    open spec fn view(&self) -> ContainerDesiredView {
        ContainerDesiredView {
            running: self.running,
            container_name: self.container_name@,
            domain: self.domain@,
            raw_domain: self.raw_domain@,
            routes: self.routes.deep_view(),
            additional_hosts: self.additional_hosts.deep_view(),
            status_port: self.status_port.deep_view(),
            config_hash: self.config_hash@,
        }
    }
}

impl DeepView for ContainerDesired {
    type V = ContainerDesiredView;

    open spec fn deep_view(&self) -> ContainerDesiredView {
        self@
    }
}

impl Clone for ContainerDesired {
    fn clone(&self) -> (r: Self)
        ensures
            r@ == self@,
    {
        let r = ContainerDesired {
            running: self.running,
            container_name: self.container_name.clone(),
            domain: self.domain.clone(),
            raw_domain: self.raw_domain.clone(),
            routes: self.routes.clone(),
            additional_hosts: self.additional_hosts.clone(),
            status_port: self.status_port.clone(),
            config_hash: self.config_hash.clone(),
        };
        proof {
            assert(r.routes.deep_view() =~= self.routes.deep_view());
            assert(r.additional_hosts.deep_view() =~= self.additional_hosts.deep_view());
        }
        r
    }
}

impl ContainerDesiredView {
    /// The desired state of a container of which nothing is known.
    pub open spec fn blank() -> ContainerDesiredView {
        ContainerDesiredView {
            running: false,
            container_name: Seq::empty(),
            domain: Seq::empty(),
            raw_domain: Seq::empty(),
            routes: Seq::empty(),
            additional_hosts: Seq::empty(),
            status_port: None,
            config_hash: Seq::empty(),
        }
    }
}

impl Default for ContainerDesired {
    fn default() -> (r: Self)
        ensures
            r@ == ContainerDesiredView::blank(),
    {
        let r = ContainerDesired {
            running: false,
            container_name: String::new(),
            domain: String::new(),
            raw_domain: String::new(),
            routes: Vec::new(),
            additional_hosts: Vec::new(),
            status_port: None,
            config_hash: String::new(),
        };
        proof {
            assert(r.routes.deep_view() =~= Seq::empty());
            assert(r.additional_hosts.deep_view() =~= Seq::empty());
        }
        r
    }
}

/// What a container was last seen to be.
#[derive(Debug, PartialEq, Eq)]
pub struct ContainerObserved {
    pub status: String,
    pub published_port: Option<u16>,
    pub ip: Option<String>,
    pub ports: StrMap<Option<u16>>,
    pub sync: SyncStatus,
}

/// The view of a [`ContainerObserved`].
pub struct ContainerObservedView {
    pub status: Seq<char>,
    pub published_port: Option<u16>,
    pub ip: Option<Seq<char>>,
    pub ports: Map<Seq<char>, Option<u16>>,
    pub sync: SyncStatus,
}

impl View for ContainerObserved {
    type V = ContainerObservedView;

    open spec fn view(&self) -> ContainerObservedView {
        ContainerObservedView {
            status: self.status@,
            published_port: self.published_port,
            ip: self.ip.deep_view(),
            ports: self.ports@,
            sync: self.sync,
        }
    }
}

impl DeepView for ContainerObserved {
    type V = ContainerObservedView;

    open spec fn deep_view(&self) -> ContainerObservedView {
        self@
    }
}

impl Clone for ContainerObserved {
    fn clone(&self) -> (r: Self)
        ensures
            r@ == self@,
    {
        ContainerObserved {
            status: self.status.clone(),
            published_port: self.published_port,
            ip: self.ip.clone(),
            ports: self.ports.clone(),
            sync: self.sync,
        }
    }
}

impl ContainerObservedView {
    /// What is recorded of a container that was never inspected.
    pub open spec fn blank() -> ContainerObservedView {
        ContainerObservedView {
            status: Seq::empty(),
            published_port: None,
            ip: None,
            ports: Map::empty(),
            sync: SyncStatus::Unknown,
        }
    }
}

impl Default for ContainerObserved {
    fn default() -> (r: Self)
        ensures
            r@ == ContainerObservedView::blank(),
    {
        ContainerObserved {
            status: String::new(),
            published_port: None,
            ip: None,
            ports: StrMap::new(),
            sync: SyncStatus::Unknown,
        }
    }
}

/// A container of a run.
#[derive(Debug, PartialEq, Eq)]
pub struct ContainerInfo {
    pub node_id: String,
    pub desired: ContainerDesired,
    pub observed: ContainerObserved,
    pub pending_action: Option<PendingAction>,
}

/// The view of a [`ContainerInfo`].
pub struct ContainerInfoView {
    pub node_id: Seq<char>,
    pub desired: ContainerDesiredView,
    pub observed: ContainerObservedView,
    pub pending_action: Option<PendingAction>,
}

impl View for ContainerInfo {
    type V = ContainerInfoView;

    open spec fn view(&self) -> ContainerInfoView {
        ContainerInfoView {
            node_id: self.node_id@,
            desired: self.desired@,
            observed: self.observed@,
            pending_action: self.pending_action,
        }
    }
}

impl DeepView for ContainerInfo {
    type V = ContainerInfoView;

    open spec fn deep_view(&self) -> ContainerInfoView {
        self@
    }
}

impl Clone for ContainerInfo {
    fn clone(&self) -> (r: Self)
        ensures
            r@ == self@,
    {
        ContainerInfo {
            node_id: self.node_id.clone(),
            desired: self.desired.clone(),
            observed: self.observed.clone(),
            pending_action: self.pending_action,
        }
    }
}

/// A named volume of a run.
#[derive(Debug, PartialEq, Eq)]
pub struct VolumeDesired {
    pub name: String,
}

/// What a volume was last seen to be.
#[derive(Debug, Clone, Copy, PartialEq, Eq, Structural)]
pub struct VolumeObserved {
    pub exists: bool,
}

/// A volume of a run.
#[derive(Debug, PartialEq, Eq)]
pub struct VolumeInfo {
    pub desired: VolumeDesired,
    pub observed: VolumeObserved,
}

/// The view of a [`VolumeInfo`].
pub struct VolumeInfoView {
    pub name: Seq<char>,
    pub exists: bool,
}

impl View for VolumeInfo {
    type V = VolumeInfoView;

    open spec fn view(&self) -> VolumeInfoView {
        VolumeInfoView { name: self.desired.name@, exists: self.observed.exists }
    }
}

impl DeepView for VolumeInfo {
    type V = VolumeInfoView;

    open spec fn deep_view(&self) -> VolumeInfoView {
        self@
    }
}

impl Clone for VolumeInfo {
    fn clone(&self) -> (r: Self)
        ensures
            r@ == self@,
    {
        VolumeInfo {
            desired: VolumeDesired { name: self.desired.name.clone() },
            observed: self.observed,
        }
    }
}

/// What a caller asked a run to be.
#[derive(Debug, PartialEq, Eq)]
pub struct RunSpec {
    pub run_id: Option<String>,
    pub flow: Option<String>,
}

/// The view of a [`RunSpec`].
pub struct RunSpecView {
    pub run_id: Option<Seq<char>>,
    pub flow: Option<Seq<char>>,
}

impl View for RunSpec {
    type V = RunSpecView;

    open spec fn view(&self) -> RunSpecView {
        RunSpecView { run_id: self.run_id.deep_view(), flow: self.flow.deep_view() }
    }
}

impl DeepView for RunSpec {
    type V = RunSpecView;

    open spec fn deep_view(&self) -> RunSpecView {
        self@
    }
}

impl Clone for RunSpec {
    fn clone(&self) -> (r: Self)
        ensures
            r@ == self@,
    {
        RunSpec { run_id: self.run_id.clone(), flow: self.flow.clone() }
    }
}

/// A run: an environment of containers on one network.
#[derive(Debug, PartialEq, Eq)]
pub struct RunState {
    pub run_id: String,
    pub network: String,
    pub containers: StrMap<ContainerInfo>,
    pub volumes: StrMap<VolumeInfo>,
    pub sidecar_container_name: String,
    pub sidecar_ip: Option<String>,
    /// A creation that was asked for and has not settled yet.
    pub pending_create: Option<RunSpec>,
    /// Whether a teardown was asked for and has not settled yet.
    pub pending_teardown: bool,
}

/// The view of a [`RunState`].
pub struct RunStateView {
    pub run_id: Seq<char>,
    pub network: Seq<char>,
    pub containers: Map<Seq<char>, ContainerInfoView>,
    pub volumes: Map<Seq<char>, VolumeInfoView>,
    pub sidecar_container_name: Seq<char>,
    pub sidecar_ip: Option<Seq<char>>,
    pub pending_create: Option<RunSpecView>,
    pub pending_teardown: bool,
}

impl View for RunState {
    type V = RunStateView;

    open spec fn view(&self) -> RunStateView {
        RunStateView {
            run_id: self.run_id@,
            network: self.network@,
            containers: self.containers@,
            volumes: self.volumes@,
            sidecar_container_name: self.sidecar_container_name@,
            sidecar_ip: self.sidecar_ip.deep_view(),
            pending_create: self.pending_create.deep_view(),
            pending_teardown: self.pending_teardown,
        }
    }
}

impl DeepView for RunState {
    type V = RunStateView;

    open spec fn deep_view(&self) -> RunStateView {
        self@
    }
}

impl Clone for RunState {
    fn clone(&self) -> (r: Self)
        ensures
            r@ == self@,
    {
        RunState {
            run_id: self.run_id.clone(),
            network: self.network.clone(),
            containers: self.containers.clone(),
            volumes: self.volumes.clone(),
            sidecar_container_name: self.sidecar_container_name.clone(),
            sidecar_ip: self.sidecar_ip.clone(),
            pending_create: self.pending_create.clone(),
            pending_teardown: self.pending_teardown,
        }
    }
}

impl RunStateView {
    /// A run of which only the id is known.
    pub open spec fn blank(run_id: Seq<char>) -> RunStateView {
        RunStateView {
            run_id,
            network: Seq::empty(),
            containers: Map::empty(),
            volumes: Map::empty(),
            sidecar_container_name: Seq::empty(),
            sidecar_ip: None,
            pending_create: None,
            pending_teardown: false,
        }
    }
}

impl RunState {
    /// A run of which only the id is known.
    pub fn blank(run_id: String) -> (r: Self)
        ensures
            r@ == RunStateView::blank(run_id@),
    {
        RunState {
            run_id,
            network: String::new(),
            containers: StrMap::new(),
            volumes: StrMap::new(),
            sidecar_container_name: String::new(),
            sidecar_ip: None,
            pending_create: None,
            pending_teardown: false,
        }
    }
}

impl Default for RunState {
    fn default() -> (r: Self)
        ensures
            r@ == RunStateView::blank(Seq::empty()),
    {
        RunState::blank(String::new())
    }
}

/// Everything known of one workspace.
#[derive(Debug, PartialEq, Eq)]
pub struct WorkspaceState {
    pub path: String,
    pub owner: Option<WorkspaceOwner>,
    pub runs: StrMap<RunState>,
}

/// The view of a [`WorkspaceState`].
pub struct WorkspaceStateView {
    pub path: Seq<char>,
    pub owner: Option<WorkspaceOwnerView>,
    pub runs: Map<Seq<char>, RunStateView>,
}

impl View for WorkspaceState {
    type V = WorkspaceStateView;

    open spec fn view(&self) -> WorkspaceStateView {
        WorkspaceStateView {
            path: self.path@,
            owner: self.owner.deep_view(),
            runs: self.runs@,
        }
    }
}

impl DeepView for WorkspaceState {
    type V = WorkspaceStateView;

    open spec fn deep_view(&self) -> WorkspaceStateView {
        self@
    }
}

impl Clone for WorkspaceState {
    fn clone(&self) -> (r: Self)
        ensures
            r@ == self@,
    {
        WorkspaceState {
            path: self.path.clone(),
            owner: self.owner.clone(),
            runs: self.runs.clone(),
        }
    }
}

impl WorkspaceStateView {
    /// A workspace without an owner and without runs.
    pub open spec fn blank() -> WorkspaceStateView {
        WorkspaceStateView { path: Seq::empty(), owner: None, runs: Map::empty() }
    }
}

impl Default for WorkspaceState {
    fn default() -> (r: Self)
        ensures
            r@ == WorkspaceStateView::blank(),
    {
        WorkspaceState { path: String::new(), owner: None, runs: StrMap::new() }
    }
}

/// Why a run could not be created, with what came up before the failure.
#[derive(Debug, PartialEq, Eq)]
pub struct RunCreateError {
    pub message: String,
    pub partial: Option<RunState>,
}

impl RunCreateError {
    /// A failure that left nothing behind.
    pub fn bare(message: &str) -> (r: Self)
        ensures
            r.message@ == message@,
            r.partial is None,
    {
        RunCreateError { message: message.to_owned(), partial: None }
    }
}

impl Clone for RunCreateError {
    fn clone(&self) -> (r: Self)
        ensures
            r.message@ == self.message@,
            r.partial.deep_view() == self.partial.deep_view(),
    {
        RunCreateError { message: self.message.clone(), partial: self.partial.clone() }
    }
}

/// The verdict on one container's configuration.
#[derive(Debug, PartialEq, Eq)]
pub struct DriftReport {
    pub run_id: String,
    pub node_id: String,
    pub sync: SyncStatus,
}

} // verus!
