//! Component configurations and the graph they resolve to.

use vstd::prelude::*;

use crate::strmap::StrMap;

verus! {

/// Where an image is built unless the configuration says otherwise.
pub fn default_context() -> (r: String)
    ensures
        r@ == "."@,
{
    ".".to_owned()
}

/// What an image is built from unless the configuration says otherwise.
pub fn default_dockerfile() -> (r: String)
    ensures
        r@ == "Dockerfile"@,
{
    "Dockerfile".to_owned()
}

/// What a domain or a volume is kept apart by unless the configuration says
/// otherwise.
pub fn default_domain_scope() -> (r: String)
    ensures
        r@ == "run"@,
{
    "run".to_owned()
}

/// When a container is restarted unless the configuration says otherwise.
pub fn default_restart() -> (r: String)
    ensures
        r@ == "no"@,
{
    "no".to_owned()
}

/// How a container tells that it is ready. The times are in seconds.
#[derive(Debug, PartialEq, Eq)]
pub struct Healthcheck {
    pub test: Vec<String>,
    pub interval: Option<u64>,
    pub timeout: Option<u64>,
    pub start_period: Option<u64>,
    pub retries: Option<u64>,
}

/// The view of a [`Healthcheck`].
pub struct HealthcheckView {
    pub test: Seq<Seq<char>>,
    pub interval: Option<u64>,
    pub timeout: Option<u64>,
    pub start_period: Option<u64>,
    pub retries: Option<u64>,
}

impl View for Healthcheck {
    type V = HealthcheckView;

    open spec fn view(&self) -> HealthcheckView {
        HealthcheckView {
            test: self.test.deep_view(),
            interval: self.interval,
            timeout: self.timeout,
            start_period: self.start_period,
            retries: self.retries,
        }
    }
}

impl DeepView for Healthcheck {
    type V = HealthcheckView;

    open spec fn deep_view(&self) -> HealthcheckView {
        self@
    }
}

impl Clone for Healthcheck {
    fn clone(&self) -> (r: Self)
        ensures
            r@ == self@,
    {
        let r = Healthcheck {
            test: self.test.clone(),
            interval: self.interval,
            timeout: self.timeout,
            start_period: self.start_period,
            retries: self.retries,
        };
        proof {
            assert(r.test.deep_view() =~= self.test.deep_view());
        }
        r
    }
}

/// A bind mount or a named volume.
#[derive(Debug, PartialEq, Eq)]
pub enum VolumeMount {
    Bind { host: String, container: String, read_only: bool },
    Named { name: String, scope: String, container: String, read_only: bool },
}

/// The view of a [`VolumeMount`].
pub enum VolumeMountView {
    Bind { host: Seq<char>, container: Seq<char>, read_only: bool },
    Named { name: Seq<char>, scope: Seq<char>, container: Seq<char>, read_only: bool },
}

impl View for VolumeMount {
    type V = VolumeMountView;

    open spec fn view(&self) -> VolumeMountView {
        match *self {
            VolumeMount::Bind { host, container, read_only } => VolumeMountView::Bind {
                host: host@,
                container: container@,
                read_only,
            },
            VolumeMount::Named { name, scope, container, read_only } => VolumeMountView::Named {
                name: name@,
                scope: scope@,
                container: container@,
                read_only,
            },
        }
    }
}

impl DeepView for VolumeMount {
    type V = VolumeMountView;

    open spec fn deep_view(&self) -> VolumeMountView {
        self@
    }
}

impl Clone for VolumeMount {
    fn clone(&self) -> (r: Self)
        ensures
            r@ == self@,
    {
        match self {
            VolumeMount::Bind { host, container, read_only } => VolumeMount::Bind {
                host: host.clone(),
                container: container.clone(),
                read_only: *read_only,
            },
            VolumeMount::Named { name, scope, container, read_only } => VolumeMount::Named {
                name: name.clone(),
                scope: scope.clone(),
                container: container.clone(),
                read_only: *read_only,
            },
        }
    }
}

/// The role of a declared container port.
#[derive(Debug, PartialEq, Eq)]
pub struct PortConfig {
    /// Whether the port sits at the node's own domain.
    pub primary: bool,
    pub name: Option<String>,
    pub host_port: Option<u16>,
}

/// The view of a [`PortConfig`].
pub struct PortConfigView {
    pub primary: bool,
    pub name: Option<Seq<char>>,
    pub host_port: Option<u16>,
}

impl View for PortConfig {
    type V = PortConfigView;

    open spec fn view(&self) -> PortConfigView {
        PortConfigView {
            primary: self.primary,
            name: self.name.deep_view(),
            host_port: self.host_port,
        }
    }
}

impl DeepView for PortConfig {
    type V = PortConfigView;

    open spec fn deep_view(&self) -> PortConfigView {
        self@
    }
}

impl Clone for PortConfig {
    fn clone(&self) -> (r: Self)
        ensures
            r@ == self@,
    {
        PortConfig {
            primary: self.primary,
            name: self.name.clone(),
            host_port: self.host_port,
        }
    }
}

impl PortConfigView {
    /// A port without a role.
    pub open spec fn plain() -> PortConfigView {
        PortConfigView { primary: false, name: None, host_port: None }
    }
}

impl Default for PortConfig {
    fn default() -> (r: Self)
        ensures
            r@ == PortConfigView::plain(),
    {
        PortConfig { primary: false, name: None, host_port: None }
    }
}

/// How a node's image is built.
#[derive(Debug, PartialEq, Eq)]
pub struct NodeBuild {
    pub context: String,
    pub dockerfile: String,
    pub args: StrMap<String>,
}

/// The view of a [`NodeBuild`].
pub struct NodeBuildView {
    pub context: Seq<char>,
    pub dockerfile: Seq<char>,
    pub args: Map<Seq<char>, Seq<char>>,
}

impl View for NodeBuild {
    type V = NodeBuildView;

    open spec fn view(&self) -> NodeBuildView {
        NodeBuildView {
            context: self.context@,
            dockerfile: self.dockerfile@,
            args: self.args@,
        }
    }
}

impl DeepView for NodeBuild {
    type V = NodeBuildView;

    open spec fn deep_view(&self) -> NodeBuildView {
        self@
    }
}

impl Clone for NodeBuild {
    fn clone(&self) -> (r: Self)
        ensures
            r@ == self@,
    {
        NodeBuild {
            context: self.context.clone(),
            dockerfile: self.dockerfile.clone(),
            args: self.args.clone(),
        }
    }
}

/// Environment variables, as a table or as a list of `KEY=value` strings.
#[derive(Debug, PartialEq, Eq)]
pub enum Environment {
    Table(StrMap<String>),
    List(Vec<String>),
}

/// The view of an [`Environment`].
pub enum EnvironmentView {
    Table(Map<Seq<char>, Seq<char>>),
    List(Seq<Seq<char>>),
}

impl View for Environment {
    type V = EnvironmentView;

    open spec fn view(&self) -> EnvironmentView {
        match *self {
            Environment::Table(m) => EnvironmentView::Table(m@),
            Environment::List(l) => EnvironmentView::List(l.deep_view()),
        }
    }
}

impl DeepView for Environment {
    type V = EnvironmentView;

    open spec fn deep_view(&self) -> EnvironmentView {
        self@
    }
}

impl Clone for Environment {
    fn clone(&self) -> (r: Self)
        ensures
            r@ == self@,
    {
        match self {
            Environment::Table(m) => Environment::Table(m.clone()),
            Environment::List(l) => {
                let copy = l.clone();
                proof {
                    assert(copy.deep_view() =~= l.deep_view());
                }
                Environment::List(copy)
            },
        }
    }
}

impl Default for Environment {
    fn default() -> (r: Self)
        ensures
            r@ == EnvironmentView::List(Seq::empty()),
    {
        let l: Vec<String> = Vec::new();
        proof {
            assert(l.deep_view() =~= Seq::<Seq<char>>::empty());
        }
        Environment::List(l)
    }
}

/// A dependency that its owner runs for itself, such as a database.
#[derive(Debug, PartialEq, Eq)]
pub struct BackingDependencyConfig {
    pub name: String,
    pub image: String,
    pub ports: Vec<String>,
    pub domain_scope: String,
    pub environment: Environment,
    pub env_file: Vec<String>,
    pub command: Vec<String>,
    pub volumes: Vec<VolumeMount>,
    pub restart: String,
    pub user: Option<String>,
    pub working_dir: Option<String>,
    pub labels: StrMap<String>,
    pub cap_add: Vec<String>,
    pub cap_drop: Vec<String>,
    pub privileged: bool,
    pub extra_hosts: Vec<String>,
    pub healthcheck: Option<Healthcheck>,
    pub platform: Option<String>,
}

/// The view of a [`BackingDependencyConfig`].
pub struct BackingDependencyConfigView {
    pub name: Seq<char>,
    pub image: Seq<char>,
    pub ports: Seq<Seq<char>>,
    pub domain_scope: Seq<char>,
    pub environment: EnvironmentView,
    pub env_file: Seq<Seq<char>>,
    pub command: Seq<Seq<char>>,
    pub volumes: Seq<VolumeMountView>,
    pub restart: Seq<char>,
    pub user: Option<Seq<char>>,
    pub working_dir: Option<Seq<char>>,
    pub labels: Map<Seq<char>, Seq<char>>,
    pub cap_add: Seq<Seq<char>>,
    pub cap_drop: Seq<Seq<char>>,
    pub privileged: bool,
    pub extra_hosts: Seq<Seq<char>>,
    pub healthcheck: Option<HealthcheckView>,
    pub platform: Option<Seq<char>>,
}

impl View for BackingDependencyConfig {
    type V = BackingDependencyConfigView;

    open spec fn view(&self) -> BackingDependencyConfigView {
        BackingDependencyConfigView {
            name: self.name@,
            image: self.image@,
            ports: self.ports.deep_view(),
            domain_scope: self.domain_scope@,
            environment: self.environment@,
            env_file: self.env_file.deep_view(),
            command: self.command.deep_view(),
            volumes: self.volumes.deep_view(),
            restart: self.restart@,
            user: self.user.deep_view(),
            working_dir: self.working_dir.deep_view(),
            labels: self.labels@,
            cap_add: self.cap_add.deep_view(),
            cap_drop: self.cap_drop.deep_view(),
            privileged: self.privileged,
            extra_hosts: self.extra_hosts.deep_view(),
            healthcheck: self.healthcheck.deep_view(),
            platform: self.platform.deep_view(),
        }
    }
}

impl DeepView for BackingDependencyConfig {
    type V = BackingDependencyConfigView;

    open spec fn deep_view(&self) -> BackingDependencyConfigView {
        self@
    }
}

impl BackingDependencyConfigView {
    /// A dependency of which only the name and the image are given.
    pub open spec fn plain(name: Seq<char>, image: Seq<char>) -> BackingDependencyConfigView {
        BackingDependencyConfigView {
            name,
            image,
            ports: Seq::empty(),
            domain_scope: "run"@,
            environment: EnvironmentView::List(Seq::empty()),
            env_file: Seq::empty(),
            command: Seq::empty(),
            volumes: Seq::empty(),
            restart: "no"@,
            user: None,
            working_dir: None,
            labels: Map::empty(),
            cap_add: Seq::empty(),
            cap_drop: Seq::empty(),
            privileged: false,
            extra_hosts: Seq::empty(),
            healthcheck: None,
            platform: None,
        }
    }
}

impl BackingDependencyConfig {
    /// A dependency of which only the name and the image are given.
    pub fn plain(name: &str, image: &str) -> (r: Self)
        ensures
            r@ == BackingDependencyConfigView::plain(name@, image@),
    {
        let r = BackingDependencyConfig {
            name: name.to_owned(),
            image: image.to_owned(),
            ports: Vec::new(),
            domain_scope: default_domain_scope(),
            environment: Environment::default(),
            env_file: Vec::new(),
            command: Vec::new(),
            volumes: Vec::new(),
            restart: default_restart(),
            user: None,
            working_dir: None,
            labels: StrMap::new(),
            cap_add: Vec::new(),
            cap_drop: Vec::new(),
            privileged: false,
            extra_hosts: Vec::new(),
            healthcheck: None,
            platform: None,
        };
        proof {
            assert(r@.ports =~= Seq::empty());
            assert(r@.env_file =~= Seq::empty());
            assert(r@.command =~= Seq::empty());
            assert(r@.volumes =~= Seq::empty());
            assert(r@.cap_add =~= Seq::empty());
            assert(r@.cap_drop =~= Seq::empty());
            assert(r@.extra_hosts =~= Seq::empty());
        }
        r
    }
}

impl Clone for BackingDependencyConfig {
    fn clone(&self) -> (r: Self)
        ensures
            r@ == self@,
    {
        let r = BackingDependencyConfig {
            name: self.name.clone(),
            image: self.image.clone(),
            ports: self.ports.clone(),
            domain_scope: self.domain_scope.clone(),
            environment: self.environment.clone(),
            env_file: self.env_file.clone(),
            command: self.command.clone(),
            volumes: self.volumes.clone(),
            restart: self.restart.clone(),
            user: self.user.clone(),
            working_dir: self.working_dir.clone(),
            labels: self.labels.clone(),
            cap_add: self.cap_add.clone(),
            cap_drop: self.cap_drop.clone(),
            privileged: self.privileged,
            extra_hosts: self.extra_hosts.clone(),
            healthcheck: self.healthcheck.clone(),
            platform: self.platform.clone(),
        };
        proof {
            assert(r.ports.deep_view() =~= self.ports.deep_view());
            assert(r.env_file.deep_view() =~= self.env_file.deep_view());
            assert(r.command.deep_view() =~= self.command.deep_view());
            assert(r.volumes.deep_view() =~= self.volumes.deep_view());
            assert(r.cap_add.deep_view() =~= self.cap_add.deep_view());
            assert(r.cap_drop.deep_view() =~= self.cap_drop.deep_view());
            assert(r.extra_hosts.deep_view() =~= self.extra_hosts.deep_view());
        }
        r
    }
}

/// Something that a service or a flow depends on.
#[derive(Debug, PartialEq, Eq)]
pub enum Dependency {
    /// Services of another repo, or of this one where `repo` is left out. No
    /// names means the repo's only service.
    Service { repo: Option<String>, default_branch: Option<String>, services: Vec<String> },
    /// A dependency that the owner runs for itself.
    Backing(BackingDependencyConfig),
    /// A backing dependency that another service owns.
    SharedBacking { repo: Option<String>, service: String, name: String },
}

/// The view of a [`Dependency`].
pub enum DependencyView {
    Service {
        repo: Option<Seq<char>>,
        default_branch: Option<Seq<char>>,
        services: Seq<Seq<char>>,
    },
    Backing(BackingDependencyConfigView),
    SharedBacking { repo: Option<Seq<char>>, service: Seq<char>, name: Seq<char> },
}

impl View for Dependency {
    type V = DependencyView;

    open spec fn view(&self) -> DependencyView {
        match *self {
            Dependency::Service { repo, default_branch, services } => DependencyView::Service {
                repo: repo.deep_view(),
                default_branch: default_branch.deep_view(),
                services: services.deep_view(),
            },
            Dependency::Backing(b) => DependencyView::Backing(b@),
            Dependency::SharedBacking { repo, service, name } => DependencyView::SharedBacking {
                repo: repo.deep_view(),
                service: service@,
                name: name@,
            },
        }
    }
}

impl DeepView for Dependency {
    type V = DependencyView;

    open spec fn deep_view(&self) -> DependencyView {
        self@
    }
}

impl Clone for Dependency {
    fn clone(&self) -> (r: Self)
        ensures
            r@ == self@,
    {
        match self {
            Dependency::Service { repo, default_branch, services } => {
                let names = services.clone();
                proof {
                    assert(names.deep_view() =~= services.deep_view());
                }
                Dependency::Service {
                    repo: repo.clone(),
                    default_branch: default_branch.clone(),
                    services: names,
                }
            },
            Dependency::Backing(b) => Dependency::Backing(b.clone()),
            Dependency::SharedBacking { repo, service, name } => Dependency::SharedBacking {
                repo: repo.clone(),
                service: service.clone(),
                name: name.clone(),
            },
        }
    }
}

/// A service of a component.
#[derive(Debug, PartialEq, Eq)]
pub struct ServiceConfig {
    pub build: Option<NodeBuild>,
    pub ports: StrMap<PortConfig>,
    pub domain_scope: String,
    pub additional_hosts: Vec<String>,
    pub environment: Environment,
    pub env_file: Vec<String>,
    pub command: Vec<String>,
    pub volumes: Vec<VolumeMount>,
    pub restart: String,
    pub user: Option<String>,
    pub working_dir: Option<String>,
    pub labels: StrMap<String>,
    pub cap_add: Vec<String>,
    pub cap_drop: Vec<String>,
    pub privileged: bool,
    pub extra_hosts: Vec<String>,
    pub healthcheck: Option<Healthcheck>,
    pub platform: Option<String>,
    pub dependencies: Vec<Dependency>,
}

/// The view of a [`ServiceConfig`].
pub struct ServiceConfigView {
    pub build: Option<NodeBuildView>,
    pub ports: Map<Seq<char>, PortConfigView>,
    pub domain_scope: Seq<char>,
    pub additional_hosts: Seq<Seq<char>>,
    pub environment: EnvironmentView,
    pub env_file: Seq<Seq<char>>,
    pub command: Seq<Seq<char>>,
    pub volumes: Seq<VolumeMountView>,
    pub restart: Seq<char>,
    pub user: Option<Seq<char>>,
    pub working_dir: Option<Seq<char>>,
    pub labels: Map<Seq<char>, Seq<char>>,
    pub cap_add: Seq<Seq<char>>,
    pub cap_drop: Seq<Seq<char>>,
    pub privileged: bool,
    pub extra_hosts: Seq<Seq<char>>,
    pub healthcheck: Option<HealthcheckView>,
    pub platform: Option<Seq<char>>,
    pub dependencies: Seq<DependencyView>,
}

impl View for ServiceConfig {
    type V = ServiceConfigView;

    open spec fn view(&self) -> ServiceConfigView {
        ServiceConfigView {
            build: self.build.deep_view(),
            ports: self.ports@,
            domain_scope: self.domain_scope@,
            additional_hosts: self.additional_hosts.deep_view(),
            environment: self.environment@,
            env_file: self.env_file.deep_view(),
            command: self.command.deep_view(),
            volumes: self.volumes.deep_view(),
            restart: self.restart@,
            user: self.user.deep_view(),
            working_dir: self.working_dir.deep_view(),
            labels: self.labels@,
            cap_add: self.cap_add.deep_view(),
            cap_drop: self.cap_drop.deep_view(),
            privileged: self.privileged,
            extra_hosts: self.extra_hosts.deep_view(),
            healthcheck: self.healthcheck.deep_view(),
            platform: self.platform.deep_view(),
            dependencies: self.dependencies.deep_view(),
        }
    }
}

impl DeepView for ServiceConfig {
    type V = ServiceConfigView;

    open spec fn deep_view(&self) -> ServiceConfigView {
        self@
    }
}

impl ServiceConfigView {
    /// A service of which nothing is given.
    pub open spec fn plain() -> ServiceConfigView {
        ServiceConfigView {
            build: None,
            ports: Map::empty(),
            domain_scope: "run"@,
            additional_hosts: Seq::empty(),
            environment: EnvironmentView::List(Seq::empty()),
            env_file: Seq::empty(),
            command: Seq::empty(),
            volumes: Seq::empty(),
            restart: "no"@,
            user: None,
            working_dir: None,
            labels: Map::empty(),
            cap_add: Seq::empty(),
            cap_drop: Seq::empty(),
            privileged: false,
            extra_hosts: Seq::empty(),
            healthcheck: None,
            platform: None,
            dependencies: Seq::empty(),
        }
    }
}

impl Default for ServiceConfig {
    fn default() -> (r: Self)
        ensures
            r@ == ServiceConfigView::plain(),
    {
        let r = ServiceConfig {
            build: None,
            ports: StrMap::new(),
            domain_scope: default_domain_scope(),
            additional_hosts: Vec::new(),
            environment: Environment::default(),
            env_file: Vec::new(),
            command: Vec::new(),
            volumes: Vec::new(),
            restart: default_restart(),
            user: None,
            working_dir: None,
            labels: StrMap::new(),
            cap_add: Vec::new(),
            cap_drop: Vec::new(),
            privileged: false,
            extra_hosts: Vec::new(),
            healthcheck: None,
            platform: None,
            dependencies: Vec::new(),
        };
        proof {
            assert(r@.additional_hosts =~= Seq::empty());
            assert(r@.env_file =~= Seq::empty());
            assert(r@.command =~= Seq::empty());
            assert(r@.volumes =~= Seq::empty());
            assert(r@.cap_add =~= Seq::empty());
            assert(r@.cap_drop =~= Seq::empty());
            assert(r@.extra_hosts =~= Seq::empty());
            assert(r@.dependencies =~= Seq::empty());
        }
        r
    }
}

impl Clone for ServiceConfig {
    fn clone(&self) -> (r: Self)
        ensures
            r@ == self@,
    {
        let r = ServiceConfig {
            build: self.build.clone(),
            ports: self.ports.clone(),
            domain_scope: self.domain_scope.clone(),
            additional_hosts: self.additional_hosts.clone(),
            environment: self.environment.clone(),
            env_file: self.env_file.clone(),
            command: self.command.clone(),
            volumes: self.volumes.clone(),
            restart: self.restart.clone(),
            user: self.user.clone(),
            working_dir: self.working_dir.clone(),
            labels: self.labels.clone(),
            cap_add: self.cap_add.clone(),
            cap_drop: self.cap_drop.clone(),
            privileged: self.privileged,
            extra_hosts: self.extra_hosts.clone(),
            healthcheck: self.healthcheck.clone(),
            platform: self.platform.clone(),
            dependencies: self.dependencies.clone(),
        };
        proof {
            assert(r.additional_hosts.deep_view() =~= self.additional_hosts.deep_view());
            assert(r.env_file.deep_view() =~= self.env_file.deep_view());
            assert(r.command.deep_view() =~= self.command.deep_view());
            assert(r.volumes.deep_view() =~= self.volumes.deep_view());
            assert(r.cap_add.deep_view() =~= self.cap_add.deep_view());
            assert(r.cap_drop.deep_view() =~= self.cap_drop.deep_view());
            assert(r.extra_hosts.deep_view() =~= self.extra_hosts.deep_view());
            assert(r.dependencies.deep_view() =~= self.dependencies.deep_view());
        }
        r
    }
}

/// A user flow: a service it starts at and what it needs besides.
#[derive(Debug, PartialEq, Eq)]
pub struct FlowConfig {
    pub service: Option<String>,
    pub dependencies: Vec<Dependency>,
}

/// The view of a [`FlowConfig`].
pub struct FlowConfigView {
    pub service: Option<Seq<char>>,
    pub dependencies: Seq<DependencyView>,
}

impl View for FlowConfig {
    type V = FlowConfigView;

    open spec fn view(&self) -> FlowConfigView {
        FlowConfigView {
            service: self.service.deep_view(),
            dependencies: self.dependencies.deep_view(),
        }
    }
}

impl DeepView for FlowConfig {
    type V = FlowConfigView;

    open spec fn deep_view(&self) -> FlowConfigView {
        self@
    }
}

impl Clone for FlowConfig {
    fn clone(&self) -> (r: Self)
        ensures
            r@ == self@,
    {
        let r = FlowConfig {
            service: self.service.clone(),
            dependencies: self.dependencies.clone(),
        };
        proof {
            assert(r.dependencies.deep_view() =~= self.dependencies.deep_view());
        }
        r
    }
}

/// What a repo declares.
#[derive(Debug, PartialEq, Eq)]
pub struct ComponentConfig {
    pub services: StrMap<ServiceConfig>,
    pub flows: StrMap<FlowConfig>,
}

/// The view of a [`ComponentConfig`].
pub struct ComponentConfigView {
    pub services: Map<Seq<char>, ServiceConfigView>,
    pub flows: Map<Seq<char>, FlowConfigView>,
}

impl View for ComponentConfig {
    type V = ComponentConfigView;

    open spec fn view(&self) -> ComponentConfigView {
        ComponentConfigView {
            services: self.services@,
            flows: self.flows@,
        }
    }
}

impl DeepView for ComponentConfig {
    type V = ComponentConfigView;

    open spec fn deep_view(&self) -> ComponentConfigView {
        self@
    }
}

impl Clone for ComponentConfig {
    fn clone(&self) -> (r: Self)
        ensures
            r@ == self@,
    {
        ComponentConfig {
            services: self.services.clone(),
            flows: self.flows.clone(),
        }
    }
}

/// A repo that is on disk, with the state of its checkout.
#[derive(Debug, PartialEq, Eq)]
pub struct ScannedRepo {
    pub component: ComponentConfig,
    pub remote: Option<String>,
    pub branch: Option<String>,
    pub dirty: bool,
}

/// The view of a [`ScannedRepo`].
pub struct ScannedRepoView {
    pub component: ComponentConfigView,
    pub remote: Option<Seq<char>>,
    pub branch: Option<Seq<char>>,
    pub dirty: bool,
}

impl View for ScannedRepo {
    type V = ScannedRepoView;

    open spec fn view(&self) -> ScannedRepoView {
        ScannedRepoView {
            component: self.component@,
            remote: self.remote.deep_view(),
            branch: self.branch.deep_view(),
            dirty: self.dirty,
        }
    }
}

impl DeepView for ScannedRepo {
    type V = ScannedRepoView;

    open spec fn deep_view(&self) -> ScannedRepoView {
        self@
    }
}

impl Clone for ScannedRepo {
    fn clone(&self) -> (r: Self)
        ensures
            r@ == self@,
    {
        ScannedRepo {
            component: self.component.clone(),
            remote: self.remote.clone(),
            branch: self.branch.clone(),
            dirty: self.dirty,
        }
    }
}

/// The repos of a workspace by folder name.
#[derive(Debug, PartialEq, Eq)]
pub struct Scan {
    pub workspace_name: String,
    pub repos: StrMap<ScannedRepo>,
}

/// The view of a [`Scan`].
pub struct ScanView {
    pub workspace_name: Seq<char>,
    pub repos: Map<Seq<char>, ScannedRepoView>,
}

impl View for Scan {
    type V = ScanView;

    open spec fn view(&self) -> ScanView {
        ScanView {
            workspace_name: self.workspace_name@,
            repos: self.repos@,
        }
    }
}

impl DeepView for Scan {
    type V = ScanView;

    open spec fn deep_view(&self) -> ScanView {
        self@
    }
}

impl Clone for Scan {
    fn clone(&self) -> (r: Self)
        ensures
            r@ == self@,
    {
        Scan {
            workspace_name: self.workspace_name.clone(),
            repos: self.repos.clone(),
        }
    }
}

/// A node of the graph.
#[derive(Debug, PartialEq, Eq)]
pub struct Node {
    pub id: String,
    pub label: String,
    /// `service` or `backing`.
    pub kind: String,
    pub image: Option<String>,
    pub branch: Option<String>,
    pub repo: Option<String>,
    /// `run` folds the run into the domain, `stable` leaves it out.
    pub domain_scope: String,
    pub local_path: Option<String>,
    /// The address of the node in the default run.
    pub domain: String,
    pub downloaded: bool,
    pub dirty: bool,
    /// The flows from which the node is reachable.
    pub flows: Vec<String>,
    pub build: Option<NodeBuild>,
    pub ports: StrMap<PortConfig>,
    pub environment: Vec<String>,
    pub command: Vec<String>,
    pub volumes: Vec<VolumeMount>,
    pub additional_hosts: Vec<String>,
    pub env_file: Vec<String>,
    pub restart: String,
    pub user: Option<String>,
    pub working_dir: Option<String>,
    pub labels: StrMap<String>,
    pub cap_add: Vec<String>,
    pub cap_drop: Vec<String>,
    pub privileged: bool,
    pub extra_hosts: Vec<String>,
    pub healthcheck: Option<Healthcheck>,
    pub platform: Option<String>,
}

/// The view of a [`Node`].
pub struct NodeView {
    pub id: Seq<char>,
    pub label: Seq<char>,
    pub kind: Seq<char>,
    pub image: Option<Seq<char>>,
    pub branch: Option<Seq<char>>,
    pub repo: Option<Seq<char>>,
    pub domain_scope: Seq<char>,
    pub local_path: Option<Seq<char>>,
    pub domain: Seq<char>,
    pub downloaded: bool,
    pub dirty: bool,
    pub flows: Seq<Seq<char>>,
    pub build: Option<NodeBuildView>,
    pub ports: Map<Seq<char>, PortConfigView>,
    pub environment: Seq<Seq<char>>,
    pub command: Seq<Seq<char>>,
    pub volumes: Seq<VolumeMountView>,
    pub additional_hosts: Seq<Seq<char>>,
    pub env_file: Seq<Seq<char>>,
    pub restart: Seq<char>,
    pub user: Option<Seq<char>>,
    pub working_dir: Option<Seq<char>>,
    pub labels: Map<Seq<char>, Seq<char>>,
    pub cap_add: Seq<Seq<char>>,
    pub cap_drop: Seq<Seq<char>>,
    pub privileged: bool,
    pub extra_hosts: Seq<Seq<char>>,
    pub healthcheck: Option<HealthcheckView>,
    pub platform: Option<Seq<char>>,
}

impl View for Node {
    type V = NodeView;

    open spec fn view(&self) -> NodeView {
        NodeView {
            id: self.id@,
            label: self.label@,
            kind: self.kind@,
            image: self.image.deep_view(),
            branch: self.branch.deep_view(),
            repo: self.repo.deep_view(),
            domain_scope: self.domain_scope@,
            local_path: self.local_path.deep_view(),
            domain: self.domain@,
            downloaded: self.downloaded,
            dirty: self.dirty,
            flows: self.flows.deep_view(),
            build: self.build.deep_view(),
            ports: self.ports@,
            environment: self.environment.deep_view(),
            command: self.command.deep_view(),
            volumes: self.volumes.deep_view(),
            additional_hosts: self.additional_hosts.deep_view(),
            env_file: self.env_file.deep_view(),
            restart: self.restart@,
            user: self.user.deep_view(),
            working_dir: self.working_dir.deep_view(),
            labels: self.labels@,
            cap_add: self.cap_add.deep_view(),
            cap_drop: self.cap_drop.deep_view(),
            privileged: self.privileged,
            extra_hosts: self.extra_hosts.deep_view(),
            healthcheck: self.healthcheck.deep_view(),
            platform: self.platform.deep_view(),
        }
    }
}

impl DeepView for Node {
    type V = NodeView;

    open spec fn deep_view(&self) -> NodeView {
        self@
    }
}

impl Clone for Node {
    fn clone(&self) -> (r: Self)
        ensures
            r@ == self@,
    {
        let r = Node {
            id: self.id.clone(),
            label: self.label.clone(),
            kind: self.kind.clone(),
            image: self.image.clone(),
            branch: self.branch.clone(),
            repo: self.repo.clone(),
            domain_scope: self.domain_scope.clone(),
            local_path: self.local_path.clone(),
            domain: self.domain.clone(),
            downloaded: self.downloaded,
            dirty: self.dirty,
            flows: self.flows.clone(),
            build: self.build.clone(),
            ports: self.ports.clone(),
            environment: self.environment.clone(),
            command: self.command.clone(),
            volumes: self.volumes.clone(),
            additional_hosts: self.additional_hosts.clone(),
            env_file: self.env_file.clone(),
            restart: self.restart.clone(),
            user: self.user.clone(),
            working_dir: self.working_dir.clone(),
            labels: self.labels.clone(),
            cap_add: self.cap_add.clone(),
            cap_drop: self.cap_drop.clone(),
            privileged: self.privileged,
            extra_hosts: self.extra_hosts.clone(),
            healthcheck: self.healthcheck.clone(),
            platform: self.platform.clone(),
        };
        proof {
            assert(r.flows.deep_view() =~= self.flows.deep_view());
            assert(r.environment.deep_view() =~= self.environment.deep_view());
            assert(r.command.deep_view() =~= self.command.deep_view());
            assert(r.volumes.deep_view() =~= self.volumes.deep_view());
            assert(r.additional_hosts.deep_view() =~= self.additional_hosts.deep_view());
            assert(r.env_file.deep_view() =~= self.env_file.deep_view());
            assert(r.cap_add.deep_view() =~= self.cap_add.deep_view());
            assert(r.cap_drop.deep_view() =~= self.cap_drop.deep_view());
            assert(r.extra_hosts.deep_view() =~= self.extra_hosts.deep_view());
        }
        r
    }
}

/// An edge of the graph.
#[derive(Debug, PartialEq, Eq)]
pub struct Edge {
    pub from: String,
    pub to: String,
    /// `depends-on`, `owns` or `shared-backing`.
    pub kind: String,
    pub branch: Option<String>,
    pub flows: Vec<String>,
}

/// The view of a [`Edge`].
pub struct EdgeView {
    pub from: Seq<char>,
    pub to: Seq<char>,
    pub kind: Seq<char>,
    pub branch: Option<Seq<char>>,
    pub flows: Seq<Seq<char>>,
}

impl View for Edge {
    type V = EdgeView;

    open spec fn view(&self) -> EdgeView {
        EdgeView {
            from: self.from@,
            to: self.to@,
            kind: self.kind@,
            branch: self.branch.deep_view(),
            flows: self.flows.deep_view(),
        }
    }
}

impl DeepView for Edge {
    type V = EdgeView;

    open spec fn deep_view(&self) -> EdgeView {
        self@
    }
}

impl Clone for Edge {
    fn clone(&self) -> (r: Self)
        ensures
            r@ == self@,
    {
        let r = Edge {
            from: self.from.clone(),
            to: self.to.clone(),
            kind: self.kind.clone(),
            branch: self.branch.clone(),
            flows: self.flows.clone(),
        };
        proof {
            assert(r.flows.deep_view() =~= self.flows.deep_view());
        }
        r
    }
}

/// Everything that a workspace holds and refers to.
#[derive(Debug, PartialEq, Eq)]
pub struct Graph {
    pub workspace_name: String,
    pub nodes: Vec<Node>,
    pub edges: Vec<Edge>,
    pub warnings: Vec<String>,
}

/// The view of a [`Graph`].
pub struct GraphView {
    pub workspace_name: Seq<char>,
    pub nodes: Seq<NodeView>,
    pub edges: Seq<EdgeView>,
    pub warnings: Seq<Seq<char>>,
}

impl View for Graph {
    type V = GraphView;

    open spec fn view(&self) -> GraphView {
        GraphView {
            workspace_name: self.workspace_name@,
            nodes: self.nodes.deep_view(),
            edges: self.edges.deep_view(),
            warnings: self.warnings.deep_view(),
        }
    }
}

impl DeepView for Graph {
    type V = GraphView;

    open spec fn deep_view(&self) -> GraphView {
        self@
    }
}

impl Clone for Graph {
    fn clone(&self) -> (r: Self)
        ensures
            r@ == self@,
    {
        let r = Graph {
            workspace_name: self.workspace_name.clone(),
            nodes: self.nodes.clone(),
            edges: self.edges.clone(),
            warnings: self.warnings.clone(),
        };
        proof {
            assert(r.nodes.deep_view() =~= self.nodes.deep_view());
            assert(r.edges.deep_view() =~= self.edges.deep_view());
            assert(r.warnings.deep_view() =~= self.warnings.deep_view());
        }
        r
    }
}

/// What is left out of a configuration stands for nothing, but that domains are those
/// of a run, and that no container is restarted.
pub proof fn law_what_is_left_out_is_plain(name: Seq<char>, image: Seq<char>)
    ensures
        ({
            let s = ServiceConfigView::plain();
            &&& s.domain_scope == "run"@
            &&& s.restart == "no"@
            &&& s.environment == EnvironmentView::List(Seq::empty())
            &&& s.build is None && s.user is None && s.working_dir is None && s.healthcheck is None
                && s.platform is None
            &&& s.additional_hosts.len() == 0 && s.env_file.len() == 0 && s.command.len() == 0
                && s.volumes.len() == 0 && s.cap_add.len() == 0 && s.cap_drop.len() == 0
                && s.extra_hosts.len() == 0 && s.dependencies.len() == 0
            &&& s.ports.dom().is_empty() && s.labels.dom().is_empty() && !s.privileged
        }),
        ({
            let b = BackingDependencyConfigView::plain(name, image);
            &&& b.name == name
            &&& b.image == image
            &&& b.domain_scope == "run"@
            &&& b.restart == "no"@
            &&& b.environment == EnvironmentView::List(Seq::empty())
            &&& b.user is None && b.working_dir is None && b.healthcheck is None && b.platform is None
            &&& b.ports.len() == 0 && b.env_file.len() == 0 && b.command.len() == 0
                && b.volumes.len() == 0 && b.cap_add.len() == 0 && b.cap_drop.len() == 0
                && b.extra_hosts.len() == 0
            &&& b.labels.dom().is_empty() && !b.privileged
        }),
        ({
            let p = PortConfigView::plain();
            !p.primary && p.name is None && p.host_port is None
        }),
{
}

} // verus!
