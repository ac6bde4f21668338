//! What containers are made of, and what is read of them.

use vstd::prelude::*;

use crate::lines::{first_position, lemma_is_first_position};
use crate::number::{
    all_digits, dec, decimal, digits_value, law_port_text_reads_back, lemma_dec_reads_back,
    parse_u16, parsed_u16,
};
use crate::resolver::graph::{Healthcheck, HealthcheckView};
use crate::seqs::lemma_push_holds;
use crate::strmap::StrMap;
use crate::text::{chars_of, concat_text, same_text, string_of};

verus! {

/// When Docker restarts a container.
#[derive(Debug, Clone, Copy, PartialEq, Eq, Structural)]
pub enum RestartPolicyName {
    No,
    Always,
    OnFailure,
    UnlessStopped,
}

/// The restart policy that a text names; anything unknown means none.
pub open spec fn restart_policy(restart: Seq<char>) -> RestartPolicyName {
    if restart == "always"@ {
        RestartPolicyName::Always
    } else if restart == "on-failure"@ {
        RestartPolicyName::OnFailure
    } else if restart == "unless-stopped"@ {
        RestartPolicyName::UnlessStopped
    } else {
        RestartPolicyName::No
    }
}

/// The restart policy that a text names; anything unknown means none.
pub fn restart_policy_name(restart: &str) -> (r: RestartPolicyName)
    ensures
        r == restart_policy(restart@),
{
    if same_text(restart, "always") {
        RestartPolicyName::Always
    } else if same_text(restart, "on-failure") {
        RestartPolicyName::OnFailure
    } else if same_text(restart, "unless-stopped") {
        RestartPolicyName::UnlessStopped
    } else {
        RestartPolicyName::No
    }
}

/// What a container is to be.
pub struct RunOpts<'a> {
    pub name: &'a str,
    pub network: &'a str,
    pub aliases: &'a Vec<String>,
    pub env: &'a Vec<String>,
    /// The ports to publish, each with the host port if it is fixed.
    pub ports: &'a Vec<(String, Option<u16>)>,
    pub image: &'a str,
    /// Replaces the image's own command, unless it is empty.
    pub command: &'a Vec<String>,
    pub project: &'a str,
    pub service_name: &'a str,
    pub binds: &'a Vec<String>,
    pub restart_policy: &'a str,
    pub user: Option<&'a str>,
    pub working_dir: Option<&'a str>,
    pub labels: &'a StrMap<String>,
    pub cap_add: &'a Vec<String>,
    pub cap_drop: &'a Vec<String>,
    pub privileged: bool,
    pub extra_hosts: &'a Vec<String>,
    pub healthcheck: Option<&'a Healthcheck>,
    pub platform: Option<&'a str>,
}

/// How a container is probed; times are in nanoseconds.
#[derive(Debug, PartialEq, Eq)]
pub struct HealthConfig {
    pub test: Vec<String>,
    pub interval: Option<i64>,
    pub timeout: Option<i64>,
    pub start_period: Option<i64>,
    pub retries: Option<i64>,
}

/// The view of a [`HealthConfig`].
pub struct HealthConfigView {
    pub test: Seq<Seq<char>>,
    pub interval: Option<i64>,
    pub timeout: Option<i64>,
    pub start_period: Option<i64>,
    pub retries: Option<i64>,
}

impl View for HealthConfig {
    type V = HealthConfigView;

    open spec fn view(&self) -> HealthConfigView {
        HealthConfigView {
            test: self.test.deep_view(),
            interval: self.interval,
            timeout: self.timeout,
            start_period: self.start_period,
            retries: self.retries,
        }
    }
}

impl DeepView for HealthConfig {
    type V = HealthConfigView;

    open spec fn deep_view(&self) -> HealthConfigView {
        self@
    }
}

impl Clone for HealthConfig {
    fn clone(&self) -> (r: Self)
        ensures
            r@ == self@,
    {
        let r = HealthConfig {
            test: self.test.clone(),
            interval: self.interval,
            timeout: self.timeout,
            start_period: self.start_period,
            retries: self.retries,
        };
        proof {
            assert(r.test.deep_view() =~= self.test.deep_view());
        }
        r
    }
}

/// Where a container port is published.
#[derive(Debug, PartialEq, Eq)]
pub struct PortBinding {
    pub host_ip: String,
    /// `None` leaves the choice of a port to Docker.
    pub host_port: Option<String>,
}

/// The view of a [`PortBinding`].
pub struct PortBindingView {
    pub host_ip: Seq<char>,
    pub host_port: Option<Seq<char>>,
}

impl View for PortBinding {
    type V = PortBindingView;

    open spec fn view(&self) -> PortBindingView {
        PortBindingView {
            host_ip: self.host_ip@,
            host_port: self.host_port.deep_view(),
        }
    }
}

impl DeepView for PortBinding {
    type V = PortBindingView;

    open spec fn deep_view(&self) -> PortBindingView {
        self@
    }
}

impl Clone for PortBinding {
    fn clone(&self) -> (r: Self)
        ensures
            r@ == self@,
    {
        PortBinding {
            host_ip: self.host_ip.clone(),
            host_port: self.host_port.clone(),
        }
    }
}

/// What Docker is asked to create.
pub struct CreateRequest {
    pub name: String,
    pub platform: Option<String>,
    pub image: String,
    pub cmd: Option<Vec<String>>,
    pub env: Vec<String>,
    pub labels: StrMap<String>,
    pub exposed_ports: Vec<String>,
    pub user: Option<String>,
    pub working_dir: Option<String>,
    pub healthcheck: Option<HealthConfig>,
    pub port_bindings: StrMap<PortBinding>,
    pub binds: Option<Vec<String>>,
    pub restart_policy: RestartPolicyName,
    pub cap_add: Option<Vec<String>>,
    pub cap_drop: Option<Vec<String>>,
    pub privileged: bool,
    pub extra_hosts: Option<Vec<String>>,
    pub network: String,
    pub aliases: Vec<String>,
}

/// The text before the first slash.
pub open spec fn before_slash(port: Seq<char>) -> Seq<char> {
    let n = first_position(port, '/');
    if 0 <= n < port.len() {
        port.take(n)
    } else {
        port
    }
}

/// The name of a port to publish: always one of TCP.
pub open spec fn published_name(port: Seq<char>) -> Seq<char> {
    before_slash(port) + "/tcp"@
}

fn published_port_name(port: &str) -> (r: String)
    ensures
        r@ == published_name(port@),
{
    let cs = chars_of(port);
    let mut n: usize = 0;
    while n < cs.len() && cs[n] != '/'
        invariant
            n <= cs@.len(),
            forall|i: int| 0 <= i < n ==> #[trigger] cs@[i] != '/',
        decreases cs@.len() - n,
    {
        n += 1;
    }
    let front = vstd::slice::slice_subrange(cs.as_slice(), 0, n);
    proof {
        lemma_is_first_position(cs@, '/', n as int);
        assert(front@ =~= before_slash(cs@));
    }
    let mut r = string_of(front);
    r.append("/tcp");
    r
}

/// The names of ports to publish.
pub open spec fn published_names(ports: Seq<(Seq<char>, Option<u16>)>) -> Seq<Seq<char>> {
    ports.map_values(|p: (Seq<char>, Option<u16>)| published_name(p.0))
}

/// Where a port is published: on the local host, at a fixed port or at one of
/// Docker's choice.
pub open spec fn local_binding(host_port: Option<u16>) -> PortBindingView {
    PortBindingView {
        host_ip: "127.0.0.1"@,
        host_port: match host_port {
            Some(p) => Some(dec(p as nat)),
            None => None,
        },
    }
}

/// Where ports are published. Of two entries for one port the later holds.
pub open spec fn bindings(ports: Seq<(Seq<char>, Option<u16>)>) -> Map<Seq<char>, PortBindingView>
    decreases ports.len(),
{
    if ports.len() == 0 {
        Map::empty()
    } else {
        let (port, host_port) = ports.last();
        bindings(ports.drop_last()).insert(published_name(port), local_binding(host_port))
    }
}

/// A container's labels: those that were declared, and over them those by which
/// the containers of a run are grouped.
pub open spec fn container_labels(
    labels: Map<Seq<char>, Seq<char>>,
    project: Seq<char>,
    service: Seq<char>,
) -> Map<Seq<char>, Seq<char>> {
    labels.insert("com.docker.compose.project"@, project).insert(
        "com.docker.compose.service"@,
        service,
    ).insert("com.docker.compose.oneoff"@, "False"@)
}

/// A list, or nothing if it is empty.
pub open spec fn unless_empty(v: Seq<Seq<char>>) -> Option<Seq<Seq<char>>> {
    if v.len() == 0 {
        None
    } else {
        Some(v)
    }
}

fn none_if_empty(v: &Vec<String>) -> (r: Option<Vec<String>>)
    ensures
        r.deep_view() == unless_empty(v.deep_view()),
{
    if v.len() == 0 {
        None
    } else {
        let r = v.clone();
        proof {
            assert(r.deep_view() =~= v.deep_view());
        }
        Some(r)
    }
}

/// The text that an optional reference leads to.
pub open spec fn text_of(o: Option<&str>) -> Option<Seq<char>> {
    match o {
        Some(s) => Some(s@),
        None => None,
    }
}

fn owned(o: Option<&str>) -> (r: Option<String>)
    ensures
        r.deep_view() == text_of(o),
{
    match o {
        Some(s) => Some(s.to_owned()),
        None => None,
    }
}

/// The most seconds whose nanoseconds can be counted.
pub const MAX_SECONDS: u64 = 18_446_744_073;

/// Seconds as Docker counts them, in nanoseconds.
pub open spec fn nanoseconds(seconds: Option<u64>) -> Option<i64> {
    match seconds {
        Some(s) => Some((s * 1_000_000_000) as i64),
        None => None,
    }
}

/// Whether seconds can be counted in nanoseconds.
pub open spec fn countable(seconds: Option<u64>) -> bool {
    match seconds {
        Some(s) => s <= MAX_SECONDS,
        None => true,
    }
}

fn is_countable(seconds: Option<u64>) -> (r: bool)
    ensures
        r == countable(seconds),
{
    match seconds {
        Some(s) => s <= MAX_SECONDS,
        None => true,
    }
}

fn to_nanoseconds(seconds: Option<u64>) -> (r: Option<i64>)
    requires
        countable(seconds),
    ensures
        r == nanoseconds(seconds),
{
    match seconds {
        Some(s) => Some(#[verifier::truncate] ((s * 1_000_000_000) as i64)),
        None => None,
    }
}

/// Whether the times of a probe can be counted in nanoseconds.
pub open spec fn probe_fits(hc: HealthcheckView) -> bool {
    countable(hc.interval) && countable(hc.timeout) && countable(hc.start_period)
}

/// Whether the times of a probe can be counted in nanoseconds.
pub fn healthcheck_fits(hc: &Healthcheck) -> (r: bool)
    ensures
        r == probe_fits(hc@),
{
    is_countable(hc.interval) && is_countable(hc.timeout) && is_countable(hc.start_period)
}

/// How a container is probed, as Docker counts.
pub open spec fn health_config(hc: HealthcheckView) -> HealthConfigView {
    HealthConfigView {
        test: hc.test,
        interval: nanoseconds(hc.interval),
        timeout: nanoseconds(hc.timeout),
        start_period: nanoseconds(hc.start_period),
        retries: match hc.retries {
            Some(n) => Some(n as i64),
            None => None,
        },
    }
}

fn probe(hc: &Healthcheck) -> (r: HealthConfig)
    requires
        probe_fits(hc@),
    ensures
        r@ == health_config(hc@),
{
    let test = hc.test.clone();
    proof {
        assert(test.deep_view() =~= hc.test.deep_view());
    }
    HealthConfig {
        test,
        interval: to_nanoseconds(hc.interval),
        timeout: to_nanoseconds(hc.timeout),
        start_period: to_nanoseconds(hc.start_period),
        retries: match hc.retries {
            Some(n) => Some(#[verifier::truncate] (n as i64)),
            None => None,
        },
    }
}

/// A call by which a container is brought up.
#[derive(Debug, Clone, Copy, PartialEq, Eq, Structural)]
pub enum DockerStep {
    /// It is created.
    Create,
    /// It is started.
    Start,
}

/// What follows a call by which a container is brought up.
#[derive(Debug, Clone, Copy, PartialEq, Eq, Structural)]
pub enum NextCall {
    /// The container is to be started.
    Start,
    /// It is up.
    Done,
    /// Whatever was left of it is to be removed, and the failure reported.
    RemoveAndFail,
}

/// What follows a call by which a container is brought up: a container that was
/// created is started, and one that could not be created or started is removed.
pub open spec fn next_call(step: DockerStep, succeeded: bool) -> NextCall {
    if !succeeded {
        NextCall::RemoveAndFail
    } else {
        match step {
            DockerStep::Create => NextCall::Start,
            DockerStep::Start => NextCall::Done,
        }
    }
}

/// What follows a call by which a container is brought up.
pub fn after_docker_call(step: DockerStep, succeeded: bool) -> (r: NextCall)
    ensures
        r == next_call(step, succeeded),
{
    if !succeeded {
        return NextCall::RemoveAndFail;
    }
    match step {
        DockerStep::Create => NextCall::Start,
        DockerStep::Start => NextCall::Done,
    }
}

/// What Docker is asked to create for a container.
pub fn create_request(opts: &RunOpts) -> (r: CreateRequest)
    requires
        opts.healthcheck matches Some(hc) ==> probe_fits(hc@),
    ensures
        r.name@ == opts.name@,
        r.platform.deep_view() == text_of(opts.platform),
        r.image@ == opts.image@,
        r.cmd.deep_view() == unless_empty(opts.command.deep_view()),
        r.env.deep_view() == opts.env.deep_view(),
        r.labels@ == container_labels(opts.labels@, opts.project@, opts.service_name@),
        r.exposed_ports.deep_view() == published_names(opts.ports.deep_view()),
        r.user.deep_view() == text_of(opts.user),
        r.working_dir.deep_view() == text_of(opts.working_dir),
        match opts.healthcheck {
            Some(hc) => r.healthcheck matches Some(h) && h@ == health_config(hc@),
            None => r.healthcheck is None,
        },
        r.port_bindings@ == bindings(opts.ports.deep_view()),
        r.binds.deep_view() == unless_empty(opts.binds.deep_view()),
        r.restart_policy == restart_policy(opts.restart_policy@),
        r.cap_add.deep_view() == unless_empty(opts.cap_add.deep_view()),
        r.cap_drop.deep_view() == unless_empty(opts.cap_drop.deep_view()),
        r.privileged == opts.privileged,
        r.extra_hosts.deep_view() == unless_empty(opts.extra_hosts.deep_view()),
        r.network@ == opts.network@,
        r.aliases.deep_view() == opts.aliases.deep_view(),
{
    let mut labels = opts.labels.clone();
    labels.insert("com.docker.compose.project".to_owned(), opts.project.to_owned());
    labels.insert("com.docker.compose.service".to_owned(), opts.service_name.to_owned());
    labels.insert("com.docker.compose.oneoff".to_owned(), "False".to_owned());
    let ghost ps = opts.ports.deep_view();
    let mut exposed_ports: Vec<String> = Vec::new();
    let mut port_bindings: StrMap<PortBinding> = StrMap::new();
    let mut i: usize = 0;
    proof {
        assert(exposed_ports.deep_view() =~= published_names(ps.take(0)));
    }
    while i < opts.ports.len()
        invariant
            i <= opts.ports@.len(),
            ps == opts.ports.deep_view(),
            exposed_ports.deep_view() == published_names(ps.take(i as int)),
            port_bindings@ == bindings(ps.take(i as int)),
        decreases opts.ports@.len() - i,
    {
        let entry = &opts.ports[i];
        let key = published_port_name(entry.0.as_str());
        let host_port = match entry.1 {
            Some(p) => Some(decimal(p as u64)),
            None => None,
        };
        let binding = PortBinding { host_ip: "127.0.0.1".to_owned(), host_port };
        proof {
            assert(ps[i as int] == (entry.0@, entry.1));
            assert(binding@ == local_binding(entry.1));
            assert(ps.take(i + 1).drop_last() =~= ps.take(i as int));
            assert(ps.take(i + 1).last() == ps[i as int]);
            assert(published_names(ps.take(i + 1)) =~= published_names(ps.take(i as int)).push(
                key@,
            ));
        }
        let ghost before = exposed_ports.deep_view();
        exposed_ports.push(key.clone());
        proof {
            assert(exposed_ports.deep_view() =~= before.push(key@));
        }
        port_bindings.insert(key, binding);
        i += 1;
    }
    let env = opts.env.clone();
    let aliases = opts.aliases.clone();
    proof {
        assert(ps.take(ps.len() as int) =~= ps);
        assert(env.deep_view() =~= opts.env.deep_view());
        assert(aliases.deep_view() =~= opts.aliases.deep_view());
    }
    CreateRequest {
        name: opts.name.to_owned(),
        platform: owned(opts.platform),
        image: opts.image.to_owned(),
        cmd: none_if_empty(opts.command),
        env,
        labels,
        exposed_ports,
        user: owned(opts.user),
        working_dir: owned(opts.working_dir),
        healthcheck: match opts.healthcheck {
            Some(hc) => Some(probe(hc)),
            None => None,
        },
        port_bindings,
        binds: none_if_empty(opts.binds),
        restart_policy: restart_policy_name(opts.restart_policy),
        cap_add: none_if_empty(opts.cap_add),
        cap_drop: none_if_empty(opts.cap_drop),
        privileged: opts.privileged,
        extra_hosts: none_if_empty(opts.extra_hosts),
        network: opts.network.to_owned(),
        aliases,
    }
}

/// What is known of a container.
#[derive(Debug)]
pub struct ContainerStatus {
    pub status: String,
    pub published_port: Option<u16>,
}

/// The status of a container: what Docker says, or else that it is unknown.
pub open spec fn status_text(status: Option<Seq<char>>) -> Seq<char> {
    match status {
        Some(s) => s,
        None => "unknown"@,
    }
}

/// The name under which Docker lists a port: one of TCP unless it says otherwise.
pub open spec fn port_key(container_port: Seq<char>) -> Seq<char> {
    if container_port.contains('/') {
        container_port
    } else {
        container_port + "/tcp"@
    }
}

fn to_port_key(container_port: &str) -> (r: String)
    ensures
        r@ == port_key(container_port@),
{
    let cs = chars_of(container_port);
    let mut i: usize = 0;
    while i < cs.len()
        invariant
            i <= cs@.len(),
            cs@ == container_port@,
            forall|j: int| 0 <= j < i ==> #[trigger] cs@[j] != '/',
        decreases cs@.len() - i,
    {
        if cs[i] == '/' {
            proof {
                assert(cs@[i as int] == '/');
            }
            return container_port.to_owned();
        }
        i += 1;
    }
    concat_text(container_port, "/tcp")
}

/// The host port of the first binding of a port.
pub open spec fn first_host_port(
    ports: Map<Seq<char>, Seq<Option<Seq<char>>>>,
    container_port: Seq<char>,
) -> Option<u16> {
    let key = port_key(container_port);
    if ports.contains_key(key) && ports[key].len() > 0 {
        match ports[key][0] {
            Some(text) => parsed_u16(text),
            None => None,
        }
    } else {
        None
    }
}

/// What an inspection says of a container: its status, `unknown` if it gives
/// none, and where a port is published, if it is. `ports` gives the host ports to
/// which each port is bound.
pub fn container_status(
    status: Option<String>,
    ports: &StrMap<Vec<Option<String>>>,
    container_port: &str,
) -> (r: ContainerStatus)
    ensures
        r.status@ == status_text(status.deep_view()),
        r.published_port == first_host_port(ports@, container_port@),
{
    let key = to_port_key(container_port);
    let published_port = match ports.get(key.as_str()) {
        Some(bound) => {
            proof {
                assert(ports@[key@] == bound.deep_view());
            }
            if bound.len() > 0 {
                proof {
                    assert(ports@[key@][0] == bound@[0].deep_view());
                }
                match &bound[0] {
                    Some(text) => parse_u16(text.as_str()),
                    None => None,
                }
            } else {
                None
            }
        },
        None => None,
    };
    let status = match status {
        Some(s) => s,
        None => "unknown".to_owned(),
    };
    ContainerStatus { status, published_port }
}

/// Whether Docker's refusal to create a network can be passed over: the network
/// is there already.
pub fn network_is_there(status_code: u16) -> (r: bool)
    ensures
        r == (status_code == 409),
{
    status_code == 409
}

/// Whether Docker's refusal to inspect a container says that there is none.
pub fn container_is_missing(status_code: u16) -> (r: bool)
    ensures
        r == (status_code == 404),
{
    status_code == 404
}

/// Log output put together: the pieces up to the first failure to read, and in
/// its place a line that says so.
pub open spec fn combined_logs(items: Seq<Result<String, String>>) -> Seq<char>
    decreases items.len(),
{
    if items.len() == 0 {
        Seq::empty()
    } else {
        match items[0] {
            Ok(chunk) => chunk@ + combined_logs(items.drop_first()),
            Err(e) => "[fghj: log read error: "@ + e@ + "]\n"@,
        }
    }
}

/// Log output put together.
pub fn combine_logs(items: &Vec<Result<String, String>>) -> (r: String)
    ensures
        r@ == combined_logs(items@),
{
    let mut out = String::new();
    let mut i: usize = 0;
    proof {
        assert(items@.skip(0) =~= items@);
        assert(out@ + combined_logs(items@.skip(0)) =~= combined_logs(items@));
    }
    while i < items.len()
        invariant
            i <= items@.len(),
            combined_logs(items@) == out@ + combined_logs(items@.skip(i as int)),
        decreases items@.len() - i,
    {
        proof {
            assert(items@.skip(i as int)[0] == items@[i as int]);
            assert(items@.skip(i as int).drop_first() =~= items@.skip(i + 1));
        }
        let ghost before = out@;
        match &items[i] {
            Ok(chunk) => {
                out.append(chunk.as_str());
                proof {
                    assert(before + (chunk@ + combined_logs(items@.skip(i + 1))) =~= out@
                        + combined_logs(items@.skip(i + 1)));
                }
            },
            Err(e) => {
                let mut line = "[fghj: log read error: ".to_owned();
                line.append(e.as_str());
                line.append("]\n");
                out.append(line.as_str());
                return out;
            },
        }
        i += 1;
    }
    proof {
        assert(out@ + combined_logs(items@.skip(i as int)) =~= out@);
    }
    out
}

/// That an image could not be built, given Docker's own words.
pub open spec fn build_error(tag: Seq<char>, words: Option<Seq<char>>) -> Seq<char> {
    "docker build -t "@ + tag + " failed: "@ + (match words {
        Some(w) => w,
        None => Seq::empty(),
    })
}

/// What one step of a build reports.
pub enum BuildStep {
    /// Progress.
    Progress,
    /// That the build failed, with Docker's words if it gives any.
    Failed(Option<String>),
}

/// Whether a build goes on after a step.
pub fn on_build_step(tag: &str, step: &BuildStep) -> (r: Result<(), String>)
    ensures
        match *step {
            BuildStep::Progress => r is Ok,
            BuildStep::Failed(words) => r matches Err(e) && e@ == build_error(
                tag@,
                words.deep_view(),
            ),
        },
{
    match step {
        BuildStep::Progress => Ok(()),
        BuildStep::Failed(words) => {
            let mut e = "docker build -t ".to_owned();
            e.append(tag);
            e.append(" failed: ");
            match words {
                Some(w) => {
                    e.append(w.as_str());
                },
                None => {
                    proof {
                        assert(e@ =~= build_error(tag@, None));
                    }
                },
            }
            Err(e)
        },
    }
}

/// Declared labels never replace those by which the containers of a run are
/// grouped; every other declared label stays.
pub proof fn law_grouping_labels_win(
    labels: Map<Seq<char>, Seq<char>>,
    project: Seq<char>,
    service: Seq<char>,
    key: Seq<char>,
)
    ensures
        ({
            let all = container_labels(labels, project, service);
            &&& all["com.docker.compose.project"@] == project
            &&& all["com.docker.compose.service"@] == service
            &&& all["com.docker.compose.oneoff"@] == "False"@
            &&& labels.contains_key(key) && key != "com.docker.compose.project"@ && key
                != "com.docker.compose.service"@ && key != "com.docker.compose.oneoff"@
                ==> all.contains_key(key) && all[key] == labels[key]
        }),
{
    reveal_strlit("com.docker.compose.project");
    reveal_strlit("com.docker.compose.service");
    reveal_strlit("com.docker.compose.oneoff");
    assert("com.docker.compose.project"@[19] != "com.docker.compose.service"@[19]);
    assert("com.docker.compose.project"@[19] != "com.docker.compose.oneoff"@[19]);
    assert("com.docker.compose.service"@[19] != "com.docker.compose.oneoff"@[19]);
}

/// A container is probed as it is configured. Every time is counted in nanoseconds, a
/// thousand million to the second, and a time or a number that is not given stays so.
pub proof fn law_probe_times_are_nanoseconds(hc: HealthcheckView)
    ensures
        ({
            let h = health_config(hc);
            &&& h.test == hc.test
            &&& hc.interval is None <==> h.interval is None
            &&& hc.timeout is None <==> h.timeout is None
            &&& hc.start_period is None <==> h.start_period is None
            &&& hc.retries is None <==> h.retries is None
            &&& hc.interval matches Some(s) ==> (s * 1_000_000_000 <= i64::MAX ==> h.interval->Some_0
                == s * 1_000_000_000)
            &&& hc.timeout matches Some(s) ==> (s * 1_000_000_000 <= i64::MAX ==> h.timeout->Some_0
                == s * 1_000_000_000)
            &&& hc.start_period matches Some(s) ==> (s * 1_000_000_000 <= i64::MAX ==> h.start_period->Some_0
                == s * 1_000_000_000)
            &&& hc.retries matches Some(n) ==> (n <= i64::MAX ==> h.retries->Some_0 == n)
        }),
{
}

/// A probe fits exactly if each of its times, in nanoseconds, is a 64-bit number.
pub proof fn law_countable_times_fit(hc: HealthcheckView)
    ensures
        probe_fits(hc) <==> (hc.interval is Some ==> hc.interval->Some_0 * 1_000_000_000
            <= u64::MAX) && (hc.timeout is Some ==> hc.timeout->Some_0 * 1_000_000_000 <= u64::MAX)
            && (hc.start_period is Some ==> hc.start_period->Some_0 * 1_000_000_000 <= u64::MAX),
{
}

/// A container is restarted as its policy says, and never if that is not known.
pub proof fn law_restart_policies_are_known_by_name(restart: Seq<char>)
    ensures
        restart == "always"@ <==> restart_policy(restart) == RestartPolicyName::Always,
        restart == "on-failure"@ <==> restart_policy(restart) == RestartPolicyName::OnFailure,
        restart == "unless-stopped"@ <==> restart_policy(restart)
            == RestartPolicyName::UnlessStopped,
{
    reveal_strlit("always");
    reveal_strlit("on-failure");
    reveal_strlit("unless-stopped");
    assert("always"@.len() != "on-failure"@.len());
    assert("always"@.len() != "unless-stopped"@.len());
    assert("on-failure"@.len() != "unless-stopped"@.len());
}

/// A port is published as one of TCP, whatever stands behind a slash in its name.
pub proof fn law_ports_are_published_as_tcp(number: Seq<char>, rest: Seq<char>)
    requires
        !number.contains('/'),
    ensures
        published_name(number) == number + seq!['/', 't', 'c', 'p'],
        published_name(number + seq!['/'] + rest) == number + seq!['/', 't', 'c', 'p'],
{
    reveal_strlit("/tcp");
    assert("/tcp"@ =~= seq!['/', 't', 'c', 'p']);
    assert forall|i: int| 0 <= i < number.len() implies #[trigger] number[i] != '/' by {
        assert(number.contains(number[i]));
    }
    lemma_is_first_position(number, '/', number.len() as int);
    let long = number + seq!['/'] + rest;
    assert forall|i: int| 0 <= i < number.len() implies #[trigger] long[i] != '/' by {
        assert(long[i] == number[i]);
    }
    assert(long[number.len() as int] == '/');
    lemma_is_first_position(long, '/', number.len() as int);
    assert(long.take(number.len() as int) =~= number);
}

/// Every declared port is exposed and bound on the local host and nowhere else: to its
/// host port if that is fixed, and to one of Docker's choice if it is not. Of two
/// declarations of one port the later counts.
pub proof fn law_ports_are_bound_locally(
    ports: Seq<(Seq<char>, Option<u16>)>,
    i: int,
    key: Seq<char>,
)
    requires
        0 <= i < ports.len(),
        forall|j: int|
            i < j < ports.len() ==> published_name((#[trigger] ports[j]).0) != published_name(
                ports[i].0,
            ),
    ensures
        ({
            let b = bindings(ports)[published_name(ports[i].0)];
            &&& published_names(ports).len() == ports.len()
            &&& published_names(ports)[i] == published_name(ports[i].0)
            &&& bindings(ports).contains_key(published_name(ports[i].0))
            &&& b.host_ip == "127.0.0.1"@
            &&& ports[i].1 is None <==> b.host_port is None
            &&& ports[i].1 matches Some(p) ==> all_digits(b.host_port->Some_0) && digits_value(
                b.host_port->Some_0,
            ) == p
            &&& bindings(ports).contains_key(key) <==> published_names(ports).contains(key)
        }),
    decreases ports.len(),
{
    let front = ports.drop_last();
    let last = ports.last();
    let names = published_names(ports);
    lemma_bound_names(ports, key);
    if ports[i].1 is Some {
        lemma_dec_reads_back(ports[i].1->Some_0 as nat);
    }
    if i < front.len() {
        assert forall|j: int| i < j < front.len() implies published_name((#[trigger] front[j]).0)
            != published_name(front[i].0) by {
            assert(front[j] == ports[j]);
        }
        law_ports_are_bound_locally(front, i, key);
        assert(front[i] == ports[i]);
        assert(published_name(ports[ports.len() - 1].0) != published_name(ports[i].0));
    }
}

proof fn lemma_bound_names(ports: Seq<(Seq<char>, Option<u16>)>, key: Seq<char>)
    ensures
        bindings(ports).contains_key(key) <==> published_names(ports).contains(key),
    decreases ports.len(),
{
    let names = published_names(ports);
    if ports.len() > 0 {
        let front = ports.drop_last();
        lemma_bound_names(front, key);
        assert(names =~= published_names(front).push(published_name(ports.last().0)));
        lemma_push_holds(published_names(front), published_name(ports.last().0), key);
    }
}

/// The labels of a container are the declared ones and the three by which it is grouped,
/// and no others.
pub proof fn law_labels_are_declared_or_group(
    labels: Map<Seq<char>, Seq<char>>,
    project: Seq<char>,
    service: Seq<char>,
    key: Seq<char>,
)
    ensures
        container_labels(labels, project, service).contains_key(key) <==> labels.contains_key(key)
            || key == "com.docker.compose.project"@ || key == "com.docker.compose.service"@ || key
            == "com.docker.compose.oneoff"@,
{
}

/// A list that is given is handed on as it is, and an empty one is not handed on at all.
pub proof fn law_empty_lists_are_left_out(v: Seq<Seq<char>>)
    ensures
        v.len() == 0 <==> unless_empty(v) is None,
        v.len() > 0 ==> unless_empty(v) == Some(v),
{
}

/// Where a port is published is read of the first binding of the port, of TCP unless the
/// port says otherwise; without a binding, or with one that is no port number, it is
/// published nowhere.
pub proof fn law_published_port_is_that_of_the_first_binding(
    ports: Map<Seq<char>, Seq<Option<Seq<char>>>>,
    container_port: Seq<char>,
    host_port: u16,
)
    ensures
        ({
            let key = if container_port.contains('/') {
                container_port
            } else {
                container_port + seq!['/', 't', 'c', 'p']
            };
            let bound = ports.contains_key(key) && ports[key].len() > 0 && ports[key][0] is Some;
            &&& bound && ports[key][0] == Some(dec(host_port as nat)) ==> first_host_port(
                ports,
                container_port,
            ) == Some(host_port)
            &&& first_host_port(ports, container_port) == Some(host_port) ==> bound && parsed_u16(
                ports[key][0]->Some_0,
            ) == Some(host_port)
            &&& !bound ==> first_host_port(ports, container_port) is None
        }),
{
    reveal_strlit("/tcp");
    assert("/tcp"@ =~= seq!['/', 't', 'c', 'p']);
    law_port_text_reads_back(host_port);
}

/// The pieces of a log are put together in order, up to the first that could not be read,
/// in whose place stands why.
pub proof fn law_logs_are_put_together_in_order(
    front: Seq<Result<String, String>>,
    rest: Seq<Result<String, String>>,
    chunk: String,
    error: String,
)
    requires
        forall|i: int| 0 <= i < front.len() ==> (#[trigger] front[i]) is Ok,
    ensures
        combined_logs(Seq::<Result<String, String>>::empty()).len() == 0,
        combined_logs(seq![Ok::<String, String>(chunk)]) == chunk@,
        combined_logs(front + rest) == combined_logs(front) + combined_logs(rest),
        combined_logs(seq![Err::<String, String>(error)] + rest) == "[fghj: log read error: "@
            + error@ + "]\n"@,
    decreases front.len(),
{
    let one = seq![Ok::<String, String>(chunk)];
    assert(one.drop_first() =~= Seq::empty());
    assert(combined_logs(one.drop_first()) =~= Seq::empty());
    assert(chunk@ + Seq::<char>::empty() =~= chunk@);
    if front.len() == 0 {
        assert(front + rest =~= rest);
        assert(combined_logs(front) + combined_logs(rest) =~= combined_logs(rest));
    } else {
        let tail = front.drop_first();
        assert forall|i: int| 0 <= i < tail.len() implies (#[trigger] tail[i]) is Ok by {
            assert(tail[i] == front[i + 1]);
        }
        law_logs_are_put_together_in_order(tail, rest, chunk, error);
        assert((front + rest).drop_first() =~= tail + rest);
        assert(front[0] is Ok);
        assert(combined_logs(front + rest) =~= combined_logs(front) + combined_logs(rest));
    }
}

/// A container is started once it was created and is up once it was started; whichever
/// call fails, what is left of it is removed, and it is never reported as up.
pub proof fn law_failed_container_is_removed(step: DockerStep, succeeded: bool)
    ensures
        next_call(step, succeeded) == NextCall::RemoveAndFail <==> !succeeded,
        next_call(step, succeeded) == NextCall::Start <==> succeeded && step == DockerStep::Create,
        next_call(step, succeeded) == NextCall::Done <==> succeeded && step == DockerStep::Start,
{
}

/// A failed build is reported with the tag that was built and Docker's words, if it
/// gave any.
pub proof fn law_failed_build_is_reported_with_its_tag(tag: Seq<char>, words: Seq<char>)
    ensures
        build_error(tag, Some(words)) == "docker build -t "@ + tag + " failed: "@ + words,
        build_error(tag, None) == "docker build -t "@ + tag + " failed: "@,
{
    assert(build_error(tag, None) =~= "docker build -t "@ + tag + " failed: "@);
}

/// A container has the status that Docker gives it, and an unknown one where it gives
/// none.
pub proof fn law_status_is_what_docker_says(status: Seq<char>)
    ensures
        status_text(Some(status)) == status,
        status_text(None) == "unknown"@,
{
}

} // verus!
