//! Background downloads of repos: which jobs there are, and what each one does.

use vstd::prelude::*;

use crate::resolver::graph::{Graph, GraphView, Node, NodeView};
use crate::resolver::missing_nodes_have_repos;
use crate::seqs::lemma_filter_holds;
use crate::text::{chars_of, concat_text, contains_text, lossy, lossy_text, same_text};

verus! {

/// How far a job has come.
#[derive(Debug)]
pub struct DownloadState {
    /// `running`, `done` or `error`.
    pub status: String,
    pub log: String,
}

/// How far a job has come.
pub struct DownloadStateView {
    pub status: Seq<char>,
    pub log: Seq<char>,
}

impl View for DownloadState {
    type V = DownloadStateView;

    open spec fn view(&self) -> DownloadStateView {
        DownloadStateView { status: self.status@, log: self.log@ }
    }
}

impl DeepView for DownloadState {
    type V = DownloadStateView;

    open spec fn deep_view(&self) -> DownloadStateView {
        self@
    }
}

impl Clone for DownloadState {
    fn clone(&self) -> (r: Self)
        ensures
            r@ == self@,
    {
        DownloadState { status: self.status.clone(), log: self.log.clone() }
    }
}

/// A job with the key under which it is known.
#[derive(Debug)]
pub struct DownloadJob {
    pub key: String,
    pub status: String,
    pub log: String,
}

/// A job with the key under which it is known.
pub struct DownloadJobView {
    pub key: Seq<char>,
    pub state: DownloadStateView,
}

impl View for DownloadJob {
    type V = DownloadJobView;

    open spec fn view(&self) -> DownloadJobView {
        DownloadJobView {
            key: self.key@,
            state: DownloadStateView { status: self.status@, log: self.log@ },
        }
    }
}

impl DeepView for DownloadJob {
    type V = DownloadJobView;

    open spec fn deep_view(&self) -> DownloadJobView {
        self@
    }
}

/// The jobs, in the order in which their keys first came up.
pub struct DownloadRegistry {
    jobs: Vec<DownloadJob>,
}

impl View for DownloadRegistry {
    type V = Seq<DownloadJobView>;

    closed spec fn view(&self) -> Seq<DownloadJobView> {
        self.jobs.deep_view()
    }
}

/// Whether no key stands for two jobs.
pub open spec fn keys_differ(jobs: Seq<DownloadJobView>) -> bool {
    forall|i: int, j: int|
        #![trigger jobs[i], jobs[j]]
        0 <= i < j < jobs.len() ==> jobs[i].key != jobs[j].key
}

/// The position of a key's job, or the number of jobs if it has none.
pub open spec fn job_position(jobs: Seq<DownloadJobView>, key: Seq<char>) -> int
    decreases jobs.len(),
{
    if jobs.len() == 0 || jobs[0].key == key {
        0
    } else {
        1 + job_position(jobs.drop_first(), key)
    }
}

/// The state of a key's job.
pub open spec fn job_status(jobs: Seq<DownloadJobView>, key: Seq<char>) -> Option<
    DownloadStateView,
> {
    let i = job_position(jobs, key);
    if i < jobs.len() {
        Some(jobs[i].state)
    } else {
        None
    }
}

/// The state in which a job begins.
pub open spec fn begun() -> DownloadStateView {
    DownloadStateView { status: "running"@, log: Seq::empty() }
}

/// Whether a key's job is running.
pub open spec fn is_running(jobs: Seq<DownloadJobView>, key: Seq<char>) -> bool {
    job_status(jobs, key) matches Some(s) && s.status == "running"@
}

/// The jobs with the state of a key's job replaced, or with a new job at the end.
pub open spec fn with_state(
    jobs: Seq<DownloadJobView>,
    key: Seq<char>,
    state: DownloadStateView,
) -> Seq<DownloadJobView> {
    let i = job_position(jobs, key);
    let job = DownloadJobView { key, state };
    if i < jobs.len() {
        jobs.update(i, job)
    } else {
        jobs.push(job)
    }
}

/// The jobs after one was asked for: one that is running stays as it is, and any
/// other begins afresh.
pub open spec fn started(jobs: Seq<DownloadJobView>, key: Seq<char>) -> Seq<DownloadJobView> {
    if is_running(jobs, key) {
        jobs
    } else {
        with_state(jobs, key, begun())
    }
}

proof fn lemma_job_position(jobs: Seq<DownloadJobView>, key: Seq<char>)
    ensures
        0 <= job_position(jobs, key) <= jobs.len(),
        job_position(jobs, key) < jobs.len() ==> jobs[job_position(jobs, key)].key == key,
        forall|i: int| 0 <= i < job_position(jobs, key) ==> (#[trigger] jobs[i]).key != key,
    decreases jobs.len(),
{
    if jobs.len() > 0 && jobs[0].key != key {
        let rest = jobs.drop_first();
        lemma_job_position(rest, key);
        assert forall|i: int| 0 <= i < job_position(jobs, key) implies (#[trigger] jobs[i]).key
            != key by {
            if i > 0 {
                assert(rest[i - 1] == jobs[i]);
            }
        }
    }
}

proof fn lemma_is_job_position(jobs: Seq<DownloadJobView>, key: Seq<char>, n: int)
    requires
        0 <= n <= jobs.len(),
        n < jobs.len() ==> jobs[n].key == key,
        forall|i: int| 0 <= i < n ==> (#[trigger] jobs[i]).key != key,
    ensures
        job_position(jobs, key) == n,
{
    lemma_job_position(jobs, key);
}

/// What was asked for, and whether it begins now.
pub struct Started {
    pub state: DownloadState,
    /// Whether the work is to begin; if not, it is under way.
    pub fresh: bool,
}

impl DownloadRegistry {
    #[verifier::type_invariant]
    spec fn inv(self) -> bool {
        keys_differ(self@)
    }

    /// A registry without jobs.
    pub fn new() -> (r: Self)
        ensures
            r@ == Seq::<DownloadJobView>::empty(),
    {
        let r = DownloadRegistry { jobs: Vec::new() };
        proof {
            assert(r@ =~= Seq::empty());
        }
        r
    }

    fn position(&self, key: &str) -> (r: usize)
        ensures
            r == job_position(self@, key@),
            r <= self.jobs@.len(),
    {
        let ghost js = self@;
        let mut i: usize = 0;
        while i < self.jobs.len()
            invariant
                i <= self.jobs@.len(),
                js == self@,
                forall|j: int| 0 <= j < i ==> (#[trigger] js[j]).key != key@,
            decreases self.jobs@.len() - i,
        {
            if same_text(self.jobs[i].key.as_str(), key) {
                proof {
                    assert(js[i as int].key == key@);
                    lemma_is_job_position(js, key@, i as int);
                }
                return i;
            }
            proof {
                assert(js[i as int].key != key@);
            }
            i += 1;
        }
        proof {
            lemma_is_job_position(js, key@, i as int);
        }
        i
    }

    /// The state of a key's job.
    pub fn status(&self, key: &str) -> (r: Option<DownloadState>)
        ensures
            match r {
                Some(s) => job_status(self@, key@) == Some(s@),
                None => job_status(self@, key@) is None,
            },
    {
        let i = self.position(key);
        if i < self.jobs.len() {
            proof {
                assert(self@[i as int] == self.jobs@[i as int]@);
            }
            Some(
                DownloadState {
                    status: self.jobs[i].status.clone(),
                    log: self.jobs[i].log.clone(),
                },
            )
        } else {
            None
        }
    }

    /// All jobs, the most recently begun key first.
    pub fn list(&self) -> (r: Vec<DownloadJob>)
        ensures
            r.deep_view() == self@.reverse(),
            keys_differ(self@),
    {
        proof {
            use_type_invariant(self);
        }
        let ghost js = self@;
        let n: usize = self.jobs.len();
        let mut r: Vec<DownloadJob> = Vec::new();
        let mut i: usize = 0;
        while i < n
            invariant
                i <= n,
                n == self.jobs@.len(),
                js == self@,
                r@.len() == i,
                forall|j: int| 0 <= j < i ==> (#[trigger] r@[j])@ == js[n - 1 - j],
            decreases n - i,
        {
            let job = &self.jobs[n - 1 - i];
            proof {
                assert(js[n - 1 - i] == job@);
            }
            r.push(
                DownloadJob {
                    key: job.key.clone(),
                    status: job.status.clone(),
                    log: job.log.clone(),
                },
            );
            i += 1;
        }
        proof {
            assert(r.deep_view() =~= self@.reverse());
        }
        r
    }

    fn set(&mut self, i: usize, key: String, state: DownloadState)
        requires
            i == job_position(old(self)@, key@),
        ensures
            final(self)@ == with_state(old(self)@, key@, state@),
    {
        proof {
            use_type_invariant(&*self);
            lemma_job_position(self@, key@);
        }
        let ghost before = self@;
        let job = DownloadJob { key, status: state.status, log: state.log };
        let mut jobs: Vec<DownloadJob> = Vec::new();
        core::mem::swap(&mut jobs, &mut self.jobs);
        if i < jobs.len() {
            jobs.set(i, job);
        } else {
            jobs.push(job);
        }
        proof {
            let after = DownloadRegistry { jobs };
            assert(after@ =~= with_state(before, job@.key, job@.state));
            law_keys_stay_different(before, job@.key, job@.state);
        }
        *self = DownloadRegistry { jobs };
    }

    fn start(&mut self, key: String) -> (r: Started)
        ensures
            final(self)@ == started(old(self)@, key@),
            r.fresh == !is_running(old(self)@, key@),
            job_status(final(self)@, key@) == Some(r.state@),
            r.state@.status == "running"@,
    {
        let i = self.position(key.as_str());
        if i < self.jobs.len() {
            proof {
                assert(self@[i as int] == self.jobs@[i as int]@);
            }
            if same_text(self.jobs[i].status.as_str(), "running") {
                return Started {
                    state: DownloadState {
                        status: self.jobs[i].status.clone(),
                        log: self.jobs[i].log.clone(),
                    },
                    fresh: false,
                };
            }
        }
        let ghost before = self@;
        let ghost k = key@;
        let state = DownloadState { status: "running".to_owned(), log: String::new() };
        proof {
            assert(state@.log =~= Seq::empty());
            law_job_is_known_by_its_key(before, k, state@, k);
        }
        self.set(i, key, state.clone());
        Started { state, fresh: true }
    }

    /// Asks for the download of one node.
    pub fn start_node(&mut self, node_id: &str) -> (r: Started)
        ensures
            final(self)@ == started(old(self)@, "node:"@ + node_id@),
            r.fresh == !is_running(old(self)@, "node:"@ + node_id@),
            job_status(final(self)@, "node:"@ + node_id@) == Some(r.state@),
            r.state@.status == "running"@,
    {
        self.start(concat_text("node:", node_id))
    }

    /// Asks for the download of all that is missing, or of a flow's part of it.
    pub fn start_pull_all(&mut self, flow: Option<&str>) -> (r: Started)
        ensures
            final(self)@ == started(old(self)@, pull_key(flow)),
            r.fresh == !is_running(old(self)@, pull_key(flow)),
            job_status(final(self)@, pull_key(flow)) == Some(r.state@),
            r.state@.status == "running"@,
    {
        self.start(pull_all_key(flow))
    }

    /// Appends to the log of a key's job, if it has one.
    pub fn append_log(&mut self, key: &str, text: &str)
        ensures
            final(self)@ == logged(old(self)@, key@, text@),
    {
        let i = self.position(key);
        match self.status(key) {
            Some(s) => {
                let mut log = s.log;
                log.append(text);
                self.set(i, key.to_owned(), DownloadState { status: s.status, log });
            },
            None => {},
        }
    }

    /// Records how a key's job ended, if it has one.
    pub fn finish(&mut self, key: &str, error: Option<&str>)
        ensures
            final(self)@ == ended(old(self)@, key@, error),
    {
        let i = self.position(key);
        match self.status(key) {
            Some(s) => {
                let mut log = s.log;
                let status = match error {
                    None => "done".to_owned(),
                    Some(e) => {
                        let mut line = "\nerror: ".to_owned();
                        line.append(e);
                        line.append("\n");
                        log.append(line.as_str());
                        "error".to_owned()
                    },
                };
                self.set(i, key.to_owned(), DownloadState { status, log });
            },
            None => {},
        }
    }
}

impl Default for DownloadRegistry {
    fn default() -> (r: Self)
        ensures
            r@ == Seq::<DownloadJobView>::empty(),
    {
        DownloadRegistry::new()
    }
}

/// The jobs after a text was appended to the log of a key's job, if it has one.
pub open spec fn logged(jobs: Seq<DownloadJobView>, key: Seq<char>, text: Seq<char>) -> Seq<
    DownloadJobView,
> {
    match job_status(jobs, key) {
        Some(s) => with_state(
            jobs,
            key,
            DownloadStateView { status: s.status, log: s.log + text },
        ),
        None => jobs,
    }
}

/// The jobs after a key's job ended, if it has one.
pub open spec fn ended(jobs: Seq<DownloadJobView>, key: Seq<char>, error: Option<&str>) -> Seq<
    DownloadJobView,
> {
    match job_status(jobs, key) {
        Some(s) => with_state(jobs, key, finished(s, error)),
        None => jobs,
    }
}

/// The state of a job that ended, well or with an error.
pub open spec fn finished(s: DownloadStateView, error: Option<&str>) -> DownloadStateView {
    match error {
        None => DownloadStateView { status: "done"@, log: s.log },
        Some(e) => DownloadStateView {
            status: "error"@,
            log: s.log + ("\nerror: "@ + e@ + "\n"@),
        },
    }
}

/// The key of the job that downloads all that is missing, or a flow's part of it.
pub open spec fn pull_key(flow: Option<&str>) -> Seq<char> {
    match flow {
        Some(flow) => "pull-flow:"@ + flow@,
        None => "pull-all"@,
    }
}

/// The key of the job that downloads all that is missing, or a flow's part of it.
pub fn pull_all_key(flow: Option<&str>) -> (r: String)
    ensures
        r@ == pull_key(flow),
{
    match flow {
        Some(flow) => concat_text("pull-flow:", flow),
        None => "pull-all".to_owned(),
    }
}

/// Setting a job's state leaves each key with one job.
pub proof fn law_keys_stay_different(
    jobs: Seq<DownloadJobView>,
    key: Seq<char>,
    state: DownloadStateView,
)
    requires
        keys_differ(jobs),
    ensures
        keys_differ(with_state(jobs, key, state)),
{
    lemma_job_position(jobs, key);
    let p = job_position(jobs, key);
    let after = with_state(jobs, key, state);
    assert forall|i: int, j: int|
        #![trigger after[i], after[j]]
        0 <= i < j < after.len() implies after[i].key != after[j].key by {
        if i < jobs.len() && i != p {
            assert(after[i] == jobs[i]);
        }
        if j < jobs.len() && j != p {
            assert(after[j] == jobs[j]);
        }
        if p < jobs.len() {
            assert(after[p].key == jobs[p].key);
            assert(jobs[i].key != jobs[j].key);
        }
    }
}

/// Setting a job's state is seen under its key, and under no other.
pub proof fn law_job_is_known_by_its_key(
    jobs: Seq<DownloadJobView>,
    key: Seq<char>,
    state: DownloadStateView,
    other: Seq<char>,
)
    ensures
        job_status(with_state(jobs, key, state), key) == Some(state),
        other != key ==> job_status(with_state(jobs, key, state), other) == job_status(jobs, other),
{
    let after = with_state(jobs, key, state);
    let p = job_position(jobs, key);
    lemma_job_position(jobs, key);
    assert forall|i: int| 0 <= i < p implies (#[trigger] after[i]).key != key by {
        assert(after[i] == jobs[i]);
    }
    lemma_is_job_position(after, key, p);
    if other != key {
        let q = job_position(jobs, other);
        lemma_job_position(jobs, other);
        let m = if q < jobs.len() {
            q
        } else {
            after.len() as int
        };
        assert forall|i: int| 0 <= i < m implies (#[trigger] after[i]).key != other by {
            if i < jobs.len() && i != p {
                assert(after[i] == jobs[i]);
            }
        }
        lemma_is_job_position(after, other, m);
    }
}

/// A job that is asked for while it runs keeps its state; no other job changes.
pub proof fn law_running_job_is_not_begun_again(
    jobs: Seq<DownloadJobView>,
    key: Seq<char>,
    other: Seq<char>,
)
    ensures
        is_running(started(jobs, key), key),
        started(started(jobs, key), key) == started(jobs, key),
        is_running(jobs, key) ==> started(jobs, key) == jobs,
        other != key ==> job_status(started(jobs, key), other) == job_status(jobs, other),
{
    law_job_is_known_by_its_key(jobs, key, begun(), other);
}

/// What happens to the jobs.
pub enum JobEvent {
    /// One is asked for.
    Start(Seq<char>),
    /// One comes into another state, if it is known.
    Change(Seq<char>, DownloadStateView),
}

/// The jobs after an event.
pub open spec fn jobs_after(jobs: Seq<DownloadJobView>, event: JobEvent) -> Seq<DownloadJobView> {
    match event {
        JobEvent::Start(key) => started(jobs, key),
        JobEvent::Change(key, state) => match job_status(jobs, key) {
            Some(_) => with_state(jobs, key, state),
            None => jobs,
        },
    }
}

/// The jobs after some events, of which there were none before.
pub open spec fn jobs_after_all(events: Seq<JobEvent>) -> Seq<DownloadJobView>
    decreases events.len(),
{
    if events.len() == 0 {
        Seq::empty()
    } else {
        jobs_after(jobs_after_all(events.drop_last()), events.last())
    }
}

/// The keys that were asked for, each once, in the order in which each was asked
/// for first.
pub open spec fn first_starts(events: Seq<JobEvent>) -> Seq<Seq<char>>
    decreases events.len(),
{
    if events.len() == 0 {
        Seq::empty()
    } else {
        let before = first_starts(events.drop_last());
        match events.last() {
            JobEvent::Start(key) if !before.contains(key) => before.push(key),
            _ => before,
        }
    }
}

proof fn lemma_keys_are_kept(jobs: Seq<DownloadJobView>, key: Seq<char>, state: DownloadStateView)
    ensures
        ({
            let keys = jobs.map_values(|j: DownloadJobView| j.key);
            let after = with_state(jobs, key, state).map_values(|j: DownloadJobView| j.key);
            &&& keys.contains(key) <==> job_status(jobs, key) is Some
            &&& after == (if keys.contains(key) {
                keys
            } else {
                keys.push(key)
            })
        }),
{
    let f = |j: DownloadJobView| j.key;
    let keys = jobs.map_values(f);
    let p = job_position(jobs, key);
    lemma_job_position(jobs, key);
    if p < jobs.len() {
        assert(keys[p] == key);
        assert(with_state(jobs, key, state).map_values(f) =~= keys);
    } else {
        if keys.contains(key) {
            let i = choose|i: int| 0 <= i < keys.len() && keys[i] == key;
            assert(jobs[i].key == key);
        }
        assert(with_state(jobs, key, state).map_values(f) =~= keys.push(key));
    }
}

/// Over any sequence of starts and changes of state there is one job for each key
/// that was asked for, and the jobs are listed in reverse order of their first
/// start.
pub proof fn law_jobs_are_listed_by_their_first_start(events: Seq<JobEvent>)
    ensures
        jobs_after_all(events).map_values(|j: DownloadJobView| j.key) == first_starts(events),
        jobs_after_all(events).reverse().map_values(|j: DownloadJobView| j.key) == first_starts(
            events,
        ).reverse(),
    decreases events.len(),
{
    let f = |j: DownloadJobView| j.key;
    let jobs = jobs_after_all(events);
    if events.len() > 0 {
        let front = events.drop_last();
        let before = jobs_after_all(front);
        law_jobs_are_listed_by_their_first_start(front);
        match events.last() {
            JobEvent::Start(key) => {
                lemma_keys_are_kept(before, key, begun());
            },
            JobEvent::Change(key, state) => {
                lemma_keys_are_kept(before, key, state);
            },
        }
    } else {
        assert(jobs.map_values(f) =~= first_starts(events));
    }
    assert(jobs.reverse().map_values(f) =~= jobs.map_values(f).reverse());
}

/// What is to be cloned, and where to.
pub struct CloneCommand {
    pub repo: String,
    pub branch: String,
    /// The directory below the workspace.
    pub local_path: String,
}

/// That a node has nothing to clone from.
pub open spec fn no_repo(id: Seq<char>) -> Seq<char> {
    "stub node "@ + id + " has no repo to clone"@
}

/// Whether a command clones a node: from its repo, from its branch or else
/// `main`, into its directory or else one of its own name.
pub open spec fn clones(c: CloneCommand, node: NodeView) -> bool {
    &&& node.repo == Some(c.repo@)
    &&& c.branch@ == (match node.branch {
        Some(b) => b,
        None => "main"@,
    })
    &&& c.local_path@ == (match node.local_path {
        Some(p) => p,
        None => node.id,
    })
}

/// How a node is cloned.
pub fn clone_command(node: &Node) -> (r: Result<CloneCommand, String>)
    ensures
        match r {
            Ok(c) => clones(c, node@),
            Err(e) => node@.repo is None && e@ == no_repo(node@.id),
        },
{
    match &node.repo {
        Some(repo) => {
            let branch = match &node.branch {
                Some(b) => b.clone(),
                None => "main".to_owned(),
            };
            let local_path = match &node.local_path {
                Some(p) => p.clone(),
                None => node.id.clone(),
            };
            Ok(CloneCommand { repo: repo.clone(), branch, local_path })
        },
        None => {
            let mut e = "stub node ".to_owned();
            e.append(node.id.as_str());
            e.append(" has no repo to clone");
            Err(e)
        },
    }
}

impl CloneCommand {
    /// The line that announces the command in a job's log.
    pub open spec fn announced(self) -> Seq<char> {
        "$ git clone --branch "@ + self.branch@ + " "@ + self.repo@ + " "@ + self.local_path@
            + "\n"@
    }

    /// The line that announces the command in a job's log.
    pub fn announcement(&self) -> (r: String)
        ensures
            r@ == self.announced(),
    {
        let mut r = "$ git clone --branch ".to_owned();
        r.append(self.branch.as_str());
        r.append(" ");
        r.append(self.repo.as_str());
        r.append(" ");
        r.append(self.local_path.as_str());
        r.append("\n");
        r
    }

    /// The arguments of the command, but for the directory.
    pub fn arguments(&self) -> (r: Vec<String>)
        ensures
            r.deep_view() == seq![
                "clone"@,
                "--progress"@,
                "--branch"@,
                self.branch@,
                "--single-branch"@,
                self.repo@,
            ],
    {
        let mut r: Vec<String> = Vec::new();
        r.push("clone".to_owned());
        r.push("--progress".to_owned());
        r.push("--branch".to_owned());
        r.push(self.branch.clone());
        r.push("--single-branch".to_owned());
        r.push(self.repo.clone());
        proof {
            assert(r.deep_view() =~= seq![
                "clone"@,
                "--progress"@,
                "--branch"@,
                self.branch@,
                "--single-branch"@,
                self.repo@,
            ]);
        }
        r
    }

    /// That the command failed.
    pub open spec fn failed(self) -> Seq<char> {
        "git clone failed for "@ + self.repo@ + " (branch "@ + self.branch@ + ")"@
    }

    /// That the command failed.
    pub fn failure(&self) -> (r: String)
        ensures
            r@ == self.failed(),
    {
        let mut r = "git clone failed for ".to_owned();
        r.append(self.repo.as_str());
        r.append(" (branch ");
        r.append(self.branch.as_str());
        r.append(")");
        r
    }
}

/// What the download of one node consists of.
pub enum NodeDownload {
    AlreadyThere,
    Clone(CloneCommand),
}

/// The first node with an id.
pub open spec fn node_position(nodes: Seq<NodeView>, id: Seq<char>) -> int
    decreases nodes.len(),
{
    if nodes.len() == 0 || nodes[0].id == id {
        0
    } else {
        1 + node_position(nodes.drop_first(), id)
    }
}

fn find_node(nodes: &Vec<Node>, id: &str) -> (r: usize)
    ensures
        r == node_position(nodes.deep_view(), id@),
        r <= nodes@.len(),
{
    let ghost ns = nodes.deep_view();
    let mut i: usize = 0;
    proof {
        assert(ns.skip(0) =~= ns);
    }
    while i < nodes.len()
        invariant
            i <= nodes@.len(),
            ns == nodes.deep_view(),
            node_position(ns, id@) == i + node_position(ns.skip(i as int), id@),
        decreases nodes@.len() - i,
    {
        proof {
            assert(ns.skip(i as int)[0] == nodes@[i as int]@);
            assert(ns.skip(i as int).drop_first() =~= ns.skip(i + 1));
        }
        if same_text(nodes[i].id.as_str(), id) {
            return i;
        }
        i += 1;
    }
    i
}

/// Whether the download of one node consists of this.
pub open spec fn downloads(
    g: GraphView,
    node_id: Seq<char>,
    r: Result<NodeDownload, String>,
) -> bool {
    let i = node_position(g.nodes, node_id);
    if i >= g.nodes.len() {
        r matches Err(e) && e@ == "no such node: "@ + node_id
    } else {
        let node = g.nodes[i];
        match r {
            Ok(NodeDownload::AlreadyThere) => node.downloaded,
            Ok(NodeDownload::Clone(c)) => !node.downloaded && clones(c, node),
            Err(e) => !node.downloaded && node.repo is None && e@ == no_repo(node.id),
        }
    }
}

/// What the download of one node consists of.
pub fn download_of_node(graph: &Graph, node_id: &str) -> (r: Result<NodeDownload, String>)
    ensures
        downloads(graph@, node_id@, r),
{
    let i = find_node(&graph.nodes, node_id);
    if i == graph.nodes.len() {
        return Err(concat_text("no such node: ", node_id));
    }
    let node = &graph.nodes[i];
    proof {
        assert(graph@.nodes[i as int] == node@);
    }
    if node.downloaded {
        return Ok(NodeDownload::AlreadyThere);
    }
    match clone_command(node) {
        Ok(c) => Ok(NodeDownload::Clone(c)),
        Err(e) => Err(e),
    }
}

/// Whether a node is a service that is missing, and belongs to the flow if one is
/// given.
pub open spec fn is_missing(node: NodeView, flow: Option<&str>) -> bool {
    node.kind == "service"@ && !node.downloaded && (match flow {
        Some(flow) => node.flows.contains(flow@),
        None => true,
    })
}

/// The services that are missing, in the order of the graph. When there are none,
/// nothing is left to pull.
pub fn missing_nodes<'a>(graph: &'a Graph, flow: Option<&str>) -> (r: Vec<&'a Node>)
    ensures
        r.deep_view() == graph@.nodes.filter(|n: NodeView| is_missing(n, flow)),
{
    let ghost ns = graph@.nodes;
    let ghost p = |n: NodeView| is_missing(n, flow);
    let mut r: Vec<&'a Node> = Vec::new();
    let mut i: usize = 0;
    proof {
        assert(r.deep_view() =~= ns.take(0).filter(p));
    }
    while i < graph.nodes.len()
        invariant
            i <= graph.nodes@.len(),
            ns == graph@.nodes,
            p == (|n: NodeView| is_missing(n, flow)),
            r.deep_view() == ns.take(i as int).filter(p),
        decreases graph.nodes@.len() - i,
    {
        let node = &graph.nodes[i];
        proof {
            assert(ns[i as int] == node@);
            assert(ns.take(i + 1) =~= ns.take(i as int).push(ns[i as int]));
            ns.take(i as int).lemma_filter_push(ns[i as int], p);
        }
        let wanted = match flow {
            Some(flow) => contains_text(&node.flows, flow),
            None => true,
        };
        if same_text(node.kind.as_str(), "service") && !node.downloaded && wanted {
            let ghost before = r.deep_view();
            r.push(node);
            proof {
                assert(r.deep_view() =~= before.push(node@));
            }
        }
        i += 1;
    }
    proof {
        assert(ns.take(ns.len() as int) =~= ns);
    }
    r
}

/// Whatever is missing in a workspace's graph can be cloned.
pub proof fn law_missing_nodes_can_be_cloned(g: GraphView, flow: Option<&str>, n: NodeView)
    requires
        missing_nodes_have_repos(g),
        g.nodes.filter(|n: NodeView| is_missing(n, flow)).contains(n),
    ensures
        n.repo is Some,
{
    let p = |n: NodeView| is_missing(n, flow);
    lemma_filter_holds(g.nodes, p, n);
    let i = choose|i: int| 0 <= i < g.nodes.len() && g.nodes[i] == n;
    assert(g.nodes[i] == n);
}

/// A text with a line feed for each carriage return.
pub open spec fn feeds_for_returns(s: Seq<char>) -> Seq<char> {
    s.map_values(
        |c: char|
            if c == '\r' {
                '\n'
            } else {
                c
            },
    )
}

/// The text of a piece of a command's output. A progress meter that overwrites
/// its line comes out as one line per update.
pub fn log_chunk(bytes: &[u8]) -> (r: String)
    ensures
        r@ == feeds_for_returns(lossy(bytes@)),
{
    let text = lossy_text(bytes);
    replace_returns(text.as_str())
}

/// A text with a line feed for each carriage return.
pub fn replace_returns(text: &str) -> (r: String)
    ensures
        r@ == feeds_for_returns(text@),
{
    let cs = chars_of(text);
    let mut r = String::new();
    let mut i: usize = 0;
    while i < cs.len()
        invariant
            i <= cs@.len(),
            r@ == feeds_for_returns(cs@.take(i as int)),
        decreases cs@.len() - i,
    {
        let c: char = if cs[i] == '\r' {
            '\n'
        } else {
            cs[i]
        };
        r.push(c);
        proof {
            assert(cs@.take(i + 1) =~= cs@.take(i as int).push(cs@[i as int]));
            assert(feeds_for_returns(cs@.take(i + 1)) =~= feeds_for_returns(
                cs@.take(i as int),
            ).push(c));
        }
        i += 1;
    }
    proof {
        assert(cs@.take(cs@.len() as int) =~= cs@);
    }
    r
}

/// A job is known by its key: its state is that of the first job of the key, and a
/// key without a job has none.
pub proof fn law_first_job_of_a_key_counts(jobs: Seq<DownloadJobView>, key: Seq<char>, k: int)
    requires
        0 <= k <= jobs.len(),
        k < jobs.len() ==> jobs[k].key == key,
        forall|i: int| 0 <= i < k ==> (#[trigger] jobs[i]).key != key,
    ensures
        k < jobs.len() ==> job_status(jobs, key) == Some(jobs[k].state),
        k == jobs.len() ==> job_status(jobs, key) is None,
{
    lemma_is_job_position(jobs, key, k);
}

/// A job that begins is running and has an empty log; one that is running already
/// goes on as it is.
pub proof fn law_job_begins_with_an_empty_log(jobs: Seq<DownloadJobView>, key: Seq<char>)
    ensures
        (job_status(jobs, key) matches Some(s) && s.status == "running"@) ==> started(jobs, key)
            == jobs,
        !(job_status(jobs, key) matches Some(s) && s.status == "running"@) ==> (job_status(
            started(jobs, key),
            key,
        ) matches Some(s) && s.status == "running"@ && s.log.len() == 0),
{
    law_job_is_known_by_its_key(jobs, key, begun(), key);
}

/// What a job prints is added to its log and changes nothing else; it ends as done
/// with the log that it has, or as failed with the error behind it. A key without a
/// job gets none that way.
pub proof fn law_log_grows_until_the_job_ends(
    jobs: Seq<DownloadJobView>,
    key: Seq<char>,
    other: Seq<char>,
    text: Seq<char>,
    error: &str,
)
    ensures
        job_status(jobs, key) matches Some(s) ==> {
            &&& job_status(logged(jobs, key, text), key) == Some(
                DownloadStateView { status: s.status, log: s.log + text },
            )
            &&& job_status(ended(jobs, key, None), key) == Some(
                DownloadStateView { status: "done"@, log: s.log },
            )
            &&& job_status(ended(jobs, key, Some(error)), key) == Some(
                DownloadStateView {
                    status: "error"@,
                    log: s.log + "\nerror: "@ + error@ + "\n"@,
                },
            )
        },
        job_status(jobs, key) is None ==> logged(jobs, key, text) == jobs && ended(jobs, key, None)
            == jobs && ended(jobs, key, Some(error)) == jobs,
        other != key ==> job_status(logged(jobs, key, text), other) == job_status(jobs, other)
            && job_status(ended(jobs, key, None), other) == job_status(jobs, other) && job_status(
            ended(jobs, key, Some(error)),
            other,
        ) == job_status(jobs, other),
{
    if job_status(jobs, key) is Some {
        let s = job_status(jobs, key)->Some_0;
        let more = DownloadStateView { status: s.status, log: s.log + text };
        law_job_is_known_by_its_key(jobs, key, more, other);
        law_job_is_known_by_its_key(jobs, key, finished(s, None), other);
        law_job_is_known_by_its_key(jobs, key, finished(s, Some(error)), other);
        assert(s.log + ("\nerror: "@ + error@ + "\n"@) =~= s.log + "\nerror: "@ + error@ + "\n"@);
    }
}

/// A pull of everything, a pull of a flow and the download of a node are different
/// jobs, and so are the pulls of two flows.
pub proof fn law_jobs_of_different_kinds_have_different_keys(a: &str, b: &str, node: Seq<char>)
    ensures
        pull_key(None) == "pull-all"@,
        pull_key(Some(a)) == "pull-flow:"@ + a@,
        a@ != b@ ==> pull_key(Some(a)) != pull_key(Some(b)),
        pull_key(None) != pull_key(Some(a)),
        pull_key(Some(a)) != "node:"@ + node,
        pull_key(None) != "node:"@ + node,
{
    reveal_strlit("pull-all");
    reveal_strlit("pull-flow:");
    reveal_strlit("node:");
    let ka = pull_key(Some(a));
    let kb = pull_key(Some(b));
    if ka == kb {
        assert(a@ =~= ka.skip(10));
        assert(b@ =~= kb.skip(10));
    }
    assert(pull_key(None)[5] == 'a' && ka[5] == 'f');
    assert(("node:"@ + node)[0] == 'n' && ka[0] == 'p' && pull_key(None)[0] == 'p');
}

/// A node is cloned from its own repo, on its branch or else `main`, to its own
/// path or else to a directory that is called like it.
pub proof fn law_clone_follows_the_node(c: CloneCommand, node: NodeView)
    requires
        clones(c, node),
    ensures
        node.repo matches Some(repo) && c.repo@ == repo,
        node.branch matches Some(b) ==> c.branch@ == b,
        node.branch is None ==> c.branch@ == "main"@,
        node.local_path matches Some(p) ==> c.local_path@ == p,
        node.local_path is None ==> c.local_path@ == node.id,
{
}

/// The missing nodes are the services that are not there, of the flow if one is
/// asked for.
pub proof fn law_missing_nodes_are_services_to_download(
    g: GraphView,
    flow: &str,
    n: NodeView,
)
    ensures
        g.nodes.filter(|n: NodeView| is_missing(n, None)).contains(n) <==> g.nodes.contains(n)
            && n.kind == "service"@ && !n.downloaded,
        g.nodes.filter(|n: NodeView| is_missing(n, Some(flow))).contains(n) <==> g.nodes.contains(n)
            && n.kind == "service"@ && !n.downloaded && n.flows.contains(flow@),
{
    lemma_filter_holds(g.nodes, |n: NodeView| is_missing(n, None), n);
    lemma_filter_holds(g.nodes, |n: NodeView| is_missing(n, Some(flow)), n);
}

/// A node is found where its id first stands.
pub proof fn law_node_is_found_by_its_id(nodes: Seq<NodeView>, id: Seq<char>, k: int)
    requires
        0 <= k <= nodes.len(),
        k < nodes.len() ==> nodes[k].id == id,
        forall|i: int| 0 <= i < k ==> (#[trigger] nodes[i]).id != id,
    ensures
        node_position(nodes, id) == k,
    decreases nodes.len(),
{
    if nodes.len() > 0 && k > 0 {
        let rest = nodes.drop_first();
        assert(nodes[0].id != id);
        assert forall|i: int| 0 <= i < k - 1 implies (#[trigger] rest[i]).id != id by {
            assert(rest[i] == nodes[i + 1]);
        }
        law_node_is_found_by_its_id(rest, id, k - 1);
    }
}

/// A log has a line feed for each carriage return, and every other character as it
/// came.
pub proof fn law_returns_become_line_feeds(s: Seq<char>)
    ensures
        feeds_for_returns(s).len() == s.len(),
        forall|i: int|
            0 <= i < s.len() ==> (s[i] == '\r' ==> #[trigger] feeds_for_returns(s)[i] == '\n') && (
            s[i] != '\r' ==> feeds_for_returns(s)[i] == s[i]),
{
}

/// What is announced is the command that is run, and a failure names its repo and
/// branch.
pub proof fn law_announcement_is_the_command(c: CloneCommand)
    ensures
        c.announced() == "$ git clone --branch "@ + c.branch@ + " "@ + c.repo@ + " "@
            + c.local_path@ + "\n"@,
        c.failed() == "git clone failed for "@ + c.repo@ + " (branch "@ + c.branch@ + ")"@,
{
}

/// A node that is there is not downloaded again, one with a repo is cloned from it, and
/// one without is refused, as is one that the graph does not have.
pub proof fn law_download_depends_on_what_is_there(
    g: GraphView,
    id: Seq<char>,
    k: int,
    r: Result<NodeDownload, String>,
)
    requires
        0 <= k <= g.nodes.len(),
        k < g.nodes.len() ==> g.nodes[k].id == id,
        forall|i: int| 0 <= i < k ==> (#[trigger] g.nodes[i]).id != id,
        downloads(g, id, r),
    ensures
        k == g.nodes.len() ==> (r matches Err(e) && e@ == "no such node: "@ + id),
        k < g.nodes.len() && g.nodes[k].downloaded ==> r matches Ok(NodeDownload::AlreadyThere),
        k < g.nodes.len() && !g.nodes[k].downloaded && g.nodes[k].repo is Some ==> (
        r matches Ok(NodeDownload::Clone(c)) && Some(c.repo@) == g.nodes[k].repo),
        k < g.nodes.len() && !g.nodes[k].downloaded && g.nodes[k].repo is None ==> (r matches Err(e)
            && e@ == "stub node "@ + id + " has no repo to clone"@),
{
    law_node_is_found_by_its_id(g.nodes, id, k);
}

} // verus!
