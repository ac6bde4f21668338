//! Runs as rows of a database.

use vstd::prelude::*;

use crate::seqs::{lemma_append_holds, lemma_filter_holds, lemma_push_holds};
use crate::state::{
    ContainerDesired, ContainerDesiredView, ContainerInfo, ContainerInfoView, ContainerObserved,
    ContainerObservedView, PortRoute, PortRouteView, RunState, RunStateView, SyncStatus,
};
use crate::strmap::{ascending, lemma_ascending_of_set, lemma_take_next, StrMap};
use crate::text::same_text;

verus! {

/// A row of the runs.
#[derive(Debug)]
pub struct RunRow {
    pub run_id: String,
    pub network: String,
    pub sidecar_container_name: Option<String>,
    pub sidecar_ip: Option<String>,
}

/// The view of a [`RunRow`].
pub struct RunRowView {
    pub run_id: Seq<char>,
    pub network: Seq<char>,
    pub sidecar_container_name: Option<Seq<char>>,
    pub sidecar_ip: Option<Seq<char>>,
}

impl View for RunRow {
    type V = RunRowView;

    open spec fn view(&self) -> RunRowView {
        RunRowView {
            run_id: self.run_id@,
            network: self.network@,
            sidecar_container_name: self.sidecar_container_name.deep_view(),
            sidecar_ip: self.sidecar_ip.deep_view(),
        }
    }
}

impl DeepView for RunRow {
    type V = RunRowView;

    open spec fn deep_view(&self) -> RunRowView {
        self@
    }
}

/// A row of the containers. What was added to the table later may be missing.
#[derive(Debug)]
pub struct ContainerRow {
    pub run_id: String,
    pub node_id: String,
    pub container_name: String,
    pub status: String,
    pub published_port: Option<i64>,
    pub domain: String,
    pub routes: Vec<PortRoute>,
    pub additional_hosts: Vec<String>,
    pub ports: StrMap<Option<u16>>,
    pub status_port: Option<String>,
    pub config_hash: Option<String>,
    pub synced: Option<i64>,
    pub raw_domain: Option<String>,
}

/// The view of a [`ContainerRow`].
pub struct ContainerRowView {
    pub run_id: Seq<char>,
    pub node_id: Seq<char>,
    pub container_name: Seq<char>,
    pub status: Seq<char>,
    pub published_port: Option<i64>,
    pub domain: Seq<char>,
    pub routes: Seq<PortRouteView>,
    pub additional_hosts: Seq<Seq<char>>,
    pub ports: Map<Seq<char>, Option<u16>>,
    pub status_port: Option<Seq<char>>,
    pub config_hash: Option<Seq<char>>,
    pub synced: Option<i64>,
    pub raw_domain: Option<Seq<char>>,
}

impl View for ContainerRow {
    type V = ContainerRowView;

    open spec fn view(&self) -> ContainerRowView {
        ContainerRowView {
            run_id: self.run_id@,
            node_id: self.node_id@,
            container_name: self.container_name@,
            status: self.status@,
            published_port: self.published_port,
            domain: self.domain@,
            routes: self.routes.deep_view(),
            additional_hosts: self.additional_hosts.deep_view(),
            ports: self.ports@,
            status_port: self.status_port.deep_view(),
            config_hash: self.config_hash.deep_view(),
            synced: self.synced,
            raw_domain: self.raw_domain.deep_view(),
        }
    }
}

impl DeepView for ContainerRow {
    type V = ContainerRowView;

    open spec fn deep_view(&self) -> ContainerRowView {
        self@
    }
}

/// A text, or an empty one.
pub open spec fn or_empty(o: Option<Seq<char>>) -> Seq<char> {
    match o {
        Some(s) => s,
        None => Seq::empty(),
    }
}

fn text_or_empty(o: &Option<String>) -> (r: String)
    ensures
        r@ == or_empty(o.deep_view()),
{
    match o {
        Some(s) => s.clone(),
        None => {
            let r = String::new();
            proof {
                assert(r@ =~= Seq::empty());
            }
            r
        },
    }
}

/// Whether a container runs what it should, as a row says it.
pub open spec fn sync_of(synced: Option<i64>) -> SyncStatus {
    match synced {
        Some(n) => if n != 0 {
            SyncStatus::Synced
        } else {
            SyncStatus::Drifted
        },
        None => SyncStatus::Unknown,
    }
}

/// How a row says whether a container runs what it should.
pub open spec fn synced_of(sync: SyncStatus) -> Option<i64> {
    match sync {
        SyncStatus::Synced => Some(1i64),
        SyncStatus::Drifted => Some(0i64),
        SyncStatus::Unknown => None,
        SyncStatus::Orphaned => None,
    }
}

/// The container that a row stands for. It is desired to run if it ran when the
/// row was written.
pub open spec fn container_of(row: ContainerRowView) -> ContainerInfoView {
    ContainerInfoView {
        node_id: row.node_id,
        desired: ContainerDesiredView {
            running: row.status == "running"@,
            container_name: row.container_name,
            domain: row.domain,
            raw_domain: or_empty(row.raw_domain),
            routes: row.routes,
            additional_hosts: row.additional_hosts,
            status_port: row.status_port,
            config_hash: or_empty(row.config_hash),
        },
        observed: ContainerObservedView {
            status: row.status,
            published_port: match row.published_port {
                Some(p) => Some(p as u16),
                None => None,
            },
            ip: None,
            ports: row.ports,
            sync: sync_of(row.synced),
        },
        pending_action: None,
    }
}

fn to_container(row: &ContainerRow) -> (r: ContainerInfo)
    ensures
        r@ == container_of(row@),
{
    let routes = row.routes.clone();
    let additional_hosts = row.additional_hosts.clone();
    proof {
        assert(routes.deep_view() =~= row.routes.deep_view());
        assert(additional_hosts.deep_view() =~= row.additional_hosts.deep_view());
    }
    ContainerInfo {
        node_id: row.node_id.clone(),
        desired: ContainerDesired {
            running: same_text(row.status.as_str(), "running"),
            container_name: row.container_name.clone(),
            domain: row.domain.clone(),
            raw_domain: text_or_empty(&row.raw_domain),
            routes,
            additional_hosts,
            status_port: row.status_port.clone(),
            config_hash: text_or_empty(&row.config_hash),
        },
        observed: ContainerObserved {
            status: row.status.clone(),
            published_port: match row.published_port {
                Some(p) => Some(#[verifier::truncate] (p as u16)),
                None => None,
            },
            ip: None,
            ports: row.ports.clone(),
            sync: match row.synced {
                Some(n) => if n != 0 {
                    SyncStatus::Synced
                } else {
                    SyncStatus::Drifted
                },
                None => SyncStatus::Unknown,
            },
        },
        pending_action: None,
    }
}

/// The row that stands for a container.
pub open spec fn row_of(run_id: Seq<char>, c: ContainerInfoView) -> ContainerRowView {
    ContainerRowView {
        run_id,
        node_id: c.node_id,
        container_name: c.desired.container_name,
        status: c.observed.status,
        published_port: match c.observed.published_port {
            Some(p) => Some(p as i64),
            None => None,
        },
        domain: c.desired.domain,
        routes: c.desired.routes,
        additional_hosts: c.desired.additional_hosts,
        ports: c.observed.ports,
        status_port: c.desired.status_port,
        config_hash: Some(c.desired.config_hash),
        synced: synced_of(c.observed.sync),
        raw_domain: Some(c.desired.raw_domain),
    }
}

fn to_row(run_id: &String, c: &ContainerInfo) -> (r: ContainerRow)
    ensures
        r@ == row_of(run_id@, c@),
{
    let routes = c.desired.routes.clone();
    let additional_hosts = c.desired.additional_hosts.clone();
    proof {
        assert(routes.deep_view() =~= c.desired.routes.deep_view());
        assert(additional_hosts.deep_view() =~= c.desired.additional_hosts.deep_view());
    }
    ContainerRow {
        run_id: run_id.clone(),
        node_id: c.node_id.clone(),
        container_name: c.desired.container_name.clone(),
        status: c.observed.status.clone(),
        published_port: match c.observed.published_port {
            Some(p) => Some(p as i64),
            None => None,
        },
        domain: c.desired.domain.clone(),
        routes,
        additional_hosts,
        ports: c.observed.ports.clone(),
        status_port: c.desired.status_port.clone(),
        config_hash: Some(c.desired.config_hash.clone()),
        synced: match c.observed.sync {
            SyncStatus::Synced => Some(1),
            SyncStatus::Drifted => Some(0),
            SyncStatus::Unknown => None,
            SyncStatus::Orphaned => None,
        },
        raw_domain: Some(c.desired.raw_domain.clone()),
    }
}

/// The row that stands for a run.
pub open spec fn run_row(run: RunStateView) -> RunRowView {
    RunRowView {
        run_id: run.run_id,
        network: run.network,
        sidecar_container_name: Some(run.sidecar_container_name),
        sidecar_ip: run.sidecar_ip,
    }
}

/// The rows that stand for a run's containers.
pub open spec fn container_rows(run: RunStateView) -> Seq<ContainerRowView> {
    ascending(run.containers.dom()).map_values(
        |id: Seq<char>| row_of(run.run_id, run.containers[id]),
    )
}

/// The rows in which a run is stored.
pub fn rows_of_run(run: &RunState) -> (r: (RunRow, Vec<ContainerRow>))
    ensures
        r.0@ == run_row(run@),
        r.1.deep_view() == container_rows(run@),
{
    let row = RunRow {
        run_id: run.run_id.clone(),
        network: run.network.clone(),
        sidecar_container_name: Some(run.sidecar_container_name.clone()),
        sidecar_ip: run.sidecar_ip.clone(),
    };
    let ghost ks = run.containers.keys();
    let ghost f = |id: Seq<char>| row_of(run@.run_id, run@.containers[id]);
    let mut rows: Vec<ContainerRow> = Vec::new();
    let n: usize = run.containers.len();
    let mut i: usize = 0;
    proof {
        assert(rows.deep_view() =~= ks.take(0).map_values(f));
    }
    while i < n
        invariant
            n == run.containers@.dom().len(),
            n == ks.len(),
            ks == run.containers.keys(),
            f == (|id: Seq<char>| row_of(run@.run_id, run@.containers[id])),
            i <= n,
            rows.deep_view() == ks.take(i as int).map_values(f),
        decreases n - i,
    {
        let ghost before = rows.deep_view();
        let c = to_row(&run.run_id, run.containers.value_at(i));
        rows.push(c);
        proof {
            lemma_take_next(ks, i as int);
            assert(rows.deep_view() =~= before.push(c@));
            assert(ks.take(i + 1).map_values(f) =~= before.push(f(ks[i as int])));
        }
        i += 1;
    }
    proof {
        assert(ks.take(n as int) =~= ks);
    }
    (row, rows)
}

/// The run that a row stands for, without containers.
pub open spec fn run_of(row: RunRowView) -> RunStateView {
    RunStateView {
        run_id: row.run_id,
        network: row.network,
        containers: Map::empty(),
        volumes: Map::empty(),
        sidecar_container_name: or_empty(row.sidecar_container_name),
        sidecar_ip: row.sidecar_ip,
        pending_create: None,
        pending_teardown: false,
    }
}

/// The runs that rows stand for, without containers.
pub open spec fn runs_of(rows: Seq<RunRowView>) -> Map<Seq<char>, RunStateView>
    decreases rows.len(),
{
    if rows.len() == 0 {
        Map::empty()
    } else {
        runs_of(rows.drop_last()).insert(rows.last().run_id, run_of(rows.last()))
    }
}

/// A run with one more container.
pub open spec fn with_container(run: RunStateView, row: ContainerRowView) -> RunStateView {
    RunStateView {
        containers: run.containers.insert(row.node_id, container_of(row)),
        ..run
    }
}

/// Runs with the containers that rows stand for. A container of a run that is not
/// there is passed over.
pub open spec fn with_containers(
    runs: Map<Seq<char>, RunStateView>,
    rows: Seq<ContainerRowView>,
) -> Map<Seq<char>, RunStateView>
    decreases rows.len(),
{
    if rows.len() == 0 {
        runs
    } else {
        let before = with_containers(runs, rows.drop_last());
        let row = rows.last();
        if before.contains_key(row.run_id) {
            before.insert(row.run_id, with_container(before[row.run_id], row))
        } else {
            before
        }
    }
}

/// The runs that rows stand for.
pub open spec fn loaded_runs(runs: Seq<RunRowView>, containers: Seq<ContainerRowView>) -> Map<
    Seq<char>,
    RunStateView,
> {
    with_containers(runs_of(runs), containers)
}

/// The runs that rows stand for.
pub fn load_runs(run_rows: &Vec<RunRow>, container_rows: &Vec<ContainerRow>) -> (r: StrMap<
    RunState,
>)
    ensures
        r@ == loaded_runs(run_rows.deep_view(), container_rows.deep_view()),
{
    let ghost rs = run_rows.deep_view();
    let ghost cs = container_rows.deep_view();
    let mut runs: StrMap<RunState> = StrMap::new();
    let mut i: usize = 0;
    while i < run_rows.len()
        invariant
            i <= run_rows@.len(),
            rs == run_rows.deep_view(),
            runs@ == runs_of(rs.take(i as int)),
        decreases run_rows@.len() - i,
    {
        let row = &run_rows[i];
        let mut run = RunState::default();
        run.run_id = row.run_id.clone();
        run.network = row.network.clone();
        run.sidecar_container_name = text_or_empty(&row.sidecar_container_name);
        run.sidecar_ip = row.sidecar_ip.clone();
        proof {
            assert(rs.take(i + 1).drop_last() =~= rs.take(i as int));
            assert(rs.take(i + 1).last() == row@);
            assert(run@ == run_of(row@));
        }
        runs.insert(row.run_id.clone(), run);
        i += 1;
    }
    proof {
        assert(rs.take(rs.len() as int) =~= rs);
    }
    let mut j: usize = 0;
    proof {
        assert(cs.take(0) =~= Seq::empty());
    }
    while j < container_rows.len()
        invariant
            j <= container_rows@.len(),
            cs == container_rows.deep_view(),
            runs@ == with_containers(runs_of(rs), cs.take(j as int)),
        decreases container_rows@.len() - j,
    {
        let row = &container_rows[j];
        proof {
            assert(cs.take(j + 1).drop_last() =~= cs.take(j as int));
            assert(cs.take(j + 1).last() == row@);
        }
        let grown = match runs.get(row.run_id.as_str()) {
            Some(run) => {
                let mut run = run.clone();
                run.containers.insert(row.node_id.clone(), to_container(row));
                Some(run)
            },
            None => None,
        };
        match grown {
            Some(run) => {
                runs.insert(row.run_id.clone(), run);
            },
            None => {},
        }
        j += 1;
    }
    proof {
        assert(cs.take(cs.len() as int) =~= cs);
    }
    runs
}

/// A container as it is read back: what is in flight, its address and that its
/// node is gone are not stored, and it is desired to run if it ran.
pub open spec fn as_stored(c: ContainerInfoView) -> ContainerInfoView {
    ContainerInfoView {
        node_id: c.node_id,
        desired: ContainerDesiredView { running: c.observed.status == "running"@, ..c.desired },
        observed: ContainerObservedView {
            ip: None,
            sync: if c.observed.sync == SyncStatus::Orphaned {
                SyncStatus::Unknown
            } else {
                c.observed.sync
            },
            ..c.observed
        },
        pending_action: None,
    }
}

/// A run as it is read back.
pub open spec fn run_as_stored(run: RunStateView) -> RunStateView {
    RunStateView {
        run_id: run.run_id,
        network: run.network,
        containers: Map::new(
            |id: Seq<char>| run.containers.contains_key(id),
            |id: Seq<char>| as_stored(run.containers[id]),
        ),
        volumes: Map::empty(),
        sidecar_container_name: run.sidecar_container_name,
        sidecar_ip: run.sidecar_ip,
        pending_create: None,
        pending_teardown: false,
    }
}

/// The rows of a database.
pub struct RowsView {
    pub runs: Seq<RunRowView>,
    pub containers: Seq<ContainerRowView>,
}

impl RowsView {
    /// The runs that the rows stand for.
    pub open spec fn loaded(self) -> Map<Seq<char>, RunStateView> {
        loaded_runs(self.runs, self.containers)
    }

    /// Whether the rows of a run's id, in whatever order and among whatever others
    /// they come, are those in which the run is stored.
    pub open spec fn hold(self, run: RunStateView) -> bool {
        &&& self.runs.contains(run_row(run))
        &&& forall|row: RunRowView| #[trigger]
            self.runs.contains(row) && row.run_id == run.run_id ==> row == run_row(run)
        &&& forall|row: ContainerRowView| #[trigger]
            container_rows(run).contains(row) ==> self.containers.contains(row)
        &&& forall|row: ContainerRowView| #[trigger]
            self.containers.contains(row) && row.run_id == run.run_id ==> container_rows(
                run,
            ).contains(row)
    }

    /// What is left once a run was deleted: the rows of all others.
    pub open spec fn without_run(self, run_id: Seq<char>) -> RowsView {
        RowsView {
            runs: self.runs.filter(|row: RunRowView| row.run_id != run_id),
            containers: self.containers.filter(|row: ContainerRowView| row.run_id != run_id),
        }
    }

    /// What is there once a run was saved: its rows in place of those that its id
    /// had.
    pub open spec fn with_run(self, run: RunStateView) -> RowsView {
        let rest = self.without_run(run.run_id);
        RowsView {
            runs: rest.runs.push(run_row(run)),
            containers: rest.containers + container_rows(run),
        }
    }
}

/// Whether every container of a run stands under the id of its node.
pub open spec fn keyed_by_node(run: RunStateView) -> bool {
    forall|id: Seq<char>|
        run.containers.contains_key(id) ==> (#[trigger] run.containers[id]).node_id == id
}

/// A row stands for a container of a run exactly if it is that of the node that
/// it names.
proof fn lemma_container_row(run: RunStateView, row: ContainerRowView)
    requires
        run.containers.dom().finite(),
        keyed_by_node(run),
    ensures
        container_rows(run).contains(row) <==> run.containers.contains_key(row.node_id) && row
            == row_of(run.run_id, run.containers[row.node_id]),
{
    let ks = ascending(run.containers.dom());
    let rows = container_rows(run);
    lemma_ascending_of_set(run.containers.dom());
    if rows.contains(row) {
        let i = choose|i: int| 0 <= i < rows.len() && rows[i] == row;
        assert(ks.to_set().contains(ks[i]));
        assert(run.containers[ks[i]].node_id == ks[i]);
    }
    if run.containers.contains_key(row.node_id) && row == row_of(
        run.run_id,
        run.containers[row.node_id],
    ) {
        assert(ks.to_set().contains(row.node_id));
        let i = choose|i: int| 0 <= i < ks.len() && ks[i] == row.node_id;
        assert(rows[i] == row);
    }
}

proof fn lemma_run_of_rows(rows: Seq<RunRowView>, row: RunRowView)
    requires
        forall|other: RunRowView| #[trigger]
            rows.contains(other) && other.run_id == row.run_id ==> other == row,
    ensures
        runs_of(rows).contains_key(row.run_id) <==> rows.contains(row),
        rows.contains(row) ==> runs_of(rows)[row.run_id] == run_of(row),
    decreases rows.len(),
{
    if rows.len() > 0 {
        let front = rows.drop_last();
        assert forall|other: RunRowView| #[trigger]
            front.contains(other) && other.run_id == row.run_id implies other == row by {
            let i = choose|i: int| 0 <= i < front.len() && front[i] == other;
            assert(rows[i] == other);
            assert(rows.contains(other));
        }
        lemma_run_of_rows(front, row);
        assert(rows[rows.len() - 1] == rows.last());
        assert(rows.contains(rows.last()));
        if front.contains(row) {
            let i = choose|i: int| 0 <= i < front.len() && front[i] == row;
            assert(rows[i] == row);
        }
        if rows.contains(row) && rows.last() != row {
            let i = choose|i: int| 0 <= i < rows.len() && rows[i] == row;
            assert(front[i] == row);
        }
    }
}

/// The rows of a run's containers give it those and no others, among whatever
/// other rows they come.
proof fn lemma_containers_of_rows(
    runs: Map<Seq<char>, RunStateView>,
    rows: Seq<ContainerRowView>,
    run_id: Seq<char>,
)
    requires
        forall|i: int, j: int|
            #![trigger rows[i], rows[j]]
            0 <= i < rows.len() && 0 <= j < rows.len() && rows[i].run_id == run_id
                && rows[j].run_id == run_id && rows[i].node_id == rows[j].node_id ==> rows[i]
                == rows[j],
    ensures
        ({
            let after = with_containers(runs, rows);
            &&& after.contains_key(run_id) <==> runs.contains_key(run_id)
            &&& runs.contains_key(run_id) ==> {
                &&& after[run_id] == (RunStateView {
                    containers: after[run_id].containers,
                    ..runs[run_id]
                })
                &&& forall|id: Seq<char>| #[trigger]
                    after[run_id].containers.contains_key(id) ==> runs[run_id].containers.contains_key(
                        id,
                    ) || exists|i: int|
                        0 <= i < rows.len() && (#[trigger] rows[i]).run_id == run_id
                            && rows[i].node_id == id
                &&& forall|i: int|
                    0 <= i < rows.len() && (#[trigger] rows[i]).run_id == run_id ==> {
                        &&& after[run_id].containers.contains_key(rows[i].node_id)
                        &&& after[run_id].containers[rows[i].node_id] == container_of(rows[i])
                    }
            }
        }),
    decreases rows.len(),
{
    if rows.len() > 0 {
        let front = rows.drop_last();
        let last = rows.last();
        assert forall|i: int, j: int|
            #![trigger front[i], front[j]]
            0 <= i < front.len() && 0 <= j < front.len() && front[i].run_id == run_id
                && front[j].run_id == run_id && front[i].node_id == front[j].node_id implies front[i]
            == front[j] by {
            assert(rows[i] == rows[j]);
        }
        lemma_containers_of_rows(runs, front, run_id);
        let before = with_containers(runs, front);
        let after = with_containers(runs, rows);
        if runs.contains_key(run_id) {
            assert forall|id: Seq<char>| #[trigger]
                after[run_id].containers.contains_key(id) implies runs[run_id].containers.contains_key(
                id,
            ) || exists|i: int|
                0 <= i < rows.len() && (#[trigger] rows[i]).run_id == run_id && rows[i].node_id
                    == id by {
                if before[run_id].containers.contains_key(id) {
                    if !runs[run_id].containers.contains_key(id) {
                        let i = choose|i: int|
                            0 <= i < front.len() && (#[trigger] front[i]).run_id == run_id
                                && front[i].node_id == id;
                        assert(rows[i].node_id == id);
                    }
                } else {
                    assert(rows[rows.len() - 1].node_id == id);
                }
            }
            assert forall|i: int|
                0 <= i < rows.len() && (#[trigger] rows[i]).run_id == run_id implies {
                &&& after[run_id].containers.contains_key(rows[i].node_id)
                &&& after[run_id].containers[rows[i].node_id] == container_of(rows[i])
            } by {
                if i < front.len() {
                    assert(front[i] == rows[i]);
                    if last.run_id == run_id && last.node_id == rows[i].node_id {
                        assert(rows[i] == rows[rows.len() - 1]);
                    }
                }
            }
        }
    }
}

/// What is read back of a run that was saved, from a database that may hold other
/// runs too: the run as it was with its containers and no others, but for what is
/// not stored.
pub proof fn law_saved_run_loads_back(db: RowsView, run: RunStateView)
    requires
        run.containers.dom().finite(),
        keyed_by_node(run),
        db.hold(run),
    ensures
        db.loaded().contains_key(run.run_id),
        db.loaded()[run.run_id] == run_as_stored(run),
{
    let rows = db.containers;
    let id = run.run_id;
    lemma_run_of_rows(db.runs, run_row(run));
    assert forall|i: int| 0 <= i < rows.len() && (#[trigger] rows[i]).run_id == id implies {
        &&& run.containers.contains_key(rows[i].node_id)
        &&& rows[i] == row_of(id, run.containers[rows[i].node_id])
    } by {
        assert(rows.contains(rows[i]));
        lemma_container_row(run, rows[i]);
    }
    lemma_containers_of_rows(runs_of(db.runs), rows, id);
    let found = db.loaded()[id].containers;
    let stored = run_as_stored(run).containers;
    assert forall|n: Seq<char>| run.containers.contains_key(n) implies {
        &&& #[trigger] found.contains_key(n)
        &&& found[n] == as_stored(run.containers[n])
    } by {
        let row = row_of(id, run.containers[n]);
        assert(run.containers[n].node_id == n);
        lemma_container_row(run, row);
        assert(container_rows(run).contains(row));
        let i = choose|i: int| 0 <= i < rows.len() && rows[i] == row;
        assert(rows[i].run_id == id);
        assert(container_of(row) == as_stored(run.containers[n]));
    }
    assert forall|n: Seq<char>| #[trigger] found.contains_key(n) implies run.containers.contains_key(
        n,
    ) by {
        let i = choose|i: int|
            0 <= i < rows.len() && (#[trigger] rows[i]).run_id == id && rows[i].node_id == n;
        assert(rows[i].node_id == n);
    }
    assert(found =~= stored);
}

/// Saving a run stores it, whatever its id stood for before, and leaves every
/// other run as it was.
pub proof fn law_saving_replaces_one_run(db: RowsView, run: RunStateView, other: RunStateView)
    requires
        run.containers.dom().finite(),
        keyed_by_node(run),
        other.containers.dom().finite(),
        keyed_by_node(other),
    ensures
        db.with_run(run).hold(run),
        db.hold(other) && other.run_id != run.run_id ==> db.with_run(run).hold(other),
{
    let rest = db.without_run(run.run_id);
    let after = db.with_run(run);
    let p = |row: RunRowView| row.run_id != run.run_id;
    let q = |row: ContainerRowView| row.run_id != run.run_id;
    assert forall|row: RunRowView| #[trigger] after.runs.contains(row) <==> row == run_row(run) || (
    db.runs.contains(row) && row.run_id != run.run_id) by {
        lemma_filter_holds(db.runs, p, row);
        lemma_push_holds(rest.runs, run_row(run), row);
    }
    assert forall|row: ContainerRowView| #[trigger]
        after.containers.contains(row) <==> container_rows(run).contains(row) || (
        db.containers.contains(row) && row.run_id != run.run_id) by {
        lemma_filter_holds(db.containers, q, row);
        lemma_append_holds(rest.containers, container_rows(run), row);
    }
    assert forall|row: ContainerRowView| #[trigger]
        container_rows(run).contains(row) implies row.run_id == run.run_id by {
        lemma_container_row(run, row);
    }
    assert forall|row: ContainerRowView| #[trigger]
        container_rows(other).contains(row) implies row.run_id == other.run_id by {
        lemma_container_row(other, row);
    }
}

/// A run that was deleted is not read back; every other run is as it was.
pub proof fn law_deleted_run_is_gone(db: RowsView, run_id: Seq<char>, other: RunStateView)
    requires
        other.containers.dom().finite(),
        keyed_by_node(other),
    ensures
        !db.without_run(run_id).loaded().contains_key(run_id),
        db.hold(other) && other.run_id != run_id ==> db.without_run(run_id).hold(other),
{
    let after = db.without_run(run_id);
    let p = |row: RunRowView| row.run_id != run_id;
    let q = |row: ContainerRowView| row.run_id != run_id;
    assert forall|row: RunRowView| #[trigger]
        after.runs.contains(row) <==> db.runs.contains(row) && row.run_id != run_id by {
        lemma_filter_holds(db.runs, p, row);
    }
    assert forall|row: ContainerRowView| #[trigger]
        after.containers.contains(row) <==> db.containers.contains(row) && row.run_id != run_id by {
        lemma_filter_holds(db.containers, q, row);
    }
    assert forall|row: ContainerRowView| #[trigger]
        container_rows(other).contains(row) implies row.run_id == other.run_id by {
        lemma_container_row(other, row);
    }
    let gone = RunRowView { run_id, network: Seq::empty(), sidecar_container_name: None, sidecar_ip: None };
    lemma_run_of_rows(after.runs, gone);
    assert(!after.runs.contains(gone));
    assert forall|i: int| 0 <= i < after.containers.len() implies (#[trigger] after.containers[i]).run_id
        != run_id by {
        assert(after.containers.contains(after.containers[i]));
    }
    lemma_containers_of_rows(runs_of(after.runs), after.containers, run_id);
}

/// A container's row holds each thing under its own name; whether it runs what it
/// should is a number, where that is known.
pub proof fn law_row_says_what_the_container_is(run_id: Seq<char>, c: ContainerInfoView)
    ensures
        ({
            let row = row_of(run_id, c);
            &&& row.run_id == run_id
            &&& row.node_id == c.node_id
            &&& row.container_name == c.desired.container_name
            &&& row.status == c.observed.status
            &&& row.published_port is Some <==> c.observed.published_port is Some
            &&& c.observed.published_port matches Some(p) ==> row.published_port->0 == p
            &&& row.domain == c.desired.domain
            &&& row.raw_domain == Some(c.desired.raw_domain)
            &&& row.routes == c.desired.routes
            &&& row.additional_hosts == c.desired.additional_hosts
            &&& row.ports == c.observed.ports
            &&& row.status_port == c.desired.status_port
            &&& row.config_hash == Some(c.desired.config_hash)
            &&& c.observed.sync == SyncStatus::Synced ==> row.synced == Some(1i64)
            &&& c.observed.sync == SyncStatus::Drifted ==> row.synced == Some(0i64)
            &&& c.observed.sync == SyncStatus::Unknown || c.observed.sync == SyncStatus::Orphaned
                ==> row.synced is None
        }),
{
}

/// A container that is stored and read again is the same but for what is not
/// stored: what is in flight, its address and that its node is gone. It is desired
/// to run if it ran.
pub proof fn law_container_survives_storage(run_id: Seq<char>, c: ContainerInfoView)
    ensures
        ({
            let back = container_of(row_of(run_id, c));
            &&& back == as_stored(c)
            &&& back.node_id == c.node_id
            &&& back.desired.running <==> c.observed.status == "running"@
            &&& back.desired.container_name == c.desired.container_name
            &&& back.desired.domain == c.desired.domain
            &&& back.desired.raw_domain == c.desired.raw_domain
            &&& back.desired.routes == c.desired.routes
            &&& back.desired.additional_hosts == c.desired.additional_hosts
            &&& back.desired.status_port == c.desired.status_port
            &&& back.desired.config_hash == c.desired.config_hash
            &&& back.observed.status == c.observed.status
            &&& back.observed.published_port == c.observed.published_port
            &&& back.observed.ports == c.observed.ports
            &&& back.observed.ip is None
            &&& c.observed.sync != SyncStatus::Orphaned ==> back.observed.sync == c.observed.sync
            &&& c.observed.sync == SyncStatus::Orphaned ==> back.observed.sync
                == SyncStatus::Unknown
            &&& back.pending_action is None
        }),
{
}

/// A run that is stored and read again has its name, its network, its sidecar and
/// its containers; it has no volumes, and nothing of it is in flight.
pub proof fn law_run_survives_storage(run: RunStateView, id: Seq<char>)
    ensures
        ({
            let row = run_row(run);
            let back = run_as_stored(run);
            &&& row.run_id == run.run_id
            &&& row.network == run.network
            &&& row.sidecar_container_name == Some(run.sidecar_container_name)
            &&& row.sidecar_ip == run.sidecar_ip
            &&& back.run_id == run.run_id
            &&& back.network == run.network
            &&& back.sidecar_container_name == run.sidecar_container_name
            &&& back.sidecar_ip == run.sidecar_ip
            &&& back.containers.contains_key(id) <==> run.containers.contains_key(id)
            &&& run.containers.contains_key(id) ==> back.containers[id] == container_of(
                row_of(run.run_id, run.containers[id]),
            )
            &&& forall|v: Seq<char>| !#[trigger] back.volumes.contains_key(v)
            &&& back.pending_create is None
            &&& !back.pending_teardown
        }),
{
    if run.containers.contains_key(id) {
        law_container_survives_storage(run.run_id, run.containers[id]);
    }
}

/// A row without the columns that were added later stands for a container without
/// what they hold.
pub proof fn law_older_rows_are_read(row: ContainerRowView, run: RunRowView)
    ensures
        row.raw_domain is None ==> container_of(row).desired.raw_domain.len() == 0,
        row.config_hash is None ==> container_of(row).desired.config_hash.len() == 0,
        row.synced is None ==> container_of(row).observed.sync == SyncStatus::Unknown,
        row.published_port is None ==> container_of(row).observed.published_port is None,
        run.sidecar_container_name is None ==> run_of(run).sidecar_container_name.len() == 0,
{
}

} // verus!
