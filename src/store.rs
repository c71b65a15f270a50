//! The records that ingestion writes, kept as append-only tables, and the
//! operations on them: version resolution, threshold configuration and the
//! ingestion of a report.
//!
//! Rows are never edited but for one field: the statistic that a threshold
//! points at. Ids are row positions.
use crate::adapter::AdapterKind;
use crate::stats::{
    boundary_of, classify, config_error, enough_samples, evaluate, in_range, valid_config, Boundary,
    ConfigError, Side, StatisticConfig,
};
use vstd::prelude::*;

verus! {

pub open spec fn opt_str(o: Option<String>) -> Option<Seq<char>> {
    match o {
        Some(s) => Some(s@),
        None => None,
    }
}

/// `b` holds `a` as its first rows.
pub open spec fn extends<T>(a: Seq<T>, b: Seq<T>) -> bool {
    a.len() <= b.len() && b.subrange(0, a.len() as int) == a
}

// ---------------------------------------------------------------------------
// Rows
// ---------------------------------------------------------------------------

/// A benchmark or a measure: a name within a project.
#[derive(Clone, Debug)]
pub struct NameRow {
    pub project_id: u64,
    pub name: String,
}

/// A version: its branch, its number within the branch, and its hash.
#[derive(Clone, Debug)]
pub struct VersionRow {
    pub branch_id: u64,
    pub number: u64,
    pub hash: Option<String>,
}

/// One ingestion event.
#[derive(Clone, Copy, Debug)]
pub struct ReportRow {
    pub project_id: u64,
    pub branch_id: u64,
    pub testbed_id: u64,
    pub version_id: usize,
    pub adapter: AdapterKind,
    pub user_id: u64,
    pub start_time: u64,
    pub end_time: u64,
}

/// One measured value. It carries the branch, testbed and start time of its
/// report, which is what history is selected by.
#[derive(Clone, Copy, Debug)]
pub struct MetricRow {
    pub report_id: usize,
    pub branch_id: u64,
    pub testbed_id: u64,
    pub start_time: u64,
    pub benchmark_id: usize,
    pub measure_id: usize,
    pub value: u64,
    pub lower_value: Option<u64>,
    pub upper_value: Option<u64>,
}

/// The statistical policy for one (project, branch, testbed, measure).
#[derive(Clone, Copy, Debug)]
pub struct ThresholdRow {
    pub project_id: u64,
    pub branch_id: u64,
    pub testbed_id: u64,
    pub measure_id: usize,
    pub statistic_id: usize,
    pub created: u64,
    pub modified: u64,
    /// A deleted threshold no longer applies or lists; its statistics and
    /// the boundaries and alerts made under it stay.
    pub deleted: bool,
}

/// One configuration that a threshold used, kept after it is replaced.
#[derive(Clone, Copy, Debug)]
pub struct StatisticRow {
    pub threshold_id: usize,
    pub config: StatisticConfig,
}

/// The limits computed for one metric.
#[derive(Clone, Copy, Debug)]
pub struct BoundaryRow {
    pub metric_id: usize,
    pub threshold_id: usize,
    pub statistic_id: usize,
    pub boundary: Boundary,
}

#[derive(Clone, Copy, Debug, PartialEq, Eq, Structural)]
pub enum AlertStatus {
    Active,
    Dismissed,
}

/// A metric that breached its boundary.
#[derive(Clone, Copy, Debug)]
pub struct AlertRow {
    pub boundary_id: usize,
    pub side: Side,
    pub status: AlertStatus,
}

/// No two rows name the same thing in the same project.
pub open spec fn names_unique(rows: Seq<NameRow>) -> bool {
    forall|i: int, j: int|
        0 <= i < j < rows.len() ==> !(#[trigger] rows[i].project_id == #[trigger] rows[j].project_id
            && rows[i].name@ == rows[j].name@)
}

/// No two versions of a branch share a hash.
pub open spec fn hashes_unique(vs: Seq<VersionRow>) -> bool {
    forall|i: int, j: int|
        0 <= i < j < vs.len() ==> !(#[trigger] vs[i].branch_id == #[trigger] vs[j].branch_id
            && vs[i].hash is Some && opt_str(vs[i].hash) == opt_str(vs[j].hash))
}

/// No two live thresholds share an identity.
pub open spec fn identities_unique(ts: Seq<ThresholdRow>) -> bool {
    forall|i: int, j: int|
        0 <= i < j < ts.len() ==> !(#[trigger] ts[i].project_id == #[trigger] ts[j].project_id
            && ts[i].branch_id == ts[j].branch_id && ts[i].testbed_id == ts[j].testbed_id
            && ts[i].measure_id == ts[j].measure_id && !ts[i].deleted && !ts[j].deleted)
}

/// All tables.
pub struct Store {
    pub benchmarks: Vec<NameRow>,
    pub measures: Vec<NameRow>,
    pub versions: Vec<VersionRow>,
    pub reports: Vec<ReportRow>,
    pub metrics: Vec<MetricRow>,
    pub thresholds: Vec<ThresholdRow>,
    pub statistics: Vec<StatisticRow>,
    pub boundaries: Vec<BoundaryRow>,
    pub alerts: Vec<AlertRow>,
}

impl Store {
    /// Every reference points at a row, and every threshold at a valid
    /// statistic.
    pub open spec fn wf(&self) -> bool {
        &&& forall|i: int|
            0 <= i < self.thresholds@.len() ==> {
                let t = #[trigger] self.thresholds@[i];
                &&& t.statistic_id < self.statistics@.len()
                &&& valid_config(self.statistics@[t.statistic_id as int].config)
            }
        &&& forall|i: int|
            0 <= i < self.boundaries@.len() ==> (#[trigger] self.boundaries@[i]).statistic_id
                < self.statistics@.len()
        &&& forall|i: int|
            0 <= i < self.alerts@.len() ==> (#[trigger] self.alerts@[i]).boundary_id
                < self.boundaries@.len()
        &&& names_unique(self.benchmarks@)
        &&& names_unique(self.measures@)
        &&& hashes_unique(self.versions@)
        &&& identities_unique(self.thresholds@)
    }

    /// The configuration that alert `a` was raised under.
    pub open spec fn alert_config(&self, a: int) -> StatisticConfig {
        self.statistics@[self.boundaries@[self.alerts@[a].boundary_id as int].statistic_id as int].config
    }

    pub fn new() -> (r: Store)
        ensures
            r.wf(),
            r.benchmarks@.len() == 0 && r.measures@.len() == 0 && r.versions@.len() == 0,
            r.reports@.len() == 0 && r.metrics@.len() == 0 && r.thresholds@.len() == 0,
            r.statistics@.len() == 0 && r.boundaries@.len() == 0 && r.alerts@.len() == 0,
    {
        Store {
            benchmarks: Vec::new(),
            measures: Vec::new(),
            versions: Vec::new(),
            reports: Vec::new(),
            metrics: Vec::new(),
            thresholds: Vec::new(),
            statistics: Vec::new(),
            boundaries: Vec::new(),
            alerts: Vec::new(),
        }
    }
}


// ---------------------------------------------------------------------------
// Version resolution
// ---------------------------------------------------------------------------

/// The last version of `branch` whose hash is `h`, or -1.
pub open spec fn hash_index(vs: Seq<VersionRow>, branch: u64, h: Seq<char>) -> int
    decreases vs.len(),
{
    if vs.len() == 0 {
        -1
    } else if vs.last().branch_id == branch && opt_str(vs.last().hash) == Some(h) {
        vs.len() - 1
    } else {
        hash_index(vs.drop_last(), branch, h)
    }
}

/// The highest version number of `branch`, 0 where it has none.
pub open spec fn max_number(vs: Seq<VersionRow>, branch: u64) -> int
    decreases vs.len(),
{
    if vs.len() == 0 {
        0
    } else {
        let m = max_number(vs.drop_last(), branch);
        if vs.last().branch_id == branch && vs.last().number > m {
            vs.last().number as int
        } else {
            m
        }
    }
}

/// Whether a resolution of `(branch, hash)` finds an existing version.
pub open spec fn hash_known(vs: Seq<VersionRow>, branch: u64, hash: Option<Seq<char>>) -> bool {
    hash is Some && hash_index(vs, branch, hash->0) >= 0
}

/// `v1` and id `r` are what resolving `(branch, hash)` against `v0` gives:
/// the version with that hash where the branch has one, else a new version
/// numbered one past the branch's highest.
pub open spec fn resolved(
    v0: Seq<VersionRow>,
    v1: Seq<VersionRow>,
    branch: u64,
    hash: Option<Seq<char>>,
    r: int,
) -> bool {
    if hash_known(v0, branch, hash) {
        r == hash_index(v0, branch, hash->0) && v1 == v0
    } else {
        &&& r == v0.len()
        &&& v1.len() == v0.len() + 1
        &&& v1.subrange(0, v0.len() as int) == v0
        &&& v1[r].branch_id == branch
        &&& v1[r].number == max_number(v0, branch) + 1
        &&& opt_str(v1[r].hash) == hash
    }
}

/// Why a store operation made no change.
#[derive(Clone, Copy, Debug, PartialEq, Eq, Structural)]
pub enum StoreError {
    /// The branch's version numbers are exhausted.
    VersionOverflow,
    /// A statistic could not be evaluated exactly.
    OutOfRange,
    /// The configuration was refused.
    InvalidStatistic(ConfigError),
    /// No live threshold of the project has this id.
    NotFound,
}

proof fn lemma_hash_absent(vs: Seq<VersionRow>, branch: u64, h: Seq<char>)
    requires
        hash_index(vs, branch, h) < 0,
    ensures
        forall|i: int|
            0 <= i < vs.len() ==> !((#[trigger] vs[i]).branch_id == branch && opt_str(vs[i].hash)
                == Some(h)),
    decreases vs.len(),
{
    if vs.len() > 0 {
        lemma_hash_absent(vs.drop_last(), branch, h);
        assert forall|i: int| 0 <= i < vs.len() - 1 implies vs[i] == vs.drop_last()[i] by {}
    }
}

fn find_version(vs: &Vec<VersionRow>, branch_id: u64, h: &String) -> (r: Option<usize>)
    ensures
        match r {
            Some(j) => j as int == hash_index(vs@, branch_id, h@),
            None => hash_index(vs@, branch_id, h@) < 0,
        },
{
    let mut j = vs.len();
    assert(vs@.subrange(0, j as int) =~= vs@);
    while j > 0
        invariant
            j <= vs.len(),
            hash_index(vs@, branch_id, h@) == hash_index(vs@.subrange(0, j as int), branch_id, h@),
        decreases j,
    {
        let ghost sub = vs@.subrange(0, j as int);
        assert(sub.drop_last() =~= vs@.subrange(0, j - 1));
        assert(sub.last() == vs@[j - 1]);
        let matches_hash = match &vs[j - 1].hash {
            Some(x) => x.eq(h),
            None => false,
        };
        if vs[j - 1].branch_id == branch_id && matches_hash {
            return Some(j - 1);
        }
        j = j - 1;
    }
    None
}

fn highest_number(vs: &Vec<VersionRow>, branch_id: u64) -> (r: u64)
    ensures
        r == max_number(vs@, branch_id),
{
    let mut m: u64 = 0;
    let mut i: usize = 0;
    while i < vs.len()
        invariant
            i <= vs.len(),
            m == max_number(vs@.subrange(0, i as int), branch_id),
        decreases vs.len() - i,
    {
        assert(vs@.subrange(0, i + 1).drop_last() =~= vs@.subrange(0, i as int));
        if vs[i].branch_id == branch_id && vs[i].number > m {
            m = vs[i].number;
        }
        i = i + 1;
    }
    assert(vs@.subrange(0, vs.len() as int) =~= vs@);
    m
}

/// Resolving the same branch and hash a second time gives the version of the
/// first and adds none.
pub proof fn lemma_resolve_twice(
    v0: Seq<VersionRow>,
    v1: Seq<VersionRow>,
    v2: Seq<VersionRow>,
    branch: u64,
    h: Seq<char>,
    r1: int,
    r2: int,
)
    requires
        resolved(v0, v1, branch, Some(h), r1),
        resolved(v1, v2, branch, Some(h), r2),
    ensures
        r2 == r1,
        v2 == v1,
{
    if !hash_known(v0, branch, Some(h)) {
        assert(v1.drop_last() =~= v0);
        assert(v1.last() == v1[r1]);
        assert(hash_index(v1, branch, h) == r1);
    }
}

/// A hash that the branch has not seen gets a version numbered exactly one
/// past the branch's highest.
pub proof fn lemma_resolve_new_hash(
    v0: Seq<VersionRow>,
    v1: Seq<VersionRow>,
    branch: u64,
    h: Seq<char>,
    r: int,
)
    requires
        resolved(v0, v1, branch, Some(h), r),
        hash_index(v0, branch, h) < 0,
    ensures
        v1.len() == v0.len() + 1,
        v1[r].number == max_number(v0, branch) + 1,
        max_number(v1, branch) == max_number(v0, branch) + 1,
{
    assert(v1.drop_last() =~= v0);
}

impl Store {
    /// The version to attach a report on `branch_id` to: the branch's version
    /// with this hash where there is one, else a new one numbered one past
    /// the branch's highest.
    pub fn resolve_version(&mut self, branch_id: u64, hash: Option<String>) -> (r: Result<
        usize,
        StoreError,
    >)
        ensures
            match r {
                Ok(id) => resolved(
                    old(self).versions@,
                    final(self).versions@,
                    branch_id,
                    opt_str(hash),
                    id as int,
                ),
                Err(e) => e == StoreError::VersionOverflow && final(self).versions@ == old(
                    self,
                ).versions@,
            },
            r is Err <==> (!hash_known(old(self).versions@, branch_id, opt_str(hash)) && max_number(
                old(self).versions@,
                branch_id,
            ) == u64::MAX),
            final(self).benchmarks@ == old(self).benchmarks@,
            final(self).measures@ == old(self).measures@,
            final(self).reports@ == old(self).reports@,
            final(self).metrics@ == old(self).metrics@,
            final(self).thresholds@ == old(self).thresholds@,
            final(self).statistics@ == old(self).statistics@,
            final(self).boundaries@ == old(self).boundaries@,
            final(self).alerts@ == old(self).alerts@,
            hashes_unique(old(self).versions@) ==> hashes_unique(final(self).versions@),
    {
        let found = match &hash {
            Some(h) => {
                assert(opt_str(hash) == Some(h@));
                find_version(&self.versions, branch_id, h)
            },
            None => None,
        };
        assert(found matches Some(id) ==> hash_known(self.versions@, branch_id, opt_str(hash))
            && id as int == hash_index(self.versions@, branch_id, opt_str(hash)->0));
        assert(found is None ==> !hash_known(self.versions@, branch_id, opt_str(hash)));
        match found {
            Some(id) => {
                return Ok(id);
            },
            None => {},
        }
        let max = highest_number(&self.versions, branch_id);
        if max == u64::MAX {
            return Err(StoreError::VersionOverflow);
        }
        let id = self.versions.len();
        let ghost hv = opt_str(hash);
        self.versions.push(VersionRow { branch_id, number: max + 1, hash });
        assert(self.versions@.subrange(0, id as int) =~= old(self).versions@);
        proof {
            if hv is Some {
                lemma_hash_absent(old(self).versions@, branch_id, hv->0);
            }
            if hashes_unique(old(self).versions@) {
                assert forall|i: int, j: int| 0 <= i < j < self.versions@.len() implies !(
                #[trigger] self.versions@[i].branch_id == #[trigger] self.versions@[j].branch_id
                    && self.versions@[i].hash is Some && opt_str(self.versions@[i].hash) == opt_str(
                    self.versions@[j].hash,
                )) by {
                    assert(self.versions@[i] == old(self).versions@[i]);
                    if j < id {
                        assert(self.versions@[j] == old(self).versions@[j]);
                    } else {
                        assert(self.versions@[j].branch_id == branch_id);
                        assert(opt_str(self.versions@[j].hash) == hv);
                        if hv is Some {
                            assert(!(old(self).versions@[i].branch_id == branch_id && opt_str(
                                old(self).versions@[i].hash,
                            ) == Some(hv->0)));
                        }
                    }
                }
            }
        }
        Ok(id)
    }
}


// ---------------------------------------------------------------------------
// Thresholds and their statistics
// ---------------------------------------------------------------------------

/// What a threshold is unique by.
#[derive(Clone, Copy, Debug, PartialEq, Eq, Structural)]
pub struct ThresholdIdentity {
    pub project_id: u64,
    pub branch_id: u64,
    pub testbed_id: u64,
    pub measure_id: usize,
}

pub open spec fn identity_row(t: ThresholdRow) -> ThresholdIdentity {
    ThresholdIdentity {
        project_id: t.project_id,
        branch_id: t.branch_id,
        testbed_id: t.testbed_id,
        measure_id: t.measure_id,
    }
}

pub open spec fn has_identity(t: ThresholdRow, id: ThresholdIdentity) -> bool {
    !t.deleted && t.project_id == id.project_id && t.branch_id == id.branch_id && t.testbed_id == id.testbed_id
        && t.measure_id == id.measure_id
}

/// The last threshold with identity `id`, or -1.
pub open spec fn threshold_index(ts: Seq<ThresholdRow>, id: ThresholdIdentity) -> int
    decreases ts.len(),
{
    if ts.len() == 0 {
        -1
    } else if has_identity(ts.last(), id) {
        ts.len() - 1
    } else {
        threshold_index(ts.drop_last(), id)
    }
}

/// `s1` and threshold id `r` are what configuring `c` for `id` at time `now`
/// makes of `s0`: a new statistic row, and the threshold repointed at it (or
/// created pointing at it); nothing else changes.
pub open spec fn configured(
    s0: Store,
    s1: Store,
    id: ThresholdIdentity,
    c: StatisticConfig,
    now: u64,
    r: int,
) -> bool {
    let t = threshold_index(s0.thresholds@, id);
    let sid = s0.statistics@.len() as usize;
    &&& if t >= 0 {
        &&& r == t
        &&& s1.thresholds@ == s0.thresholds@.update(
            t,
            ThresholdRow { statistic_id: sid, modified: now, ..s0.thresholds@[t] },
        )
    } else {
        &&& r == s0.thresholds@.len()
        &&& s1.thresholds@ == s0.thresholds@.push(
            ThresholdRow {
                project_id: id.project_id,
                branch_id: id.branch_id,
                testbed_id: id.testbed_id,
                measure_id: id.measure_id,
                statistic_id: sid,
                created: now,
                modified: now,
                deleted: false,
            },
        )
    }
    &&& s1.statistics@ == s0.statistics@.push(StatisticRow { threshold_id: r as usize, config: c })
    &&& s1.benchmarks@ == s0.benchmarks@
    &&& s1.measures@ == s0.measures@
    &&& s1.versions@ == s0.versions@
    &&& s1.reports@ == s0.reports@
    &&& s1.metrics@ == s0.metrics@
    &&& s1.boundaries@ == s0.boundaries@
    &&& s1.alerts@ == s0.alerts@
}

/// After a threshold is configured anew, every alert raised before still
/// resolves to the statistic configuration it was raised under.
pub proof fn lemma_configure_keeps_alert_history(
    s0: Store,
    s1: Store,
    id: ThresholdIdentity,
    c: StatisticConfig,
    now: u64,
    r: int,
    a: int,
)
    requires
        s0.wf(),
        configured(s0, s1, id, c, now, r),
        0 <= a < s0.alerts@.len(),
    ensures
        s1.alerts@[a] == s0.alerts@[a],
        s1.alert_config(a) == s0.alert_config(a),
{
    let b = s0.alerts@[a].boundary_id as int;
    assert(0 <= b < s0.boundaries@.len());
    assert(s0.boundaries@[b].statistic_id < s0.statistics@.len());
}

proof fn lemma_threshold_absent(ts: Seq<ThresholdRow>, id: ThresholdIdentity)
    requires
        threshold_index(ts, id) < 0,
    ensures
        forall|i: int| 0 <= i < ts.len() ==> !has_identity(#[trigger] ts[i], id),
    decreases ts.len(),
{
    if ts.len() > 0 {
        lemma_threshold_absent(ts.drop_last(), id);
        assert forall|i: int| 0 <= i < ts.len() - 1 implies ts[i] == ts.drop_last()[i] by {}
    }
}

fn find_threshold(ts: &Vec<ThresholdRow>, id: ThresholdIdentity) -> (r: Option<usize>)
    ensures
        match r {
            Some(j) => j as int == threshold_index(ts@, id) && j < ts.len(),
            None => threshold_index(ts@, id) < 0,
        },
{
    let mut j = ts.len();
    assert(ts@.subrange(0, j as int) =~= ts@);
    while j > 0
        invariant
            j <= ts.len(),
            threshold_index(ts@, id) == threshold_index(ts@.subrange(0, j as int), id),
        decreases j,
    {
        let ghost sub = ts@.subrange(0, j as int);
        assert(sub.drop_last() =~= ts@.subrange(0, j - 1));
        assert(sub.last() == ts@[j - 1]);
        let t = ts[j - 1];
        if !t.deleted && t.project_id == id.project_id && t.branch_id == id.branch_id
            && t.testbed_id == id.testbed_id && t.measure_id == id.measure_id {
            return Some(j - 1);
        }
        j = j - 1;
    }
    None
}

impl Store {
    /// The threshold with identity `id`, if there is one.
    pub fn threshold_for(&self, id: ThresholdIdentity) -> (r: Option<usize>)
        ensures
            match r {
                Some(j) => j as int == threshold_index(self.thresholds@, id),
                None => threshold_index(self.thresholds@, id) < 0,
            },
    {
        find_threshold(&self.thresholds, id)
    }

    /// Validates `config`, stores it as a new statistic, and points the
    /// threshold of `id` at it, creating the threshold where there is none.
    /// Earlier statistics stay as they were.
    pub fn create_or_replace(&mut self, id: ThresholdIdentity, config: StatisticConfig, now: u64) -> (r:
        Result<usize, StoreError>)
        requires
            old(self).wf(),
        ensures
            final(self).wf(),
            match config_error(config) {
                Some(e) => r == Err::<usize, StoreError>(StoreError::InvalidStatistic(e)),
                None => r is Ok,
            },
            match r {
                Ok(t) => configured(*old(self), *final(self), id, config, now, t as int),
                Err(_) => *final(self) == *old(self),
            },
    {
        match config.validate() {
            Err(e) => {
                return Err(StoreError::InvalidStatistic(e));
            },
            Ok(()) => {},
        }
        let sid = self.statistics.len();
        let t = match find_threshold(&self.thresholds, id) {
            Some(t) => {
                let row = self.thresholds[t];
                self.thresholds.set(
                    t,
                    ThresholdRow {
                        project_id: row.project_id,
                        branch_id: row.branch_id,
                        testbed_id: row.testbed_id,
                        measure_id: row.measure_id,
                        statistic_id: sid,
                        created: row.created,
                        modified: now,
                        deleted: row.deleted,
                    },
                );
                t
            },
            None => {
                let t = self.thresholds.len();
                self.thresholds.push(
                    ThresholdRow {
                        project_id: id.project_id,
                        branch_id: id.branch_id,
                        testbed_id: id.testbed_id,
                        measure_id: id.measure_id,
                        statistic_id: sid,
                        created: now,
                        modified: now,
                        deleted: false,
                    },
                );
                t
            },
        };
        self.statistics.push(StatisticRow { threshold_id: t, config });
        proof {
            assert(valid_config(self.statistics@[sid as int].config));
            assert forall|i: int| 0 <= i < self.thresholds@.len() implies {
                let t = #[trigger] self.thresholds@[i];
                &&& t.statistic_id < self.statistics@.len()
                &&& valid_config(self.statistics@[t.statistic_id as int].config)
            } by {
                if self.thresholds@[i].statistic_id != sid {
                    assert(self.thresholds@[i] == old(self).thresholds@[i]);
                }
            }
            assert forall|i: int| 0 <= i < self.boundaries@.len() implies (
            #[trigger] self.boundaries@[i]).statistic_id < self.statistics@.len() by {
                assert(self.boundaries@[i] == old(self).boundaries@[i]);
            }
            let ot = old(self).thresholds@;
            let nt = self.thresholds@;
            if threshold_index(ot, id) < 0 {
                lemma_threshold_absent(ot, id);
            }
            assert forall|i: int, j: int| 0 <= i < j < nt.len() implies !(
            #[trigger] nt[i].project_id == #[trigger] nt[j].project_id && nt[i].branch_id
                == nt[j].branch_id && nt[i].testbed_id == nt[j].testbed_id && nt[i].measure_id
                == nt[j].measure_id && !nt[i].deleted && !nt[j].deleted) by {
                if j < ot.len() {
                    assert(identity_row(nt[i]) == identity_row(ot[i]) && nt[i].deleted
                        == ot[i].deleted);
                    assert(identity_row(nt[j]) == identity_row(ot[j]) && nt[j].deleted
                        == ot[j].deleted);
                } else {
                    assert(nt[i] == ot[i]);
                    assert(has_identity(nt[j], id));
                }
            }
        }
        Ok(t)
    }
}


// ---------------------------------------------------------------------------
// Ingestion
// ---------------------------------------------------------------------------

/// The last row of `project` named `name`, or -1.
pub open spec fn name_index(rows: Seq<NameRow>, project: u64, name: Seq<char>) -> int
    decreases rows.len(),
{
    if rows.len() == 0 {
        -1
    } else if rows.last().project_id == project && rows.last().name@ == name {
        rows.len() - 1
    } else {
        name_index(rows.drop_last(), project, name)
    }
}

/// `r1` and id `id` are what looking up, or else adding, `name` in `project`
/// makes of `r0`.
pub open spec fn upserted(r0: Seq<NameRow>, r1: Seq<NameRow>, project: u64, name: Seq<char>, id: int) -> bool {
    if name_index(r0, project, name) >= 0 {
        id == name_index(r0, project, name) && r1 == r0
    } else {
        &&& id == r0.len()
        &&& r1.len() == r0.len() + 1
        &&& r1.subrange(0, r0.len() as int) == r0
        &&& r1[id].project_id == project
        &&& r1[id].name@ == name
    }
}

proof fn lemma_name_absent(rows: Seq<NameRow>, project: u64, name: Seq<char>)
    requires
        name_index(rows, project, name) < 0,
    ensures
        forall|i: int|
            0 <= i < rows.len() ==> !((#[trigger] rows[i]).project_id == project && rows[i].name@
                == name),
    decreases rows.len(),
{
    if rows.len() > 0 {
        lemma_name_absent(rows.drop_last(), project, name);
        assert forall|i: int| 0 <= i < rows.len() - 1 implies rows[i] == rows.drop_last()[i] by {}
    }
}

fn upsert_name(rows: &mut Vec<NameRow>, project_id: u64, name: &String) -> (r: usize)
    ensures
        upserted(old(rows)@, final(rows)@, project_id, name@, r as int),
        names_unique(old(rows)@) ==> names_unique(final(rows)@),
{
    let mut j = rows.len();
    assert(rows@.subrange(0, j as int) =~= rows@);
    while j > 0
        invariant
            j <= rows.len(),
            rows@ == old(rows)@,
            name_index(rows@, project_id, name@) == name_index(
                rows@.subrange(0, j as int),
                project_id,
                name@,
            ),
        decreases j,
    {
        let ghost sub = rows@.subrange(0, j as int);
        assert(sub.drop_last() =~= rows@.subrange(0, j - 1));
        assert(sub.last() == rows@[j - 1]);
        if rows[j - 1].project_id == project_id && rows[j - 1].name.eq(name) {
            return j - 1;
        }
        j = j - 1;
    }
    let id = rows.len();
    rows.push(NameRow { project_id, name: name.clone() });
    assert(rows@.subrange(0, id as int) =~= old(rows)@);
    proof {
        lemma_name_absent(old(rows)@, project_id, name@);
        if names_unique(old(rows)@) {
            assert forall|i: int, j: int| 0 <= i < j < rows@.len() implies !(
            #[trigger] rows@[i].project_id == #[trigger] rows@[j].project_id && rows@[i].name@
                == rows@[j].name@) by {
                assert(rows@[i] == old(rows)@[i]);
                if j < id {
                    assert(rows@[j] == old(rows)@[j]);
                } else {
                    assert(rows@[j].name@ == name@ && rows@[j].project_id == project_id);
                    assert(!(old(rows)@[i].project_id == project_id && old(rows)@[i].name@ == name@));
                }
            }
        }
    }
    id
}

/// Which earlier metrics form the history of a new one.
#[derive(Clone, Copy, Debug, PartialEq, Eq, Structural)]
pub struct HistoryQuery {
    pub branch_id: u64,
    pub testbed_id: u64,
    pub benchmark_id: usize,
    pub measure_id: usize,
    pub start_time: u64,
    pub window: Option<u64>,
}

pub open spec fn selects(q: HistoryQuery, m: MetricRow) -> bool {
    &&& m.branch_id == q.branch_id
    &&& m.testbed_id == q.testbed_id
    &&& m.benchmark_id == q.benchmark_id
    &&& m.measure_id == q.measure_id
    &&& match q.window {
        Some(w) => m.start_time + w >= q.start_time,
        None => true,
    }
}

/// The values of the metrics that `q` selects, oldest first.
pub open spec fn history_values(ms: Seq<MetricRow>, q: HistoryQuery) -> Seq<u64>
    decreases ms.len(),
{
    if ms.len() == 0 {
        Seq::empty()
    } else {
        let h = history_values(ms.drop_last(), q);
        if selects(q, ms.last()) {
            h.push(ms.last().value)
        } else {
            h
        }
    }
}

/// The last `max` values of `h`, or all of them.
pub open spec fn most_recent(h: Seq<u64>, max: Option<u64>) -> Seq<u64> {
    match max {
        Some(m) => if h.len() > m {
            h.subrange(h.len() - m, h.len() as int)
        } else {
            h
        },
        None => h,
    }
}

/// The history of a new metric: the selected values, at most `max` of the
/// most recent.
pub fn history(ms: &Vec<MetricRow>, q: HistoryQuery, max: Option<u64>) -> (r: Vec<u64>)
    ensures
        r@ == most_recent(history_values(ms@, q), max),
{
    let mut h: Vec<u64> = Vec::new();
    let mut i: usize = 0;
    while i < ms.len()
        invariant
            i <= ms.len(),
            h@ == history_values(ms@.subrange(0, i as int), q),
        decreases ms.len() - i,
    {
        assert(ms@.subrange(0, i + 1).drop_last() =~= ms@.subrange(0, i as int));
        let m = ms[i];
        let in_window = match q.window {
            Some(w) => m.start_time as u128 + w as u128 >= q.start_time as u128,
            None => true,
        };
        if m.branch_id == q.branch_id && m.testbed_id == q.testbed_id && m.benchmark_id
            == q.benchmark_id && m.measure_id == q.measure_id && in_window {
            h.push(m.value);
        }
        i = i + 1;
    }
    assert(ms@.subrange(0, ms.len() as int) =~= ms@);
    match max {
        Some(m) => {
            if (h.len() as u64) > m {
                let start = h.len() - m as usize;
                let mut tail: Vec<u64> = Vec::new();
                let mut k = start;
                while k < h.len()
                    invariant
                        start <= k <= h.len(),
                        tail@ == h@.subrange(start as int, k as int),
                    decreases h.len() - k,
                {
                    tail.push(h[k]);
                    assert(tail@ =~= h@.subrange(start as int, k + 1));
                    k = k + 1;
                }
                tail
            } else {
                h
            }
        },
        None => h,
    }
}

/// One measured value of a new report.
#[derive(Clone, Debug)]
pub struct NewMetric {
    pub measure: String,
    pub value: u64,
    pub lower_value: Option<u64>,
    pub upper_value: Option<u64>,
}

/// One benchmark of a new report, with its measures in order.
#[derive(Clone, Debug)]
pub struct NewBenchmark {
    pub name: String,
    pub measures: Vec<NewMetric>,
}

/// A report to ingest.
#[derive(Clone, Debug)]
pub struct NewReport {
    pub project_id: u64,
    pub branch_id: u64,
    pub testbed_id: u64,
    pub hash: Option<String>,
    pub adapter: AdapterKind,
    pub user_id: u64,
    pub start_time: u64,
    pub end_time: u64,
    pub benchmarks: Vec<NewBenchmark>,
}

/// What ingesting one value wrote.
#[derive(Clone, Copy, Debug, PartialEq, Eq, Structural)]
pub struct MetricOutcome {
    pub metric_id: usize,
    pub benchmark_id: usize,
    pub measure_id: usize,
    pub boundary: Option<Boundary>,
    pub alert: Option<Side>,
}

/// Every table of `b` starts with the rows of the same table of `a`, and the
/// thresholds and statistics are the same.
pub open spec fn grown(a: Store, b: Store) -> bool {
    &&& extends(a.benchmarks@, b.benchmarks@)
    &&& extends(a.measures@, b.measures@)
    &&& extends(a.versions@, b.versions@)
    &&& extends(a.reports@, b.reports@)
    &&& extends(a.metrics@, b.metrics@)
    &&& extends(a.boundaries@, b.boundaries@)
    &&& extends(a.alerts@, b.alerts@)
    &&& b.thresholds@ == a.thresholds@
    &&& b.statistics@ == a.statistics@
}

/// Every table of `a` holds the same rows as in `b`.
pub open spec fn same_rows(a: Store, b: Store) -> bool {
    &&& a.benchmarks@ == b.benchmarks@
    &&& a.measures@ == b.measures@
    &&& a.versions@ == b.versions@
    &&& a.reports@ == b.reports@
    &&& a.metrics@ == b.metrics@
    &&& a.thresholds@ == b.thresholds@
    &&& a.statistics@ == b.statistics@
    &&& a.boundaries@ == b.boundaries@
    &&& a.alerts@ == b.alerts@
}

/// The statistic that the threshold for `id` points at in `s`.
pub open spec fn active_config(s: Store, t: int) -> StatisticConfig {
    config_in(s.thresholds@, s.statistics@, t)
}

/// The statistic that threshold `t` of `ts` points at in `sts`.
pub open spec fn config_in(ts: Seq<ThresholdRow>, sts: Seq<StatisticRow>, t: int) -> StatisticConfig {
    sts[ts[t].statistic_id as int].config
}

/// The history, in metrics `ms`, of a value of `report` for benchmark `bid`
/// and measure `mid`, under statistic configuration `c`.
pub open spec fn history_in(
    ms: Seq<MetricRow>,
    c: StatisticConfig,
    report: ReportRow,
    bid: usize,
    mid: usize,
) -> Seq<u64> {
    most_recent(
        history_values(
            ms,
            HistoryQuery {
                branch_id: report.branch_id,
                testbed_id: report.testbed_id,
                benchmark_id: bid,
                measure_id: mid,
                start_time: report.start_time,
                window: c.window,
            },
        ),
        c.max_sample_size,
    )
}

/// The history that a metric of `report` for benchmark `bid` and measure
/// `mid` is evaluated against under the statistic of threshold `t`.
pub open spec fn metric_history(s: Store, report: ReportRow, bid: usize, mid: usize, t: int) -> Seq<u64> {
    history_in(s.metrics@, active_config(s, t), report, bid, mid)
}

pub open spec fn identity_of(report: ReportRow, mid: usize) -> ThresholdIdentity {
    ThresholdIdentity {
        project_id: report.project_id,
        branch_id: report.branch_id,
        testbed_id: report.testbed_id,
        measure_id: mid,
    }
}

/// What ingesting value `m` of benchmark `name` for `report` (row
/// `report_id`) does to `s0`, giving `s1` and outcome `o`. `s` is `s0` once
/// the benchmark and measure have been looked up or added.
pub open spec fn metric_ingested(
    s0: Store,
    s: Store,
    s1: Store,
    report_id: usize,
    report: ReportRow,
    name: Seq<char>,
    m: NewMetric,
    o: MetricOutcome,
) -> bool {
    let t = threshold_index(s.thresholds@, identity_of(report, o.measure_id));
    let c = active_config(s, t);
    let h = metric_history(s, report, o.benchmark_id, o.measure_id, t);
    &&& upserted(s0.benchmarks@, s.benchmarks@, report.project_id, name, o.benchmark_id as int)
    &&& upserted(s0.measures@, s.measures@, report.project_id, m.measure@, o.measure_id as int)
    &&& s.versions@ == s0.versions@ && s.reports@ == s0.reports@ && s.metrics@ == s0.metrics@
    &&& s.thresholds@ == s0.thresholds@ && s.statistics@ == s0.statistics@
    &&& s.boundaries@ == s0.boundaries@ && s.alerts@ == s0.alerts@
    &&& o.metric_id == s.metrics@.len()
    &&& s1.metrics@ == s.metrics@.push(
        MetricRow {
            report_id,
            branch_id: report.branch_id,
            testbed_id: report.testbed_id,
            start_time: report.start_time,
            benchmark_id: o.benchmark_id,
            measure_id: o.measure_id,
            value: m.value,
            lower_value: m.lower_value,
            upper_value: m.upper_value,
        },
    )
    &&& s1.benchmarks@ == s.benchmarks@ && s1.measures@ == s.measures@
    &&& s1.versions@ == s.versions@ && s1.reports@ == s.reports@
    &&& s1.thresholds@ == s.thresholds@ && s1.statistics@ == s.statistics@
    &&& if t < 0 || !enough_samples(c, h.len() as int) {
        &&& o.boundary is None && o.alert is None
        &&& s1.boundaries@ == s.boundaries@ && s1.alerts@ == s.alerts@
    } else {
        &&& in_range(c, h)
        &&& o.boundary matches Some(b) && boundary_of(b, c, h)
        &&& s1.boundaries@ == s.boundaries@.push(
            BoundaryRow {
                metric_id: o.metric_id,
                threshold_id: t as usize,
                statistic_id: s.thresholds@[t].statistic_id,
                boundary: o.boundary->0,
            },
        )
        &&& o.alert == classify(c, h, m.value as int)
        &&& match o.alert {
            Some(side) => s1.alerts@ == s.alerts@.push(
                AlertRow { boundary_id: s.boundaries@.len() as usize, side, status: AlertStatus::Active },
            ),
            None => s1.alerts@ == s.alerts@,
        }
    }
}


/// The names of a table as (project, name) pairs.
pub open spec fn names_view(rows: Seq<NameRow>) -> Seq<(u64, Seq<char>)> {
    rows.map_values(|r: NameRow| (r.project_id, r.name@))
}

/// The last pair of `v` that is `(project, name)`, or -1.
pub open spec fn view_index(v: Seq<(u64, Seq<char>)>, project: u64, name: Seq<char>) -> int
    decreases v.len(),
{
    if v.len() == 0 {
        -1
    } else if v.last() == (project, name) {
        v.len() - 1
    } else {
        view_index(v.drop_last(), project, name)
    }
}

/// The id that looking up, or else adding, `(project, name)` in `v` gives.
pub open spec fn upsert_id(v: Seq<(u64, Seq<char>)>, project: u64, name: Seq<char>) -> int {
    if view_index(v, project, name) >= 0 {
        view_index(v, project, name)
    } else {
        v.len() as int
    }
}

/// The names after looking up, or else adding, `(project, name)` in `v`.
pub open spec fn upsert_view(v: Seq<(u64, Seq<char>)>, project: u64, name: Seq<char>) -> Seq<
    (u64, Seq<char>),
> {
    if view_index(v, project, name) >= 0 {
        v
    } else {
        v.push((project, name))
    }
}

/// Ingesting value `m` of benchmark `name` fails: with the benchmark and
/// measure looked up or added, a threshold applies, the history is long
/// enough, and its exact arithmetic does not fit.
pub open spec fn step_fails(
    bn: Seq<(u64, Seq<char>)>,
    mn: Seq<(u64, Seq<char>)>,
    ms: Seq<MetricRow>,
    ts: Seq<ThresholdRow>,
    sts: Seq<StatisticRow>,
    report: ReportRow,
    name: Seq<char>,
    m: NewMetric,
) -> bool {
    let bid = upsert_id(bn, report.project_id, name) as usize;
    let mid = upsert_id(mn, report.project_id, m.measure@) as usize;
    let t = threshold_index(ts, identity_of(report, mid));
    let c = config_in(ts, sts, t);
    let h = history_in(ms, c, report, bid, mid);
    t >= 0 && enough_samples(c, h.len() as int) && !in_range(c, h)
}

/// The metric row that ingesting `m` as benchmark `bid`, measure `mid` adds.
pub open spec fn metric_row(report_id: usize, report: ReportRow, bid: usize, mid: usize, m: NewMetric) -> MetricRow {
    MetricRow {
        report_id,
        branch_id: report.branch_id,
        testbed_id: report.testbed_id,
        start_time: report.start_time,
        benchmark_id: bid,
        measure_id: mid,
        value: m.value,
        lower_value: m.lower_value,
        upper_value: m.upper_value,
    }
}

/// Ingesting `pairs` in order, from names `bn`, `mn` and metrics `ms`, fails
/// at some pair (the thresholds and statistics do not change meanwhile).
pub open spec fn ingest_fails(
    bn: Seq<(u64, Seq<char>)>,
    mn: Seq<(u64, Seq<char>)>,
    ms: Seq<MetricRow>,
    ts: Seq<ThresholdRow>,
    sts: Seq<StatisticRow>,
    report_id: usize,
    report: ReportRow,
    pairs: Seq<(Seq<char>, NewMetric)>,
) -> bool
    decreases pairs.len(),
{
    if pairs.len() == 0 {
        false
    } else {
        let name = pairs[0].0;
        let m = pairs[0].1;
        let bid = upsert_id(bn, report.project_id, name) as usize;
        let mid = upsert_id(mn, report.project_id, m.measure@) as usize;
        step_fails(bn, mn, ms, ts, sts, report, name, m) || ingest_fails(
            upsert_view(bn, report.project_id, name),
            upsert_view(mn, report.project_id, m.measure@),
            ms.push(metric_row(report_id, report, bid, mid, m)),
            ts,
            sts,
            report_id,
            report,
            pairs.drop_first(),
        )
    }
}

proof fn lemma_view_index(rows: Seq<NameRow>, project: u64, name: Seq<char>)
    ensures
        name_index(rows, project, name) == view_index(names_view(rows), project, name),
    decreases rows.len(),
{
    if rows.len() > 0 {
        assert(names_view(rows).drop_last() =~= names_view(rows.drop_last()));
        lemma_view_index(rows.drop_last(), project, name);
    }
}

proof fn lemma_upserted_view(r0: Seq<NameRow>, r1: Seq<NameRow>, project: u64, name: Seq<char>, id: int)
    requires
        upserted(r0, r1, project, name, id),
    ensures
        id == upsert_id(names_view(r0), project, name),
        names_view(r1) == upsert_view(names_view(r0), project, name),
{
    lemma_view_index(r0, project, name);
    if name_index(r0, project, name) < 0 {
        assert(names_view(r1) =~= names_view(r0).push((project, name))) by {
            assert forall|i: int| 0 <= i < r0.len() implies r1[i] == r0[i] by {
                assert(r1.subrange(0, r0.len() as int)[i] == r1[i]);
            }
        }
    }
}

impl Store {
    /// Ingests one value: looks up or adds its benchmark and measure, stores
    /// the metric, and where a threshold applies evaluates it against its
    /// history and stores the boundary and any alert. Fails, leaving only the
    /// looked-up names behind, where the evaluation is out of range.
    pub fn ingest_metric(
        &mut self,
        report_id: usize,
        report: ReportRow,
        name: &String,
        m: &NewMetric,
    ) -> (r: Result<MetricOutcome, StoreError>)
        requires
            old(self).wf(),
        ensures
            final(self).wf(),
            grown(*old(self), *final(self)),
            match r {
                Ok(o) => exists|s: Store|
                    metric_ingested(*old(self), s, *final(self), report_id, report, name@, *m, o),
                Err(e) => e == StoreError::OutOfRange,
            },
            r is Err <==> step_fails(
                names_view(old(self).benchmarks@),
                names_view(old(self).measures@),
                old(self).metrics@,
                old(self).thresholds@,
                old(self).statistics@,
                report,
                name@,
                *m,
            ),
            r matches Ok(o) ==> o.benchmark_id == upsert_id(
                names_view(old(self).benchmarks@),
                report.project_id,
                name@,
            ) && o.measure_id == upsert_id(names_view(old(self).measures@), report.project_id, m.measure@)
                && names_view(final(self).benchmarks@) == upsert_view(
                names_view(old(self).benchmarks@),
                report.project_id,
                name@,
            ) && names_view(final(self).measures@) == upsert_view(
                names_view(old(self).measures@),
                report.project_id,
                m.measure@,
            ) && final(self).metrics@ == old(self).metrics@.push(
                metric_row(report_id, report, o.benchmark_id, o.measure_id, *m),
            ),
            r matches Ok(o) ==> o.metric_id == old(self).metrics@.len() && final(self).metrics@.len()
                == old(self).metrics@.len() + 1 && final(self).metrics@.last().report_id == report_id
                && final(self).metrics@.last().value == m.value,
    {
        let ghost s0 = *self;
        let bid = upsert_name(&mut self.benchmarks, report.project_id, name);
        let mid = upsert_name(&mut self.measures, report.project_id, &m.measure);
        let ghost s = *self;
        proof {
            lemma_upserted_view(s0.benchmarks@, s.benchmarks@, report.project_id, name@, bid as int);
            lemma_upserted_view(s0.measures@, s.measures@, report.project_id, m.measure@, mid as int);
        }
        let metric_id = self.metrics.len();
        let id = ThresholdIdentity {
            project_id: report.project_id,
            branch_id: report.branch_id,
            testbed_id: report.testbed_id,
            measure_id: mid,
        };
        let found = find_threshold(&self.thresholds, id);
        let mut boundary: Option<Boundary> = None;
        let mut alert: Option<Side> = None;
        let mut evaluated: Option<(usize, usize, Boundary)> = None;
        match found {
            Some(t) => {
                let sid = self.thresholds[t].statistic_id;
                assert(sid < self.statistics@.len());
                let c = self.statistics[sid].config;
                let q = HistoryQuery {
                    branch_id: report.branch_id,
                    testbed_id: report.testbed_id,
                    benchmark_id: bid,
                    measure_id: mid,
                    start_time: report.start_time,
                    window: c.window,
                };
                let h = history(&self.metrics, q, c.max_sample_size);
                assert(h@ == metric_history(s, report, bid, mid, t as int));
                match evaluate(&h, m.value, &c) {
                    Err(_) => {
                        proof {
                            assert(self.metrics@.subrange(0, s0.metrics@.len() as int) =~= s0.metrics@);
                            assert(self.boundaries@.subrange(0, s0.boundaries@.len() as int)
                                =~= s0.boundaries@);
                            assert(self.alerts@.subrange(0, s0.alerts@.len() as int) =~= s0.alerts@);
                            assert(s0.versions@.subrange(0, s0.versions@.len() as int) =~= s0.versions@);
                            assert(s0.reports@.subrange(0, s0.reports@.len() as int) =~= s0.reports@);
                            assert(self.benchmarks@.subrange(0, s0.benchmarks@.len() as int)
                                =~= s0.benchmarks@);
                            assert(self.measures@.subrange(0, s0.measures@.len() as int)
                                =~= s0.measures@);
                        }
                        return Err(StoreError::OutOfRange);
                    },
                    Ok(None) => {},
                    Ok(Some(e)) => {
                        boundary = Some(e.boundary);
                        alert = e.breach;
                        evaluated = Some((t, sid, e.boundary));
                    },
                }
            },
            None => {},
        }
        self.metrics.push(
            MetricRow {
                report_id,
                branch_id: report.branch_id,
                testbed_id: report.testbed_id,
                start_time: report.start_time,
                benchmark_id: bid,
                measure_id: mid,
                value: m.value,
                lower_value: m.lower_value,
                upper_value: m.upper_value,
            },
        );
        match evaluated {
            Some((t, sid, b)) => {
                let boundary_id = self.boundaries.len();
                self.boundaries.push(
                    BoundaryRow { metric_id, threshold_id: t, statistic_id: sid, boundary: b },
                );
                match alert {
                    Some(side) => {
                        self.alerts.push(
                            AlertRow { boundary_id, side, status: AlertStatus::Active },
                        );
                    },
                    None => {},
                }
            },
            None => {},
        }
        let o = MetricOutcome { metric_id, benchmark_id: bid, measure_id: mid, boundary, alert };
        proof {
            assert(self.benchmarks@.subrange(0, s0.benchmarks@.len() as int) == s0.benchmarks@);
            assert(self.measures@.subrange(0, s0.measures@.len() as int) == s0.measures@);
            assert(self.metrics@.subrange(0, s0.metrics@.len() as int) =~= s0.metrics@);
            assert(self.boundaries@.subrange(0, s0.boundaries@.len() as int) =~= s0.boundaries@);
            assert(self.alerts@.subrange(0, s0.alerts@.len() as int) =~= s0.alerts@);
            assert(s0.versions@.subrange(0, s0.versions@.len() as int) =~= s0.versions@);
            assert(s0.reports@.subrange(0, s0.reports@.len() as int) =~= s0.reports@);
            assert(metric_ingested(s0, s, *self, report_id, report, name@, *m, o));
        }
        Ok(o)
    }
}


/// The (benchmark name, value) pairs of a report, benchmark by benchmark,
/// each in the order of its measures.
pub open spec fn report_pairs(bs: Seq<NewBenchmark>) -> Seq<(Seq<char>, NewMetric)>
    decreases bs.len(),
{
    if bs.len() == 0 {
        Seq::empty()
    } else {
        report_pairs(bs.drop_last()) + bs.last().measures@.map_values(
            |m: NewMetric| (bs.last().name@, m),
        )
    }
}

/// The report row that ingesting `input` against version `version_id` adds.
pub open spec fn report_row(input: NewReport, version_id: usize) -> ReportRow {
    ReportRow {
        project_id: input.project_id,
        branch_id: input.branch_id,
        testbed_id: input.testbed_id,
        version_id,
        adapter: input.adapter,
        user_id: input.user_id,
        start_time: input.start_time,
        end_time: input.end_time,
    }
}

/// `trace` runs through the stores that ingesting `pairs` one by one passes,
/// each step as `metric_ingested` describes with outcome `results[j]`.
pub open spec fn ingest_trace(
    trace: Seq<Store>,
    report_id: usize,
    report: ReportRow,
    pairs: Seq<(Seq<char>, NewMetric)>,
    results: Seq<MetricOutcome>,
) -> bool {
    &&& trace.len() == pairs.len() + 1
    &&& results.len() == pairs.len()
    &&& forall|j: int|
        0 <= j < pairs.len() ==> #[trigger] trace_step(trace, report_id, report, pairs, results, j)
}

/// Step `j` of `trace` ingests `pairs[j]` with outcome `results[j]`.
pub open spec fn trace_step(
    trace: Seq<Store>,
    report_id: usize,
    report: ReportRow,
    pairs: Seq<(Seq<char>, NewMetric)>,
    results: Seq<MetricOutcome>,
    j: int,
) -> bool {
    exists|mid: Store|
        #[trigger] metric_ingested(
            trace[j],
            mid,
            trace[j + 1],
            report_id,
            report,
            pairs[j].0,
            pairs[j].1,
            results[j],
        )
}

/// Ingesting `pairs` in order into `s` fails at some pair.
pub open spec fn fails_from(s: Store, report_id: usize, report: ReportRow, pairs: Seq<(Seq<char>, NewMetric)>) -> bool {
    ingest_fails(
        names_view(s.benchmarks@),
        names_view(s.measures@),
        s.metrics@,
        s.thresholds@,
        s.statistics@,
        report_id,
        report,
        pairs,
    )
}

/// The branch's version numbers are used up and `hash` names none of them.
pub open spec fn versions_exhausted(vs: Seq<VersionRow>, branch: u64, hash: Option<Seq<char>>) -> bool {
    !hash_known(vs, branch, hash) && max_number(vs, branch) == u64::MAX
}

/// The id of the version that resolving `(branch, hash)` against `vs` gives.
pub open spec fn resolved_id(vs: Seq<VersionRow>, branch: u64, hash: Option<Seq<char>>) -> int {
    if hash_known(vs, branch, hash) {
        hash_index(vs, branch, hash->0)
    } else {
        vs.len() as int
    }
}

pub open spec fn is_prefix<T>(a: Seq<T>, b: Seq<T>) -> bool {
    a.len() <= b.len() && b.subrange(0, a.len() as int) == a
}

proof fn lemma_report_pairs_prefix(bs: Seq<NewBenchmark>, i: int, j: int)
    requires
        0 <= i <= j <= bs.len(),
    ensures
        is_prefix(report_pairs(bs.subrange(0, i)), report_pairs(bs.subrange(0, j))),
    decreases j - i,
{
    if j > i {
        lemma_report_pairs_prefix(bs, i, j - 1);
        let sj = bs.subrange(0, j);
        assert(sj.drop_last() =~= bs.subrange(0, j - 1));
        let a = report_pairs(bs.subrange(0, i));
        let b = report_pairs(bs.subrange(0, j - 1));
        let c = report_pairs(sj);
        assert(c.subrange(0, b.len() as int) =~= b);
        assert(c.subrange(0, a.len() as int) =~= b.subrange(0, a.len() as int));
    } else {
        assert(report_pairs(bs.subrange(0, j)).subrange(0, report_pairs(bs.subrange(0, j)).len() as int)
            =~= report_pairs(bs.subrange(0, j)));
    }
}

/// The values of a report's metrics, benchmark by benchmark, each in the
/// order of its measures.
pub open spec fn report_values(bs: Seq<NewBenchmark>) -> Seq<u64>
    decreases bs.len(),
{
    if bs.len() == 0 {
        Seq::empty()
    } else {
        report_values(bs.drop_last()) + bs.last().measures@.map_values(|m: NewMetric| m.value)
    }
}

/// What ingesting a report wrote.
#[derive(Clone, Debug)]
pub struct IngestedReport {
    pub report_id: usize,
    pub version_id: usize,
    /// One outcome per value, in the order of `report_values`.
    pub results: Vec<MetricOutcome>,
}

proof fn lemma_grown_trans(a: Store, b: Store, c: Store)
    requires
        grown(a, b),
        grown(b, c),
    ensures
        grown(a, c),
{
    assert(c.benchmarks@.subrange(0, a.benchmarks@.len() as int) =~= b.benchmarks@.subrange(
        0,
        a.benchmarks@.len() as int,
    ));
    assert(c.measures@.subrange(0, a.measures@.len() as int) =~= b.measures@.subrange(
        0,
        a.measures@.len() as int,
    ));
    assert(c.versions@.subrange(0, a.versions@.len() as int) =~= b.versions@.subrange(
        0,
        a.versions@.len() as int,
    ));
    assert(c.reports@.subrange(0, a.reports@.len() as int) =~= b.reports@.subrange(
        0,
        a.reports@.len() as int,
    ));
    assert(c.metrics@.subrange(0, a.metrics@.len() as int) =~= b.metrics@.subrange(
        0,
        a.metrics@.len() as int,
    ));
    assert(c.boundaries@.subrange(0, a.boundaries@.len() as int) =~= b.boundaries@.subrange(
        0,
        a.boundaries@.len() as int,
    ));
    assert(c.alerts@.subrange(0, a.alerts@.len() as int) =~= b.alerts@.subrange(
        0,
        a.alerts@.len() as int,
    ));
}

/// Row counts of every table at one moment.
struct Marks {
    benchmarks: usize,
    measures: usize,
    versions: usize,
    reports: usize,
    metrics: usize,
    boundaries: usize,
    alerts: usize,
}

impl Store {
    fn marks(&self) -> (r: Marks)
        ensures
            r.benchmarks == self.benchmarks@.len() && r.measures == self.measures@.len()
                && r.versions == self.versions@.len() && r.reports == self.reports@.len()
                && r.metrics == self.metrics@.len() && r.boundaries == self.boundaries@.len()
                && r.alerts == self.alerts@.len(),
    {
        Marks {
            benchmarks: self.benchmarks.len(),
            measures: self.measures.len(),
            versions: self.versions.len(),
            reports: self.reports.len(),
            metrics: self.metrics.len(),
            boundaries: self.boundaries.len(),
            alerts: self.alerts.len(),
        }
    }

    /// Drops every row added since `marks` was taken of `s0`.
    fn roll_back(&mut self, marks: &Marks, Ghost(s0): Ghost<Store>)
        requires
            s0.wf(),
            grown(s0, *old(self)),
            marks.benchmarks == s0.benchmarks@.len() && marks.measures == s0.measures@.len()
                && marks.versions == s0.versions@.len() && marks.reports == s0.reports@.len()
                && marks.metrics == s0.metrics@.len() && marks.boundaries == s0.boundaries@.len()
                && marks.alerts == s0.alerts@.len(),
        ensures
            same_rows(s0, *final(self)),
            final(self).wf(),
    {
        self.benchmarks.truncate(marks.benchmarks);
        self.measures.truncate(marks.measures);
        self.versions.truncate(marks.versions);
        self.reports.truncate(marks.reports);
        self.metrics.truncate(marks.metrics);
        self.boundaries.truncate(marks.boundaries);
        self.alerts.truncate(marks.alerts);
    }

    /// Ingests a report as one unit: resolves its version, stores the report,
    /// and ingests each value in order. On failure nothing is left behind.
    pub fn ingest(&mut self, input: &NewReport) -> (r: Result<IngestedReport, StoreError>)
        requires
            old(self).wf(),
        ensures
            final(self).wf(),
            r matches Err(e) ==> (e == StoreError::VersionOverflow || e == StoreError::OutOfRange),
            r == Err::<IngestedReport, StoreError>(StoreError::VersionOverflow) <==> versions_exhausted(
                old(self).versions@,
                input.branch_id,
                opt_str(input.hash),
            ),
            r == Err::<IngestedReport, StoreError>(StoreError::OutOfRange) <==> (!versions_exhausted(
                old(self).versions@,
                input.branch_id,
                opt_str(input.hash),
            ) && fails_from(
                *old(self),
                old(self).reports@.len() as usize,
                report_row(
                    *input,
                    resolved_id(old(self).versions@, input.branch_id, opt_str(input.hash)) as usize,
                ),
                report_pairs(input.benchmarks@),
            )),
            match r {
                Err(_) => same_rows(*old(self), *final(self)),
                Ok(rep) => {
                    let base = old(self).metrics@.len();
                    let vals = report_values(input.benchmarks@);
                    &&& resolved(
                        old(self).versions@,
                        final(self).versions@,
                        input.branch_id,
                        opt_str(input.hash),
                        rep.version_id as int,
                    )
                    &&& rep.report_id == old(self).reports@.len()
                    &&& final(self).reports@ == old(self).reports@.push(
                        ReportRow {
                            project_id: input.project_id,
                            branch_id: input.branch_id,
                            testbed_id: input.testbed_id,
                            version_id: rep.version_id,
                            adapter: input.adapter,
                            user_id: input.user_id,
                            start_time: input.start_time,
                            end_time: input.end_time,
                        },
                    )
                    &&& final(self).metrics@.len() == base + vals.len()
                    &&& rep.results@.len() == vals.len()
                    &&& forall|j: int|
                        0 <= j < vals.len() ==> {
                            &&& (#[trigger] final(self).metrics@[base + j]).value == vals[j]
                            &&& final(self).metrics@[base + j].report_id == rep.report_id
                            &&& rep.results@[j].metric_id == base + j
                        }
                    &&& grown(*old(self), *final(self))
                    &&& exists|trace: Seq<Store>|
                        {
                            &&& ingest_trace(
                                trace,
                                rep.report_id,
                                report_row(*input, rep.version_id),
                                report_pairs(input.benchmarks@),
                                rep.results@,
                            )
                            &&& trace[0].versions@ == final(self).versions@
                            &&& trace[0].reports@ == final(self).reports@
                            &&& trace[0].benchmarks@ == old(self).benchmarks@
                            &&& trace[0].measures@ == old(self).measures@
                            &&& trace[0].metrics@ == old(self).metrics@
                            &&& trace[0].thresholds@ == old(self).thresholds@
                            &&& trace[0].statistics@ == old(self).statistics@
                            &&& trace[0].boundaries@ == old(self).boundaries@
                            &&& trace[0].alerts@ == old(self).alerts@
                            &&& trace.last() == *final(self)
                        }
                },
            },
    {
        let ghost s0 = *self;
        let marks = self.marks();
        let hash = match &input.hash {
            Some(h) => Some(h.clone()),
            None => None,
        };
        assert(opt_str(hash) == opt_str(input.hash));
        let version_id = match self.resolve_version(input.branch_id, hash) {
            Ok(v) => v,
            Err(e) => {
                return Err(e);
            },
        };
        let report_id = self.reports.len();
        let report = ReportRow {
            project_id: input.project_id,
            branch_id: input.branch_id,
            testbed_id: input.testbed_id,
            version_id,
            adapter: input.adapter,
            user_id: input.user_id,
            start_time: input.start_time,
            end_time: input.end_time,
        };
        self.reports.push(report);
        let ghost s1 = *self;
        let ghost mut trace: Seq<Store> = seq![*self];
        assert(report == report_row(*input, version_id));
        proof {
            assert(self.versions@.subrange(0, s0.versions@.len() as int) =~= s0.versions@);
            assert(self.reports@.subrange(0, s0.reports@.len() as int) =~= s0.reports@);
            assert(s0.benchmarks@.subrange(0, s0.benchmarks@.len() as int) =~= s0.benchmarks@);
            assert(s0.measures@.subrange(0, s0.measures@.len() as int) =~= s0.measures@);
            assert(s0.metrics@.subrange(0, s0.metrics@.len() as int) =~= s0.metrics@);
            assert(s0.boundaries@.subrange(0, s0.boundaries@.len() as int) =~= s0.boundaries@);
            assert(s0.alerts@.subrange(0, s0.alerts@.len() as int) =~= s0.alerts@);
        }
        let base = self.metrics.len();
        let ghost all = report_pairs(input.benchmarks@);
        let ghost fail0 = fails_from(s0, report_id, report, all);
        assert(all.subrange(0, all.len() as int) =~= all);
        assert(input.benchmarks@.subrange(0, 0) =~= Seq::<NewBenchmark>::empty());
        assert(all.subrange(0, 0) =~= Seq::<(Seq<char>, NewMetric)>::empty());
        assert(version_id as int == resolved_id(s0.versions@, input.branch_id, opt_str(input.hash)));
        let mut results: Vec<MetricOutcome> = Vec::new();
        let mut i: usize = 0;
        let bs = &input.benchmarks;
        while i < bs.len()
            invariant
                i <= bs.len(),
                bs@ == input.benchmarks@,
                s0 == *old(self),
                s0.wf(),
                self.wf(),
                grown(s0, *self),
                marks.benchmarks == s0.benchmarks@.len() && marks.measures == s0.measures@.len()
                    && marks.versions == s0.versions@.len() && marks.reports == s0.reports@.len()
                    && marks.metrics == s0.metrics@.len() && marks.boundaries
                    == s0.boundaries@.len() && marks.alerts == s0.alerts@.len(),
                self.versions@ == s1.versions@,
                self.reports@ == s1.reports@,
                base == s0.metrics@.len(),
                report_id == s0.reports@.len(),
                self.metrics@.len() == base + results@.len(),
                results@.len() == report_values(bs@.subrange(0, i as int)).len(),
                forall|j: int|
                    0 <= j < results@.len() ==> {
                        &&& (#[trigger] self.metrics@[base + j]).value == report_values(
                            bs@.subrange(0, i as int),
                        )[j]
                        &&& self.metrics@[base + j].report_id == report_id
                        &&& results@[j].metric_id == base + j
                    },
                trace[0] == s1,
                trace.last() == *self,
                report == report_row(*input, version_id),
                ingest_trace(
                    trace,
                    report_id,
                    report,
                    report_pairs(bs@.subrange(0, i as int)),
                    results@,
                ),
                all == report_pairs(input.benchmarks@),
                fail0 == fails_from(s0, report_id, report, all),
                fail0 == fails_from(*self, report_id, report, all.subrange(results@.len() as int, all.len() as int)),
                is_prefix(report_pairs(bs@.subrange(0, i as int)), all),
                !versions_exhausted(s0.versions@, input.branch_id, opt_str(input.hash)),
                version_id as int == resolved_id(s0.versions@, input.branch_id, opt_str(input.hash)),
            decreases bs.len() - i,
        {
            let b = &bs[i];
            let ghost done = report_values(bs@.subrange(0, i as int));
            let ghost done_pairs = report_pairs(bs@.subrange(0, i as int));
            let ghost cur_pairs = done_pairs + b.measures@.map_values(|m: NewMetric| (b.name@, m));
            proof {
                let next = bs@.subrange(0, i + 1);
                assert(next.drop_last() =~= bs@.subrange(0, i as int));
                assert(next.last() == *b);
                assert(report_pairs(next) == cur_pairs);
                lemma_report_pairs_prefix(input.benchmarks@, i + 1, bs@.len() as int);
                assert(bs@.subrange(0, bs@.len() as int) =~= bs@);
            }
            let mut k: usize = 0;
            while k < b.measures.len()
                invariant
                    i < bs.len(),
                    k <= b.measures.len(),
                    *b == bs@[i as int],
                    bs@ == input.benchmarks@,
                    done == report_values(bs@.subrange(0, i as int)),
                    s0 == *old(self),
                    s0.wf(),
                    self.wf(),
                    grown(s0, *self),
                    marks.benchmarks == s0.benchmarks@.len() && marks.measures
                        == s0.measures@.len() && marks.versions == s0.versions@.len()
                        && marks.reports == s0.reports@.len() && marks.metrics
                        == s0.metrics@.len() && marks.boundaries == s0.boundaries@.len()
                        && marks.alerts == s0.alerts@.len(),
                    self.versions@ == s1.versions@,
                    self.reports@ == s1.reports@,
                    base == s0.metrics@.len(),
                    report_id == s0.reports@.len(),
                    self.metrics@.len() == base + results@.len(),
                    results@.len() == done.len() + k,
                    forall|j: int|
                        0 <= j < results@.len() ==> {
                            &&& (#[trigger] self.metrics@[base + j]).value == (done
                                + b.measures@.map_values(|m: NewMetric| m.value))[j]
                            &&& self.metrics@[base + j].report_id == report_id
                            &&& results@[j].metric_id == base + j
                        },
                    done_pairs == report_pairs(bs@.subrange(0, i as int)),
                    trace[0] == s1,
                    trace.last() == *self,
                    report == report_row(*input, version_id),
                    all == report_pairs(input.benchmarks@),
                    fail0 == fails_from(s0, report_id, report, all),
                    fail0 == fails_from(
                        *self,
                        report_id,
                        report,
                        all.subrange(results@.len() as int, all.len() as int),
                    ),
                    cur_pairs == done_pairs + b.measures@.map_values(|m: NewMetric| (b.name@, m)),
                    is_prefix(cur_pairs, all),
                    !versions_exhausted(s0.versions@, input.branch_id, opt_str(input.hash)),
                    version_id as int == resolved_id(s0.versions@, input.branch_id, opt_str(input.hash)),
                    ingest_trace(
                        trace,
                        report_id,
                        report,
                        done_pairs + b.measures@.subrange(0, k as int).map_values(
                            |m: NewMetric| (b.name@, m),
                        ),
                        results@,
                    ),
                decreases b.measures.len() - k,
            {
                let ghost before = *self;
                let ghost n = results@.len() as int;
                let ghost rest = all.subrange(n, all.len() as int);
                proof {
                    assert(n == done_pairs.len() + k);
                    assert(cur_pairs[n] == (b.name@, b.measures@[k as int]));
                    assert(all.subrange(0, cur_pairs.len() as int)[n] == all[n]);
                    assert(rest[0] == (b.name@, b.measures@[k as int]));
                    assert(rest.drop_first() =~= all.subrange(n + 1, all.len() as int));
                }
                match self.ingest_metric(report_id, report, &b.name, &b.measures[k]) {
                    Ok(o) => {
                        proof {
                            let old_pairs = done_pairs + b.measures@.subrange(0, k as int).map_values(
                                |m: NewMetric| (b.name@, m),
                            );
                            let new_pairs = done_pairs + b.measures@.subrange(0, k + 1).map_values(
                                |m: NewMetric| (b.name@, m),
                            );
                            assert(new_pairs =~= old_pairs.push((b.name@, b.measures@[k as int])));
                            let t2 = trace.push(*self);
                            let r2 = results@.push(o);
                            assert forall|j: int| 0 <= j < new_pairs.len() implies #[trigger] trace_step(
                                t2,
                                report_id,
                                report,
                                new_pairs,
                                r2,
                                j,
                            ) by {
                                if j < old_pairs.len() {
                                    assert(trace_step(trace, report_id, report, old_pairs, results@, j));
                                    assert(t2[j] == trace[j] && t2[j + 1] == trace[j + 1]);
                                    assert(new_pairs[j] == old_pairs[j] && r2[j] == results@[j]);
                                    let mid = choose|mid: Store|
                                        #[trigger] metric_ingested(
                                            trace[j],
                                            mid,
                                            trace[j + 1],
                                            report_id,
                                            report,
                                            old_pairs[j].0,
                                            old_pairs[j].1,
                                            results@[j],
                                        );
                                    assert(metric_ingested(
                                        t2[j],
                                        mid,
                                        t2[j + 1],
                                        report_id,
                                        report,
                                        new_pairs[j].0,
                                        new_pairs[j].1,
                                        r2[j],
                                    ));
                                } else {
                                    assert(t2[j] == before && t2[j + 1] == *self);
                                    assert(new_pairs[j] == (b.name@, b.measures@[k as int]));
                                    assert(r2[j] == o);
                                    let mid = choose|mid: Store|
                                        #[trigger] metric_ingested(
                                            before,
                                            mid,
                                            *self,
                                            report_id,
                                            report,
                                            b.name@,
                                            b.measures@[k as int],
                                            o,
                                        );
                                    assert(metric_ingested(
                                        t2[j],
                                        mid,
                                        t2[j + 1],
                                        report_id,
                                        report,
                                        new_pairs[j].0,
                                        new_pairs[j].1,
                                        r2[j],
                                    ));
                                }
                            }
                            trace = t2;
                            lemma_grown_trans(s0, before, *self);
                            assert(fails_from(before, report_id, report, rest) == fails_from(
                                *self,
                                report_id,
                                report,
                                rest.drop_first(),
                            ));
                            assert forall|j: int| 0 <= j < results@.len() implies #[trigger] self.metrics@[
                                base + j] == before.metrics@[base + j] by {
                                assert(self.metrics@.subrange(0, before.metrics@.len() as int)
                                    == before.metrics@);
                            }
                        }
                        results.push(o);
                    },
                    Err(e) => {
                        proof {
                            lemma_grown_trans(s0, before, *self);
                            assert(fails_from(before, report_id, report, rest));
                        }
                        self.roll_back(&marks, Ghost(s0));
                        return Err(e);
                    },
                }
                k = k + 1;
            }
            proof {
                let next = bs@.subrange(0, i + 1);
                assert(next.drop_last() =~= bs@.subrange(0, i as int));
                assert(next.last() == *b);
                assert(report_values(next) == done + b.measures@.map_values(|m: NewMetric| m.value));
                assert(b.measures@.subrange(0, b.measures@.len() as int) =~= b.measures@);
                assert(b.measures@.subrange(0, b.measures@.len() as int) =~= b.measures@);
                assert(report_pairs(next) == done_pairs + b.measures@.map_values(
                    |m: NewMetric| (b.name@, m),
                ));
            }
            i = i + 1;
        }
        proof {
            assert(bs@.subrange(0, bs.len() as int) =~= bs@);
            assert(all.subrange(results@.len() as int, all.len() as int).len() == 0);
        }
        Ok(IngestedReport { report_id, version_id, results })
    }
}


// ---------------------------------------------------------------------------
// Queries
// ---------------------------------------------------------------------------

/// Selects the reports of a project.
#[derive(Clone, Copy, Debug, PartialEq, Eq, Structural)]
pub struct GetDirParams {
    pub project: u64,
}

/// Selects the thresholds of a project.
#[derive(Clone, Copy, Debug, PartialEq, Eq, Structural)]
pub struct ProjThresholdsParams {
    pub project: u64,
}

/// Selects one threshold of a project.
#[derive(Clone, Copy, Debug, PartialEq, Eq, Structural)]
pub struct ProjThresholdParams {
    pub project: u64,
    pub threshold: usize,
}

/// What thresholds are listed by.
#[derive(Clone, Copy, Debug, PartialEq, Eq, Structural)]
pub enum ProjThresholdsSort {
    Created,
    Modified,
}

#[derive(Clone, Copy, Debug, PartialEq, Eq, Structural)]
pub enum JsonDirection {
    Asc,
    Desc,
}

/// Optional filters on a threshold listing.
#[derive(Clone, Copy, Debug, PartialEq, Eq, Structural)]
pub struct ThresholdQuery {
    pub branch: Option<u64>,
    pub testbed: Option<u64>,
    pub measure: Option<usize>,
}

/// Threshold `t` is live, belongs to the project and matches every filter
/// given.
pub open spec fn selects_threshold(t: ThresholdRow, params: ProjThresholdsParams, q: ThresholdQuery) -> bool {
    &&& !t.deleted
    &&& t.project_id == params.project
    &&& (q.branch matches Some(v) ==> t.branch_id == v)
    &&& (q.testbed matches Some(v) ==> t.testbed_id == v)
    &&& (q.measure matches Some(v) ==> t.measure_id == v)
}

/// `full` lists exactly the selected thresholds, in listing order.
pub open spec fn threshold_listing(
    ts: Seq<ThresholdRow>,
    params: ProjThresholdsParams,
    q: ThresholdQuery,
    sort: ProjThresholdsSort,
    direction: Option<JsonDirection>,
    full: Seq<usize>,
) -> bool {
    &&& forall|i: int, j: int|
        0 <= i < j < full.len() ==> listed_before(
            ts,
            sort,
            effective_direction(sort, direction),
            full[i],
            full[j],
        )
    &&& forall|x: usize|
        full.contains(x) <==> (x < ts.len() && selects_threshold(ts[x as int], params, q))
}

/// The entries of `full` from `offset`, at most `limit` of them.
pub open spec fn page(full: Seq<usize>, offset: int, limit: int) -> Seq<usize> {
    if offset >= full.len() {
        Seq::empty()
    } else if full.len() - offset > limit {
        full.subrange(offset, offset + limit)
    } else {
        full.subrange(offset, full.len() as int)
    }
}

/// Threshold `p.threshold` exists, is not deleted and belongs to
/// `p.project`.
pub open spec fn live_threshold(s: Store, p: ProjThresholdParams) -> bool {
    p.threshold < s.thresholds@.len() && s.thresholds@[p.threshold as int].project_id == p.project
        && !s.thresholds@[p.threshold as int].deleted
}

/// Entry `id` of a branch's versions, oldest first, is version row
/// `version_id`.
#[derive(Clone, Copy, Debug, PartialEq, Eq, Structural)]
pub struct QueryBranchVersion {
    pub id: usize,
    pub branch_id: u64,
    pub version_id: usize,
}

/// The direction that applies: as asked, else ascending for creation and
/// descending for modification.
pub open spec fn effective_direction(sort: ProjThresholdsSort, dir: Option<JsonDirection>) -> JsonDirection {
    match dir {
        Some(d) => d,
        None => match sort {
            ProjThresholdsSort::Created => JsonDirection::Asc,
            ProjThresholdsSort::Modified => JsonDirection::Desc,
        },
    }
}

pub open spec fn sort_key(t: ThresholdRow, sort: ProjThresholdsSort) -> u64 {
    match sort {
        ProjThresholdsSort::Created => t.created,
        ProjThresholdsSort::Modified => t.modified,
    }
}

/// Threshold `a` is listed before threshold `b`: by key in the direction,
/// then by id.
pub open spec fn listed_before(
    ts: Seq<ThresholdRow>,
    sort: ProjThresholdsSort,
    dir: JsonDirection,
    a: usize,
    b: usize,
) -> bool {
    let ka = sort_key(ts[a as int], sort);
    let kb = sort_key(ts[b as int], sort);
    match dir {
        JsonDirection::Asc => ka < kb || (ka == kb && a < b),
        JsonDirection::Desc => ka > kb || (ka == kb && a < b),
    }
}

fn exec_listed_before(
    ts: &Vec<ThresholdRow>,
    sort: ProjThresholdsSort,
    dir: JsonDirection,
    a: usize,
    b: usize,
) -> (r: bool)
    requires
        a < ts.len(),
        b < ts.len(),
    ensures
        r == listed_before(ts@, sort, dir, a, b),
{
    let (ka, kb) = match sort {
        ProjThresholdsSort::Created => (ts[a].created, ts[b].created),
        ProjThresholdsSort::Modified => (ts[a].modified, ts[b].modified),
    };
    match dir {
        JsonDirection::Asc => ka < kb || (ka == kb && a < b),
        JsonDirection::Desc => ka > kb || (ka == kb && a < b),
    }
}

impl Store {
    /// The reports of a project, latest start time first, ties by id
    /// (higher first).
    pub fn reports_of(&self, params: &GetDirParams) -> (r: Vec<usize>)
        ensures
            forall|i: int, j: int|
                0 <= i < j < r@.len() ==> report_before(self.reports@, r@[i], r@[j]),
            forall|x: usize|
                r@.contains(x) <==> (x < self.reports@.len() && self.reports@[x as int].project_id
                    == params.project),
    {
        let ghost rs = self.reports@;
        let mut r: Vec<usize> = Vec::new();
        let mut x: usize = 0;
        while x < self.reports.len()
            invariant
                x <= self.reports.len(),
                rs == self.reports@,
                forall|i: int, j: int| 0 <= i < j < r@.len() ==> report_before(rs, r@[i], r@[j]),
                forall|k: int| 0 <= k < r@.len() ==> r@[k] < x,
                forall|y: usize|
                    r@.contains(y) <==> (y < x && rs[y as int].project_id == params.project),
            decreases self.reports.len() - x,
        {
            if self.reports[x].project_id == params.project {
                let mut p: usize = 0;
                while p < r.len() && !(self.reports[x].start_time > self.reports[r[p]].start_time
                    || (self.reports[x].start_time == self.reports[r[p]].start_time && x > r[p]))
                    invariant
                        p <= r.len(),
                        x < self.reports.len(),
                        rs == self.reports@,
                        forall|k: int| 0 <= k < r@.len() ==> r@[k] < x,
                        forall|k: int| 0 <= k < p ==> report_before(rs, r@[k], x),
                    decreases r.len() - p,
                {
                    p = p + 1;
                }
                let ghost prev = r@;
                r.insert(p, x);
                assert(r@ == prev.insert(p as int, x));
                assert forall|i: int, j: int| 0 <= i < j < r@.len() implies report_before(
                    rs,
                    r@[i],
                    r@[j],
                ) by {
                    if j < p {
                    } else if j == p {
                    } else if i < p {
                        if j - 1 > p {
                            assert(report_before(rs, prev[p as int], prev[j - 1]));
                        }
                    } else if i == p {
                        if j - 1 > p {
                            assert(report_before(rs, prev[p as int], prev[j - 1]));
                        }
                    } else {
                        assert(report_before(rs, prev[i - 1], prev[j - 1]));
                    }
                }
                assert forall|y: usize| r@.contains(y) <==> (y < x + 1 && rs[y as int].project_id
                    == params.project) by {
                    if prev.contains(y) {
                        let k = choose|k: int| 0 <= k < prev.len() && prev[k] == y;
                        if k < p {
                            assert(r@[k] == y);
                        } else {
                            assert(r@[k + 1] == y);
                        }
                    }
                    if r@.contains(y) {
                        let k = choose|k: int| 0 <= k < r@.len() && r@[k] == y;
                        if k < p {
                            assert(prev[k] == y);
                        } else if k > p {
                            assert(prev[k - 1] == y);
                        }
                    }
                    if y == x {
                        assert(r@[p as int] == y);
                    }
                }
            } else {
                assert forall|y: usize| r@.contains(y) <==> (y < x + 1 && rs[y as int].project_id
                    == params.project) by {
                    if y == x && r@.contains(y) {
                        let k = choose|k: int| 0 <= k < r@.len() && r@[k] == y;
                        assert(r@[k] < x);
                    }
                }
            }
            x = x + 1;
        }
        r
    }
}

/// Report `a` is listed before report `b`: it started later, or at the same
/// time with a higher id.
pub open spec fn report_before(rs: Seq<ReportRow>, a: usize, b: usize) -> bool {
    rs[a as int].start_time > rs[b as int].start_time || (rs[a as int].start_time
        == rs[b as int].start_time && a > b)
}

proof fn lemma_listed_total(
    ts: Seq<ThresholdRow>,
    sort: ProjThresholdsSort,
    dir: JsonDirection,
    a: usize,
    b: usize,
)
    requires
        a != b,
    ensures
        listed_before(ts, sort, dir, a, b) || listed_before(ts, sort, dir, b, a),
{
}

proof fn lemma_listed_trans(
    ts: Seq<ThresholdRow>,
    sort: ProjThresholdsSort,
    dir: JsonDirection,
    a: usize,
    b: usize,
    c: usize,
)
    requires
        listed_before(ts, sort, dir, a, b),
        listed_before(ts, sort, dir, b, c),
    ensures
        listed_before(ts, sort, dir, a, c),
{
}

impl Store {
    /// The thresholds that `params` and `query` select, ordered by creation
    /// or modification time in the direction asked (ascending by creation,
    /// descending by modification where none is asked), ties by id.
    fn sorted_thresholds(
        &self,
        params: &ProjThresholdsParams,
        query: &ThresholdQuery,
        sort: ProjThresholdsSort,
        direction: Option<JsonDirection>,
    ) -> (r: Vec<usize>)
        ensures
            forall|i: int, j: int|
                0 <= i < j < r@.len() ==> listed_before(
                    self.thresholds@,
                    sort,
                    effective_direction(sort, direction),
                    r@[i],
                    r@[j],
                ),
            forall|x: usize|
                r@.contains(x) <==> (x < self.thresholds@.len() && selects_threshold(
                    self.thresholds@[x as int],
                    *params,
                    *query,
                )),
    {
        let dir = match direction {
            Some(d) => d,
            None => match sort {
                ProjThresholdsSort::Created => JsonDirection::Asc,
                ProjThresholdsSort::Modified => JsonDirection::Desc,
            },
        };
        let ghost ts = self.thresholds@;
        let mut r: Vec<usize> = Vec::new();
        let mut x: usize = 0;
        while x < self.thresholds.len()
            invariant
                x <= self.thresholds.len(),
                ts == self.thresholds@,
                dir == effective_direction(sort, direction),
                forall|i: int, j: int|
                    0 <= i < j < r@.len() ==> listed_before(ts, sort, dir, r@[i], r@[j]),
                forall|k: int| 0 <= k < r@.len() ==> r@[k] < x,
                forall|y: usize|
                    r@.contains(y) <==> (y < x && selects_threshold(ts[y as int], *params, *query)),
            decreases self.thresholds.len() - x,
        {
            let t = self.thresholds[x];
            let chosen = !t.deleted && t.project_id == params.project && match query.branch {
                Some(v) => t.branch_id == v,
                None => true,
            } && match query.testbed {
                Some(v) => t.testbed_id == v,
                None => true,
            } && match query.measure {
                Some(v) => t.measure_id == v,
                None => true,
            };
            if chosen {
                let mut p: usize = 0;
                while p < r.len() && !exec_listed_before(&self.thresholds, sort, dir, x, r[p])
                    invariant
                        p <= r.len(),
                        x < self.thresholds.len(),
                        ts == self.thresholds@,
                        forall|k: int| 0 <= k < r@.len() ==> r@[k] < x,
                        forall|k: int| 0 <= k < p ==> listed_before(ts, sort, dir, r@[k], x),
                    decreases r.len() - p,
                {
                    proof {
                        lemma_listed_total(ts, sort, dir, x, r@[p as int]);
                    }
                    p = p + 1;
                }
                let ghost prev = r@;
                r.insert(p, x);
                assert(r@ == prev.insert(p as int, x));
                assert forall|i: int, j: int| 0 <= i < j < r@.len() implies listed_before(
                    ts,
                    sort,
                    dir,
                    r@[i],
                    r@[j],
                ) by {
                    if j < p {
                    } else if j == p {
                    } else if i < p {
                        lemma_listed_trans(ts, sort, dir, r@[i], x, prev[p as int]);
                        if j - 1 > p {
                            lemma_listed_trans(ts, sort, dir, r@[i], prev[p as int], prev[j - 1]);
                        }
                    } else if i == p {
                        if j - 1 > p {
                            lemma_listed_trans(ts, sort, dir, x, prev[p as int], prev[j - 1]);
                        }
                    } else {
                        assert(listed_before(ts, sort, dir, prev[i - 1], prev[j - 1]));
                    }
                }
                assert forall|y: usize| r@.contains(y) <==> (y < x + 1 && selects_threshold(
                    ts[y as int],
                    *params,
                    *query,
                )) by {
                    if prev.contains(y) {
                        let k = choose|k: int| 0 <= k < prev.len() && prev[k] == y;
                        if k < p {
                            assert(r@[k] == y);
                        } else {
                            assert(r@[k + 1] == y);
                        }
                    }
                    if r@.contains(y) {
                        let k = choose|k: int| 0 <= k < r@.len() && r@[k] == y;
                        if k < p {
                            assert(prev[k] == y);
                        } else if k > p {
                            assert(prev[k - 1] == y);
                        }
                    }
                    if y == x {
                        assert(r@[p as int] == y);
                    }
                }
            } else {
                assert forall|y: usize| r@.contains(y) <==> (y < x + 1 && selects_threshold(
                    ts[y as int],
                    *params,
                    *query,
                )) by {
                    if y == x && r@.contains(y) {
                        let k = choose|k: int| 0 <= k < r@.len() && r@[k] == y;
                        assert(r@[k] < x);
                    }
                }
            }
            x = x + 1;
        }
        r
    }

    /// The page of `offset` and `limit` of the thresholds that `params` and
    /// `query` select, in the order of `sort` and `direction`.
    pub fn thresholds_of(
        &self,
        params: &ProjThresholdsParams,
        query: &ThresholdQuery,
        sort: ProjThresholdsSort,
        direction: Option<JsonDirection>,
        offset: usize,
        limit: usize,
    ) -> (r: Vec<usize>)
        ensures
            exists|full: Seq<usize>|
                {
                    &&& threshold_listing(self.thresholds@, *params, *query, sort, direction, full)
                    &&& r@ == page(full, offset as int, limit as int)
                },
    {
        let full = self.sorted_thresholds(params, query, sort, direction);
        let mut r: Vec<usize> = Vec::new();
        if offset >= full.len() {
            assert(r@ =~= page(full@, offset as int, limit as int));
            return r;
        }
        let end = if full.len() - offset > limit {
            offset + limit
        } else {
            full.len()
        };
        let mut k = offset;
        while k < end
            invariant
                offset <= k <= end <= full.len(),
                r@ == full@.subrange(offset as int, k as int),
            decreases end - k,
        {
            r.push(full[k]);
            assert(r@ =~= full@.subrange(offset as int, k + 1));
            k = k + 1;
        }
        assert(r@ =~= page(full@, offset as int, limit as int));
        r
    }

    /// Threshold `params.threshold` with its active configuration, where it
    /// is live and belongs to `params.project`.
    pub fn threshold_of(&self, params: &ProjThresholdParams) -> (r: Option<(ThresholdRow, StatisticConfig)>)
        requires
            self.wf(),
        ensures
            match r {
                Some((t, c)) => live_threshold(*self, *params) && t == self.thresholds@[params.threshold as int]
                    && c == active_config(*self, params.threshold as int),
                None => !live_threshold(*self, *params),
            },
    {
        if params.threshold < self.thresholds.len() && self.thresholds[params.threshold].project_id
            == params.project && !self.thresholds[params.threshold].deleted {
            let t = self.thresholds[params.threshold];
            let c = self.statistics[t.statistic_id].config;
            Some((t, c))
        } else {
            None
        }
    }

    /// Deletes threshold `params.threshold` of `params.project`: it no longer
    /// applies to new metrics nor lists, while the statistics it used and the
    /// boundaries and alerts made under it stay as they were.
    pub fn delete_threshold(&mut self, params: &ProjThresholdParams) -> (r: Result<(), StoreError>)
        requires
            old(self).wf(),
        ensures
            final(self).wf(),
            live_threshold(*old(self), *params) ==> r is Ok && final(self).thresholds@ == old(
                self,
            ).thresholds@.update(
                params.threshold as int,
                ThresholdRow { deleted: true, ..old(self).thresholds@[params.threshold as int] },
            ),
            !live_threshold(*old(self), *params) ==> r == Err::<(), StoreError>(StoreError::NotFound)
                && final(self).thresholds@ == old(self).thresholds@,
            final(self).benchmarks@ == old(self).benchmarks@,
            final(self).measures@ == old(self).measures@,
            final(self).versions@ == old(self).versions@,
            final(self).reports@ == old(self).reports@,
            final(self).metrics@ == old(self).metrics@,
            final(self).statistics@ == old(self).statistics@,
            final(self).boundaries@ == old(self).boundaries@,
            final(self).alerts@ == old(self).alerts@,
    {
        let i = params.threshold;
        if !(i < self.thresholds.len() && self.thresholds[i].project_id == params.project
            && !self.thresholds[i].deleted) {
            return Err(StoreError::NotFound);
        }
        let row = self.thresholds[i];
        self.thresholds.set(
            i,
            ThresholdRow {
                project_id: row.project_id,
                branch_id: row.branch_id,
                testbed_id: row.testbed_id,
                measure_id: row.measure_id,
                statistic_id: row.statistic_id,
                created: row.created,
                modified: row.modified,
                deleted: true,
            },
        );
        proof {
            let ot = old(self).thresholds@;
            let nt = self.thresholds@;
            assert forall|k: int| 0 <= k < nt.len() implies {
                let t = #[trigger] nt[k];
                &&& t.statistic_id < self.statistics@.len()
                &&& valid_config(self.statistics@[t.statistic_id as int].config)
            } by {
                assert(nt[k].statistic_id == ot[k].statistic_id);
            }
            assert forall|a: int, b: int| 0 <= a < b < nt.len() implies !(
            #[trigger] nt[a].project_id == #[trigger] nt[b].project_id && nt[a].branch_id
                == nt[b].branch_id && nt[a].testbed_id == nt[b].testbed_id && nt[a].measure_id
                == nt[b].measure_id && !nt[a].deleted && !nt[b].deleted) by {
                assert(identity_row(nt[a]) == identity_row(ot[a]) && (!nt[a].deleted ==> !ot[a].deleted));
                assert(identity_row(nt[b]) == identity_row(ot[b]) && (!nt[b].deleted ==> !ot[b].deleted));
            }
        }
        Ok(())
    }

    /// The versions of a branch, oldest first.
    pub fn branch_versions(&self, branch_id: u64) -> (r: Vec<QueryBranchVersion>)
        ensures
            forall|k: int|
                0 <= k < r@.len() ==> {
                    &&& (#[trigger] r@[k]).id == k
                    &&& r@[k].branch_id == branch_id
                    &&& r@[k].version_id < self.versions@.len()
                    &&& self.versions@[r@[k].version_id as int].branch_id == branch_id
                },
            forall|k: int, l: int| 0 <= k < l < r@.len() ==> r@[k].version_id < r@[l].version_id,
            forall|v: int|
                0 <= v < self.versions@.len() && self.versions@[v].branch_id == branch_id ==> exists|
                    k: int,
                | 0 <= k < r@.len() && #[trigger] r@[k].version_id == v,
    {
        let mut r: Vec<QueryBranchVersion> = Vec::new();
        let mut i: usize = 0;
        while i < self.versions.len()
            invariant
                i <= self.versions.len(),
                forall|k: int|
                    0 <= k < r@.len() ==> {
                        &&& (#[trigger] r@[k]).id == k
                        &&& r@[k].branch_id == branch_id
                        &&& r@[k].version_id < i
                        &&& self.versions@[r@[k].version_id as int].branch_id == branch_id
                    },
                forall|k: int, l: int| 0 <= k < l < r@.len() ==> r@[k].version_id < r@[l].version_id,
                forall|v: int|
                    0 <= v < i && self.versions@[v].branch_id == branch_id ==> exists|k: int|
                        0 <= k < r@.len() && #[trigger] r@[k].version_id == v,
            decreases self.versions.len() - i,
        {
            if self.versions[i].branch_id == branch_id {
                let ghost prev = r@;
                r.push(QueryBranchVersion { id: r.len(), branch_id, version_id: i });
                assert forall|v: int|
                    0 <= v < i + 1 && self.versions@[v].branch_id == branch_id implies exists|k: int|
                        0 <= k < r@.len() && #[trigger] r@[k].version_id == v by {
                    if v < i {
                        let k = choose|k: int| 0 <= k < prev.len() && #[trigger] prev[k].version_id == v;
                        assert(r@[k] == prev[k]);
                    } else {
                        assert(r@[prev.len() as int].version_id == v);
                    }
                }
            }
            i = i + 1;
        }
        r
    }
}

} // verus!
