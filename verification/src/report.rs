//! The versioned record every measurement emits.
//!
//! A record's numbers are carried and never computed with here, so their type is
//! the caller's: `N` is the number of a metric, `J` the value of a variant key.
use vstd::prelude::*;
use crate::corpus::DATASET_VERSION;
use crate::table::{inserted, lookup, Table};

verus! {

/// Schema version of the emitted records. Bump on any breaking field change.
pub const SCHEMA_VERSION: u32 = 2;

/// Version of the measurement protocol. Records with different values are not
/// comparable.
pub const HARNESS_VERSION: u32 = 1;

/// Whether a record reports a measurement or a decision derived from them.
#[derive(Clone, Copy, Debug, PartialEq, Eq, Structural)]
pub enum Kind {
    /// An observed quantity for one arm.
    Measurement,
    /// A conclusion drawn across arms.
    Verdict,
}

/// Whether a record carries publishable numbers, and if not, why not.
#[derive(Clone, Copy, Debug, PartialEq, Eq, Structural)]
pub enum Status {
    /// Ran to completion and passed every gate. Publishable.
    Passed,
    /// Exceeded the infrastructure headroom limit.
    InfraBound,
    /// The system cannot express this variant at all. Carries no metrics.
    Unsupported,
    /// Started but produced no valid measurement. Reason in `note`.
    Failed,
}

impl Status {
    /// Whether this status permits metrics to be attached.
    pub fn carries_metrics(self) -> (r: bool)
        ensures
            r == (self == Status::Passed || self == Status::InfraBound),
    {
        match self {
            Status::Passed => true,
            Status::InfraBound => true,
            _ => false,
        }
    }
}

/// What caused a run to happen.
#[derive(Clone, Copy, Debug, PartialEq, Eq, Structural)]
pub enum Trigger {
    /// A scheduled full-matrix re-run.
    Nightly,
    /// Invoked by hand.
    Manual,
    /// Produced by a pull request. Never published.
    Pr,
    /// Pinned to a release of the system under test.
    Release,
    /// One cell of a tuning sweep. Never published.
    Tuning,
}

impl Trigger {
    pub open spec fn is_barred(self) -> bool {
        self == Trigger::Pr || self == Trigger::Tuning
    }

    /// Whether a record produced under this trigger must never be published.
    pub fn bars_publication(self) -> (r: bool)
        ensures
            r == self.is_barred(),
    {
        match self {
            Trigger::Pr => true,
            Trigger::Tuning => true,
            _ => false,
        }
    }
}

/// A machine-readable caveat.
#[derive(Clone, Copy, Debug, PartialEq, Eq, Structural)]
pub enum Flag {
    /// The arm hit its cgroup CPU cap during the measurement window.
    CpuCapThrottled,
    /// No ceiling measurement was available to gate against.
    HeadroomUnproven,
    /// A sustained arm could not keep up with the offered rate.
    Saturated,
    /// Produced by a pull-request run on untrusted code. Never published.
    PrRun,
    /// Produced on hardware we do not control.
    ThirdPartyHardware,
    /// Infrastructure containers were reused rather than recreated.
    ReusedInfra,
}

/// One measured quantity, carrying its unit and its direction of goodness.
#[derive(Clone, Debug, PartialEq)]
pub struct Metric<N> {
    /// The measured value, in `unit`.
    pub value: N,
    pub unit: String,
    /// `true` when a larger `value` is a better result.
    pub higher_is_better: bool,
    /// 95% confidence interval `(low, high)` when repetitions were taken.
    pub ci95: Option<(N, N)>,
    /// Sample count behind `value`: repetitions, not inner iterations.
    pub n: Option<u64>,
}

impl<N> Metric<N> {
    /// A metric where more is better.
    pub fn maximize(value: N, unit: &str) -> (r: Self)
        ensures
            r.value == value,
            r.unit@ == unit@,
            r.higher_is_better,
            r.ci95 is None,
            r.n is None,
    {
        Metric { value, unit: unit.to_owned(), higher_is_better: true, ci95: None, n: None }
    }

    /// A metric where less is better.
    pub fn minimize(value: N, unit: &str) -> (r: Self)
        ensures
            r.value == value,
            r.unit@ == unit@,
            !r.higher_is_better,
            r.ci95 is None,
            r.n is None,
    {
        Metric { value, unit: unit.to_owned(), higher_is_better: false, ci95: None, n: None }
    }

    /// A footprint in bytes, unscaled: the value and its label are made together.
    pub fn bytes(bytes: N) -> (r: Self)
        ensures
            r.value == bytes,
            r.unit@ == "bytes"@,
            !r.higher_is_better,
            r.ci95 is None,
            r.n is None,
    {
        Self::minimize(bytes, "bytes")
    }

    /// Attaches a 95% confidence interval.
    pub fn with_ci(self, low: N, high: N) -> (r: Self)
        ensures
            r == (Metric { ci95: Some((low, high)), ..self }),
    {
        Metric {
            value: self.value,
            unit: self.unit,
            higher_is_better: self.higher_is_better,
            ci95: Some((low, high)),
            n: self.n,
        }
    }

    /// Attaches the repetition count behind the value.
    pub fn with_n(self, n: u64) -> (r: Self)
        ensures
            r == (Metric { n: Some(n), ..self }),
    {
        Metric {
            value: self.value,
            unit: self.unit,
            higher_is_better: self.higher_is_better,
            ci95: self.ci95,
            n: Some(n),
        }
    }
}

/// The system under test: what was actually run.
#[derive(Clone, Debug, PartialEq, Eq)]
pub struct Sut {
    /// Entrant directory name.
    pub entrant: String,
    /// Variant id from the descriptor.
    pub variant_id: String,
    /// Released version. Absent only where `commit` is present.
    pub version: Option<String>,
    /// Upstream commit.
    pub commit: Option<String>,
    /// `sha256:…` of the image actually run.
    pub image_digest: String,
    /// The image tag the driver was told to run.
    pub image: String,
    /// Compiler or runtime that built the arm.
    pub toolchain: Option<String>,
}

/// The shared infrastructure, as read back from the running containers.
#[derive(Clone, Debug, PartialEq, Eq)]
pub struct Infra {
    /// Hash over the envelope-defining subset only.
    pub digest: String,
    pub broker: String,
    pub broker_version: String,
    pub broker_image_digest: String,
    /// Broker CPU quota, from cgroup `cpu.max`.
    pub broker_cpus: String,
    /// Broker memory limit, from cgroup `memory.max`.
    pub broker_memory: String,
    pub clickhouse_version: String,
    pub clickhouse_image_digest: String,
    /// ClickHouse CPU quota, from cgroup `cpu.max`.
    pub clickhouse_cpus: String,
    /// ClickHouse memory limit, from cgroup `memory.max`.
    pub clickhouse_memory: String,
    /// Topic partition count.
    pub partitions: i32,
    pub registry: String,
    /// The measured consume ceiling this run was gated against; `0` where there
    /// was none.
    pub ceiling_msgs_per_s: u64,
}

/// Provenance for a run: when, where, under what protocol, on what data.
#[derive(Clone, Debug, PartialEq, Eq)]
pub struct RunMeta {
    /// Unix epoch milliseconds at which the record was built.
    pub ts_ms: u64,
    /// Interned hardware profile.
    pub env_id: String,
    /// Content hash of the resolved environment profile.
    pub env_digest: String,
    /// Measurement protocol version.
    pub harness_version: u32,
    /// Corpus version.
    pub dataset_version: String,
    /// Commit of this repository, for reproducing the run.
    pub commit: Option<String>,
    /// What caused the run.
    pub trigger: Trigger,
    pub infra: Infra,
}

impl RunMeta {
    /// Run provenance around an environment and the infrastructure observed for
    /// it, at a time and a commit that the caller read.
    pub fn new(
        ts_ms: u64,
        commit: Option<String>,
        env_id: String,
        env_digest: String,
        trigger: Trigger,
        infra: Infra,
    ) -> (r: Self)
        ensures
            r.ts_ms == ts_ms,
            r.commit == commit,
            r.env_id == env_id,
            r.env_digest == env_digest,
            r.harness_version == HARNESS_VERSION,
            r.dataset_version@ == DATASET_VERSION@,
            r.trigger == trigger,
            r.infra == infra,
    {
        RunMeta {
            ts_ms,
            env_id,
            env_digest,
            harness_version: HARNESS_VERSION,
            dataset_version: DATASET_VERSION.to_owned(),
            commit,
            trigger,
            infra,
        }
    }
}

/// A retraction. The record it is attached to stays in the archive.
#[derive(Clone, Debug, PartialEq, Eq)]
pub struct Superseded {
    /// `run_id` of the replacement, when there is one.
    pub by: Option<String>,
    /// Why the original number should not be believed.
    pub reason: String,
    /// When the retraction was recorded.
    pub ts_ms: u64,
}

/// One emitted measurement record.
#[derive(Clone, Debug)]
pub struct Report<N, J> {
    /// Schema version; always [`SCHEMA_VERSION`] on write.
    pub schema: u32,
    /// The suite.
    pub bench: String,
    pub kind: Kind,
    /// Whether this record carries publishable numbers.
    pub status: Status,
    /// One per execution; never repeats.
    pub run_id: String,
    /// 1-based repetition index within one invocation.
    pub rep: u32,
    /// Repetitions the invocation asked for.
    pub reps: u32,
    /// What was actually run.
    pub sut: Sut,
    /// Provenance of the run.
    pub run: RunMeta,
    /// The arm's configuration. Never a measured quantity.
    pub variant: Table<J>,
    /// Measured quantities, keyed by metric name.
    pub metrics: Table<Metric<N>>,
    /// Free-text caveat carried alongside the numbers.
    pub note: Option<String>,
    /// Machine-readable caveats.
    pub flags: Vec<Flag>,
    /// Set when this record is retracted.
    pub superseded_by: Option<Superseded>,
}

pub open spec fn is_hex(c: char) -> bool {
    '0' <= c <= '9' || 'a' <= c <= 'f'
}

/// The shape of a version-7 UUID: groups of 8, 4, 4, 4 and 12 hexadecimal digits,
/// the third of which begins with `7`.
pub open spec fn is_run_id(s: Seq<char>) -> bool {
    &&& s.len() == 36
    &&& s[14] == '7'
    &&& forall|i: int|
        0 <= i < 36 ==> if i == 8 || i == 13 || i == 18 || i == 23 {
            #[trigger] s[i] == '-'
        } else {
            is_hex(s[i])
        }
}

/// `uuid::Uuid::now_v7`, as text. The id is made of the time and of chance, so
/// only its shape is claimed: that ids differ and ascend is left unsaid.
#[verifier::external_body]
fn fresh_run_id() -> (r: String)
    ensures
        is_run_id(r@),
{
    uuid::Uuid::now_v7().to_string()
}

impl<N, J> Report<N, J> {
    /// A new record for one arm of one repetition, under an id of its own.
    pub fn new(bench: &str, kind: Kind, status: Status, sut: Sut, run: RunMeta) -> (r: Self)
        ensures
            is_run_id(r.run_id@),
            r.is_fresh(bench@, kind, status, sut, run),
    {
        Self::with_run_id(fresh_run_id(), bench, kind, status, sut, run)
    }

    /// What a new record holds besides its id.
    pub open spec fn is_fresh(
        self,
        bench: Seq<char>,
        kind: Kind,
        status: Status,
        sut: Sut,
        run: RunMeta,
    ) -> bool {
        &&& self.schema == SCHEMA_VERSION
        &&& self.bench@ == bench
        &&& self.kind == kind
        &&& self.status == status
        &&& self.rep == 1
        &&& self.reps == 1
        &&& self.sut == sut
        &&& self.run == run
        &&& self.variant@.len() == 0
        &&& self.metrics@.len() == 0
        &&& self.note is None
        &&& self.flags@.len() == 0
        &&& self.superseded_by is None
    }

    /// A new record under a given id.
    pub fn with_run_id(
        run_id: String,
        bench: &str,
        kind: Kind,
        status: Status,
        sut: Sut,
        run: RunMeta,
    ) -> (r: Self)
        ensures
            r.run_id == run_id,
            r.is_fresh(bench@, kind, status, sut, run),
    {
        Report {
            schema: SCHEMA_VERSION,
            bench: bench.to_owned(),
            kind,
            status,
            run_id,
            rep: 1,
            reps: 1,
            sut,
            run,
            variant: Table::new(),
            metrics: Table::new(),
            note: None,
            flags: Vec::new(),
            superseded_by: None,
        }
    }

    /// Records which repetition of how many this is.
    pub fn rep(self, rep: u32, reps: u32) -> (r: Self)
        ensures
            r == (Report { rep, reps, ..self }),
    {
        let mut out = self;
        out.rep = rep;
        out.reps = reps;
        out
    }

    /// Adds one dimension of the arm's configuration.
    pub fn variant(self, key: &str, value: J) -> (r: Self)
        ensures
            r.variant@ == inserted(self.variant@, key@, value),
            r == (Report { variant: r.variant, ..self }),
    {
        let mut out = self;
        out.variant.insert(key.to_owned(), value);
        out
    }

    /// Adds one measured quantity.
    pub fn metric(self, key: &str, metric: Metric<N>) -> (r: Self)
        ensures
            r.metrics@ == inserted(self.metrics@, key@, metric),
            r == (Report { metrics: r.metrics, ..self }),
    {
        let mut out = self;
        out.metrics.insert(key.to_owned(), metric);
        out
    }

    /// Attaches a caveat that travels with the numbers.
    pub fn note(self, note: String) -> (r: Self)
        ensures
            r == (Report { note: Some(note), ..self }),
    {
        let mut out = self;
        out.note = Some(note);
        out
    }

    /// Attaches a machine-readable caveat, once.
    pub fn flag(self, flag: Flag) -> (r: Self)
        ensures
            r.flags@ == flagged(self.flags@, flag),
            r == (Report { flags: r.flags, ..self }),
    {
        let mut out = self;
        let mut i: usize = 0;
        while i < out.flags.len()
            invariant
                i <= out.flags@.len(),
                out == self,
                forall|k: int| 0 <= k < i ==> out.flags@[k] != flag,
            decreases out.flags@.len() - i,
        {
            if out.flags[i] == flag {
                assert(self.flags@.contains(flag));
                return out;
            }
            i += 1;
        }
        assert(!self.flags@.contains(flag));
        out.flags.push(flag);
        out
    }
}

/// The caveats with `flag` among them.
pub open spec fn flagged(flags: Seq<Flag>, flag: Flag) -> Seq<Flag> {
    if flags.contains(flag) {
        flags
    } else {
        flags.push(flag)
    }
}

/// Attaching a caveat again changes nothing, and no caveat is ever lost.
pub proof fn law_flag_is_idempotent(flags: Seq<Flag>, flag: Flag)
    ensures
        flagged(flagged(flags, flag), flag) == flagged(flags, flag),
        flagged(flags, flag).contains(flag),
        forall|f: Flag| flags.contains(f) ==> #[trigger] flagged(flags, flag).contains(f),
{
    let s = flagged(flags, flag);
    if !flags.contains(flag) {
        assert(s[flags.len() as int] == flag);
        assert forall|f: Flag| flags.contains(f) implies #[trigger] s.contains(f) by {
            let i = choose|i: int| 0 <= i < flags.len() && flags[i] == f;
            assert(s[i] == f);
        }
    }
}

/// Pull-request runs and tuning sweeps are barred from publication, and no others.
pub proof fn law_who_is_barred(t: Trigger)
    ensures
        t.is_barred() <==> t == Trigger::Pr || t == Trigger::Tuning,
        !Trigger::Nightly.is_barred() && !Trigger::Manual.is_barred()
            && !Trigger::Release.is_barred(),
{
}

/// A new record says what it is of, and nothing was measured yet: the first of one
/// repetition, without configuration, metrics, caveats or retraction.
pub proof fn law_fresh_record_is_empty<N, J>(
    r: Report<N, J>,
    bench: Seq<char>,
    kind: Kind,
    status: Status,
    sut: Sut,
    run: RunMeta,
    k: Seq<char>,
)
    requires
        r.is_fresh(bench, kind, status, sut, run),
    ensures
        r.schema == SCHEMA_VERSION,
        r.bench@ == bench,
        r.kind == kind,
        r.status == status,
        r.sut == sut,
        r.run == run,
        r.rep == 1 && r.reps == 1,
        lookup(r.metrics@, k) is None,
        lookup(r.variant@, k) is None,
        r.note is None,
        r.flags@.len() == 0,
        r.superseded_by is None,
{
}

} // verus!
