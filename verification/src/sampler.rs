//! The cgroup sampler's series, what it costs an arm, the lock that keeps arms
//! apart, and the command line that starts one.
use vstd::prelude::*;
use crate::entrant::{debug_quoted, quoted};
use crate::text::{
    begins, cat2, cat3, cat4, cat5, dec, decimal, decimal_int, is_digit, is_space, joined,
    law_decimal_reads_back, law_integer_reads_back, law_integers_are_plain, law_join_is_undone,
    law_words_are_runs, lemma_decimal_digits, note, note_all, note_each, parse_i64, parse_nat,
    parsed_int, parsed_nat, same, split, split_at_each, strip_prefix, texts, trim, trimmed, words,
    words_of,
};

verus! {

/// The network every container of a run is attached to.
pub const NETWORK: &'static str = "spate-bench-net";

/// Name of a sampler container; a fixed one, so that an orphan is replaced.
pub const SAMPLER_CONTAINER: &'static str = "spate-bench-sampler";

/// Image of the sampler. It is only chosen for having an interpreter.
pub const SAMPLER_IMAGE: &'static str = "python:3.12-alpine";

/// One row from the cgroup sampler. `-1` means the field was unreadable at that
/// instant.
#[derive(Clone, Copy, Debug, PartialEq, Eq, Structural)]
pub struct Sample {
    /// Wall-clock milliseconds since the epoch, taken inside the sampler.
    pub t_ms: u64,
    /// Cumulative CPU time charged to the cgroup, microseconds.
    pub usage_usec: i64,
    /// Cumulative user-mode CPU time, microseconds.
    pub user_usec: i64,
    /// Cumulative kernel-mode CPU time, microseconds.
    pub system_usec: i64,
    /// Number of periods in which the cgroup was throttled.
    pub nr_throttled: i64,
    /// Cumulative time the cgroup spent throttled, microseconds.
    pub throttled_usec: i64,
    /// Current charged memory, including page cache.
    pub mem_current: i64,
    /// Peak charged memory since the sampler started.
    pub mem_peak: i64,
    /// Anonymous memory.
    pub anon: i64,
    /// Page-cache memory charged to the cgroup.
    pub file: i64,
    /// Kernel slab memory.
    pub slab: i64,
    /// Kernel stack memory.
    pub kernel_stack: i64,
    /// Socket buffer memory.
    pub sock: i64,
}

pub open spec fn field_number(s: Seq<char>) -> Option<int> {
    parsed_int(trimmed(s), 0x8000_0000_0000_0000, 0x7fff_ffff_ffff_ffff)
}

/// Field `i` of a row, as a number.
pub open spec fn field_at(row: Seq<char>, i: int) -> i64 {
    field_number(split_at_each(row, ',')[i])->Some_0 as i64
}

/// A row has thirteen comma-separated numbers, of which the first, a time, is not
/// negative.
pub open spec fn is_row(row: Seq<char>) -> bool {
    let f = split_at_each(row, ',');
    &&& forall|i: int| 0 <= i < f.len() ==> field_number(#[trigger] f[i]) is Some
    &&& f.len() == 13
    &&& field_at(row, 0) >= 0
}

pub open spec fn sample_of(row: Seq<char>) -> Sample {
    Sample {
        t_ms: field_at(row, 0) as u64,
        usage_usec: field_at(row, 1),
        user_usec: field_at(row, 2),
        system_usec: field_at(row, 3),
        nr_throttled: field_at(row, 4),
        throttled_usec: field_at(row, 5),
        mem_current: field_at(row, 6),
        mem_peak: field_at(row, 7),
        anon: field_at(row, 8),
        file: field_at(row, 9),
        slab: field_at(row, 10),
        kernel_stack: field_at(row, 11),
        sock: field_at(row, 12),
    }
}

impl Sample {
    /// Reads one row.
    pub fn parse(line: &str) -> (r: Option<Self>)
        ensures
            match r {
                Some(s) => is_row(line@) && s == sample_of(line@),
                None => !is_row(line@),
            },
    {
        let parts = split(line, ',');
        let ghost f = split_at_each(line@, ',');
        let mut n: Vec<i64> = Vec::new();
        let mut i: usize = 0;
        while i < parts.len()
            invariant
                texts(parts@) == f,
                f == split_at_each(line@, ','),
                i <= parts@.len(),
                n@.len() == i,
                forall|k: int|
                    0 <= k < i ==> field_number(#[trigger] f[k]) == Some(n@[k] as int),
            decreases parts@.len() - i,
        {
            proof {
                assert(f[i as int] == parts@[i as int]@);
            }
            match parse_i64(trim(parts[i].as_str()).as_str()) {
                Some(v) => {
                    n.push(v);
                },
                None => {
                    assert(field_number(f[i as int]) is None);
                    return None;
                },
            }
            i += 1;
        }
        proof {
            assert(f.len() == n@.len());
            assert forall|k: int| 0 <= k < n@.len() implies field_at(line@, k) == n@[k] by {
                assert(field_number(f[k]) == Some(n@[k] as int));
            }
        }
        if n.len() != 13 || n[0] < 0 {
            return None;
        }
        Some(
            Sample {
                t_ms: n[0] as u64,
                usage_usec: n[1],
                user_usec: n[2],
                system_usec: n[3],
                nr_throttled: n[4],
                throttled_usec: n[5],
                mem_current: n[6],
                mem_peak: n[7],
                anon: n[8],
                file: n[9],
                slab: n[10],
                kernel_stack: n[11],
                sock: n[12],
            },
        )
    }
}

/// Everything one sampler run collected. The wall-clock seconds are carried in the
/// caller's number type.
#[derive(Clone, Debug)]
pub struct Samples<W> {
    /// The sampler's header line: cgroup path, `cpu.max`, `memory.max`.
    pub meta: String,
    /// The series, in order.
    pub rows: Vec<Sample>,
    /// Wall-clock seconds the sampler was alive, from the driver's clock.
    pub wall_s: W,
}

/// The last header among the first `n` lines, without its `#`.
pub open spec fn last_header(all: Seq<Seq<char>>, n: nat) -> Seq<char>
    decreases n,
{
    if n == 0 {
        seq![]
    } else if begins(all[n - 1], "#"@) {
        trimmed(all[n - 1].skip(1))
    } else {
        last_header(all, (n - 1) as nat)
    }
}

/// The rows among the first `n` lines. A line that is neither header nor row is
/// passed over.
pub open spec fn rows_among(all: Seq<Seq<char>>, n: nat) -> Seq<Sample>
    decreases n,
{
    if n == 0 {
        seq![]
    } else if !begins(all[n - 1], "#"@) && is_row(all[n - 1]) {
        rows_among(all, (n - 1) as nat).push(sample_of(all[n - 1]))
    } else {
        rows_among(all, (n - 1) as nat)
    }
}

/// Sorts a sampler's output into its header and its series.
pub fn collect_samples<W>(collected: &Vec<String>, wall_s: W) -> (r: Samples<W>)
    ensures
        r.meta@ == last_header(texts(collected@), collected@.len()),
        r.rows@ == rows_among(texts(collected@), collected@.len()),
        r.wall_s == wall_s,
{
    let ghost all = texts(collected@);
    let mut meta = String::new();
    let mut rows: Vec<Sample> = Vec::new();
    let mut i: usize = 0;
    proof {
        reveal_strlit("#");
        assert(meta@ =~= last_header(all, 0));
        assert(rows@ =~= rows_among(all, 0));
    }
    while i < collected.len()
        invariant
            all == texts(collected@),
            "#"@.len() == 1,
            i <= collected@.len(),
            meta@ == last_header(all, i as nat),
            rows@ == rows_among(all, i as nat),
        decreases collected@.len() - i,
    {
        let line = collected[i].as_str();
        proof {
            assert(all[i as int] == line@);
        }
        match strip_prefix(line, "#") {
            Some(rest) => {
                meta = trim(rest.as_str());
            },
            None => {
                if let Some(s) = Sample::parse(line) {
                    rows.push(s);
                }
            },
        }
        i += 1;
    }
    Samples { meta, rows, wall_s }
}

/// Resource cost of one arm over one measurement window. Mean cores occupied are
/// `cpu_us` over the window, and are left to whoever divides.
#[derive(Clone, Copy, Debug, PartialEq, Eq, Structural)]
pub struct SutCost {
    /// Length of the window, from the sampler's own timestamps.
    pub window_ms: u64,
    /// CPU microseconds consumed in the window.
    pub cpu_us: i128,
    /// User-mode share of `cpu_us`.
    pub user_us: i128,
    /// Kernel-mode share of `cpu_us`.
    pub system_us: i128,
    /// Microseconds spent throttled by the CPU cap.
    pub throttled_us: i128,
    /// Periods in which throttling occurred.
    pub nr_throttled: i128,
    /// Peak anonymous memory: the published footprint.
    pub peak_anon_bytes: i128,
    /// Peak charged memory over the window.
    pub peak_charged_bytes: i128,
    /// Peak current memory seen in the series.
    pub peak_current_bytes: i128,
    /// Number of samples the summary rests on.
    pub samples: usize,
}

/// The larger of two numbers.
pub open spec fn larger(a: int, b: int) -> int {
    if a >= b {
        a
    } else {
        b
    }
}

pub open spec fn growth(first: i64, last: i64) -> int {
    larger(last - first, 0)
}

/// The largest anonymous memory among the first `n` rows.
pub open spec fn peak_anon(rows: Seq<Sample>, n: nat) -> int
    decreases n,
{
    if n <= 1 {
        rows[0].anon as int
    } else {
        larger(peak_anon(rows, (n - 1) as nat), rows[n - 1].anon as int)
    }
}

/// The largest current memory among the first `n` rows.
pub open spec fn peak_current(rows: Seq<Sample>, n: nat) -> int
    decreases n,
{
    if n <= 1 {
        rows[0].mem_current as int
    } else {
        larger(peak_current(rows, (n - 1) as nat), rows[n - 1].mem_current as int)
    }
}

/// A series has a window: two rows or more, and time passed between the first and
/// the last.
pub open spec fn has_window(rows: Seq<Sample>) -> bool {
    rows.len() >= 2 && rows.last().t_ms > rows[0].t_ms
}

/// The cost that a series with a window shows.
pub open spec fn is_cost_of(c: SutCost, rows: Seq<Sample>) -> bool {
    let (a, b) = (rows[0], rows.last());
    &&& c.window_ms == b.t_ms - a.t_ms
    &&& c.cpu_us == growth(a.usage_usec, b.usage_usec)
    &&& c.user_us == growth(a.user_usec, b.user_usec)
    &&& c.system_us == growth(a.system_usec, b.system_usec)
    &&& c.throttled_us == growth(a.throttled_usec, b.throttled_usec)
    &&& c.nr_throttled == growth(a.nr_throttled, b.nr_throttled)
    &&& c.peak_anon_bytes == peak_anon(rows, rows.len())
    &&& c.peak_charged_bytes == b.mem_peak
    &&& c.peak_current_bytes == peak_current(rows, rows.len())
    &&& c.samples == rows.len()
}

fn grown(first: i64, last: i64) -> (r: i128)
    ensures
        r == growth(first, last),
{
    let d: i128 = last as i128 - first as i128;
    if d >= 0 {
        d
    } else {
        0
    }
}

impl<W> Samples<W> {
    /// The cost figures of the series, or nothing where it has no window: a single
    /// sample gives no CPU delta.
    pub fn summarise(&self) -> (r: Option<SutCost>)
        ensures
            match r {
                Some(c) => has_window(self.rows@) && is_cost_of(c, self.rows@) && is_part(c),
                None => !has_window(self.rows@),
            },
            r is Some <==> self.rows@.len() >= 2 && self.rows@[0].t_ms < self.rows@.last().t_ms,
            r is Some ==> {
                let c = r->Some_0;
                &&& forall|i: int|
                    0 <= i < self.rows@.len() ==> (#[trigger] self.rows@[i]).anon
                        <= c.peak_anon_bytes && self.rows@[i].mem_current <= c.peak_current_bytes
                &&& exists|i: int|
                    0 <= i < self.rows@.len() && (#[trigger] self.rows@[i]).anon
                        == c.peak_anon_bytes
                &&& exists|i: int|
                    0 <= i < self.rows@.len() && (#[trigger] self.rows@[i]).mem_current
                        == c.peak_current_bytes
            },
    {
        let n: usize = self.rows.len();
        if n < 2 {
            return None;
        }
        let first = self.rows[0];
        let last = self.rows[n - 1];
        if last.t_ms <= first.t_ms {
            return None;
        }
        let mut anon: i64 = first.anon;
        let mut current: i64 = first.mem_current;
        let mut i: usize = 1;
        while i < n
            invariant
                n == self.rows@.len(),
                1 <= i <= n,
                anon == peak_anon(self.rows@, i as nat),
                current == peak_current(self.rows@, i as nat),
            decreases n - i,
        {
            if self.rows[i].anon > anon {
                anon = self.rows[i].anon;
            }
            if self.rows[i].mem_current > current {
                current = self.rows[i].mem_current;
            }
            i += 1;
        }
        let cost = SutCost {
            window_ms: last.t_ms - first.t_ms,
            cpu_us: grown(first.usage_usec, last.usage_usec),
            user_us: grown(first.user_usec, last.user_usec),
            system_us: grown(first.system_usec, last.system_usec),
            throttled_us: grown(first.throttled_usec, last.throttled_usec),
            nr_throttled: grown(first.nr_throttled, last.nr_throttled),
            peak_anon_bytes: anon as i128,
            peak_charged_bytes: last.mem_peak as i128,
            peak_current_bytes: current as i128,
            samples: n,
        };
        proof {
            lemma_cost_is_part(cost, self.rows@);
            law_cost_is_what_the_series_shows(cost, self.rows@);
        }
        Some(cost)
    }
}

/// A figure that one container's series can show.
pub open spec fn is_figure(n: i128) -> bool {
    -0x1_0000_0000_0000_0000 < n < 0x1_0000_0000_0000_0000
}

pub open spec fn is_part(c: SutCost) -> bool {
    is_figure(c.cpu_us) && is_figure(c.user_us) && is_figure(c.system_us) && is_figure(
        c.throttled_us,
    ) && is_figure(c.nr_throttled) && is_figure(c.peak_anon_bytes) && is_figure(
        c.peak_charged_bytes,
    ) && is_figure(c.peak_current_bytes)
}

/// Which figure of a cost.
pub enum Figure {
    Cpu,
    User,
    System,
    Throttled,
    Throttles,
    Anon,
    Charged,
    Current,
}

pub open spec fn figure(c: SutCost, f: Figure) -> int {
    match f {
        Figure::Cpu => c.cpu_us as int,
        Figure::User => c.user_us as int,
        Figure::System => c.system_us as int,
        Figure::Throttled => c.throttled_us as int,
        Figure::Throttles => c.nr_throttled as int,
        Figure::Anon => c.peak_anon_bytes as int,
        Figure::Charged => c.peak_charged_bytes as int,
        Figure::Current => c.peak_current_bytes as int,
    }
}

/// The sum of a figure over the first `n` parts.
pub open spec fn figure_sum(parts: Seq<SutCost>, f: Figure, n: nat) -> int
    decreases n,
{
    if n == 0 {
        0
    } else {
        figure_sum(parts, f, (n - 1) as nat) + figure(parts[n - 1], f)
    }
}

/// The longest window of the first `n` parts.
pub open spec fn longest_window(parts: Seq<SutCost>, n: nat) -> int
    decreases n,
{
    if n == 0 {
        0
    } else {
        larger(longest_window(parts, (n - 1) as nat), parts[n - 1].window_ms as int)
    }
}

/// The fewest samples of the first `n` parts.
pub open spec fn fewest_samples(parts: Seq<SutCost>, n: nat) -> int
    decreases n,
{
    if n <= 1 {
        parts[0].samples as int
    } else if parts[n - 1].samples < fewest_samples(parts, (n - 1) as nat) {
        parts[n - 1].samples as int
    } else {
        fewest_samples(parts, (n - 1) as nat)
    }
}

/// Figures add; the window is the longest, since parts are sampled together; the
/// sample count is the smallest.
pub open spec fn is_sum_of(c: SutCost, parts: Seq<SutCost>, n: nat) -> bool {
    &&& c.window_ms == longest_window(parts, n)
    &&& c.samples == fewest_samples(parts, n)
    &&& forall|f: Figure| #[trigger] figure(c, f) == figure_sum(parts, f, n)
}

proof fn lemma_figure_bound(parts: Seq<SutCost>, f: Figure, n: nat)
    requires
        n <= parts.len(),
        forall|i: int| 0 <= i < parts.len() ==> is_part(#[trigger] parts[i]),
    ensures
        -0x1_0000_0000_0000_0000 * n <= figure_sum(parts, f, n) <= 0x1_0000_0000_0000_0000 * n,
    decreases n,
{
    if n > 0 {
        lemma_figure_bound(parts, f, (n - 1) as nat);
        assert(is_part(parts[n - 1]));
    }
}

impl SutCost {
    /// The cost of several containers as one arm's cost.
    pub fn sum(parts: &Vec<SutCost>) -> (r: Option<SutCost>)
        requires
            forall|i: int| 0 <= i < parts@.len() ==> is_part(#[trigger] parts@[i]),
            parts@.len() <= 0x4000_0000_0000_0000,
        ensures
            match r {
                Some(c) => parts@.len() > 0 && is_sum_of(c, parts@, parts@.len()),
                None => parts@.len() == 0,
            },
    {
        if parts.len() == 0 {
            return None;
        }
        let mut c = parts[0];
        let mut i: usize = 1;
        proof {
            reveal_with_fuel(figure_sum, 2);
            reveal_with_fuel(longest_window, 2);
        }
        while i < parts.len()
            invariant
                forall|i: int| 0 <= i < parts@.len() ==> is_part(#[trigger] parts@[i]),
                parts@.len() <= 0x4000_0000_0000_0000,
                1 <= i <= parts@.len(),
                is_sum_of(c, parts@, i as nat),
            decreases parts@.len() - i,
        {
            let p = parts[i];
            let ghost before = c;
            proof {
                assert(is_part(p));
                assert forall|f: Figure| -0x4000_0000_0000_0000_0000_0000_0000_0000 <= #[trigger] figure(
                    c,
                    f,
                ) <= 0x4000_0000_0000_0000_0000_0000_0000_0000 by {
                    lemma_figure_bound(parts@, f, i as nat);
                }
                assert(figure(c, Figure::Cpu) == c.cpu_us);
                assert(figure(c, Figure::User) == c.user_us);
                assert(figure(c, Figure::System) == c.system_us);
                assert(figure(c, Figure::Throttled) == c.throttled_us);
                assert(figure(c, Figure::Throttles) == c.nr_throttled);
                assert(figure(c, Figure::Anon) == c.peak_anon_bytes);
                assert(figure(c, Figure::Charged) == c.peak_charged_bytes);
                assert(figure(c, Figure::Current) == c.peak_current_bytes);
            }
            c = SutCost {
                window_ms: if c.window_ms >= p.window_ms {
                    c.window_ms
                } else {
                    p.window_ms
                },
                cpu_us: c.cpu_us + p.cpu_us,
                user_us: c.user_us + p.user_us,
                system_us: c.system_us + p.system_us,
                throttled_us: c.throttled_us + p.throttled_us,
                nr_throttled: c.nr_throttled + p.nr_throttled,
                peak_anon_bytes: c.peak_anon_bytes + p.peak_anon_bytes,
                peak_charged_bytes: c.peak_charged_bytes + p.peak_charged_bytes,
                peak_current_bytes: c.peak_current_bytes + p.peak_current_bytes,
                samples: if p.samples < c.samples {
                    p.samples
                } else {
                    c.samples
                },
            };
            i += 1;
            proof {
                assert forall|f: Figure| #[trigger] figure(c, f) == figure_sum(
                    parts@,
                    f,
                    i as nat,
                ) by {
                    assert(figure(before, f) == figure_sum(parts@, f, (i - 1) as nat));
                    assert(figure(c, f) == figure(before, f) + figure(p, f));
                }
            }
        }
        Some(c)
    }

    /// Whether the CPU cap was a binding constraint.
    pub fn was_throttled(&self) -> (r: bool)
        ensures
            r == (self.nr_throttled > 0),
    {
        self.nr_throttled > 0
    }
}

/// What a series can show is what a sum takes.
proof fn lemma_cost_is_part(c: SutCost, rows: Seq<Sample>)
    requires
        has_window(rows),
        is_cost_of(c, rows),
    ensures
        is_part(c),
{
    lemma_peaks(rows, rows.len());
}

proof fn lemma_peaks(rows: Seq<Sample>, n: nat)
    ensures
        i64::MIN <= peak_anon(rows, n) <= i64::MAX,
        i64::MIN <= peak_current(rows, n) <= i64::MAX,
    decreases n,
{
    if n > 1 {
        lemma_peaks(rows, (n - 1) as nat);
    }
}

// ---------------------------------------------------------------------------
// Keeping arms apart
// ---------------------------------------------------------------------------

/// Path of the lock that every harness on the host takes.
pub const LOCK_PATH: &'static str = "/tmp/spate-bench-comparison.lock";

/// What to do on finding the lock held.
#[derive(Debug)]
pub enum LockStep {
    /// The holder is dead: remove the lock and try again.
    Reclaim,
    /// Refuse, with the reason.
    Refuse(String),
}

/// The process that wrote a lock.
pub open spec fn holder_of(held: Seq<char>) -> Option<nat> {
    let w = words_of(held);
    if w.len() == 0 {
        None
    } else {
        parsed_nat(w[0], u32::MAX as nat)
    }
}

pub open spec fn lock_refusal(held: Seq<char>) -> Seq<char> {
    "another arm holds "@ + LOCK_PATH@ + ": "@ + trimmed(held)
        + ". Arms MUST run one at a time — they share one Redpanda and one ClickHouse, and the driver truncates the target table. Wait, or pass FORCE_UNLOCK=1 if that holder is wedged."@
}

/// The process id in a lock, to be asked after.
pub fn lock_holder(held: &str) -> (r: Option<u32>)
    ensures
        match r {
            Some(pid) => holder_of(held@) == Some(pid as nat),
            None => holder_of(held@) is None,
        },
{
    let w = words(held);
    proof {
        assert(texts(w@).len() == w@.len());
    }
    if w.len() == 0 {
        return None;
    }
    proof {
        assert(texts(w@)[0] == w@[0]@);
    }
    match parse_nat(w[0].as_str(), 0xffff_ffff) {
        Some(n) => Some(n as u32),
        None => None,
    }
}

/// What to do on finding the lock held: a lock whose recorded holder is dead is
/// stale, and one that records no holder is not.
pub fn lock_step(held: &str, holder_alive: bool) -> (r: LockStep)
    ensures
        match r {
            LockStep::Reclaim => holder_of(held@) is Some && !holder_alive,
            LockStep::Refuse(m) => (holder_of(held@) is None || holder_alive) && m@
                == lock_refusal(held@),
        },
{
    if lock_holder(held).is_some() && !holder_alive {
        LockStep::Reclaim
    } else {
        LockStep::Refuse(
            cat5(
                "another arm holds ",
                LOCK_PATH,
                ": ",
                trim(held).as_str(),
                ". Arms MUST run one at a time — they share one Redpanda and one ClickHouse, and the driver truncates the target table. Wait, or pass FORCE_UNLOCK=1 if that holder is wedged.",
            ),
        )
    }
}

/// What the holder of the lock writes into it.
pub fn lock_line(pid: u32, description: &str) -> (r: String)
    ensures
        r@ == decimal(pid as nat) + " "@ + description@ + "\n"@,
{
    let mut out = cat3(dec(pid as u128).as_str(), " ", description);
    out.push_str("\n");
    out
}

// ---------------------------------------------------------------------------
// Starting containers
// ---------------------------------------------------------------------------

/// How to launch one container of an arm.
#[derive(Clone, Debug)]
pub struct SutSpec {
    /// Container name; removed before and after the run.
    pub name: String,
    pub image: String,
    /// `--cpus` value.
    pub cpus: String,
    /// `--memory` value; `--memory-swap` is set to the same.
    pub memory: String,
    /// Environment passed to the arm.
    pub env: Vec<(String, String)>,
    /// Command arguments after the image.
    pub args: Vec<String>,
    /// `-v` arguments: named volumes.
    pub volumes: Vec<String>,
}

/// `flag` before each of the first `n` texts.
pub open spec fn flagged_each(flag: Seq<char>, v: Seq<Seq<char>>, n: nat) -> Seq<Seq<char>>
    decreases n,
{
    if n == 0 {
        seq![]
    } else {
        flagged_each(flag, v, (n - 1) as nat) + seq![flag, v[n - 1]]
    }
}

/// The `KEY=value` settings of an environment.
pub open spec fn settings(env: Seq<(String, String)>) -> Seq<Seq<char>> {
    Seq::new(env.len(), |i: int| env[i].0@ + "="@ + env[i].1@)
}

/// The arguments of `docker` that start a container: detached, on the bench
/// network, capped in CPU and memory, with no swap beyond its memory.
pub open spec fn sut_args(s: SutSpec) -> Seq<Seq<char>> {
    seq!["run"@, "-d"@, "--name"@, s.name@, "--network"@, NETWORK@] + seq![
        "--cpus="@ + s.cpus@,
        "--memory="@ + s.memory@,
        "--memory-swap="@ + s.memory@,
    ] + flagged_each("-e"@, settings(s.env@), s.env@.len()) + flagged_each(
        "-v"@,
        texts(s.volumes@),
        s.volumes@.len(),
    ) + seq![s.image@] + texts(s.args@)
}

fn note_flagged(list: &mut Vec<String>, flag: &str, v: &Vec<String>)
    ensures
        texts(final(list)@) == texts(old(list)@) + flagged_each(flag@, texts(v@), v@.len()),
{
    let ghost start = texts(list@);
    let mut i: usize = 0;
    proof {
        assert(texts(list@) =~= start + flagged_each(flag@, texts(v@), 0));
    }
    while i < v.len()
        invariant
            i <= v@.len(),
            texts(list@) == start + flagged_each(flag@, texts(v@), i as nat),
        decreases v@.len() - i,
    {
        note(list, flag.to_owned());
        note(list, v[i].clone());
        i += 1;
        proof {
            assert(texts(list@) =~= start + flagged_each(flag@, texts(v@), i as nat));
        }
    }
}

/// The arguments of `docker` that start a container of an arm.
pub fn start_sut(spec: &SutSpec) -> (r: Vec<String>)
    ensures
        texts(r@) == sut_args(*spec),
{
    let mut out: Vec<String> = Vec::new();
    let mut env: Vec<String> = Vec::new();
    let mut i: usize = 0;
    proof {
        assert(texts(env@) =~= settings(spec.env@).take(0));
    }
    while i < spec.env.len()
        invariant
            i <= spec.env@.len(),
            texts(env@) == settings(spec.env@).take(i as int),
        decreases spec.env@.len() - i,
    {
        note(&mut env, cat3(spec.env[i].0.as_str(), "=", spec.env[i].1.as_str()));
        i += 1;
        proof {
            assert(texts(env@) =~= settings(spec.env@).take(i as int));
        }
    }
    proof {
        assert(settings(spec.env@).take(i as int) =~= settings(spec.env@));
        assert(texts(env@).len() == env@.len());
        assert(texts(out@) =~= seq![]);
    }
    note(&mut out, "run".to_owned());
    note(&mut out, "-d".to_owned());
    note(&mut out, "--name".to_owned());
    note(&mut out, spec.name.clone());
    note(&mut out, "--network".to_owned());
    note(&mut out, NETWORK.to_owned());
    note(&mut out, cat2("--cpus=", spec.cpus.as_str()));
    note(&mut out, cat2("--memory=", spec.memory.as_str()));
    note(&mut out, cat2("--memory-swap=", spec.memory.as_str()));
    let ghost head = texts(out@);
    proof {
        assert(head =~= seq![
            "run"@,
            "-d"@,
            "--name"@,
            spec.name@,
            "--network"@,
            NETWORK@,
        ] + seq![
            "--cpus="@ + spec.cpus@,
            "--memory="@ + spec.memory@,
            "--memory-swap="@ + spec.memory@,
        ]);
    }
    note_flagged(&mut out, "-e", &env);
    note_flagged(&mut out, "-v", &spec.volumes);
    note(&mut out, spec.image.clone());
    note_all(&mut out, &spec.args);
    proof {
        assert(texts(out@) =~= sut_args(*spec));
    }
    out
}

/// The arguments that start every container of an arm, in the order given: one that
/// coordinates must be up before another can register with it.
pub fn start_arm(specs: &Vec<SutSpec>) -> (r: Vec<Vec<String>>)
    ensures
        r@.len() == specs@.len(),
        forall|i: int| 0 <= i < r@.len() ==> texts((#[trigger] r@[i])@) == sut_args(specs@[i]),
{
    let mut out: Vec<Vec<String>> = Vec::new();
    let mut i: usize = 0;
    while i < specs.len()
        invariant
            i <= specs@.len(),
            out@.len() == i,
            forall|k: int| 0 <= k < i ==> texts((#[trigger] out@[k])@) == sut_args(specs@[k]),
        decreases specs@.len() - i,
    {
        out.push(start_sut(&specs[i]));
        i += 1;
    }
    out
}

/// The id that a container's cgroup is named after: the full one, of 64 bytes.
pub fn container_id(name: &str, id: String) -> (r: Result<String, String>)
    ensures
        match r {
            Ok(full) => full == id && vstd::utf8::encode_utf8(id@).len() == 64,
            Err(e) => vstd::utf8::encode_utf8(id@).len() != 64 && e@
                == "expected a 64-hex container id for "@ + name@ + ", got "@ + debug_quoted(id@),
        },
{
    if id.as_str().as_bytes().len() == 64 {
        Ok(id)
    } else {
        Err(
            cat4(
                "expected a 64-hex container id for ",
                name,
                ", got ",
                quoted(id.as_str()).as_str(),
            ),
        )
    }
}

/// Whether a container runs, by what was said of its state.
pub fn sut_alive(state: Option<&str>) -> (r: bool)
    ensures
        r == (state is Some && state->Some_0@ == "true"@),
{
    match state {
        Some(s) => same(s, "true"),
        None => false,
    }
}

/// The arguments of `docker` that start a sampler of the container with an id. It
/// sees the host's cgroups and may reset the peak it reads.
pub open spec fn sampler_args(id: Seq<char>, interval: Seq<char>, name: Seq<char>) -> Seq<
    Seq<char>,
> {
    seq![
        "run"@,
        "--rm"@,
        "-i"@,
        "--name"@,
        name,
        "--network"@,
        NETWORK@,
        "--cgroupns=host"@,
        "-v"@,
        "/sys/fs/cgroup:/cg:rw"@,
        SAMPLER_IMAGE@,
        "python3"@,
        "-"@,
        "/cg/docker/"@ + id,
        interval,
    ]
}

/// The arguments of `docker` that start a sampler under a name.
pub fn start_named(id: &str, interval: &str, sampler_name: &str) -> (r: Vec<String>)
    ensures
        texts(r@) == sampler_args(id@, interval@, sampler_name@),
{
    let mut out: Vec<String> = Vec::new();
    let cgroup = cat2("/cg/docker/", id);
    note_each(
        &mut out,
        &[
            "run",
            "--rm",
            "-i",
            "--name",
            sampler_name,
            "--network",
            NETWORK,
            "--cgroupns=host",
            "-v",
            "/sys/fs/cgroup:/cg:rw",
            SAMPLER_IMAGE,
            "python3",
            "-",
            cgroup.as_str(),
            interval,
        ],
    );
    proof {
        assert(texts(out@) =~= sampler_args(id@, interval@, sampler_name@));
    }
    out
}

/// The name of the sampler of an arm's `i`-th container.
pub fn sampler_name(i: usize) -> (r: String)
    ensures
        r@ == SAMPLER_CONTAINER@ + "-"@ + decimal(i as nat),
{
    cat3(SAMPLER_CONTAINER, "-", dec(i as u128).as_str())
}

// ---------------------------------------------------------------------------
// Laws
// ---------------------------------------------------------------------------

/// A row is its thirteen numbers in decimal, commas between them: each number is read
/// back into the field of its position.
pub proof fn law_row_reads_back(n: Seq<i64>)
    requires
        n.len() == 13,
        n[0] >= 0,
    ensures
        ({
            let row = joined(Seq::new(13, |i: int| decimal_int(n[i] as int)), seq![',']);
            let s = sample_of(row);
            &&& is_row(row)
            &&& s.t_ms == n[0]
            &&& s.usage_usec == n[1]
            &&& s.user_usec == n[2]
            &&& s.system_usec == n[3]
            &&& s.nr_throttled == n[4]
            &&& s.throttled_usec == n[5]
            &&& s.mem_current == n[6]
            &&& s.mem_peak == n[7]
            &&& s.anon == n[8]
            &&& s.file == n[9]
            &&& s.slab == n[10]
            &&& s.kernel_stack == n[11]
            &&& s.sock == n[12]
        }),
{
    let parts = Seq::new(13, |i: int| decimal_int(n[i] as int));
    let row = joined(parts, seq![',']);
    assert forall|i: int, k: int| 0 <= i < parts.len() && 0 <= k < parts[i].len() implies
        #[trigger] parts[i][k] != ',' by {
        law_integers_are_plain(n[i] as int);
    }
    law_join_is_undone(parts, ',');
    assert forall|i: int| 0 <= i < 13 implies field_number(#[trigger] parts[i]) == Some(
        n[i] as int,
    ) && field_at(row, i) == n[i] by {
        law_integers_are_plain(n[i] as int);
        law_integer_reads_back(n[i] as int, 0x8000_0000_0000_0000, 0x7fff_ffff_ffff_ffff);
    }
    assert(field_at(row, 0) == n[0] && field_at(row, 1) == n[1] && field_at(row, 2) == n[2]);
    assert(field_number(parts[0]) is Some && field_number(parts[1]) is Some);
    assert(field_number(parts[2]) is Some && field_number(parts[3]) is Some);
    assert(field_number(parts[4]) is Some && field_number(parts[5]) is Some);
    assert(field_number(parts[6]) is Some && field_number(parts[7]) is Some);
    assert(field_number(parts[8]) is Some && field_number(parts[9]) is Some);
    assert(field_number(parts[10]) is Some && field_number(parts[11]) is Some);
    assert(field_number(parts[12]) is Some);
}

/// A line behind a sampler's output is a header, which replaces the one before and leaves
/// the series; or a row, which ends the series and leaves the header; or neither, and
/// changes nothing.
pub proof fn law_output_is_sorted_line_by_line(all: Seq<Seq<char>>, line: Seq<char>)
    ensures
        ({
            let n = all.len();
            let more = all.push(line);
            let header = line.len() > 0 && line[0] == '#';
            let (meta, rows) = (last_header(more, n + 1), rows_among(more, n + 1));
            &&& header ==> meta == trimmed(line.skip(1)) && rows == rows_among(all, n)
            &&& !header ==> meta == last_header(all, n)
            &&& !header && is_row(line) ==> rows == rows_among(all, n).push(sample_of(line))
            &&& !header && !is_row(line) ==> rows == rows_among(all, n)
            &&& last_header(all, 0) == Seq::<char>::empty()
            &&& rows_among(all, 0) == Seq::<Sample>::empty()
        }),
{
    let n = all.len();
    let more = all.push(line);
    reveal_strlit("#");
    if line.len() > 0 {
        assert(line.take(1) =~= seq![line[0]]);
        assert("#"@ =~= seq!['#']);
        assert(line[0] == '#' ==> line.take(1) == "#"@);
        assert(line.take(1) == "#"@ ==> line.take(1)[0] == '#');
    }
    lemma_output_prefix(all, more, n);
}

proof fn lemma_output_prefix(all: Seq<Seq<char>>, more: Seq<Seq<char>>, n: nat)
    requires
        n <= all.len() <= more.len(),
        forall|i: int| 0 <= i < n ==> all[i] == more[i],
    ensures
        last_header(all, n) == last_header(more, n),
        rows_among(all, n) == rows_among(more, n),
    decreases n,
{
    if n > 0 {
        lemma_output_prefix(all, more, (n - 1) as nat);
    }
}

proof fn lemma_peak_of(rows: Seq<Sample>, n: nat)
    requires
        0 < n <= rows.len(),
    ensures
        forall|i: int| 0 <= i < n ==> (#[trigger] rows[i]).anon <= peak_anon(rows, n),
        exists|i: int| 0 <= i < n && (#[trigger] rows[i]).anon == peak_anon(rows, n),
        forall|i: int| 0 <= i < n ==> (#[trigger] rows[i]).mem_current <= peak_current(rows, n),
        exists|i: int| 0 <= i < n && (#[trigger] rows[i]).mem_current == peak_current(rows, n),
    decreases n,
{
    if n == 1 {
        assert(rows[0].anon == peak_anon(rows, n));
        assert(rows[0].mem_current == peak_current(rows, n));
    } else {
        let m = (n - 1) as nat;
        lemma_peak_of(rows, m);
        let i = choose|i: int| 0 <= i < m && (#[trigger] rows[i]).anon == peak_anon(rows, m);
        let j = choose|j: int|
            0 <= j < m && (#[trigger] rows[j]).mem_current == peak_current(rows, m);
        assert(rows[i].anon == peak_anon(rows, n) || rows[n - 1].anon == peak_anon(rows, n));
        assert(rows[j].mem_current == peak_current(rows, n) || rows[n - 1].mem_current
            == peak_current(rows, n));
    }
}

/// A cumulative counter's share of a window: what it gained from the first row to the
/// last, and nothing where it went back.
pub open spec fn gained(first: i64, last: i64, by: i128) -> bool {
    (first <= last ==> first + by == last) && (first > last ==> by == 0)
}

/// What a series costs: it has a cost exactly where two rows stand apart in time; the
/// window and the counters are what passed between the first row and the last; each peak
/// is the largest value of its own column, and is the value of some row; the charged peak
/// is the one that the last row reports.
pub proof fn law_cost_is_what_the_series_shows(c: SutCost, rows: Seq<Sample>)
    requires
        is_cost_of(c, rows),
        rows.len() > 0,
    ensures
        has_window(rows) <==> rows.len() >= 2 && rows[0].t_ms < rows.last().t_ms,
        has_window(rows) ==> rows[0].t_ms + c.window_ms == rows.last().t_ms,
        gained(rows[0].usage_usec, rows.last().usage_usec, c.cpu_us),
        gained(rows[0].user_usec, rows.last().user_usec, c.user_us),
        gained(rows[0].system_usec, rows.last().system_usec, c.system_us),
        gained(rows[0].throttled_usec, rows.last().throttled_usec, c.throttled_us),
        gained(rows[0].nr_throttled, rows.last().nr_throttled, c.nr_throttled),
        forall|i: int|
            0 <= i < rows.len() ==> (#[trigger] rows[i]).anon <= c.peak_anon_bytes
                && rows[i].mem_current <= c.peak_current_bytes,
        exists|i: int| 0 <= i < rows.len() && (#[trigger] rows[i]).anon == c.peak_anon_bytes,
        exists|i: int|
            0 <= i < rows.len() && (#[trigger] rows[i]).mem_current == c.peak_current_bytes,
        c.peak_charged_bytes == rows.last().mem_peak,
        c.samples == rows.len(),
{
    lemma_peak_of(rows, rows.len());
}

/// An arm of one container costs what the container costs. A further container adds each
/// of its figures to that figure of the arm; the window becomes the longer of the two,
/// and the sample count the smaller.
pub proof fn law_parts_add_up(parts: Seq<SutCost>, sofar: SutCost, p: SutCost, all: SutCost)
    requires
        parts.len() > 0,
        is_sum_of(sofar, parts, parts.len()),
        is_sum_of(all, parts.push(p), parts.len() + 1),
    ensures
        parts.len() == 1 ==> sofar == parts[0],
        all.cpu_us == sofar.cpu_us + p.cpu_us,
        all.user_us == sofar.user_us + p.user_us,
        all.system_us == sofar.system_us + p.system_us,
        all.throttled_us == sofar.throttled_us + p.throttled_us,
        all.nr_throttled == sofar.nr_throttled + p.nr_throttled,
        all.peak_anon_bytes == sofar.peak_anon_bytes + p.peak_anon_bytes,
        all.peak_charged_bytes == sofar.peak_charged_bytes + p.peak_charged_bytes,
        all.peak_current_bytes == sofar.peak_current_bytes + p.peak_current_bytes,
        all.window_ms >= sofar.window_ms && all.window_ms >= p.window_ms,
        all.window_ms == sofar.window_ms || all.window_ms == p.window_ms,
        all.samples <= sofar.samples && all.samples <= p.samples,
        all.samples == sofar.samples || all.samples == p.samples,
{
    let n = parts.len();
    let more = parts.push(p);
    assert forall|f: Figure| #[trigger] figure(all, f) == figure(sofar, f) + figure(p, f) by {
        lemma_sum_prefix(parts, more, f, n);
        assert(figure(sofar, f) == figure_sum(parts, f, n));
    }
    lemma_sum_prefix(parts, more, Figure::Cpu, n);
    assert(figure(all, Figure::Cpu) == figure(sofar, Figure::Cpu) + figure(p, Figure::Cpu));
    assert(figure(all, Figure::User) == figure(sofar, Figure::User) + figure(p, Figure::User));
    assert(figure(all, Figure::System) == figure(sofar, Figure::System) + figure(p, Figure::System));
    assert(figure(all, Figure::Throttled) == figure(sofar, Figure::Throttled) + figure(
        p,
        Figure::Throttled,
    ));
    assert(figure(all, Figure::Throttles) == figure(sofar, Figure::Throttles) + figure(
        p,
        Figure::Throttles,
    ));
    assert(figure(all, Figure::Anon) == figure(sofar, Figure::Anon) + figure(p, Figure::Anon));
    assert(figure(all, Figure::Charged) == figure(sofar, Figure::Charged) + figure(
        p,
        Figure::Charged,
    ));
    assert(figure(all, Figure::Current) == figure(sofar, Figure::Current) + figure(
        p,
        Figure::Current,
    ));
    if n == 1 {
        reveal_with_fuel(figure_sum, 2);
        reveal_with_fuel(longest_window, 2);
        let one = parts[0];
        assert forall|f: Figure| #[trigger] figure(sofar, f) == figure(one, f) by {
            assert(figure(sofar, f) == figure_sum(parts, f, 1));
        }
        assert(figure(sofar, Figure::Cpu) == figure(one, Figure::Cpu));
        assert(figure(sofar, Figure::User) == figure(one, Figure::User));
        assert(figure(sofar, Figure::System) == figure(one, Figure::System));
        assert(figure(sofar, Figure::Throttled) == figure(one, Figure::Throttled));
        assert(figure(sofar, Figure::Throttles) == figure(one, Figure::Throttles));
        assert(figure(sofar, Figure::Anon) == figure(one, Figure::Anon));
        assert(figure(sofar, Figure::Charged) == figure(one, Figure::Charged));
        assert(figure(sofar, Figure::Current) == figure(one, Figure::Current));
    }
}

proof fn lemma_sum_prefix(parts: Seq<SutCost>, more: Seq<SutCost>, f: Figure, n: nat)
    requires
        n <= parts.len() <= more.len(),
        parts.len() > 0,
        forall|i: int| 0 <= i < parts.len() ==> parts[i] == more[i],
    ensures
        figure_sum(parts, f, n) == figure_sum(more, f, n),
        longest_window(parts, n) == longest_window(more, n),
        fewest_samples(parts, n) == fewest_samples(more, n),
    decreases n,
{
    if n > 0 {
        lemma_sum_prefix(parts, more, f, (n - 1) as nat);
    }
}

/// A lock names its holder: the process that wrote it is read back from it.
pub proof fn law_lock_names_its_holder(pid: u32, description: Seq<char>)
    ensures
        holder_of(decimal(pid as nat) + " "@ + description + "\n"@) == Some(pid as nat),
{
    let w = decimal(pid as nat);
    let rest = description + "\n"@;
    lemma_decimal_digits(pid as nat);
    law_decimal_reads_back(pid as nat, u32::MAX as nat);
    reveal_strlit(" ");
    assert forall|i: int| 0 <= i < w.len() implies !is_space(#[trigger] w[i]) by {
        assert(is_digit(w[i]));
    }
    law_words_are_runs(w, ' ', rest);
    assert(w + " "@ + description + "\n"@ =~= w + seq![' '] + rest);
    assert((seq![w] + words_of(rest))[0] == w);
}

/// The arguments hold a flag at `at`, and its value behind it.
pub open spec fn is_option(a: Seq<Seq<char>>, at: int, flag: Seq<char>, value: Seq<char>) -> bool {
    0 <= at < a.len() - 1 && a[at] == flag && a[at + 1] == value
}

/// A container is started under its own name, on the bench network, with its own caps:
/// `--cpus` is its CPU cap, `--memory` its memory cap, and `--memory-swap` the same, so
/// that it never swaps. Its settings and volumes follow, each behind its flag, then its
/// image, then its own arguments.
pub proof fn law_container_starts_as_declared(s: SutSpec)
    ensures
        ({
            let a = sut_args(s);
            let (e, v) = (2 * s.env@.len() as int, 2 * s.volumes@.len() as int);
            &&& a.len() == 10 + e + v + s.args@.len()
            &&& a[0] == "run"@ && a[1] == "-d"@
            &&& a[2] == "--name"@ && a[3] == s.name@
            &&& a[4] == "--network"@ && a[5] == "spate-bench-net"@
            &&& a[6] == "--cpus="@ + s.cpus@
            &&& a[7] == "--memory="@ + s.memory@
            &&& a[8] == "--memory-swap="@ + s.memory@
            &&& forall|i: int|
                0 <= i < s.env@.len() ==> is_option(
                    a,
                    9 + 2 * i,
                    "-e"@,
                    (#[trigger] s.env@[i]).0@ + "="@ + s.env@[i].1@,
                )
            &&& forall|i: int|
                0 <= i < s.volumes@.len() ==> is_option(
                    a,
                    9 + e + 2 * i,
                    "-v"@,
                    (#[trigger] s.volumes@[i])@,
                )
            &&& a[9 + e + v] == s.image@
            &&& forall|i: int|
                0 <= i < s.args@.len() ==> a[10 + e + v + i] == (#[trigger] s.args@[i])@
        }),
{
    let a = sut_args(s);
    let (e, v) = (2 * s.env@.len() as int, 2 * s.volumes@.len() as int);
    let env = settings(s.env@);
    lemma_flagged_len("-e"@, env, s.env@.len());
    lemma_flagged_len("-v"@, texts(s.volumes@), s.volumes@.len());
    let fe = flagged_each("-e"@, env, s.env@.len());
    let fv = flagged_each("-v"@, texts(s.volumes@), s.volumes@.len());
    let head = seq!["run"@, "-d"@, "--name"@, s.name@, "--network"@, NETWORK@] + seq![
        "--cpus="@ + s.cpus@,
        "--memory="@ + s.memory@,
        "--memory-swap="@ + s.memory@,
    ];
    assert(a == head + fe + fv + seq![s.image@] + texts(s.args@));
    assert(head.len() == 9 && fe.len() == e && fv.len() == v);
    assert(texts(s.args@).len() == s.args@.len());
    assert(a[0] == head[0] && a[1] == head[1] && a[2] == head[2] && a[3] == head[3]);
    assert(a[4] == head[4] && a[5] == head[5] && a[6] == head[6] && a[7] == head[7]);
    assert(a[8] == head[8]);
    assert forall|i: int| 0 <= i < s.env@.len() implies is_option(
        a,
        9 + 2 * i,
        "-e"@,
        (#[trigger] s.env@[i]).0@ + "="@ + s.env@[i].1@,
    ) by {
        lemma_flagged_at("-e"@, env, s.env@.len(), i);
        assert(env[i] == s.env@[i].0@ + "="@ + s.env@[i].1@);
        assert(a[9 + 2 * i] == fe[2 * i] && a[10 + 2 * i] == fe[2 * i + 1]);
    }
    assert forall|i: int| 0 <= i < s.volumes@.len() implies is_option(
        a,
        9 + e + 2 * i,
        "-v"@,
        (#[trigger] s.volumes@[i])@,
    ) by {
        lemma_flagged_at("-v"@, texts(s.volumes@), s.volumes@.len(), i);
        assert(texts(s.volumes@)[i] == s.volumes@[i]@);
        assert(a[9 + e + 2 * i] == fv[2 * i] && a[10 + e + 2 * i] == fv[2 * i + 1]);
    }
    assert forall|i: int| 0 <= i < s.args@.len() implies a[10 + e + v + i]
        == (#[trigger] s.args@[i])@ by {
        assert(texts(s.args@)[i] == s.args@[i]@);
    }
}

proof fn lemma_flagged_len(flag: Seq<char>, v: Seq<Seq<char>>, n: nat)
    ensures
        flagged_each(flag, v, n).len() == 2 * n,
    decreases n,
{
    if n > 0 {
        lemma_flagged_len(flag, v, (n - 1) as nat);
    }
}

proof fn lemma_flagged_at(flag: Seq<char>, v: Seq<Seq<char>>, n: nat, i: int)
    requires
        0 <= i < n,
    ensures
        flagged_each(flag, v, n)[2 * i] == flag,
        flagged_each(flag, v, n)[2 * i + 1] == v[i],
    decreases n,
{
    let m = (n - 1) as nat;
    lemma_flagged_len(flag, v, m);
    let (a, b) = (flagged_each(flag, v, m), flagged_each(flag, v, n));
    let pair = seq![flag, v[n - 1]];
    assert(b == a + pair);
    if i < m {
        lemma_flagged_at(flag, v, m, i);
        assert(b[2 * i] == a[2 * i] && b[2 * i + 1] == a[2 * i + 1]);
    } else {
        assert(b[2 * i] == pair[0] && b[2 * i + 1] == pair[1]);
    }
}

/// A sampler runs under its own name, sees the host's cgroups, and is pointed at the
/// cgroup of the one container whose id it is given.
pub proof fn law_sampler_watches_one_container(id: Seq<char>, interval: Seq<char>, name: Seq<char>)
    ensures
        ({
            let a = sampler_args(id, interval, name);
            &&& a.len() == 15
            &&& a[3] == "--name"@ && a[4] == name
            &&& a[5] == "--network"@ && a[6] == "spate-bench-net"@
            &&& a[7] == "--cgroupns=host"@
            &&& a[13] == "/cg/docker/"@ + id
            &&& a[14] == interval
        }),
{
}

/// A row is exactly thirteen numbers, and its time is not negative: one more, one fewer, or
/// one that is no number, and it is no row.
pub proof fn law_row_has_thirteen_numbers(row: Seq<char>)
    ensures
        is_row(row) <==> {
            let f = split_at_each(row, ',');
            &&& f.len() == 13
            &&& forall|i: int|
                0 <= i < f.len() ==> parsed_int(
                    trimmed(#[trigger] f[i]),
                    0x8000_0000_0000_0000,
                    0x7fff_ffff_ffff_ffff,
                ) is Some
            &&& parsed_int(trimmed(f[0]), 0x8000_0000_0000_0000, 0x7fff_ffff_ffff_ffff)->Some_0 >= 0
        },
{
    let f = split_at_each(row, ',');
    if f.len() == 13 {
        let n = parsed_int(trimmed(f[0]), 0x8000_0000_0000_0000, 0x7fff_ffff_ffff_ffff);
        if n is Some {
            assert(-0x8000_0000_0000_0000 <= n->Some_0 <= 0x7fff_ffff_ffff_ffff);
        }
    }
    if is_row(row) {
        assert forall|i: int| 0 <= i < f.len() implies parsed_int(
            trimmed(#[trigger] f[i]),
            0x8000_0000_0000_0000,
            0x7fff_ffff_ffff_ffff,
        ) is Some by {
            assert(field_number(f[i]) is Some);
        }
        assert(field_number(f[0]) is Some);
    } else if f.len() == 13 && forall|i: int|
        0 <= i < f.len() ==> parsed_int(
            trimmed(#[trigger] f[i]),
            0x8000_0000_0000_0000,
            0x7fff_ffff_ffff_ffff,
        ) is Some {
        assert forall|i: int| 0 <= i < f.len() implies field_number(#[trigger] f[i]) is Some by {}
        assert(field_number(f[0]) is Some);
    }
}

/// A refused lock is told with what it holds.
pub proof fn law_refusal_tells_the_holder(held: Seq<char>)
    ensures
        begins(
            lock_refusal(held),
            "another arm holds "@ + LOCK_PATH@ + ": "@ + trimmed(held) + "."@,
        ),
{
    let head = "another arm holds "@ + LOCK_PATH@ + ": "@ + trimmed(held) + "."@;
    let tail = ". Arms MUST run one at a time — they share one Redpanda and one ClickHouse, and the driver truncates the target table. Wait, or pass FORCE_UNLOCK=1 if that holder is wedged."@;
    reveal_strlit(".");
    reveal_strlit(
        ". Arms MUST run one at a time — they share one Redpanda and one ClickHouse, and the driver truncates the target table. Wait, or pass FORCE_UNLOCK=1 if that holder is wedged.",
    );
    assert(tail[0] == '.');
    assert(lock_refusal(held).take(head.len() as int) =~= head);
}

} // verus!
