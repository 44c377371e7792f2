//! Putting the corpus on a topic: once, as a prefill, or open-loop at a fixed rate.
use vstd::prelude::*;
use crate::corpus::{
    batch_fits, encode_batch, frame_confluent, framed, send_ts_us_prefill, sensor_of, sensor_text,
    BASE_TS_MS,
};
use crate::text::{begins, cat5, cat7, dec, decimal};
use crate::wire::{is_payload, is_prefill_payload};

verus! {

// ---------------------------------------------------------------------------
// Messages
// ---------------------------------------------------------------------------

/// One message to produce.
#[derive(Debug)]
pub struct Message {
    pub payload: Vec<u8>,
    pub key: String,
    pub partition: i32,
}

/// `m` is batch `b` framed under `schema_id`, keyed by its sensor.
pub open spec fn is_message(m: Message, schema_id: u32, b: int, send_ts_us: i64) -> bool {
    m.key@ == sensor_text(b) && is_payload(m.payload@, schema_id, b, send_ts_us)
}

fn message(schema_id: u32, batch_id: u64, send_ts_us: i64, partition: i32) -> (r: Message)
    requires
        batch_fits(batch_id as int),
    ensures
        is_message(r, schema_id, batch_id as int, send_ts_us),
        r.partition == partition,
{
    let datum = encode_batch(batch_id, send_ts_us);
    let payload = frame_confluent(schema_id, datum.as_slice());
    proof {
        assert(payload@ == framed(schema_id, datum@));
    }
    Message { payload, key: sensor_of(batch_id), partition }
}

// ---------------------------------------------------------------------------
// Prefill
// ---------------------------------------------------------------------------

/// Messages on one partition between its watermarks; none where they are unknown
/// or crossed.
pub open spec fn partition_depth(w: Option<(i64, i64)>) -> int {
    match w {
        Some((low, high)) => if high >= low {
            high - low
        } else {
            0
        },
        None => 0,
    }
}

/// Messages on the first `n` partitions.
pub open spec fn depth_of(marks: Seq<Option<(i64, i64)>>, n: nat) -> int
    decreases n,
{
    if n == 0 {
        0
    } else {
        depth_of(marks, (n - 1) as nat) + partition_depth(marks[n - 1])
    }
}

proof fn lemma_depth_grows(marks: Seq<Option<(i64, i64)>>, m: nat, n: nat)
    requires
        m <= n,
    ensures
        0 <= depth_of(marks, m) <= depth_of(marks, n),
    decreases n,
{
    if m < n {
        lemma_depth_grows(marks, m, (n - 1) as nat);
    } else if n > 0 {
        lemma_depth_grows(marks, (n - 1) as nat, (n - 1) as nat);
    }
}

/// Messages on a topic, from its partitions' low and high watermarks.
pub fn topic_message_count(marks: &Vec<Option<(i64, i64)>>) -> (r: u64)
    requires
        depth_of(marks@, marks@.len()) <= u64::MAX,
    ensures
        r == depth_of(marks@, marks@.len()),
{
    let mut total: u64 = 0;
    let mut i: usize = 0;
    while i < marks.len()
        invariant
            i <= marks@.len(),
            depth_of(marks@, marks@.len()) <= u64::MAX,
            total == depth_of(marks@, i as nat),
        decreases marks@.len() - i,
    {
        proof {
            lemma_depth_grows(marks@, i as nat + 1, marks@.len());
            lemma_depth_grows(marks@, i as nat, i as nat);
        }
        let d: u64 = match marks[i] {
            Some((low, high)) => if high >= low {
                (high as i128 - low as i128) as u64
            } else {
                0
            },
            None => 0,
        };
        total = total + d;
        i += 1;
    }
    total
}

/// What a prefill finds to do.
#[derive(Debug)]
pub enum PrefillPlan {
    /// The corpus is there already.
    Reuse,
    /// The topic is empty: produce the corpus.
    Produce,
    /// The topic holds something else, for this reason refused.
    Refuse(String),
}

pub open spec fn partial_refusal(topic: Seq<char>, depth: u64, batches: u64) -> Seq<char> {
    "topic "@ + topic + " holds "@ + decimal(depth as nat) + " messages but the run wants "@ + decimal(
        batches as nat,
    )
        + ". A partially-filled corpus would make every arm replay different bytes; delete the topic and re-prefill."@
}

/// Decides a prefill by the depth of the topic. A topic of the right depth holds
/// the right bytes, since each message is a function of its index.
pub fn plan_prefill(topic: &str, depth: u64, batches: u64) -> (r: PrefillPlan)
    ensures
        match r {
            PrefillPlan::Reuse => depth == batches,
            PrefillPlan::Produce => depth == 0 && batches != 0,
            PrefillPlan::Refuse(e) => depth != batches && depth != 0 && e@ == partial_refusal(
                topic@,
                depth,
                batches,
            ),
        },
{
    if depth == batches {
        PrefillPlan::Reuse
    } else if depth == 0 {
        PrefillPlan::Produce
    } else {
        PrefillPlan::Refuse(
            cat7(
                "topic ",
                topic,
                " holds ",
                dec(depth as u128).as_str(),
                " messages but the run wants ",
                dec(batches as u128).as_str(),
                ". A partially-filled corpus would make every arm replay different bytes; delete the topic and re-prefill.",
            ),
        )
    }
}

/// The prefilled message of a batch, on the partition that round-robin gives it.
pub fn prefill_message(batch_id: u64, schema_id: u32, partitions: i32) -> (r: Message)
    requires
        batch_fits(batch_id as int),
        BASE_TS_MS * 1000 + batch_id <= i64::MAX,
        partitions > 0,
    ensures
        is_message(r, schema_id, batch_id as int, (BASE_TS_MS * 1000 + batch_id) as i64),
        is_prefill_payload(r.payload@, schema_id, batch_id as int),
        r.partition == batch_id as int % partitions as int,
{
    let partition: i32 = (batch_id % partitions as u64) as i32;
    message(schema_id, batch_id, send_ts_us_prefill(batch_id), partition)
}

/// Whether all that was produced has landed, or why not.
pub fn check_landed(landed: u64, batches: u64) -> (r: Result<(), String>)
    ensures
        match r {
            Ok(_) => landed == batches,
            Err(e) => landed != batches && e@ == "prefill produced "@ + decimal(batches as nat)
                + " messages but the topic holds "@ + decimal(landed as nat)
                + "; every arm would replay a different corpus"@,
        },
{
    if landed == batches {
        Ok(())
    } else {
        Err(
            cat5(
                "prefill produced ",
                dec(batches as u128).as_str(),
                " messages but the topic holds ",
                dec(landed as u128).as_str(),
                "; every arm would replay a different corpus",
            ),
        )
    }
}

// ---------------------------------------------------------------------------
// Sustained load
// ---------------------------------------------------------------------------

/// An open-loop schedule shared by all producer threads. A send is due at a time
/// fixed by its global index alone, so that no thread drifts and a late send is
/// visibly late.
#[derive(Clone, Copy, Debug, PartialEq, Eq, Structural)]
pub struct Schedule {
    /// Offered rate, messages a second.
    pub rate: u64,
    /// Producer threads, which take global indices in turn.
    pub threads: u64,
    pub partitions: i32,
    pub schema_id: u32,
    /// The batch of global index zero.
    pub first_batch_id: u64,
    /// The origin of the schedule, epoch microseconds.
    pub origin_us: i64,
}

/// The global index of thread `slot`'s `n`-th send.
pub open spec fn global_index(slot: int, n: int, threads: int) -> int {
    slot + n * threads
}

/// Microseconds after the origin at which a global index is due.
pub open spec fn due_us(global: int, rate: int) -> int {
    (global * 1_000_000) / rate
}

impl Schedule {
    pub open spec fn wf(self) -> bool {
        self.rate > 0 && self.threads > 0 && self.partitions > 0
    }

    /// The send with a global index is within the machine types.
    pub open spec fn fits(self, global: int) -> bool {
        &&& global * 1_000_000 <= u64::MAX
        &&& batch_fits(self.first_batch_id + global)
        &&& self.first_batch_id + global <= u64::MAX
        &&& self.origin_us + due_us(global, self.rate as int) <= i64::MAX
    }
}

/// What a producer thread does next.
#[derive(Debug)]
pub enum LoadStep {
    /// Ahead of schedule: serve the client for so many microseconds.
    Wait(u64),
    /// Send a message that is due, so many microseconds late.
    Send(Message, u64),
}

/// The longest a producer waits before it looks again, microseconds.
pub const MAX_WAIT_US: u64 = 2_000;

/// What thread `slot` does next, having sent `sent`, so long after the origin. The
/// message carries the time it was due, and not the time it is sent.
pub fn next_send(s: &Schedule, slot: u64, sent: u64, elapsed_us: u64) -> (r: LoadStep)
    requires
        s.wf(),
        slot < s.threads,
        s.fits(global_index(slot as int, sent as int, s.threads as int)),
    ensures
        ({
            let g = global_index(slot as int, sent as int, s.threads as int);
            let due = due_us(g, s.rate as int);
            match r {
                LoadStep::Wait(us) => elapsed_us < due && us == if due - elapsed_us <= MAX_WAIT_US {
                    due - elapsed_us
                } else {
                    MAX_WAIT_US as int
                },
                LoadStep::Send(m, lag) => elapsed_us >= due && lag == elapsed_us - due
                    && is_message(
                    m,
                    s.schema_id,
                    s.first_batch_id + g,
                    (s.origin_us + due) as i64,
                ) && m.partition == g % s.partitions as int,
            }
        }),
{
    proof {
        let g = global_index(slot as int, sent as int, s.threads as int);
        assert(0 <= sent as int * s.threads as int) by (nonlinear_arith)
            requires
                sent >= 0,
                s.threads >= 0,
        ;
        assert(0 <= due_us(g, s.rate as int) <= g * 1_000_000) by (nonlinear_arith)
            requires
                due_us(g, s.rate as int) == (g * 1_000_000) / s.rate as int,
                g >= 0,
                s.rate > 0,
        ;
    }
    let global: u64 = slot + sent * s.threads;
    let due: u64 = (global * 1_000_000) / s.rate;
    if elapsed_us < due {
        let gap: u64 = due - elapsed_us;
        return LoadStep::Wait(
            if gap <= MAX_WAIT_US {
                gap
            } else {
                MAX_WAIT_US
            },
        );
    }
    let partition: i32 = (global % s.partitions as u64) as i32;
    let m = message(
        s.schema_id,
        s.first_batch_id + global,
        (s.origin_us as i128 + due as i128) as i64,
        partition,
    );
    LoadStep::Send(m, elapsed_us - due)
}

/// What one producer thread offered.
#[derive(Clone, Copy, Debug, PartialEq, Eq, Structural)]
pub struct LoadTally {
    /// Messages enqueued.
    pub sent: u64,
    /// Messages the broker acknowledged.
    pub delivered: u64,
    /// Messages whose delivery failed.
    pub failed: u64,
    /// The furthest any send ran behind its schedule.
    pub max_lag_us: u64,
}

pub open spec fn later(a: u64, b: u64) -> u64 {
    if a >= b {
        a
    } else {
        b
    }
}

/// A tally after an attempt that was `lag` late. One that the queue had no room
/// for is made again, so it is not counted.
pub fn after_send(t: LoadTally, lag: u64, accepted: bool) -> (r: LoadTally)
    requires
        t.sent < u64::MAX,
    ensures
        r == (LoadTally {
            sent: if accepted {
                (t.sent + 1) as u64
            } else {
                t.sent
            },
            max_lag_us: later(t.max_lag_us, lag),
            ..t
        }),
        r.max_lag_us >= t.max_lag_us && r.max_lag_us >= lag,
        r.max_lag_us == t.max_lag_us || r.max_lag_us == lag,
{
    LoadTally {
        sent: if accepted {
            t.sent + 1
        } else {
            t.sent
        },
        delivered: t.delivered,
        failed: t.failed,
        max_lag_us: if t.max_lag_us >= lag {
            t.max_lag_us
        } else {
            lag
        },
    }
}

pub open spec fn sent_sum(parts: Seq<LoadTally>, n: nat) -> int
    decreases n,
{
    if n == 0 {
        0
    } else {
        sent_sum(parts, (n - 1) as nat) + parts[n - 1].sent
    }
}

pub open spec fn delivered_sum(parts: Seq<LoadTally>, n: nat) -> int
    decreases n,
{
    if n == 0 {
        0
    } else {
        delivered_sum(parts, (n - 1) as nat) + parts[n - 1].delivered
    }
}

pub open spec fn failed_sum(parts: Seq<LoadTally>, n: nat) -> int
    decreases n,
{
    if n == 0 {
        0
    } else {
        failed_sum(parts, (n - 1) as nat) + parts[n - 1].failed
    }
}

pub open spec fn worst_lag(parts: Seq<LoadTally>, n: nat) -> u64
    decreases n,
{
    if n == 0 {
        0
    } else {
        later(worst_lag(parts, (n - 1) as nat), parts[n - 1].max_lag_us)
    }
}

proof fn lemma_sums_grow(parts: Seq<LoadTally>, m: nat, n: nat)
    requires
        m <= n,
    ensures
        0 <= sent_sum(parts, m) <= sent_sum(parts, n),
        0 <= delivered_sum(parts, m) <= delivered_sum(parts, n),
        0 <= failed_sum(parts, m) <= failed_sum(parts, n),
    decreases n,
{
    if m < n {
        lemma_sums_grow(parts, m, (n - 1) as nat);
    } else if n > 0 {
        lemma_sums_grow(parts, (n - 1) as nat, (n - 1) as nat);
    }
}

/// What all threads offered together: counts add, and the lag is the worst.
pub fn total_load(parts: &Vec<LoadTally>) -> (r: LoadTally)
    requires
        parts@.len() > 0,
        sent_sum(parts@, parts@.len()) <= u64::MAX,
        delivered_sum(parts@, parts@.len()) <= u64::MAX,
        failed_sum(parts@, parts@.len()) <= u64::MAX,
    ensures
        r.sent == sent_sum(parts@, parts@.len()),
        r.delivered == delivered_sum(parts@, parts@.len()),
        r.failed == failed_sum(parts@, parts@.len()),
        r.max_lag_us == worst_lag(parts@, parts@.len()),
        forall|i: int| 0 <= i < parts@.len() ==> (#[trigger] parts@[i]).max_lag_us <= r.max_lag_us,
        exists|i: int| 0 <= i < parts@.len() && (#[trigger] parts@[i]).max_lag_us == r.max_lag_us,
{
    let mut t = LoadTally { sent: 0, delivered: 0, failed: 0, max_lag_us: 0 };
    let mut i: usize = 0;
    while i < parts.len()
        invariant
            i <= parts@.len(),
            sent_sum(parts@, parts@.len()) <= u64::MAX,
            delivered_sum(parts@, parts@.len()) <= u64::MAX,
            failed_sum(parts@, parts@.len()) <= u64::MAX,
            t.sent == sent_sum(parts@, i as nat),
            t.delivered == delivered_sum(parts@, i as nat),
            t.failed == failed_sum(parts@, i as nat),
            t.max_lag_us == worst_lag(parts@, i as nat),
        decreases parts@.len() - i,
    {
        proof {
            lemma_sums_grow(parts@, i as nat + 1, parts@.len());
        }
        let p = parts[i];
        t = LoadTally {
            sent: t.sent + p.sent,
            delivered: t.delivered + p.delivered,
            failed: t.failed + p.failed,
            max_lag_us: if t.max_lag_us >= p.max_lag_us {
                t.max_lag_us
            } else {
                p.max_lag_us
            },
        };
        i += 1;
    }
    proof {
        law_worst_lag_is_the_largest(parts@, parts@.len());
    }
    t
}

/// Threads interleave without gap or overlap: each global index is the send of
/// exactly one thread, at exactly one place in its turn.
pub proof fn law_threads_partition_the_schedule(g: int, threads: int)
    requires
        g >= 0,
        threads > 0,
    ensures
        0 <= g % threads < threads,
        0 <= g / threads,
        global_index(g % threads, g / threads, threads) == g,
        forall|slot: int, n: int|
            0 <= slot < threads && 0 <= n && #[trigger] global_index(slot, n, threads) == g ==> slot
                == g % threads && n == g / threads,
{
    assert(g == threads * (g / threads) + g % threads && 0 <= g % threads < threads && 0 <= g
        / threads) by (nonlinear_arith)
        requires
            g >= 0,
            threads > 0,
    ;
    assert((g / threads) * threads == threads * (g / threads)) by (nonlinear_arith);
    assert forall|slot: int, n: int|
        0 <= slot < threads && 0 <= n && #[trigger] global_index(slot, n, threads) == g implies slot
        == g % threads && n == g / threads by {
        let (q, r) = (g / threads, g % threads);
        assert(n == q && slot == r) by (nonlinear_arith)
            requires
                slot + n * threads == q * threads + r,
                0 <= slot < threads,
                0 <= r < threads,
        ;
    }
}

/// Due times never decrease with the global index, and a second holds exactly
/// `rate` sends: the offered rate does not drift.
pub proof fn law_schedule_keeps_its_rate(g: int, h: int, rate: int)
    requires
        0 <= g <= h,
        rate > 0,
    ensures
        due_us(g, rate) <= due_us(h, rate),
        due_us(g + rate, rate) == due_us(g, rate) + 1_000_000,
{
    assert((g * 1_000_000) / rate <= (h * 1_000_000) / rate) by {
        vstd::arithmetic::div_mod::lemma_div_is_ordered(g * 1_000_000, h * 1_000_000, rate);
    }
    assert((g + rate) * 1_000_000 == g * 1_000_000 + rate * 1_000_000);
    vstd::arithmetic::div_mod::lemma_hoist_over_denominator(g * 1_000_000, 1_000_000, rate as nat);
    assert(rate * 1_000_000 == 1_000_000 * rate);
}

/// Round-robin is even: of any `partitions` consecutive batches, exactly one goes to
/// each partition.
pub proof fn law_round_robin_is_even(b: int, partitions: int, p: int)
    requires
        0 <= b,
        0 <= p < partitions,
    ensures
        exists|k: int| b <= k < b + partitions && #[trigger] (k % partitions) == p,
        forall|k: int, m: int|
            b <= k < b + partitions && b <= m < b + partitions && #[trigger] (k % partitions)
                == #[trigger] (m % partitions) ==> k == m,
{
    let r = b % partitions;
    vstd::arithmetic::div_mod::lemma_fundamental_div_mod(b, partitions);
    vstd::arithmetic::div_mod::lemma_mod_bound(b, partitions);
    let q = b / partitions;
    let k = if p >= r {
        b + (p - r)
    } else {
        b + (partitions - r) + p
    };
    if p >= r {
        assert(k == q * partitions + p) by (nonlinear_arith)
            requires
                b == partitions * q + r,
                k == b + (p - r),
        ;
        vstd::arithmetic::div_mod::lemma_fundamental_div_mod_converse(k, partitions, q, p);
    } else {
        assert(k == (q + 1) * partitions + p) by (nonlinear_arith)
            requires
                b == partitions * q + r,
                k == b + (partitions - r) + p,
        ;
        vstd::arithmetic::div_mod::lemma_fundamental_div_mod_converse(k, partitions, q + 1, p);
    }
    assert(k % partitions == p);
    assert forall|k: int, m: int|
        b <= k < b + partitions && b <= m < b + partitions && #[trigger] (k % partitions)
            == #[trigger] (m % partitions) implies k == m by {
        vstd::arithmetic::div_mod::lemma_fundamental_div_mod(k, partitions);
        vstd::arithmetic::div_mod::lemma_fundamental_div_mod(m, partitions);
        let (x, y) = (k / partitions, m / partitions);
        assert(k - m == partitions * (x - y)) by (nonlinear_arith)
            requires
                k == partitions * x + k % partitions,
                m == partitions * y + m % partitions,
                k % partitions == m % partitions,
        ;
        assert(k == m) by (nonlinear_arith)
            requires
                -partitions < k - m < partitions,
                k - m == partitions * (x - y),
        ;
    }
}

/// The lag of several threads is the largest of theirs: none is larger, and one has it.
pub proof fn law_worst_lag_is_the_largest(parts: Seq<LoadTally>, n: nat)
    requires
        0 < n <= parts.len(),
    ensures
        forall|i: int| 0 <= i < n ==> (#[trigger] parts[i]).max_lag_us <= worst_lag(parts, n),
        exists|i: int| 0 <= i < n && (#[trigger] parts[i]).max_lag_us == worst_lag(parts, n),
    decreases n,
{
    if n == 1 {
        assert(worst_lag(parts, 0) == 0);
        assert(parts[0].max_lag_us == worst_lag(parts, n));
    } else {
        let m = (n - 1) as nat;
        law_worst_lag_is_the_largest(parts, m);
        let i = choose|i: int| 0 <= i < m && (#[trigger] parts[i]).max_lag_us == worst_lag(parts, m);
        assert(parts[i].max_lag_us == worst_lag(parts, n) || parts[n - 1].max_lag_us == worst_lag(
            parts,
            n,
        ));
    }
}

/// What several threads offered is what all but the last offered, and the last: sends,
/// deliveries and failures each add to their own count.
pub proof fn law_tallies_add(parts: Seq<LoadTally>, p: LoadTally)
    ensures
        ({
            let n = parts.len();
            let all = parts.push(p);
            &&& sent_sum(all, n + 1) == sent_sum(parts, n) + p.sent
            &&& delivered_sum(all, n + 1) == delivered_sum(parts, n) + p.delivered
            &&& failed_sum(all, n + 1) == failed_sum(parts, n) + p.failed
            &&& sent_sum(parts, 0) == 0 && delivered_sum(parts, 0) == 0 && failed_sum(parts, 0) == 0
        }),
{
    lemma_tally_prefix(parts, parts.push(p), parts.len());
}

proof fn lemma_tally_prefix(a: Seq<LoadTally>, b: Seq<LoadTally>, n: nat)
    requires
        n <= a.len() <= b.len(),
        forall|i: int| 0 <= i < n ==> a[i] == b[i],
    ensures
        sent_sum(a, n) == sent_sum(b, n),
        delivered_sum(a, n) == delivered_sum(b, n),
        failed_sum(a, n) == failed_sum(b, n),
    decreases n,
{
    if n > 0 {
        lemma_tally_prefix(a, b, (n - 1) as nat);
    }
}

/// A send is due at the whole microsecond that the rate gives its index: not before, and
/// less than one after. The first is due at the origin.
pub proof fn law_send_is_due_by_the_rate(g: int, rate: int)
    requires
        g >= 0,
        rate > 0,
    ensures
        due_us(g, rate) * rate <= g * 1_000_000 < (due_us(g, rate) + 1) * rate,
        due_us(0, rate) == 0,
{
    let n = g * 1_000_000;
    vstd::arithmetic::div_mod::lemma_fundamental_div_mod(n, rate);
    vstd::arithmetic::div_mod::lemma_mod_bound(n, rate);
    assert(rate * (n / rate) == (n / rate) * rate) by (nonlinear_arith);
    assert((n / rate + 1) * rate == (n / rate) * rate + rate) by (nonlinear_arith);
    assert(0int / rate == 0) by (nonlinear_arith)
        requires
            rate > 0,
    ;
}

/// A topic holds what lies between the watermarks of its partitions: a further partition
/// adds its own depth, and nothing where its watermarks are unknown or crossed.
pub proof fn law_depth_is_between_the_watermarks(
    marks: Seq<Option<(i64, i64)>>,
    low: i64,
    high: i64,
)
    ensures
        ({
            let n = marks.len();
            let known = marks.push(Some((low, high)));
            &&& low <= high ==> depth_of(known, n + 1) == depth_of(marks, n) + (high - low)
            &&& low > high ==> depth_of(known, n + 1) == depth_of(marks, n)
            &&& depth_of(marks.push(None), n + 1) == depth_of(marks, n)
            &&& depth_of(marks, 0) == 0
        }),
{
    let n = marks.len();
    lemma_depth_prefix(marks, marks.push(Some((low, high))), n);
    lemma_depth_prefix(marks, marks.push(None), n);
}

proof fn lemma_depth_prefix(a: Seq<Option<(i64, i64)>>, b: Seq<Option<(i64, i64)>>, n: nat)
    requires
        n <= a.len() <= b.len(),
        forall|i: int| 0 <= i < n ==> a[i] == b[i],
    ensures
        depth_of(a, n) == depth_of(b, n),
    decreases n,
{
    if n > 0 {
        lemma_depth_prefix(a, b, (n - 1) as nat);
    }
}

/// A message is keyed by the sensor of its batch, one of 1024.
pub proof fn law_message_is_keyed_by_its_sensor(m: Message, schema_id: u32, b: int, ts: i64)
    requires
        0 <= b,
        is_message(m, schema_id, b, ts),
    ensures
        m.key@ == "sensor-"@ + decimal((b % 1024) as nat),
{
}

/// A refusal says first what the topic holds and then what the run wants.
pub proof fn law_refusal_tells_both_depths(topic: Seq<char>, depth: u64, batches: u64)
    ensures
        begins(
            partial_refusal(topic, depth, batches),
            "topic "@ + topic + " holds "@ + decimal(depth as nat)
                + " messages but the run wants "@ + decimal(batches as nat),
        ),
{
    let head = "topic "@ + topic + " holds "@ + decimal(depth as nat)
        + " messages but the run wants "@ + decimal(batches as nat);
    assert(partial_refusal(topic, depth, batches).take(head.len() as int) =~= head);
}

} // verus!
