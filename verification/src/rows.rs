//! The rows of the two target tables, and the flatten that makes them from a
//! batch: once from the typed batch, once from the decoded value.
use vstd::pervasive::unreached;
use vstd::prelude::*;
use crate::avro::{AvroValue, Datum};
use crate::corpus::{
    batch_at, batch_datum, batch_fits, batch_total, event_at, event_datum, events_datum, keeps,
    nullable_double, nullable_text, opt_text, quality_at, region_column, scaled, tags_datum,
    unit_text, upper_text, value_at, BatchView, Event, EventView, Measure, SensorBatch, Tier,
};
use crate::doubles::{below, is_below};
use crate::text::{chars_of, same, texts};

verus! {

/// A row of `sensor_events`, in column order.
#[derive(Debug)]
pub struct RowA {
    pub batch_id: u64,
    /// Event position within the batch.
    pub event_seq: u16,
    pub sensor: String,
    /// Region, with the Avro null coalesced to the empty text.
    pub region: String,
    pub name: String,
    pub unit: String,
    pub value: i64,
    /// A double, by its bits.
    pub quality: Option<u64>,
    pub tags: Vec<String>,
    /// Event timestamp, epoch milliseconds.
    pub batch_ts: i64,
    /// The producer's intended send time, epoch microseconds.
    pub send_ts: i64,
}

/// A row of `sensor_events_t`, in column order.
#[derive(Debug)]
pub struct RowB {
    pub batch_id: u64,
    /// Event position within the batch.
    pub event_seq: u16,
    pub sensor: String,
    /// Region, with the Avro null coalesced to the empty text.
    pub region: String,
    /// The name in ASCII upper case.
    pub name_upper: String,
    pub unit: String,
    pub value: i64,
    pub value_scaled: i64,
    /// A double, by its bits.
    pub quality: Option<u64>,
    pub tags: Vec<String>,
    /// Event timestamp, epoch milliseconds.
    pub batch_ts: i64,
    /// The producer's intended send time, epoch microseconds.
    pub send_ts: i64,
}

/// What a [`RowA`] holds.
pub struct RowAView {
    pub batch_id: u64,
    pub event_seq: u16,
    pub sensor: Seq<char>,
    pub region: Seq<char>,
    pub name: Seq<char>,
    pub unit: Seq<char>,
    pub value: i64,
    pub quality: Option<u64>,
    pub tags: Seq<Seq<char>>,
    pub batch_ts: i64,
    pub send_ts: i64,
}

/// What a [`RowB`] holds.
pub struct RowBView {
    pub batch_id: u64,
    pub event_seq: u16,
    pub sensor: Seq<char>,
    pub region: Seq<char>,
    pub name_upper: Seq<char>,
    pub unit: Seq<char>,
    pub value: i64,
    pub value_scaled: i64,
    pub quality: Option<u64>,
    pub tags: Seq<Seq<char>>,
    pub batch_ts: i64,
    pub send_ts: i64,
}

impl RowA {
    pub open spec fn view(&self) -> RowAView {
        RowAView {
            batch_id: self.batch_id,
            event_seq: self.event_seq,
            sensor: self.sensor@,
            region: self.region@,
            name: self.name@,
            unit: self.unit@,
            value: self.value,
            quality: self.quality,
            tags: texts(self.tags@),
            batch_ts: self.batch_ts,
            send_ts: self.send_ts,
        }
    }
}

impl RowB {
    pub open spec fn view(&self) -> RowBView {
        RowBView {
            batch_id: self.batch_id,
            event_seq: self.event_seq,
            sensor: self.sensor@,
            region: self.region@,
            name_upper: self.name_upper@,
            unit: self.unit@,
            value: self.value,
            value_scaled: self.value_scaled,
            quality: self.quality,
            tags: texts(self.tags@),
            batch_ts: self.batch_ts,
            send_ts: self.send_ts,
        }
    }
}

pub open spec fn views_a(rows: Seq<RowA>) -> Seq<RowAView> {
    rows.map_values(|r: RowA| r@)
}

pub open spec fn views_b(rows: Seq<RowB>) -> Seq<RowBView> {
    rows.map_values(|r: RowB| r@)
}

// ---------------------------------------------------------------------------
// The transform
// ---------------------------------------------------------------------------

/// The `unit` that tier B drops, stated here a second time: a filter taken from the
/// module that computes the expectation could never disagree with it.
pub const DROP_UNIT: &'static str = "drop";

/// Tier B keeps a present `quality` at or above this, the bits of 0.2. Stated a second
/// time for the same reason.
pub const QUALITY_FLOOR: u64 = 0x3fc9_9999_9999_999a;

/// Tier B passes an event on: its unit is not the dropped one, and its quality, if it
/// has one, does not lie below the floor.
pub open spec fn passes(unit: Seq<char>, quality: Option<u64>) -> bool {
    unit != DROP_UNIT@ && match quality {
        Some(q) => !is_below(q, QUALITY_FLOOR),
        None => true,
    }
}

/// A text with each of `a` to `z` in upper case.
pub open spec fn folded(s: Seq<char>) -> Seq<char> {
    s.map_values(
        |c: char|
            if 'a' <= c && c <= 'z' {
                ((c as u32 - 32) as u8) as char
            } else {
                c
            },
    )
}

/// A thousand times `value` over one more than the position, rounded towards zero.
pub open spec fn scaled_value(value: int, seq: int) -> int {
    if value < 0 {
        -(-value * 1000 / (seq + 1))
    } else {
        value * 1000 / (seq + 1)
    }
}

fn kept(unit: &str, quality: Option<u64>) -> (r: bool)
    ensures
        r == passes(unit@, quality),
{
    !same(unit, DROP_UNIT) && match quality {
        Some(q) => !below(q, QUALITY_FLOOR),
        None => true,
    }
}

fn ascii_upper(s: &str) -> (r: String)
    ensures
        r@ == folded(s@),
{
    let chars = chars_of(s);
    let mut out = String::new();
    let mut i: usize = 0;
    proof {
        assert(out@ =~= folded(s@.take(0)));
    }
    while i < chars.len()
        invariant
            chars@ == s@,
            i <= chars@.len(),
            out@ == folded(s@.take(i as int)),
        decreases chars@.len() - i,
    {
        if 'a' <= chars[i] && chars[i] <= 'z' {
            out.push(((chars[i] as u32 - 32) as u8) as char);
        } else {
            out.push(chars[i]);
        }
        i += 1;
        proof {
            assert(out@ =~= folded(s@.take(i as int)));
        }
    }
    proof {
        assert(s@.take(s@.len() as int) =~= s@);
    }
    out
}

fn value_scaled(value: i64, seq: u32) -> (r: i64)
    requires
        i64::MIN < value * 1000 <= i64::MAX,
        seq < u32::MAX,
    ensures
        r == scaled_value(value as int, seq as int),
{
    let d: i64 = seq as i64 + 1;
    let n: i64 = if value < 0 {
        -value * 1000
    } else {
        value * 1000
    };
    assert(0 <= n as int / d as int <= n) by (nonlinear_arith)
        requires
            n >= 0,
            d >= 1,
    ;
    if value < 0 {
        -(n / d)
    } else {
        n / d
    }
}

// ---------------------------------------------------------------------------
// From the typed batch
// ---------------------------------------------------------------------------

/// What every row of a batch shares.
pub struct Head {
    pub batch_id: u64,
    pub sensor: Seq<char>,
    pub region: Seq<char>,
    pub batch_ts: i64,
    pub send_ts: i64,
}

pub open spec fn head_of(b: BatchView) -> Head {
    Head {
        batch_id: b.batch_id as u64,
        sensor: b.sensor,
        region: region_column(b.region),
        batch_ts: b.batch_ts_ms,
        send_ts: b.send_ts_us,
    }
}

/// The tier-A row of an event.
pub open spec fn row_a(h: Head, e: EventView) -> RowAView {
    RowAView {
        batch_id: h.batch_id,
        event_seq: e.seq as u16,
        sensor: h.sensor,
        region: h.region,
        name: e.name,
        unit: e.unit,
        value: e.value,
        quality: e.quality,
        tags: e.tags,
        batch_ts: h.batch_ts,
        send_ts: h.send_ts,
    }
}

/// The tier-B row of an event that tier B keeps.
pub open spec fn row_b(h: Head, e: EventView) -> RowBView {
    RowBView {
        batch_id: h.batch_id,
        event_seq: e.seq as u16,
        sensor: h.sensor,
        region: h.region,
        name_upper: folded(e.name),
        unit: e.unit,
        value: e.value,
        value_scaled: scaled_value(e.value as int, e.seq as int) as i64,
        quality: e.quality,
        tags: e.tags,
        batch_ts: h.batch_ts,
        send_ts: h.send_ts,
    }
}

/// Tier A: one row for each event, in order.
pub open spec fn rows_a(h: Head, events: Seq<EventView>) -> Seq<RowAView> {
    Seq::new(events.len(), |i: int| row_a(h, events[i]))
}

/// Tier B: one row for each of the first `n` events that the filter keeps, in order.
pub open spec fn rows_b(h: Head, events: Seq<EventView>, n: nat) -> Seq<RowBView>
    decreases n,
{
    if n == 0 {
        seq![]
    } else if passes(events[n - 1].unit, events[n - 1].quality) {
        rows_b(h, events, (n - 1) as nat).push(row_b(h, events[n - 1]))
    } else {
        rows_b(h, events, (n - 1) as nat)
    }
}

/// The position fits the `event_seq` column.
pub open spec fn seq_fits(e: EventView) -> bool {
    0 <= e.seq <= u16::MAX
}

/// The scaled value stays within 64 bits.
pub open spec fn scale_fits(e: EventView) -> bool {
    i64::MIN < e.value * 1000 <= i64::MAX
}

fn clone_texts(v: &Vec<String>) -> (r: Vec<String>)
    ensures
        texts(r@) == texts(v@),
{
    let mut out: Vec<String> = Vec::new();
    let mut i: usize = 0;
    while i < v.len()
        invariant
            i <= v@.len(),
            out@.len() == i,
            forall|k: int| 0 <= k < i ==> (#[trigger] out@[k])@ == v@[k]@,
        decreases v@.len() - i,
    {
        out.push(v[i].clone());
        i += 1;
    }
    proof {
        assert(texts(out@) =~= texts(v@));
    }
    out
}

fn region_or_empty(region: &Option<String>) -> (r: String)
    ensures
        r@ == region_column(opt_text(*region)),
{
    match region {
        Some(s) => s.clone(),
        None => String::new(),
    }
}

/// Flattens a typed batch into tier-A rows.
pub fn flatten_typed_a(b: &SensorBatch) -> (r: Vec<RowA>)
    requires
        b.batch_id >= 0,
        forall|i: int| 0 <= i < b@.events.len() ==> seq_fits(#[trigger] b@.events[i]),
    ensures
        views_a(r@) == rows_a(head_of(b@), b@.events),
        r@.len() == b.events@.len(),
        forall|i: int|
            #![trigger r@[i]]
            0 <= i < r@.len() ==> {
                &&& r@[i].batch_id == b.batch_id
                &&& r@[i].event_seq == b.events@[i].seq
                &&& r@[i].sensor@ == b.sensor@
                &&& b.region is Some ==> r@[i].region@ == b.region->Some_0@
                &&& b.region is None ==> r@[i].region@.len() == 0
                &&& r@[i].name@ == b.events@[i].name@
                &&& r@[i].unit@ == b.events@[i].unit@
                &&& r@[i].value == b.events@[i].value
                &&& r@[i].quality == b.events@[i].quality
                &&& texts(r@[i].tags@) == texts(b.events@[i].tags@)
                &&& r@[i].batch_ts == b.batch_ts_ms
                &&& r@[i].send_ts == b.send_ts_us
            },
{
    let region = region_or_empty(&b.region);
    let mut out: Vec<RowA> = Vec::new();
    let mut i: usize = 0;
    while i < b.events.len()
        invariant
            b.batch_id >= 0,
            region@ == region_column(b@.region),
            forall|i: int| 0 <= i < b@.events.len() ==> seq_fits(#[trigger] b@.events[i]),
            i <= b.events@.len(),
            out@.len() == i,
            forall|k: int|
                0 <= k < i ==> (#[trigger] out@[k])@ == row_a(head_of(b@), b@.events[k]),
        decreases b.events@.len() - i,
    {
        let e = &b.events[i];
        proof {
            assert(b@.events[i as int] == e@);
            assert(seq_fits(b@.events[i as int]));
        }
        out.push(
            RowA {
                batch_id: b.batch_id as u64,
                event_seq: e.seq as u16,
                sensor: b.sensor.clone(),
                region: region.clone(),
                name: e.name.clone(),
                unit: e.unit.clone(),
                value: e.value,
                quality: e.quality,
                tags: clone_texts(&e.tags),
                batch_ts: b.batch_ts_ms,
                send_ts: b.send_ts_us,
            },
        );
        i += 1;
    }
    proof {
        assert(views_a(out@) =~= rows_a(head_of(b@), b@.events));
        assert forall|i: int| 0 <= i < out@.len() implies (#[trigger] out@[i])@ == row_a(
            head_of(b@),
            b.events@[i]@,
        ) && seq_fits(b.events@[i]@) by {
            assert(b@.events[i] == b.events@[i]@);
        }
    }
    out
}

/// Flattens a typed batch into tier-B rows: filtered, with the derived columns.
pub fn flatten_typed_b(b: &SensorBatch) -> (r: Vec<RowB>)
    requires
        b.batch_id >= 0,
        forall|i: int|
            0 <= i < b@.events.len() && passes(
                (#[trigger] b@.events[i]).unit,
                b@.events[i].quality,
            ) ==> seq_fits(b@.events[i]) && scale_fits(b@.events[i]),
    ensures
        views_b(r@) == rows_b(head_of(b@), b@.events, b@.events.len()),
        r@.len() == passed_before(b@.events, b@.events.len() as int),
        forall|i: int|
            #![trigger b.events@[i]]
            0 <= i < b.events@.len() && b.events@[i].unit@ != "drop"@ && !(b.events@[i].quality
                is Some && is_below(
                b.events@[i].quality->Some_0,
                0x3fc9_9999_9999_999a,
            )) ==> {
                let x = r@[passed_before(b@.events, i) as int];
                &&& x.batch_id == b.batch_id
                &&& x.event_seq == b.events@[i].seq
                &&& x.sensor@ == b.sensor@
                &&& b.region is Some ==> x.region@ == b.region->Some_0@
                &&& b.region is None ==> x.region@.len() == 0
                &&& is_ascii_upper(x.name_upper@, b.events@[i].name@)
                &&& x.unit@ == b.events@[i].unit@
                &&& x.value == b.events@[i].value
                &&& is_scaled(x.value_scaled as int, x.value as int, x.event_seq as int)
                &&& x.quality == b.events@[i].quality
                &&& texts(x.tags@) == texts(b.events@[i].tags@)
                &&& x.batch_ts == b.batch_ts_ms
                &&& x.send_ts == b.send_ts_us
            },
{
    let region = region_or_empty(&b.region);
    let mut out: Vec<RowB> = Vec::new();
    let mut i: usize = 0;
    proof {
        assert(views_b(out@) =~= rows_b(head_of(b@), b@.events, 0));
    }
    while i < b.events.len()
        invariant
            b.batch_id >= 0,
            region@ == region_column(b@.region),
            forall|i: int|
                0 <= i < b@.events.len() && passes(
                    (#[trigger] b@.events[i]).unit,
                    b@.events[i].quality,
                ) ==> seq_fits(b@.events[i]) && scale_fits(b@.events[i]),
            i <= b.events@.len(),
            views_b(out@) == rows_b(head_of(b@), b@.events, i as nat),
        decreases b.events@.len() - i,
    {
        let e = &b.events[i];
        let ghost sofar = views_b(out@);
        proof {
            assert(b@.events[i as int] == e@);
        }
        if kept(e.unit.as_str(), e.quality) {
            out.push(
                RowB {
                    batch_id: b.batch_id as u64,
                    event_seq: e.seq as u16,
                    sensor: b.sensor.clone(),
                    region: region.clone(),
                    name_upper: ascii_upper(e.name.as_str()),
                    unit: e.unit.clone(),
                    value: e.value,
                    value_scaled: value_scaled(e.value, e.seq as u32),
                    quality: e.quality,
                    tags: clone_texts(&e.tags),
                    batch_ts: b.batch_ts_ms,
                    send_ts: b.send_ts_us,
                },
            );
            proof {
                assert(views_b(out@) =~= sofar.push(row_b(head_of(b@), e@)));
            }
        }
        i += 1;
    }
    proof {
        let n = b@.events.len();
        lemma_rows_b_len(head_of(b@), b@.events, n);
        assert(views_b(out@).len() == out@.len());
        assert forall|i: int|
            #![trigger b.events@[i]]
            0 <= i < b.events@.len() && passes(b.events@[i].unit@, b.events@[i].quality) implies ({
            let k = passed_before(b@.events, i) as int;
            k < out@.len() && out@[k]@ == row_b(head_of(b@), b.events@[i]@) && seq_fits(
                b.events@[i]@,
            ) && scale_fits(b.events@[i]@)
        }) by {
            assert(b@.events[i] == b.events@[i]@);
            lemma_row_b_at(head_of(b@), b@.events, n, i);
            let k = passed_before(b@.events, i) as int;
            assert(views_b(out@)[k] == out@[k]@);
            law_derived_columns(b.events@[i]@);
        }
        assert forall|i: int|
            #![trigger b.events@[i]]
            0 <= i < b.events@.len() && passes(b.events@[i].unit@, b.events@[i].quality) implies ({
            let x = out@[passed_before(b@.events, i) as int];
            is_ascii_upper(x.name_upper@, b.events@[i].name@) && is_scaled(
                x.value_scaled as int,
                x.value as int,
                x.event_seq as int,
            )
        }) by {
            law_derived_columns(b.events@[i]@);
        }
    }
    out
}

/// How many of the first `n` events tier B passes on.
pub open spec fn passed_before(events: Seq<EventView>, n: int) -> nat
    decreases n,
{
    if n <= 0 {
        0
    } else {
        passed_before(events, n - 1) + if events[n - 1].unit == "drop"@ || (
        events[n - 1].quality is Some && is_below(
            events[n - 1].quality->Some_0,
            0x3fc9_9999_9999_999a,
        )) {
            0nat
        } else {
            1
        }
    }
}

/// `u` is `s` with `a` to `z` in upper case and every other character as it was.
pub open spec fn is_ascii_upper(u: Seq<char>, s: Seq<char>) -> bool {
    u.len() == s.len() && forall|i: int|
        0 <= i < s.len() ==> if 'a' <= s[i] <= 'z' {
            (#[trigger] u[i]) as u32 + 32 == s[i] as u32
        } else {
            u[i] == s[i]
        }
}

/// `x` is a thousand times `value` divided by `seq + 1`, rounded towards zero: it lies
/// within one of the quotient, on the side of zero.
pub open spec fn is_scaled(x: int, value: int, seq: int) -> bool {
    if value >= 0 {
        x * (seq + 1) <= value * 1000 < (x + 1) * (seq + 1)
    } else {
        (x - 1) * (seq + 1) < value * 1000 <= x * (seq + 1)
    }
}

proof fn lemma_rows_b_len(h: Head, events: Seq<EventView>, n: nat)
    requires
        n <= events.len(),
    ensures
        rows_b(h, events, n).len() == passed_before(events, n as int),
    decreases n,
{
    if n > 0 {
        lemma_rows_b_len(h, events, (n - 1) as nat);
    }
}

proof fn lemma_row_b_at(h: Head, events: Seq<EventView>, n: nat, i: int)
    requires
        0 <= i < n <= events.len(),
        passes(events[i].unit, events[i].quality),
    ensures
        passed_before(events, i) < rows_b(h, events, n).len(),
        rows_b(h, events, n)[passed_before(events, i) as int] == row_b(h, events[i]),
    decreases n,
{
    lemma_rows_b_len(h, events, (n - 1) as nat);
    if i < n - 1 {
        lemma_row_b_at(h, events, (n - 1) as nat, i);
    }
}

// ---------------------------------------------------------------------------
// From the decoded value
// ---------------------------------------------------------------------------

pub open spec fn read_long(d: Datum) -> Option<int> {
    match d {
        Datum::Long(n) => Some(n as int),
        Datum::Int(n) => Some(n as int),
        _ => None,
    }
}

pub open spec fn read_text(d: Datum) -> Option<Seq<char>> {
    match d {
        Datum::Text(s) => Some(s),
        _ => None,
    }
}

/// The present branch of a `["null", T]` union.
pub open spec fn present(d: Datum) -> Option<Datum> {
    match d {
        Datum::Union(_, inner) => match *inner {
            Datum::Null => None,
            other => Some(other),
        },
        Datum::Null => None,
        other => Some(other),
    }
}

pub open spec fn read_region(d: Datum) -> Option<Seq<char>> {
    match present(d) {
        None => Some(Seq::empty()),
        Some(x) => read_text(x),
    }
}

pub open spec fn read_quality(d: Datum) -> Option<Option<u64>> {
    match present(d) {
        None => Some(None),
        Some(Datum::Double(bits)) => Some(Some(bits)),
        Some(_) => None,
    }
}

pub open spec fn read_tags(d: Datum) -> Option<Seq<Seq<char>>> {
    match d {
        Datum::Array(items) => if forall|i: int| 0 <= i < items.len() ==> (#[trigger] items[i])
            is Text {
            Some(Seq::new(items.len(), |i: int| items[i]->Text_0))
        } else {
            None
        },
        _ => None,
    }
}

/// The shared columns and the events of a decoded batch, by position.
pub open spec fn read_head(d: Datum) -> Option<(Head, Seq<Datum>)> {
    match d {
        Datum::Record(f) => if f.len() < 6 {
            None
        } else {
            match (
                read_long(f[0].1),
                read_text(f[1].1),
                read_region(f[2].1),
                read_long(f[3].1),
                read_long(f[4].1),
                f[5].1,
            ) {
                (
                    Some(id),
                    Some(sensor),
                    Some(region),
                    Some(batch_ts),
                    Some(send_ts),
                    Datum::Array(events),
                ) => if id < 0 {
                    None
                } else {
                    Some(
                        (
                            Head {
                                batch_id: id as u64,
                                sensor,
                                region,
                                batch_ts: batch_ts as i64,
                                send_ts: send_ts as i64,
                            },
                            events,
                        ),
                    )
                },
                _ => None,
            }
        },
        _ => None,
    }
}

/// The tier-A row of a decoded event, by position; `None` where it has none.
pub open spec fn value_row_a(h: Head, d: Datum) -> Option<RowAView> {
    match d {
        Datum::Record(f) => if f.len() < 6 {
            None
        } else {
            match (
                read_long(f[0].1),
                read_text(f[1].1),
                read_text(f[2].1),
                read_long(f[3].1),
                read_quality(f[4].1),
                read_tags(f[5].1),
            ) {
                (
                    Some(seq),
                    Some(name),
                    Some(unit),
                    Some(value),
                    Some(quality),
                    Some(tags),
                ) => if seq < 0 || seq > u16::MAX {
                    None
                } else {
                    Some(
                        RowAView {
                            batch_id: h.batch_id,
                            event_seq: seq as u16,
                            sensor: h.sensor,
                            region: h.region,
                            name,
                            unit,
                            value: value as i64,
                            quality,
                            tags,
                            batch_ts: h.batch_ts,
                            send_ts: h.send_ts,
                        },
                    )
                },
                _ => None,
            }
        },
        _ => None,
    }
}

/// What tier B makes of a decoded event: nothing (`Some(None)`), a row, or `None`
/// where what the filter or the row needs cannot be read.
pub open spec fn value_row_b(h: Head, d: Datum) -> Option<Option<RowBView>> {
    match d {
        Datum::Record(f) => if f.len() < 3 || read_text(f[2].1) is None {
            None
        } else if read_text(f[2].1)->Some_0 == DROP_UNIT@ {
            Some(None)
        } else if f.len() < 5 || read_quality(f[4].1) is None {
            None
        } else if !passes(read_text(f[2].1)->Some_0, read_quality(f[4].1)->Some_0) {
            Some(None)
        } else if f.len() < 6 {
            None
        } else {
            match (
                read_long(f[0].1),
                read_text(f[1].1),
                read_long(f[3].1),
                read_tags(f[5].1),
            ) {
                (Some(seq), Some(name), Some(value), Some(tags)) => if seq < 0 || seq > u16::MAX
                    || value * 1000 > i64::MAX || value * 1000 <= i64::MIN {
                    None
                } else {
                    Some(
                        Some(
                            RowBView {
                                batch_id: h.batch_id,
                                event_seq: seq as u16,
                                sensor: h.sensor,
                                region: h.region,
                                name_upper: folded(name),
                                unit: read_text(f[2].1)->Some_0,
                                value: value as i64,
                                value_scaled: scaled_value(value, seq) as i64,
                                quality: read_quality(f[4].1)->Some_0,
                                tags,
                                batch_ts: h.batch_ts,
                                send_ts: h.send_ts,
                            },
                        ),
                    )
                },
                _ => None,
            }
        },
        _ => None,
    }
}

pub open spec fn value_rows_a(h: Head, events: Seq<Datum>) -> Seq<RowAView> {
    Seq::new(events.len(), |i: int| value_row_a(h, events[i])->Some_0)
}

/// The tier-B rows of the first `n` decoded events.
pub open spec fn value_rows_b(h: Head, events: Seq<Datum>, n: nat) -> Seq<RowBView>
    decreases n,
{
    if n == 0 {
        seq![]
    } else {
        match value_row_b(h, events[n - 1]) {
            Some(Some(row)) => value_rows_b(h, events, (n - 1) as nat).push(row),
            _ => value_rows_b(h, events, (n - 1) as nat),
        }
    }
}

/// Tier A can be read off the value.
pub open spec fn is_readable_a(d: Datum) -> bool {
    &&& read_head(d) is Some
    &&& forall|i: int|
        #![trigger read_head(d)->Some_0.1[i]]
        0 <= i < read_head(d)->Some_0.1.len() ==> value_row_a(
            read_head(d)->Some_0.0,
            read_head(d)->Some_0.1[i],
        ) is Some
}

/// Tier B can be read off the value.
pub open spec fn is_readable_b(d: Datum) -> bool {
    &&& read_head(d) is Some
    &&& forall|i: int|
        #![trigger read_head(d)->Some_0.1[i]]
        0 <= i < read_head(d)->Some_0.1.len() ==> value_row_b(
            read_head(d)->Some_0.0,
            read_head(d)->Some_0.1[i],
        ) is Some
}

proof fn lemma_field_view(v: AvroValue, i: int)
    requires
        v is Record,
        0 <= i < v->Record_0@.len(),
    ensures
        v@ is Record,
        v@->Record_0.len() == v->Record_0@.len(),
        (v@->Record_0)[i].1 == v->Record_0@[i].1@,
{
}

fn as_record(v: &AvroValue) -> (r: &Vec<(String, AvroValue)>)
    requires
        v@ is Record,
    ensures
        *v is Record,
        v->Record_0 == *r,
{
    match v {
        AvroValue::Record(f) => f,
        _ => unreached(),
    }
}

fn as_array(v: &AvroValue) -> (r: &Vec<AvroValue>)
    requires
        v@ is Array,
    ensures
        *v is Array,
        v->Array_0 == *r,
        r@.len() == v@->Array_0.len(),
        forall|i: int| 0 <= i < r@.len() ==> (#[trigger] r@[i])@ == (v@->Array_0)[i],
{
    match v {
        AvroValue::Array(items) => items,
        _ => unreached(),
    }
}

fn as_long(v: &AvroValue) -> (r: i64)
    requires
        read_long(v@) is Some,
    ensures
        r == read_long(v@)->Some_0,
{
    match v {
        AvroValue::Long(n) => *n,
        AvroValue::Int(n) => *n as i64,
        _ => 0,
    }
}

fn as_str(v: &AvroValue) -> (r: &str)
    requires
        v@ is Text,
    ensures
        v@ == Datum::Text(r@),
{
    match v {
        AvroValue::Text(s) => s.as_str(),
        _ => "",
    }
}

/// The present branch of a `["null", T]` union, or `None`.
fn as_union(v: &AvroValue) -> (r: Option<&AvroValue>)
    ensures
        match r {
            Some(x) => present(v@) == Some(x@),
            None => present(v@) is None,
        },
{
    proof {
        reveal_with_fuel(AvroValue::view, 3);
    }
    match v {
        AvroValue::Union(_, inner) => match &**inner {
            AvroValue::Null => None,
            _ => Some(&**inner),
        },
        AvroValue::Null => None,
        _ => Some(v),
    }
}

fn as_tags(v: &AvroValue) -> (r: Vec<String>)
    requires
        read_tags(v@) is Some,
    ensures
        texts(r@) == read_tags(v@)->Some_0,
{
    let items = as_array(v);
    let mut out: Vec<String> = Vec::new();
    let mut i: usize = 0;
    while i < items.len()
        invariant
            read_tags(v@) is Some,
            v@ is Array,
            items@.len() == v@->Array_0.len(),
            forall|i: int| 0 <= i < items@.len() ==> (#[trigger] items@[i])@ == (v@->Array_0)[i],
            i <= items@.len(),
            out@.len() == i,
            forall|k: int| 0 <= k < i ==> Datum::Text((#[trigger] out@[k])@) == (v@->Array_0)[k],
        decreases items@.len() - i,
    {
        proof {
            assert((v@->Array_0)[i as int] is Text);
        }
        out.push(as_str(&items[i]).to_owned());
        i += 1;
    }
    proof {
        assert(texts(out@) =~= read_tags(v@)->Some_0);
    }
    out
}

fn as_region(v: &AvroValue) -> (r: String)
    requires
        read_region(v@) is Some,
    ensures
        r@ == read_region(v@)->Some_0,
{
    match as_union(v) {
        None => String::new(),
        Some(x) => as_str(x).to_owned(),
    }
}

fn as_quality(v: &AvroValue) -> (r: Option<u64>)
    requires
        read_quality(v@) is Some,
    ensures
        r == read_quality(v@)->Some_0,
{
    match as_union(v) {
        None => None,
        Some(x) => match x {
            AvroValue::Double(bits) => Some(*bits),
            _ => None,
        },
    }
}

/// Flattens a decoded batch into tier-A rows. Fields are taken by position, which
/// the decoder fixes to the schema's order.
pub fn flatten_value_a(v: &AvroValue) -> (r: Vec<RowA>)
    requires
        is_readable_a(v@),
    ensures
        views_a(r@) == value_rows_a(read_head(v@)->Some_0.0, read_head(v@)->Some_0.1),
        r@.len() == v@->Record_0[5].1->Array_0.len(),
        forall|i: int|
            #![trigger r@[i]]
            0 <= i < r@.len() ==> {
                let b = v@->Record_0;
                let e = b[5].1->Array_0[i]->Record_0;
                &&& read_long(b[0].1) == Some(r@[i].batch_id as int)
                &&& b[1].1 == Datum::Text(r@[i].sensor@)
                &&& read_region(b[2].1) == Some(r@[i].region@)
                &&& read_long(b[3].1) == Some(r@[i].batch_ts as int)
                &&& read_long(b[4].1) == Some(r@[i].send_ts as int)
                &&& read_long(e[0].1) == Some(r@[i].event_seq as int)
                &&& e[1].1 == Datum::Text(r@[i].name@)
                &&& e[2].1 == Datum::Text(r@[i].unit@)
                &&& read_long(e[3].1) == Some(r@[i].value as int)
                &&& read_quality(e[4].1) == Some(r@[i].quality)
                &&& read_tags(e[5].1) == Some(texts(r@[i].tags@))
            },
{
    let ghost h = read_head(v@)->Some_0.0;
    let ghost evs = read_head(v@)->Some_0.1;
    let rec = as_record(v);
    proof {
        lemma_field_view(*v, 0);
        lemma_field_view(*v, 1);
        lemma_field_view(*v, 2);
        lemma_field_view(*v, 3);
        lemma_field_view(*v, 4);
        lemma_field_view(*v, 5);
    }
    let batch_id: u64 = as_long(&rec[0].1) as u64;
    let sensor = as_str(&rec[1].1);
    let region = as_region(&rec[2].1);
    let batch_ts: i64 = as_long(&rec[3].1);
    let send_ts: i64 = as_long(&rec[4].1);
    let events = as_array(&rec[5].1);
    let mut out: Vec<RowA> = Vec::new();
    let mut i: usize = 0;
    while i < events.len()
        invariant
            batch_id == h.batch_id,
            sensor@ == h.sensor,
            region@ == h.region,
            batch_ts == h.batch_ts,
            send_ts == h.send_ts,
            events@.len() == evs.len(),
            forall|k: int| 0 <= k < evs.len() ==> (#[trigger] events@[k])@ == evs[k],
            forall|k: int| 0 <= k < evs.len() ==> value_row_a(h, #[trigger] evs[k]) is Some,
            i <= events@.len(),
            out@.len() == i,
            forall|k: int|
                0 <= k < i ==> value_row_a(h, evs[k]) == Some((#[trigger] out@[k])@),
        decreases events@.len() - i,
    {
        let ev = &events[i];
        proof {
            assert(ev@ == evs[i as int]);
            assert(value_row_a(h, evs[i as int]) is Some);
        }
        let e = as_record(ev);
        proof {
            lemma_field_view(*ev, 0);
            lemma_field_view(*ev, 1);
            lemma_field_view(*ev, 2);
            lemma_field_view(*ev, 3);
            lemma_field_view(*ev, 4);
            lemma_field_view(*ev, 5);
        }
        out.push(
            RowA {
                batch_id,
                event_seq: as_long(&e[0].1) as u16,
                sensor: sensor.to_owned(),
                region: region.clone(),
                name: as_str(&e[1].1).to_owned(),
                unit: as_str(&e[2].1).to_owned(),
                value: as_long(&e[3].1),
                quality: as_quality(&e[4].1),
                tags: as_tags(&e[5].1),
                batch_ts,
                send_ts,
            },
        );
        i += 1;
    }
    proof {
        assert(views_a(out@) =~= value_rows_a(h, evs));
        assert forall|i: int| 0 <= i < out@.len() implies value_row_a(h, evs[i]) == Some(
            (#[trigger] out@[i])@,
        ) by {}
    }
    out
}

/// Flattens a decoded batch into tier-B rows. Of an event that is filtered out,
/// nothing but its unit and quality is read.
pub fn flatten_value_b(v: &AvroValue) -> (r: Vec<RowB>)
    requires
        is_readable_b(v@),
    ensures
        views_b(r@) == value_rows_b(
            read_head(v@)->Some_0.0,
            read_head(v@)->Some_0.1,
            read_head(v@)->Some_0.1.len(),
        ),
{
    let ghost h = read_head(v@)->Some_0.0;
    let ghost evs = read_head(v@)->Some_0.1;
    let rec = as_record(v);
    proof {
        lemma_field_view(*v, 0);
        lemma_field_view(*v, 1);
        lemma_field_view(*v, 2);
        lemma_field_view(*v, 3);
        lemma_field_view(*v, 4);
        lemma_field_view(*v, 5);
    }
    let batch_id: u64 = as_long(&rec[0].1) as u64;
    let sensor = as_str(&rec[1].1);
    let region = as_region(&rec[2].1);
    let batch_ts: i64 = as_long(&rec[3].1);
    let send_ts: i64 = as_long(&rec[4].1);
    let events = as_array(&rec[5].1);
    let mut out: Vec<RowB> = Vec::new();
    let mut i: usize = 0;
    proof {
        assert(views_b(out@) =~= value_rows_b(h, evs, 0));
    }
    while i < events.len()
        invariant
            batch_id == h.batch_id,
            sensor@ == h.sensor,
            region@ == h.region,
            batch_ts == h.batch_ts,
            send_ts == h.send_ts,
            events@.len() == evs.len(),
            forall|k: int| 0 <= k < evs.len() ==> (#[trigger] events@[k])@ == evs[k],
            forall|k: int| 0 <= k < evs.len() ==> value_row_b(h, #[trigger] evs[k]) is Some,
            i <= events@.len(),
            views_b(out@) == value_rows_b(h, evs, i as nat),
        decreases events@.len() - i,
    {
        let ev = &events[i];
        let ghost sofar = views_b(out@);
        proof {
            assert(ev@ == evs[i as int]);
            assert(value_row_b(h, evs[i as int]) is Some);
        }
        let e = as_record(ev);
        proof {
            lemma_field_view(*ev, 2);
        }
        let unit = as_str(&e[2].1);
        if !same(unit, DROP_UNIT) {
            proof {
                lemma_field_view(*ev, 4);
            }
            let quality = as_quality(&e[4].1);
            if kept(unit, quality) {
                proof {
                    lemma_field_view(*ev, 0);
                    lemma_field_view(*ev, 1);
                    lemma_field_view(*ev, 3);
                    lemma_field_view(*ev, 5);
                }
                let seq: i64 = as_long(&e[0].1);
                let value: i64 = as_long(&e[3].1);
                out.push(
                    RowB {
                        batch_id,
                        event_seq: seq as u16,
                        sensor: sensor.to_owned(),
                        region: region.clone(),
                        name_upper: ascii_upper(as_str(&e[1].1)),
                        unit: unit.to_owned(),
                        value,
                        value_scaled: value_scaled(value, seq as u32),
                        quality,
                        tags: as_tags(&e[5].1),
                        batch_ts,
                        send_ts,
                    },
                );
                proof {
                    let row = value_row_b(h, evs[i as int])->Some_0->Some_0;
                    assert(out@.last()@ == row);
                    assert(views_b(out@) =~= sofar.push(row));
                }
            }
        }
        i += 1;
    }
    out
}

// ---------------------------------------------------------------------------
// Laws
// ---------------------------------------------------------------------------

proof fn lemma_value_event(h: Head, e: EventView)
    ensures
        seq_fits(e) ==> value_row_a(h, event_datum(e)) == Some(row_a(h, e)),
        !passes(e.unit, e.quality) ==> value_row_b(h, event_datum(e)) == Some(None::<RowBView>),
        passes(e.unit, e.quality) && seq_fits(e) && scale_fits(e) ==> value_row_b(
            h,
            event_datum(e),
        ) == Some(Some(row_b(h, e))),
{
    let f = event_datum(e)->Record_0;
    assert(f[0] == ("seq"@, Datum::Int(e.seq)));
    assert(f[1] == ("name"@, Datum::Text(e.name)));
    assert(f[2] == ("unit"@, Datum::Text(e.unit)));
    assert(f[3] == ("value"@, Datum::Long(e.value)));
    assert(f[4] == ("quality"@, nullable_double(e.quality)));
    assert(f[5] == ("tags"@, tags_datum(e.tags)));
    assert(read_quality(f[4].1) == Some(e.quality));
    let items = tags_datum(e.tags)->Array_0;
    assert(read_tags(f[5].1) is Some);
    assert(read_tags(f[5].1)->Some_0 =~= e.tags);
}

/// The value path reads the head and the events of a batch's record.
pub proof fn lemma_value_head(b: BatchView)
    requires
        b.batch_id >= 0,
    ensures
        read_head(batch_datum(b)) is Some,
        read_head(batch_datum(b))->Some_0.0 == head_of(b),
        read_head(batch_datum(b))->Some_0.1.len() == b.events.len(),
        forall|i: int|
            0 <= i < b.events.len() ==> #[trigger] read_head(batch_datum(b))->Some_0.1[i]
                == event_datum(b.events[i]),
{
    let f = batch_datum(b)->Record_0;
    assert(f[0] == ("batch_id"@, Datum::Long(b.batch_id)));
    assert(f[1] == ("sensor"@, Datum::Text(b.sensor)));
    assert(f[2] == ("region"@, nullable_text(b.region)));
    assert(f[3] == ("batch_ts_ms"@, Datum::Long(b.batch_ts_ms)));
    assert(f[4] == ("send_ts_us"@, Datum::Long(b.send_ts_us)));
    assert(f[5] == ("events"@, events_datum(b.events)));
    assert(read_region(f[2].1) == Some(region_column(b.region)));
}

/// Tier A: the typed path and the value path make the same rows of a batch.
pub proof fn law_paths_agree_a(b: BatchView)
    requires
        b.batch_id >= 0,
        forall|i: int| 0 <= i < b.events.len() ==> seq_fits(#[trigger] b.events[i]),
    ensures
        is_readable_a(batch_datum(b)),
        value_rows_a(
            read_head(batch_datum(b))->Some_0.0,
            read_head(batch_datum(b))->Some_0.1,
        ) == rows_a(head_of(b), b.events),
{
    lemma_value_head(b);
    let h = head_of(b);
    let evs = read_head(batch_datum(b))->Some_0.1;
    assert forall|i: int| 0 <= i < evs.len() implies value_row_a(h, #[trigger] evs[i]) == Some(
        row_a(h, b.events[i]),
    ) by {
        lemma_value_event(h, b.events[i]);
    }
    assert(value_rows_a(h, evs) =~= rows_a(h, b.events));
}

proof fn lemma_paths_agree_b(h: Head, events: Seq<EventView>, evs: Seq<Datum>, n: nat)
    requires
        n <= events.len(),
        evs.len() == events.len(),
        forall|i: int| 0 <= i < events.len() ==> #[trigger] evs[i] == event_datum(events[i]),
        forall|i: int|
            0 <= i < events.len() && passes((#[trigger] events[i]).unit, events[i].quality)
                ==> seq_fits(events[i]) && scale_fits(events[i]),
    ensures
        value_rows_b(h, evs, n) == rows_b(h, events, n),
    decreases n,
{
    if n > 0 {
        lemma_paths_agree_b(h, events, evs, (n - 1) as nat);
        lemma_value_event(h, events[n - 1]);
        assert(evs[n - 1] == event_datum(events[n - 1]));
    }
}

/// Tier B: the typed path and the value path make the same rows of a batch.
pub proof fn law_paths_agree_b(b: BatchView)
    requires
        b.batch_id >= 0,
        forall|i: int|
            0 <= i < b.events.len() && passes((#[trigger] b.events[i]).unit, b.events[i].quality)
                ==> seq_fits(b.events[i]) && scale_fits(b.events[i]),
    ensures
        is_readable_b(batch_datum(b)),
        value_rows_b(
            read_head(batch_datum(b))->Some_0.0,
            read_head(batch_datum(b))->Some_0.1,
            b.events.len(),
        ) == rows_b(head_of(b), b.events, b.events.len()),
{
    lemma_value_head(b);
    let h = head_of(b);
    let evs = read_head(batch_datum(b))->Some_0.1;
    assert forall|i: int| 0 <= i < evs.len() implies value_row_b(h, #[trigger] evs[i]) is Some by {
        lemma_value_event(h, b.events[i]);
    }
    lemma_paths_agree_b(h, b.events, evs, b.events.len());
}

pub open spec fn value_sum_a(rows: Seq<RowAView>, n: nat) -> int
    decreases n,
{
    if n == 0 {
        0
    } else {
        value_sum_a(rows, (n - 1) as nat) + rows[n - 1].value
    }
}

pub open spec fn value_sum_b(rows: Seq<RowBView>) -> int
    decreases rows.len(),
{
    if rows.len() == 0 {
        0
    } else {
        value_sum_b(rows.drop_last()) + rows.last().value
    }
}

pub open spec fn scaled_sum_b(rows: Seq<RowBView>) -> int
    decreases rows.len(),
{
    if rows.len() == 0 {
        0
    } else {
        scaled_sum_b(rows.drop_last()) + rows.last().value_scaled
    }
}

proof fn lemma_generated_event(b: int, ts: i64, s: int)
    requires
        batch_fits(b),
        0 <= s < 100,
    ensures
        batch_at(b, ts).events[s] == event_at(b, s),
        seq_fits(event_at(b, s)),
        scale_fits(event_at(b, s)),
        event_at(b, s).value == value_at(b, s),
        row_b(head_of(batch_at(b, ts)), event_at(b, s)).value_scaled == scaled(value_at(b, s), s),
{
    let v = value_at(b, s);
    law_transform_is_the_expected_one(seq![], None, seq![], v, s);
    assert(0 <= (v * 1000) / (s + 1) <= v * 1000) by (nonlinear_arith)
        requires
            v >= 0,
            s >= 0,
    ;
}

/// Flattening a generated batch lands, for tier A, the rows and the sum that the
/// gates expect of it.
pub proof fn law_flatten_meets_expectation_a(b: int, ts: i64, n: nat)
    requires
        batch_fits(b),
        n <= 100,
    ensures
        rows_a(head_of(batch_at(b, ts)), batch_at(b, ts).events).len() == batch_total(
            Measure::Rows,
            Tier::A,
            b,
            100,
        ),
        value_sum_a(rows_a(head_of(batch_at(b, ts)), batch_at(b, ts).events), n) == batch_total(
            Measure::Value,
            Tier::A,
            b,
            n,
        ),
    decreases n,
{
    lemma_rows_total_a(b, 100);
    if n > 0 {
        law_flatten_meets_expectation_a(b, ts, (n - 1) as nat);
        lemma_generated_event(b, ts, n - 1);
    }
}

proof fn lemma_rows_total_a(b: int, n: nat)
    ensures
        batch_total(Measure::Rows, Tier::A, b, n) == n,
    decreases n,
{
    if n > 0 {
        lemma_rows_total_a(b, (n - 1) as nat);
    }
}

/// Flattening a generated batch lands, for tier B, the rows and both sums that the
/// gates expect of it.
pub proof fn law_flatten_meets_expectation_b(b: int, ts: i64, n: nat)
    requires
        batch_fits(b),
        n <= 100,
    ensures
        ({
            let rows = rows_b(head_of(batch_at(b, ts)), batch_at(b, ts).events, n);
            &&& rows.len() == batch_total(Measure::Rows, Tier::B, b, n)
            &&& value_sum_b(rows) == batch_total(Measure::Value, Tier::B, b, n)
            &&& scaled_sum_b(rows) == batch_total(Measure::ValueScaled, Tier::B, b, n)
        }),
    decreases n,
{
    if n > 0 {
        law_flatten_meets_expectation_b(b, ts, (n - 1) as nat);
        lemma_generated_event(b, ts, n - 1);
        let h = head_of(batch_at(b, ts));
        let events = batch_at(b, ts).events;
        let sofar = rows_b(h, events, (n - 1) as nat);
        let rows = rows_b(h, events, n);
        law_transform_is_the_expected_one(
            unit_text(b, n - 1),
            quality_at(b, n - 1),
            seq![],
            0,
            0,
        );
        if passes(unit_text(b, n - 1), quality_at(b, n - 1)) {
            assert(rows == sofar.push(row_b(h, event_at(b, n - 1))));
            assert(rows.drop_last() =~= sofar);
            assert(rows.last() == row_b(h, event_at(b, n - 1)));
        } else {
            assert(rows == sofar);
        }
    }
}

/// `(batch_id, event_seq)` identifies a row: within a generated batch no two rows share
/// a position, and every row carries its batch.
pub proof fn law_rows_are_identified(b: int, ts: i64, i: int, j: int)
    requires
        batch_fits(b),
        0 <= i < j < 100,
    ensures
        ({
            let rows = rows_a(head_of(batch_at(b, ts)), batch_at(b, ts).events);
            &&& rows[i].batch_id == b && rows[j].batch_id == b
            &&& rows[i].event_seq == i && rows[j].event_seq == j
        }),
{
    lemma_generated_event(b, ts, i);
    lemma_generated_event(b, ts, j);
}

/// Tier A maps columns and nothing else. Row `i` of a batch, on either path, carries the
/// batch's own sensor, region, event time and send time, and the own name, unit, value,
/// quality and tags of event `i`; a region that is null lands as the empty text.
pub proof fn law_tier_a_maps_columns(b: BatchView, i: int)
    requires
        b.batch_id >= 0,
        forall|k: int| 0 <= k < b.events.len() ==> seq_fits(#[trigger] b.events[k]),
        0 <= i < b.events.len(),
    ensures
        ({
            let (typed, e) = (rows_a(head_of(b), b.events), b.events[i]);
            let d = batch_datum(b);
            let read = value_rows_a(read_head(d)->Some_0.0, read_head(d)->Some_0.1);
            let r = typed[i];
            &&& typed.len() == b.events.len()
            &&& read.len() == b.events.len()
            &&& read[i] == r
            &&& r.batch_id == b.batch_id
            &&& r.event_seq == e.seq
            &&& r.sensor == b.sensor
            &&& b.region is Some ==> r.region == b.region->Some_0
            &&& b.region is None ==> r.region.len() == 0
            &&& r.name == e.name
            &&& r.unit == e.unit
            &&& r.value == e.value
            &&& r.quality == e.quality
            &&& r.tags == e.tags
            &&& r.batch_ts == b.batch_ts_ms
            &&& r.send_ts == b.send_ts_us
        }),
{
    law_paths_agree_a(b);
    assert(seq_fits(b.events[i]));
}

/// The columns that tier B derives: the name in ASCII upper case, and the value scaled.
pub proof fn law_derived_columns(e: EventView)
    requires
        seq_fits(e),
        scale_fits(e),
    ensures
        is_ascii_upper(folded(e.name), e.name),
        i64::MIN <= scaled_value(e.value as int, e.seq as int) <= i64::MAX,
        is_scaled(scaled_value(e.value as int, e.seq as int), e.value as int, e.seq as int),
{
    let (v, d) = (e.value as int, e.seq + 1);
    let n = if v < 0 {
        -v * 1000
    } else {
        v * 1000
    };
    let q = n / d;
    vstd::arithmetic::div_mod::lemma_fundamental_div_mod(n, d);
    vstd::arithmetic::div_mod::lemma_mod_bound(n, d);
    assert(d * q == q * d) by (nonlinear_arith);
    assert((q + 1) * d == q * d + d) by (nonlinear_arith);
    assert((-q) * d == -(q * d)) by (nonlinear_arith);
    assert((-q - 1) * d == -(q * d) - d) by (nonlinear_arith);
    assert(0 <= q <= n) by (nonlinear_arith)
        requires
            n >= 0,
            d >= 1,
            q == n / d,
    ;
    let s = e.name;
    assert forall|i: int| 0 <= i < s.len() implies (if 'a' <= s[i] <= 'z' {
        (#[trigger] folded(s)[i]) as u32 + 32 == s[i] as u32
    } else {
        folded(s)[i] == s[i]
    }) by {}
}

/// Tier B filters and derives. On either path, there is a row for each event whose unit is
/// not `drop` and whose quality, if it has one, is not below 0.2, and for no other; it
/// stands behind the rows of the events before it; and it carries the batch's and the
/// event's own columns, with the name in upper case and the scaled value.
pub proof fn law_tier_b_filters_and_derives(b: BatchView, i: int)
    requires
        b.batch_id >= 0,
        forall|k: int|
            0 <= k < b.events.len() && passes((#[trigger] b.events[k]).unit, b.events[k].quality)
                ==> seq_fits(b.events[k]) && scale_fits(b.events[k]),
        0 <= i < b.events.len(),
    ensures
        ({
            let n = b.events.len();
            let (typed, e) = (rows_b(head_of(b), b.events, n), b.events[i]);
            let d = batch_datum(b);
            let read = value_rows_b(read_head(d)->Some_0.0, read_head(d)->Some_0.1, n);
            &&& typed.len() == passed_before(b.events, n as int)
            &&& read == typed
            &&& e.unit != "drop"@ && !(e.quality is Some && is_below(
                e.quality->Some_0,
                0x3fc9_9999_9999_999a,
            )) ==> {
                let r = typed[passed_before(b.events, i) as int];
                &&& r.batch_id == b.batch_id
                &&& r.event_seq == e.seq
                &&& r.sensor == b.sensor
                &&& b.region is Some ==> r.region == b.region->Some_0
                &&& b.region is None ==> r.region.len() == 0
                &&& is_ascii_upper(r.name_upper, e.name)
                &&& r.unit == e.unit
                &&& r.value == e.value
                &&& is_scaled(r.value_scaled as int, e.value as int, e.seq as int)
                &&& r.quality == e.quality
                &&& r.tags == e.tags
                &&& r.batch_ts == b.batch_ts_ms
                &&& r.send_ts == b.send_ts_us
            }
        }),
{
    let n = b.events.len();
    law_paths_agree_b(b);
    lemma_rows_b_len(head_of(b), b.events, n);
    let e = b.events[i];
    if passes(e.unit, e.quality) {
        lemma_row_b_at(head_of(b), b.events, n, i);
        law_derived_columns(e);
    }
}

/// The transform written here is the one that the gates expect: the same filter, the
/// same upper case, the same scaling. Each is stated twice, so that a change to either
/// shows.
pub proof fn law_transform_is_the_expected_one(
    unit: Seq<char>,
    quality: Option<u64>,
    name: Seq<char>,
    value: int,
    seq: int,
)
    requires
        seq >= 0,
    ensures
        DROP_UNIT@ == crate::corpus::DROP_UNIT@,
        QUALITY_FLOOR == crate::corpus::QUALITY_FLOOR,
        passes(unit, quality) == keeps(unit, quality),
        folded(name) == upper_text(name),
        scaled_value(value, seq) == scaled(value, seq),
{
    assert(folded(name) =~= upper_text(name));
    if value < 0 {
        assert(-(value * 1000) == -value * 1000) by (nonlinear_arith);
    }
}

/// Upper-casing keeps the length, changes only `a` to `z`, and does so once for all.
pub proof fn law_upper_is_stable(s: Seq<char>)
    ensures
        folded(s).len() == s.len(),
        folded(folded(s)) == folded(s),
        forall|i: int| 0 <= i < s.len() && !('a' <= s[i] <= 'z') ==> folded(s)[i] == s[i],
{
    assert(folded(folded(s)) =~= folded(s));
}

} // verus!
