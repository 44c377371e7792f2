//! The deterministic corpus: every message is a function of its `batch_id`.
//!
//! What a correct run must land is therefore computable without reading what any
//! system produced, `(batch_id, seq)` is a true row identity, and a topic can be
//! regenerated byte for byte on another machine.
//!
//! `value` is never negative, so the integer division in `value_scaled` rounds
//! the same way in every language that implements it.
use vstd::prelude::*;
use crate::avro::{avro_datum, avro_value, read_datum, write_datum, AvroValue, Datum};
use crate::doubles::{below, hundredth, hundredth_bits, is_below, lemma_hundredth_order};
use crate::text::{
    before, cat2, chars_of, cut_at, dec, decimal, join, joined, lines, lines_of, note, same, split,
    split_at_each, texts, trim, trimmed,
};

verus! {

/// The Avro schema of one message.
pub const SCHEMA_JSON: &'static str = "{
  \"type\": \"record\",
  \"name\": \"SensorBatch\",
  \"namespace\": \"spate.benchmark\",
  \"fields\": [
    {\"name\": \"batch_id\", \"type\": \"long\"},
    {\"name\": \"sensor\", \"type\": \"string\"},
    {\"name\": \"region\", \"type\": [\"null\", \"string\"]},
    {\"name\": \"batch_ts_ms\", \"type\": \"long\"},
    {\"name\": \"send_ts_us\", \"type\": \"long\"},
    {\"name\": \"events\", \"type\": {\"type\": \"array\", \"items\": {
      \"type\": \"record\",
      \"name\": \"Event\",
      \"fields\": [
        {\"name\": \"seq\", \"type\": \"int\"},
        {\"name\": \"name\", \"type\": \"string\"},
        {\"name\": \"unit\", \"type\": \"string\"},
        {\"name\": \"value\", \"type\": \"long\"},
        {\"name\": \"quality\", \"type\": [\"null\", \"double\"]},
        {\"name\": \"tags\", \"type\": {\"type\": \"array\", \"items\": \"string\"}}
      ]
    }}}
  ]
}
";

/// Events in every message.
pub const EVENTS_PER_BATCH: u32 = 100;

/// Distinct sensors.
pub const SENSORS: u64 = 1024;

/// Distinct metric names.
pub const NAMES: u64 = 32;

/// Distinct tags.
pub const TAGS: u64 = 16;

/// The event timestamp of batch zero, epoch milliseconds.
pub const BASE_TS_MS: i64 = 1_772_000_000_000;

/// The units, by residue. The fourth is the one tier B drops.
pub const UNITS: [&'static str; 8] = [
    "count",
    "bytes",
    "ms",
    "drop",
    "ratio",
    "celsius",
    "volts",
    "rpm",
];

/// The `unit` that tier B filters out.
pub const DROP_UNIT: &'static str = "drop";

/// Tier B keeps a present `quality` at or above this: the bits of 0.2.
pub const QUALITY_FLOOR: u64 = 0x3fc9_9999_9999_999a;

/// Identifies the corpus these constants and derivations make.
pub const DATASET_VERSION: &'static str = "d2-60d7e5bb2a82";

// ---------------------------------------------------------------------------
// Field derivations
// ---------------------------------------------------------------------------

pub open spec fn sensor_text(b: int) -> Seq<char> {
    "sensor-"@ + decimal((b % SENSORS as int) as nat)
}

pub open spec fn region_text(b: int) -> Option<Seq<char>> {
    if b % 10 == 0 {
        None
    } else {
        Some("region-"@ + decimal((b % 7) as nat))
    }
}

pub open spec fn name_text(b: int, s: int) -> Seq<char> {
    "metric_"@ + decimal(((b * 31 + s) % NAMES as int) as nat)
}

pub open spec fn unit_text(b: int, s: int) -> Seq<char> {
    UNITS[(b * 7 + s) % 8]@
}

/// The `batch_id` term of `value`, in 64-bit wrapping arithmetic.
pub open spec fn value_base(b: int) -> int {
    (b * 1_000_003) % 0x1_0000_0000_0000_0000
}

pub open spec fn value_at(b: int, s: int) -> int {
    (value_base(b) + s * 97) % 2_147_483_647
}

/// The hundredths of `quality`, where it is present.
pub open spec fn quality_hundredths(b: int, s: int) -> int {
    (b * 13 + s * 7) % 100
}

pub open spec fn quality_at(b: int, s: int) -> Option<u64> {
    if (b + s) % 5 == 0 {
        None
    } else {
        Some(hundredth_bits(quality_hundredths(b, s)) as u64)
    }
}

pub open spec fn tag_text(b: int, s: int, j: int) -> Seq<char> {
    "tag-"@ + decimal(((b + s + j) % TAGS as int) as nat)
}

pub open spec fn tags_at(b: int, s: int) -> Seq<Seq<char>> {
    Seq::new(((b + s) % 4) as nat, |j: int| tag_text(b, s, j))
}

pub open spec fn upper_char(c: char) -> char {
    if 'a' <= c <= 'z' {
        ((c as u32 - 32) as u8) as char
    } else {
        c
    }
}

/// `s` with `a` to `z`, and nothing else, in upper case.
pub open spec fn upper_text(s: Seq<char>) -> Seq<char> {
    Seq::new(s.len(), |i: int| upper_char(s[i]))
}

/// `a / d` rounded towards zero.
pub open spec fn truncated_div(a: int, d: int) -> int {
    if a >= 0 {
        a / d
    } else {
        -((-a) / d)
    }
}

pub open spec fn scaled(value: int, seq: int) -> int {
    truncated_div(value * 1000, seq + 1)
}

/// Tier B keeps a row with this unit and this quality.
pub open spec fn keeps(unit: Seq<char>, quality: Option<u64>) -> bool {
    unit != DROP_UNIT@ && !(quality is Some && is_below(quality->Some_0, QUALITY_FLOOR))
}

/// The sums that the tier-B filter needs of an event stay within 64 bits. The quality
/// of an event is derived only where its unit is not the dropped one.
pub open spec fn filter_fits(b: int, s: int) -> bool {
    b * 7 + s <= u64::MAX && ((b * 7 + s) % 8 != 3 && (b + s) % 5 != 0 ==> b * 13 + s * 7
        <= u64::MAX)
}

/// The sums in `value` of an event stay within 64 bits.
pub open spec fn value_fits(b: int, s: int) -> bool {
    value_base(b) + s * 97 <= u64::MAX
}

/// Every field of every event of batch `b` is derivable without leaving its
/// machine type.
pub open spec fn batch_fits(b: int) -> bool {
    &&& 0 <= b
    &&& b * 31 + 99 <= u64::MAX
    &&& b + BASE_TS_MS <= i64::MAX
    &&& value_fits(b, 99)
}

/// Up to eighteen million million batches, `value` is the plain formula: nothing wraps.
pub proof fn law_value_is_the_plain_formula(b: int, s: int)
    requires
        0 <= b <= 18_000_000_000_000,
        0 <= s < 100,
    ensures
        value_fits(b, s),
        value_at(b, s) == (b * 1_000_003 + s * 97) % 2_147_483_647,
        0 <= value_at(b, s) < 2_147_483_647,
{
}

/// `sensor` of a batch.
pub fn sensor_of(batch_id: u64) -> (r: String)
    ensures
        r@ == sensor_text(batch_id as int),
{
    cat2("sensor-", dec((batch_id % SENSORS) as u128).as_str())
}

/// `region` of a batch: null for one batch in ten, so that every reader must decode the union.
pub fn region_of(batch_id: u64) -> (r: Option<String>)
    ensures
        opt_text(r) == region_text(batch_id as int),
{
    if batch_id % 10 == 0 {
        None
    } else {
        Some(cat2("region-", dec((batch_id % 7) as u128).as_str()))
    }
}

/// Event timestamp of a batch, epoch milliseconds.
pub fn batch_ts_ms_of(batch_id: u64) -> (r: i64)
    requires
        batch_id + BASE_TS_MS <= i64::MAX,
    ensures
        r == BASE_TS_MS + batch_id,
{
    BASE_TS_MS + batch_id as i64
}

/// `name` of an event.
pub fn name_of(batch_id: u64, seq: u32) -> (r: String)
    requires
        batch_id * 31 + seq <= u64::MAX,
    ensures
        r@ == name_text(batch_id as int, seq as int),
{
    cat2("metric_", dec(((batch_id * 31 + seq as u64) % NAMES) as u128).as_str())
}

/// `unit` of an event.
pub fn unit_of(batch_id: u64, seq: u32) -> (r: &'static str)
    requires
        batch_id * 7 + seq <= u64::MAX,
    ensures
        r@ == unit_text(batch_id as int, seq as int),
{
    UNITS[((batch_id * 7 + seq as u64) % 8) as usize]
}

/// `value` of an event: below `2^31`, and never negative.
pub fn value_of(batch_id: u64, seq: u32) -> (r: i64)
    requires
        value_fits(batch_id as int, seq as int),
    ensures
        r == value_at(batch_id as int, seq as int),
        0 <= r < 2_147_483_647,
{
    ((batch_id.wrapping_mul(1_000_003) + seq as u64 * 97) % 2_147_483_647) as i64
}

/// `quality` of an event, by the bits of the double nearest to its hundredths.
pub fn quality_of(batch_id: u64, seq: u32) -> (r: Option<u64>)
    requires
        batch_id + seq <= u64::MAX,
        (batch_id + seq) % 5 != 0 ==> batch_id * 13 + seq * 7 <= u64::MAX,
    ensures
        r == quality_at(batch_id as int, seq as int),
{
    let s: u64 = seq as u64;
    if (batch_id + s) % 5 == 0 {
        None
    } else {
        Some(hundredth((batch_id * 13 + s * 7) % 100))
    }
}

/// `tags` of an event: none to three, the second level of nesting.
pub fn tags_of(batch_id: u64, seq: u32) -> (r: Vec<String>)
    requires
        batch_id + seq <= u64::MAX,
        (batch_id + seq) % 4 > 0 ==> batch_id + seq + (batch_id + seq) % 4 - 1 <= u64::MAX,
    ensures
        texts(r@) == tags_at(batch_id as int, seq as int),
{
    let base: u64 = batch_id + seq as u64;
    let count: u64 = base % 4;
    let mut out: Vec<String> = Vec::new();
    let mut j: u64 = 0;
    while j < count
        invariant
            base == batch_id + seq,
            count == base % 4,
            count > 0 ==> base + count - 1 <= u64::MAX,
            j <= count,
            out@.len() == j,
            forall|k: int|
                0 <= k < j ==> (#[trigger] out@[k])@ == tag_text(
                    batch_id as int,
                    seq as int,
                    k,
                ),
        decreases count - j,
    {
        out.push(cat2("tag-", dec(((base + j) % TAGS) as u128).as_str()));
        j += 1;
    }
    proof {
        assert(texts(out@) =~= tags_at(batch_id as int, seq as int));
    }
    out
}

/// Upper case in ASCII alone, so that no locale and no Unicode table is involved.
pub fn ascii_upper(s: &str) -> (r: String)
    ensures
        r@ == upper_text(s@),
{
    let chars = chars_of(s);
    let mut out = String::new();
    let mut i: usize = 0;
    while i < chars.len()
        invariant
            chars@ == s@,
            i <= chars@.len(),
            out@ == upper_text(s@.take(i as int)),
        decreases chars@.len() - i,
    {
        let c: char = chars[i];
        let u: char = if 'a' <= c && c <= 'z' {
            ((c as u32 - 32) as u8) as char
        } else {
            c
        };
        out.push(u);
        i += 1;
        proof {
            assert(out@ =~= upper_text(s@.take(i as int)));
        }
    }
    proof {
        assert(s@.take(s@.len() as int) =~= s@);
    }
    out
}

/// `value * 1000 / (seq + 1)`, rounded towards zero.
pub fn value_scaled_of(value: i64, seq: u32) -> (r: i64)
    requires
        i64::MIN < value * 1000 <= i64::MAX,
        seq < u32::MAX,
    ensures
        r == scaled(value as int, seq as int),
{
    let d: i64 = seq as i64 + 1;
    let n: i64 = value * 1000;
    let m: i64 = if n >= 0 {
        n
    } else {
        -n
    };
    assert(0 <= m as int / d as int <= m) by (nonlinear_arith)
        requires
            m >= 0,
            d >= 1,
    ;
    let q: i64 = m / d;
    if n >= 0 {
        q
    } else {
        -q
    }
}

/// Whether tier B keeps an event of this unit and quality.
pub fn keeps_event(unit: &str, quality: Option<u64>) -> (r: bool)
    ensures
        r == keeps(unit@, quality),
{
    if same(unit, DROP_UNIT) {
        return false;
    }
    match quality {
        None => true,
        Some(q) => !below(q, QUALITY_FLOOR),
    }
}

/// Whether tier B keeps the event `seq` of batch `batch_id`: its unit is not the
/// dropped one, and its quality, if it has one, is at least twenty hundredths.
pub fn tier_b_keeps(batch_id: u64, seq: u32) -> (r: bool)
    requires
        filter_fits(batch_id as int, seq as int),
    ensures
        r == keeps(
            unit_text(batch_id as int, seq as int),
            quality_at(batch_id as int, seq as int),
        ),
        r == ((batch_id * 7 + seq) % 8 != 3 && ((batch_id + seq) % 5 == 0 || quality_hundredths(
            batch_id as int,
            seq as int,
        ) >= 20)),
{
    proof {
        lemma_keeps_by_residue(batch_id as int, seq as int);
    }
    let unit = unit_of(batch_id, seq);
    if same(unit, DROP_UNIT) {
        return false;
    }
    keeps_event(unit, quality_of(batch_id, seq))
}

/// The tier-B filter on generated events, by their residues.
pub proof fn lemma_keeps_by_residue(b: int, s: int)
    requires
        0 <= b,
        0 <= s,
    ensures
        keeps(unit_text(b, s), quality_at(b, s)) == ((b * 7 + s) % 8 != 3 && ((b + s) % 5 == 0
            || quality_hundredths(b, s) >= 20)),
{
    let u = (b * 7 + s) % 8;
    reveal_strlit("drop");
    reveal_strlit("count");
    reveal_strlit("bytes");
    reveal_strlit("ms");
    reveal_strlit("ratio");
    reveal_strlit("celsius");
    reveal_strlit("volts");
    reveal_strlit("rpm");
    assert("count"@[0] == 'c');
    assert("bytes"@[0] == 'b');
    assert("ms"@[0] == 'm');
    assert("ratio"@[0] == 'r');
    assert("celsius"@[0] == 'c');
    assert("volts"@[0] == 'v');
    assert("rpm"@[0] == 'r');
    assert("drop"@[0] == 'd');
    assert(unit_text(b, s) == DROP_UNIT@ <==> u == 3);
    let k = quality_hundredths(b, s);
    assert(hundredth_bits(20) == QUALITY_FLOOR);
    if k < 20 {
        lemma_hundredth_order(k, 20);
    } else if k > 20 {
        lemma_hundredth_order(20, k);
    }
}

// ---------------------------------------------------------------------------
// Messages
// ---------------------------------------------------------------------------

pub open spec fn opt_text(o: Option<String>) -> Option<Seq<char>> {
    match o {
        Some(s) => Some(s@),
        None => None,
    }
}

/// One decoded message. Field names match the Avro schema.
#[derive(Debug)]
pub struct SensorBatch {
    /// Dense, monotonic batch identifier; half of the row identity.
    pub batch_id: i64,
    pub sensor: String,
    pub region: Option<String>,
    /// Event timestamp, epoch milliseconds.
    pub batch_ts_ms: i64,
    /// The producer's intended send time, epoch microseconds.
    pub send_ts_us: i64,
    pub events: Vec<Event>,
}

/// One event inside a [`SensorBatch`].
#[derive(Debug)]
pub struct Event {
    /// Position within the batch; the other half of the row identity.
    pub seq: i32,
    pub name: String,
    /// Metric unit; `"drop"` is the tier-B filter sentinel.
    pub unit: String,
    pub value: i64,
    /// A double, by its bits.
    pub quality: Option<u64>,
    pub tags: Vec<String>,
}

/// What an [`Event`] holds.
pub struct EventView {
    pub seq: i32,
    pub name: Seq<char>,
    pub unit: Seq<char>,
    pub value: i64,
    pub quality: Option<u64>,
    pub tags: Seq<Seq<char>>,
}

/// What a [`SensorBatch`] holds.
pub struct BatchView {
    pub batch_id: i64,
    pub sensor: Seq<char>,
    pub region: Option<Seq<char>>,
    pub batch_ts_ms: i64,
    pub send_ts_us: i64,
    pub events: Seq<EventView>,
}

impl Event {
    pub open spec fn view(&self) -> EventView {
        EventView {
            seq: self.seq,
            name: self.name@,
            unit: self.unit@,
            value: self.value,
            quality: self.quality,
            tags: texts(self.tags@),
        }
    }
}

impl SensorBatch {
    pub open spec fn view(&self) -> BatchView {
        BatchView {
            batch_id: self.batch_id,
            sensor: self.sensor@,
            region: opt_text(self.region),
            batch_ts_ms: self.batch_ts_ms,
            send_ts_us: self.send_ts_us,
            events: Seq::new(self.events@.len(), |i: int| self.events@[i]@),
        }
    }
}

/// Event `s` of batch `b`.
pub open spec fn event_at(b: int, s: int) -> EventView {
    EventView {
        seq: s as i32,
        name: name_text(b, s),
        unit: unit_text(b, s),
        value: value_at(b, s) as i64,
        quality: quality_at(b, s),
        tags: tags_at(b, s),
    }
}

/// Batch `b`, sent at `send_ts_us`.
pub open spec fn batch_at(b: int, send_ts_us: i64) -> BatchView {
    BatchView {
        batch_id: b as i64,
        sensor: sensor_text(b),
        region: region_text(b),
        batch_ts_ms: (BASE_TS_MS + b) as i64,
        send_ts_us,
        events: Seq::new(EVENTS_PER_BATCH as nat, |s: int| event_at(b, s)),
    }
}

/// A nullable value as the `["null", T]` union holds it.
pub open spec fn nullable_text(o: Option<Seq<char>>) -> Datum {
    match o {
        None => Datum::Union(0, Box::new(Datum::Null)),
        Some(s) => Datum::Union(1, Box::new(Datum::Text(s))),
    }
}

pub open spec fn nullable_double(o: Option<u64>) -> Datum {
    match o {
        None => Datum::Union(0, Box::new(Datum::Null)),
        Some(bits) => Datum::Union(1, Box::new(Datum::Double(bits))),
    }
}

pub open spec fn tags_datum(tags: Seq<Seq<char>>) -> Datum {
    Datum::Array(Seq::new(tags.len(), |i: int| Datum::Text(tags[i])))
}

/// An event as the schema's `Event` record.
pub open spec fn event_datum(e: EventView) -> Datum {
    Datum::Record(
        seq![
            ("seq"@, Datum::Int(e.seq)),
            ("name"@, Datum::Text(e.name)),
            ("unit"@, Datum::Text(e.unit)),
            ("value"@, Datum::Long(e.value)),
            ("quality"@, nullable_double(e.quality)),
            ("tags"@, tags_datum(e.tags)),
        ],
    )
}

pub open spec fn events_datum(events: Seq<EventView>) -> Datum {
    Datum::Array(Seq::new(events.len(), |i: int| event_datum(events[i])))
}

/// A batch as the schema's `SensorBatch` record.
pub open spec fn batch_datum(b: BatchView) -> Datum {
    Datum::Record(
        seq![
            ("batch_id"@, Datum::Long(b.batch_id)),
            ("sensor"@, Datum::Text(b.sensor)),
            ("region"@, nullable_text(b.region)),
            ("batch_ts_ms"@, Datum::Long(b.batch_ts_ms)),
            ("send_ts_us"@, Datum::Long(b.send_ts_us)),
            ("events"@, events_datum(b.events)),
        ],
    )
}

/// No text and no array of the event is longer than a million.
pub open spec fn is_compact_event(e: EventView) -> bool {
    &&& e.name.len() <= 1_000_000
    &&& e.unit.len() <= 1_000_000
    &&& e.tags.len() <= 1_000_000
    &&& forall|i: int| 0 <= i < e.tags.len() ==> (#[trigger] e.tags[i]).len() <= 1_000_000
}

/// No text and no array of the batch is longer than a million.
pub open spec fn is_compact(b: BatchView) -> bool {
    &&& b.sensor.len() <= 1_000_000
    &&& b.region is Some ==> b.region->Some_0.len() <= 1_000_000
    &&& b.events.len() <= 1_000_000
    &&& forall|i: int| 0 <= i < b.events.len() ==> is_compact_event(#[trigger] b.events[i])
}

/// The event `seq` of a batch.
pub fn event_of(batch_id: u64, seq: u32) -> (r: Event)
    requires
        batch_fits(batch_id as int),
        seq < EVENTS_PER_BATCH,
    ensures
        r@ == event_at(batch_id as int, seq as int),
{
    Event {
        seq: seq as i32,
        name: name_of(batch_id, seq),
        unit: unit_of(batch_id, seq).to_owned(),
        value: value_of(batch_id, seq),
        quality: quality_of(batch_id, seq),
        tags: tags_of(batch_id, seq),
    }
}

/// The batch `batch_id`, with the caller's intended send time.
pub fn batch_of(batch_id: u64, send_ts_us: i64) -> (r: SensorBatch)
    requires
        batch_fits(batch_id as int),
    ensures
        r@ == batch_at(batch_id as int, send_ts_us),
{
    let mut events: Vec<Event> = Vec::new();
    let mut seq: u32 = 0;
    while seq < EVENTS_PER_BATCH
        invariant
            batch_fits(batch_id as int),
            seq <= EVENTS_PER_BATCH,
            events@.len() == seq,
            forall|i: int|
                0 <= i < seq ==> (#[trigger] events@[i])@ == event_at(batch_id as int, i),
        decreases EVENTS_PER_BATCH - seq,
    {
        events.push(event_of(batch_id, seq));
        seq += 1;
    }
    let out = SensorBatch {
        batch_id: batch_id as i64,
        sensor: sensor_of(batch_id),
        region: region_of(batch_id),
        batch_ts_ms: batch_ts_ms_of(batch_id),
        send_ts_us,
        events,
    };
    proof {
        assert(out@.events =~= batch_at(batch_id as int, send_ts_us).events);
    }
    out
}

proof fn lemma_record_view(v: AvroValue, held: Seq<(String, AvroValue)>)
    requires
        v is Record,
        v->Record_0@ == held,
    ensures
        v@ is Record,
        v@->Record_0.len() == held.len(),
        forall|i: int|
            0 <= i < held.len() ==> #[trigger] (v@->Record_0)[i] == (held[i].0@, held[i].1@),
{
}

fn event_value(e: &Event) -> (r: AvroValue)
    ensures
        r@ == event_datum(e@),
{
    let quality = match e.quality {
        None => AvroValue::Union(0, Box::new(AvroValue::Null)),
        Some(bits) => AvroValue::Union(1, Box::new(AvroValue::Double(bits))),
    };
    let mut tags: Vec<AvroValue> = Vec::new();
    let mut i: usize = 0;
    while i < e.tags.len()
        invariant
            i <= e.tags@.len(),
            tags@.len() == i,
            forall|k: int| 0 <= k < i ==> (#[trigger] tags@[k])@ == Datum::Text(e.tags@[k]@),
        decreases e.tags@.len() - i,
    {
        tags.push(AvroValue::Text(e.tags[i].clone()));
        i += 1;
    }
    let tags = AvroValue::Array(tags);
    proof {
        let built = tags@->Array_0;
        let wanted = tags_datum(e@.tags)->Array_0;
        assert forall|k: int| 0 <= k < built.len() implies built[k] == wanted[k] by {
            assert(built[k] == tags->Array_0@[k]@);
        }
        assert(built =~= wanted);
    }
    let fields = vec![
        ("seq".to_owned(), AvroValue::Int(e.seq)),
        ("name".to_owned(), AvroValue::Text(e.name.clone())),
        ("unit".to_owned(), AvroValue::Text(e.unit.clone())),
        ("value".to_owned(), AvroValue::Long(e.value)),
        ("quality".to_owned(), quality),
        ("tags".to_owned(), tags),
    ];
    let ghost held = fields@;
    let out = AvroValue::Record(fields);
    proof {
        reveal_with_fuel(AvroValue::view, 3);
        assert(held[0].1@ == Datum::Int(e.seq));
        assert(held[1].1@ == Datum::Text(e.name@));
        assert(held[2].1@ == Datum::Text(e.unit@));
        assert(held[3].1@ == Datum::Long(e.value));
        assert(held[4].1@ == nullable_double(e.quality));
        assert(held[5].1@ == tags_datum(e@.tags));
        lemma_record_view(out, held);
        assert(out@->Record_0 =~= event_datum(e@)->Record_0);
    }
    out
}

/// The Avro record of a batch.
pub fn batch_value(b: &SensorBatch) -> (r: AvroValue)
    ensures
        r@ == batch_datum(b@),
{
    let region = match &b.region {
        None => AvroValue::Union(0, Box::new(AvroValue::Null)),
        Some(s) => AvroValue::Union(1, Box::new(AvroValue::Text(s.clone()))),
    };
    let mut events: Vec<AvroValue> = Vec::new();
    let mut i: usize = 0;
    while i < b.events.len()
        invariant
            i <= b.events@.len(),
            events@.len() == i,
            forall|k: int| 0 <= k < i ==> (#[trigger] events@[k])@ == event_datum(b.events@[k]@),
        decreases b.events@.len() - i,
    {
        events.push(event_value(&b.events[i]));
        i += 1;
    }
    let events = AvroValue::Array(events);
    proof {
        let built = events@->Array_0;
        let wanted = events_datum(b@.events)->Array_0;
        assert forall|k: int| 0 <= k < built.len() implies built[k] == wanted[k] by {
            assert(built[k] == events->Array_0@[k]@);
        }
        assert(built =~= wanted);
    }
    let fields = vec![
        ("batch_id".to_owned(), AvroValue::Long(b.batch_id)),
        ("sensor".to_owned(), AvroValue::Text(b.sensor.clone())),
        ("region".to_owned(), region),
        ("batch_ts_ms".to_owned(), AvroValue::Long(b.batch_ts_ms)),
        ("send_ts_us".to_owned(), AvroValue::Long(b.send_ts_us)),
        ("events".to_owned(), events),
    ];
    let ghost held = fields@;
    let out = AvroValue::Record(fields);
    proof {
        reveal_with_fuel(AvroValue::view, 3);
        assert(held[0].1@ == Datum::Long(b.batch_id));
        assert(held[1].1@ == Datum::Text(b.sensor@));
        assert(held[2].1@ == nullable_text(b@.region));
        assert(held[3].1@ == Datum::Long(b.batch_ts_ms));
        assert(held[4].1@ == Datum::Long(b.send_ts_us));
        assert(held[5].1@ == events_datum(b@.events));
        lemma_record_view(out, held);
        assert(out@->Record_0 =~= batch_datum(b@)->Record_0);
    }
    out
}

/// One batch as a bare Avro datum.
///
/// `send_ts_us` is the caller's: it is the producer's intended schedule time, and
/// the one field that may differ between a prefill and a live run.
pub fn encode_batch(batch_id: u64, send_ts_us: i64) -> (r: Vec<u8>)
    requires
        batch_fits(batch_id as int),
    ensures
        avro_datum(SCHEMA_JSON@, batch_datum(batch_at(batch_id as int, send_ts_us))) == Some(r@),
        r@.len() > 0,
{
    let batch = batch_of(batch_id, send_ts_us);
    write_datum(SCHEMA_JSON, &batch_value(&batch)).unwrap()
}

/// What a bare datum of the schema holds.
pub fn decode_batch(datum: &[u8]) -> (r: Option<AvroValue>)
    ensures
        match r {
            Some(v) => avro_value(SCHEMA_JSON@, datum@) == Some(v@),
            None => avro_value(SCHEMA_JSON@, datum@) is None,
        },
        forall|b: BatchView|
            is_compact(b) && avro_datum(SCHEMA_JSON@, #[trigger] batch_datum(b)) == Some(datum@)
                ==> r is Some && r->Some_0@ == batch_datum(b),
{
    read_datum(SCHEMA_JSON, datum)
}

// ---------------------------------------------------------------------------
// Framing
// ---------------------------------------------------------------------------

/// A schema id, most significant byte first.
pub open spec fn id_bytes(id: u32) -> Seq<u8> {
    seq![
        (id / 0x100_0000) as u8,
        (id / 0x1_0000 % 0x100) as u8,
        (id / 0x100 % 0x100) as u8,
        (id % 0x100) as u8,
    ]
}

/// The Confluent wire format: a zero byte, the schema id, the datum.
pub open spec fn framed(id: u32, datum: Seq<u8>) -> Seq<u8> {
    seq![0u8] + id_bytes(id) + datum
}

/// Wraps a datum in the Confluent wire format.
pub fn frame_confluent(schema_id: u32, datum: &[u8]) -> (r: Vec<u8>)
    ensures
        r@ == framed(schema_id, datum@),
{
    let mut out: Vec<u8> = Vec::new();
    out.push(0);
    out.push((schema_id / 0x100_0000) as u8);
    out.push((schema_id / 0x1_0000 % 0x100) as u8);
    out.push((schema_id / 0x100 % 0x100) as u8);
    out.push((schema_id % 0x100) as u8);
    out.extend_from_slice(datum);
    proof {
        assert(out@ =~= framed(schema_id, datum@));
    }
    out
}

/// `send_ts_us` of a prefilled batch: derived from `batch_id`, not from a clock,
/// so that every prefill puts the same bytes on the topic.
pub fn send_ts_us_prefill(batch_id: u64) -> (r: i64)
    requires
        BASE_TS_MS * 1000 + batch_id <= i64::MAX,
    ensures
        r == BASE_TS_MS * 1000 + batch_id,
{
    BASE_TS_MS * 1000 + batch_id as i64
}

// ---------------------------------------------------------------------------
// Tiers
// ---------------------------------------------------------------------------

/// Tier A columns, in wire order, with their types.
pub const COLUMNS_A: [(&'static str, &'static str); 11] = [
    ("batch_id", "UInt64"),
    ("event_seq", "UInt16"),
    ("sensor", "LowCardinality(String)"),
    ("region", "LowCardinality(String)"),
    ("name", "LowCardinality(String)"),
    ("unit", "LowCardinality(String)"),
    ("value", "Int64"),
    ("quality", "Nullable(Float64)"),
    ("tags", "Array(LowCardinality(String))"),
    ("batch_ts", "DateTime64(3)"),
    ("send_ts", "DateTime64(6)"),
];

/// Tier B columns, in wire order, with their types.
pub const COLUMNS_B: [(&'static str, &'static str); 12] = [
    ("batch_id", "UInt64"),
    ("event_seq", "UInt16"),
    ("sensor", "LowCardinality(String)"),
    ("region", "LowCardinality(String)"),
    ("name_upper", "LowCardinality(String)"),
    ("unit", "LowCardinality(String)"),
    ("value", "Int64"),
    ("value_scaled", "Int64"),
    ("quality", "Nullable(Float64)"),
    ("tags", "Array(LowCardinality(String))"),
    ("batch_ts", "DateTime64(3)"),
    ("send_ts", "DateTime64(6)"),
];

/// Which workload tier an arm ran.
#[derive(Clone, Copy, Debug, PartialEq, Eq, Structural)]
pub enum Tier {
    /// Decode, flatten, insert. Column mapping only.
    A,
    /// Tier A plus the specified filtering and derivation.
    B,
}

impl Tier {
    pub open spec fn name_text(self) -> Seq<char> {
        match self {
            Tier::A => "a"@,
            Tier::B => "b"@,
        }
    }

    pub open spec fn table_text(self) -> Seq<char> {
        match self {
            Tier::A => "sensor_events"@,
            Tier::B => "sensor_events_t"@,
        }
    }

    /// The `tier` variant value recorded on every measurement.
    pub fn name(self) -> (r: &'static str)
        ensures
            r@ == self.name_text(),
    {
        match self {
            Tier::A => "a",
            Tier::B => "b",
        }
    }

    /// The target table for this tier.
    pub fn table(self) -> (r: &'static str)
        ensures
            r@ == self.table_text(),
    {
        match self {
            Tier::A => "sensor_events",
            Tier::B => "sensor_events_t",
        }
    }

    pub open spec fn column_list(self) -> Seq<(&'static str, &'static str)> {
        match self {
            Tier::A => COLUMNS_A@,
            Tier::B => COLUMNS_B@,
        }
    }

    /// The columns of this tier's table, in wire order.
    pub fn columns(self) -> (r: Vec<(&'static str, &'static str)>)
        ensures
            r@ == self.column_list(),
    {
        let mut out: Vec<(&'static str, &'static str)> = Vec::new();
        let mut i: usize = 0;
        match self {
            Tier::A => {
                while i < 11
                    invariant
                        i <= 11,
                        out@ == COLUMNS_A@.take(i as int),
                    decreases 11 - i,
                {
                    out.push(COLUMNS_A[i]);
                    i += 1;
                    proof {
                        assert(out@ =~= COLUMNS_A@.take(i as int));
                    }
                }
                proof {
                    assert(COLUMNS_A@.take(11) =~= COLUMNS_A@);
                }
            },
            Tier::B => {
                while i < 12
                    invariant
                        i <= 12,
                        out@ == COLUMNS_B@.take(i as int),
                    decreases 12 - i,
                {
                    out.push(COLUMNS_B[i]);
                    i += 1;
                    proof {
                        assert(out@ =~= COLUMNS_B@.take(i as int));
                    }
                }
                proof {
                    assert(COLUMNS_B@.take(12) =~= COLUMNS_B@);
                }
            },
        }
        out
    }
}

// ---------------------------------------------------------------------------
// Expectations
// ---------------------------------------------------------------------------

/// A quantity that is summed over the rows an arm must land.
pub enum Measure {
    Rows,
    Value,
    ValueScaled,
    Sensor,
    Region,
    Name,
    Unit,
    TagCount,
    Tags,
    BatchTs,
    NullQuality,
}

/// The number that the bytes of `s` are, least significant first.
pub open spec fn le_value(s: Seq<u8>) -> nat
    decreases s.len(),
{
    if s.len() == 0 {
        0
    } else {
        s[0] as nat + 256 * le_value(s.skip(1))
    }
}

pub open spec fn first_eight(s: Seq<u8>) -> Seq<u8> {
    if s.len() <= 8 {
        s
    } else {
        s.take(8)
    }
}

/// The fingerprint of a text: its first eight bytes read as a little-endian
/// number, plus the same of its bytes reversed, in 64-bit wrapping arithmetic.
pub open spec fn fingerprint(s: Seq<char>) -> int {
    let bytes = vstd::utf8::encode_utf8(s);
    ((le_value(first_eight(bytes)) + le_value(first_eight(bytes.reverse())))
        % 0x1_0000_0000_0000_0000) as int
}

/// The name column of a tier.
pub open spec fn name_column(tier: Tier, b: int, s: int) -> Seq<char> {
    match tier {
        Tier::A => name_text(b, s),
        Tier::B => upper_text(name_text(b, s)),
    }
}

/// The region column: an absent region lands as the empty text.
pub open spec fn region_column(region: Option<Seq<char>>) -> Seq<char> {
    match region {
        Some(r) => r,
        None => Seq::empty(),
    }
}

/// Whether a tier lands event `s` of batch `b`.
pub open spec fn lands(tier: Tier, b: int, s: int) -> bool {
    tier == Tier::A || keeps(unit_text(b, s), quality_at(b, s))
}

/// What event `s` of batch `b` adds to a measure, if it lands.
pub open spec fn amount(m: Measure, tier: Tier, b: int, s: int) -> int {
    match m {
        Measure::Rows => 1,
        Measure::Value => value_at(b, s),
        Measure::ValueScaled => if tier == Tier::B {
            scaled(value_at(b, s), s)
        } else {
            0
        },
        Measure::Sensor => fingerprint(sensor_text(b)),
        Measure::Region => fingerprint(region_column(region_text(b))),
        Measure::Name => fingerprint(name_column(tier, b, s)),
        Measure::Unit => fingerprint(unit_text(b, s)),
        Measure::TagCount => tags_at(b, s).len() as int,
        Measure::Tags => fingerprint(joined(tags_at(b, s), ""@)),
        Measure::BatchTs => BASE_TS_MS + b,
        Measure::NullQuality => if quality_at(b, s) is None {
            1
        } else {
            0
        },
    }
}

pub open spec fn contribution(m: Measure, tier: Tier, b: int, s: int) -> int {
    if lands(tier, b, s) {
        amount(m, tier, b, s)
    } else {
        0
    }
}

/// The measure over the first `n` events of batch `b`.
pub open spec fn batch_total(m: Measure, tier: Tier, b: int, n: nat) -> int
    decreases n,
{
    if n == 0 {
        0
    } else {
        batch_total(m, tier, b, (n - 1) as nat) + contribution(m, tier, b, n - 1)
    }
}

/// The measure over batches `lo..hi`.
pub open spec fn range_total(m: Measure, tier: Tier, lo: int, hi: int) -> int
    decreases hi - lo,
{
    if hi <= lo {
        0
    } else {
        range_total(m, tier, lo, hi - 1) + batch_total(m, tier, hi - 1, EVENTS_PER_BATCH as nat)
    }
}

/// The largest amount one event adds to a measure; of a batch below `2^62`, where that
/// matters.
pub open spec fn amount_cap(m: Measure) -> int {
    match m {
        Measure::Rows => 1,
        Measure::NullQuality => 1,
        Measure::TagCount => 3,
        Measure::Value => 2_147_483_647,
        Measure::ValueScaled => 2_147_483_647_000,
        _ => u64::MAX as int,
    }
}

/// What an event adds to a measure is bounded by the measure alone.
pub proof fn lemma_contribution_bound(m: Measure, tier: Tier, b: int, s: int)
    requires
        0 <= b,
        m is BatchTs ==> b <= i64::MAX,
        0 <= s < 100,
    ensures
        0 <= contribution(m, tier, b, s) <= amount_cap(m),
{
    let v = value_at(b, s);
    assert(0 <= (v * 1000) / (s + 1) <= v * 1000) by (nonlinear_arith)
        requires
            v >= 0,
            s >= 0,
    ;
}

/// A running total is bounded by the number of events behind it.
pub proof fn lemma_total_bound(m: Measure, tier: Tier, lo: int, b: int, s: nat)
    requires
        0 <= lo <= b,
        m is BatchTs ==> b <= i64::MAX,
        s <= 100,
    ensures
        0 <= range_total(m, tier, lo, b) + batch_total(m, tier, b, s) <= amount_cap(m) * (100 * (b
            - lo) + s),
    decreases b - lo, s,
{
    if s > 0 {
        lemma_total_bound(m, tier, lo, b, (s - 1) as nat);
        lemma_contribution_bound(m, tier, b, s - 1);
        assert(amount_cap(m) * (100 * (b - lo) + s) == amount_cap(m) * (100 * (b - lo) + (s - 1))
            + amount_cap(m)) by (nonlinear_arith);
    } else if b > lo {
        lemma_total_bound(m, tier, lo, b - 1, 100);
        assert(100 * (b - 1 - lo) + 100 == 100 * (b - lo) + s);
    } else {
        assert(amount_cap(m) * (100 * (b - lo) + s) == 0) by (nonlinear_arith)
            requires
                b == lo,
                s == 0,
        ;
    }
}

/// A range's total is the sum of the totals of the two ranges it is cut into.
pub proof fn law_totals_add(m: Measure, tier: Tier, lo: int, mid: int, hi: int)
    requires
        lo <= mid <= hi,
    ensures
        range_total(m, tier, lo, hi) == range_total(m, tier, lo, mid) + range_total(
            m,
            tier,
            mid,
            hi,
        ),
    decreases hi - mid,
{
    if mid < hi {
        law_totals_add(m, tier, lo, mid, hi - 1);
    }
}

/// Tier A lands every event; tier B never lands more rows than tier A, and never
/// a larger sum of `value`. Tier A has no scaled column, so its scaled sum is zero.
pub proof fn law_tiers_nest(lo: int, hi: int)
    requires
        0 <= lo <= hi,
    ensures
        range_total(Measure::Rows, Tier::A, lo, hi) == 100 * (hi - lo),
        range_total(Measure::Rows, Tier::B, lo, hi) <= range_total(
            Measure::Rows,
            Tier::A,
            lo,
            hi,
        ),
        range_total(Measure::Value, Tier::B, lo, hi) <= range_total(
            Measure::Value,
            Tier::A,
            lo,
            hi,
        ),
        range_total(Measure::ValueScaled, Tier::A, lo, hi) == 0,
    decreases hi - lo,
{
    if lo < hi {
        law_tiers_nest(lo, hi - 1);
        lemma_batch_tiers_nest(hi - 1, 100);
    }
}

proof fn lemma_batch_tiers_nest(b: int, n: nat)
    requires
        0 <= b,
        n <= 100,
    ensures
        batch_total(Measure::Rows, Tier::A, b, n) == n,
        batch_total(Measure::Rows, Tier::B, b, n) <= n,
        batch_total(Measure::Value, Tier::B, b, n) <= batch_total(Measure::Value, Tier::A, b, n),
        batch_total(Measure::ValueScaled, Tier::A, b, n) == 0,
    decreases n,
{
    if n > 0 {
        lemma_batch_tiers_nest(b, (n - 1) as nat);
        lemma_contribution_bound(Measure::Value, Tier::A, b, n - 1);
    }
}

/// The quantities summed for the gates are derivable for event `s` of batch `b`
/// without leaving their machine types.
pub open spec fn event_fits(tier: Tier, b: int, s: int) -> bool {
    match tier {
        Tier::A => value_fits(b, s),
        Tier::B => filter_fits(b, s) && (lands(tier, b, s) ==> value_fits(b, s)),
    }
}

/// They are for every event of batch `b`.
pub open spec fn events_fit(tier: Tier, b: int) -> bool {
    forall|s: int| 0 <= s < 100 ==> #[trigger] event_fits(tier, b, s)
}

/// The expectation of `lo..hi` is computable within the machine types.
pub open spec fn range_fits(tier: Tier, lo: int, hi: int) -> bool {
    &&& (hi - lo) * 100 <= u64::MAX
    &&& forall|b: int| lo <= b < hi ==> #[trigger] events_fit(tier, b)
}

fn event_is_computable(tier: Tier, b: u64, s: u64) -> (r: bool)
    requires
        s < 100,
    ensures
        r == event_fits(tier, b as int, s as int),
{
    let value: bool = b.wrapping_mul(1_000_003) <= 0xffff_ffff_ffff_ffff - s * 97;
    match tier {
        Tier::A => value,
        Tier::B => {
            let wide: u128 = b as u128;
            let at: u128 = s as u128;
            proof {
                lemma_keeps_by_residue(b as int, s as int);
            }
            if wide * 7 + at > 0xffff_ffff_ffff_ffff {
                false
            } else if (wide * 7 + at) % 8 == 3 {
                true
            } else if (wide + at) % 5 == 0 {
                value
            } else if wide * 13 + at * 7 > 0xffff_ffff_ffff_ffff {
                false
            } else {
                (wide * 13 + at * 7) % 100 < 20 || value
            }
        },
    }
}

fn batch_is_computable(tier: Tier, b: u64) -> (r: bool)
    ensures
        r == events_fit(tier, b as int),
{
    if b <= 1_418_980_313_362_273_147 && b.wrapping_mul(1_000_003) <= 0xffff_ffff_ffff_ffff - 9603 {
        return true;
    }
    let mut s: u64 = 0;
    while s < 100
        invariant
            s <= 100,
            forall|k: int| 0 <= k < s ==> #[trigger] event_fits(tier, b as int, k),
        decreases 100 - s,
    {
        if !event_is_computable(tier, b, s) {
            return false;
        }
        s += 1;
    }
    true
}

/// Whether the expectation of `lo..hi` is computable within the machine types.
pub fn range_is_computable(tier: Tier, lo: u64, hi: u64) -> (r: bool)
    ensures
        r == range_fits(tier, lo as int, hi as int),
{
    if lo >= hi {
        return true;
    }
    if hi - lo > 184_467_440_737_095_516 {
        return false;
    }
    let mut b: u64 = lo;
    while b < hi
        invariant
            lo <= b <= hi,
            forall|k: int| lo <= k < b ==> #[trigger] events_fit(tier, k),
        decreases hi - b,
    {
        if !batch_is_computable(tier, b) {
            return false;
        }
        b += 1;
    }
    true
}

/// What a correct arm must have produced.
#[derive(Clone, Copy, Debug, PartialEq, Eq, Structural)]
pub struct Expected {
    /// Distinct `(batch_id, event_seq)` rows. Anything less is data loss.
    pub rows: u64,
    /// Sum of `value` over distinct rows.
    pub value_sum: i128,
    /// Sum of `value_scaled` over distinct rows; zero for tier A.
    pub value_scaled_sum: i128,
}

/// What `lo..hi` must yield.
pub open spec fn is_expected(e: Expected, tier: Tier, lo: int, hi: int) -> bool {
    &&& e.rows == range_total(Measure::Rows, tier, lo, hi)
    &&& e.value_sum == range_total(Measure::Value, tier, lo, hi)
    &&& e.value_scaled_sum == range_total(Measure::ValueScaled, tier, lo, hi)
}

/// What the first `batches` messages must yield for `tier`.
pub fn expected(batches: u64, tier: Tier) -> (r: Expected)
    requires
        range_fits(tier, 0, batches as int),
    ensures
        is_expected(r, tier, 0, batches as int),
{
    expected_range(0, batches, tier)
}

/// What batches `lo..hi` must yield for `tier`: the derivations themselves,
/// summed, and no closed form that could share a misreading with an arm.
pub fn expected_range(lo: u64, hi: u64, tier: Tier) -> (r: Expected)
    requires
        range_fits(tier, lo as int, hi as int),
    ensures
        is_expected(r, tier, lo as int, hi as int),
{
    let mut out = Expected { rows: 0, value_sum: 0, value_scaled_sum: 0 };
    if lo >= hi {
        return out;
    }
    let mut b: u64 = lo;
    while b < hi
        invariant
            range_fits(tier, lo as int, hi as int),
            lo <= b <= hi,
            is_expected(out, tier, lo as int, b as int),
        decreases hi - b,
    {
        proof {
            assert(events_fit(tier, b as int));
        }
        let mut s: u32 = 0;
        while s < EVENTS_PER_BATCH
            invariant
                range_fits(tier, lo as int, hi as int),
                events_fit(tier, b as int),
                lo <= b < hi,
                s <= EVENTS_PER_BATCH,
                out.rows == range_total(Measure::Rows, tier, lo as int, b as int) + batch_total(
                    Measure::Rows,
                    tier,
                    b as int,
                    s as nat,
                ),
                out.value_sum == range_total(Measure::Value, tier, lo as int, b as int)
                    + batch_total(Measure::Value, tier, b as int, s as nat),
                out.value_scaled_sum == range_total(
                    Measure::ValueScaled,
                    tier,
                    lo as int,
                    b as int,
                ) + batch_total(Measure::ValueScaled, tier, b as int, s as nat),
            decreases EVENTS_PER_BATCH - s,
        {
            proof {
                assert(event_fits(tier, b as int, s as int));
                lemma_total_bound(Measure::Rows, tier, lo as int, b as int, s as nat);
                lemma_total_bound(Measure::Value, tier, lo as int, b as int, s as nat);
                lemma_total_bound(Measure::ValueScaled, tier, lo as int, b as int, s as nat);
                lemma_contribution_bound(Measure::ValueScaled, tier, b as int, s as int);
            }
            let kept: bool = match tier {
                Tier::A => true,
                Tier::B => tier_b_keeps(b, s),
            };
            if kept {
                let value: i64 = value_of(b, s);
                out.rows = out.rows + 1;
                out.value_sum = out.value_sum + value as i128;
                match tier {
                    Tier::A => {},
                    Tier::B => {
                        let v: i64 = value_scaled_of(value, s);
                        out.value_scaled_sum = out.value_scaled_sum + v as i128;
                    },
                }
            }
            s += 1;
        }
        b += 1;
    }
    out
}

/// Per-column checksums of what a correct arm must have produced.
#[derive(Clone, Copy, Debug, PartialEq, Eq, Structural)]
pub struct ColumnSums {
    pub sensor_sum: u128,
    pub region_sum: u128,
    pub name_sum: u128,
    pub unit_sum: u128,
    pub tag_count_sum: u128,
    pub tag_sum: u128,
    pub batch_ts_sum: u128,
    pub null_quality_rows: u128,
}

/// The checksums over `lo..b` and the first `s` events of `b`.
pub open spec fn are_column_sums(c: ColumnSums, tier: Tier, lo: int, b: int, s: nat) -> bool {
    &&& c.sensor_sum == range_total(Measure::Sensor, tier, lo, b) + batch_total(
        Measure::Sensor,
        tier,
        b,
        s,
    )
    &&& c.region_sum == range_total(Measure::Region, tier, lo, b) + batch_total(
        Measure::Region,
        tier,
        b,
        s,
    )
    &&& c.name_sum == range_total(Measure::Name, tier, lo, b) + batch_total(
        Measure::Name,
        tier,
        b,
        s,
    )
    &&& c.unit_sum == range_total(Measure::Unit, tier, lo, b) + batch_total(
        Measure::Unit,
        tier,
        b,
        s,
    )
    &&& c.tag_count_sum == range_total(Measure::TagCount, tier, lo, b) + batch_total(
        Measure::TagCount,
        tier,
        b,
        s,
    )
    &&& c.tag_sum == range_total(Measure::Tags, tier, lo, b) + batch_total(
        Measure::Tags,
        tier,
        b,
        s,
    )
    &&& c.batch_ts_sum == range_total(Measure::BatchTs, tier, lo, b) + batch_total(
        Measure::BatchTs,
        tier,
        b,
        s,
    )
    &&& c.null_quality_rows == range_total(Measure::NullQuality, tier, lo, b) + batch_total(
        Measure::NullQuality,
        tier,
        b,
        s,
    )
}

proof fn lemma_column_bounds(tier: Tier, lo: int, hi: int, b: int, s: nat)
    requires
        0 <= lo <= b < hi,
        hi <= i64::MAX,
        (hi - lo) * 100 <= u64::MAX,
        s < 100,
    ensures
        forall|m: Measure|
            0 <= #[trigger] range_total(m, tier, lo, b) + batch_total(m, tier, b, s) <= u64::MAX * (
            u64::MAX - 1),
        forall|m: Measure| 0 <= #[trigger] contribution(m, tier, b, s as int) <= u64::MAX,
{
    assert forall|m: Measure|
        0 <= #[trigger] range_total(m, tier, lo, b) + batch_total(m, tier, b, s) <= u64::MAX * (
        u64::MAX - 1) by {
        lemma_total_bound(m, tier, lo, b, s);
        assert(amount_cap(m) * (100 * (b - lo) + s) <= u64::MAX * (u64::MAX - 1))
            by (nonlinear_arith)
            requires
                0 <= amount_cap(m) <= u64::MAX,
                0 <= 100 * (b - lo) + s <= u64::MAX - 1,
        ;
    }
    assert forall|m: Measure| 0 <= #[trigger] contribution(m, tier, b, s as int) <= u64::MAX by {
        lemma_contribution_bound(m, tier, b, s as int);
    }
}

/// The checksums of batches `lo..hi` for `tier`.
pub fn column_sums(lo: u64, hi: u64, tier: Tier) -> (r: ColumnSums)
    requires
        lo <= hi,
        (hi - lo) * 100 <= u64::MAX,
        forall|b: int| lo <= b < hi ==> #[trigger] batch_fits(b),
        hi <= i64::MAX,
    ensures
        are_column_sums(r, tier, lo as int, hi as int, 0),
{
    let mut c = ColumnSums {
        sensor_sum: 0,
        region_sum: 0,
        name_sum: 0,
        unit_sum: 0,
        tag_count_sum: 0,
        tag_sum: 0,
        batch_ts_sum: 0,
        null_quality_rows: 0,
    };
    let mut b: u64 = lo;
    while b < hi
        invariant
            lo <= b <= hi,
            hi <= i64::MAX,
            (hi - lo) * 100 <= u64::MAX,
            forall|b: int| lo <= b < hi ==> #[trigger] batch_fits(b),
            are_column_sums(c, tier, lo as int, b as int, 0),
        decreases hi - b,
    {
        proof {
            assert(batch_fits(b as int));
        }
        let sensor = str_fingerprint(sensor_of(b).as_str()) as u128;
        let region = match region_of(b) {
            Some(r) => str_fingerprint(r.as_str()) as u128,
            None => {
                proof {
                    reveal_strlit("");
                    assert(""@ =~= Seq::<char>::empty());
                }
                str_fingerprint("") as u128
            },
        };
        let ts: u128 = batch_ts_ms_of(b) as u128;
        let mut s: u32 = 0;
        while s < EVENTS_PER_BATCH
            invariant
                lo <= b < hi,
                hi <= i64::MAX,
                (hi - lo) * 100 <= u64::MAX,
                batch_fits(b as int),
                s <= EVENTS_PER_BATCH,
                sensor == fingerprint(sensor_text(b as int)),
                region == fingerprint(region_column(region_text(b as int))),
                ts == BASE_TS_MS + b,
                are_column_sums(c, tier, lo as int, b as int, s as nat),
            decreases EVENTS_PER_BATCH - s,
        {
            proof {
                lemma_column_bounds(tier, lo as int, hi as int, b as int, s as nat);
            }
            let kept: bool = match tier {
                Tier::A => true,
                Tier::B => tier_b_keeps(b, s),
            };
            if kept {
                let name = match tier {
                    Tier::A => name_of(b, s),
                    Tier::B => ascii_upper(name_of(b, s).as_str()),
                };
                let tags = tags_of(b, s);
                let null: u128 = match quality_of(b, s) {
                    Some(_) => 0,
                    None => 1,
                };
                let ghost old_c = c;
                c = ColumnSums {
                    sensor_sum: add_checked(c.sensor_sum, sensor),
                    region_sum: add_checked(c.region_sum, region),
                    name_sum: add_checked(c.name_sum, str_fingerprint(name.as_str()) as u128),
                    unit_sum: add_checked(c.unit_sum, str_fingerprint(unit_of(b, s)) as u128),
                    tag_count_sum: add_checked(c.tag_count_sum, tags.len() as u128),
                    tag_sum: add_checked(c.tag_sum, str_fingerprint(join(&tags, "").as_str()) as u128),
                    batch_ts_sum: add_checked(c.batch_ts_sum, ts),
                    null_quality_rows: add_checked(c.null_quality_rows, null),
                };
                proof {
                    assert(tags@.len() == texts(tags@).len());
                    assert(lands(tier, b as int, s as int));
                }
            }
            s += 1;
        }
        b += 1;
    }
    c
}

fn add_checked(a: u128, b: u128) -> (r: u128)
    requires
        a <= u64::MAX * (u64::MAX - 1),
        b <= u64::MAX,
    ensures
        r == a + b,
{
    assert(u64::MAX * (u64::MAX - 1) + u64::MAX <= u128::MAX);
    a + b
}

pub open spec fn byte_power(n: nat) -> nat
    decreases n,
{
    if n == 0 {
        1
    } else {
        256 * byte_power((n - 1) as nat)
    }
}

fn little_endian(bytes: &[u8]) -> (r: u64)
    ensures
        r == le_value(first_eight(bytes@)),
{
    let ghost s = first_eight(bytes@);
    let mut i: usize = if bytes.len() < 8 {
        bytes.len()
    } else {
        8
    };
    proof {
        reveal_with_fuel(byte_power, 9);
        assert(s.skip(s.len() as int) =~= Seq::<u8>::empty());
    }
    let mut acc: u128 = 0;
    let ghost n = s.len();
    while i > 0
        invariant
            s == first_eight(bytes@),
            n == s.len(),
            n <= 8,
            i <= n,
            acc == le_value(s.skip(i as int)),
            acc < byte_power((n - i) as nat),
            byte_power(n) <= 0x1_0000_0000_0000_0000,
            byte_power(8) == 0x1_0000_0000_0000_0000,
        decreases i,
    {
        i -= 1;
        proof {
            assert(s.skip(i as int)[0] == bytes@[i as int]);
            assert(s.skip(i as int).skip(1) =~= s.skip(i + 1));
            lemma_byte_power((n - i - 1) as nat, 7);
            reveal_with_fuel(byte_power, 9);
        }
        acc = bytes[i] as u128 + 256 * acc;
    }
    proof {
        assert(s.skip(0) =~= s);
    }
    acc as u64
}

proof fn lemma_byte_power(m: nat, n: nat)
    requires
        m <= n,
    ensures
        1 <= byte_power(m) <= byte_power(n),
    decreases n,
{
    if m < n {
        lemma_byte_power(m, (n - 1) as nat);
    } else if m > 0 {
        lemma_byte_power((m - 1) as nat, (m - 1) as nat);
    }
}

/// The fingerprint of a text, as the column checksums sum it.
pub fn str_fingerprint(s: &str) -> (r: u64)
    ensures
        r == fingerprint(s@),
{
    let bytes = s.as_bytes();
    let mut back: Vec<u8> = Vec::new();
    let mut i: usize = bytes.len();
    while i > 0
        invariant
            i <= bytes@.len(),
            back@ == bytes@.reverse().take(bytes@.len() - i),
        decreases i,
    {
        i -= 1;
        back.push(bytes[i]);
        proof {
            assert(back@ =~= bytes@.reverse().take(bytes@.len() - i));
        }
    }
    proof {
        assert(back@ =~= bytes@.reverse());
    }
    little_endian(bytes).wrapping_add(little_endian(back.as_slice()))
}

// ---------------------------------------------------------------------------
// Target tables
// ---------------------------------------------------------------------------

/// The target tables. Queries for the correctness checks stand in its comments.
pub const DDL: &'static str = "-- Target tables of the two workload tiers.
CREATE TABLE IF NOT EXISTS sensor_events
(
    batch_id UInt64,
    event_seq UInt16,
    sensor LowCardinality(String),
    region LowCardinality(String),
    name LowCardinality(String),
    unit LowCardinality(String),
    value Int64,
    quality Nullable(Float64),
    tags Array(LowCardinality(String)),
    batch_ts DateTime64(3),
    send_ts DateTime64(6),
    ingest_ts DateTime64(6) MATERIALIZED now64(6)
)
ENGINE = MergeTree
ORDER BY (batch_id, event_seq);

CREATE TABLE IF NOT EXISTS sensor_events_t
(
    batch_id UInt64,
    event_seq UInt16,
    sensor LowCardinality(String),
    region LowCardinality(String),
    name_upper LowCardinality(String),
    unit LowCardinality(String),
    value Int64,
    value_scaled Int64,
    quality Nullable(Float64),
    tags Array(LowCardinality(String)),
    batch_ts DateTime64(3),
    send_ts DateTime64(6),
    ingest_ts DateTime64(6) MATERIALIZED now64(6)
)
ENGINE = MergeTree
ORDER BY (batch_id, event_seq);

-- The gates ask, over a range of batch_id:
--   SELECT uniqExact(batch_id) FROM sensor_events;
--   SELECT sum(toInt128(value)) FROM sensor_events;
";

/// Each line of `lines` up to its `--`.
pub open spec fn uncommented(all: Seq<Seq<char>>) -> Seq<Seq<char>> {
    Seq::new(all.len(), |i: int| before(all[i], "--"@))
}

/// The parts that hold more than white space, trimmed, in order.
pub open spec fn nonblank(parts: Seq<Seq<char>>) -> Seq<Seq<char>>
    decreases parts.len(),
{
    if parts.len() == 0 {
        seq![]
    } else if trimmed(parts.last()).len() == 0 {
        nonblank(parts.drop_last())
    } else {
        nonblank(parts.drop_last()).push(trimmed(parts.last()))
    }
}

/// The statements of a script: comments go first, since they may hold semicolons.
pub open spec fn statements(sql: Seq<char>) -> Seq<Seq<char>> {
    nonblank(split_at_each(joined(uncommented(lines_of(sql)), "\n"@), ';'))
}

/// The executable statements of [`DDL`].
pub fn ddl_statements() -> (r: Vec<String>)
    ensures
        texts(r@) == statements(DDL@),
{
    split_sql(DDL)
}

/// The statements of a script, without comments and blanks.
pub fn split_sql(sql: &str) -> (r: Vec<String>)
    ensures
        texts(r@) == statements(sql@),
{
    let all = lines(sql);
    let mut code: Vec<String> = Vec::new();
    let mut i: usize = 0;
    while i < all.len()
        invariant
            i <= all@.len(),
            texts(all@) == lines_of(sql@),
            texts(code@) == uncommented(texts(all@)).take(i as int),
        decreases all@.len() - i,
    {
        note(&mut code, cut_at(all[i].as_str(), "--"));
        i += 1;
        proof {
            assert(texts(code@) =~= uncommented(texts(all@)).take(i as int));
        }
    }
    proof {
        assert(uncommented(texts(all@)).take(i as int) =~= uncommented(texts(all@)));
    }
    let parts = split(join(&code, "\n").as_str(), ';');
    let mut out: Vec<String> = Vec::new();
    let mut k: usize = 0;
    while k < parts.len()
        invariant
            k <= parts@.len(),
            texts(out@) == nonblank(texts(parts@).take(k as int)),
        decreases parts@.len() - k,
    {
        let t = trim(parts[k].as_str());
        proof {
            let now = texts(parts@).take(k + 1);
            assert(now.drop_last() =~= texts(parts@).take(k as int));
            assert(now.last() == parts@[k as int]@);
        }
        if !t.as_str().is_empty() {
            note(&mut out, t);
        }
        k += 1;
    }
    proof {
        assert(texts(parts@).take(k as int) =~= texts(parts@));
    }
    out
}

// ---------------------------------------------------------------------------
// Laws on the generated fields
// ---------------------------------------------------------------------------

/// Every field of the corpus repeats: the sensor every 1024 batches, the region every 70,
/// the name every 32 batches and every 32 events, the unit every 8 of either, whether an
/// event has a quality every 5, its hundredths every 100 of either, and the tags every 16.
/// Nothing about a batch depends on how far into the corpus it lies.
pub proof fn law_fields_repeat(b: int, s: int)
    requires
        0 <= b,
        0 <= s,
    ensures
        sensor_text(b + 1024) == sensor_text(b),
        region_text(b + 70) == region_text(b),
        name_text(b + 32, s) == name_text(b, s),
        name_text(b, s + 32) == name_text(b, s),
        unit_text(b + 8, s) == unit_text(b, s),
        unit_text(b, s + 8) == unit_text(b, s),
        quality_at(b + 100, s) == quality_at(b, s),
        quality_at(b, s + 100) == quality_at(b, s),
        tags_at(b + 16, s) == tags_at(b, s),
        tags_at(b, s + 16) == tags_at(b, s),
{
    lemma_residue(b, 1, 1024);
    lemma_residue(b, 7, 10);
    lemma_residue(b, 10, 7);
    lemma_residue(b * 31 + s, 31, 32);
    lemma_residue(b * 31 + s, 1, 32);
    lemma_residue(b * 7 + s, 7, 8);
    lemma_residue(b * 7 + s, 1, 8);
    lemma_residue(b * 13 + s * 7, 13, 100);
    lemma_residue(b * 13 + s * 7, 7, 100);
    lemma_residue(b + s, 20, 5);
    assert(sensor_text(b + 1024) == sensor_text(b));
    assert(region_text(b + 70) == region_text(b));
    assert((b + 32) * 31 + s == b * 31 + s + 31 * 32);
    assert(b * 31 + (s + 32) == b * 31 + s + 1 * 32);
    assert((b + 8) * 7 + s == b * 7 + s + 7 * 8);
    assert(b * 7 + (s + 8) == b * 7 + s + 1 * 8);
    assert(quality_hundredths(b + 100, s) == quality_hundredths(b, s)) by {
        assert((b + 100) * 13 + s * 7 == b * 13 + s * 7 + 13 * 100);
    }
    assert(quality_hundredths(b, s + 100) == quality_hundredths(b, s)) by {
        assert(b * 13 + (s + 100) * 7 == b * 13 + s * 7 + 7 * 100);
    }
    assert((b + 100) + s == b + s + 20 * 5 && b + (s + 100) == b + s + 20 * 5);
    lemma_tags_repeat(b, s);
}

proof fn lemma_residue(x: int, k: int, m: int)
    requires
        m > 0,
    ensures
        (x + k * m) % m == x % m,
{
    vstd::arithmetic::div_mod::lemma_mod_multiples_vanish(k, x, m);
    assert(m * k == k * m) by (nonlinear_arith);
}

proof fn lemma_tags_repeat(b: int, s: int)
    requires
        0 <= b,
        0 <= s,
    ensures
        tags_at(b + 16, s) == tags_at(b, s),
        tags_at(b, s + 16) == tags_at(b, s),
{
    assert((b + 16 + s) % 4 == (b + s) % 4 && (b + (s + 16)) % 4 == (b + s) % 4);
    assert forall|j: int| 0 <= j < tags_at(b, s).len() implies tag_text(b + 16, s, j) == tag_text(
        b,
        s,
        j,
    ) && tag_text(b, s + 16, j) == tag_text(b, s, j) by {
        assert((b + 16 + s + j) % 16 == (b + s + j) % 16);
        assert((b + (s + 16) + j) % 16 == (b + s + j) % 16);
    }
    assert(tags_at(b + 16, s) =~= tags_at(b, s));
    assert(tags_at(b, s + 16) =~= tags_at(b, s));
}

/// Values step: the next event's is 97 more and, as long as the product stays within 64
/// bits, the next batch's is 1,000,003 more, both modulo the largest 31-bit prime. The
/// first is zero.
pub proof fn law_values_step(b: int, s: int)
    requires
        0 <= b,
        0 <= s,
    ensures
        value_at(0, 0) == 0,
        value_at(b, s + 1) == (value_at(b, s) + 97) % 2_147_483_647,
        (b + 1) * 1_000_003 < 0x1_0000_0000_0000_0000 ==> value_at(b + 1, s) == (value_at(b, s)
            + 1_000_003) % 2_147_483_647,
        0 <= value_at(b, s) < 2_147_483_647,
{
    let m = 2_147_483_647int;
    let x = value_base(b) + s * 97;
    assert((s + 1) * 97 == s * 97 + 97);
    vstd::arithmetic::div_mod::lemma_add_mod_noop(x, 97, m);
    vstd::arithmetic::div_mod::lemma_small_mod(97, m as nat);
    vstd::arithmetic::div_mod::lemma_add_mod_noop(value_at(b, s), 97, m);
    vstd::arithmetic::div_mod::lemma_mod_twice(x, m);
    if (b + 1) * 1_000_003 < 0x1_0000_0000_0000_0000 {
        vstd::arithmetic::div_mod::lemma_small_mod(
            (b * 1_000_003) as nat,
            0x1_0000_0000_0000_0000,
        );
        vstd::arithmetic::div_mod::lemma_small_mod(
            ((b + 1) * 1_000_003) as nat,
            0x1_0000_0000_0000_0000,
        );
        assert(value_base(b + 1) == value_base(b) + 1_000_003);
        vstd::arithmetic::div_mod::lemma_add_mod_noop(x, 1_000_003, m);
        vstd::arithmetic::div_mod::lemma_small_mod(1_000_003, m as nat);
        vstd::arithmetic::div_mod::lemma_add_mod_noop(value_at(b, s), 1_000_003, m);
    }
    vstd::arithmetic::div_mod::lemma_mod_bound(x, m);
}

/// The fields of a generated event and batch are those of their own index: the id, the
/// position, the event time and the send time that it was given.
pub proof fn law_batch_carries_its_own_index(b: int, send_ts_us: i64, s: int)
    requires
        batch_fits(b),
        0 <= s < 100,
    ensures
        ({
            let x = batch_at(b, send_ts_us);
            &&& x.batch_id == b
            &&& x.sensor == sensor_text(b)
            &&& x.region == region_text(b)
            &&& x.batch_ts_ms == 1_772_000_000_000 + b
            &&& x.send_ts_us == send_ts_us
            &&& x.events.len() == 100
            &&& x.events[s].seq == s
            &&& x.events[s].name == name_text(b, s)
            &&& x.events[s].unit == unit_text(b, s)
            &&& x.events[s].value == value_at(b, s)
            &&& x.events[s].quality == quality_at(b, s)
            &&& x.events[s].tags == tags_at(b, s)
        }),
{
}

/// A region is null for one batch in ten, and otherwise one of seven.
pub proof fn law_one_region_in_ten_is_null(b: int)
    requires
        0 <= b,
    ensures
        region_text(b) is None <==> b % 10 == 0,
        region_text(b) is Some ==> region_text(b)->Some_0 == "region-"@ + decimal((b % 7) as nat),
{
}

/// What a batch adds to the totals of a tier, event by event: one row, its value and, for
/// tier B, its scaled value, wherever the event lands; and an event lands in tier B
/// exactly where its unit is not `drop` and its quality, if it has one, is at least twenty
/// hundredths.
pub proof fn law_totals_count_what_lands(b: int, s: nat)
    requires
        0 <= b,
        s < 100,
    ensures
        ({
            let i = s as int;
            let kept = (b * 7 + i) % 8 != 3 && ((b + i) % 5 == 0 || quality_hundredths(b, i) >= 20);
            let n = (s + 1) as nat;
            let v = value_at(b, i);
            &&& batch_total(Measure::Rows, Tier::A, b, n) == batch_total(
                Measure::Rows,
                Tier::A,
                b,
                s,
            ) + 1
            &&& batch_total(Measure::Value, Tier::A, b, n) == batch_total(
                Measure::Value,
                Tier::A,
                b,
                s,
            ) + v
            &&& batch_total(Measure::Rows, Tier::B, b, n) == batch_total(
                Measure::Rows,
                Tier::B,
                b,
                s,
            ) + (if kept {
                1int
            } else {
                0
            })
            &&& batch_total(Measure::Value, Tier::B, b, n) == batch_total(
                Measure::Value,
                Tier::B,
                b,
                s,
            ) + (if kept {
                v
            } else {
                0
            })
            &&& batch_total(Measure::ValueScaled, Tier::B, b, n) == batch_total(
                Measure::ValueScaled,
                Tier::B,
                b,
                s,
            ) + (if kept {
                v * 1000 / (i + 1)
            } else {
                0
            })
            &&& batch_total(Measure::Rows, Tier::A, b, 0) == 0
            &&& batch_total(Measure::Value, Tier::B, b, 0) == 0
        }),
{
    lemma_keeps_by_residue(b, s as int);
}

/// The expectation of a range grows by one batch at a time, and that of no batch is
/// nothing.
pub proof fn law_range_grows_by_its_last_batch(m: Measure, tier: Tier, lo: int, hi: int)
    requires
        lo <= hi,
    ensures
        range_total(m, tier, lo, hi + 1) == range_total(m, tier, lo, hi) + batch_total(
            m,
            tier,
            hi,
            100,
        ),
        range_total(m, tier, lo, lo) == 0,
{
}

/// A frame is a zero byte, the schema id in four bytes, the most significant first, and
/// the datum.
pub proof fn law_frame_is_magic_id_datum(id: u32, datum: Seq<u8>)
    ensures
        ({
            let f = framed(id, datum);
            &&& f.len() == datum.len() + 5
            &&& f[0] == 0
            &&& f[1] as int * 0x100_0000 + f[2] as int * 0x1_0000 + f[3] as int * 0x100 + f[4] as int
                == id
            &&& f.skip(5) == datum
        }),
{
    let f = framed(id, datum);
    let n = id as int;
    assert(f.skip(5) =~= datum);
}

/// What an event that lands adds to each column's checksum is of that column: the
/// fingerprints of its batch's sensor and region, of its name as the tier holds it, of its
/// unit and of its tags run together; the number of its tags; its batch's time; and whether
/// its quality is null.
pub proof fn law_checksums_are_of_their_columns(b: int, s: int)
    requires
        0 <= b,
        0 <= s,
        keeps(unit_text(b, s), quality_at(b, s)),
    ensures
        contribution(Measure::Sensor, Tier::B, b, s) == fingerprint(sensor_text(b)),
        contribution(Measure::Region, Tier::B, b, s) == match region_text(b) {
            Some(r) => fingerprint(r),
            None => fingerprint(seq![]),
        },
        contribution(Measure::Name, Tier::A, b, s) == fingerprint(name_text(b, s)),
        contribution(Measure::Name, Tier::B, b, s) == fingerprint(upper_text(name_text(b, s))),
        contribution(Measure::Unit, Tier::B, b, s) == fingerprint(unit_text(b, s)),
        contribution(Measure::TagCount, Tier::B, b, s) == (b + s) % 4,
        contribution(Measure::Tags, Tier::B, b, s) == fingerprint(joined(tags_at(b, s), ""@)),
        contribution(Measure::BatchTs, Tier::B, b, s) == 1_772_000_000_000 + b,
        contribution(Measure::NullQuality, Tier::B, b, s) == if (b + s) % 5 == 0 {
            1int
        } else {
            0
        },
        contribution(Measure::Sensor, Tier::A, b, s) == contribution(Measure::Sensor, Tier::B, b, s),
        contribution(Measure::Unit, Tier::A, b, s) == contribution(Measure::Unit, Tier::B, b, s),
{
}

/// An event that tier B drops adds nothing to any of tier B's totals.
pub proof fn law_dropped_events_add_nothing(m: Measure, b: int, s: int)
    requires
        !keeps(unit_text(b, s), quality_at(b, s)),
    ensures
        contribution(m, Tier::B, b, s) == 0,
{
}

/// A record holds a value under a name exactly where one of its fields is that.
pub open spec fn holds_field(d: Datum, at: int, name: Seq<char>, value: Datum) -> bool {
    d is Record && 0 <= at < d->Record_0.len() && d->Record_0[at] == (name, value)
}

/// On the wire a batch is six fields and an event is six, in the order of the schema, each
/// holding under its name the value of that name; a null is the first branch of its union.
pub proof fn law_record_holds_each_value_under_its_name(b: BatchView, e: EventView)
    ensures
        ({
            let (r, v) = (batch_datum(b), event_datum(e));
            &&& r is Record && r->Record_0.len() == 6
            &&& holds_field(r, 0, "batch_id"@, Datum::Long(b.batch_id))
            &&& holds_field(r, 1, "sensor"@, Datum::Text(b.sensor))
            &&& b.region is None ==> holds_field(
                r,
                2,
                "region"@,
                Datum::Union(0, Box::new(Datum::Null)),
            )
            &&& b.region is Some ==> holds_field(
                r,
                2,
                "region"@,
                Datum::Union(1, Box::new(Datum::Text(b.region->Some_0))),
            )
            &&& holds_field(r, 3, "batch_ts_ms"@, Datum::Long(b.batch_ts_ms))
            &&& holds_field(r, 4, "send_ts_us"@, Datum::Long(b.send_ts_us))
            &&& r->Record_0[5].0 == "events"@ && r->Record_0[5].1 is Array
            &&& r->Record_0[5].1->Array_0.len() == b.events.len()
            &&& forall|i: int|
                0 <= i < b.events.len() ==> #[trigger] r->Record_0[5].1->Array_0[i] == event_datum(
                    b.events[i],
                )
            &&& v is Record && v->Record_0.len() == 6
            &&& holds_field(v, 0, "seq"@, Datum::Int(e.seq))
            &&& holds_field(v, 1, "name"@, Datum::Text(e.name))
            &&& holds_field(v, 2, "unit"@, Datum::Text(e.unit))
            &&& holds_field(v, 3, "value"@, Datum::Long(e.value))
            &&& e.quality is None ==> holds_field(
                v,
                4,
                "quality"@,
                Datum::Union(0, Box::new(Datum::Null)),
            )
            &&& e.quality is Some ==> holds_field(
                v,
                4,
                "quality"@,
                Datum::Union(1, Box::new(Datum::Double(e.quality->Some_0))),
            )
            &&& v->Record_0[5].0 == "tags"@ && v->Record_0[5].1 is Array
            &&& v->Record_0[5].1->Array_0.len() == e.tags.len()
            &&& forall|i: int|
                0 <= i < e.tags.len() ==> #[trigger] v->Record_0[5].1->Array_0[i] == Datum::Text(
                    e.tags[i],
                )
        }),
{
}

/// Tiers by name and by table, which tell them apart.
pub proof fn law_tiers_have_their_names()
    ensures
        Tier::A.name_text() == "a"@,
        Tier::B.name_text() == "b"@,
        Tier::A.table_text() == "sensor_events"@,
        Tier::B.table_text() == "sensor_events_t"@,
        Tier::A.table_text() != Tier::B.table_text(),
{
    reveal_strlit("sensor_events");
    reveal_strlit("sensor_events_t");
    assert("sensor_events"@.len() != "sensor_events_t"@.len());
}

/// Bytes are read as a number by position: a byte put behind counts for 256 times as much
/// as one put there before it.
pub proof fn law_bytes_are_positional(s: Seq<u8>, x: u8)
    ensures
        le_value(s.push(x)) == le_value(s) + x * byte_power(s.len()),
        le_value(seq![x] + s) == x + 256 * le_value(s),
        le_value(seq![]) == 0,
        byte_power(0) == 1,
        byte_power(s.len() + 1) == 256 * byte_power(s.len()),
    decreases s.len(),
{
    let ahead = seq![x] + s;
    assert(ahead.skip(1) =~= s);
    assert(ahead[0] == x);
    assert(le_value(ahead) == ahead[0] as nat + 256 * le_value(ahead.skip(1)));
    assert(byte_power(0) == 1);
    assert(byte_power((s.len() + 1) as nat) == 256 * byte_power(s.len()));
    if s.len() == 0 {
        let one = s.push(x);
        assert(one.skip(1) =~= s);
        assert(le_value(s) == 0);
        assert(le_value(one) == one[0] as nat + 256 * le_value(one.skip(1)));
        assert(x * byte_power(0) == x) by (nonlinear_arith)
            requires
                byte_power(0) == 1,
        ;
    } else {
        let rest = s.skip(1);
        let all = s.push(x);
        law_bytes_are_positional(rest, x);
        assert(all.skip(1) =~= rest.push(x));
        assert(all[0] == s[0]);
        let (p, q) = (byte_power(rest.len()) as int, x as int);
        assert(byte_power(s.len()) == 256 * byte_power(rest.len()));
        assert(256 * (q * p) == q * (256 * p)) by (nonlinear_arith);
        assert(le_value(all) == s[0] as nat + 256 * le_value(rest.push(x)));
        assert(le_value(s) == s[0] as nat + 256 * le_value(rest));
        assert(le_value(rest.push(x)) == le_value(rest) + q * p);
    }
}

/// The fingerprint of a text is read off both its ends, eight bytes of each at most, the
/// outermost first, so that a text and one whose bytes are the other way round have the
/// same; and of nothing it is nothing.
pub proof fn law_fingerprint_reads_both_ends(s: Seq<char>, t: Seq<char>)
    ensures
        ({
            let bytes = vstd::utf8::encode_utf8(s);
            let n = bytes.len();
            &&& 0 <= fingerprint(s) < 0x1_0000_0000_0000_0000
            &&& n <= 8 ==> fingerprint(s) == (le_value(bytes) + le_value(bytes.reverse())) as int
                % 0x1_0000_0000_0000_0000
            &&& n > 8 ==> fingerprint(s) == (le_value(bytes.take(8)) + le_value(
                bytes.skip(n - 8).reverse(),
            )) as int % 0x1_0000_0000_0000_0000
            &&& vstd::utf8::encode_utf8(t) == bytes.reverse() ==> fingerprint(t) == fingerprint(s)
            &&& n == 0 ==> fingerprint(s) == 0
        }),
{
    let bytes = vstd::utf8::encode_utf8(s);
    assert(bytes.reverse().reverse() =~= bytes);
    if bytes.len() > 8 {
        assert(bytes.reverse().take(8) =~= bytes.skip(bytes.len() - 8).reverse());
    }
}

/// Each checksum grows, with an event that lands, by what that column holds of it, and with
/// one that does not land by nothing.
pub proof fn law_each_checksum_grows_by_its_column(
    c: ColumnSums,
    d: ColumnSums,
    tier: Tier,
    lo: int,
    b: int,
    s: nat,
)
    requires
        0 <= lo <= b,
        are_column_sums(c, tier, lo, b, s),
        are_column_sums(d, tier, lo, b, s + 1),
    ensures
        ({
            let i = s as int;
            &&& !lands(tier, b, i) ==> d == c
            &&& lands(tier, b, i) ==> {
                &&& d.sensor_sum == c.sensor_sum + fingerprint(sensor_text(b))
                &&& d.unit_sum == c.unit_sum + fingerprint(unit_text(b, i))
                &&& d.tag_count_sum == c.tag_count_sum + (b + i) % 4
                &&& d.tag_sum == c.tag_sum + fingerprint(joined(tags_at(b, i), ""@))
                &&& d.batch_ts_sum == c.batch_ts_sum + 1_772_000_000_000 + b
                &&& (b + i) % 5 == 0 ==> d.null_quality_rows == c.null_quality_rows + 1
                &&& (b + i) % 5 != 0 ==> d.null_quality_rows == c.null_quality_rows
                &&& tier == Tier::A ==> d.name_sum == c.name_sum + fingerprint(name_text(b, i))
                &&& tier == Tier::B ==> d.name_sum == c.name_sum + fingerprint(
                    upper_text(name_text(b, i)),
                )
                &&& b % 10 == 0 ==> d.region_sum == c.region_sum + fingerprint(seq![])
                &&& b % 10 != 0 ==> d.region_sum == c.region_sum + fingerprint(
                    "region-"@ + decimal((b % 7) as nat),
                )
            }
            &&& are_column_sums(c, tier, lo, lo, 0) ==> c.sensor_sum == 0 && c.region_sum == 0
                && c.name_sum == 0 && c.unit_sum == 0 && c.tag_count_sum == 0 && c.tag_sum == 0
                && c.batch_ts_sum == 0 && c.null_quality_rows == 0
        }),
{
    law_one_region_in_ten_is_null(b);
}

/// What is expected of one batch more is, for tier A, a hundred rows and their values and
/// no scaled one; for tier B never more rows than that.
pub proof fn law_expectation_grows_by_a_batch(
    e: Expected,
    f: Expected,
    tier: Tier,
    lo: int,
    hi: int,
)
    requires
        0 <= lo <= hi,
        is_expected(e, tier, lo, hi),
        is_expected(f, tier, lo, hi + 1),
    ensures
        tier == Tier::A ==> f.rows == e.rows + 100 && f.value_scaled_sum == 0,
        tier == Tier::B ==> e.rows <= f.rows <= e.rows + 100,
        f.value_sum == e.value_sum + batch_total(Measure::Value, tier, hi, 100),
        f.value_scaled_sum == e.value_scaled_sum + batch_total(Measure::ValueScaled, tier, hi, 100),
        lo == hi ==> e.rows == 0 && e.value_sum == 0 && e.value_scaled_sum == 0,
{
    lemma_rows_of_batch(hi, 100);
    lemma_unscaled(lo, hi + 1);
}

proof fn lemma_rows_of_batch(b: int, n: nat)
    ensures
        batch_total(Measure::Rows, Tier::A, b, n) == n,
        0 <= batch_total(Measure::Rows, Tier::B, b, n) <= n,
        batch_total(Measure::ValueScaled, Tier::A, b, n) == 0,
    decreases n,
{
    if n > 0 {
        lemma_rows_of_batch(b, (n - 1) as nat);
    }
}

proof fn lemma_unscaled(lo: int, hi: int)
    ensures
        range_total(Measure::ValueScaled, Tier::A, lo, hi) == 0,
    decreases hi - lo,
{
    if lo < hi {
        lemma_unscaled(lo, hi - 1);
        lemma_rows_of_batch(hi - 1, 100);
    }
}

/// A statement stands where something is left between semicolons, trimmed; blank parts are
/// no statements.
pub proof fn law_statements_are_what_is_left(parts: Seq<Seq<char>>, p: Seq<char>)
    ensures
        trimmed(p).len() == 0 ==> nonblank(parts.push(p)) == nonblank(parts),
        trimmed(p).len() > 0 ==> nonblank(parts.push(p)) == nonblank(parts).push(trimmed(p)),
        nonblank(seq![]).len() == 0,
{
    assert(parts.push(p).drop_last() =~= parts);
}

/// How the fields go on: the first 1024 batches are of as many sensors, numbered as they
/// are; the first 32 events of as many names; a batch goes on in the names 31 further than
/// the one before it, in the units 7 further, and in the tags one further.
pub proof fn law_fields_go_on(b: int, s: int)
    requires
        0 <= b,
        0 <= s,
    ensures
        b < 1024 ==> sensor_text(b) == "sensor-"@ + decimal(b as nat),
        s < 32 ==> name_text(0, s) == "metric_"@ + decimal(s as nat),
        name_text(b + 1, s) == name_text(b, s + 31),
        unit_text(b + 1, s) == unit_text(b, s + 7),
        tags_at(b + 1, s) == tags_at(b, s + 1),
{
    assert((b + 1) * 31 + s == b * 31 + (s + 31));
    assert((b + 1) * 7 + s == b * 7 + (s + 7));
    assert forall|j: int| #[trigger] tag_text(b + 1, s, j) == tag_text(b, s + 1, j) by {
        assert(b + 1 + s + j == b + (s + 1) + j);
    }
    assert(b + 1 + s == b + (s + 1));
    assert(tags_at(b + 1, s) =~= tags_at(b, s + 1));
}

proof fn lemma_step(x: int, d: int, m: int)
    requires
        0 <= d < m,
    ensures
        (x + d) % m == (x % m + d) % m,
{
    vstd::arithmetic::div_mod::lemma_add_mod_noop(x, d, m);
    vstd::arithmetic::div_mod::lemma_small_mod(d as nat, m as nat);
    vstd::arithmetic::div_mod::lemma_add_mod_noop(x % m, d, m);
    vstd::arithmetic::div_mod::lemma_mod_twice(x, m);
}

/// Quality steps by thirteen hundredths with each batch and by seven with each event, and
/// one event in five has none.
pub proof fn law_quality_steps(b: int, s: int)
    requires
        0 <= b,
        0 <= s,
    ensures
        quality_hundredths(0, 0) == 0,
        quality_hundredths(b + 1, s) == (quality_hundredths(b, s) + 13) % 100,
        quality_hundredths(b, s + 1) == (quality_hundredths(b, s) + 7) % 100,
        quality_at(b, s) is None <==> (b + s) % 5 == 0,
        quality_at(b, s) is Some ==> quality_at(b, s)->Some_0 == hundredth_bits(
            quality_hundredths(b, s),
        ) as u64,
{
    let x = b * 13 + s * 7;
    lemma_step(x, 13, 100);
    lemma_step(x, 7, 100);
    assert((b + 1) * 13 + s * 7 == x + 13);
    assert(b * 13 + (s + 1) * 7 == x + 7);
}

/// An event has as many tags as its batch and its position leave over fours, no more than
/// three, and they follow one another: each is the next of sixteen.
pub proof fn law_tags_follow_one_another(b: int, s: int, j: int)
    requires
        0 <= b,
        0 <= s,
        0 <= j < tags_at(b, s).len(),
    ensures
        tags_at(b, s).len() == (b + s) % 4,
        tags_at(b, s)[j] == "tag-"@ + decimal(((b + s + j) % 16) as nat),
        j > 0 ==> tags_at(b, s)[j] == tag_text(b, s + 1, j - 1),
        tags_at(b, s).len() <= 3,
{
}

/// The eight units in their order, the fourth of which is the one that tier B drops.
pub proof fn law_units_in_order()
    ensures
        unit_text(0, 3) == "drop"@,
        unit_text(0, 3) == DROP_UNIT@,
        unit_text(0, 0) == "count"@,
        unit_text(0, 1) == "bytes"@,
        unit_text(0, 2) == "ms"@,
        unit_text(0, 4) == "ratio"@,
        unit_text(0, 5) == "celsius"@,
        unit_text(0, 6) == "volts"@,
        unit_text(0, 7) == "rpm"@,
{
}

} // verus!
