//! What is on the wire: reading a decoded datum as a typed batch, and proving a
//! framed message against the derivations it was made from.
use vstd::prelude::*;
use vstd::slice::*;
use crate::avro::{avro_datum, avro_value, AvroValue, Datum};
use crate::corpus::{
    batch_at, batch_datum, batch_fits, decode_batch, event_at, event_datum, events_datum, framed,
    is_compact, is_compact_event, name_of, name_text, nullable_double, nullable_text, opt_text,
    quality_at, quality_of, region_of, region_text, sensor_of, sensor_text, tag_text, tags_at,
    tags_datum, tags_of, unit_of, unit_text, value_at, value_fits, value_of, BatchView, Event,
    EventView, SensorBatch, BASE_TS_MS, EVENTS_PER_BATCH, SCHEMA_JSON, UNITS,
};
use crate::doubles::{equal, is_equal, lemma_hundredth_order};
use crate::text::{cat5, dec, decimal, lemma_decimal_short, same, texts};

verus! {

// ---------------------------------------------------------------------------
// The typed view of a decoded value
// ---------------------------------------------------------------------------

fn long_of(v: &AvroValue) -> (r: Option<i64>)
    ensures
        match r {
            Some(n) => v@ == Datum::Long(n),
            None => !(v@ is Long),
        },
{
    match v {
        AvroValue::Long(n) => Some(*n),
        _ => None,
    }
}

fn int_of(v: &AvroValue) -> (r: Option<i32>)
    ensures
        match r {
            Some(n) => v@ == Datum::Int(n),
            None => !(v@ is Int),
        },
{
    match v {
        AvroValue::Int(n) => Some(*n),
        _ => None,
    }
}

fn text_of(v: &AvroValue) -> (r: Option<String>)
    ensures
        match r {
            Some(s) => v@ == Datum::Text(s@),
            None => !(v@ is Text),
        },
{
    match v {
        AvroValue::Text(s) => Some(s.clone()),
        _ => None,
    }
}

fn nullable_text_of(v: &AvroValue) -> (r: Option<Option<String>>)
    ensures
        match r {
            Some(o) => v@ == nullable_text(opt_text(o)),
            None => forall|o: Option<Seq<char>>| v@ != nullable_text(o),
        },
{
    proof {
        reveal_with_fuel(AvroValue::view, 3);
    }
    match v {
        AvroValue::Union(i, inner) => match &**inner {
            AvroValue::Null => if *i == 0 {
                Some(None)
            } else {
                None
            },
            AvroValue::Text(s) => if *i == 1 {
                Some(Some(s.clone()))
            } else {
                None
            },
            _ => None,
        },
        _ => None,
    }
}

fn nullable_double_of(v: &AvroValue) -> (r: Option<Option<u64>>)
    ensures
        match r {
            Some(o) => v@ == nullable_double(o),
            None => forall|o: Option<u64>| v@ != nullable_double(o),
        },
{
    proof {
        reveal_with_fuel(AvroValue::view, 3);
    }
    match v {
        AvroValue::Union(i, inner) => match &**inner {
            AvroValue::Null => if *i == 0 {
                Some(None)
            } else {
                None
            },
            AvroValue::Double(b) => if *i == 1 {
                Some(Some(*b))
            } else {
                None
            },
            _ => None,
        },
        _ => None,
    }
}

fn texts_of(v: &AvroValue) -> (r: Option<Vec<String>>)
    ensures
        match r {
            Some(t) => v@ == tags_datum(texts(t@)),
            None => forall|t: Seq<Seq<char>>| v@ != tags_datum(t),
        },
{
    match v {
        AvroValue::Array(items) => {
            let mut out: Vec<String> = Vec::new();
            let mut i: usize = 0;
            while i < items.len()
                invariant
                    v is Array,
                    v->Array_0 == items,
                    i <= items@.len(),
                    out@.len() == i,
                    forall|k: int| 0 <= k < i ==> (#[trigger] items@[k])@ == Datum::Text(out@[k]@),
                decreases items@.len() - i,
            {
                match text_of(&items[i]) {
                    Some(s) => {
                        out.push(s);
                    },
                    None => {
                        proof {
                            assert forall|t: Seq<Seq<char>>| v@ != tags_datum(t) by {
                                if v@ == tags_datum(t) {
                                    assert(tags_datum(t)->Array_0.len() == t.len());
                                    assert((v@->Array_0)[i as int] == items@[i as int]@);
                                    assert((v@->Array_0)[i as int] == Datum::Text(t[i as int]));
                                }
                            }
                        }
                        return None;
                    },
                }
                i += 1;
            }
            proof {
                let built = tags_datum(texts(out@))->Array_0;
                assert forall|k: int| 0 <= k < built.len() implies built[k] == (v@->Array_0)[k] by {
                    assert((v@->Array_0)[k] == items@[k]@);
                }
                assert(built =~= v@->Array_0);
            }
            Some(out)
        },
        _ => None,
    }
}

/// The name and value of field `i` are as the record lists them.
proof fn lemma_field(v: AvroValue, i: int)
    requires
        v is Record,
        0 <= i < v->Record_0@.len(),
    ensures
        v@ is Record,
        v@->Record_0.len() == v->Record_0@.len(),
        (v@->Record_0)[i] == (v->Record_0@[i].0@, v->Record_0@[i].1@),
{
}

fn has_names(fields: &Vec<(String, AvroValue)>, names: &Vec<&str>) -> (r: bool)
    ensures
        r == (fields@.len() == names@.len() && forall|i: int|
            0 <= i < names@.len() ==> fields@[i].0@ == (#[trigger] names@[i])@),
{
    if fields.len() != names.len() {
        return false;
    }
    let mut i: usize = 0;
    while i < names.len()
        invariant
            i <= names@.len(),
            fields@.len() == names@.len(),
            forall|k: int| 0 <= k < i ==> fields@[k].0@ == (#[trigger] names@[k])@,
        decreases names@.len() - i,
    {
        if !same(fields[i].0.as_str(), names[i]) {
            return false;
        }
        i += 1;
    }
    true
}

/// The event a value is, if it is an `Event` record of the schema.
fn typed_event(v: &AvroValue) -> (r: Option<Event>)
    ensures
        match r {
            Some(e) => v@ == event_datum(e@),
            None => forall|e: EventView| v@ != event_datum(e),
        },
{
    match v {
        AvroValue::Record(fields) => {
            let names = vec!["seq", "name", "unit", "value", "quality", "tags"];
            if !has_names(fields, &names) {
                proof {
                    assert(names@[0] == "seq" && names@[1] == "name" && names@[2] == "unit" && names@[3] == "value" && names@[4] == "quality" && names@[5] == "tags");
                    assert forall|e: EventView| v@ != event_datum(e) by {
                        if v@ == event_datum(e) {
                            let w = event_datum(e)->Record_0;
                            assert(w.len() == 6);
                            assert(v@->Record_0.len() == fields@.len());
                            assert(w[0].0 == "seq"@);
                            lemma_field(*v, 0);
                            assert(w[1].0 == "name"@);
                            lemma_field(*v, 1);
                            assert(w[2].0 == "unit"@);
                            lemma_field(*v, 2);
                            assert(w[3].0 == "value"@);
                            lemma_field(*v, 3);
                            assert(w[4].0 == "quality"@);
                            lemma_field(*v, 4);
                            assert(w[5].0 == "tags"@);
                            lemma_field(*v, 5);
                        }
                    }
                }
                return None;
            }
            proof {
                assert(names@[0] == "seq" && names@[1] == "name" && names@[2] == "unit"
                    && names@[3] == "value" && names@[4] == "quality" && names@[5] == "tags");
                lemma_field(*v, 0);
                lemma_field(*v, 1);
                lemma_field(*v, 2);
                lemma_field(*v, 3);
                lemma_field(*v, 4);
                lemma_field(*v, 5);
            }
            match (
                int_of(&fields[0].1),
                text_of(&fields[1].1),
                text_of(&fields[2].1),
                long_of(&fields[3].1),
                nullable_double_of(&fields[4].1),
                texts_of(&fields[5].1),
            ) {
                (Some(seq), Some(name), Some(unit), Some(value), Some(quality), Some(tags)) => {
                    let out = Event { seq, name, unit, value, quality, tags };
                    proof {
                        assert(event_datum(out@)->Record_0 =~= v@->Record_0);
                    }
                    Some(out)
                },
                _ => {
                    proof {
                        assert forall|e: EventView| v@ != event_datum(e) by {
                            if v@ == event_datum(e) {
                                let w = event_datum(e)->Record_0;
                                assert(w[0] == ("seq"@, Datum::Int(e.seq)));
                                assert(w[1] == ("name"@, Datum::Text(e.name)));
                                assert(w[2] == ("unit"@, Datum::Text(e.unit)));
                                assert(w[3] == ("value"@, Datum::Long(e.value)));
                                assert(w[4] == ("quality"@, nullable_double(e.quality)));
                                assert(w[5] == ("tags"@, tags_datum(e.tags)));
                            }
                        }
                    }
                    None
                },
            }
        },
        _ => None,
    }
}

pub open spec fn event_views(events: Seq<Event>) -> Seq<EventView> {
    Seq::new(events.len(), |i: int| events[i]@)
}

fn typed_events(v: &AvroValue) -> (r: Option<Vec<Event>>)
    ensures
        match r {
            Some(t) => v@ == events_datum(event_views(t@)),
            None => forall|t: Seq<EventView>| v@ != events_datum(t),
        },
{
    match v {
        AvroValue::Array(items) => {
            let mut out: Vec<Event> = Vec::new();
            let mut i: usize = 0;
            while i < items.len()
                invariant
                    v is Array,
                    v->Array_0 == items,
                    i <= items@.len(),
                    out@.len() == i,
                    forall|k: int| 0 <= k < i ==> (#[trigger] items@[k])@ == event_datum(out@[k]@),
                decreases items@.len() - i,
            {
                match typed_event(&items[i]) {
                    Some(e) => {
                        out.push(e);
                    },
                    None => {
                        proof {
                            assert forall|t: Seq<EventView>| v@ != events_datum(t) by {
                                if v@ == events_datum(t) {
                                    assert(events_datum(t)->Array_0.len() == t.len());
                                    assert((v@->Array_0)[i as int] == items@[i as int]@);
                                    assert((v@->Array_0)[i as int] == event_datum(t[i as int]));
                                }
                            }
                        }
                        return None;
                    },
                }
                i += 1;
            }
            proof {
                let built = events_datum(event_views(out@))->Array_0;
                assert forall|k: int| 0 <= k < built.len() implies built[k] == (v@->Array_0)[k] by {
                    assert((v@->Array_0)[k] == items@[k]@);
                }
                assert(built =~= v@->Array_0);
            }
            Some(out)
        },
        _ => None,
    }
}

/// The batch a decoded value is, if it is a `SensorBatch` record of the schema.
pub fn typed_batch(v: &AvroValue) -> (r: Option<SensorBatch>)
    ensures
        match r {
            Some(b) => v@ == batch_datum(b@),
            None => forall|b: BatchView| v@ != batch_datum(b),
        },
{
    match v {
        AvroValue::Record(fields) => {
            let names = vec!["batch_id", "sensor", "region", "batch_ts_ms", "send_ts_us", "events"];
            if !has_names(fields, &names) {
                proof {
                    assert(names@[0] == "batch_id" && names@[1] == "sensor" && names@[2] == "region" && names@[3] == "batch_ts_ms" && names@[4] == "send_ts_us" && names@[5] == "events");
                    assert forall|b: BatchView| v@ != batch_datum(b) by {
                        if v@ == batch_datum(b) {
                            let w = batch_datum(b)->Record_0;
                            assert(w.len() == 6);
                            assert(v@->Record_0.len() == fields@.len());
                            assert(w[0].0 == "batch_id"@);
                            lemma_field(*v, 0);
                            assert(w[1].0 == "sensor"@);
                            lemma_field(*v, 1);
                            assert(w[2].0 == "region"@);
                            lemma_field(*v, 2);
                            assert(w[3].0 == "batch_ts_ms"@);
                            lemma_field(*v, 3);
                            assert(w[4].0 == "send_ts_us"@);
                            lemma_field(*v, 4);
                            assert(w[5].0 == "events"@);
                            lemma_field(*v, 5);
                        }
                    }
                }
                return None;
            }
            proof {
                assert(names@[0] == "batch_id" && names@[1] == "sensor" && names@[2] == "region"
                    && names@[3] == "batch_ts_ms" && names@[4] == "send_ts_us" && names@[5]
                    == "events");
                lemma_field(*v, 0);
                lemma_field(*v, 1);
                lemma_field(*v, 2);
                lemma_field(*v, 3);
                lemma_field(*v, 4);
                lemma_field(*v, 5);
            }
            match (
                long_of(&fields[0].1),
                text_of(&fields[1].1),
                nullable_text_of(&fields[2].1),
                long_of(&fields[3].1),
                long_of(&fields[4].1),
                typed_events(&fields[5].1),
            ) {
                (
                    Some(batch_id),
                    Some(sensor),
                    Some(region),
                    Some(batch_ts_ms),
                    Some(send_ts_us),
                    Some(events),
                ) => {
                    let out = SensorBatch {
                        batch_id,
                        sensor,
                        region,
                        batch_ts_ms,
                        send_ts_us,
                        events,
                    };
                    proof {
                        assert(out@.events =~= event_views(out.events@));
                        assert(batch_datum(out@)->Record_0 =~= v@->Record_0);
                    }
                    Some(out)
                },
                _ => {
                    proof {
                        assert forall|b: BatchView| v@ != batch_datum(b) by {
                            if v@ == batch_datum(b) {
                                let w = batch_datum(b)->Record_0;
                                assert(w[0] == ("batch_id"@, Datum::Long(b.batch_id)));
                                assert(w[1] == ("sensor"@, Datum::Text(b.sensor)));
                                assert(w[2] == ("region"@, nullable_text(b.region)));
                                assert(w[3] == ("batch_ts_ms"@, Datum::Long(b.batch_ts_ms)));
                                assert(w[4] == ("send_ts_us"@, Datum::Long(b.send_ts_us)));
                                assert(w[5] == ("events"@, events_datum(b.events)));
                            }
                        }
                    }
                    None
                },
            }
        },
        _ => None,
    }
}

proof fn lemma_event_datum_injective(a: EventView, b: EventView)
    requires
        event_datum(a) == event_datum(b),
    ensures
        a == b,
{
    let (x, y) = (event_datum(a)->Record_0, event_datum(b)->Record_0);
    assert(x[0] == ("seq"@, Datum::Int(a.seq)) && y[0] == ("seq"@, Datum::Int(b.seq)));
    assert(x[1] == ("name"@, Datum::Text(a.name)) && y[1] == ("name"@, Datum::Text(b.name)));
    assert(x[2] == ("unit"@, Datum::Text(a.unit)) && y[2] == ("unit"@, Datum::Text(b.unit)));
    assert(x[3] == ("value"@, Datum::Long(a.value)) && y[3] == ("value"@, Datum::Long(b.value)));
    assert(x[4] == ("quality"@, nullable_double(a.quality)) && y[4] == (
        "quality"@,
        nullable_double(b.quality),
    ));
    assert(x[5] == ("tags"@, tags_datum(a.tags)) && y[5] == ("tags"@, tags_datum(b.tags)));
    let (p, q) = (tags_datum(a.tags)->Array_0, tags_datum(b.tags)->Array_0);
    assert(p.len() == a.tags.len() && q.len() == b.tags.len());
    assert forall|i: int| 0 <= i < a.tags.len() implies a.tags[i] == b.tags[i] by {
        assert(p[i] == Datum::Text(a.tags[i]));
        assert(q[i] == Datum::Text(b.tags[i]));
    }
    assert(a.tags =~= b.tags);
}

/// The batch that a bare datum holds. What [`encode_batch`](crate::corpus::encode_batch)
/// writes is read back whole, both unions and the inner array included.
pub fn read_batch(datum: &[u8]) -> (r: Option<SensorBatch>)
    ensures
        match r {
            Some(b) => avro_value(SCHEMA_JSON@, datum@) == Some(batch_datum(b@)),
            None => forall|b: BatchView|
                avro_value(SCHEMA_JSON@, datum@) != Some(#[trigger] batch_datum(b)),
        },
        forall|b: int, ts: i64|
            0 <= b && avro_datum(SCHEMA_JSON@, batch_datum(#[trigger] batch_at(b, ts))) == Some(
                datum@,
            ) ==> r is Some && r->Some_0@ == batch_at(b, ts),
{
    let r = match decode_batch(datum) {
        Some(v) => typed_batch(&v),
        None => None,
    };
    proof {
        assert forall|b: int, ts: i64|
            0 <= b && avro_datum(SCHEMA_JSON@, batch_datum(#[trigger] batch_at(b, ts))) == Some(
                datum@,
            ) implies r is Some && r->Some_0@ == batch_at(b, ts) by {
            lemma_generated_is_compact(b, ts);
            if r is Some {
                law_record_determines_batch(r->Some_0@, batch_at(b, ts));
            }
        }
    }
    r
}

/// Two batches with the same Avro record are the same batch.
pub proof fn law_record_determines_batch(a: BatchView, b: BatchView)
    requires
        batch_datum(a) == batch_datum(b),
    ensures
        a == b,
{
    let (x, y) = (batch_datum(a)->Record_0, batch_datum(b)->Record_0);
    assert(x[0] == ("batch_id"@, Datum::Long(a.batch_id)) && y[0] == (
        "batch_id"@,
        Datum::Long(b.batch_id),
    ));
    assert(x[1] == ("sensor"@, Datum::Text(a.sensor)) && y[1] == (
        "sensor"@,
        Datum::Text(b.sensor),
    ));
    assert(x[2] == ("region"@, nullable_text(a.region)) && y[2] == (
        "region"@,
        nullable_text(b.region),
    ));
    assert(x[3] == ("batch_ts_ms"@, Datum::Long(a.batch_ts_ms)) && y[3] == (
        "batch_ts_ms"@,
        Datum::Long(b.batch_ts_ms),
    ));
    assert(x[4] == ("send_ts_us"@, Datum::Long(a.send_ts_us)) && y[4] == (
        "send_ts_us"@,
        Datum::Long(b.send_ts_us),
    ));
    assert(x[5] == ("events"@, events_datum(a.events)) && y[5] == (
        "events"@,
        events_datum(b.events),
    ));
    let (p, q) = (events_datum(a.events)->Array_0, events_datum(b.events)->Array_0);
    assert(p.len() == a.events.len() && q.len() == b.events.len());
    assert forall|i: int| 0 <= i < a.events.len() implies a.events[i] == b.events[i] by {
        assert(p[i] == event_datum(a.events[i]));
        assert(q[i] == event_datum(b.events[i]));
        lemma_event_datum_injective(a.events[i], b.events[i]);
    }
    assert(a.events =~= b.events);
}

// ---------------------------------------------------------------------------
// Verifying a message
// ---------------------------------------------------------------------------

/// The first respect in which a message differs from what its `batch_id` makes.
#[derive(Clone, Copy, Debug, PartialEq, Eq, Structural)]
pub enum Mismatch {
    /// Too short to be framed, with its length.
    TooShort(usize),
    /// The first byte is not zero.
    Magic(u8),
    /// The embedded schema id is another one.
    SchemaId(u32),
    /// The datum does not decode.
    Undecodable,
    /// The datum decodes to something other than a batch.
    NotABatch,
    NegativeBatchId(i64),
    /// No message can be derived for this `batch_id`.
    OutOfRange(u64),
    Sensor(u64),
    Region(u64),
    BatchTs(u64),
    SendTs(u64),
    EventCount(u64, usize),
    NegativeSeq(u64, i32),
    /// No event can be derived for this `batch_id` and position.
    SeqOutOfRange(u64, u32),
    Name(u64, u32),
    Unit(u64, u32),
    Value(u64, u32),
    Quality(u64, u32),
    Tags(u64, u32),
}

/// The fields of event `s` of batch `b` are derivable.
pub open spec fn event_fits(b: int, s: int) -> bool {
    b * 31 + s <= u64::MAX && b * 13 + s * 7 <= u64::MAX && value_fits(b, s)
}

pub open spec fn same_quality(a: Option<u64>, b: Option<u64>) -> bool {
    match (a, b) {
        (None, None) => true,
        (Some(x), Some(y)) => is_equal(x, y),
        _ => false,
    }
}

/// The first mismatch of an event with its position in batch `b`.
pub open spec fn event_mismatch(b: u64, e: EventView) -> Option<Mismatch> {
    let s = e.seq as u32;
    if e.seq < 0 {
        Some(Mismatch::NegativeSeq(b, e.seq))
    } else if !event_fits(b as int, s as int) {
        Some(Mismatch::SeqOutOfRange(b, s))
    } else if e.name != name_text(b as int, s as int) {
        Some(Mismatch::Name(b, s))
    } else if e.unit != unit_text(b as int, s as int) {
        Some(Mismatch::Unit(b, s))
    } else if e.value != value_at(b as int, s as int) {
        Some(Mismatch::Value(b, s))
    } else if !same_quality(e.quality, quality_at(b as int, s as int)) {
        Some(Mismatch::Quality(b, s))
    } else if e.tags != tags_at(b as int, s as int) {
        Some(Mismatch::Tags(b, s))
    } else {
        None
    }
}

/// The first mismatch among the first `n` events.
pub open spec fn events_mismatch(b: u64, events: Seq<EventView>, n: nat) -> Option<Mismatch>
    decreases n,
{
    if n == 0 {
        None
    } else {
        match events_mismatch(b, events, (n - 1) as nat) {
            Some(m) => Some(m),
            None => event_mismatch(b, events[n - 1]),
        }
    }
}

/// A prefilled batch proven against its derivations: its id, or the first mismatch.
pub open spec fn batch_verdict(b: BatchView) -> Result<u64, Mismatch> {
    let id = b.batch_id as u64;
    if b.batch_id < 0 {
        Err(Mismatch::NegativeBatchId(b.batch_id))
    } else if BASE_TS_MS * 1000 + id > i64::MAX {
        Err(Mismatch::OutOfRange(id))
    } else if b.sensor != sensor_text(id as int) {
        Err(Mismatch::Sensor(id))
    } else if b.region != region_text(id as int) {
        Err(Mismatch::Region(id))
    } else if b.batch_ts_ms != BASE_TS_MS + id {
        Err(Mismatch::BatchTs(id))
    } else if b.send_ts_us != BASE_TS_MS * 1000 + id {
        Err(Mismatch::SendTs(id))
    } else if b.events.len() != EVENTS_PER_BATCH {
        Err(Mismatch::EventCount(id, b.events.len() as usize))
    } else {
        match events_mismatch(id, b.events, b.events.len()) {
            Some(m) => Err(m),
            None => Ok(id),
        }
    }
}

/// A framed payload proven, given what its datum decoded to.
pub open spec fn payload_verdict(
    payload: Seq<u8>,
    schema_id: u32,
    decoded: Option<Datum>,
) -> Result<u64, Mismatch> {
    if payload.len() <= 5 {
        Err(Mismatch::TooShort(payload.len() as usize))
    } else if payload[0] != 0 {
        Err(Mismatch::Magic(payload[0]))
    } else if embedded_id(payload) != schema_id {
        Err(Mismatch::SchemaId(embedded_id(payload)))
    } else {
        match decoded {
            None => Err(Mismatch::Undecodable),
            Some(d) => if exists|b: BatchView| d == #[trigger] batch_datum(b) {
                batch_verdict(choose|b: BatchView| d == #[trigger] batch_datum(b))
            } else {
                Err(Mismatch::NotABatch)
            },
        }
    }
}

/// The schema id in a frame's header.
pub open spec fn embedded_id(payload: Seq<u8>) -> u32 {
    (payload[1] * 0x100_0000 + payload[2] * 0x1_0000 + payload[3] * 0x100 + payload[4]) as u32
}

fn same_texts(a: &Vec<String>, b: &Vec<String>) -> (r: bool)
    ensures
        r == (texts(a@) == texts(b@)),
{
    if a.len() != b.len() {
        proof {
            assert(texts(a@).len() != texts(b@).len());
        }
        return false;
    }
    let mut i: usize = 0;
    while i < a.len()
        invariant
            i <= a@.len(),
            a@.len() == b@.len(),
            forall|k: int| 0 <= k < i ==> texts(a@)[k] == texts(b@)[k],
        decreases a@.len() - i,
    {
        if !same(a[i].as_str(), b[i].as_str()) {
            proof {
                assert(texts(a@)[i as int] != texts(b@)[i as int]);
            }
            return false;
        }
        i += 1;
    }
    proof {
        assert(texts(a@) =~= texts(b@));
    }
    true
}

fn check_event(b: u64, e: &Event) -> (r: Option<Mismatch>)
    requires
        b <= i64::MAX,
    ensures
        r == event_mismatch(b, e@),
{
    if e.seq < 0 {
        return Some(Mismatch::NegativeSeq(b, e.seq));
    }
    let s: u32 = e.seq as u32;
    let base: u64 = b.wrapping_mul(1_000_003);
    if b as u128 * 31 + s as u128 > 0xffff_ffff_ffff_ffff || b as u128 * 13 + s as u128 * 7
        > 0xffff_ffff_ffff_ffff || base as u128 + s as u128 * 97 > 0xffff_ffff_ffff_ffff {
        return Some(Mismatch::SeqOutOfRange(b, s));
    }
    if !same(e.name.as_str(), name_of(b, s).as_str()) {
        return Some(Mismatch::Name(b, s));
    }
    if !same(e.unit.as_str(), unit_of(b, s)) {
        return Some(Mismatch::Unit(b, s));
    }
    if e.value != value_of(b, s) {
        return Some(Mismatch::Value(b, s));
    }
    let quality_ok: bool = match (e.quality, quality_of(b, s)) {
        (None, None) => true,
        (Some(x), Some(y)) => equal(x, y),
        _ => false,
    };
    if !quality_ok {
        return Some(Mismatch::Quality(b, s));
    }
    if !same_texts(&e.tags, &tags_of(b, s)) {
        return Some(Mismatch::Tags(b, s));
    }
    None
}

fn same_option(a: &Option<String>, b: &Option<String>) -> (r: bool)
    ensures
        r == (opt_text(*a) == opt_text(*b)),
{
    match (a, b) {
        (None, None) => true,
        (Some(x), Some(y)) => same(x.as_str(), y.as_str()),
        _ => false,
    }
}

/// Re-derives every field of a prefilled batch from its id.
pub fn check_batch(b: &SensorBatch) -> (r: Result<u64, Mismatch>)
    ensures
        r == batch_verdict(b@),
{
    if b.batch_id < 0 {
        return Err(Mismatch::NegativeBatchId(b.batch_id));
    }
    let id: u64 = b.batch_id as u64;
    if id > 0x7fff_ffff_ffff_ffff - 1_772_000_000_000_000 {
        return Err(Mismatch::OutOfRange(id));
    }
    if !same(b.sensor.as_str(), sensor_of(id).as_str()) {
        return Err(Mismatch::Sensor(id));
    }
    if !same_option(&b.region, &region_of(id)) {
        return Err(Mismatch::Region(id));
    }
    if b.batch_ts_ms != BASE_TS_MS + id as i64 {
        return Err(Mismatch::BatchTs(id));
    }
    if b.send_ts_us != BASE_TS_MS * 1000 + id as i64 {
        return Err(Mismatch::SendTs(id));
    }
    if b.events.len() != EVENTS_PER_BATCH as usize {
        return Err(Mismatch::EventCount(id, b.events.len()));
    }
    proof {
        assert(b@.events =~= event_views(b.events@));
    }
    match check_events(id, &b.events) {
        Some(m) => Err(m),
        None => Ok(id),
    }
}

fn check_events(id: u64, events: &Vec<Event>) -> (r: Option<Mismatch>)
    requires
        id <= i64::MAX,
    ensures
        r == events_mismatch(id, event_views(events@), events@.len()),
{
    let ghost all = event_views(events@);
    let mut i: usize = 0;
    while i < events.len()
        invariant
            id <= i64::MAX,
            i <= events@.len(),
            all == event_views(events@),
            events_mismatch(id, all, i as nat) is None,
        decreases events@.len() - i,
    {
        let found = check_event(id, &events[i]);
        proof {
            assert(all[i as int] == events@[i as int]@);
            assert(events_mismatch(id, all, (i + 1) as nat) == found);
        }
        if let Some(m) = found {
            proof {
                lemma_first_mismatch(id, all, (i + 1) as nat, all.len());
            }
            return Some(m);
        }
        i += 1;
    }
    None
}

proof fn lemma_first_mismatch(b: u64, events: Seq<EventView>, n: nat, total: nat)
    requires
        n <= total,
        events_mismatch(b, events, n) is Some,
    ensures
        events_mismatch(b, events, total) == events_mismatch(b, events, n),
    decreases total,
{
    if n < total {
        lemma_first_mismatch(b, events, n, (total - 1) as nat);
    }
}

/// Proves a payload, given what its datum decoded to.
pub fn check_decoded(payload: &[u8], schema_id: u32, decoded: &Option<AvroValue>) -> (r: Result<
    u64,
    Mismatch,
>)
    ensures
        r == payload_verdict(
            payload@,
            schema_id,
            match *decoded {
                Some(v) => Some(v@),
                None => None,
            },
        ),
{
    if payload.len() <= 5 {
        return Err(Mismatch::TooShort(payload.len()));
    }
    if payload[0] != 0 {
        return Err(Mismatch::Magic(payload[0]));
    }
    let id: u32 = payload[1] as u32 * 0x100_0000 + payload[2] as u32 * 0x1_0000 + payload[3] as u32
        * 0x100 + payload[4] as u32;
    if id != schema_id {
        return Err(Mismatch::SchemaId(id));
    }
    match decoded {
        None => Err(Mismatch::Undecodable),
        Some(v) => match typed_batch(v) {
            None => Err(Mismatch::NotABatch),
            Some(b) => {
                proof {
                    let c = choose|c: BatchView| v@ == #[trigger] batch_datum(c);
                    assert(v@ == batch_datum(b@));
                    law_record_determines_batch(b@, c);
                }
                check_batch(&b)
            },
        },
    }
}

/// Proves one payload of a prefilled topic: the header byte for byte, the schema
/// id, and every field of the decoded datum. Gives the batch it is.
pub fn check_message(payload: &[u8], schema_id: u32) -> (r: Result<u64, Mismatch>)
    ensures
        r == payload_verdict(
            payload@,
            schema_id,
            avro_value(SCHEMA_JSON@, payload@.skip(5)),
        ),
        forall|b: int|
            batch_fits(b) && BASE_TS_MS * 1000 + b <= i64::MAX && #[trigger] is_prefill_payload(
                payload@,
                schema_id,
                b,
            ) ==> r == Ok::<u64, Mismatch>(b as u64),
{
    if payload.len() <= 5 {
        proof {
            assert forall|b: int| !#[trigger] is_prefill_payload(payload@, schema_id, b) by {
                if is_prefill_payload(payload@, schema_id, b) {
                    let datum = choose|datum: Seq<u8>|
                        datum.len() > 0 && payload@ == #[trigger] framed(schema_id, datum);
                    law_frame_reads_back(schema_id, datum);
                }
            }
        }
        return Err(Mismatch::TooShort(payload.len()));
    }
    let datum = slice_subrange(payload, 5, payload.len());
    proof {
        assert(datum@ =~= payload@.skip(5));
    }
    let decoded = decode_batch(datum);
    let out = check_decoded(payload, schema_id, &decoded);
    proof {
        assert forall|b: int|
            batch_fits(b) && BASE_TS_MS * 1000 + b <= i64::MAX && #[trigger] is_prefill_payload(
                payload@,
                schema_id,
                b,
            ) implies out == Ok::<u64, Mismatch>(b as u64) by {
            let ts = (BASE_TS_MS * 1000 + b) as i64;
            let written = choose|datum: Seq<u8>|
                datum.len() > 0 && payload@ == #[trigger] framed(schema_id, datum) && avro_datum(
                    SCHEMA_JSON@,
                    batch_datum(batch_at(b, ts)),
                ) == Some(datum);
            law_frame_reads_back(schema_id, written);
            lemma_generated_is_compact(b, ts);
            assert(decoded is Some && decoded->Some_0@ == batch_datum(batch_at(b, ts)));
            law_prefilled_payload_verifies(b, schema_id, payload@);
        }
    }
    out
}

/// What a verification of a topic does next.
#[derive(Debug)]
pub enum VerifyStep {
    /// Enough messages are proven.
    Done,
    /// Poll for another.
    Poll,
    /// Time is up.
    Expired(String),
}

/// Decides a verification that has proven `seen` of `sample` messages.
pub fn verify_step(seen: u64, sample: u64, past_deadline: bool) -> (r: VerifyStep)
    ensures
        match r {
            VerifyStep::Done => seen >= sample,
            VerifyStep::Poll => seen < sample && !past_deadline,
            VerifyStep::Expired(e) => seen < sample && past_deadline && e@ == "only verified "@
                + decimal(seen as nat) + " of "@ + decimal(sample as nat)
                + " messages before the deadline"@,
        },
{
    if seen >= sample {
        VerifyStep::Done
    } else if past_deadline {
        VerifyStep::Expired(
            cat5(
                "only verified ",
                dec(seen as u128).as_str(),
                " of ",
                dec(sample as u128).as_str(),
                " messages before the deadline",
            ),
        )
    } else {
        VerifyStep::Poll
    }
}

/// `payload` is batch `b`, sent at `send_ts_us`, framed under `schema_id`.
pub open spec fn is_payload(payload: Seq<u8>, schema_id: u32, b: int, send_ts_us: i64) -> bool {
    exists|datum: Seq<u8>|
        datum.len() > 0 && payload == #[trigger] framed(schema_id, datum) && avro_datum(
            SCHEMA_JSON@,
            batch_datum(batch_at(b, send_ts_us)),
        ) == Some(datum)
}

/// `payload` is what a prefill puts on the topic for batch `b`.
pub open spec fn is_prefill_payload(payload: Seq<u8>, schema_id: u32, b: int) -> bool {
    is_payload(payload, schema_id, b, (BASE_TS_MS * 1000 + b) as i64)
}

/// The header of a frame gives the schema id back, and the datum follows it.
pub proof fn law_frame_reads_back(id: u32, datum: Seq<u8>)
    ensures
        framed(id, datum).len() == datum.len() + 5,
        framed(id, datum)[0] == 0,
        embedded_id(framed(id, datum)) == id,
        framed(id, datum).skip(5) == datum,
{
    let f = framed(id, datum);
    assert(f.skip(5) =~= datum);
    assert(id == (id / 0x100_0000) * 0x100_0000 + (id / 0x1_0000 % 0x100) * 0x1_0000 + (id / 0x100
        % 0x100) * 0x100 + id % 0x100) by (bit_vector);
    assert(id / 0x100_0000 < 0x100) by (bit_vector);
    assert(f[1] == (id / 0x100_0000) as u8);
    assert(f[2] == (id / 0x1_0000 % 0x100) as u8);
    assert(f[3] == (id / 0x100 % 0x100) as u8);
    assert(f[4] == (id % 0x100) as u8);
}

/// No event of a generated batch mismatches.
proof fn lemma_generated_events_match(b: int, ts: i64, n: nat)
    requires
        batch_fits(b),
        n <= 100,
    ensures
        events_mismatch(b as u64, batch_at(b, ts).events, n) is None,
    decreases n,
{
    if n > 0 {
        lemma_generated_events_match(b, ts, (n - 1) as nat);
        let s = n - 1;
        let e = batch_at(b, ts).events[s];
        assert(e == event_at(b, s));
        assert(0 <= value_at(b, s) < 2_147_483_647);
        let k = crate::corpus::quality_hundredths(b, s);
        if k < 99 {
            lemma_hundredth_order(k, 99);
        } else {
            lemma_hundredth_order(98, 99);
        }
        assert(same_quality(e.quality, quality_at(b, s)));
    }
}

/// Every message a prefill frames is proven, and gives its own batch id.
pub proof fn law_prefilled_payload_verifies(b: int, schema_id: u32, payload: Seq<u8>)
    requires
        batch_fits(b),
        BASE_TS_MS * 1000 + b <= i64::MAX,
        exists|datum: Seq<u8>| datum.len() > 0 && payload == #[trigger] framed(schema_id, datum),
    ensures
        payload_verdict(
            payload,
            schema_id,
            Some(batch_datum(batch_at(b, (BASE_TS_MS * 1000 + b) as i64))),
        ) == Ok::<u64, Mismatch>(b as u64),
{
    let datum = choose|datum: Seq<u8>|
        datum.len() > 0 && payload == #[trigger] framed(schema_id, datum);
    law_frame_reads_back(schema_id, datum);
    let batch = batch_at(b, (BASE_TS_MS * 1000 + b) as i64);
    let c = choose|c: BatchView| batch_datum(batch) == #[trigger] batch_datum(c);
    law_record_determines_batch(batch, c);
    lemma_generated_events_match(b, (BASE_TS_MS * 1000 + b) as i64, 100);
}

/// Generated batches are far below any decoder limit.
pub proof fn lemma_generated_is_compact(b: int, ts: i64)
    requires
        0 <= b,
    ensures
        is_compact(batch_at(b, ts)),
{
    reveal_strlit("sensor-");
    reveal_strlit("region-");
    reveal_strlit("metric_");
    reveal_strlit("tag-");
    reveal_strlit("count");
    reveal_strlit("bytes");
    reveal_strlit("ms");
    reveal_strlit("drop");
    reveal_strlit("ratio");
    reveal_strlit("celsius");
    reveal_strlit("volts");
    reveal_strlit("rpm");
    let batch = batch_at(b, ts);
    lemma_decimal_short((b % 1024) as nat);
    lemma_decimal_short((b % 7) as nat);
    assert forall|i: int| 0 <= i < batch.events.len() implies is_compact_event(
        #[trigger] batch.events[i],
    ) by {
        let e = batch.events[i];
        assert(e == event_at(b, i));
        lemma_decimal_short(((b * 31 + i) % 32) as nat);
        assert(e.unit == UNITS[(b * 7 + i) % 8]@);
        assert forall|j: int| 0 <= j < e.tags.len() implies (#[trigger] e.tags[j]).len()
            <= 1_000_000 by {
            assert(e.tags[j] == tag_text(b, i, j));
            lemma_decimal_short(((b + i + j) % 16) as nat);
        }
    }
}

proof fn lemma_no_event_mismatch(b: u64, events: Seq<EventView>, n: nat, i: int)
    requires
        n <= events.len(),
        0 <= i < n,
        events_mismatch(b, events, n) is None,
    ensures
        event_mismatch(b, events[i]) is None,
    decreases n,
{
    if i < n - 1 {
        lemma_no_event_mismatch(b, events, (n - 1) as nat, i);
    }
}

/// A batch that is proven is what its id makes: every field of the batch, and every field
/// of each of its hundred events at the position that the event claims. Nothing is passed
/// over.
pub proof fn law_proven_batch_is_as_generated(b: BatchView, id: u64, i: int)
    requires
        batch_verdict(b) == Ok::<u64, Mismatch>(id),
        0 <= i < b.events.len(),
    ensures
        b.batch_id == id,
        b.sensor == sensor_text(id as int),
        b.region == region_text(id as int),
        b.batch_ts_ms == 1_772_000_000_000 + id,
        b.send_ts_us == 1_772_000_000_000_000 + id,
        b.events.len() == 100,
        ({
            let (e, s) = (b.events[i], b.events[i].seq as int);
            let q = quality_at(id as int, s);
            &&& s >= 0
            &&& e.name == name_text(id as int, s)
            &&& e.unit == unit_text(id as int, s)
            &&& e.value == value_at(id as int, s)
            &&& e.quality is Some <==> q is Some
            &&& e.quality is Some ==> e.quality == q || (q == Some(0u64) && e.quality == Some(
                0x8000_0000_0000_0000u64,
            )) || (q == Some(0x8000_0000_0000_0000u64) && e.quality == Some(0u64))
            &&& e.tags == tags_at(id as int, s)
        }),
{
    lemma_no_event_mismatch(id, b.events, b.events.len(), i);
    let (e, s) = (b.events[i], b.events[i].seq as int);
    if let (Some(x), Some(y)) = (e.quality, quality_at(id as int, s)) {
        crate::doubles::law_equality_is_of_numbers(x, y);
    }
}

/// A payload that is proven is framed: more than its header, a zero byte, and the schema
/// id in the four bytes behind it; and what its datum decodes to is a proven batch.
pub proof fn law_proven_payload_is_framed(
    payload: Seq<u8>,
    schema_id: u32,
    decoded: Option<Datum>,
    id: u64,
)
    requires
        payload_verdict(payload, schema_id, decoded) == Ok::<u64, Mismatch>(id),
    ensures
        payload.len() > 5,
        payload[0] == 0,
        payload[1] as int * 0x100_0000 + payload[2] as int * 0x1_0000 + payload[3] as int * 0x100
            + payload[4] as int == schema_id,
        exists|b: BatchView|
            decoded == Some(#[trigger] batch_datum(b)) && batch_verdict(b) == Ok::<u64, Mismatch>(
                id,
            ),
{
    let d = decoded->Some_0;
    let b = choose|b: BatchView| d == #[trigger] batch_datum(b);
    assert(decoded == Some(batch_datum(b)));
}

/// A batch that differs in one field from what its id makes is never proven.
pub proof fn law_altered_batch_is_refused(b: int, other: BatchView, i: int)
    requires
        batch_fits(b),
        BASE_TS_MS * 1000 + b <= i64::MAX,
        other.batch_id == b,
        0 <= i < other.events.len(),
        ({
            let own = batch_at(b, (BASE_TS_MS * 1000 + b) as i64);
            ||| other.sensor != own.sensor
            ||| other.region != own.region
            ||| other.batch_ts_ms != own.batch_ts_ms
            ||| other.send_ts_us != own.send_ts_us
            ||| other.events.len() != own.events.len()
            ||| other.events[i].seq < 0
            ||| other.events[i].name != name_text(b, other.events[i].seq as int)
            ||| other.events[i].unit != unit_text(b, other.events[i].seq as int)
            ||| other.events[i].value != value_at(b, other.events[i].seq as int)
            ||| other.events[i].tags != tags_at(b, other.events[i].seq as int)
        }),
    ensures
        batch_verdict(other) is Err,
{
    if let Ok(id) = batch_verdict(other) {
        law_proven_batch_is_as_generated(other, id, i);
    }
}

/// A batch that is refused is refused for the first thing that is wrong with it, and that
/// is named: its id, its sensor, its region, its two times, the number of its events.
pub proof fn law_refusal_names_the_first_fault(b: BatchView)
    requires
        0 <= b.batch_id,
        1_772_000_000_000_000 + b.batch_id <= i64::MAX,
    ensures
        ({
            let id = b.batch_id as u64;
            let n = b.batch_id as int;
            let v = batch_verdict(b);
            let sensor = b.sensor == sensor_text(n);
            let region = b.region == region_text(n);
            let ts = b.batch_ts_ms == 1_772_000_000_000 + n;
            let sent = b.send_ts_us == 1_772_000_000_000_000 + n;
            &&& v == Err::<u64, Mismatch>(Mismatch::Sensor(id)) <==> !sensor
            &&& v == Err::<u64, Mismatch>(Mismatch::Region(id)) <==> sensor && !region
            &&& v == Err::<u64, Mismatch>(Mismatch::BatchTs(id)) <==> sensor && region && !ts
            &&& v == Err::<u64, Mismatch>(Mismatch::SendTs(id)) <==> sensor && region && ts && !sent
            &&& sensor && region && ts && sent && b.events.len() != 100 ==> v == Err::<
                u64,
                Mismatch,
            >(Mismatch::EventCount(id, b.events.len() as usize))
        }),
{
    lemma_event_faults(b.batch_id as u64, b.events, b.events.len());
}

/// An event is never refused for something that is the batch's.
proof fn lemma_event_faults(b: u64, events: Seq<EventView>, n: nat)
    ensures
        match events_mismatch(b, events, n) {
            None => true,
            Some(Mismatch::NegativeSeq(_, _)) => true,
            Some(Mismatch::SeqOutOfRange(_, _)) => true,
            Some(Mismatch::Name(_, _)) => true,
            Some(Mismatch::Unit(_, _)) => true,
            Some(Mismatch::Value(_, _)) => true,
            Some(Mismatch::Quality(_, _)) => true,
            Some(Mismatch::Tags(_, _)) => true,
            _ => false,
        },
    decreases n,
{
    if n > 0 {
        lemma_event_faults(b, events, (n - 1) as nat);
    }
}

/// An event that is refused is refused for the first thing that is wrong with it.
pub proof fn law_event_refusal_names_the_first_fault(b: u64, e: EventView)
    requires
        e.seq >= 0,
        event_fits(b as int, e.seq as int),
    ensures
        ({
            let s = e.seq as u32;
            let (n, i) = (b as int, e.seq as int);
            let m = event_mismatch(b, e);
            let name = e.name == name_text(n, i);
            let unit = e.unit == unit_text(n, i);
            let value = e.value == value_at(n, i);
            let quality = same_quality(e.quality, quality_at(n, i));
            &&& m == Some(Mismatch::Name(b, s)) <==> !name
            &&& m == Some(Mismatch::Unit(b, s)) <==> name && !unit
            &&& m == Some(Mismatch::Value(b, s)) <==> name && unit && !value
            &&& m == Some(Mismatch::Quality(b, s)) <==> name && unit && value && !quality
            &&& m == Some(Mismatch::Tags(b, s)) <==> name && unit && value && quality && e.tags
                != tags_at(n, i)
            &&& m is None <==> name && unit && value && quality && e.tags == tags_at(n, i)
        }),
{
}

/// A payload is refused for its frame before anything else is looked at.
pub proof fn law_frame_is_looked_at_first(payload: Seq<u8>, schema_id: u32, decoded: Option<Datum>)
    ensures
        ({
            let v = payload_verdict(payload, schema_id, decoded);
            &&& payload.len() <= 5 ==> v == Err::<u64, Mismatch>(
                Mismatch::TooShort(payload.len() as usize),
            )
            &&& payload.len() > 5 && payload[0] != 0 ==> v == Err::<u64, Mismatch>(
                Mismatch::Magic(payload[0]),
            )
            &&& payload.len() > 5 && payload[0] == 0 && embedded_id(payload) != schema_id ==> v
                == Err::<u64, Mismatch>(Mismatch::SchemaId(embedded_id(payload)))
            &&& payload.len() > 5 && payload[0] == 0 && embedded_id(payload) == schema_id
                && decoded is None ==> v == Err::<u64, Mismatch>(Mismatch::Undecodable)
        }),
{
}

} // verus!
