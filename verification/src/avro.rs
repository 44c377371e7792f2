//! Avro values as the library builds and reads them, and the two calls that
//! turn them into bytes and back.
use vstd::prelude::*;
use apache_avro::types::Value;
use apache_avro::Schema;
use crate::corpus::{batch_datum, is_compact, BatchView, SCHEMA_JSON};

verus! {

/// An Avro value, of the sorts the sensor schema uses.
#[derive(Debug)]
pub enum AvroValue {
    Null,
    Int(i32),
    Long(i64),
    /// A double, by its bits.
    Double(u64),
    Text(String),
    /// A union branch: its index in the schema, and the value.
    Union(u32, Box<AvroValue>),
    Array(Vec<AvroValue>),
    /// Fields by name, in order.
    Record(Vec<(String, AvroValue)>),
}

/// What an [`AvroValue`] is.
pub enum Datum {
    Null,
    Int(i32),
    Long(i64),
    Double(u64),
    Text(Seq<char>),
    Union(u32, Box<Datum>),
    Array(Seq<Datum>),
    Record(Seq<(Seq<char>, Datum)>),
}

impl AvroValue {
    pub open spec fn view(&self) -> Datum
        decreases self,
    {
        match self {
            AvroValue::Null => Datum::Null,
            AvroValue::Int(n) => Datum::Int(*n),
            AvroValue::Long(n) => Datum::Long(*n),
            AvroValue::Double(b) => Datum::Double(*b),
            AvroValue::Text(s) => Datum::Text(s@),
            AvroValue::Union(i, inner) => Datum::Union(*i, Box::new(inner.view())),
            AvroValue::Array(items) => Datum::Array(
                Seq::new(
                    items@.len(),
                    |i: int|
                        if 0 <= i < items@.len() {
                            items@[i].view()
                        } else {
                            Datum::Null
                        },
                ),
            ),
            AvroValue::Record(fields) => Datum::Record(
                Seq::new(
                    fields@.len(),
                    |i: int|
                        if 0 <= i < fields@.len() {
                            (fields@[i].0@, fields@[i].1.view())
                        } else {
                            (seq![], Datum::Null)
                        },
                ),
            ),
        }
    }
}

#[verifier::external_type_specification]
#[verifier::external_body]
pub struct ExValue(Value);

/// The bytes of `value` as a bare datum of `schema`, or `None` where the schema
/// does not parse or the value does not conform to it.
pub uninterp spec fn avro_datum(schema: Seq<char>, value: Datum) -> Option<Seq<u8>>;

/// What the leading bytes of `bytes` hold as a bare datum of `schema`, or `None`
/// where the schema does not parse, the bytes do not decode, or what they decode
/// to is of a sort that [`Datum`] does not have.
pub uninterp spec fn avro_value(schema: Seq<char>, bytes: Seq<u8>) -> Option<Datum>;

/// `apache_avro::types::Value`, built sort for sort. A double is rebuilt from
/// its eight little-endian bytes by `apache_avro::from_avro_datum`.
#[verifier::external_body]
#[allow(deprecated)]
fn outside(v: &AvroValue) -> (r: Value)
{
    match v {
        AvroValue::Null => Value::Null,
        AvroValue::Int(n) => Value::Int(*n),
        AvroValue::Long(n) => Value::Long(*n),
        AvroValue::Double(b) => apache_avro::from_avro_datum(&Schema::Double, &mut &b.to_le_bytes()[..], None).unwrap_or(Value::Null),
        AvroValue::Text(s) => Value::String(s.clone()),
        AvroValue::Union(i, inner) => Value::Union(*i, Box::new(outside(inner))),
        AvroValue::Array(items) => Value::Array(items.iter().map(outside).collect()),
        AvroValue::Record(fields) => Value::Record(fields.iter().map(|f| (f.0.clone(), outside(&f.1))).collect()),
    }
}

/// The value held by an `apache_avro::types::Value`, sort for sort; `None` where
/// it holds, at any depth, a sort that [`AvroValue`] does not have.
#[verifier::external_body]
fn inside(v: Value) -> (r: Option<AvroValue>)
{
    Some(match v {
        Value::Null => AvroValue::Null,
        Value::Int(n) => AvroValue::Int(n),
        Value::Long(n) => AvroValue::Long(n),
        Value::Double(d) => AvroValue::Double(d.to_bits()),
        Value::String(s) => AvroValue::Text(s),
        Value::Union(i, x) => AvroValue::Union(i, Box::new(inside(*x)?)),
        Value::Array(v) => AvroValue::Array(v.into_iter().map(inside).collect::<Option<_>>()?),
        Value::Record(v) => AvroValue::Record(v.into_iter().map(|f| Some((f.0, inside(f.1)?))).collect::<Option<_>>()?),
        _ => return None,
    })
}

/// `apache_avro::to_avro_datum`, under the schema that
/// `apache_avro::Schema::parse_str` reads from `schema`.
///
/// It is called with the sensor schema and with records of the shape that this
/// schema declares: under another schema the encoder can panic on a union branch
/// that its validation does not look at. What the bytes are is named by
/// [`avro_datum`]. Beyond that: such a record passes the validation the call
/// makes, so it is always encoded, and never to nothing: its first field takes a
/// byte.
#[verifier::external_body]
#[allow(deprecated)]
pub(crate) fn write_datum(schema: &str, value: &AvroValue) -> (r: Option<Vec<u8>>)
    requires
        schema@ == SCHEMA_JSON@,
        exists|b: BatchView| value@ == #[trigger] batch_datum(b),
    ensures
        r is Some,
        avro_datum(schema@, value@) == Some(r->Some_0@),
        r->Some_0@.len() > 0,
{
    let parsed = Schema::parse_str(schema).ok()?;
    apache_avro::to_avro_datum(&parsed, outside(value)).ok()
}

/// `apache_avro::from_avro_datum`, under the schema that
/// `apache_avro::Schema::parse_str` reads from `schema`, with no reader schema.
///
/// It is called with the sensor schema: a schema whose record holds itself in a
/// field is decoded without end. What comes back is named by [`avro_value`].
/// Beyond that: decoding gives back
/// what was encoded, for every sensor batch whose texts and arrays stay within
/// the decoder's allocation limit (512 MiB unless the process lowers it).
#[verifier::external_body]
#[allow(deprecated)]
pub(crate) fn read_datum(schema: &str, bytes: &[u8]) -> (r: Option<AvroValue>)
    requires
        schema@ == SCHEMA_JSON@,
    ensures
        match r {
            Some(v) => avro_value(schema@, bytes@) == Some(v@),
            None => avro_value(schema@, bytes@) is None,
        },
        forall|b: BatchView|
            is_compact(b) && avro_datum(schema@, #[trigger] batch_datum(b)) == Some(bytes@)
                ==> r is Some && r->Some_0@ == batch_datum(b),
{
    let parsed = Schema::parse_str(schema).ok()?;
    apache_avro::from_avro_datum(&parsed, &mut &bytes[..], None).ok().and_then(inside)
}

} // verus!
