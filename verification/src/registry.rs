//! Registering the schema: the request, and the id in its reply.
use vstd::prelude::*;
use crate::corpus::SCHEMA_JSON;
use crate::text::cat3;

verus! {

/// The registry subject, by the topic-name strategy.
pub const SUBJECT: &'static str = "sensor-batches-value";

/// The media type of a registration.
pub const REGISTRY_CONTENT_TYPE: &'static str = "application/vnd.schemaregistry.v1+json";

/// A text as a JSON string, in quotes.
pub uninterp spec fn json_string(s: Seq<char>) -> Seq<char>;

/// `serde_json::Value::to_string` of a string value: the text in quotes, with what
/// JSON needs escaped. Named by [`json_string`]; nothing else is claimed of it.
#[verifier::external_body]
fn as_json_string(s: &str) -> (r: String)
    ensures
        r@ == json_string(s@),
{
    serde_json::Value::from(s).to_string()
}

/// What a JSON text holds under a key of its top-level object.
#[derive(Clone, Copy, Debug, PartialEq, Eq, Structural)]
pub enum JsonNumber {
    /// The text is no JSON.
    NotJson,
    /// There is no such key, or what is under it is no whole number of 64 bits.
    Absent,
    Found(u64),
}

/// What `text` holds under `key`.
pub uninterp spec fn json_number(text: Seq<char>, key: Seq<char>) -> JsonNumber;

/// `serde_json::from_str`, `serde_json::Value::get` and `serde_json::Value::as_u64`:
/// the number under a key of a JSON object. Named by [`json_number`].
#[verifier::external_body]
fn number_under(text: &str, key: &str) -> (r: JsonNumber)
    ensures
        r == json_number(text@, key@),
{
    match serde_json::from_str::<serde_json::Value>(text) {
        Err(_) => JsonNumber::NotJson,
        Ok(v) => match v.get(key).and_then(serde_json::Value::as_u64) {
            Some(n) => JsonNumber::Found(n),
            None => JsonNumber::Absent,
        },
    }
}

/// Where the schema is registered.
pub fn registration_path() -> (r: String)
    ensures
        r@ == "/subjects/"@ + SUBJECT@ + "/versions"@,
{
    cat3("/subjects/", SUBJECT, "/versions")
}

/// The request that registers the schema.
pub fn registration_body() -> (r: String)
    ensures
        r@ == "{\"schema\":"@ + json_string(SCHEMA_JSON@) + ",\"schemaType\":\"AVRO\"}"@,
{
    cat3(
        "{\"schema\":",
        as_json_string(SCHEMA_JSON).as_str(),
        ",\"schemaType\":\"AVRO\"}",
    )
}

/// Why a registration gave no schema id.
#[derive(Clone, Copy, Debug, PartialEq, Eq, Structural)]
pub enum RegistryError {
    NotJson,
    NoId,
    /// The id does not fit 32 bits.
    TooLarge(u64),
}

/// The schema id, given what the reply holds under `id`.
pub open spec fn id_of(n: JsonNumber) -> Result<u32, RegistryError> {
    match n {
        JsonNumber::NotJson => Err(RegistryError::NotJson),
        JsonNumber::Absent => Err(RegistryError::NoId),
        JsonNumber::Found(id) => if id <= u32::MAX {
            Ok(id as u32)
        } else {
            Err(RegistryError::TooLarge(id))
        },
    }
}

/// The schema id, given what the reply holds under `id`.
pub fn schema_id(n: JsonNumber) -> (r: Result<u32, RegistryError>)
    ensures
        r == id_of(n),
{
    match n {
        JsonNumber::NotJson => Err(RegistryError::NotJson),
        JsonNumber::Absent => Err(RegistryError::NoId),
        JsonNumber::Found(id) => {
            if id <= 0xffff_ffff {
                Ok(id as u32)
            } else {
                Err(RegistryError::TooLarge(id))
            }
        },
    }
}

/// The id that a registration's reply carries: every arm decodes through it, so no
/// reply is read leniently.
pub fn register_schema(reply: &str) -> (r: Result<u32, RegistryError>)
    ensures
        r == id_of(json_number(reply@, "id"@)),
{
    schema_id(number_under(reply, "id"))
}

/// A schema id is accepted exactly where the reply holds a number of 32 bits under its
/// key, and is that number; a larger one is refused whole, never cut.
pub proof fn law_schema_id_is_never_cut(n: JsonNumber)
    ensures
        match id_of(n) {
            Ok(id) => n == JsonNumber::Found(id as u64),
            Err(RegistryError::NotJson) => n == JsonNumber::NotJson,
            Err(RegistryError::NoId) => n == JsonNumber::Absent,
            Err(RegistryError::TooLarge(x)) => n == JsonNumber::Found(x) && x > 0xffff_ffff,
        },
{
}

} // verus!
