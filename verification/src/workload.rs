//! The workload definition: what it must hold, and the constants it makes.
use vstd::prelude::*;
use crate::corpus::{
    BASE_TS_MS, DROP_UNIT, EVENTS_PER_BATCH, NAMES, QUALITY_FLOOR, SENSORS, TAGS, UNITS,
};
use crate::dataset::Toml;
use crate::entrant::{debug_list, debug_quoted, quoted, quoted_list};
use crate::text::{
    begins, cat2, cat3, cat4, cat6, contains, dec, dec_int, decimal, decimal_int, ends, holds_text,
    join, joined, note, occurs, same, starts_with, texts,
};

verus! {

/// The quality floor of the corpus, as the definition shows it.
pub const FLOOR_TEXT: &'static str = "0.2";

// ---------------------------------------------------------------------------
// Reading
// ---------------------------------------------------------------------------

/// The first field from `i` on that is called `key`.
pub open spec fn field_from(fields: Seq<(String, Toml)>, key: Seq<char>, i: int) -> Option<Toml>
    decreases fields.len() - i,
{
    if i < 0 || i >= fields.len() {
        None
    } else if fields[i].0@ == key {
        Some(fields[i].1)
    } else {
        field_from(fields, key, i + 1)
    }
}

/// The value that a table has under `key`.
pub open spec fn field_of(t: Toml, key: Seq<char>) -> Option<Toml> {
    match t {
        Toml::Table(fields) => field_from(fields@, key, 0),
        _ => None,
    }
}

pub open spec fn integer_at(t: Toml, key: Seq<char>) -> Option<i64> {
    match field_of(t, key) {
        Some(Toml::Integer(n)) => Some(n),
        _ => None,
    }
}

/// A float under `key`, as it is shown.
pub open spec fn float_at(t: Toml, key: Seq<char>) -> Option<Seq<char>> {
    match field_of(t, key) {
        Some(Toml::Float(shown)) => Some(shown@),
        _ => None,
    }
}

pub open spec fn text_at(t: Toml, key: Seq<char>) -> Option<Seq<char>> {
    match field_of(t, key) {
        Some(Toml::Text(s)) => Some(s@),
        _ => None,
    }
}

pub open spec fn array_at(t: Toml, key: Seq<char>) -> Option<Seq<Toml>> {
    match field_of(t, key) {
        Some(Toml::Array(items)) => Some(items@),
        _ => None,
    }
}

/// The first `n` items as texts, where each of them is one.
pub open spec fn all_texts(items: Seq<Toml>, n: nat) -> Option<Seq<Seq<char>>>
    decreases n,
{
    if n == 0 {
        Some(seq![])
    } else {
        match (all_texts(items, (n - 1) as nat), items[n - 1]) {
            (Some(sofar), Toml::Text(s)) => Some(sofar.push(s@)),
            _ => None,
        }
    }
}

/// The units of the definition, where they are an array of texts.
pub open spec fn units_at(g: Toml) -> Option<Seq<Seq<char>>> {
    match array_at(g, "units"@) {
        Some(items) => all_texts(items, items.len()),
        None => None,
    }
}

fn field<'a>(t: &'a Toml, key: &str) -> (r: Option<&'a Toml>)
    ensures
        match r {
            Some(v) => field_of(*t, key@) == Some(*v),
            None => field_of(*t, key@) is None,
        },
{
    match t {
        Toml::Table(fields) => {
            let mut i: usize = 0;
            while i < fields.len()
                invariant
                    *t == Toml::Table(*fields),
                    i <= fields@.len(),
                    field_from(fields@, key@, 0) == field_from(fields@, key@, i as int),
                decreases fields@.len() - i,
            {
                if same(fields[i].0.as_str(), key) {
                    return Some(&fields[i].1);
                }
                i += 1;
            }
            None
        },
        _ => None,
    }
}

fn read_integer(t: &Toml, key: &str) -> (r: Option<i64>)
    ensures
        r == integer_at(*t, key@),
{
    match field(t, key) {
        Some(Toml::Integer(n)) => Some(*n),
        _ => None,
    }
}

fn read_float<'a>(t: &'a Toml, key: &str) -> (r: Option<&'a str>)
    ensures
        match r {
            Some(s) => float_at(*t, key@) == Some(s@),
            None => float_at(*t, key@) is None,
        },
{
    match field(t, key) {
        Some(Toml::Float(shown)) => Some(shown.as_str()),
        _ => None,
    }
}

fn read_text<'a>(t: &'a Toml, key: &str) -> (r: Option<&'a str>)
    ensures
        match r {
            Some(s) => text_at(*t, key@) == Some(s@),
            None => text_at(*t, key@) is None,
        },
{
    match field(t, key) {
        Some(Toml::Text(s)) => Some(s.as_str()),
        _ => None,
    }
}

proof fn lemma_not_all_texts(items: Seq<Toml>, n: nat, total: nat)
    requires
        n <= total,
        all_texts(items, n) is None,
    ensures
        all_texts(items, total) is None,
    decreases total,
{
    if n < total {
        lemma_not_all_texts(items, n, (total - 1) as nat);
    }
}

fn read_texts(items: &Vec<Toml>) -> (r: Option<Vec<String>>)
    ensures
        match r {
            Some(v) => all_texts(items@, items@.len()) == Some(texts(v@)),
            None => all_texts(items@, items@.len()) is None,
        },
{
    let mut out: Vec<String> = Vec::new();
    let mut i: usize = 0;
    proof {
        assert(texts(out@) =~= seq![]);
    }
    while i < items.len()
        invariant
            i <= items@.len(),
            all_texts(items@, i as nat) == Some(texts(out@)),
        decreases items@.len() - i,
    {
        match &items[i] {
            Toml::Text(s) => {
                note(&mut out, s.clone());
            },
            _ => {
                proof {
                    lemma_not_all_texts(items@, (i + 1) as nat, items@.len());
                }
                return None;
            },
        }
        i += 1;
    }
    Some(out)
}

// ---------------------------------------------------------------------------
// What it must hold
// ---------------------------------------------------------------------------

pub open spec fn sort_fault(key: Seq<char>, sort: Seq<char>) -> Seq<char> {
    "workload.toml: generator."@ + key + " must be "@ + sort
}

/// The first of two faults that there is.
pub open spec fn either(a: Option<Seq<char>>, b: Option<Seq<char>>) -> Option<Seq<char>> {
    if a is Some {
        a
    } else {
        b
    }
}

/// `fault`, unless things are as they should be.
pub open spec fn unless(right: bool, fault: Seq<char>) -> Option<Seq<char>> {
    if right {
        None
    } else {
        Some(fault)
    }
}

/// The integer under `key` is no integer.
pub open spec fn integer_sort(g: Toml, key: Seq<char>) -> Option<Seq<char>> {
    unless(integer_at(g, key) is Some, sort_fault(key, "an integer"@))
}

/// The first value of another sort than the generator takes.
pub open spec fn sort_faults(g: Toml) -> Option<Seq<char>> {
    either(
        either(
            either(integer_sort(g, "events_per_batch"@), integer_sort(g, "sensors"@)),
            either(
                either(integer_sort(g, "names"@), integer_sort(g, "tags"@)),
                integer_sort(g, "base_ts_ms"@),
            ),
        ),
        either(
            either(
                unless(
                    float_at(g, "quality_floor"@) is Some,
                    sort_fault("quality_floor"@, "a float"@),
                ),
                unless(text_at(g, "drop_unit"@) is Some, sort_fault("drop_unit"@, "a string"@)),
            ),
            either(
                unless(array_at(g, "units"@) is Some, sort_fault("units"@, "an array"@)),
                unless(units_at(g) is Some, sort_fault("units"@, "strings"@)),
            ),
        ),
    )
}

/// A float between zero and one, by how it is shown: `0.` and its digits, one itself,
/// or a negative power of ten.
pub open spec fn is_share(shown: Seq<char>) -> bool {
    begins(shown, "0."@) || shown == "1.0"@ || shown == "-0.0"@ || (occurs(shown, "e-"@)
        && !begins(shown, "-"@))
}

/// The first value that makes no workload: a dropped unit that never occurs, so that
/// the filter does nothing; a floor that is no share; no events.
pub open spec fn range_faults(g: Toml) -> Option<Seq<char>> {
    let (drop, units) = (text_at(g, "drop_unit"@)->Some_0, units_at(g)->Some_0);
    let floor = float_at(g, "quality_floor"@)->Some_0;
    either(
        unless(
            units.contains(drop),
            "workload.toml: drop_unit "@ + debug_quoted(drop) + " is not present in units "@
                + debug_list(units),
        ),
        either(
            unless(
                is_share(floor),
                "workload.toml: quality_floor "@ + floor + " is outside 0.0..=1.0"@,
            ),
            unless(
                integer_at(g, "events_per_batch"@)->Some_0 > 0,
                "workload.toml: events_per_batch must be positive"@,
            ),
        ),
    )
}

/// The first thing that is wrong with a workload definition, if anything is.
pub open spec fn workload_fault(w: Toml) -> Option<Seq<char>> {
    match field_of(w, "generator"@) {
        None => Some("workload.toml has no [generator] table"@),
        Some(g) => either(sort_faults(g), range_faults(g)),
    }
}

/// The values that the generator takes from its definition.
#[derive(Debug)]
pub struct Generator {
    /// Events in every message.
    pub events_per_batch: i64,
    /// Distinct sensors.
    pub sensors: i64,
    /// Distinct metric names.
    pub names: i64,
    /// Distinct tags.
    pub tags: i64,
    /// The event timestamp of batch zero, epoch milliseconds.
    pub base_ts_ms: i64,
    /// The quality that tier B keeps, as it is shown.
    pub quality_floor: String,
    /// The unit that tier B drops.
    pub drop_unit: String,
    pub units: Vec<String>,
}

/// `v` holds the values of the table `g`.
pub open spec fn is_generator(v: Generator, g: Toml) -> bool {
    &&& integer_at(g, "events_per_batch"@) == Some(v.events_per_batch)
    &&& integer_at(g, "sensors"@) == Some(v.sensors)
    &&& integer_at(g, "names"@) == Some(v.names)
    &&& integer_at(g, "tags"@) == Some(v.tags)
    &&& integer_at(g, "base_ts_ms"@) == Some(v.base_ts_ms)
    &&& float_at(g, "quality_floor"@) == Some(v.quality_floor@)
    &&& text_at(g, "drop_unit"@) == Some(v.drop_unit@)
    &&& units_at(g) == Some(texts(v.units@))
}

fn wrong_sort(key: &str, sort: &str) -> (r: String)
    ensures
        r@ == sort_fault(key@, sort@),
{
    cat4("workload.toml: generator.", key, " must be ", sort)
}

fn read_values(g: &Toml) -> (r: Result<Generator, String>)
    ensures
        match r {
            Ok(v) => is_generator(v, *g) && sort_faults(*g) is None,
            Err(e) => sort_faults(*g) == Some(e@),
        },
{
    let events_per_batch: i64 = match read_integer(g, "events_per_batch") {
        Some(n) => n,
        None => return Err(wrong_sort("events_per_batch", "an integer")),
    };
    let sensors: i64 = match read_integer(g, "sensors") {
        Some(n) => n,
        None => return Err(wrong_sort("sensors", "an integer")),
    };
    let names: i64 = match read_integer(g, "names") {
        Some(n) => n,
        None => return Err(wrong_sort("names", "an integer")),
    };
    let tags: i64 = match read_integer(g, "tags") {
        Some(n) => n,
        None => return Err(wrong_sort("tags", "an integer")),
    };
    let base_ts_ms: i64 = match read_integer(g, "base_ts_ms") {
        Some(n) => n,
        None => return Err(wrong_sort("base_ts_ms", "an integer")),
    };
    let quality_floor = match read_float(g, "quality_floor") {
        Some(s) => s.to_owned(),
        None => return Err(wrong_sort("quality_floor", "a float")),
    };
    let drop_unit = match read_text(g, "drop_unit") {
        Some(s) => s.to_owned(),
        None => return Err(wrong_sort("drop_unit", "a string")),
    };
    let items = match field(g, "units") {
        Some(Toml::Array(items)) => items,
        _ => return Err(wrong_sort("units", "an array")),
    };
    let units = match read_texts(items) {
        Some(v) => v,
        None => return Err(wrong_sort("units", "strings")),
    };
    Ok(
        Generator {
            events_per_batch,
            sensors,
            names,
            tags,
            base_ts_ms,
            quality_floor,
            drop_unit,
            units,
        },
    )
}

fn share(shown: &str) -> (r: bool)
    ensures
        r == is_share(shown@),
{
    starts_with(shown, "0.") || same(shown, "1.0") || same(shown, "-0.0") || (contains(shown, "e-")
        && !starts_with(shown, "-"))
}

/// Reads a workload definition. A value that is missing or of another sort is refused,
/// and so is one that makes no workload.
pub fn read_workload(w: &Toml) -> (r: Result<Generator, String>)
    ensures
        match r {
            Ok(v) => workload_fault(*w) is None && is_generator(
                v,
                field_of(*w, "generator"@)->Some_0,
            ),
            Err(e) => workload_fault(*w) == Some(e@),
        },
{
    let g = match field(w, "generator") {
        Some(g) => g,
        None => return Err("workload.toml has no [generator] table".to_owned()),
    };
    let v = match read_values(g) {
        Ok(v) => v,
        Err(e) => return Err(e),
    };
    if !holds_text(&v.units, v.drop_unit.as_str()) {
        return Err(
            cat4(
                "workload.toml: drop_unit ",
                quoted(v.drop_unit.as_str()).as_str(),
                " is not present in units ",
                quoted_list(&v.units).as_str(),
            ),
        );
    }
    if !share(v.quality_floor.as_str()) {
        return Err(
            cat3(
                "workload.toml: quality_floor ",
                v.quality_floor.as_str(),
                " is outside 0.0..=1.0",
            ),
        );
    }
    if v.events_per_batch <= 0 {
        return Err("workload.toml: events_per_batch must be positive".to_owned());
    }
    Ok(v)
}

/// A workload that is read holds what the tiers need: the dropped unit occurs, so that
/// the filter does something; the floor is a share; and there are events.
pub proof fn law_accepted_workload(w: Toml, v: Generator)
    requires
        workload_fault(w) is None,
        is_generator(v, field_of(w, "generator"@)->Some_0),
    ensures
        texts(v.units@).contains(v.drop_unit@),
        is_share(v.quality_floor@),
        v.events_per_batch > 0,
{
}

// ---------------------------------------------------------------------------
// The constants it makes
// ---------------------------------------------------------------------------

/// A documented constant.
pub open spec fn constant(doc: Seq<char>, name: Seq<char>, ty: Seq<char>, value: Seq<char>) -> Seq<
    char,
> {
    "/// "@ + doc + "\npub const "@ + name + ": "@ + ty + (" = "@ + value + ";\n"@)
}

/// The source of the constants that a workload makes.
pub open spec fn constants(v: Generator) -> Seq<Seq<char>> {
    seq![
        "// @generated by harness/build.rs from workload/workload.toml — do not edit.\n"@,
        constant(
            "Events per message, and therefore the fan-out factor."@,
            "EVENTS_PER_BATCH"@,
            "u32"@,
            decimal_int(v.events_per_batch as int),
        ),
        constant(
            "Distinct `sensor` values."@,
            "SENSORS"@,
            "u64"@,
            decimal_int(v.sensors as int),
        ),
        constant("Distinct metric names."@, "NAMES"@, "u64"@, decimal_int(v.names as int)),
        constant("Distinct tag values."@, "TAGS"@, "u64"@, decimal_int(v.tags as int)),
        constant(
            "Units; one of them is the tier-B filter sentinel."@,
            "UNITS"@,
            "[&str; "@ + decimal(v.units@.len()) + "]"@,
            debug_list(texts(v.units@)),
        ),
        constant(
            "The unit value tier B filters out."@,
            "DROP_UNIT"@,
            "&str"@,
            debug_quoted(v.drop_unit@),
        ),
        constant(
            "Tier B drops rows whose `quality` is non-null and below this."@,
            "QUALITY_FLOOR"@,
            "f64"@,
            v.quality_floor@,
        ),
        constant(
            "Base event timestamp, epoch milliseconds."@,
            "BASE_TS_MS"@,
            "i64"@,
            decimal_int(v.base_ts_ms as int),
        ),
    ]
}

fn declare(out: &mut Vec<String>, doc: &str, name: &str, ty: &str, value: &str)
    ensures
        texts(final(out)@) == texts(old(out)@).push(constant(doc@, name@, ty@, value@)),
{
    let head = cat6("/// ", doc, "\npub const ", name, ": ", ty);
    note(out, cat2(head.as_str(), cat3(" = ", value, ";\n").as_str()));
}

fn integer(n: i64) -> (r: String)
    ensures
        r@ == decimal_int(n as int),
{
    dec_int(n as i128)
}

/// The source of the constants that a workload makes, one after the other.
pub fn workload_constants(v: &Generator) -> (r: String)
    ensures
        r@ == joined(constants(*v), ""@),
{
    let mut out: Vec<String> = Vec::new();
    note(
        &mut out,
        "// @generated by harness/build.rs from workload/workload.toml — do not edit.\n".to_owned(),
    );
    declare(
        &mut out,
        "Events per message, and therefore the fan-out factor.",
        "EVENTS_PER_BATCH",
        "u32",
        integer(v.events_per_batch).as_str(),
    );
    declare(
        &mut out,
        "Distinct `sensor` values.",
        "SENSORS",
        "u64",
        integer(v.sensors).as_str(),
    );
    declare(&mut out, "Distinct metric names.", "NAMES", "u64", integer(v.names).as_str());
    declare(&mut out, "Distinct tag values.", "TAGS", "u64", integer(v.tags).as_str());
    declare(
        &mut out,
        "Units; one of them is the tier-B filter sentinel.",
        "UNITS",
        cat3("[&str; ", dec(v.units.len() as u128).as_str(), "]").as_str(),
        quoted_list(&v.units).as_str(),
    );
    declare(
        &mut out,
        "The unit value tier B filters out.",
        "DROP_UNIT",
        "&str",
        quoted(v.drop_unit.as_str()).as_str(),
    );
    declare(
        &mut out,
        "Tier B drops rows whose `quality` is non-null and below this.",
        "QUALITY_FLOOR",
        "f64",
        v.quality_floor.as_str(),
    );
    declare(
        &mut out,
        "Base event timestamp, epoch milliseconds.",
        "BASE_TS_MS",
        "i64",
        integer(v.base_ts_ms).as_str(),
    );
    proof {
        assert(texts(out@) =~= constants(*v));
    }
    join(&out, "")
}

/// The units that the corpus is built with.
pub open spec fn built_units() -> Seq<Seq<char>> {
    Seq::new(8, |i: int| UNITS@[i]@)
}

/// The constants of a workload are those that the corpus is built with.
pub open spec fn makes_the_corpus(v: Generator) -> bool {
    &&& v.events_per_batch == EVENTS_PER_BATCH
    &&& v.sensors == SENSORS
    &&& v.names == NAMES
    &&& v.tags == TAGS
    &&& v.base_ts_ms == BASE_TS_MS
    &&& v.quality_floor@ == FLOOR_TEXT@
    &&& v.drop_unit@ == DROP_UNIT@
    &&& texts(v.units@) == built_units()
}

fn has_built_units(units: &Vec<String>) -> (r: bool)
    ensures
        r == (texts(units@) == built_units()),
{
    proof {
        assert(texts(units@).len() == units@.len());
    }
    if units.len() != 8 {
        return false;
    }
    let mut i: usize = 0;
    while i < 8
        invariant
            units@.len() == 8,
            i <= 8,
            forall|k: int| 0 <= k < i ==> (#[trigger] texts(units@)[k]) == built_units()[k],
        decreases 8 - i,
    {
        if !same(units[i].as_str(), UNITS[i]) {
            proof {
                assert(texts(units@)[i as int] != built_units()[i as int]);
            }
            return false;
        }
        i += 1;
    }
    proof {
        assert(texts(units@) =~= built_units());
    }
    true
}

/// Whether a workload makes the constants that the corpus is built with. One that does
/// not makes another corpus.
pub fn is_built_in(v: &Generator) -> (r: bool)
    ensures
        r == makes_the_corpus(*v),
{
    v.events_per_batch == EVENTS_PER_BATCH as i64 && v.sensors == SENSORS as i64 && v.names
        == NAMES as i64 && v.tags == TAGS as i64 && v.base_ts_ms == BASE_TS_MS && same(
        v.quality_floor.as_str(),
        FLOOR_TEXT,
    ) && same(v.drop_unit.as_str(), DROP_UNIT) && has_built_units(&v.units)
}

/// The constants of the corpus are those of a workload: whatever table holds them is
/// accepted, and the floor that it shows is the one that the filter compares with.
pub proof fn law_corpus_is_a_workload(w: Toml, v: Generator)
    requires
        field_of(w, "generator"@) is Some,
        is_generator(v, field_of(w, "generator"@)->Some_0),
        makes_the_corpus(v),
    ensures
        workload_fault(w) is None,
        crate::doubles::hundredth_bits(20) == QUALITY_FLOOR,
{
    assert(built_units()[3] == DROP_UNIT@);
    reveal_strlit("0.2");
    reveal_strlit("0.");
    assert("0.2"@.take(2) =~= "0."@);
    let g = field_of(w, "generator"@)->Some_0;
    assert(units_at(g) is Some);
    assert(array_at(g, "units"@) is Some);
}

/// A table is read by the first field of a name, and by no other.
pub proof fn law_field_is_the_first_of_its_name(
    fields: Seq<(String, Toml)>,
    key: Seq<char>,
    from: int,
)
    requires
        0 <= from <= fields.len(),
    ensures
        match field_from(fields, key, from) {
            Some(v) => exists|i: int|
                from <= i < fields.len() && (#[trigger] fields[i]).0@ == key && fields[i].1 == v
                    && forall|j: int| from <= j < i ==> (#[trigger] fields[j]).0@ != key,
            None => forall|j: int| from <= j < fields.len() ==> (#[trigger] fields[j]).0@ != key,
        },
    decreases fields.len() - from,
{
    if from < fields.len() && fields[from].0@ != key {
        law_field_is_the_first_of_its_name(fields, key, from + 1);
        if let Some(v) = field_from(fields, key, from) {
            let i = choose|i: int|
                from + 1 <= i < fields.len() && (#[trigger] fields[i]).0@ == key && fields[i].1 == v
                    && forall|j: int| from + 1 <= j < i ==> (#[trigger] fields[j]).0@ != key;
            assert(fields[i].0@ == key);
        }
    } else if from < fields.len() {
        assert(fields[from].0@ == key);
    }
}

/// Each constant has the value of its own name in the workload.
pub proof fn law_constants_hold_their_values(v: Generator)
    ensures
        ({
            let c = constants(v);
            &&& c.len() == 9
            &&& ends(c[1], "EVENTS_PER_BATCH: u32 = "@ + decimal_int(v.events_per_batch as int) + ";\n"@)
            &&& ends(c[2], "SENSORS: u64 = "@ + decimal_int(v.sensors as int) + ";\n"@)
            &&& ends(c[3], "NAMES: u64 = "@ + decimal_int(v.names as int) + ";\n"@)
            &&& ends(c[4], "TAGS: u64 = "@ + decimal_int(v.tags as int) + ";\n"@)
            &&& ends(c[5], " = "@ + debug_list(texts(v.units@)) + ";\n"@)
            &&& ends(c[6], "DROP_UNIT: &str = "@ + debug_quoted(v.drop_unit@) + ";\n"@)
            &&& ends(c[7], "QUALITY_FLOOR: f64 = "@ + v.quality_floor@ + ";\n"@)
            &&& ends(c[8], "BASE_TS_MS: i64 = "@ + decimal_int(v.base_ts_ms as int) + ";\n"@)
        }),
{
    lemma_constant_ends(
        "Events per message, and therefore the fan-out factor."@,
        "EVENTS_PER_BATCH"@,
        "u32"@,
        decimal_int(v.events_per_batch as int),
    );
    lemma_constant_ends(
        "Distinct `sensor` values."@,
        "SENSORS"@,
        "u64"@,
        decimal_int(v.sensors as int),
    );
    lemma_constant_ends("Distinct metric names."@, "NAMES"@, "u64"@, decimal_int(v.names as int));
    lemma_constant_ends("Distinct tag values."@, "TAGS"@, "u64"@, decimal_int(v.tags as int));
    lemma_constant_ends(
        "Units; one of them is the tier-B filter sentinel."@,
        "UNITS"@,
        "[&str; "@ + decimal(v.units@.len()) + "]"@,
        debug_list(texts(v.units@)),
    );
    lemma_constant_ends(
        "The unit value tier B filters out."@,
        "DROP_UNIT"@,
        "&str"@,
        debug_quoted(v.drop_unit@),
    );
    lemma_constant_ends(
        "Tier B drops rows whose `quality` is non-null and below this."@,
        "QUALITY_FLOOR"@,
        "f64"@,
        v.quality_floor@,
    );
    lemma_constant_ends(
        "Base event timestamp, epoch milliseconds."@,
        "BASE_TS_MS"@,
        "i64"@,
        decimal_int(v.base_ts_ms as int),
    );
    lemma_declarations();
}

proof fn lemma_constant_ends(doc: Seq<char>, name: Seq<char>, ty: Seq<char>, value: Seq<char>)
    ensures
        ends(constant(doc, name, ty, value), name + ": "@ + ty + " = "@ + value + ";\n"@),
        ends(constant(doc, name, ty, value), " = "@ + value + ";\n"@),
{
    let c = constant(doc, name, ty, value);
    let a = name + ": "@ + ty + " = "@ + value + ";\n"@;
    let b = " = "@ + value + ";\n"@;
    assert(c.skip(c.len() - a.len()) =~= a);
    assert(c.skip(c.len() - b.len()) =~= b);
}

proof fn lemma_declarations()
    ensures
        "EVENTS_PER_BATCH: u32 = "@ == "EVENTS_PER_BATCH"@ + ": "@ + "u32"@ + " = "@,
        "SENSORS: u64 = "@ == "SENSORS"@ + ": "@ + "u64"@ + " = "@,
        "NAMES: u64 = "@ == "NAMES"@ + ": "@ + "u64"@ + " = "@,
        "TAGS: u64 = "@ == "TAGS"@ + ": "@ + "u64"@ + " = "@,
        "DROP_UNIT: &str = "@ == "DROP_UNIT"@ + ": "@ + "&str"@ + " = "@,
        "QUALITY_FLOOR: f64 = "@ == "QUALITY_FLOOR"@ + ": "@ + "f64"@ + " = "@,
        "BASE_TS_MS: i64 = "@ == "BASE_TS_MS"@ + ": "@ + "i64"@ + " = "@,
{
    reveal_strlit(": ");
    reveal_strlit(" = ");
    reveal_strlit("u32");
    reveal_strlit("u64");
    reveal_strlit("&str");
    reveal_strlit("f64");
    reveal_strlit("i64");
    reveal_strlit("EVENTS_PER_BATCH");
    reveal_strlit("SENSORS");
    reveal_strlit("NAMES");
    reveal_strlit("TAGS");
    reveal_strlit("DROP_UNIT");
    reveal_strlit("QUALITY_FLOOR");
    reveal_strlit("BASE_TS_MS");
    reveal_strlit("EVENTS_PER_BATCH: u32 = ");
    reveal_strlit("SENSORS: u64 = ");
    reveal_strlit("NAMES: u64 = ");
    reveal_strlit("TAGS: u64 = ");
    reveal_strlit("DROP_UNIT: &str = ");
    reveal_strlit("QUALITY_FLOOR: f64 = ");
    reveal_strlit("BASE_TS_MS: i64 = ");
    assert("EVENTS_PER_BATCH: u32 = "@ =~= "EVENTS_PER_BATCH"@ + ": "@ + "u32"@ + " = "@);
    assert("SENSORS: u64 = "@ =~= "SENSORS"@ + ": "@ + "u64"@ + " = "@);
    assert("NAMES: u64 = "@ =~= "NAMES"@ + ": "@ + "u64"@ + " = "@);
    assert("TAGS: u64 = "@ =~= "TAGS"@ + ": "@ + "u64"@ + " = "@);
    assert("DROP_UNIT: &str = "@ =~= "DROP_UNIT"@ + ": "@ + "&str"@ + " = "@);
    assert("QUALITY_FLOOR: f64 = "@ =~= "QUALITY_FLOOR"@ + ": "@ + "f64"@ + " = "@);
    assert("BASE_TS_MS: i64 = "@ =~= "BASE_TS_MS"@ + ": "@ + "i64"@ + " = "@);
}

/// Units are read text for text, in order, and any that is no text spoils them all.
pub proof fn law_units_are_read_text_for_text(items: Seq<Toml>, n: nat, i: int)
    requires
        n <= items.len(),
        0 <= i < n,
    ensures
        all_texts(items, n) is Some ==> items[i] is Text && all_texts(items, n)->Some_0.len() == n
            && all_texts(items, n)->Some_0[i] == items[i]->Text_0@,
        !(items[i] is Text) ==> all_texts(items, n) is None,
    decreases n,
{
    lemma_texts_len(items, (n - 1) as nat);
    if i < n - 1 {
        law_units_are_read_text_for_text(items, (n - 1) as nat, i);
    }
}

proof fn lemma_texts_len(items: Seq<Toml>, n: nat)
    requires
        n <= items.len(),
    ensures
        all_texts(items, n) is Some ==> all_texts(items, n)->Some_0.len() == n,
    decreases n,
{
    if n > 0 {
        lemma_texts_len(items, (n - 1) as nat);
    }
}

/// Each value of the generator is read off the key of its own name, and from a field of the
/// right sort.
pub proof fn law_generator_is_read_by_name(v: Generator, g: Toml)
    requires
        is_generator(v, g),
    ensures
        field_of(g, "events_per_batch"@) == Some(Toml::Integer(v.events_per_batch)),
        field_of(g, "sensors"@) == Some(Toml::Integer(v.sensors)),
        field_of(g, "names"@) == Some(Toml::Integer(v.names)),
        field_of(g, "tags"@) == Some(Toml::Integer(v.tags)),
        field_of(g, "base_ts_ms"@) == Some(Toml::Integer(v.base_ts_ms)),
        field_of(g, "drop_unit"@) is Some && field_of(g, "drop_unit"@)->Some_0 is Text
            && field_of(g, "drop_unit"@)->Some_0->Text_0@ == v.drop_unit@,
        field_of(g, "units"@) is Some && field_of(g, "units"@)->Some_0 is Array,
        float_at(g, "quality_floor"@) == Some(v.quality_floor@),
{
}

/// A floor that is shown as negative, or as more than one, is no share; zero, one and what
/// lies between are.
pub proof fn law_share_is_shown_between_zero_and_one(c: char, rest: Seq<char>)
    ensures
        is_share("0."@ + rest),
        is_share("1.0"@),
        '1' <= c <= '9' && seq![c, '.'] + rest != "1.0"@ && !occurs(seq![c, '.'] + rest, "e-"@)
            ==> !is_share(seq![c, '.'] + rest),
        is_share(seq!['-'] + rest) ==> seq!['-'] + rest == "-0.0"@,
{
    reveal_strlit("0.");
    reveal_strlit("-");
    reveal_strlit("1.0");
    assert(("0."@ + rest).take(2) =~= "0."@);
    let (n, m) = (seq![c, '.'] + rest, seq!['-'] + rest);
    assert(m.take(1) =~= "-"@);
    assert(m[0] == '-' && n[0] == c);
    if '1' <= c <= '9' {
        if begins(n, "0."@) {
            assert(n.take(2)[0] == n[0]);
        }
        reveal_strlit("-0.0");
        assert("-0.0"@[0] == '-');
    }
    if begins(m, "0."@) {
        assert(m.take(2)[0] == m[0]);
    }
    assert("1.0"@[0] == '1');
}

/// A workload makes the corpus exactly where it has a hundred events to the batch, its
/// counts, its first time, the unit it drops and its units in their order.
pub proof fn law_corpus_has_one_workload(v: Generator, w: Generator)
    requires
        makes_the_corpus(v),
    ensures
        v.events_per_batch == 100,
        v.base_ts_ms == 1_772_000_000_000,
        makes_the_corpus(w) <==> w.events_per_batch == v.events_per_batch && w.sensors == v.sensors
            && w.names == v.names && w.tags == v.tags && w.base_ts_ms == v.base_ts_ms
            && w.quality_floor@ == v.quality_floor@ && w.drop_unit@ == v.drop_unit@ && texts(
            w.units@,
        ) == texts(v.units@),
{
}

} // verus!
