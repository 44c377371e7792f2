//! The corpus: derivations, encoding, framing, expectations and target tables.
use spate_bench::avro::AvroValue;
use spate_bench::corpus::{
    ascii_upper, batch_of, batch_ts_ms_of, batch_value, column_sums, ddl_statements, decode_batch,
    encode_batch, expected, expected_range, frame_confluent, name_of, quality_of,
    range_is_computable, region_of, send_ts_us_prefill, sensor_of, split_sql, str_fingerprint,
    tags_of, tier_b_keeps, unit_of, value_of, value_scaled_of, SensorBatch, Tier, BASE_TS_MS,
    DATASET_VERSION, EVENTS_PER_BATCH, QUALITY_FLOOR, SCHEMA_JSON,
};
use spate_bench::doubles::{below, equal, hundredth};
use spate_bench::wire::{check_message, read_batch, typed_batch, verify_step, Mismatch, VerifyStep};

fn decoded(batch_id: u64, send_ts_us: i64) -> SensorBatch {
    let datum = encode_batch(batch_id, send_ts_us);
    read_batch(&datum).expect("into struct")
}

#[test]
fn the_committed_schema_parses() {
    let s = apache_avro::Schema::parse_str(SCHEMA_JSON).expect("the schema parses");
    assert!(
        matches!(&s, apache_avro::Schema::Record(r) if r.name.name() == "SensorBatch"),
        "expected a SensorBatch record schema"
    );
}

#[test]
fn a_batch_round_trips_through_the_typed_decoder() {
    for batch_id in [0u64, 1, 9, 10, 37, 1023, 1024] {
        let decoded = decoded(batch_id, 42);
        assert_eq!(decoded.batch_id, i64::try_from(batch_id).unwrap());
        assert_eq!(decoded.sensor, sensor_of(batch_id));
        assert_eq!(decoded.region, region_of(batch_id));
        assert_eq!(decoded.batch_ts_ms, batch_ts_ms_of(batch_id));
        assert_eq!(decoded.send_ts_us, 42);
        assert_eq!(decoded.events.len() as u32, EVENTS_PER_BATCH);
        for (seq, ev) in (0u32..).zip(&decoded.events) {
            assert_eq!(ev.seq, i32::try_from(seq).unwrap());
            assert_eq!(ev.name, name_of(batch_id, seq));
            assert_eq!(ev.unit, unit_of(batch_id, seq));
            assert_eq!(ev.value, value_of(batch_id, seq));
            assert_eq!(ev.quality, quality_of(batch_id, seq));
            assert_eq!(ev.tags, tags_of(batch_id, seq));
        }
    }
}

#[test]
fn both_union_branches_occur() {
    assert!(region_of(0).is_none(), "batch 0 has a null region");
    assert!(region_of(1).is_some(), "batch 1 has a present region");
    let qualities: Vec<_> = (0..EVENTS_PER_BATCH).map(|s| quality_of(3, s)).collect();
    assert!(qualities.iter().any(Option::is_none), "some quality is null");
    assert!(qualities.iter().any(Option::is_some), "some quality is set");
}

#[test]
fn the_generator_is_deterministic() {
    assert_eq!(encode_batch(12_345, 7), encode_batch(12_345, 7));
    assert_ne!(encode_batch(12_345, 7), encode_batch(12_346, 7));
}

#[test]
fn confluent_framing_is_five_bytes_of_header() {
    let framed = frame_confluent(0x0102_0304, &[0xAA, 0xBB]);
    assert_eq!(framed, vec![0x00, 0x01, 0x02, 0x03, 0x04, 0xAA, 0xBB]);
}

#[test]
fn value_is_never_negative_so_truncation_cannot_differ_across_languages() {
    for batch_id in [0u64, 1, 999, 1_000_000, 5_000_000] {
        for seq in 0..EVENTS_PER_BATCH {
            assert!(value_of(batch_id, seq) >= 0);
        }
    }
}

#[test]
fn ddl_splits_into_the_two_creates_only() {
    let stmts = ddl_statements();
    assert_eq!(stmts.len(), 2, "expected 2 statements, got {stmts:#?}");
    assert!(stmts[0].contains("CREATE TABLE IF NOT EXISTS sensor_events"));
    assert!(stmts[1].contains("CREATE TABLE IF NOT EXISTS sensor_events_t"));
    for s in &stmts {
        assert!(
            !s.contains("uniqExact"),
            "a documented query leaked into executable DDL: {s}"
        );
    }
}

#[test]
fn comment_stripping_does_not_eat_code_on_the_same_line() {
    let stmts = split_sql("CREATE TABLE t (a UInt64) -- note; with a semicolon\n;");
    assert_eq!(stmts.len(), 1);
    assert_eq!(stmts[0], "CREATE TABLE t (a UInt64)");
}

#[test]
fn declared_columns_match_the_ddl_in_order() {
    let stmts = ddl_statements();
    for (tier, stmt) in [(Tier::A, &stmts[0]), (Tier::B, &stmts[1])] {
        let mut cursor = 0usize;
        for (name, ty) in tier.columns() {
            let needle = format!("\n    {name} ");
            let at = stmt[cursor..]
                .find(&needle)
                .map(|i| i + cursor)
                .unwrap_or_else(|| {
                    panic!(
                        "column {name} missing from {} DDL or out of order",
                        tier.table()
                    )
                });
            let line_end = stmt[at + 1..].find('\n').map_or(stmt.len(), |i| at + 1 + i);
            let line = &stmt[at..line_end];
            assert!(
                line.contains(ty),
                "column {name} in {} is declared {line:?}, expected type {ty}",
                tier.table()
            );
            cursor = at + 1;
        }
    }
}

#[test]
fn a_range_expectation_is_the_difference_of_two_prefixes() {
    for tier in [Tier::A, Tier::B] {
        let prefix_700 = expected(700, tier);
        let prefix_200 = expected(200, tier);
        let range = expected_range(200, 700, tier);
        assert_eq!(range.rows, prefix_700.rows - prefix_200.rows, "{tier:?} rows");
        assert_eq!(
            range.value_sum,
            prefix_700.value_sum - prefix_200.value_sum,
            "{tier:?} value_sum"
        );
        assert_eq!(
            range.value_scaled_sum,
            prefix_700.value_scaled_sum - prefix_200.value_scaled_sum,
            "{tier:?} value_scaled_sum"
        );
    }
}

#[test]
fn ascii_upper_is_ascii_only() {
    assert_eq!(ascii_upper("metric_7"), "METRIC_7");
    assert_eq!(ascii_upper("straße"), "STRAßE");
}

#[test]
fn tier_b_filters_a_meaningful_fraction() {
    let batches = 500;
    let a = expected(batches, Tier::A);
    let b = expected(batches, Tier::B);
    assert_eq!(a.rows, batches * u64::from(EVENTS_PER_BATCH));
    assert_eq!(a.value_scaled_sum, 0, "tier A has no scaled column");
    assert!(
        b.rows > 0 && b.rows < a.rows,
        "tier B dropped {} of {}",
        a.rows - b.rows,
        a.rows
    );
    let dropped = (a.rows - b.rows) as f64 / a.rows as f64;
    assert!(
        (0.12..0.45).contains(&dropped),
        "tier B dropped {dropped:.3} of rows, outside the expected band"
    );
    assert!(b.value_scaled_sum > 0);
}

#[test]
fn expectations_agree_with_an_independent_flatten() {
    let batches = 200u64;
    let mut rows = 0u64;
    let mut sum = 0i128;
    for batch_id in 0..batches {
        let b = decoded(batch_id, 0);
        for ev in &b.events {
            let seq = u32::try_from(ev.seq).unwrap();
            if !tier_b_keeps(batch_id, seq) {
                continue;
            }
            rows += 1;
            sum += i128::from(ev.value);
        }
    }
    let exp = expected(batches, Tier::B);
    assert_eq!(exp.rows, rows);
    assert_eq!(exp.value_sum, sum);
}

fn fnv(seed: u64, bytes: &[u8]) -> u64 {
    let mut h = seed;
    for b in bytes {
        h ^= u64::from(*b);
        h = h.wrapping_mul(0x0000_0100_0000_01b3);
    }
    h
}

const FNV_OFFSET: u64 = 0xcbf2_9ce4_8422_2325;
const BATCHES: u64 = 1000;

#[test]
fn encoded_datums_are_byte_identical_to_the_original_harness() {
    let mut h = FNV_OFFSET;
    let mut total = 0usize;
    for id in 0..BATCHES {
        let b = encode_batch(
            id,
            1_772_000_000_000_000_i64 + i64::try_from(id).expect("fits i64"),
        );
        total += b.len();
        h = fnv(h, &b);
    }
    assert_eq!(
        format!("{h:016x}"),
        "5c66e4254fe9b472",
        "the Avro encoding of the corpus changed"
    );
    assert_eq!(total, 4_051_124, "the corpus changed size");
}

#[test]
fn confluent_framing_is_byte_identical_to_the_original_harness() {
    let mut h = FNV_OFFSET;
    for id in 0..BATCHES {
        h = fnv(
            h,
            &frame_confluent(42, &encode_batch(id, i64::try_from(id).expect("fits i64"))),
        );
    }
    assert_eq!(
        format!("{h:016x}"),
        "5e3ced4c090971ea",
        "the Confluent framing of the corpus changed"
    );
}

#[test]
fn closed_form_expectations_are_unchanged() {
    let e = expected(BATCHES, Tier::B);
    assert_eq!(e.rows, 73_500);
    assert_eq!(e.value_sum, 36_712_213_045_500);
    assert_eq!(e.value_scaled_sum, 1_903_970_758_089_327);
    let c = column_sums(0, BATCHES, Tier::B);
    assert_eq!(c.sensor_sum, 862_547_254_290_276_801_415_122);
    assert_eq!(c.region_sum, 789_224_923_606_139_885_762_498);
    assert_eq!(c.name_sum, 650_904_861_039_966_432_802_372);
    assert_eq!(c.unit_sum, 635_040_811_622_225_011_500);
    assert_eq!(c.tag_count_sum, 105_000);
    assert_eq!(c.tag_sum, 483_030_864_161_340_461_867_712);
    assert_eq!(c.batch_ts_sum, 130_242_000_036_711_750);
    assert_eq!(c.null_quality_rows, 17_500);
}

#[test]
fn the_string_fingerprint_is_unchanged() {
    assert_eq!(str_fingerprint(""), 0);
    assert_eq!(str_fingerprint("ms"), 57_568);
    assert_eq!(str_fingerprint("METRIC_7"), 9_557_931_003_773_166_724);
    assert_eq!(str_fingerprint("metric_7"), 11_872_851_856_941_630_628);
    assert_eq!(str_fingerprint("sensor-1023"), 11_861_606_880_014_931_878);
    assert_eq!(str_fingerprint("region-3"), 11_930_833_490_185_392_805);
    assert_eq!(
        str_fingerprint("tag-15tag-0tag-1"),
        14_456_948_040_575_913_637
    );
}

#[test]
fn the_dataset_version_matches_the_committed_workload() {
    assert_eq!(DATASET_VERSION, "d2-60d7e5bb2a82");
}

#[test]
fn hundredths_are_the_nearest_doubles() {
    for k in 0..100u64 {
        assert_eq!(hundredth(k), (k as f64 / 100.0).to_bits(), "{k}/100");
    }
    assert_eq!(QUALITY_FLOOR, 0.2f64.to_bits());
}

#[test]
fn doubles_are_ordered_by_their_bits_as_by_their_values() {
    let values = [
        0.0,
        -0.0,
        0.19,
        0.2,
        0.21,
        1.0,
        -1.0,
        f64::INFINITY,
        f64::NEG_INFINITY,
        f64::NAN,
        -f64::NAN,
        f64::MIN_POSITIVE,
    ];
    for a in values {
        assert_eq!(below(a.to_bits(), 0.2f64.to_bits()), a < 0.2, "{a} < 0.2");
        for b in values {
            assert_eq!(equal(a.to_bits(), b.to_bits()), a == b, "{a} == {b}");
        }
    }
}

#[test]
fn the_derivations_of_one_event_are_as_specified() {
    assert_eq!(sensor_of(1_025), "sensor-1");
    assert_eq!(region_of(8).as_deref(), Some("region-1"));
    assert_eq!(batch_ts_ms_of(5), 1_772_000_000_005);
    assert_eq!(name_of(2, 3), "metric_1");
    assert_eq!(unit_of(0, 3), "drop");
    assert_eq!(unit_of(0, 5), "celsius");
    assert_eq!(value_of(7, 9), (7 * 1_000_003 + 9 * 97) % 2_147_483_647);
    assert_eq!(quality_of(1, 2), Some(0.27f64.to_bits()));
    assert_eq!(quality_of(2, 3), None);
    assert_eq!(tags_of(2, 1), vec!["tag-3", "tag-4", "tag-5"]);
    assert_eq!(tags_of(u64::MAX - 1, 0), vec!["tag-14", "tag-15"]);
    assert_eq!(tags_of(u64::MAX - 2, 0), vec!["tag-13"]);
    assert_eq!(send_ts_us_prefill(9), 1_772_000_000_000_009);
}

#[test]
fn scaling_rounds_towards_zero() {
    assert_eq!(value_scaled_of(7, 2), 2_333);
    assert_eq!(value_scaled_of(-7, 2), -2_333);
    assert_eq!(value_scaled_of(0, 99), 0);
}

#[test]
fn a_range_too_large_to_sum_is_known_as_such() {
    assert!(range_is_computable(Tier::B, 0, 1_500_000));
    assert!(range_is_computable(Tier::A, 10, 10));
    assert!(range_is_computable(Tier::B, u64::MAX, 5));
    assert!(!range_is_computable(Tier::A, 0, u64::MAX));
    assert!(!range_is_computable(Tier::B, u64::MAX - 1, u64::MAX));
}

#[test]
fn a_prefilled_message_is_proven_field_by_field() {
    for id in [0u64, 1, 10, 999, 123_456] {
        let payload = frame_confluent(7, &encode_batch(id, send_ts_us_prefill(id)));
        assert_eq!(check_message(&payload, 7), Ok(id));
        assert_eq!(check_message(&payload, 8), Err(Mismatch::SchemaId(7)));
        let late = frame_confluent(7, &encode_batch(id, send_ts_us_prefill(id) + 1));
        assert_eq!(check_message(&late, 7), Err(Mismatch::SendTs(id)));
    }
    assert_eq!(check_message(&[0, 0, 0, 0, 1], 1), Err(Mismatch::TooShort(5)));
    assert_eq!(check_message(&[1, 0, 0, 0, 1, 9], 1), Err(Mismatch::Magic(1)));
    assert!(matches!(verify_step(64, 64, true), VerifyStep::Done));
    assert!(matches!(verify_step(63, 64, false), VerifyStep::Poll));
    assert!(matches!(
        verify_step(63, 64, true),
        VerifyStep::Expired(m) if m == "only verified 63 of 64 messages before the deadline"
    ));
    let cut = frame_confluent(7, &encode_batch(3, 0)[..20]);
    assert!(check_message(&cut, 7).is_err());
}

fn checked(change: impl Fn(&mut SensorBatch)) -> Result<u64, Mismatch> {
    let mut b = batch_of(11, send_ts_us_prefill(11));
    change(&mut b);
    spate_bench::wire::check_batch(&b)
}

#[test]
fn each_field_that_differs_is_named() {
    assert_eq!(checked(|_| {}), Ok(11));
    assert_eq!(checked(|b| b.batch_id = -1), Err(Mismatch::NegativeBatchId(-1)));
    assert_eq!(
        checked(|b| b.batch_id = i64::MAX),
        Err(Mismatch::OutOfRange(i64::MAX as u64))
    );
    assert_eq!(checked(|b| b.sensor = "s".to_owned()), Err(Mismatch::Sensor(11)));
    assert_eq!(checked(|b| b.region = None), Err(Mismatch::Region(11)));
    assert_eq!(checked(|b| b.batch_ts_ms += 1), Err(Mismatch::BatchTs(11)));
    assert_eq!(checked(|b| b.send_ts_us += 1), Err(Mismatch::SendTs(11)));
    assert_eq!(
        checked(|b| {
            b.events.pop();
        }),
        Err(Mismatch::EventCount(11, 99))
    );
    assert_eq!(
        checked(|b| b.events[4].seq = -4),
        Err(Mismatch::NegativeSeq(11, -4))
    );
    assert_eq!(
        checked(|b| b.events[4].name = "n".to_owned()),
        Err(Mismatch::Name(11, 4))
    );
    assert_eq!(
        checked(|b| b.events[4].unit = "n".to_owned()),
        Err(Mismatch::Unit(11, 4))
    );
    assert_eq!(checked(|b| b.events[4].value += 1), Err(Mismatch::Value(11, 4)));
    assert_eq!(
        checked(|b| b.events[5].quality = None),
        Err(Mismatch::Quality(11, 5))
    );
    assert_eq!(
        checked(|b| b.events[4].tags.push("x".to_owned())),
        Err(Mismatch::Tags(11, 4))
    );
}

#[test]
fn what_is_no_batch_is_not_read_as_one() {
    assert!(typed_batch(&AvroValue::Null).is_none());
    assert!(typed_batch(&AvroValue::Record(vec![])).is_none());
    let whole = batch_value(&batch_of(3, 4));
    assert!(typed_batch(&whole).is_some());
    if let AvroValue::Record(mut fields) = whole {
        fields[0].0 = "id".to_owned();
        assert!(typed_batch(&AvroValue::Record(fields)).is_none());
    }
    assert!(decode_batch(&[]).map_or(true, |v| typed_batch(&v).is_none()));
    assert_eq!(BASE_TS_MS, 1_772_000_000_000);
}

#[test]
fn tier_b_extends_the_columns_of_tier_a() {
    let mut want = Tier::A.columns();
    want[4].0 = "name_upper";
    want.insert(7, ("value_scaled", "Int64"));
    assert_eq!(Tier::B.columns(), want);
}
