//! Flattening, from the typed batch and from the decoded value.
use spate_bench::avro::AvroValue;
use spate_bench::corpus::{
    batch_of, decode_batch, encode_batch, expected, region_of, SensorBatch, Tier, EVENTS_PER_BATCH,
};
use spate_bench::rows::{flatten_typed_a, flatten_typed_b, flatten_value_a, flatten_value_b};
use spate_bench::wire::typed_batch;

fn decode(batch_id: u64, send_ts_us: i64) -> (AvroValue, SensorBatch) {
    let datum = encode_batch(batch_id, send_ts_us);
    let v = decode_batch(&datum).expect("decode");
    let typed = typed_batch(&v).expect("into struct");
    (v, typed)
}

fn field_names(v: &AvroValue) -> Vec<String> {
    match v {
        AvroValue::Record(f) => f.iter().map(|(n, _)| n.clone()).collect(),
        other => panic!("expected a record, got {other:?}"),
    }
}

#[test]
fn avro_field_order_matches_the_positional_constants() {
    let (v, _) = decode(7, 1);
    assert_eq!(
        field_names(&v),
        [
            "batch_id",
            "sensor",
            "region",
            "batch_ts_ms",
            "send_ts_us",
            "events"
        ],
        "SensorBatch field order"
    );
    let AvroValue::Record(rec) = &v else {
        panic!("not a record")
    };
    let AvroValue::Array(events) = &rec[5].1 else {
        panic!("events is not an array")
    };
    assert_eq!(
        field_names(&events[0]),
        ["seq", "name", "unit", "value", "quality", "tags"],
        "Event field order"
    );
}

#[test]
fn the_typed_and_value_paths_produce_identical_rows() {
    for batch_id in [0u64, 1, 9, 10, 13, 37, 1023, 1024, 99_999] {
        let (v, typed) = decode(batch_id, 12_345);
        let from_typed: Vec<String> =
            flatten_typed_a(&typed).iter().map(|r| format!("{r:?}")).collect();
        let from_value: Vec<String> =
            flatten_value_a(&v).iter().map(|r| format!("{r:?}")).collect();
        assert_eq!(
            from_typed, from_value,
            "tier A rows differ between decode paths for batch {batch_id}"
        );
        assert_eq!(
            u32::try_from(from_typed.len()).unwrap(),
            EVENTS_PER_BATCH,
            "tier A must not filter"
        );
        let b_typed: Vec<String> =
            flatten_typed_b(&typed).iter().map(|r| format!("{r:?}")).collect();
        let b_value: Vec<String> =
            flatten_value_b(&v).iter().map(|r| format!("{r:?}")).collect();
        assert_eq!(
            b_typed, b_value,
            "tier B rows differ between decode paths for batch {batch_id}"
        );
    }
}

#[test]
fn flatten_agrees_with_the_gate_expectations() {
    let batches = 300u64;
    let (mut rows_a, mut rows_b) = (0u64, 0u64);
    let (mut sum_a, mut sum_b, mut scaled_b) = (0i128, 0i128, 0i128);
    for batch_id in 0..batches {
        let (v, _) = decode(batch_id, 0);
        for r in flatten_value_a(&v) {
            rows_a += 1;
            sum_a += i128::from(r.value);
        }
        for r in flatten_value_b(&v) {
            rows_b += 1;
            sum_b += i128::from(r.value);
            scaled_b += i128::from(r.value_scaled);
        }
    }
    let exp_a = expected(batches, Tier::A);
    let exp_b = expected(batches, Tier::B);
    assert_eq!((exp_a.rows, exp_a.value_sum), (rows_a, sum_a), "tier A");
    assert_eq!((exp_b.rows, exp_b.value_sum), (rows_b, sum_b), "tier B");
    assert_eq!(exp_b.value_scaled_sum, scaled_b, "tier B scaled sum");
}

#[test]
fn a_null_region_becomes_the_empty_string() {
    assert!(region_of(10).is_none());
    let (v, typed) = decode(10, 0);
    assert!(
        flatten_value_a(&v).iter().all(|r| r.region.is_empty()),
        "value path coalesces"
    );
    assert!(
        flatten_typed_a(&typed).iter().all(|r| r.region.is_empty()),
        "typed path coalesces"
    );
}

#[test]
fn a_row_carries_the_columns_of_its_event() {
    let b = batch_of(13, 77);
    let rows = flatten_typed_b(&b);
    let row = &rows[0];
    assert_eq!(row.batch_id, 13);
    assert_eq!(row.event_seq, 1);
    assert_eq!(row.sensor, "sensor-13");
    assert_eq!(row.region, "region-6");
    assert_eq!(row.name_upper, "METRIC_20");
    assert_eq!(row.unit, "ratio");
    assert_eq!(row.value, 13 * 1_000_003 + 97);
    assert_eq!(row.value_scaled, (13 * 1_000_003 + 97) * 1000 / 2);
    assert_eq!(row.quality, Some(0.76f64.to_bits()));
    assert_eq!(row.tags, ["tag-14", "tag-15"]);
    assert_eq!(row.batch_ts, 1_772_000_000_013);
    assert_eq!(row.send_ts, 77);
}

#[test]
fn a_dropped_event_is_not_read_any_further() {
    let unit = |u: &str| {
        AvroValue::Record(vec![
            ("seq".to_owned(), AvroValue::Null),
            ("name".to_owned(), AvroValue::Null),
            ("unit".to_owned(), AvroValue::Text(u.to_owned())),
        ])
    };
    let batch = AvroValue::Record(vec![
        ("batch_id".to_owned(), AvroValue::Long(1)),
        ("sensor".to_owned(), AvroValue::Text("s".to_owned())),
        ("region".to_owned(), AvroValue::Null),
        ("batch_ts_ms".to_owned(), AvroValue::Int(2)),
        ("send_ts_us".to_owned(), AvroValue::Long(3)),
        ("events".to_owned(), AvroValue::Array(vec![unit("drop")])),
    ]);
    assert!(flatten_value_b(&batch).is_empty());
}
