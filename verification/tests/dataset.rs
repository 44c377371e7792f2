//! The version of the corpus, from what defines it.
use sha2::{Digest, Sha256};
use spate_bench::dataset::{
    canonical_toml, collapse_whitespace, corpus_region, dataset_version, normalise_rust,
    normalise_sql, strip_rust_line_comment, Toml,
};
use spate_bench::workload::{is_built_in, read_workload, workload_constants};

fn workload() -> Toml {
    Toml::Table(vec![
        (
            "generator".to_owned(),
            Toml::Table(vec![
                ("sensors".to_owned(), Toml::Integer(1024)),
                (
                    "units".to_owned(),
                    Toml::Array(vec![
                        Toml::Text("ms".to_owned()),
                        Toml::Text("drop".to_owned()),
                    ]),
                ),
                ("quality_floor".to_owned(), Toml::Float("0.2".to_owned())),
            ]),
        ),
        ("a".to_owned(), Toml::Boolean(true)),
    ])
}

const CANONICAL: &str = "a\tb\ttrue\ngenerator.quality_floor\tf\t0.2\ngenerator.sensors\ti\t1024\ngenerator.units.0\ts\tms\ngenerator.units.1\ts\tdrop\n";

fn source(code: &str) -> String {
    format!(
        "//! prose\n// dataset-version:begin\n{code}\n{}\n// dataset-version:end\nfn other() {{}}\n",
        "let x = 1;\n".repeat(100)
    )
}

#[test]
fn the_canonical_form_is_sorted_and_typed() {
    assert_eq!(canonical_toml(&workload()).as_deref(), Ok(CANONICAL));
    let tab = Toml::Table(vec![("k".to_owned(), Toml::Text("a\tb".to_owned()))]);
    assert_eq!(
        canonical_toml(&tab),
        Err("workload.toml: k contains a tab or newline, which the canonical form uses as separators".to_owned())
    );
    let when = Toml::Array(vec![Toml::Datetime("2026-01-01".to_owned())]);
    assert!(canonical_toml(&when).is_err_and(|e| e.starts_with("workload.toml: 0 is a datetime (2026-01-01);")));
}

#[test]
fn comments_and_layout_are_free() {
    assert_eq!(
        normalise_sql("CREATE  TABLE t -- a; b\n  (x   UInt64)\n"),
        "CREATE TABLE t (x UInt64)"
    );
    assert_eq!(
        normalise_rust("let s = \"// not a comment\"; // one\n   let t = 2;").as_deref(),
        Ok("let s = \"// not a comment\"; let t = 2;")
    );
    assert_eq!(collapse_whitespace(" a\t\n b "), "a b");
    assert_eq!(
        strip_rust_line_comment("x \"\\\"//\" // y"),
        ("x \"\\\"//\" ".to_owned(), true)
    );
    assert_eq!(strip_rust_line_comment("\"open"), ("\"open".to_owned(), false));
    assert!(normalise_rust("/* block */").is_err());
    assert!(normalise_rust("\"open").is_err());
}

#[test]
fn the_region_is_marked_once_and_is_no_stub() {
    assert!(corpus_region(&source("fn g() {}")).is_ok_and(|r| r.contains("fn g() {}") && !r.contains("other")));
    assert_eq!(
        corpus_region("nothing"),
        Err("corpus.rs must carry exactly one // dataset-version:begin marker".to_owned())
    );
    assert_eq!(
        corpus_region("// dataset-version:begin\n"),
        Err("corpus.rs must carry exactly one // dataset-version:end marker".to_owned())
    );
    assert_eq!(
        corpus_region("// dataset-version:end // dataset-version:begin"),
        Err("corpus.rs closes the dataset-version region before it opens it".to_owned())
    );
    assert!(corpus_region("// dataset-version:begin x // dataset-version:end")
        .is_err_and(|e| e.starts_with("the dataset-version region of corpus.rs is 3 bytes,")));
}

#[test]
fn a_version_digests_every_input_behind_its_label_and_length() {
    let src = source("fn g() {}");
    let code = normalise_rust(&corpus_region(&src).expect("marked")).expect("plain");
    let mut h = Sha256::new();
    for (label, text) in [
        ("workload.toml", CANONICAL),
        ("sensor_batch.avsc", "{}"),
        ("clickhouse/ddl.sql", "SELECT 1"),
        ("corpus.rs", code.as_str()),
    ] {
        h.update(label.as_bytes());
        h.update([0u8]);
        h.update((text.len() as u64).to_le_bytes());
        h.update(text.as_bytes());
    }
    let short: String = h.finalize().iter().take(6).map(|b| format!("{b:02x}")).collect();
    let got = dataset_version(&workload(), "{}", "SELECT 1 -- one", &src).expect("a version");
    assert_eq!(got, format!("d2-{short}"));
    let prose = dataset_version(&workload(), "{}", "SELECT  1", &source("fn g() {} // why"));
    assert_eq!(prose.as_ref(), Ok(&got), "prose is free");
    let moved = dataset_version(&workload(), "{}", "SELECT 2", &src);
    assert_ne!(moved.as_ref(), Ok(&got), "structure is not");
}

fn generator(changed: &str, to: Option<Toml>) -> Toml {
    let units = ["count", "bytes", "ms", "drop", "ratio", "celsius", "volts", "rpm"];
    let mut fields = vec![
        ("events_per_batch", Toml::Integer(100)),
        ("sensors", Toml::Integer(1024)),
        ("names", Toml::Integer(32)),
        ("tags", Toml::Integer(16)),
        ("base_ts_ms", Toml::Integer(1_772_000_000_000)),
        ("quality_floor", Toml::Float("0.2".to_owned())),
        ("drop_unit", Toml::Text("drop".to_owned())),
        (
            "units",
            Toml::Array(units.iter().map(|u| Toml::Text((*u).to_owned())).collect()),
        ),
    ];
    fields.retain(|(k, _)| *k != changed);
    if let Some(v) = to {
        fields.push((changed, v));
    }
    let fields = fields.into_iter().map(|(k, v)| (k.to_owned(), v)).collect();
    Toml::Table(vec![("generator".to_owned(), Toml::Table(fields))])
}

#[test]
fn a_workload_is_read_or_refused() {
    assert_eq!(
        read_workload(&Toml::Table(vec![])).expect_err("refused"),
        "workload.toml has no [generator] table"
    );
    let wrong = |key: &str, to: Option<Toml>| {
        read_workload(&generator(key, to)).expect_err("refused")
    };
    for key in ["events_per_batch", "sensors", "names", "tags", "base_ts_ms"] {
        assert_eq!(
            wrong(key, None),
            format!("workload.toml: generator.{key} must be an integer")
        );
        let other = read_workload(&generator(key, Some(Toml::Integer(7)))).expect("read");
        assert!(!is_built_in(&other), "{key}");
    }
    assert_eq!(
        wrong("quality_floor", Some(Toml::Integer(0))),
        "workload.toml: generator.quality_floor must be a float"
    );
    assert_eq!(
        wrong("drop_unit", None),
        "workload.toml: generator.drop_unit must be a string"
    );
    assert_eq!(wrong("units", None), "workload.toml: generator.units must be an array");
    assert_eq!(
        wrong("units", Some(Toml::Array(vec![Toml::Integer(1)]))),
        "workload.toml: generator.units must be strings"
    );
    assert_eq!(
        wrong("units", Some(Toml::Array(vec![Toml::Text("ms".to_owned())]))),
        "workload.toml: drop_unit \"drop\" is not present in units [\"ms\"]"
    );
    for shown in ["1.5", "-0.1", "inf", "NaN", "1e16", "-1e-7"] {
        assert_eq!(
            wrong("quality_floor", Some(Toml::Float(shown.to_owned()))),
            format!("workload.toml: quality_floor {shown} is outside 0.0..=1.0")
        );
    }
    for shown in [0.0, -0.0, 0.3, 1e-7, 1.0] {
        let floor = Toml::Float(format!("{shown:?}"));
        let v = read_workload(&generator("quality_floor", Some(floor))).expect("read");
        assert!(!is_built_in(&v), "{shown}");
    }
    assert_eq!(
        wrong("events_per_batch", Some(Toml::Integer(0))),
        "workload.toml: events_per_batch must be positive"
    );
}

#[test]
fn the_workload_agrees_with_the_corpus() {
    let v = read_workload(&generator("", None)).expect("read");
    assert!(is_built_in(&v));
    assert_eq!((v.events_per_batch, v.sensors, v.names, v.tags), (100, 1024, 32, 16));
    let units = Toml::Array(vec![Toml::Text("drop".to_owned())]);
    let other = read_workload(&generator("units", Some(units))).expect("read");
    assert!(!is_built_in(&other));
    let ms = Toml::Text("ms".to_owned());
    let moved = read_workload(&generator("drop_unit", Some(ms))).expect("read");
    assert!(!is_built_in(&moved));
}

#[test]
fn a_workload_makes_its_constants() {
    let units = Toml::Array(vec![
        Toml::Text("a\"b".to_owned()),
        Toml::Text("drop".to_owned()),
    ]);
    let v = read_workload(&generator("units", Some(units))).expect("read");
    assert_eq!(
        workload_constants(&v),
        "// @generated by harness/build.rs from workload/workload.toml — do not edit.\n\
         /// Events per message, and therefore the fan-out factor.\n\
         pub const EVENTS_PER_BATCH: u32 = 100;\n\
         /// Distinct `sensor` values.\n\
         pub const SENSORS: u64 = 1024;\n\
         /// Distinct metric names.\n\
         pub const NAMES: u64 = 32;\n\
         /// Distinct tag values.\n\
         pub const TAGS: u64 = 16;\n\
         /// Units; one of them is the tier-B filter sentinel.\n\
         pub const UNITS: [&str; 2] = [\"a\\\"b\", \"drop\"];\n\
         /// The unit value tier B filters out.\n\
         pub const DROP_UNIT: &str = \"drop\";\n\
         /// Tier B drops rows whose `quality` is non-null and below this.\n\
         pub const QUALITY_FLOOR: f64 = 0.2;\n\
         /// Base event timestamp, epoch milliseconds.\n\
         pub const BASE_TS_MS: i64 = 1772000000000;\n"
    );
}
