//! Selectors, records, where they are written, and the command line.
use spate_bench::bench::{
    builds, cmd_build, cmd_list, cmd_retract, cmd_stale, command_named, credential_file,
    default_env, env_u64, exit_code, options_for, opts_from, parse_selectors, problem_list,
    run_selection, stale_selection, Command,
};
use spate_bench::calendar::{civil_from_days, iso_day, year_month};
use spate_bench::driver::Mode;
use spate_bench::entrant::{
    Approach, Display, Entrant, Identity, Maintainer, Planned, Spec, Status as Lifecycle, Variant,
    VersionSource, DESCRIPTOR_SCHEMA,
};
use spate_bench::report::{
    Flag, Infra, Kind, Metric, Report, RunMeta, Status, Sut, Trigger, HARNESS_VERSION,
    SCHEMA_VERSION,
};
use spate_bench::results::{join_path, path_for, record_lines, root_for, TUNING_DIR};
use spate_bench::select::{expand, Selector};
use spate_bench::table::Table;

// --- selectors -------------------------------------------------------------

#[test]
fn parses_the_two_positions() {
    let s = Selector::parse("spate:tier-a").expect("parses");
    assert_eq!(s.entrant, "spate");
    assert_eq!(s.variant, "tier-a");
    assert_eq!(s.image, None);
}

#[test]
fn an_omitted_variant_defaults_to_any() {
    let s = Selector::parse("spate").expect("parses");
    assert_eq!(s.variant, "*");
}

#[test]
fn a_version_position_is_rejected_rather_than_ignored() {
    let e = Selector::parse("*:*:2.2.1").expect_err("must reject");
    assert!(e.contains("no version position"), "{e}");
    assert!(
        e.contains("flink@spate-bench-flink:2.3.0"),
        "the error must point at the image override: {e}"
    );
}

#[test]
fn an_image_override_is_split_off_first() {
    let s = Selector::parse("flink@spate-bench-flink:2.3.0").expect("parses");
    assert_eq!(s.entrant, "flink");
    assert_eq!(s.image.as_deref(), Some("spate-bench-flink:2.3.0"));
    assert_eq!(s.variant, "*");
}

#[test]
fn an_empty_component_is_rejected_rather_than_widened() {
    let e = Selector::parse("spate::").expect_err("must reject");
    assert!(e.contains("empty component"), "{e}");
    assert!(e.starts_with("\"spate::\": "), "{e}");
    assert!(Selector::parse("@tag").is_err());
    assert!(Selector::parse("a:b:c:d").is_err());
    assert_eq!(
        Selector::parse("a\tb@"),
        Err("\"a\\tb@\": empty image tag after '@'".to_owned())
    );
}

#[test]
fn an_image_tag_may_still_carry_a_colon() {
    let s = Selector::parse("flink:tier-a@spate-bench-flink:2.3.0").expect("parses");
    assert_eq!(s.variant, "tier-a");
    assert_eq!(s.image.as_deref(), Some("spate-bench-flink:2.3.0"));
}

#[test]
fn wildcards_match_anything() {
    let s = Selector::parse("*").expect("parses");
    assert!(s.matches_entrant("anything"));
    assert!(s.matches_variant("anything"));
}

#[test]
fn display_round_trips_through_parse() {
    for raw in ["spate:tier-a", "*:*", "flink@img:1.2"] {
        let s = Selector::parse(raw).expect("parses");
        let again = Selector::parse(&s.to_text()).expect("reparses");
        assert_eq!(s, again, "{raw}");
    }
}

fn variant(id: &str, default: bool) -> Variant {
    Variant {
        id: id.to_owned(),
        label: id.to_owned(),
        tier: "a".to_owned(),
        approach: Approach::Realistic,
        unshipped: vec![],
        default,
        env: Table::new(),
        knobs: Table::new(),
        reports: Table::new(),
    }
}

fn entrant(id: &str, status: Lifecycle, variants: Vec<Variant>) -> Entrant {
    Entrant {
        dir: format!("entrants/{id}"),
        spec: Spec {
            schema: DESCRIPTOR_SCHEMA,
            entrant: Identity {
                id: id.to_owned(),
                name: id.to_uppercase(),
                homepage: String::new(),
                repo: String::new(),
                docs: String::new(),
                licence: "MIT".to_owned(),
                vendor: "self".to_owned(),
                kind: String::new(),
                language: vec![],
                runtime: "native".to_owned(),
                status,
            },
            maintainer: Maintainer {
                who: String::new(),
                reviewed_upstream: false,
                review_url: String::new(),
            },
            display: Display {
                order: 1,
                hue: 0,
                short: String::new(),
            },
            version: None,
            build: None,
            envelope: None,
            guarantees: None,
            volumes: None,
            env: Table::new(),
            variants,
            constraints: vec![],
            planned: Some(Planned {
                tracking: String::new(),
                blockers: "\n no sink\nyet".to_owned(),
                licence_gate: String::new(),
            }),
        },
    }
}

fn suite() -> Vec<Entrant> {
    vec![
        entrant(
            "spate",
            Lifecycle::Active,
            vec![variant("a", true), variant("b", false)],
        ),
        entrant("later", Lifecycle::Planned, vec![]),
    ]
}

fn chosen(raw: &[&str]) -> Result<Vec<String>, String> {
    let es = suite();
    let sels: Vec<Selector> = raw
        .iter()
        .map(|s| Selector::parse(s).expect("parses"))
        .collect();
    expand(&es, &sels).map(|arms| {
        arms.iter()
            .map(|a| {
                format!(
                    "{}:{}@{}",
                    a.entrant.id(),
                    a.variant.id,
                    a.image.as_deref().unwrap_or("-")
                )
            })
            .collect()
    })
}

#[test]
fn overlapping_selectors_choose_an_arm_once() {
    assert_eq!(
        chosen(&["spate:b@x:1", "*"]),
        Ok(vec!["spate:b@x:1".to_owned(), "spate:a@-".to_owned()])
    );
}

#[test]
fn arms_come_in_the_order_of_the_first_selector_that_names_them() {
    assert_eq!(
        chosen(&["*:b@x:1", "spate@y:2", "spate:b@z:3"]),
        Ok(vec!["spate:b@x:1".to_owned(), "spate:a@y:2".to_owned()])
    );
}

#[test]
fn a_selector_that_names_nothing_is_refused() {
    assert_eq!(
        chosen(&["flink"]),
        Err("no entrant \"flink\". Known: spate, later".to_owned())
    );
    assert_eq!(
        chosen(&["spate:c"]),
        Err("selector spate:c matched no runnable arm".to_owned())
    );
    assert_eq!(
        chosen(&["later"]),
        Err("selector later:* matched no runnable arm".to_owned())
    );
}

// --- records ---------------------------------------------------------------

fn sut() -> Sut {
    Sut {
        entrant: "spate".to_owned(),
        variant_id: "a".to_owned(),
        version: Some("0.1.0-dev".to_owned()),
        commit: Some("f41280d51165".to_owned()),
        image_digest: format!("sha256:{}", "a".repeat(64)),
        image: "spate-bench-spate".to_owned(),
        toolchain: Some("rustc 1.97.0".to_owned()),
    }
}

fn infra() -> Infra {
    Infra {
        digest: "e3b0c44298fc".to_owned(),
        broker: "redpanda".to_owned(),
        broker_version: "v26.1.13".to_owned(),
        broker_image_digest: format!("sha256:{}", "b".repeat(64)),
        broker_cpus: "800000 100000".to_owned(),
        broker_memory: "8589934592".to_owned(),
        clickhouse_version: "26.3.1.1".to_owned(),
        clickhouse_image_digest: format!("sha256:{}", "c".repeat(64)),
        clickhouse_cpus: "500000 100000".to_owned(),
        clickhouse_memory: "12884901888".to_owned(),
        partitions: 8,
        registry: "redpanda-builtin".to_owned(),
        ceiling_msgs_per_s: 305_554,
    }
}

fn report_at(ts_ms: u64) -> Report<f64, String> {
    Report::new(
        "kafka_avro_clickhouse",
        Kind::Measurement,
        Status::Passed,
        sut(),
        RunMeta::new(
            ts_ms,
            None,
            "mac-m5max".to_owned(),
            "deadbeef".to_owned(),
            Trigger::Manual,
            infra(),
        ),
    )
}

#[test]
fn run_ids_are_unique_and_time_ordered() {
    let a = report_at(0).run_id;
    let b = report_at(0).run_id;
    assert_ne!(a, b);
    assert!(a < b, "v7 ids must sort by time: {a} !< {b}");
    assert_eq!(a.len(), 36);
    assert_eq!(&a[14..15], "7");
}

#[test]
fn footprint_bytes_are_unscaled_and_labelled_bytes() {
    let m = Metric::bytes(1_059_481_600.0);
    assert_eq!(m.unit, "bytes");
    assert!(!m.higher_is_better);
    assert!(m.value > 1e9, "must be raw bytes, got {}", m.value);
}

#[test]
fn direction_travels_with_the_number() {
    assert!(Metric::maximize(1.0, "records/s").higher_is_better);
    assert!(!Metric::minimize(1.0, "ns").higher_is_better);
}

#[test]
fn only_successful_statuses_carry_metrics() {
    assert!(Status::Passed.carries_metrics());
    assert!(Status::InfraBound.carries_metrics());
    assert!(!Status::Failed.carries_metrics());
    assert!(!Status::Unsupported.carries_metrics());
}

#[test]
fn a_record_is_built_up_part_by_part() {
    let r = report_at(5)
        .rep(2, 3)
        .variant("tier", "a".to_owned())
        .metric("rows_per_s", Metric::maximize(4_383_663.0, "records/s"))
        .metric(
            "cpu_us_per_row",
            Metric::minimize(0.6187, "us").with_n(3).with_ci(0.5, 0.7),
        )
        .flag(Flag::CpuCapThrottled)
        .flag(Flag::CpuCapThrottled)
        .note("330 sampler samples".to_owned());
    assert_eq!(r.schema, SCHEMA_VERSION);
    assert_eq!(r.run.harness_version, HARNESS_VERSION);
    assert_eq!(r.run.dataset_version, "d2-60d7e5bb2a82");
    assert_eq!((r.rep, r.reps), (2, 3));
    assert_eq!(r.flags, [Flag::CpuCapThrottled]);
    assert_eq!(r.metrics.keys(), ["cpu_us_per_row", "rows_per_s"]);
    let m = r.metrics.get("cpu_us_per_row").expect("attached");
    assert_eq!((m.n, m.ci95), (Some(3), Some((0.5, 0.7))));
    assert_eq!(r.variant.get("tier").map(String::as_str), Some("a"));
    assert!(r.superseded_by.is_none());
}

// --- the archive -----------------------------------------------------------

#[test]
fn months_are_derived_from_the_records_own_timestamp() {
    assert_eq!(year_month(1_784_937_600_000), "2026-07");
    assert_eq!(year_month(0), "1970-01");
    assert_eq!(year_month(1_709_208_000_000), "2024-02");
    assert_eq!(year_month(1_798_761_599_000), "2026-12");
    assert_eq!(year_month(1_798_761_600_000), "2027-01");
}

#[test]
fn days_follow_the_gregorian_calendar() {
    assert_eq!(iso_day(1_709_208_000_000), "2024-02-29");
    assert_eq!(iso_day(951_868_800_000), "2000-03-01");
    assert_eq!(civil_from_days(59), (1970, 3, 1));
    assert_eq!(civil_from_days(47_540), (2100, 2, 28));
    assert_eq!(civil_from_days(47_541), (2100, 3, 1));
}

#[test]
fn a_barred_record_is_no_file_of_the_published_archive() {
    for repo in ["/repo", "/repo/", "", "results"] {
        let published = root_for(repo, Trigger::Nightly);
        let path = path_for(&root_for(repo, Trigger::Pr), "mac", "spate", 0);
        assert!(!path.starts_with(&published), "{path}");
        assert!(path_for(&published, "mac", "spate", 0).starts_with(&published));
    }
}

#[test]
fn a_run_that_must_never_be_published_is_written_beside_the_archive_and_not_into_it() {
    let repo = "/repo";
    let publishable = root_for(repo, Trigger::Manual);
    assert!(
        std::path::Path::new(&publishable).ends_with("results"),
        "{publishable}"
    );
    for barred in [Trigger::Tuning, Trigger::Pr] {
        let root = root_for(repo, barred);
        assert!(
            std::path::Path::new(&root).ends_with(TUNING_DIR),
            "{barred:?}: {root}"
        );
        assert!(
            !std::path::Path::new(&root).starts_with(&publishable),
            "{barred:?}"
        );
    }
}

#[test]
fn a_partial_rerun_touches_exactly_one_path() {
    let root = "/results";
    let a = path_for(root, "env", "spate", 1_784_937_600_000);
    let b = path_for(root, "env", "flink", 1_784_937_600_000);
    assert_ne!(a, b);
    assert!(
        std::path::Path::new(&a).ends_with("env/spate/2026-07.jsonl"),
        "{a}"
    );
}

#[test]
fn paths_join_as_std_joins_them() {
    for (a, b) in [("/r", "x"), ("/r/", "x"), ("", "x"), ("/r", "/x"), ("r", "")] {
        assert_eq!(
            std::path::PathBuf::from(join_path(a, b)).as_os_str(),
            std::path::Path::new(a).join(b).as_os_str(),
            "{a:?} {b:?}"
        );
    }
}

#[test]
fn blank_lines_hold_no_record() {
    assert_eq!(
        record_lines("{}\n\n  \n{1}\r\n"),
        [(1, "{}".to_owned()), (4, "{1}".to_owned())]
    );
}

// --- the command line ------------------------------------------------------

fn args(s: &str) -> Vec<String> {
    s.split(' ').filter(|a| !a.is_empty()).map(str::to_owned).collect()
}

#[test]
fn options_are_read_strictly() {
    let o = opts_from(&args("spate --reps 5 --env lab --dry-run --trigger pr --batches 10"), "mac".to_owned())
        .expect("valid");
    assert_eq!((o.reps, o.batches), (5, 10));
    assert_eq!(o.env_id, "lab");
    assert!(o.dry_run && !o.fail_fast && !o.reuse_infra);
    assert_eq!(o.trigger, Trigger::Pr);
    let d = opts_from(&args("--fail-fast --reuse-infra --topic t"), "mac".to_owned()).expect("valid");
    assert_eq!((d.reps, d.batches), (3, 1_500_000));
    assert_eq!((d.env_id.as_str(), d.topic.as_str()), ("mac", "t"));
    let err = |s: &str| opts_from(&args(s), "mac".to_owned()).expect_err("refused");
    assert_eq!(err("--repz 3"), "unknown flag \"--repz\". Try `bench help`.");
    assert_eq!(err("--reps"), "--reps needs a value");
    assert_eq!(err("--reps many"), "--reps: invalid digit found in string");
    assert_eq!(
        err("--reps 4294967296"),
        "--reps: number too large to fit in target type"
    );
    assert_eq!(err("--trigger cron"), "unknown --trigger \"cron\"");
    assert_eq!(
        opts_from(&args(""), "mac".to_owned()).expect("defaults").topic,
        "comparison-sensor-batches"
    );
    assert_eq!(err("--trigger tuning"), "unknown --trigger \"tuning\"");
    assert_eq!(
        opts_from(&args("--stale --reps 4"), "m".to_owned()).expect("valid").reps,
        4
    );
}

#[test]
fn profiles_are_consulted_only_where_none_is_named() {
    let o = options_for(&args("--env a"), &args("a b")).expect("named");
    assert_eq!((o.reps, o.batches), (3, 1_500_000));
    assert_eq!((o.env_id.as_str(), o.topic.as_str()), ("a", "comparison-sensor-batches"));
    assert_eq!((o.mode, o.trigger), (Mode::Drain, Trigger::Manual));
    assert!(!o.dry_run && !o.reuse_infra && !o.fail_fast);
    assert_eq!(options_for(&args("--env a"), &args("")).expect("named").env_id, "a");
    assert_eq!(options_for(&args(""), &args("mac")).expect("only one").env_id, "mac");
    let refused = |s: &str| options_for(&args(s), &args("a b")).expect_err("refused");
    assert!(refused("--reps 2").starts_with("several environments exist (a, b);"));
    assert!(refused("--topic --env").starts_with("several environments exist (a, b);"));
    assert_eq!(refused("--env"), "--env needs a value");
}

#[test]
fn the_value_of_a_flag_is_no_selector() {
    let sels = parse_selectors(&args("spate --reps 3 flink:a --dry-run")).expect("two selectors");
    let shown: Vec<String> = sels.iter().map(Selector::to_text).collect();
    assert_eq!(shown, ["spate:*", "flink:a"]);
    assert_eq!(
        parse_selectors(&args("--reps 3")),
        Err("no selector given. Use '*' for everything.".to_owned())
    );
    assert!(parse_selectors(&args("a::")).is_err());
}

#[test]
fn an_environment_is_never_guessed() {
    assert_eq!(default_env(&args("mac")), Ok("mac".to_owned()));
    assert_eq!(
        default_env(&args("")),
        Err("no environment profiles in environments/".to_owned())
    );
    assert_eq!(
        default_env(&args("mac lab")),
        Err("several environments exist (lab, mac); name one with --env. Guessing which hardware a number describes is not something this tool does.".to_owned())
    );
}

#[test]
fn commands_are_known_by_name() {
    assert_eq!(command_named("run"), Ok(Command::Run));
    assert_eq!(command_named("--help"), Ok(Command::Help));
    assert_eq!(
        command_named("rum"),
        Err("unknown subcommand \"rum\". Try `bench help`.".to_owned())
    );
    assert_eq!(env_u64("N", None, 4), Ok(4));
    assert_eq!(env_u64("N", Some("7"), 4), Ok(7));
    assert_eq!(
        env_u64("N", Some("x"), 4),
        Err("N=\"x\" is not a u64: invalid digit found in string".to_owned())
    );
    assert_eq!(exit_code("REFUSED: no"), 3);
    assert_eq!(exit_code("no"), 1);
    assert_eq!(
        problem_list("descriptor problem(s)", &args("a b")),
        "2 descriptor problem(s):\n  - a\n  - b"
    );
}

#[test]
fn a_listing_says_when_each_variant_was_last_measured() {
    let records = vec![report_at(1_709_208_000_000), report_at(0)];
    assert_eq!(
        cmd_list(&suite(), &records),
        [
            "spate                    active      native  SPATE  [vendor-run]",
            "    a                            realistic  last 2024-02-29 (default)",
            "    b                            realistic  never measured",
            "later                    planned     native  LATER  [vendor-run]",
            "    blocked: no sink",
        ]
    );
}

#[test]
fn staleness_is_by_protocol_and_corpus() {
    let mut old = report_at(7);
    old.run.harness_version = 0;
    assert_eq!(
        cmd_stale(&suite(), &vec![old.clone(), report_at(3)]),
        [
            "spate:a — harness v0 (current v1); not comparable",
            "spate:b — never measured",
        ]
    );
    let mut moved = report_at(7);
    moved.run.dataset_version = "d1-0".to_owned();
    moved.sut.variant_id = "b".to_owned();
    assert_eq!(
        cmd_stale(&suite(), &vec![report_at(3), moved.clone()]),
        ["spate:b — dataset d1-0 (current d2-60d7e5bb2a82); not comparable"]
    );
    moved.run.dataset_version = "d2-60d7e5bb2a82".to_owned();
    assert_eq!(
        cmd_stale(&suite(), &vec![report_at(3), moved]),
        ["every runnable arm has a current measurement"]
    );
}

#[test]
fn a_stale_run_measures_what_has_fallen_behind() {
    let mut es = suite();
    let picked = |es: &Vec<Entrant>, s: &str, records: &Vec<Report<f64, String>>| {
        run_selection(&args(s), es, records).map(|arms| {
            arms.iter()
                .map(|a| a.variant.id.clone())
                .collect::<Vec<String>>()
        })
    };
    let current = vec![report_at(3)];
    assert_eq!(picked(&es, "--stale --reps 3", &current), Ok(args("b")));
    assert_eq!(picked(&es, "spate:a --stale", &current), Ok(vec![]));
    assert_eq!(picked(&es, "spate", &current), Ok(args("a b")));
    assert_eq!(
        picked(&es, "--reps 3", &current),
        Err("no selector given. Use '*' for everything.".to_owned())
    );
    assert_eq!(
        picked(&es, "--reps --stale", &current),
        Err("no selector given. Use '*' for everything.".to_owned())
    );
    es[0].spec.version = Some(VersionSource {
        strategy: "command".to_owned(),
        command: vec![],
        pinned: "0.2.0".to_owned(),
    });
    assert_eq!(picked(&es, "--stale", &current), Ok(args("a b")));
    es[0].spec.version = Some(VersionSource {
        strategy: "command".to_owned(),
        command: vec![],
        pinned: "0.1.0-dev".to_owned(),
    });
    assert_eq!(picked(&es, "--stale", &current), Ok(args("b")));
    let arms = expand(&es, &vec![Selector::parse("spate:b@x:1").expect("parses")]).expect("arms");
    let behind = stale_selection(arms, &current);
    assert_eq!(behind.len(), 1);
    assert_eq!(behind[0].image.as_deref(), Some("x:1"));
}

#[test]
fn an_image_is_built_once_for_each_entrant() {
    let es = suite();
    let arms = expand(&es, &vec![Selector::parse("*").expect("parses")]).expect("arms");
    assert!(builds(&arms, 0));
    assert!(!builds(&arms, 1));
    assert_eq!(
        cmd_build(
            "Dockerfile",
            "img",
            &vec![("gitcred".to_owned(), "/h/.git-credentials".to_owned())]
        )
        .join(" "),
        "build -f Dockerfile -t img --secret id=gitcred,src=/h/.git-credentials ."
    );
    assert_eq!(
        credential_file("gitcred", Some("/h")),
        Ok("/h/.git-credentials".to_owned())
    );
    assert_eq!(
        credential_file("gitcred", None),
        Err("HOME is not set".to_owned())
    );
    assert_eq!(
        credential_file("x", None),
        Err("unknown build secret \"x\"".to_owned())
    );
}

#[test]
fn a_retraction_states_its_reason() {
    assert_eq!(
        cmd_retract(&args("id --reason wrong")),
        Ok(("id".to_owned(), "wrong".to_owned()))
    );
    assert_eq!(
        cmd_retract(&args("id --reason")),
        Err("a retraction must state a reason: --reason <text>".to_owned())
    );
    assert_eq!(
        cmd_retract(&args("")),
        Err("usage: bench retract <run_id> --reason <text>".to_owned())
    );
}
