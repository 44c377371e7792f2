//! Sampler series, client replies, infrastructure, gates, load and topics.
use spate_bench::corpus::{decode_batch, frame_confluent, expected_range, Tier};
use spate_bench::environment::{
    short_digest, Broker, CeilingRef, Class, ClickHouse, Environment, Host, Infra as Shared,
    Profile, HEADROOM_LIMIT,
};
use spate_bench::fetcher::{format_run, parse_fetch, parse_ready, start_fetcher, RemoteFetch};
use spate_bench::gates::{
    bounds_sql, counts_sql, gate_window, run_gates, sums_sql, GateError, Gates, Window,
};
use spate_bench::infra::{
    assert_cap, bring_up, broker_version, clickhouse_version, cpu_max_fields, endpoints,
    must_start, start_broker, start_clickhouse, Observed,
};
use spate_bench::inserter::{
    check_ready, format_burst, parse_burst, start_inserter, write_pool, Block, RemoteBurst,
};
use spate_bench::kafka::{ensure_topic, topic_partitions, MetadataStep, TopicReply};
use spate_bench::load::{
    after_send, check_landed, next_send, plan_prefill, prefill_message, topic_message_count,
    total_load, LoadStep, LoadTally, PrefillPlan, Schedule,
};
use spate_bench::registry::{
    register_schema, registration_body, registration_path, schema_id, JsonNumber, RegistryError,
};
use spate_bench::reply::{reply_window, Seconds};
use spate_bench::report::Flag;
use spate_bench::sampler::{
    collect_samples, container_id, lock_holder, lock_line, lock_step, sampler_name, start_arm,
    start_named, start_sut, sut_alive, LockStep, Sample, Samples, SutCost, SutSpec,
};
use spate_bench::text::read_number;
use spate_bench::wire::check_message;

// --- sampler ---------------------------------------------------------------

#[test]
fn parses_a_sampler_row() {
    let row = "1784979298378,129007508,129003510,3998,660,602643,659456,659456,\
               135168,0,399080,16384,0";
    let s = Sample::parse(row).expect("row parses");
    assert_eq!(s.t_ms, 1_784_979_298_378);
    assert_eq!(s.usage_usec, 129_007_508);
    assert_eq!(s.anon, 135_168);
    assert_eq!(s.sock, 0);
}

#[test]
fn rejects_a_row_of_the_wrong_width() {
    assert!(Sample::parse("1,2,3").is_none());
    assert!(Sample::parse("not,a,row").is_none());
}

#[test]
fn a_single_sample_summarises_to_nothing() {
    let one = Sample::parse("1000,5,5,0,0,0,10,10,10,0,0,0,0").expect("row parses");
    let s = Samples {
        meta: String::new(),
        rows: vec![one],
        wall_s: 1.0,
    };
    assert!(s.summarise().is_none());
}

#[test]
fn summarises_cpu_as_a_delta_over_the_window() {
    let rows = vec![
        Sample::parse("1000,1000000,900000,100000,0,0,100,100,80,20,0,0,0").expect("row parses"),
        Sample::parse("2000,3000000,2700000,300000,3,500,300,400,250,50,0,0,0")
            .expect("row parses"),
    ];
    let cost = Samples {
        meta: String::new(),
        rows,
        wall_s: 1.0,
    }
    .summarise()
    .expect("two samples summarise");

    let window_s = cost.window_ms as f64 / 1000.0;
    let cpu_us = cost.cpu_us as f64;
    assert!((window_s - 1.0).abs() < 1e-9);
    assert!((cpu_us - 2_000_000.0).abs() < 1e-9);
    assert!((cpu_us / (window_s * 1_000_000.0) - 2.0).abs() < 1e-9);
    assert_eq!(cost.peak_anon_bytes, 250);
    assert_eq!(cost.peak_charged_bytes, 400);
    assert_eq!(cost.peak_current_bytes, 300);
    assert!(cost.was_throttled());
    assert!((cpu_us / 1_000_000.0 - 2.0).abs() < 1e-9);
}

#[test]
fn parts_add_up_to_one_arm() {
    let part = |cpu: i128, window: u64, samples: usize| SutCost {
        window_ms: window,
        cpu_us: cpu,
        user_us: 1,
        system_us: 2,
        throttled_us: 3,
        nr_throttled: 0,
        peak_anon_bytes: 4,
        peak_charged_bytes: 5,
        peak_current_bytes: 6,
        samples,
    };
    let sum = SutCost::sum(&vec![part(10, 900, 4), part(20, 1000, 3)]).expect("two parts");
    assert_eq!(sum.cpu_us, 30);
    assert_eq!(sum.window_ms, 1000);
    assert_eq!(sum.samples, 3);
    assert_eq!(sum.peak_current_bytes, 12);
    assert!(!sum.was_throttled());
    assert_eq!(SutCost::sum(&vec![]), None);
}

#[test]
fn a_series_is_its_last_header_and_its_rows() {
    let lines: Vec<String> = [
        "# first",
        "1000,5,5,0,0,0,10,10,10,0,0,0,0",
        "noise",
        "#  cpu.max=1/1 ",
    ]
    .map(str::to_owned)
    .to_vec();
    let s = collect_samples(&lines, 2.5);
    assert_eq!(s.meta, "cpu.max=1/1");
    assert_eq!(s.rows.len(), 1);
    assert!(s.wall_s > 2.0);
}

#[test]
fn a_lock_is_reclaimed_only_from_the_dead() {
    assert_eq!(lock_line(42, "bench run"), "42 bench run\n");
    assert_eq!(lock_holder("42 bench run\n"), Some(42));
    assert_eq!(lock_holder("x"), None);
    assert!(matches!(lock_step("42 bench run", false), LockStep::Reclaim));
    assert!(matches!(
        lock_step("42 bench run\n", true),
        LockStep::Refuse(m) if m.starts_with("another arm holds /tmp/spate-bench-comparison.lock: 42 bench run. ")
    ));
    assert!(matches!(lock_step("", false), LockStep::Refuse(_)));
}

#[test]
fn containers_start_capped_and_on_the_network() {
    let spec = SutSpec {
        name: "n".to_owned(),
        image: "img".to_owned(),
        cpus: "4".to_owned(),
        memory: "16g".to_owned(),
        env: vec![("K".to_owned(), "v".to_owned())],
        args: vec!["go".to_owned()],
        volumes: vec!["a:/a".to_owned()],
    };
    assert_eq!(
        start_sut(&spec).join(" "),
        "run -d --name n --network spate-bench-net --cpus=4 --memory=16g --memory-swap=16g -e K=v -v a:/a img go"
    );
    assert_eq!(
        start_named("id", "1", &sampler_name(3)).join(" "),
        "run --rm -i --name spate-bench-sampler-3 --network spate-bench-net --cgroupns=host -v /sys/fs/cgroup:/cg:rw python:3.12-alpine python3 - /cg/docker/id 1"
    );
    assert_eq!(container_id("n", "a".repeat(64)), Ok("a".repeat(64)));
    assert_eq!(
        container_id("n", "short".to_owned()),
        Err("expected a 64-hex container id for n, got \"short\"".to_owned())
    );
    assert!(sut_alive(Some("true")));
    assert!(!sut_alive(Some("false")) && !sut_alive(None));
    assert_eq!(start_arm(&vec![spec.clone()]), [start_sut(&spec)]);
}

// --- replies ---------------------------------------------------------------

/// The window of a reply, read as a number of seconds.
fn window(line: &str) -> Result<Seconds<f64>, String> {
    let text = reply_window(line).unwrap_or_default();
    let value: f64 = text.parse().map_err(|e| format!("{e}"))?;
    Ok(Seconds {
        value,
        is_empty: value <= 0.0,
        shown: format!("{value}"),
    })
}

fn fetch(line: &str) -> Result<RemoteFetch<f64>, String> {
    parse_fetch(line, window(line))
}

fn burst(line: &str) -> Result<RemoteBurst<f64>, String> {
    parse_burst(line, window(line))
}

#[test]
fn a_run_line_names_the_window_and_one_partition_list_per_consumer() {
    assert_eq!(
        format_run(&vec![vec![0, 2, 4, 6], vec![1, 3, 5, 7]], 660),
        "RUN 0.660 0,2,4,6 1,3,5,7\n"
    );
    assert_eq!(format_run(&vec![vec![0], vec![1]], 8000), "RUN 8.000 0 1\n");
}

#[test]
fn a_ready_line_carries_one_backlog_per_partition() {
    assert_eq!(
        parse_ready("READY 187500 187500 187499").expect("a well-formed ready line"),
        vec![187_500, 187_500, 187_499]
    );
    assert!(parse_ready("READY").is_err(), "no partitions is not a topic");
    assert!(parse_ready("ERR ConnectionRefusedError").is_err());
    assert!(parse_ready("READY 187500 many").is_err());
    assert_eq!(
        parse_ready("READY 1 many"),
        Err("the fetcher's partition depths do not parse: invalid digit found in string".to_owned())
    );
}

#[test]
fn a_window_reply_carries_the_messages_the_bytes_and_the_time_they_took() {
    let fetched = fetch("OK 1122334 4562291110 0.686000").expect("a well-formed reply");
    assert_eq!(fetched.msgs, 1_122_334);
    assert_eq!(fetched.bytes, 4_562_291_110);
    assert!((fetched.elapsed_s - 0.686).abs() < 1e-9);
}

#[test]
fn a_drained_partition_is_refused_by_name_rather_than_reported_as_a_lower_rate() {
    let e = fetch(
        "ERR RuntimeError: DRAINED: partition 3 ran out of backlog 0.61s into a 0.80s window",
    )
    .expect_err("a drained window is a refusal");
    assert!(e.starts_with("REFUSED (DRAINED)"), "{e}");
    assert!(e.contains("partition 3"), "{e}");
}

#[test]
fn a_fetcher_that_reports_an_error_fails_the_window_rather_than_reporting_what_it_read() {
    let e = fetch("ERR RuntimeError: record batch declares 256 records and 255 were parsed")
        .expect_err("an ERR reply is a refusal");
    assert!(e.contains("declares 256 records"), "{e}");
    assert!(!e.starts_with("REFUSED (DRAINED)"), "{e}");
    assert!(fetch("").is_err());
    assert!(fetch("READY 187500").is_err());
    assert!(fetch("OK 1").is_err(), "a truncated reply is not a window");
    assert!(fetch("OK many 1 1.0").is_err());
}

#[test]
fn a_reply_of_no_messages_or_no_window_is_refused_rather_than_divided_by() {
    assert!(fetch("OK 0 0 0.8").is_err());
    assert!(fetch("OK 100 406500 0.0").is_err());
    assert_eq!(
        fetch("OK 0 0 0.8"),
        Err("REFUSED: the fetcher reported 0 messages over 0.8s, which is not a measurement of anything".to_owned())
    );
}

#[test]
fn a_pool_is_framed_as_a_header_line_and_the_exact_bytes_that_follow_it() {
    let block = |rows: u64, body: &[u8]| Block {
        body: body.to_vec(),
        rows,
    };
    let mut out = Vec::new();
    write_pool(
        &mut out,
        &vec![block(3, b"\nBLOCK 9 9\n"), block(2, &[0u8, 0xff, b'\n'])],
    );
    assert_eq!(
        out,
        b"POOL 2\nBLOCK 3 11\n\nBLOCK 9 9\nBLOCK 2 3\n\x00\xff\n".to_vec()
    );
}

#[test]
fn a_burst_reply_carries_the_rows_the_bytes_and_the_window_they_took() {
    let burst = burst("OK 38000000 3458000000 8.004321").expect("a well-formed reply");
    assert_eq!(burst.rows, 38_000_000);
    assert_eq!(burst.bytes, 3_458_000_000);
    assert!((burst.elapsed_s - 8.004_321).abs() < 1e-9);
}

#[test]
fn an_inserter_that_reports_an_error_fails_the_rung_rather_than_reporting_what_landed() {
    let e = burst("ERR RuntimeError: Code: 252. DB::Exception: Too many parts")
        .expect_err("an ERR reply is a refusal");
    assert!(e.contains("Too many parts"), "{e}");
    assert!(burst("").is_err());
    assert!(burst("READY 8 72000000").is_err());
    assert!(burst("OK 1").is_err(), "a truncated reply is not a burst");
    assert!(burst("OK nine 1 1.0").is_err());
}

#[test]
fn a_reply_of_no_rows_or_no_window_is_refused_rather_than_divided_by() {
    assert!(burst("OK 0 0 8.0").is_err());
    assert!(burst("OK 100 100 0.0").is_err());
}

#[test]
fn replies_that_lack_a_part_name_it() {
    assert_eq!(
        burst("OK 1"),
        Err("the inserter's reply carries no byte count: \"OK 1\"".to_owned())
    );
    assert_eq!(
        burst("OK x"),
        Err("the inserter's row count does not parse: invalid digit found in string".to_owned())
    );
    assert_eq!(
        fetch("OK 1 2 soon"),
        Err("the fetcher's window does not parse: invalid float literal".to_owned())
    );
    assert_eq!(fetch("OK 1 2"), Err("the fetcher's reply carries no window: \"OK 1 2\"".to_owned()));
    assert_eq!(burst("?"), Err("the inserter answered \"?\"".to_owned()));
    assert_eq!(format_burst(0, 1500), "RUN 1 1.500\n");
    assert_eq!(format_burst(32, 8000), "RUN 32 8.000\n");
    assert!(check_ready("READY 8 1").is_ok());
    assert!(check_ready("ERR").is_err());
}

#[test]
fn numbers_that_do_not_parse_say_why_as_std_does() {
    for s in [
        "",
        "+",
        "-",
        "-1",
        "x",
        "1x",
        "18446744073709551616",
        "18446744073709551616x",
        "99999999999999999999x",
        "1 ",
    ] {
        let want = s.parse::<u64>().expect_err("no number").to_string();
        assert_eq!(read_number(s, u64::MAX as u128), Err(want.as_str()), "{s:?}");
    }
    for s in ["0", "+7", "007", "18446744073709551615"] {
        assert_eq!(
            read_number(s, u64::MAX as u128),
            Ok(u128::from(s.parse::<u64>().expect("a number"))),
            "{s:?}"
        );
    }
}

#[test]
fn clients_start_inside_the_network() {
    let ep = endpoints();
    assert_eq!(
        start_fetcher("SRC", &ep, "t", 8).join(" "),
        "run --rm -i --name spate-bench-fetcher --network spate-bench-net python:3.12-alpine python3 -c SRC spate-bench-redpanda:29092 t 8 120"
    );
    assert_eq!(
        start_inserter("SRC", &ep, "INSERT").join(" "),
        "run --rm -i --name spate-bench-inserter --network spate-bench-net python:3.12-alpine python3 -c SRC spate-bench-clickhouse 8123 default bench INSERT 120"
    );
}

// --- infrastructure --------------------------------------------------------

/// Cores from a `cpu.max` line, as a number.
fn cpu_max_cores(cpu_max: &str) -> Option<f64> {
    let (quota, period) = cpu_max_fields(cpu_max)?;
    Some(quota.parse::<f64>().ok()? / period.parse::<f64>().ok()?)
}

fn cap(what: &str, declared: &str, applied: &str) -> Result<(), String> {
    let agree = cpu_max_cores(applied)
        .is_some_and(|c| declared.parse::<f64>().is_ok_and(|d| (c - d).abs() < 0.01));
    assert_cap("c", what, declared, applied, agree)
}

#[test]
fn cpu_max_converts_quota_and_period_to_cores() {
    assert_eq!(cpu_max_cores("800000 100000"), Some(8.0));
    assert_eq!(cpu_max_cores("400000 100000"), Some(4.0));
    assert_eq!(cpu_max_cores("max 100000"), None);
}

#[test]
fn a_mismatched_cap_is_refused() {
    let e = cap("cpus", "8", "400000 100000").expect_err("must refuse");
    assert!(e.starts_with("REFUSED"), "{e}");
    assert!(cap("cpus", "8", "800000 100000").is_ok());
}

#[test]
fn memory_caps_compare_in_bytes() {
    assert!(cap("memory", "8g", "8589934592").is_ok());
    assert!(cap("memory", "8g", "8589934591").is_err());
    assert!(cap("memory", "8g", "max").is_err());
}

#[test]
fn the_digest_is_stable_and_short() {
    let a = short_digest(b"hello");
    assert_eq!(a.len(), 12);
    assert_eq!(a, short_digest(b"hello"));
    assert_ne!(a, short_digest(b"hello "));
    assert_eq!(a, "2cf24dba5fb0");
}

#[test]
fn the_headroom_limit_is_the_documented_seventy_percent() {
    assert!((HEADROOM_LIMIT as f64 / 100.0 - 0.70).abs() < f64::EPSILON);
}

fn profile(image: &str) -> Profile {
    Profile {
        id: "mac".to_owned(),
        class: Class::Fixture,
        host: Host {
            description: String::new(),
            cpu: String::new(),
            cores: 1,
            core_layout: String::new(),
            memory: String::new(),
            os: String::new(),
            arch: String::new(),
            vm_cpus: 0,
            vm_memory: String::new(),
            caveats: String::new(),
        },
        infra: Shared {
            partitions: 8,
            broker: Broker {
                kind: "redpanda".to_owned(),
                image: image.to_owned(),
                cpus: "8".to_owned(),
                memory: "8g".to_owned(),
                registry: "redpanda-builtin".to_owned(),
            },
            clickhouse: ClickHouse {
                image: image.to_owned(),
                cpus: "5".to_owned(),
                memory: "12g".to_owned(),
            },
        },
        ceiling: CeilingRef {
            file: "ceilings/mac.json".to_owned(),
        },
    }
}

fn observed() -> Observed {
    Observed {
        reused: true,
        broker_cpus: "800000 100000".to_owned(),
        broker_memory: "8589934592".to_owned(),
        broker_cores_agree: true,
        broker_version: "v26".to_owned(),
        broker_image_digest: "sha256:b".to_owned(),
        clickhouse_cpus: "500000 100000".to_owned(),
        clickhouse_memory: "12884901888".to_owned(),
        clickhouse_cores_agree: true,
        clickhouse_version: "26.3".to_owned(),
        clickhouse_image_digest: "sha256:c".to_owned(),
        ceiling: None,
    }
}

#[test]
fn an_environment_is_named_by_its_file_and_digested_by_its_bytes() {
    let e = Environment::load("environments", "mac", "text", profile("i:1")).expect("named mac");
    assert_eq!(e.digest, short_digest(b"text"));
    assert_eq!(e.ceiling_path(), "environments/ceilings/mac.json");
    assert!(!e.is_publishable());
    let other = Environment::load("environments", "mac", "other", profile("i:2")).expect("named");
    assert_eq!(e.infra_digest(), other.infra_digest(), "images do not count");
    assert_eq!(
        e.infra_digest(),
        short_digest(b"redpanda|8|8g|5|12g|8"),
        "the shape counts"
    );
    let err = Environment::load("environments", "lab", "text", profile("i")).expect_err("misnamed");
    assert_eq!(
        err,
        "environments/lab.toml: declares id \"mac\" but is named \"lab\""
    );
}

#[test]
fn running_infrastructure_is_accepted_at_its_declared_caps_only() {
    let env = Environment::load("environments", "mac", "text", profile("i:1")).expect("named mac");
    let (ep, infra, flags) = bring_up(&env, observed()).expect("as declared");
    assert_eq!(ep.bootstrap, "localhost:9092");
    assert_eq!(infra.broker, "redpanda");
    assert_eq!(infra.ceiling_msgs_per_s, 0);
    assert_eq!(flags, [Flag::ReusedInfra, Flag::HeadroomUnproven]);
    let mut o = observed();
    o.ceiling = Some(305_554);
    o.reused = false;
    let (_, infra, flags) = bring_up(&env, o).expect("as declared");
    assert_eq!(infra.ceiling_msgs_per_s, 305_554);
    assert!(flags.is_empty());
    let mut o = observed();
    o.clickhouse_memory = "max".to_owned();
    let e = bring_up(&env, o).expect_err("uncapped");
    assert!(
        e.starts_with("REFUSED: spate-bench-clickhouse declares memory=12g but is running under memory=max."),
        "{e}"
    );
    assert!(must_start(true, true, false));
    assert!(!must_start(true, true, true));
    assert!(start_broker(&env.spec.infra.broker).contains(&"--smp".to_owned()));
    assert_eq!(
        start_clickhouse(&env.spec.infra.clickhouse).last().map(String::as_str),
        Some("i:1")
    );
}

#[test]
fn versions_are_read_off_what_the_containers_say() {
    assert_eq!(broker_version(Some("\nVersion: v26.1.13\nGit ref: x")), "v26.1.13");
    assert_eq!(broker_version(Some(" \n")), "");
    assert_eq!(broker_version(None), "unknown");
    assert_eq!(clickhouse_version(Some("26.3.1\n")), "26.3.1");
    assert_eq!(clickhouse_version(None), "unknown");
}

// --- gates -----------------------------------------------------------------

#[test]
fn a_table_of_the_generated_rows_passes() {
    let w = gate_window("0\t100\n", 40).expect("a range");
    assert_eq!(
        w,
        Window {
            min_batch: 0,
            max_batch: 100,
            lo: 60,
            hi: 100
        }
    );
    let e = expected_range(60, 100, Tier::B);
    let counts = format!("{}\t{}\t40", e.rows + 7, e.rows);
    let sums = format!("{}\n{}", e.value_sum, e.value_scaled_sum);
    let g = run_gates(Tier::B, 40, "0\t100", &counts, &sums).expect("readable");
    assert!(g.passed());
    assert_eq!(g.duplicates, 7, "reported, and no reason to fail");
    assert_eq!(g.failure(), None);
    assert_eq!(bounds_sql(Tier::B), "SELECT min(batch_id), max(batch_id) FROM sensor_events_t");
    assert_eq!(
        counts_sql(Tier::A, w),
        "SELECT count(), uniqExact((batch_id, event_seq)), uniqExact(batch_id) FROM sensor_events WHERE batch_id >= 60 AND batch_id < 100"
    );
    assert_eq!(
        sums_sql(Tier::B, w),
        "SELECT sum(toInt128(value)), sum(toInt128(value_scaled)) FROM (SELECT DISTINCT batch_id, event_seq, value, value_scaled FROM sensor_events_t WHERE batch_id >= 60 AND batch_id < 100)"
    );
    assert_eq!(
        sums_sql(Tier::A, w),
        "SELECT sum(toInt128(value)) FROM (SELECT DISTINCT batch_id, event_seq, value FROM sensor_events WHERE batch_id >= 60 AND batch_id < 100)"
    );
}

#[test]
fn each_way_to_fail_is_named() {
    let g = run_gates(Tier::A, 10, "0\t5", "3\t3\t3", "1").expect("readable");
    assert!(!g.passed());
    assert_eq!(
        g.failure().as_deref(),
        Some("batch_ids are not contiguous (3 distinct across [0, 5]) — rows were LOST; row count 3 disagrees with the generator; sum(value) disagrees with the generator — the arm did different work")
    );
    let only_scaled = Gates {
        contiguous: true,
        rows_match: true,
        value_sum_match: true,
        value_scaled_match: false,
        ..g
    };
    assert_eq!(
        only_scaled.failure().as_deref(),
        Some("sum(value_scaled) disagrees — the tier-B derivation is wrong")
    );
}

#[test]
fn an_unreadable_reply_is_never_a_pass() {
    assert!(matches!(gate_window("7", 1), Err(GateError::ShortReply(_))));
    assert!(matches!(gate_window("a\tb", 1), Err(GateError::NotANumber(s)) if s == "a"));
    assert!(matches!(gate_window("0\t0", 1), Err(GateError::TooNarrow(0, 0))));
    assert!(matches!(gate_window("4\t5", 1), Err(GateError::TooNarrow(4, 5))));
    assert!(matches!(
        run_gates(Tier::A, 1, "0\t9", "1\t2", "3"),
        Err(GateError::ShortReply(_))
    ));
    assert!(matches!(
        run_gates(Tier::B, 1, "0\t9", "1\t2\t3", "3"),
        Err(GateError::ShortReply(_))
    ));
    assert!(matches!(
        run_gates(Tier::A, 1, "0\t9", "1\t2\t3", ""),
        Err(GateError::NotANumber(_))
    ));
    assert!(matches!(
        run_gates(Tier::A, u64::MAX, "0\t18446744073709551615", "1\t2\t3", "4"),
        Err(GateError::OutOfRange(1, u64::MAX))
    ));
}

// --- load and topics -------------------------------------------------------

fn schedule() -> Schedule {
    Schedule {
        rate: 1000,
        threads: 4,
        partitions: 8,
        schema_id: 7,
        first_batch_id: 100,
        origin_us: 50,
    }
}

#[test]
fn a_send_is_due_by_its_global_index() {
    let s = schedule();
    // Thread 1's third send is global index 9, due nine milliseconds in.
    match next_send(&s, 1, 2, 8_000) {
        LoadStep::Wait(us) => assert_eq!(us, 1_000),
        LoadStep::Send(..) => panic!("not yet due"),
    }
    match next_send(&s, 1, 2, 0) {
        LoadStep::Wait(us) => assert_eq!(us, 2_000),
        LoadStep::Send(..) => panic!("not yet due"),
    }
    match next_send(&s, 1, 2, 9_500) {
        LoadStep::Wait(_) => panic!("overdue"),
        LoadStep::Send(m, lag) => {
            assert_eq!(lag, 500);
            assert_eq!(m.partition, 1);
            assert_eq!(m.key, "sensor-109");
            let v = decode_batch(&m.payload[5..]).expect("a datum");
            let b = spate_bench::wire::typed_batch(&v).expect("a batch");
            assert_eq!(b.batch_id, 109);
            assert_eq!(b.send_ts_us, 9_050, "the intended time, and not the actual one");
        }
    }
}

#[test]
fn tallies_count_accepted_sends_and_the_worst_lag() {
    let zero = LoadTally {
        sent: 0,
        delivered: 0,
        failed: 0,
        max_lag_us: 0,
    };
    let t = after_send(after_send(zero, 5, true), 9, false);
    assert_eq!((t.sent, t.max_lag_us), (1, 9));
    let other = LoadTally {
        sent: 3,
        delivered: 2,
        failed: 1,
        max_lag_us: 4,
    };
    let sum = total_load(&vec![t, other]);
    assert_eq!(
        (sum.sent, sum.delivered, sum.failed, sum.max_lag_us),
        (4, 2, 1, 9)
    );
}

#[test]
fn a_prefill_reuses_produces_or_refuses() {
    assert!(matches!(plan_prefill("t", 10, 10), PrefillPlan::Reuse));
    assert!(matches!(plan_prefill("t", 0, 10), PrefillPlan::Produce));
    assert!(matches!(
        plan_prefill("t", 3, 10),
        PrefillPlan::Refuse(m) if m == "topic t holds 3 messages but the run wants 10. A partially-filled corpus would make every arm replay different bytes; delete the topic and re-prefill."
    ));
    let m = prefill_message(13, 7, 8);
    assert_eq!(m.partition, 5);
    assert_eq!(m.key, "sensor-13");
    assert_eq!(check_message(&m.payload, 7), Ok(13));
    assert_eq!(m.payload[..5], frame_confluent(7, &[])[..]);
    assert!(check_landed(10, 10).is_ok());
    assert_eq!(
        check_landed(9, 10),
        Err("prefill produced 10 messages but the topic holds 9; every arm would replay a different corpus".to_owned())
    );
    assert_eq!(
        topic_message_count(&vec![Some((5, 15)), None, Some((9, 3)), Some((0, 1))]),
        11
    );
}

#[test]
fn a_topic_of_another_shape_is_refused() {
    assert!(ensure_topic("t", 8, TopicReply::Created).is_ok());
    assert!(ensure_topic("t", 8, TopicReply::Exists(8)).is_ok());
    assert_eq!(
        ensure_topic("t", 8, TopicReply::Exists(4)),
        Err("topic t already exists with 4 partitions, but this run asked for 8. Reusing it would measure 4 while recording 8; delete the topic or pick another name.".to_owned())
    );
    assert_eq!(
        ensure_topic("t", 8, TopicReply::Failed("no".to_owned())),
        Err("failed to create topic t: no".to_owned())
    );
    assert_eq!(topic_partitions(false, 8, true), MetadataStep::Settled(8));
    assert_eq!(topic_partitions(true, 8, false), MetadataStep::Retry);
    assert_eq!(topic_partitions(false, 0, true), MetadataStep::GiveUp);
}

#[test]
fn a_registration_carries_the_schema_and_yields_its_id() {
    assert_eq!(
        registration_path(),
        "/subjects/sensor-batches-value/versions"
    );
    let body: serde_json::Value =
        serde_json::from_str(&registration_body()).expect("the request is JSON");
    assert_eq!(
        body.get("schema").and_then(serde_json::Value::as_str),
        Some(spate_bench::corpus::SCHEMA_JSON)
    );
    assert_eq!(
        body.get("schemaType").and_then(serde_json::Value::as_str),
        Some("AVRO")
    );
    assert_eq!(register_schema("{\"id\": 7}"), Ok(7));
    assert_eq!(register_schema("{\"id\": \"7\"}"), Err(RegistryError::NoId));
    assert_eq!(register_schema("{}"), Err(RegistryError::NoId));
    assert_eq!(register_schema("oops"), Err(RegistryError::NotJson));
    assert_eq!(
        register_schema("{\"id\": 4294967296}"),
        Err(RegistryError::TooLarge(4_294_967_296))
    );
    assert_eq!(schema_id(JsonNumber::Found(3)), Ok(3));
}

#[test]
fn tier_a_is_gated_beyond_the_reach_of_the_tier_b_filter() {
    let top = 1_500_000_000_000_000_000u64;
    let bounds = format!("{}\t{top}", top - 3);
    let exp = expected_range(top - 2, top, Tier::A);
    assert_eq!(exp.rows, 200);
    let sums = exp.value_sum.to_string();
    let g = run_gates(Tier::A, 10, &bounds, "200\t200\t2", &sums).expect("computable");
    assert!(g.passed());
    assert_eq!(
        run_gates(Tier::B, 10, &bounds, "200\t200\t2", "1\t2").map_err(|e| format!("{e:?}")),
        Err(format!("OutOfRange({}, {top})", top - 2))
    );
}
