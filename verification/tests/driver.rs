//! Versions, configuration, caps, drains, and what is recorded of a run.
use spate_bench::corpus::Tier;
use spate_bench::driver::{
    arm_cpu_max, assert_arm_caps, build_specs, build_specs_in_group, complete_report, count_sql,
    data_plane_part, declared_for, digest_refusal, drain_step, exit_refusal, failed_report,
    gate_refusal, image_for, infra_bound, knob_refusal, parse_version, plan_arm, plan_line, quiesce,
    repetition_report, resolve_run, resolve_sut, rows_in, run_note, sample_refusal, status_of, stop_all,
    substitute, sweep_order, tier_of, timeout_refusal, truncate_sql, unresolved_sut, version_args,
    window_ns, DrainStep, Measured, Numbers, Quiesce, QuiesceStep, Setting, Sweep, Version,
};
use spate_bench::entrant::{
    Approach, Build, Constraint, Container, Display, Entrant, Envelope, Identity, Knob, Maintainer,
    Role, Spec, Status as Lifecycle, Variant, VersionSource, Volumes, DESCRIPTOR_SCHEMA,
};
use spate_bench::environment::{
    Broker, CeilingRef, Class, ClickHouse, Environment, Host, Infra as Shared, Profile,
};
use spate_bench::gates::Gates;
use spate_bench::infra::endpoints;
use spate_bench::report::{Flag, Infra, Kind, Metric, Report, RunMeta, Status, Sut, Trigger};
use spate_bench::select::Arm;
use spate_bench::table::Table;

fn container(role: Role, name: &str) -> Container {
    Container {
        role,
        name: name.to_owned(),
        cpus: "4".to_owned(),
        memory: "16g".to_owned(),
        args: vec![name.to_owned()],
    }
}

fn entrant() -> Entrant {
    let mut env = Table::new();
    env.insert("BROKER".to_owned(), "{{broker_internal}}".to_owned());
    env.insert("PEER".to_owned(), "{{container:jm}}:{{knob:port}}".to_owned());
    let mut variant_env = Table::new();
    variant_env.insert("GROUP".to_owned(), "{{group_id}}/{{tier}}".to_owned());
    let mut knobs = Table::new();
    knobs.insert("port".to_owned(), Knob::Integer(6123));
    knobs.insert("mode".to_owned(), Knob::Text("fast".to_owned()));
    knobs.insert("odd".to_owned(), Knob::Other("1.5".to_owned()));
    let mut reports = Table::new();
    reports.insert("wire_format".to_owned(), "native".to_owned());
    Entrant {
        dir: "entrants/flink".to_owned(),
        spec: Spec {
            schema: DESCRIPTOR_SCHEMA,
            entrant: Identity {
                id: "flink".to_owned(),
                name: "Flink".to_owned(),
                homepage: String::new(),
                repo: String::new(),
                docs: String::new(),
                licence: "Apache-2.0".to_owned(),
                vendor: "apache".to_owned(),
                kind: "stream-processor".to_owned(),
                language: vec!["java".to_owned()],
                runtime: "jvm".to_owned(),
                status: Lifecycle::Active,
            },
            maintainer: Maintainer {
                who: "spate-benchmark".to_owned(),
                reviewed_upstream: false,
                review_url: String::new(),
            },
            display: Display {
                order: 1,
                hue: 0,
                short: "Flink".to_owned(),
            },
            version: Some(VersionSource {
                strategy: "command".to_owned(),
                command: vec!["flink".to_owned(), "--version".to_owned()],
                pinned: "2.2.1".to_owned(),
            }),
            build: Some(Build {
                context: ".".to_owned(),
                dockerfile: "Dockerfile".to_owned(),
                image: "spate-bench-flink".to_owned(),
                secrets: vec![],
            }),
            envelope: Some(Envelope {
                cpus: "4".to_owned(),
                memory: "16g".to_owned(),
                containers: vec![
                    container(Role::DataPlane, "tm"),
                    container(Role::ControlPlane, "jm"),
                ],
            }),
            guarantees: None,
            volumes: Some(Volumes {
                named: vec!["ckpt:/ckpt".to_owned()],
            }),
            env,
            variants: vec![Variant {
                id: "tier-b".to_owned(),
                label: "Tier B".to_owned(),
                tier: "b".to_owned(),
                approach: Approach::Realistic,
                unshipped: vec![],
                default: true,
                env: variant_env,
                knobs,
                reports,
            }],
            constraints: vec![],
            planned: None,
        },
    }
}

fn arm(e: &Entrant) -> Arm<'_> {
    Arm {
        entrant: e,
        variant: &e.spec.variants[0],
        image: None,
    }
}

fn parts(v: &Version) -> (Option<&str>, Option<&str>, Option<&str>) {
    (
        v.version.as_deref(),
        v.commit.as_deref(),
        v.toolchain.as_deref(),
    )
}

#[test]
fn parses_the_arms_version_line() {
    let v = parse_version("spate-arm 0.1.0-dev (f41280d51165)\ntoolchain: rustc 1.97.1");
    let (v, c, t) = parts(&v);
    assert_eq!(v, Some("0.1.0-dev"));
    assert_eq!(c, Some("f41280d51165"));
    assert_eq!(t, Some("rustc 1.97.1"));
}

#[test]
fn parses_a_bare_version() {
    let v = parse_version("2.2.1\n");
    let (v, c, _) = parts(&v);
    assert_eq!(v, Some("2.2.1"));
    assert_eq!(c, None);
}

#[test]
fn a_non_hex_parenthetical_is_not_a_commit() {
    let v = parse_version("thing 1.2.3 (not a sha)");
    assert_eq!(parts(&v).1, None);
}

/// Whether the cores a sampler saw applied are the declared ones, as numbers.
fn cores_agree(meta: &str, declared: &str) -> bool {
    let Some((quota, period)) = arm_cpu_max(meta) else {
        return false;
    };
    let p: f64 = period.parse().unwrap_or(0.0);
    let want: f64 = declared.parse().unwrap_or(f64::NAN);
    p > 0.0
        && quota
            .parse::<f64>()
            .is_ok_and(|q| (q / p - want).abs() < 0.01)
}

#[test]
fn an_arm_cap_mismatch_is_refused() {
    let declared = Container {
        role: Role::DataPlane,
        name: "sut".to_owned(),
        cpus: "4".to_owned(),
        memory: "16g".to_owned(),
        args: vec![],
    };
    let check = |meta: &str| {
        assert_arm_caps("sut", &declared, meta, cores_agree(meta, &declared.cpus))
    };
    let good = "# cgroup=/x cpu.max=400000/100000 memory.max=17179869184 x=1";
    assert!(check(good).is_ok());

    let bad = "# cgroup=/x cpu.max=200000/100000 memory.max=17179869184 x=1";
    let e = check(bad).expect_err("must refuse");
    assert!(e.starts_with("REFUSED"), "{e}");

    let uncapped = "# cgroup=/x cpu.max=max/100000 memory.max=max x=1";
    assert!(check(uncapped).is_err());
    assert!(assert_arm_caps("sut", &declared, uncapped, true).is_err());
    let small = "# cpu.max=400000/100000 memory.max=1024";
    assert_eq!(
        check(small),
        Err("REFUSED: sut declares memory=16g but is running under memory.max=1024.".to_owned())
    );
    assert_eq!(
        check("# memory.max=1"),
        Err("sut: sampler reported no cpu.max".to_owned())
    );
    assert_eq!(
        check("# cpu.max=1/1"),
        Err("sut: sampler reported no memory.max".to_owned())
    );
}

#[test]
fn the_image_and_the_tier_come_from_the_arm() {
    let e = entrant();
    let mut a = arm(&e);
    assert_eq!(tier_of(a.variant), Tier::B);
    assert_eq!(image_for(&a).as_deref(), Ok("spate-bench-flink"));
    a.image = Some("other:2".to_owned());
    assert_eq!(image_for(&a).as_deref(), Ok("other:2"));
    let mut bare = entrant();
    bare.spec.build = None;
    assert_eq!(
        image_for(&arm(&bare)),
        Err("no image for this entrant".to_owned())
    );
}

#[test]
fn an_arm_says_what_it_is_or_is_refused() {
    let e = entrant();
    assert_eq!(
        version_args(&arm(&e), "img"),
        Some(
            ["run", "--rm", "--entrypoint", "flink", "img", "--version"]
                .map(str::to_owned)
                .to_vec()
        )
    );
    let s = resolve_sut(&arm(&e), "img", "sha256:1".to_owned(), Some("Version: 2.2.1 (abcdef0)"))
        .expect("the pinned version");
    assert_eq!(s.version.as_deref(), Some("2.2.1"));
    assert_eq!(s.commit.as_deref(), Some("abcdef0"));
    assert_eq!(s.image_digest, "sha256:1");
    let err = resolve_sut(&arm(&e), "img", String::new(), Some("2.3.0")).expect_err("moved");
    assert_eq!(
        err,
        "REFUSED: flink declares version \"2.2.1\" but the image reports \"2.3.0\". Update the descriptor in the same change that moved the image."
    );
    let err = resolve_sut(&arm(&e), "img", String::new(), None).expect_err("silent");
    assert!(err.starts_with("REFUSED: could not resolve a version or commit for flink."));
    assert!(digest_refusal("img", "gone", "flink").contains("`bench build flink`"));
    let mut none = entrant();
    none.spec.version = None;
    assert_eq!(version_args(&arm(&none), "img"), None);
}

#[test]
fn knobs_that_cannot_run_are_refused_before_anything_starts() {
    let mut e = entrant();
    assert_eq!(knob_refusal(&arm(&e)), None);
    e.spec.constraints = vec![Constraint {
        knob: "port".to_owned(),
        exceeds: "mode".to_owned(),
        why: "it is a number".to_owned(),
    }];
    let why = knob_refusal(&arm(&e)).expect("refused");
    assert!(why.starts_with("REFUSED: flink:tier-b: the constraint \"port must exceed mode\""));
}

#[test]
fn containers_are_configured_with_the_control_plane_first() {
    let e = entrant();
    let ep = endpoints();
    let specs = build_specs_in_group(&arm(&e), &ep, "topic", "img", "g1").expect("configured");
    let names: Vec<&str> = specs.iter().map(|s| s.name.as_str()).collect();
    assert_eq!(names, ["spate-bench-sut-jm", "spate-bench-sut-tm"]);
    assert_eq!(
        specs[0].env,
        [
            ("BROKER".to_owned(), "spate-bench-redpanda:29092".to_owned()),
            ("PEER".to_owned(), "spate-bench-sut-jm:6123".to_owned()),
            ("GROUP".to_owned(), "g1/b".to_owned()),
        ]
    );
    assert_eq!(specs[1].args, ["tm"]);
    assert_eq!(specs[1].volumes, ["ckpt:/ckpt"]);
    assert_eq!(specs[1].image, "img");

    let own = build_specs(&arm(&e), &ep, "topic", "img").expect("configured");
    let again = build_specs(&arm(&e), &ep, "topic", "img").expect("configured");
    assert!(own[0].env[2].1.starts_with("comparison-flink-tier-b-"));
    assert_ne!(own[0].env[2].1, again[0].env[2].1, "a group is used once");

    let mut odd = entrant();
    odd.spec.env.insert("X".to_owned(), "{{nothing}}".to_owned());
    let err = build_specs_in_group(&arm(&odd), &ep, "topic", "img", "g1").expect_err("unresolved");
    assert!(err.starts_with("REFUSED: unresolved placeholder in \"{{nothing}}\""));
    let mut bare = entrant();
    bare.spec.envelope = None;
    assert_eq!(
        build_specs_in_group(&arm(&bare), &ep, "t", "i", "g").err(),
        Some("entrant has no envelope".to_owned())
    );
}

#[test]
fn a_placeholder_is_filled_or_refused() {
    let e = entrant();
    let ep = endpoints();
    let none = Table::new();
    let fill = |raw: &str| substitute(raw, &e.spec.variants[0], &ep, "tp", "gr", &none);
    assert_eq!(
        fill("{{topic}} {{offset_reset}} {{knob:mode}} {{knob:odd}}.").as_deref(),
        Ok("tp earliest fast .")
    );
    assert_eq!(
        fill("{{registry_internal}} {{clickhouse_internal}}").as_deref(),
        Ok("http://spate-bench-redpanda:8081 http://spate-bench-clickhouse:8123")
    );
    assert!(fill("{{container:x}}").is_err());
}

#[test]
fn a_container_is_declared_by_the_end_of_its_name() {
    let e = entrant();
    let cs = &e.spec.envelope.as_ref().expect("an envelope").containers;
    assert_eq!(
        declared_for(cs, "spate-bench-sut-jm").map(|c| c.role),
        Some(Role::ControlPlane)
    );
    assert!(declared_for(cs, "elsewhere").is_none());
}

#[test]
fn a_drain_ends_in_one_of_four_ways() {
    let hour = 3_600_000_000_000u128;
    assert_eq!(drain_step(false, 100, 100, 0), DrainStep::Exited);
    assert_eq!(drain_step(true, 100, 100, hour), DrainStep::Finished);
    assert_eq!(drain_step(true, 99, 100, hour), DrainStep::TimedOut);
    assert_eq!(
        drain_step(true, 99, 100, 1_800_000_000_000),
        DrainStep::Continue
    );
    assert_eq!(
        timeout_refusal(9, 10, "L"),
        "the drain did not finish within 1800s (9 of 10 rows). Logs:\nL"
    );
    assert_eq!(
        stop_all(
            &vec!["a".to_owned(), "b".to_owned()],
            &vec!["x".to_owned(), "y".to_owned()]
        ),
        "--- a ---\nx\n--- b ---\ny"
    );
    assert_eq!(exit_refusal("L"), "the arm exited during the drain. Logs:\nL");
    assert_eq!(rows_in(Some(" 12\n")), 12);
    assert_eq!(rows_in(Some("none")), 0);
    assert_eq!(rows_in(None), 0);
    assert_eq!(truncate_sql(Tier::B), "TRUNCATE TABLE sensor_events_t");
    assert_eq!(count_sql(Tier::A), "SELECT count() FROM sensor_events");
}

#[test]
fn settling_takes_three_unchanged_polls() {
    let mut q = Quiesce { stable: 0, prev: 5 };
    let mut steps = Vec::new();
    for n in [5, 6, 6, 6, 6] {
        let (next, step) = quiesce(q, n, false);
        q = next;
        steps.push(step);
    }
    assert_eq!(
        steps,
        [
            QuiesceStep::Continue,
            QuiesceStep::Continue,
            QuiesceStep::Continue,
            QuiesceStep::Continue,
            QuiesceStep::Settled
        ]
    );
    let (_, step) = quiesce(Quiesce { stable: 0, prev: 1 }, 2, true);
    assert_eq!(step, QuiesceStep::GaveUp);
}

#[test]
fn an_arm_above_seventy_percent_of_the_ceiling_is_infra_bound() {
    let second = 1_000_000_000u128;
    // A ceiling of 1000 messages is 100_000 rows a second; 70% of it is 70_000.
    assert!(!infra_bound(70_000, second, 1000));
    assert!(infra_bound(70_001, second, 1000));
    assert!(!infra_bound(140_000, 2 * second, 1000));
    assert!(!infra_bound(u64::MAX, second, 0));
    assert!(!infra_bound(u64::MAX, 0, 1));
    assert!(!infra_bound(1, u128::MAX, u64::MAX));
    assert_eq!(status_of(70_001, second, 1000), Status::InfraBound);
    assert_eq!(status_of(1, second, 1000), Status::Passed);
    assert_eq!(window_ns(Some(5), 9), 1_000_000_005);
    assert_eq!(window_ns(None, 9), 9);
    assert_eq!(
        run_note(330, Status::InfraBound, "82"),
        "330 sampler samples; INFRA-BOUND at 82% of the ceiling; gate window 100000 batches"
    );
    assert_eq!(
        run_note(2, Status::Passed, "82"),
        "2 sampler samples; gate window 100000 batches"
    );
}

fn record(status: Status) -> Report<f64, Setting> {
    let sut = Sut {
        entrant: "flink".to_owned(),
        variant_id: "tier-b".to_owned(),
        version: None,
        commit: None,
        image_digest: String::new(),
        image: String::new(),
        toolchain: None,
    };
    let infra = Infra {
        digest: String::new(),
        broker: String::new(),
        broker_version: String::new(),
        broker_image_digest: String::new(),
        broker_cpus: String::new(),
        broker_memory: String::new(),
        clickhouse_version: String::new(),
        clickhouse_image_digest: String::new(),
        clickhouse_cpus: String::new(),
        clickhouse_memory: String::new(),
        partitions: 8,
        registry: String::new(),
        ceiling_msgs_per_s: 0,
    };
    let run = RunMeta::new(
        1,
        None,
        "env".to_owned(),
        "d".to_owned(),
        Trigger::Manual,
        infra,
    );
    Report::new("kafka_avro_clickhouse", Kind::Measurement, status, sut, run)
}

fn numbers() -> Numbers<f64> {
    Numbers {
        rows_per_s: 1.0,
        cpu_us_per_row: 2.0,
        cores_used: 3.0,
        rows_per_s_per_core: 4.0,
        peak_anon_bytes: 5.0,
        peak_charged_bytes: 6.0,
        throttled_us: 7.0,
        duplicate_rows: 8.0,
        data_plane: Some((9.0, 10.0)),
    }
}

#[test]
fn a_record_carries_its_configuration_and_only_measured_metrics() {
    let e = entrant();
    let flags = vec![Flag::ReusedInfra, Flag::ReusedInfra, Flag::CpuCapThrottled];
    let r = complete_report(
        record(Status::Passed),
        2,
        3,
        &e.spec.variants[0],
        8,
        u64::MAX,
        numbers(),
        &flags,
        "n".to_owned(),
    );
    assert_eq!((r.rep, r.reps), (2, 3));
    assert_eq!(r.flags, [Flag::ReusedInfra, Flag::CpuCapThrottled]);
    assert_eq!(r.note.as_deref(), Some("n"));
    assert_eq!(
        r.variant.keys(),
        ["approach", "batches", "mode", "partitions", "port", "tier", "wire_format"]
    );
    assert!(matches!(r.variant.get("batches"), Some(Setting::Integer(i64::MAX))));
    assert!(matches!(r.variant.get("mode"), Some(Setting::Text(s)) if s == "fast"));
    assert!(matches!(r.variant.get("approach"), Some(Setting::Text(s)) if s == "realistic"));
    assert_eq!(r.metrics.len(), 10);
    assert_eq!(
        r.metrics.get("rows_per_s"),
        Some(&Metric::maximize(1.0, "records/s"))
    );
    assert_eq!(
        r.metrics.get("data_plane_peak_anon_bytes"),
        Some(&Metric::bytes(10.0))
    );
    let failed = complete_report(
        record(Status::Failed),
        1,
        1,
        &e.spec.variants[0],
        8,
        1,
        numbers(),
        &vec![],
        String::new(),
    );
    assert_eq!(failed.metrics.len(), 0);
    let bound = complete_report(
        record(Status::InfraBound),
        1,
        1,
        &e.spec.variants[0],
        8,
        1,
        numbers(),
        &vec![],
        String::new(),
    );
    assert_eq!(bound.metrics.len(), 0);
    assert_eq!(bound.variant.keys(), r.variant.keys());
}

fn measured(rows: u64) -> Measured<f64> {
    Measured {
        rows,
        window_ns: 1_000_000_000,
        samples: 330,
        throttled: true,
        share: "82".to_owned(),
        numbers: numbers(),
    }
}

#[test]
fn every_repetition_leaves_one_record_and_only_a_pass_carries_metrics() {
    let e = entrant();
    let v = &e.spec.variants[0];
    let leaves = |outcome: Result<Measured<f64>, String>| {
        let blank = record(Status::Passed);
        let mut meta = blank.run;
        meta.infra.ceiling_msgs_per_s = 1000;
        let flags = vec![Flag::ReusedInfra];
        repetition_report(blank.sut, meta, 2, 3, v, 8, 10, &flags, outcome)
    };
    let passed = leaves(Ok(measured(70_000)));
    assert_eq!((passed.status, passed.metrics.len()), (Status::Passed, 10));
    assert_eq!(passed.flags, [Flag::ReusedInfra, Flag::CpuCapThrottled]);
    assert_eq!(passed.bench, "kafka_avro_clickhouse");
    assert_eq!((passed.rep, passed.reps), (2, 3));
    let bound = leaves(Ok(measured(70_001)));
    assert_eq!((bound.status, bound.metrics.len()), (Status::InfraBound, 0));
    assert_eq!(
        bound.note.as_deref(),
        Some("330 sampler samples; INFRA-BOUND at 82% of the ceiling; gate window 100000 batches")
    );
    let refused = leaves(Err("lost rows".to_owned()));
    assert_eq!((refused.status, refused.metrics.len()), (Status::Failed, 0));
    assert_eq!(refused.note.as_deref(), Some("lost rows"));
    assert_eq!(refused.variant.keys(), passed.variant.keys());
    let failed = failed_report(record(Status::Failed), 1, 3, v, 8, 10, "late".to_owned());
    assert_eq!((failed.rep, failed.reps, failed.metrics.len()), (1, 3, 0));
    assert_eq!(failed.note.as_deref(), Some("late"));
}

#[test]
fn a_refused_run_says_what_it_knows_of_the_image() {
    let e = entrant();
    let unread = unresolved_sut(&arm(&e), "img:1", None);
    assert_eq!((unread.entrant.as_str(), unread.variant_id.as_str()), ("flink", "tier-b"));
    assert_eq!((unread.image.as_str(), unread.image_digest.as_str()), ("img:1", ""));
    assert_eq!((unread.version, unread.commit, unread.toolchain), (None, None, None));
    let read = unresolved_sut(&arm(&e), "img:1", Some("sha256:1".to_owned()));
    assert_eq!(read.image_digest, "sha256:1");
    let digest = || Ok("sha256:1".to_owned());
    let (sut, r) = resolve_run(&arm(&e), "img:1", Err("no such image".to_owned()), None);
    assert_eq!(sut.image_digest, "");
    assert_eq!(r, Err(digest_refusal("img:1", "no such image", "flink")));
    let (sut, r) = resolve_run(&arm(&e), "img:1", digest(), Some(Err("exit 1".to_owned())));
    assert_eq!(sut.image_digest, "sha256:1");
    assert_eq!(r, Err("version command failed for img:1: exit 1".to_owned()));
    let (sut, r) = resolve_run(&arm(&e), "img:1", digest(), Some(Ok(String::new())));
    assert_eq!((sut.image_digest.as_str(), sut.version), ("sha256:1", None));
    assert!(r.is_err());
    let (sut, r) = resolve_run(&arm(&e), "img:1", digest(), Some(Ok("2.2.1\n".to_owned())));
    let direct = resolve_sut(&arm(&e), "img:1", "sha256:1".to_owned(), Some("2.2.1\n"));
    assert_eq!(r, Ok(()));
    assert_eq!(Ok(sut), direct);
}

#[test]
fn a_run_that_was_sampled_too_little_or_lost_rows_is_refused() {
    assert_eq!(
        sample_refusal("log"),
        "the cgroup sampler produced fewer than two samples, so there is no CPU delta and no measurement. Logs:\nlog"
    );
    let mut gates = Gates {
        min_batch: 0,
        max_batch: 9,
        rows: 5,
        distinct_ids: 5,
        distinct_batches: 8,
        duplicates: 0,
        contiguous: true,
        rows_match: true,
        value_sum_match: true,
        value_scaled_match: true,
    };
    assert_eq!(gate_refusal(&Ok(gates), "log"), None);
    gates.rows_match = false;
    assert_eq!(
        gate_refusal(&Ok(gates), "log").as_deref(),
        Some("correctness gate failed: row count 5 disagrees with the generator\nLogs:\nlog")
    );
    assert_eq!(
        gate_refusal(&Err("no reply".to_owned()), "log").as_deref(),
        Some("no reply\nLogs:\nlog")
    );
}

#[test]
fn the_data_plane_is_found_by_its_name() {
    let e = entrant();
    let plane = e.data_plane().expect("has one").name.clone();
    let names = vec![
        "spate-bench-sut-other".to_owned(),
        format!("spate-bench-sut-{plane}"),
        format!("spate-bench-sut-{plane}"),
    ];
    assert_eq!(data_plane_part(&e, &names), Some(1));
    assert_eq!(data_plane_part(&e, &vec![plane]), None);
}

#[test]
fn an_envelope_without_a_readable_memory_is_refused() {
    let mut c = container(Role::DataPlane, "arm");
    c.memory = "lots".to_owned();
    let r = assert_arm_caps("arm", &c, "cpu.max=400000,100000 memory.max=max", true);
    assert!(r.is_err_and(|e| e.contains("declares memory=lots but is running under memory.max=max")));
}

#[test]
fn a_sweep_is_planned_interleaved_and_tallied() {
    assert_eq!(
        sweep_order(2, 3),
        [(1, 0), (1, 1), (2, 0), (2, 1), (3, 0), (3, 1)]
    );
    assert!(sweep_order(0, 3).is_empty());
    let env = Environment {
        spec: Profile {
            id: "mac".to_owned(),
            class: Class::Indicative,
            host: Host {
                description: String::new(),
                cpu: String::new(),
                cores: 1,
                core_layout: String::new(),
                memory: String::new(),
                os: String::new(),
                arch: String::new(),
                vm_cpus: 0,
                vm_memory: String::new(),
                caveats: String::new(),
            },
            infra: Shared {
                partitions: 8,
                broker: Broker {
                    kind: String::new(),
                    image: String::new(),
                    cpus: String::new(),
                    memory: String::new(),
                    registry: String::new(),
                },
                clickhouse: ClickHouse {
                    image: String::new(),
                    cpus: String::new(),
                    memory: String::new(),
                },
            },
            ceiling: CeilingRef {
                file: String::new(),
            },
        },
        digest: String::new(),
        dir: String::new(),
    };
    assert_eq!(
        plan_line(2, 3, &env),
        "plan: 2 arm(s) x 3 rep(s) = 6 run(s), interleaved, on mac [indicative]"
    );
    let e = entrant();
    assert_eq!(
        plan_arm(&arm(&e), Some("sha256:1")),
        "  flink:tier-b  tier b  native  sha256:1"
    );
    assert_eq!(plan_arm(&arm(&e), None), "  flink:tier-b  tier b  native  -");
    let mut s = Sweep::new();
    assert_eq!(s.settle(&arm(&e), Ok(()), true, true), None);
    assert_eq!(s.settle(&arm(&e), Err("lost rows".to_owned()), true, false), None);
    assert_eq!(
        s.settle(&arm(&e), Err("late".to_owned()), false, true),
        Some("stopping after the first refusal: late".to_owned())
    );
    assert_eq!(s.emitted, 2);
    assert_eq!(
        s.refusals,
        ["flink:tier-b — lost rows", "flink:tier-b — late"]
    );
}
