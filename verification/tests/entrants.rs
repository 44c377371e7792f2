//! Descriptors: memory limits, constraints, variants, and checks across the set.
use spate_bench::entrant::{
    checked, cross_check, hue_clashes, knob_violations, load_all, parse_memory, slug, validate,
    validate_constraints, validate_envelope, validate_guarantees, validate_variants,
    validate_version, Approach, Build, Constraint, Container, Display, Entrant, Envelope, Facts,
    Guarantees, Identity, Knob, Maintainer, Planned, Role, Spec, Status, Variant, VersionSource,
    DESCRIPTOR_SCHEMA,
};
use spate_bench::table::{less, Table};

fn variant(id: &str, approach: Approach, unshipped: &[&str]) -> Variant {
    let mut reports = Table::new();
    reports.insert("wire_format".to_owned(), "native".to_owned());
    Variant {
        id: id.to_owned(),
        label: id.to_owned(),
        tier: "a".to_owned(),
        approach,
        default: false,
        env: Table::new(),
        knobs: Table::new(),
        reports,
        unshipped: unshipped.iter().map(|s| (*s).to_owned()).collect(),
    }
}

fn entrant_with(variants: Vec<Variant>) -> Entrant {
    Entrant {
        dir: "entrants/probe".to_owned(),
        spec: Spec {
            schema: DESCRIPTOR_SCHEMA,
            entrant: Identity {
                id: "probe".to_owned(),
                name: "Probe".to_owned(),
                homepage: String::new(),
                repo: String::new(),
                docs: String::new(),
                licence: "Apache-2.0".to_owned(),
                vendor: "probe".to_owned(),
                kind: "stream-processor".to_owned(),
                language: vec!["rust".to_owned()],
                runtime: "native".to_owned(),
                status: Status::Active,
            },
            maintainer: Maintainer {
                who: "spate-benchmark".to_owned(),
                reviewed_upstream: false,
                review_url: String::new(),
            },
            display: Display {
                order: 1,
                hue: 0,
                short: "Probe".to_owned(),
            },
            version: None,
            build: None,
            envelope: None,
            guarantees: None,
            volumes: None,
            env: Table::new(),
            variants,
            constraints: Vec::new(),
            planned: None,
        },
    }
}

fn errors_from(variants: Vec<Variant>) -> Vec<String> {
    let e = entrant_with(variants);
    let mut errs = Vec::new();
    validate_variants(&e, &mut errs);
    errs
}

fn buffered_exceeds_batch() -> Constraint {
    Constraint {
        knob: "buffered_rows".to_owned(),
        exceeds: "max_rows".to_owned(),
        why: "AsyncSinkWriter refuses to construct otherwise.".to_owned(),
    }
}

fn knobs(pairs: &[(&str, i64)]) -> Table<Knob> {
    let mut t = Table::new();
    for (k, v) in pairs {
        t.insert((*k).to_owned(), Knob::Integer(*v));
    }
    t
}

fn facts() -> Facts {
    Facts {
        dir_name: "probe".to_owned(),
        has_readme: true,
        has_dockerfile: true,
        cpus_agree: true,
        cpus_total: "4".to_owned(),
    }
}

fn complete() -> Entrant {
    let mut only = variant("only", Approach::Realistic, &[]);
    only.default = true;
    let mut e = entrant_with(vec![only]);
    e.spec.version = Some(VersionSource {
        strategy: "command".to_owned(),
        command: vec!["arm".to_owned(), "--version".to_owned()],
        pinned: String::new(),
    });
    e.spec.build = Some(Build {
        context: ".".to_owned(),
        dockerfile: "Dockerfile".to_owned(),
        image: "probe".to_owned(),
        secrets: vec![],
    });
    e.spec.envelope = Some(Envelope {
        cpus: "4".to_owned(),
        memory: "16g".to_owned(),
        containers: vec![Container {
            role: Role::DataPlane,
            name: "arm".to_owned(),
            cpus: "4".to_owned(),
            memory: "16384m".to_owned(),
            args: vec![],
        }],
    });
    e.spec.guarantees = Some(Guarantees {
        delivery: "at-least-once".to_owned(),
        durability: "offset-commit".to_owned(),
        interval_ms: 1000,
    });
    e
}

#[test]
fn every_memory_suffix_a_descriptor_may_use_parses_to_bytes() {
    assert_eq!(parse_memory("4g"), Some(4 * 1024 * 1024 * 1024));
    assert_eq!(parse_memory("512m"), Some(512 * 1024 * 1024));
    assert_eq!(parse_memory("1024"), Some(1024));
    assert_eq!(parse_memory("nonsense"), None);
    assert_eq!(parse_memory(" 8G "), Some(8 * 1024 * 1024 * 1024));
}

#[test]
fn a_kibibyte_suffix_parses_because_one_copy_of_this_used_to_reject_it() {
    assert_eq!(parse_memory("1048576k"), Some(1024 * 1024 * 1024));
    assert_eq!(parse_memory("1048576K"), Some(1024 * 1024 * 1024));
    assert_eq!(parse_memory("1g"), parse_memory("1048576k"));
}

#[test]
fn an_overflowing_declaration_is_unparseable_rather_than_wrapped() {
    assert_eq!(parse_memory("99999999999999999999g"), None);
    assert_eq!(parse_memory("18014398509481985k"), None);
}

#[test]
fn a_variant_selecting_unshipped_code_must_be_labelled_stripped() {
    let errs = errors_from(vec![
        variant("shipped", Approach::Realistic, &[]),
        variant(
            "ours",
            Approach::Realistic,
            &["ReusingAvroDeserializationSchema"],
        ),
    ]);
    assert!(
        errs.iter().any(|e| e.contains("declares unshipped")),
        "{errs:?}"
    );
    assert!(
        errs.iter()
            .any(|e| e.contains("unshipped [\"ReusingAvroDeserializationSchema\"] but has approach Realistic")),
        "{errs:?}"
    );

    let errs = errors_from(vec![
        variant("shipped", Approach::Realistic, &[]),
        variant(
            "ours",
            Approach::Stripped,
            &["ReusingAvroDeserializationSchema"],
        ),
    ]);
    assert!(
        !errs.iter().any(|e| e.contains("declares unshipped")),
        "{errs:?}"
    );
}

#[test]
fn an_unshipped_declaration_must_name_the_component() {
    let errs = errors_from(vec![variant("ours", Approach::Stripped, &[" "])]);
    assert!(
        errs.iter().any(|e| e.contains("empty `unshipped` entry")),
        "{errs:?}"
    );
}

#[test]
fn a_knob_combination_the_arm_cannot_run_is_a_violation_quoting_the_reason() {
    let v = knob_violations(
        &vec![buffered_exceeds_batch()],
        &knobs(&[("max_rows", 262_144), ("buffered_rows", 50_000)]),
    );
    assert_eq!(v.len(), 1, "{v:?}");
    assert!(v[0].contains("262144"), "{}", v[0]);
    assert!(v[0].contains("50000"), "{}", v[0]);
    assert!(
        v[0].contains("AsyncSinkWriter"),
        "the entrant's own reason: {}",
        v[0]
    );
    assert_eq!(
        knob_violations(
            &vec![buffered_exceeds_batch()],
            &knobs(&[("max_rows", 50_000), ("buffered_rows", 50_000)]),
        )
        .len(),
        1
    );
    assert!(knob_violations(
        &vec![buffered_exceeds_batch()],
        &knobs(&[("max_rows", 50_000), ("buffered_rows", 50_001)]),
    )
    .is_empty());
}

#[test]
fn a_constraint_over_a_knob_the_variant_does_not_set_is_a_violation_and_not_a_pass() {
    let v = knob_violations(
        &vec![buffered_exceeds_batch()],
        &knobs(&[("max_rows", 25_000)]),
    );
    assert_eq!(v.len(), 1, "{v:?}");
    assert!(v[0].contains("cannot be checked"), "{}", v[0]);
    assert!(v[0].contains("max_rows"), "{}", v[0]);
}

#[test]
fn a_committed_variant_that_breaks_its_own_entrants_constraint_fails_validation() {
    let mut e = entrant_with(vec![variant("only", Approach::Realistic, &[])]);
    e.spec.constraints = vec![buffered_exceeds_batch()];
    e.spec.variants[0].knobs = knobs(&[("max_rows", 25_000), ("buffered_rows", 25_000)]);

    let mut errs = Vec::new();
    validate_constraints(&e, &mut errs);
    assert_eq!(errs.len(), 1, "{errs:?}");
    assert!(errs[0].contains("variant \"only\""), "{}", errs[0]);
}

#[test]
fn a_constraint_that_explains_nothing_is_rejected() {
    let mut e = entrant_with(vec![variant("only", Approach::Realistic, &[])]);
    e.spec.constraints = vec![Constraint {
        knob: "buffered_rows".to_owned(),
        exceeds: "buffered_rows".to_owned(),
        why: "  ".to_owned(),
    }];
    e.spec.variants[0].knobs = knobs(&[("buffered_rows", 1)]);

    let mut errs = Vec::new();
    validate_constraints(&e, &mut errs);
    assert!(
        errs.iter().any(|x| x.contains("must exceed itself")),
        "{errs:?}"
    );
    assert!(
        errs.iter().any(|x| x.contains("does not say what breaks")),
        "{errs:?}"
    );
}

#[test]
fn hue_separation_is_enforced() {
    let hues = vec![(10u16, "a".to_owned()), (25u16, "b".to_owned())];
    let errs = hue_clashes(&hues);
    assert_eq!(errs.len(), 1);
    assert_eq!(
        errs[0],
        "display.hue 10 (a) and 25 (b) are within 20 degrees"
    );
    assert!(hue_clashes(&vec![(25u16, "b".to_owned()), (5u16, "a".to_owned())]).is_empty());
}

#[test]
fn a_complete_descriptor_has_no_problem() {
    assert_eq!(validate(&complete(), &facts()), Vec::<String>::new());
    assert!(checked(complete(), &facts()).is_ok());
}

#[test]
fn every_part_that_is_missing_is_reported_at_once() {
    let mut e = entrant_with(vec![]);
    e.spec.entrant.id = "Probe".to_owned();
    e.spec.entrant.licence = " ".to_owned();
    e.spec.entrant.language = vec![];
    e.spec.display.hue = 360;
    e.spec.schema = 2;
    let mut f = facts();
    f.has_readme = false;
    let errs = validate(&e, &f);
    assert_eq!(
        errs,
        [
            "Probe: descriptor schema 2, expected 1",
            "Probe: id does not match directory name \"probe\"",
            "Probe: id must be lowercase ascii, digits and hyphens",
            "Probe: licence is empty",
            "Probe: language must list at least one language",
            "Probe: display.hue 360 is not an angle in 0..360",
            "Probe: active entrant has no [build]",
            "Probe: active entrant has no README.md",
            "Probe: active entrant has no [version]",
            "Probe: active entrant has no [guarantees]. Delivery semantics are published beside the numbers so the comparison is guarantee-for-guarantee; an arm that declares none cannot be compared at all.",
            "Probe: active entrant has no [envelope]",
            "Probe: active entrant declares no variants",
        ]
    );
}

#[test]
fn a_planned_entrant_owes_a_reason_and_no_implementation() {
    let mut e = entrant_with(vec![]);
    e.spec.entrant.status = Status::Planned;
    assert_eq!(
        validate(&e, &facts()),
        ["probe: status is not runnable but [planned] is absent"]
    );
    e.spec.planned = Some(Planned {
        tracking: String::new(),
        blockers: "no sink".to_owned(),
        licence_gate: String::new(),
    });
    assert!(validate(&e, &facts()).is_empty());
}

#[test]
fn an_unknown_strategy_and_an_empty_command_are_both_problems() {
    let mut e = complete();
    e.spec.version = Some(VersionSource {
        strategy: "image-label".to_owned(),
        command: vec![],
        pinned: String::new(),
    });
    let mut errs = Vec::new();
    validate_version(&e, &mut errs);
    assert_eq!(
        errs,
        ["probe: [version].strategy \"image-label\" is not implemented. Known: command"]
    );
    e.spec.version = Some(VersionSource {
        strategy: "command".to_owned(),
        command: vec![],
        pinned: String::new(),
    });
    let mut errs = Vec::new();
    validate_version(&e, &mut errs);
    assert_eq!(errs.len(), 1);
}

#[test]
fn another_delivery_guarantee_is_not_on_the_same_axis() {
    let mut e = complete();
    if let Some(g) = &mut e.spec.guarantees {
        g.delivery = "exactly-once".to_owned();
    }
    let mut errs = Vec::new();
    validate_guarantees(&e, &mut errs);
    assert_eq!(errs.len(), 1);
    assert!(errs[0].contains("declares delivery \"exactly-once\" rather than \"at-least-once\""));
}

#[test]
fn an_envelope_is_what_its_data_plane_gets() {
    let mut e = complete();
    let mut f = facts();
    f.cpus_agree = false;
    let mut errs = Vec::new();
    validate_envelope(&e, &f, &mut errs);
    assert_eq!(
        errs,
        ["probe: data-plane containers total 4 CPUs but [envelope].cpus is 4"]
    );
    if let Some(env) = &mut e.spec.envelope {
        env.memory = "8g".to_owned();
    }
    let mut errs = Vec::new();
    validate_envelope(&e, &facts(), &mut errs);
    assert_eq!(
        errs,
        ["probe: data-plane containers total 17179869184 bytes but [envelope].memory is 8g (8589934592)"]
    );
    if let Some(env) = &mut e.spec.envelope {
        env.memory = "much".to_owned();
    }
    let mut errs = Vec::new();
    validate_envelope(&e, &facts(), &mut errs);
    assert_eq!(errs, ["probe: [envelope].memory \"much\" unparseable"]);
    if let Some(env) = &mut e.spec.envelope {
        env.containers.clear();
    }
    let mut errs = Vec::new();
    validate_envelope(&e, &facts(), &mut errs);
    assert_eq!(
        errs,
        ["probe: expected exactly one data-plane container, found 0"]
    );
}

#[test]
fn the_default_variant_is_single_and_realistic() {
    let mut tuned = variant("tuned", Approach::Tuned, &[]);
    tuned.default = true;
    let errs = errors_from(vec![tuned]);
    assert_eq!(
        errs,
        ["probe: default variant \"tuned\" has approach Tuned; the default must be realistic"]
    );
    let errs = errors_from(vec![
        variant("x", Approach::Realistic, &[]),
        variant("x", Approach::Realistic, &[]),
    ]);
    assert_eq!(
        errs,
        [
            "probe: duplicate variant id \"x\"",
            "probe: expected exactly one variant marked default, found 0"
        ]
    );
}

#[test]
fn lookups_find_the_first_that_fits() {
    let e = complete();
    assert_eq!(e.id(), "probe");
    assert_eq!(e.default_variant().map(|v| v.id.as_str()), Some("only"));
    assert!(e.variant("only").is_some());
    assert!(e.variant("other").is_none());
    assert_eq!(e.data_plane().map(|c| c.name.as_str()), Some("arm"));
    assert!(entrant_with(vec![]).default_variant().is_none());
    assert!(entrant_with(vec![]).data_plane().is_none());
}

#[test]
fn a_set_is_loaded_whole_or_refused_with_every_problem() {
    let other = || {
        let mut e = complete();
        e.spec.entrant.id = "second".to_owned();
        e.spec.display.order = 2;
        e.spec.display.hue = 100;
        e
    };
    let loaded = load_all(vec![Ok(complete()), Ok(other())]).expect("a clean set");
    assert_eq!(loaded.len(), 2);
    assert_eq!(loaded[1].id(), "second");

    let mut clash = other();
    clash.spec.display.order = 1;
    clash.spec.display.hue = 19;
    let errs = load_all(vec![
        Ok(complete()),
        Err(vec!["entrants/x has no entrant.toml".to_owned()]),
        Ok(clash),
    ])
    .expect_err("problems");
    assert_eq!(
        errs,
        [
            "entrants/x has no entrant.toml",
            "display.order 1 is used by both probe and second",
            "display.hue 0 (probe) and 19 (second) are within 20 degrees",
        ]
    );
    let mut none = Vec::new();
    cross_check(&vec![complete()], &mut none);
    assert!(none.is_empty());
}

#[test]
fn slugs_are_lower_case_digits_and_hyphens() {
    assert!(slug("tier-a-2"));
    assert!(!slug("Tier"));
    assert!(!slug("a_b"));
}

#[test]
fn a_table_keeps_its_keys_in_order_and_its_latest_values() {
    let mut t: Table<i64> = Table::new();
    for (k, v) in [("b", 1), ("a", 2), ("c", 3), ("a", 4)] {
        t.insert(k.to_owned(), v);
    }
    assert_eq!(t.keys(), ["a", "b", "c"]);
    assert_eq!(t.get("a"), Some(&4));
    assert_eq!(t.get("d"), None);
    assert_eq!(t.entry(1), ("b", &1));
    assert_eq!(t.len(), 3);
    assert!(less("a", "ab"));
    assert!(!less("b", "ab"));
}
