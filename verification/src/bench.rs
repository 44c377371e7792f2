//! The command line: what it asks for, and what it answers.
use vstd::prelude::*;
use crate::calendar::{date_of, day_text, iso_day};
use crate::corpus::DATASET_VERSION;
use crate::driver::{approach_name, approach_text, Mode, RunOptions};
use crate::entrant::{debug_quoted, quoted, Entrant, Status, Variant};
use crate::report::{Report, Sut, Trigger, HARNESS_VERSION};
use crate::select::{
    arm_views, expand, expanded, parsed_selector, selector_views, Arm, ArmView, Selector,
    SelectorView,
};
use crate::table::{in_order, sort_texts};
use crate::text::{
    begins, cat2, cat3, cat4, cat5, cat6, dec, decimal, join, joined, law_padding_adds_spaces,
    lines, lines_of, note, number_error, pad, padded, parsed_nat, read_number, same, starts_with,
    texts, trim, trimmed,
};

verus! {

/// Exit code for a refusal, apart from that of a usage error.
pub const EXIT_REFUSED: u8 = 3;

/// The exit code of a failure: a refusal is told from a usage error by its text.
pub fn exit_code(message: &str) -> (r: u8)
    ensures
        r == if begins(message@, "REFUSED"@) {
            EXIT_REFUSED
        } else {
            1u8
        },
{
    if starts_with(message, "REFUSED") {
        EXIT_REFUSED
    } else {
        1
    }
}

/// A subcommand.
#[derive(Clone, Copy, Debug, PartialEq, Eq, Structural)]
pub enum Command {
    List,
    Validate,
    Build,
    Stale,
    Retract,
    Prefill,
    Ceiling,
    Run,
    Help,
}

pub open spec fn command_of(s: Seq<char>) -> Option<Command> {
    if s == "list"@ {
        Some(Command::List)
    } else if s == "validate"@ {
        Some(Command::Validate)
    } else if s == "build"@ {
        Some(Command::Build)
    } else if s == "stale"@ {
        Some(Command::Stale)
    } else if s == "retract"@ {
        Some(Command::Retract)
    } else if s == "prefill"@ {
        Some(Command::Prefill)
    } else if s == "ceiling"@ {
        Some(Command::Ceiling)
    } else if s == "run"@ {
        Some(Command::Run)
    } else if s == "-h"@ || s == "--help"@ || s == "help"@ {
        Some(Command::Help)
    } else {
        None
    }
}

/// The subcommand that a word names.
pub fn command_named(s: &str) -> (r: Result<Command, String>)
    ensures
        match r {
            Ok(c) => command_of(s@) == Some(c),
            Err(e) => command_of(s@) is None && e@ == "unknown subcommand "@ + debug_quoted(s@)
                + ". Try `bench help`."@,
        },
{
    if same(s, "list") {
        Ok(Command::List)
    } else if same(s, "validate") {
        Ok(Command::Validate)
    } else if same(s, "build") {
        Ok(Command::Build)
    } else if same(s, "stale") {
        Ok(Command::Stale)
    } else if same(s, "retract") {
        Ok(Command::Retract)
    } else if same(s, "prefill") {
        Ok(Command::Prefill)
    } else if same(s, "ceiling") {
        Ok(Command::Ceiling)
    } else if same(s, "run") {
        Ok(Command::Run)
    } else if same(s, "-h") || same(s, "--help") || same(s, "help") {
        Ok(Command::Help)
    } else {
        Err(cat3("unknown subcommand ", quoted(s).as_str(), ". Try `bench help`."))
    }
}

// ---------------------------------------------------------------------------
// Options
// ---------------------------------------------------------------------------

/// What a [`RunOptions`] asks for.
pub struct OptionsView {
    pub reps: u32,
    pub mode: Mode,
    pub env_id: Seq<char>,
    pub trigger: Trigger,
    pub dry_run: bool,
    pub reuse_infra: bool,
    pub fail_fast: bool,
    pub topic: Seq<char>,
    pub batches: u64,
}

pub open spec fn options_view(o: RunOptions) -> OptionsView {
    OptionsView {
        reps: o.reps,
        mode: o.mode,
        env_id: o.env_id@,
        trigger: o.trigger,
        dry_run: o.dry_run,
        reuse_infra: o.reuse_infra,
        fail_fast: o.fail_fast,
        topic: o.topic@,
        batches: o.batches,
    }
}

pub open spec fn default_options(env_id: Seq<char>) -> OptionsView {
    OptionsView {
        reps: 3,
        mode: Mode::Drain,
        env_id,
        trigger: Trigger::Manual,
        dry_run: false,
        reuse_infra: false,
        fail_fast: false,
        topic: "comparison-sensor-batches"@,
        batches: 1_500_000,
    }
}

/// A flag that takes the argument after it as its value.
pub open spec fn takes_value(a: Seq<char>) -> bool {
    a == "--reps"@ || a == "--env"@ || a == "--topic"@ || a == "--batches"@ || a == "--trigger"@
}

pub open spec fn trigger_of(s: Seq<char>) -> Option<Trigger> {
    if s == "nightly"@ {
        Some(Trigger::Nightly)
    } else if s == "manual"@ {
        Some(Trigger::Manual)
    } else if s == "pr"@ {
        Some(Trigger::Pr)
    } else if s == "release"@ {
        Some(Trigger::Release)
    } else {
        None
    }
}

/// The options with flag `a` set to `v`.
pub open spec fn with_value(o: OptionsView, a: Seq<char>, v: Seq<char>) -> Result<
    OptionsView,
    Seq<char>,
> {
    if a == "--reps"@ {
        match parsed_nat(v, u32::MAX as nat) {
            Some(n) => Ok(OptionsView { reps: n as u32, ..o }),
            None => Err("--reps: "@ + number_error(v, u32::MAX as nat)),
        }
    } else if a == "--env"@ {
        Ok(OptionsView { env_id: v, ..o })
    } else if a == "--topic"@ {
        Ok(OptionsView { topic: v, ..o })
    } else if a == "--batches"@ {
        match parsed_nat(v, u64::MAX as nat) {
            Some(n) => Ok(OptionsView { batches: n as u64, ..o }),
            None => Err("--batches: "@ + number_error(v, u64::MAX as nat)),
        }
    } else {
        match trigger_of(v) {
            Some(t) => Ok(OptionsView { trigger: t, ..o }),
            None => Err("unknown --trigger "@ + debug_quoted(v)),
        }
    }
}

/// The options that the arguments from `i` on make of `o`, or the first error. A flag
/// that is not known is an error, and is never passed over. `--stale` is about the arms
/// and leaves the options as they are: see [`run_selection`].
pub open spec fn options_from(args: Seq<Seq<char>>, i: int, o: OptionsView) -> Result<
    OptionsView,
    Seq<char>,
>
    decreases args.len() - i,
{
    if i < 0 || i >= args.len() {
        Ok(o)
    } else if !begins(args[i], "-"@) {
        options_from(args, i + 1, o)
    } else if takes_value(args[i]) {
        if i + 1 >= args.len() {
            Err(args[i] + " needs a value"@)
        } else {
            match with_value(o, args[i], args[i + 1]) {
                Ok(next) => options_from(args, i + 2, next),
                Err(e) => Err(e),
            }
        }
    } else if args[i] == "--dry-run"@ {
        options_from(args, i + 1, OptionsView { dry_run: true, ..o })
    } else if args[i] == "--reuse-infra"@ {
        options_from(args, i + 1, OptionsView { reuse_infra: true, ..o })
    } else if args[i] == "--fail-fast"@ {
        options_from(args, i + 1, OptionsView { fail_fast: true, ..o })
    } else if args[i] == "--stale"@ {
        options_from(args, i + 1, o)
    } else {
        Err("unknown flag "@ + debug_quoted(args[i]) + ". Try `bench help`."@)
    }
}

fn valued(a: &str) -> (r: bool)
    ensures
        r == takes_value(a@),
{
    same(a, "--reps") || same(a, "--env") || same(a, "--topic") || same(a, "--batches") || same(
        a,
        "--trigger",
    )
}

fn trigger_named(s: &str) -> (r: Option<Trigger>)
    ensures
        r == trigger_of(s@),
{
    if same(s, "nightly") {
        Some(Trigger::Nightly)
    } else if same(s, "manual") {
        Some(Trigger::Manual)
    } else if same(s, "pr") {
        Some(Trigger::Pr)
    } else if same(s, "release") {
        Some(Trigger::Release)
    } else {
        None
    }
}

fn set_value(o: &mut RunOptions, a: &str, v: &str) -> (r: Result<(), String>)
    requires
        takes_value(a@),
    ensures
        match r {
            Ok(_) => with_value(options_view(*old(o)), a@, v@) == Ok::<OptionsView, Seq<char>>(
                options_view(*final(o)),
            ),
            Err(e) => with_value(options_view(*old(o)), a@, v@) == Err::<OptionsView, Seq<char>>(
                e@,
            ),
        },
{
    if same(a, "--reps") {
        match read_number(v, 0xffff_ffff) {
            Ok(n) => {
                o.reps = n as u32;
            },
            Err(e) => return Err(cat2("--reps: ", e)),
        }
    } else if same(a, "--env") {
        o.env_id = v.to_owned();
    } else if same(a, "--topic") {
        o.topic = v.to_owned();
    } else if same(a, "--batches") {
        match read_number(v, 0xffff_ffff_ffff_ffff) {
            Ok(n) => {
                o.batches = n as u64;
            },
            Err(e) => return Err(cat2("--batches: ", e)),
        }
    } else {
        match trigger_named(v) {
            Some(t) => {
                o.trigger = t;
            },
            None => return Err(cat2("unknown --trigger ", quoted(v).as_str())),
        }
    }
    Ok(())
}

/// Reads the options of a run in an environment, unless the arguments name another.
pub fn opts_from(args: &Vec<String>, env_id: String) -> (r: Result<RunOptions, String>)
    ensures
        match r {
            Ok(o) => options_from(texts(args@), 0, default_options(env_id@)) == Ok::<
                OptionsView,
                Seq<char>,
            >(options_view(o)),
            Err(e) => options_from(texts(args@), 0, default_options(env_id@)) == Err::<
                OptionsView,
                Seq<char>,
            >(e@),
        },
{
    let ghost all = texts(args@);
    let ghost start = default_options(env_id@);
    let mut o = RunOptions {
        reps: 3,
        mode: Mode::Drain,
        env_id,
        trigger: Trigger::Manual,
        dry_run: false,
        reuse_infra: false,
        fail_fast: false,
        topic: "comparison-sensor-batches".to_owned(),
        batches: 1_500_000,
    };
    let mut i: usize = 0;
    while i < args.len()
        invariant
            all == texts(args@),
            start == default_options(env_id@),
            i <= args@.len(),
            options_from(all, 0, start) == options_from(all, i as int, options_view(o)),
        decreases args@.len() - i,
    {
        let a = args[i].as_str();
        proof {
            assert(all[i as int] == a@);
            assert(all.len() == args@.len());
        }
        if !starts_with(a, "-") {
            i += 1;
        } else if valued(a) {
            if i + 1 >= args.len() {
                return Err(cat2(a, " needs a value"));
            }
            proof {
                assert(all[i + 1] == args@[i + 1]@);
            }
            if let Err(e) = set_value(&mut o, a, args[i + 1].as_str()) {
                return Err(e);
            }
            i += 2;
        } else if same(a, "--dry-run") {
            o.dry_run = true;
            i += 1;
        } else if same(a, "--reuse-infra") {
            o.reuse_infra = true;
            i += 1;
        } else if same(a, "--fail-fast") {
            o.fail_fast = true;
            i += 1;
        } else if same(a, "--stale") {
            i += 1;
        } else {
            return Err(cat3("unknown flag ", quoted(a).as_str(), ". Try `bench help`."));
        }
    }
    Ok(o)
}

/// The arguments from `i` on that are neither flags nor their values.
pub open spec fn positional(args: Seq<Seq<char>>, i: int) -> Seq<Seq<char>>
    decreases args.len() - i,
{
    if i < 0 || i >= args.len() {
        seq![]
    } else if !begins(args[i], "-"@) {
        seq![args[i]] + positional(args, i + 1)
    } else if takes_value(args[i]) && i + 1 < args.len() {
        positional(args, i + 2)
    } else {
        positional(args, i + 1)
    }
}

/// The first `n` selectors, or why one of them is refused.
pub open spec fn selectors_of(raw: Seq<Seq<char>>, n: nat) -> Result<Seq<SelectorView>, Seq<char>>
    decreases n,
{
    if n == 0 {
        Ok(seq![])
    } else {
        match selectors_of(raw, (n - 1) as nat) {
            Err(e) => Err(e),
            Ok(sofar) => match parsed_selector(raw[n - 1]) {
                Err(e) => Err(e),
                Ok(s) => Ok(sofar.push(s)),
            },
        }
    }
}

proof fn lemma_selector_refusal(raw: Seq<Seq<char>>, n: nat, total: nat)
    requires
        n <= total,
        selectors_of(raw, n) is Err,
    ensures
        selectors_of(raw, total) == selectors_of(raw, n),
    decreases total,
{
    if n < total {
        lemma_selector_refusal(raw, n, (total - 1) as nat);
    }
}

fn positionals(args: &Vec<String>) -> (r: Vec<String>)
    ensures
        texts(r@) == positional(texts(args@), 0),
{
    let ghost all = texts(args@);
    let mut out: Vec<String> = Vec::new();
    let mut i: usize = 0;
    proof {
        assert(texts(out@) + positional(all, 0) =~= positional(all, 0));
    }
    while i < args.len()
        invariant
            all == texts(args@),
            i <= args@.len(),
            texts(out@) + positional(all, i as int) == positional(all, 0),
        decreases args@.len() - i,
    {
        let a = args[i].as_str();
        let ghost sofar = texts(out@);
        proof {
            assert(all[i as int] == a@);
            assert(all.len() == args@.len());
        }
        if !starts_with(a, "-") {
            note(&mut out, a.to_owned());
            proof {
                assert(texts(out@) + positional(all, i + 1) =~= sofar + positional(
                    all,
                    i as int,
                ));
            }
            i += 1;
        } else if valued(a) && i + 1 < args.len() {
            i += 2;
        } else {
            i += 1;
        }
    }
    proof {
        assert(all.len() == args@.len());
        assert(texts(out@) + positional(all, i as int) =~= texts(out@));
    }
    out
}

/// The selectors among the arguments. There must be one, and each must parse.
pub fn parse_selectors(args: &Vec<String>) -> (r: Result<Vec<Selector>, String>)
    ensures
        ({
            let raw = positional(texts(args@), 0);
            match r {
                Ok(v) => raw.len() > 0 && selectors_of(raw, raw.len()) == Ok::<
                    Seq<SelectorView>,
                    Seq<char>,
                >(selector_views(v@)),
                Err(e) => if raw.len() == 0 {
                    e@ == "no selector given. Use '*' for everything."@
                } else {
                    selectors_of(raw, raw.len()) == Err::<Seq<SelectorView>, Seq<char>>(e@)
                },
            }
        }),
{
    let raw = positionals(args);
    let ghost views = positional(texts(args@), 0);
    proof {
        assert(views.len() == raw@.len());
    }
    if raw.len() == 0 {
        return Err("no selector given. Use '*' for everything.".to_owned());
    }
    let mut out: Vec<Selector> = Vec::new();
    let mut i: usize = 0;
    proof {
        assert(selector_views(out@) =~= seq![]);
    }
    while i < raw.len()
        invariant
            texts(raw@) == views,
            views == positional(texts(args@), 0),
            views.len() == raw@.len(),
            raw@.len() > 0,
            i <= raw@.len(),
            selectors_of(views, i as nat) == Ok::<Seq<SelectorView>, Seq<char>>(
                selector_views(out@),
            ),
        decreases raw@.len() - i,
    {
        let ghost sofar = selector_views(out@);
        proof {
            assert(views[i as int] == raw@[i as int]@);
        }
        match Selector::parse(raw[i].as_str()) {
            Ok(s) => {
                out.push(s);
                proof {
                    assert(selector_views(out@) =~= sofar.push(s@));
                }
            },
            Err(e) => {
                proof {
                    lemma_selector_refusal(views, (i + 1) as nat, views.len());
                }
                return Err(e);
            },
        }
        i += 1;
    }
    Ok(out)
}

/// The environment to use where none is named: the only one there is. Which hardware
/// a number describes is never guessed.
pub fn default_env(ids: &Vec<String>) -> (r: Result<String, String>)
    ensures
        match r {
            Ok(id) => env_refusal(texts(ids@)) is None && id@ == ids@[0]@,
            Err(e) => env_refusal(texts(ids@)) == Some(e@),
        },
{
    proof {
        assert(texts(ids@).len() == ids@.len());
    }
    if ids.len() == 1 {
        return Ok(ids[0].clone());
    }
    if ids.len() == 0 {
        return Err("no environment profiles in environments/".to_owned());
    }
    let sorted = sort_texts(ids);
    Err(
        cat3(
            "several environments exist (",
            join(&sorted, ", ").as_str(),
            "); name one with --env. Guessing which hardware a number describes is not something this tool does.",
        ),
    )
}

/// The arguments from `i` on hold `flag`, and not as the value of another flag.
pub open spec fn has_flag(args: Seq<Seq<char>>, flag: Seq<char>, i: int) -> bool
    decreases args.len() - i,
{
    if i < 0 || i >= args.len() {
        false
    } else if args[i] == flag {
        true
    } else if takes_value(args[i]) && i + 1 < args.len() {
        has_flag(args, flag, i + 2)
    } else {
        has_flag(args, flag, i + 1)
    }
}

fn flag_given(args: &Vec<String>, flag: &str) -> (r: bool)
    ensures
        r == has_flag(texts(args@), flag@, 0),
{
    let ghost all = texts(args@);
    let mut i: usize = 0;
    while i < args.len()
        invariant
            all == texts(args@),
            i <= args@.len(),
            has_flag(all, flag@, 0) == has_flag(all, flag@, i as int),
        decreases args@.len() - i,
    {
        let a = args[i].as_str();
        proof {
            assert(all[i as int] == a@);
            assert(all.len() == args@.len());
        }
        if same(a, flag) {
            return true;
        }
        if valued(a) && i + 1 < args.len() {
            i += 2;
        } else {
            i += 1;
        }
    }
    proof {
        assert(all.len() == args@.len());
    }
    false
}

/// Why none of the profiles `ids` is the one to use, where none is named.
pub open spec fn env_refusal(ids: Seq<Seq<char>>) -> Option<Seq<char>> {
    if ids.len() == 1 {
        None
    } else if ids.len() == 0 {
        Some("no environment profiles in environments/"@)
    } else {
        Some(
            "several environments exist ("@ + joined(in_order(ids, ids.len()), ", "@)
                + "); name one with --env. Guessing which hardware a number describes is not something this tool does."@,
        )
    }
}

/// The options that the arguments ask for, with the profiles `ids` to choose from.
pub open spec fn options_among(args: Seq<Seq<char>>, ids: Seq<Seq<char>>) -> Result<
    OptionsView,
    Seq<char>,
> {
    if has_flag(args, "--env"@, 0) {
        options_from(args, 0, default_options(seq![]))
    } else {
        match env_refusal(ids) {
            Some(e) => Err(e),
            None => options_from(args, 0, default_options(ids[0])),
        }
    }
}

/// Reads the options of a run. The profiles are consulted only where `--env` names
/// none: several are refused only then.
pub fn options_for(args: &Vec<String>, ids: &Vec<String>) -> (r: Result<RunOptions, String>)
    ensures
        match r {
            Ok(o) => options_among(texts(args@), texts(ids@)) == Ok::<OptionsView, Seq<char>>(
                options_view(o),
            ),
            Err(e) => options_among(texts(args@), texts(ids@)) == Err::<OptionsView, Seq<char>>(
                e@,
            ),
        },
{
    if flag_given(args, "--env") {
        let none = String::new();
        proof {
            assert(none@ =~= seq![]);
        }
        return opts_from(args, none);
    }
    proof {
        assert(texts(ids@).len() == ids@.len());
        if ids@.len() > 0 {
            assert(texts(ids@)[0] == ids@[0]@);
        }
    }
    match default_env(ids) {
        Ok(id) => opts_from(args, id),
        Err(e) => Err(e),
    }
}

proof fn lemma_named_env(args: Seq<Seq<char>>, i: int, o: OptionsView, p: OptionsView)
    requires
        0 <= i,
        p == (OptionsView { env_id: p.env_id, ..o }),
        has_flag(args, "--env"@, i) || o == p,
    ensures
        options_from(args, i, o) == options_from(args, i, p),
    decreases args.len() - i,
{
    reveal_strlit("-");
    reveal_strlit("--env");
    reveal_strlit("--reps");
    reveal_strlit("--topic");
    reveal_strlit("--batches");
    reveal_strlit("--trigger");
    assert("--env"@.take(1) =~= "-"@);
    assert("--reps"@.take(1) =~= "-"@);
    assert("--topic"@.take(1) =~= "-"@);
    assert("--batches"@.take(1) =~= "-"@);
    assert("--trigger"@.take(1) =~= "-"@);
    if i < args.len() {
        if !begins(args[i], "-"@) {
            lemma_named_env(args, i + 1, o, p);
        } else if takes_value(args[i]) {
            if i + 1 < args.len() {
                let (a, v) = (args[i], args[i + 1]);
                match (with_value(o, a, v), with_value(p, a, v)) {
                    (Ok(x), Ok(y)) => {
                        lemma_named_env(args, i + 2, x, y);
                    },
                    _ => {},
                }
            }
        } else {
            lemma_named_env(
                args,
                i + 1,
                OptionsView { dry_run: o.dry_run || args[i] == "--dry-run"@, ..o },
                OptionsView { dry_run: p.dry_run || args[i] == "--dry-run"@, ..p },
            );
            lemma_named_env(
                args,
                i + 1,
                OptionsView { reuse_infra: true, ..o },
                OptionsView { reuse_infra: true, ..p },
            );
            lemma_named_env(
                args,
                i + 1,
                OptionsView { fail_fast: true, ..o },
                OptionsView { fail_fast: true, ..p },
            );
            lemma_named_env(args, i + 1, o, p);
        }
    }
}

/// Where `--env` names a profile, which profiles there are makes no difference.
pub proof fn law_a_named_environment_decides(
    args: Seq<Seq<char>>,
    ids: Seq<Seq<char>>,
    others: Seq<Seq<char>>,
    env_id: Seq<char>,
)
    requires
        has_flag(args, "--env"@, 0),
    ensures
        options_among(args, ids) == options_among(args, others),
        options_among(args, ids) == options_from(args, 0, default_options(env_id)),
{
    lemma_named_env(args, 0, default_options(seq![]), default_options(env_id));
}

/// A number from the environment: the default where it is not set, and an error where
/// what is set is none.
pub fn env_u64(key: &str, value: Option<&str>, default: u64) -> (r: Result<u64, String>)
    ensures
        match value {
            None => r is Ok && r->Ok_0 == default,
            Some(v) => match r {
                Ok(n) => parsed_nat(v@, u64::MAX as nat) == Some(n as nat),
                Err(e) => parsed_nat(v@, u64::MAX as nat) is None && e@ == key@ + "="@
                    + debug_quoted(v@) + " is not a u64: "@ + number_error(v@, u64::MAX as nat),
            },
        },
{
    match value {
        None => Ok(default),
        Some(v) => match read_number(v, 0xffff_ffff_ffff_ffff) {
            Ok(n) => Ok(n as u64),
            Err(e) => Err(cat5(key, "=", quoted(v).as_str(), " is not a u64: ", e)),
        },
    }
}

/// A number of problems, and the problems, one to a line.
pub fn problem_list(what: &str, problems: &Vec<String>) -> (r: String)
    ensures
        r@ == decimal(problems@.len()) + " "@ + what@ + ":\n  - "@ + joined(
            texts(problems@),
            "\n  - "@,
        ),
{
    cat5(
        dec(problems.len() as u128).as_str(),
        " ",
        what,
        ":\n  - ",
        join(problems, "\n  - ").as_str(),
    )
}

// ---------------------------------------------------------------------------
// Listing
// ---------------------------------------------------------------------------

pub open spec fn status_text(s: Status) -> Seq<char> {
    match s {
        Status::Active => "active"@,
        Status::Planned => "planned"@,
        Status::Historical => "historical"@,
        Status::Withdrawn => "withdrawn"@,
    }
}

/// The name of a lifecycle in a listing.
pub fn status_name(s: Status) -> (r: &'static str)
    ensures
        r@ == status_text(s),
{
    match s {
        Status::Active => "active",
        Status::Planned => "planned",
        Status::Historical => "historical",
        Status::Withdrawn => "withdrawn",
    }
}

/// A record is of a variant of an entrant.
pub open spec fn is_record_of<N, J>(r: Report<N, J>, entrant: Seq<char>, variant: Seq<char>) -> bool {
    r.sut.entrant@ == entrant && r.sut.variant_id@ == variant
}

/// The latest of the first `n` records of a variant; of equally late ones, the last.
pub open spec fn latest<N, J>(
    records: Seq<Report<N, J>>,
    entrant: Seq<char>,
    variant: Seq<char>,
    n: nat,
) -> Option<int>
    decreases n,
{
    if n == 0 {
        None
    } else {
        let before = latest(records, entrant, variant, (n - 1) as nat);
        if !is_record_of(records[n - 1], entrant, variant) {
            before
        } else {
            match before {
                Some(k) => if records[k].run.ts_ms <= records[n - 1].run.ts_ms {
                    Some(n - 1)
                } else {
                    before
                },
                None => Some(n - 1),
            }
        }
    }
}

/// The latest record is one of the variant, and none of the variant is later.
pub proof fn law_latest_is_latest<N, J>(
    records: Seq<Report<N, J>>,
    entrant: Seq<char>,
    variant: Seq<char>,
    n: nat,
)
    requires
        n <= records.len(),
    ensures
        match latest(records, entrant, variant, n) {
            Some(k) => 0 <= k < n && is_record_of(records[k], entrant, variant) && forall|i: int|
                0 <= i < n && is_record_of(#[trigger] records[i], entrant, variant)
                    ==> records[i].run.ts_ms <= records[k].run.ts_ms,
            None => forall|i: int|
                0 <= i < n ==> !is_record_of(#[trigger] records[i], entrant, variant),
        },
    decreases n,
{
    if n > 0 {
        law_latest_is_latest(records, entrant, variant, (n - 1) as nat);
    }
}

fn latest_record<N, J>(records: &Vec<Report<N, J>>, entrant: &str, variant: &str) -> (r: Option<usize>)
    ensures
        match r {
            Some(k) => k < records@.len() && latest(
                records@,
                entrant@,
                variant@,
                records@.len(),
            ) == Some(k as int),
            None => latest(records@, entrant@, variant@, records@.len()) is None,
        },
{
    let mut out: Option<usize> = None;
    let mut i: usize = 0;
    while i < records.len()
        invariant
            i <= records@.len(),
            match out {
                Some(k) => k < i && latest(records@, entrant@, variant@, i as nat) == Some(
                    k as int,
                ),
                None => latest(records@, entrant@, variant@, i as nat) is None,
            },
        decreases records@.len() - i,
    {
        if same(records[i].sut.entrant.as_str(), entrant) && same(
            records[i].sut.variant_id.as_str(),
            variant,
        ) {
            match out {
                Some(k) => {
                    if records[k].run.ts_ms <= records[i].run.ts_ms {
                        out = Some(i);
                    }
                },
                None => {
                    out = Some(i);
                },
            }
        }
        i += 1;
    }
    out
}

pub open spec fn entrant_line(e: Entrant) -> Seq<char> {
    padded(e.spec.entrant.id@, 24) + " "@ + padded(status_text(e.spec.entrant.status), 11) + " "@
        + padded(e.spec.entrant.runtime@, 7) + " "@ + (e.spec.entrant.name@ + if e.spec.entrant.vendor@
        == "self"@ {
        "  [vendor-run]"@
    } else {
        ""@
    })
}

/// When a variant was last measured.
pub open spec fn when_text<N, J>(e: Entrant, v: Variant, records: Seq<Report<N, J>>) -> Seq<char> {
    match latest(records, e.spec.entrant.id@, v.id@, records.len()) {
        None => "never measured"@,
        Some(k) => "last "@ + day_text(date_of(records[k].run.ts_ms as int / 86_400_000)),
    }
}

pub open spec fn variant_line<N, J>(e: Entrant, v: Variant, records: Seq<Report<N, J>>) -> Seq<char> {
    "    "@ + padded(v.id@, 28) + " "@ + padded(approach_text(v), 10) + " "@ + when_text(
        e,
        v,
        records,
    ) + if v.default {
        " (default)"@
    } else {
        ""@
    }
}

/// The lines of the first `n` variants.
pub open spec fn variant_lines<N, J>(e: Entrant, records: Seq<Report<N, J>>, n: nat) -> Seq<Seq<char>>
    decreases n,
{
    if n == 0 {
        seq![]
    } else {
        variant_lines(e, records, (n - 1) as nat).push(
            variant_line(e, e.spec.variants@[n - 1], records),
        )
    }
}

pub open spec fn first_line(s: Seq<char>) -> Seq<char> {
    if lines_of(s).len() > 0 {
        lines_of(s)[0]
    } else {
        ""@
    }
}

/// The lines of one entrant: itself, and its variants or what blocks it.
pub open spec fn entrant_lines<N, J>(e: Entrant, records: Seq<Report<N, J>>) -> Seq<Seq<char>> {
    seq![entrant_line(e)] + if e.spec.entrant.status != Status::Planned {
        variant_lines(e, records, e.spec.variants@.len())
    } else {
        match e.spec.planned {
            Some(p) => seq!["    blocked: "@ + first_line(trimmed(p.blockers@))],
            None => seq![],
        }
    }
}

/// The lines of the first `n` entrants.
pub open spec fn listing<N, J>(es: Seq<Entrant>, records: Seq<Report<N, J>>, n: nat) -> Seq<Seq<char>>
    decreases n,
{
    if n == 0 {
        seq![]
    } else {
        listing(es, records, (n - 1) as nat) + entrant_lines(es[n - 1], records)
    }
}

fn list_variant<N, J>(e: &Entrant, v: &Variant, records: &Vec<Report<N, J>>) -> (r: String)
    ensures
        r@ == variant_line(*e, *v, records@),
{
    let when = match latest_record(records, e.id(), v.id.as_str()) {
        None => "never measured".to_owned(),
        Some(k) => cat2("last ", iso_day(records[k].run.ts_ms).as_str()),
    };
    let mut out = cat5(
        "    ",
        pad(v.id.as_str(), 28).as_str(),
        " ",
        pad(approach_name(v), 10).as_str(),
        " ",
    );
    out.push_str(when.as_str());
    out.push_str(
        if v.default {
            " (default)"
        } else {
            ""
        },
    );
    out
}

fn list_entrant<N, J>(e: &Entrant, records: &Vec<Report<N, J>>, out: &mut Vec<String>)
    ensures
        texts(final(out)@) == texts(old(out)@) + entrant_lines(*e, records@),
{
    let ghost start = texts(out@);
    let ours: &str = if same(e.spec.entrant.vendor.as_str(), "self") {
        "  [vendor-run]"
    } else {
        ""
    };
    let head = cat6(
        pad(e.id(), 24).as_str(),
        " ",
        pad(status_name(e.spec.entrant.status), 11).as_str(),
        " ",
        pad(e.spec.entrant.runtime.as_str(), 7).as_str(),
        " ",
    );
    note(out, cat2(head.as_str(), cat2(e.spec.entrant.name.as_str(), ours).as_str()));
    if e.spec.entrant.status != Status::Planned {
        let mut i: usize = 0;
        proof {
            assert(texts(out@) =~= start + (seq![entrant_line(*e)] + variant_lines(
                *e,
                records@,
                0,
            )));
        }
        while i < e.spec.variants.len()
            invariant
                i <= e.spec.variants@.len(),
                texts(out@) == start + (seq![entrant_line(*e)] + variant_lines(
                    *e,
                    records@,
                    i as nat,
                )),
            decreases e.spec.variants@.len() - i,
        {
            note(out, list_variant(e, &e.spec.variants[i], records));
            i += 1;
            proof {
                assert(texts(out@) =~= start + (seq![entrant_line(*e)] + variant_lines(
                    *e,
                    records@,
                    i as nat,
                )));
            }
        }
    } else if let Some(p) = &e.spec.planned {
        let all = lines(trim(p.blockers.as_str()).as_str());
        proof {
            assert(texts(all@).len() == all@.len());
            if all@.len() > 0 {
                assert(texts(all@)[0] == all@[0]@);
            }
        }
        let first: &str = if all.len() > 0 {
            all[0].as_str()
        } else {
            ""
        };
        note(out, cat2("    blocked: ", first));
    }
    proof {
        assert(texts(out@) =~= start + entrant_lines(*e, records@));
    }
}

/// The systems, their variants, and when each was last measured.
pub fn cmd_list<N, J>(entrants: &Vec<Entrant>, records: &Vec<Report<N, J>>) -> (r: Vec<String>)
    ensures
        texts(r@) == listing(entrants@, records@, entrants@.len()),
{
    let mut out: Vec<String> = Vec::new();
    let mut i: usize = 0;
    proof {
        assert(texts(out@) =~= listing(entrants@, records@, 0));
    }
    while i < entrants.len()
        invariant
            i <= entrants@.len(),
            texts(out@) == listing(entrants@, records@, i as nat),
        decreases entrants@.len() - i,
    {
        list_entrant(&entrants[i], records, &mut out);
        i += 1;
    }
    out
}

// ---------------------------------------------------------------------------
// Staleness
// ---------------------------------------------------------------------------

/// A variant has a measurement under the current protocol and corpus.
pub open spec fn is_current<N, J>(e: Entrant, v: Variant, records: Seq<Report<N, J>>) -> bool {
    match latest(records, e.spec.entrant.id@, v.id@, records.len()) {
        None => false,
        Some(k) => records[k].run.harness_version == HARNESS_VERSION
            && records[k].run.dataset_version@ == DATASET_VERSION@,
    }
}

/// Why a variant that is not current is stale.
pub open spec fn stale_text<N, J>(e: Entrant, v: Variant, records: Seq<Report<N, J>>) -> Seq<char> {
    let arm = e.spec.entrant.id@ + ":"@ + v.id@;
    match latest(records, e.spec.entrant.id@, v.id@, records.len()) {
        None => arm + " — never measured"@,
        Some(k) => {
            let run = records[k].run;
            if run.harness_version != HARNESS_VERSION {
                arm + " — harness v"@ + decimal(run.harness_version as nat) + " (current v"@
                    + decimal(HARNESS_VERSION as nat) + "); not comparable"@
            } else {
                arm + " — dataset "@ + run.dataset_version@ + " (current "@ + DATASET_VERSION@
                    + "); not comparable"@
            }
        },
    }
}

/// The stale ones of the first `n` variants.
pub open spec fn stale_variants<N, J>(e: Entrant, records: Seq<Report<N, J>>, n: nat) -> Seq<Seq<char>>
    decreases n,
{
    if n == 0 {
        seq![]
    } else {
        let v = e.spec.variants@[n - 1];
        stale_variants(e, records, (n - 1) as nat) + if is_current(e, v, records) {
            seq![]
        } else {
            seq![stale_text(e, v, records)]
        }
    }
}

/// The stale arms of the first `n` entrants, of those that run.
pub open spec fn stale_arms<N, J>(es: Seq<Entrant>, records: Seq<Report<N, J>>, n: nat) -> Seq<Seq<char>>
    decreases n,
{
    if n == 0 {
        seq![]
    } else {
        stale_arms(es, records, (n - 1) as nat) + if es[n - 1].spec.entrant.status.runs() {
            stale_variants(es[n - 1], records, es[n - 1].spec.variants@.len())
        } else {
            seq![]
        }
    }
}

fn stale_line<N, J>(e: &Entrant, v: &Variant, records: &Vec<Report<N, J>>) -> (r: Option<String>)
    ensures
        match r {
            None => is_current(*e, *v, records@),
            Some(s) => !is_current(*e, *v, records@) && s@ == stale_text(*e, *v, records@),
        },
{
    let arm = cat3(e.id(), ":", v.id.as_str());
    match latest_record(records, e.id(), v.id.as_str()) {
        None => Some(cat2(arm.as_str(), " — never measured")),
        Some(k) => {
            let run = &records[k].run;
            if run.harness_version != HARNESS_VERSION {
                Some(
                    cat6(
                        arm.as_str(),
                        " — harness v",
                        dec(run.harness_version as u128).as_str(),
                        " (current v",
                        dec(HARNESS_VERSION as u128).as_str(),
                        "); not comparable",
                    ),
                )
            } else if !same(run.dataset_version.as_str(), DATASET_VERSION) {
                Some(
                    cat6(
                        arm.as_str(),
                        " — dataset ",
                        run.dataset_version.as_str(),
                        " (current ",
                        DATASET_VERSION,
                        "); not comparable",
                    ),
                )
            } else {
                None
            }
        },
    }
}

/// The arms whose measurement has fallen behind, or that none has.
pub fn cmd_stale<N, J>(entrants: &Vec<Entrant>, records: &Vec<Report<N, J>>) -> (r: Vec<String>)
    ensures
        ({
            let stale = stale_arms(entrants@, records@, entrants@.len());
            texts(r@) == if stale.len() == 0 {
                seq!["every runnable arm has a current measurement"@]
            } else {
                stale
            }
        }),
{
    let mut out: Vec<String> = Vec::new();
    let mut i: usize = 0;
    proof {
        assert(texts(out@) =~= stale_arms(entrants@, records@, 0));
    }
    while i < entrants.len()
        invariant
            i <= entrants@.len(),
            texts(out@) == stale_arms(entrants@, records@, i as nat),
        decreases entrants@.len() - i,
    {
        let e = &entrants[i];
        let ghost sofar = texts(out@);
        if e.spec.entrant.status.is_runnable() {
            let mut j: usize = 0;
            proof {
                assert(texts(out@) =~= sofar + stale_variants(*e, records@, 0));
            }
            while j < e.spec.variants.len()
                invariant
                    j <= e.spec.variants@.len(),
                    texts(out@) == sofar + stale_variants(*e, records@, j as nat),
                decreases e.spec.variants@.len() - j,
            {
                if let Some(s) = stale_line(e, &e.spec.variants[j], records) {
                    note(&mut out, s);
                }
                j += 1;
                proof {
                    assert(texts(out@) =~= sofar + stale_variants(*e, records@, j as nat));
                }
            }
        }
        i += 1;
        proof {
            assert(texts(out@) =~= stale_arms(entrants@, records@, i as nat));
        }
    }
    proof {
        assert(texts(out@).len() == out@.len());
    }
    if out.len() == 0 {
        note(&mut out, "every runnable arm has a current measurement".to_owned());
        proof {
            assert(texts(out@) =~= seq!["every runnable arm has a current measurement"@]);
        }
    }
    out
}

/// The version that an entrant pins is not the one that a record is of.
pub open spec fn has_moved_on(e: Entrant, measured: Sut) -> bool {
    e.spec.version is Some && e.spec.version->Some_0.pinned@.len() > 0 && measured.version is Some
        && measured.version->Some_0@ != e.spec.version->Some_0.pinned@
}

/// A variant is to be measured again: it has no current measurement, or the version
/// that its entrant pins has moved on since.
pub open spec fn is_behind<N, J>(e: Entrant, v: Variant, records: Seq<Report<N, J>>) -> bool {
    match latest(records, e.spec.entrant.id@, v.id@, records.len()) {
        None => true,
        Some(k) => !is_current(e, v, records) || has_moved_on(e, records[k].sut),
    }
}

/// Those of the first `n` arms that are to be measured again, in order.
pub open spec fn arms_behind<N, J>(arms: Seq<ArmView>, records: Seq<Report<N, J>>, n: nat) -> Seq<
    ArmView,
>
    decreases n,
{
    if n == 0 {
        seq![]
    } else if is_behind(arms[n - 1].entrant, arms[n - 1].variant, records) {
        arms_behind(arms, records, (n - 1) as nat).push(arms[n - 1])
    } else {
        arms_behind(arms, records, (n - 1) as nat)
    }
}

fn behind<N, J>(e: &Entrant, v: &Variant, records: &Vec<Report<N, J>>) -> (r: bool)
    ensures
        r == is_behind(*e, *v, records@),
{
    if stale_line(e, v, records).is_some() {
        return true;
    }
    match latest_record(records, e.id(), v.id.as_str()) {
        None => true,
        Some(k) => match (&e.spec.version, &records[k].sut.version) {
            (Some(src), Some(found)) => !src.pinned.as_str().is_empty() && !same(
                found.as_str(),
                src.pinned.as_str(),
            ),
            _ => false,
        },
    }
}

/// The arms that are to be measured again: never measured, measured under another
/// protocol or corpus, or at another version than the pinned one.
pub fn stale_selection<'a, N, J>(arms: Vec<Arm<'a>>, records: &Vec<Report<N, J>>) -> (r: Vec<
    Arm<'a>,
>)
    ensures
        arm_views(r@) == arms_behind(arm_views(arms@), records@, arms@.len()),
{
    let ghost all = arm_views(arms@);
    let mut out: Vec<Arm<'a>> = Vec::new();
    let mut i: usize = 0;
    proof {
        assert(arm_views(out@) =~= arms_behind(all, records@, 0));
    }
    while i < arms.len()
        invariant
            all == arm_views(arms@),
            i <= arms@.len(),
            arm_views(out@) == arms_behind(all, records@, i as nat),
        decreases arms@.len() - i,
    {
        let arm = &arms[i];
        let ghost sofar = arm_views(out@);
        proof {
            assert(all[i as int].entrant == *arm.entrant && all[i as int].variant == *arm.variant);
        }
        if behind(arm.entrant, arm.variant, records) {
            let image: Option<String> = match &arm.image {
                Some(s) => Some(s.clone()),
                None => None,
            };
            out.push(Arm { entrant: arm.entrant, variant: arm.variant, image });
            proof {
                assert(arm_views(out@) =~= sofar.push(all[i as int]));
            }
        }
        i += 1;
    }
    out
}

/// The selectors that the arguments of a run give. With `--stale` none need be given:
/// everything that has fallen behind is then meant.
pub open spec fn run_selectors(args: Seq<Seq<char>>) -> Result<Seq<SelectorView>, Seq<char>> {
    let raw = positional(args, 0);
    if raw.len() > 0 {
        selectors_of(raw, raw.len())
    } else if has_flag(args, "--stale"@, 0) {
        Ok(seq![SelectorView { entrant: "*"@, variant: "*"@, image: None }])
    } else {
        Err("no selector given. Use '*' for everything."@)
    }
}

/// The arms that the arguments of a run choose, or why they are refused.
pub open spec fn selected<N, J>(
    args: Seq<Seq<char>>,
    es: Seq<Entrant>,
    records: Seq<Report<N, J>>,
) -> Result<Seq<ArmView>, Seq<char>> {
    match run_selectors(args) {
        Err(e) => Err(e),
        Ok(sels) => match expanded(es, sels, sels.len()) {
            Err(e) => Err(e),
            Ok(arms) => if has_flag(args, "--stale"@, 0) {
                Ok(arms_behind(arms, records, arms.len()))
            } else {
                Ok(arms)
            },
        },
    }
}

/// The arms of a run: those that the selectors name and, with `--stale`, of these the
/// ones that have fallen behind.
pub fn run_selection<'a, N, J>(
    args: &Vec<String>,
    entrants: &'a Vec<Entrant>,
    records: &Vec<Report<N, J>>,
) -> (r: Result<Vec<Arm<'a>>, String>)
    ensures
        match r {
            Ok(arms) => selected(texts(args@), entrants@, records@) == Ok::<
                Seq<ArmView>,
                Seq<char>,
            >(arm_views(arms@)),
            Err(e) => selected(texts(args@), entrants@, records@) == Err::<
                Seq<ArmView>,
                Seq<char>,
            >(e@),
        },
{
    let stale: bool = flag_given(args, "--stale");
    let selectors = if stale && positionals(args).len() == 0 {
        let all = Selector { entrant: "*".to_owned(), variant: "*".to_owned(), image: None };
        let mut v: Vec<Selector> = Vec::new();
        v.push(all);
        proof {
            assert(positional(texts(args@), 0).len() == 0);
            assert(selector_views(v@) =~= seq![
                SelectorView { entrant: "*"@, variant: "*"@, image: None },
            ]);
        }
        v
    } else {
        match parse_selectors(args) {
            Ok(v) => v,
            Err(e) => return Err(e),
        }
    };
    proof {
        assert(run_selectors(texts(args@)) == Ok::<Seq<SelectorView>, Seq<char>>(
            selector_views(selectors@),
        ));
        assert(selector_views(selectors@).len() == selectors@.len());
    }
    let arms = match expand(entrants, &selectors) {
        Ok(arms) => arms,
        Err(e) => return Err(e),
    };
    proof {
        assert(arm_views(arms@).len() == arms@.len());
    }
    if stale {
        Ok(stale_selection(arms, records))
    } else {
        Ok(arms)
    }
}

proof fn lemma_behind_kept<N, J>(arms: Seq<ArmView>, records: Seq<Report<N, J>>, n: nat, i: int)
    requires
        0 <= i < n <= arms.len(),
        is_behind(arms[i].entrant, arms[i].variant, records),
    ensures
        arms_behind(arms, records, n).contains(arms[i]),
    decreases n,
{
    let sofar = arms_behind(arms, records, (n - 1) as nat);
    let all = arms_behind(arms, records, n);
    if i < n - 1 {
        lemma_behind_kept(arms, records, (n - 1) as nat, i);
        let k = choose|k: int| 0 <= k < sofar.len() && sofar[k] == arms[i];
        assert(all[k] == arms[i]);
    } else {
        assert(all[sofar.len() as int] == arms[i]);
    }
}

/// A run of what is stale measures every chosen arm that has fallen behind, and no
/// other.
pub proof fn law_stale_run_is_exact<N, J>(
    arms: Seq<ArmView>,
    records: Seq<Report<N, J>>,
    n: nat,
)
    requires
        n <= arms.len(),
    ensures
        forall|i: int|
            0 <= i < n && is_behind((#[trigger] arms[i]).entrant, arms[i].variant, records)
                ==> arms_behind(arms, records, n).contains(arms[i]),
        forall|k: int|
            0 <= k < arms_behind(arms, records, n).len() ==> is_behind(
                (#[trigger] arms_behind(arms, records, n)[k]).entrant,
                arms_behind(arms, records, n)[k].variant,
                records,
            ) && arms.take(n as int).contains(arms_behind(arms, records, n)[k]),
    decreases n,
{
    assert forall|i: int|
        0 <= i < n && is_behind(
            (#[trigger] arms[i]).entrant,
            arms[i].variant,
            records,
        ) implies arms_behind(arms, records, n).contains(arms[i]) by {
        lemma_behind_kept(arms, records, n, i);
    }
    if n > 0 {
        law_stale_run_is_exact(arms, records, (n - 1) as nat);
        let sofar = arms_behind(arms, records, (n - 1) as nat);
        let all = arms_behind(arms, records, n);
        assert forall|k: int| 0 <= k < all.len() implies is_behind(
            (#[trigger] all[k]).entrant,
            all[k].variant,
            records,
        ) && arms.take(n as int).contains(all[k]) by {
            if k < sofar.len() {
                assert(all[k] == sofar[k]);
                let before = arms.take(n - 1);
                let i = choose|i: int| 0 <= i < before.len() && before[i] == sofar[k];
                assert(arms.take(n as int)[i] == all[k]);
            } else {
                assert(arms.take(n as int)[n - 1] == all[k]);
            }
        }
    }
}

proof fn lemma_no_stale_variant<N, J>(e: Entrant, records: Seq<Report<N, J>>, n: nat, j: int)
    requires
        stale_variants(e, records, n).len() == 0,
        0 <= j < n,
    ensures
        is_current(e, e.spec.variants@[j], records),
    decreases n,
{
    if j < n - 1 {
        lemma_no_stale_variant(e, records, (n - 1) as nat, j);
    }
}

/// Where nothing is stale, every arm that runs has a current measurement.
pub proof fn law_nothing_stale_means_current<N, J>(
    es: Seq<Entrant>,
    records: Seq<Report<N, J>>,
    n: nat,
    i: int,
    j: int,
)
    requires
        n <= es.len(),
        stale_arms(es, records, n).len() == 0,
        0 <= i < n,
        es[i].spec.entrant.status.runs(),
        0 <= j < es[i].spec.variants@.len(),
    ensures
        is_current(es[i], es[i].spec.variants@[j], records),
    decreases n,
{
    if i < n - 1 {
        law_nothing_stale_means_current(es, records, (n - 1) as nat, i, j);
    } else {
        lemma_no_stale_variant(es[i], records, es[i].spec.variants@.len(), j);
    }
}

// ---------------------------------------------------------------------------
// Building
// ---------------------------------------------------------------------------

/// Arm `i` is the first of its entrant.
pub open spec fn is_first_of_entrant(arms: Seq<Arm>, i: int) -> bool {
    forall|j: int|
        0 <= j < i ==> (#[trigger] arms[j]).entrant.spec.entrant.id@
            != arms[i].entrant.spec.entrant.id@
}

/// Whether an arm's entrant is to be built now: an image is built once for each
/// entrant, since variants differ in environment alone.
pub fn builds(arms: &Vec<Arm>, i: usize) -> (r: bool)
    requires
        i < arms@.len(),
    ensures
        r == is_first_of_entrant(arms@, i as int),
{
    let mut j: usize = 0;
    while j < i
        invariant
            j <= i < arms@.len(),
            forall|k: int|
                0 <= k < j ==> (#[trigger] arms@[k]).entrant.spec.entrant.id@
                    != arms@[i as int].entrant.spec.entrant.id@,
        decreases i - j,
    {
        if same(arms[j].entrant.id(), arms[i].entrant.id()) {
            return false;
        }
        j += 1;
    }
    true
}

/// `--secret` and its source, for each of the first `n` secrets.
pub open spec fn secret_args(secrets: Seq<(String, String)>, n: nat) -> Seq<Seq<char>>
    decreases n,
{
    if n == 0 {
        seq![]
    } else {
        secret_args(secrets, (n - 1) as nat) + seq![
            "--secret"@,
            "id="@ + secrets[n - 1].0@ + ",src="@ + secrets[n - 1].1@,
        ]
    }
}

/// The arguments of `docker` that build an image. A credential is handed over as a
/// build secret, which leaves no trace in the image.
pub fn cmd_build(dockerfile: &str, image: &str, secrets: &Vec<(String, String)>) -> (r: Vec<String>)
    ensures
        texts(r@) == seq!["build"@, "-f"@, dockerfile@, "-t"@, image@] + secret_args(
            secrets@,
            secrets@.len(),
        ) + seq!["."@],
{
    let mut out: Vec<String> = Vec::new();
    note(&mut out, "build".to_owned());
    note(&mut out, "-f".to_owned());
    note(&mut out, dockerfile.to_owned());
    note(&mut out, "-t".to_owned());
    note(&mut out, image.to_owned());
    let ghost head = seq!["build"@, "-f"@, dockerfile@, "-t"@, image@];
    let mut i: usize = 0;
    proof {
        assert(texts(out@) =~= head + secret_args(secrets@, 0));
    }
    while i < secrets.len()
        invariant
            i <= secrets@.len(),
            texts(out@) == head + secret_args(secrets@, i as nat),
        decreases secrets@.len() - i,
    {
        note(&mut out, "--secret".to_owned());
        note(
            &mut out,
            cat4("id=", secrets[i].0.as_str(), ",src=", secrets[i].1.as_str()),
        );
        i += 1;
        proof {
            assert(texts(out@) =~= head + secret_args(secrets@, i as nat));
        }
    }
    note(&mut out, ".".to_owned());
    proof {
        assert(texts(out@) =~= head + secret_args(secrets@, secrets@.len()) + seq!["."@]);
    }
    out
}

/// Where a named build secret is kept, given the home directory.
pub fn credential_file(id: &str, home: Option<&str>) -> (r: Result<String, String>)
    ensures
        match r {
            Ok(p) => id@ == "gitcred"@ && home is Some && p@ == home->Some_0@
                + "/.git-credentials"@,
            Err(e) => if id@ == "gitcred"@ {
                home is None && e@ == "HOME is not set"@
            } else {
                e@ == "unknown build secret "@ + debug_quoted(id@)
            },
        },
{
    if same(id, "gitcred") {
        match home {
            Some(h) => Ok(cat2(h, "/.git-credentials")),
            None => Err("HOME is not set".to_owned()),
        }
    } else {
        Err(cat2("unknown build secret ", quoted(id).as_str()))
    }
}

/// What a retraction is of, and why.
pub open spec fn reason_index(args: Seq<Seq<char>>, i: int) -> int
    decreases args.len() - i,
{
    if i < 0 || i >= args.len() || args[i] == "--reason"@ {
        i
    } else {
        reason_index(args, i + 1)
    }
}

/// The run to retract, and the reason that it must state.
pub fn cmd_retract(args: &Vec<String>) -> (r: Result<(String, String), String>)
    ensures
        ({
            let k = reason_index(texts(args@), 0);
            match r {
                Ok(p) => args@.len() > 0 && k + 1 < args@.len() && p.0@ == args@[0]@ && p.1@
                    == args@[k + 1]@,
                Err(e) => if args@.len() == 0 {
                    e@ == "usage: bench retract <run_id> --reason <text>"@
                } else {
                    k + 1 >= args@.len() && e@
                        == "a retraction must state a reason: --reason <text>"@
                },
            }
        }),
{
    let ghost all = texts(args@);
    if args.len() == 0 {
        return Err("usage: bench retract <run_id> --reason <text>".to_owned());
    }
    let mut i: usize = 0;
    while i < args.len() && !same(args[i].as_str(), "--reason")
        invariant
            all == texts(args@),
            i <= args@.len(),
            reason_index(all, 0) == reason_index(all, i as int),
        decreases args@.len() - i,
    {
        proof {
            assert(all[i as int] == args@[i as int]@);
        }
        i += 1;
    }
    proof {
        assert(all.len() == args@.len());
        if i < args@.len() {
            assert(all[i as int] == args@[i as int]@);
        }
        assert(reason_index(all, 0) == i);
    }
    if i >= args.len() || i + 1 >= args.len() {
        return Err("a retraction must state a reason: --reason <text>".to_owned());
    }
    Ok((args[0].clone(), args[i + 1].clone()))
}

// ---------------------------------------------------------------------------
// Laws on the command line
// ---------------------------------------------------------------------------

/// Every subcommand is known by its own name, and help by three.
pub proof fn law_commands_have_their_names()
    ensures
        command_of("list"@) == Some(Command::List),
        command_of("validate"@) == Some(Command::Validate),
        command_of("build"@) == Some(Command::Build),
        command_of("stale"@) == Some(Command::Stale),
        command_of("retract"@) == Some(Command::Retract),
        command_of("prefill"@) == Some(Command::Prefill),
        command_of("ceiling"@) == Some(Command::Ceiling),
        command_of("run"@) == Some(Command::Run),
        command_of("help"@) == Some(Command::Help),
        command_of("--help"@) == Some(Command::Help),
        command_of("-h"@) == Some(Command::Help),
{
    reveal_strlit("list");
    reveal_strlit("validate");
    reveal_strlit("build");
    reveal_strlit("stale");
    reveal_strlit("retract");
    reveal_strlit("prefill");
    reveal_strlit("ceiling");
    reveal_strlit("run");
    reveal_strlit("help");
    reveal_strlit("--help");
    reveal_strlit("-h");
    assert("list"@.len() == 4);
    assert("validate"@.len() == 8);
    assert("build"@.len() == 5);
    assert("stale"@.len() == 5);
    assert("retract"@.len() == 7);
    assert("prefill"@.len() == 7);
    assert("ceiling"@.len() == 7);
    assert("run"@.len() == 3);
    assert("help"@.len() == 4);
    assert("--help"@.len() == 6);
    assert("-h"@.len() == 2);
    assert("list"@[0] == 'l' && "help"@[0] == 'h');
    assert("build"@[0] == 'b' && "stale"@[0] == 's');
    assert("retract"@[0] == 'r' && "prefill"@[0] == 'p' && "ceiling"@[0] == 'c');
}

/// A trigger is known by its own name, and no other name is one.
pub proof fn law_triggers_have_their_names(s: Seq<char>)
    ensures
        trigger_of("nightly"@) == Some(Trigger::Nightly),
        trigger_of("manual"@) == Some(Trigger::Manual),
        trigger_of("pr"@) == Some(Trigger::Pr),
        trigger_of("release"@) == Some(Trigger::Release),
        trigger_of(s) is Some ==> s == "nightly"@ || s == "manual"@ || s == "pr"@ || s == "release"@,
        trigger_of(s) != Some(Trigger::Tuning),
{
    reveal_strlit("nightly");
    reveal_strlit("manual");
    reveal_strlit("pr");
    reveal_strlit("release");
    assert("nightly"@.len() == 7);
    assert("manual"@.len() == 6);
    assert("pr"@.len() == 2);
    assert("release"@.len() == 7);
    assert("nightly"@[0] == 'n' && "release"@[0] == 'r');
}

/// Without flags a run is three manual repetitions of the whole corpus on the usual topic,
/// in the environment that it was given, and nothing else was asked for.
pub proof fn law_defaults_of_a_run(env_id: Seq<char>)
    ensures
        ({
            let o = default_options(env_id);
            &&& options_from(seq![], 0, o) == Ok::<OptionsView, Seq<char>>(o)
            &&& o.reps == 3
            &&& o.mode == Mode::Drain
            &&& o.env_id == env_id
            &&& o.trigger == Trigger::Manual
            &&& !o.dry_run && !o.reuse_infra && !o.fail_fast
            &&& o.topic == "comparison-sensor-batches"@
            &&& o.batches == 1_500_000
        }),
{
}

proof fn lemma_flags_differ()
    ensures
        "--env"@ != "--reps"@ && "--topic"@ != "--reps"@ && "--topic"@ != "--env"@,
        "--batches"@ != "--reps"@ && "--batches"@ != "--env"@ && "--batches"@ != "--topic"@,
        "--trigger"@ != "--reps"@ && "--trigger"@ != "--env"@ && "--trigger"@ != "--topic"@,
        "--trigger"@ != "--batches"@,
        !takes_value("--dry-run"@) && !takes_value("--reuse-infra"@) && !takes_value(
            "--fail-fast"@,
        ) && !takes_value("--stale"@),
        "--reuse-infra"@ != "--dry-run"@ && "--fail-fast"@ != "--dry-run"@ && "--stale"@
            != "--dry-run"@,
        "--fail-fast"@ != "--reuse-infra"@ && "--stale"@ != "--reuse-infra"@ && "--stale"@
            != "--fail-fast"@,
{
    reveal_strlit("--reps");
    reveal_strlit("--env");
    reveal_strlit("--topic");
    reveal_strlit("--batches");
    reveal_strlit("--trigger");
    reveal_strlit("--dry-run");
    reveal_strlit("--reuse-infra");
    reveal_strlit("--fail-fast");
    reveal_strlit("--stale");
    assert("--reps"@.len() == 6);
    assert("--env"@.len() == 5);
    assert("--topic"@.len() == 7);
    assert("--batches"@.len() == 9);
    assert("--trigger"@.len() == 9);
    assert("--dry-run"@.len() == 9);
    assert("--reuse-infra"@.len() == 13);
    assert("--fail-fast"@.len() == 11);
    assert("--stale"@.len() == 7);
    assert("--batches"@[2] == 'b' && "--trigger"@[2] == 't' && "--dry-run"@[2] == 'd');
    assert("--topic"@[2] == 't' && "--stale"@[2] == 's');
}

/// A flag with a value sets the option of its own name to that value, and no other: the
/// repetitions, the environment, the topic, the size of the corpus, the trigger. A value
/// that is none is refused.
pub proof fn law_flag_sets_its_own_option(o: OptionsView, v: Seq<char>)
    ensures
        match with_value(o, "--reps"@, v) {
            Ok(p) => parsed_nat(v, 0xffff_ffff) == Some(p.reps as nat) && p == (OptionsView {
                reps: p.reps,
                ..o
            }),
            Err(_) => parsed_nat(v, 0xffff_ffff) is None,
        },
        with_value(o, "--env"@, v) == Ok::<OptionsView, Seq<char>>(OptionsView { env_id: v, ..o }),
        with_value(o, "--topic"@, v) == Ok::<OptionsView, Seq<char>>(OptionsView { topic: v, ..o }),
        match with_value(o, "--batches"@, v) {
            Ok(p) => parsed_nat(v, 0xffff_ffff_ffff_ffff) == Some(p.batches as nat) && p == (
            OptionsView { batches: p.batches, ..o }),
            Err(_) => parsed_nat(v, 0xffff_ffff_ffff_ffff) is None,
        },
        match with_value(o, "--trigger"@, v) {
            Ok(p) => trigger_of(v) == Some(p.trigger) && p == (OptionsView {
                trigger: p.trigger,
                ..o
            }),
            Err(_) => trigger_of(v) is None,
        },
{
    lemma_flags_differ();
}

proof fn lemma_options_shift(args: Seq<Seq<char>>, pre: Seq<Seq<char>>, i: int, o: OptionsView)
    requires
        0 <= i <= args.len(),
    ensures
        options_from(pre + args, pre.len() + i, o) == options_from(args, i, o),
    decreases args.len() - i,
{
    let all = pre + args;
    let k = pre.len() + i;
    if i < args.len() {
        assert(all[k] == args[i]);
        if i + 1 < args.len() {
            assert(all[k + 1] == args[i + 1]);
        }
        if !begins(args[i], "-"@) {
            lemma_options_shift(args, pre, i + 1, o);
        } else if takes_value(args[i]) {
            if i + 1 < args.len() {
                if let Ok(next) = with_value(o, args[i], args[i + 1]) {
                    lemma_options_shift(args, pre, i + 2, next);
                }
            }
        } else {
            lemma_options_shift(args, pre, i + 1, o);
            lemma_options_shift(args, pre, i + 1, OptionsView { dry_run: true, ..o });
            lemma_options_shift(args, pre, i + 1, OptionsView { reuse_infra: true, ..o });
            lemma_options_shift(args, pre, i + 1, OptionsView { fail_fast: true, ..o });
        }
    }
}

proof fn lemma_flags_begin()
    ensures
        begins("--reps"@, "-"@) && begins("--env"@, "-"@) && begins("--topic"@, "-"@),
        begins("--batches"@, "-"@) && begins("--trigger"@, "-"@) && begins("--dry-run"@, "-"@),
        begins("--reuse-infra"@, "-"@) && begins("--fail-fast"@, "-"@) && begins("--stale"@, "-"@),
{
    reveal_strlit("-");
    reveal_strlit("--reps");
    reveal_strlit("--env");
    reveal_strlit("--topic");
    reveal_strlit("--batches");
    reveal_strlit("--trigger");
    reveal_strlit("--dry-run");
    reveal_strlit("--reuse-infra");
    reveal_strlit("--fail-fast");
    reveal_strlit("--stale");
    assert("--reps"@.take(1) =~= "-"@);
    assert("--env"@.take(1) =~= "-"@);
    assert("--topic"@.take(1) =~= "-"@);
    assert("--batches"@.take(1) =~= "-"@);
    assert("--trigger"@.take(1) =~= "-"@);
    assert("--dry-run"@.take(1) =~= "-"@);
    assert("--reuse-infra"@.take(1) =~= "-"@);
    assert("--fail-fast"@.take(1) =~= "-"@);
    assert("--stale"@.take(1) =~= "-"@);
}

/// Arguments are read one after the other: a flag with its value changes what the rest
/// starts from; a flag without one sets its own switch; an argument that is no flag changes
/// nothing; and a flag that is not known, or that lacks its value, is refused.
pub proof fn law_arguments_are_read_in_turn(
    a: Seq<char>,
    v: Seq<char>,
    rest: Seq<Seq<char>>,
    o: OptionsView,
)
    ensures
        takes_value(a) ==> options_from(seq![a, v] + rest, 0, o) == match with_value(o, a, v) {
            Ok(next) => options_from(rest, 0, next),
            Err(e) => Err(e),
        },
        takes_value(a) ==> options_from(seq![a], 0, o) is Err,
        options_from(seq!["--dry-run"@] + rest, 0, o) == options_from(
            rest,
            0,
            OptionsView { dry_run: true, ..o },
        ),
        options_from(seq!["--reuse-infra"@] + rest, 0, o) == options_from(
            rest,
            0,
            OptionsView { reuse_infra: true, ..o },
        ),
        options_from(seq!["--fail-fast"@] + rest, 0, o) == options_from(
            rest,
            0,
            OptionsView { fail_fast: true, ..o },
        ),
        options_from(seq!["--stale"@] + rest, 0, o) == options_from(rest, 0, o),
        !begins(a, "-"@) ==> options_from(seq![a] + rest, 0, o) == options_from(rest, 0, o),
        begins(a, "-"@) && !takes_value(a) && a != "--dry-run"@ && a != "--reuse-infra"@ && a
            != "--fail-fast"@ && a != "--stale"@ ==> options_from(seq![a] + rest, 0, o) is Err,
{
    lemma_flags_differ();
    lemma_flags_begin();
    let two = seq![a, v];
    let (all, one) = (two + rest, seq![a] + rest);
    assert(all[0] == a && all[1] == v && one[0] == a);
    if let Ok(next) = with_value(o, a, v) {
        lemma_options_shift(rest, two, 0, next);
    }
    lemma_options_shift(rest, seq![a], 0, o);
    let d = seq!["--dry-run"@];
    assert((d + rest)[0] == "--dry-run"@);
    lemma_options_shift(rest, d, 0, OptionsView { dry_run: true, ..o });
    let r = seq!["--reuse-infra"@];
    assert((r + rest)[0] == "--reuse-infra"@);
    lemma_options_shift(rest, r, 0, OptionsView { reuse_infra: true, ..o });
    let f = seq!["--fail-fast"@];
    assert((f + rest)[0] == "--fail-fast"@);
    lemma_options_shift(rest, f, 0, OptionsView { fail_fast: true, ..o });
    let s = seq!["--stale"@];
    assert((s + rest)[0] == "--stale"@);
    lemma_options_shift(rest, s, 0, o);
}

proof fn lemma_positional_shift(args: Seq<Seq<char>>, pre: Seq<Seq<char>>, i: int)
    requires
        0 <= i <= args.len(),
    ensures
        positional(pre + args, pre.len() + i) == positional(args, i),
    decreases args.len() - i,
{
    let all = pre + args;
    if i < args.len() {
        assert(all[pre.len() + i] == args[i]);
        lemma_positional_shift(args, pre, i + 1);
        if i + 1 < args.len() {
            lemma_positional_shift(args, pre, i + 2);
        }
    }
}

/// Selectors are the arguments that are neither flags nor the values of flags, in order.
pub proof fn law_selectors_are_what_is_no_flag(a: Seq<char>, v: Seq<char>, rest: Seq<Seq<char>>)
    ensures
        !begins(a, "-"@) ==> positional(seq![a] + rest, 0) == seq![a] + positional(rest, 0),
        takes_value(a) ==> positional(seq![a, v] + rest, 0) == positional(rest, 0),
        begins(a, "-"@) && !takes_value(a) ==> positional(seq![a] + rest, 0) == positional(rest, 0),
        positional(seq![], 0).len() == 0,
{
    lemma_flags_begin();
    let (all, one) = (seq![a, v] + rest, seq![a] + rest);
    assert(all[0] == a && one[0] == a);
    lemma_positional_shift(rest, seq![a, v], 0);
    lemma_positional_shift(rest, seq![a], 0);
}

/// A variant is current exactly where its latest record is of the current protocol and of
/// the current corpus; and it has moved on exactly where its entrant pins a version and the
/// record is of another.
pub proof fn law_current_is_by_protocol_and_corpus<N, J>(
    e: Entrant,
    v: Variant,
    records: Seq<Report<N, J>>,
    k: int,
)
    requires
        latest(records, e.spec.entrant.id@, v.id@, records.len()) == Some(k),
    ensures
        is_current(e, v, records) <==> records[k].run.harness_version == HARNESS_VERSION
            && records[k].run.dataset_version@ == DATASET_VERSION@,
        is_behind(e, v, records) <==> !is_current(e, v, records) || (e.spec.version is Some
            && e.spec.version->Some_0.pinned@.len() > 0 && records[k].sut.version is Some
            && records[k].sut.version->Some_0@ != e.spec.version->Some_0.pinned@),
{
}

/// A variant that was never measured is not current, and is measured again.
pub proof fn law_never_measured_is_stale<N, J>(e: Entrant, v: Variant, records: Seq<Report<N, J>>)
    requires
        forall|i: int|
            0 <= i < records.len() ==> (#[trigger] records[i]).sut.entrant@ != e.spec.entrant.id@
                || records[i].sut.variant_id@ != v.id@,
    ensures
        !is_current(e, v, records),
        is_behind(e, v, records),
        stale_text(e, v, records) == e.spec.entrant.id@ + ":"@ + v.id@ + " — never measured"@,
        when_text(e, v, records) == "never measured"@,
{
    law_latest_is_latest(records, e.spec.entrant.id@, v.id@, records.len());
}

/// A listing says of a variant the day of its latest record.
pub proof fn law_listing_dates_the_latest<N, J>(
    e: Entrant,
    v: Variant,
    records: Seq<Report<N, J>>,
    k: int,
)
    requires
        0 <= k < records.len(),
        records[k].sut.entrant@ == e.spec.entrant.id@,
        records[k].sut.variant_id@ == v.id@,
        forall|i: int|
            0 <= i < records.len() && i != k && (#[trigger] records[i]).sut.entrant@
                == e.spec.entrant.id@ && records[i].sut.variant_id@ == v.id@
                ==> records[i].run.ts_ms < records[k].run.ts_ms,
    ensures
        when_text(e, v, records) == "last "@ + day_text(
            date_of(records[k].run.ts_ms as int / 86_400_000),
        ),
        latest(records, e.spec.entrant.id@, v.id@, records.len()) == Some(k),
{
    let (a, b) = (e.spec.entrant.id@, v.id@);
    law_latest_is_latest(records, a, b, records.len());
    assert(is_record_of(records[k], a, b));
    let m = latest(records, a, b, records.len())->Some_0;
    assert(is_record_of(records[m], a, b));
}

/// A listing gives each entrant its line and, if it is not planned, a line for each of its
/// variants, in order.
pub proof fn law_listing_has_a_line_for_each<N, J>(
    e: Entrant,
    records: Seq<Report<N, J>>,
    n: nat,
    i: int,
)
    requires
        n <= e.spec.variants@.len(),
        0 <= i < n,
    ensures
        variant_lines(e, records, n).len() == n,
        variant_lines(e, records, n)[i] == variant_line(e, e.spec.variants@[i], records),
        entrant_lines(e, records).len() > 0,
        begins(entrant_lines(e, records)[0], e.spec.entrant.id@),
        begins(variant_line(e, e.spec.variants@[i], records), "    "@ + e.spec.variants@[i].id@),
    decreases n,
{
    lemma_variant_lines(e, records, (n - 1) as nat);
    if i < n - 1 {
        law_listing_has_a_line_for_each(e, records, (n - 1) as nat, i);
    }
    let id = e.spec.entrant.id@;
    let head = entrant_lines(e, records)[0];
    law_padding_adds_spaces(id, 24);
    assert(padded(id, 24).take(id.len() as int) == id);
    assert(head.take(id.len() as int) =~= padded(id, 24).take(id.len() as int));
    let v = e.spec.variants@[i];
    law_padding_adds_spaces(v.id@, 28);
    let line = variant_line(e, v, records);
    let want = "    "@ + v.id@;
    assert(padded(v.id@, 28).take(v.id@.len() as int) == v.id@);
    assert(line.take(want.len() as int) =~= "    "@ + padded(v.id@, 28).take(v.id@.len() as int));
}

proof fn lemma_variant_lines<N, J>(e: Entrant, records: Seq<Report<N, J>>, n: nat)
    ensures
        variant_lines(e, records, n).len() == n,
    decreases n,
{
    if n > 0 {
        lemma_variant_lines(e, records, (n - 1) as nat);
    }
}

/// A build is given its dockerfile, its tag, each secret with the file it is in, and the
/// directory that it is run in.
pub proof fn law_build_names_its_secrets(secrets: Seq<(String, String)>, n: nat, i: int)
    requires
        n <= secrets.len(),
        0 <= i < n,
    ensures
        secret_args(secrets, n).len() == 2 * n,
        secret_args(secrets, n)[2 * i] == "--secret"@,
        secret_args(secrets, n)[2 * i + 1] == "id="@ + secrets[i].0@ + ",src="@ + secrets[i].1@,
    decreases n,
{
    let m = (n - 1) as nat;
    lemma_secret_len(secrets, m);
    let (a, b) = (secret_args(secrets, m), secret_args(secrets, n));
    if i < m {
        law_build_names_its_secrets(secrets, m, i);
        assert(b[2 * i] == a[2 * i] && b[2 * i + 1] == a[2 * i + 1]);
    } else {
        assert(b[2 * i] == "--secret"@);
    }
}

proof fn lemma_secret_len(secrets: Seq<(String, String)>, n: nat)
    ensures
        secret_args(secrets, n).len() == 2 * n,
    decreases n,
{
    if n > 0 {
        lemma_secret_len(secrets, (n - 1) as nat);
    }
}

/// The reason of a retraction stands behind the first `--reason`.
pub proof fn law_reason_follows_its_flag(args: Seq<Seq<char>>, from: int)
    requires
        0 <= from <= args.len(),
    ensures
        from <= reason_index(args, from) <= args.len(),
        reason_index(args, from) < args.len() ==> args[reason_index(args, from)] == "--reason"@,
        forall|j: int| from <= j < reason_index(args, from) ==> #[trigger] args[j] != "--reason"@,
    decreases args.len() - from,
{
    if from < args.len() && args[from] != "--reason"@ {
        law_reason_follows_its_flag(args, from + 1);
    }
}

/// Without a name there must be exactly one profile.
pub proof fn law_environment_is_never_guessed(ids: Seq<Seq<char>>)
    ensures
        env_refusal(ids) is None <==> ids.len() == 1,
{
}

/// Every argument that is no flag is read as a selector, in order; the first that is none
/// is refused.
pub proof fn law_every_selector_is_read(raw: Seq<Seq<char>>, n: nat, i: int)
    requires
        n <= raw.len(),
        0 <= i < n,
        selectors_of(raw, n) is Ok,
    ensures
        selectors_of(raw, n)->Ok_0.len() == n,
        parsed_selector(raw[i]) == Ok::<SelectorView, Seq<char>>(selectors_of(raw, n)->Ok_0[i]),
    decreases n,
{
    lemma_selectors_len(raw, (n - 1) as nat);
    if i < n - 1 {
        law_every_selector_is_read(raw, (n - 1) as nat, i);
    }
}

proof fn lemma_selectors_len(raw: Seq<Seq<char>>, n: nat)
    requires
        selectors_of(raw, n) is Ok,
    ensures
        selectors_of(raw, n)->Ok_0.len() == n,
    decreases n,
{
    if n > 0 {
        lemma_selectors_len(raw, (n - 1) as nat);
    }
}

proof fn lemma_flag_shift(args: Seq<Seq<char>>, pre: Seq<Seq<char>>, flag: Seq<char>, i: int)
    requires
        0 <= i <= args.len(),
    ensures
        has_flag(pre + args, flag, pre.len() + i) == has_flag(args, flag, i),
    decreases args.len() - i,
{
    if i < args.len() {
        assert((pre + args)[pre.len() + i] == args[i]);
        lemma_flag_shift(args, pre, flag, i + 1);
        if i + 1 < args.len() {
            lemma_flag_shift(args, pre, flag, i + 2);
        }
    }
}

/// A flag is given where it stands as an argument of its own; a value that looks like it is
/// none.
pub proof fn law_value_of_a_flag_is_no_flag(
    a: Seq<char>,
    v: Seq<char>,
    rest: Seq<Seq<char>>,
    flag: Seq<char>,
)
    ensures
        has_flag(seq![flag] + rest, flag, 0),
        takes_value(a) && a != flag ==> has_flag(seq![a, v] + rest, flag, 0) == has_flag(
            rest,
            flag,
            0,
        ),
        !takes_value(a) && a != flag ==> has_flag(seq![a] + rest, flag, 0) == has_flag(rest, flag, 0),
        !has_flag(seq![], flag, 0),
{
    let (all, one) = (seq![a, v] + rest, seq![a] + rest);
    assert((seq![flag] + rest)[0] == flag);
    assert(all[0] == a && one[0] == a);
    lemma_flag_shift(rest, seq![a, v], flag, 0);
    lemma_flag_shift(rest, seq![a], flag, 0);
}

/// A run without `--stale` measures what its selectors expand to; with it, those of them
/// that have fallen behind; and with it alone, all that have.
pub proof fn law_run_measures_what_is_selected<N, J>(
    args: Seq<Seq<char>>,
    es: Seq<Entrant>,
    records: Seq<Report<N, J>>,
)
    ensures
        ({
            let raw = positional(args, 0);
            let stale = has_flag(args, "--stale"@, 0);
            let every = seq![SelectorView { entrant: "*"@, variant: "*"@, image: None }];
            &&& raw.len() == 0 && !stale ==> selected(args, es, records) is Err
            &&& raw.len() > 0 && !stale && selectors_of(raw, raw.len()) is Ok ==> selected(
                args,
                es,
                records,
            ) == expanded(es, selectors_of(raw, raw.len())->Ok_0, raw.len())
            &&& raw.len() == 0 && stale && expanded(es, every, 1) is Ok ==> selected(
                args,
                es,
                records,
            ) == Ok::<Seq<ArmView>, Seq<char>>(
                arms_behind(
                    expanded(es, every, 1)->Ok_0,
                    records,
                    expanded(es, every, 1)->Ok_0.len(),
                ),
            )
        }),
{
    let raw = positional(args, 0);
    if raw.len() > 0 && selectors_of(raw, raw.len()) is Ok {
        lemma_selectors_len(raw, raw.len());
    }
}

/// Each stale variant of an entrant has its line, and no other has one.
pub proof fn law_stale_lines_are_of_stale_variants<N, J>(
    e: Entrant,
    records: Seq<Report<N, J>>,
    n: nat,
)
    requires
        n < e.spec.variants@.len(),
    ensures
        is_current(e, e.spec.variants@[n as int], records) ==> stale_variants(e, records, n + 1)
            == stale_variants(e, records, n),
        !is_current(e, e.spec.variants@[n as int], records) ==> stale_variants(e, records, n + 1)
            == stale_variants(e, records, n).push(
            stale_text(e, e.spec.variants@[n as int], records),
        ),
        begins(
            stale_text(e, e.spec.variants@[n as int], records),
            e.spec.entrant.id@ + ":"@ + e.spec.variants@[n as int].id@,
        ),
{
    let v = e.spec.variants@[n as int];
    let arm = e.spec.entrant.id@ + ":"@ + v.id@;
    let t = stale_text(e, v, records);
    assert(t.take(arm.len() as int) =~= arm);
    assert(stale_variants(e, records, n + 1) =~= if is_current(e, v, records) {
        stale_variants(e, records, n)
    } else {
        stale_variants(e, records, n).push(t)
    });
}

/// Only entrants that run can be stale, each with its own variants, in order.
pub proof fn law_stale_arms_are_of_entrants_that_run<N, J>(
    es: Seq<Entrant>,
    records: Seq<Report<N, J>>,
    n: nat,
)
    requires
        n < es.len(),
    ensures
        ({
            let e = es[n as int];
            let runs = e.spec.entrant.status == Status::Active || e.spec.entrant.status
                == Status::Historical;
            &&& runs ==> stale_arms(es, records, n + 1) == stale_arms(es, records, n)
                + stale_variants(e, records, e.spec.variants@.len())
            &&& !runs ==> stale_arms(es, records, n + 1) == stale_arms(es, records, n)
            &&& stale_arms(es, records, 0).len() == 0
        }),
{
    assert(stale_arms(es, records, n) + Seq::<Seq<char>>::empty() =~= stale_arms(es, records, n));
}

/// A listing names every entrant in order, each with its own lines; a planned one says what
/// blocks it and lists no variant.
pub proof fn law_listing_names_every_entrant<N, J>(
    es: Seq<Entrant>,
    records: Seq<Report<N, J>>,
    n: nat,
)
    requires
        n < es.len(),
    ensures
        ({
            let e = es[n as int];
            &&& listing(es, records, n + 1) == listing(es, records, n) + entrant_lines(e, records)
            &&& e.spec.entrant.status != Status::Planned ==> entrant_lines(e, records).len() == 1
                + e.spec.variants@.len()
            &&& e.spec.entrant.status == Status::Planned ==> entrant_lines(e, records).len() <= 2
        }),
{
    lemma_variant_lines(es[n as int], records, es[n as int].spec.variants@.len());
}

/// A stale variant is told by what it is behind in: the protocol first, with the version it
/// was measured under before the current one, and then the corpus.
pub proof fn law_stale_line_tells_what_is_behind<N, J>(
    e: Entrant,
    v: Variant,
    records: Seq<Report<N, J>>,
    k: int,
)
    requires
        latest(records, e.spec.entrant.id@, v.id@, records.len()) == Some(k),
    ensures
        ({
            let run = records[k].run;
            let arm = e.spec.entrant.id@ + ":"@ + v.id@;
            &&& run.harness_version != HARNESS_VERSION ==> stale_text(e, v, records) == arm
                + " — harness v"@ + decimal(run.harness_version as nat) + " (current v"@ + decimal(
                HARNESS_VERSION as nat,
            ) + "); not comparable"@
            &&& run.harness_version == HARNESS_VERSION ==> stale_text(e, v, records) == arm
                + " — dataset "@ + run.dataset_version@ + " (current "@ + DATASET_VERSION@
                + "); not comparable"@
        }),
{
}

/// Of records that are equally late, the last one counts: every record of the variant that
/// follows the latest is earlier than it, and none before it is later.
pub proof fn law_latest_is_the_last_of_its_time<N, J>(
    records: Seq<Report<N, J>>,
    entrant: Seq<char>,
    variant: Seq<char>,
    n: nat,
    i: int,
)
    requires
        n <= records.len(),
        0 <= i < n,
        records[i].sut.entrant@ == entrant,
        records[i].sut.variant_id@ == variant,
    ensures
        ({
            let k = latest(records, entrant, variant, n);
            &&& k is Some && 0 <= k->Some_0 < n
            &&& i < k->Some_0 ==> records[i].run.ts_ms <= records[k->Some_0].run.ts_ms
            &&& i > k->Some_0 ==> records[i].run.ts_ms < records[k->Some_0].run.ts_ms
            &&& records[k->Some_0].sut.entrant@ == entrant
            &&& records[k->Some_0].sut.variant_id@ == variant
        }),
    decreases n,
{
    law_latest_is_latest(records, entrant, variant, n);
    assert(is_record_of(records[i], entrant, variant));
    if i < n - 1 {
        law_latest_is_the_last_of_its_time(records, entrant, variant, (n - 1) as nat, i);
    } else {
        law_latest_is_latest(records, entrant, variant, (n - 1) as nat);
    }
}

/// A line of a listing, column by column: an entrant's id, lifecycle, runtime and name, with
/// a mark where its vendor runs it; a variant's id, approach and last day, with a mark where
/// it is the default; and of what keeps a planned one from running, the first line.
pub proof fn law_columns_of_a_listing<N, J>(e: Entrant, v: Variant, records: Seq<Report<N, J>>)
    ensures
        ({
            let n = e.spec.entrant;
            let head = padded(n.id@, 24) + " "@ + padded(status_text(n.status), 11) + " "@ + padded(
                n.runtime@,
                7,
            ) + " "@ + n.name@;
            &&& n.vendor@ == "self"@ ==> entrant_line(e) == head + "  [vendor-run]"@
            &&& n.vendor@ != "self"@ ==> entrant_line(e) == head
        }),
        ({
            let line = "    "@ + padded(v.id@, 28) + " "@ + padded(approach_text(v), 10) + " "@
                + when_text(e, v, records);
            &&& v.default ==> variant_line(e, v, records) == line + " (default)"@
            &&& !v.default ==> variant_line(e, v, records) == line
        }),
        e.spec.entrant.status == Status::Planned && e.spec.planned is Some ==> {
            let why = trimmed(e.spec.planned->Some_0.blockers@);
            &&& entrant_lines(e, records).len() == 2
            &&& lines_of(why).len() > 0 ==> entrant_lines(e, records)[1] == "    blocked: "@
                + lines_of(why)[0]
        },
        status_text(Status::Active) == "active"@,
        status_text(Status::Planned) == "planned"@,
        status_text(Status::Historical) == "historical"@,
        status_text(Status::Withdrawn) == "withdrawn"@,
{
    reveal_strlit("");
    let n = e.spec.entrant;
    let head = padded(n.id@, 24) + " "@ + padded(status_text(n.status), 11) + " "@ + padded(
        n.runtime@,
        7,
    ) + " "@ + n.name@;
    assert(entrant_line(e) =~= head + (if n.vendor@ == "self"@ {
        "  [vendor-run]"@
    } else {
        ""@
    }));
    assert(head + ""@ =~= head);
    let line = "    "@ + padded(v.id@, 28) + " "@ + padded(approach_text(v), 10) + " "@ + when_text(
        e,
        v,
        records,
    );
    assert(line + ""@ =~= line);
}

/// Several environments are told by their names, in order, whatever order they were found
/// in; none is told as none.
pub proof fn law_environments_are_told_in_order(ids: Seq<Seq<char>>)
    ensures
        ids.len() == 0 ==> env_refusal(ids) == Some("no environment profiles in environments/"@),
        ids.len() > 1 ==> env_refusal(ids) is Some && begins(
            env_refusal(ids)->Some_0,
            "several environments exist ("@ + joined(in_order(ids, ids.len()), ", "@),
        ),
{
    if ids.len() > 1 {
        let head = "several environments exist ("@ + joined(in_order(ids, ids.len()), ", "@);
        assert(env_refusal(ids)->Some_0.take(head.len() as int) =~= head);
    }
}

} // verus!
