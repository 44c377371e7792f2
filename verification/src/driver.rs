//! Running arms: what is about to run, under what configuration, when a run is
//! over, and what is recorded of it.
use vstd::prelude::*;
use crate::corpus::{opt_text, Tier, EVENTS_PER_BATCH};
use crate::entrant::{
    data_plane_of, debug_quoted, knob_violations, memory_of, parse_memory, quoted, violations, Container, Entrant,
    Knob, Role, Variant,
};
use crate::environment::{Class, Environment, HEADROOM_LIMIT};
use crate::gates::Gates;
use crate::infra::Endpoints;
use crate::report::{
    flagged, is_run_id, Flag, Kind, Metric, Report, RunMeta, Status, Sut, Trigger, SCHEMA_VERSION,
};
use crate::sampler::SutSpec;
use crate::select::Arm;
use crate::table::{
    as_text, ascending, inserted, is_less, law_lookup_finds_its_key, lemma_insert,
    lemma_less_irreflexive, lemma_lookup_mapped, lemma_lookup_take, lemma_mapped_insert, lookup,
    mapped, text_entries, Table,
};
use crate::text::{
    begins, cat2, cat3, cat4, cat5, cat6, cat7, chars_of, contains, dec, dec_int, decimal,
    decimal_int, ends, ends_with, find_char, first_of, is_digit, join, joined,
    law_integers_are_plain, law_replace_goes_on_behind, law_replace_needs_an_occurrence,
    lemma_first_of, lemma_first_of_is, lines, lines_of, note, occurs, parse_u64, parsed_nat, piece,
    replace, replaced, same, split, split_at_each, stands_at, strip_prefix, texts, trim, trimmed,
    words, words_of,
};

verus! {

/// How the arm is loaded.
#[derive(Clone, Copy, Debug, PartialEq, Eq, Structural)]
pub enum Mode {
    /// Replay a prefilled topic to exhaustion and time the whole drain.
    Drain,
}

/// Everything a run was asked to do.
#[derive(Clone, Debug)]
pub struct RunOptions {
    /// Repetitions per arm.
    pub reps: u32,
    pub mode: Mode,
    /// Environment id.
    pub env_id: String,
    /// What caused the run.
    pub trigger: Trigger,
    /// Print the plan and stop.
    pub dry_run: bool,
    /// Reuse running infrastructure rather than recreating it.
    pub reuse_infra: bool,
    /// Abandon the sweep on the first refusal.
    pub fail_fast: bool,
    /// Topic to consume.
    pub topic: String,
    /// Corpus size, in messages.
    pub batches: u64,
}

/// Seconds a drain may take before it is abandoned.
pub const DRAIN_MAX_S: u64 = 1800;

/// Seconds to wait for the pipeline to settle before gating.
pub const QUIESCE_MAX_S: u64 = 900;

/// Batches the correctness gate examines, from the top of the range down.
pub const GATE_MAX_BATCHES: u64 = 100_000;

/// Unchanged polls in a row after which a pipeline has settled.
pub const STABLE_POLLS: u32 = 3;

// ---------------------------------------------------------------------------
// Versions
// ---------------------------------------------------------------------------

/// What an arm says of itself.
#[derive(Clone, Debug)]
pub struct Version {
    pub version: Option<String>,
    pub commit: Option<String>,
    pub toolchain: Option<String>,
}

/// What a [`Version`] says.
pub struct VersionView {
    pub version: Option<Seq<char>>,
    pub commit: Option<Seq<char>>,
    pub toolchain: Option<Seq<char>>,
}

impl Version {
    pub open spec fn view(&self) -> VersionView {
        VersionView {
            version: opt_text(self.version),
            commit: opt_text(self.commit),
            toolchain: opt_text(self.toolchain),
        }
    }
}

pub open spec fn is_version_char(c: char) -> bool {
    is_digit(c) || 'a' <= c <= 'z' || 'A' <= c <= 'Z' || c == '.' || c == '-'
}

/// A word that looks like a version: it begins with a digit, has a dot, and is made
/// of letters, digits, dots and hyphens.
pub open spec fn is_version_word(t: Seq<char>) -> bool {
    &&& t.len() > 0 && is_digit(t[0])
    &&& first_of(t, '.') < t.len()
    &&& forall|i: int| 0 <= i < t.len() ==> is_version_char(#[trigger] t[i])
}

/// The first version among the words from `i` on.
pub open spec fn first_version(w: Seq<Seq<char>>, i: int) -> Option<Seq<char>>
    decreases w.len() - i,
{
    if i < 0 || i >= w.len() {
        None
    } else if is_version_word(w[i]) {
        Some(w[i])
    } else {
        first_version(w, i + 1)
    }
}

pub open spec fn is_commit_char(c: char) -> bool {
    is_digit(c) || 'a' <= c <= 'f' || 'A' <= c <= 'F'
}

pub open spec fn is_commit(t: Seq<char>) -> bool {
    t.len() >= 7 && forall|i: int| 0 <= i < t.len() ==> is_commit_char(#[trigger] t[i])
}

/// The commit in the first parentheses of a line.
pub open spec fn commit_in(line: Seq<char>) -> Option<Seq<char>> {
    let open = first_of(line, '(') as int;
    let rest = line.skip(open);
    let close = first_of(rest, ')') as int;
    if open >= line.len() || close >= rest.len() {
        None
    } else if is_commit(rest.subrange(1, close)) {
        Some(rest.subrange(1, close))
    } else {
        None
    }
}

/// What is known after one more line.
pub open spec fn with_line(v: VersionView, line: Seq<char>) -> VersionView {
    let t = trimmed(line);
    if begins(t, "toolchain:"@) {
        VersionView { toolchain: Some(trimmed(t.skip("toolchain:"@.len() as int))), ..v }
    } else {
        VersionView {
            version: if v.version is None {
                first_version(words_of(t), 0)
            } else {
                v.version
            },
            commit: if v.commit is None {
                commit_in(t)
            } else {
                v.commit
            },
            ..v
        }
    }
}

/// What the first `n` lines say.
pub open spec fn version_after(all: Seq<Seq<char>>, n: nat) -> VersionView
    decreases n,
{
    if n == 0 {
        VersionView { version: None, commit: None, toolchain: None }
    } else {
        with_line(version_after(all, (n - 1) as nat), all[n - 1])
    }
}

fn version_word(t: &str) -> (r: bool)
    ensures
        r == is_version_word(t@),
{
    let chars = chars_of(t);
    if chars.len() == 0 || chars[0] < '0' || chars[0] > '9' {
        return false;
    }
    proof {
        assert(t@.skip(0) =~= t@);
    }
    if find_char(&chars, 0, '.') == chars.len() {
        return false;
    }
    let mut i: usize = 0;
    while i < chars.len()
        invariant
            chars@ == t@,
            i <= chars@.len(),
            forall|k: int| 0 <= k < i ==> is_version_char(#[trigger] t@[k]),
        decreases chars@.len() - i,
    {
        let c: char = chars[i];
        if !(('0' <= c && c <= '9') || ('a' <= c && c <= 'z') || ('A' <= c && c <= 'Z') || c == '.'
            || c == '-') {
            assert(!is_version_char(t@[i as int]));
            return false;
        }
        i += 1;
    }
    true
}

fn find_version(line: &str) -> (r: Option<String>)
    ensures
        opt_text(r) == first_version(words_of(line@), 0),
{
    let w = words(line);
    let ghost views = words_of(line@);
    let mut i: usize = 0;
    while i < w.len()
        invariant
            texts(w@) == views,
            views == words_of(line@),
            i <= w@.len(),
            first_version(views, 0) == first_version(views, i as int),
        decreases w@.len() - i,
    {
        proof {
            assert(views[i as int] == w@[i as int]@);
        }
        if version_word(w[i].as_str()) {
            return Some(w[i].clone());
        }
        i += 1;
    }
    proof {
        assert(views.len() == w@.len());
    }
    None
}

fn commit_chars(chars: &Vec<char>, from: usize, to: usize) -> (r: bool)
    requires
        from <= to <= chars@.len(),
    ensures
        r == forall|k: int| from <= k < to ==> is_commit_char(#[trigger] chars@[k]),
{
    let mut i: usize = from;
    while i < to
        invariant
            from <= i <= to <= chars@.len(),
            forall|k: int| from <= k < i ==> is_commit_char(#[trigger] chars@[k]),
        decreases to - i,
    {
        let c: char = chars[i];
        if !(('0' <= c && c <= '9') || ('a' <= c && c <= 'f') || ('A' <= c && c <= 'F')) {
            assert(!is_commit_char(chars@[i as int]));
            return false;
        }
        i += 1;
    }
    true
}

fn find_commit(line: &str) -> (r: Option<String>)
    ensures
        opt_text(r) == commit_in(line@),
{
    let chars = chars_of(line);
    proof {
        assert(line@.skip(0) =~= line@);
        lemma_first_of(line@, '(');
    }
    let open: usize = find_char(&chars, 0, '(');
    if open == chars.len() {
        return None;
    }
    let close: usize = find_char(&chars, open, ')');
    let ghost rest = line@.skip(open as int);
    proof {
        lemma_first_of(rest, ')');
        assert(rest[0] == '(');
    }
    if close == chars.len() {
        return None;
    }
    proof {
        assert(rest.subrange(1, close - open) =~= line@.subrange(open + 1, close as int));
    }
    let ghost inner = line@.subrange(open + 1, close as int);
    if close - open - 1 < 7 {
        return None;
    }
    let hex: bool = commit_chars(&chars, open + 1, close);
    proof {
        assert(rest.subrange(1, close - open) == inner);
        assert forall|k: int| 0 <= k < inner.len() implies inner[k] == line@[open + 1 + k] by {}
        if is_commit(inner) {
            assert forall|k: int| open + 1 <= k < close implies is_commit_char(
                #[trigger] chars@[k],
            ) by {
                assert(is_commit_char(inner[k - open - 1]));
            }
        }
        if hex {
            assert forall|k: int| 0 <= k < inner.len() implies is_commit_char(
                #[trigger] inner[k],
            ) by {
                assert(is_commit_char(chars@[open + 1 + k]));
            }
        }
    }
    if !hex {
        return None;
    }
    Some(piece(chars.as_slice(), open + 1, close))
}

/// The version, commit and toolchain in what an arm says of itself.
pub fn parse_version(out: &str) -> (r: Version)
    ensures
        r@ == version_after(lines_of(out@), lines_of(out@).len()),
{
    let all = lines(out);
    let ghost views = lines_of(out@);
    let mut v = Version { version: None, commit: None, toolchain: None };
    let mut i: usize = 0;
    while i < all.len()
        invariant
            texts(all@) == views,
            i <= all@.len(),
            v@ == version_after(views, i as nat),
        decreases all@.len() - i,
    {
        proof {
            assert(views[i as int] == all@[i as int]@);
        }
        let line = trim(all[i].as_str());
        match strip_prefix(line.as_str(), "toolchain:") {
            Some(rest) => {
                v.toolchain = Some(trim(rest.as_str()));
            },
            None => {
                if v.version.is_none() {
                    v.version = find_version(line.as_str());
                }
                if v.commit.is_none() {
                    v.commit = find_commit(line.as_str());
                }
            },
        }
        i += 1;
    }
    proof {
        assert(views.len() == all@.len());
    }
    v
}

// ---------------------------------------------------------------------------
// What is about to run
// ---------------------------------------------------------------------------

pub open spec fn tier_named(name: Seq<char>) -> Tier {
    if name == "b"@ {
        Tier::B
    } else {
        Tier::A
    }
}

/// The tier a variant runs.
pub fn tier_of(v: &Variant) -> (r: Tier)
    ensures
        r == tier_named(v.tier@),
{
    if same(v.tier.as_str(), "b") {
        Tier::B
    } else {
        Tier::A
    }
}

/// The image to run: the selector's, or else the descriptor's.
pub fn image_for(arm: &Arm) -> (r: Result<String, String>)
    ensures
        match r {
            Ok(i) => match arm.image {
                Some(x) => i@ == x@,
                None => arm.entrant.spec.build is Some && i@
                    == arm.entrant.spec.build->Some_0.image@,
            },
            Err(e) => arm.image is None && arm.entrant.spec.build is None && e@
                == "no image for this entrant"@,
        },
{
    match &arm.image {
        Some(i) => Ok(i.clone()),
        None => match &arm.entrant.spec.build {
            Some(b) => Ok(b.image.clone()),
            None => Err("no image for this entrant".to_owned()),
        },
    }
}

/// Whether an arm names its version by a command.
pub open spec fn has_version_command(e: Entrant) -> bool {
    e.spec.version is Some && e.spec.version->Some_0.strategy@ == "command"@
        && e.spec.version->Some_0.command@.len() > 0
}

/// The arguments of `docker` that ask an image for its version.
pub fn version_args(arm: &Arm, image: &str) -> (r: Option<Vec<String>>)
    ensures
        match r {
            Some(argv) => has_version_command(*arm.entrant) && texts(argv@) == seq![
                "run"@,
                "--rm"@,
                "--entrypoint"@,
                arm.entrant.spec.version->Some_0.command@[0]@,
                image@,
            ] + texts(arm.entrant.spec.version->Some_0.command@).skip(1),
            None => !has_version_command(*arm.entrant),
        },
{
    match &arm.entrant.spec.version {
        None => None,
        Some(v) => {
            if !same(v.strategy.as_str(), "command") || v.command.len() == 0 {
                return None;
            }
            let mut out: Vec<String> = Vec::new();
            note(&mut out, "run".to_owned());
            note(&mut out, "--rm".to_owned());
            note(&mut out, "--entrypoint".to_owned());
            note(&mut out, v.command[0].clone());
            note(&mut out, image.to_owned());
            let ghost head = texts(out@);
            let ghost all = texts(v.command@);
            let mut i: usize = 1;
            proof {
                assert(head =~= seq!["run"@, "--rm"@, "--entrypoint"@, v.command@[0]@, image@]);
                assert(head =~= head + all.subrange(1, 1));
            }
            while i < v.command.len()
                invariant
                    1 <= i <= v.command@.len(),
                    all == texts(v.command@),
                    texts(out@) == head + all.subrange(1, i as int),
                decreases v.command@.len() - i,
            {
                note(&mut out, v.command[i].clone());
                i += 1;
                proof {
                    assert(texts(out@) =~= head + all.subrange(1, i as int));
                }
            }
            proof {
                assert(all.subrange(1, all.len() as int) =~= all.skip(1));
            }
            Some(out)
        },
    }
}

pub open spec fn digest_text(image: Seq<char>, why: Seq<char>, id: Seq<char>) -> Seq<char> {
    "cannot read the image digest for "@ + image + ": "@ + why
        + ". The image must be built before it can be measured (`bench build "@ + id
        + "`), and a run whose digest cannot be read is refused rather than published without one."@
}

/// Why an image without a readable digest is refused.
pub fn digest_refusal(image: &str, why: &str, id: &str) -> (r: String)
    ensures
        r@ == digest_text(image@, why@, id@),
{
    cat7(
        "cannot read the image digest for ",
        image,
        ": ",
        why,
        ". The image must be built before it can be measured (`bench build ",
        id,
        "`), and a run whose digest cannot be read is refused rather than published without one.",
    )
}

/// What an arm says of itself, where it was asked.
pub open spec fn version_said(said: Option<Seq<char>>) -> VersionView {
    match said {
        Some(s) => version_after(lines_of(s), lines_of(s).len()),
        None => VersionView { version: None, commit: None, toolchain: None },
    }
}

/// The pinned version is not the one found.
pub open spec fn breaks_pin(e: Entrant, v: VersionView) -> bool {
    e.spec.version is Some && e.spec.version->Some_0.pinned@.len() > 0 && v.version is Some
        && v.version->Some_0 != e.spec.version->Some_0.pinned@
}

/// Why an arm is refused for what it says of itself.
pub open spec fn sut_refusal(e: Entrant, v: VersionView) -> Option<Seq<char>> {
    if breaks_pin(e, v) {
        Some(
            "REFUSED: "@ + e.spec.entrant.id@ + " declares version "@ + debug_quoted(
                e.spec.version->Some_0.pinned@,
            ) + " but the image reports "@ + debug_quoted(v.version->Some_0)
                + ". Update the descriptor in the same change that moved the image."@,
        )
    } else if v.version is None && v.commit is None {
        Some(
            "REFUSED: could not resolve a version or commit for "@ + e.spec.entrant.id@
                + ". Every published number has to say what produced it."@,
        )
    } else {
        None
    }
}

/// `s` holds of an arm what is known before it runs: its digest where that was read, and
/// nothing that the arm would have said of itself.
pub open spec fn is_unresolved(
    s: Sut,
    e: Entrant,
    v: Variant,
    image: Seq<char>,
    digest: Option<String>,
) -> bool {
    &&& s.entrant@ == e.spec.entrant.id@
    &&& s.variant_id@ == v.id@
    &&& s.version is None
    &&& s.commit is None
    &&& s.toolchain is None
    &&& s.image@ == image
    &&& match digest {
        Some(d) => s.image_digest == d,
        None => s.image_digest@.len() == 0,
    }
}

/// `s` is an arm, by its image and by what it said of itself.
pub open spec fn is_resolved(
    s: Sut,
    e: Entrant,
    v: Variant,
    image: Seq<char>,
    digest: String,
    said: VersionView,
) -> bool {
    &&& s.entrant@ == e.spec.entrant.id@
    &&& s.variant_id@ == v.id@
    &&& opt_text(s.version) == said.version
    &&& opt_text(s.commit) == said.commit
    &&& opt_text(s.toolchain) == said.toolchain
    &&& s.image_digest == digest
    &&& s.image@ == image
}

/// What was to run, as far as a refused run knows it.
pub fn unresolved_sut(arm: &Arm, image: &str, digest: Option<String>) -> (r: Sut)
    ensures
        is_unresolved(r, *arm.entrant, *arm.variant, image@, digest),
{
    Sut {
        entrant: arm.entrant.spec.entrant.id.clone(),
        variant_id: arm.variant.id.clone(),
        version: None,
        commit: None,
        image_digest: match digest {
            Some(d) => d,
            None => String::new(),
        },
        image: image.to_owned(),
        toolchain: None,
    }
}

/// What is about to run, by its digest and by what it said of itself. A version
/// other than the pinned one is refused, and so is neither version nor commit.
pub fn resolve_sut(arm: &Arm, image: &str, digest: String, said: Option<&str>) -> (r: Result<
    Sut,
    String,
>)
    ensures
        ({
            let v = version_said(
                match said {
                    Some(s) => Some(s@),
                    None => None,
                },
            );
            match r {
                Ok(s) => sut_refusal(*arm.entrant, v) is None && is_resolved(
                    s,
                    *arm.entrant,
                    *arm.variant,
                    image@,
                    digest,
                    v,
                ),
                Err(e) => sut_refusal(*arm.entrant, v) == Some(e@),
            }
        }),
{
    let v = match said {
        Some(s) => parse_version(s),
        None => Version { version: None, commit: None, toolchain: None },
    };
    if let Some(src) = &arm.entrant.spec.version {
        if !src.pinned.as_str().is_empty() {
            if let Some(found) = &v.version {
                if !same(found.as_str(), src.pinned.as_str()) {
                    return Err(
                        cat7(
                            "REFUSED: ",
                            arm.entrant.id(),
                            " declares version ",
                            quoted(src.pinned.as_str()).as_str(),
                            " but the image reports ",
                            quoted(found.as_str()).as_str(),
                            ". Update the descriptor in the same change that moved the image.",
                        ),
                    );
                }
            }
        }
    }
    if v.version.is_none() && v.commit.is_none() {
        return Err(
            cat3(
                "REFUSED: could not resolve a version or commit for ",
                arm.entrant.id(),
                ". Every published number has to say what produced it.",
            ),
        );
    }
    Ok(
        Sut {
            entrant: arm.entrant.id().to_owned(),
            variant_id: arm.variant.id.clone(),
            version: v.version,
            commit: v.commit,
            image_digest: digest,
            image: image.to_owned(),
            toolchain: v.toolchain,
        },
    )
}

/// Why an arm is refused before it starts: its digest cannot be read, its version command
/// fails, or what it says of itself is refused.
pub open spec fn start_refusal(
    e: Entrant,
    image: Seq<char>,
    digest: Result<String, String>,
    said: Option<Result<String, String>>,
) -> Option<Seq<char>> {
    match (digest, said) {
        (Err(why), _) => Some(digest_text(image, why@, e.spec.entrant.id@)),
        (Ok(_), Some(Err(why))) => Some(
            "version command failed for "@ + image + ": "@ + why@,
        ),
        (Ok(_), Some(Ok(s))) => sut_refusal(e, version_said(Some(s@))),
        (Ok(_), None) => sut_refusal(e, version_said(None)),
    }
}

/// What is about to run, from the reply to each question that was asked of its image, and
/// why it must not, if it must not. A refused arm is named all the same: its record says
/// what failed.
pub fn resolve_run(
    arm: &Arm,
    image: &str,
    digest: Result<String, String>,
    said: Option<Result<String, String>>,
) -> (r: (Sut, Result<(), String>))
    ensures
        match r.1 {
            Ok(_) => {
                &&& start_refusal(*arm.entrant, image@, digest, said) is None
                &&& is_resolved(
                    r.0,
                    *arm.entrant,
                    *arm.variant,
                    image@,
                    digest->Ok_0,
                    version_said(
                        match said {
                            Some(s) => Some(s->Ok_0@),
                            None => None,
                        },
                    ),
                )
            },
            Err(why) => {
                &&& start_refusal(*arm.entrant, image@, digest, said) == Some(why@)
                &&& is_unresolved(
                    r.0,
                    *arm.entrant,
                    *arm.variant,
                    image@,
                    match digest {
                        Ok(d) => Some(d),
                        Err(_) => None,
                    },
                )
            },
        },
{
    let read = match digest {
        Ok(d) => d,
        Err(why) => {
            let text = digest_refusal(image, why.as_str(), arm.entrant.id());
            return (unresolved_sut(arm, image, None), Err(text));
        },
    };
    let resolved = match &said {
        None => resolve_sut(arm, image, read.clone(), None),
        Some(Ok(s)) => resolve_sut(arm, image, read.clone(), Some(s.as_str())),
        Some(Err(why)) => Err(cat4("version command failed for ", image, ": ", why.as_str())),
    };
    match resolved {
        Ok(sut) => (sut, Ok(())),
        Err(why) => (unresolved_sut(arm, image, Some(read)), Err(why)),
    }
}

/// Every accepted arm says what produced its numbers, and none under a version that
/// its descriptor does not pin.
pub proof fn law_accepted_arm_names_itself(e: Entrant, v: VersionView)
    requires
        sut_refusal(e, v) is None,
    ensures
        v.version is Some || v.commit is Some,
        e.spec.version is Some && e.spec.version->Some_0.pinned@.len() > 0 && v.version is Some
            ==> v.version->Some_0 == e.spec.version->Some_0.pinned@,
{
}

/// Why an arm whose knobs break a declared constraint is not started.
pub fn knob_refusal(arm: &Arm) -> (r: Option<String>)
    ensures
        ({
            let cs = arm.entrant.spec.constraints@;
            let v = violations(cs, arm.variant.knobs@, cs.len());
            match r {
                None => v.len() == 0,
                Some(m) => v.len() > 0 && m@ == "REFUSED: "@ + arm.entrant.spec.entrant.id@ + ":"@
                    + arm.variant.id@ + ": "@ + joined(v, "; "@),
            }
        }),
{
    let v = knob_violations(&arm.entrant.spec.constraints, &arm.variant.knobs);
    proof {
        assert(texts(v@).len() == v@.len());
    }
    if v.len() == 0 {
        return None;
    }
    Some(
        cat6(
            "REFUSED: ",
            arm.entrant.id(),
            ":",
            arm.variant.id.as_str(),
            ": ",
            join(&v, "; ").as_str(),
        ),
    )
}

// ---------------------------------------------------------------------------
// Configuration
// ---------------------------------------------------------------------------

pub open spec fn container_name(c: Seq<char>) -> Seq<char> {
    "spate-bench-sut-"@ + c
}

/// The names that the first `n` containers run under, by the names they are declared
/// by.
pub open spec fn container_table(cs: Seq<Container>, n: nat) -> Seq<(Seq<char>, Seq<char>)>
    decreases n,
{
    if n == 0 {
        seq![]
    } else {
        inserted(
            container_table(cs, (n - 1) as nat),
            cs[n - 1].name@,
            container_name(cs[n - 1].name@),
        )
    }
}

fn container_names(cs: &Vec<Container>) -> (r: Table<String>)
    ensures
        text_entries(r@) == container_table(cs@, cs@.len()),
{
    let mut out: Table<String> = Table::new();
    let mut i: usize = 0;
    proof {
        assert(text_entries(out@) =~= container_table(cs@, 0));
    }
    while i < cs.len()
        invariant
            i <= cs@.len(),
            text_entries(out@) == container_table(cs@, i as nat),
        decreases cs@.len() - i,
    {
        let name = cat2("spate-bench-sut-", cs[i].name.as_str());
        proof {
            lemma_mapped_insert(out@, cs@[i as int].name@, name, as_text());
        }
        out.insert(cs[i].name.clone(), name);
        i += 1;
    }
    out
}

/// The text a knob is substituted as.
pub open spec fn knob_text(k: Knob) -> Seq<char> {
    match k {
        Knob::Integer(n) => decimal_int(n as int),
        Knob::Text(s) => s@,
        Knob::Other(_) => seq![],
    }
}

fn knob_string(k: &Knob) -> (r: String)
    ensures
        r@ == knob_text(*k),
{
    match k {
        Knob::Integer(n) => dec_int(*n as i128),
        Knob::Text(s) => s.clone(),
        Knob::Other(_) => {
            let out = String::new();
            proof {
                assert(out@ =~= seq![]);
            }
            out
        },
    }
}

/// What a run supplies to the placeholders of a descriptor.
pub struct Supply {
    pub variant: Variant,
    pub ep: Endpoints,
    pub topic: Seq<char>,
    pub group_id: Seq<char>,
    pub containers: Seq<(Seq<char>, Seq<char>)>,
}

/// `raw` with what every run supplies.
pub open spec fn with_run_values(raw: Seq<char>, s: Supply) -> Seq<char> {
    let a = replaced(raw, "{{broker_internal}}"@, s.ep.bootstrap_internal@);
    let b = replaced(a, "{{registry_internal}}"@, s.ep.registry_internal@);
    let c = replaced(b, "{{clickhouse_internal}}"@, s.ep.ch_internal@);
    let d = replaced(c, "{{topic}}"@, s.topic);
    let e = replaced(d, "{{group_id}}"@, s.group_id);
    let f = replaced(e, "{{tier}}"@, s.variant.tier@);
    replaced(f, "{{offset_reset}}"@, "earliest"@)
}

/// `raw` with the first `n` knobs.
pub open spec fn with_knobs(raw: Seq<char>, knobs: Seq<(Seq<char>, Knob)>, n: nat) -> Seq<char>
    decreases n,
{
    if n == 0 {
        raw
    } else {
        replaced(
            with_knobs(raw, knobs, (n - 1) as nat),
            "{{knob:"@ + knobs[n - 1].0 + "}}"@,
            knob_text(knobs[n - 1].1),
        )
    }
}

/// `raw` with the names of the first `n` containers.
pub open spec fn with_containers(raw: Seq<char>, cs: Seq<(Seq<char>, Seq<char>)>, n: nat) -> Seq<char>
    decreases n,
{
    if n == 0 {
        raw
    } else {
        replaced(
            with_containers(raw, cs, (n - 1) as nat),
            "{{container:"@ + cs[n - 1].0 + "}}"@,
            cs[n - 1].1,
        )
    }
}

/// `raw` with every placeholder that a run can resolve, resolved.
pub open spec fn filled(raw: Seq<char>, s: Supply) -> Seq<char> {
    let knobs = s.variant.knobs@;
    with_containers(
        with_knobs(with_run_values(raw, s), knobs, knobs.len()),
        s.containers,
        s.containers.len(),
    )
}

/// A setting with its placeholders resolved. One left unresolved is refused: it
/// would reach the container as a literal.
pub open spec fn substituted(raw: Seq<char>, s: Supply) -> Result<Seq<char>, Seq<char>> {
    let out = filled(raw, s);
    if occurs(out, "{{"@) {
        Err(
            "REFUSED: unresolved placeholder in "@ + debug_quoted(raw) + " (produced "@
                + debug_quoted(out)
                + "). A placeholder that reaches the container is read as a literal, so the arm would run misconfigured while the record claimed otherwise."@,
        )
    } else {
        Ok(out)
    }
}

/// Resolves the placeholders of one setting.
pub fn substitute(
    raw: &str,
    variant: &Variant,
    ep: &Endpoints,
    topic: &str,
    group_id: &str,
    containers: &Table<String>,
) -> (r: Result<String, String>)
    ensures
        ({
            let s = Supply {
                variant: *variant,
                ep: *ep,
                topic: topic@,
                group_id: group_id@,
                containers: text_entries(containers@),
            };
            match r {
                Ok(out) => substituted(raw@, s) == Ok::<Seq<char>, Seq<char>>(out@),
                Err(e) => substituted(raw@, s) == Err::<Seq<char>, Seq<char>>(e@),
            }
        }),
{
    let ghost s = Supply {
        variant: *variant,
        ep: *ep,
        topic: topic@,
        group_id: group_id@,
        containers: text_entries(containers@),
    };
    proof {
        reveal_strlit("{{broker_internal}}");
        reveal_strlit("{{registry_internal}}");
        reveal_strlit("{{clickhouse_internal}}");
        reveal_strlit("{{topic}}");
        reveal_strlit("{{group_id}}");
        reveal_strlit("{{tier}}");
        reveal_strlit("{{offset_reset}}");
        reveal_strlit("{{knob:");
        reveal_strlit("{{container:");
    }
    let mut out = replace(raw, "{{broker_internal}}", ep.bootstrap_internal.as_str());
    out = replace(out.as_str(), "{{registry_internal}}", ep.registry_internal.as_str());
    out = replace(out.as_str(), "{{clickhouse_internal}}", ep.ch_internal.as_str());
    out = replace(out.as_str(), "{{topic}}", topic);
    out = replace(out.as_str(), "{{group_id}}", group_id);
    out = replace(out.as_str(), "{{tier}}", variant.tier.as_str());
    out = replace(out.as_str(), "{{offset_reset}}", "earliest");
    let ghost start = out@;
    let mut i: usize = 0;
    while i < variant.knobs.len()
        invariant
            i <= variant.knobs@.len(),
            "{{knob:"@.len() > 0,
            out@ == with_knobs(start, variant.knobs@, i as nat),
        decreases variant.knobs@.len() - i,
    {
        let (k, v) = variant.knobs.entry(i);
        let name = cat3("{{knob:", k, "}}");
        out = replace(out.as_str(), name.as_str(), knob_string(v).as_str());
        i += 1;
    }
    let ghost mid = out@;
    let mut j: usize = 0;
    while j < containers.len()
        invariant
            j <= containers@.len(),
            "{{container:"@.len() > 0,
            out@ == with_containers(mid, text_entries(containers@), j as nat),
        decreases containers@.len() - j,
    {
        let (k, v) = containers.entry(j);
        let name = cat3("{{container:", k, "}}");
        proof {
            assert(text_entries(containers@)[j as int] == (k@, v@));
        }
        out = replace(out.as_str(), name.as_str(), v.as_str());
        j += 1;
    }
    proof {
        assert(text_entries(containers@).len() == containers@.len());
        assert(out@ == filled(raw@, s));
    }
    if contains(out.as_str(), "{{") {
        return Err(
            cat5(
                "REFUSED: unresolved placeholder in ",
                quoted(raw).as_str(),
                " (produced ",
                quoted(out.as_str()).as_str(),
                "). A placeholder that reaches the container is read as a literal, so the arm would run misconfigured while the record claimed otherwise.",
            ),
        );
    }
    Ok(out)
}

/// No placeholder ever reaches a container.
pub proof fn law_no_placeholder_survives(raw: Seq<char>, s: Supply)
    requires
        substituted(raw, s) is Ok,
    ensures
        !occurs(substituted(raw, s)->Ok_0, "{{"@),
{
}

/// The first `n` settings with their placeholders resolved, or the first refusal.
pub open spec fn resolved_settings(entries: Seq<(Seq<char>, Seq<char>)>, s: Supply, n: nat) -> Result<
    Seq<(Seq<char>, Seq<char>)>,
    Seq<char>,
>
    decreases n,
{
    if n == 0 {
        Ok(seq![])
    } else {
        match resolved_settings(entries, s, (n - 1) as nat) {
            Err(e) => Err(e),
            Ok(sofar) => match substituted(entries[n - 1].1, s) {
                Err(e) => Err(e),
                Ok(v) => Ok(sofar.push((entries[n - 1].0, v))),
            },
        }
    }
}

proof fn lemma_settings_refusal(
    entries: Seq<(Seq<char>, Seq<char>)>,
    s: Supply,
    n: nat,
    total: nat,
)
    requires
        n <= total,
        resolved_settings(entries, s, n) is Err,
    ensures
        resolved_settings(entries, s, total) == resolved_settings(entries, s, n),
    decreases total,
{
    if n < total {
        lemma_settings_refusal(entries, s, n, (total - 1) as nat);
    }
}

pub open spec fn pair_views(v: Seq<(String, String)>) -> Seq<(Seq<char>, Seq<char>)> {
    Seq::new(v.len(), |i: int| (v[i].0@, v[i].1@))
}

/// What a [`SutSpec`] holds.
pub struct SutSpecView {
    pub name: Seq<char>,
    pub image: Seq<char>,
    pub cpus: Seq<char>,
    pub memory: Seq<char>,
    pub env: Seq<(Seq<char>, Seq<char>)>,
    pub args: Seq<Seq<char>>,
    pub volumes: Seq<Seq<char>>,
}

pub open spec fn spec_view(s: SutSpec) -> SutSpecView {
    SutSpecView {
        name: s.name@,
        image: s.image@,
        cpus: s.cpus@,
        memory: s.memory@,
        env: pair_views(s.env@),
        args: texts(s.args@),
        volumes: texts(s.volumes@),
    }
}

pub open spec fn spec_views(v: Seq<SutSpec>) -> Seq<SutSpecView> {
    Seq::new(v.len(), |i: int| spec_view(v[i]))
}

/// The index of the first container whose name ends `name`, or their number.
pub open spec fn declared_index(cs: Seq<Container>, name: Seq<char>, i: int) -> int
    decreases cs.len() - i,
{
    if i < 0 || i >= cs.len() {
        cs.len() as int
    } else if ends(name, cs[i].name@) {
        i
    } else {
        declared_index(cs, name, i + 1)
    }
}

/// The first declared container whose name ends `name`.
pub fn declared_for<'a>(cs: &'a Vec<Container>, name: &str) -> (r: Option<&'a Container>)
    ensures
        ({
            let k = declared_index(cs@, name@, 0);
            match r {
                Some(c) => 0 <= k < cs@.len() && *c == cs@[k],
                None => k == cs@.len(),
            }
        }),
{
    let mut i: usize = 0;
    while i < cs.len()
        invariant
            i <= cs@.len(),
            declared_index(cs@, name@, 0) == declared_index(cs@, name@, i as int),
        decreases cs@.len() - i,
    {
        if ends_with(name, cs[i].name.as_str()) {
            return Some(&cs[i]);
        }
        i += 1;
    }
    None
}

/// A container of this name coordinates.
pub open spec fn is_control(cs: Seq<Container>, name: Seq<char>) -> bool {
    let k = declared_index(cs, name, 0);
    0 <= k < cs.len() && cs[k].role == Role::ControlPlane
}

pub open spec fn one_spec(
    c: Container,
    image: Seq<char>,
    env: Seq<(Seq<char>, Seq<char>)>,
    volumes: Seq<Seq<char>>,
) -> SutSpecView {
    SutSpecView {
        name: container_name(c.name@),
        image,
        cpus: c.cpus@,
        memory: c.memory@,
        env,
        args: texts(c.args@),
        volumes,
    }
}

/// Of the first `n` containers, those that coordinate, or those that do not.
pub open spec fn specs_of(
    cs: Seq<Container>,
    control: bool,
    image: Seq<char>,
    env: Seq<(Seq<char>, Seq<char>)>,
    volumes: Seq<Seq<char>>,
    n: nat,
) -> Seq<SutSpecView>
    decreases n,
{
    if n == 0 {
        seq![]
    } else {
        let sofar = specs_of(cs, control, image, env, volumes, (n - 1) as nat);
        if is_control(cs, container_name(cs[n - 1].name@)) == control {
            sofar.push(one_spec(cs[n - 1], image, env, volumes))
        } else {
            sofar
        }
    }
}

pub open spec fn volumes_of(e: Entrant) -> Seq<Seq<char>> {
    match e.spec.volumes {
        Some(v) => texts(v.named@),
        None => seq![],
    }
}

pub open spec fn supply(arm: Arm, ep: Endpoints, topic: Seq<char>, group_id: Seq<char>) -> Supply {
    let cs = arm.entrant.spec.envelope->Some_0.containers@;
    Supply {
        variant: *arm.variant,
        ep,
        topic,
        group_id,
        containers: container_table(cs, cs.len()),
    }
}

/// The containers of an arm, those that coordinate first, each in declared order;
/// or why they cannot be configured.
pub open spec fn arm_specs(
    arm: Arm,
    ep: Endpoints,
    topic: Seq<char>,
    image: Seq<char>,
    group_id: Seq<char>,
) -> Result<Seq<SutSpecView>, Seq<char>> {
    match arm.entrant.spec.envelope {
        None => Err("entrant has no envelope"@),
        Some(envelope) => {
            let cs = envelope.containers@;
            let entries = text_entries(arm.entrant.spec.env@) + text_entries(arm.variant.env@);
            let s = supply(arm, ep, topic, group_id);
            if cs.len() == 0 {
                Ok(seq![])
            } else {
                match resolved_settings(entries, s, entries.len()) {
                    Err(e) => Err(e),
                    Ok(env) => Ok(
                        specs_of(cs, true, image, env, volumes_of(*arm.entrant), cs.len())
                            + specs_of(cs, false, image, env, volumes_of(*arm.entrant), cs.len()),
                    ),
                }
            }
        },
    }
}

fn clone_pairs(v: &Vec<(String, String)>) -> (r: Vec<(String, String)>)
    ensures
        pair_views(r@) == pair_views(v@),
{
    let mut out: Vec<(String, String)> = Vec::new();
    let mut i: usize = 0;
    while i < v.len()
        invariant
            i <= v@.len(),
            out@.len() == i,
            forall|k: int|
                0 <= k < i ==> (#[trigger] out@[k]).0@ == v@[k].0@ && out@[k].1@ == v@[k].1@,
        decreases v@.len() - i,
    {
        out.push((v[i].0.clone(), v[i].1.clone()));
        i += 1;
    }
    proof {
        assert(pair_views(out@) =~= pair_views(v@));
    }
    out
}

fn clone_all(v: &Vec<String>) -> (r: Vec<String>)
    ensures
        texts(r@) == texts(v@),
{
    let mut out: Vec<String> = Vec::new();
    crate::text::note_all(&mut out, v);
    proof {
        assert(texts(out@) =~= texts(v@));
    }
    out
}

fn add_settings(
    out: &mut Vec<(String, String)>,
    table: &Table<String>,
    entries: Ghost<Seq<(Seq<char>, Seq<char>)>>,
    done: Ghost<nat>,
    arm: &Arm,
    ep: &Endpoints,
    topic: &str,
    group_id: &str,
    containers: &Table<String>,
) -> (r: Result<(), String>)
    requires
        ({
            let s = Supply {
                variant: *arm.variant,
                ep: *ep,
                topic: topic@,
                group_id: group_id@,
                containers: text_entries(containers@),
            };
            &&& done@ + table@.len() <= entries@.len()
            &&& resolved_settings(entries@, s, done@) == Ok::<
                Seq<(Seq<char>, Seq<char>)>,
                Seq<char>,
            >(pair_views(old(out)@))
            &&& forall|i: int|
                0 <= i < table@.len() ==> entries@[done@ + i] == #[trigger] text_entries(table@)[i]
        }),
    ensures
        ({
            let s = Supply {
                variant: *arm.variant,
                ep: *ep,
                topic: topic@,
                group_id: group_id@,
                containers: text_entries(containers@),
            };
            match r {
                Ok(_) => resolved_settings(entries@, s, done@ + table@.len()) == Ok::<
                    Seq<(Seq<char>, Seq<char>)>,
                    Seq<char>,
                >(pair_views(final(out)@)),
                Err(e) => resolved_settings(entries@, s, entries@.len()) == Err::<
                    Seq<(Seq<char>, Seq<char>)>,
                    Seq<char>,
                >(e@),
            }
        }),
{
    let ghost s = Supply {
        variant: *arm.variant,
        ep: *ep,
        topic: topic@,
        group_id: group_id@,
        containers: text_entries(containers@),
    };
    let mut i: usize = 0;
    while i < table.len()
        invariant
            s == (Supply {
                variant: *arm.variant,
                ep: *ep,
                topic: topic@,
                group_id: group_id@,
                containers: text_entries(containers@),
            }),
            i <= table@.len(),
            done@ + table@.len() <= entries@.len(),
            forall|i: int|
                0 <= i < table@.len() ==> entries@[done@ + i] == #[trigger] text_entries(
                    table@,
                )[i],
            resolved_settings(entries@, s, done@ + i as nat) == Ok::<
                Seq<(Seq<char>, Seq<char>)>,
                Seq<char>,
            >(pair_views(out@)),
        decreases table@.len() - i,
    {
        let (k, raw) = table.entry(i);
        let ghost sofar = pair_views(out@);
        proof {
            assert(text_entries(table@)[i as int] == (k@, raw@));
            assert(entries@[done@ + i as int] == (k@, raw@));
        }
        match substitute(raw.as_str(), arm.variant, ep, topic, group_id, containers) {
            Ok(v) => {
                out.push((k.to_owned(), v));
                proof {
                    assert(pair_views(out@) =~= sofar.push((k@, v@)));
                }
            },
            Err(e) => {
                proof {
                    lemma_settings_refusal(entries@, s, done@ + i as nat + 1, entries@.len());
                }
                return Err(e);
            },
        }
        i += 1;
    }
    Ok(())
}

/// A spec is of one of the declared containers: the container's own name behind the
/// bench's prefix, its own caps, its own arguments, and the image of the run.
pub open spec fn is_some_container(s: SutSpec, cs: Seq<Container>, image: Seq<char>) -> bool {
    exists|i: int|
        0 <= i < cs.len() && s.name@ == "spate-bench-sut-"@ + (#[trigger] cs[i]).name@ && s.cpus@
            == cs[i].cpus@ && s.memory@ == cs[i].memory@ && texts(s.args@) == texts(cs[i].args@)
            && s.image@ == image
}

/// A declared container has a spec: under its own name, with its own caps and arguments.
pub open spec fn has_some_spec(c: Container, specs: Seq<SutSpec>) -> bool {
    exists|k: int|
        0 <= k < specs.len() && (#[trigger] specs[k]).name@ == "spate-bench-sut-"@ + c.name@
            && specs[k].cpus@ == c.cpus@ && specs[k].memory@ == c.memory@ && texts(specs[k].args@)
            == texts(c.args@)
}

/// Configures the containers of an arm for a consumer group.
pub fn build_specs_in_group(
    arm: &Arm,
    ep: &Endpoints,
    topic: &str,
    image: &str,
    group_id: &str,
) -> (r: Result<Vec<SutSpec>, String>)
    ensures
        match r {
            Ok(v) => arm_specs(*arm, *ep, topic@, image@, group_id@) == Ok::<
                Seq<SutSpecView>,
                Seq<char>,
            >(spec_views(v@)),
            Err(e) => arm_specs(*arm, *ep, topic@, image@, group_id@) == Err::<
                Seq<SutSpecView>,
                Seq<char>,
            >(e@),
        },
        r is Ok ==> {
            let cs = arm.entrant.spec.envelope->Some_0.containers@;
            &&& arm.entrant.spec.envelope is Some
            &&& r->Ok_0@.len() == cs.len()
            &&& forall|k: int|
                0 <= k < cs.len() ==> is_some_container(#[trigger] r->Ok_0@[k], cs, image@)
            &&& forall|i: int| 0 <= i < cs.len() ==> has_some_spec(#[trigger] cs[i], r->Ok_0@)
        },
{
    let envelope = match &arm.entrant.spec.envelope {
        Some(e) => e,
        None => return Err("entrant has no envelope".to_owned()),
    };
    let cs = &envelope.containers;
    let mut control: Vec<SutSpec> = Vec::new();
    let mut rest: Vec<SutSpec> = Vec::new();
    proof {
        assert(spec_views(control@) =~= seq![]);
        assert(spec_views(rest@) =~= seq![]);
        assert(*cs == arm.entrant.spec.envelope->Some_0.containers);
    }
    if cs.len() == 0 {
        return Ok(control);
    }
    let containers = container_names(cs);
    let ghost s = supply(*arm, *ep, topic@, group_id@);
    let ghost first = text_entries(arm.entrant.spec.env@);
    let ghost second = text_entries(arm.variant.env@);
    let ghost entries = first + second;
    let mut env: Vec<(String, String)> = Vec::new();
    proof {
        assert(pair_views(env@) =~= seq![]);
        assert forall|i: int| 0 <= i < first.len() implies entries[0 + i] == #[trigger] first[i] by {}
    }
    if let Err(e) = add_settings(
        &mut env,
        &arm.entrant.spec.env,
        Ghost(entries),
        Ghost(0),
        arm,
        ep,
        topic,
        group_id,
        &containers,
    ) {
        return Err(e);
    }
    proof {
        assert forall|i: int| 0 <= i < second.len() implies entries[first.len() + i]
            == #[trigger] second[i] by {}
    }
    if let Err(e) = add_settings(
        &mut env,
        &arm.variant.env,
        Ghost(entries),
        Ghost(first.len()),
        arm,
        ep,
        topic,
        group_id,
        &containers,
    ) {
        return Err(e);
    }
    let mut volumes: Vec<String> = Vec::new();
    if let Some(v) = &arm.entrant.spec.volumes {
        volumes = clone_all(&v.named);
    }
    proof {
        if arm.entrant.spec.volumes is None {
            assert(texts(volumes@) =~= seq![]);
        }
    }
    let ghost env_view = pair_views(env@);
    let ghost vols = volumes_of(*arm.entrant);
    let mut i: usize = 0;
    while i < cs.len()
        invariant
            i <= cs@.len(),
            pair_views(env@) == env_view,
            texts(volumes@) == vols,
            spec_views(control@) == specs_of(cs@, true, image@, env_view, vols, i as nat),
            spec_views(rest@) == specs_of(cs@, false, image@, env_view, vols, i as nat),
        decreases cs@.len() - i,
    {
        let c = &cs[i];
        let name = cat2("spate-bench-sut-", c.name.as_str());
        let coordinates: bool = match declared_for(cs, name.as_str()) {
            Some(d) => d.role == Role::ControlPlane,
            None => false,
        };
        let ghost done = spec_views(control@);
        let ghost done_rest = spec_views(rest@);
        let spec = SutSpec {
            name,
            image: image.to_owned(),
            cpus: c.cpus.clone(),
            memory: c.memory.clone(),
            env: clone_pairs(&env),
            args: clone_all(&c.args),
            volumes: clone_all(&volumes),
        };
        let ghost view = spec_view(spec);
        proof {
            assert(view == one_spec(*c, image@, env_view, vols));
        }
        if coordinates {
            control.push(spec);
            proof {
                assert(spec_views(control@) =~= done.push(view));
            }
        } else {
            rest.push(spec);
            proof {
                assert(spec_views(rest@) =~= done_rest.push(view));
            }
        }
        i += 1;
    }
    let ghost a = spec_views(control@);
    let ghost b = spec_views(rest@);
    control.append(&mut rest);
    proof {
        assert(spec_views(control@) =~= a + b);
        lemma_specs_run_containers(cs@, image@, env_view, vols, control@);
    }
    Ok(control)
}

pub open spec fn group_name(entrant: Seq<char>, variant: Seq<char>, token: Seq<char>) -> Seq<char> {
    "comparison-"@ + entrant + "-"@ + variant + "-"@ + token
}

/// The shape of a version-7 UUID without hyphens.
pub open spec fn is_token(s: Seq<char>) -> bool {
    &&& s.len() == 32
    &&& s[12] == '7'
    &&& forall|i: int| 0 <= i < 32 ==> crate::report::is_hex(#[trigger] s[i])
}

/// `uuid::Uuid::now_v7` in its simple form. It is made of the time and of chance, so
/// only its shape is claimed: that tokens differ is left unsaid.
#[verifier::external_body]
fn fresh_token() -> (r: String)
    ensures
        is_token(r@),
{
    uuid::Uuid::now_v7().simple().to_string()
}

/// Configures the containers of an arm for a consumer group of its own: a group that
/// was used before would resume where it left off, and drain nothing.
pub fn build_specs(arm: &Arm, ep: &Endpoints, topic: &str, image: &str) -> (r: Result<
    Vec<SutSpec>,
    String,
>)
    ensures
        exists|token: Seq<char>|
            is_token(token) && match r {
                Ok(v) => #[trigger] arm_specs(
                    *arm,
                    *ep,
                    topic@,
                    image@,
                    group_name(arm.entrant.spec.entrant.id@, arm.variant.id@, token),
                ) == Ok::<Seq<SutSpecView>, Seq<char>>(spec_views(v@)),
                Err(e) => arm_specs(
                    *arm,
                    *ep,
                    topic@,
                    image@,
                    group_name(arm.entrant.spec.entrant.id@, arm.variant.id@, token),
                ) == Err::<Seq<SutSpecView>, Seq<char>>(e@),
            },
{
    let token = fresh_token();
    let group = cat6(
        "comparison-",
        arm.entrant.id(),
        "-",
        arm.variant.id.as_str(),
        "-",
        token.as_str(),
    );
    let r = build_specs_in_group(arm, ep, topic, image, group.as_str());
    proof {
        assert(group@ == group_name(arm.entrant.spec.entrant.id@, arm.variant.id@, token@));
    }
    r
}

// ---------------------------------------------------------------------------
// Caps
// ---------------------------------------------------------------------------

/// What follows `key` in the first word from `i` on that begins with it.
pub open spec fn field_after(w: Seq<Seq<char>>, key: Seq<char>, i: int) -> Option<Seq<char>>
    decreases w.len() - i,
{
    if i < 0 || i >= w.len() {
        None
    } else if begins(w[i], key) {
        Some(w[i].skip(key.len() as int))
    } else {
        field_after(w, key, i + 1)
    }
}

fn meta_field(meta: &str, key: &str) -> (r: Option<String>)
    ensures
        opt_text(r) == field_after(words_of(meta@), key@, 0),
{
    let w = words(meta);
    let ghost views = words_of(meta@);
    let mut i: usize = 0;
    while i < w.len()
        invariant
            texts(w@) == views,
            views == words_of(meta@),
            i <= w@.len(),
            field_after(views, key@, 0) == field_after(views, key@, i as int),
        decreases w@.len() - i,
    {
        proof {
            assert(views[i as int] == w@[i as int]@);
        }
        if let Some(rest) = strip_prefix(w[i].as_str(), key) {
            return Some(rest);
        }
        i += 1;
    }
    proof {
        assert(views.len() == w@.len());
    }
    None
}

/// The quota and the period of a sampler's `cpu.max`; the period is `0` where there
/// is none.
pub open spec fn arm_cpu_parts(cpu: Seq<char>) -> (Seq<char>, Seq<char>) {
    let p = split_at_each(cpu, '/');
    (
        p[0],
        if p.len() > 1 {
            p[1]
        } else {
            "0"@
        },
    )
}

/// The quota and the period that the sampler saw applied, whose ratio is the cores
/// an arm ran under; nothing where there is none, or no quota.
pub fn arm_cpu_max(meta: &str) -> (r: Option<(String, String)>)
    ensures
        match field_after(words_of(meta@), "cpu.max="@, 0) {
            Some(cpu) => match r {
                Some(p) => arm_cpu_parts(cpu) == (p.0@, p.1@) && p.0@ != "max"@,
                None => arm_cpu_parts(cpu).0 == "max"@,
            },
            None => r is None,
        },
{
    match meta_field(meta, "cpu.max=") {
        None => None,
        Some(cpu) => {
            let p = split(cpu.as_str(), '/');
            let ghost views = split_at_each(cpu@, '/');
            proof {
                assert(views.len() == p@.len());
                assert(views.len() >= 1);
                assert(views[0] == p@[0]@);
                if views.len() > 1 {
                    assert(views[1] == p@[1]@);
                }
            }
            let quota = p[0].clone();
            if same(quota.as_str(), "max") {
                return None;
            }
            let period = if p.len() > 1 {
                p[1].clone()
            } else {
                "0".to_owned()
            };
            Some((quota, period))
        },
    }
}

/// Why an arm's applied caps are not those declared. `cores_agree` says whether the
/// ratio of the applied quota and period, read as numbers, lies within a hundredth of
/// the declared cores.
pub open spec fn arm_cap_refusal(
    name: Seq<char>,
    declared: Container,
    meta: Seq<char>,
    cores_agree: bool,
) -> Option<Seq<char>> {
    let w = words_of(meta);
    match (field_after(w, "cpu.max="@, 0), field_after(w, "memory.max="@, 0)) {
        (None, _) => Some(name + ": sampler reported no cpu.max"@),
        (_, None) => Some(name + ": sampler reported no memory.max"@),
        (Some(cpu), Some(mem)) => if arm_cpu_parts(cpu).0 == "max"@ || !cores_agree {
            Some(
                "REFUSED: "@ + name + " declares cpus="@ + declared.cpus@
                    + " but is running under cpu.max="@ + cpu
                    + ". The envelope is what every published number is described by."@,
            )
        } else if memory_of(declared.memory@) is None || memory_of(declared.memory@)
            != parsed_nat(mem, u64::MAX as nat) {
            Some(
                "REFUSED: "@ + name + " declares memory="@ + declared.memory@
                    + " but is running under memory.max="@ + mem + "."@,
            )
        } else {
            None
        },
    }
}

/// Asserts an arm's applied cgroup caps against what its descriptor declares.
pub fn assert_arm_caps(name: &str, declared: &Container, meta: &str, cores_agree: bool) -> (r: Result<
    (),
    String,
>)
    ensures
        match r {
            Ok(_) => arm_cap_refusal(name@, *declared, meta@, cores_agree) is None,
            Err(e) => arm_cap_refusal(name@, *declared, meta@, cores_agree) == Some(e@),
        },
{
    let cpu = match meta_field(meta, "cpu.max=") {
        Some(c) => c,
        None => return Err(cat2(name, ": sampler reported no cpu.max")),
    };
    let mem = match meta_field(meta, "memory.max=") {
        Some(m) => m,
        None => return Err(cat2(name, ": sampler reported no memory.max")),
    };
    if arm_cpu_max(meta).is_none() || !cores_agree {
        return Err(
            cat7(
                "REFUSED: ",
                name,
                " declares cpus=",
                declared.cpus.as_str(),
                " but is running under cpu.max=",
                cpu.as_str(),
                ". The envelope is what every published number is described by.",
            ),
        );
    }
    let agrees: bool = match (parse_memory(declared.memory.as_str()), parse_u64(mem.as_str())) {
        (Some(a), Some(b)) => a == b,
        _ => false,
    };
    if !agrees {
        return Err(
            cat7(
                "REFUSED: ",
                name,
                " declares memory=",
                declared.memory.as_str(),
                " but is running under memory.max=",
                mem.as_str(),
                ".",
            ),
        );
    }
    Ok(())
}

/// An arm that runs without a CPU quota never passes, nor one without a memory limit.
pub proof fn law_uncapped_arm_is_refused(
    name: Seq<char>,
    declared: Container,
    meta: Seq<char>,
    cores_agree: bool,
)
    requires
        ({
            let cpu = field_after(words_of(meta), "cpu.max="@, 0);
            let mem = field_after(words_of(meta), "memory.max="@, 0);
            ||| cpu is None
            ||| mem is None
            ||| arm_cpu_parts(cpu->Some_0).0 == "max"@
            ||| mem->Some_0 == "max"@
        }),
    ensures
        arm_cap_refusal(name, declared, meta, cores_agree) is Some,
{
    reveal_strlit("max");
    assert("max"@[0] == 'm');
    assert(!is_digit('m'));
    assert(parsed_nat("max"@, u64::MAX as nat) is None);
}

// ---------------------------------------------------------------------------
// One repetition
// ---------------------------------------------------------------------------

/// The statement that empties a tier's table before a repetition.
pub fn truncate_sql(tier: Tier) -> (r: String)
    ensures
        r@ == "TRUNCATE TABLE "@ + tier.table_text(),
{
    cat2("TRUNCATE TABLE ", tier.table())
}

/// The query for the rows of a tier's table.
pub fn count_sql(tier: Tier) -> (r: String)
    ensures
        r@ == "SELECT count() FROM "@ + tier.table_text(),
{
    cat2("SELECT count() FROM ", tier.table())
}

/// The rows a reply counts; none where there is no reply, or no number in it.
pub fn rows_in(reply: Option<&str>) -> (r: u64)
    ensures
        r == match reply {
            Some(s) => match parsed_nat(trimmed(s@), u64::MAX as nat) {
                Some(n) => n as int,
                None => 0,
            },
            None => 0,
        },
{
    match reply {
        Some(s) => match parse_u64(trim(s).as_str()) {
            Some(n) => n,
            None => 0,
        },
        None => 0,
    }
}

/// What a drain does next.
#[derive(Clone, Copy, Debug, PartialEq, Eq, Structural)]
pub enum DrainStep {
    /// Poll again.
    Continue,
    /// The corpus is exhausted.
    Finished,
    /// Every container of the arm has exited.
    Exited,
    /// It took too long.
    TimedOut,
}

/// Decides a drain at one poll. An arm that has exited is never finished, whatever
/// it landed.
pub fn drain_step(alive: bool, rows: u64, expected_rows: u64, elapsed_ns: u128) -> (r: DrainStep)
    ensures
        r == if !alive {
            DrainStep::Exited
        } else if rows >= expected_rows {
            DrainStep::Finished
        } else if elapsed_ns > DRAIN_MAX_S * 1_000_000_000 {
            DrainStep::TimedOut
        } else {
            DrainStep::Continue
        },
{
    if !alive {
        DrainStep::Exited
    } else if rows >= expected_rows {
        DrainStep::Finished
    } else if elapsed_ns > 1_800_000_000_000 {
        DrainStep::TimedOut
    } else {
        DrainStep::Continue
    }
}

/// The last log lines of the first `n` containers, each under its name.
pub open spec fn logs_of(names: Seq<String>, logs: Seq<String>, n: nat) -> Seq<Seq<char>>
    decreases n,
{
    if n == 0 {
        seq![]
    } else {
        logs_of(names, logs, (n - 1) as nat).push(
            "--- "@ + names[n - 1]@ + " ---\n"@ + logs[n - 1]@,
        )
    }
}

/// The last log lines of an arm's containers, for a refusal.
pub fn stop_all(names: &Vec<String>, logs: &Vec<String>) -> (r: String)
    requires
        names@.len() == logs@.len(),
    ensures
        r@ == joined(logs_of(names@, logs@, names@.len()), "\n"@),
{
    let mut parts: Vec<String> = Vec::new();
    let mut i: usize = 0;
    proof {
        assert(texts(parts@) =~= seq![]);
    }
    while i < names.len()
        invariant
            names@.len() == logs@.len(),
            i <= names@.len(),
            texts(parts@) == logs_of(names@, logs@, i as nat),
        decreases names@.len() - i,
    {
        note(&mut parts, cat4("--- ", names[i].as_str(), " ---\n", logs[i].as_str()));
        i += 1;
    }
    join(&parts, "\n")
}

/// Why an arm that exited is refused.
pub fn exit_refusal(logs: &str) -> (r: String)
    ensures
        r@ == "the arm exited during the drain. Logs:\n"@ + logs@,
{
    cat2("the arm exited during the drain. Logs:\n", logs)
}

/// Why a drain that took too long is refused.
pub fn timeout_refusal(rows: u64, expected_rows: u64, logs: &str) -> (r: String)
    ensures
        r@ == "the drain did not finish within "@ + decimal(DRAIN_MAX_S as nat) + "s ("@ + decimal(
            rows as nat,
        ) + " of "@ + decimal(expected_rows as nat) + (" rows). Logs:\n"@ + logs@),
{
    let head = cat6(
        "the drain did not finish within ",
        dec(DRAIN_MAX_S as u128).as_str(),
        "s (",
        dec(rows as u128).as_str(),
        " of ",
        dec(expected_rows as u128).as_str(),
    );
    cat2(head.as_str(), cat2(" rows). Logs:\n", logs).as_str())
}

/// A pipeline being watched until its row count settles.
#[derive(Clone, Copy, Debug, PartialEq, Eq, Structural)]
pub struct Quiesce {
    /// Unchanged polls in a row.
    pub stable: u32,
    /// The latest count.
    pub prev: u64,
}

/// What to do after a poll.
#[derive(Clone, Copy, Debug, PartialEq, Eq, Structural)]
pub enum QuiesceStep {
    Continue,
    /// The count has settled.
    Settled,
    /// Time is up; a ragged frontier may yet be taken for loss.
    GaveUp,
}

pub open spec fn stable_after(q: Quiesce, n: u64) -> int {
    if n == q.prev {
        q.stable + 1
    } else {
        0
    }
}

/// Takes one poll. A batch in flight can straddle one interval, so one unchanged
/// poll is not enough.
pub fn quiesce(q: Quiesce, n: u64, past_deadline: bool) -> (r: (Quiesce, QuiesceStep))
    requires
        q.stable < STABLE_POLLS,
    ensures
        r.0.stable == stable_after(q, n),
        r.0.prev == n,
        r.1 == if stable_after(q, n) >= STABLE_POLLS {
            QuiesceStep::Settled
        } else if past_deadline {
            QuiesceStep::GaveUp
        } else {
            QuiesceStep::Continue
        },
        r.1 != QuiesceStep::Settled ==> r.0.stable < STABLE_POLLS,
{
    let stable: u32 = if n == q.prev {
        q.stable + 1
    } else {
        0
    };
    let next = Quiesce { stable, prev: n };
    if stable >= STABLE_POLLS {
        (next, QuiesceStep::Settled)
    } else if past_deadline {
        (next, QuiesceStep::GaveUp)
    } else {
        (next, QuiesceStep::Continue)
    }
}

/// The watch after the polls up to index `n`, begun with the first.
pub open spec fn watched(polls: Seq<u64>, n: nat) -> Quiesce
    decreases n,
{
    if n == 0 {
        Quiesce { stable: 0, prev: polls[0] }
    } else {
        let q = watched(polls, (n - 1) as nat);
        Quiesce { stable: stable_after(q, polls[n as int]) as u32, prev: polls[n as int] }
    }
}

/// A pipeline counts as settled exactly where its last four polls agree: three
/// unchanged in a row.
pub proof fn law_settling_takes_three_unchanged_polls(polls: Seq<u64>, n: nat)
    requires
        n < polls.len(),
        forall|k: nat| k < n ==> (#[trigger] watched(polls, k)).stable < STABLE_POLLS,
    ensures
        watched(polls, n).stable >= STABLE_POLLS <==> n >= 3 && polls[n as int] == polls[n - 1]
            && polls[n - 1] == polls[n - 2] && polls[n - 2] == polls[n - 3],
{
    reveal_with_fuel(watched, 4);
    lemma_watch_prev(polls, n);
    if n >= 1 {
        lemma_watch_prev(polls, (n - 1) as nat);
        assert(watched(polls, (n - 1) as nat).stable < STABLE_POLLS);
    }
    if n >= 2 {
        lemma_watch_prev(polls, (n - 2) as nat);
        assert(watched(polls, (n - 2) as nat).stable < STABLE_POLLS);
    }
    if n >= 3 {
        lemma_watch_prev(polls, (n - 3) as nat);
        assert(watched(polls, (n - 3) as nat).stable < STABLE_POLLS);
    }
}

proof fn lemma_watch_prev(polls: Seq<u64>, n: nat)
    ensures
        watched(polls, n).prev == polls[n as int],
{
}

/// Nanoseconds a drain took: from a second before the first row was seen, or from
/// the start where none was.
pub fn window_ns(since_first_row: Option<u64>, since_start: u64) -> (r: u128)
    ensures
        r == match since_first_row {
            Some(ns) => ns + 1_000_000_000,
            None => since_start as int,
        },
{
    match since_first_row {
        Some(ns) => ns as u128 + 1_000_000_000,
        None => since_start as u128,
    }
}

/// The arm's rows a second exceed the headroom limit's share of the rows a second
/// that the consume ceiling allows.
pub open spec fn is_infra_bound(rows: u64, window_ns: u128, ceiling_msgs_per_s: u64) -> bool {
    ceiling_msgs_per_s > 0 && window_ns > 0 && rows * 1_000_000_000 * 100 > HEADROOM_LIMIT
        * ceiling_msgs_per_s * EVENTS_PER_BATCH * window_ns
}

/// Whether an arm exceeds its headroom: above the limit, the shared consume path is
/// what is measured. Without a ceiling nothing is exceeded.
pub fn infra_bound(rows: u64, window_ns: u128, ceiling_msgs_per_s: u64) -> (r: bool)
    ensures
        r == is_infra_bound(rows, window_ns, ceiling_msgs_per_s),
{
    if ceiling_msgs_per_s == 0 || window_ns == 0 {
        return false;
    }
    let left: u128 = rows as u128 * 100_000_000_000;
    let per_ns: u128 = 7_000 * ceiling_msgs_per_s as u128;
    let q: u128 = left / per_ns;
    // `left > per_ns * window_ns`, by division: the product may not fit.
    proof {
        let (l, p, w) = (left as int, per_ns as int, window_ns as int);
        vstd::arithmetic::div_mod::lemma_fundamental_div_mod(l, p);
        assert(l == p * (l / p) + l % p);
        assert((w > l / p) ==> p * w > l) by (nonlinear_arith)
            requires
                l == p * (l / p) + l % p,
                0 <= l % p < p,
                p > 0,
        ;
        assert((w < l / p) ==> p * w < l) by (nonlinear_arith)
            requires
                l == p * (l / p) + l % p,
                0 <= l % p < p,
                p > 0,
        ;
        assert(HEADROOM_LIMIT * ceiling_msgs_per_s * EVENTS_PER_BATCH == p);
    }
    if window_ns < q {
        true
    } else if window_ns > q {
        false
    } else {
        left % per_ns > 0
    }
}

/// The status of a run that passed its gates.
pub fn status_of(rows: u64, window_ns: u128, ceiling_msgs_per_s: u64) -> (r: Status)
    ensures
        r == if is_infra_bound(rows, window_ns, ceiling_msgs_per_s) {
            Status::InfraBound
        } else {
            Status::Passed
        },
{
    if infra_bound(rows, window_ns, ceiling_msgs_per_s) {
        Status::InfraBound
    } else {
        Status::Passed
    }
}

/// The caveat that travels with a record. `share` is the percentage of the ceiling,
/// as shown.
pub open spec fn note_text(samples: nat, status: Status, share: Seq<char>) -> Seq<char> {
    decimal(samples) + " sampler samples"@ + (if status == Status::InfraBound {
        "; INFRA-BOUND at "@ + share + "% of the ceiling"@
    } else {
        seq![]
    }) + ("; gate window "@ + decimal(GATE_MAX_BATCHES as nat) + " batches"@)
}

/// The caveat that travels with a record.
pub fn run_note(samples: usize, status: Status, share: &str) -> (r: String)
    ensures
        r@ == note_text(samples as nat, status, share@),
{
    let mut out = cat2(dec(samples as u128).as_str(), " sampler samples");
    let tail = cat3("; gate window ", dec(GATE_MAX_BATCHES as u128).as_str(), " batches");
    let mut middle = String::new();
    if status == Status::InfraBound {
        middle = cat3("; INFRA-BOUND at ", share, "% of the ceiling");
    }
    proof {
        if status != Status::InfraBound {
            assert(middle@ =~= seq![]);
        }
    }
    out.push_str(middle.as_str());
    out.push_str(tail.as_str());
    out
}

/// A value of an arm's recorded configuration.
#[derive(Clone, Debug)]
pub enum Setting {
    Text(String),
    Integer(i64),
}

/// What a [`Setting`] is.
pub enum SettingView {
    Text(Seq<char>),
    Integer(i64),
}

pub open spec fn setting_view() -> spec_fn(Setting) -> SettingView {
    |s: Setting|
        match s {
            Setting::Text(t) => SettingView::Text(t@),
            Setting::Integer(n) => SettingView::Integer(n),
        }
}

/// What a [`Metric`] is.
pub struct MetricView<N> {
    pub value: N,
    pub unit: Seq<char>,
    pub higher_is_better: bool,
    pub ci95: Option<(N, N)>,
    pub n: Option<u64>,
}

pub open spec fn metric_view<N>() -> spec_fn(Metric<N>) -> MetricView<N> {
    |m: Metric<N>|
        MetricView {
            value: m.value,
            unit: m.unit@,
            higher_is_better: m.higher_is_better,
            ci95: m.ci95,
            n: m.n,
        }
}

pub open spec fn metric_at<N>(value: N, unit: Seq<char>, higher_is_better: bool) -> MetricView<N> {
    MetricView { value, unit, higher_is_better, ci95: None, n: None }
}

/// The figures of one repetition, in the caller's number type.
#[derive(Clone, Copy, Debug)]
pub struct Numbers<N> {
    pub rows_per_s: N,
    pub cpu_us_per_row: N,
    pub cores_used: N,
    pub rows_per_s_per_core: N,
    pub peak_anon_bytes: N,
    pub peak_charged_bytes: N,
    pub throttled_us: N,
    pub duplicate_rows: N,
    /// Cores and anonymous bytes of the data plane alone, where it was sampled.
    pub data_plane: Option<(N, N)>,
}

/// The recorded metrics of a repetition.
pub open spec fn metric_table<N>(x: Numbers<N>) -> Seq<(Seq<char>, MetricView<N>)> {
    let t0 = inserted(
        Seq::empty(),
        "rows_per_s"@,
        metric_at(x.rows_per_s, "records/s"@, true),
    );
    let t1 = inserted(t0, "cpu_us_per_row"@, metric_at(x.cpu_us_per_row, "us"@, false));
    let t2 = inserted(t1, "cores_used"@, metric_at(x.cores_used, "cores"@, false));
    let t3 = inserted(
        t2,
        "rows_per_s_per_core"@,
        metric_at(x.rows_per_s_per_core, "records/s"@, true),
    );
    let t4 = inserted(t3, "peak_anon_bytes"@, metric_at(x.peak_anon_bytes, "bytes"@, false));
    let t5 = inserted(
        t4,
        "peak_charged_bytes"@,
        metric_at(x.peak_charged_bytes, "bytes"@, false),
    );
    let t6 = inserted(t5, "throttled_us"@, metric_at(x.throttled_us, "us"@, false));
    let t7 = inserted(t6, "duplicate_rows"@, metric_at(x.duplicate_rows, "rows"@, false));
    match x.data_plane {
        None => t7,
        Some((cores, anon)) => inserted(
            inserted(t7, "data_plane_cores_used"@, metric_at(cores, "cores"@, false)),
            "data_plane_peak_anon_bytes"@,
            metric_at(anon, "bytes"@, false),
        ),
    }
}

/// The name of an approach in a record.
pub open spec fn approach_text(v: Variant) -> Seq<char> {
    match v.approach {
        crate::entrant::Approach::Realistic => "realistic"@,
        crate::entrant::Approach::Tuned => "tuned"@,
        crate::entrant::Approach::Stripped => "stripped"@,
    }
}

/// The name of a variant's approach in a record.
pub fn approach_name(v: &Variant) -> (r: &'static str)
    ensures
        r@ == approach_text(*v),
{
    match v.approach {
        crate::entrant::Approach::Realistic => "realistic",
        crate::entrant::Approach::Tuned => "tuned",
        crate::entrant::Approach::Stripped => "stripped",
    }
}

pub open spec fn capped(batches: u64) -> i64 {
    if batches <= i64::MAX {
        batches as i64
    } else {
        i64::MAX
    }
}

/// The configuration that every arm records.
pub open spec fn common_settings(v: Variant, partitions: i32, batches: u64) -> Seq<
    (Seq<char>, SettingView),
> {
    let t0 = inserted(Seq::empty(), "tier"@, SettingView::Text(v.tier@));
    let t1 = inserted(t0, "approach"@, SettingView::Text(approach_text(v)));
    let t2 = inserted(t1, "mode"@, SettingView::Text("drain"@));
    let t3 = inserted(t2, "partitions"@, SettingView::Integer(partitions as i64));
    inserted(t3, "batches"@, SettingView::Integer(capped(batches)))
}

/// With the first `n` of an arm's reports.
pub open spec fn with_reports(
    t: Seq<(Seq<char>, SettingView)>,
    reports: Seq<(Seq<char>, String)>,
    n: nat,
) -> Seq<(Seq<char>, SettingView)>
    decreases n,
{
    if n == 0 {
        t
    } else {
        inserted(
            with_reports(t, reports, (n - 1) as nat),
            reports[n - 1].0,
            SettingView::Text(reports[n - 1].1@),
        )
    }
}

/// With the first `n` of an arm's knobs; one that is neither number nor text is not
/// recorded.
pub open spec fn with_knob_settings(
    t: Seq<(Seq<char>, SettingView)>,
    knobs: Seq<(Seq<char>, Knob)>,
    n: nat,
) -> Seq<(Seq<char>, SettingView)>
    decreases n,
{
    if n == 0 {
        t
    } else {
        let sofar = with_knob_settings(t, knobs, (n - 1) as nat);
        match knobs[n - 1].1 {
            Knob::Integer(i) => inserted(sofar, knobs[n - 1].0, SettingView::Integer(i)),
            Knob::Text(s) => inserted(sofar, knobs[n - 1].0, SettingView::Text(s@)),
            Knob::Other(_) => sofar,
        }
    }
}

/// The recorded configuration of an arm.
pub open spec fn setting_table(v: Variant, partitions: i32, batches: u64) -> Seq<
    (Seq<char>, SettingView),
> {
    with_knob_settings(
        with_reports(common_settings(v, partitions, batches), v.reports@, v.reports@.len()),
        v.knobs@,
        v.knobs@.len(),
    )
}

/// The caveats with the first `n` of `more` among them.
pub open spec fn all_flagged(flags: Seq<Flag>, more: Seq<Flag>, n: nat) -> Seq<Flag>
    decreases n,
{
    if n == 0 {
        flags
    } else {
        flagged(all_flagged(flags, more, (n - 1) as nat), more[n - 1])
    }
}

fn set_text<N>(r: Report<N, Setting>, key: &str, value: &str) -> (out: Report<N, Setting>)
    ensures
        mapped(out.variant@, setting_view()) == inserted(
            mapped(r.variant@, setting_view()),
            key@,
            SettingView::Text(value@),
        ),
        out == (Report { variant: out.variant, ..r }),
{
    let v = Setting::Text(value.to_owned());
    proof {
        lemma_mapped_insert(r.variant@, key@, v, setting_view());
    }
    r.variant(key, v)
}

fn set_integer<N>(r: Report<N, Setting>, key: &str, value: i64) -> (out: Report<N, Setting>)
    ensures
        mapped(out.variant@, setting_view()) == inserted(
            mapped(r.variant@, setting_view()),
            key@,
            SettingView::Integer(value),
        ),
        out == (Report { variant: out.variant, ..r }),
{
    let v = Setting::Integer(value);
    proof {
        lemma_mapped_insert(r.variant@, key@, v, setting_view());
    }
    r.variant(key, v)
}

fn set_metric<N>(r: Report<N, Setting>, key: &str, m: Metric<N>) -> (out: Report<N, Setting>)
    ensures
        mapped(out.metrics@, metric_view()) == inserted(
            mapped(r.metrics@, metric_view()),
            key@,
            metric_view()(m),
        ),
        out == (Report { metrics: out.metrics, ..r }),
{
    proof {
        lemma_mapped_insert(r.metrics@, key@, m, metric_view::<N>());
    }
    r.metric(key, m)
}

fn with_settings<N>(r: Report<N, Setting>, v: &Variant, partitions: i32, batches: u64) -> (out: Report<
    N,
    Setting,
>)
    requires
        r.variant@.len() == 0,
    ensures
        mapped(out.variant@, setting_view()) == setting_table(*v, partitions, batches),
        out == (Report { variant: out.variant, ..r }),
{
    proof {
        assert(mapped(r.variant@, setting_view()) =~= Seq::empty());
    }
    let mut out = set_text(r, "tier", v.tier.as_str());
    out = set_text(out, "approach", approach_name(v));
    out = set_text(out, "mode", "drain");
    out = set_integer(out, "partitions", partitions as i64);
    let count: i64 = if batches <= 0x7fff_ffff_ffff_ffff {
        batches as i64
    } else {
        i64::MAX
    };
    out = set_integer(out, "batches", count);
    let ghost common = common_settings(*v, partitions, batches);
    let mut i: usize = 0;
    while i < v.reports.len()
        invariant
            i <= v.reports@.len(),
            out == (Report { variant: out.variant, ..r }),
            mapped(out.variant@, setting_view()) == with_reports(common, v.reports@, i as nat),
        decreases v.reports@.len() - i,
    {
        let (k, s) = v.reports.entry(i);
        out = set_text(out, k, s.as_str());
        i += 1;
    }
    let ghost reported = with_reports(common, v.reports@, v.reports@.len());
    let mut j: usize = 0;
    while j < v.knobs.len()
        invariant
            j <= v.knobs@.len(),
            out == (Report { variant: out.variant, ..r }),
            mapped(out.variant@, setting_view()) == with_knob_settings(
                reported,
                v.knobs@,
                j as nat,
            ),
        decreases v.knobs@.len() - j,
    {
        let (k, knob) = v.knobs.entry(j);
        match knob {
            Knob::Integer(n) => {
                out = set_integer(out, k, *n);
            },
            Knob::Text(s) => {
                out = set_text(out, k, s.as_str());
            },
            Knob::Other(_) => {},
        }
        j += 1;
    }
    out
}

fn with_metrics<N>(r: Report<N, Setting>, x: Numbers<N>) -> (out: Report<N, Setting>)
    requires
        r.metrics@.len() == 0,
    ensures
        mapped(out.metrics@, metric_view()) == metric_table(x),
        out == (Report { metrics: out.metrics, ..r }),
{
    proof {
        assert(mapped(r.metrics@, metric_view()) =~= Seq::<(Seq<char>, MetricView<N>)>::empty());
    }
    let mut out = set_metric(r, "rows_per_s", Metric::maximize(x.rows_per_s, "records/s"));
    out = set_metric(out, "cpu_us_per_row", Metric::minimize(x.cpu_us_per_row, "us"));
    out = set_metric(out, "cores_used", Metric::minimize(x.cores_used, "cores"));
    out = set_metric(
        out,
        "rows_per_s_per_core",
        Metric::maximize(x.rows_per_s_per_core, "records/s"),
    );
    out = set_metric(out, "peak_anon_bytes", Metric::bytes(x.peak_anon_bytes));
    out = set_metric(out, "peak_charged_bytes", Metric::bytes(x.peak_charged_bytes));
    out = set_metric(out, "throttled_us", Metric::minimize(x.throttled_us, "us"));
    out = set_metric(out, "duplicate_rows", Metric::minimize(x.duplicate_rows, "rows"));
    if let Some((cores, anon)) = x.data_plane {
        out = set_metric(out, "data_plane_cores_used", Metric::minimize(cores, "cores"));
        out = set_metric(out, "data_plane_peak_anon_bytes", Metric::bytes(anon));
    }
    out
}

/// The record of one repetition, on a fresh record of its run. Metrics are attached
/// only where the run passed: above the headroom limit the shared consume path is what
/// was measured, so such a run is recorded and no number is published from it.
pub fn complete_report<N>(
    fresh: Report<N, Setting>,
    rep: u32,
    reps: u32,
    variant: &Variant,
    partitions: i32,
    batches: u64,
    numbers: Numbers<N>,
    flags: &Vec<Flag>,
    note: String,
) -> (r: Report<N, Setting>)
    requires
        fresh.variant@.len() == 0,
        fresh.metrics@.len() == 0,
    ensures
        mapped(r.variant@, setting_view()) == setting_table(*variant, partitions, batches),
        fresh.status == Status::Passed ==> mapped(r.metrics@, metric_view()) == metric_table(
            numbers,
        ),
        fresh.status == Status::Passed ==> {
            &&& holds_metric(r.metrics@, "rows_per_s"@, numbers.rows_per_s, "records/s"@, true)
            &&& holds_metric(r.metrics@, "cpu_us_per_row"@, numbers.cpu_us_per_row, "us"@, false)
            &&& holds_metric(r.metrics@, "cores_used"@, numbers.cores_used, "cores"@, false)
            &&& holds_metric(
                r.metrics@,
                "rows_per_s_per_core"@,
                numbers.rows_per_s_per_core,
                "records/s"@,
                true,
            )
            &&& holds_metric(
                r.metrics@,
                "peak_anon_bytes"@,
                numbers.peak_anon_bytes,
                "bytes"@,
                false,
            )
            &&& holds_metric(
                r.metrics@,
                "peak_charged_bytes"@,
                numbers.peak_charged_bytes,
                "bytes"@,
                false,
            )
            &&& holds_metric(r.metrics@, "throttled_us"@, numbers.throttled_us, "us"@, false)
            &&& holds_metric(r.metrics@, "duplicate_rows"@, numbers.duplicate_rows, "rows"@, false)
        },
        fresh.status != Status::Passed ==> r.metrics@.len() == 0,
        r.flags@ == all_flagged(fresh.flags@, flags@, flags@.len()),
        r == (Report {
            rep,
            reps,
            variant: r.variant,
            metrics: r.metrics,
            flags: r.flags,
            note: Some(note),
            ..fresh
        }),
{
    let mut out = with_settings(fresh.rep(rep, reps), variant, partitions, batches);
    if out.status == Status::Passed {
        out = with_metrics(out, numbers);
        proof {
            law_each_metric_is_the_figure_of_its_name(out.metrics@, numbers);
        }
    }
    let ghost base = out;
    let mut i: usize = 0;
    while i < flags.len()
        invariant
            i <= flags@.len(),
            out == (Report { flags: out.flags, ..base }),
            out.flags@ == all_flagged(base.flags@, flags@, i as nat),
        decreases flags@.len() - i,
    {
        out = out.flag(flags[i]);
        i += 1;
    }
    out.note(note)
}

/// The record of a repetition that was refused: no metrics, and the reason. With it
/// "ran and failed" is told from "never ran".
pub fn failed_report<N>(
    fresh: Report<N, Setting>,
    rep: u32,
    reps: u32,
    variant: &Variant,
    partitions: i32,
    batches: u64,
    why: String,
) -> (r: Report<N, Setting>)
    requires
        fresh.status == Status::Failed,
        fresh.variant@.len() == 0,
        fresh.metrics@.len() == 0,
    ensures
        mapped(r.variant@, setting_view()) == setting_table(*variant, partitions, batches),
        r.metrics@.len() == 0,
        r.note == Some(why),
        r == (Report { rep, reps, variant: r.variant, note: Some(why), ..fresh }),
{
    with_settings(fresh.rep(rep, reps), variant, partitions, batches).note(why)
}

/// What a repetition measured, once its gates had passed.
#[derive(Debug)]
pub struct Measured<N> {
    /// Rows that landed during the drain.
    pub rows: u64,
    /// Nanoseconds the drain took.
    pub window_ns: u128,
    /// Samples behind the costs.
    pub samples: usize,
    /// Whether the arm ran into its CPU cap.
    pub throttled: bool,
    /// The percentage of the consume ceiling, as shown.
    pub share: String,
    pub numbers: Numbers<N>,
}

/// The status of a repetition: refused, above its headroom, or passed.
pub open spec fn outcome_status<N>(outcome: Result<Measured<N>, String>, ceiling: u64) -> Status {
    match outcome {
        Err(_) => Status::Failed,
        Ok(m) => if is_infra_bound(m.rows, m.window_ns, ceiling) {
            Status::InfraBound
        } else {
            Status::Passed
        },
    }
}

/// The flags of a repetition: those of its sweep, and that it was throttled.
pub open spec fn outcome_flags<N>(outcome: Result<Measured<N>, String>, flags: Seq<Flag>) -> Seq<Flag> {
    match outcome {
        Err(_) => seq![],
        Ok(m) => {
            let all = all_flagged(seq![], flags, flags.len());
            if m.throttled {
                flagged(all, Flag::CpuCapThrottled)
            } else {
                all
            }
        },
    }
}

/// The one record that a repetition leaves behind, whatever became of it. A refusal is
/// recorded as failed, with the reason as its note; a run above its headroom is
/// recorded as such; and only a run that passed carries metrics.
pub fn repetition_report<N>(
    sut: Sut,
    meta: RunMeta,
    rep: u32,
    reps: u32,
    variant: &Variant,
    partitions: i32,
    batches: u64,
    flags: &Vec<Flag>,
    outcome: Result<Measured<N>, String>,
) -> (r: Report<N, Setting>)
    ensures
        is_run_id(r.run_id@),
        r.schema == SCHEMA_VERSION,
        r.bench@ == "kafka_avro_clickhouse"@,
        r.kind == Kind::Measurement,
        r.rep == rep,
        r.reps == reps,
        r.sut == sut,
        r.run == meta,
        r.superseded_by is None,
        mapped(r.variant@, setting_view()) == setting_table(*variant, partitions, batches),
        r.status == outcome_status(outcome, meta.infra.ceiling_msgs_per_s),
        r.flags@ == outcome_flags(outcome, flags@),
        match outcome {
            Err(why) => r.metrics@.len() == 0 && r.note == Some(why),
            Ok(m) => {
                &&& r.note is Some
                &&& r.note->Some_0@ == note_text(m.samples as nat, r.status, m.share@)
                &&& r.status == Status::Passed ==> mapped(r.metrics@, metric_view())
                    == metric_table(m.numbers)
                &&& r.status != Status::Passed ==> r.metrics@.len() == 0
            },
        },
{
    match outcome {
        Err(why) => {
            let fresh = Report::new(
                "kafka_avro_clickhouse",
                Kind::Measurement,
                Status::Failed,
                sut,
                meta,
            );
            let r = failed_report(fresh, rep, reps, variant, partitions, batches, why);
            proof {
                assert(r.flags@ =~= seq![]);
            }
            r
        },
        Ok(m) => {
            let status = status_of(m.rows, m.window_ns, meta.infra.ceiling_msgs_per_s);
            let text = run_note(m.samples, status, m.share.as_str());
            let fresh = Report::new(
                "kafka_avro_clickhouse",
                Kind::Measurement,
                status,
                sut,
                meta,
            );
            proof {
                assert(fresh.flags@ =~= seq![]);
            }
            let r = complete_report(
                fresh,
                rep,
                reps,
                variant,
                partitions,
                batches,
                m.numbers,
                flags,
                text,
            );
            if m.throttled {
                r.flag(Flag::CpuCapThrottled)
            } else {
                r
            }
        },
    }
}

/// Why an arm that was sampled too little is refused.
pub fn sample_refusal(logs: &str) -> (r: String)
    ensures
        r@
            == "the cgroup sampler produced fewer than two samples, so there is no CPU delta and no measurement. Logs:\n"@
            + logs@,
{
    cat2(
        "the cgroup sampler produced fewer than two samples, so there is no CPU delta and no measurement. Logs:\n",
        logs,
    )
}

/// Why an arm is refused for what landed, if it is: the gates could not be judged, or
/// they did not pass.
pub fn gate_refusal(judged: &Result<Gates, String>, logs: &str) -> (r: Option<String>)
    ensures
        match *judged {
            Err(e) => r is Some && r->Some_0@ == e@ + "\nLogs:\n"@ + logs@,
            Ok(g) => match r {
                None => g.passes(),
                Some(why) => !g.passes() && why@ == "correctness gate failed: "@ + joined(
                    g.reasons(),
                    "; "@,
                ) + "\nLogs:\n"@ + logs@,
            },
        },
{
    match judged {
        Err(e) => Some(cat3(e.as_str(), "\nLogs:\n", logs)),
        Ok(g) => match g.failure() {
            None => None,
            Some(why) => Some(
                cat4("correctness gate failed: ", why.as_str(), "\nLogs:\n", logs),
            ),
        },
    }
}

/// Name `name` among `names` from index `i` on, or their number where it is not there.
pub open spec fn named_at(names: Seq<Seq<char>>, name: Seq<char>, i: int) -> int
    decreases names.len() - i,
{
    if i < 0 || i >= names.len() || names[i] == name {
        i
    } else {
        named_at(names, name, i + 1)
    }
}

/// Which of an arm's containers gives the data-plane figures: the first that has the
/// name of the entrant's data plane.
pub fn data_plane_part(e: &Entrant, names: &Vec<String>) -> (r: Option<usize>)
    ensures
        match data_plane_of(*e) {
            None => r is None,
            Some(c) => {
                let k = named_at(texts(names@), "spate-bench-sut-"@ + c.name@, 0);
                match r {
                    Some(i) => k == i && i < names@.len(),
                    None => k >= names@.len(),
                }
            },
        },
{
    let name = match e.data_plane() {
        None => return None,
        Some(c) => cat2("spate-bench-sut-", c.name.as_str()),
    };
    let ghost all = texts(names@);
    let mut i: usize = 0;
    while i < names.len()
        invariant
            all == texts(names@),
            i <= names@.len(),
            data_plane_of(*e) is Some,
            name@ == "spate-bench-sut-"@ + data_plane_of(*e)->Some_0.name@,
            named_at(all, name@, 0) == named_at(all, name@, i as int),
        decreases names@.len() - i,
    {
        proof {
            assert(all.len() == names@.len());
            assert(all[i as int] == names@[i as int]@);
        }
        if same(names[i].as_str(), name.as_str()) {
            return Some(i);
        }
        i += 1;
    }
    proof {
        assert(all.len() == names@.len());
    }
    None
}

// ---------------------------------------------------------------------------
// A sweep
// ---------------------------------------------------------------------------

pub open spec fn class_text(c: Class) -> Seq<char> {
    match c {
        Class::Authoritative => "authoritative"@,
        Class::Indicative => "indicative"@,
        Class::Fixture => "fixture"@,
    }
}

fn class_name(c: Class) -> (r: &'static str)
    ensures
        r@ == class_text(c),
{
    match c {
        Class::Authoritative => "authoritative",
        Class::Indicative => "indicative",
        Class::Fixture => "fixture",
    }
}

/// The plan of a sweep, stated before anything is spent.
pub fn plan_line(arms: usize, reps: u32, env: &Environment) -> (r: String)
    ensures
        r@ == "plan: "@ + decimal(arms as nat) + " arm(s) x "@ + decimal(reps as nat)
            + " rep(s) = "@ + decimal((arms * reps) as nat) + (" run(s), interleaved, on "@
            + env.spec.id@ + " ["@ + class_text(env.spec.class) + "]"@),
{
    assert(arms * reps <= u64::MAX * u32::MAX) by (nonlinear_arith)
        requires
            arms <= u64::MAX,
            reps <= u32::MAX,
    ;
    assert(arms * reps >= 0) by (nonlinear_arith)
        requires
            arms >= 0,
            reps >= 0,
    ;
    let total: u128 = arms as u128 * reps as u128;
    let head = cat6(
        "plan: ",
        dec(arms as u128).as_str(),
        " arm(s) x ",
        dec(reps as u128).as_str(),
        " rep(s) = ",
        dec(total).as_str(),
    );
    let tail = cat5(
        " run(s), interleaved, on ",
        env.spec.id.as_str(),
        " [",
        class_name(env.spec.class),
        "]",
    );
    cat2(head.as_str(), tail.as_str())
}

pub open spec fn wire_format(v: Variant) -> Seq<char> {
    match lookup(v.reports@, "wire_format"@) {
        Some(s) => s@,
        None => "-"@,
    }
}

/// An arm's line in the plan: what it is, and the digest of the image it would run, or
/// `-` where none can be read yet.
pub fn plan_arm(arm: &Arm, digest: Option<&str>) -> (r: String)
    ensures
        r@ == "  "@ + arm.entrant.spec.entrant.id@ + ":"@ + arm.variant.id@ + "  tier "@
            + arm.variant.tier@ + ("  "@ + wire_format(*arm.variant) + "  "@ + match digest {
            Some(d) => d@,
            None => "-"@,
        }),
{
    let format: &str = match arm.variant.reports.get("wire_format") {
        Some(s) => s.as_str(),
        None => "-",
    };
    let head = cat6(
        "  ",
        arm.entrant.id(),
        ":",
        arm.variant.id.as_str(),
        "  tier ",
        arm.variant.tier.as_str(),
    );
    let image: &str = match digest {
        Some(d) => d,
        None => "-",
    };
    cat2(head.as_str(), cat4("  ", format, "  ", image).as_str())
}

/// Run `i` of a sweep over `arms` arms: its repetition, from one, and its arm.
pub open spec fn sweep_entry(arms: int, i: int) -> (u32, usize) {
    ((i / arms + 1) as u32, (i % arms) as usize)
}

/// The order of a sweep: every arm once for each repetition, and no arm a second time
/// before every other has run. Running one arm through and then the next would alias
/// the drift of the machine onto whichever came last.
pub fn sweep_order(arms: usize, reps: u32) -> (r: Vec<(u32, usize)>)
    requires
        arms * reps <= usize::MAX,
    ensures
        r@.len() == arms * reps,
        forall|i: int| 0 <= i < r@.len() ==> #[trigger] r@[i] == sweep_entry(arms as int, i),
{
    let mut out: Vec<(u32, usize)> = Vec::new();
    let mut rep: u32 = 0;
    proof {
        assert(arms as int * 0 == 0);
    }
    while rep < reps
        invariant
            rep <= reps,
            out@.len() == arms * rep,
            forall|i: int| 0 <= i < out@.len() ==> #[trigger] out@[i] == sweep_entry(arms as int, i),
        decreases reps - rep,
    {
        let mut a: usize = 0;
        while a < arms
            invariant
                rep < reps,
                a <= arms,
                out@.len() == arms * rep + a,
                forall|i: int|
                    0 <= i < out@.len() ==> #[trigger] out@[i] == sweep_entry(arms as int, i),
            decreases arms - a,
        {
            proof {
                let n = arms as int * rep as int + a as int;
                assert(arms as int * rep as int == rep as int * arms as int) by (nonlinear_arith);
                vstd::arithmetic::div_mod::lemma_fundamental_div_mod_converse(
                    n,
                    arms as int,
                    rep as int,
                    a as int,
                );
            }
            out.push((rep + 1, a));
            a += 1;
        }
        proof {
            assert(arms as int * (rep + 1) == arms as int * rep as int + arms as int)
                by (nonlinear_arith);
        }
        rep += 1;
    }
    out
}

/// A sweep is interleaved: between two runs of one arm, every other arm runs once, and
/// the repetition goes up by one.
pub proof fn law_sweep_is_interleaved(arms: int, i: int)
    requires
        0 < arms <= usize::MAX,
        0 <= i,
        i / arms + 2 <= u32::MAX,
    ensures
        sweep_entry(arms, i + arms).1 == sweep_entry(arms, i).1,
        sweep_entry(arms, i + arms).0 == sweep_entry(arms, i).0 + 1,
        forall|k: int| i < k < i + arms ==> (#[trigger] sweep_entry(arms, k)).1 != sweep_entry(
            arms,
            i,
        ).1,
{
    vstd::arithmetic::div_mod::lemma_mod_add_multiples_vanish(i, arms);
    vstd::arithmetic::div_mod::lemma_div_plus_one(i, arms);
    assert forall|k: int| i < k < i + arms implies (#[trigger] sweep_entry(arms, k)).1
        != sweep_entry(arms, i).1 by {
        vstd::arithmetic::div_mod::lemma_fundamental_div_mod(k, arms);
        vstd::arithmetic::div_mod::lemma_fundamental_div_mod(i, arms);
        let (qk, qi) = (k / arms, i / arms);
        vstd::arithmetic::div_mod::lemma_mod_bound(k, arms);
        vstd::arithmetic::div_mod::lemma_mod_bound(i, arms);
        if k % arms == i % arms {
            assert(k - i == arms * (qk - qi)) by (nonlinear_arith)
                requires
                    k == arms * qk + k % arms,
                    i == arms * qi + i % arms,
                    k % arms == i % arms,
            ;
            assert(false) by (nonlinear_arith)
                requires
                    0 < k - i < arms,
                    k - i == arms * (qk - qi),
            ;
        }
    }
}

/// What a sweep has produced so far.
#[derive(Debug)]
pub struct Sweep {
    /// Records written.
    pub emitted: u64,
    pub refusals: Vec<String>,
}

pub open spec fn refusal_line(entrant: Seq<char>, variant: Seq<char>, why: Seq<char>) -> Seq<char> {
    entrant + ":"@ + variant + " — "@ + why
}

impl Sweep {
    /// A sweep that has produced nothing yet.
    pub fn new() -> (r: Self)
        ensures
            r.emitted == 0,
            r.refusals@.len() == 0,
    {
        Sweep { emitted: 0, refusals: Vec::new() }
    }

    /// Takes the outcome of one run, and whether a record of it was written. A refusal
    /// is kept, and ends the sweep only where the sweep is to fail fast: the reason is
    /// then given back.
    pub fn settle(
        &mut self,
        arm: &Arm,
        outcome: Result<(), String>,
        recorded: bool,
        fail_fast: bool,
    ) -> (r: Option<String>)
        requires
            old(self).emitted < u64::MAX,
        ensures
            final(self).emitted == old(self).emitted + if recorded {
                1int
            } else {
                0
            },
            match outcome {
                Ok(_) => r is None && texts(final(self).refusals@) == texts(old(self).refusals@),
                Err(why) => {
                    &&& texts(final(self).refusals@) == texts(old(self).refusals@).push(
                        refusal_line(arm.entrant.spec.entrant.id@, arm.variant.id@, why@),
                    )
                    &&& match r {
                        Some(e) => fail_fast && e@ == "stopping after the first refusal: "@ + why@,
                        None => !fail_fast,
                    }
                },
            },
    {
        if recorded {
            self.emitted = self.emitted + 1;
        }
        match outcome {
            Ok(_) => None,
            Err(why) => {
                let line = cat5(
                    arm.entrant.id(),
                    ":",
                    arm.variant.id.as_str(),
                    " — ",
                    why.as_str(),
                );
                note(&mut self.refusals, line);
                if fail_fast {
                    Some(cat2("stopping after the first refusal: ", why.as_str()))
                } else {
                    None
                }
            },
        }
    }
}

// ---------------------------------------------------------------------------
// Laws on what is recorded
// ---------------------------------------------------------------------------

/// A record holds a metric under a name: the value, its unit, and its direction.
pub open spec fn holds_metric<N>(
    metrics: Seq<(Seq<char>, Metric<N>)>,
    name: Seq<char>,
    value: N,
    unit: Seq<char>,
    higher_is_better: bool,
) -> bool {
    match lookup(metrics, name) {
        Some(m) => m.value == value && m.unit@ == unit && m.higher_is_better == higher_is_better
            && m.ci95 is None && m.n is None,
        None => false,
    }
}

/// Each figure of a repetition is found under its own name, in its own unit, with its own
/// direction; the two of the data plane only where it was sampled; and nothing else is
/// found.
pub proof fn law_each_metric_is_the_figure_of_its_name<N>(
    metrics: Seq<(Seq<char>, Metric<N>)>,
    x: Numbers<N>,
)
    requires
        mapped(metrics, metric_view()) == metric_table(x),
    ensures
        holds_metric(metrics, "rows_per_s"@, x.rows_per_s, "records/s"@, true),
        holds_metric(metrics, "cpu_us_per_row"@, x.cpu_us_per_row, "us"@, false),
        holds_metric(metrics, "cores_used"@, x.cores_used, "cores"@, false),
        holds_metric(metrics, "rows_per_s_per_core"@, x.rows_per_s_per_core, "records/s"@, true),
        holds_metric(metrics, "peak_anon_bytes"@, x.peak_anon_bytes, "bytes"@, false),
        holds_metric(metrics, "peak_charged_bytes"@, x.peak_charged_bytes, "bytes"@, false),
        holds_metric(metrics, "throttled_us"@, x.throttled_us, "us"@, false),
        holds_metric(metrics, "duplicate_rows"@, x.duplicate_rows, "rows"@, false),
        match x.data_plane {
            Some((cores, anon)) => {
                &&& holds_metric(metrics, "data_plane_cores_used"@, cores, "cores"@, false)
                &&& holds_metric(metrics, "data_plane_peak_anon_bytes"@, anon, "bytes"@, false)
                &&& metrics.len() == 10
            },
            None => {
                &&& lookup(metrics, "data_plane_cores_used"@) is None
                &&& lookup(metrics, "data_plane_peak_anon_bytes"@) is None
                &&& metrics.len() == 8
            },
        },
{
    reveal_strlit("rows_per_s");
    reveal_strlit("cpu_us_per_row");
    reveal_strlit("cores_used");
    reveal_strlit("rows_per_s_per_core");
    reveal_strlit("peak_anon_bytes");
    reveal_strlit("peak_charged_bytes");
    reveal_strlit("throttled_us");
    reveal_strlit("duplicate_rows");
    reveal_strlit("data_plane_cores_used");
    reveal_strlit("data_plane_peak_anon_bytes");
    assert("rows_per_s"@[0] == 'r' && "cores_used"@[0] == 'c');
    assert("cpu_us_per_row"@[0] == 'c' && "duplicate_rows"@[0] == 'd');
    let e = Seq::<(Seq<char>, MetricView<N>)>::empty();
    let t0 = inserted(e, "rows_per_s"@, metric_at(x.rows_per_s, "records/s"@, true));
    lemma_insert(e, "rows_per_s"@, metric_at(x.rows_per_s, "records/s"@, true));
    lemma_inserted_len(e, "rows_per_s"@, metric_at(x.rows_per_s, "records/s"@, true));
    let m1 = metric_at(x.cpu_us_per_row, "us"@, false);
    let t1 = inserted(t0, "cpu_us_per_row"@, m1);
    lemma_insert(t0, "cpu_us_per_row"@, m1);
    lemma_inserted_len(t0, "cpu_us_per_row"@, m1);
    let m2 = metric_at(x.cores_used, "cores"@, false);
    let t2 = inserted(t1, "cores_used"@, m2);
    lemma_insert(t1, "cores_used"@, m2);
    lemma_inserted_len(t1, "cores_used"@, m2);
    let m3 = metric_at(x.rows_per_s_per_core, "records/s"@, true);
    let t3 = inserted(t2, "rows_per_s_per_core"@, m3);
    lemma_insert(t2, "rows_per_s_per_core"@, m3);
    lemma_inserted_len(t2, "rows_per_s_per_core"@, m3);
    let m4 = metric_at(x.peak_anon_bytes, "bytes"@, false);
    let t4 = inserted(t3, "peak_anon_bytes"@, m4);
    lemma_insert(t3, "peak_anon_bytes"@, m4);
    lemma_inserted_len(t3, "peak_anon_bytes"@, m4);
    let m5 = metric_at(x.peak_charged_bytes, "bytes"@, false);
    let t5 = inserted(t4, "peak_charged_bytes"@, m5);
    lemma_insert(t4, "peak_charged_bytes"@, m5);
    lemma_inserted_len(t4, "peak_charged_bytes"@, m5);
    let m6 = metric_at(x.throttled_us, "us"@, false);
    let t6 = inserted(t5, "throttled_us"@, m6);
    lemma_insert(t5, "throttled_us"@, m6);
    lemma_inserted_len(t5, "throttled_us"@, m6);
    let m7 = metric_at(x.duplicate_rows, "rows"@, false);
    let t7 = inserted(t6, "duplicate_rows"@, m7);
    lemma_insert(t6, "duplicate_rows"@, m7);
    lemma_inserted_len(t6, "duplicate_rows"@, m7);
    if let Some((cores, anon)) = x.data_plane {
        let m8 = metric_at(cores, "cores"@, false);
        let t8 = inserted(t7, "data_plane_cores_used"@, m8);
        lemma_insert(t7, "data_plane_cores_used"@, m8);
        lemma_inserted_len(t7, "data_plane_cores_used"@, m8);
        let m9 = metric_at(anon, "bytes"@, false);
        lemma_insert(t8, "data_plane_peak_anon_bytes"@, m9);
        lemma_inserted_len(t8, "data_plane_peak_anon_bytes"@, m9);
    }
    assert(mapped(metrics, metric_view()).len() == metrics.len());
    assert forall|k: Seq<char>| #[trigger] lookup(metric_table(x), k) == match lookup(metrics, k) {
        Some(m) => Some(metric_view()(m)),
        None => None,
    } by {
        lemma_lookup_mapped(metrics, metric_view(), k);
    }
    let full = metric_table(x);
    assert(lookup(full, "rows_per_s"@) is Some);
    assert(lookup(full, "cpu_us_per_row"@) == Some(m1));
    assert(lookup(full, "cores_used"@) == Some(m2));
    assert(lookup(full, "rows_per_s_per_core"@) == Some(m3));
    assert(lookup(full, "peak_anon_bytes"@) == Some(m4));
    assert(lookup(full, "peak_charged_bytes"@) == Some(m5));
    assert(lookup(full, "throttled_us"@) == Some(m6));
    assert(lookup(full, "duplicate_rows"@) == Some(m7));
    if x.data_plane is None {
        assert(lookup(full, "data_plane_cores_used"@) is None);
        assert(lookup(full, "data_plane_peak_anon_bytes"@) is None);
    } else {
        assert(lookup(full, "data_plane_cores_used"@) is Some);
        assert(lookup(full, "data_plane_peak_anon_bytes"@) is Some);
    }
}

proof fn lemma_inserted_len<V>(s: Seq<(Seq<char>, V)>, k: Seq<char>, v: V)
    requires
        lookup(s, k) is None,
    ensures
        inserted(s, k, v).len() == s.len() + 1,
    decreases s.len(),
{
    if s.len() > 0 && s[0].0 != k && !is_less(k, s[0].0) {
        lemma_inserted_len(s.skip(1), k, v);
    }
}

proof fn lemma_lookup_reports(
    t: Seq<(Seq<char>, SettingView)>,
    reports: Seq<(Seq<char>, String)>,
    n: nat,
    k: Seq<char>,
)
    requires
        n <= reports.len(),
        ascending(reports),
        ascending(t),
    ensures
        ascending(with_reports(t, reports, n)),
        lookup(with_reports(t, reports, n), k) == match lookup(reports.take(n as int), k) {
            Some(s) => Some(SettingView::Text(s@)),
            None => lookup(t, k),
        },
    decreases n,
{
    if n > 0 {
        lemma_lookup_reports(t, reports, (n - 1) as nat, k);
        lemma_lookup_take(reports, n, k);
        lemma_insert(
            with_reports(t, reports, (n - 1) as nat),
            reports[n - 1].0,
            SettingView::Text(reports[n - 1].1@),
        );
    }
}

proof fn lemma_lookup_knobs(
    t: Seq<(Seq<char>, SettingView)>,
    knobs: Seq<(Seq<char>, Knob)>,
    n: nat,
    k: Seq<char>,
)
    requires
        n <= knobs.len(),
        ascending(knobs),
        ascending(t),
    ensures
        ascending(with_knob_settings(t, knobs, n)),
        lookup(with_knob_settings(t, knobs, n), k) == match lookup(knobs.take(n as int), k) {
            Some(Knob::Integer(i)) => Some(SettingView::Integer(i)),
            Some(Knob::Text(s)) => Some(SettingView::Text(s@)),
            _ => lookup(t, k),
        },
    decreases n,
{
    if n > 0 {
        let m = (n - 1) as nat;
        lemma_lookup_knobs(t, knobs, m, k);
        lemma_lookup_take(knobs, n, k);
        let sofar = with_knob_settings(t, knobs, m);
        match knobs[n - 1].1 {
            Knob::Integer(i) => {
                lemma_insert(sofar, knobs[n - 1].0, SettingView::Integer(i));
            },
            Knob::Text(s) => {
                lemma_insert(sofar, knobs[n - 1].0, SettingView::Text(s@));
            },
            Knob::Other(_) => {
                if knobs[n - 1].0 == k {
                    lemma_lookup_absent(knobs, m, k);
                }
            },
        }
    }
}

/// A key of an ascending list does not stand before its place.
proof fn lemma_lookup_absent<V>(s: Seq<(Seq<char>, V)>, n: nat, k: Seq<char>)
    requires
        n < s.len(),
        ascending(s),
        s[n as int].0 == k,
    ensures
        lookup(s.take(n as int), k) is None,
{
    let t = s.take(n as int);
    law_lookup_finds_its_key(t, k);
    if lookup(t, k) is Some {
        let i = choose|i: int| 0 <= i < t.len() && (#[trigger] t[i]).0 == k;
        assert(is_less(s[i].0, s[n as int].0));
        lemma_less_irreflexive(k);
    }
}

/// The recorded configuration of an arm, key by key. A knob that is a number or a text is
/// recorded under its own name, before anything else that claims the name; then what the
/// variant reports of itself; then the tier, the approach, the mode, the partitions and
/// the size of the corpus.
pub proof fn law_each_setting_is_the_arms_own(v: Variant, partitions: i32, batches: u64, k: Seq<char>)
    requires
        ascending(v.knobs@),
        ascending(v.reports@),
    ensures
        lookup(setting_table(v, partitions, batches), k) == match lookup(v.knobs@, k) {
            Some(Knob::Integer(i)) => Some(SettingView::Integer(i)),
            Some(Knob::Text(s)) => Some(SettingView::Text(s@)),
            _ => match lookup(v.reports@, k) {
                Some(s) => Some(SettingView::Text(s@)),
                None => if k == "tier"@ {
                    Some(SettingView::Text(v.tier@))
                } else if k == "approach"@ {
                    Some(
                        SettingView::Text(
                            match v.approach {
                                crate::entrant::Approach::Realistic => "realistic"@,
                                crate::entrant::Approach::Tuned => "tuned"@,
                                crate::entrant::Approach::Stripped => "stripped"@,
                            },
                        ),
                    )
                } else if k == "mode"@ {
                    Some(SettingView::Text("drain"@))
                } else if k == "partitions"@ {
                    Some(SettingView::Integer(partitions as i64))
                } else if k == "batches"@ {
                    Some(
                        SettingView::Integer(
                            if batches <= i64::MAX {
                                batches as i64
                            } else {
                                i64::MAX
                            },
                        ),
                    )
                } else {
                    None
                },
            },
        },
{
    reveal_strlit("tier");
    reveal_strlit("approach");
    reveal_strlit("mode");
    reveal_strlit("partitions");
    reveal_strlit("batches");
    assert("tier"@[0] == 't' && "mode"@[0] == 'm');
    let e = Seq::<(Seq<char>, SettingView)>::empty();
    let t0 = inserted(e, "tier"@, SettingView::Text(v.tier@));
    let t1 = inserted(t0, "approach"@, SettingView::Text(approach_text(v)));
    let t2 = inserted(t1, "mode"@, SettingView::Text("drain"@));
    let t3 = inserted(t2, "partitions"@, SettingView::Integer(partitions as i64));
    lemma_insert(e, "tier"@, SettingView::Text(v.tier@));
    lemma_insert(t0, "approach"@, SettingView::Text(approach_text(v)));
    lemma_insert(t1, "mode"@, SettingView::Text("drain"@));
    lemma_insert(t2, "partitions"@, SettingView::Integer(partitions as i64));
    lemma_insert(t3, "batches"@, SettingView::Integer(capped(batches)));
    let common = common_settings(v, partitions, batches);
    lemma_lookup_reports(common, v.reports@, v.reports@.len(), k);
    let reported = with_reports(common, v.reports@, v.reports@.len());
    lemma_lookup_knobs(reported, v.knobs@, v.knobs@.len(), k);
    assert(v.reports@.take(v.reports@.len() as int) =~= v.reports@);
    assert(v.knobs@.take(v.knobs@.len() as int) =~= v.knobs@);
}

/// A record's flags are those of the sweep, each once, in order of their first
/// appearance; nothing is flagged that neither the record nor the sweep names.
pub proof fn law_flags_are_kept_once(flags: Seq<Flag>, more: Seq<Flag>, n: nat, f: Flag)
    requires
        n <= more.len(),
    ensures
        all_flagged(flags, more, n).contains(f) <==> flags.contains(f) || more.take(
            n as int,
        ).contains(f),
        flags.no_duplicates() ==> all_flagged(flags, more, n).no_duplicates(),
        all_flagged(flags, more, n).len() >= flags.len(),
        all_flagged(flags, more, n).take(flags.len() as int) == flags,
    decreases n,
{
    if n == 0 {
        assert(flags.take(flags.len() as int) =~= flags);
    } else {
        let m = (n - 1) as nat;
        law_flags_are_kept_once(flags, more, m, f);
        law_flags_are_kept_once(flags, more, m, more[n - 1]);
        let (a, b) = (all_flagged(flags, more, m), all_flagged(flags, more, n));
        let last = more[n - 1];
        assert(more.take(n as int) =~= more.take(m as int).push(last));
        if more.take(n as int).contains(f) && !more.take(m as int).contains(f) {
            let i = choose|i: int| 0 <= i < n && more.take(n as int)[i] == f;
            if i < m {
                assert(more.take(m as int)[i] == f);
            }
            assert(f == last);
        }
        if more.take(m as int).contains(f) {
            let i = choose|i: int| 0 <= i < m && more.take(m as int)[i] == f;
            assert(more.take(n as int)[i] == f);
        }
        if f == last {
            assert(more.take(n as int)[m as int] == f);
        }
        if !a.contains(last) {
            assert(b == a.push(last));
            assert(b[a.len() as int] == last);
            if a.contains(f) {
                let i = choose|i: int| 0 <= i < a.len() && a[i] == f;
                assert(b[i] == f);
            }
            assert(b.take(flags.len() as int) =~= a.take(flags.len() as int));
        }
    }
}

// ---------------------------------------------------------------------------
// Laws on how an arm is configured
// ---------------------------------------------------------------------------

proof fn lemma_spec_has_container(
    cs: Seq<Container>,
    control: bool,
    image: Seq<char>,
    env: Seq<(Seq<char>, Seq<char>)>,
    volumes: Seq<Seq<char>>,
    n: nat,
    k: int,
) -> (i: int)
    requires
        n <= cs.len(),
        0 <= k < specs_of(cs, control, image, env, volumes, n).len(),
    ensures
        0 <= i < n,
        specs_of(cs, control, image, env, volumes, n)[k] == one_spec(cs[i], image, env, volumes),
        is_control(cs, container_name(cs[i].name@)) == control,
    decreases n,
{
    let m = (n - 1) as nat;
    if k < specs_of(cs, control, image, env, volumes, m).len() {
        lemma_spec_has_container(cs, control, image, env, volumes, m, k)
    } else {
        n - 1
    }
}

proof fn lemma_container_has_spec(
    cs: Seq<Container>,
    control: bool,
    image: Seq<char>,
    env: Seq<(Seq<char>, Seq<char>)>,
    volumes: Seq<Seq<char>>,
    n: nat,
    i: int,
) -> (k: int)
    requires
        0 <= i < n <= cs.len(),
        is_control(cs, container_name(cs[i].name@)) == control,
    ensures
        0 <= k < specs_of(cs, control, image, env, volumes, n).len(),
        specs_of(cs, control, image, env, volumes, n)[k] == one_spec(cs[i], image, env, volumes),
    decreases n,
{
    let m = (n - 1) as nat;
    if i < m {
        lemma_container_has_spec(cs, control, image, env, volumes, m, i)
    } else {
        specs_of(cs, control, image, env, volumes, m).len() as int
    }
}

proof fn lemma_specs_count(
    cs: Seq<Container>,
    image: Seq<char>,
    env: Seq<(Seq<char>, Seq<char>)>,
    volumes: Seq<Seq<char>>,
    n: nat,
)
    ensures
        specs_of(cs, true, image, env, volumes, n).len() + specs_of(
            cs,
            false,
            image,
            env,
            volumes,
            n,
        ).len() == n,
    decreases n,
{
    if n > 0 {
        lemma_specs_count(cs, image, env, volumes, (n - 1) as nat);
    }
}

/// The specs of all containers, those that coordinate first.
spec fn specs_in_order(
    cs: Seq<Container>,
    image: Seq<char>,
    env: Seq<(Seq<char>, Seq<char>)>,
    volumes: Seq<Seq<char>>,
) -> Seq<SutSpecView> {
    specs_of(cs, true, image, env, volumes, cs.len()) + specs_of(
        cs,
        false,
        image,
        env,
        volumes,
        cs.len(),
    )
}

proof fn lemma_container_of(
    cs: Seq<Container>,
    image: Seq<char>,
    env: Seq<(Seq<char>, Seq<char>)>,
    volumes: Seq<Seq<char>>,
    k: int,
) -> (i: int)
    requires
        0 <= k < cs.len(),
    ensures
        specs_in_order(cs, image, env, volumes).len() == cs.len(),
        0 <= i < cs.len(),
        specs_in_order(cs, image, env, volumes)[k] == one_spec(cs[i], image, env, volumes),
        is_control(cs, container_name(cs[i].name@)) <==> k < specs_of(
            cs,
            true,
            image,
            env,
            volumes,
            cs.len(),
        ).len(),
{
    let n = cs.len();
    lemma_specs_count(cs, image, env, volumes, n);
    let first = specs_of(cs, true, image, env, volumes, n).len() as int;
    if k < first {
        lemma_spec_has_container(cs, true, image, env, volumes, n, k)
    } else {
        lemma_spec_has_container(cs, false, image, env, volumes, n, k - first)
    }
}

proof fn lemma_spec_of(
    cs: Seq<Container>,
    image: Seq<char>,
    env: Seq<(Seq<char>, Seq<char>)>,
    volumes: Seq<Seq<char>>,
    i: int,
) -> (k: int)
    requires
        0 <= i < cs.len(),
    ensures
        specs_in_order(cs, image, env, volumes).len() == cs.len(),
        0 <= k < cs.len(),
        specs_in_order(cs, image, env, volumes)[k] == one_spec(cs[i], image, env, volumes),
{
    let n = cs.len();
    lemma_specs_count(cs, image, env, volumes, n);
    if is_control(cs, container_name(cs[i].name@)) {
        lemma_container_has_spec(cs, true, image, env, volumes, n, i)
    } else {
        specs_of(cs, true, image, env, volumes, n).len() + lemma_container_has_spec(
            cs,
            false,
            image,
            env,
            volumes,
            n,
            i,
        )
    }
}

proof fn lemma_specs_run_containers(
    cs: Seq<Container>,
    image: Seq<char>,
    env: Seq<(Seq<char>, Seq<char>)>,
    volumes: Seq<Seq<char>>,
    specs: Seq<SutSpec>,
)
    requires
        spec_views(specs) == specs_in_order(cs, image, env, volumes),
        cs.len() > 0,
    ensures
        specs.len() == cs.len(),
        forall|k: int| 0 <= k < cs.len() ==> is_some_container(#[trigger] specs[k], cs, image),
        forall|i: int| 0 <= i < cs.len() ==> has_some_spec(#[trigger] cs[i], specs),
{
    let all = spec_views(specs);
    assert(all.len() == specs.len());
    let _ = lemma_spec_of(cs, image, env, volumes, 0);
    assert forall|k: int| 0 <= k < cs.len() implies is_some_container(
        #[trigger] specs[k],
        cs,
        image,
    ) by {
        let i = lemma_container_of(cs, image, env, volumes, k);
        assert(all[k] == spec_view(specs[k]));
        assert(specs[k].name@ == "spate-bench-sut-"@ + cs[i].name@);
    }
    assert forall|i: int| 0 <= i < cs.len() implies has_some_spec(#[trigger] cs[i], specs) by {
        let k = lemma_spec_of(cs, image, env, volumes, i);
        assert(all[k] == spec_view(specs[k]));
        assert(specs[k].name@ == "spate-bench-sut-"@ + cs[i].name@);
    }
}

/// An arm runs the containers that its entrant declares, all of them and no others: each
/// under its own name behind the bench's prefix, with its own CPU and memory caps and its
/// own arguments, on the image of the run, with the volumes of the entrant.
pub proof fn law_containers_run_as_declared(
    arm: Arm,
    ep: Endpoints,
    topic: Seq<char>,
    image: Seq<char>,
    group_id: Seq<char>,
    specs: Seq<SutSpecView>,
    at: int,
)
    requires
        arm_specs(arm, ep, topic, image, group_id) == Ok::<Seq<SutSpecView>, Seq<char>>(specs),
        0 <= at < specs.len(),
    ensures
        arm.entrant.spec.envelope is Some,
        ({
            let cs = arm.entrant.spec.envelope->Some_0.containers@;
            &&& specs.len() == cs.len()
            &&& exists|i: int|
                0 <= i < cs.len() && specs[at].name == "spate-bench-sut-"@ + (#[trigger] cs[i]).name@
                    && specs[at].cpus == cs[i].cpus@ && specs[at].memory == cs[i].memory@
                    && specs[at].args == texts(cs[i].args@)
            &&& exists|k: int|
                0 <= k < specs.len() && (#[trigger] specs[k]).name == "spate-bench-sut-"@
                    + cs[at].name@ && specs[k].cpus == cs[at].cpus@ && specs[k].memory
                    == cs[at].memory@ && specs[k].args == texts(cs[at].args@)
            &&& specs[at].image == image
            &&& specs[at].env == specs[0].env
            &&& arm.entrant.spec.volumes is Some ==> specs[at].volumes == texts(
                arm.entrant.spec.volumes->Some_0.named@,
            )
            &&& arm.entrant.spec.volumes is None ==> specs[at].volumes.len() == 0
        }),
{
    let cs = arm.entrant.spec.envelope->Some_0.containers@;
    let entries = text_entries(arm.entrant.spec.env@) + text_entries(arm.variant.env@);
    let s = supply(arm, ep, topic, group_id);
    let env = resolved_settings(entries, s, entries.len())->Ok_0;
    let volumes = volumes_of(*arm.entrant);
    assert(specs == specs_in_order(cs, image, env, volumes));
    let _ = lemma_spec_of(cs, image, env, volumes, 0);
    let i = lemma_container_of(cs, image, env, volumes, at);
    let k = lemma_spec_of(cs, image, env, volumes, at);
    let _ = lemma_container_of(cs, image, env, volumes, 0);
    assert(specs[at].name == "spate-bench-sut-"@ + cs[i].name@);
    assert(specs[k].name == "spate-bench-sut-"@ + cs[at].name@);
}

/// The containers that coordinate come before those that do not.
pub proof fn law_coordinators_start_first(
    arm: Arm,
    ep: Endpoints,
    topic: Seq<char>,
    image: Seq<char>,
    group_id: Seq<char>,
    specs: Seq<SutSpecView>,
    j: int,
    k: int,
)
    requires
        arm_specs(arm, ep, topic, image, group_id) == Ok::<Seq<SutSpecView>, Seq<char>>(specs),
        0 <= j < k < specs.len(),
        is_control(arm.entrant.spec.envelope->Some_0.containers@, specs[k].name),
    ensures
        is_control(arm.entrant.spec.envelope->Some_0.containers@, specs[j].name),
{
    let cs = arm.entrant.spec.envelope->Some_0.containers@;
    let entries = text_entries(arm.entrant.spec.env@) + text_entries(arm.variant.env@);
    let s = supply(arm, ep, topic, group_id);
    let env = resolved_settings(entries, s, entries.len())->Ok_0;
    let volumes = volumes_of(*arm.entrant);
    assert(specs == specs_in_order(cs, image, env, volumes));
    let _ = lemma_spec_of(cs, image, env, volumes, 0);
    let a = lemma_container_of(cs, image, env, volumes, j);
    let b = lemma_container_of(cs, image, env, volumes, k);
}

/// The container that a name stands for is the first whose declared name ends it; where
/// no declared name ends another container's, a container stands for itself, and one
/// coordinates exactly where it is declared to.
pub proof fn law_names_find_their_containers(cs: Seq<Container>, i: int)
    requires
        0 <= i < cs.len(),
        forall|j: int|
            0 <= j < i ==> !ends("spate-bench-sut-"@ + cs[i].name@, (#[trigger] cs[j]).name@),
    ensures
        declared_index(cs, "spate-bench-sut-"@ + cs[i].name@, 0) == i,
        is_control(cs, "spate-bench-sut-"@ + cs[i].name@) <==> cs[i].role == Role::ControlPlane,
{
    let name = "spate-bench-sut-"@ + cs[i].name@;
    assert(name.skip(name.len() - cs[i].name@.len()) =~= cs[i].name@);
    lemma_declared_index(cs, name, 0, i);
}

proof fn lemma_declared_index(cs: Seq<Container>, name: Seq<char>, from: int, i: int)
    requires
        0 <= from <= i < cs.len(),
        ends(name, cs[i].name@),
        forall|j: int| from <= j < i ==> !ends(name, (#[trigger] cs[j]).name@),
    ensures
        declared_index(cs, name, from) == i,
    decreases i - from,
{
    if from < i {
        assert(!ends(name, cs[from].name@));
        lemma_declared_index(cs, name, from + 1, i);
    }
}

/// The settings of an arm are the entrant's and then the variant's, each under its own
/// key, and each value is its own with the placeholders resolved.
pub proof fn law_settings_keep_their_keys(
    entries: Seq<(Seq<char>, Seq<char>)>,
    s: Supply,
    n: nat,
    i: int,
)
    requires
        n <= entries.len(),
        resolved_settings(entries, s, n) is Ok,
        0 <= i < n,
    ensures
        resolved_settings(entries, s, n)->Ok_0.len() == n,
        resolved_settings(entries, s, n)->Ok_0[i].0 == entries[i].0,
        substituted(entries[i].1, s) == Ok::<Seq<char>, Seq<char>>(
            resolved_settings(entries, s, n)->Ok_0[i].1,
        ),
    decreases n,
{
    lemma_settings_len(entries, s, (n - 1) as nat);
    if i < n - 1 {
        law_settings_keep_their_keys(entries, s, (n - 1) as nat, i);
    }
}

proof fn lemma_settings_len(entries: Seq<(Seq<char>, Seq<char>)>, s: Supply, n: nat)
    requires
        resolved_settings(entries, s, n) is Ok,
    ensures
        resolved_settings(entries, s, n)->Ok_0.len() == n,
    decreases n,
{
    if n > 0 {
        lemma_settings_len(entries, s, (n - 1) as nat);
    }
}

/// The whole environment of an arm's containers: as many settings as the entrant and the
/// variant declare, the entrant's first.
pub proof fn law_environment_is_entrant_then_variant(
    arm: Arm,
    ep: Endpoints,
    topic: Seq<char>,
    image: Seq<char>,
    group_id: Seq<char>,
    specs: Seq<SutSpecView>,
    k: int,
    i: int,
)
    requires
        arm_specs(arm, ep, topic, image, group_id) == Ok::<Seq<SutSpecView>, Seq<char>>(specs),
        0 <= k < specs.len(),
        0 <= i < arm.entrant.spec.env@.len() + arm.variant.env@.len(),
    ensures
        ({
            let a = arm.entrant.spec.env@;
            let own = if i < a.len() {
                a[i]
            } else {
                arm.variant.env@[i - a.len()]
            };
            &&& specs[k].env.len() == a.len() + arm.variant.env@.len()
            &&& specs[k].env[i].0 == own.0
            &&& substituted(own.1@, supply(arm, ep, topic, group_id)) == Ok::<
                Seq<char>,
                Seq<char>,
            >(specs[k].env[i].1)
        }),
{
    let cs = arm.entrant.spec.envelope->Some_0.containers@;
    let entries = text_entries(arm.entrant.spec.env@) + text_entries(arm.variant.env@);
    let s = supply(arm, ep, topic, group_id);
    if cs.len() > 0 {
        let env = resolved_settings(entries, s, entries.len())->Ok_0;
        let volumes = volumes_of(*arm.entrant);
        assert(specs == specs_in_order(cs, image, env, volumes));
        let _ = lemma_spec_of(cs, image, env, volumes, 0);
        let _ = lemma_container_of(cs, image, env, volumes, k);
        law_settings_keep_their_keys(entries, s, entries.len(), i);
        assert(specs[k].env == env);
    }
}

// ---------------------------------------------------------------------------
// Laws on placeholders
// ---------------------------------------------------------------------------

/// Holds no brace that opens a placeholder.
pub open spec fn is_plain(s: Seq<char>) -> bool {
    forall|i: int| 0 <= i < s.len() ==> #[trigger] s[i] != '{'
}

/// Holds no brace at all.
pub open spec fn is_bare(s: Seq<char>) -> bool {
    forall|i: int| 0 <= i < s.len() ==> #[trigger] s[i] != '{' && s[i] != '}'
}

/// The placeholder of a name.
pub open spec fn slot(name: Seq<char>) -> Seq<char> {
    seq!['{', '{'] + name + seq!['}', '}']
}

/// In a text with one placeholder, only that one stands, and only there.
proof fn lemma_slot_stands(pre: Seq<char>, a: Seq<char>, post: Seq<char>, b: Seq<char>, i: int)
    requires
        is_plain(pre),
        is_plain(post),
        is_bare(a),
        is_bare(b),
        stands_at(pre + slot(a) + post, i, slot(b)),
    ensures
        i == pre.len(),
        a == b,
{
    let s = pre + slot(a) + post;
    let n = pre.len() as int;
    let sub = s.subrange(i, i + slot(b).len());
    assert(sub[0] == '{' && sub[1] == '{');
    assert(s[i] == '{' && s[i + 1] == '{');
    if i < n {
        assert(s[i] == pre[i]);
    }
    if i >= n + slot(a).len() {
        assert(s[i] == post[i - n - slot(a).len()]);
    }
    if n < i < n + slot(a).len() {
        let j = i + 1 - n;
        if j < slot(a).len() {
            assert(s[i + 1] == slot(a)[j]);
            if j - 2 < a.len() {
                assert(slot(a)[j] == a[j - 2]);
            }
        } else {
            assert(s[i] == slot(a)[i - n]);
        }
    }
    assert(i == n);
    assert forall|k: int| 0 <= k < a.len() && k < b.len() implies a[k] == b[k] by {
        assert(sub[2 + k] == slot(b)[2 + k]);
        assert(slot(b)[2 + k] == b[k]);
        assert(s[n + 2 + k] == slot(a)[2 + k]);
        assert(slot(a)[2 + k] == a[k]);
    }
    if a.len() < b.len() {
        let k = a.len() as int;
        assert(sub[2 + k] == slot(b)[2 + k]);
        assert(slot(b)[2 + k] == b[k]);
        assert(s[n + 2 + k] == slot(a)[2 + k]);
        assert(slot(a)[2 + k] == '}');
    }
    if b.len() < a.len() {
        let k = b.len() as int;
        assert(sub[2 + k] == slot(b)[2 + k]);
        assert(slot(b)[2 + k] == '}');
        assert(s[n + 2 + k] == slot(a)[2 + k]);
        assert(slot(a)[2 + k] == a[k]);
    }
    assert(a =~= b);
}

/// Replacing a placeholder in a text without one changes nothing.
proof fn lemma_no_slot(t: Seq<char>, b: Seq<char>, v: Seq<char>)
    requires
        is_plain(t),
    ensures
        replaced(t, slot(b), v) == t,
{
    if occurs(t, slot(b)) {
        let i = choose|i: int| stands_at(t, i, slot(b));
        assert(t.subrange(i, i + slot(b).len())[0] == slot(b)[0]);
        assert(t[i] == '{');
    }
    law_replace_needs_an_occurrence(t, slot(b), v);
}

/// Replacing the one placeholder of a text puts the value in its place; replacing another
/// changes nothing.
proof fn lemma_one_slot(pre: Seq<char>, a: Seq<char>, post: Seq<char>, b: Seq<char>, v: Seq<char>)
    requires
        is_plain(pre),
        is_plain(post),
        is_bare(a),
        is_bare(b),
    ensures
        a == b ==> replaced(pre + slot(a) + post, slot(b), v) == pre + v + post,
        a != b ==> replaced(pre + slot(a) + post, slot(b), v) == pre + slot(a) + post,
{
    let s = pre + slot(a) + post;
    if a == b {
        assert forall|i: int| 0 <= i < pre.len() implies !stands_at(s, i, slot(a)) by {
            if stands_at(s, i, slot(a)) {
                lemma_slot_stands(pre, a, post, a, i);
            }
        }
        law_replace_goes_on_behind(pre, slot(a), post, v);
        lemma_no_slot(post, b, v);
    } else {
        if occurs(s, slot(b)) {
            let i = choose|i: int| stands_at(s, i, slot(b));
            lemma_slot_stands(pre, a, post, b, i);
        }
        law_replace_needs_an_occurrence(s, slot(b), v);
    }
}

/// The placeholders that every run supplies.
proof fn lemma_run_slots()
    ensures
        "{{broker_internal}}"@ == slot("broker_internal"@) && is_bare("broker_internal"@),
        "{{registry_internal}}"@ == slot("registry_internal"@) && is_bare("registry_internal"@),
        "{{clickhouse_internal}}"@ == slot("clickhouse_internal"@) && is_bare("clickhouse_internal"@),
        "{{topic}}"@ == slot("topic"@) && is_bare("topic"@),
        "{{group_id}}"@ == slot("group_id"@) && is_bare("group_id"@),
        "{{tier}}"@ == slot("tier"@) && is_bare("tier"@),
        "{{offset_reset}}"@ == slot("offset_reset"@) && is_bare("offset_reset"@),
{
    reveal_strlit("{{broker_internal}}");
    reveal_strlit("broker_internal");
    assert("{{broker_internal}}"@ =~= slot("broker_internal"@));
    reveal_strlit("{{registry_internal}}");
    reveal_strlit("registry_internal");
    assert("{{registry_internal}}"@ =~= slot("registry_internal"@));
    reveal_strlit("{{clickhouse_internal}}");
    reveal_strlit("clickhouse_internal");
    assert("{{clickhouse_internal}}"@ =~= slot("clickhouse_internal"@));
    reveal_strlit("{{topic}}");
    reveal_strlit("topic");
    assert("{{topic}}"@ =~= slot("topic"@));
    reveal_strlit("{{group_id}}");
    reveal_strlit("group_id");
    assert("{{group_id}}"@ =~= slot("group_id"@));
    reveal_strlit("{{tier}}");
    reveal_strlit("tier");
    assert("{{tier}}"@ =~= slot("tier"@));
    reveal_strlit("{{offset_reset}}");
    reveal_strlit("offset_reset");
    assert("{{offset_reset}}"@ =~= slot("offset_reset"@));
}

/// What the run supplies leaves a text alone whose one placeholder it does not know.
proof fn lemma_run_values_miss(pre: Seq<char>, a: Seq<char>, post: Seq<char>, s: Supply)
    requires
        is_plain(pre),
        is_plain(post),
        is_bare(a),
        a != "broker_internal"@,
        a != "registry_internal"@,
        a != "clickhouse_internal"@,
        a != "topic"@,
        a != "group_id"@,
        a != "tier"@,
        a != "offset_reset"@,
    ensures
        with_run_values(pre + slot(a) + post, s) == pre + slot(a) + post,
{
    lemma_run_slots();
    lemma_one_slot(pre, a, post, "broker_internal"@, s.ep.bootstrap_internal@);
    lemma_one_slot(pre, a, post, "registry_internal"@, s.ep.registry_internal@);
    lemma_one_slot(pre, a, post, "clickhouse_internal"@, s.ep.ch_internal@);
    lemma_one_slot(pre, a, post, "topic"@, s.topic);
    lemma_one_slot(pre, a, post, "group_id"@, s.group_id);
    lemma_one_slot(pre, a, post, "tier"@, s.variant.tier@);
    lemma_one_slot(pre, a, post, "offset_reset"@, "earliest"@);
}

proof fn lemma_plain_knobs(t: Seq<char>, knobs: Seq<(Seq<char>, Knob)>, n: nat)
    requires
        is_plain(t),
    ensures
        with_knobs(t, knobs, n) == t,
    decreases n,
{
    if n > 0 {
        lemma_plain_knobs(t, knobs, (n - 1) as nat);
        let name = "{{knob:"@ + knobs[n - 1].0 + "}}"@;
        reveal_strlit("{{knob:");
        reveal_strlit("}}");
        assert(name =~= slot(seq!['k', 'n', 'o', 'b', ':'] + knobs[n - 1].0));
        lemma_no_slot(t, seq!['k', 'n', 'o', 'b', ':'] + knobs[n - 1].0, knob_text(knobs[n - 1].1));
    }
}

/// The name of a container's placeholder.
spec fn container_key(name: Seq<char>) -> Seq<char> {
    seq!['c', 'o', 'n', 't', 'a', 'i', 'n', 'e', 'r', ':'] + name
}

/// The name of a knob's placeholder.
spec fn knob_key(name: Seq<char>) -> Seq<char> {
    seq!['k', 'n', 'o', 'b', ':'] + name
}

proof fn lemma_keys(name: Seq<char>)
    ensures
        "{{knob:"@ + name + "}}"@ == slot(knob_key(name)),
        "{{container:"@ + name + "}}"@ == slot(container_key(name)),
        is_bare(name) ==> is_bare(knob_key(name)) && is_bare(container_key(name)),
{
    reveal_strlit("{{knob:");
    reveal_strlit("{{container:");
    reveal_strlit("}}");
    assert("{{knob:"@ + name + "}}"@ =~= slot(knob_key(name)));
    assert("{{container:"@ + name + "}}"@ =~= slot(container_key(name)));
}

proof fn lemma_plain_containers(t: Seq<char>, cs: Seq<(Seq<char>, Seq<char>)>, n: nat)
    requires
        is_plain(t),
    ensures
        with_containers(t, cs, n) == t,
    decreases n,
{
    if n > 0 {
        lemma_plain_containers(t, cs, (n - 1) as nat);
        lemma_keys(cs[n - 1].0);
        lemma_no_slot(t, container_key(cs[n - 1].0), cs[n - 1].1);
    }
}

/// A placeholder of the run is replaced by what the run supplies under its name, where it
/// stands, and the text around it stays.
pub proof fn law_placeholder_is_its_value(
    pre: Seq<char>,
    a: Seq<char>,
    post: Seq<char>,
    value: Seq<char>,
    s: Supply,
)
    requires
        is_plain(pre),
        is_plain(post),
        is_plain(value),
        ({
            ||| a == "broker_internal"@ && value == s.ep.bootstrap_internal@
            ||| a == "registry_internal"@ && value == s.ep.registry_internal@
            ||| a == "clickhouse_internal"@ && value == s.ep.ch_internal@
            ||| a == "topic"@ && value == s.topic
            ||| a == "group_id"@ && value == s.group_id
            ||| a == "tier"@ && value == s.variant.tier@
            ||| a == "offset_reset"@ && value == "earliest"@
        }),
    ensures
        filled(pre + "{{"@ + a + "}}"@ + post, s) == pre + value + post,
        substituted(pre + "{{"@ + a + "}}"@ + post, s) == Ok::<Seq<char>, Seq<char>>(
            pre + value + post,
        ),
{
    reveal_strlit("{{");
    reveal_strlit("}}");
    lemma_run_slots();
    let raw = pre + "{{"@ + a + "}}"@ + post;
    let x = pre + value + post;
    assert(raw =~= pre + slot(a) + post);
    assert(is_plain(x));
    reveal_strlit("broker_internal");
    reveal_strlit("registry_internal");
    reveal_strlit("clickhouse_internal");
    reveal_strlit("topic");
    reveal_strlit("group_id");
    reveal_strlit("tier");
    reveal_strlit("offset_reset");
    assert("topic"@[0] == 't' && "tier"@[0] == 't' && "group_id"@[0] == 'g');
    lemma_one_slot(pre, a, post, "broker_internal"@, s.ep.bootstrap_internal@);
    lemma_no_slot(x, "broker_internal"@, s.ep.bootstrap_internal@);
    lemma_one_slot(pre, a, post, "registry_internal"@, s.ep.registry_internal@);
    lemma_no_slot(x, "registry_internal"@, s.ep.registry_internal@);
    lemma_one_slot(pre, a, post, "clickhouse_internal"@, s.ep.ch_internal@);
    lemma_no_slot(x, "clickhouse_internal"@, s.ep.ch_internal@);
    lemma_one_slot(pre, a, post, "topic"@, s.topic);
    lemma_no_slot(x, "topic"@, s.topic);
    lemma_one_slot(pre, a, post, "group_id"@, s.group_id);
    lemma_no_slot(x, "group_id"@, s.group_id);
    lemma_one_slot(pre, a, post, "tier"@, s.variant.tier@);
    lemma_no_slot(x, "tier"@, s.variant.tier@);
    lemma_one_slot(pre, a, post, "offset_reset"@, "earliest"@);
    lemma_no_slot(x, "offset_reset"@, "earliest"@);
    let knobs = s.variant.knobs@;
    lemma_plain_knobs(x, knobs, knobs.len());
    lemma_plain_containers(x, s.containers, s.containers.len());
    if occurs(x, "{{"@) {
        let i = choose|i: int| stands_at(x, i, "{{"@);
        assert(x.subrange(i, i + 2)[0] == '{');
        assert(x[i] == '{');
    }
}

proof fn lemma_knobs_fill(
    pre: Seq<char>,
    post: Seq<char>,
    knobs: Seq<(Seq<char>, Knob)>,
    n: nat,
    k: int,
)
    requires
        is_plain(pre),
        is_plain(post),
        n <= knobs.len(),
        0 <= k < knobs.len(),
        ascending(knobs),
        forall|i: int| 0 <= i < knobs.len() ==> is_bare((#[trigger] knobs[i]).0),
        is_plain(knob_text(knobs[k].1)),
    ensures
        with_knobs(pre + slot(knob_key(knobs[k].0)) + post, knobs, n) == if k < n {
            pre + knob_text(knobs[k].1) + post
        } else {
            pre + slot(knob_key(knobs[k].0)) + post
        },
    decreases n,
{
    if n > 0 {
        let m = n - 1;
        lemma_knobs_fill(pre, post, knobs, m as nat, k);
        lemma_keys(knobs[m].0);
        lemma_keys(knobs[k].0);
        let (a, b) = (knob_key(knobs[k].0), knob_key(knobs[m].0));
        lemma_one_slot(pre, a, post, b, knob_text(knobs[m].1));
        if a == b {
            assert(knobs[k].0 =~= a.skip(5));
            assert(knobs[m].0 =~= b.skip(5));
            if k < m {
                assert(is_less(knobs[k].0, knobs[m].0));
            } else if m < k {
                assert(is_less(knobs[m].0, knobs[k].0));
            }
            lemma_less_irreflexive(knobs[k].0);
        }
        let x = pre + knob_text(knobs[k].1) + post;
        assert(is_plain(x));
        lemma_no_slot(x, b, knob_text(knobs[m].1));
    }
}

/// A knob's placeholder is replaced by that knob: a number in decimal, a text as it is.
pub proof fn law_knob_placeholder_is_its_knob(pre: Seq<char>, post: Seq<char>, s: Supply, k: int)
    requires
        is_plain(pre),
        is_plain(post),
        ascending(s.variant.knobs@),
        0 <= k < s.variant.knobs@.len(),
        forall|i: int|
            0 <= i < s.variant.knobs@.len() ==> is_bare((#[trigger] s.variant.knobs@[i]).0),
        s.variant.knobs@[k].1 is Text ==> is_plain(s.variant.knobs@[k].1->Text_0@),
    ensures
        filled(pre + "{{knob:"@ + s.variant.knobs@[k].0 + "}}"@ + post, s) == pre + (
        match s.variant.knobs@[k].1 {
            Knob::Integer(n) => decimal_int(n as int),
            Knob::Text(t) => t@,
            Knob::Other(_) => seq![],
        }) + post,
{
    let knobs = s.variant.knobs@;
    let name = knobs[k].0;
    let value = knob_text(knobs[k].1);
    assert(is_plain(value)) by {
        if let Knob::Integer(n) = knobs[k].1 {
            law_integers_are_plain(n as int);
        }
    }
    lemma_keys(name);
    let a = knob_key(name);
    let raw = pre + "{{knob:"@ + name + "}}"@ + post;
    assert(raw =~= pre + ("{{knob:"@ + name + "}}"@) + post);
    assert(a[0] == 'k');
    reveal_strlit("broker_internal");
    assert("broker_internal"@[0] == 'b');
    reveal_strlit("registry_internal");
    assert("registry_internal"@[0] == 'r');
    reveal_strlit("clickhouse_internal");
    assert("clickhouse_internal"@[0] == 'c');
    reveal_strlit("topic");
    assert("topic"@[0] == 't');
    reveal_strlit("group_id");
    assert("group_id"@[0] == 'g');
    reveal_strlit("tier");
    assert("tier"@[0] == 't');
    reveal_strlit("offset_reset");
    assert("offset_reset"@[0] == 'o');
    lemma_run_values_miss(pre, a, post, s);
    lemma_knobs_fill(pre, post, knobs, knobs.len(), k);
    let x = pre + value + post;
    assert(is_plain(x));
    lemma_plain_containers(x, s.containers, s.containers.len());
}

proof fn lemma_knobs_miss(
    pre: Seq<char>,
    a: Seq<char>,
    post: Seq<char>,
    knobs: Seq<(Seq<char>, Knob)>,
    n: nat,
)
    requires
        is_plain(pre),
        is_plain(post),
        is_bare(a),
        a.len() > 0 && a[0] != 'k',
        n <= knobs.len(),
        forall|i: int| 0 <= i < knobs.len() ==> is_bare((#[trigger] knobs[i]).0),
    ensures
        with_knobs(pre + slot(a) + post, knobs, n) == pre + slot(a) + post,
    decreases n,
{
    if n > 0 {
        lemma_knobs_miss(pre, a, post, knobs, (n - 1) as nat);
        lemma_keys(knobs[n - 1].0);
        assert(knob_key(knobs[n - 1].0)[0] == 'k');
        lemma_one_slot(pre, a, post, knob_key(knobs[n - 1].0), knob_text(knobs[n - 1].1));
    }
}

proof fn lemma_containers_fill(
    pre: Seq<char>,
    post: Seq<char>,
    cs: Seq<(Seq<char>, Seq<char>)>,
    n: nat,
    k: int,
)
    requires
        is_plain(pre),
        is_plain(post),
        n <= cs.len(),
        0 <= k < cs.len(),
        ascending(cs),
        forall|i: int| 0 <= i < cs.len() ==> is_bare((#[trigger] cs[i]).0),
        is_plain(cs[k].1),
    ensures
        with_containers(pre + slot(container_key(cs[k].0)) + post, cs, n) == if k < n {
            pre + cs[k].1 + post
        } else {
            pre + slot(container_key(cs[k].0)) + post
        },
    decreases n,
{
    if n > 0 {
        let m = n - 1;
        lemma_containers_fill(pre, post, cs, m as nat, k);
        lemma_keys(cs[m].0);
        lemma_keys(cs[k].0);
        let (a, b) = (container_key(cs[k].0), container_key(cs[m].0));
        lemma_one_slot(pre, a, post, b, cs[m].1);
        if a == b {
            assert(cs[k].0 =~= a.skip(10));
            assert(cs[m].0 =~= b.skip(10));
            if k < m {
                assert(is_less(cs[k].0, cs[m].0));
            } else if m < k {
                assert(is_less(cs[m].0, cs[k].0));
            }
            lemma_less_irreflexive(cs[k].0);
        }
        let x = pre + cs[k].1 + post;
        assert(is_plain(x));
        lemma_no_slot(x, b, cs[m].1);
    }
}

/// A container's placeholder is replaced by the name that the container runs under.
pub proof fn law_container_placeholder_is_its_name(
    pre: Seq<char>,
    post: Seq<char>,
    s: Supply,
    k: int,
)
    requires
        is_plain(pre),
        is_plain(post),
        ascending(s.containers),
        0 <= k < s.containers.len(),
        forall|i: int| 0 <= i < s.containers.len() ==> is_bare((#[trigger] s.containers[i]).0),
        forall|i: int|
            0 <= i < s.variant.knobs@.len() ==> is_bare((#[trigger] s.variant.knobs@[i]).0),
        is_plain(s.containers[k].1),
    ensures
        filled(pre + "{{container:"@ + s.containers[k].0 + "}}"@ + post, s) == pre
            + s.containers[k].1 + post,
{
    let knobs = s.variant.knobs@;
    let name = s.containers[k].0;
    lemma_keys(name);
    let a = container_key(name);
    let raw = pre + "{{container:"@ + name + "}}"@ + post;
    assert(raw =~= pre + ("{{container:"@ + name + "}}"@) + post);
    assert(a[0] == 'c' && a[1] == 'o');
    reveal_strlit("broker_internal");
    assert("broker_internal"@[0] == 'b' && "broker_internal"@[1] == 'r');
    reveal_strlit("registry_internal");
    assert("registry_internal"@[0] == 'r' && "registry_internal"@[1] == 'e');
    reveal_strlit("clickhouse_internal");
    assert("clickhouse_internal"@[0] == 'c' && "clickhouse_internal"@[1] == 'l');
    reveal_strlit("topic");
    assert("topic"@[0] == 't' && "topic"@[1] == 'o');
    reveal_strlit("group_id");
    assert("group_id"@[0] == 'g' && "group_id"@[1] == 'r');
    reveal_strlit("tier");
    assert("tier"@[0] == 't' && "tier"@[1] == 'i');
    reveal_strlit("offset_reset");
    assert("offset_reset"@[0] == 'o' && "offset_reset"@[1] == 'f');
    lemma_run_values_miss(pre, a, post, s);
    lemma_knobs_miss(pre, a, post, knobs, knobs.len());
    lemma_containers_fill(pre, post, s.containers, s.containers.len(), k);
}

/// Every declared container is known by the name that it runs under, and nothing else is.
pub proof fn law_containers_are_known_by_name(cs: Seq<Container>, n: nat, k: Seq<char>)
    requires
        n <= cs.len(),
    ensures
        ascending(container_table(cs, n)),
        (exists|i: int| 0 <= i < n && (#[trigger] cs[i]).name@ == k) ==> lookup(
            container_table(cs, n),
            k,
        ) == Some("spate-bench-sut-"@ + k),
        (forall|i: int| 0 <= i < n ==> (#[trigger] cs[i]).name@ != k) ==> lookup(
            container_table(cs, n),
            k,
        ) is None,
    decreases n,
{
    if n > 0 {
        let m = (n - 1) as nat;
        law_containers_are_known_by_name(cs, m, k);
        lemma_insert(container_table(cs, m), cs[n - 1].name@, container_name(cs[n - 1].name@));
        if exists|i: int| 0 <= i < n && (#[trigger] cs[i]).name@ == k {
            let i = choose|i: int| 0 <= i < n && (#[trigger] cs[i]).name@ == k;
            if cs[n - 1].name@ != k {
                assert(i < m);
                assert(cs[i].name@ == k);
            }
        }
    }
}

// ---------------------------------------------------------------------------
// Laws on versions, caps and verdicts
// ---------------------------------------------------------------------------

/// The limits of the protocol: half an hour for a drain, a quarter of an hour to settle,
/// three unchanged polls, a hundred thousand batches for the gates, and seventy percent of
/// the ceiling.
pub proof fn law_protocol_limits()
    ensures
        DRAIN_MAX_S == 1800,
        QUIESCE_MAX_S == 900,
        STABLE_POLLS == 3,
        GATE_MAX_BATCHES == 100_000,
        HEADROOM_LIMIT == 70,
{
}

/// A word is a version exactly where it begins with a digit, holds a dot, and is made of
/// ASCII letters, digits, dots and hyphens.
pub proof fn law_version_words(t: Seq<char>)
    ensures
        is_version_word(t) <==> t.len() > 0 && '0' <= t[0] <= '9' && t.contains('.') && forall|i: int|
            0 <= i < t.len() ==> '0' <= #[trigger] t[i] <= '9' || 'a' <= t[i] <= 'z' || 'A' <= t[i]
                <= 'Z' || t[i] == '.' || t[i] == '-',
{
    lemma_first_of(t, '.');
    if t.contains('.') {
        let k = choose|k: int| 0 <= k < t.len() && t[k] == '.';
        assert(first_of(t, '.') <= k);
    }
    if first_of(t, '.') < t.len() {
        assert(t[first_of(t, '.') as int] == '.');
    }
    if is_version_word(t) {
        assert forall|i: int| 0 <= i < t.len() implies '0' <= #[trigger] t[i] <= '9' || 'a' <= t[i]
            <= 'z' || 'A' <= t[i] <= 'Z' || t[i] == '.' || t[i] == '-' by {
            assert(is_version_char(t[i]));
        }
    }
}

/// The version of a line is the first of its words that is one.
pub proof fn law_version_is_the_first_word_that_is_one(w: Seq<Seq<char>>, from: int)
    requires
        0 <= from <= w.len(),
    ensures
        match first_version(w, from) {
            Some(x) => exists|i: int|
                from <= i < w.len() && #[trigger] w[i] == x && is_version_word(x) && forall|j: int|
                    from <= j < i ==> !is_version_word(#[trigger] w[j]),
            None => forall|j: int| from <= j < w.len() ==> !is_version_word(#[trigger] w[j]),
        },
    decreases w.len() - from,
{
    if from < w.len() && !is_version_word(w[from]) {
        law_version_is_the_first_word_that_is_one(w, from + 1);
        if let Some(x) = first_version(w, from) {
            let i = choose|i: int|
                from + 1 <= i < w.len() && #[trigger] w[i] == x && is_version_word(x) && forall|j: int|
                    from + 1 <= j < i ==> !is_version_word(#[trigger] w[j]);
            assert(w[i] == x);
        }
    } else if from < w.len() {
        assert(w[from] == first_version(w, from)->Some_0);
    }
}

/// The commit of a line stands in its first parentheses, and is at least seven
/// hexadecimal digits; anything else in them is no commit.
pub proof fn law_commit_stands_in_parentheses(pre: Seq<char>, c: Seq<char>, post: Seq<char>)
    requires
        forall|i: int| 0 <= i < pre.len() ==> #[trigger] pre[i] != '(',
        forall|i: int| 0 <= i < c.len() ==> #[trigger] c[i] != ')',
    ensures
        ({
            let hex = c.len() >= 7 && forall|i: int|
                0 <= i < c.len() ==> '0' <= #[trigger] c[i] <= '9' || 'a' <= c[i] <= 'f' || 'A'
                    <= c[i] <= 'F';
            commit_in(pre + seq!['('] + c + seq![')'] + post) == if hex {
                Some(c)
            } else {
                None
            }
        }),
{
    let line = pre + seq!['('] + c + seq![')'] + post;
    let n = pre.len() as int;
    assert forall|k: int| 0 <= k < n implies line[k] != '(' by {
        assert(line[k] == pre[k]);
    }
    lemma_first_of_is(line, '(', n);
    let rest = line.skip(n);
    let m = c.len() as int + 1;
    assert forall|k: int| 0 <= k < m implies rest[k] != ')' by {
        if k > 0 {
            assert(rest[k] == c[k - 1]);
        }
    }
    assert(rest[m] == ')');
    lemma_first_of_is(rest, ')', m);
    assert(rest.subrange(1, m) =~= c);
    if is_commit(c) {
        assert forall|i: int| 0 <= i < c.len() implies '0' <= #[trigger] c[i] <= '9' || 'a' <= c[i]
            <= 'f' || 'A' <= c[i] <= 'F' by {
            assert(is_commit_char(c[i]));
        }
    }
}

/// A further line of what an arm says of itself: one that names the toolchain says that
/// and nothing else; any other adds a version or a commit only where none was found
/// before.
pub proof fn law_first_version_and_commit_stand(all: Seq<Seq<char>>, line: Seq<char>)
    ensures
        ({
            let n = all.len();
            let (v, w) = (version_after(all, n), version_after(all.push(line), n + 1));
            let t = trimmed(line);
            let names_toolchain = begins(t, "toolchain:"@);
            &&& v.version is Some ==> w.version == v.version
            &&& v.commit is Some ==> w.commit == v.commit
            &&& names_toolchain ==> w.version == v.version && w.commit == v.commit && w.toolchain
                == Some(trimmed(t.skip(10)))
            &&& !names_toolchain ==> w.toolchain == v.toolchain
            &&& !names_toolchain && v.version is None ==> w.version == first_version(words_of(t), 0)
            &&& !names_toolchain && v.commit is None ==> w.commit == commit_in(t)
            &&& version_after(all, 0).version is None
            &&& version_after(all, 0).commit is None
            &&& version_after(all, 0).toolchain is None
        }),
{
    reveal_strlit("toolchain:");
    lemma_version_prefix(all, all.push(line), all.len());
}

proof fn lemma_version_prefix(a: Seq<Seq<char>>, b: Seq<Seq<char>>, n: nat)
    requires
        n <= a.len() <= b.len(),
        forall|i: int| 0 <= i < n ==> a[i] == b[i],
    ensures
        version_after(a, n) == version_after(b, n),
    decreases n,
{
    if n > 0 {
        lemma_version_prefix(a, b, (n - 1) as nat);
    }
}

/// An arm may start exactly where its digest was read, its version command did not fail,
/// what it says is the pinned version wherever it says one and one is pinned, and it says
/// a version or a commit.
pub proof fn law_start_is_owed_evidence(
    e: Entrant,
    image: Seq<char>,
    digest: Result<String, String>,
    said: Option<Result<String, String>>,
)
    ensures
        ({
            let v = match said {
                Some(Ok(s)) => version_said(Some(s@)),
                _ => version_said(None),
            };
            start_refusal(e, image, digest, said) is None <==> {
                &&& digest is Ok
                &&& !(said is Some && said->Some_0 is Err)
                &&& e.spec.version is Some && e.spec.version->Some_0.pinned@.len() > 0
                    && v.version is Some ==> v.version->Some_0 == e.spec.version->Some_0.pinned@
                &&& v.version is Some || v.commit is Some
            }
        }),
{
}

/// A record says what ran: the entrant and the variant by their ids, the version, the
/// commit and the toolchain as the arm said them, the image that was run and its digest.
pub proof fn law_record_says_what_ran(
    s: Sut,
    e: Entrant,
    v: Variant,
    image: Seq<char>,
    digest: String,
    said: VersionView,
)
    requires
        is_resolved(s, e, v, image, digest, said),
    ensures
        s.entrant@ == e.spec.entrant.id@,
        s.variant_id@ == v.id@,
        s.version is Some <==> said.version is Some,
        s.version is Some ==> s.version->Some_0@ == said.version->Some_0,
        s.commit is Some <==> said.commit is Some,
        s.commit is Some ==> s.commit->Some_0@ == said.commit->Some_0,
        s.toolchain is Some <==> said.toolchain is Some,
        s.toolchain is Some ==> s.toolchain->Some_0@ == said.toolchain->Some_0,
        s.image@ == image,
        s.image_digest@ == digest@,
{
}

/// The name of a consumer group tells its token: two tokens make two groups.
pub proof fn law_groups_differ_by_token(
    entrant: Seq<char>,
    variant: Seq<char>,
    a: Seq<char>,
    b: Seq<char>,
)
    requires
        a != b,
    ensures
        group_name(entrant, variant, a) != group_name(entrant, variant, b),
{
    let head = "comparison-"@ + entrant + "-"@ + variant + "-"@;
    let (x, y) = (group_name(entrant, variant, a), group_name(entrant, variant, b));
    if x == y {
        assert(x.skip(head.len() as int) =~= a);
        assert(y.skip(head.len() as int) =~= b);
    }
}

/// What a sampler's header says of a field is what follows the field's name in the first
/// word that begins with it.
pub proof fn law_field_is_in_the_first_word_that_has_it(w: Seq<Seq<char>>, key: Seq<char>, from: int)
    requires
        0 <= from <= w.len(),
    ensures
        match field_after(w, key, from) {
            Some(x) => exists|i: int|
                from <= i < w.len() && #[trigger] w[i] == key + x && forall|j: int|
                    from <= j < i ==> !begins(#[trigger] w[j], key),
            None => forall|j: int| from <= j < w.len() ==> !begins(#[trigger] w[j], key),
        },
    decreases w.len() - from,
{
    if from < w.len() && !begins(w[from], key) {
        law_field_is_in_the_first_word_that_has_it(w, key, from + 1);
        if let Some(x) = field_after(w, key, from) {
            let i = choose|i: int|
                from + 1 <= i < w.len() && #[trigger] w[i] == key + x && forall|j: int|
                    from + 1 <= j < i ==> !begins(#[trigger] w[j], key);
            assert(w[i] == key + x);
        }
    } else if from < w.len() {
        let x = field_after(w, key, from)->Some_0;
        assert(w[from] =~= key + x);
    }
}

/// The quota and the period of a CPU cap stand on the two sides of a slash.
pub proof fn law_quota_and_period(quota: Seq<char>, period: Seq<char>)
    requires
        forall|i: int| 0 <= i < quota.len() ==> quota[i] != '/',
        forall|i: int| 0 <= i < period.len() ==> period[i] != '/',
    ensures
        arm_cpu_parts(quota + seq!['/'] + period) == (quota, period),
        arm_cpu_parts(quota).0 == quota,
{
    let cpu = quota + seq!['/'] + period;
    let n = quota.len() as int;
    assert forall|k: int| 0 <= k < n implies cpu[k] != '/' by {
        assert(cpu[k] == quota[k]);
    }
    lemma_first_of_is(cpu, '/', n);
    assert(cpu.take(n) =~= quota);
    assert(cpu.skip(n + 1) =~= period);
    lemma_first_of_is(period, '/', period.len() as int);
    lemma_first_of_is(quota, '/', n);
    assert(split_at_each(period, '/') == seq![period]);
    assert(split_at_each(cpu, '/') == seq![quota] + split_at_each(cpu.skip(n + 1), '/'));
    assert(split_at_each(cpu, '/') =~= seq![quota, period]);
}

/// The caps of an arm are accepted exactly where its header gives both, its CPU quota is
/// one and agrees with the cores that are declared, and its memory limit is the number of
/// bytes that is declared.
pub proof fn law_accepted_caps_are_those_declared(
    name: Seq<char>,
    declared: Container,
    meta: Seq<char>,
    cores_agree: bool,
)
    ensures
        ({
            let cpu = field_after(words_of(meta), "cpu.max="@, 0);
            let mem = field_after(words_of(meta), "memory.max="@, 0);
            arm_cap_refusal(name, declared, meta, cores_agree) is None <==> {
                &&& cpu is Some && mem is Some
                &&& arm_cpu_parts(cpu->Some_0).0 != "max"@
                &&& cores_agree
                &&& parsed_nat(mem->Some_0, u64::MAX as nat) is Some
                &&& memory_of(declared.memory@) == parsed_nat(mem->Some_0, u64::MAX as nat)
            }
        }),
{
}

/// The headroom rule. Without a ceiling or without a window nothing is exceeded;
/// otherwise an arm is infra-bound exactly above seventy percent of the rows that the
/// ceiling allows, at a hundred rows to a message; and more rows never bring it back.
pub proof fn law_headroom_is_seventy_percent(rows: u64, more: u64, window_ns: u128, ceiling: u64)
    ensures
        ceiling == 0 || window_ns == 0 ==> !is_infra_bound(rows, window_ns, ceiling),
        ceiling > 0 && window_ns > 0 ==> (is_infra_bound(rows, window_ns, ceiling) <==> rows * 100
            * 1_000_000_000 > 70 * (ceiling * 100) * window_ns),
        rows <= more && is_infra_bound(rows, window_ns, ceiling) ==> is_infra_bound(
            more,
            window_ns,
            ceiling,
        ),
{
    let (r, w, c) = (rows as int, window_ns as int, ceiling as int);
    assert(r * 1_000_000_000 * 100 == r * 100 * 1_000_000_000) by (nonlinear_arith);
    assert(70 * c * 100 * w == 70 * (c * 100) * w) by (nonlinear_arith);
}

/// The status of a repetition: failed where it was refused; infra-bound where it exceeded
/// its headroom; and passed otherwise. Its flags are the sweep's, and that it was
/// throttled where it was; a refused one has none.
pub proof fn law_status_and_flags_of_a_repetition<N>(
    outcome: Result<Measured<N>, String>,
    ceiling: u64,
    flags: Seq<Flag>,
    f: Flag,
)
    ensures
        outcome is Err ==> outcome_status(outcome, ceiling) == Status::Failed && outcome_flags(
            outcome,
            flags,
        ).len() == 0,
        outcome is Ok ==> {
            let m = outcome->Ok_0;
            let bound = ceiling > 0 && m.window_ns > 0 && m.rows * 100 * 1_000_000_000 > 70 * (
            ceiling * 100) * m.window_ns;
            &&& bound ==> outcome_status(outcome, ceiling) == Status::InfraBound
            &&& !bound ==> outcome_status(outcome, ceiling) == Status::Passed
            &&& outcome_flags(outcome, flags).contains(f) <==> flags.contains(f) || (m.throttled
                && f == Flag::CpuCapThrottled)
        },
{
    if let Ok(m) = outcome {
        law_headroom_is_seventy_percent(m.rows, m.rows, m.window_ns, ceiling);
        let none = Seq::<Flag>::empty();
        law_flags_are_kept_once(none, flags, flags.len(), f);
        law_flags_are_kept_once(none, flags, flags.len(), Flag::CpuCapThrottled);
        assert(flags.take(flags.len() as int) =~= flags);
        let all = all_flagged(none, flags, flags.len());
        if m.throttled && !all.contains(Flag::CpuCapThrottled) {
            let b = all.push(Flag::CpuCapThrottled);
            assert(b[all.len() as int] == Flag::CpuCapThrottled);
            if all.contains(f) {
                let i = choose|i: int| 0 <= i < all.len() && all[i] == f;
                assert(b[i] == f);
            }
        }
    }
}

/// The caveat of a record counts its samples and names the gated window; it speaks of
/// the ceiling exactly where the run was infra-bound, and then says by how much.
pub proof fn law_note_tells_an_infra_bound_run(samples: nat, status: Status, share: Seq<char>)
    ensures
        begins(note_text(samples, status, share), decimal(samples)),
        ends(note_text(samples, status, share), "; gate window 100000 batches"@),
        status != Status::InfraBound ==> note_text(samples, status, share) == decimal(samples)
            + " sampler samples"@ + "; gate window 100000 batches"@,
        status == Status::InfraBound ==> note_text(samples, status, share) == decimal(samples)
            + " sampler samples"@ + "; INFRA-BOUND at "@ + share + "% of the ceiling"@
            + "; gate window 100000 batches"@,
{
    reveal_strlit("; gate window ");
    reveal_strlit(" batches");
    reveal_strlit("; gate window 100000 batches");
    reveal_with_fuel(decimal, 7);
    assert(decimal(100_000) =~= seq!['1', '0', '0', '0', '0', '0']);
    let tail = "; gate window "@ + decimal(100_000) + " batches"@;
    assert(tail =~= "; gate window 100000 batches"@);
    let n = note_text(samples, status, share);
    assert(n.take(decimal(samples).len() as int) =~= decimal(samples));
    assert(n.skip(n.len() - tail.len()) =~= tail);
    if status == Status::InfraBound {
        assert(n =~= decimal(samples) + " sampler samples"@ + "; INFRA-BOUND at "@ + share
            + "% of the ceiling"@ + tail);
    } else {
        assert(n =~= decimal(samples) + " sampler samples"@ + tail);
    }
}

/// The data-plane figures are those of the first container that runs under the name of
/// the entrant's first data-plane container.
pub proof fn law_data_plane_is_found_by_name(names: Seq<Seq<char>>, name: Seq<char>, from: int)
    requires
        0 <= from <= names.len(),
    ensures
        from <= named_at(names, name, from) <= names.len(),
        named_at(names, name, from) < names.len() ==> names[named_at(names, name, from)] == name,
        forall|j: int| from <= j < named_at(names, name, from) ==> #[trigger] names[j] != name,
    decreases names.len() - from,
{
    if from < names.len() && names[from] != name {
        law_data_plane_is_found_by_name(names, name, from + 1);
    }
}

/// A container is declared by the first name that ends its own.
pub proof fn law_declared_by_the_first_name_that_ends_it(
    cs: Seq<Container>,
    name: Seq<char>,
    from: int,
)
    requires
        0 <= from <= cs.len(),
    ensures
        from <= declared_index(cs, name, from) <= cs.len(),
        declared_index(cs, name, from) < cs.len() ==> ends(
            name,
            cs[declared_index(cs, name, from)].name@,
        ),
        forall|j: int|
            from <= j < declared_index(cs, name, from) ==> !ends(name, (#[trigger] cs[j]).name@),
    decreases cs.len() - from,
{
    if from < cs.len() && !ends(name, cs[from].name@) {
        law_declared_by_the_first_name_that_ends_it(cs, name, from + 1);
    }
}

/// A sweep over some arms runs each of them once in every repetition, and the repetitions
/// one after the other.
pub proof fn law_every_arm_runs_in_every_repetition(arms: int, reps: int, rep: int, arm: int)
    requires
        0 < arms <= usize::MAX,
        1 <= rep <= reps <= u32::MAX,
        0 <= arm < arms,
    ensures
        0 <= (rep - 1) * arms + arm < arms * reps,
        sweep_entry(arms, (rep - 1) * arms + arm) == (rep as u32, arm as usize),
{
    let i = (rep - 1) * arms + arm;
    assert(0 <= i < arms * reps) by (nonlinear_arith)
        requires
            i == (rep - 1) * arms + arm,
            1 <= rep <= reps,
            0 <= arm < arms,
    ;
    assert((rep - 1) * arms == arms * (rep - 1)) by (nonlinear_arith);
    vstd::arithmetic::div_mod::lemma_fundamental_div_mod_converse(i, arms, rep - 1, arm);
}

/// The last log lines of an arm are those of each of its containers, under its own name, in
/// order.
pub proof fn law_logs_stand_under_their_names(names: Seq<String>, logs: Seq<String>, n: nat, i: int)
    requires
        n <= names.len(),
        n <= logs.len(),
        0 <= i < n,
    ensures
        logs_of(names, logs, n).len() == n,
        logs_of(names, logs, n)[i] == "--- "@ + names[i]@ + " ---\n"@ + logs[i]@,
    decreases n,
{
    lemma_logs_len(names, logs, (n - 1) as nat);
    if i < n - 1 {
        law_logs_stand_under_their_names(names, logs, (n - 1) as nat, i);
    }
}

proof fn lemma_logs_len(names: Seq<String>, logs: Seq<String>, n: nat)
    ensures
        logs_of(names, logs, n).len() == n,
    decreases n,
{
    if n > 0 {
        lemma_logs_len(names, logs, (n - 1) as nat);
    }
}

/// The names by which records and plans go: tiers, approaches and classes.
pub proof fn law_names_of_what_is_recorded(v: Variant, entrant: Seq<char>, why: Seq<char>)
    ensures
        tier_named("b"@) == Tier::B,
        v.tier@ != "b"@ ==> tier_named(v.tier@) == Tier::A,
        class_text(Class::Authoritative) == "authoritative"@,
        class_text(Class::Indicative) == "indicative"@,
        class_text(Class::Fixture) == "fixture"@,
        refusal_line(entrant, v.id@, why) == entrant + ":"@ + v.id@ + " — "@ + why,
        lookup(v.reports@, "wire_format"@) is None ==> wire_format(v) == "-"@,
        lookup(v.reports@, "wire_format"@) is Some ==> wire_format(v) == lookup(
            v.reports@,
            "wire_format"@,
        )->Some_0@,
{
}

/// A version is asked of an image exactly where the strategy is a command and there is one.
pub proof fn law_version_is_asked_by_command(e: Entrant)
    ensures
        has_version_command(e) <==> e.spec.version is Some && e.spec.version->Some_0.strategy@
            == "command"@ && e.spec.version->Some_0.command@.len() > 0,
{
}

/// A watch counts unchanged polls in a row, and starts again at any change.
pub proof fn law_watch_starts_again_at_a_change(q: Quiesce, n: u64)
    ensures
        n != q.prev ==> stable_after(q, n) == 0,
        n == q.prev ==> stable_after(q, n) == q.stable + 1,
{
}

/// A refusal names what is refused, and tells what is declared before what was found.
pub proof fn law_refusals_tell_what_is_declared_and_found(
    name: Seq<char>,
    c: Container,
    meta: Seq<char>,
    cores_agree: bool,
    e: Entrant,
    v: VersionView,
    image: Seq<char>,
    why: Seq<char>,
)
    ensures
        ({
            let w = words_of(meta);
            let (cpu, mem) = (field_after(w, "cpu.max="@, 0), field_after(w, "memory.max="@, 0));
            let r = arm_cap_refusal(name, c, meta, cores_agree);
            &&& cpu is None ==> r == Some(name + ": sampler reported no cpu.max"@)
            &&& cpu is Some && mem is None ==> r == Some(name + ": sampler reported no memory.max"@)
            &&& cpu is Some && mem is Some && !cores_agree ==> r is Some && begins(
                r->Some_0,
                "REFUSED: "@ + name + " declares cpus="@ + c.cpus@
                    + " but is running under cpu.max="@ + cpu->Some_0,
            )
            &&& cpu is Some && mem is Some && cores_agree && arm_cpu_parts(cpu->Some_0).0 != "max"@
                && r is Some ==> begins(
                r->Some_0,
                "REFUSED: "@ + name + " declares memory="@ + c.memory@
                    + " but is running under memory.max="@ + mem->Some_0,
            )
        }),
        breaks_pin(e, v) ==> sut_refusal(e, v) is Some && begins(
            sut_refusal(e, v)->Some_0,
            "REFUSED: "@ + e.spec.entrant.id@ + " declares version "@ + debug_quoted(
                e.spec.version->Some_0.pinned@,
            ) + " but the image reports "@ + debug_quoted(v.version->Some_0),
        ),
        begins(digest_text(image, why, name), "cannot read the image digest for "@ + image + ": "@ + why),
{
    let w = words_of(meta);
    let (cpu, mem) = (field_after(w, "cpu.max="@, 0), field_after(w, "memory.max="@, 0));
    if cpu is Some && mem is Some {
        let a = "REFUSED: "@ + name + " declares cpus="@ + c.cpus@
            + " but is running under cpu.max="@ + cpu->Some_0;
        let b = "REFUSED: "@ + name + " declares memory="@ + c.memory@
            + " but is running under memory.max="@ + mem->Some_0;
        let r = arm_cap_refusal(name, c, meta, cores_agree);
        if r is Some {
            let t = r->Some_0;
            if !cores_agree {
                assert(t.take(a.len() as int) =~= a);
            } else if arm_cpu_parts(cpu->Some_0).0 != "max"@ {
                assert(t.take(b.len() as int) =~= b);
            }
        }
    }
    if breaks_pin(e, v) {
        let head = "REFUSED: "@ + e.spec.entrant.id@ + " declares version "@ + debug_quoted(
            e.spec.version->Some_0.pinned@,
        ) + " but the image reports "@ + debug_quoted(v.version->Some_0);
        assert(sut_refusal(e, v)->Some_0.take(head.len() as int) =~= head);
    }
    let head = "cannot read the image digest for "@ + image + ": "@ + why;
    assert(digest_text(image, why, name).take(head.len() as int) =~= head);
}

} // verus!
