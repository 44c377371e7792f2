//! The entrant contract: one descriptor per system under test, and the rules a
//! descriptor must keep before anything it describes is run or published.
use vstd::prelude::*;
use crate::table::{is_less, keys_of, less, lookup, Table};
use crate::text::{
    begins, cat2, cat3, cat4, cat5, cat6, cat7, chars_of, dec, dec_int, decimal, decimal_int,
    is_digit, is_space, is_trim, join, joined, law_space_around_is_free, law_trim_takes_the_ends,
    lemma_decimal_digits, lemma_trimmed_already, listed, note, note_if, parse_u64, parsed_nat,
    piece, same, texts, trim, trimmed, words, words_of,
};

verus! {

/// Descriptor schema version, independent of the result schema.
pub const DESCRIPTOR_SCHEMA: u32 = 1;

/// The ways a version can be resolved.
pub const VERSION_STRATEGIES: [&'static str; 1] = ["command"];

/// The delivery guarantee every arm runs under.
pub const DELIVERY_CONTRACT: &'static str = "at-least-once";

/// A parsed descriptor, and the directory it was found in.
#[derive(Clone, Debug)]
pub struct Entrant {
    pub dir: String,
    pub spec: Spec,
}

/// The descriptor's contents.
#[derive(Clone, Debug)]
pub struct Spec {
    /// Descriptor schema version.
    pub schema: u32,
    pub entrant: Identity,
    pub maintainer: Maintainer,
    pub display: Display,
    /// How to learn what version actually ran. Absent for planned entrants.
    pub version: Option<VersionSource>,
    /// How to build the image. Absent for planned entrants.
    pub build: Option<Build>,
    /// The resource envelope. Absent for planned entrants.
    pub envelope: Option<Envelope>,
    /// Delivery semantics, published beside the numbers.
    pub guarantees: Option<Guarantees>,
    /// Named volumes. Never host bind mounts.
    pub volumes: Option<Volumes>,
    /// Environment passed to the container, in the entrant's own vocabulary.
    pub env: Table<String>,
    /// The published arms this entrant provides.
    pub variants: Vec<Variant>,
    /// Knob combinations the arm cannot run.
    pub constraints: Vec<Constraint>,
    /// Why an entrant is not yet built.
    pub planned: Option<Planned>,
}

/// Identity and the facets the results are filtered on.
#[derive(Clone, Debug)]
pub struct Identity {
    /// Equals the directory name.
    pub id: String,
    pub name: String,
    pub homepage: String,
    pub repo: String,
    pub docs: String,
    /// SPDX identifier.
    pub licence: String,
    pub vendor: String,
    pub kind: String,
    pub language: Vec<String>,
    pub runtime: String,
    pub status: Status,
}

/// Whether an entrant is measured, planned, or retired.
#[derive(Clone, Copy, Debug, PartialEq, Eq, Structural)]
pub enum Status {
    /// Built and measured.
    Active,
    /// Declared but not yet implemented. Validation is relaxed.
    Planned,
    /// Was measured; no longer re-run. Results stay published and visible.
    Historical,
    /// Removed at the maintainer's request or because it no longer applies.
    Withdrawn,
}

impl Status {
    pub open spec fn runs(self) -> bool {
        self == Status::Active || self == Status::Historical
    }

    /// Whether this entrant must carry a buildable, runnable definition.
    pub fn is_runnable(self) -> (r: bool)
        ensures
            r == self.runs(),
    {
        match self {
            Status::Active => true,
            Status::Historical => true,
            _ => false,
        }
    }
}

/// Contact and upstream-review state.
#[derive(Clone, Debug)]
pub struct Maintainer {
    pub who: String,
    pub reviewed_upstream: bool,
    pub review_url: String,
}

/// Presentation metadata.
#[derive(Clone, Debug)]
pub struct Display {
    /// Stable sort key for equal-ranked rows.
    pub order: i64,
    /// Hue angle in degrees.
    pub hue: u16,
    /// Short label for dense layouts.
    pub short: String,
}

/// How to discover what version actually ran.
#[derive(Clone, Debug)]
pub struct VersionSource {
    pub strategy: String,
    /// The argv executed inside the image.
    pub command: Vec<String>,
    /// Expected value, asserted against what is resolved.
    pub pinned: String,
}

/// How to build the entrant's image.
#[derive(Clone, Debug)]
pub struct Build {
    /// Build context, relative to the entrant directory.
    pub context: String,
    /// Dockerfile, relative to the entrant directory.
    pub dockerfile: String,
    /// Local image tag. The digest is what gets recorded.
    pub image: String,
    /// BuildKit secret ids the build needs.
    pub secrets: Vec<String>,
}

/// The resource envelope, and how it splits across containers.
#[derive(Clone, Debug)]
pub struct Envelope {
    /// Data-plane CPU total.
    pub cpus: String,
    /// Data-plane memory total.
    pub memory: String,
    pub containers: Vec<Container>,
}

/// One container of a possibly multi-container arm.
#[derive(Clone, Debug)]
pub struct Container {
    pub role: Role,
    /// Suffix for the container name.
    pub name: String,
    /// CPU quota.
    pub cpus: String,
    /// Memory limit. Swap is pinned equal to it.
    pub memory: String,
    /// Command arguments, for images that dispatch on argv.
    pub args: Vec<String>,
}

/// Whether a container does the work or coordinates it.
#[derive(Clone, Copy, Debug, PartialEq, Eq, Structural)]
pub enum Role {
    /// Does the ingestion. Charged against the envelope.
    DataPlane,
    /// Coordinates. Allocated on top, with measured cost published.
    ControlPlane,
}

/// Delivery semantics.
#[derive(Clone, Debug)]
pub struct Guarantees {
    pub delivery: String,
    /// Mechanism: `offset-commit`, `checkpoint`, …
    pub durability: String,
    /// Cadence of that mechanism.
    pub interval_ms: u64,
}

/// Named volumes.
#[derive(Clone, Debug)]
pub struct Volumes {
    /// `name:/path` entries.
    pub named: Vec<String>,
}

/// A knob's value.
#[derive(Clone, Debug)]
pub enum Knob {
    Integer(i64),
    Text(String),
    /// Any other value, as the descriptor writes it.
    Other(String),
}

/// One published arm.
#[derive(Clone, Debug)]
pub struct Variant {
    /// Stable for the life of the entrant: it is recorded on every result.
    pub id: String,
    pub label: String,
    /// `a` or `b`.
    pub tier: String,
    pub approach: Approach,
    /// Components this variant selects that the entrant's project does not ship.
    /// Declaring one binds the variant to [`Approach::Stripped`].
    pub unshipped: Vec<String>,
    /// Exactly one variant per active entrant is the default.
    pub default: bool,
    /// Extra environment for this arm.
    pub env: Table<String>,
    /// Values substituted into `{{knob:…}}` placeholders.
    pub knobs: Table<Knob>,
    /// Facts the arm asserts about itself, notably `wire_format`.
    pub reports: Table<String>,
}

/// How realistic a variant's configuration is.
#[derive(Clone, Copy, Debug, PartialEq, Eq, Structural)]
pub enum Approach {
    /// Headline-eligible.
    Realistic,
    /// Compliant, but not what a typical user would deploy.
    Tuned,
    /// Uses code the project does not ship, or drops a guarantee. Never the
    /// headline.
    Stripped,
}

impl Approach {
    pub open spec fn text(self) -> Seq<char> {
        match self {
            Approach::Realistic => "Realistic"@,
            Approach::Tuned => "Tuned"@,
            Approach::Stripped => "Stripped"@,
        }
    }

    /// The name of an approach in a message.
    pub fn name(self) -> (r: &'static str)
        ensures
            r@ == self.text(),
    {
        match self {
            Approach::Realistic => "Realistic",
            Approach::Tuned => "Tuned",
            Approach::Stripped => "Stripped",
        }
    }
}

/// A knob combination the arm cannot run: `knob` must strictly exceed `exceeds`.
#[derive(Clone, Debug)]
pub struct Constraint {
    pub knob: String,
    pub exceeds: String,
    /// What breaks when it does not. Quoted in the refusal.
    pub why: String,
}

/// Why an entrant is declared but not yet built.
#[derive(Clone, Debug)]
pub struct Planned {
    pub tracking: String,
    pub blockers: String,
    pub licence_gate: String,
}

/// What validation needs and the descriptor does not hold.
#[derive(Clone, Debug)]
pub struct Facts {
    /// Name of the directory the descriptor is in.
    pub dir_name: String,
    /// Whether a README stands beside the descriptor.
    pub has_readme: bool,
    /// Whether the declared dockerfile exists.
    pub has_dockerfile: bool,
    /// Whether the data-plane CPUs add up to the envelope's.
    pub cpus_agree: bool,
    /// The sum of the data-plane CPUs, as shown.
    pub cpus_total: String,
}

/// The quoted, escaped form of a text that `{:?}` prints.
pub uninterp spec fn debug_quoted(s: Seq<char>) -> Seq<char>;

/// `core::fmt::Debug` for `str`: the text in quotes, with what needs escaping
/// escaped. Named by [`debug_quoted`]; nothing else is claimed of it.
#[verifier::external_body]
pub(crate) fn quoted(s: &str) -> (r: String)
    ensures
        r@ == debug_quoted(s@),
{
    format!("{s:?}")
}

/// A list of texts as `{:?}` prints it.
pub open spec fn debug_list(v: Seq<Seq<char>>) -> Seq<char> {
    "["@ + joined(Seq::new(v.len(), |i: int| debug_quoted(v[i])), ", "@) + "]"@
}

/// A list of texts as `{:?}` prints it.
pub fn quoted_list(v: &Vec<String>) -> (r: String)
    ensures
        r@ == debug_list(texts(v@)),
{
    let mut all: Vec<String> = Vec::new();
    let mut i: usize = 0;
    let ghost want = Seq::new(v@.len(), |i: int| debug_quoted(texts(v@)[i]));
    while i < v.len()
        invariant
            i <= v@.len(),
            want == Seq::new(v@.len(), |i: int| debug_quoted(texts(v@)[i])),
            texts(all@) == want.take(i as int),
        decreases v@.len() - i,
    {
        note(&mut all, quoted(v[i].as_str()));
        i += 1;
        proof {
            assert(texts(all@) =~= want.take(i as int));
        }
    }
    proof {
        assert(want.take(i as int) =~= want);
        assert(want =~= Seq::new(texts(v@).len(), |i: int| debug_quoted(texts(v@)[i])));
    }
    cat3("[", join(&all, ", ").as_str(), "]")
}

// ---------------------------------------------------------------------------
// Memory limits
// ---------------------------------------------------------------------------

/// The digits of a trimmed limit, and the number of bytes one of them stands for.
pub open spec fn memory_parts(t: Seq<char>) -> (Seq<char>, nat) {
    let c = t.last();
    if c == 'g' || c == 'G' {
        (t.drop_last(), 1_073_741_824)
    } else if c == 'm' || c == 'M' {
        (t.drop_last(), 1_048_576)
    } else if c == 'k' || c == 'K' {
        (t.drop_last(), 1024)
    } else {
        (t, 1)
    }
}

/// The bytes that a declared limit denotes, where it denotes a 64-bit number.
pub open spec fn memory_of(s: Seq<char>) -> Option<nat> {
    let t = trimmed(s);
    if t.len() == 0 {
        None
    } else {
        let (digits, unit) = memory_parts(t);
        match parsed_nat(trimmed(digits), u64::MAX as nat) {
            Some(n) => if n * unit <= u64::MAX {
                Some(n * unit)
            } else {
                None
            },
            None => None,
        }
    }
}

/// A declared memory limit — `16g`, `512m`, `1048576k`, `1024` — in bytes.
pub fn parse_memory(s: &str) -> (r: Option<u64>)
    ensures
        match r {
            Some(n) => memory_of(s@) == Some(n as nat),
            None => memory_of(s@) is None,
        },
{
    let t = chars_of(trim(s).as_str());
    if t.len() == 0 {
        return None;
    }
    let c: char = t[t.len() - 1];
    let (end, unit): (usize, u64) = if c == 'g' || c == 'G' {
        (t.len() - 1, 1_073_741_824)
    } else if c == 'm' || c == 'M' {
        (t.len() - 1, 1_048_576)
    } else if c == 'k' || c == 'K' {
        (t.len() - 1, 1024)
    } else {
        (t.len(), 1)
    };
    proof {
        assert(t@.subrange(0, t@.len() - 1) =~= t@.drop_last());
        assert(t@.subrange(0, t@.len() as int) =~= t@);
    }
    match parse_u64(trim(piece(t.as_slice(), 0, end).as_str()).as_str()) {
        Some(n) => n.checked_mul(unit),
        None => None,
    }
}

/// `n` units, where they are a 64-bit number of bytes.
pub open spec fn units(n: nat, unit: nat) -> Option<nat> {
    if n * unit <= u64::MAX {
        Some(n * unit)
    } else {
        None
    }
}

/// A whole number reads as so many bytes, kibibytes, mebibytes or gibibytes, by its
/// suffix; one that is too large is unreadable, and never wraps.
pub proof fn law_memory_reads_its_units(n: nat)
    ensures
        memory_of(decimal(n)) == units(n, 1),
        memory_of(decimal(n) + "k"@) == units(n, 1024),
        memory_of(decimal(n) + "K"@) == units(n, 1024),
        memory_of(decimal(n) + "m"@) == units(n, 1_048_576),
        memory_of(decimal(n) + "M"@) == units(n, 1_048_576),
        memory_of(decimal(n) + "g"@) == units(n, 1_073_741_824),
        memory_of(decimal(n) + "G"@) == units(n, 1_073_741_824),
{
    reveal_strlit("k");
    reveal_strlit("K");
    reveal_strlit("m");
    reveal_strlit("M");
    reveal_strlit("g");
    reveal_strlit("G");
    lemma_memory_suffix(n, "k"@);
    lemma_memory_suffix(n, "K"@);
    lemma_memory_suffix(n, "m"@);
    lemma_memory_suffix(n, "M"@);
    lemma_memory_suffix(n, "g"@);
    lemma_memory_suffix(n, "G"@);
    let d = decimal(n);
    lemma_decimal_digits(n);
    assert(is_digit(d[0]) && is_digit(d.last()));
    lemma_trimmed_already(d);
}

proof fn lemma_memory_suffix(n: nat, suffix: Seq<char>)
    requires
        suffix.len() == 1,
        suffix[0] == 'k' || suffix[0] == 'K' || suffix[0] == 'm' || suffix[0] == 'M' || suffix[0]
            == 'g' || suffix[0] == 'G',
    ensures
        memory_of(decimal(n) + suffix) == units(n, memory_parts(decimal(n) + suffix).1),
{
    let d = decimal(n);
    let s = d + suffix;
    lemma_decimal_digits(n);
    assert(is_digit(d[0]) && is_digit(d.last()));
    assert(s[0] == d[0]);
    assert(s.last() == suffix[0]);
    lemma_trimmed_already(s);
    lemma_trimmed_already(d);
    assert(s.drop_last() =~= d);
    let unit = memory_parts(s).1;
    assert(n * unit >= n) by (nonlinear_arith)
        requires
            unit >= 1,
    ;
}

// ---------------------------------------------------------------------------
// Constraints
// ---------------------------------------------------------------------------

pub open spec fn knob_integer(knobs: Seq<(Seq<char>, Knob)>, name: Seq<char>) -> Option<int> {
    match lookup(knobs, name) {
        Some(Knob::Integer(n)) => Some(n as int),
        _ => None,
    }
}

/// A constraint holds: both knobs are set to integers, and the one exceeds the other.
pub open spec fn satisfied(c: Constraint, knobs: Seq<(Seq<char>, Knob)>) -> bool {
    match (knob_integer(knobs, c.knob@), knob_integer(knobs, c.exceeds@)) {
        (Some(a), Some(b)) => a > b,
        _ => false,
    }
}

pub open spec fn knob_names(knobs: Seq<(Seq<char>, Knob)>) -> Seq<char> {
    if knobs.len() == 0 {
        "none"@
    } else {
        joined(keys_of(knobs), ", "@)
    }
}

/// What a broken constraint is reported as.
pub open spec fn violation(c: Constraint, knobs: Seq<(Seq<char>, Knob)>) -> Seq<char> {
    match (knob_integer(knobs, c.knob@), knob_integer(knobs, c.exceeds@)) {
        (Some(a), Some(b)) => c.knob@ + " = "@ + decimal_int(a) + " must strictly exceed "@ + (
        c.exceeds@ + " = "@ + decimal_int(b) + ". "@ + joined(words_of(c.why@), " "@)),
        _ => "the constraint \""@ + c.knob@ + " must exceed "@ + c.exceeds@
            + "\" cannot be checked: one of them is unset or is not an integer here (knobs: "@
            + knob_names(knobs)
            + "). An unset knob leaves the image's own default in force, which is a value this descriptor never states and no record reports."@,
    }
}

/// The violations of the first `n` constraints, in order.
pub open spec fn violations(cs: Seq<Constraint>, knobs: Seq<(Seq<char>, Knob)>, n: nat) -> Seq<
    Seq<char>,
>
    decreases n,
{
    if n == 0 {
        seq![]
    } else {
        violations(cs, knobs, (n - 1) as nat) + listed(
            !satisfied(cs[n - 1], knobs),
            violation(cs[n - 1], knobs),
        )
    }
}

fn integer_of(knobs: &Table<Knob>, name: &str) -> (r: Option<i64>)
    ensures
        match r {
            Some(n) => knob_integer(knobs@, name@) == Some(n as int),
            None => knob_integer(knobs@, name@) is None,
        },
{
    match knobs.get(name) {
        Some(k) => match k {
            Knob::Integer(n) => Some(*n),
            _ => None,
        },
        None => None,
    }
}

/// Every way a set of knob values breaks the declared constraints. A constraint
/// over a knob that is not set is broken: the default in force is then a value
/// the descriptor never states.
pub fn knob_violations(constraints: &Vec<Constraint>, knobs: &Table<Knob>) -> (r: Vec<String>)
    ensures
        texts(r@) == violations(constraints@, knobs@, constraints@.len()),
{
    let mut out: Vec<String> = Vec::new();
    let mut i: usize = 0;
    proof {
        assert(texts(out@) =~= seq![]);
    }
    while i < constraints.len()
        invariant
            i <= constraints@.len(),
            texts(out@) == violations(constraints@, knobs@, i as nat),
        decreases constraints@.len() - i,
    {
        let c = &constraints[i];
        match (integer_of(knobs, c.knob.as_str()), integer_of(knobs, c.exceeds.as_str())) {
            (Some(a), Some(b)) => {
                let head = cat4(
                    c.knob.as_str(),
                    " = ",
                    dec_int(a as i128).as_str(),
                    " must strictly exceed ",
                );
                let tail = cat5(
                    c.exceeds.as_str(),
                    " = ",
                    dec_int(b as i128).as_str(),
                    ". ",
                    join(&words(c.why.as_str()), " ").as_str(),
                );
                note_if(&mut out, a <= b, cat2(head.as_str(), tail.as_str()));
            },
            _ => {
                let names = if knobs.is_empty() {
                    "none".to_owned()
                } else {
                    join(&knobs.keys(), ", ")
                };
                note_if(
                    &mut out,
                    true,
                    cat7(
                        "the constraint \"",
                        c.knob.as_str(),
                        " must exceed ",
                        c.exceeds.as_str(),
                        "\" cannot be checked: one of them is unset or is not an integer here (knobs: ",
                        names.as_str(),
                        "). An unset knob leaves the image's own default in force, which is a value this descriptor never states and no record reports.",
                    ),
                );
            },
        }
        i += 1;
    }
    out
}

/// There is no violation exactly where every constraint is satisfied.
pub proof fn law_no_violation_means_satisfied(
    cs: Seq<Constraint>,
    knobs: Seq<(Seq<char>, Knob)>,
    n: nat,
)
    requires
        n <= cs.len(),
    ensures
        violations(cs, knobs, n).len() == 0 <==> forall|i: int|
            0 <= i < n ==> satisfied(#[trigger] cs[i], knobs),
    decreases n,
{
    if n > 0 {
        law_no_violation_means_satisfied(cs, knobs, (n - 1) as nat);
        assert(violations(cs, knobs, n).len() == 0 ==> satisfied(cs[n - 1], knobs));
    }
}

// ---------------------------------------------------------------------------
// Lookups
// ---------------------------------------------------------------------------

impl Entrant {
    /// The entrant's id.
    pub fn id(&self) -> (r: &str)
        ensures
            r@ == self.spec.entrant.id@,
    {
        self.spec.entrant.id.as_str()
    }

    /// The variant marked `default`, else the first.
    pub fn default_variant(&self) -> (r: Option<&Variant>)
        ensures
            match r {
                Some(v) => self.spec.variants@.len() > 0 && *v == self.spec.variants@[
                    default_index(self.spec.variants@, 0)
                ],
                None => self.spec.variants@.len() == 0,
            },
    {
        let mut i: usize = 0;
        while i < self.spec.variants.len()
            invariant
                i <= self.spec.variants@.len(),
                default_index(self.spec.variants@, 0) == default_index(
                    self.spec.variants@,
                    i as int,
                ),
            decreases self.spec.variants@.len() - i,
        {
            if self.spec.variants[i].default {
                return Some(&self.spec.variants[i]);
            }
            i += 1;
        }
        if self.spec.variants.len() > 0 {
            Some(&self.spec.variants[0])
        } else {
            None
        }
    }

    /// The first variant with an id.
    pub fn variant(&self, id: &str) -> (r: Option<&Variant>)
        ensures
            match r {
                Some(v) => exists|i: int|
                    0 <= i < self.spec.variants@.len() && *v == #[trigger] self.spec.variants@[i]
                        && v.id@ == id@ && forall|j: int|
                        0 <= j < i ==> (#[trigger] self.spec.variants@[j]).id@ != id@,
                None => forall|j: int|
                    0 <= j < self.spec.variants@.len() ==> (
                    #[trigger] self.spec.variants@[j]).id@ != id@,
            },
    {
        let mut i: usize = 0;
        while i < self.spec.variants.len()
            invariant
                i <= self.spec.variants@.len(),
                forall|j: int| 0 <= j < i ==> (#[trigger] self.spec.variants@[j]).id@ != id@,
            decreases self.spec.variants@.len() - i,
        {
            if same(self.spec.variants[i].id.as_str(), id) {
                return Some(&self.spec.variants[i]);
            }
            i += 1;
        }
        None
    }

    /// The first data-plane container.
    pub fn data_plane(&self) -> (r: Option<&Container>)
        ensures
            match r {
                Some(c) => data_plane_of(*self) == Some(*c),
                None => data_plane_of(*self) is None,
            },
    {
        match &self.spec.envelope {
            None => None,
            Some(env) => {
                let mut i: usize = 0;
                while i < env.containers.len()
                    invariant
                        self.spec.envelope is Some,
                        self.spec.envelope->Some_0 == *env,
                        i <= env.containers@.len(),
                        first_data_plane(env.containers@, 0) == first_data_plane(
                            env.containers@,
                            i as int,
                        ),
                    decreases env.containers@.len() - i,
                {
                    if env.containers[i].role == Role::DataPlane {
                        return Some(&env.containers[i]);
                    }
                    i += 1;
                }
                None
            },
        }
    }
}

/// The index of the first data-plane container from `i` on, or their number where
/// there is none.
pub open spec fn first_data_plane(cs: Seq<Container>, i: int) -> int
    decreases cs.len() - i,
{
    if i < 0 || i >= cs.len() || cs[i].role == Role::DataPlane {
        i
    } else {
        first_data_plane(cs, i + 1)
    }
}

/// The first data-plane container of an entrant.
pub open spec fn data_plane_of(e: Entrant) -> Option<Container> {
    match e.spec.envelope {
        None => None,
        Some(env) => {
            let k = first_data_plane(env.containers@, 0);
            if k < env.containers@.len() {
                Some(env.containers@[k])
            } else {
                None
            }
        },
    }
}

/// The first index from `i` on of a variant marked default, or zero.
pub open spec fn default_index(vs: Seq<Variant>, i: int) -> int
    decreases vs.len() - i,
{
    if i >= vs.len() {
        0
    } else if vs[i].default {
        i
    } else {
        default_index(vs, i + 1)
    }
}

// ---------------------------------------------------------------------------
// Validation
// ---------------------------------------------------------------------------

/// A problem, with the entrant it is about.
pub open spec fn about(id: Seq<char>, m: Seq<char>) -> Seq<char> {
    id + ": "@ + m
}

fn at(id: &str, m: String) -> (r: String)
    ensures
        r@ == about(id@, m@),
{
    cat3(id, ": ", m.as_str())
}

/// Only lower-case ASCII letters, digits and hyphens.
pub open spec fn is_slug(s: Seq<char>) -> bool {
    forall|i: int|
        0 <= i < s.len() ==> ('a' <= (#[trigger] s[i]) <= 'z' || '0' <= s[i] <= '9' || s[i] == '-')
}

/// Whether a text is made of lower-case ASCII letters, digits and hyphens.
pub fn slug(s: &str) -> (r: bool)
    ensures
        r == is_slug(s@),
{
    let chars = chars_of(s);
    let mut i: usize = 0;
    while i < chars.len()
        invariant
            chars@ == s@,
            i <= chars@.len(),
            forall|k: int|
                0 <= k < i ==> ('a' <= (#[trigger] s@[k]) <= 'z' || '0' <= s@[k] <= '9' || s@[k]
                    == '-'),
        decreases chars@.len() - i,
    {
        let c: char = chars[i];
        if !(('a' <= c && c <= 'z') || ('0' <= c && c <= '9') || c == '-') {
            assert(s@[i as int] == c);
            return false;
        }
        i += 1;
    }
    true
}

pub open spec fn is_blank(s: Seq<char>) -> bool {
    trimmed(s).len() == 0
}

/// Whether a text holds nothing but white space.
pub fn blank(s: &str) -> (r: bool)
    ensures
        r == is_blank(s@),
{
    trim(s).as_str().is_empty()
}

/// Problems with the version source.
pub open spec fn version_problems(e: Entrant) -> Seq<Seq<char>> {
    let id = e.spec.entrant.id@;
    match e.spec.version {
        None => seq![about(id, "active entrant has no [version]"@)],
        Some(v) => listed(
            v.strategy@ != VERSION_STRATEGIES[0]@,
            about(
                id,
                "[version].strategy "@ + debug_quoted(v.strategy@) + " is not implemented. Known: "@
                    + VERSION_STRATEGIES[0]@,
            ),
        ) + listed(
            v.strategy@ == VERSION_STRATEGIES[0]@ && v.command@.len() == 0,
            about(
                id,
                "[version].strategy is \"command\" but [version].command is empty, so nothing would be run and no version resolved"@,
            ),
        ),
    }
}

/// Checks that the version can be resolved by what resolves it.
pub fn validate_version(e: &Entrant, errs: &mut Vec<String>)
    ensures
        texts(final(errs)@) == texts(old(errs)@) + version_problems(*e),
{
    let ghost before = texts(errs@);
    match &e.spec.version {
        None => {
            note(errs, at(e.id(), "active entrant has no [version]".to_owned()));
        },
        Some(v) => {
            note_if(
                errs,
                !same(v.strategy.as_str(), VERSION_STRATEGIES[0]),
                at(
                    e.id(),
                    cat4(
                        "[version].strategy ",
                        quoted(v.strategy.as_str()).as_str(),
                        " is not implemented. Known: ",
                        VERSION_STRATEGIES[0],
                    ),
                ),
            );
            note_if(
                errs,
                same(v.strategy.as_str(), VERSION_STRATEGIES[0]) && v.command.len() == 0,
                at(
                    e.id(),
                    "[version].strategy is \"command\" but [version].command is empty, so nothing would be run and no version resolved".to_owned(),
                ),
            );
        },
    }
    proof {
        assert(texts(errs@) =~= before + version_problems(*e));
    }
}

/// Problems with the delivery guarantee.
pub open spec fn guarantee_problems(e: Entrant) -> Seq<Seq<char>> {
    let id = e.spec.entrant.id@;
    match e.spec.guarantees {
        None => seq![
            about(
                id,
                "active entrant has no [guarantees]. Delivery semantics are published beside the numbers so the comparison is guarantee-for-guarantee; an arm that declares none cannot be compared at all."@,
            ),
        ],
        Some(g) => listed(
            g.delivery@ != DELIVERY_CONTRACT@,
            about(
                id,
                "declares delivery "@ + debug_quoted(g.delivery@) + " rather than "@ + debug_quoted(
                    DELIVERY_CONTRACT@,
                )
                    + ". Every arm is compared guarantee-for-guarantee, so an arm paying for a different guarantee is not on the same axis as the rest."@,
            ),
        ),
    }
}

/// Checks the delivery guarantee against the one every arm runs under.
pub fn validate_guarantees(e: &Entrant, errs: &mut Vec<String>)
    ensures
        texts(final(errs)@) == texts(old(errs)@) + guarantee_problems(*e),
{
    let ghost before = texts(errs@);
    match &e.spec.guarantees {
        None => {
            note(
                errs,
                at(
                    e.id(),
                    "active entrant has no [guarantees]. Delivery semantics are published beside the numbers so the comparison is guarantee-for-guarantee; an arm that declares none cannot be compared at all.".to_owned(),
                ),
            );
        },
        Some(g) => {
            note_if(
                errs,
                !same(g.delivery.as_str(), DELIVERY_CONTRACT),
                at(
                    e.id(),
                    cat5(
                        "declares delivery ",
                        quoted(g.delivery.as_str()).as_str(),
                        " rather than ",
                        quoted(DELIVERY_CONTRACT).as_str(),
                        ". Every arm is compared guarantee-for-guarantee, so an arm paying for a different guarantee is not on the same axis as the rest.",
                    ),
                ),
            );
        },
    }
    proof {
        assert(texts(errs@) =~= before + guarantee_problems(*e));
    }
}

/// How many of the first `n` containers are data-plane.
pub open spec fn data_planes(cs: Seq<Container>, n: nat) -> nat
    decreases n,
{
    if n == 0 {
        0
    } else {
        data_planes(cs, (n - 1) as nat) + if cs[n - 1].role == Role::DataPlane {
            1nat
        } else {
            0
        }
    }
}

/// The memory of the last data-plane container among the first `n`.
pub open spec fn data_memory(cs: Seq<Container>, n: nat) -> Seq<char>
    decreases n,
{
    if n == 0 {
        seq![]
    } else if cs[n - 1].role == Role::DataPlane {
        cs[n - 1].memory@
    } else {
        data_memory(cs, (n - 1) as nat)
    }
}

pub open spec fn memory_or_zero(s: Seq<char>) -> nat {
    match memory_of(s) {
        Some(n) => n,
        None => 0,
    }
}

pub open spec fn envelope_memory_problems(id: Seq<char>, declared: Seq<char>, sum: nat) -> Seq<
    Seq<char>,
> {
    match memory_of(declared) {
        Some(want) => listed(
            want != sum,
            about(
                id,
                "data-plane containers total "@ + decimal(sum) + " bytes but [envelope].memory is "@
                    + declared + " ("@ + decimal(want) + ")"@,
            ),
        ),
        None => seq![
            about(id, "[envelope].memory "@ + debug_quoted(declared) + " unparseable"@),
        ],
    }
}

/// Problems with the resource envelope: exactly one data-plane container, and
/// totals that are what that container gets.
pub open spec fn envelope_problems(e: Entrant, facts: Facts) -> Seq<Seq<char>> {
    let id = e.spec.entrant.id@;
    match e.spec.envelope {
        None => seq![about(id, "active entrant has no [envelope]"@)],
        Some(env) => {
            let n = data_planes(env.containers@, env.containers@.len());
            if n != 1 {
                seq![
                    about(
                        id,
                        "expected exactly one data-plane container, found "@ + decimal(n),
                    ),
                ]
            } else {
                listed(
                    !facts.cpus_agree,
                    about(
                        id,
                        "data-plane containers total "@ + facts.cpus_total@
                            + " CPUs but [envelope].cpus is "@ + env.cpus@,
                    ),
                ) + envelope_memory_problems(
                    id,
                    env.memory@,
                    memory_or_zero(data_memory(env.containers@, env.containers@.len())),
                )
            }
        },
    }
}

/// Checks the resource envelope.
pub fn validate_envelope(e: &Entrant, facts: &Facts, errs: &mut Vec<String>)
    ensures
        texts(final(errs)@) == texts(old(errs)@) + envelope_problems(*e, *facts),
{
    let ghost before = texts(errs@);
    match &e.spec.envelope {
        None => {
            note(errs, at(e.id(), "active entrant has no [envelope]".to_owned()));
        },
        Some(env) => {
            let mut n: usize = 0;
            let mut memory: String = String::new();
            let mut i: usize = 0;
            proof {
                assert(memory@ =~= seq![]);
            }
            while i < env.containers.len()
                invariant
                    i <= env.containers@.len(),
                    n <= i,
                    n == data_planes(env.containers@, i as nat),
                    memory@ == data_memory(env.containers@, i as nat),
                decreases env.containers@.len() - i,
            {
                if env.containers[i].role == Role::DataPlane {
                    n += 1;
                    memory = env.containers[i].memory.clone();
                }
                i += 1;
            }
            if n != 1 {
                note(
                    errs,
                    at(
                        e.id(),
                        cat2(
                            "expected exactly one data-plane container, found ",
                            dec(n as u128).as_str(),
                        ),
                    ),
                );
            } else {
                note_if(
                    errs,
                    !facts.cpus_agree,
                    at(
                        e.id(),
                        cat4(
                            "data-plane containers total ",
                            facts.cpus_total.as_str(),
                            " CPUs but [envelope].cpus is ",
                            env.cpus.as_str(),
                        ),
                    ),
                );
                let sum: u64 = match parse_memory(memory.as_str()) {
                    Some(b) => b,
                    None => 0,
                };
                match parse_memory(env.memory.as_str()) {
                    Some(want) => {
                        note_if(
                            errs,
                            want != sum,
                            at(
                                e.id(),
                                cat7(
                                    "data-plane containers total ",
                                    dec(sum as u128).as_str(),
                                    " bytes but [envelope].memory is ",
                                    env.memory.as_str(),
                                    " (",
                                    dec(want as u128).as_str(),
                                    ")",
                                ),
                            ),
                        );
                    },
                    None => {
                        note(
                            errs,
                            at(
                                e.id(),
                                cat3(
                                    "[envelope].memory ",
                                    quoted(env.memory.as_str()).as_str(),
                                    " unparseable",
                                ),
                            ),
                        );
                    },
                }
            }
        },
    }
    proof {
        assert(texts(errs@) =~= before + envelope_problems(*e, *facts));
    }
}

/// An earlier variant has the id of variant `i`.
pub open spec fn is_repeat(vs: Seq<Variant>, i: int) -> bool {
    exists|j: int| 0 <= j < i && (#[trigger] vs[j]).id@ == vs[i].id@
}

/// One note for each blank entry among the first `n`.
pub open spec fn blank_notes(v: Seq<Seq<char>>, n: nat, m: Seq<char>) -> Seq<Seq<char>>
    decreases n,
{
    if n == 0 {
        seq![]
    } else {
        blank_notes(v, (n - 1) as nat, m) + listed(is_blank(v[n - 1]), m)
    }
}

/// Problems with variant `i`.
pub open spec fn variant_problems(id: Seq<char>, vs: Seq<Variant>, i: int) -> Seq<Seq<char>> {
    let v = vs[i];
    let q = debug_quoted(v.id@);
    listed(is_repeat(vs, i), about(id, "duplicate variant id "@ + q)) + listed(
        !is_slug(v.id@),
        about(id, "variant id "@ + q + " must be lowercase ascii, digits and hyphens"@),
    ) + listed(
        v.tier@ != "a"@ && v.tier@ != "b"@,
        about(id, "variant "@ + q + " has tier "@ + debug_quoted(v.tier@) + ", expected a|b"@),
    ) + listed(
        lookup(v.reports@, "wire_format"@) is None,
        about(id, "variant "@ + q + " does not report a wire_format"@),
    ) + blank_notes(
        texts(v.unshipped@),
        v.unshipped@.len(),
        about(
            id,
            "variant "@ + q + " lists an empty `unshipped` entry; name the component"@,
        ),
    ) + listed(
        v.unshipped@.len() > 0 && v.approach != Approach::Stripped,
        unshipped_problem(id, v),
    )
}

/// A variant that selects unshipped code under another label than stripped.
pub open spec fn unshipped_problem(id: Seq<char>, v: Variant) -> Seq<char> {
    about(
        id,
        "variant "@ + debug_quoted(v.id@) + " declares unshipped "@ + debug_list(
            texts(v.unshipped@),
        ) + " but has approach "@ + v.approach.text()
            + ". Code the project does not ship is `stripped` under rule 1 and is never the headline. If the arm no longer uses it, remove the declaration in the same change — the two move together or the label is decoration."@,
    )
}

proof fn lemma_six(
    b: Seq<Seq<char>>,
    p1: Seq<Seq<char>>,
    p2: Seq<Seq<char>>,
    p3: Seq<Seq<char>>,
    p4: Seq<Seq<char>>,
    p5: Seq<Seq<char>>,
    p6: Seq<Seq<char>>,
)
    ensures
        b + p1 + p2 + p3 + p4 + p5 + p6 == b + (p1 + p2 + p3 + p4 + p5 + p6),
{
    assert(b + p1 + p2 + p3 + p4 + p5 + p6 =~= b + (p1 + p2 + p3 + p4 + p5 + p6));
}

/// Problems with the first `n` variants, in order.
pub open spec fn each_variant_problems(id: Seq<char>, vs: Seq<Variant>, n: nat) -> Seq<Seq<char>>
    decreases n,
{
    if n == 0 {
        seq![]
    } else {
        each_variant_problems(id, vs, (n - 1) as nat) + variant_problems(id, vs, n - 1)
    }
}

/// How many of the first `n` variants are marked default.
pub open spec fn defaults(vs: Seq<Variant>, n: nat) -> nat
    decreases n,
{
    if n == 0 {
        0
    } else {
        defaults(vs, (n - 1) as nat) + if vs[n - 1].default {
            1nat
        } else {
            0
        }
    }
}

/// Problems with the choice of the default variant.
pub open spec fn default_problems(id: Seq<char>, vs: Seq<Variant>) -> Seq<Seq<char>> {
    let d = vs[default_index(vs, 0)];
    listed(
        defaults(vs, vs.len()) != 1,
        about(
            id,
            "expected exactly one variant marked default, found "@ + decimal(
                defaults(vs, vs.len()),
            ),
        ),
    ) + listed(
        d.default && d.approach != Approach::Realistic,
        about(
            id,
            "default variant "@ + debug_quoted(d.id@) + " has approach "@ + d.approach.text()
                + "; the default must be realistic"@,
        ),
    )
}

/// Problems with the variants.
pub open spec fn variants_problems(e: Entrant) -> Seq<Seq<char>> {
    let id = e.spec.entrant.id@;
    let vs = e.spec.variants@;
    if vs.len() == 0 {
        seq![about(id, "active entrant declares no variants"@)]
    } else {
        each_variant_problems(id, vs, vs.len()) + default_problems(id, vs)
    }
}

fn note_blanks(v: &Vec<String>, m: &str, errs: &mut Vec<String>)
    ensures
        texts(final(errs)@) == texts(old(errs)@) + blank_notes(texts(v@), v@.len(), m@),
{
    let ghost before = texts(errs@);
    let mut i: usize = 0;
    proof {
        assert(texts(errs@) =~= before + blank_notes(texts(v@), 0, m@));
    }
    while i < v.len()
        invariant
            i <= v@.len(),
            texts(errs@) == before + blank_notes(texts(v@), i as nat, m@),
        decreases v@.len() - i,
    {
        note_if(errs, blank(v[i].as_str()), m.to_owned());
        i += 1;
        proof {
            assert(texts(errs@) =~= before + blank_notes(texts(v@), i as nat, m@));
        }
    }
}

fn repeats(vs: &Vec<Variant>, i: usize) -> (r: bool)
    requires
        i < vs@.len(),
    ensures
        r == is_repeat(vs@, i as int),
{
    let mut j: usize = 0;
    while j < i
        invariant
            j <= i < vs@.len(),
            forall|k: int| 0 <= k < j ==> (#[trigger] vs@[k]).id@ != vs@[i as int].id@,
        decreases i - j,
    {
        if same(vs[j].id.as_str(), vs[i].id.as_str()) {
            assert(vs@[j as int].id@ == vs@[i as int].id@);
            return true;
        }
        j += 1;
    }
    false
}

fn validate_variant(id: &str, vs: &Vec<Variant>, i: usize, errs: &mut Vec<String>)
    requires
        i < vs@.len(),
    ensures
        texts(final(errs)@) == texts(old(errs)@) + variant_problems(id@, vs@, i as int),
{
    let ghost before = texts(errs@);
    let v = &vs[i];
    let q = quoted(v.id.as_str());
    note_if(errs, repeats(vs, i), at(id, cat2("duplicate variant id ", q.as_str())));
    note_if(
        errs,
        !slug(v.id.as_str()),
        at(
            id,
            cat3("variant id ", q.as_str(), " must be lowercase ascii, digits and hyphens"),
        ),
    );
    note_if(
        errs,
        !same(v.tier.as_str(), "a") && !same(v.tier.as_str(), "b"),
        at(
            id,
            cat5(
                "variant ",
                q.as_str(),
                " has tier ",
                quoted(v.tier.as_str()).as_str(),
                ", expected a|b",
            ),
        ),
    );
    note_if(
        errs,
        !v.reports.contains_key("wire_format"),
        at(id, cat3("variant ", q.as_str(), " does not report a wire_format")),
    );
    let ghost mid = texts(errs@);
    note_blanks(
        &v.unshipped,
        at(
            id,
            cat3(
                "variant ",
                q.as_str(),
                " lists an empty `unshipped` entry; name the component",
            ),
        ).as_str(),
        errs,
    );
    note_if(
        errs,
        v.unshipped.len() > 0 && v.approach != Approach::Stripped,
        at(
            id,
            cat7(
                "variant ",
                q.as_str(),
                " declares unshipped ",
                quoted_list(&v.unshipped).as_str(),
                " but has approach ",
                v.approach.name(),
                ". Code the project does not ship is `stripped` under rule 1 and is never the headline. If the arm no longer uses it, remove the declaration in the same change — the two move together or the label is decoration.",
            ),
        ),
    );
    proof {
        let q = debug_quoted(vs@[i as int].id@);
        lemma_six(
            before,
            listed(is_repeat(vs@, i as int), about(id@, "duplicate variant id "@ + q)),
            listed(
                !is_slug(v.id@),
                about(id@, "variant id "@ + q + " must be lowercase ascii, digits and hyphens"@),
            ),
            listed(
                v.tier@ != "a"@ && v.tier@ != "b"@,
                about(
                    id@,
                    "variant "@ + q + " has tier "@ + debug_quoted(v.tier@) + ", expected a|b"@,
                ),
            ),
            listed(
                lookup(v.reports@, "wire_format"@) is None,
                about(id@, "variant "@ + q + " does not report a wire_format"@),
            ),
            blank_notes(
                texts(v.unshipped@),
                v.unshipped@.len(),
                about(
                    id@,
                    "variant "@ + q + " lists an empty `unshipped` entry; name the component"@,
                ),
            ),
            listed(
                v.unshipped@.len() > 0 && v.approach != Approach::Stripped,
                unshipped_problem(id@, *v),
            ),
        );
    }
}

/// Checks the variants: their ids, tiers, reports, and that code the project does
/// not ship is never labelled as anything but stripped.
pub fn validate_variants(e: &Entrant, errs: &mut Vec<String>)
    ensures
        texts(final(errs)@) == texts(old(errs)@) + variants_problems(*e),
{
    let ghost before = texts(errs@);
    let id = e.id();
    let vs = &e.spec.variants;
    if vs.len() == 0 {
        note(errs, at(id, "active entrant declares no variants".to_owned()));
        proof {
            assert(texts(errs@) =~= before + variants_problems(*e));
        }
        return;
    }
    let mut found: usize = 0;
    let mut i: usize = 0;
    proof {
        assert(texts(errs@) =~= before + each_variant_problems(id@, vs@, 0));
    }
    while i < vs.len()
        invariant
            i <= vs@.len(),
            found <= i,
            found == defaults(vs@, i as nat),
            texts(errs@) == before + each_variant_problems(id@, vs@, i as nat),
        decreases vs@.len() - i,
    {
        validate_variant(id, vs, i, errs);
        if vs[i].default {
            found += 1;
        }
        i += 1;
        proof {
            assert(texts(errs@) =~= before + each_variant_problems(id@, vs@, i as nat));
        }
    }
    note_if(
        errs,
        found != 1,
        at(
            id,
            cat2(
                "expected exactly one variant marked default, found ",
                dec(found as u128).as_str(),
            ),
        ),
    );
    if let Some(d) = e.default_variant() {
        note_if(
            errs,
            d.default && d.approach != Approach::Realistic,
            at(
                id,
                cat5(
                    "default variant ",
                    quoted(d.id.as_str()).as_str(),
                    " has approach ",
                    d.approach.name(),
                    "; the default must be realistic",
                ),
            ),
        );
    }
    proof {
        assert(texts(errs@) =~= before + variants_problems(*e));
    }
}

/// Problems with how constraint `c` is declared.
pub open spec fn constraint_problems(id: Seq<char>, c: Constraint) -> Seq<Seq<char>> {
    let empty = about(
        id,
        "a [[constraints]] entry names an empty knob; a constraint over nothing is a rule that can never fire"@,
    );
    listed(is_blank(c.knob@), empty) + listed(is_blank(c.exceeds@), empty) + listed(
        c.knob@ == c.exceeds@,
        about(
            id,
            "constraint "@ + debug_quoted(c.knob@)
                + " must exceed itself, which nothing can satisfy"@,
        ),
    ) + listed(
        is_blank(c.why@),
        about(
            id,
            "constraint \""@ + c.knob@ + " must exceed "@ + c.exceeds@
                + "\" does not say what breaks when it does not. The text is quoted verbatim into the refusal a sweep sees, and a refusal that only says `no` costs whoever hits it the investigation this field exists to have already done."@,
        ),
    )
}

pub open spec fn declared_constraint_problems(id: Seq<char>, cs: Seq<Constraint>, n: nat) -> Seq<
    Seq<char>,
>
    decreases n,
{
    if n == 0 {
        seq![]
    } else {
        declared_constraint_problems(id, cs, (n - 1) as nat) + constraint_problems(id, cs[n - 1])
    }
}

/// The first `n` violations of a variant, each with the variant it is of.
pub open spec fn variant_violations(id: Seq<char>, v: Seq<char>, why: Seq<Seq<char>>) -> Seq<
    Seq<char>,
> {
    Seq::new(
        why.len(),
        |i: int| about(id, "variant "@ + debug_quoted(v) + ": "@ + why[i]),
    )
}

pub open spec fn committed_violations(
    id: Seq<char>,
    cs: Seq<Constraint>,
    vs: Seq<Variant>,
    n: nat,
) -> Seq<Seq<char>>
    decreases n,
{
    if n == 0 {
        seq![]
    } else {
        committed_violations(id, cs, vs, (n - 1) as nat) + variant_violations(
            id,
            vs[n - 1].id@,
            violations(cs, vs[n - 1].knobs@, cs.len()),
        )
    }
}

/// Problems with the constraints, and with variants that break them.
pub open spec fn constraints_problems(e: Entrant) -> Seq<Seq<char>> {
    let id = e.spec.entrant.id@;
    declared_constraint_problems(id, e.spec.constraints@, e.spec.constraints@.len())
        + committed_violations(
        id,
        e.spec.constraints@,
        e.spec.variants@,
        e.spec.variants@.len(),
    )
}

/// Checks the declared constraints, and every variant against them.
pub fn validate_constraints(e: &Entrant, errs: &mut Vec<String>)
    ensures
        texts(final(errs)@) == texts(old(errs)@) + constraints_problems(*e),
{
    let ghost before = texts(errs@);
    let id = e.id();
    let cs = &e.spec.constraints;
    let vs = &e.spec.variants;
    let mut i: usize = 0;
    proof {
        assert(texts(errs@) =~= before + declared_constraint_problems(id@, cs@, 0));
    }
    while i < cs.len()
        invariant
            i <= cs@.len(),
            texts(errs@) == before + declared_constraint_problems(id@, cs@, i as nat),
        decreases cs@.len() - i,
    {
        let c = &cs[i];
        let empty = at(
            id,
            "a [[constraints]] entry names an empty knob; a constraint over nothing is a rule that can never fire".to_owned(),
        );
        note_if(errs, blank(c.knob.as_str()), empty.clone());
        note_if(errs, blank(c.exceeds.as_str()), empty);
        note_if(
            errs,
            same(c.knob.as_str(), c.exceeds.as_str()),
            at(
                id,
                cat3(
                    "constraint ",
                    quoted(c.knob.as_str()).as_str(),
                    " must exceed itself, which nothing can satisfy",
                ),
            ),
        );
        note_if(
            errs,
            blank(c.why.as_str()),
            at(
                id,
                cat5(
                    "constraint \"",
                    c.knob.as_str(),
                    " must exceed ",
                    c.exceeds.as_str(),
                    "\" does not say what breaks when it does not. The text is quoted verbatim into the refusal a sweep sees, and a refusal that only says `no` costs whoever hits it the investigation this field exists to have already done.",
                ),
            ),
        );
        i += 1;
        proof {
            assert(texts(errs@) =~= before + declared_constraint_problems(id@, cs@, i as nat));
        }
    }
    let ghost declared = declared_constraint_problems(id@, cs@, cs@.len());
    let mut k: usize = 0;
    proof {
        assert(texts(errs@) =~= before + declared + committed_violations(id@, cs@, vs@, 0));
    }
    while k < vs.len()
        invariant
            k <= vs@.len(),
            texts(errs@) == before + declared + committed_violations(id@, cs@, vs@, k as nat),
        decreases vs@.len() - k,
    {
        let why = knob_violations(cs, &vs[k].knobs);
        let ghost sofar = texts(errs@);
        let ghost all = variant_violations(id@, vs@[k as int].id@, texts(why@));
        let mut j: usize = 0;
        while j < why.len()
            invariant
                k < vs@.len(),
                j <= why@.len(),
                all == variant_violations(id@, vs@[k as int].id@, texts(why@)),
                texts(errs@) == sofar + all.take(j as int),
            decreases why@.len() - j,
        {
            note(
                errs,
                at(
                    id,
                    cat4(
                        "variant ",
                        quoted(vs[k].id.as_str()).as_str(),
                        ": ",
                        why[j].as_str(),
                    ),
                ),
            );
            j += 1;
            proof {
                assert(texts(errs@) =~= sofar + all.take(j as int));
            }
        }
        proof {
            assert(all.take(why@.len() as int) =~= all);
        }
        k += 1;
        proof {
            assert(texts(errs@) =~= before + declared + committed_violations(
                id@,
                cs@,
                vs@,
                k as nat,
            ));
        }
    }
    proof {
        assert(texts(errs@) =~= before + constraints_problems(*e));
    }
}

/// Problems that any descriptor can have, whatever its status.
pub open spec fn identity_problems(e: Entrant, facts: Facts) -> Seq<Seq<char>> {
    let id = e.spec.entrant.id@;
    listed(
        e.spec.schema != DESCRIPTOR_SCHEMA,
        about(
            id,
            "descriptor schema "@ + decimal(e.spec.schema as nat) + ", expected "@ + decimal(
                DESCRIPTOR_SCHEMA as nat,
            ),
        ),
    ) + listed(
        facts.dir_name@ != id,
        about(id, "id does not match directory name "@ + debug_quoted(facts.dir_name@)),
    ) + listed(
        !is_slug(id),
        about(id, "id must be lowercase ascii, digits and hyphens"@),
    ) + listed(is_blank(e.spec.entrant.licence@), about(id, "licence is empty"@)) + listed(
        e.spec.entrant.language@.len() == 0,
        about(id, "language must list at least one language"@),
    ) + listed(
        e.spec.display.hue >= 360,
        about(
            id,
            "display.hue "@ + decimal(e.spec.display.hue as nat)
                + " is not an angle in 0..360"@,
        ),
    )
}

/// Problems with the files an entrant that runs must have.
pub open spec fn file_problems(e: Entrant, facts: Facts) -> Seq<Seq<char>> {
    let id = e.spec.entrant.id@;
    listed(e.spec.build is None, about(id, "active entrant has no [build]"@)) + listed(
        !facts.has_readme,
        about(id, "active entrant has no README.md"@),
    ) + match e.spec.build {
        None => seq![],
        Some(b) => listed(
            !facts.has_dockerfile,
            about(id, "build.dockerfile "@ + b.dockerfile@ + " not found"@),
        ),
    }
}

/// Every problem of a descriptor, in order. One that does not run owes only its
/// identity and the reason it does not.
pub open spec fn problems(e: Entrant, facts: Facts) -> Seq<Seq<char>> {
    let id = e.spec.entrant.id@;
    if !e.spec.entrant.status.runs() {
        identity_problems(e, facts) + listed(
            e.spec.planned is None,
            about(id, "status is not runnable but [planned] is absent"@),
        )
    } else {
        identity_problems(e, facts) + file_problems(e, facts) + version_problems(e)
            + guarantee_problems(e) + envelope_problems(e, facts) + variants_problems(e)
            + constraints_problems(e)
    }
}

fn validate_identity(e: &Entrant, facts: &Facts, errs: &mut Vec<String>)
    ensures
        texts(final(errs)@) == texts(old(errs)@) + identity_problems(*e, *facts),
{
    let ghost before = texts(errs@);
    let id = e.id();
    note_if(
        errs,
        e.spec.schema != DESCRIPTOR_SCHEMA,
        at(
            id,
            cat4(
                "descriptor schema ",
                dec(e.spec.schema as u128).as_str(),
                ", expected ",
                dec(DESCRIPTOR_SCHEMA as u128).as_str(),
            ),
        ),
    );
    note_if(
        errs,
        !same(facts.dir_name.as_str(), id),
        at(
            id,
            cat2("id does not match directory name ", quoted(facts.dir_name.as_str()).as_str()),
        ),
    );
    note_if(
        errs,
        !slug(id),
        at(id, "id must be lowercase ascii, digits and hyphens".to_owned()),
    );
    note_if(
        errs,
        blank(e.spec.entrant.licence.as_str()),
        at(id, "licence is empty".to_owned()),
    );
    note_if(
        errs,
        e.spec.entrant.language.len() == 0,
        at(id, "language must list at least one language".to_owned()),
    );
    note_if(
        errs,
        e.spec.display.hue >= 360,
        at(
            id,
            cat3(
                "display.hue ",
                dec(e.spec.display.hue as u128).as_str(),
                " is not an angle in 0..360",
            ),
        ),
    );
    proof {
        assert(texts(errs@) =~= before + identity_problems(*e, *facts));
    }
}

fn validate_files(e: &Entrant, facts: &Facts, errs: &mut Vec<String>)
    ensures
        texts(final(errs)@) == texts(old(errs)@) + file_problems(*e, *facts),
{
    let ghost before = texts(errs@);
    let id = e.id();
    note_if(
        errs,
        e.spec.build.is_none(),
        at(id, "active entrant has no [build]".to_owned()),
    );
    note_if(
        errs,
        !facts.has_readme,
        at(id, "active entrant has no README.md".to_owned()),
    );
    if let Some(b) = &e.spec.build {
        note_if(
            errs,
            !facts.has_dockerfile,
            at(id, cat3("build.dockerfile ", b.dockerfile.as_str(), " not found")),
        );
    }
    proof {
        assert(texts(errs@) =~= before + file_problems(*e, *facts));
    }
}

/// Validates one descriptor. Every problem is reported, not the first alone.
pub fn validate(e: &Entrant, facts: &Facts) -> (r: Vec<String>)
    ensures
        texts(r@) == problems(*e, *facts),
{
    let mut errs: Vec<String> = Vec::new();
    proof {
        assert(texts(errs@) =~= seq![]);
    }
    validate_identity(e, facts, &mut errs);
    if !e.spec.entrant.status.is_runnable() {
        note_if(
            &mut errs,
            e.spec.planned.is_none(),
            at(e.id(), "status is not runnable but [planned] is absent".to_owned()),
        );
        proof {
            assert(texts(errs@) =~= problems(*e, *facts));
        }
        return errs;
    }
    validate_files(e, facts, &mut errs);
    validate_version(e, &mut errs);
    validate_guarantees(e, &mut errs);
    validate_envelope(e, facts, &mut errs);
    validate_variants(e, &mut errs);
    validate_constraints(e, &mut errs);
    proof {
        assert(texts(errs@) =~= problems(*e, *facts));
    }
    errs
}

/// A descriptor with no problem, as itself; else its problems.
pub fn checked(e: Entrant, facts: &Facts) -> (r: Result<Entrant, Vec<String>>)
    ensures
        match r {
            Ok(x) => x == e && problems(e, *facts).len() == 0,
            Err(errs) => texts(errs@) == problems(e, *facts) && problems(e, *facts).len() > 0,
        },
{
    let errs = validate(&e, facts);
    proof {
        assert(texts(errs@).len() == errs@.len());
    }
    if errs.len() == 0 {
        Ok(e)
    } else {
        Err(errs)
    }
}

proof fn lemma_no_variant_problems(id: Seq<char>, vs: Seq<Variant>, n: nat, i: int)
    requires
        each_variant_problems(id, vs, n).len() == 0,
        0 <= i < n,
    ensures
        variant_problems(id, vs, i).len() == 0,
    decreases n,
{
    if i < n - 1 {
        lemma_no_variant_problems(id, vs, (n - 1) as nat, i);
    }
}

proof fn lemma_no_committed_violation(
    id: Seq<char>,
    cs: Seq<Constraint>,
    vs: Seq<Variant>,
    n: nat,
    i: int,
)
    requires
        committed_violations(id, cs, vs, n).len() == 0,
        0 <= i < n,
    ensures
        violations(cs, vs[i].knobs@, cs.len()).len() == 0,
    decreases n,
{
    if i < n - 1 {
        lemma_no_committed_violation(id, cs, vs, (n - 1) as nat, i);
    }
}

/// What holds of variant `i` of an accepted descriptor.
pub open spec fn is_accepted_variant(e: Entrant, v: Variant, i: int) -> bool {
    &&& v.unshipped@.len() > 0 ==> v.approach == Approach::Stripped
    &&& !is_repeat(e.spec.variants@, i)
    &&& is_slug(v.id@)
    &&& v.tier@ == "a"@ || v.tier@ == "b"@
    &&& lookup(v.reports@, "wire_format"@) is Some
    &&& forall|k: int|
        0 <= k < e.spec.constraints@.len() ==> satisfied(
            #[trigger] e.spec.constraints@[k],
            v.knobs@,
        )
}

/// Of an accepted descriptor that runs: its id names its directory; it has one
/// data-plane container and the common delivery guarantee; exactly one variant is
/// the default, and that one is realistic; every variant that selects code the
/// project does not ship is stripped, has an id no other has, names its tier and
/// its wire format, and satisfies every declared constraint.
pub proof fn law_accepted_descriptor(e: Entrant, facts: Facts)
    requires
        problems(e, facts).len() == 0,
        e.spec.entrant.status.runs(),
    ensures
        facts.dir_name@ == e.spec.entrant.id@,
        e.spec.guarantees is Some && e.spec.guarantees->Some_0.delivery@ == DELIVERY_CONTRACT@,
        e.spec.envelope is Some && data_planes(
            e.spec.envelope->Some_0.containers@,
            e.spec.envelope->Some_0.containers@.len(),
        ) == 1,
        defaults(e.spec.variants@, e.spec.variants@.len()) == 1,
        e.spec.variants@[default_index(e.spec.variants@, 0)].default ==> e.spec.variants@[
            default_index(e.spec.variants@, 0)
        ].approach == Approach::Realistic,
        forall|i: int|
            0 <= i < e.spec.variants@.len() ==> is_accepted_variant(
                e,
                #[trigger] e.spec.variants@[i],
                i,
            ),
{
    lemma_no_part_problems(e, facts);
    assert forall|i: int| 0 <= i < e.spec.variants@.len() implies is_accepted_variant(
        e,
        #[trigger] e.spec.variants@[i],
        i,
    ) by {
        lemma_accepted_variant(e, facts, i);
    }
}

/// Where there is no problem, no part has one.
proof fn lemma_no_part_problems(e: Entrant, facts: Facts)
    requires
        problems(e, facts).len() == 0,
        e.spec.entrant.status.runs(),
    ensures
        identity_problems(e, facts).len() == 0,
        guarantee_problems(e).len() == 0,
        envelope_problems(e, facts).len() == 0,
        e.spec.variants@.len() > 0,
        each_variant_problems(
            e.spec.entrant.id@,
            e.spec.variants@,
            e.spec.variants@.len(),
        ).len() == 0,
        default_problems(e.spec.entrant.id@, e.spec.variants@).len() == 0,
        committed_violations(
            e.spec.entrant.id@,
            e.spec.constraints@,
            e.spec.variants@,
            e.spec.variants@.len(),
        ).len() == 0,
{
    assert(variants_problems(e).len() == 0);
    assert(constraints_problems(e).len() == 0);
}

proof fn lemma_accepted_variant(e: Entrant, facts: Facts, i: int)
    requires
        problems(e, facts).len() == 0,
        e.spec.entrant.status.runs(),
        0 <= i < e.spec.variants@.len(),
    ensures
        is_accepted_variant(e, e.spec.variants@[i], i),
{
    let id = e.spec.entrant.id@;
    let vs = e.spec.variants@;
    let cs = e.spec.constraints@;
    lemma_no_part_problems(e, facts);
    lemma_no_variant_problems(id, vs, vs.len(), i);
    lemma_no_committed_violation(id, cs, vs, vs.len(), i);
    law_no_violation_means_satisfied(cs, vs[i].knobs@, cs.len());
}

/// A descriptor that does not run owes no implementation: what its build, version,
/// envelope, guarantees, variants or files are makes no difference to validation.
pub proof fn law_planned_owes_no_implementation(a: Entrant, b: Entrant, fa: Facts, fb: Facts)
    requires
        !a.spec.entrant.status.runs(),
        a.spec.schema == b.spec.schema,
        a.spec.entrant == b.spec.entrant,
        a.spec.display == b.spec.display,
        a.spec.planned == b.spec.planned,
        fa.dir_name == fb.dir_name,
    ensures
        problems(a, fa) == problems(b, fb),
{
}

// ---------------------------------------------------------------------------
// Checks across the whole set
// ---------------------------------------------------------------------------

/// The latest of the first `n` entrants that has a display order.
pub open spec fn last_with_order(es: Seq<Entrant>, n: nat, order: i64) -> Option<Seq<char>>
    decreases n,
{
    if n == 0 {
        None
    } else if es[n - 1].spec.display.order == order {
        Some(es[n - 1].spec.entrant.id@)
    } else {
        last_with_order(es, (n - 1) as nat, order)
    }
}

/// One problem for each of the first `n` entrants whose order is taken already.
pub open spec fn order_problems(es: Seq<Entrant>, n: nat) -> Seq<Seq<char>>
    decreases n,
{
    if n == 0 {
        seq![]
    } else {
        let e = es[n - 1];
        order_problems(es, (n - 1) as nat) + match last_with_order(
            es,
            (n - 1) as nat,
            e.spec.display.order,
        ) {
            Some(prev) => seq![
                "display.order "@ + decimal_int(e.spec.display.order as int)
                    + " is used by both "@ + prev + " and "@ + e.spec.entrant.id@,
            ],
            None => seq![],
        }
    }
}

/// Hues and ids, ordered by hue and then by id.
pub open spec fn hue_less(a: (u16, Seq<char>), b: (u16, Seq<char>)) -> bool {
    a.0 < b.0 || (a.0 == b.0 && is_less(a.1, b.1))
}

/// An ordered list with `p` at its place.
pub open spec fn placed(s: Seq<(u16, Seq<char>)>, p: (u16, Seq<char>)) -> Seq<(u16, Seq<char>)>
    decreases s.len(),
{
    if s.len() == 0 {
        seq![p]
    } else if hue_less(p, s[0]) {
        seq![p] + s
    } else {
        seq![s[0]] + placed(s.skip(1), p)
    }
}

/// The first `n` hues, in order.
pub open spec fn sorted_hues(hues: Seq<(u16, Seq<char>)>, n: nat) -> Seq<(u16, Seq<char>)>
    decreases n,
{
    if n == 0 {
        seq![]
    } else {
        placed(sorted_hues(hues, (n - 1) as nat), hues[n - 1])
    }
}

/// One problem for each of the first `n` neighbours within twenty degrees.
pub open spec fn close_hues(s: Seq<(u16, Seq<char>)>, n: nat) -> Seq<Seq<char>>
    decreases n,
{
    if n < 2 {
        seq![]
    } else {
        let (a, b) = (s[n - 2], s[n - 1]);
        close_hues(s, (n - 1) as nat) + listed(
            b.0 - a.0 < 20,
            "display.hue "@ + decimal(a.0 as nat) + " ("@ + a.1 + ") and "@ + (decimal(b.0 as nat)
                + " ("@ + b.1 + ") are within 20 degrees"@),
        )
    }
}

pub open spec fn hue_views(v: Seq<(u16, String)>) -> Seq<(u16, Seq<char>)> {
    Seq::new(v.len(), |i: int| (v[i].0, v[i].1@))
}

pub open spec fn hues_of(es: Seq<Entrant>) -> Seq<(u16, Seq<char>)> {
    Seq::new(es.len(), |i: int| (es[i].spec.display.hue, es[i].spec.entrant.id@))
}

pub open spec fn is_hue_sorted(s: Seq<(u16, Seq<char>)>) -> bool {
    forall|i: int, j: int| 0 <= i < j < s.len() ==> (#[trigger] s[i]).0 <= (#[trigger] s[j]).0
}

/// Placing inserts at one position, and keeps the order.
proof fn lemma_placed(s: Seq<(u16, Seq<char>)>, p: (u16, Seq<char>)) -> (m: int)
    requires
        is_hue_sorted(s),
    ensures
        0 <= m <= s.len(),
        placed(s, p) == s.insert(m, p),
        is_hue_sorted(placed(s, p)),
        forall|i: int| 0 <= i < m ==> (#[trigger] s[i]).0 <= p.0,
        forall|i: int| m <= i < s.len() ==> p.0 <= (#[trigger] s[i]).0,
    decreases s.len(),
{
    if s.len() == 0 {
        assert(placed(s, p) =~= s.insert(0, p));
        0
    } else if hue_less(p, s[0]) {
        assert(placed(s, p) =~= s.insert(0, p));
        assert forall|i: int| 0 <= i < s.len() implies p.0 <= (#[trigger] s[i]).0 by {
            if i > 0 {
                assert(s[0].0 <= s[i].0);
            }
        }
        0
    } else {
        let r = s.skip(1);
        let m = lemma_placed(r, p);
        assert(placed(s, p) =~= s.insert(m + 1, p));
        assert forall|i: int| 0 <= i < m + 1 implies (#[trigger] s[i]).0 <= p.0 by {
            if i > 0 {
                assert(s[i] == r[i - 1]);
            }
        }
        assert forall|i: int| m + 1 <= i < s.len() implies p.0 <= (#[trigger] s[i]).0 by {
            assert(s[i] == r[i - 1]);
        }
        let t = placed(s, p);
        assert forall|i: int, j: int| 0 <= i < j < t.len() implies (#[trigger] t[i]).0 <= (
        #[trigger] t[j]).0 by {
            let a = if i < m + 1 { i } else { i - 1 };
            let b = if j < m + 1 { j } else { j - 1 };
            if i != m + 1 && j != m + 1 {
                assert(s[a].0 <= s[b].0);
            }
        }
        m + 1
    }
}

proof fn lemma_hues_sorted(hues: Seq<(u16, Seq<char>)>, n: nat)
    requires
        n <= hues.len(),
    ensures
        is_hue_sorted(sorted_hues(hues, n)),
        sorted_hues(hues, n).len() == n,
    decreases n,
{
    if n > 0 {
        lemma_hues_sorted(hues, (n - 1) as nat);
        let _ = lemma_placed(sorted_hues(hues, (n - 1) as nat), hues[n - 1]);
    }
}

/// All entries of a list differ by twenty degrees or more.
pub open spec fn is_separated(s: Seq<(u16, Seq<char>)>) -> bool {
    forall|i: int, j: int|
        0 <= i < j < s.len() ==> (#[trigger] s[j]).0 - (#[trigger] s[i]).0 >= 20 || s[i].0 - s[j].0
            >= 20
}

proof fn lemma_neighbours_apart(s: Seq<(u16, Seq<char>)>, n: nat, i: int, j: int)
    requires
        n <= s.len(),
        close_hues(s, n).len() == 0,
        0 <= i < j < n,
    ensures
        s[j].0 - s[i].0 >= 20,
    decreases n,
{
    if j < n - 1 {
        lemma_neighbours_apart(s, (n - 1) as nat, i, j);
    } else if i < j - 1 {
        lemma_neighbours_apart(s, (n - 1) as nat, i, j - 1);
    }
}

proof fn lemma_separation_transfers(hues: Seq<(u16, Seq<char>)>, n: nat)
    requires
        n <= hues.len(),
        is_separated(sorted_hues(hues, n)),
    ensures
        is_separated(hues.take(n as int)),
        forall|i: int|
            0 <= i < n ==> exists|k: int|
                0 <= k < n && #[trigger] sorted_hues(hues, n)[k] == #[trigger] hues[i],
    decreases n,
{
    if n > 0 {
        let m1 = (n - 1) as nat;
        let s = sorted_hues(hues, m1);
        let t = sorted_hues(hues, n);
        lemma_hues_sorted(hues, m1);
        let m = lemma_placed(s, hues[n - 1]);
        assert forall|i: int, j: int| 0 <= i < j < s.len() implies (#[trigger] s[j]).0 - (
        #[trigger] s[i]).0 >= 20 || s[i].0 - s[j].0 >= 20 by {
            let a = if i < m { i } else { i + 1 };
            let b = if j < m { j } else { j + 1 };
            assert(t[a] == s[i] && t[b] == s[j]);
        }
        lemma_separation_transfers(hues, m1);
        assert(t[m] == hues[n - 1]);
        assert forall|i: int| 0 <= i < n implies exists|k: int|
            0 <= k < n && #[trigger] t[k] == #[trigger] hues[i] by {
            if i < n - 1 {
                let k = choose|k: int| 0 <= k < m1 && #[trigger] s[k] == hues[i];
                let a = if k < m { k } else { k + 1 };
                assert(t[a] == hues[i]);
            }
        }
        let h = hues.take(n as int);
        assert forall|i: int, j: int| 0 <= i < j < h.len() implies (#[trigger] h[j]).0 - (
        #[trigger] h[i]).0 >= 20 || h[i].0 - h[j].0 >= 20 by {
            if j < n - 1 {
                assert(hues.take(m1 as int)[i] == h[i] && hues.take(m1 as int)[j] == h[j]);
            } else {
                let k = choose|k: int| 0 <= k < m1 && #[trigger] s[k] == hues[i];
                let a = if k < m { k } else { k + 1 };
                assert(t[a] == hues[i] && t[m] == hues[j]);
            }
        }
    }
}

/// Where no hue problem is reported, every two entrants' hues are at least twenty
/// degrees apart.
pub proof fn law_accepted_hues_are_apart(hues: Seq<(u16, Seq<char>)>)
    requires
        close_hues(sorted_hues(hues, hues.len()), hues.len()).len() == 0,
    ensures
        is_separated(hues),
{
    let s = sorted_hues(hues, hues.len());
    lemma_hues_sorted(hues, hues.len());
    assert forall|i: int, j: int| 0 <= i < j < s.len() implies (#[trigger] s[j]).0 - (#[trigger] s[
    i]).0 >= 20 || s[i].0 - s[j].0 >= 20 by {
        lemma_neighbours_apart(s, s.len(), i, j);
    }
    lemma_separation_transfers(hues, hues.len());
    assert(hues.take(hues.len() as int) =~= hues);
}

fn place_hue(sorted: &mut Vec<(u16, String)>, hue: u16, id: String)
    ensures
        hue_views(final(sorted)@) == placed(hue_views(old(sorted)@), (hue, id@)),
{
    let ghost s = hue_views(sorted@);
    let ghost p = (hue, id@);
    let mut i: usize = 0;
    proof {
        assert(s.skip(0) =~= s);
        assert(s.take(0) + placed(s, p) =~= placed(s, p));
    }
    while i < sorted.len() && !(hue < sorted[i].0 || (hue == sorted[i].0 && less(
        id.as_str(),
        sorted[i].1.as_str(),
    )))
        invariant
            i <= sorted@.len(),
            s == hue_views(sorted@),
            p == (hue, id@),
            s.take(i as int) + placed(s.skip(i as int), p) == placed(s, p),
        decreases sorted@.len() - i,
    {
        proof {
            let t = s.skip(i as int);
            assert(t[0] == s[i as int]);
            assert(t.skip(1) =~= s.skip(i + 1));
            assert(s.take(i + 1) + placed(s.skip(i + 1), p) =~= s.take(i as int) + placed(t, p));
        }
        i += 1;
    }
    sorted.insert(i, (hue, id));
    proof {
        let t = s.skip(i as int);
        if i < s.len() {
            assert(t[0] == s[i as int]);
        }
        assert(hue_views(sorted@) =~= s.take(i as int) + placed(t, p));
    }
}

/// The hues that a reader could not tell apart.
pub fn hue_clashes(hues: &Vec<(u16, String)>) -> (r: Vec<String>)
    ensures
        texts(r@) == close_hues(sorted_hues(hue_views(hues@), hues@.len()), hues@.len()),
{
    let ghost all = hue_views(hues@);
    let mut sorted: Vec<(u16, String)> = Vec::new();
    let mut i: usize = 0;
    proof {
        assert(hue_views(sorted@) =~= sorted_hues(all, 0));
    }
    while i < hues.len()
        invariant
            i <= hues@.len(),
            all == hue_views(hues@),
            hue_views(sorted@) == sorted_hues(all, i as nat),
        decreases hues@.len() - i,
    {
        place_hue(&mut sorted, hues[i].0, hues[i].1.clone());
        i += 1;
    }
    let ghost s = sorted_hues(all, all.len());
    proof {
        lemma_hues_sorted(all, all.len());
        assert(hue_views(sorted@) == s);
        assert(sorted@.len() == s.len());
    }
    let mut out: Vec<String> = Vec::new();
    let mut k: usize = 1;
    proof {
        assert(texts(out@) =~= close_hues(s, 1));
    }
    while k < sorted.len()
        invariant
            1 <= k,
            k <= sorted@.len() || k == 1,
            s == hue_views(sorted@),
            is_hue_sorted(s),
            texts(out@) == close_hues(s, k as nat),
        decreases sorted@.len() - k,
    {
        let a = &sorted[k - 1];
        let b = &sorted[k];
        proof {
            assert(s[k - 1] == (a.0, a.1@) && s[k as int] == (b.0, b.1@));
        }
        let head = cat5(
            "display.hue ",
            dec(a.0 as u128).as_str(),
            " (",
            a.1.as_str(),
            ") and ",
        );
        let tail = cat4(dec(b.0 as u128).as_str(), " (", b.1.as_str(), ") are within 20 degrees");
        note_if(&mut out, b.0 - a.0 < 20, cat2(head.as_str(), tail.as_str()));
        k += 1;
    }
    proof {
        if s.len() < 2 {
            assert(close_hues(s, s.len()) =~= close_hues(s, 1));
        }
    }
    out
}

/// Problems that only show across the whole set.
pub open spec fn set_problems(es: Seq<Entrant>) -> Seq<Seq<char>> {
    order_problems(es, es.len()) + close_hues(sorted_hues(hues_of(es), es.len()), es.len())
}

/// Checks display orders and hues across the set.
pub fn cross_check(entrants: &Vec<Entrant>, errs: &mut Vec<String>)
    ensures
        texts(final(errs)@) == texts(old(errs)@) + set_problems(entrants@),
{
    let ghost before = texts(errs@);
    let mut hues: Vec<(u16, String)> = Vec::new();
    let mut i: usize = 0;
    proof {
        assert(texts(errs@) =~= before + order_problems(entrants@, 0));
    }
    while i < entrants.len()
        invariant
            i <= entrants@.len(),
            hues@.len() == i,
            forall|k: int|
                0 <= k < i ==> (#[trigger] hues@[k]).0 == entrants@[k].spec.display.hue
                    && hues@[k].1@ == entrants@[k].spec.entrant.id@,
            texts(errs@) == before + order_problems(entrants@, i as nat),
        decreases entrants@.len() - i,
    {
        let e = &entrants[i];
        let ghost sofar = texts(errs@);
        let mut j: usize = i;
        while j > 0 && entrants[j - 1].spec.display.order != e.spec.display.order
            invariant
                j <= i < entrants@.len(),
                *e == entrants@[i as int],
                last_with_order(entrants@, i as nat, e.spec.display.order) == last_with_order(
                    entrants@,
                    j as nat,
                    e.spec.display.order,
                ),
            decreases j,
        {
            j -= 1;
        }
        if j > 0 {
            let order = dec_int(e.spec.display.order as i128);
            note(
                errs,
                cat6(
                    "display.order ",
                    order.as_str(),
                    " is used by both ",
                    entrants[j - 1].id(),
                    " and ",
                    e.id(),
                ),
            );
        }
        hues.push((e.spec.display.hue, e.spec.entrant.id.clone()));
        i += 1;
        proof {
            assert(texts(errs@) =~= before + order_problems(entrants@, i as nat));
        }
    }
    proof {
        assert(hue_views(hues@) =~= hues_of(entrants@));
    }
    let clashes = hue_clashes(&hues);
    let ghost orders = texts(errs@);
    let mut k: usize = 0;
    proof {
        assert(texts(errs@) =~= orders + texts(clashes@).take(0));
    }
    while k < clashes.len()
        invariant
            k <= clashes@.len(),
            texts(errs@) == orders + texts(clashes@).take(k as int),
        decreases clashes@.len() - k,
    {
        note(errs, clashes[k].clone());
        k += 1;
        proof {
            assert(texts(errs@) =~= orders + texts(clashes@).take(k as int));
        }
    }
    proof {
        assert(texts(clashes@).take(k as int) =~= texts(clashes@));
        assert(hue_views(hues@).len() == hues@.len());
        assert(texts(errs@) =~= before + set_problems(entrants@));
    }
}

/// The entrants among the first `n` outcomes.
pub open spec fn loaded(parts: Seq<Result<Entrant, Vec<String>>>, n: nat) -> Seq<Entrant>
    decreases n,
{
    if n == 0 {
        seq![]
    } else {
        match parts[n - 1] {
            Ok(e) => loaded(parts, (n - 1) as nat).push(e),
            Err(_) => loaded(parts, (n - 1) as nat),
        }
    }
}

/// The problems among the first `n` outcomes.
pub open spec fn load_problems(parts: Seq<Result<Entrant, Vec<String>>>, n: nat) -> Seq<Seq<char>>
    decreases n,
{
    if n == 0 {
        seq![]
    } else {
        match parts[n - 1] {
            Ok(_) => load_problems(parts, (n - 1) as nat),
            Err(errs) => load_problems(parts, (n - 1) as nat) + texts(errs@),
        }
    }
}

/// The set of entrants, from one outcome for each directory in order; every
/// problem of any of them, and of the set, if there is one.
pub fn load_all(parts: Vec<Result<Entrant, Vec<String>>>) -> (r: Result<
    Vec<Entrant>,
    Vec<String>,
>)
    ensures
        ({
            let es = loaded(parts@, parts@.len());
            let errs = load_problems(parts@, parts@.len()) + set_problems(es);
            match r {
                Ok(v) => v@ == es && errs.len() == 0,
                Err(v) => texts(v@) == errs && errs.len() > 0,
            }
        }),
{
    let ghost all = parts@;
    let mut rest = parts;
    let mut entrants: Vec<Entrant> = Vec::new();
    let mut errors: Vec<String> = Vec::new();
    let mut kept: Vec<Result<Entrant, Vec<String>>> = Vec::new();
    let n: usize = rest.len();
    // Outcomes are taken from the back, so they are first turned round.
    while rest.len() > 0
        invariant
            rest@.len() + kept@.len() == all.len(),
            n == all.len(),
            rest@ == all.take(rest@.len() as int),
            forall|k: int| 0 <= k < kept@.len() ==> #[trigger] kept@[k] == all[all.len() - 1 - k],
        decreases rest@.len(),
    {
        match rest.pop() {
            Some(x) => {
                kept.push(x);
            },
            None => {},
        }
        proof {
            assert(rest@ =~= all.take(rest@.len() as int));
        }
    }
    let mut i: usize = 0;
    proof {
        assert(texts(errors@) =~= load_problems(all, 0));
        assert(entrants@ =~= loaded(all, 0));
    }
    while kept.len() > 0
        invariant
            n == all.len(),
            i + kept@.len() == n,
            forall|k: int| 0 <= k < kept@.len() ==> #[trigger] kept@[k] == all[all.len() - 1 - k],
            entrants@ == loaded(all, i as nat),
            texts(errors@) == load_problems(all, i as nat),
        decreases kept@.len(),
    {
        let ghost last = kept@[kept@.len() - 1];
        proof {
            assert(last == all[i as int]);
        }
        match kept.pop() {
            Some(Ok(e)) => {
                entrants.push(e);
            },
            Some(Err(errs)) => {
                let ghost sofar = texts(errors@);
                let mut k: usize = 0;
                proof {
                    assert(texts(errors@) =~= sofar + texts(errs@).take(0));
                }
                while k < errs.len()
                    invariant
                        k <= errs@.len(),
                        texts(errors@) == sofar + texts(errs@).take(k as int),
                    decreases errs@.len() - k,
                {
                    note(&mut errors, errs[k].clone());
                    k += 1;
                    proof {
                        assert(texts(errors@) =~= sofar + texts(errs@).take(k as int));
                    }
                }
                proof {
                    assert(texts(errs@).take(k as int) =~= texts(errs@));
                }
            },
            None => {},
        }
        i += 1;
    }
    cross_check(&entrants, &mut errors);
    proof {
        assert(texts(errors@).len() == errors@.len());
    }
    if errors.len() == 0 {
        Ok(entrants)
    } else {
        Err(errors)
    }
}

// ---------------------------------------------------------------------------
// Laws on what a descriptor owes
// ---------------------------------------------------------------------------

/// Active and historical entrants run; planned and withdrawn ones do not.
pub proof fn law_who_runs()
    ensures
        Status::Active.runs() && Status::Historical.runs(),
        !Status::Planned.runs() && !Status::Withdrawn.runs(),
{
}

/// A text is blank exactly where every character of it is white space.
pub proof fn law_blank_is_all_white_space(s: Seq<char>)
    ensures
        is_blank(s) <==> forall|i: int| 0 <= i < s.len() ==> is_space(#[trigger] s[i]),
{
    law_trim_takes_the_ends(s);
    let (a, b) = choose|a: int, b: int| is_trim(s, trimmed(s), a, b);
    if is_blank(s) {
        assert(a == b);
        assert forall|i: int| 0 <= i < s.len() implies is_space(#[trigger] s[i]) by {}
    } else {
        assert(trimmed(s)[0] == s[a]);
        assert(!is_space(s[a]));
    }
}

/// The identity of a descriptor is accepted exactly where its schema is the first, its id
/// names its directory and is a slug, it has a licence and a language, and its hue is an
/// angle.
pub proof fn law_identity_rules(e: Entrant, facts: Facts)
    ensures
        identity_problems(e, facts).len() == 0 <==> {
            &&& e.spec.schema == 1
            &&& facts.dir_name@ == e.spec.entrant.id@
            &&& is_slug(e.spec.entrant.id@)
            &&& !is_blank(e.spec.entrant.licence@)
            &&& e.spec.entrant.language@.len() > 0
            &&& e.spec.display.hue < 360
        },
{
}

/// An entrant that runs has a build, its dockerfile and a README.
pub proof fn law_file_rules(e: Entrant, facts: Facts)
    ensures
        file_problems(e, facts).len() == 0 <==> e.spec.build is Some && facts.has_readme
            && facts.has_dockerfile,
{
}

/// A version is resolved by a command, and there is one.
pub proof fn law_version_rules(e: Entrant)
    ensures
        version_problems(e).len() == 0 <==> e.spec.version is Some
            && e.spec.version->Some_0.strategy@ == "command"@
            && e.spec.version->Some_0.command@.len() > 0,
{
}

/// Every arm delivers at least once.
pub proof fn law_guarantee_rules(e: Entrant)
    ensures
        guarantee_problems(e).len() == 0 <==> e.spec.guarantees is Some
            && e.spec.guarantees->Some_0.delivery@ == "at-least-once"@,
{
}

/// Of the first `n` containers, container `i` is the only data-plane one.
pub open spec fn is_only_data_plane(cs: Seq<Container>, n: nat, i: int) -> bool {
    &&& 0 <= i < n
    &&& cs[i].role == Role::DataPlane
    &&& forall|j: int| 0 <= j < n && (#[trigger] cs[j]).role == Role::DataPlane ==> j == i
}

proof fn lemma_no_data_plane(cs: Seq<Container>, n: nat, k: int)
    requires
        n <= cs.len(),
    ensures
        data_planes(cs, n) == 0 && 0 <= k < n ==> cs[k].role != Role::DataPlane,
    decreases n,
{
    if n > 0 {
        lemma_no_data_plane(cs, (n - 1) as nat, k);
    }
}

proof fn lemma_no_data_plane_counted(cs: Seq<Container>, n: nat)
    requires
        n <= cs.len(),
        forall|j: int| 0 <= j < n ==> (#[trigger] cs[j]).role != Role::DataPlane,
    ensures
        data_planes(cs, n) == 0,
    decreases n,
{
    if n > 0 {
        assert(cs[n - 1].role != Role::DataPlane);
        lemma_no_data_plane_counted(cs, (n - 1) as nat);
    }
}

/// Where one data-plane container is counted, there is one, and only one.
proof fn lemma_counted_data_plane(cs: Seq<Container>, n: nat) -> (i: int)
    requires
        n <= cs.len(),
        data_planes(cs, n) == 1,
    ensures
        is_only_data_plane(cs, n, i),
        data_memory(cs, n) == cs[i].memory@,
    decreases n,
{
    let m = (n - 1) as nat;
    if cs[n - 1].role == Role::DataPlane {
        assert forall|j: int| 0 <= j < n && (#[trigger] cs[j]).role == Role::DataPlane implies j == n
            - 1 by {
            lemma_no_data_plane(cs, m, j);
        }
        n - 1
    } else {
        let i = lemma_counted_data_plane(cs, m);
        assert forall|j: int|
            0 <= j < n && (#[trigger] cs[j]).role == Role::DataPlane implies j == i by {}
        i
    }
}

/// Where there is only one data-plane container, one is counted.
proof fn lemma_only_data_plane(cs: Seq<Container>, n: nat, i: int)
    requires
        n <= cs.len(),
        is_only_data_plane(cs, n, i),
    ensures
        data_planes(cs, n) == 1,
        data_memory(cs, n) == cs[i].memory@,
    decreases n,
{
    let m = (n - 1) as nat;
    if i < m {
        assert(cs[n - 1].role != Role::DataPlane);
        assert(is_only_data_plane(cs, m, i));
        lemma_only_data_plane(cs, m, i);
    } else {
        assert forall|j: int| 0 <= j < m implies (#[trigger] cs[j]).role != Role::DataPlane by {}
        lemma_no_data_plane_counted(cs, m);
    }
}

/// Container `i` is the only data-plane one of an envelope, and its memory is what the
/// envelope declares.
pub open spec fn is_what_the_envelope_gets(env: Envelope, i: int) -> bool {
    &&& is_only_data_plane(env.containers@, env.containers@.len(), i)
    &&& memory_of(env.memory@) == Some(
        match memory_of(env.containers@[i].memory@) {
            Some(n) => n,
            None => 0,
        },
    )
}

/// An envelope has exactly one data-plane container, whose CPUs and memory are what the
/// envelope declares.
pub proof fn law_envelope_rules(e: Entrant, facts: Facts)
    ensures
        envelope_problems(e, facts).len() == 0 <==> e.spec.envelope is Some && facts.cpus_agree
            && exists|i: int| is_what_the_envelope_gets(e.spec.envelope->Some_0, i),
{
    if let Some(env) = e.spec.envelope {
        let cs = env.containers@;
        let n = cs.len();
        if envelope_problems(e, facts).len() == 0 {
            let i = lemma_counted_data_plane(cs, n);
            assert(is_what_the_envelope_gets(env, i));
        }
        if facts.cpus_agree && exists|i: int| is_what_the_envelope_gets(env, i) {
            let i = choose|i: int| is_what_the_envelope_gets(env, i);
            lemma_only_data_plane(cs, n, i);
            assert(envelope_problems(e, facts).len() == 0);
        }
    }
}

proof fn lemma_no_blank_note(v: Seq<Seq<char>>, n: nat, m: Seq<char>)
    requires
        n <= v.len(),
    ensures
        blank_notes(v, n, m).len() == 0 <==> forall|i: int| 0 <= i < n ==> !is_blank(#[trigger] v[i]),
    decreases n,
{
    if n > 0 {
        lemma_no_blank_note(v, (n - 1) as nat, m);
        if blank_notes(v, n, m).len() == 0 {
            assert(!is_blank(v[n - 1]));
        }
    }
}

/// A variant is accepted exactly where its id is a slug that no earlier variant has, its
/// tier is `a` or `b`, it reports its wire format, it names what it lists as unshipped, and
/// it is stripped if it lists anything.
pub proof fn law_variant_rules(id: Seq<char>, vs: Seq<Variant>, i: int)
    requires
        0 <= i < vs.len(),
    ensures
        variant_problems(id, vs, i).len() == 0 <==> {
            &&& forall|j: int| 0 <= j < i ==> (#[trigger] vs[j]).id@ != vs[i].id@
            &&& is_slug(vs[i].id@)
            &&& vs[i].tier@ == "a"@ || vs[i].tier@ == "b"@
            &&& lookup(vs[i].reports@, "wire_format"@) is Some
            &&& forall|k: int|
                0 <= k < vs[i].unshipped@.len() ==> !is_blank((#[trigger] vs[i].unshipped@[k])@)
            &&& vs[i].unshipped@.len() > 0 ==> vs[i].approach == Approach::Stripped
        },
{
    let v = vs[i];
    let m = about(
        id,
        "variant "@ + debug_quoted(v.id@)
            + " lists an empty `unshipped` entry; name the component"@,
    );
    let u = texts(v.unshipped@);
    lemma_no_blank_note(u, u.len(), m);
    assert(u.len() == v.unshipped@.len());
    let named = forall|k: int|
        0 <= k < v.unshipped@.len() ==> !is_blank((#[trigger] v.unshipped@[k])@);
    assert(named <==> blank_notes(u, u.len(), m).len() == 0) by {
        if named {
            assert forall|k: int| 0 <= k < u.len() implies !is_blank(#[trigger] u[k]) by {
                assert(u[k] == v.unshipped@[k]@);
            }
        }
        if blank_notes(u, u.len(), m).len() == 0 {
            assert forall|k: int| 0 <= k < v.unshipped@.len() implies !is_blank(
                (#[trigger] v.unshipped@[k])@,
            ) by {
                assert(u[k] == v.unshipped@[k]@);
            }
        }
    }
    assert(is_repeat(vs, i) <==> !(forall|j: int|
        0 <= j < i ==> (#[trigger] vs[j]).id@ != vs[i].id@));
}

proof fn lemma_each_variant(id: Seq<char>, vs: Seq<Variant>, n: nat)
    requires
        n <= vs.len(),
    ensures
        each_variant_problems(id, vs, n).len() == 0 <==> forall|i: int|
            0 <= i < n ==> #[trigger] variant_problems(id, vs, i).len() == 0,
    decreases n,
{
    if n > 0 {
        lemma_each_variant(id, vs, (n - 1) as nat);
        if each_variant_problems(id, vs, n).len() == 0 {
            assert(variant_problems(id, vs, n - 1).len() == 0);
        }
    }
}

/// Of the first `n` variants, variant `i` is the only default.
pub open spec fn is_only_default(vs: Seq<Variant>, n: nat, i: int) -> bool {
    &&& 0 <= i < n
    &&& vs[i].default
    &&& forall|j: int| 0 <= j < n && (#[trigger] vs[j]).default ==> j == i
}

proof fn lemma_no_default(vs: Seq<Variant>, n: nat, k: int)
    requires
        n <= vs.len(),
    ensures
        defaults(vs, n) == 0 && 0 <= k < n ==> !vs[k].default,
    decreases n,
{
    if n > 0 {
        lemma_no_default(vs, (n - 1) as nat, k);
    }
}

proof fn lemma_no_default_counted(vs: Seq<Variant>, n: nat)
    requires
        n <= vs.len(),
        forall|j: int| 0 <= j < n ==> !(#[trigger] vs[j]).default,
    ensures
        defaults(vs, n) == 0,
    decreases n,
{
    if n > 0 {
        assert(!vs[n - 1].default);
        lemma_no_default_counted(vs, (n - 1) as nat);
    }
}

proof fn lemma_counted_default(vs: Seq<Variant>, n: nat) -> (i: int)
    requires
        n <= vs.len(),
        defaults(vs, n) == 1,
    ensures
        is_only_default(vs, n, i),
    decreases n,
{
    let m = (n - 1) as nat;
    if vs[n - 1].default {
        assert forall|j: int| 0 <= j < n && (#[trigger] vs[j]).default implies j == n - 1 by {
            lemma_no_default(vs, m, j);
        }
        n - 1
    } else {
        let i = lemma_counted_default(vs, m);
        assert forall|j: int| 0 <= j < n && (#[trigger] vs[j]).default implies j == i by {}
        i
    }
}

proof fn lemma_only_default(vs: Seq<Variant>, n: nat, i: int)
    requires
        n <= vs.len(),
        is_only_default(vs, n, i),
    ensures
        defaults(vs, n) == 1,
    decreases n,
{
    let m = (n - 1) as nat;
    if i < m {
        assert(!vs[n - 1].default);
        assert(is_only_default(vs, m, i));
        lemma_only_default(vs, m, i);
    } else {
        assert forall|j: int| 0 <= j < m implies !(#[trigger] vs[j]).default by {}
        lemma_no_default_counted(vs, m);
    }
}

proof fn lemma_default_index(vs: Seq<Variant>, from: int, i: int)
    requires
        is_only_default(vs, vs.len(), i),
        0 <= from <= i,
    ensures
        default_index(vs, from) == i,
    decreases i - from,
{
    if from < i {
        lemma_default_index(vs, from + 1, i);
    }
}

/// Variant `i` is the only default, and is realistic.
pub open spec fn is_realistic_default(vs: Seq<Variant>, i: int) -> bool {
    is_only_default(vs, vs.len(), i) && vs[i].approach == Approach::Realistic
}

/// The variants of an entrant are accepted exactly where there are some, each keeps its
/// own rules, exactly one is the default, and that one is realistic.
pub proof fn law_variants_rules(e: Entrant)
    ensures
        variants_problems(e).len() == 0 <==> {
            &&& forall|i: int|
                0 <= i < e.spec.variants@.len() ==> #[trigger] variant_problems(
                    e.spec.entrant.id@,
                    e.spec.variants@,
                    i,
                ).len() == 0
            &&& exists|i: int| is_realistic_default(e.spec.variants@, i)
        },
{
    let id = e.spec.entrant.id@;
    let vs = e.spec.variants@;
    if vs.len() > 0 {
        lemma_each_variant(id, vs, vs.len());
        if default_problems(id, vs).len() == 0 {
            let i = lemma_counted_default(vs, vs.len());
            lemma_default_index(vs, 0, i);
            assert(is_realistic_default(vs, i));
        }
        if exists|i: int| is_realistic_default(vs, i) {
            let i = choose|i: int| is_realistic_default(vs, i);
            lemma_only_default(vs, vs.len(), i);
            lemma_default_index(vs, 0, i);
            assert(default_problems(id, vs).len() == 0);
        }
    }
}

/// A constraint is declared well exactly where it names two different knobs and says what
/// breaks.
pub proof fn law_constraint_rules(id: Seq<char>, c: Constraint)
    ensures
        constraint_problems(id, c).len() == 0 <==> !is_blank(c.knob@) && !is_blank(c.exceeds@)
            && c.knob@ != c.exceeds@ && !is_blank(c.why@),
{
}

/// A constraint is satisfied exactly where both knobs are set to integers and the one is
/// strictly larger than the other: neither equal values nor a knob that is not set will do.
pub proof fn law_constraint_is_strict(c: Constraint, knobs: Seq<(Seq<char>, Knob)>)
    ensures
        satisfied(c, knobs) <==> {
            &&& lookup(knobs, c.knob@) is Some && lookup(knobs, c.knob@)->Some_0 is Integer
            &&& lookup(knobs, c.exceeds@) is Some && lookup(knobs, c.exceeds@)->Some_0 is Integer
            &&& lookup(knobs, c.knob@)->Some_0->Integer_0 > lookup(
                knobs,
                c.exceeds@,
            )->Some_0->Integer_0
        },
{
}

proof fn lemma_declared_constraints(id: Seq<char>, cs: Seq<Constraint>, n: nat)
    requires
        n <= cs.len(),
    ensures
        declared_constraint_problems(id, cs, n).len() == 0 <==> forall|i: int|
            0 <= i < n ==> constraint_problems(id, #[trigger] cs[i]).len() == 0,
    decreases n,
{
    if n > 0 {
        lemma_declared_constraints(id, cs, (n - 1) as nat);
        if declared_constraint_problems(id, cs, n).len() == 0 {
            assert(constraint_problems(id, cs[n - 1]).len() == 0);
        }
    }
}

proof fn lemma_committed(id: Seq<char>, cs: Seq<Constraint>, vs: Seq<Variant>, n: nat)
    requires
        n <= vs.len(),
    ensures
        committed_violations(id, cs, vs, n).len() == 0 <==> forall|i: int|
            0 <= i < n ==> violations(cs, (#[trigger] vs[i]).knobs@, cs.len()).len() == 0,
    decreases n,
{
    if n > 0 {
        lemma_committed(id, cs, vs, (n - 1) as nat);
        if committed_violations(id, cs, vs, n).len() == 0 {
            assert(violations(cs, vs[n - 1].knobs@, cs.len()).len() == 0);
        }
    }
}

/// The constraints of an entrant are accepted exactly where each is declared well and
/// every variant satisfies every one.
pub proof fn law_constraints_rules(e: Entrant)
    ensures
        constraints_problems(e).len() == 0 <==> {
            &&& forall|k: int|
                0 <= k < e.spec.constraints@.len() ==> constraint_problems(
                    e.spec.entrant.id@,
                    #[trigger] e.spec.constraints@[k],
                ).len() == 0
            &&& forall|i: int, k: int|
                0 <= i < e.spec.variants@.len() && 0 <= k < e.spec.constraints@.len() ==> satisfied(
                    #[trigger] e.spec.constraints@[k],
                    (#[trigger] e.spec.variants@[i]).knobs@,
                )
        },
{
    let id = e.spec.entrant.id@;
    let (cs, vs) = (e.spec.constraints@, e.spec.variants@);
    lemma_declared_constraints(id, cs, cs.len());
    lemma_committed(id, cs, vs, vs.len());
    if committed_violations(id, cs, vs, vs.len()).len() == 0 {
        assert forall|i: int, k: int| 0 <= i < vs.len() && 0 <= k < cs.len() implies satisfied(
            #[trigger] cs[k],
            (#[trigger] vs[i]).knobs@,
        ) by {
            law_no_violation_means_satisfied(cs, vs[i].knobs@, cs.len());
        }
    }
    if forall|i: int, k: int|
        0 <= i < vs.len() && 0 <= k < cs.len() ==> satisfied(
            #[trigger] cs[k],
            (#[trigger] vs[i]).knobs@,
        ) {
        assert forall|i: int| 0 <= i < vs.len() implies violations(
            cs,
            (#[trigger] vs[i]).knobs@,
            cs.len(),
        ).len() == 0 by {
            law_no_violation_means_satisfied(cs, vs[i].knobs@, cs.len());
        }
    }
}

/// A descriptor is accepted exactly where its identity is and, if it runs, its files, its
/// version, its guarantee, its envelope, its variants and its constraints are too; one
/// that does not run says why.
pub proof fn law_accepted_exactly_by_its_rules(e: Entrant, facts: Facts)
    ensures
        e.spec.entrant.status.runs() ==> (problems(e, facts).len() == 0 <==> {
            &&& identity_problems(e, facts).len() == 0
            &&& file_problems(e, facts).len() == 0
            &&& version_problems(e).len() == 0
            &&& guarantee_problems(e).len() == 0
            &&& envelope_problems(e, facts).len() == 0
            &&& variants_problems(e).len() == 0
            &&& constraints_problems(e).len() == 0
        }),
        !e.spec.entrant.status.runs() ==> (problems(e, facts).len() == 0 <==> identity_problems(
            e,
            facts,
        ).len() == 0 && e.spec.planned is Some),
{
}

/// A broken constraint over two integers names both knobs and both values; every other
/// says that it cannot be checked.
pub proof fn law_violation_names_its_knobs(c: Constraint, knobs: Seq<(Seq<char>, Knob)>, a: i64, b: i64)
    requires
        lookup(knobs, c.knob@) == Some(Knob::Integer(a)),
        lookup(knobs, c.exceeds@) == Some(Knob::Integer(b)),
    ensures
        begins(
            violation(c, knobs),
            c.knob@ + " = "@ + decimal_int(a as int) + " must strictly exceed "@ + c.exceeds@ + " = "@
                + decimal_int(b as int),
        ),
{
    let head = c.knob@ + " = "@ + decimal_int(a as int) + " must strictly exceed "@ + c.exceeds@
        + " = "@ + decimal_int(b as int);
    assert(violation(c, knobs).take(head.len() as int) =~= head);
}

/// The default variant is the one that is marked, where one is, and else the first.
pub proof fn law_default_is_the_marked_variant(vs: Seq<Variant>, from: int)
    requires
        0 <= from <= vs.len(),
    ensures
        ({
            let k = default_index(vs, from);
            ||| from <= k < vs.len() && vs[k].default && forall|j: int|
                from <= j < k ==> !(#[trigger] vs[j]).default
            ||| k == 0 && forall|j: int| from <= j < vs.len() ==> !(#[trigger] vs[j]).default
        }),
    decreases vs.len() - from,
{
    if from < vs.len() && !vs[from].default {
        law_default_is_the_marked_variant(vs, from + 1);
    }
}

/// The data plane of an entrant is its first container of that role.
pub proof fn law_data_plane_is_the_first(cs: Seq<Container>, from: int)
    requires
        0 <= from <= cs.len(),
    ensures
        from <= first_data_plane(cs, from) <= cs.len(),
        first_data_plane(cs, from) < cs.len() ==> cs[first_data_plane(cs, from)].role
            == Role::DataPlane,
        forall|j: int|
            from <= j < first_data_plane(cs, from) ==> (#[trigger] cs[j]).role != Role::DataPlane,
    decreases cs.len() - from,
{
    if from < cs.len() && cs[from].role != Role::DataPlane {
        law_data_plane_is_the_first(cs, from + 1);
    }
}

proof fn lemma_order_free(es: Seq<Entrant>, n: nat, order: i64)
    requires
        n <= es.len(),
    ensures
        last_with_order(es, n, order) is None <==> forall|i: int|
            0 <= i < n ==> (#[trigger] es[i]).spec.display.order != order,
    decreases n,
{
    if n > 0 {
        lemma_order_free(es, (n - 1) as nat, order);
        if es[n - 1].spec.display.order == order {
            assert(last_with_order(es, n, order) is Some);
        }
    }
}

/// No display order is reported exactly where no two entrants share one.
pub proof fn law_orders_are_distinct(es: Seq<Entrant>, n: nat)
    requires
        n <= es.len(),
    ensures
        order_problems(es, n).len() == 0 <==> forall|i: int, j: int|
            0 <= i < j < n ==> (#[trigger] es[i]).spec.display.order != (
            #[trigger] es[j]).spec.display.order,
    decreases n,
{
    if n > 0 {
        let m = (n - 1) as nat;
        law_orders_are_distinct(es, m);
        lemma_order_free(es, m, es[n - 1].spec.display.order);
        if order_problems(es, n).len() == 0 {
            assert forall|i: int, j: int| 0 <= i < j < n implies (
            #[trigger] es[i]).spec.display.order != (#[trigger] es[j]).spec.display.order by {}
        } else if order_problems(es, m).len() == 0 {
            let i = choose|i: int|
                0 <= i < m && (#[trigger] es[i]).spec.display.order == es[n - 1].spec.display.order;
            assert(es[i].spec.display.order == es[n - 1].spec.display.order);
        } else {
            let (i, j) = choose|i: int, j: int|
                0 <= i < j < m && (#[trigger] es[i]).spec.display.order == (
                #[trigger] es[j]).spec.display.order;
            assert(es[i].spec.display.order == es[j].spec.display.order);
        }
    }
}

proof fn lemma_sorted_from(hues: Seq<(u16, Seq<char>)>, n: nat, k: int) -> (i: int)
    requires
        n <= hues.len(),
        0 <= k < n,
    ensures
        0 <= i < n,
        sorted_hues(hues, n).len() == n,
        sorted_hues(hues, n)[k] == hues[i],
    decreases n,
{
    let m1 = (n - 1) as nat;
    lemma_hues_sorted(hues, n);
    lemma_hues_sorted(hues, m1);
    let s = sorted_hues(hues, m1);
    let m = lemma_placed(s, hues[n - 1]);
    if k == m {
        n - 1
    } else if k < m {
        lemma_sorted_from(hues, m1, k)
    } else {
        lemma_sorted_from(hues, m1, k - 1)
    }
}

proof fn lemma_sorted_separated(hues: Seq<(u16, Seq<char>)>, n: nat)
    requires
        n <= hues.len(),
        is_separated(hues),
    ensures
        is_separated(sorted_hues(hues, n)),
    decreases n,
{
    if n > 0 {
        let m1 = (n - 1) as nat;
        lemma_sorted_separated(hues, m1);
        lemma_hues_sorted(hues, m1);
        let s = sorted_hues(hues, m1);
        let t = sorted_hues(hues, n);
        let m = lemma_placed(s, hues[n - 1]);
        assert forall|i: int, j: int| 0 <= i < j < t.len() implies (#[trigger] t[j]).0 - (
        #[trigger] t[i]).0 >= 20 || t[i].0 - t[j].0 >= 20 by {
            let a = if i < m { i } else { i - 1 };
            let b = if j < m { j } else { j - 1 };
            if i != m && j != m {
                assert(t[i] == s[a] && t[j] == s[b]);
            } else if i == m {
                let x = lemma_sorted_from(hues, m1, b);
                assert(t[j] == hues[x] && t[i] == hues[n - 1]);
            } else {
                let x = lemma_sorted_from(hues, m1, a);
                assert(t[i] == hues[x] && t[j] == hues[n - 1]);
            }
        }
    }
}

proof fn lemma_separated_neighbours(s: Seq<(u16, Seq<char>)>, n: nat)
    requires
        n <= s.len(),
        is_separated(s),
        is_hue_sorted(s),
    ensures
        close_hues(s, n).len() == 0,
    decreases n,
{
    if n >= 2 {
        lemma_separated_neighbours(s, (n - 1) as nat);
        assert(s[n - 2].0 <= s[n - 1].0);
    }
}

/// The whole set is accepted exactly where no two entrants share a display order, and
/// every two hues are at least twenty degrees apart.
pub proof fn law_set_rules(es: Seq<Entrant>)
    ensures
        set_problems(es).len() == 0 <==> {
            &&& forall|i: int, j: int|
                0 <= i < j < es.len() ==> (#[trigger] es[i]).spec.display.order != (
                #[trigger] es[j]).spec.display.order
            &&& forall|i: int, j: int|
                0 <= i < j < es.len() ==> (#[trigger] es[j]).spec.display.hue - (
                #[trigger] es[i]).spec.display.hue >= 20 || es[i].spec.display.hue
                    - es[j].spec.display.hue >= 20
        },
{
    let hues = hues_of(es);
    if forall|i: int, j: int|
        0 <= i < j < es.len() ==> (#[trigger] es[j]).spec.display.hue - (
        #[trigger] es[i]).spec.display.hue >= 20 || es[i].spec.display.hue
            - es[j].spec.display.hue >= 20 {
        assert forall|i: int, j: int| 0 <= i < j < hues.len() implies (#[trigger] hues[j]).0 - (
        #[trigger] hues[i]).0 >= 20 || hues[i].0 - hues[j].0 >= 20 by {
            assert(hues[j].0 == es[j].spec.display.hue && hues[i].0 == es[i].spec.display.hue);
        }
        assert(is_separated(hues));
    }
    if is_separated(hues) {
        assert forall|i: int, j: int| 0 <= i < j < es.len() implies (
        #[trigger] es[j]).spec.display.hue - (#[trigger] es[i]).spec.display.hue >= 20
            || es[i].spec.display.hue - es[j].spec.display.hue >= 20 by {
            assert(hues[j].0 - hues[i].0 >= 20 || hues[i].0 - hues[j].0 >= 20);
        }
    }
    assert(hues =~= Seq::new(
        es.len(),
        |i: int| (es[i].spec.display.hue, es[i].spec.entrant.id@),
    ));
    law_orders_are_distinct(es, es.len());
    if is_separated(hues) {
        lemma_sorted_separated(hues, hues.len());
        lemma_hues_sorted(hues, hues.len());
        lemma_separated_neighbours(sorted_hues(hues, hues.len()), hues.len());
    }
    if close_hues(sorted_hues(hues, hues.len()), hues.len()).len() == 0 {
        law_accepted_hues_are_apart(hues);
    }
}

/// Loading keeps every entrant that was read, in order, and every problem of every one
/// that was not.
pub proof fn law_loading_loses_nothing(
    parts: Seq<Result<Entrant, Vec<String>>>,
    e: Entrant,
    errs: Vec<String>,
)
    ensures
        ({
            let n = parts.len();
            let (good, bad) = (
                parts.push(Ok::<Entrant, Vec<String>>(e)),
                parts.push(Err::<Entrant, Vec<String>>(errs)),
            );
            &&& loaded(good, n + 1) == loaded(parts, n).push(e)
            &&& load_problems(good, n + 1) == load_problems(parts, n)
            &&& loaded(bad, n + 1) == loaded(parts, n)
            &&& load_problems(bad, n + 1) == load_problems(parts, n) + texts(errs@)
            &&& loaded(parts, 0).len() == 0 && load_problems(parts, 0).len() == 0
        }),
{
    let n = parts.len();
    lemma_load_prefix(parts, parts.push(Ok::<Entrant, Vec<String>>(e)), n);
    lemma_load_prefix(parts, parts.push(Err::<Entrant, Vec<String>>(errs)), n);
}

proof fn lemma_load_prefix(
    a: Seq<Result<Entrant, Vec<String>>>,
    b: Seq<Result<Entrant, Vec<String>>>,
    n: nat,
)
    requires
        n <= a.len() <= b.len(),
        forall|i: int| 0 <= i < n ==> a[i] == b[i],
    ensures
        loaded(a, n) == loaded(b, n),
        load_problems(a, n) == load_problems(b, n),
    decreases n,
{
    if n > 0 {
        lemma_load_prefix(a, b, (n - 1) as nat);
    }
}

/// Each of the problems opens with the id of the entrant that it is about.
pub open spec fn all_about(id: Seq<char>, problems: Seq<Seq<char>>) -> bool {
    forall|k: int|
        0 <= k < problems.len() ==> begins(#[trigger] problems[k], id + seq![':', ' '])
}

proof fn lemma_about(id: Seq<char>, m: Seq<char>)
    ensures
        begins(about(id, m), id + seq![':', ' ']),
{
    reveal_strlit(": ");
    assert(": "@ =~= seq![':', ' ']);
    assert(about(id, m).take((id.len() + 2) as int) =~= id + seq![':', ' ']);
}

proof fn lemma_abouts()
    ensures
        forall|id: Seq<char>, m: Seq<char>|
            begins(#[trigger] about(id, m), id + seq![':', ' ']),
        forall|id: Seq<char>, c: bool, m: Seq<char>|
            all_about(id, #[trigger] listed(c, about(id, m))),
        forall|id: Seq<char>, m: Seq<char>| all_about(id, seq![#[trigger] about(id, m)]),
        forall|id: Seq<char>, a: Seq<Seq<char>>, b: Seq<Seq<char>>|
            all_about(id, a) && all_about(id, b) ==> #[trigger] all_about(id, a + b),
{
    assert forall|id: Seq<char>, m: Seq<char>|
        begins(#[trigger] about(id, m), id + seq![':', ' ']) by {
        lemma_about(id, m);
    }
    assert forall|id: Seq<char>, a: Seq<Seq<char>>, b: Seq<Seq<char>>|
        all_about(id, a) && all_about(id, b) implies #[trigger] all_about(
        id,
        a + b,
    ) by {
        assert forall|k: int| 0 <= k < (a + b).len() implies begins(
            #[trigger] (a + b)[k],
            id + seq![':', ' '],
        ) by {
            if k < a.len() {
                assert((a + b)[k] == a[k]);
            } else {
                assert((a + b)[k] == b[k - a.len()]);
            }
        }
    }
}

proof fn lemma_identity_about(e: Entrant, facts: Facts)
    ensures
        all_about(e.spec.entrant.id@, identity_problems(e, facts)),
        all_about(e.spec.entrant.id@, file_problems(e, facts)),
        all_about(e.spec.entrant.id@, version_problems(e)),
        all_about(e.spec.entrant.id@, guarantee_problems(e)),
        all_about(e.spec.entrant.id@, envelope_problems(e, facts)),
{
    lemma_abouts();
}

proof fn lemma_blank_about(id: Seq<char>, v: Seq<Seq<char>>, n: nat, m: Seq<char>)
    ensures
        all_about(id, blank_notes(v, n, about(id, m))),
    decreases n,
{
    lemma_abouts();
    if n > 0 {
        lemma_blank_about(id, v, (n - 1) as nat, m);
    }
}

proof fn lemma_variants_about(id: Seq<char>, vs: Seq<Variant>, n: nat)
    requires
        n <= vs.len(),
    ensures
        all_about(id, each_variant_problems(id, vs, n)),
    decreases n,
{
    if n > 0 {
        lemma_variants_about(id, vs, (n - 1) as nat);
        let v = vs[n - 1];
        lemma_blank_about(
            id,
            texts(v.unshipped@),
            v.unshipped@.len(),
            "variant "@ + debug_quoted(v.id@)
                + " lists an empty `unshipped` entry; name the component"@,
        );
        lemma_abouts();
        assert(all_about(id, variant_problems(id, vs, n - 1)));
    }
}

proof fn lemma_constraints_about(id: Seq<char>, cs: Seq<Constraint>, n: nat)
    requires
        n <= cs.len(),
    ensures
        all_about(id, declared_constraint_problems(id, cs, n)),
    decreases n,
{
    if n > 0 {
        lemma_constraints_about(id, cs, (n - 1) as nat);
        lemma_abouts();
        assert(all_about(id, constraint_problems(id, cs[n - 1])));
    }
}

proof fn lemma_committed_about(id: Seq<char>, cs: Seq<Constraint>, vs: Seq<Variant>, n: nat)
    requires
        n <= vs.len(),
    ensures
        all_about(id, committed_violations(id, cs, vs, n)),
    decreases n,
{
    if n > 0 {
        lemma_committed_about(id, cs, vs, (n - 1) as nat);
        lemma_abouts();
        let why = violations(cs, vs[n - 1].knobs@, cs.len());
        let mine = variant_violations(id, vs[n - 1].id@, why);
        assert forall|k: int| 0 <= k < mine.len() implies begins(
            #[trigger] mine[k],
            id + seq![':', ' '],
        ) by {
            lemma_about(id, "variant "@ + debug_quoted(vs[n - 1].id@) + ": "@ + why[k]);
        }
    }
}

/// Every problem of a descriptor names the entrant it is of, before all else.
pub proof fn law_problems_name_their_entrant(e: Entrant, facts: Facts, k: int)
    requires
        0 <= k < problems(e, facts).len(),
    ensures
        begins(problems(e, facts)[k], e.spec.entrant.id@ + seq![':', ' ']),
{
    let id = e.spec.entrant.id@;
    let vs = e.spec.variants@;
    lemma_identity_about(e, facts);
    lemma_variants_about(id, vs, vs.len());
    lemma_constraints_about(id, e.spec.constraints@, e.spec.constraints@.len());
    lemma_committed_about(id, e.spec.constraints@, vs, vs.len());
    lemma_abouts();
    assert(all_about(id, default_problems(id, vs)));
    assert(all_about(id, variants_problems(e)));
    assert(all_about(id, constraints_problems(e)));
    assert(all_about(id, problems(e, facts)));
}

/// A slug stays one in part and in joining, and holds no capital, no space and nothing that
/// parts a selector or a path.
pub proof fn law_slugs(a: Seq<char>, b: Seq<char>)
    ensures
        is_slug(a + b) <==> is_slug(a) && is_slug(b),
        is_slug(a) ==> !a.contains(':') && !a.contains('@') && !a.contains('/') && !a.contains(' ')
            && !a.contains('A') && !a.contains('_') && !a.contains('*'),
        is_slug(seq!['a', 'z', '0', '9', '-']),
{
    if is_slug(a + b) {
        assert forall|i: int| 0 <= i < a.len() implies ('a' <= (#[trigger] a[i]) <= 'z' || '0'
            <= a[i] <= '9' || a[i] == '-') by {
            assert((a + b)[i] == a[i]);
        }
        assert forall|i: int| 0 <= i < b.len() implies ('a' <= (#[trigger] b[i]) <= 'z' || '0'
            <= b[i] <= '9' || b[i] == '-') by {
            assert((a + b)[a.len() + i] == b[i]);
        }
    }
    if is_slug(a) && is_slug(b) {
        assert forall|i: int| 0 <= i < (a + b).len() implies ('a' <= (#[trigger] (a + b)[i]) <= 'z'
            || '0' <= (a + b)[i] <= '9' || (a + b)[i] == '-') by {
            if i < a.len() {
                assert((a + b)[i] == a[i]);
            } else {
                assert((a + b)[i] == b[i - a.len()]);
            }
        }
    }
}

/// Space is free in a limit: around it, and between the number and its unit. The unit may be
/// of either case.
pub proof fn law_space_in_a_limit_is_free(d: Seq<char>, c: char)
    requires
        d.len() > 0,
        !is_space(d[0]),
        !is_space(d.last()),
        is_space(c),
    ensures
        memory_of(d.push('g')) == units_of(d, 1_073_741_824),
        memory_of(d.push('m')) == units_of(d, 1_048_576),
        memory_of(d.push('k')) == units_of(d, 1024),
        memory_of(d.push(c).push('g')) == memory_of(d.push('g')),
        memory_of(d.push(c).push('m')) == memory_of(d.push('m')),
        memory_of(d.push(c).push('k')) == memory_of(d.push('k')),
        memory_of(d.push('G')) == memory_of(d.push('g')),
        memory_of(d.push('M')) == memory_of(d.push('m')),
        memory_of(d.push('K')) == memory_of(d.push('k')),
        memory_of(seq![c] + d) == memory_of(d),
        memory_of(d.push(c)) == memory_of(d),
{
    law_space_around_is_free(d, c);
    lemma_limit(d, c, 'g');
    lemma_limit(d, c, 'm');
    lemma_limit(d, c, 'k');
    lemma_limit(d, c, 'G');
    lemma_limit(d, c, 'M');
    lemma_limit(d, c, 'K');
}

/// The bytes of so many units, where they are a 64-bit number.
pub open spec fn units_of(digits: Seq<char>, unit: nat) -> Option<nat> {
    match parsed_nat(digits, u64::MAX as nat) {
        Some(n) => if n * unit <= u64::MAX {
            Some(n * unit)
        } else {
            None
        },
        None => None,
    }
}

proof fn lemma_limit(d: Seq<char>, c: char, unit: char)
    requires
        d.len() > 0,
        !is_space(d[0]),
        !is_space(d.last()),
        is_space(c),
        !is_space(unit),
    ensures
        trimmed(d.push(unit)) == d.push(unit),
        trimmed(d.push(c).push(unit)) == d.push(c).push(unit),
        d.push(unit).drop_last() == d,
        d.push(c).push(unit).drop_last() == d.push(c),
        trimmed(d) == d,
        trimmed(d.push(c)) == d,
{
    law_space_around_is_free(d, c);
    law_space_around_is_free(d.push(unit), c);
    law_space_around_is_free(d.push(c).push(unit), c);
    assert(d.push(unit).drop_last() =~= d);
    assert(d.push(c).push(unit).drop_last() =~= d.push(c));
}

/// An order that is taken is told with the one that had it last, and then the one that
/// would take it.
pub proof fn law_taken_order_names_both(es: Seq<Entrant>, n: nat, i: int)
    requires
        0 <= i < n < es.len(),
        es[i].spec.display.order == es[n as int].spec.display.order,
        forall|j: int|
            i < j < n ==> (#[trigger] es[j]).spec.display.order != es[n as int].spec.display.order,
    ensures
        order_problems(es, n + 1) == order_problems(es, n).push(
            "display.order "@ + decimal_int(es[n as int].spec.display.order as int)
                + " is used by both "@ + es[i].spec.entrant.id@ + " and "@
                + es[n as int].spec.entrant.id@,
        ),
{
    lemma_last_with_order(es, n, es[n as int].spec.display.order, i);
    let m = "display.order "@ + decimal_int(es[n as int].spec.display.order as int)
        + " is used by both "@ + es[i].spec.entrant.id@ + " and "@ + es[n as int].spec.entrant.id@;
    assert(order_problems(es, n) + seq![m] =~= order_problems(es, n).push(m));
}

proof fn lemma_last_with_order(es: Seq<Entrant>, n: nat, order: i64, i: int)
    requires
        0 <= i < n <= es.len(),
        es[i].spec.display.order == order,
        forall|j: int| i < j < n ==> (#[trigger] es[j]).spec.display.order != order,
    ensures
        last_with_order(es, n, order) == Some(es[i].spec.entrant.id@),
    decreases n,
{
    if i < n - 1 {
        assert(es[n - 1].spec.display.order != order);
        lemma_last_with_order(es, (n - 1) as nat, order, i);
    }
}

} // verus!
