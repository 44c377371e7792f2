//! The correctness gates: whether what landed in the target table is what the
//! generator says must have landed.
use vstd::prelude::*;
use crate::corpus::{expected_range, range_fits, range_is_computable, range_total, Measure, Tier};
use crate::text::{
    cat2, cat3, cat7, chars_of, dec, decimal, decimal_int, ends, is_space, join, joined,
    law_integer_reads_back, law_integers_are_plain, law_join_is_undone,
    lemma_joined_first, lemma_trimmed_line, listed, note_if, parse_int, parsed_int, split, split_at_each, texts, trim,
    trimmed,
};

verus! {

/// Outcome of the correctness gates for one arm. Every field is reported, because
/// the reason an arm failed is what tells loss from duplication from wrong work.
#[derive(Clone, Copy, Debug, PartialEq, Eq, Structural)]
pub struct Gates {
    /// Lowest `batch_id` present in the table.
    pub min_batch: u64,
    /// Highest `batch_id` present in the table.
    pub max_batch: u64,
    /// Rows in the interior range.
    pub rows: u64,
    /// Distinct `(batch_id, event_seq)` pairs in the interior range.
    pub distinct_ids: u64,
    /// Distinct `batch_id`s in the interior range.
    pub distinct_batches: u64,
    /// `rows - distinct_ids`, reported and never a reason to fail.
    pub duplicates: u64,
    /// Whether the interior `batch_id`s form an unbroken run: the loss test.
    pub contiguous: bool,
    /// Whether the row count matches the generator's expectation.
    pub rows_match: bool,
    /// Whether `sum(value)` matches the generator's expectation.
    pub value_sum_match: bool,
    /// Whether `sum(value_scaled)` matches; trivially so for tier A.
    pub value_scaled_match: bool,
}

impl Gates {
    pub open spec fn passes(self) -> bool {
        self.contiguous && self.rows_match && self.value_sum_match && self.value_scaled_match
    }

    /// The reasons for a failure, in the order they are checked.
    pub open spec fn reasons(self) -> Seq<Seq<char>> {
        listed(
            !self.contiguous,
            "batch_ids are not contiguous ("@ + decimal(self.distinct_batches as nat)
                + " distinct across ["@ + decimal(self.min_batch as nat) + ", "@ + decimal(
                self.max_batch as nat,
            ) + "]) — rows were LOST"@,
        ) + listed(
            !self.rows_match,
            "row count "@ + decimal(self.rows as nat) + " disagrees with the generator"@,
        ) + listed(
            !self.value_sum_match,
            "sum(value) disagrees with the generator — the arm did different work"@,
        ) + listed(
            !self.value_scaled_match,
            "sum(value_scaled) disagrees — the tier-B derivation is wrong"@,
        )
    }

    /// Whether this arm may be published. Duplicates do not fail it: at-least-once
    /// delivery permits them. Loss and wrong arithmetic do.
    pub fn passed(&self) -> (r: bool)
        ensures
            r == self.passes(),
    {
        self.contiguous && self.rows_match && self.value_sum_match && self.value_scaled_match
    }

    /// The reasons for a failure, for the refusal message.
    pub fn failure(&self) -> (r: Option<String>)
        ensures
            match r {
                None => self.passes(),
                Some(why) => !self.passes() && why@ == joined(self.reasons(), "; "@),
            },
    {
        if self.passed() {
            return None;
        }
        let mut why: Vec<String> = Vec::new();
        note_if(
            &mut why,
            !self.contiguous,
            cat7(
                "batch_ids are not contiguous (",
                dec(self.distinct_batches as u128).as_str(),
                " distinct across [",
                dec(self.min_batch as u128).as_str(),
                ", ",
                dec(self.max_batch as u128).as_str(),
                "]) — rows were LOST",
            ),
        );
        note_if(
            &mut why,
            !self.rows_match,
            cat3("row count ", dec(self.rows as u128).as_str(), " disagrees with the generator"),
        );
        note_if(
            &mut why,
            !self.value_sum_match,
            "sum(value) disagrees with the generator — the arm did different work".to_owned(),
        );
        note_if(
            &mut why,
            !self.value_scaled_match,
            "sum(value_scaled) disagrees — the tier-B derivation is wrong".to_owned(),
        );
        proof {
            assert(texts(why@) =~= self.reasons());
        }
        Some(join(&why, "; "))
    }
}

/// Why the gates could not be judged. An unreadable reply is never a pass.
#[derive(Debug)]
pub enum GateError {
    /// A reply has too few fields.
    ShortReply(String),
    /// A field is not a number.
    NotANumber(String),
    /// The table holds too narrow a `batch_id` range to have an interior.
    TooNarrow(u64, u64),
    /// The expectation of the range is not computable.
    OutOfRange(u64, u64),
}

/// What a [`GateError`] says.
pub enum GateFault {
    ShortReply(Seq<char>),
    NotANumber(Seq<char>),
    TooNarrow(u64, u64),
    OutOfRange(u64, u64),
}

impl GateError {
    pub open spec fn view(&self) -> GateFault {
        match self {
            GateError::ShortReply(s) => GateFault::ShortReply(s@),
            GateError::NotANumber(s) => GateFault::NotANumber(s@),
            GateError::TooNarrow(a, b) => GateFault::TooNarrow(*a, *b),
            GateError::OutOfRange(a, b) => GateFault::OutOfRange(*a, *b),
        }
    }
}

/// `s` with each `\n` as a tab.
pub open spec fn tabbed(s: Seq<char>) -> Seq<char> {
    Seq::new(
        s.len(),
        |i: int|
            if s[i] == '\n' {
                '\t'
            } else {
                s[i]
            },
    )
}

/// The fields of a reply: its parts between tabs and line ends.
pub open spec fn reply_fields(reply: Seq<char>) -> Seq<Seq<char>> {
    split_at_each(tabbed(trimmed(reply)), '\t')
}

fn fields_of(reply: &str) -> (r: Vec<String>)
    ensures
        texts(r@) == reply_fields(reply@),
{
    let chars = chars_of(trim(reply).as_str());
    let mut out = String::new();
    let mut i: usize = 0;
    while i < chars.len()
        invariant
            i <= chars@.len(),
            out@ == tabbed(chars@.take(i as int)),
        decreases chars@.len() - i,
    {
        if chars[i] == '\n' {
            out.push('\t');
        } else {
            out.push(chars[i]);
        }
        i += 1;
        proof {
            assert(out@ =~= tabbed(chars@.take(i as int)));
        }
    }
    proof {
        assert(chars@.take(chars@.len() as int) =~= chars@);
    }
    split(out.as_str(), '\t')
}

/// A field read as a signed 128-bit number.
pub open spec fn reply_number(field: Seq<char>) -> Option<int> {
    parsed_int(
        field,
        0x8000_0000_0000_0000_0000_0000_0000_0000,
        0x7fff_ffff_ffff_ffff_ffff_ffff_ffff_ffff,
    )
}

/// Field `i` of a reply as a number, or the fault.
pub open spec fn number_at(fields: Seq<Seq<char>>, i: int) -> Result<int, GateFault> {
    match reply_number(fields[i]) {
        Some(n) => Ok(n),
        None => Err(GateFault::NotANumber(fields[i])),
    }
}

/// The low 64 bits of a number.
pub open spec fn low_bits(n: int) -> int {
    n % 0x1_0000_0000_0000_0000
}

fn number_of(fields: &Vec<String>, i: usize) -> (r: Result<i128, GateError>)
    requires
        i < fields@.len(),
    ensures
        match r {
            Ok(n) => number_at(texts(fields@), i as int) == Ok::<int, GateFault>(n as int),
            Err(e) => number_at(texts(fields@), i as int) == Err::<int, GateFault>(e@),
        },
{
    match parse_int(
        fields[i].as_str(),
        0x8000_0000_0000_0000_0000_0000_0000_0000,
        0x7fff_ffff_ffff_ffff_ffff_ffff_ffff_ffff,
    ) {
        Some(n) => Ok(n),
        None => Err(GateError::NotANumber(fields[i].clone())),
    }
}

fn low_u64(n: i128) -> (r: u64)
    ensures
        r == low_bits(n as int),
{
    if n >= 0 {
        (n as u128 % 0x1_0000_0000_0000_0000) as u64
    } else {
        let m: u128 = if n == i128::MIN {
            0
        } else {
            (-n) as u128 % 0x1_0000_0000_0000_0000
        };
        if m == 0 {
            0
        } else {
            (0x1_0000_0000_0000_0000 - m) as u64
        }
    }
}

/// The range of batches to gate: the interior of what landed, and at most
/// `max_batches` of its upper end.
#[derive(Clone, Copy, Debug, PartialEq, Eq, Structural)]
pub struct Window {
    pub min_batch: u64,
    pub max_batch: u64,
    /// First gated batch.
    pub lo: u64,
    /// One past the last gated batch.
    pub hi: u64,
}

pub open spec fn bounds_window(min: int, max: int, max_batches: int) -> Window {
    Window {
        min_batch: min as u64,
        max_batch: max as u64,
        lo: if min + 1 >= max - max_batches {
            (min + 1) as u64
        } else {
            (max - max_batches) as u64
        },
        hi: max as u64,
    }
}

/// The window that the reply to the bounds query gives.
pub open spec fn window_of(reply: Seq<char>, max_batches: u64) -> Result<Window, GateFault> {
    let f = reply_fields(reply);
    if f.len() < 2 {
        Err(GateFault::ShortReply(reply))
    } else {
        match (number_at(f, 0), number_at(f, 1)) {
            (Err(e), _) => Err(e),
            (_, Err(e)) => Err(e),
            (Ok(a), Ok(b)) => {
                let (min, max) = (low_bits(a), low_bits(b));
                if max <= min + 1 {
                    Err(GateFault::TooNarrow(min as u64, max as u64))
                } else {
                    Ok(bounds_window(min, max, max_batches as int))
                }
            },
        }
    }
}

/// The window to gate, from the reply to [`bounds_sql`].
///
/// The first and last batch are left out: at the instant of the snapshot they may
/// have landed in part.
pub fn gate_window(reply: &str, max_batches: u64) -> (r: Result<Window, GateError>)
    ensures
        match r {
            Ok(w) => window_of(reply@, max_batches) == Ok::<Window, GateFault>(w),
            Err(e) => window_of(reply@, max_batches) == Err::<Window, GateFault>(e@),
        },
        r is Ok ==> {
            let w = r->Ok_0;
            &&& w.max_batch > w.min_batch + 1
            &&& w.hi == w.max_batch
            &&& max_batches <= w.max_batch - w.min_batch - 1 ==> w.hi - w.lo == max_batches
            &&& max_batches > w.max_batch - w.min_batch - 1 ==> w.lo == w.min_batch + 1
        },
{
    let f = fields_of(reply);
    if f.len() < 2 {
        return Err(GateError::ShortReply(reply.to_owned()));
    }
    let min: u64 = match number_of(&f, 0) {
        Ok(n) => low_u64(n),
        Err(e) => return Err(e),
    };
    let max: u64 = match number_of(&f, 1) {
        Ok(n) => low_u64(n),
        Err(e) => return Err(e),
    };
    if max <= min || max - min == 1 {
        return Err(GateError::TooNarrow(min, max));
    }
    let floor: u64 = if max_batches >= max {
        0
    } else {
        max - max_batches
    };
    let lo: u64 = if min + 1 >= floor {
        min + 1
    } else {
        floor
    };
    Ok(Window { min_batch: min, max_batch: max, lo, hi: max })
}

/// The interior of a window lies strictly inside what landed, is never empty
/// unless no batch may be gated, and never exceeds the bound.
pub proof fn law_window_is_interior(reply: Seq<char>, max_batches: u64)
    requires
        window_of(reply, max_batches) is Ok,
    ensures
        ({
            let w = window_of(reply, max_batches)->Ok_0;
            &&& w.min_batch < w.lo <= w.hi == w.max_batch
            &&& w.hi - w.lo <= max_batches
            &&& max_batches > 0 ==> w.lo < w.hi
        }),
{
}

pub open spec fn bounds_query(tier: Tier) -> Seq<char> {
    "SELECT min(batch_id), max(batch_id) FROM "@ + tier.table_text()
}

/// The query whose reply [`gate_window`] reads.
pub fn bounds_sql(tier: Tier) -> (r: String)
    ensures
        r@ == bounds_query(tier),
{
    cat2("SELECT min(batch_id), max(batch_id) FROM ", tier.table())
}

pub open spec fn range_clause(w: Window) -> Seq<char> {
    " WHERE batch_id >= "@ + decimal(w.lo as nat) + " AND batch_id < "@ + decimal(w.hi as nat)
}

fn range_sql(w: Window) -> (r: String)
    ensures
        r@ == range_clause(w),
{
    let mut out = cat3(" WHERE batch_id >= ", dec(w.lo as u128).as_str(), " AND batch_id < ");
    out.push_str(dec(w.hi as u128).as_str());
    out
}

pub open spec fn counts_query(tier: Tier, w: Window) -> Seq<char> {
    "SELECT count(), uniqExact((batch_id, event_seq)), uniqExact(batch_id) FROM "@
        + tier.table_text() + range_clause(w)
}

/// Rows, distinct rows and distinct batches of the window.
pub fn counts_sql(tier: Tier, w: Window) -> (r: String)
    ensures
        r@ == counts_query(tier, w),
{
    cat3(
        "SELECT count(), uniqExact((batch_id, event_seq)), uniqExact(batch_id) FROM ",
        tier.table(),
        range_sql(w).as_str(),
    )
}

pub open spec fn sums_query(tier: Tier, w: Window) -> Seq<char> {
    match tier {
        Tier::A =>
            "SELECT sum(toInt128(value)) FROM (SELECT DISTINCT batch_id, event_seq, value FROM "@
            + tier.table_text() + range_clause(w) + ")"@,
        Tier::B =>
            "SELECT sum(toInt128(value)), sum(toInt128(value_scaled)) FROM (SELECT DISTINCT batch_id, event_seq, value, value_scaled FROM "@
            + tier.table_text() + range_clause(w) + ")"@,
    }
}

/// The sums of the window, over deduplicated rows: a legitimate duplicate must
/// not inflate them.
pub fn sums_sql(tier: Tier, w: Window) -> (r: String)
    ensures
        r@ == sums_query(tier, w),
{
    let head: &str = match tier {
        Tier::A => "SELECT sum(toInt128(value)) FROM (SELECT DISTINCT batch_id, event_seq, value FROM ",
        Tier::B =>
        "SELECT sum(toInt128(value)), sum(toInt128(value_scaled)) FROM (SELECT DISTINCT batch_id, event_seq, value, value_scaled FROM ",
    };
    let mut out = cat3(head, tier.table(), range_sql(w).as_str());
    out.push_str(")");
    out
}

/// What the table holds over a window.
#[derive(Clone, Copy, Debug, PartialEq, Eq, Structural)]
pub struct Landed {
    pub rows: u64,
    pub distinct_ids: u64,
    pub distinct_batches: u64,
    pub value_sum: i128,
    /// Zero for tier A.
    pub value_scaled_sum: i128,
}

pub open spec fn landed_of(tier: Tier, counts: Seq<char>, sums: Seq<char>) -> Result<
    Landed,
    GateFault,
> {
    let c = reply_fields(counts);
    let s = reply_fields(sums);
    if c.len() < 3 {
        Err(GateFault::ShortReply(counts))
    } else {
        match (number_at(c, 0), number_at(c, 1), number_at(c, 2)) {
            (Err(e), _, _) => Err(e),
            (_, Err(e), _) => Err(e),
            (_, _, Err(e)) => Err(e),
            (Ok(rows), Ok(ids), Ok(batches)) => match number_at(s, 0) {
                Err(e) => Err(e),
                Ok(v) => {
                    let base = Landed {
                        rows: low_bits(rows) as u64,
                        distinct_ids: low_bits(ids) as u64,
                        distinct_batches: low_bits(batches) as u64,
                        value_sum: v as i128,
                        value_scaled_sum: 0,
                    };
                    if tier == Tier::A {
                        Ok(base)
                    } else if s.len() < 2 {
                        Err(GateFault::ShortReply(sums))
                    } else {
                        match number_at(s, 1) {
                            Err(e) => Err(e),
                            Ok(x) => Ok(Landed { value_scaled_sum: x as i128, ..base }),
                        }
                    }
                },
            },
        }
    }
}

/// What the replies to [`counts_sql`] and [`sums_sql`] say.
pub fn read_landed(tier: Tier, counts: &str, sums: &str) -> (r: Result<Landed, GateError>)
    ensures
        match r {
            Ok(l) => landed_of(tier, counts@, sums@) == Ok::<Landed, GateFault>(l),
            Err(e) => landed_of(tier, counts@, sums@) == Err::<Landed, GateFault>(e@),
        },
{
    let c = fields_of(counts);
    if c.len() < 3 {
        return Err(GateError::ShortReply(counts.to_owned()));
    }
    let rows: u64 = match number_of(&c, 0) {
        Ok(n) => low_u64(n),
        Err(e) => return Err(e),
    };
    let distinct_ids: u64 = match number_of(&c, 1) {
        Ok(n) => low_u64(n),
        Err(e) => return Err(e),
    };
    let distinct_batches: u64 = match number_of(&c, 2) {
        Ok(n) => low_u64(n),
        Err(e) => return Err(e),
    };
    let s = fields_of(sums);
    proof {
        lemma_some_field(tabbed(trimmed(sums@)));
        assert(texts(s@).len() == s@.len());
    }
    let value_sum: i128 = match number_of(&s, 0) {
        Ok(n) => n,
        Err(e) => return Err(e),
    };
    let value_scaled_sum: i128 = match tier {
        Tier::A => 0,
        Tier::B => {
            if s.len() < 2 {
                return Err(GateError::ShortReply(sums.to_owned()));
            }
            match number_of(&s, 1) {
                Ok(n) => n,
                Err(e) => return Err(e),
            }
        },
    };
    Ok(Landed { rows, distinct_ids, distinct_batches, value_sum, value_scaled_sum })
}

proof fn lemma_some_field(s: Seq<char>)
    ensures
        split_at_each(s, '\t').len() >= 1,
{
}

/// The gates of a window, given what landed in it.
pub open spec fn gates_of(tier: Tier, w: Window, l: Landed) -> Gates {
    Gates {
        min_batch: w.min_batch,
        max_batch: w.max_batch,
        rows: l.rows,
        distinct_ids: l.distinct_ids,
        distinct_batches: l.distinct_batches,
        duplicates: if l.rows >= l.distinct_ids {
            (l.rows - l.distinct_ids) as u64
        } else {
            0
        },
        contiguous: l.distinct_batches == w.hi - w.lo,
        rows_match: l.distinct_ids == range_total(Measure::Rows, tier, w.lo as int, w.hi as int),
        value_sum_match: l.value_sum == range_total(
            Measure::Value,
            tier,
            w.lo as int,
            w.hi as int,
        ),
        value_scaled_match: l.value_scaled_sum == range_total(
            Measure::ValueScaled,
            tier,
            w.lo as int,
            w.hi as int,
        ),
    }
}

/// Holds what landed against what the generator makes of the same batches.
pub fn judge(tier: Tier, w: Window, l: Landed) -> (r: Gates)
    requires
        w.lo <= w.hi,
        range_fits(tier, w.lo as int, w.hi as int),
    ensures
        r == gates_of(tier, w, l),
{
    let exp = expected_range(w.lo, w.hi, tier);
    Gates {
        min_batch: w.min_batch,
        max_batch: w.max_batch,
        rows: l.rows,
        distinct_ids: l.distinct_ids,
        distinct_batches: l.distinct_batches,
        duplicates: if l.rows >= l.distinct_ids {
            l.rows - l.distinct_ids
        } else {
            0
        },
        contiguous: l.distinct_batches == w.hi - w.lo,
        rows_match: l.distinct_ids == exp.rows,
        value_sum_match: l.value_sum == exp.value_sum,
        value_scaled_match: l.value_scaled_sum == exp.value_scaled_sum,
    }
}

/// The gates that the three replies give.
pub open spec fn gates_from(
    tier: Tier,
    max_batches: u64,
    bounds: Seq<char>,
    counts: Seq<char>,
    sums: Seq<char>,
) -> Result<Gates, GateFault> {
    match window_of(bounds, max_batches) {
        Err(e) => Err(e),
        Ok(w) => match landed_of(tier, counts, sums) {
            Err(e) => Err(e),
            Ok(l) => if range_fits(tier, w.lo as int, w.hi as int) {
                Ok(gates_of(tier, w, l))
            } else {
                Err(GateFault::OutOfRange(w.lo, w.hi))
            },
        },
    }
}

/// Runs the correctness gates on the replies to [`bounds_sql`], and to
/// [`counts_sql`] and [`sums_sql`] over the window it gives.
pub fn run_gates(tier: Tier, max_batches: u64, bounds: &str, counts: &str, sums: &str) -> (r: Result<
    Gates,
    GateError,
>)
    ensures
        match r {
            Ok(g) => gates_from(tier, max_batches, bounds@, counts@, sums@) == Ok::<
                Gates,
                GateFault,
            >(g),
            Err(e) => gates_from(tier, max_batches, bounds@, counts@, sums@) == Err::<
                Gates,
                GateFault,
            >(e@),
        },
{
    let w = match gate_window(bounds, max_batches) {
        Ok(w) => w,
        Err(e) => return Err(e),
    };
    let l = match read_landed(tier, counts, sums) {
        Ok(l) => l,
        Err(e) => return Err(e),
    };
    if !range_is_computable(tier, w.lo, w.hi) {
        return Err(GateError::OutOfRange(w.lo, w.hi));
    }
    proof {
        law_window_is_interior(bounds@, max_batches);
    }
    Ok(judge(tier, w, l))
}

/// A table that holds each row of the window once passes, and holding some rows
/// more than once changes only what is reported, never the verdict.
pub proof fn law_duplicates_never_fail(tier: Tier, w: Window, l: Landed, rows: u64)
    ensures
        gates_of(tier, w, l).passes() == gates_of(tier, w, Landed { rows, ..l }).passes(),
        rows >= l.distinct_ids ==> gates_of(tier, w, Landed { rows, ..l }).duplicates == rows
            - l.distinct_ids,
{
}

/// The gates pass exactly where the distinct batches, the distinct rows and both
/// sums are those of the generator.
pub proof fn law_gates_pass_on_the_generated_rows(tier: Tier, w: Window, l: Landed)
    ensures
        gates_of(tier, w, l).passes() <==> {
            &&& l.distinct_batches == w.hi - w.lo
            &&& l.distinct_ids == range_total(Measure::Rows, tier, w.lo as int, w.hi as int)
            &&& l.value_sum == range_total(Measure::Value, tier, w.lo as int, w.hi as int)
            &&& l.value_scaled_sum == range_total(
                Measure::ValueScaled,
                tier,
                w.lo as int,
                w.hi as int,
            )
        },
{
}

// ---------------------------------------------------------------------------
// Laws on what is read and what it covers
// ---------------------------------------------------------------------------

/// The reply that holds the numbers `n`: in decimal, a tab between neighbours, and an end
/// of line.
pub open spec fn reply_of(n: Seq<int>) -> Seq<char> {
    joined(Seq::new(n.len(), |i: int| decimal_int(n[i])), seq!['\t']) + seq!['\n']
}

proof fn lemma_joined_plain(parts: Seq<Seq<char>>)
    requires
        parts.len() > 0,
        forall|i: int| 0 <= i < parts.len() ==> (#[trigger] parts[i]).len() > 0,
        forall|i: int, k: int|
            0 <= i < parts.len() && 0 <= k < parts[i].len() ==> !is_space(#[trigger] parts[i][k]),
    ensures
        ({
            let s = joined(parts, seq!['\t']);
            &&& s.len() > 0
            &&& !is_space(s[0])
            &&& !is_space(s.last())
            &&& forall|k: int| 0 <= k < s.len() ==> !is_space(#[trigger] s[k]) || s[k] == '\t'
        }),
    decreases parts.len(),
{
    let s = joined(parts, seq!['\t']);
    let p = parts[0];
    assert forall|k: int| 0 <= k < p.len() implies !is_space(#[trigger] p[k]) by {
        assert(!is_space(parts[0][k]));
    }
    if parts.len() > 1 {
        let rest = parts.skip(1);
        assert forall|i: int, k: int| 0 <= i < rest.len() && 0 <= k < rest[i].len() implies
            !is_space(#[trigger] rest[i][k]) by {
            assert(!is_space(parts[i + 1][k]));
        }
        assert forall|i: int| 0 <= i < rest.len() implies (#[trigger] rest[i]).len() > 0 by {
            assert(parts[i + 1].len() > 0);
        }
        lemma_joined_plain(rest);
        assert(parts =~= seq![p] + rest);
        lemma_joined_first(p, rest, seq!['\t']);
        let t = joined(rest, seq!['\t']);
        let n = p.len() as int;
        assert(s == p + seq!['\t'] + t);
        assert(s[0] == p[0]);
        assert(s.last() == t.last());
        assert forall|k: int| 0 <= k < s.len() implies !is_space(#[trigger] s[k]) || s[k] == '\t' by {
            if k < n {
                assert(s[k] == p[k]);
            } else if k > n {
                assert(s[k] == t[k - n - 1]);
            }
        }
    }
}

proof fn lemma_reply_body(s: Seq<char>)
    requires
        s.len() > 0,
        !is_space(s[0]),
        !is_space(s.last()),
        forall|k: int| 0 <= k < s.len() ==> !is_space(#[trigger] s[k]) || s[k] == '\t',
    ensures
        tabbed(trimmed(s + seq!['\n'])) == s,
{
    lemma_trimmed_line(s);
    assert forall|k: int| 0 <= k < s.len() implies s[k] != '\n' by {
        assert(!is_space(s[k]) || s[k] == '\t');
    }
    assert(tabbed(s) =~= s);
}

/// The numbers of a reply are read back, in order.
pub proof fn law_reply_reads_back(n: Seq<int>)
    requires
        n.len() > 0,
        forall|i: int| 0 <= i < n.len() ==> i128::MIN <= #[trigger] n[i] <= i128::MAX,
    ensures
        reply_fields(reply_of(n)).len() == n.len(),
        forall|i: int|
            0 <= i < n.len() ==> number_at(reply_fields(reply_of(n)), i) == Ok::<int, GateFault>(
                #[trigger] n[i],
            ),
{
    let parts = Seq::new(n.len(), |i: int| decimal_int(n[i]));
    assert forall|i: int| 0 <= i < parts.len() implies (#[trigger] parts[i]).len() > 0 by {
        law_integers_are_plain(n[i]);
    }
    assert forall|i: int, k: int| 0 <= i < parts.len() && 0 <= k < parts[i].len() implies
        !is_space(#[trigger] parts[i][k]) && parts[i][k] != '\t' by {
        law_integers_are_plain(n[i]);
    }
    lemma_joined_plain(parts);
    let s = joined(parts, seq!['\t']);
    let r = reply_of(n);
    lemma_reply_body(s);
    law_join_is_undone(parts, '\t');
    assert forall|i: int| 0 <= i < n.len() implies number_at(reply_fields(r), i) == Ok::<
        int,
        GateFault,
    >(#[trigger] n[i]) by {
        law_integer_reads_back(
            n[i],
            0x8000_0000_0000_0000_0000_0000_0000_0000,
            0x7fff_ffff_ffff_ffff_ffff_ffff_ffff_ffff,
        );
        assert(parts[i] == decimal_int(n[i]));
    }
}

/// A window covers as much as it may. Where the table holds batches from `min` to `max`
/// with something between them, the window ends at `max` and reaches back `max_batches`
/// batches, or to the batch behind `min` where that is nearer: every interior batch among
/// the last `max_batches` is gated. A table without an interior has no window.
pub proof fn law_window_covers_what_it_may(min: u64, max: u64, max_batches: u64, b: u64)
    ensures
        ({
            let reply = reply_of(seq![min as int, max as int]);
            match window_of(reply, max_batches) {
                Ok(w) => {
                    &&& max > min + 1
                    &&& w.min_batch == min
                    &&& w.max_batch == max
                    &&& w.hi == max
                    &&& max_batches <= max - min - 1 ==> w.hi - w.lo == max_batches
                    &&& max_batches >= max - min - 1 ==> w.hi - w.lo == max - min - 1
                    &&& w.lo <= b < w.hi <==> min < b < max && max - b <= max_batches
                },
                Err(e) => max <= min + 1 && e == GateFault::TooNarrow(min, max),
            }
        }),
{
    let n = seq![min as int, max as int];
    law_reply_reads_back(n);
    assert(n[0] == min && n[1] == max);
}

/// What landed is what the two replies say, number for number: rows, distinct rows and
/// distinct batches, then the sum of `value` and, for tier B, that of `value_scaled`.
pub proof fn law_landed_is_what_the_replies_say(
    rows: u64,
    ids: u64,
    batches: u64,
    value: i128,
    scaled: i128,
)
    ensures
        ({
            let counts = reply_of(seq![rows as int, ids as int, batches as int]);
            let a = landed_of(Tier::A, counts, reply_of(seq![value as int]));
            let b = landed_of(Tier::B, counts, reply_of(seq![value as int, scaled as int]));
            &&& a is Ok && b is Ok
            &&& a->Ok_0.rows == rows && b->Ok_0.rows == rows
            &&& a->Ok_0.distinct_ids == ids && b->Ok_0.distinct_ids == ids
            &&& a->Ok_0.distinct_batches == batches && b->Ok_0.distinct_batches == batches
            &&& a->Ok_0.value_sum == value && b->Ok_0.value_sum == value
            &&& a->Ok_0.value_scaled_sum == 0 && b->Ok_0.value_scaled_sum == scaled
        }),
{
    let c = seq![rows as int, ids as int, batches as int];
    let one = seq![value as int];
    let two = seq![value as int, scaled as int];
    law_reply_reads_back(c);
    law_reply_reads_back(one);
    law_reply_reads_back(two);
    assert(c[0] == rows && c[1] == ids && c[2] == batches);
    assert(one[0] == value && two[0] == value && two[1] == scaled);
}

/// The verdict tells which gate failed: each is held against what the generator makes of
/// the batches of the window, the row count by distinct rows, so that a duplicate hides no
/// loss. Everything that was counted is reported as it was counted.
pub proof fn law_each_gate_stands_for_itself(tier: Tier, w: Window, l: Landed)
    requires
        w.lo <= w.hi,
    ensures
        ({
            let g = gates_of(tier, w, l);
            &&& g.min_batch == w.min_batch && g.max_batch == w.max_batch
            &&& g.rows == l.rows
            &&& g.distinct_ids == l.distinct_ids
            &&& g.distinct_batches == l.distinct_batches
            &&& l.rows >= l.distinct_ids ==> g.duplicates + l.distinct_ids == l.rows
            &&& l.rows < l.distinct_ids ==> g.duplicates == 0
            &&& g.contiguous <==> w.lo + l.distinct_batches == w.hi
            &&& g.rows_match <==> l.distinct_ids == range_total(
                Measure::Rows,
                tier,
                w.lo as int,
                w.hi as int,
            )
            &&& g.value_sum_match <==> l.value_sum == range_total(
                Measure::Value,
                tier,
                w.lo as int,
                w.hi as int,
            )
            &&& g.value_scaled_match <==> l.value_scaled_sum == range_total(
                Measure::ValueScaled,
                tier,
                w.lo as int,
                w.hi as int,
            )
            &&& g.passes() <==> g.contiguous && g.rows_match && g.value_sum_match
                && g.value_scaled_match
        }),
{
}

/// A failed verdict gives a reason for each gate that failed, and a passed one gives none.
pub proof fn law_each_failure_has_a_reason(g: Gates)
    ensures
        g.reasons().len() == (if g.contiguous {
            0int
        } else {
            1
        }) + (if g.rows_match {
            0int
        } else {
            1
        }) + (if g.value_sum_match {
            0int
        } else {
            1
        }) + (if g.value_scaled_match {
            0int
        } else {
            1
        }),
        g.passes() <==> g.reasons().len() == 0,
{
}

/// Both queries over a window ask for its batches and no others.
pub proof fn law_queries_ask_for_the_window(tier: Tier, w: Window)
    ensures
        ({
            let range = " WHERE batch_id >= "@ + decimal(w.lo as nat) + " AND batch_id < "@
                + decimal(w.hi as nat);
            &&& ends(counts_query(tier, w), tier.table_text() + range)
            &&& ends(sums_query(tier, w), tier.table_text() + range + ")"@)
            &&& ends(bounds_query(tier), tier.table_text())
        }),
{
    let range = range_clause(w);
    let t = tier.table_text();
    let c = counts_query(tier, w);
    let s = sums_query(tier, w);
    let b = bounds_query(tier);
    assert(c.skip(c.len() - (t + range).len()) =~= t + range);
    assert(s.skip(s.len() - (t + range + ")"@).len()) =~= t + range + ")"@);
    assert(b.skip(b.len() - t.len()) =~= t);
}

/// An arm that landed a table of batches `min` to `max` passes exactly where, over the
/// window, the distinct batches, the distinct rows and the sums are the generator's: a
/// batch lost inside the window fails it, and so does a wrong value.
pub proof fn law_arm_is_judged_on_what_it_landed(
    tier: Tier,
    min: u64,
    max: u64,
    max_batches: u64,
    rows: u64,
    ids: u64,
    batches: u64,
    value: i128,
    scaled: i128,
)
    requires
        max > min + 1,
        range_fits(
            tier,
            if max_batches <= max - min - 1 {
                max - max_batches
            } else {
                min + 1
            },
            max as int,
        ),
    ensures
        ({
            let lo = if max_batches <= max - min - 1 {
                max - max_batches
            } else {
                min + 1
            };
            let sums = match tier {
                Tier::A => reply_of(seq![value as int]),
                Tier::B => reply_of(seq![value as int, scaled as int]),
            };
            let r = gates_from(
                tier,
                max_batches,
                reply_of(seq![min as int, max as int]),
                reply_of(seq![rows as int, ids as int, batches as int]),
                sums,
            );
            &&& r is Ok
            &&& r->Ok_0.passes() <==> {
                &&& batches == max - lo
                &&& ids == range_total(Measure::Rows, tier, lo, max as int)
                &&& value == range_total(Measure::Value, tier, lo, max as int)
                &&& (if tier == Tier::A {
                    0
                } else {
                    scaled as int
                }) == range_total(Measure::ValueScaled, tier, lo, max as int)
            }
        }),
{
    law_window_covers_what_it_may(min, max, max_batches, min);
    law_landed_is_what_the_replies_say(rows, ids, batches, value, scaled);
}

/// A reply may part its fields by ends of line as well as by tabs.
pub proof fn law_lines_and_tabs_part_alike(s: Seq<char>, i: int)
    requires
        0 <= i < s.len(),
    ensures
        tabbed(s).len() == s.len(),
        s[i] == '\n' ==> tabbed(s)[i] == '\t',
        s[i] != '\n' ==> tabbed(s)[i] == s[i],
{
}

/// A count keeps its low 64 bits, and one that fits them is itself.
pub proof fn law_counts_keep_their_low_bits(n: int)
    ensures
        0 <= low_bits(n) < 0x1_0000_0000_0000_0000,
        0 <= n < 0x1_0000_0000_0000_0000 ==> low_bits(n) == n,
        low_bits(n + 0x1_0000_0000_0000_0000) == low_bits(n),
{
}

/// A reply with too few numbers is never read.
pub proof fn law_short_replies_are_refused(tier: Tier, a: i128, b: i128, max_batches: u64, sums: Seq<char>)
    ensures
        window_of(reply_of(seq![a as int]), max_batches) is Err,
        landed_of(tier, reply_of(seq![a as int, b as int]), sums) is Err,
{
    let one = seq![a as int];
    let two = seq![a as int, b as int];
    assert(one[0] == a && two[0] == a && two[1] == b);
    law_reply_reads_back(one);
    law_reply_reads_back(two);
}

} // verus!
