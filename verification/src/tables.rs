//! The target tables, as the script that creates them declares them.
use vstd::prelude::*;
use crate::corpus::{nonblank, statements, uncommented, Tier, COLUMNS_A, COLUMNS_B, DDL};
use crate::text::{
    before, begins, joined, lemma_first_of_is, lemma_trimmed_already, lines_of, split_at_each,
    trimmed,
};

verus! {

/// The line that declares a column.
pub open spec fn column_line(name: Seq<char>, ty: Seq<char>) -> Seq<char> {
    "    "@ + name + " "@ + ty + ","@
}

/// The lines that declare the columns of a tier, in order.
pub open spec fn column_lines(tier: Tier) -> Seq<Seq<char>> {
    Seq::new(
        tier.column_list().len(),
        |i: int| column_line(tier.column_list()[i].0@, tier.column_list()[i].1@),
    )
}

/// The lines of the statement that creates a tier's table. Behind the columns of the
/// wire stands the time at which a row arrived, which the table fills in itself.
pub open spec fn create_lines(tier: Tier) -> Seq<Seq<char>> {
    seq!["CREATE TABLE IF NOT EXISTS "@ + tier.table_text(), "("@] + column_lines(tier) + seq![
        "    ingest_ts DateTime64(6) MATERIALIZED now64(6)"@,
        ")"@,
        "ENGINE = MergeTree"@,
        "ORDER BY (batch_id, event_seq)"@,
    ]
}

// ---------------------------------------------------------------------------
// Scripts, line by line
// ---------------------------------------------------------------------------

/// A line of code: it holds neither an end of line, nor a comment, nor the end of a
/// statement.
pub open spec fn is_code(p: Seq<char>) -> bool {
    forall|k: int|
        0 <= k < p.len() ==> #[trigger] p[k] != '\n' && p[k] != '\r' && p[k] != '-' && p[k] != ';'
}

/// Holds no end of line.
spec fn is_unbroken(p: Seq<char>) -> bool {
    forall|k: int| 0 <= k < p.len() ==> #[trigger] p[k] != '\n' && p[k] != '\r'
}

spec fn lacks(s: Seq<char>, c: char) -> bool {
    forall|k: int| 0 <= k < s.len() ==> #[trigger] s[k] != c
}

/// Lines, each with its end.
spec fn unlines(lines: Seq<Seq<char>>) -> Seq<char>
    decreases lines.len(),
{
    if lines.len() == 0 {
        seq![]
    } else {
        lines[0] + seq!['\n'] + unlines(lines.skip(1))
    }
}

proof fn lemma_unlines_push(lines: Seq<Seq<char>>, p: Seq<char>)
    ensures
        unlines(lines.push(p)) == unlines(lines) + p + seq!['\n'],
    decreases lines.len(),
{
    let all = lines.push(p);
    if lines.len() == 0 {
        assert(unlines(all.skip(1)) =~= seq![]);
        assert(unlines(all) =~= unlines(lines) + p + seq!['\n']);
    } else {
        lemma_unlines_push(lines.skip(1), p);
        assert(all.skip(1) =~= lines.skip(1).push(p));
        assert(unlines(all) =~= unlines(lines) + p + seq!['\n']);
    }
}

proof fn lemma_lines_of_unlines(lines: Seq<Seq<char>>)
    requires
        forall|i: int| 0 <= i < lines.len() ==> is_unbroken(#[trigger] lines[i]),
    ensures
        lines_of(unlines(lines)) == lines,
    decreases lines.len(),
{
    if lines.len() == 0 {
        assert(lines =~= seq![]);
    } else {
        let (p, rest, s) = (lines[0], unlines(lines.skip(1)), unlines(lines));
        let n = p.len() as int;
        assert(is_unbroken(p));
        assert forall|k: int| 0 <= k < n implies s[k] != '\n' by {
            assert(s[k] == p[k]);
        }
        lemma_first_of_is(s, '\n', n);
        assert(s.take(n) =~= p);
        assert(s.skip(n + 1) =~= rest);
        lemma_lines_of_unlines(lines.skip(1));
        assert(lines =~= seq![p] + lines.skip(1));
    }
}

/// Lines that are joined, with none ended, read back.
proof fn lemma_lines_of_joined(lines: Seq<Seq<char>>)
    requires
        lines.len() > 0,
        lines.last().len() > 0,
        forall|i: int| 0 <= i < lines.len() ==> is_unbroken(#[trigger] lines[i]),
    ensures
        lines_of(joined(lines, "\n"@)) == lines,
    decreases lines.len(),
{
    reveal_strlit("\n");
    assert("\n"@ =~= seq!['\n']);
    let (p, s) = (lines[0], joined(lines, "\n"@));
    let n = p.len() as int;
    assert(is_unbroken(p));
    if lines.len() == 1 {
        assert forall|k: int| 0 <= k < n implies s[k] != '\n' by {
            assert(s[k] == p[k]);
        }
        lemma_first_of_is(s, '\n', n);
        assert(lines =~= seq![p]);
    } else {
        let rest = lines.skip(1);
        assert(lines =~= seq![p] + rest);
        lemma_joined_add(seq![p], rest, "\n"@);
        assert forall|k: int| 0 <= k < n implies s[k] != '\n' by {
            assert(s[k] == p[k]);
        }
        lemma_first_of_is(s, '\n', n);
        assert(s.take(n) =~= p);
        assert(s.skip(n + 1) =~= joined(rest, "\n"@));
        assert forall|i: int| 0 <= i < rest.len() implies is_unbroken(#[trigger] rest[i]) by {
            assert(is_unbroken(lines[i + 1]));
        }
        lemma_lines_of_joined(rest);
    }
}

proof fn lemma_joined_add(a: Seq<Seq<char>>, b: Seq<Seq<char>>, sep: Seq<char>)
    requires
        a.len() > 0,
        b.len() > 0,
    ensures
        joined(a + b, sep) == joined(a, sep) + sep + joined(b, sep),
    decreases b.len(),
{
    let all = a + b;
    if b.len() == 1 {
        assert(all.drop_last() =~= a);
    } else {
        lemma_joined_add(a, b.drop_last(), sep);
        assert(all.drop_last() =~= a + b.drop_last());
        assert(joined(all, sep) =~= joined(a, sep) + sep + joined(b, sep));
    }
}

proof fn lemma_joined_lacks(lines: Seq<Seq<char>>, c: char)
    requires
        c != '\n',
        forall|i: int| 0 <= i < lines.len() ==> lacks(#[trigger] lines[i], c),
    ensures
        lacks(joined(lines, "\n"@), c),
    decreases lines.len(),
{
    reveal_strlit("\n");
    assert("\n"@ =~= seq!['\n']);
    if lines.len() == 1 {
        assert(lacks(lines[0], c));
    } else if lines.len() > 1 {
        let init = lines.drop_last();
        assert forall|i: int| 0 <= i < init.len() implies lacks(#[trigger] init[i], c) by {
            assert(lacks(lines[i], c));
        }
        lemma_joined_lacks(init, c);
        let (x, y) = (joined(init, "\n"@), lines.last());
        assert(lacks(lines[lines.len() - 1], c));
        let s = joined(lines, "\n"@);
        assert forall|k: int| 0 <= k < s.len() implies #[trigger] s[k] != c by {
            if k < x.len() {
                assert(s[k] == x[k]);
            } else if k > x.len() {
                assert(s[k] == y[k - x.len() - 1]);
            }
        }
    }
}

/// The ends of joined lines are those of the first and of the last.
proof fn lemma_joined_ends(lines: Seq<Seq<char>>, sep: Seq<char>)
    requires
        lines.len() > 0,
        lines[0].len() > 0,
        lines.last().len() > 0,
    ensures
        joined(lines, sep).len() > 0,
        joined(lines, sep)[0] == lines[0][0],
        joined(lines, sep).last() == lines.last().last(),
    decreases lines.len(),
{
    if lines.len() > 1 {
        let rest = lines.skip(1);
        assert(lines =~= seq![lines[0]] + rest);
        lemma_joined_add(seq![lines[0]], rest, sep);
        if rest.len() == 1 {
            assert(joined(rest, sep) == rest[0]);
        } else {
            assert(joined(lines, sep) == joined(lines.drop_last(), sep) + sep + lines.last());
        }
    }
}

/// Code is its own part before a comment.
proof fn lemma_before_code(p: Seq<char>)
    requires
        lacks(p, '-'),
    ensures
        before(p, "--"@) == p,
    decreases p.len(),
{
    reveal_strlit("--");
    if p.len() == 0 {
        assert(before(p, "--"@) =~= p);
    } else {
        if begins(p, "--"@) {
            assert(p.take(2)[0] == "--"@[0]);
            assert(false);
        }
        let rest = p.skip(1);
        assert forall|k: int| 0 <= k < rest.len() implies #[trigger] rest[k] != '-' by {
            assert(rest[k] == p[k + 1]);
        }
        lemma_before_code(rest);
        assert(before(p, "--"@) =~= p);
    }
}

proof fn lemma_split_first(a: Seq<char>, c: char, b: Seq<char>)
    requires
        lacks(a, c),
    ensures
        split_at_each(a + seq![c] + b, c) == seq![a] + split_at_each(b, c),
{
    let s = a + seq![c] + b;
    let n = a.len() as int;
    assert forall|k: int| 0 <= k < n implies s[k] != c by {
        assert(s[k] == a[k]);
    }
    lemma_first_of_is(s, c, n);
    assert(s.take(n) =~= a);
    assert(s.skip(n + 1) =~= b);
}

proof fn lemma_split_whole(a: Seq<char>, c: char)
    requires
        lacks(a, c),
    ensures
        split_at_each(a, c) == seq![a],
{
    lemma_first_of_is(a, c, a.len() as int);
}

/// White space in front is trimmed away.
proof fn lemma_trimmed_behind(pre: Seq<char>, s: Seq<char>)
    requires
        forall|k: int| 0 <= k < pre.len() ==> #[trigger] pre[k] == '\n',
    ensures
        trimmed(pre + s) == trimmed(s),
    decreases pre.len(),
{
    if pre.len() == 0 {
        assert(pre + s =~= s);
    } else {
        assert((pre + s)[0] == pre[0]);
        assert((pre + s).skip(1) =~= pre.skip(1) + s);
        lemma_trimmed_behind(pre.skip(1), s);
    }
}

// ---------------------------------------------------------------------------
// The script as a whole
// ---------------------------------------------------------------------------

/// The lines of a tier's statement in the script, where a semicolon ends it.
spec fn table_lines(tier: Tier) -> Seq<Seq<char>> {
    let lines = create_lines(tier);
    lines.drop_last().push(lines.last() + seq![';'])
}

/// The lines of the script.
spec fn script_lines() -> Seq<Seq<char>> {
    seq!["-- Target tables of the two workload tiers."@] + table_lines(Tier::A) + seq![""@] + table_lines(Tier::B) + seq![
        ""@,
        "-- The gates ask, over a range of batch_id:"@,
        "--   SELECT uniqExact(batch_id) FROM sensor_events;"@,
        "--   SELECT sum(toInt128(value)) FROM sensor_events;"@,
    ]
}

/// `p` and an end of line stand in the script from `at` on.
spec fn stands(at: int, p: Seq<char>) -> bool {
    0 <= at && at + p.len() < DDL@.len() && DDL@.subrange(at, at + p.len()) =~= p && DDL@[at
        + p.len()] == '\n'
}

/// The script begins with `lines`, which end at `at`.
spec fn opens_with(at: int, lines: Seq<Seq<char>>) -> bool {
    0 <= at <= DDL@.len() && DDL@.take(at) == unlines(lines)
}

/// One more line of the script.
proof fn lemma_line(at: int, lines: Seq<Seq<char>>, p: Seq<char>) -> (r: Seq<Seq<char>>)
    requires
        opens_with(at, lines),
        stands(at, p),
    ensures
        r == lines.push(p),
        opens_with(at + p.len() + 1, r),
{
    lemma_unlines_push(lines, p);
    let end = at + p.len();
    assert(DDL@.take(end + 1) =~= DDL@.take(at) + DDL@.subrange(at, end) + seq!['\n']);
    lines.push(p)
}

/// One more column of the script: `n` of a tier's are there, behind `lines`.
proof fn lemma_column(at: int, lines: Seq<Seq<char>>, tier: Tier, n: int)
    requires
        0 <= n < tier.column_list().len(),
        opens_with(at, lines + column_lines(tier).take(n)),
        stands(at, column_lines(tier)[n]),
    ensures
        opens_with(
            at + column_lines(tier)[n].len() + 1,
            lines + column_lines(tier).take(n + 1),
        ),
{
    let sofar = lines + column_lines(tier).take(n);
    let r = lemma_line(at, sofar, column_lines(tier)[n]);
    assert(r =~= lines + column_lines(tier).take(n + 1));
}

/// The script is made of its lines.
proof fn lemma_script()
    ensures
        DDL@ == unlines(script_lines()),
{
    reveal_strlit(
        "-- Target tables of the two workload tiers.
CREATE TABLE IF NOT EXISTS sensor_events
(
    batch_id UInt64,
    event_seq UInt16,
    sensor LowCardinality(String),
    region LowCardinality(String),
    name LowCardinality(String),
    unit LowCardinality(String),
    value Int64,
    quality Nullable(Float64),
    tags Array(LowCardinality(String)),
    batch_ts DateTime64(3),
    send_ts DateTime64(6),
    ingest_ts DateTime64(6) MATERIALIZED now64(6)
)
ENGINE = MergeTree
ORDER BY (batch_id, event_seq);

CREATE TABLE IF NOT EXISTS sensor_events_t
(
    batch_id UInt64,
    event_seq UInt16,
    sensor LowCardinality(String),
    region LowCardinality(String),
    name_upper LowCardinality(String),
    unit LowCardinality(String),
    value Int64,
    value_scaled Int64,
    quality Nullable(Float64),
    tags Array(LowCardinality(String)),
    batch_ts DateTime64(3),
    send_ts DateTime64(6),
    ingest_ts DateTime64(6) MATERIALIZED now64(6)
)
ENGINE = MergeTree
ORDER BY (batch_id, event_seq);

-- The gates ask, over a range of batch_id:
--   SELECT uniqExact(batch_id) FROM sensor_events;
--   SELECT sum(toInt128(value)) FROM sensor_events;
",
    );
    reveal_strlit("    ");
    reveal_strlit(" ");
    reveal_strlit(",");
    reveal_strlit("-- Target tables of the two workload tiers.");
    reveal_strlit("CREATE TABLE IF NOT EXISTS sensor_events");
    reveal_strlit("(");
    reveal_strlit("    ingest_ts DateTime64(6) MATERIALIZED now64(6)");
    reveal_strlit(")");
    reveal_strlit("ENGINE = MergeTree");
    reveal_strlit("ORDER BY (batch_id, event_seq);");
    reveal_strlit("");
    reveal_strlit("CREATE TABLE IF NOT EXISTS sensor_events_t");
    reveal_strlit("-- The gates ask, over a range of batch_id:");
    reveal_strlit("--   SELECT uniqExact(batch_id) FROM sensor_events;");
    reveal_strlit("--   SELECT sum(toInt128(value)) FROM sensor_events;");
    reveal_strlit("batch_id");
    reveal_strlit("UInt64");
    reveal_strlit("event_seq");
    reveal_strlit("UInt16");
    reveal_strlit("sensor");
    reveal_strlit("LowCardinality(String)");
    reveal_strlit("region");
    reveal_strlit("name");
    reveal_strlit("unit");
    reveal_strlit("value");
    reveal_strlit("Int64");
    reveal_strlit("quality");
    reveal_strlit("Nullable(Float64)");
    reveal_strlit("tags");
    reveal_strlit("Array(LowCardinality(String))");
    reveal_strlit("batch_ts");
    reveal_strlit("DateTime64(3)");
    reveal_strlit("send_ts");
    reveal_strlit("DateTime64(6)");
    reveal_strlit("name_upper");
    reveal_strlit("value_scaled");
    reveal_strlit("sensor_events");
    reveal_strlit("sensor_events_t");
    reveal_strlit("CREATE TABLE IF NOT EXISTS ");
    reveal_strlit("ORDER BY (batch_id, event_seq)");
    let none = Seq::<Seq<char>>::empty();
    assert(DDL@.take(0) =~= unlines(none));
    let l1 = lemma_line(0, none, "-- Target tables of the two workload tiers."@);
    let head_a = lemma_line(44, l1, create_lines(Tier::A)[0]);
    let open_a = lemma_line(85, head_a, "("@);
    assert(open_a + column_lines(Tier::A).take(0) =~= open_a);
    lemma_column(87, open_a, Tier::A, 0);
    lemma_column(108, open_a, Tier::A, 1);
    lemma_column(130, open_a, Tier::A, 2);
    lemma_column(165, open_a, Tier::A, 3);
    lemma_column(200, open_a, Tier::A, 4);
    lemma_column(233, open_a, Tier::A, 5);
    lemma_column(266, open_a, Tier::A, 6);
    lemma_column(283, open_a, Tier::A, 7);
    lemma_column(314, open_a, Tier::A, 8);
    lemma_column(354, open_a, Tier::A, 9);
    lemma_column(382, open_a, Tier::A, 10);
    let columns_a = open_a + column_lines(Tier::A).take(11);
    let arrival_a = lemma_line(409, columns_a, "    ingest_ts DateTime64(6) MATERIALIZED now64(6)"@);
    let close_a = lemma_line(459, arrival_a, ")"@);
    let engine_a = lemma_line(461, close_a, "ENGINE = MergeTree"@);
    let order_a = lemma_line(480, engine_a, table_lines(Tier::A).last());
    assert(column_lines(Tier::A).take(11) =~= column_lines(Tier::A));
    assert(order_a =~= l1 + table_lines(Tier::A));
    let gap = lemma_line(512, order_a, ""@);
    let head_b = lemma_line(513, gap, create_lines(Tier::B)[0]);
    let open_b = lemma_line(556, head_b, "("@);
    assert(open_b + column_lines(Tier::B).take(0) =~= open_b);
    lemma_column(558, open_b, Tier::B, 0);
    lemma_column(579, open_b, Tier::B, 1);
    lemma_column(601, open_b, Tier::B, 2);
    lemma_column(636, open_b, Tier::B, 3);
    lemma_column(671, open_b, Tier::B, 4);
    lemma_column(710, open_b, Tier::B, 5);
    lemma_column(743, open_b, Tier::B, 6);
    lemma_column(760, open_b, Tier::B, 7);
    lemma_column(784, open_b, Tier::B, 8);
    lemma_column(815, open_b, Tier::B, 9);
    lemma_column(855, open_b, Tier::B, 10);
    lemma_column(883, open_b, Tier::B, 11);
    let columns_b = open_b + column_lines(Tier::B).take(12);
    let arrival_b = lemma_line(910, columns_b, "    ingest_ts DateTime64(6) MATERIALIZED now64(6)"@);
    let close_b = lemma_line(960, arrival_b, ")"@);
    let engine_b = lemma_line(962, close_b, "ENGINE = MergeTree"@);
    let order_b = lemma_line(981, engine_b, table_lines(Tier::B).last());
    assert(column_lines(Tier::B).take(12) =~= column_lines(Tier::B));
    assert(order_b =~= gap + table_lines(Tier::B));
    let blank = lemma_line(1013, order_b, ""@);
    let note1 = lemma_line(1014, blank, "-- The gates ask, over a range of batch_id:"@);
    let note2 = lemma_line(1058, note1, "--   SELECT uniqExact(batch_id) FROM sensor_events;"@);
    let note3 = lemma_line(1110, note2, "--   SELECT sum(toInt128(value)) FROM sensor_events;"@);
    assert(note3 =~= script_lines());
    assert(DDL@.take(1163) =~= DDL@);
}

/// The lines of a tier's statement are code.
proof fn lemma_create_lines(tier: Tier)
    ensures
        create_lines(tier).len() == tier.column_list().len() + 6,
        forall|i: int| 0 <= i < create_lines(tier).len() ==> is_code(#[trigger] create_lines(tier)[i]),
        create_lines(tier)[0].len() > 0,
        create_lines(tier)[0][0] == 'C',
        create_lines(tier).last().len() > 0,
        create_lines(tier).last().last() == ')',
{
    lemma_phrases();
    let all = create_lines(tier);
    let n = tier.column_list().len() as int;
    assert forall|i: int| 0 <= i < all.len() implies is_code(#[trigger] all[i]) by {
        if 2 <= i < n + 2 {
            assert(all[i] == column_lines(tier)[i - 2]);
            lemma_column_code(tier, i - 2);
        }
    }
}

/// A column is declared by a line of code.
proof fn lemma_column_code(tier: Tier, i: int)
    requires
        0 <= i < tier.column_list().len(),
    ensures
        is_code(column_lines(tier)[i]),
{
    reveal_strlit("    ");
    reveal_strlit(" ");
    reveal_strlit(",");
    reveal_strlit("batch_id");
    reveal_strlit("UInt64");
    reveal_strlit("event_seq");
    reveal_strlit("UInt16");
    reveal_strlit("sensor");
    reveal_strlit("LowCardinality(String)");
    reveal_strlit("region");
    reveal_strlit("name");
    reveal_strlit("unit");
    reveal_strlit("value");
    reveal_strlit("Int64");
    reveal_strlit("quality");
    reveal_strlit("Nullable(Float64)");
    reveal_strlit("tags");
    reveal_strlit("Array(LowCardinality(String))");
    reveal_strlit("batch_ts");
    reveal_strlit("DateTime64(3)");
    reveal_strlit("send_ts");
    reveal_strlit("DateTime64(6)");
    reveal_strlit("name_upper");
    reveal_strlit("value_scaled");
    let (name, ty) = tier.column_list()[i];
    assert(is_code(name@));
    assert(is_code(ty@));
}

/// The other lines of a statement are code too.
proof fn lemma_phrases()
    ensures
        forall|tier: Tier| is_code(#[trigger] create_lines(tier)[0]),
        "CREATE TABLE IF NOT EXISTS "@.len() > 0 && "CREATE TABLE IF NOT EXISTS "@[0] == 'C',
        is_code("("@),
        is_code("    ingest_ts DateTime64(6) MATERIALIZED now64(6)"@),
        is_code(")"@),
        is_code("ENGINE = MergeTree"@),
        is_code("ORDER BY (batch_id, event_seq)"@),
        "ORDER BY (batch_id, event_seq)"@.len() > 0,
        "ORDER BY (batch_id, event_seq)"@.last() == ')',
{
    reveal_strlit("CREATE TABLE IF NOT EXISTS ");
    reveal_strlit("sensor_events");
    reveal_strlit("sensor_events_t");
    reveal_strlit("(");
    reveal_strlit("    ingest_ts DateTime64(6) MATERIALIZED now64(6)");
    reveal_strlit(")");
    reveal_strlit("ENGINE = MergeTree");
    reveal_strlit("ORDER BY (batch_id, event_seq)");
    assert(is_code("CREATE TABLE IF NOT EXISTS "@));
    assert(is_code("sensor_events"@));
    assert(is_code("sensor_events_t"@));
}

/// The code of the script: its lines without their comments.
spec fn code_lines() -> Seq<Seq<char>> {
    seq![""@] + table_lines(Tier::A) + seq![""@] + table_lines(Tier::B) + seq![
        ""@,
        ""@,
        ""@,
        ""@,
    ]
}

proof fn lemma_table_code(tier: Tier, i: int)
    requires
        0 <= i < table_lines(tier).len(),
    ensures
        is_unbroken(table_lines(tier)[i]),
        before(table_lines(tier)[i], "--"@) == table_lines(tier)[i],
{
    lemma_create_lines(tier);
    let (p, all) = (table_lines(tier)[i], create_lines(tier));
    assert(is_code(all[i]));
    if i < all.len() - 1 {
        assert(p == all[i]);
    } else {
        assert(p == all[i] + seq![';']);
        assert forall|k: int| 0 <= k < p.len() implies #[trigger] p[k] != '\n' && p[k] != '\r'
            && p[k] != '-' by {
            if k < p.len() - 1 {
                assert(p[k] == all[i][k]);
            }
        }
    }
    assert(lacks(p, '-'));
    lemma_before_code(p);
}

proof fn lemma_comment(p: Seq<char>)
    requires
        begins(p, "--"@),
    ensures
        before(p, "--"@) == ""@,
{
    reveal_strlit("");
    assert(before(p, "--"@) =~= ""@);
}

proof fn lemma_script_code()
    ensures
        uncommented(lines_of(DDL@)) == code_lines(),
{
    lemma_script();
    let (all, code) = (script_lines(), code_lines());
    let (a, b) = (table_lines(Tier::A), table_lines(Tier::B));
    let (na, nb) = (a.len() as int, b.len() as int);
    reveal_strlit("");
    reveal_strlit("--");
    assert(""@ =~= seq![]);
    lemma_before_code(""@);
    assert(is_unbroken("-- Target tables of the two workload tiers."@) && begins("-- Target tables of the two workload tiers."@, "--"@)) by {
        reveal_strlit("-- Target tables of the two workload tiers.");
        assert("-- Target tables of the two workload tiers."@.take(2) =~= "--"@);
    }
    lemma_comment("-- Target tables of the two workload tiers."@);
    assert(is_unbroken("-- The gates ask, over a range of batch_id:"@) && begins("-- The gates ask, over a range of batch_id:"@, "--"@)) by {
        reveal_strlit("-- The gates ask, over a range of batch_id:");
        assert("-- The gates ask, over a range of batch_id:"@.take(2) =~= "--"@);
    }
    lemma_comment("-- The gates ask, over a range of batch_id:"@);
    assert(is_unbroken("--   SELECT uniqExact(batch_id) FROM sensor_events;"@) && begins("--   SELECT uniqExact(batch_id) FROM sensor_events;"@, "--"@)) by {
        reveal_strlit("--   SELECT uniqExact(batch_id) FROM sensor_events;");
        assert("--   SELECT uniqExact(batch_id) FROM sensor_events;"@.take(2) =~= "--"@);
    }
    lemma_comment("--   SELECT uniqExact(batch_id) FROM sensor_events;"@);
    assert(is_unbroken("--   SELECT sum(toInt128(value)) FROM sensor_events;"@) && begins("--   SELECT sum(toInt128(value)) FROM sensor_events;"@, "--"@)) by {
        reveal_strlit("--   SELECT sum(toInt128(value)) FROM sensor_events;");
        assert("--   SELECT sum(toInt128(value)) FROM sensor_events;"@.take(2) =~= "--"@);
    }
    lemma_comment("--   SELECT sum(toInt128(value)) FROM sensor_events;"@);
    let (c0, c1, c2, c3) = (
        "-- Target tables of the two workload tiers."@,
        "-- The gates ask, over a range of batch_id:"@,
        "--   SELECT uniqExact(batch_id) FROM sensor_events;"@,
        "--   SELECT sum(toInt128(value)) FROM sensor_events;"@,
    );
    assert forall|i: int| 0 <= i < all.len() implies is_unbroken(#[trigger] all[i]) && before(
        all[i],
        "--"@,
    ) == code[i] by {
        if i == 0 {
            assert(all[i] == c0);
        } else if i <= na {
            assert(all[i] == a[i - 1] && code[i] == a[i - 1]);
            lemma_table_code(Tier::A, i - 1);
        } else if i == na + 1 {
            assert(all[i] == ""@);
        } else if i <= na + 1 + nb {
            assert(all[i] == b[i - na - 2] && code[i] == b[i - na - 2]);
            lemma_table_code(Tier::B, i - na - 2);
        } else if i == na + nb + 2 {
            assert(all[i] == ""@);
        } else if i == na + nb + 3 {
            assert(all[i] == c1);
        } else if i == na + nb + 4 {
            assert(all[i] == c2);
        } else {
            assert(all[i] == c3);
        }
    }
    lemma_lines_of_unlines(all);
    assert(uncommented(all) =~= code);
}

/// A statement's text, without the semicolon that ends it.
spec fn statement_text(tier: Tier) -> Seq<char> {
    joined(create_lines(tier), "\n"@)
}

proof fn lemma_statement(tier: Tier)
    ensures
        joined(table_lines(tier), "\n"@) == statement_text(tier) + seq![';'],
        lacks(statement_text(tier), ';'),
        trimmed(statement_text(tier)) == statement_text(tier),
        statement_text(tier).len() > 0,
        lines_of(statement_text(tier)) == create_lines(tier),
{
    lemma_create_lines(tier);
    let (all, ended) = (create_lines(tier), table_lines(tier));
    assert(ended.drop_last() =~= all.drop_last());
    assert(joined(ended, "\n"@) =~= statement_text(tier) + seq![';']);
    assert forall|i: int| 0 <= i < all.len() implies lacks(#[trigger] all[i], ';')
        && is_unbroken(all[i]) by {
        assert(is_code(all[i]));
    }
    lemma_joined_lacks(all, ';');
    lemma_joined_ends(all, "\n"@);
    lemma_trimmed_already(statement_text(tier));
    lemma_lines_of_joined(all);
}

proof fn lemma_blank(s: Seq<char>)
    requires
        forall|k: int| 0 <= k < s.len() ==> #[trigger] s[k] == '\n',
    ensures
        trimmed(s).len() == 0,
        lacks(s, ';'),
{
    lemma_trimmed_behind(s, seq![]);
    assert(s + Seq::<char>::empty() =~= s);
}

proof fn lemma_script_text()
    ensures
        ({
            let n = seq!['\n'];
            joined(code_lines(), "\n"@) == (n + statement_text(Tier::A)) + seq![';'] + ((n + n
                + statement_text(Tier::B)) + seq![';'] + (n + n + n + n))
        }),
{
    reveal_strlit("\n");
    reveal_strlit("");
    assert("\n"@ =~= seq!['\n']);
    assert(""@ =~= seq![]);
    let (a, b) = (table_lines(Tier::A), table_lines(Tier::B));
    let one = seq![""@];
    let four = seq![""@, ""@, ""@, ""@];
    lemma_create_lines(Tier::A);
    lemma_create_lines(Tier::B);
    lemma_joined_add(one, a, "\n"@);
    lemma_joined_add(one + a, one, "\n"@);
    lemma_joined_add(one + a + one, b, "\n"@);
    lemma_joined_add(one + a + one + b, four, "\n"@);
    lemma_joined_add(one, one, "\n"@);
    lemma_joined_add(one + one, one + one, "\n"@);
    assert(four =~= one + one + (one + one));
    lemma_statement(Tier::A);
    lemma_statement(Tier::B);
    let n = seq!['\n'];
    assert(joined(one, "\n"@) =~= seq![]);
    assert(joined(four, "\n"@) =~= n + n + n);
    assert(joined(code_lines(), "\n"@) =~= (n + statement_text(Tier::A)) + seq![';'] + ((n + n
        + statement_text(Tier::B)) + seq![';'] + (n + n + n + n)));
}

/// The script creates the two tables and does nothing else. Each statement declares
/// the columns of its tier, one to a line, in wire order and with their types.
pub proof fn law_script_declares_the_columns()
    ensures
        statements(DDL@) == seq![
            joined(create_lines(Tier::A), "\n"@),
            joined(create_lines(Tier::B), "\n"@),
        ],
        lines_of(statements(DDL@)[0]) == create_lines(Tier::A),
        lines_of(statements(DDL@)[1]) == create_lines(Tier::B),
        forall|i: int|
            0 <= i < COLUMNS_A@.len() ==> #[trigger] lines_of(statements(DDL@)[0])[i + 2]
                == column_line(COLUMNS_A@[i].0@, COLUMNS_A@[i].1@),
        forall|i: int|
            0 <= i < COLUMNS_B@.len() ==> #[trigger] lines_of(statements(DDL@)[1])[i + 2]
                == column_line(COLUMNS_B@[i].0@, COLUMNS_B@[i].1@),
{
    lemma_script_code();
    lemma_script_text();
    lemma_statement(Tier::A);
    lemma_statement(Tier::B);
    let n = seq!['\n'];
    let (a, b) = (statement_text(Tier::A), statement_text(Tier::B));
    let tail = n + n + n + n;
    lemma_blank(tail);
    assert(lacks(n + a, ';'));
    assert(lacks(n + n + b, ';'));
    lemma_split_first(n + a, ';', (n + n + b) + seq![';'] + tail);
    lemma_split_first(n + n + b, ';', tail);
    lemma_split_whole(tail, ';');
    lemma_trimmed_behind(n, a);
    lemma_trimmed_behind(n + n, b);
    let parts = seq![n + a, n + n + b, tail];
    assert(split_at_each(joined(uncommented(lines_of(DDL@)), "\n"@), ';') =~= parts);
    assert(parts.drop_last() =~= seq![n + a, n + n + b]);
    assert(parts.drop_last().drop_last() =~= seq![n + a]);
    assert(parts.drop_last().drop_last().drop_last() =~= seq![]);
    reveal_with_fuel(nonblank, 4);
    assert(statements(DDL@) =~= seq![a, b]);
    assert forall|i: int| 0 <= i < COLUMNS_A@.len() implies #[trigger] lines_of(
        statements(DDL@)[0],
    )[i + 2] == column_line(COLUMNS_A@[i].0@, COLUMNS_A@[i].1@) by {
        assert(create_lines(Tier::A)[i + 2] == column_lines(Tier::A)[i]);
    }
    assert forall|i: int| 0 <= i < COLUMNS_B@.len() implies #[trigger] lines_of(
        statements(DDL@)[1],
    )[i + 2] == column_line(COLUMNS_B@[i].0@, COLUMNS_B@[i].1@) by {
        assert(create_lines(Tier::B)[i + 2] == column_lines(Tier::B)[i]);
    }
}

/// The columns of tier B are those of tier A, with `name` as `name_upper` and with
/// `value_scaled` behind `value`.
pub proof fn law_tier_b_extends_tier_a()
    ensures
        COLUMNS_A@.len() == 11,
        COLUMNS_B@.len() == 12,
        COLUMNS_A@[4].0@ == "name"@ && COLUMNS_B@[4].0@ == "name_upper"@,
        COLUMNS_B@[4].1@ == COLUMNS_A@[4].1@,
        COLUMNS_A@[6].0@ == "value"@ && COLUMNS_A@[6].1@ == "Int64"@,
        COLUMNS_B@[7].0@ == "value_scaled"@ && COLUMNS_B@[7].1@ == "Int64"@,
        forall|i: int| 0 <= i < 7 && i != 4 ==> #[trigger] COLUMNS_B@[i] == COLUMNS_A@[i],
        forall|i: int| 7 <= i < 11 ==> COLUMNS_B@[i + 1] == #[trigger] COLUMNS_A@[i],
{
}

} // verus!
