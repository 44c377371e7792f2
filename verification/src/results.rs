//! Where a record is written. The archive is only ever appended to, one file for
//! each environment, entrant and month.
use vstd::prelude::*;
use crate::calendar::{date_of, month_text, year_month};
use crate::entrant::{blank, is_blank, is_slug};
use crate::report::Trigger;
use crate::text::{begins, cat2, cat3, chars_of, lines, lines_of};

verus! {

/// Where records that must never be published are written instead: beside the
/// archive, and not inside it.
pub const TUNING_DIR: &'static str = "tuning";

/// Where published records are written.
pub const RESULTS_DIR: &'static str = "results";

/// A path with a component appended: an absolute one replaces it.
pub open spec fn path_join(a: Seq<char>, b: Seq<char>) -> Seq<char> {
    if b.len() > 0 && b[0] == '/' {
        b
    } else if a.len() == 0 {
        b
    } else if a.last() == '/' {
        a + b
    } else {
        a + "/"@ + b
    }
}

/// A path with a component appended.
pub fn join_path(a: &str, b: &str) -> (r: String)
    ensures
        r@ == path_join(a@, b@),
{
    let x = chars_of(a);
    let y = chars_of(b);
    if y.len() > 0 && y[0] == '/' {
        b.to_owned()
    } else if x.len() == 0 {
        b.to_owned()
    } else if x[x.len() - 1] == '/' {
        cat2(a, b)
    } else {
        cat3(a, "/", b)
    }
}

pub open spec fn archive_root(repo_root: Seq<char>, trigger: Trigger) -> Seq<char> {
    path_join(
        repo_root,
        if trigger.is_barred() {
            TUNING_DIR@
        } else {
            RESULTS_DIR@
        },
    )
}

/// The archive that a record produced under `trigger` belongs in.
pub fn root_for(repo_root: &str, trigger: Trigger) -> (r: String)
    ensures
        r@ == archive_root(repo_root@, trigger),
{
    if trigger.bars_publication() {
        join_path(repo_root, TUNING_DIR)
    } else {
        join_path(repo_root, RESULTS_DIR)
    }
}

pub open spec fn record_path(root: Seq<char>, env_id: Seq<char>, entrant: Seq<char>, ts_ms: u64) -> Seq<
    char,
> {
    path_join(
        path_join(path_join(root, env_id), entrant),
        month_text(date_of(ts_ms as int / 86_400_000)) + ".jsonl"@,
    )
}

/// The file a record belongs in. The month is that of the record's own timestamp.
pub fn path_for(root: &str, env_id: &str, entrant: &str, ts_ms: u64) -> (r: String)
    ensures
        r@ == record_path(root@, env_id@, entrant@, ts_ms),
{
    let dir = join_path(join_path(root, env_id).as_str(), entrant);
    join_path(dir.as_str(), cat2(year_month(ts_ms).as_str(), ".jsonl").as_str())
}

proof fn lemma_join_slugs(p: Seq<char>, a: Seq<char>, f: Seq<char>)
    requires
        p.len() > 0,
        a.len() > 0,
        is_slug(a),
        f.len() > 0,
        f[0] != '/',
    ensures
        path_join(path_join(p, a), f) == (if p.last() == '/' {
            p
        } else {
            p + "/"@
        }) + a + "/"@ + f,
{
    assert(a[0] != '/');
    let q = path_join(p, a);
    assert(q.last() == a.last());
    assert(a.last() != '/');
    if p.last() == '/' {
        assert(q =~= p + a);
    } else {
        assert(q =~= p + "/"@ + a);
    }
}

/// Re-running one entrant touches no other entrant's file: for ids of the form
/// that descriptors must have, distinct entrants have distinct paths.
pub proof fn law_partial_rerun_is_disjoint(
    root: Seq<char>,
    env_id: Seq<char>,
    a: Seq<char>,
    b: Seq<char>,
    ts_a: u64,
    ts_b: u64,
)
    requires
        path_join(root, env_id).len() > 0,
        is_slug(a),
        is_slug(b),
        a.len() > 0,
        b.len() > 0,
        a != b,
    ensures
        record_path(root, env_id, a, ts_a) != record_path(root, env_id, b, ts_b),
{
    let p = path_join(root, env_id);
    let fa = month_text(date_of(ts_a as int / 86_400_000)) + ".jsonl"@;
    let fb = month_text(date_of(ts_b as int / 86_400_000)) + ".jsonl"@;
    reveal_strlit("/");
    lemma_month_file(ts_a);
    lemma_month_file(ts_b);
    lemma_join_slugs(p, a, fa);
    lemma_join_slugs(p, b, fb);
    let base = if p.last() == '/' {
        p
    } else {
        p + "/"@
    };
    let x = base + a + "/"@ + fa;
    let y = base + b + "/"@ + fb;
    if x == y {
        let n = base.len() as int;
        // The first slash after the base ends the entrant in either path.
        assert(x[n + a.len()] == '/');
        assert(y[n + b.len()] == '/');
        if a.len() < b.len() {
            assert(y[n + a.len()] == b[a.len() as int]);
            assert(b[a.len() as int] != '/');
        } else if b.len() < a.len() {
            assert(x[n + b.len()] == a[b.len() as int]);
            assert(a[b.len() as int] != '/');
        } else {
            assert forall|i: int| 0 <= i < a.len() implies a[i] == b[i] by {
                assert(x[n + i] == a[i]);
                assert(y[n + i] == b[i]);
            }
            assert(a =~= b);
        }
    }
}

proof fn lemma_month_file(ts_ms: u64)
    ensures
        ({
            let f = month_text(date_of(ts_ms as int / 86_400_000)) + ".jsonl"@;
            f.len() > 0 && f[0] != '/'
        }),
{
    let d = date_of(ts_ms as int / 86_400_000);
    crate::text::lemma_decimal_digits(d.year as nat);
    let y = crate::text::zero_padded(d.year as nat, 4);
    assert(crate::text::is_digit(y[0])) by {
        let s = crate::text::decimal(d.year as nat);
        if s.len() >= 4 {
            assert(crate::text::is_digit(s[0]));
        } else {
            assert(y[0] == '0');
        }
    }
    assert((month_text(d) + ".jsonl"@)[0] == y[0]);
}

/// A component that is no absolute path is appended: what stands before it stays.
proof fn lemma_join_keeps(p: Seq<char>, b: Seq<char>)
    requires
        p.len() > 0,
        b.len() == 0 || b[0] != '/',
    ensures
        begins(path_join(p, b), p),
        path_join(p, b).len() >= p.len(),
{
    assert(path_join(p, b).take(p.len() as int) =~= p);
}

/// A record that is barred from publication never lands in the published archive, nor
/// is its own archive inside that one: for ids made of lower-case letters, digits and
/// hyphens, its path does not begin with the published root.
pub proof fn law_barred_runs_stay_out(
    repo_root: Seq<char>,
    barred: Trigger,
    published: Trigger,
    env_id: Seq<char>,
    entrant: Seq<char>,
    ts_ms: u64,
)
    requires
        barred.is_barred(),
        !published.is_barred(),
        is_slug(env_id),
        is_slug(entrant),
    ensures
        !begins(archive_root(repo_root, barred), archive_root(repo_root, published)),
        !begins(
            record_path(archive_root(repo_root, barred), env_id, entrant, ts_ms),
            archive_root(repo_root, published),
        ),
{
    reveal_strlit("tuning");
    reveal_strlit("results");
    reveal_strlit("/");
    let a = archive_root(repo_root, barred);
    let b = archive_root(repo_root, published);
    let n = repo_root.len() as int;
    assert(TUNING_DIR@[0] == 't' && RESULTS_DIR@[0] == 'r');
    let k = if n == 0 || repo_root.last() == '/' {
        n
    } else {
        n + 1
    };
    assert(a[k] == 't');
    assert(b[k] == 'r');
    let file = month_text(date_of(ts_ms as int / 86_400_000)) + ".jsonl"@;
    let env_dir = path_join(a, env_id);
    let dir = path_join(env_dir, entrant);
    let path = record_path(a, env_id, entrant, ts_ms);
    lemma_month_file(ts_ms);
    lemma_join_keeps(a, env_id);
    lemma_join_keeps(env_dir, entrant);
    lemma_join_keeps(dir, file);
    assert(env_dir.take(a.len() as int)[k] == env_dir[k]);
    assert(dir.take(env_dir.len() as int)[k] == dir[k]);
    assert(path.take(dir.len() as int)[k] == path[k]);
    if begins(a, b) {
        assert(a.take(b.len() as int)[k] == a[k]);
    }
    if begins(path, b) {
        assert(path.take(b.len() as int)[k] == path[k]);
    }
}

/// The lines of a results file that hold a record, with their numbers from one.
pub open spec fn record_lines_of(all: Seq<Seq<char>>, n: nat) -> Seq<(u64, Seq<char>)>
    decreases n,
{
    if n == 0 {
        seq![]
    } else if is_blank(all[n - 1]) {
        record_lines_of(all, (n - 1) as nat)
    } else {
        record_lines_of(all, (n - 1) as nat).push((n as u64, all[n - 1]))
    }
}

pub open spec fn numbered(v: Seq<(u64, String)>) -> Seq<(u64, Seq<char>)> {
    Seq::new(v.len(), |i: int| (v[i].0, v[i].1@))
}

/// The lines of a results file that hold a record, with their numbers from one.
/// Blank lines are passed over.
pub fn record_lines(src: &str) -> (r: Vec<(u64, String)>)
    ensures
        numbered(r@) == record_lines_of(lines_of(src@), lines_of(src@).len()),
{
    let all = lines(src);
    let ghost views = lines_of(src@);
    let mut out: Vec<(u64, String)> = Vec::new();
    let mut i: usize = 0;
    proof {
        assert(numbered(out@) =~= record_lines_of(views, 0));
    }
    while i < all.len()
        invariant
            crate::text::texts(all@) == views,
            i <= all@.len(),
            numbered(out@) == record_lines_of(views, i as nat),
        decreases all@.len() - i,
    {
        let ghost sofar = numbered(out@);
        proof {
            assert(views[i as int] == all@[i as int]@);
        }
        if !blank(all[i].as_str()) {
            out.push(((i + 1) as u64, all[i].clone()));
            proof {
                assert(numbered(out@) =~= sofar.push(((i + 1) as u64, views[i as int])));
            }
        }
        i += 1;
    }
    proof {
        assert(views.len() == all@.len());
    }
    out
}

/// A record is filed under its root by environment, then by entrant, then by month.
pub proof fn law_record_is_filed_by_environment_entrant_month(
    root: Seq<char>,
    env_id: Seq<char>,
    entrant: Seq<char>,
    ts_ms: u64,
)
    requires
        root.len() > 0 && root.last() != '/',
        is_slug(env_id) && env_id.len() > 0,
        is_slug(entrant) && entrant.len() > 0,
    ensures
        record_path(root, env_id, entrant, ts_ms) == root + "/"@ + env_id + "/"@ + entrant + "/"@
            + month_text(date_of(ts_ms as int / 86_400_000)) + ".jsonl"@,
{
    reveal_strlit("/");
    let file = month_text(date_of(ts_ms as int / 86_400_000)) + ".jsonl"@;
    lemma_month_file(ts_ms);
    assert(env_id[0] != '/' && entrant[0] != '/');
    let a = path_join(root, env_id);
    assert(a == root + "/"@ + env_id);
    assert(a.last() == env_id.last());
    assert(env_id.last() != '/');
    lemma_join_slugs(a, entrant, file);
    assert(record_path(root, env_id, entrant, ts_ms) =~= root + "/"@ + env_id + "/"@ + entrant
        + "/"@ + month_text(date_of(ts_ms as int / 86_400_000)) + ".jsonl"@);
}

/// Published records are kept under `results`, and barred ones under `tuning`, both in the
/// repository.
pub proof fn law_roots_stand_side_by_side(repo_root: Seq<char>, trigger: Trigger)
    requires
        repo_root.len() > 0 && repo_root.last() != '/',
    ensures
        trigger == Trigger::Pr || trigger == Trigger::Tuning ==> archive_root(repo_root, trigger)
            == repo_root + "/"@ + "tuning"@,
        trigger == Trigger::Nightly || trigger == Trigger::Manual || trigger == Trigger::Release
            ==> archive_root(repo_root, trigger) == repo_root + "/"@ + "results"@,
{
    reveal_strlit("tuning");
    reveal_strlit("results");
    assert("tuning"@[0] == 't' && "results"@[0] == 'r');
}

/// A further line of a results file is a record exactly where it is not blank, and is
/// numbered by its place in the file, blank lines counted.
pub proof fn law_every_line_that_is_not_blank_is_a_record(all: Seq<Seq<char>>, line: Seq<char>)
    ensures
        ({
            let n = all.len();
            let more = all.push(line);
            &&& is_blank(line) ==> record_lines_of(more, n + 1) == record_lines_of(all, n)
            &&& !is_blank(line) ==> record_lines_of(more, n + 1) == record_lines_of(all, n).push(
                ((n + 1) as u64, line),
            )
            &&& record_lines_of(all, 0).len() == 0
        }),
{
    lemma_record_prefix(all, all.push(line), all.len());
}

proof fn lemma_record_prefix(a: Seq<Seq<char>>, b: Seq<Seq<char>>, n: nat)
    requires
        n <= a.len() <= b.len(),
        forall|i: int| 0 <= i < n ==> a[i] == b[i],
    ensures
        record_lines_of(a, n) == record_lines_of(b, n),
    decreases n,
{
    if n > 0 {
        lemma_record_prefix(a, b, (n - 1) as nat);
    }
}

/// A component is appended behind one separator: none is added where one stands, an empty
/// path is the component alone, and an absolute component is the path.
pub proof fn law_component_follows_one_separator(a: Seq<char>, b: Seq<char>)
    ensures
        b.len() > 0 && b[0] == '/' ==> path_join(a, b) == b,
        a.len() == 0 ==> path_join(a, b) == b,
        a.len() > 0 && a.last() != '/' && !(b.len() > 0 && b[0] == '/') ==> path_join(a, b) == a
            + seq!['/'] + b && path_join(a + seq!['/'], b) == path_join(a, b),
{
    reveal_strlit("/");
    assert("/"@ =~= seq!['/']);
}

} // verus!
