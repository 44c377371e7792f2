//! The version of the corpus, derived from what defines it: two corpora that differ
//! have different versions, and a comment or a rewrapped line makes no difference.
use vstd::prelude::*;
use vstd::utf8::encode_utf8;
use crate::corpus::uncommented;
use crate::entrant::{debug_quoted, quoted};
use crate::environment::{hex_text, sha256_of, short_digest};
use crate::table::{in_order, sort_texts};
use crate::text::{
    before, begins, cat3, cat4, cat5, chars_of, contains, cut_at, dec, dec_int, decimal,
    decimal_int, is_space, join, joined, law_words_are_runs, law_words_hold_no_space,
    lemma_joined_first, lemma_same_bytes, lines, lines_of, matches_at, note, note_all, occurs,
    piece, stands_at, texts, words, words_of,
};

verus! {

/// Names the derivation: bumped where the derivation itself changes.
pub const DATASET_PREFIX: &'static str = "d2";

/// Where the part of the generator that defines the corpus begins.
pub const CORPUS_BEGIN: &'static str = "// dataset-version:begin";

/// Where that part ends.
pub const CORPUS_END: &'static str = "// dataset-version:end";

/// A value of the workload definition.
#[derive(Debug)]
pub enum Toml {
    Table(Vec<(String, Toml)>),
    Array(Vec<Toml>),
    Text(String),
    Integer(i64),
    /// A float, as it is shown.
    Float(String),
    Boolean(bool),
    /// A point in time, as it is shown.
    Datetime(String),
}

/// The path of a child.
pub open spec fn child_path(path: Seq<char>, key: Seq<char>) -> Seq<char> {
    if path.len() == 0 {
        key
    } else {
        path + "."@ + key
    }
}

fn child(path: &str, key: &str) -> (r: String)
    ensures
        r@ == child_path(path@, key@),
{
    if path.is_empty() {
        key.to_owned()
    } else {
        cat3(path, ".", key)
    }
}

pub open spec fn boolean_text(b: bool) -> Seq<char> {
    if b {
        "true"@
    } else {
        "false"@
    }
}

/// One line of the canonical form: a path, a sort, a value.
pub open spec fn leaf(path: Seq<char>, sort: Seq<char>, value: Seq<char>) -> Seq<char> {
    path + sort + value + "\n"@
}

/// The lines of a value's canonical form, or why it has none.
pub open spec fn flat(path: Seq<char>, v: Toml) -> Result<Seq<Seq<char>>, Seq<char>>
    decreases v, 1int, 0int,
{
    match v {
        Toml::Table(fields) => flat_fields(path, v, fields@.len()),
        Toml::Array(items) => flat_items(path, v, items@.len()),
        Toml::Text(s) => if occurs(s@, "\t"@) || occurs(s@, "\n"@) {
            Err(
                "workload.toml: "@ + path
                    + " contains a tab or newline, which the canonical form uses as separators"@,
            )
        } else {
            Ok(seq![leaf(path, "\ts\t"@, s@)])
        },
        Toml::Integer(n) => Ok(seq![leaf(path, "\ti\t"@, decimal_int(n as int))]),
        Toml::Float(shown) => Ok(seq![leaf(path, "\tf\t"@, shown@)]),
        Toml::Boolean(b) => Ok(seq![leaf(path, "\tb\t"@, boolean_text(b))]),
        Toml::Datetime(shown) => Err(
            "workload.toml: "@ + path + " is a datetime ("@ + shown@
                + "); the canonical form has no rendering for one, and a corpus keyed on wall-clock time would not be reproducible"@,
        ),
    }
}

/// The lines of the first `n` fields of a table.
pub open spec fn flat_fields(path: Seq<char>, v: Toml, n: nat) -> Result<Seq<Seq<char>>, Seq<char>>
    decreases v, 0int, n,
{
    match v {
        Toml::Table(fields) => if n == 0 || n > fields@.len() {
            Ok(seq![])
        } else {
            match flat_fields(path, v, (n - 1) as nat) {
                Err(e) => Err(e),
                Ok(sofar) => match flat(
                    child_path(path, fields@[n - 1].0@),
                    fields@[n - 1].1,
                ) {
                    Err(e) => Err(e),
                    Ok(more) => Ok(sofar + more),
                },
            }
        },
        _ => Ok(seq![]),
    }
}

/// The lines of the first `n` items of an array.
pub open spec fn flat_items(path: Seq<char>, v: Toml, n: nat) -> Result<Seq<Seq<char>>, Seq<char>>
    decreases v, 0int, n,
{
    match v {
        Toml::Array(items) => if n == 0 || n > items@.len() {
            Ok(seq![])
        } else {
            match flat_items(path, v, (n - 1) as nat) {
                Err(e) => Err(e),
                Ok(sofar) => match flat(
                    child_path(path, decimal((n - 1) as nat)),
                    items@[n - 1],
                ) {
                    Err(e) => Err(e),
                    Ok(more) => Ok(sofar + more),
                },
            }
        },
        _ => Ok(seq![]),
    }
}

proof fn lemma_fields_refusal(path: Seq<char>, v: Toml, n: nat, total: nat)
    requires
        v is Table,
        n <= total <= v->Table_0@.len(),
        flat_fields(path, v, n) is Err,
    ensures
        flat_fields(path, v, total) == flat_fields(path, v, n),
    decreases total,
{
    if n < total {
        lemma_fields_refusal(path, v, n, (total - 1) as nat);
    }
}

proof fn lemma_items_refusal(path: Seq<char>, v: Toml, n: nat, total: nat)
    requires
        v is Array,
        n <= total <= v->Array_0@.len(),
        flat_items(path, v, n) is Err,
    ensures
        flat_items(path, v, total) == flat_items(path, v, n),
    decreases total,
{
    if n < total {
        lemma_items_refusal(path, v, n, (total - 1) as nat);
    }
}

fn one_line(path: &str, sort: &str, value: &str) -> (r: Vec<String>)
    ensures
        texts(r@) == seq![leaf(path@, sort@, value@)],
{
    let mut out: Vec<String> = Vec::new();
    note(&mut out, cat4(path, sort, value, "\n"));
    proof {
        assert(texts(out@) =~= seq![leaf(path@, sort@, value@)]);
    }
    out
}

/// The lines of a value's canonical form.
pub fn flatten_toml(path: &str, v: &Toml) -> (r: Result<Vec<String>, String>)
    ensures
        match r {
            Ok(out) => flat(path@, *v) == Ok::<Seq<Seq<char>>, Seq<char>>(texts(out@)),
            Err(e) => flat(path@, *v) == Err::<Seq<Seq<char>>, Seq<char>>(e@),
        },
    decreases v,
{
    match v {
        Toml::Table(fields) => {
            let mut out: Vec<String> = Vec::new();
            let mut i: usize = 0;
            proof {
                assert(texts(out@) =~= seq![]);
            }
            while i < fields.len()
                invariant
                    *v is Table,
                    v->Table_0 == *fields,
                    i <= fields@.len(),
                    flat_fields(path@, *v, i as nat) == Ok::<Seq<Seq<char>>, Seq<char>>(
                        texts(out@),
                    ),
                decreases fields@.len() - i,
            {
                let key = child(path, fields[i].0.as_str());
                match flatten_toml(key.as_str(), &fields[i].1) {
                    Ok(more) => {
                        note_all(&mut out, &more);
                    },
                    Err(e) => {
                        proof {
                            lemma_fields_refusal(path@, *v, (i + 1) as nat, fields@.len());
                        }
                        return Err(e);
                    },
                }
                i += 1;
            }
            Ok(out)
        },
        Toml::Array(items) => {
            let mut out: Vec<String> = Vec::new();
            let mut i: usize = 0;
            proof {
                assert(texts(out@) =~= seq![]);
            }
            while i < items.len()
                invariant
                    *v is Array,
                    v->Array_0 == *items,
                    i <= items@.len(),
                    flat_items(path@, *v, i as nat) == Ok::<Seq<Seq<char>>, Seq<char>>(
                        texts(out@),
                    ),
                decreases items@.len() - i,
            {
                let key = child(path, dec(i as u128).as_str());
                match flatten_toml(key.as_str(), &items[i]) {
                    Ok(more) => {
                        note_all(&mut out, &more);
                    },
                    Err(e) => {
                        proof {
                            lemma_items_refusal(path@, *v, (i + 1) as nat, items@.len());
                        }
                        return Err(e);
                    },
                }
                i += 1;
            }
            Ok(out)
        },
        Toml::Text(s) => {
            if contains(s.as_str(), "\t") || contains(s.as_str(), "\n") {
                return Err(
                    cat3(
                        "workload.toml: ",
                        path,
                        " contains a tab or newline, which the canonical form uses as separators",
                    ),
                );
            }
            Ok(one_line(path, "\ts\t", s.as_str()))
        },
        Toml::Integer(n) => Ok(one_line(path, "\ti\t", dec_int(*n as i128).as_str())),
        Toml::Float(shown) => Ok(one_line(path, "\tf\t", shown.as_str())),
        Toml::Boolean(b) => Ok(
            one_line(
                path,
                "\tb\t",
                if *b {
                    "true"
                } else {
                    "false"
                },
            ),
        ),
        Toml::Datetime(shown) => Err(
            cat5(
                "workload.toml: ",
                path,
                " is a datetime (",
                shown.as_str(),
                "); the canonical form has no rendering for one, and a corpus keyed on wall-clock time would not be reproducible",
            ),
        ),
    }
}

/// The canonical form of the workload definition: its lines, in order.
pub open spec fn canonical(v: Toml) -> Result<Seq<char>, Seq<char>> {
    match flat(""@, v) {
        Ok(all) => Ok(joined(in_order(all, all.len()), ""@)),
        Err(e) => Err(e),
    }
}

/// The canonical form of a workload definition.
pub fn canonical_toml(v: &Toml) -> (r: Result<String, String>)
    ensures
        match r {
            Ok(s) => canonical(*v) == Ok::<Seq<char>, Seq<char>>(s@),
            Err(e) => canonical(*v) == Err::<Seq<char>, Seq<char>>(e@),
        },
{
    match flatten_toml("", v) {
        Ok(all) => {
            proof {
                assert(texts(all@).len() == all@.len());
            }
            Ok(join(&sort_texts(&all), ""))
        },
        Err(e) => Err(e),
    }
}

/// The words of a text, one space apart.
pub open spec fn collapsed(s: Seq<char>) -> Seq<char> {
    joined(words_of(s), " "@)
}

/// The words of a text, one space apart.
pub fn collapse_whitespace(s: &str) -> (r: String)
    ensures
        r@ == collapsed(s@),
{
    join(&words(s), " ")
}

/// A script without its comments and its layout.
pub open spec fn plain_sql(src: Seq<char>) -> Seq<char> {
    collapsed(joined(uncommented(lines_of(src)), "\n"@))
}

/// A script without its comments and its layout.
pub fn normalise_sql(src: &str) -> (r: String)
    ensures
        r@ == plain_sql(src@),
{
    let all = lines(src);
    let mut code: Vec<String> = Vec::new();
    let mut i: usize = 0;
    proof {
        assert(texts(code@) =~= uncommented(texts(all@)).take(0));
    }
    while i < all.len()
        invariant
            i <= all@.len(),
            texts(code@) == uncommented(texts(all@)).take(i as int),
        decreases all@.len() - i,
    {
        note(&mut code, cut_at(all[i].as_str(), "--"));
        i += 1;
        proof {
            assert(texts(code@) =~= uncommented(texts(all@)).take(i as int));
        }
    }
    proof {
        assert(uncommented(texts(all@)).take(i as int) =~= uncommented(texts(all@)));
    }
    collapse_whitespace(join(&code, "\n").as_str())
}

/// Where the code of a line ends, read from `i` on, and whether its quotes balance.
/// Inside a string `//` opens no comment, and a backslash hides what follows it.
pub open spec fn code_end(line: Seq<char>, i: int, in_string: bool) -> (int, bool)
    decreases line.len() - i,
{
    if i < 0 || i >= line.len() {
        (line.len() as int, !in_string)
    } else if line[i] == '\\' && in_string {
        if i + 1 >= line.len() {
            (line.len() as int, !in_string)
        } else {
            code_end(line, i + 2, in_string)
        }
    } else if line[i] == '"' {
        code_end(line, i + 1, !in_string)
    } else if line[i] == '/' && !in_string && i + 1 < line.len() && line[i + 1] == '/' {
        (i, true)
    } else {
        code_end(line, i + 1, in_string)
    }
}

/// The code of a line, and whether its quotes balance.
pub fn strip_rust_line_comment(line: &str) -> (r: (String, bool))
    ensures
        ({
            let (end, balanced) = code_end(line@, 0, false);
            0 <= end <= line@.len() && r.0@ == line@.take(end) && r.1 == balanced
        }),
{
    let chars = chars_of(line);
    let mut in_string: bool = false;
    let mut i: usize = 0;
    while i < chars.len()
        invariant
            chars@ == line@,
            i <= chars@.len(),
            code_end(line@, 0, false) == code_end(line@, i as int, in_string),
        decreases chars@.len() - i,
    {
        let c: char = chars[i];
        if c == '\\' && in_string {
            if i + 1 >= chars.len() {
                i += 1;
            } else {
                i += 2;
            }
        } else if c == '"' {
            in_string = !in_string;
            i += 1;
        } else if c == '/' && !in_string && i + 1 < chars.len() && chars[i + 1] == '/' {
            proof {
                assert(line@.subrange(0, i as int) =~= line@.take(i as int));
            }
            return (piece(chars.as_slice(), 0, i), true);
        } else {
            i += 1;
        }
    }
    proof {
        assert(line@.subrange(0, line@.len() as int) =~= line@.take(line@.len() as int));
    }
    (piece(chars.as_slice(), 0, chars.len()), !in_string)
}

/// The code of the first `n` lines, one to a line; or the first line whose quotes do
/// not balance.
pub open spec fn code_lines(all: Seq<Seq<char>>, n: nat) -> Result<Seq<char>, Seq<char>>
    decreases n,
{
    if n == 0 {
        Ok(seq![])
    } else {
        match code_lines(all, (n - 1) as nat) {
            Err(e) => Err(e),
            Ok(sofar) => {
                let (end, balanced) = code_end(all[n - 1], 0, false);
                if balanced {
                    Ok(sofar + all[n - 1].take(end) + "\n"@)
                } else {
                    Err(
                        "the dataset-version region of corpus.rs has unbalanced `\"` on "@
                            + debug_quoted(all[n - 1])
                            + "; the normaliser cannot tell code from comment there"@,
                    )
                }
            },
        }
    }
}

proof fn lemma_code_refusal(all: Seq<Seq<char>>, n: nat, total: nat)
    requires
        n <= total,
        code_lines(all, n) is Err,
    ensures
        code_lines(all, total) == code_lines(all, n),
    decreases total,
{
    if n < total {
        lemma_code_refusal(all, n, (total - 1) as nat);
    }
}

/// A source without its line comments and its layout; or why that cannot be told.
pub open spec fn plain_rust(src: Seq<char>) -> Result<Seq<char>, Seq<char>> {
    if occurs(src, "/*"@) {
        Err(
            "the dataset-version region of corpus.rs must not use block comments; this normaliser only strips `//` line comments"@,
        )
    } else {
        match code_lines(lines_of(src), lines_of(src).len()) {
            Ok(code) => Ok(collapsed(code)),
            Err(e) => Err(e),
        }
    }
}

/// A source without its line comments and its layout.
pub fn normalise_rust(src: &str) -> (r: Result<String, String>)
    ensures
        match r {
            Ok(s) => plain_rust(src@) == Ok::<Seq<char>, Seq<char>>(s@),
            Err(e) => plain_rust(src@) == Err::<Seq<char>, Seq<char>>(e@),
        },
{
    if contains(src, "/*") {
        return Err(
            "the dataset-version region of corpus.rs must not use block comments; this normaliser only strips `//` line comments".to_owned(),
        );
    }
    let all = lines(src);
    let ghost views = lines_of(src@);
    let mut out = String::new();
    let mut i: usize = 0;
    proof {
        assert(out@ =~= seq![]);
        assert(views.len() == all@.len());
    }
    while i < all.len()
        invariant
            !occurs(src@, "/*"@),
            texts(all@) == views,
            views == lines_of(src@),
            views.len() == all@.len(),
            i <= all@.len(),
            code_lines(views, i as nat) == Ok::<Seq<char>, Seq<char>>(out@),
        decreases all@.len() - i,
    {
        proof {
            assert(views[i as int] == all@[i as int]@);
        }
        let (code, balanced) = strip_rust_line_comment(all[i].as_str());
        if !balanced {
            proof {
                lemma_code_refusal(views, (i + 1) as nat, views.len());
            }
            return Err(
                cat3(
                    "the dataset-version region of corpus.rs has unbalanced `\"` on ",
                    quoted(all[i].as_str()).as_str(),
                    "; the normaliser cannot tell code from comment there",
                ),
            );
        }
        out.push_str(code.as_str());
        out.push_str("\n");
        i += 1;
    }
    Ok(collapse_whitespace(out.as_str()))
}

/// The first place of `pat` in `s` from `i` on, or the length of `s`.
pub open spec fn place_of(s: Seq<char>, pat: Seq<char>, i: int) -> int
    decreases s.len() - i,
{
    if i < 0 || i >= s.len() || stands_at(s, i, pat) {
        i
    } else {
        place_of(s, pat, i + 1)
    }
}

/// How often `pat` stands in `s` from `i` on, without overlap.
pub open spec fn count_of(s: Seq<char>, pat: Seq<char>, i: int) -> nat
    decreases s.len() - i,
{
    if i < 0 || i >= s.len() || pat.len() == 0 {
        0
    } else if stands_at(s, i, pat) {
        if i + pat.len() >= s.len() {
            1
        } else {
            1 + count_of(s, pat, i + pat.len())
        }
    } else {
        count_of(s, pat, i + 1)
    }
}

/// The first place of a marker, and how often it stands.
fn locate(chars: &Vec<char>, pat: &Vec<char>) -> (r: (usize, usize))
    requires
        pat@.len() > 0,
    ensures
        r.0 == place_of(chars@, pat@, 0),
        r.0 <= chars@.len(),
        r.1 == count_of(chars@, pat@, 0),
        r.1 > 0 ==> stands_at(chars@, r.0 as int, pat@),
{
    let mut first: usize = 0;
    while first < chars.len() && !matches_at(chars, first, pat)
        invariant
            pat@.len() > 0,
            first <= chars@.len(),
            place_of(chars@, pat@, 0) == place_of(chars@, pat@, first as int),
            count_of(chars@, pat@, 0) == count_of(chars@, pat@, first as int),
        decreases chars@.len() - first,
    {
        first += 1;
    }
    let mut n: usize = 0;
    let mut i: usize = first;
    while i < chars.len()
        invariant
            pat@.len() > 0,
            first <= i <= chars@.len(),
            n <= i,
            count_of(chars@, pat@, 0) == n + count_of(chars@, pat@, i as int),
        decreases chars@.len() - i,
    {
        if matches_at(chars, i, pat) {
            n += 1;
            i += pat.len();
        } else {
            i += 1;
        }
    }
    (first, n)
}

/// The part of the generator between its two markers, or why there is none.
pub open spec fn region_of_source(src: Seq<char>) -> Result<Seq<char>, Seq<char>> {
    let begin = place_of(src, CORPUS_BEGIN@, 0) + CORPUS_BEGIN@.len();
    let end = place_of(src, CORPUS_END@, 0);
    if count_of(src, CORPUS_BEGIN@, 0) != 1 {
        Err("corpus.rs must carry exactly one "@ + CORPUS_BEGIN@ + " marker"@)
    } else if count_of(src, CORPUS_END@, 0) != 1 {
        Err("corpus.rs must carry exactly one "@ + CORPUS_END@ + " marker"@)
    } else if begin >= end {
        Err("corpus.rs closes the dataset-version region before it opens it"@)
    } else if encode_utf8(src.subrange(begin, end)).len() <= 1000 {
        Err(
            "the dataset-version region of corpus.rs is "@ + decimal(
                encode_utf8(src.subrange(begin, end)).len(),
            )
                + " bytes, which is too little to be the generator — a marker has probably been moved"@,
        )
    } else {
        Ok(src.subrange(begin, end))
    }
}

/// The part of the generator between its two markers.
pub fn corpus_region(src: &str) -> (r: Result<String, String>)
    ensures
        match r {
            Ok(s) => region_of_source(src@) == Ok::<Seq<char>, Seq<char>>(s@),
            Err(e) => region_of_source(src@) == Err::<Seq<char>, Seq<char>>(e@),
        },
{
    let chars = chars_of(src);
    let open = chars_of(CORPUS_BEGIN);
    let close = chars_of(CORPUS_END);
    proof {
        reveal_strlit("// dataset-version:begin");
        reveal_strlit("// dataset-version:end");
    }
    let (at, opens) = locate(&chars, &open);
    if opens != 1 {
        return Err(cat3("corpus.rs must carry exactly one ", CORPUS_BEGIN, " marker"));
    }
    let (end, closes) = locate(&chars, &close);
    if closes != 1 {
        return Err(cat3("corpus.rs must carry exactly one ", CORPUS_END, " marker"));
    }
    proof {
        assert(stands_at(chars@, at as int, open@));
        assert(at + open@.len() <= chars.len());
    }
    let begin: usize = at + open.len();
    if begin >= end {
        return Err("corpus.rs closes the dataset-version region before it opens it".to_owned());
    }
    let region = piece(chars.as_slice(), begin, end);
    let size: usize = region.as_str().as_bytes().len();
    if size <= 1000 {
        return Err(
            cat3(
                "the dataset-version region of corpus.rs is ",
                dec(size as u128).as_str(),
                " bytes, which is too little to be the generator — a marker has probably been moved",
            ),
        );
    }
    Ok(region)
}

/// The eight bytes of a length, least significant first.
pub open spec fn length_bytes(n: u64) -> Seq<u8> {
    Seq::new(8, |i: int| length_byte(n, i))
}

/// Byte `i` of a length.
pub open spec fn length_byte(n: u64, i: int) -> u8 {
    if i == 0 {
        (n % 0x100) as u8
    } else if i == 1 {
        (n / 0x100 % 0x100) as u8
    } else if i == 2 {
        (n / 0x1_0000 % 0x100) as u8
    } else if i == 3 {
        (n / 0x100_0000 % 0x100) as u8
    } else if i == 4 {
        (n / 0x1_0000_0000 % 0x100) as u8
    } else if i == 5 {
        (n / 0x100_0000_0000 % 0x100) as u8
    } else if i == 6 {
        (n / 0x1_0000_0000_0000 % 0x100) as u8
    } else {
        (n / 0x100_0000_0000_0000) as u8
    }
}

/// One labelled input of the digest: its label, a zero, its length, its bytes.
pub open spec fn absorbed(label: Seq<char>, bytes: Seq<u8>) -> Seq<u8> {
    encode_utf8(label) + seq![0u8] + length_bytes(bytes.len() as u64) + bytes
}

fn absorb(out: &mut Vec<u8>, label: &str, text: &str)
    ensures
        final(out)@ == old(out)@ + absorbed(label@, encode_utf8(text@)),
{
    let bytes = text.as_bytes();
    let n: u64 = bytes.len() as u64;
    let ghost start = out@;
    out.extend_from_slice(label.as_bytes());
    out.push(0);
    let ghost head = out@;
    out.push((n % 0x100) as u8);
    out.push((n / 0x100 % 0x100) as u8);
    out.push((n / 0x1_0000 % 0x100) as u8);
    out.push((n / 0x100_0000 % 0x100) as u8);
    out.push((n / 0x1_0000_0000 % 0x100) as u8);
    out.push((n / 0x100_0000_0000 % 0x100) as u8);
    out.push((n / 0x1_0000_0000_0000 % 0x100) as u8);
    out.push((n / 0x100_0000_0000_0000) as u8);
    proof {
        assert(out@ =~= head + length_bytes(n));
    }
    out.extend_from_slice(bytes);
    proof {
        assert(out@ =~= start + absorbed(label@, encode_utf8(text@)));
    }
}

/// What the version is a digest of.
pub open spec fn preimage(
    workload: Seq<char>,
    schema: Seq<char>,
    ddl: Seq<char>,
    code: Seq<char>,
) -> Seq<u8> {
    absorbed("workload.toml"@, encode_utf8(workload)) + absorbed(
        "sensor_batch.avsc"@,
        encode_utf8(schema),
    ) + absorbed("clickhouse/ddl.sql"@, encode_utf8(ddl)) + absorbed(
        "corpus.rs"@,
        encode_utf8(code),
    )
}

/// The version of a corpus, or why one of the files that define it has none.
pub open spec fn version_of(
    workload: Toml,
    schema: Seq<char>,
    ddl: Seq<char>,
    source: Seq<char>,
) -> Result<Seq<char>, Seq<char>> {
    match canonical(workload) {
        Err(e) => Err(e),
        Ok(w) => match region_of_source(source) {
            Err(e) => Err(e),
            Ok(region) => match plain_rust(region) {
                Err(e) => Err(e),
                Ok(code) => Ok(
                    DATASET_PREFIX@ + "-"@ + hex_text(
                        sha256_of(preimage(w, schema, plain_sql(ddl), code)),
                        6,
                    ),
                ),
            },
        },
    }
}

/// The version of the corpus that these files define.
pub fn dataset_version(workload: &Toml, schema: &str, ddl: &str, source: &str) -> (r: Result<
    String,
    String,
>)
    ensures
        match r {
            Ok(v) => version_of(*workload, schema@, ddl@, source@) == Ok::<Seq<char>, Seq<char>>(
                v@,
            ),
            Err(e) => version_of(*workload, schema@, ddl@, source@) == Err::<
                Seq<char>,
                Seq<char>,
            >(e@),
        },
{
    let canonical = match canonical_toml(workload) {
        Ok(s) => s,
        Err(e) => return Err(e),
    };
    let region = match corpus_region(source) {
        Ok(s) => s,
        Err(e) => return Err(e),
    };
    let code = match normalise_rust(region.as_str()) {
        Ok(s) => s,
        Err(e) => return Err(e),
    };
    let mut bytes: Vec<u8> = Vec::new();
    absorb(&mut bytes, "workload.toml", canonical.as_str());
    absorb(&mut bytes, "sensor_batch.avsc", schema);
    absorb(&mut bytes, "clickhouse/ddl.sql", normalise_sql(ddl).as_str());
    absorb(&mut bytes, "corpus.rs", code.as_str());
    proof {
        assert(bytes@ =~= preimage(canonical@, schema@, plain_sql(ddl@), code@));
    }
    Ok(cat3(DATASET_PREFIX, "-", short_digest(bytes.as_slice()).as_str()))
}

proof fn lemma_length_bytes_injective(m: u64, n: u64)
    requires
        length_bytes(m) == length_bytes(n),
    ensures
        m == n,
{
    let (a, b) = (length_bytes(m), length_bytes(n));
    assert(a[0] == b[0] && a[1] == b[1] && a[2] == b[2] && a[3] == b[3] && a[4] == b[4] && a[5]
        == b[5] && a[6] == b[6] && a[7] == b[7]);
    assert(m / 0x100_0000_0000_0000 < 0x100 && n / 0x100_0000_0000_0000 < 0x100);
    assert(m == n) by (bit_vector)
        requires
            m % 0x100 == n % 0x100,
            m / 0x100 % 0x100 == n / 0x100 % 0x100,
            m / 0x1_0000 % 0x100 == n / 0x1_0000 % 0x100,
            m / 0x100_0000 % 0x100 == n / 0x100_0000 % 0x100,
            m / 0x1_0000_0000 % 0x100 == n / 0x1_0000_0000 % 0x100,
            m / 0x100_0000_0000 % 0x100 == n / 0x100_0000_0000 % 0x100,
            m / 0x1_0000_0000_0000 % 0x100 == n / 0x1_0000_0000_0000 % 0x100,
            m / 0x100_0000_0000_0000 == n / 0x100_0000_0000_0000,
    ;
}

/// An input that is followed by anything can be told from any other.
proof fn lemma_absorbed_cut(label: Seq<char>, x: Seq<u8>, y: Seq<u8>, r: Seq<u8>, s: Seq<u8>)
    requires
        x.len() <= u64::MAX,
        y.len() <= u64::MAX,
        absorbed(label, x) + r == absorbed(label, y) + s,
    ensures
        x == y,
        r == s,
{
    let tag = encode_utf8(label) + seq![0u8];
    let t = tag.len() as int;
    let (u, v) = (absorbed(label, x) + r, absorbed(label, y) + s);
    assert(u.subrange(t, t + 8) =~= length_bytes(x.len() as u64));
    assert(v.subrange(t, t + 8) =~= length_bytes(y.len() as u64));
    lemma_length_bytes_injective(x.len() as u64, y.len() as u64);
    assert(u.subrange(t + 8, t + 8 + x.len()) =~= x);
    assert(v.subrange(t + 8, t + 8 + y.len()) =~= y);
    assert(u.skip(t + 8 + x.len()) =~= r);
    assert(v.skip(t + 8 + y.len()) =~= s);
}

/// Whatever differs in what defines a corpus differs in what its version digests: the
/// four inputs are framed, so none can pass for part of another.
pub proof fn law_inputs_are_framed(a: [Seq<char>; 4], b: [Seq<char>; 4])
    requires
        forall|i: int| 0 <= i < 4 ==> encode_utf8(#[trigger] a[i]).len() <= u64::MAX,
        forall|i: int| 0 <= i < 4 ==> encode_utf8(#[trigger] b[i]).len() <= u64::MAX,
        preimage(a[0], a[1], a[2], a[3]) == preimage(b[0], b[1], b[2], b[3]),
    ensures
        forall|i: int| 0 <= i < 4 ==> #[trigger] a[i] == b[i],
{
    let (a1, b1) = (encode_utf8(a[0]), encode_utf8(b[0]));
    let (a2, b2) = (encode_utf8(a[1]), encode_utf8(b[1]));
    let (a3, b3) = (encode_utf8(a[2]), encode_utf8(b[2]));
    let (a4, b4) = (encode_utf8(a[3]), encode_utf8(b[3]));
    let (x4, y4) = (absorbed("corpus.rs"@, a4), absorbed("corpus.rs"@, b4));
    let (x3, y3) = (
        absorbed("clickhouse/ddl.sql"@, a3) + x4,
        absorbed("clickhouse/ddl.sql"@, b3) + y4,
    );
    let (x2, y2) = (
        absorbed("sensor_batch.avsc"@, a2) + x3,
        absorbed("sensor_batch.avsc"@, b2) + y3,
    );
    assert(preimage(a[0], a[1], a[2], a[3]) =~= absorbed("workload.toml"@, a1) + x2);
    assert(preimage(b[0], b[1], b[2], b[3]) =~= absorbed("workload.toml"@, b1) + y2);
    lemma_absorbed_cut("workload.toml"@, a1, b1, x2, y2);
    lemma_absorbed_cut("sensor_batch.avsc"@, a2, b2, x3, y3);
    lemma_absorbed_cut("clickhouse/ddl.sql"@, a3, b3, x4, y4);
    assert(x4 =~= x4 + Seq::<u8>::empty());
    assert(y4 =~= y4 + Seq::<u8>::empty());
    lemma_absorbed_cut("corpus.rs"@, a4, b4, Seq::empty(), Seq::empty());
    lemma_same_bytes(a[0], b[0]);
    lemma_same_bytes(a[1], b[1]);
    lemma_same_bytes(a[2], b[2]);
    lemma_same_bytes(a[3], b[3]);
}

/// A comment behind the code of a line of SQL is free: the line counts as its code.
pub proof fn law_sql_comment_is_free(code: Seq<char>, comment: Seq<char>)
    requires
        !occurs(code, "--"@),
        code.len() > 0 ==> code.last() != '-',
    ensures
        before(code + "--"@ + comment, "--"@) == code,
    decreases code.len(),
{
    reveal_strlit("--");
    let s = code + "--"@ + comment;
    if code.len() == 0 {
        assert(s.take(2) =~= "--"@);
        assert(before(s, "--"@) =~= code);
    } else {
        let rest = code.skip(1);
        assert(s.skip(1) =~= rest + "--"@ + comment);
        assert(!begins(s, "--"@)) by {
            if begins(s, "--"@) {
                assert(s.take(2)[0] == '-' && s.take(2)[1] == '-');
                if code.len() >= 2 {
                    assert(code.subrange(0, 2) =~= "--"@);
                    assert(stands_at(code, 0, "--"@));
                } else {
                    assert(code.last() == code[0]);
                }
            }
        }
        assert(!occurs(rest, "--"@)) by {
            if occurs(rest, "--"@) {
                let i = choose|i: int| stands_at(rest, i, "--"@);
                assert(code.subrange(i + 1, i + 3) =~= rest.subrange(i, i + 2));
                assert(stands_at(code, i + 1, "--"@));
            }
        }
        if rest.len() > 0 {
            assert(rest.last() == code.last());
        }
        law_sql_comment_is_free(rest, comment);
        assert(before(s, "--"@) =~= seq![code[0]] + rest);
        assert(seq![code[0]] + rest =~= code);
    }
}

/// A length is read back from its eight bytes, the least significant first.
pub proof fn law_length_reads_back(n: u64)
    ensures
        ({
            let b = length_bytes(n);
            &&& b.len() == 8
            &&& b[0] as int + 0x100 * b[1] as int + 0x1_0000 * b[2] as int + 0x100_0000 * b[3] as int
                + 0x1_0000_0000 * b[4] as int + 0x100_0000_0000 * b[5] as int + 0x1_0000_0000_0000
                * b[6] as int + 0x100_0000_0000_0000 * b[7] as int == n
        }),
{
    let b = length_bytes(n);
    assert(b[0] == (n % 0x100) as u8 && b[1] == (n / 0x100 % 0x100) as u8);
    assert(b[2] == (n / 0x1_0000 % 0x100) as u8 && b[3] == (n / 0x100_0000 % 0x100) as u8);
    assert(b[4] == (n / 0x1_0000_0000 % 0x100) as u8);
    assert(b[5] == (n / 0x100_0000_0000 % 0x100) as u8);
    assert(b[6] == (n / 0x1_0000_0000_0000 % 0x100) as u8);
    assert(b[7] == (n / 0x100_0000_0000_0000) as u8);
    let (n1, n2, n3) = (n as int / 0x100, n as int / 0x1_0000, n as int / 0x100_0000);
    let (n4, n5) = (n as int / 0x1_0000_0000, n as int / 0x100_0000_0000);
    let (n6, n7) = (n as int / 0x1_0000_0000_0000, n as int / 0x100_0000_0000_0000);
    assert(n2 == n1 / 0x100 && n3 == n2 / 0x100 && n4 == n3 / 0x100);
    assert(n5 == n4 / 0x100 && n6 == n5 / 0x100 && n7 == n6 / 0x100);
    assert(n7 < 0x100);
}

/// Each value of a workload definition is one line of its canonical form: its path, its
/// sort and itself.
pub proof fn law_value_is_a_line_of_its_sort(path: Seq<char>, n: i64, b: bool, s: String)
    ensures
        flat(path, Toml::Integer(n)) == Ok::<Seq<Seq<char>>, Seq<char>>(
            seq![path + "\ti\t"@ + decimal_int(n as int) + "\n"@],
        ),
        flat(path, Toml::Boolean(b)) == Ok::<Seq<Seq<char>>, Seq<char>>(
            seq![
                path + "\tb\t"@ + (if b {
                    "true"@
                } else {
                    "false"@
                }) + "\n"@,
            ],
        ),
        flat(path, Toml::Float(s)) == Ok::<Seq<Seq<char>>, Seq<char>>(
            seq![path + "\tf\t"@ + s@ + "\n"@],
        ),
        flat(path, Toml::Datetime(s)) is Err,
        !occurs(s@, "\t"@) && !occurs(s@, "\n"@) ==> flat(path, Toml::Text(s)) == Ok::<
            Seq<Seq<char>>,
            Seq<char>,
        >(seq![path + "\ts\t"@ + s@ + "\n"@]),
        occurs(s@, "\t"@) || occurs(s@, "\n"@) ==> flat(path, Toml::Text(s)) is Err,
{
}

proof fn lemma_words_joined(ws: Seq<Seq<char>>)
    requires
        forall|i: int| 0 <= i < ws.len() ==> (#[trigger] ws[i]).len() > 0,
        forall|i: int, k: int|
            0 <= i < ws.len() && 0 <= k < ws[i].len() ==> !is_space(#[trigger] ws[i][k]),
    ensures
        words_of(joined(ws, seq![' '])) == ws,
    decreases ws.len(),
{
    let sep = seq![' '];
    if ws.len() == 0 {
        let w = seq!['x'];
        law_words_are_runs(w, ' ', seq![]);
        assert(ws =~= seq![]);
    } else {
        let (p, rest) = (ws[0], ws.skip(1));
        assert(p.len() > 0);
        assert forall|k: int| 0 <= k < p.len() implies !is_space(#[trigger] p[k]) by {
            assert(!is_space(ws[0][k]));
        }
        assert(is_space(' '));
        assert(ws =~= seq![p] + rest);
        if rest.len() == 0 {
            law_words_are_runs(p, ' ', seq![]);
        } else {
            assert forall|i: int| 0 <= i < rest.len() implies (#[trigger] rest[i]).len() > 0 by {
                assert(ws[i + 1].len() > 0);
            }
            assert forall|i: int, k: int| 0 <= i < rest.len() && 0 <= k < rest[i].len() implies
                !is_space(#[trigger] rest[i][k]) by {
                assert(!is_space(ws[i + 1][k]));
            }
            lemma_words_joined(rest);
            lemma_joined_first(p, rest, sep);
            law_words_are_runs(p, ' ', joined(rest, sep));
        }
    }
}

proof fn lemma_words_plain(s: Seq<char>)
    ensures
        forall|i: int| 0 <= i < words_of(s).len() ==> (#[trigger] words_of(s)[i]).len() > 0,
        forall|i: int, k: int|
            0 <= i < words_of(s).len() && 0 <= k < words_of(s)[i].len() ==> !is_space(
                #[trigger] words_of(s)[i][k],
            ),
{
    law_words_hold_no_space(s);
}

/// Collapsing keeps the words and nothing of the layout: the words of the result are the
/// words of the text, and two texts with the same words collapse to the same.
pub proof fn law_collapse_keeps_the_words(s: Seq<char>, t: Seq<char>)
    ensures
        words_of(collapsed(s)) == words_of(s),
        words_of(s) == words_of(t) ==> collapsed(s) == collapsed(t),
        collapsed(collapsed(s)) == collapsed(s),
{
    reveal_strlit(" ");
    assert(" "@ =~= seq![' ']);
    lemma_words_plain(s);
    lemma_words_joined(words_of(s));
}

/// A comment begins at the first `//` that stands in no string, and what stands before it
/// is code.
pub proof fn law_comment_begins_at_its_slashes(pre: Seq<char>, rest: Seq<char>, i: int)
    requires
        0 <= i <= pre.len(),
        forall|k: int| 0 <= k < pre.len() ==> #[trigger] pre[k] != '"' && pre[k] != '/',
    ensures
        code_end(pre + seq!['/', '/'] + rest, i, false) == (pre.len() as int, true),
        code_end(pre, i, false) == (pre.len() as int, true),
    decreases pre.len() - i,
{
    let line = pre + seq!['/', '/'] + rest;
    if i < pre.len() {
        assert(line[i] == pre[i]);
        law_comment_begins_at_its_slashes(pre, rest, i + 1);
    } else {
        assert(line[i] == '/' && line[i + 1] == '/');
    }
}

/// Slashes in a string begin no comment, and a string that is not closed does not balance.
pub proof fn law_string_hides_its_slashes(text: Seq<char>, i: int)
    requires
        1 <= i <= text.len() + 1,
        forall|k: int| 0 <= k < text.len() ==> #[trigger] text[k] != '"' && text[k] != '\\',
    ensures
        code_end(seq!['"'] + text + seq!['"'], i, true) == (text.len() as int + 2, true),
        code_end(seq!['"'] + text, i, true) == (text.len() as int + 1, false),
    decreases text.len() + 1 - i,
{
    let (closed, open) = (seq!['"'] + text + seq!['"'], seq!['"'] + text);
    if i <= text.len() {
        assert(closed[i] == text[i - 1] && open[i] == text[i - 1]);
        law_string_hides_its_slashes(text, i + 1);
    } else {
        assert(closed[i] == '"');
        assert(code_end(closed, i + 1, false) == (closed.len() as int, true));
        assert(code_end(open, i, true) == (open.len() as int, false));
    }
}

/// Each line of a source gives its code and no comment; one whose quotes do not balance is
/// refused.
pub proof fn law_code_is_taken_line_by_line(all: Seq<Seq<char>>, n: nat)
    requires
        n < all.len(),
        code_lines(all, n) is Ok,
    ensures
        ({
            let (end, balanced) = code_end(all[n as int], 0, false);
            &&& balanced ==> code_lines(all, n + 1) == Ok::<Seq<char>, Seq<char>>(
                code_lines(all, n)->Ok_0 + all[n as int].take(end) + "\n"@,
            )
            &&& !balanced ==> code_lines(all, n + 1) is Err
            &&& code_lines(all, 0) == Ok::<Seq<char>, Seq<char>>(seq![])
        }),
{
}

/// The place of a marker is the first at which it stands.
pub proof fn law_marker_is_found_first(s: Seq<char>, pat: Seq<char>, from: int)
    requires
        0 <= from <= s.len(),
    ensures
        from <= place_of(s, pat, from) <= s.len(),
        place_of(s, pat, from) < s.len() ==> stands_at(s, place_of(s, pat, from), pat),
        forall|j: int| from <= j < place_of(s, pat, from) ==> !stands_at(s, j, pat),
    decreases s.len() - from,
{
    if from < s.len() && !stands_at(s, from, pat) {
        law_marker_is_found_first(s, pat, from + 1);
    }
}

/// `region` is what stands in `src` from behind the opening marker at `a` to the closing
/// one at `b`.
pub open spec fn is_between_markers(src: Seq<char>, a: int, b: int, region: Seq<char>) -> bool {
    let begin = a + "// dataset-version:begin"@.len();
    &&& stands_at(src, a, "// dataset-version:begin"@)
    &&& begin < b < src.len() && stands_at(src, b, "// dataset-version:end"@)
    &&& region == src.subrange(begin, b)
}

proof fn lemma_counted_marker(s: Seq<char>, pat: Seq<char>, from: int)
    requires
        pat.len() > 0,
        0 <= from <= s.len(),
        count_of(s, pat, from) > 0,
    ensures
        place_of(s, pat, from) < s.len(),
    decreases s.len() - from,
{
    if from < s.len() && !stands_at(s, from, pat) {
        lemma_counted_marker(s, pat, from + 1);
    }
}

/// The region of a source is what stands between its two markers, which both stand in it,
/// the opening one first.
pub proof fn law_region_stands_between_its_markers(src: Seq<char>)
    requires
        region_of_source(src) is Ok,
    ensures
        exists|a: int, b: int| is_between_markers(src, a, b, region_of_source(src)->Ok_0),
        encode_utf8(region_of_source(src)->Ok_0).len() > 1000,
{
    law_marker_is_found_first(src, CORPUS_BEGIN@, 0);
    law_marker_is_found_first(src, CORPUS_END@, 0);
    let (a, b) = (place_of(src, CORPUS_BEGIN@, 0), place_of(src, CORPUS_END@, 0));
    reveal_strlit("// dataset-version:begin");
    reveal_strlit("// dataset-version:end");
    lemma_counted_marker(src, CORPUS_BEGIN@, 0);
    lemma_counted_marker(src, CORPUS_END@, 0);
    assert(is_between_markers(src, a, b, region_of_source(src)->Ok_0));
}

/// A version is the derivation's prefix and twelve hexadecimal digits.
pub proof fn law_version_names_its_derivation(
    workload: Toml,
    schema: Seq<char>,
    ddl: Seq<char>,
    source: Seq<char>,
)
    requires
        version_of(workload, schema, ddl, source) is Ok,
    ensures
        canonical(workload) is Ok,
        region_of_source(source) is Ok,
        plain_rust(region_of_source(source)->Ok_0) is Ok,
        version_of(workload, schema, ddl, source)->Ok_0 == "d2"@ + "-"@ + hex_text(
            sha256_of(
                preimage(
                    canonical(workload)->Ok_0,
                    schema,
                    plain_sql(ddl),
                    plain_rust(region_of_source(source)->Ok_0)->Ok_0,
                ),
            ),
            6,
        ),
{
}

/// A value is known by its path: at the top by its key, below that by its parent's path, a
/// dot and its key. A table gives the lines of its fields in turn, an array those of its
/// items, each under its place.
pub proof fn law_values_are_known_by_path(
    path: Seq<char>,
    key: Seq<char>,
    fields: Vec<(String, Toml)>,
    items: Vec<Toml>,
    n: nat,
)
    requires
        path.len() > 0,
        n < fields@.len(),
        n < items@.len(),
    ensures
        child_path(seq![], key) == key,
        child_path(path, key) == path + seq!['.'] + key,
        ({
            let t = Toml::Table(fields);
            let (k, field) = (fields@[n as int].0@, fields@[n as int].1);
            let mine = flat(path + seq!['.'] + k, field);
            &&& flat_fields(path, t, 0) == Ok::<Seq<Seq<char>>, Seq<char>>(seq![])
            &&& flat_fields(path, t, n + 1) is Ok <==> flat_fields(path, t, n) is Ok && mine is Ok
            &&& flat_fields(path, t, n + 1) is Ok ==> flat_fields(path, t, n + 1)->Ok_0
                == flat_fields(path, t, n)->Ok_0 + mine->Ok_0
            &&& flat(path, t) == flat_fields(path, t, fields@.len())
        }),
        ({
            let a = Toml::Array(items);
            let mine = flat(path + seq!['.'] + decimal(n), items@[n as int]);
            &&& flat_items(path, a, 0) == Ok::<Seq<Seq<char>>, Seq<char>>(seq![])
            &&& flat_items(path, a, n + 1) is Ok <==> flat_items(path, a, n) is Ok && mine is Ok
            &&& flat_items(path, a, n + 1) is Ok ==> flat_items(path, a, n + 1)->Ok_0
                == flat_items(path, a, n)->Ok_0 + mine->Ok_0
            &&& flat(path, a) == flat_items(path, a, items@.len())
        }),
{
    reveal_strlit(".");
    assert("."@ =~= seq!['.']);
    let t = Toml::Table(fields);
    let a = Toml::Array(items);
    reveal_with_fuel(flat_fields, 2);
    reveal_with_fuel(flat_items, 2);
    assert(child_path(path, fields@[n as int].0@) == path + seq!['.'] + fields@[n as int].0@);
    assert(child_path(path, decimal(n)) == path + seq!['.'] + decimal(n));
    assert((n + 1) as nat - 1 == n);
}

/// A point in time has no line, and neither has a text that holds a tab or an end of line.
pub proof fn law_what_has_no_line_is_refused(path: Seq<char>, s: String)
    ensures
        flat(path, Toml::Datetime(s)) is Err,
        flat(path, Toml::Text(s)) is Err <==> occurs(s@, "\t"@) || occurs(s@, "\n"@),
{
}

} // verus!
