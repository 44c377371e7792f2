//! The insert client: the pool of blocks it is handed, the commands it is given,
//! and what it answers.
use vstd::prelude::*;
use vstd::utf8::{encode_utf8, is_ascii_chars, is_ascii_chars_encode_utf8};
use crate::entrant::{debug_quoted, quoted};
use crate::infra::Endpoints;
use crate::reply::{
    law_reply_is_read_number_for_number, leads, leads_with, ok_line, ok_reply, read_ok, reported,
    reported_text, seconds, seconds_text, Client, Seconds,
};
use crate::sampler::NETWORK;
use crate::text::{
    begins, cat2, cat3, cat5, dec, decimal, is_digit, is_space, lemma_decimal_digits, note_each,
    starts_with, texts,
};

verus! {

/// Name of the client's container.
pub const INSERTER_CONTAINER: &'static str = "spate-bench-inserter";

/// Image of the client's container.
pub const INSERTER_IMAGE: &'static str = "python:3.12-alpine";

/// Seconds the client waits for one insert.
pub const POST_TIMEOUT_S: u64 = 120;

/// One block to insert: its bytes, and how many rows they are.
#[derive(Clone, Debug)]
pub struct Block {
    pub body: Vec<u8>,
    pub rows: u64,
}

/// What a rung of inserting measured.
#[derive(Clone, Copy, Debug, PartialEq)]
pub struct RemoteBurst<N> {
    pub rows: u64,
    pub bytes: u64,
    /// Seconds the longest worker took.
    pub elapsed_s: N,
}

/// What a [`Block`] holds.
pub struct BlockView {
    pub body: Seq<u8>,
    pub rows: nat,
}

impl Block {
    pub open spec fn view(&self) -> BlockView {
        BlockView { body: self.body@, rows: self.rows as nat }
    }
}

pub open spec fn block_views(pool: Seq<Block>) -> Seq<BlockView> {
    Seq::new(pool.len(), |i: int| pool[i]@)
}

/// The bytes of an ASCII text.
pub open spec fn ascii_bytes(s: Seq<char>) -> Seq<u8> {
    Seq::new(s.len(), |i: int| s[i] as u8)
}

pub open spec fn pool_header(n: nat) -> Seq<char> {
    "POOL "@ + decimal(n) + "\n"@
}

pub open spec fn block_header(b: BlockView) -> Seq<char> {
    "BLOCK "@ + decimal(b.rows) + " "@ + decimal(b.body.len()) + "\n"@
}

/// The first `n` blocks, each a header line and then exactly the bytes it counts.
pub open spec fn framed_blocks(pool: Seq<BlockView>, n: nat) -> Seq<u8>
    decreases n,
{
    if n == 0 {
        seq![]
    } else {
        framed_blocks(pool, (n - 1) as nat) + ascii_bytes(block_header(pool[n - 1])) + pool[n
            - 1].body
    }
}

/// A pool as the client reads it.
pub open spec fn framed_pool(pool: Seq<BlockView>) -> Seq<u8> {
    ascii_bytes(pool_header(pool.len())) + framed_blocks(pool, pool.len())
}

proof fn lemma_decimal_ascii(n: nat)
    ensures
        is_ascii_chars(decimal(n)),
        forall|i: int| 0 <= i < decimal(n).len() ==> is_digit(#[trigger] decimal(n)[i]),
{
    lemma_decimal_digits(n);
}

fn push_ascii(out: &mut Vec<u8>, s: &str)
    requires
        is_ascii_chars(s@),
    ensures
        final(out)@ == old(out)@ + ascii_bytes(s@),
{
    proof {
        is_ascii_chars_encode_utf8(s@);
        assert(encode_utf8(s@) =~= ascii_bytes(s@));
    }
    out.extend_from_slice(s.as_bytes());
}

/// Hands a pool over: a header line, and for each block a header line and its
/// bytes. The length in the header is what lets a block hold any bytes at all.
pub fn write_pool(out: &mut Vec<u8>, pool: &Vec<Block>)
    ensures
        final(out)@ == old(out)@ + framed_pool(block_views(pool@)),
{
    let ghost start = out@;
    let ghost views = block_views(pool@);
    proof {
        lemma_decimal_ascii(pool@.len());
        reveal_strlit("POOL ");
        reveal_strlit("BLOCK ");
        reveal_strlit(" ");
        reveal_strlit("\n");
        assert(is_ascii_chars(pool_header(pool@.len())));
    }
    let header = cat3("POOL ", dec(pool.len() as u128).as_str(), "\n");
    push_ascii(out, header.as_str());
    let ghost head = out@;
    let mut i: usize = 0;
    proof {
        assert(out@ =~= head + framed_blocks(views, 0));
    }
    while i < pool.len()
        invariant
            views == block_views(pool@),
            i <= pool@.len(),
            out@ == head + framed_blocks(views, i as nat),
        decreases pool@.len() - i,
    {
        let b = &pool[i];
        let line = cat5(
            "BLOCK ",
            dec(b.rows as u128).as_str(),
            " ",
            dec(b.body.len() as u128).as_str(),
            "\n",
        );
        proof {
            lemma_decimal_ascii(b.rows as nat);
            lemma_decimal_ascii(b.body@.len());
            reveal_strlit("BLOCK ");
            reveal_strlit(" ");
            reveal_strlit("\n");
            assert(views[i as int] == b@);
            assert(is_ascii_chars(line@));
        }
        push_ascii(out, line.as_str());
        out.extend_from_slice(b.body.as_slice());
        i += 1;
        proof {
            assert(out@ =~= head + framed_blocks(views, i as nat));
        }
    }
    proof {
        assert(views.len() == pool@.len());
        assert(out@ =~= start + framed_pool(views));
    }
}

/// Two texts that end at their first `stop` agree before and after it.
proof fn lemma_cut(a: Seq<u8>, b: Seq<u8>, x: Seq<u8>, y: Seq<u8>, stop: u8)
    requires
        forall|i: int| 0 <= i < a.len() ==> a[i] != stop,
        forall|i: int| 0 <= i < b.len() ==> b[i] != stop,
        a + seq![stop] + x == b + seq![stop] + y,
    ensures
        a == b,
        x == y,
{
    let s = a + seq![stop] + x;
    let t = b + seq![stop] + y;
    assert(s[a.len() as int] == stop);
    assert(t[b.len() as int] == stop);
    if a.len() < b.len() {
        assert(t[a.len() as int] == b[a.len() as int]);
    } else if b.len() < a.len() {
        assert(s[b.len() as int] == a[b.len() as int]);
    }
    assert forall|i: int| 0 <= i < a.len() implies a[i] == b[i] by {
        assert(s[i] == a[i] && t[i] == b[i]);
    }
    assert(a =~= b);
    assert(s.len() == a.len() + 1 + x.len());
    assert(t.len() == b.len() + 1 + y.len());
    assert forall|i: int| 0 <= i < x.len() implies x[i] == y[i] by {
        assert(s[a.len() + 1 + i] == x[i] && t[a.len() + 1 + i] == y[i]);
    }
    assert(x =~= y);
}

proof fn lemma_ascii_digits(n: nat, stop: u8)
    requires
        stop == 10 || stop == 32,
    ensures
        forall|i: int| 0 <= i < decimal(n).len() ==> ascii_bytes(decimal(n))[i] != stop,
{
    lemma_decimal_ascii(n);
    assert forall|i: int| 0 <= i < decimal(n).len() implies ascii_bytes(decimal(n))[i] != stop by {
        assert(is_digit(decimal(n)[i]));
        assert(ascii_bytes(decimal(n))[i] == decimal(n)[i] as u8);
    }
}

proof fn lemma_ascii_decimal_injective(m: nat, n: nat)
    requires
        ascii_bytes(decimal(m)) == ascii_bytes(decimal(n)),
    ensures
        m == n,
{
    lemma_decimal_ascii(m);
    lemma_decimal_ascii(n);
    let (a, b) = (decimal(m), decimal(n));
    assert(ascii_bytes(a).len() == a.len() && ascii_bytes(b).len() == b.len());
    assert forall|i: int| 0 <= i < a.len() implies a[i] == b[i] by {
        assert(ascii_bytes(a)[i] == a[i] as u8);
        assert(ascii_bytes(b)[i] == b[i] as u8);
        assert(is_digit(a[i]) && is_digit(b[i]));
    }
    assert(a =~= b);
    lemma_decimal_digits(m);
    lemma_decimal_digits(n);
}

/// The blocks from `k` on, as they are framed.
spec fn framed_from(pool: Seq<BlockView>, k: nat) -> Seq<u8>
    decreases pool.len() - k,
{
    if k >= pool.len() {
        seq![]
    } else {
        ascii_bytes(block_header(pool[k as int])) + pool[k as int].body + framed_from(pool, k + 1)
    }
}

proof fn lemma_framed_from(pool: Seq<BlockView>, k: nat)
    requires
        k <= pool.len(),
    ensures
        framed_blocks(pool, k) + framed_from(pool, k) == framed_blocks(pool, pool.len()),
    decreases pool.len() - k,
{
    if k < pool.len() {
        lemma_framed_from(pool, k + 1);
        assert(framed_blocks(pool, k) + framed_from(pool, k) =~= framed_blocks(pool, k + 1)
            + framed_from(pool, k + 1));
    } else {
        assert(framed_blocks(pool, k) + framed_from(pool, k) =~= framed_blocks(pool, k));
    }
}

/// A block and what follows it, cut at the end of each part of its header.
proof fn lemma_block_shape(b: BlockView, rest: Seq<u8>)
    ensures
        ascii_bytes(block_header(b)) + b.body + rest == ascii_bytes("BLOCK "@) + (ascii_bytes(
            decimal(b.rows),
        ) + seq![32u8] + (ascii_bytes(decimal(b.body.len())) + seq![10u8] + (b.body + rest))),
{
    reveal_strlit(" ");
    reveal_strlit("\n");
    assert(ascii_bytes(block_header(b)) + b.body + rest =~= ascii_bytes("BLOCK "@) + (ascii_bytes(
        decimal(b.rows),
    ) + seq![32u8] + (ascii_bytes(decimal(b.body.len())) + seq![10u8] + (b.body + rest))));
}

proof fn lemma_same_tail(tag: Seq<u8>, u: Seq<u8>, v: Seq<u8>)
    requires
        tag + u == tag + v,
    ensures
        u == v,
{
    assert(u =~= (tag + u).skip(tag.len() as int));
    assert(v =~= (tag + v).skip(tag.len() as int));
}

proof fn lemma_same_block(a: BlockView, b: BlockView, x: Seq<u8>, y: Seq<u8>)
    requires
        ascii_bytes(block_header(a)) + a.body + x == ascii_bytes(block_header(b)) + b.body + y,
    ensures
        a == b,
        x == y,
{
    lemma_block_shape(a, x);
    lemma_block_shape(b, y);
    let (ra, rb) = (ascii_bytes(decimal(a.rows)), ascii_bytes(decimal(b.rows)));
    let (na, nb) = (ascii_bytes(decimal(a.body.len())), ascii_bytes(decimal(b.body.len())));
    let (ua, ub) = (na + seq![10u8] + (a.body + x), nb + seq![10u8] + (b.body + y));
    lemma_same_tail(ascii_bytes("BLOCK "@), ra + seq![32u8] + ua, rb + seq![32u8] + ub);
    lemma_ascii_digits(a.rows, 32);
    lemma_ascii_digits(b.rows, 32);
    lemma_cut(ra, rb, ua, ub, 32);
    lemma_ascii_decimal_injective(a.rows, b.rows);
    lemma_ascii_digits(a.body.len(), 10);
    lemma_ascii_digits(b.body.len(), 10);
    lemma_cut(na, nb, a.body + x, b.body + y, 10);
    lemma_ascii_decimal_injective(a.body.len(), b.body.len());
    assert(a.body =~= (a.body + x).take(a.body.len() as int));
    assert(b.body =~= (b.body + y).take(b.body.len() as int));
    assert(x =~= (a.body + x).skip(a.body.len() as int));
    assert(y =~= (b.body + y).skip(b.body.len() as int));
}

proof fn lemma_same_blocks(p: Seq<BlockView>, q: Seq<BlockView>, k: nat)
    requires
        p.len() == q.len(),
        k <= p.len(),
        framed_from(p, k) == framed_from(q, k),
    ensures
        forall|i: int| k <= i < p.len() ==> p[i] == q[i],
    decreases p.len() - k,
{
    if k < p.len() {
        lemma_same_block(
            p[k as int],
            q[k as int],
            framed_from(p, k + 1),
            framed_from(q, k + 1),
        );
        lemma_same_blocks(p, q, k + 1);
    }
}

/// The framing loses nothing, whatever bytes the blocks hold: two pools that are
/// framed alike are the same pool.
pub proof fn law_framing_determines_pool(p: Seq<BlockView>, q: Seq<BlockView>)
    requires
        framed_pool(p) == framed_pool(q),
    ensures
        p == q,
{
    reveal_strlit("\n");
    let tag = ascii_bytes("POOL "@);
    let a = ascii_bytes(decimal(p.len()));
    let b = ascii_bytes(decimal(q.len()));
    let x = framed_blocks(p, p.len());
    let y = framed_blocks(q, q.len());
    assert(framed_pool(p) =~= tag + (a + seq![10u8] + x));
    assert(framed_pool(q) =~= tag + (b + seq![10u8] + y));
    lemma_same_tail(tag, a + seq![10u8] + x, b + seq![10u8] + y);
    lemma_ascii_digits(p.len(), 10);
    lemma_ascii_digits(q.len(), 10);
    lemma_cut(a, b, x, y, 10);
    lemma_ascii_decimal_injective(p.len(), q.len());
    lemma_framed_from(p, 0);
    lemma_framed_from(q, 0);
    assert(framed_from(p, 0) =~= x);
    assert(framed_from(q, 0) =~= y);
    lemma_same_blocks(p, q, 0);
    assert(p =~= q);
}

/// The command that asks for a rung: its concurrency, never less than one, and its
/// length.
pub fn format_burst(concurrency: u64, window_ms: u64) -> (r: String)
    ensures
        r@ == "RUN "@ + decimal(
            if concurrency == 0 {
                1
            } else {
                concurrency as nat
            },
        ) + " "@ + seconds_text(window_ms) + "\n"@,
{
    let n: u64 = if concurrency == 0 {
        1
    } else {
        concurrency
    };
    cat5("RUN ", dec(n as u128).as_str(), " ", seconds(window_ms).as_str(), "\n")
}

pub open spec fn inserter_client() -> Client {
    Client { who: "inserter", counted: "row count", units: "rows" }
}

/// What a reply to a rung says. A refused insert is a refusal of the rung, in the
/// server's own words.
pub open spec fn burst_reply<N>(line: Seq<char>, window: Result<Seconds<N>, String>) -> Result<
    RemoteBurst<N>,
    Seq<char>,
> {
    if leads(line, "OK"@) {
        match ok_reply(inserter_client(), line, window) {
            Ok(m) => Ok(RemoteBurst { rows: m.count, bytes: m.bytes, elapsed_s: m.elapsed_s }),
            Err(e) => Err(e),
        }
    } else if leads(line, "ERR"@) {
        Err(reported(line))
    } else {
        Err("the inserter answered "@ + debug_quoted(line))
    }
}

/// Reads a reply to a rung, given its span as read.
pub fn parse_burst<N>(line: &str, window: Result<Seconds<N>, String>) -> (r: Result<
    RemoteBurst<N>,
    String,
>)
    ensures
        match r {
            Ok(b) => burst_reply(line@, window) == Ok::<RemoteBurst<N>, Seq<char>>(b),
            Err(e) => burst_reply(line@, window) == Err::<RemoteBurst<N>, Seq<char>>(e@),
        },
{
    let client = Client { who: "inserter", counted: "row count", units: "rows" };
    if leads_with(line, "OK") {
        match read_ok(&client, line, window) {
            Ok(m) => Ok(RemoteBurst { rows: m.count, bytes: m.bytes, elapsed_s: m.elapsed_s }),
            Err(e) => Err(e),
        }
    } else if leads_with(line, "ERR") {
        Err(reported_text(line))
    } else {
        Err(cat2("the inserter answered ", quoted(line).as_str()))
    }
}

/// Whether the client took the pool, or why not.
pub fn check_ready(line: &str) -> (r: Result<(), String>)
    ensures
        match r {
            Ok(_) => begins(line@, "READY"@),
            Err(e) => !begins(line@, "READY"@) && e@ == "the inserter answered "@ + debug_quoted(
                line@,
            ) + " instead of READY. It POSTs from inside "@ + NETWORK@
                + ", so a failure here is the container or the image rather than the target."@,
        },
{
    if starts_with(line, "READY") {
        Ok(())
    } else {
        Err(
            cat5(
                "the inserter answered ",
                quoted(line).as_str(),
                " instead of READY. It POSTs from inside ",
                NETWORK,
                ", so a failure here is the container or the image rather than the target.",
            ),
        )
    }
}

/// The arguments of `docker` that start the client.
pub open spec fn inserter_args(program: Seq<char>, ep: Endpoints, sql: Seq<char>) -> Seq<Seq<char>> {
    seq![
        "run"@,
        "--rm"@,
        "-i"@,
        "--name"@,
        INSERTER_CONTAINER@,
        "--network"@,
        NETWORK@,
        INSERTER_IMAGE@,
        "python3"@,
        "-c"@,
        program,
        ep.ch_container@,
        decimal(ep.ch_internal_port as nat),
        ep.ch_user@,
        ep.ch_password@,
        sql,
        decimal(POST_TIMEOUT_S as nat),
    ]
}

/// The arguments of `docker` that start the client.
pub fn start_inserter(program: &str, ep: &Endpoints, sql: &str) -> (r: Vec<String>)
    ensures
        texts(r@) == inserter_args(program@, *ep, sql@),
{
    let port = dec(ep.ch_internal_port as u128);
    let timeout = dec(POST_TIMEOUT_S as u128);
    let mut out: Vec<String> = Vec::new();
    note_each(
        &mut out,
        &[
            "run",
            "--rm",
            "-i",
            "--name",
            INSERTER_CONTAINER,
            "--network",
            NETWORK,
            INSERTER_IMAGE,
            "python3",
            "-c",
            program,
            ep.ch_container.as_str(),
            port.as_str(),
            ep.ch_user.as_str(),
            ep.ch_password.as_str(),
            sql,
            timeout.as_str(),
        ],
    );
    proof {
        assert(texts(out@) =~= inserter_args(program@, *ep, sql@));
    }
    out
}

/// What a rung measured is what the reply says, number for number.
pub proof fn law_burst_is_what_the_reply_says<N>(
    count: u64,
    bytes: u64,
    span: Seq<char>,
    window: Result<Seconds<N>, String>,
)
    requires
        span.len() > 0,
        forall|i: int| 0 <= i < span.len() ==> !is_space(#[trigger] span[i]),
        window is Ok,
        count > 0,
        !window->Ok_0.is_empty,
    ensures
        ({
            let r = burst_reply(ok_line(count, bytes, span), window);
            &&& r is Ok
            &&& r->Ok_0.rows == count
            &&& r->Ok_0.bytes == bytes
            &&& r->Ok_0.elapsed_s == window->Ok_0.value
        }),
{
    law_reply_is_read_number_for_number(inserter_client(), count, bytes, span, window);
}

/// Nothing but an `OK` is a measurement; an error is refused in the server's own words.
pub proof fn law_only_ok_is_a_burst<N>(line: Seq<char>, window: Result<Seconds<N>, String>)
    ensures
        burst_reply(line, window) is Ok ==> leads(line, "OK"@),
        leads(line, "ERR"@) ==> burst_reply(line, window) == Err::<RemoteBurst<N>, Seq<char>>(
            reported(line),
        ),
{
    reveal_strlit("OK");
    reveal_strlit("ERR");
    assert("OK"@.len() != "ERR"@.len());
}

/// The client is started on the bench network, and is handed the database's host and
/// port there, its user and password, the statement and its timeout, in that order.
pub proof fn law_inserter_is_handed_its_target(program: Seq<char>, ep: Endpoints, sql: Seq<char>)
    ensures
        ({
            let a = inserter_args(program, ep, sql);
            &&& a.len() == 17
            &&& a[4] == "spate-bench-inserter"@
            &&& a[5] == "--network"@ && a[6] == "spate-bench-net"@
            &&& a[10] == program
            &&& a[11] == ep.ch_container@
            &&& a[12] == decimal(ep.ch_internal_port as nat)
            &&& a[13] == ep.ch_user@
            &&& a[14] == ep.ch_password@
            &&& a[15] == sql
            &&& a[16] == decimal(120)
        }),
{
}

/// A pool is announced by the number of its blocks; a further block adds a line with its
/// rows and then its length, and exactly its bytes.
pub proof fn law_block_is_announced_and_follows(pool: Seq<BlockView>, b: BlockView)
    ensures
        ({
            let n = pool.len();
            let line = "BLOCK "@ + decimal(b.rows) + " "@ + decimal(b.body.len()) + "\n"@;
            &&& framed_blocks(pool.push(b), n + 1) == framed_blocks(pool, n) + ascii_bytes(line)
                + b.body
            &&& framed_blocks(pool, 0).len() == 0
            &&& framed_pool(pool) == ascii_bytes("POOL "@ + decimal(n) + "\n"@) + framed_blocks(
                pool,
                n,
            )
        }),
{
    lemma_blocks_prefix(pool, pool.push(b), pool.len());
}

proof fn lemma_blocks_prefix(a: Seq<BlockView>, b: Seq<BlockView>, n: nat)
    requires
        n <= a.len() <= b.len(),
        forall|i: int| 0 <= i < n ==> a[i] == b[i],
    ensures
        framed_blocks(a, n) == framed_blocks(b, n),
    decreases n,
{
    if n > 0 {
        lemma_blocks_prefix(a, b, (n - 1) as nat);
    }
}

} // verus!
