//! The consume client: the commands it is given, and what it answers.
use vstd::prelude::*;
use crate::entrant::{debug_quoted, quoted};
use crate::infra::Endpoints;
use crate::reply::{
    law_reply_is_read_number_for_number, leads, leads_with, ok_line, ok_reply, read_ok, reported,
    reported_text, seconds, seconds_text, Client, Seconds,
};
use crate::sampler::NETWORK;
use crate::text::{
    begins, cat2, cat3, cat5, contains, dec, dec_int, decimal, decimal_int, is_digit, is_space,
    join, joined, law_decimal_reads_back, law_integers_are_plain, law_join_is_undone,
    law_words_are_runs, lemma_decimal_digits, note, note_each, number_error, occurs, parsed_nat,
    read_number, split_at_each, texts, words, words_of,
};

verus! {

/// Name of the client's container.
pub const FETCHER_CONTAINER: &'static str = "spate-bench-fetcher";

/// Image of the client's container.
pub const FETCHER_IMAGE: &'static str = "python:3.12-alpine";

/// Seconds the client waits for the broker.
pub const FETCH_TIMEOUT_S: u64 = 120;

/// What a window of fetching measured.
#[derive(Clone, Copy, Debug, PartialEq)]
pub struct RemoteFetch<N> {
    pub msgs: u64,
    pub bytes: u64,
    /// Seconds the longest consumer took.
    pub elapsed_s: N,
}

pub open spec fn fetcher_client() -> Client {
    Client { who: "fetcher", counted: "message count", units: "messages" }
}

/// The numbers of a list, in decimal.
pub open spec fn numbers_text(v: Seq<i32>) -> Seq<Seq<char>> {
    Seq::new(v.len(), |i: int| decimal_int(v[i] as int))
}

/// The partitions of the first `n` consumers, each list led by a space.
pub open spec fn consumers_text(split: Seq<Vec<i32>>, n: nat) -> Seq<char>
    decreases n,
{
    if n == 0 {
        seq![]
    } else {
        consumers_text(split, (n - 1) as nat) + " "@ + joined(numbers_text(split[n - 1]@), ","@)
    }
}

fn numbers(v: &Vec<i32>) -> (r: Vec<String>)
    ensures
        texts(r@) == numbers_text(v@),
{
    let mut out: Vec<String> = Vec::new();
    let mut i: usize = 0;
    proof {
        assert(texts(out@) =~= numbers_text(v@).take(0));
    }
    while i < v.len()
        invariant
            i <= v@.len(),
            texts(out@) == numbers_text(v@).take(i as int),
        decreases v@.len() - i,
    {
        note(&mut out, dec_int(v[i] as i128));
        i += 1;
        proof {
            assert(texts(out@) =~= numbers_text(v@).take(i as int));
        }
    }
    proof {
        assert(numbers_text(v@).take(i as int) =~= numbers_text(v@));
    }
    out
}

/// The command that asks for a window: its length, and the partitions of each
/// consumer.
pub fn format_run(split: &Vec<Vec<i32>>, window_ms: u64) -> (r: String)
    ensures
        r@ == "RUN "@ + seconds_text(window_ms) + consumers_text(split@, split@.len()) + "\n"@,
{
    let head = cat2("RUN ", seconds(window_ms).as_str());
    let mut tail = String::new();
    let mut i: usize = 0;
    proof {
        assert(tail@ =~= consumers_text(split@, 0));
    }
    while i < split.len()
        invariant
            i <= split@.len(),
            tail@ == consumers_text(split@, i as nat),
        decreases split@.len() - i,
    {
        tail.push_str(" ");
        tail.push_str(join(&numbers(&split[i]), ",").as_str());
        i += 1;
    }
    cat3(head.as_str(), tail.as_str(), "\n")
}

pub open spec fn not_ready(line: Seq<char>) -> Seq<char> {
    "the fetcher answered "@ + debug_quoted(line) + " instead of READY. It reads from inside "@
        + NETWORK@ + ", so a failure here is the container or the broker rather than the corpus."@
}

/// Every depth from word `i` on, or why one is no number.
pub open spec fn depths_from(w: Seq<Seq<char>>, i: int) -> Result<Seq<u64>, Seq<char>>
    decreases w.len() - i,
{
    if i >= w.len() {
        Ok(seq![])
    } else {
        match parsed_nat(w[i], u64::MAX as nat) {
            None => Err(
                "the fetcher's partition depths do not parse: "@ + number_error(
                    w[i],
                    u64::MAX as nat,
                ),
            ),
            Some(n) => match depths_from(w, i + 1) {
                Err(e) => Err(e),
                Ok(rest) => Ok(seq![n as u64] + rest),
            },
        }
    }
}

/// What a `READY` line says: one backlog for each partition.
pub open spec fn ready_reply(line: Seq<char>) -> Result<Seq<u64>, Seq<char>> {
    if !leads(line, "READY"@) {
        Err(not_ready(line))
    } else {
        match depths_from(words_of(line), 1) {
            Err(e) => Err(e),
            Ok(d) => if d.len() == 0 {
                Err("the fetcher reported no partitions at all"@)
            } else {
                Ok(d)
            },
        }
    }
}

/// The first depth that is no number decides, whatever precedes it.
proof fn lemma_depths(w: Seq<Seq<char>>, from: int, sofar: Seq<u64>, i: int)
    requires
        from <= i <= w.len(),
        sofar.len() == i - from,
        forall|k: int|
            0 <= k < sofar.len() ==> parsed_nat(w[from + k], u64::MAX as nat) == Some(
                #[trigger] sofar[k] as nat,
            ),
    ensures
        match depths_from(w, i) {
            Ok(rest) => depths_from(w, from) == Ok::<Seq<u64>, Seq<char>>(sofar + rest),
            Err(e) => depths_from(w, from) == Err::<Seq<u64>, Seq<char>>(e),
        },
    decreases i - from,
{
    if i == from {
        match depths_from(w, i) {
            Ok(rest) => {
                assert(sofar + rest =~= rest);
            },
            Err(_) => {},
        }
    } else {
        let shorter = sofar.drop_last();
        assert(parsed_nat(w[from + (i - 1 - from)], u64::MAX as nat) == Some(
            sofar[i - 1 - from] as nat,
        ));
        lemma_depths(w, from, shorter, i - 1);
        match depths_from(w, i) {
            Ok(rest) => {
                assert(shorter + (seq![sofar.last()] + rest) =~= sofar + rest);
            },
            Err(_) => {},
        }
    }
}

/// Reads the line by which the client says it is ready.
pub fn parse_ready(line: &str) -> (r: Result<Vec<u64>, String>)
    ensures
        match r {
            Ok(d) => ready_reply(line@) == Ok::<Seq<u64>, Seq<char>>(d@),
            Err(e) => ready_reply(line@) == Err::<Seq<u64>, Seq<char>>(e@),
        },
{
    if !leads_with(line, "READY") {
        return Err(
            cat5(
                "the fetcher answered ",
                quoted(line).as_str(),
                " instead of READY. It reads from inside ",
                NETWORK,
                ", so a failure here is the container or the broker rather than the corpus.",
            ),
        );
    }
    let w = words(line);
    let ghost views = words_of(line@);
    proof {
        assert(views.len() == w@.len());
    }
    let mut out: Vec<u64> = Vec::new();
    let mut i: usize = 1;
    while i < w.len()
        invariant
            texts(w@) == views,
            views == words_of(line@),
            leads(line@, "READY"@),
            1 <= i <= w@.len(),
            out@.len() == i - 1,
            forall|k: int|
                0 <= k < out@.len() ==> parsed_nat(views[1 + k], u64::MAX as nat) == Some(
                    #[trigger] out@[k] as nat,
                ),
        decreases w@.len() - i,
    {
        proof {
            assert(views[i as int] == w@[i as int]@);
        }
        match read_number(w[i].as_str(), 0xffff_ffff_ffff_ffff) {
            Ok(n) => {
                out.push(n as u64);
            },
            Err(e) => {
                proof {
                    lemma_depths(views, 1, out@, i as int);
                }
                return Err(cat2("the fetcher's partition depths do not parse: ", e));
            },
        }
        i += 1;
    }
    proof {
        lemma_depths(views, 1, out@, views.len() as int);
        assert(out@ + Seq::<u64>::empty() =~= out@);
    }
    if out.len() == 0 {
        return Err("the fetcher reported no partitions at all".to_owned());
    }
    Ok(out)
}

/// What a reply to a window says. A partition that ran dry is named as such: it is
/// the one failure that is about the corpus.
pub open spec fn fetch_reply<N>(line: Seq<char>, window: Result<Seconds<N>, String>) -> Result<
    RemoteFetch<N>,
    Seq<char>,
> {
    if leads(line, "OK"@) {
        match ok_reply(fetcher_client(), line, window) {
            Ok(m) => Ok(RemoteFetch { msgs: m.count, bytes: m.bytes, elapsed_s: m.elapsed_s }),
            Err(e) => Err(e),
        }
    } else if leads(line, "ERR"@) && occurs(line, "DRAINED"@) {
        Err(
            "REFUSED (DRAINED): "@ + reported(line)
                + ". The remainder of the window would have measured an idle broker, so the figure is refused rather than reported low. The consume pass sizes its window against the backlog for exactly this reason; a window this short still draining means the corpus is shallower than the client is fast."@,
        )
    } else if leads(line, "ERR"@) {
        Err(reported(line))
    } else {
        Err("the fetcher answered "@ + debug_quoted(line))
    }
}

/// Reads a reply to a window, given its span as read.
pub fn parse_fetch<N>(line: &str, window: Result<Seconds<N>, String>) -> (r: Result<
    RemoteFetch<N>,
    String,
>)
    ensures
        match r {
            Ok(f) => fetch_reply(line@, window) == Ok::<RemoteFetch<N>, Seq<char>>(f),
            Err(e) => fetch_reply(line@, window) == Err::<RemoteFetch<N>, Seq<char>>(e@),
        },
{
    let client = Client { who: "fetcher", counted: "message count", units: "messages" };
    if leads_with(line, "OK") {
        match read_ok(&client, line, window) {
            Ok(m) => Ok(RemoteFetch { msgs: m.count, bytes: m.bytes, elapsed_s: m.elapsed_s }),
            Err(e) => Err(e),
        }
    } else if leads_with(line, "ERR") && contains(line, "DRAINED") {
        Err(
            cat3(
                "REFUSED (DRAINED): ",
                reported_text(line).as_str(),
                ". The remainder of the window would have measured an idle broker, so the figure is refused rather than reported low. The consume pass sizes its window against the backlog for exactly this reason; a window this short still draining means the corpus is shallower than the client is fast.",
            ),
        )
    } else if leads_with(line, "ERR") {
        Err(reported_text(line))
    } else {
        Err(cat2("the fetcher answered ", quoted(line).as_str()))
    }
}

/// The arguments of `docker` that start the client: inside the bench network, and
/// against the broker's internal address.
pub open spec fn fetcher_args(
    program: Seq<char>,
    bootstrap: Seq<char>,
    topic: Seq<char>,
    partitions: i32,
) -> Seq<Seq<char>> {
    seq![
        "run"@,
        "--rm"@,
        "-i"@,
        "--name"@,
        FETCHER_CONTAINER@,
        "--network"@,
        NETWORK@,
        FETCHER_IMAGE@,
        "python3"@,
        "-c"@,
        program,
        bootstrap,
        topic,
        decimal_int(partitions as int),
        decimal(FETCH_TIMEOUT_S as nat),
    ]
}

/// The arguments of `docker` that start the client.
pub fn start_fetcher(program: &str, ep: &Endpoints, topic: &str, partitions: i32) -> (r: Vec<String>)
    ensures
        texts(r@) == fetcher_args(program@, ep.bootstrap_internal@, topic@, partitions),
{
    let count = dec_int(partitions as i128);
    let timeout = dec(FETCH_TIMEOUT_S as u128);
    let mut out: Vec<String> = Vec::new();
    note_each(
        &mut out,
        &[
            "run",
            "--rm",
            "-i",
            "--name",
            FETCHER_CONTAINER,
            "--network",
            NETWORK,
            FETCHER_IMAGE,
            "python3",
            "-c",
            program,
            ep.bootstrap_internal.as_str(),
            topic,
            count.as_str(),
            timeout.as_str(),
        ],
    );
    proof {
        assert(texts(out@) =~= fetcher_args(
            program@,
            ep.bootstrap_internal@,
            topic@,
            partitions,
        ));
    }
    out
}

/// What a fetch measured is what the reply says, number for number.
pub proof fn law_fetch_is_what_the_reply_says<N>(
    count: u64,
    bytes: u64,
    span: Seq<char>,
    window: Result<Seconds<N>, String>,
)
    requires
        span.len() > 0,
        forall|i: int| 0 <= i < span.len() ==> !is_space(#[trigger] span[i]),
        window is Ok,
        count > 0,
        !window->Ok_0.is_empty,
    ensures
        ({
            let r = fetch_reply(ok_line(count, bytes, span), window);
            &&& r is Ok
            &&& r->Ok_0.msgs == count
            &&& r->Ok_0.bytes == bytes
            &&& r->Ok_0.elapsed_s == window->Ok_0.value
        }),
{
    law_reply_is_read_number_for_number(fetcher_client(), count, bytes, span, window);
}

/// Nothing but an `OK` is a measurement; a partition that ran dry is refused as such.
pub proof fn law_only_ok_is_a_fetch<N>(line: Seq<char>, window: Result<Seconds<N>, String>)
    ensures
        fetch_reply(line, window) is Ok ==> leads(line, "OK"@),
        leads(line, "ERR"@) && occurs(line, "DRAINED"@) ==> fetch_reply(line, window) is Err && begins(
            fetch_reply(line, window)->Err_0,
            "REFUSED (DRAINED)"@,
        ),
{
    reveal_strlit("OK");
    reveal_strlit("ERR");
    assert("OK"@.len() != "ERR"@.len());
    if leads(line, "ERR"@) && occurs(line, "DRAINED"@) {
        reveal_strlit("REFUSED (DRAINED)");
        reveal_strlit("REFUSED (DRAINED): ");
        let e = fetch_reply(line, window)->Err_0;
        assert(e.take("REFUSED (DRAINED)"@.len() as int) =~= "REFUSED (DRAINED)"@);
    }
}

/// Depths in decimal, each behind a space.
pub open spec fn depths_text(d: Seq<u64>) -> Seq<char>
    decreases d.len(),
{
    if d.len() == 0 {
        seq![]
    } else {
        seq![' '] + decimal(d[0] as nat) + depths_text(d.skip(1))
    }
}

proof fn lemma_depth_words(d: Seq<u64>)
    ensures
        words_of(depths_text(d)) == Seq::new(d.len(), |i: int| decimal(d[i] as nat)),
    decreases d.len(),
{
    let all = Seq::new(d.len(), |i: int| decimal(d[i] as nat));
    if d.len() == 0 {
        let w = seq!['x'];
        law_words_are_runs(w, ' ', seq![]);
        assert(all =~= seq![]);
    } else {
        let (n, rest) = (decimal(d[0] as nat), depths_text(d.skip(1)));
        lemma_depth_words(d.skip(1));
        lemma_decimal_digits(d[0] as nat);
        assert forall|i: int| 0 <= i < n.len() implies !is_space(#[trigger] n[i]) by {
            assert(is_digit(n[i]));
        }
        assert(is_space(' '));
        law_words_are_runs(n, ' ', n + rest);
        assert(depths_text(d) =~= seq![' '] + (n + rest));
        if d.len() == 1 {
            assert(rest =~= seq![]);
            assert(n + rest =~= n);
        } else {
            let tail = depths_text(d.skip(1)).skip(1);
            assert(rest =~= seq![' '] + tail);
            law_words_are_runs(n, ' ', tail);
            assert(n + rest =~= n + seq![' '] + tail);
        }
        assert(words_of(n + rest) == seq![n] + words_of(rest));
        assert(all =~= seq![n] + words_of(rest));
    }
}

proof fn lemma_depths_read(w: Seq<Seq<char>>, d: Seq<u64>, i: int)
    requires
        0 <= i <= d.len(),
        w.len() == d.len() + 1,
        forall|k: int| 0 <= k < d.len() ==> w[k + 1] == decimal(#[trigger] d[k] as nat),
    ensures
        depths_from(w, i + 1) == Ok::<Seq<u64>, Seq<char>>(d.skip(i)),
    decreases d.len() - i,
{
    if i < d.len() {
        lemma_depths_read(w, d, i + 1);
        law_decimal_reads_back(d[i] as nat, u64::MAX as nat);
        assert(w[i + 1] == decimal(d[i] as nat));
        assert(seq![d[i]] + d.skip(i + 1) =~= d.skip(i));
    } else {
        assert(d.skip(i) =~= seq![]);
    }
}

/// The depths that a ready client names are read back, one for each partition, in order;
/// none at all is refused.
pub proof fn law_depths_are_read_back(d: Seq<u64>)
    requires
        d.len() > 0,
    ensures
        ready_reply("READY"@ + depths_text(d)) == Ok::<Seq<u64>, Seq<char>>(d),
        ready_reply("READY"@) is Err,
{
    reveal_strlit("READY");
    let r = "READY"@;
    assert forall|i: int| 0 <= i < r.len() implies !is_space(#[trigger] r[i]) by {
        assert(r[i] == 'R' || r[i] == 'E' || r[i] == 'A' || r[i] == 'D' || r[i] == 'Y');
    }
    let tail = depths_text(d).skip(1);
    assert(is_space(' '));
    assert(depths_text(d) =~= seq![' '] + tail);
    law_words_are_runs(r, ' ', tail);
    lemma_depth_words(d);
    assert(r + depths_text(d) =~= r + seq![' '] + tail);
    let line = r + depths_text(d);
    let w = words_of(line);
    let all = Seq::new(d.len(), |i: int| decimal(d[i] as nat));
    assert(words_of(tail) == all);
    assert(w == seq![r] + all);
    assert forall|k: int| 0 <= k < d.len() implies w[k + 1] == decimal(#[trigger] d[k] as nat) by {
        assert(w[k + 1] == all[k]);
    }
    assert(w[0] == r);
    lemma_depths_read(w, d, 0);
    assert(d.skip(0) =~= d);
    assert(words_of(r) == seq![r]);
    assert(depths_from(words_of(r), 1) == Ok::<Seq<u64>, Seq<char>>(seq![]));
}

/// The partitions of a consumer are read back from its list.
pub proof fn law_consumer_names_its_partitions(v: Seq<i32>)
    requires
        v.len() > 0,
    ensures
        split_at_each(joined(numbers_text(v), ","@), ',') == Seq::new(
            v.len(),
            |i: int| decimal_int(v[i] as int),
        ),
{
    reveal_strlit(",");
    assert(","@ =~= seq![',']);
    let parts = numbers_text(v);
    assert forall|i: int, k: int| 0 <= i < parts.len() && 0 <= k < parts[i].len() implies
        #[trigger] parts[i][k] != ',' by {
        law_integers_are_plain(v[i] as int);
    }
    law_join_is_undone(parts, ',');
    assert(parts =~= Seq::new(v.len(), |i: int| decimal_int(v[i] as int)));
}

/// A further consumer's list stands behind those before it, a space between.
pub proof fn law_consumers_follow_one_another(split: Seq<Vec<i32>>, n: nat)
    requires
        n < split.len(),
    ensures
        consumers_text(split, n + 1) == consumers_text(split, n) + " "@ + joined(
            numbers_text(split[n as int]@),
            ","@,
        ),
        consumers_text(split, 0).len() == 0,
{
}

/// The client is started on the bench network, and is handed the broker's internal
/// address, the topic, the partitions and its timeout, in that order.
pub proof fn law_fetcher_is_handed_its_topic(
    program: Seq<char>,
    bootstrap: Seq<char>,
    topic: Seq<char>,
    partitions: i32,
)
    ensures
        ({
            let a = fetcher_args(program, bootstrap, topic, partitions);
            &&& a.len() == 15
            &&& a[4] == "spate-bench-fetcher"@
            &&& a[5] == "--network"@ && a[6] == "spate-bench-net"@
            &&& a[10] == program
            &&& a[11] == bootstrap
            &&& a[12] == topic
            &&& a[13] == decimal_int(partitions as int)
            &&& a[14] == decimal(120)
        }),
{
}

} // verus!
