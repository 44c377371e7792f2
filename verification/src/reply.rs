//! Replies of the two load clients that run inside the bench network.
use vstd::prelude::*;
use crate::entrant::{debug_quoted, quoted};
use crate::text::{
    begins, cat2, cat3, cat6, cat7, dec, decimal, digits_value, is_digit, is_space, is_trim,
    law_decimal_reads_back, law_prefixes_are_taken_off, law_trim_takes_the_ends, law_words_are_runs,
    law_zeroes_in_front_are_free, lemma_decimal_digits, number_error, parsed_nat, read_number, same,
    strip_prefixes, texts, trim, trimmed, without_prefixes, words, words_of, zero_padded,
};

verus! {

/// A span of seconds that was read from a reply, in the caller's number type.
#[derive(Clone, Debug)]
pub struct Seconds<N> {
    pub value: N,
    /// Whether the span is zero or less.
    pub is_empty: bool,
    /// The span as it is shown.
    pub shown: String,
}

/// The texts by which a client's replies are described.
pub struct Client {
    /// The client.
    pub who: &'static str,
    /// What it counts.
    pub counted: &'static str,
    /// What it counts, in the plural.
    pub units: &'static str,
}

/// A count, a number of bytes, and the window they took.
#[derive(Clone, Copy, Debug, PartialEq)]
pub struct Measured<N> {
    pub count: u64,
    pub bytes: u64,
    pub elapsed_s: N,
}

pub open spec fn missing(c: Client, what: Seq<char>, line: Seq<char>) -> Seq<char> {
    "the "@ + c.who@ + "'s reply carries no "@ + what + ": "@ + debug_quoted(line)
}

pub open spec fn unreadable(c: Client, what: Seq<char>, why: Seq<char>) -> Seq<char> {
    "the "@ + c.who@ + "'s "@ + what + " does not parse: "@ + why
}

pub open spec fn number_of(s: Seq<char>) -> Option<nat> {
    parsed_nat(s, u64::MAX as nat)
}

/// What an `OK` reply says, given its window as read; or why it is no measurement.
pub open spec fn ok_reply<N>(c: Client, line: Seq<char>, window: Result<Seconds<N>, String>) -> Result<
    Measured<N>,
    Seq<char>,
> {
    let w = words_of(line);
    if w.len() < 2 {
        Err(missing(c, c.counted@, line))
    } else if number_of(w[1]) is None {
        Err(unreadable(c, c.counted@, number_error(w[1], u64::MAX as nat)))
    } else if w.len() < 3 {
        Err(missing(c, "byte count"@, line))
    } else if number_of(w[2]) is None {
        Err(unreadable(c, "byte count"@, number_error(w[2], u64::MAX as nat)))
    } else if w.len() < 4 {
        Err(missing(c, "window"@, line))
    } else {
        match window {
            Err(e) => Err(unreadable(c, "window"@, e@)),
            Ok(s) => if number_of(w[1])->Some_0 == 0 || s.is_empty {
                Err(
                    "REFUSED: the "@ + c.who@ + " reported "@ + decimal(number_of(w[1])->Some_0)
                        + " "@ + c.units@ + " over "@ + (s.shown@
                        + "s, which is not a measurement of anything"@),
                )
            } else {
                Ok(
                    Measured {
                        count: number_of(w[1])->Some_0 as u64,
                        bytes: number_of(w[2])->Some_0 as u64,
                        elapsed_s: s.value,
                    },
                )
            },
        }
    }
}

/// The text of an error that a client reports.
pub open spec fn reported(line: Seq<char>) -> Seq<char> {
    trimmed(without_prefixes(line, "ERR"@))
}

/// The word of a reply that is its window, to be read as a number of seconds.
pub fn reply_window(line: &str) -> (r: Option<String>)
    ensures
        match r {
            Some(s) => words_of(line@).len() > 3 && s@ == words_of(line@)[3],
            None => words_of(line@).len() <= 3,
        },
{
    let w = words(line);
    proof {
        assert(texts(w@).len() == w@.len());
    }
    if w.len() > 3 {
        proof {
            assert(texts(w@)[3] == w@[3]@);
        }
        Some(w[3].clone())
    } else {
        None
    }
}

fn missing_text(c: &Client, what: &str, line: &str) -> (r: String)
    ensures
        r@ == missing(*c, what@, line@),
{
    cat6("the ", c.who, "'s reply carries no ", what, ": ", quoted(line).as_str())
}

fn unreadable_text(c: &Client, what: &str, why: &str) -> (r: String)
    ensures
        r@ == unreadable(*c, what@, why@),
{
    cat6("the ", c.who, "'s ", what, " does not parse: ", why)
}

/// Reads an `OK` reply.
pub fn read_ok<N>(c: &Client, line: &str, window: Result<Seconds<N>, String>) -> (r: Result<
    Measured<N>,
    String,
>)
    ensures
        match r {
            Ok(m) => ok_reply(*c, line@, window) == Ok::<Measured<N>, Seq<char>>(m),
            Err(e) => ok_reply(*c, line@, window) == Err::<Measured<N>, Seq<char>>(e@),
        },
{
    let w = words(line);
    proof {
        assert(texts(w@).len() == w@.len());
    }
    if w.len() < 2 {
        return Err(missing_text(c, c.counted, line));
    }
    proof {
        assert(texts(w@)[1] == w@[1]@);
    }
    let count: u64 = match read_number(w[1].as_str(), 0xffff_ffff_ffff_ffff) {
        Ok(n) => n as u64,
        Err(e) => return Err(unreadable_text(c, c.counted, e)),
    };
    if w.len() < 3 {
        return Err(missing_text(c, "byte count", line));
    }
    proof {
        assert(texts(w@)[2] == w@[2]@);
    }
    let bytes: u64 = match read_number(w[2].as_str(), 0xffff_ffff_ffff_ffff) {
        Ok(n) => n as u64,
        Err(e) => return Err(unreadable_text(c, "byte count", e)),
    };
    if w.len() < 4 {
        return Err(missing_text(c, "window", line));
    }
    match window {
        Err(e) => Err(unreadable_text(c, "window", e.as_str())),
        Ok(s) => {
            if count == 0 || s.is_empty {
                let tail = cat2(s.shown.as_str(), "s, which is not a measurement of anything");
                let head = cat7(
                    "REFUSED: the ",
                    c.who,
                    " reported ",
                    dec(count as u128).as_str(),
                    " ",
                    c.units,
                    " over ",
                );
                return Err(cat2(head.as_str(), tail.as_str()));
            }
            Ok(Measured { count, bytes, elapsed_s: s.value })
        },
    }
}

/// Whether the first word of a line is `word`.
pub open spec fn leads(line: Seq<char>, word: Seq<char>) -> bool {
    words_of(line).len() > 0 && words_of(line)[0] == word
}

/// Whether the first word of a line is `word`.
pub fn leads_with(line: &str, word: &str) -> (r: bool)
    ensures
        r == leads(line@, word@),
{
    let w = words(line);
    proof {
        assert(texts(w@).len() == w@.len());
    }
    if w.len() == 0 {
        return false;
    }
    proof {
        assert(texts(w@)[0] == w@[0]@);
    }
    same(w[0].as_str(), word)
}

/// The text of an error that a client reports.
pub fn reported_text(line: &str) -> (r: String)
    ensures
        r@ == reported(line@),
{
    trim(strip_prefixes(line, "ERR").as_str())
}

/// A span of milliseconds as seconds with three decimals.
pub open spec fn seconds_text(ms: u64) -> Seq<char> {
    decimal((ms / 1000) as nat) + "."@ + crate::text::zero_padded((ms % 1000) as nat, 3)
}

/// A span of milliseconds as seconds with three decimals.
pub fn seconds(ms: u64) -> (r: String)
    ensures
        r@ == seconds_text(ms),
{
    cat3(
        dec((ms / 1000) as u128).as_str(),
        ".",
        crate::text::dec_padded((ms % 1000) as u128, 3).as_str(),
    )
}

/// No measurement is made of nothing: an accepted reply counts something over a
/// span that is not empty.
pub proof fn law_nothing_is_no_measurement<N>(
    c: Client,
    line: Seq<char>,
    window: Result<Seconds<N>, String>,
)
    requires
        ok_reply(c, line, window) is Ok,
    ensures
        ok_reply(c, line, window)->Ok_0.count > 0,
        window is Ok && !window->Ok_0.is_empty,
{
}

/// An `OK` reply with a count, a number of bytes and a span.
pub open spec fn ok_line(count: u64, bytes: u64, span: Seq<char>) -> Seq<char> {
    "OK"@ + seq![' '] + (decimal(count as nat) + seq![' '] + (decimal(bytes as nat) + seq![' ']
        + span))
}

proof fn lemma_plain_number(n: u64)
    ensures
        decimal(n as nat).len() > 0,
        forall|i: int| 0 <= i < decimal(n as nat).len() ==> !is_space(#[trigger] decimal(n as nat)[i]),
        number_of(decimal(n as nat)) == Some(n as nat),
{
    lemma_decimal_digits(n as nat);
    law_decimal_reads_back(n as nat, u64::MAX as nat);
    assert forall|i: int| 0 <= i < decimal(n as nat).len() implies !is_space(
        #[trigger] decimal(n as nat)[i],
    ) by {
        assert(is_digit(decimal(n as nat)[i]));
    }
}

/// The words of an `OK` reply are itself, the count, the bytes and the span.
pub proof fn lemma_ok_words(count: u64, bytes: u64, span: Seq<char>)
    requires
        span.len() > 0,
        forall|i: int| 0 <= i < span.len() ==> !is_space(#[trigger] span[i]),
    ensures
        words_of(ok_line(count, bytes, span)) == seq![
            "OK"@,
            decimal(count as nat),
            decimal(bytes as nat),
            span,
        ],
{
    reveal_strlit("OK");
    lemma_plain_number(count);
    lemma_plain_number(bytes);
    let (c, b) = (decimal(count as nat), decimal(bytes as nat));
    law_words_are_runs(span, ' ', seq![]);
    law_words_are_runs(b, ' ', span);
    law_words_are_runs(c, ' ', b + seq![' '] + span);
    assert(!is_space('O') && !is_space('K'));
    law_words_are_runs("OK"@, ' ', c + seq![' '] + (b + seq![' '] + span));
    assert(words_of(ok_line(count, bytes, span)) =~= seq!["OK"@, c, b, span]);
}

/// An accepted reply is read number for number: the first is the count, the second the
/// bytes, and the span is the window as it was read. A count of nothing, or an empty
/// window, is refused.
pub proof fn law_reply_is_read_number_for_number<N>(
    c: Client,
    count: u64,
    bytes: u64,
    span: Seq<char>,
    window: Result<Seconds<N>, String>,
)
    requires
        span.len() > 0,
        forall|i: int| 0 <= i < span.len() ==> !is_space(#[trigger] span[i]),
        window is Ok,
    ensures
        leads(ok_line(count, bytes, span), "OK"@),
        match ok_reply(c, ok_line(count, bytes, span), window) {
            Ok(m) => {
                &&& m.count == count
                &&& m.bytes == bytes
                &&& m.elapsed_s == window->Ok_0.value
                &&& count > 0 && !window->Ok_0.is_empty
            },
            Err(e) => (count == 0 || window->Ok_0.is_empty) && begins(e, "REFUSED"@),
        },
{
    lemma_ok_words(count, bytes, span);
    lemma_plain_number(count);
    lemma_plain_number(bytes);
    let w = words_of(ok_line(count, bytes, span));
    assert(w[1] == decimal(count as nat) && w[2] == decimal(bytes as nat));
    if let Err(e) = ok_reply(c, ok_line(count, bytes, span), window) {
        reveal_strlit("REFUSED");
        reveal_strlit("REFUSED: the ");
        assert(e.take(7) =~= "REFUSED"@);
    }
}

/// A span of milliseconds is shown as whole seconds, a point and three digits, and both
/// parts are read back from it.
pub proof fn law_span_is_shown_to_the_millisecond(ms: u64)
    ensures
        ({
            let (whole, part) = (
                decimal((ms / 1000) as nat),
                zero_padded((ms % 1000) as nat, 3),
            );
            &&& seconds_text(ms) == whole + "."@ + part
            &&& part.len() == 3
            &&& digits_value(whole) * 1000 + digits_value(part) == ms
        }),
{
    lemma_decimal_digits((ms / 1000) as nat);
    law_zeroes_in_front_are_free((ms % 1000) as nat, 3);
    reveal_with_fuel(decimal, 4);
}

/// An error is reported in the client's own words, without the tag and the space around.
pub proof fn law_error_is_reported_in_its_own_words(message: Seq<char>)
    requires
        message.len() > 0,
        !is_space(message[0]) && !is_space(message.last()),
        !begins(message, "ERR"@),
    ensures
        reported("ERR"@ + seq![' '] + message) == message,
{
    reveal_strlit("ERR");
    let rest = seq![' '] + message;
    let line = "ERR"@ + seq![' '] + message;
    assert(line =~= "ERR"@ + rest);
    law_prefixes_are_taken_off(rest, "ERR"@);
    if begins(rest, "ERR"@) {
        assert(rest.take(3)[0] == rest[0]);
    }
    assert(without_prefixes(line, "ERR"@) == rest);
    law_trim_takes_the_ends(rest);
    let (a, b) = choose|a: int, b: int| is_trim(rest, trimmed(rest), a, b);
    let n = message.len() as int;
    assert(rest[1] == message[0] && rest[n] == message.last());
    assert(is_space(' '));
    assert(a <= 1 && b >= n + 1);
    if a == 0 {
        assert(trimmed(rest)[0] == rest[0]);
    }
    assert(trimmed(rest) =~= message);
}

} // verus!
