//! Text as sequences of characters: splitting, trimming, joining, and the
//! decimal notation, each with the meaning its callers' contracts rest on.
use vstd::prelude::*;
use vstd::slice::*;

verus! {

/// The texts held by a list of strings.
pub open spec fn texts(v: Seq<String>) -> Seq<Seq<char>> {
    v.map_values(|s: String| s@)
}

/// `String::push`: appends one character.
pub assume_specification[ String::push ](s: &mut String, c: char)
    ensures
        final(s)@ == old(s)@.push(c),
;

/// `String::push_str`: appends a text.
pub assume_specification[ String::push_str ](s: &mut String, other: &str)
    ensures
        final(s)@ == old(s)@ + other@,
;

/// The characters of `s`, in order.
pub fn chars_of(s: &str) -> (r: Vec<char>)
    ensures
        r@ == s@,
{
    let mut out: Vec<char> = Vec::new();
    for c in it: s.chars()
        invariant
            it.seq() == s@,
            out@ == s@.take(it.index()),
    {
        proof {
            assert(s@.take(it.index() + 1) =~= s@.take(it.index()).push(c));
        }
        out.push(c);
    }
    proof {
        assert(s@.take(s@.len() as int) =~= s@);
    }
    out
}

/// The text made of the characters from `from` up to `to`.
pub fn piece(chars: &[char], from: usize, to: usize) -> (r: String)
    requires
        from <= to <= chars@.len(),
    ensures
        r@ == chars@.subrange(from as int, to as int),
{
    let mut out = String::new();
    let mut i: usize = from;
    while i < to
        invariant
            from <= i <= to <= chars@.len(),
            out@ == chars@.subrange(from as int, i as int),
        decreases to - i,
    {
        out.push(chars[i]);
        proof {
            assert(chars@.subrange(from as int, i + 1) =~= chars@.subrange(
                from as int,
                i as int,
            ).push(chars@[i as int]));
        }
        i += 1;
    }
    out
}

/// Texts with the same bytes are the same.
pub proof fn lemma_same_bytes(a: Seq<char>, b: Seq<char>)
    requires
        vstd::utf8::encode_utf8(a) == vstd::utf8::encode_utf8(b),
    ensures
        a == b,
{
    vstd::utf8::encode_utf8_decode_utf8(a);
    vstd::utf8::encode_utf8_decode_utf8(b);
}

/// Whether two texts are equal.
pub fn same(a: &str, b: &str) -> (r: bool)
    ensures
        r == (a@ == b@),
{
    let x = a.as_bytes();
    let y = b.as_bytes();
    if x.len() != y.len() {
        return false;
    }
    let mut i: usize = 0;
    while i < x.len()
        invariant
            x@.len() == y@.len(),
            i <= x@.len(),
            x@ == vstd::utf8::encode_utf8(a@),
            y@ == vstd::utf8::encode_utf8(b@),
            forall|k: int| 0 <= k < i ==> x@[k] == y@[k],
        decreases x@.len() - i,
    {
        if x[i] != y[i] {
            return false;
        }
        i += 1;
    }
    proof {
        assert(x@ =~= y@);
        lemma_same_bytes(a@, b@);
    }
    true
}

/// Two texts, one after the other.
pub fn cat2(a: &str, b: &str) -> (r: String)
    ensures
        r@ == a@ + b@,
{
    let mut out = a.to_owned();
    out.push_str(b);
    out
}

/// Three texts, one after the other.
pub fn cat3(a: &str, b: &str, c: &str) -> (r: String)
    ensures
        r@ == a@ + b@ + c@,
{
    let mut out = cat2(a, b);
    out.push_str(c);
    out
}

/// Four texts, one after the other.
pub fn cat4(a: &str, b: &str, c: &str, d: &str) -> (r: String)
    ensures
        r@ == a@ + b@ + c@ + d@,
{
    let mut out = cat3(a, b, c);
    out.push_str(d);
    out
}

/// Five texts, one after the other.
pub fn cat5(a: &str, b: &str, c: &str, d: &str, e: &str) -> (r: String)
    ensures
        r@ == a@ + b@ + c@ + d@ + e@,
{
    let mut out = cat4(a, b, c, d);
    out.push_str(e);
    out
}

/// Six texts, one after the other.
pub fn cat6(a: &str, b: &str, c: &str, d: &str, e: &str, f: &str) -> (r: String)
    ensures
        r@ == a@ + b@ + c@ + d@ + e@ + f@,
{
    let mut out = cat5(a, b, c, d, e);
    out.push_str(f);
    out
}

/// Seven texts, one after the other.
pub fn cat7(a: &str, b: &str, c: &str, d: &str, e: &str, f: &str, g: &str) -> (r: String)
    ensures
        r@ == a@ + b@ + c@ + d@ + e@ + f@ + g@,
{
    let mut out = cat6(a, b, c, d, e, f);
    out.push_str(g);
    out
}

// ---------------------------------------------------------------------------
// Decimal notation
// ---------------------------------------------------------------------------

pub open spec fn digit_char(d: nat) -> char {
    ((48 + d) as u8) as char
}

pub open spec fn is_digit(c: char) -> bool {
    '0' <= c <= '9'
}

pub open spec fn digit_value(c: char) -> nat {
    (c as u32 - 48) as nat
}

/// `n` in decimal, without leading zeroes.
pub open spec fn decimal(n: nat) -> Seq<char>
    decreases n,
{
    if n < 10 {
        seq![digit_char(n)]
    } else {
        decimal(n / 10).push(digit_char(n % 10))
    }
}

/// `n` in decimal, with a leading `-` when it is negative.
pub open spec fn decimal_int(n: int) -> Seq<char> {
    if n < 0 {
        seq!['-'] + decimal((-n) as nat)
    } else {
        decimal(n as nat)
    }
}

/// The number a run of digits denotes.
pub open spec fn digits_value(s: Seq<char>) -> nat
    decreases s.len(),
{
    if s.len() == 0 {
        0
    } else {
        digits_value(s.drop_last()) * 10 + digit_value(s.last())
    }
}

pub open spec fn all_digits(s: Seq<char>) -> bool {
    s.len() > 0 && forall|i: int| 0 <= i < s.len() ==> is_digit(#[trigger] s[i])
}

/// `s` read as a whole number no greater than `max`: an optional `+`, then digits.
pub open spec fn parsed_nat(s: Seq<char>, max: nat) -> Option<nat> {
    let body = if s.len() > 0 && s[0] == '+' {
        s.skip(1)
    } else {
        s
    };
    if all_digits(body) && digits_value(body) <= max {
        Some(digits_value(body))
    } else {
        None
    }
}

/// `s` read as an integer in `-min ..= max`: an optional sign, then digits.
pub open spec fn parsed_int(s: Seq<char>, min: nat, max: nat) -> Option<int> {
    if s.len() > 0 && s[0] == '-' {
        if all_digits(s.skip(1)) && digits_value(s.skip(1)) <= min {
            Some(-(digits_value(s.skip(1)) as int))
        } else {
            None
        }
    } else {
        match parsed_nat(s, max) {
            Some(n) => Some(n as int),
            None => None,
        }
    }
}

/// A whole number in decimal.
pub fn dec(n: u128) -> (r: String)
    ensures
        r@ == decimal(n as nat),
    decreases n,
{
    if n < 10 {
        let mut out = String::new();
        out.push((48u8 + n as u8) as char);
        proof {
            assert(out@ =~= decimal(n as nat));
        }
        out
    } else {
        let mut out = dec(n / 10);
        out.push((48u8 + (n % 10) as u8) as char);
        out
    }
}

/// An integer in decimal.
pub fn dec_int(n: i128) -> (r: String)
    requires
        n > i128::MIN,
    ensures
        r@ == decimal_int(n as int),
{
    if n < 0 {
        let mut out = String::new();
        out.push('-');
        out.push_str(dec((-n) as u128).as_str());
        proof {
            assert(out@ =~= decimal_int(n as int));
        }
        out
    } else {
        dec(n as u128)
    }
}

/// `n` in decimal, padded on the left with zeroes to `width` characters.
pub open spec fn zero_padded(n: nat, width: nat) -> Seq<char> {
    let d = decimal(n);
    if d.len() >= width {
        d
    } else {
        Seq::new((width - d.len()) as nat, |i: int| '0') + d
    }
}

/// A whole number in decimal, padded with zeroes on the left.
pub fn dec_padded(n: u128, width: usize) -> (r: String)
    ensures
        r@ == zero_padded(n as nat, width as nat),
{
    let digits = chars_of(dec(n).as_str());
    let mut out = String::new();
    if digits.len() < width {
        let pad: usize = width - digits.len();
        let mut i: usize = 0;
        while i < pad
            invariant
                i <= pad,
                out@ == Seq::new(i as nat, |k: int| '0'),
            decreases pad - i,
        {
            out.push('0');
            i += 1;
            proof {
                assert(out@ =~= Seq::new(i as nat, |k: int| '0'));
            }
        }
    }
    out.push_str(piece(digits.as_slice(), 0, digits.len()).as_str());
    proof {
        assert(digits@.subrange(0, digits@.len() as int) =~= digits@);
        assert(out@ =~= zero_padded(n as nat, width as nat));
    }
    out
}

/// The decimal notation is made of digits, and denotes its number.
pub proof fn lemma_decimal_digits(n: nat)
    ensures
        all_digits(decimal(n)),
        digits_value(decimal(n)) == n,
        decimal(n).len() >= 1,
    decreases n,
{
    if n < 10 {
        let s = seq![digit_char(n)];
        assert(s.drop_last() =~= Seq::<char>::empty());
        assert(s.last() == digit_char(n));
        assert(digits_value(s) == digits_value(s.drop_last()) * 10 + digit_value(s.last()));
        assert(digits_value(s.drop_last()) == 0);
    } else {
        lemma_decimal_digits(n / 10);
        let s = decimal(n);
        assert(s.drop_last() =~= decimal(n / 10));
        assert(s.last() == digit_char(n % 10));
        assert forall|i: int| 0 <= i < s.len() implies is_digit(#[trigger] s[i]) by {
            if i < s.len() - 1 {
                assert(s[i] == decimal(n / 10)[i]);
            }
        }
    }
}

/// Reading back the decimal notation of a number gives the number.
pub proof fn law_decimal_reads_back(n: nat, max: nat)
    requires
        n <= max,
    ensures
        parsed_nat(decimal(n), max) == Some(n),
{
    lemma_decimal_digits(n);
    assert(is_digit(decimal(n)[0]));
}

proof fn lemma_digits_prefix(s: Seq<char>, i: int)
    requires
        0 <= i <= s.len(),
    ensures
        digits_value(s.take(i)) <= digits_value(s),
    decreases s.len() - i,
{
    if i == s.len() {
        assert(s.take(i) =~= s);
    } else {
        lemma_digits_prefix(s, i + 1);
        assert(s.take(i + 1).drop_last() =~= s.take(i));
    }
}

/// Digits from `from` on, read as a number no greater than `max`.
fn read_digits(chars: &Vec<char>, from: usize, max: u128) -> (r: Option<u128>)
    requires
        from <= chars@.len(),
    ensures
        match r {
            Some(n) => all_digits(chars@.skip(from as int)) && digits_value(
                chars@.skip(from as int),
            ) == n && n <= max,
            None => !all_digits(chars@.skip(from as int)) || digits_value(chars@.skip(from as int))
                > max,
        },
{
    let ghost body = chars@.skip(from as int);
    if from == chars.len() {
        return None;
    }
    let mut acc: u128 = 0;
    let mut i: usize = from;
    while i < chars.len()
        invariant
            from <= i <= chars@.len(),
            body == chars@.skip(from as int),
            acc <= max,
            acc == digits_value(body.take(i - from)),
            forall|k: int| 0 <= k < i - from ==> is_digit(#[trigger] body[k]),
        decreases chars@.len() - i,
    {
        let c: char = chars[i];
        assert(c == body[i - from]);
        if c < '0' || c > '9' {
            return None;
        }
        let d: u128 = (c as u32 - 48) as u128;
        proof {
            assert(body.take(i - from + 1).drop_last() =~= body.take(i - from));
            assert(body.take(i - from + 1).last() == c);
            lemma_digits_prefix(body, i - from + 1);
        }
        if d > max || acc > (max - d) / 10 {
            proof {
                assert(acc * 10 + d > max);
            }
            return None;
        }
        acc = acc * 10 + d;
        i += 1;
    }
    proof {
        assert(body.take(body.len() as int) =~= body);
    }
    Some(acc)
}

/// A text as a whole number up to `max`.
pub fn parse_nat(s: &str, max: u128) -> (r: Option<u128>)
    ensures
        match r {
            Some(n) => parsed_nat(s@, max as nat) == Some(n as nat) && n <= max,
            None => parsed_nat(s@, max as nat) is None,
        },
{
    let chars = chars_of(s);
    let plus: bool = chars.len() > 0 && chars[0] == '+';
    proof {
        assert(s@.skip(0) =~= s@);
    }
    if plus {
        read_digits(&chars, 1, max)
    } else {
        read_digits(&chars, 0, max)
    }
}

/// A text as a 64-bit whole number.
pub fn parse_u64(s: &str) -> (r: Option<u64>)
    ensures
        match r {
            Some(n) => parsed_nat(s@, u64::MAX as nat) == Some(n as nat),
            None => parsed_nat(s@, u64::MAX as nat) is None,
        },
{
    match parse_nat(s, 0xffff_ffff_ffff_ffff) {
        Some(n) => Some(n as u64),
        None => None,
    }
}

/// A text as an integer in `-min ..= max`.
pub fn parse_int(s: &str, min: u128, max: u128) -> (r: Option<i128>)
    requires
        min <= 0x8000_0000_0000_0000_0000_0000_0000_0000,
        max <= 0x7fff_ffff_ffff_ffff_ffff_ffff_ffff_ffff,
    ensures
        match r {
            Some(n) => parsed_int(s@, min as nat, max as nat) == Some(n as int) && -min <= n
                <= max,
            None => parsed_int(s@, min as nat, max as nat) is None,
        },
{
    let chars = chars_of(s);
    if chars.len() > 0 && chars[0] == '-' {
        match read_digits(&chars, 1, min) {
            Some(n) => if n == 0x8000_0000_0000_0000_0000_0000_0000_0000 {
                Some(i128::MIN)
            } else {
                Some(-(n as i128))
            },
            None => None,
        }
    } else {
        match parse_nat(s, max) {
            Some(n) => Some(n as i128),
            None => None,
        }
    }
}

/// A text as a 64-bit integer.
pub fn parse_i64(s: &str) -> (r: Option<i64>)
    ensures
        match r {
            Some(n) => parsed_int(s@, 0x8000_0000_0000_0000, 0x7fff_ffff_ffff_ffff) == Some(
                n as int,
            ),
            None => parsed_int(s@, 0x8000_0000_0000_0000, 0x7fff_ffff_ffff_ffff) is None,
        },
{
    match parse_int(s, 0x8000_0000_0000_0000, 0x7fff_ffff_ffff_ffff) {
        Some(n) => Some(n as i64),
        None => None,
    }
}

// ---------------------------------------------------------------------------
// White space
// ---------------------------------------------------------------------------

/// The characters with the Unicode `White_Space` property.
pub open spec fn is_space(c: char) -> bool {
    let n = c as u32;
    ||| 0x9 <= n <= 0xd
    ||| n == 0x20
    ||| n == 0x85
    ||| n == 0xa0
    ||| n == 0x1680
    ||| 0x2000 <= n <= 0x200a
    ||| n == 0x2028
    ||| n == 0x2029
    ||| n == 0x202f
    ||| n == 0x205f
    ||| n == 0x3000
}

/// Whether a character is white space.
pub fn space(c: char) -> (r: bool)
    ensures
        r == is_space(c),
{
    let n: u32 = c as u32;
    (0x9 <= n && n <= 0xd) || n == 0x20 || n == 0x85 || n == 0xa0 || n == 0x1680 || (0x2000 <= n
        && n <= 0x200a) || n == 0x2028 || n == 0x2029 || n == 0x202f || n == 0x205f || n == 0x3000
}

pub open spec fn trimmed_start(s: Seq<char>) -> Seq<char>
    decreases s.len(),
{
    if s.len() > 0 && is_space(s[0]) {
        trimmed_start(s.skip(1))
    } else {
        s
    }
}

pub open spec fn trimmed_end(s: Seq<char>) -> Seq<char>
    decreases s.len(),
{
    if s.len() > 0 && is_space(s.last()) {
        trimmed_end(s.drop_last())
    } else {
        s
    }
}

/// `s` without the white space at its two ends.
pub open spec fn trimmed(s: Seq<char>) -> Seq<char> {
    trimmed_end(trimmed_start(s))
}

/// A text with no white space at its ends is its own trim.
pub proof fn lemma_trimmed_already(s: Seq<char>)
    requires
        s.len() > 0,
        !is_space(s[0]),
        !is_space(s.last()),
    ensures
        trimmed(s) == s,
{
}

/// The index at which the leading white space from `from` on ends.
fn skip_spaces(chars: &Vec<char>, from: usize) -> (r: usize)
    requires
        from <= chars@.len(),
    ensures
        from <= r <= chars@.len(),
        trimmed_start(chars@.skip(from as int)) == chars@.skip(r as int),
        r < chars@.len() ==> !is_space(chars@[r as int]),
{
    let mut i: usize = from;
    while i < chars.len() && space(chars[i])
        invariant
            from <= i <= chars@.len(),
            trimmed_start(chars@.skip(from as int)) == trimmed_start(chars@.skip(i as int)),
        decreases chars@.len() - i,
    {
        proof {
            assert(chars@.skip(i as int).skip(1) =~= chars@.skip(i + 1));
        }
        i += 1;
    }
    i
}

/// A text without the white space at its two ends.
pub fn trim(s: &str) -> (r: String)
    ensures
        r@ == trimmed(s@),
{
    let chars = chars_of(s);
    proof {
        assert(s@.skip(0) =~= s@);
    }
    let start: usize = skip_spaces(&chars, 0);
    let mut end: usize = chars.len();
    proof {
        assert(chars@.subrange(start as int, end as int) =~= chars@.skip(start as int));
    }
    while end > start && space(chars[end - 1])
        invariant
            start <= end <= chars@.len(),
            trimmed_end(chars@.skip(start as int)) == trimmed_end(
                chars@.subrange(start as int, end as int),
            ),
        decreases end,
    {
        proof {
            assert(chars@.subrange(start as int, end as int).drop_last() =~= chars@.subrange(
                start as int,
                end - 1,
            ));
        }
        end -= 1;
    }
    piece(chars.as_slice(), start, end)
}

/// The index of the first white space in `s`, or its length.
pub open spec fn first_space(s: Seq<char>) -> nat
    decreases s.len(),
{
    if s.len() == 0 || is_space(s[0]) {
        0
    } else {
        1 + first_space(s.skip(1))
    }
}

proof fn lemma_first_space_bound(s: Seq<char>)
    ensures
        first_space(s) <= s.len(),
        s.len() > 0 && !is_space(s[0]) ==> first_space(s) > 0,
    decreases s.len(),
{
    if s.len() > 0 && !is_space(s[0]) {
        lemma_first_space_bound(s.skip(1));
    }
}

proof fn lemma_trimmed_start_len(s: Seq<char>)
    ensures
        trimmed_start(s).len() <= s.len(),
        trimmed_start(s).len() > 0 ==> !is_space(trimmed_start(s)[0]),
    decreases s.len(),
{
    if s.len() > 0 && is_space(s[0]) {
        lemma_trimmed_start_len(s.skip(1));
    }
}

/// The words of `s`: its longest runs without white space, in order.
pub open spec fn words_of(s: Seq<char>) -> Seq<Seq<char>>
    decreases s.len(),
    via words_of_shrinks
{
    let t = trimmed_start(s);
    if t.len() == 0 {
        seq![]
    } else {
        seq![t.take(first_space(t) as int)] + words_of(t.skip(first_space(t) as int))
    }
}

#[via_fn]
proof fn words_of_shrinks(s: Seq<char>) {
    let t = trimmed_start(s);
    lemma_trimmed_start_len(s);
    lemma_first_space_bound(t);
}

/// The words of a text.
pub fn words(s: &str) -> (r: Vec<String>)
    ensures
        texts(r@) == words_of(s@),
{
    let chars = chars_of(s);
    let mut out: Vec<String> = Vec::new();
    let mut i: usize = skip_spaces(&chars, 0);
    proof {
        assert(s@.skip(0) =~= s@);
        lemma_words_of_trimmed(s@);
        assert(texts(out@) + words_of(chars@.skip(i as int)) =~= words_of(s@));
    }
    while i < chars.len()
        invariant
            i <= chars@.len(),
            chars@ == s@,
            i < chars@.len() ==> !is_space(chars@[i as int]),
            texts(out@) + words_of(chars@.skip(i as int)) == words_of(s@),
        decreases chars@.len() - i,
    {
        let ghost t = chars@.skip(i as int);
        let start: usize = i;
        while i < chars.len() && !space(chars[i])
            invariant
                start <= i <= chars@.len(),
                t == chars@.skip(start as int),
                first_space(t) == (i - start) + first_space(chars@.skip(i as int)),
                start < chars@.len(),
                !is_space(chars@[start as int]),
                i == start ==> !is_space(chars@[i as int]),
            decreases chars@.len() - i,
        {
            proof {
                assert(chars@.skip(i as int).skip(1) =~= chars@.skip(i + 1));
            }
            i += 1;
        }
        let ghost before = texts(out@);
        let ghost stop = i;
        out.push(piece(chars.as_slice(), start, i));
        let next: usize = skip_spaces(&chars, i);
        proof {
            assert(trimmed_start(t) == t);
            assert(first_space(t) == i - start);
            assert(t.take(i - start) =~= chars@.subrange(start as int, i as int));
            assert(t.skip(i - start) =~= chars@.skip(i as int));
            lemma_words_of_trimmed(chars@.skip(i as int));
            assert(texts(out@) =~= before.push(t.take(i - start)));
            assert(words_of(t) == seq![t.take(i - start)] + words_of(chars@.skip(i as int)));
            assert(texts(out@) + words_of(chars@.skip(next as int)) =~= before + words_of(t));
        }
        i = next;
    }
    proof {
        assert(words_of(chars@.skip(i as int)) =~= seq![]);
        assert(texts(out@) =~= texts(out@) + words_of(chars@.skip(i as int)));
    }
    out
}

proof fn lemma_words_of_trimmed(s: Seq<char>)
    ensures
        words_of(trimmed_start(s)) == words_of(s),
{
    lemma_trimmed_start_len(s);
    let t = trimmed_start(s);
    assert(trimmed_start(t) == t);
}

// ---------------------------------------------------------------------------
// Splitting and joining
// ---------------------------------------------------------------------------

/// The index of the first `c` in `s`, or the length of `s`.
pub open spec fn first_of(s: Seq<char>, c: char) -> nat
    decreases s.len(),
{
    if s.len() == 0 || s[0] == c {
        0
    } else {
        1 + first_of(s.skip(1), c)
    }
}

/// Before the first `c` there is none, and at it there is one.
pub proof fn lemma_first_of(s: Seq<char>, c: char)
    ensures
        first_of(s, c) <= s.len(),
        forall|i: int| 0 <= i < first_of(s, c) ==> s[i] != c,
        first_of(s, c) < s.len() ==> s[first_of(s, c) as int] == c,
    decreases s.len(),
{
    if s.len() > 0 && s[0] != c {
        let t = s.skip(1);
        lemma_first_of(t, c);
        assert forall|i: int| 0 <= i < first_of(s, c) implies s[i] != c by {
            if i > 0 {
                assert(s[i] == t[i - 1]);
            }
        }
    }
}

/// An index with those two properties is the first.
pub proof fn lemma_first_of_is(s: Seq<char>, c: char, i: int)
    requires
        0 <= i <= s.len(),
        forall|k: int| 0 <= k < i ==> s[k] != c,
        i < s.len() ==> s[i] == c,
    ensures
        first_of(s, c) == i,
{
    lemma_first_of(s, c);
    let f = first_of(s, c) as int;
    if f < i {
        assert(s[f] != c);
    }
    if i < f {
        assert(s[i] != c);
    }
}

/// Finds the first `c` at or after `from`.
pub fn find_char(chars: &Vec<char>, from: usize, c: char) -> (r: usize)
    requires
        from <= chars@.len(),
    ensures
        from <= r <= chars@.len(),
        first_of(chars@.skip(from as int), c) == r - from,
{
    let ghost t = chars@.skip(from as int);
    let mut i: usize = from;
    while i < chars.len() && chars[i] != c
        invariant
            from <= i <= chars@.len(),
            t == chars@.skip(from as int),
            forall|k: int| 0 <= k < i - from ==> t[k] != c,
        decreases chars@.len() - i,
    {
        assert(t[i - from] == chars@[i as int]);
        i += 1;
    }
    proof {
        lemma_first_of_is(t, c, i - from);
    }
    i
}

/// The parts of `s` between the `c`s: one more than there are `c`s.
pub open spec fn split_at_each(s: Seq<char>, c: char) -> Seq<Seq<char>>
    decreases s.len(),
{
    let i = first_of(s, c);
    if i >= s.len() {
        seq![s]
    } else {
        seq![s.take(i as int)] + split_at_each(s.skip(i as int + 1), c)
    }
}

/// The parts of a text between the `c`s.
pub fn split(s: &str, c: char) -> (r: Vec<String>)
    ensures
        texts(r@) == split_at_each(s@, c),
{
    let chars = chars_of(s);
    let mut out: Vec<String> = Vec::new();
    let mut start: usize = 0;
    proof {
        assert(s@.skip(0) =~= s@);
        assert(texts(out@) + split_at_each(s@, c) =~= split_at_each(s@, c));
    }
    loop
        invariant
            start <= chars@.len(),
            chars@ == s@,
            texts(out@) + split_at_each(chars@.skip(start as int), c) == split_at_each(s@, c),
        decreases chars@.len() - start,
    {
        let i: usize = find_char(&chars, start, c);
        let ghost t = chars@.skip(start as int);
        let ghost before = texts(out@);
        out.push(piece(chars.as_slice(), start, i));
        proof {
            assert(t.take(i - start) =~= chars@.subrange(start as int, i as int));
            assert(texts(out@) =~= before.push(t.take(i - start)));
        }
        if i == chars.len() {
            proof {
                assert(t.take(i - start) =~= t);
                assert(split_at_each(t, c) =~= seq![t]);
                assert(texts(out@) =~= before + split_at_each(t, c));
            }
            return out;
        }
        proof {
            assert(t.skip(i - start + 1) =~= chars@.skip(i + 1));
            assert(texts(out@) + split_at_each(chars@.skip(i + 1), c) =~= before + split_at_each(
                t,
                c,
            ));
        }
        start = i + 1;
    }
}

/// `s` up to the first `c`, and what follows that `c`.
pub open spec fn split_first(s: Seq<char>, c: char) -> Option<(Seq<char>, Seq<char>)> {
    let i = first_of(s, c);
    if i < s.len() {
        Some((s.take(i as int), s.skip(i as int + 1)))
    } else {
        None
    }
}

/// A text up to the first `c`, and what follows it.
pub fn split_once(s: &str, c: char) -> (r: Option<(String, String)>)
    ensures
        match r {
            Some(p) => split_first(s@, c) == Some((p.0@, p.1@)),
            None => split_first(s@, c) is None,
        },
{
    let chars = chars_of(s);
    let i: usize = find_char(&chars, 0, c);
    proof {
        assert(s@.skip(0) =~= s@);
    }
    if i < chars.len() {
        proof {
            assert(s@.subrange(0, i as int) =~= s@.take(i as int));
            assert(s@.subrange(i + 1, s@.len() as int) =~= s@.skip(i + 1));
        }
        Some((piece(chars.as_slice(), 0, i), piece(chars.as_slice(), i + 1, chars.len())))
    } else {
        None
    }
}

/// A line without the `\r` that a `\r\n` ending leaves on it.
pub open spec fn without_cr(s: Seq<char>) -> Seq<char> {
    if s.len() > 0 && s.last() == '\r' {
        s.drop_last()
    } else {
        s
    }
}

/// The lines of `s`, without their `\n` or `\r\n`; a final line need not be ended.
pub open spec fn lines_of(s: Seq<char>) -> Seq<Seq<char>>
    decreases s.len(),
{
    if s.len() == 0 {
        seq![]
    } else {
        let i = first_of(s, '\n');
        if i >= s.len() {
            seq![s]
        } else {
            seq![without_cr(s.take(i as int))] + lines_of(s.skip(i as int + 1))
        }
    }
}

/// The lines of a text.
pub fn lines(s: &str) -> (r: Vec<String>)
    ensures
        texts(r@) == lines_of(s@),
{
    let chars = chars_of(s);
    let mut out: Vec<String> = Vec::new();
    let mut start: usize = 0;
    proof {
        assert(s@.skip(0) =~= s@);
        assert(texts(out@) + lines_of(s@) =~= lines_of(s@));
    }
    while start < chars.len()
        invariant
            start <= chars@.len(),
            chars@ == s@,
            texts(out@) + lines_of(chars@.skip(start as int)) == lines_of(s@),
        decreases chars@.len() - start,
    {
        let i: usize = find_char(&chars, start, '\n');
        let ghost t = chars@.skip(start as int);
        let ghost before = texts(out@);
        if i == chars.len() {
            out.push(piece(chars.as_slice(), start, i));
            proof {
                assert(chars@.subrange(start as int, i as int) =~= t);
                assert(texts(out@) =~= before + lines_of(t));
            }
            return out;
        }
        let end: usize = if i > start && chars[i - 1] == '\r' {
            i - 1
        } else {
            i
        };
        out.push(piece(chars.as_slice(), start, end));
        proof {
            let whole = t.take(i - start);
            assert(without_cr(whole) =~= chars@.subrange(start as int, end as int));
            assert(texts(out@) =~= before.push(without_cr(whole)));
            assert(t.skip(i - start + 1) =~= chars@.skip(i + 1));
            assert(texts(out@) + lines_of(chars@.skip(i + 1)) =~= before + lines_of(t));
        }
        start = i + 1;
    }
    proof {
        assert(lines_of(chars@.skip(start as int)) =~= seq![]);
        assert(texts(out@) =~= texts(out@) + lines_of(chars@.skip(start as int)));
    }
    out
}

/// The texts of `parts` in order, with `sep` between neighbours.
pub open spec fn joined(parts: Seq<Seq<char>>, sep: Seq<char>) -> Seq<char>
    decreases parts.len(),
{
    if parts.len() == 0 {
        seq![]
    } else if parts.len() == 1 {
        parts[0]
    } else {
        joined(parts.drop_last(), sep) + sep + parts.last()
    }
}

/// Texts in order, with `sep` between neighbours.
pub fn join(parts: &Vec<String>, sep: &str) -> (r: String)
    ensures
        r@ == joined(texts(parts@), sep@),
{
    let mut out = String::new();
    let mut i: usize = 0;
    let ghost all = texts(parts@);
    while i < parts.len()
        invariant
            i <= parts@.len(),
            all == texts(parts@),
            out@ == joined(all.take(i as int), sep@),
        decreases parts@.len() - i,
    {
        proof {
            assert(all.take(i + 1).drop_last() =~= all.take(i as int));
            assert(all.take(i + 1).last() == parts@[i as int]@);
        }
        if i > 0 {
            out.push_str(sep);
        }
        let ghost mid = out@;
        out.push_str(parts[i].as_str());
        proof {
            if i == 0 {
                assert(out@ =~= parts@[0]@);
            }
        }
        i += 1;
    }
    proof {
        assert(all.take(all.len() as int) =~= all);
    }
    out
}

/// `s` begins with `prefix`.
pub open spec fn begins(s: Seq<char>, prefix: Seq<char>) -> bool {
    prefix.len() <= s.len() && s.take(prefix.len() as int) == prefix
}

/// What follows `prefix` in `s`, if `s` begins with it.
pub fn strip_prefix(s: &str, prefix: &str) -> (r: Option<String>)
    ensures
        match r {
            Some(rest) => begins(s@, prefix@) && rest@ == s@.skip(prefix@.len() as int),
            None => !begins(s@, prefix@),
        },
{
    let chars = chars_of(s);
    let p = chars_of(prefix);
    if matches_at(&chars, 0, &p) {
        proof {
            assert(s@.subrange(0, p@.len() as int) =~= s@.take(p@.len() as int));
            assert(s@.subrange(p@.len() as int, s@.len() as int) =~= s@.skip(p@.len() as int));
        }
        Some(piece(chars.as_slice(), p.len(), chars.len()))
    } else {
        proof {
            if begins(s@, prefix@) {
                assert(s@.subrange(0, p@.len() as int) =~= s@.take(p@.len() as int));
            }
        }
        None
    }
}

/// `pat` stands in `s` at index `i`.
pub open spec fn stands_at(s: Seq<char>, i: int, pat: Seq<char>) -> bool {
    0 <= i && i + pat.len() <= s.len() && s.subrange(i, i + pat.len()) == pat
}

/// Whether `pat` stands at an index.
pub fn matches_at(chars: &Vec<char>, at: usize, pat: &Vec<char>) -> (r: bool)
    requires
        at <= chars@.len(),
    ensures
        r == stands_at(chars@, at as int, pat@),
{
    if pat.len() > chars.len() - at {
        return false;
    }
    let mut k: usize = 0;
    while k < pat.len()
        invariant
            k <= pat@.len(),
            at <= chars@.len(),
            chars@.len() == chars.len(),
            at + pat@.len() <= chars@.len(),
            chars@.subrange(at as int, at + k) == pat@.take(k as int),
        decreases pat@.len() - k,
    {
        if chars[at + k] != pat[k] {
            proof {
                assert(chars@.subrange(at as int, at + pat@.len())[k as int] == chars@[at + k]);
            }
            return false;
        }
        proof {
            assert(chars@.subrange(at as int, at + k + 1) =~= pat@.take(k + 1));
        }
        k += 1;
    }
    proof {
        assert(pat@.take(pat@.len() as int) =~= pat@);
    }
    true
}

/// `pat` occurs somewhere in `s`.
pub open spec fn occurs(s: Seq<char>, pat: Seq<char>) -> bool {
    exists|i: int| stands_at(s, i, pat)
}

/// Whether `pat` occurs in a text.
pub fn contains(s: &str, pat: &str) -> (r: bool)
    ensures
        r == occurs(s@, pat@),
{
    let chars = chars_of(s);
    let p = chars_of(pat);
    let mut i: usize = 0;
    while i < chars.len()
        invariant
            i <= chars@.len(),
            chars@ == s@,
            p@ == pat@,
            forall|k: int| 0 <= k < i ==> !stands_at(s@, k, pat@),
        decreases chars@.len() - i,
    {
        if matches_at(&chars, i, &p) {
            return true;
        }
        i += 1;
    }
    matches_at(&chars, i, &p)
}

/// `s` with every `from`, found left to right without overlap, replaced by `to`.
pub open spec fn replaced(s: Seq<char>, from: Seq<char>, to: Seq<char>) -> Seq<char>
    decreases s.len(),
{
    if from.len() == 0 || s.len() == 0 {
        s
    } else if begins(s, from) {
        to + replaced(s.skip(from.len() as int), from, to)
    } else {
        seq![s[0]] + replaced(s.skip(1), from, to)
    }
}

/// A text with every `from` replaced by `to`.
pub fn replace(s: &str, from: &str, to: &str) -> (r: String)
    requires
        from@.len() > 0,
    ensures
        r@ == replaced(s@, from@, to@),
{
    let chars = chars_of(s);
    let p = chars_of(from);
    let mut out = String::new();
    let mut i: usize = 0;
    proof {
        assert(s@.skip(0) =~= s@);
        assert(out@ + replaced(s@, from@, to@) =~= replaced(s@, from@, to@));
    }
    while i < chars.len()
        invariant
            i <= chars@.len(),
            chars@ == s@,
            p@ == from@,
            from@.len() > 0,
            out@ + replaced(s@.skip(i as int), from@, to@) == replaced(s@, from@, to@),
        decreases chars@.len() - i,
    {
        let ghost t = s@.skip(i as int);
        let ghost before = out@;
        let hit: bool = matches_at(&chars, i, &p);
        proof {
            if i + p@.len() <= s@.len() {
                assert(s@.subrange(i as int, i + p@.len()) =~= t.take(p@.len() as int));
            }
            assert(hit == begins(t, from@));
        }
        if hit {
            out.push_str(to);
            proof {
                assert(t.skip(p@.len() as int) =~= s@.skip(i + p@.len()));
                assert(out@ + replaced(s@.skip(i + p@.len()), from@, to@) =~= before + replaced(
                    t,
                    from@,
                    to@,
                ));
            }
            i += p.len();
        } else {
            out.push(chars[i]);
            proof {
                assert(t.skip(1) =~= s@.skip(i + 1));
                assert(out@ + replaced(s@.skip(i + 1), from@, to@) =~= before + replaced(
                    t,
                    from@,
                    to@,
                ));
            }
            i += 1;
        }
    }
    proof {
        assert(out@ + replaced(s@.skip(i as int), from@, to@) =~= out@);
    }
    out
}

/// `s` followed by the spaces that bring it to `width` characters.
pub open spec fn padded(s: Seq<char>, width: nat) -> Seq<char> {
    if s.len() >= width {
        s
    } else {
        s + Seq::new((width - s.len()) as nat, |i: int| ' ')
    }
}

/// A text with spaces on the right, up to a width.
pub fn pad(s: &str, width: usize) -> (r: String)
    ensures
        r@ == padded(s@, width as nat),
{
    let mut out = s.to_owned();
    let mut n: usize = chars_of(s).len();
    let ghost start = n;
    while n < width
        invariant
            start <= n,
            s@.len() == start,
            n <= width || n == start,
            out@ == s@ + Seq::new((n - start) as nat, |i: int| ' '),
        decreases width - n,
    {
        out.push(' ');
        n += 1;
        proof {
            assert(out@ =~= s@ + Seq::new((n - start) as nat, |i: int| ' '));
        }
    }
    proof {
        assert(out@ =~= padded(s@, width as nat));
    }
    out
}

/// Whether `list` holds the text `s`.
pub fn holds_text(list: &Vec<String>, s: &str) -> (r: bool)
    ensures
        r == texts(list@).contains(s@),
{
    let mut i: usize = 0;
    while i < list.len()
        invariant
            i <= list@.len(),
            forall|k: int| 0 <= k < i ==> texts(list@)[k] != s@,
        decreases list@.len() - i,
    {
        if same(list[i].as_str(), s) {
            proof {
                assert(texts(list@)[i as int] == s@);
            }
            return true;
        }
        i += 1;
    }
    false
}

/// `s` up to the first occurrence of `pat`, or all of it.
pub open spec fn before(s: Seq<char>, pat: Seq<char>) -> Seq<char>
    decreases s.len(),
{
    if s.len() == 0 || begins(s, pat) {
        seq![]
    } else {
        seq![s[0]] + before(s.skip(1), pat)
    }
}

/// A text up to the first `pat`.
pub fn cut_at(s: &str, pat: &str) -> (r: String)
    ensures
        r@ == before(s@, pat@),
{
    let chars = chars_of(s);
    let p = chars_of(pat);
    let mut out = String::new();
    let mut i: usize = 0;
    proof {
        assert(s@.skip(0) =~= s@);
        assert(out@ + before(s@, pat@) =~= before(s@, pat@));
    }
    while i < chars.len()
        invariant
            i <= chars@.len(),
            chars@ == s@,
            p@ == pat@,
            out@ + before(s@.skip(i as int), pat@) == before(s@, pat@),
        decreases chars@.len() - i,
    {
        let ghost t = s@.skip(i as int);
        let ghost sofar = out@;
        let hit: bool = matches_at(&chars, i, &p);
        proof {
            if i + p@.len() <= s@.len() {
                assert(s@.subrange(i as int, i + p@.len()) =~= t.take(p@.len() as int));
            }
            assert(hit == begins(t, pat@));
        }
        if hit {
            proof {
                assert(sofar + before(t, pat@) =~= sofar);
            }
            return out;
        }
        out.push(chars[i]);
        proof {
            assert(t.skip(1) =~= s@.skip(i + 1));
            assert(out@ + before(s@.skip(i + 1), pat@) =~= sofar + before(t, pat@));
        }
        i += 1;
    }
    proof {
        assert(out@ + before(s@.skip(i as int), pat@) =~= out@);
    }
    out
}

/// The one-element list of `s` where `holds`, and the empty list elsewhere.
pub open spec fn listed(holds: bool, s: Seq<char>) -> Seq<Seq<char>> {
    if holds {
        seq![s]
    } else {
        seq![]
    }
}

/// Appends `s` to `list`.
pub fn note(list: &mut Vec<String>, s: String)
    ensures
        texts(final(list)@) == texts(old(list)@).push(s@),
{
    list.push(s);
    proof {
        assert(texts(list@) =~= texts(old(list)@).push(s@));
    }
}

/// Appends `s` to `list` where `holds`.
pub fn note_if(list: &mut Vec<String>, holds: bool, s: String)
    ensures
        texts(final(list)@) == texts(old(list)@) + listed(holds, s@),
{
    if holds {
        list.push(s);
    }
    proof {
        assert(texts(list@) =~= texts(old(list)@) + listed(holds, s@));
    }
}

/// The decimal notation of a number below ten thousand takes at most four digits.
pub proof fn lemma_decimal_short(n: nat)
    requires
        n < 10_000,
    ensures
        decimal(n).len() <= 4,
{
    reveal_with_fuel(decimal, 5);
}

/// Why digits from index `i` on are not a number up to `max`: the first of them
/// that is no digit, or that takes the number past `max`, decides.
pub open spec fn scan_error(body: Seq<char>, i: int, max: nat) -> Seq<char>
    decreases body.len() - i,
{
    if i < 0 || i >= body.len() {
        seq![]
    } else if !is_digit(body[i]) {
        "invalid digit found in string"@
    } else if digits_value(body.take(i + 1)) > max {
        "number too large to fit in target type"@
    } else {
        scan_error(body, i + 1, max)
    }
}

/// Why a text is not a whole number up to `max`.
pub open spec fn number_error(s: Seq<char>, max: nat) -> Seq<char> {
    if s.len() == 0 {
        "cannot parse integer from empty string"@
    } else if s.len() == 1 && s[0] == '+' {
        "invalid digit found in string"@
    } else if s[0] == '+' {
        scan_error(s.skip(1), 0, max)
    } else {
        scan_error(s, 0, max)
    }
}

fn scan_number(chars: &Vec<char>, from: usize, max: u128) -> (r: Result<u128, &'static str>)
    requires
        from < chars@.len(),
    ensures
        match r {
            Ok(n) => all_digits(chars@.skip(from as int)) && digits_value(chars@.skip(from as int))
                == n && n <= max,
            Err(e) => (!all_digits(chars@.skip(from as int)) || digits_value(
                chars@.skip(from as int),
            ) > max) && e@ == scan_error(chars@.skip(from as int), 0, max as nat),
        },
{
    let ghost body = chars@.skip(from as int);
    let mut acc: u128 = 0;
    let mut i: usize = from;
    while i < chars.len()
        invariant
            from <= i <= chars@.len(),
            body == chars@.skip(from as int),
            acc <= max,
            acc == digits_value(body.take(i - from)),
            forall|k: int| 0 <= k < i - from ==> is_digit(#[trigger] body[k]),
            scan_error(body, 0, max as nat) == scan_error(body, i - from, max as nat),
        decreases chars@.len() - i,
    {
        let c: char = chars[i];
        assert(c == body[i - from]);
        if c < '0' || c > '9' {
            return Err("invalid digit found in string");
        }
        let d: u128 = (c as u32 - 48) as u128;
        proof {
            assert(body.take(i - from + 1).drop_last() =~= body.take(i - from));
            assert(body.take(i - from + 1).last() == c);
            lemma_digits_prefix(body, i - from + 1);
        }
        if d > max || acc > (max - d) / 10 {
            proof {
                assert(acc * 10 + d > max);
            }
            return Err("number too large to fit in target type");
        }
        acc = acc * 10 + d;
        i += 1;
    }
    proof {
        assert(body.take(body.len() as int) =~= body);
    }
    Ok(acc)
}

/// A whole number up to `max`, or why the text is none.
pub fn read_number(s: &str, max: u128) -> (r: Result<u128, &'static str>)
    ensures
        match r {
            Ok(n) => parsed_nat(s@, max as nat) == Some(n as nat) && n <= max,
            Err(e) => parsed_nat(s@, max as nat) is None && e@ == number_error(s@, max as nat),
        },
{
    let chars = chars_of(s);
    proof {
        assert(s@.skip(0) =~= s@);
    }
    if chars.len() == 0 {
        return Err("cannot parse integer from empty string");
    }
    if chars[0] == '+' {
        if chars.len() == 1 {
            return Err("invalid digit found in string");
        }
        scan_number(&chars, 1, max)
    } else {
        scan_number(&chars, 0, max)
    }
}

/// `s` without the copies of `prefix` it begins with.
pub open spec fn without_prefixes(s: Seq<char>, prefix: Seq<char>) -> Seq<char>
    decreases s.len(),
{
    if prefix.len() > 0 && begins(s, prefix) {
        without_prefixes(s.skip(prefix.len() as int), prefix)
    } else {
        s
    }
}

/// A text without the copies of `prefix` it begins with.
pub fn strip_prefixes(s: &str, prefix: &str) -> (r: String)
    ensures
        r@ == without_prefixes(s@, prefix@),
{
    let mut rest = s.to_owned();
    if prefix.is_empty() {
        return rest;
    }
    loop
        invariant
            prefix@.len() > 0,
            without_prefixes(rest@, prefix@) == without_prefixes(s@, prefix@),
        decreases rest@.len(),
    {
        match strip_prefix(rest.as_str(), prefix) {
            Some(next) => {
                rest = next;
            },
            None => {
                return rest;
            },
        }
    }
}

/// `s` ends with `suffix`.
pub open spec fn ends(s: Seq<char>, suffix: Seq<char>) -> bool {
    suffix.len() <= s.len() && s.skip(s.len() - suffix.len()) == suffix
}

/// Whether a text ends with `suffix`.
pub fn ends_with(s: &str, suffix: &str) -> (r: bool)
    ensures
        r == ends(s@, suffix@),
{
    let chars = chars_of(s);
    let p = chars_of(suffix);
    if p.len() > chars.len() {
        return false;
    }
    let at: usize = chars.len() - p.len();
    proof {
        assert(chars@.subrange(at as int, at + p@.len()) =~= chars@.skip(at as int));
    }
    matches_at(&chars, at, &p)
}

/// Whether a text begins with `prefix`.
pub fn starts_with(s: &str, prefix: &str) -> (r: bool)
    ensures
        r == begins(s@, prefix@),
{
    strip_prefix(s, prefix).is_some()
}

/// Appends every text of `more` to `list`.
pub fn note_all(list: &mut Vec<String>, more: &Vec<String>)
    ensures
        texts(final(list)@) == texts(old(list)@) + texts(more@),
{
    let ghost start = texts(list@);
    let mut i: usize = 0;
    proof {
        assert(texts(list@) =~= start + texts(more@).take(0));
    }
    while i < more.len()
        invariant
            i <= more@.len(),
            texts(list@) == start + texts(more@).take(i as int),
        decreases more@.len() - i,
    {
        note(list, more[i].clone());
        i += 1;
        proof {
            assert(texts(list@) =~= start + texts(more@).take(i as int));
        }
    }
    proof {
        assert(texts(more@).take(i as int) =~= texts(more@));
    }
}

/// Appends fixed texts, in order.
pub fn note_each(list: &mut Vec<String>, more: &[&str])
    ensures
        texts(final(list)@) == texts(old(list)@) + more@.map_values(|s: &str| s@),
{
    let ghost start = texts(list@);
    let ghost want = more@.map_values(|s: &str| s@);
    let mut i: usize = 0;
    proof {
        assert(texts(list@) =~= start + want.take(0));
    }
    while i < more.len()
        invariant
            i <= more@.len(),
            want == more@.map_values(|s: &str| s@),
            texts(list@) == start + want.take(i as int),
        decreases more@.len() - i,
    {
        note(list, more[i].to_owned());
        i += 1;
        proof {
            assert(texts(list@) =~= start + want.take(i as int));
        }
    }
    proof {
        assert(want.take(i as int) =~= want);
    }
}

// ---------------------------------------------------------------------------
// Laws
// ---------------------------------------------------------------------------

/// Reading back the notation of an integer gives the integer.
pub proof fn law_integer_reads_back(n: int, min: nat, max: nat)
    requires
        -min <= n <= max,
    ensures
        parsed_int(decimal_int(n), min, max) == Some(n),
{
    if n < 0 {
        let s = decimal_int(n);
        lemma_decimal_digits((-n) as nat);
        assert(s.skip(1) =~= decimal((-n) as nat));
    } else {
        law_decimal_reads_back(n as nat, max);
        lemma_decimal_digits(n as nat);
        assert(is_digit(decimal(n as nat)[0]));
    }
}

/// A digit behind a number makes it ten times as large, and adds itself.
pub proof fn law_digits_are_positional(s: Seq<char>, c: char)
    requires
        is_digit(c),
    ensures
        digits_value(s.push(c)) == 10 * digits_value(s) + (c as u32 - '0' as u32),
        digits_value(seq![]) == 0,
{
    assert(s.push(c).drop_last() =~= s);
}

/// What is read as a whole number is made of digits, behind one `+` at most, and stays
/// within its bound; what is made of digits and stays within the bound is read.
pub proof fn law_numbers_are_digits(s: Seq<char>, max: nat)
    ensures
        parsed_nat(s, max) is Some ==> parsed_nat(s, max)->Some_0 <= max && s.len() > 0 && forall|
            i: int,
        |
            0 <= i < s.len() ==> '0' <= #[trigger] s[i] <= '9' || (i == 0 && s[i] == '+'
                && s.len() > 1),
        s.len() > 0 && digits_value(s) <= max && (forall|i: int|
            0 <= i < s.len() ==> '0' <= #[trigger] s[i] <= '9') ==> parsed_nat(s, max) == Some(
            digits_value(s),
        ),
{
    if s.len() > 0 && s[0] == '+' {
        let body = s.skip(1);
        if all_digits(body) {
            assert forall|i: int| 1 <= i < s.len() implies '0' <= #[trigger] s[i] <= '9' by {
                assert(is_digit(body[i - 1]));
            }
        }
    }
}

/// The white space below `0x80`.
pub proof fn law_ascii_space(c: char)
    requires
        (c as u32) < 0x80,
    ensures
        is_space(c) <==> c == ' ' || c == '\t' || c == '\n' || c == '\r' || c as u32 == 0xb || c as u32
            == 0xc,
{
}

proof fn lemma_trimmed_start_at(s: Seq<char>) -> (k: int)
    ensures
        0 <= k <= s.len(),
        trimmed_start(s) == s.skip(k),
        forall|i: int| 0 <= i < k ==> is_space(#[trigger] s[i]),
        k < s.len() ==> !is_space(s[k]),
    decreases s.len(),
{
    if s.len() > 0 && is_space(s[0]) {
        let t = s.skip(1);
        let k = lemma_trimmed_start_at(t);
        assert(t.skip(k) =~= s.skip(k + 1));
        assert forall|i: int| 0 <= i < k + 1 implies is_space(#[trigger] s[i]) by {
            if i > 0 {
                assert(t[i - 1] == s[i]);
            }
        }
        k + 1
    } else {
        assert(s.skip(0) =~= s);
        0
    }
}

proof fn lemma_trimmed_end_at(s: Seq<char>) -> (k: int)
    ensures
        0 <= k <= s.len(),
        trimmed_end(s) == s.take(k),
        forall|i: int| k <= i < s.len() ==> is_space(#[trigger] s[i]),
        k > 0 ==> !is_space(s[k - 1]),
    decreases s.len(),
{
    if s.len() > 0 && is_space(s.last()) {
        let t = s.drop_last();
        let k = lemma_trimmed_end_at(t);
        assert(t.take(k) =~= s.take(k));
        assert forall|i: int| k <= i < s.len() implies is_space(#[trigger] s[i]) by {
            if i < t.len() {
                assert(t[i] == s[i]);
            }
        }
        k
    } else {
        assert(s.take(s.len() as int) =~= s);
        s.len() as int
    }
}

/// `t` is `s` from `a` up to `b`, with nothing but white space before and behind it, and
/// none at its own ends.
pub open spec fn is_trim(s: Seq<char>, t: Seq<char>, a: int, b: int) -> bool {
    &&& 0 <= a <= b <= s.len()
    &&& t == s.subrange(a, b)
    &&& forall|i: int| 0 <= i < a || b <= i < s.len() ==> is_space(#[trigger] s[i])
    &&& t.len() > 0 ==> !is_space(t[0]) && !is_space(t.last())
}

/// A trim takes away white space at the two ends, all of it, and nothing else.
pub proof fn law_trim_takes_the_ends(s: Seq<char>)
    ensures
        exists|a: int, b: int| is_trim(s, trimmed(s), a, b),
{
    let a = lemma_trimmed_start_at(s);
    let u = s.skip(a);
    let k = lemma_trimmed_end_at(u);
    assert(u.take(k) =~= s.subrange(a, a + k));
    let t = trimmed(s);
    assert forall|i: int| 0 <= i < a || a + k <= i < s.len() implies is_space(#[trigger] s[i]) by {
        if i >= a + k {
            assert(u[i - a] == s[i]);
        }
    }
    if k > 0 {
        assert(u[k - 1] == t.last());
        assert(u[0] == s[a]);
        assert(t[0] == s[a]);
    }
    assert(is_trim(s, t, a, a + k));
}

/// The parts of a text hold no separator, and with a separator between neighbours they
/// are the text.
pub proof fn law_split_is_undone(s: Seq<char>, c: char)
    ensures
        split_at_each(s, c).len() > 0,
        joined(split_at_each(s, c), seq![c]) == s,
        forall|i: int, k: int|
            0 <= i < split_at_each(s, c).len() && 0 <= k < split_at_each(s, c)[i].len()
                ==> #[trigger] split_at_each(s, c)[i][k] != c,
    decreases s.len(),
{
    lemma_first_of(s, c);
    let i = first_of(s, c) as int;
    let all = split_at_each(s, c);
    if i >= s.len() {
        assert(all =~= seq![s]);
    } else {
        let rest = split_at_each(s.skip(i + 1), c);
        law_split_is_undone(s.skip(i + 1), c);
        lemma_joined_first(s.take(i), rest, seq![c]);
        assert(all == seq![s.take(i)] + rest);
        assert(s =~= s.take(i) + seq![c] + s.skip(i + 1));
        assert forall|p: int, k: int| 0 <= p < all.len() && 0 <= k < all[p].len() implies
            #[trigger] all[p][k] != c by {
            if p > 0 {
                assert(all[p] == rest[p - 1]);
                assert(rest[p - 1][k] != c);
            }
        }
    }
}

/// The first of joined texts stands in front.
pub proof fn lemma_joined_first(p: Seq<char>, rest: Seq<Seq<char>>, sep: Seq<char>)
    requires
        rest.len() > 0,
    ensures
        joined(seq![p] + rest, sep) == p + sep + joined(rest, sep),
    decreases rest.len(),
{
    let all = seq![p] + rest;
    if rest.len() == 1 {
        assert(all.drop_last() =~= seq![p]);
        assert(joined(seq![p], sep) == p);
        assert(all.last() == rest[0]);
    } else {
        assert(all.drop_last() =~= seq![p] + rest.drop_last());
        lemma_joined_first(p, rest.drop_last(), sep);
        assert(joined(all, sep) =~= p + sep + joined(rest, sep));
    }
}

/// Texts without the separator are read back from their join.
pub proof fn law_join_is_undone(parts: Seq<Seq<char>>, c: char)
    requires
        parts.len() > 0,
        forall|i: int, k: int|
            0 <= i < parts.len() && 0 <= k < parts[i].len() ==> #[trigger] parts[i][k] != c,
    ensures
        split_at_each(joined(parts, seq![c]), c) == parts,
    decreases parts.len(),
{
    let p = parts[0];
    assert forall|k: int| 0 <= k < p.len() implies p[k] != c by {
        assert(parts[0][k] != c);
    }
    if parts.len() == 1 {
        lemma_first_of_is(p, c, p.len() as int);
        assert(parts =~= seq![p]);
    } else {
        let rest = parts.skip(1);
        assert(parts =~= seq![p] + rest);
        lemma_joined_first(p, rest, seq![c]);
        let s = joined(parts, seq![c]);
        assert forall|i: int, k: int| 0 <= i < rest.len() && 0 <= k < rest[i].len() implies
            #[trigger] rest[i][k] != c by {
            assert(parts[i + 1][k] != c);
        }
        law_join_is_undone(rest, c);
        assert forall|k: int| 0 <= k < p.len() implies s[k] != c by {
            assert(s[k] == p[k]);
        }
        lemma_first_of_is(s, c, p.len() as int);
        assert(s.take(p.len() as int) =~= p);
        assert(s.skip(p.len() as int + 1) =~= joined(rest, seq![c]));
    }
}

/// A cut at the first separator leaves a part without it, and loses only it.
pub proof fn law_split_once_is_undone(s: Seq<char>, c: char)
    ensures
        match split_first(s, c) {
            Some((a, b)) => s == a + seq![c] + b && forall|i: int| 0 <= i < a.len() ==> a[i] != c,
            None => forall|i: int| 0 <= i < s.len() ==> s[i] != c,
        },
{
    lemma_first_of(s, c);
    let i = first_of(s, c) as int;
    if i < s.len() {
        assert(s =~= s.take(i) + seq![c] + s.skip(i + 1));
    }
}

proof fn lemma_first_space_is(s: Seq<char>, k: int)
    requires
        0 <= k <= s.len(),
        forall|i: int| 0 <= i < k ==> !is_space(#[trigger] s[i]),
        k < s.len() ==> is_space(s[k]),
    ensures
        first_space(s) == k,
    decreases s.len(),
{
    if k > 0 {
        assert(!is_space(s[0]));
        let t = s.skip(1);
        assert forall|i: int| 0 <= i < k - 1 implies !is_space(#[trigger] t[i]) by {
            assert(t[i] == s[i + 1]);
        }
        lemma_first_space_is(t, k - 1);
    }
}

/// A run without white space is one word; white space around words is no part of them;
/// and white space parts words.
pub proof fn law_words_are_runs(w: Seq<char>, c: char, rest: Seq<char>)
    requires
        w.len() > 0,
        forall|i: int| 0 <= i < w.len() ==> !is_space(#[trigger] w[i]),
        is_space(c),
    ensures
        words_of(w) == seq![w],
        words_of(seq![c] + rest) == words_of(rest),
        words_of(w + seq![c] + rest) == seq![w] + words_of(rest),
        words_of(seq![]) == Seq::<Seq<char>>::empty(),
{
    let n = w.len() as int;
    let none = Seq::<char>::empty();
    assert(words_of(none) =~= seq![]);
    assert(!is_space(w[0]));
    assert(trimmed_start(w) == w);
    lemma_first_space_is(w, n);
    assert(w.take(n) =~= w);
    assert(w.skip(n) =~= none);
    assert(words_of(w) =~= seq![w]);
    let a = seq![c] + rest;
    assert(a.skip(1) =~= rest);
    assert(trimmed_start(a) == trimmed_start(rest));
    lemma_words_of_trimmed(a);
    lemma_words_of_trimmed(rest);
    let s = w + seq![c] + rest;
    assert(s[0] == w[0]);
    assert forall|i: int| 0 <= i < n implies !is_space(#[trigger] s[i]) by {
        assert(s[i] == w[i]);
    }
    lemma_first_space_is(s, n);
    assert(trimmed_start(s) == s);
    assert(s.take(n) =~= w);
    assert(s.skip(n) =~= a);
}

/// A line ends at its `\n` and loses one `\r` before it; what follows is the next line;
/// a last line need not be ended.
pub proof fn law_lines_are_ended(p: Seq<char>, rest: Seq<char>)
    requires
        forall|i: int| 0 <= i < p.len() ==> p[i] != '\n',
    ensures
        lines_of(p + seq!['\n'] + rest) == seq![without_cr(p)] + lines_of(rest),
        p.len() > 0 ==> lines_of(p) == seq![p],
        lines_of(seq![]) == Seq::<Seq<char>>::empty(),
        p.len() > 0 && p.last() == '\r' ==> p == without_cr(p).push('\r'),
        p.len() > 0 && p.last() != '\r' ==> without_cr(p) == p,
{
    let s = p + seq!['\n'] + rest;
    let n = p.len() as int;
    assert forall|k: int| 0 <= k < n implies s[k] != '\n' by {
        assert(s[k] == p[k]);
    }
    lemma_first_of_is(s, '\n', n);
    assert(s.take(n) =~= p);
    assert(s.skip(n + 1) =~= rest);
    lemma_first_of_is(p, '\n', n);
    if n > 0 {
        assert(p =~= p.drop_last().push(p.last()));
    }
}

/// A cut keeps what stands before the first occurrence, whole.
pub proof fn law_cut_keeps_what_is_before(s: Seq<char>, pat: Seq<char>)
    requires
        pat.len() > 0,
    ensures
        begins(s, before(s, pat)),
        forall|i: int| 0 <= i < before(s, pat).len() ==> !stands_at(s, i, pat),
        before(s, pat).len() < s.len() ==> stands_at(s, before(s, pat).len() as int, pat),
    decreases s.len(),
{
    let b = before(s, pat);
    if s.len() == 0 || begins(s, pat) {
        assert(s.take(0) =~= b);
        if s.len() > 0 {
            assert(s.subrange(0, pat.len() as int) =~= s.take(pat.len() as int));
        }
    } else {
        let t = s.skip(1);
        law_cut_keeps_what_is_before(t, pat);
        let c = before(t, pat);
        assert(s.take(b.len() as int) =~= seq![s[0]] + t.take(c.len() as int));
        assert forall|i: int| 0 <= i < b.len() implies !stands_at(s, i, pat) by {
            if i + pat.len() <= s.len() {
                if i == 0 {
                    assert(s.subrange(0, pat.len() as int) =~= s.take(pat.len() as int));
                } else {
                    assert(s.subrange(i, i + pat.len()) =~= t.subrange(i - 1, i - 1 + pat.len()));
                    assert(!stands_at(t, i - 1, pat));
                }
            }
        }
        if b.len() < s.len() {
            let n = c.len() as int;
            assert(s.subrange(n + 1, n + 1 + pat.len()) =~= t.subrange(n, n + pat.len()));
        }
    }
}

/// A replacement leaves what stands before the first occurrence, puts `to` in its place,
/// and goes on behind it; without an occurrence it changes nothing.
pub proof fn law_replace_goes_on_behind(a: Seq<char>, from: Seq<char>, b: Seq<char>, to: Seq<char>)
    requires
        from.len() > 0,
        forall|i: int| 0 <= i < a.len() ==> !stands_at(a + from + b, i, from),
    ensures
        replaced(a + from + b, from, to) == a + to + replaced(b, from, to),
    decreases a.len(),
{
    let s = a + from + b;
    if a.len() == 0 {
        assert(s.take(from.len() as int) =~= from);
        assert(s.skip(from.len() as int) =~= b);
        assert(a + to + replaced(b, from, to) =~= to + replaced(b, from, to));
    } else {
        if begins(s, from) {
            assert(s.subrange(0, from.len() as int) =~= s.take(from.len() as int));
            assert(stands_at(s, 0, from));
        }
        let t = a.skip(1);
        assert(s.skip(1) =~= t + from + b);
        assert forall|i: int| 0 <= i < t.len() implies !stands_at(t + from + b, i, from) by {
            if i + from.len() <= (t + from + b).len() {
                assert((t + from + b).subrange(i, i + from.len()) =~= s.subrange(
                    i + 1,
                    i + 1 + from.len(),
                ));
                assert(!stands_at(s, i + 1, from));
            }
        }
        law_replace_goes_on_behind(t, from, b, to);
        assert(a + to + replaced(b, from, to) =~= seq![s[0]] + (t + to + replaced(b, from, to)));
    }
}

/// A replacement changes nothing where there is nothing to replace.
pub proof fn law_replace_needs_an_occurrence(s: Seq<char>, from: Seq<char>, to: Seq<char>)
    requires
        !occurs(s, from),
    ensures
        replaced(s, from, to) == s,
    decreases s.len(),
{
    if from.len() > 0 && s.len() > 0 {
        if begins(s, from) {
            assert(s.subrange(0, from.len() as int) =~= s.take(from.len() as int));
            assert(stands_at(s, 0, from));
        }
        let t = s.skip(1);
        if occurs(t, from) {
            let i = choose|i: int| stands_at(t, i, from);
            assert(t.subrange(i, i + from.len()) =~= s.subrange(i + 1, i + 1 + from.len()));
            assert(stands_at(s, i + 1, from));
        }
        law_replace_needs_an_occurrence(t, from, to);
        assert(s =~= seq![s[0]] + t);
    }
}

/// Padding adds spaces behind a text, up to the width and no further.
pub proof fn law_padding_adds_spaces(s: Seq<char>, width: nat)
    ensures
        begins(padded(s, width), s),
        padded(s, width).len() == if s.len() >= width {
            s.len()
        } else {
            width
        },
        forall|i: int| s.len() <= i < padded(s, width).len() ==> padded(s, width)[i] == ' ',
{
    assert(padded(s, width).take(s.len() as int) =~= s);
}

/// Zeroes in front leave a number what it is.
pub proof fn law_zeroes_in_front_are_free(n: nat, width: nat)
    ensures
        all_digits(zero_padded(n, width)),
        digits_value(zero_padded(n, width)) == n,
        zero_padded(n, width).len() >= width,
        decimal(n).len() >= width ==> zero_padded(n, width) == decimal(n),
        decimal(n).len() < width ==> zero_padded(n, width).len() == width,
{
    lemma_decimal_digits(n);
    let d = decimal(n);
    if d.len() < width {
        let k = (width - d.len()) as nat;
        let z = Seq::new(k, |i: int| '0');
        lemma_zeroes(z, d);
        assert forall|i: int| 0 <= i < (z + d).len() implies is_digit(#[trigger] (z + d)[i]) by {
            if i >= k {
                assert((z + d)[i] == d[i - k]);
            }
        }
    }
}

proof fn lemma_zeroes(z: Seq<char>, d: Seq<char>)
    requires
        forall|i: int| 0 <= i < z.len() ==> z[i] == '0',
    ensures
        digits_value(z + d) == digits_value(d),
    decreases z.len() + d.len(),
{
    if d.len() > 0 {
        assert((z + d).drop_last() =~= z + d.drop_last());
        lemma_zeroes(z, d.drop_last());
    } else if z.len() > 0 {
        assert((z + d).drop_last() =~= z.drop_last() + d);
        assert((z + d).last() == '0');
        lemma_zeroes(z.drop_last(), d);
    }
}

/// Prefixes are taken off until none is left, and nothing else is.
pub proof fn law_prefixes_are_taken_off(s: Seq<char>, prefix: Seq<char>)
    requires
        prefix.len() > 0,
    ensures
        !begins(without_prefixes(s, prefix), prefix),
        without_prefixes(prefix + s, prefix) == without_prefixes(s, prefix),
        !begins(s, prefix) ==> without_prefixes(s, prefix) == s,
        ends(s, without_prefixes(s, prefix)),
    decreases s.len(),
{
    assert((prefix + s).take(prefix.len() as int) =~= prefix);
    assert((prefix + s).skip(prefix.len() as int) =~= s);
    let r = without_prefixes(s, prefix);
    if begins(s, prefix) {
        let t = s.skip(prefix.len() as int);
        law_prefixes_are_taken_off(t, prefix);
        assert(s.skip(s.len() - r.len()) =~= t.skip(t.len() - r.len()));
    } else {
        assert(s.skip(0) =~= s);
    }
}

/// The notation of an integer is made of digits, behind one `-` at most, and is its own
/// trim.
pub proof fn law_integers_are_plain(n: int)
    ensures
        decimal_int(n).len() > 0,
        forall|i: int|
            0 <= i < decimal_int(n).len() ==> '0' <= #[trigger] decimal_int(n)[i] <= '9' || (i == 0
                && n < 0 && decimal_int(n)[i] == '-'),
        trimmed(decimal_int(n)) == decimal_int(n),
{
    let s = decimal_int(n);
    let d = if n < 0 {
        decimal((-n) as nat)
    } else {
        decimal(n as nat)
    };
    lemma_decimal_digits(
        if n < 0 {
            (-n) as nat
        } else {
            n as nat
        },
    );
    assert forall|i: int| 0 <= i < s.len() implies '0' <= #[trigger] s[i] <= '9' || (i == 0 && n < 0
        && s[i] == '-') by {
        if n < 0 {
            if i > 0 {
                assert(s[i] == d[i - 1]);
                assert(is_digit(d[i - 1]));
            }
        } else {
            assert(is_digit(d[i]));
        }
    }
    assert('0' <= s[s.len() - 1] <= '9' || s[s.len() - 1] == '-');
    lemma_trimmed_already(s);
}

/// The end of a line is trimmed away.
pub proof fn lemma_trimmed_line(s: Seq<char>)
    requires
        s.len() > 0,
        !is_space(s[0]),
        !is_space(s.last()),
    ensures
        trimmed(s + seq!['\n']) == s,
{
    let r = s + seq!['\n'];
    assert(is_space('\n'));
    assert(r[0] == s[0]);
    assert(r.last() == '\n');
    assert(r.drop_last() =~= s);
    assert(trimmed_start(r) == r);
    assert(trimmed_end(r) == trimmed_end(s));
}

/// Words are not empty, and hold no white space.
pub proof fn law_words_hold_no_space(s: Seq<char>)
    ensures
        forall|i: int| 0 <= i < words_of(s).len() ==> (#[trigger] words_of(s)[i]).len() > 0,
        forall|i: int, k: int|
            0 <= i < words_of(s).len() && 0 <= k < words_of(s)[i].len() ==> !is_space(
                #[trigger] words_of(s)[i][k],
            ),
    decreases s.len(),
{
    let t = trimmed_start(s);
    lemma_trimmed_start_len(s);
    if t.len() > 0 {
        lemma_first_space_bound(t);
        lemma_first_space_free(t);
        let n = first_space(t) as int;
        let (w, rest) = (t.take(n), t.skip(n));
        law_words_hold_no_space(rest);
        let all = words_of(s);
        assert(all == seq![w] + words_of(rest));
        assert forall|i: int| 0 <= i < all.len() implies (#[trigger] all[i]).len() > 0 by {
            if i > 0 {
                assert(all[i] == words_of(rest)[i - 1]);
            }
        }
        assert forall|i: int, k: int| 0 <= i < all.len() && 0 <= k < all[i].len() implies
            !is_space(#[trigger] all[i][k]) by {
            if i > 0 {
                assert(all[i] == words_of(rest)[i - 1]);
                assert(!is_space(words_of(rest)[i - 1][k]));
            } else {
                assert(all[0][k] == t[k]);
            }
        }
    }
}

proof fn lemma_first_space_free(s: Seq<char>)
    ensures
        forall|i: int| 0 <= i < first_space(s) ==> !is_space(#[trigger] s[i]),
    decreases s.len(),
{
    if s.len() > 0 && !is_space(s[0]) {
        let t = s.skip(1);
        lemma_first_space_free(t);
        lemma_first_space_bound(t);
        assert forall|i: int| 0 <= i < first_space(s) implies !is_space(#[trigger] s[i]) by {
            if i > 0 {
                assert(t[i - 1] == s[i]);
            }
        }
    }
}

/// A text that begins and ends in something else than space has nothing to trim, and space
/// put before or behind it is what is trimmed.
pub proof fn law_space_around_is_free(s: Seq<char>, c: char)
    requires
        s.len() > 0,
        !is_space(s[0]),
        !is_space(s.last()),
        is_space(c),
    ensures
        trimmed(s) == s,
        trimmed(seq![c] + s) == s,
        trimmed(s.push(c)) == s,
{
    let n = s.len() as int;
    lemma_trim_range(s, 0, n);
    assert(s.subrange(0, n) =~= s);
    lemma_trim_range(seq![c] + s, 1, n + 1);
    assert((seq![c] + s).subrange(1, n + 1) =~= s);
    lemma_trim_range(s.push(c), 0, n);
    assert(s.push(c).subrange(0, n) =~= s);
}

proof fn lemma_trim_range(t: Seq<char>, lo: int, hi: int)
    requires
        0 <= lo < hi <= t.len(),
        forall|i: int| 0 <= i < lo || hi <= i < t.len() ==> is_space(#[trigger] t[i]),
        !is_space(t[lo]),
        !is_space(t[hi - 1]),
    ensures
        trimmed(t) == t.subrange(lo, hi),
{
    law_trim_takes_the_ends(t);
    let r = trimmed(t);
    let (a, b) = choose|a: int, b: int| is_trim(t, r, a, b);
    assert(a <= lo && hi <= b);
    assert(r.len() == b - a);
    assert(r[0] == t[a]);
    assert(r.last() == t[b - 1]);
    assert(a == lo && b == hi);
}

} // verus!
