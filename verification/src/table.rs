//! Tables keyed by text, in ascending key order.
use vstd::prelude::*;
use crate::text::{chars_of, same, texts};

verus! {

/// `a` comes before `b`, character by character.
pub open spec fn is_less(a: Seq<char>, b: Seq<char>) -> bool
    decreases a.len(),
{
    if b.len() == 0 {
        false
    } else if a.len() == 0 {
        true
    } else if a[0] != b[0] {
        a[0] < b[0]
    } else {
        is_less(a.skip(1), b.skip(1))
    }
}

/// No text comes before itself.
pub proof fn lemma_less_irreflexive(a: Seq<char>)
    ensures
        !is_less(a, a),
    decreases a.len(),
{
    if a.len() > 0 {
        lemma_less_irreflexive(a.skip(1));
    }
}

/// The order of texts is transitive.
pub proof fn lemma_less_transitive(a: Seq<char>, b: Seq<char>, c: Seq<char>)
    requires
        is_less(a, b),
        is_less(b, c),
    ensures
        is_less(a, c),
    decreases a.len(),
{
    if a.len() > 0 && a[0] == b[0] && b[0] == c[0] {
        lemma_less_transitive(a.skip(1), b.skip(1), c.skip(1));
    }
}

/// Of two texts neither of which comes first, both are the same.
pub proof fn lemma_less_total(a: Seq<char>, b: Seq<char>)
    requires
        !is_less(a, b),
        !is_less(b, a),
    ensures
        a == b,
    decreases a.len(),
{
    if a.len() > 0 && b.len() > 0 {
        lemma_less_total(a.skip(1), b.skip(1));
        assert(a =~= seq![a[0]] + a.skip(1));
        assert(b =~= seq![b[0]] + b.skip(1));
    } else {
        assert(a =~= b);
    }
}

/// Whether `a` comes before `b`.
pub fn less(a: &str, b: &str) -> (r: bool)
    ensures
        r == is_less(a@, b@),
{
    let x = chars_of(a);
    let y = chars_of(b);
    let mut i: usize = 0;
    proof {
        assert(a@.skip(0) =~= a@);
        assert(b@.skip(0) =~= b@);
    }
    while i < x.len() && i < y.len()
        invariant
            x@ == a@,
            y@ == b@,
            i <= x@.len(),
            i <= y@.len(),
            is_less(a@, b@) == is_less(a@.skip(i as int), b@.skip(i as int)),
        decreases x@.len() - i,
    {
        if x[i] != y[i] {
            return x[i] < y[i];
        }
        proof {
            assert(a@.skip(i as int).skip(1) =~= a@.skip(i + 1));
            assert(b@.skip(i as int).skip(1) =~= b@.skip(i + 1));
        }
        i += 1;
    }
    i < y.len()
}

/// A table from texts to values, its keys ascending and none twice.
#[derive(Debug)]
pub struct Table<V> {
    entries: Vec<(String, V)>,
}

/// What a list of entries holds.
pub open spec fn entry_views<V>(entries: Seq<(String, V)>) -> Seq<(Seq<char>, V)> {
    Seq::new(entries.len(), |i: int| (entries[i].0@, entries[i].1))
}

/// The value under `k` in a list of entries.
pub open spec fn lookup<V>(s: Seq<(Seq<char>, V)>, k: Seq<char>) -> Option<V>
    decreases s.len(),
{
    if s.len() == 0 {
        None
    } else if s[0].0 == k {
        Some(s[0].1)
    } else {
        lookup(s.skip(1), k)
    }
}

/// The entries with `v` under `k`, at the place its order gives it.
pub open spec fn inserted<V>(s: Seq<(Seq<char>, V)>, k: Seq<char>, v: V) -> Seq<(Seq<char>, V)>
    decreases s.len(),
{
    if s.len() == 0 {
        seq![(k, v)]
    } else if s[0].0 == k {
        seq![(k, v)] + s.skip(1)
    } else if is_less(k, s[0].0) {
        seq![(k, v)] + s
    } else {
        seq![s[0]] + inserted(s.skip(1), k, v)
    }
}

/// Keys ascend, and so none occurs twice.
pub open spec fn ascending<V>(s: Seq<(Seq<char>, V)>) -> bool {
    forall|i: int, j: int| 0 <= i < j < s.len() ==> is_less((#[trigger] s[i]).0, (#[trigger] s[j]).0)
}

pub open spec fn keys_of<V>(s: Seq<(Seq<char>, V)>) -> Seq<Seq<char>> {
    Seq::new(s.len(), |i: int| s[i].0)
}

/// What is put under a key is read back from it, and nothing else changes.
pub proof fn law_insert_reads_back<V>(s: Seq<(Seq<char>, V)>, k: Seq<char>, v: V, other: Seq<char>)
    requires
        ascending(s),
    ensures
        lookup(inserted(s, k, v), k) == Some(v),
        other != k ==> lookup(inserted(s, k, v), other) == lookup(s, other),
    decreases s.len(),
{
    let t = inserted(s, k, v);
    if s.len() == 0 {
        assert(t.skip(1) =~= s);
    } else if s[0].0 == k {
        assert(t.skip(1) =~= s.skip(1));
    } else if is_less(k, s[0].0) {
        assert(t.skip(1) =~= s);
    } else {
        assert(t.skip(1) =~= inserted(s.skip(1), k, v));
        law_insert_reads_back(s.skip(1), k, v, other);
    }
}

/// Inserting keeps the keys ascending.
pub proof fn law_insert_keeps_order<V>(s: Seq<(Seq<char>, V)>, k: Seq<char>, v: V)
    requires
        ascending(s),
    ensures
        ascending(inserted(s, k, v)),
        forall|i: int|
            0 <= i < inserted(s, k, v).len() ==> (#[trigger] inserted(s, k, v)[i]).0 == k || exists|
                j: int,
            |
                0 <= j < s.len() && (#[trigger] s[j]).0 == inserted(s, k, v)[i].0,
    decreases s.len(),
{
    let t = inserted(s, k, v);
    if s.len() == 0 {
    } else if s[0].0 == k {
        assert forall|i: int| 0 <= i < t.len() implies t[i].0 == s[i].0 by {}
    } else if is_less(k, s[0].0) {
        assert forall|i: int, j: int| 0 <= i < j < t.len() implies is_less(
            (#[trigger] t[i]).0,
            (#[trigger] t[j]).0,
        ) by {
            if i == 0 {
                if j > 1 {
                    assert(is_less(s[0].0, s[j - 1].0));
                    lemma_less_transitive(k, s[0].0, s[j - 1].0);
                }
            } else {
                assert(is_less(s[i - 1].0, s[j - 1].0));
            }
        }
        assert forall|i: int| 0 < i < t.len() implies t[i] == s[i - 1] by {}
    } else {
        let r = s.skip(1);
        let tail = inserted(r, k, v);
        law_insert_keeps_order(r, k, v);
        if !is_less(s[0].0, k) {
            lemma_less_total(s[0].0, k);
        }
        assert forall|j: int| 0 <= j < tail.len() implies is_less(
            s[0].0,
            (#[trigger] tail[j]).0,
        ) by {
            if tail[j].0 != k {
                let m = choose|m: int| 0 <= m < r.len() && (#[trigger] r[m]).0 == tail[j].0;
                assert(is_less(s[0].0, s[m + 1].0));
            }
        }
        assert forall|i: int, j: int| 0 <= i < j < t.len() implies is_less(
            (#[trigger] t[i]).0,
            (#[trigger] t[j]).0,
        ) by {
            if i == 0 {
                assert(t[j] == tail[j - 1]);
            } else {
                assert(is_less(tail[i - 1].0, tail[j - 1].0));
            }
        }
        assert forall|i: int| 0 <= i < t.len() implies (#[trigger] t[i]).0 == k || exists|j: int|
            0 <= j < s.len() && (#[trigger] s[j]).0 == t[i].0 by {
            if i == 0 {
                assert(s[0].0 == t[0].0);
            } else if t[i].0 != k {
                assert(t[i] == tail[i - 1]);
                let m = choose|m: int| 0 <= m < r.len() && (#[trigger] r[m]).0 == tail[i - 1].0;
                assert(s[m + 1].0 == t[i].0);
            }
        }
    }
}

fn insert_entry<V>(entries: &mut Vec<(String, V)>, k: String, v: V)
    ensures
        entry_views(final(entries)@) == inserted(entry_views(old(entries)@), k@, v),
{
    let mut i: usize = 0;
    let ghost start = entry_views(entries@);
    proof {
        assert(start.skip(0) =~= start);
        assert(start.take(0) + inserted(start, k@, v) =~= inserted(start, k@, v));
    }
    while i < entries.len() && !same(entries[i].0.as_str(), k.as_str()) && !less(
        k.as_str(),
        entries[i].0.as_str(),
    )
        invariant
            i <= entries@.len(),
            entry_views(entries@) == start,
            start.len() == entries@.len(),
            start.take(i as int) + inserted(start.skip(i as int), k@, v) == inserted(start, k@, v),
        decreases entries@.len() - i,
    {
        proof {
            let t = start.skip(i as int);
            assert(t[0] == start[i as int]);
            assert(t.skip(1) =~= start.skip(i + 1));
            assert(start.take(i + 1) + inserted(start.skip(i + 1), k@, v) =~= start.take(i as int)
                + inserted(t, k@, v));
        }
        i += 1;
    }
    let ghost t = start.skip(i as int);
    if i < entries.len() && same(entries[i].0.as_str(), k.as_str()) {
        entries.set(i, (k, v));
        proof {
            assert(t[0] == start[i as int]);
            assert(entry_views(entries@) =~= start.take(i as int) + inserted(t, k@, v));
        }
    } else {
        entries.insert(i, (k, v));
        proof {
            if i < start.len() {
                assert(t[0] == start[i as int]);
            }
            assert(entry_views(entries@) =~= start.take(i as int) + inserted(t, k@, v));
        }
    }
}

impl<V: Clone> Clone for Table<V> {
    /// The same keys, each with a clone of its value.
    fn clone(&self) -> (r: Self)
        ensures
            keys_of(r@) == keys_of(self@),
            r@.len() == self@.len(),
            forall|i: int|
                0 <= i < r@.len() ==> cloned::<V>((#[trigger] self@[i]).1, (#[trigger] r@[i]).1),
    {
        proof {
            use_type_invariant(self);
        }
        let mut entries: Vec<(String, V)> = Vec::new();
        let mut i: usize = 0;
        while i < self.entries.len()
            invariant
                i <= self.entries@.len(),
                entries@.len() == i,
                forall|k: int|
                    0 <= k < i ==> (#[trigger] entries@[k]).0@ == self.entries@[k].0@ && cloned::<V>(
                        self.entries@[k].1,
                        entries@[k].1,
                    ),
            decreases self.entries@.len() - i,
        {
            entries.push((self.entries[i].0.clone(), self.entries[i].1.clone()));
            i += 1;
        }
        proof {
            let (a, b) = (entry_views(entries@), entry_views(self.entries@));
            assert(keys_of(a) =~= keys_of(b));
            assert forall|i: int, j: int| 0 <= i < j < a.len() implies is_less(
                (#[trigger] a[i]).0,
                (#[trigger] a[j]).0,
            ) by {
                assert(a[i].0 == b[i].0 && a[j].0 == b[j].0);
            }
        }
        Table { entries }
    }
}

impl<V> Table<V> {
    #[verifier::type_invariant]
    spec fn is_ordered(self) -> bool {
        ascending(entry_views(self.entries@))
    }

    /// The entries, in key order.
    pub closed spec fn view(&self) -> Seq<(Seq<char>, V)> {
        entry_views(self.entries@)
    }

    /// A table without entries.
    pub fn new() -> (r: Self)
        ensures
            r@ == Seq::<(Seq<char>, V)>::empty(),
    {
        let out = Table { entries: Vec::new() };
        proof {
            assert(out@ =~= Seq::<(Seq<char>, V)>::empty());
        }
        out
    }

    /// The number of entries.
    pub fn len(&self) -> (r: usize)
        ensures
            r == self@.len(),
            ascending(self@),
    {
        proof {
            use_type_invariant(self);
        }
        self.entries.len()
    }

    /// Whether there is no entry.
    pub fn is_empty(&self) -> (r: bool)
        ensures
            r == (self@.len() == 0),
    {
        self.entries.len() == 0
    }

    /// The entry at a position in key order.
    pub fn entry(&self, i: usize) -> (r: (&str, &V))
        requires
            i < self@.len(),
        ensures
            r.0@ == self@[i as int].0,
            *r.1 == self@[i as int].1,
    {
        (self.entries[i].0.as_str(), &self.entries[i].1)
    }

    /// Puts `v` under `k`.
    pub fn insert(&mut self, k: String, v: V)
        ensures
            final(self)@ == inserted(old(self)@, k@, v),
            ascending(final(self)@),
    {
        proof {
            use_type_invariant(&*self);
            law_insert_keeps_order(entry_views(self.entries@), k@, v);
            assert(entry_views(Seq::<(String, V)>::empty()) =~= Seq::empty());
        }
        let mut entries: Vec<(String, V)> = Vec::new();
        core::mem::swap(&mut self.entries, &mut entries);
        insert_entry(&mut entries, k, v);
        self.entries = entries;
    }

    /// The value under `k`.
    pub fn get(&self, k: &str) -> (r: Option<&V>)
        ensures
            match r {
                Some(v) => lookup(self@, k@) == Some(*v),
                None => lookup(self@, k@) is None,
            },
    {
        let mut i: usize = 0;
        proof {
            assert(self@.skip(0) =~= self@);
        }
        while i < self.entries.len()
            invariant
                i <= self.entries@.len(),
                lookup(self@, k@) == lookup(self@.skip(i as int), k@),
            decreases self.entries@.len() - i,
        {
            proof {
                assert(self@.skip(i as int)[0] == self@[i as int]);
                assert(self@.skip(i as int).skip(1) =~= self@.skip(i + 1));
            }
            if same(self.entries[i].0.as_str(), k) {
                return Some(&self.entries[i].1);
            }
            i += 1;
        }
        None
    }

    /// Whether there is a value under `k`.
    pub fn contains_key(&self, k: &str) -> (r: bool)
        ensures
            r == (lookup(self@, k@) is Some),
    {
        self.get(k).is_some()
    }

    /// The keys, in order.
    pub fn keys(&self) -> (r: Vec<String>)
        ensures
            texts(r@) == keys_of(self@),
            ascending(self@),
    {
        proof {
            use_type_invariant(self);
        }
        let mut out: Vec<String> = Vec::new();
        let mut i: usize = 0;
        while i < self.entries.len()
            invariant
                i <= self.entries@.len(),
                out@.len() == i,
                forall|k: int| 0 <= k < i ==> (#[trigger] out@[k])@ == self@[k].0,
            decreases self.entries@.len() - i,
        {
            out.push(self.entries[i].0.clone());
            i += 1;
        }
        proof {
            assert(texts(out@) =~= keys_of(self@));
        }
        out
    }
}

/// Entries with each value replaced by what `f` makes of it.
pub open spec fn mapped<V, W>(s: Seq<(Seq<char>, V)>, f: spec_fn(V) -> W) -> Seq<(Seq<char>, W)> {
    Seq::new(s.len(), |i: int| (s[i].0, f(s[i].1)))
}

/// The text of a string.
pub open spec fn as_text() -> spec_fn(String) -> Seq<char> {
    |s: String| s@
}

/// Entries of texts.
pub open spec fn text_entries(s: Seq<(Seq<char>, String)>) -> Seq<(Seq<char>, Seq<char>)> {
    mapped(s, as_text())
}

/// Inserting and mapping may be done in either order.
pub proof fn lemma_mapped_insert<V, W>(
    s: Seq<(Seq<char>, V)>,
    k: Seq<char>,
    v: V,
    f: spec_fn(V) -> W,
)
    ensures
        mapped(inserted(s, k, v), f) == inserted(mapped(s, f), k, f(v)),
    decreases s.len(),
{
    let m = mapped(s, f);
    if s.len() > 0 {
        assert(m.skip(1) =~= mapped(s.skip(1), f));
        lemma_mapped_insert(s.skip(1), k, v, f);
    }
    assert(mapped(inserted(s, k, v), f) =~= inserted(m, k, f(v)));
}

/// An ordered list with `x` at its place.
pub open spec fn text_placed(s: Seq<Seq<char>>, x: Seq<char>) -> Seq<Seq<char>>
    decreases s.len(),
{
    if s.len() == 0 {
        seq![x]
    } else if is_less(x, s[0]) {
        seq![x] + s
    } else {
        seq![s[0]] + text_placed(s.skip(1), x)
    }
}

/// The first `n` texts, in order.
pub open spec fn in_order(v: Seq<Seq<char>>, n: nat) -> Seq<Seq<char>>
    decreases n,
{
    if n == 0 {
        seq![]
    } else {
        text_placed(in_order(v, (n - 1) as nat), v[n - 1])
    }
}

fn place_text(sorted: &mut Vec<String>, x: String)
    ensures
        texts(final(sorted)@) == text_placed(texts(old(sorted)@), x@),
{
    let ghost s = texts(sorted@);
    let mut i: usize = 0;
    proof {
        assert(s.skip(0) =~= s);
        assert(s.take(0) + text_placed(s, x@) =~= text_placed(s, x@));
    }
    while i < sorted.len() && !less(x.as_str(), sorted[i].as_str())
        invariant
            i <= sorted@.len(),
            s == texts(sorted@),
            s.take(i as int) + text_placed(s.skip(i as int), x@) == text_placed(s, x@),
        decreases sorted@.len() - i,
    {
        proof {
            let t = s.skip(i as int);
            assert(t[0] == s[i as int]);
            assert(t.skip(1) =~= s.skip(i + 1));
            assert(s.take(i + 1) + text_placed(s.skip(i + 1), x@) =~= s.take(i as int)
                + text_placed(t, x@));
        }
        i += 1;
    }
    sorted.insert(i, x);
    proof {
        let t = s.skip(i as int);
        if i < s.len() {
            assert(t[0] == s[i as int]);
        }
        assert(texts(sorted@) =~= s.take(i as int) + text_placed(t, x@));
    }
}

/// Sorts texts in ascending order.
pub fn sort_texts(v: &Vec<String>) -> (r: Vec<String>)
    ensures
        texts(r@) == in_order(texts(v@), v@.len()),
{
    let mut sorted: Vec<String> = Vec::new();
    let mut i: usize = 0;
    proof {
        assert(texts(sorted@) =~= in_order(texts(v@), 0));
    }
    while i < v.len()
        invariant
            i <= v@.len(),
            texts(sorted@) == in_order(texts(v@), i as nat),
        decreases v@.len() - i,
    {
        place_text(&mut sorted, v[i].clone());
        i += 1;
    }
    sorted
}

/// No text stands before a smaller one.
pub open spec fn is_sorted(s: Seq<Seq<char>>) -> bool {
    forall|i: int, j: int| 0 <= i < j < s.len() ==> !is_less(#[trigger] s[j], #[trigger] s[i])
}

proof fn lemma_text_placed(s: Seq<Seq<char>>, x: Seq<char>)
    requires
        is_sorted(s),
    ensures
        is_sorted(text_placed(s, x)),
        text_placed(s, x).to_multiset() =~= s.to_multiset().insert(x),
    decreases s.len(),
{
    broadcast use vstd::seq_lib::group_to_multiset_ensures;

    let t = text_placed(s, x);
    if s.len() == 0 {
        assert(t =~= s.push(x));
    } else if is_less(x, s[0]) {
        assert(t =~= s.insert(0, x));
        assert forall|i: int, j: int| 0 <= i < j < t.len() implies !is_less(
            #[trigger] t[j],
            #[trigger] t[i],
        ) by {
            if i == 0 {
                let y = s[j - 1];
                if is_less(y, x) {
                    lemma_less_transitive(y, x, s[0]);
                    if j == 1 {
                        lemma_less_irreflexive(y);
                    }
                }
            } else {
                assert(!is_less(s[j - 1], s[i - 1]));
            }
        }
    } else {
        let r = s.skip(1);
        lemma_text_placed(r, x);
        let u = text_placed(r, x);
        assert(t =~= seq![s[0]] + u);
        assert(s =~= seq![s[0]] + r);
        assert(t =~= u.insert(0, s[0]));
        assert(s =~= r.insert(0, s[0]));
        assert(t.to_multiset() =~= s.to_multiset().insert(x));
        assert forall|j: int| 0 <= j < u.len() implies !is_less(#[trigger] u[j], s[0]) by {
            assert(u.to_multiset().contains(u[j]));
            if u[j] != x {
                assert(r.to_multiset().contains(u[j]));
                let k = choose|k: int| 0 <= k < r.len() && r[k] == u[j];
                assert(r[k] == s[k + 1]);
            }
        }
        assert forall|i: int, j: int| 0 <= i < j < t.len() implies !is_less(
            #[trigger] t[j],
            #[trigger] t[i],
        ) by {
            if i == 0 {
                assert(t[j] == u[j - 1]);
            } else {
                assert(t[i] == u[i - 1] && t[j] == u[j - 1]);
            }
        }
    }
}

/// Sorting puts the same texts in order: each as often as before, and none before a
/// smaller one.
pub proof fn law_sorting_keeps_the_texts(v: Seq<Seq<char>>, n: nat)
    requires
        n <= v.len(),
    ensures
        is_sorted(in_order(v, n)),
        in_order(v, n).to_multiset() == v.take(n as int).to_multiset(),
    decreases n,
{
    broadcast use vstd::seq_lib::group_to_multiset_ensures;

    if n == 0 {
        assert(v.take(0) =~= seq![]);
        assert(in_order(v, 0) =~= v.take(0));
    } else {
        law_sorting_keeps_the_texts(v, (n - 1) as nat);
        lemma_text_placed(in_order(v, (n - 1) as nat), v[n - 1]);
        assert(v.take(n as int) =~= v.take(n - 1).push(v[n - 1]));
    }
}

// ---------------------------------------------------------------------------
// Laws on looking up
// ---------------------------------------------------------------------------

/// Texts are ordered by the first character in which they differ, and a text comes before
/// every longer one that begins with it.
pub proof fn law_order_is_by_first_difference(
    p: Seq<char>,
    a: char,
    b: char,
    x: Seq<char>,
    y: Seq<char>,
)
    requires
        a != b,
    ensures
        is_less(p + seq![a] + x, p + seq![b] + y) <==> a < b,
        is_less(p, p + seq![a] + x),
        !is_less(p + seq![a] + x, p),
    decreases p.len(),
{
    let (s, t) = (p + seq![a] + x, p + seq![b] + y);
    if p.len() == 0 {
        assert(s[0] == a && t[0] == b);
    } else {
        let q = p.skip(1);
        law_order_is_by_first_difference(q, a, b, x, y);
        assert(s[0] == p[0] && t[0] == p[0]);
        assert(s.skip(1) =~= q + seq![a] + x);
        assert(t.skip(1) =~= q + seq![b] + y);
    }
}

/// What is put under a key is read back from it; every other key is left alone.
pub proof fn lemma_insert<V>(s: Seq<(Seq<char>, V)>, k: Seq<char>, v: V)
    requires
        ascending(s),
    ensures
        ascending(inserted(s, k, v)),
        lookup(inserted(s, k, v), k) == Some(v),
        forall|o: Seq<char>| o != k ==> #[trigger] lookup(inserted(s, k, v), o) == lookup(s, o),
{
    law_insert_keeps_order(s, k, v);
    law_insert_reads_back(s, k, v, k);
    assert forall|o: Seq<char>| o != k implies #[trigger] lookup(inserted(s, k, v), o) == lookup(
        s,
        o,
    ) by {
        law_insert_reads_back(s, k, v, o);
    }
}

/// Looking up in mapped entries gives what `f` makes of what is there.
pub proof fn lemma_lookup_mapped<V, W>(s: Seq<(Seq<char>, V)>, f: spec_fn(V) -> W, k: Seq<char>)
    ensures
        lookup(mapped(s, f), k) == match lookup(s, k) {
            Some(v) => Some(f(v)),
            None => None,
        },
    decreases s.len(),
{
    if s.len() > 0 {
        assert(mapped(s, f).skip(1) =~= mapped(s.skip(1), f));
        lemma_lookup_mapped(s.skip(1), f, k);
    }
}

/// A look-up finds an entry of its key, where there is one.
pub proof fn law_lookup_finds_its_key<V>(s: Seq<(Seq<char>, V)>, k: Seq<char>)
    ensures
        match lookup(s, k) {
            Some(v) => exists|i: int| 0 <= i < s.len() && (#[trigger] s[i]).0 == k && s[i].1 == v,
            None => forall|i: int| 0 <= i < s.len() ==> (#[trigger] s[i]).0 != k,
        },
    decreases s.len(),
{
    if s.len() > 0 {
        let t = s.skip(1);
        law_lookup_finds_its_key(t, k);
        if s[0].0 == k {
            assert(s[0].0 == k && s[0].1 == lookup(s, k)->Some_0);
        } else if lookup(t, k) is Some {
            let i = choose|i: int|
                0 <= i < t.len() && (#[trigger] t[i]).0 == k && t[i].1 == lookup(t, k)->Some_0;
            assert(s[i + 1] == t[i]);
        } else {
            assert forall|i: int| 0 <= i < s.len() implies (#[trigger] s[i]).0 != k by {
                if i > 0 {
                    assert(t[i - 1] == s[i]);
                }
            }
        }
    }
}

/// The last of ascending entries is found by its key, and no other key finds it.
pub proof fn lemma_lookup_take<V>(s: Seq<(Seq<char>, V)>, n: nat, k: Seq<char>)
    requires
        0 < n <= s.len(),
        ascending(s),
    ensures
        lookup(s.take(n as int), k) == if s[n - 1].0 == k {
            Some(s[n - 1].1)
        } else {
            lookup(s.take(n - 1), k)
        },
    decreases n,
{
    let (a, b) = (s.take(n as int), s.take(n - 1));
    if n == 1 {
        assert(a.skip(1) =~= b);
        assert(b.len() == 0);
    } else {
        let t = s.skip(1);
        assert forall|i: int, j: int| 0 <= i < j < t.len() implies is_less(
            (#[trigger] t[i]).0,
            (#[trigger] t[j]).0,
        ) by {
            assert(is_less(s[i + 1].0, s[j + 1].0));
        }
        lemma_lookup_take(t, (n - 1) as nat, k);
        assert(a.skip(1) =~= t.take(n - 1));
        assert(b.skip(1) =~= t.take(n - 2));
        assert(is_less(s[0].0, s[n - 1].0));
        lemma_less_irreflexive(s[0].0);
    }
}

} // verus!
