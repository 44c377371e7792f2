//! The selector grammar: which arms a command applies to.
//!
//! `<entrant>[:<variant>]`, with `*` in either position meaning any, and an
//! optional `@<image-tag>`. There is no version position: a version is only known
//! once an image has been run, which is after its selection.
use vstd::prelude::*;
use crate::entrant::{debug_quoted, quoted, Entrant, Variant};
use crate::text::{
    cat2, cat3, cat4, cat5, dec, decimal, first_of, join, joined, lemma_first_of, lemma_first_of_is,
    note, same, split, split_at_each, split_first, split_once, texts,
};

verus! {

/// One parsed selector.
#[derive(Clone, Debug, PartialEq, Eq)]
pub struct Selector {
    /// Entrant id, or `*`.
    pub entrant: String,
    /// Variant id, or `*`.
    pub variant: String,
    /// Explicit image tag, overriding the descriptor's.
    pub image: Option<String>,
}

/// What a [`Selector`] says.
pub struct SelectorView {
    pub entrant: Seq<char>,
    pub variant: Seq<char>,
    pub image: Option<Seq<char>>,
}

impl Selector {
    pub open spec fn view(&self) -> SelectorView {
        SelectorView {
            entrant: self.entrant@,
            variant: self.variant@,
            image: crate::corpus::opt_text(self.image),
        }
    }
}

/// The part of a selector before the image, and the image.
pub open spec fn image_split(s: Seq<char>) -> (Seq<char>, Option<Seq<char>>) {
    match split_first(s, '@') {
        Some((body, image)) => (body, Some(image)),
        None => (s, None),
    }
}

pub open spec fn empty_component(s: Seq<char>) -> Seq<char> {
    debug_quoted(s)
        + ": empty component. Use '*' to mean 'any' — an empty one is usually an unexpanded shell variable, and widening it silently would run more than you asked for."@
}

/// A selector read from text, or why it is refused. Nothing is ever widened: an
/// empty component and a surplus one are both errors.
pub open spec fn parsed_selector(s: Seq<char>) -> Result<SelectorView, Seq<char>> {
    let (body, image) = image_split(s);
    let parts = split_at_each(body, ':');
    if image is Some && image->Some_0.len() == 0 {
        Err(debug_quoted(s) + ": empty image tag after '@'"@)
    } else if exists|i: int| 0 <= i < parts.len() && (#[trigger] parts[i]).len() == 0 {
        Err(empty_component(s))
    } else if parts.len() > 2 {
        Err(
            debug_quoted(s) + ": expected <entrant>[:<variant>], got "@ + decimal(parts.len())
                + " parts. There is no version position: a version is resolved by running the image, long after this selector has decided which images to run. To measure one version, name its image — `flink@spate-bench-flink:2.3.0`."@,
        )
    } else {
        Ok(
            SelectorView {
                entrant: parts[0],
                variant: if parts.len() > 1 {
                    parts[1]
                } else {
                    "*"@
                },
                image,
            },
        )
    }
}

/// The text of a selector.
pub open spec fn selector_text(s: SelectorView) -> Seq<char> {
    match s.image {
        Some(i) => s.entrant + ":"@ + s.variant + "@"@ + i,
        None => s.entrant + ":"@ + s.variant,
    }
}

pub open spec fn names_entrant(s: SelectorView, id: Seq<char>) -> bool {
    s.entrant == "*"@ || s.entrant == id
}

pub open spec fn names_variant(s: SelectorView, id: Seq<char>) -> bool {
    s.variant == "*"@ || s.variant == id
}

impl Selector {
    /// Parses one selector.
    pub fn parse(s: &str) -> (r: Result<Self, String>)
        ensures
            match r {
                Ok(sel) => parsed_selector(s@) == Ok::<SelectorView, Seq<char>>(sel@),
                Err(e) => parsed_selector(s@) == Err::<SelectorView, Seq<char>>(e@),
            },
    {
        let (body, image): (String, Option<String>) = match split_once(s, '@') {
            Some((b, i)) => {
                if i.as_str().is_empty() {
                    return Err(cat2(quoted(s).as_str(), ": empty image tag after '@'"));
                }
                (b, Some(i))
            },
            None => (s.to_owned(), None),
        };
        let parts = split(body.as_str(), ':');
        let ghost views = split_at_each(body@, ':');
        let mut i: usize = 0;
        while i < parts.len()
            invariant
                texts(parts@) == views,
                i <= parts@.len(),
                forall|k: int| 0 <= k < i ==> (#[trigger] views[k]).len() > 0,
                image_split(s@) == (body@, crate::corpus::opt_text(image)),
                views == split_at_each(body@, ':'),
                image is Some ==> image->Some_0@.len() > 0,
            decreases parts@.len() - i,
        {
            proof {
                assert(views[i as int] == parts@[i as int]@);
            }
            if parts[i].as_str().is_empty() {
                return Err(
                    cat2(
                        quoted(s).as_str(),
                        ": empty component. Use '*' to mean 'any' — an empty one is usually an unexpanded shell variable, and widening it silently would run more than you asked for.",
                    ),
                );
            }
            i += 1;
        }
        proof {
            assert(views.len() == parts@.len());
            assert(views.len() >= 1);
            assert(views[0] == parts@[0]@);
            if views.len() > 1 {
                assert(views[1] == parts@[1]@);
            }
        }
        if parts.len() > 2 {
            return Err(
                cat4(
                    quoted(s).as_str(),
                    ": expected <entrant>[:<variant>], got ",
                    dec(parts.len() as u128).as_str(),
                    " parts. There is no version position: a version is resolved by running the image, long after this selector has decided which images to run. To measure one version, name its image — `flink@spate-bench-flink:2.3.0`.",
                ),
            );
        }
        let variant = if parts.len() > 1 {
            parts[1].clone()
        } else {
            "*".to_owned()
        };
        Ok(Selector { entrant: parts[0].clone(), variant, image })
    }

    /// Whether this selector names the given entrant.
    pub fn matches_entrant(&self, id: &str) -> (r: bool)
        ensures
            r == names_entrant(self@, id@),
    {
        same(self.entrant.as_str(), "*") || same(self.entrant.as_str(), id)
    }

    /// Whether this selector names the given variant.
    pub fn matches_variant(&self, id: &str) -> (r: bool)
        ensures
            r == names_variant(self@, id@),
    {
        same(self.variant.as_str(), "*") || same(self.variant.as_str(), id)
    }

    /// The selector as text, which parses back to it.
    pub fn to_text(&self) -> (r: String)
        ensures
            r@ == selector_text(self@),
    {
        match &self.image {
            Some(i) => cat5(self.entrant.as_str(), ":", self.variant.as_str(), "@", i.as_str()),
            None => cat3(self.entrant.as_str(), ":", self.variant.as_str()),
        }
    }
}

spec fn lacks(s: Seq<char>, c: char) -> bool {
    forall|i: int| 0 <= i < s.len() ==> s[i] != c
}

/// Every part of a split lacks what it was split at, and whatever the whole lacks.
proof fn lemma_parts_lack(s: Seq<char>, c: char, d: char)
    requires
        lacks(s, d),
    ensures
        forall|k: int|
            0 <= k < split_at_each(s, c).len() ==> lacks(#[trigger] split_at_each(s, c)[k], c)
                && lacks(split_at_each(s, c)[k], d),
    decreases s.len(),
{
    lemma_first_of(s, c);
    let i = first_of(s, c) as int;
    if i < s.len() {
        let rest = s.skip(i + 1);
        lemma_parts_lack(rest, c, d);
        let all = split_at_each(s, c);
        assert(all =~= seq![s.take(i)] + split_at_each(rest, c));
        assert forall|k: int| 0 <= k < all.len() implies lacks(#[trigger] all[k], c) && lacks(
            all[k],
            d,
        ) by {
            if k == 0 {
                assert(all[0] == s.take(i));
            } else {
                assert(all[k] == split_at_each(rest, c)[k - 1]);
            }
        }
    }
}

/// Two parts without `:` joined by one split into themselves.
proof fn lemma_split_pair(a: Seq<char>, b: Seq<char>)
    requires
        lacks(a, ':'),
        lacks(b, ':'),
    ensures
        split_at_each(a + ":"@ + b, ':') == seq![a, b],
{
    reveal_strlit(":");
    let s = a + ":"@ + b;
    lemma_first_of_is(s, ':', a.len() as int);
    assert(s.take(a.len() as int) =~= a);
    assert(s.skip(a.len() as int + 1) =~= b);
    lemma_first_of_is(b, ':', b.len() as int);
    assert(split_at_each(b, ':') =~= seq![b]);
    assert(split_at_each(s, ':') =~= seq![a, b]);
}

/// The text of a parsed selector parses back to that selector.
pub proof fn law_display_round_trips(s: Seq<char>)
    requires
        parsed_selector(s) is Ok,
    ensures
        parsed_selector(selector_text(parsed_selector(s)->Ok_0)) == parsed_selector(s),
{
    reveal_strlit("*");
    reveal_strlit(":");
    reveal_strlit("@");
    let sel = parsed_selector(s)->Ok_0;
    let (body, image) = image_split(s);
    lemma_first_of(s, '@');
    assert(lacks(body, '@'));
    let parts = split_at_each(body, ':');
    lemma_parts_lack(body, ':', '@');
    assert(lacks(parts[0], ':') && lacks(parts[0], '@') && parts[0].len() > 0);
    if parts.len() > 1 {
        assert(lacks(parts[1], ':') && lacks(parts[1], '@') && parts[1].len() > 0);
    }
    let head = sel.entrant + ":"@ + sel.variant;
    lemma_split_pair(sel.entrant, sel.variant);
    let text = selector_text(sel);
    match sel.image {
        Some(i) => {
            assert(text =~= head + "@"@ + i);
            assert forall|k: int| 0 <= k < head.len() implies text[k] != '@' by {
                assert(text[k] == head[k]);
            }
            lemma_first_of_is(text, '@', head.len() as int);
            assert(text.take(head.len() as int) =~= head);
            assert(text.skip(head.len() as int + 1) =~= i);
        },
        None => {
            lemma_first_of_is(text, '@', text.len() as int);
        },
    }
    assert(image_split(text) == (head, sel.image));
    let again = split_at_each(head, ':');
    assert(again[0] == sel.entrant && again[1] == sel.variant);
}

/// One arm a command will act on.
#[derive(Clone, Debug)]
pub struct Arm<'a> {
    pub entrant: &'a Entrant,
    pub variant: &'a Variant,
    /// Image override from the selector, if any.
    pub image: Option<String>,
}

/// What an [`Arm`] is.
pub struct ArmView {
    pub entrant: Entrant,
    pub variant: Variant,
    pub image: Option<Seq<char>>,
}

pub open spec fn arm_views(arms: Seq<Arm>) -> Seq<ArmView> {
    Seq::new(
        arms.len(),
        |i: int|
            ArmView {
                entrant: *arms[i].entrant,
                variant: *arms[i].variant,
                image: crate::corpus::opt_text(arms[i].image),
            },
    )
}

pub open spec fn is_arm(a: ArmView, entrant: Seq<char>, variant: Seq<char>) -> bool {
    a.entrant.spec.entrant.id@ == entrant && a.variant.id@ == variant
}

/// An arm is chosen already.
pub open spec fn is_chosen(out: Seq<ArmView>, entrant: Seq<char>, variant: Seq<char>) -> bool {
    exists|k: int| 0 <= k < out.len() && is_arm(#[trigger] out[k], entrant, variant)
}

/// The selector applies to an entrant: only those that run are considered.
pub open spec fn applies(sel: SelectorView, e: Entrant) -> bool {
    e.spec.entrant.status.runs() && names_entrant(sel, e.spec.entrant.id@)
}

/// The arms after the first `n` variants of `e` are considered.
pub open spec fn with_variants(out: Seq<ArmView>, sel: SelectorView, e: Entrant, n: nat) -> Seq<
    ArmView,
>
    decreases n,
{
    if n == 0 {
        out
    } else {
        let sofar = with_variants(out, sel, e, (n - 1) as nat);
        let v = e.spec.variants@[n - 1];
        if !names_variant(sel, v.id@) || is_chosen(sofar, e.spec.entrant.id@, v.id@) {
            sofar
        } else {
            sofar.push(ArmView { entrant: e, variant: v, image: sel.image })
        }
    }
}

/// The arms after the first `n` entrants are considered.
pub open spec fn with_entrants(out: Seq<ArmView>, sel: SelectorView, es: Seq<Entrant>, n: nat) -> Seq<
    ArmView,
>
    decreases n,
{
    if n == 0 {
        out
    } else {
        let sofar = with_entrants(out, sel, es, (n - 1) as nat);
        if applies(sel, es[n - 1]) {
            with_variants(sofar, sel, es[n - 1], es[n - 1].spec.variants@.len())
        } else {
            sofar
        }
    }
}

/// The selector names some arm that runs.
pub open spec fn hits(sel: SelectorView, es: Seq<Entrant>) -> bool {
    exists|i: int, j: int| names_arm(sel, es, i, j)
}

/// The selector names variant `j` of entrant `i`, and that arm runs.
pub open spec fn names_arm(sel: SelectorView, es: Seq<Entrant>, i: int, j: int) -> bool {
    0 <= i < es.len() && applies(sel, es[i]) && 0 <= j < es[i].spec.variants@.len()
        && names_variant(sel, es[i].spec.variants@[j].id@)
}

pub open spec fn ids_of(es: Seq<Entrant>) -> Seq<Seq<char>> {
    Seq::new(es.len(), |i: int| es[i].spec.entrant.id@)
}

pub open spec fn selector_views(v: Seq<Selector>) -> Seq<SelectorView> {
    Seq::new(v.len(), |i: int| v[i]@)
}

/// The arms that the first `n` selectors choose, or why one is refused.
pub open spec fn expanded(es: Seq<Entrant>, sels: Seq<SelectorView>, n: nat) -> Result<
    Seq<ArmView>,
    Seq<char>,
>
    decreases n,
{
    if n == 0 {
        Ok(seq![])
    } else {
        let sel = sels[n - 1];
        match expanded(es, sels, (n - 1) as nat) {
            Err(e) => Err(e),
            Ok(out) => if sel.entrant != "*"@ && !ids_of(es).contains(sel.entrant) {
                Err(
                    "no entrant "@ + debug_quoted(sel.entrant) + ". Known: "@ + joined(
                        ids_of(es),
                        ", "@,
                    ),
                )
            } else if !hits(sel, es) {
                Err("selector "@ + selector_text(sel) + " matched no runnable arm"@)
            } else {
                Ok(with_entrants(out, sel, es, es.len()))
            },
        }
    }
}

fn chosen(out: &Vec<Arm>, entrant: &str, variant: &str) -> (r: bool)
    ensures
        r == is_chosen(arm_views(out@), entrant@, variant@),
{
    let mut i: usize = 0;
    while i < out.len()
        invariant
            i <= out@.len(),
            forall|k: int|
                0 <= k < i ==> !is_arm(#[trigger] arm_views(out@)[k], entrant@, variant@),
        decreases out@.len() - i,
    {
        if same(out[i].entrant.id(), entrant) && same(out[i].variant.id.as_str(), variant) {
            assert(is_arm(arm_views(out@)[i as int], entrant@, variant@));
            return true;
        }
        i += 1;
    }
    false
}

fn add_variants<'a>(out: &mut Vec<Arm<'a>>, sel: &Selector, e: &'a Entrant) -> (hit: bool)
    ensures
        arm_views(final(out)@) == with_variants(
            arm_views(old(out)@),
            sel@,
            *e,
            e.spec.variants@.len(),
        ),
        hit == exists|j: int|
            0 <= j < e.spec.variants@.len() && names_variant(
                sel@,
                (#[trigger] e.spec.variants@[j]).id@,
            ),
{
    let ghost start = arm_views(out@);
    let mut hit: bool = false;
    let mut j: usize = 0;
    while j < e.spec.variants.len()
        invariant
            j <= e.spec.variants@.len(),
            arm_views(out@) == with_variants(start, sel@, *e, j as nat),
            hit == exists|k: int|
                0 <= k < j && names_variant(sel@, (#[trigger] e.spec.variants@[k]).id@),
        decreases e.spec.variants@.len() - j,
    {
        let v: &'a Variant = &e.spec.variants[j];
        let ghost sofar = arm_views(out@);
        if sel.matches_variant(v.id.as_str()) {
            hit = true;
            if !chosen(out, e.id(), v.id.as_str()) {
                out.push(Arm { entrant: e, variant: v, image: sel.image.clone() });
                proof {
                    assert(arm_views(out@) =~= sofar.push(
                        ArmView { entrant: *e, variant: *v, image: sel@.image },
                    ));
                }
            }
        }
        j += 1;
    }
    hit
}

/// Expands selectors against the loaded entrants. An arm that two selectors name
/// is chosen once; a selector that names nothing is refused.
pub fn expand<'a>(entrants: &'a Vec<Entrant>, selectors: &Vec<Selector>) -> (r: Result<
    Vec<Arm<'a>>,
    String,
>)
    ensures
        match r {
            Ok(arms) => expanded(entrants@, selector_views(selectors@), selectors@.len()) == Ok::<
                Seq<ArmView>,
                Seq<char>,
            >(arm_views(arms@)),
            Err(e) => expanded(entrants@, selector_views(selectors@), selectors@.len()) == Err::<
                Seq<ArmView>,
                Seq<char>,
            >(e@),
        },
{
    let mut out: Vec<Arm<'a>> = Vec::new();
    let mut ids: Vec<String> = Vec::new();
    let mut i: usize = 0;
    proof {
        assert(texts(ids@) =~= ids_of(entrants@).take(0));
        assert(arm_views(out@) =~= seq![]);
    }
    while i < entrants.len()
        invariant
            i <= entrants@.len(),
            texts(ids@) == ids_of(entrants@).take(i as int),
        decreases entrants@.len() - i,
    {
        note(&mut ids, entrants[i].spec.entrant.id.clone());
        i += 1;
        proof {
            assert(texts(ids@) =~= ids_of(entrants@).take(i as int));
        }
    }
    proof {
        assert(ids_of(entrants@).take(i as int) =~= ids_of(entrants@));
    }
    let mut k: usize = 0;
    while k < selectors.len()
        invariant
            k <= selectors@.len(),
            texts(ids@) == ids_of(entrants@),
            expanded(entrants@, selector_views(selectors@), k as nat) == Ok::<Seq<ArmView>, Seq<char>>(
                arm_views(out@),
            ),
        decreases selectors@.len() - k,
    {
        let sel = &selectors[k];
        if !same(sel.entrant.as_str(), "*") && !crate::text::holds_text(
            &ids,
            sel.entrant.as_str(),
        ) {
            let e = cat4(
                "no entrant ",
                quoted(sel.entrant.as_str()).as_str(),
                ". Known: ",
                join(&ids, ", ").as_str(),
            );
            proof {
                lemma_refusal_stands(
                    entrants@,
                    selector_views(selectors@),
                    (k + 1) as nat,
                    selectors@.len(),
                );
            }
            return Err(e);
        }
        let ghost start = arm_views(out@);
        let mut hit: bool = false;
        let mut n: usize = 0;
        while n < entrants.len()
            invariant
                n <= entrants@.len(),
                arm_views(out@) == with_entrants(start, sel@, entrants@, n as nat),
                hit == exists|i: int, j: int| i < n && names_arm(sel@, entrants@, i, j),
            decreases entrants@.len() - n,
        {
            let e: &'a Entrant = &entrants[n];
            if e.spec.entrant.status.is_runnable() && sel.matches_entrant(e.id()) {
                let found: bool = add_variants(&mut out, sel, e);
                proof {
                    if found {
                        let j = choose|j: int|
                            0 <= j < e.spec.variants@.len() && names_variant(
                                sel@,
                                (#[trigger] e.spec.variants@[j]).id@,
                            );
                        assert(names_arm(sel@, entrants@, n as int, j));
                    }
                }
                hit = hit || found;
            }
            n += 1;
        }
        proof {
            assert(hit == hits(sel@, entrants@)) by {
                if hits(sel@, entrants@) {
                    let (i, j) = choose|i: int, j: int| names_arm(sel@, entrants@, i, j);
                    assert(i < n && names_arm(sel@, entrants@, i, j));
                }
            }
        }
        if !hit {
            let e = cat3("selector ", sel.to_text().as_str(), " matched no runnable arm");
            proof {
                lemma_refusal_stands(
                    entrants@,
                    selector_views(selectors@),
                    (k + 1) as nat,
                    selectors@.len(),
                );
            }
            return Err(e);
        }
        k += 1;
    }
    Ok(out)
}

proof fn lemma_refusal_stands(es: Seq<Entrant>, sels: Seq<SelectorView>, n: nat, total: nat)
    requires
        n <= total,
        expanded(es, sels, n) is Err,
    ensures
        expanded(es, sels, total) == expanded(es, sels, n),
    decreases total,
{
    if n < total {
        lemma_refusal_stands(es, sels, n, (total - 1) as nat);
    }
}

/// No arm stands in the list twice.
pub open spec fn no_arm_twice(out: Seq<ArmView>) -> bool {
    forall|i: int, j: int|
        0 <= i < j < out.len() ==> !is_arm(
            #[trigger] out[j],
            (#[trigger] out[i]).entrant.spec.entrant.id@,
            out[i].variant.id@,
        )
}

/// Each arm runs, and is one of the entrants' variants.
pub open spec fn all_from(out: Seq<ArmView>, es: Seq<Entrant>) -> bool {
    forall|k: int|
        0 <= k < out.len() ==> (#[trigger] out[k]).entrant.spec.entrant.status.runs()
            && es.contains(out[k].entrant) && out[k].entrant.spec.variants@.contains(
            out[k].variant,
        )
}

proof fn lemma_with_variants(
    out: Seq<ArmView>,
    sel: SelectorView,
    es: Seq<Entrant>,
    e: Entrant,
    n: nat,
)
    requires
        n <= e.spec.variants@.len(),
        no_arm_twice(out),
        all_from(out, es),
        applies(sel, e),
        es.contains(e),
    ensures
        ({
            let r = with_variants(out, sel, e, n);
            &&& no_arm_twice(r)
            &&& all_from(r, es)
            &&& out.len() <= r.len()
            &&& r.take(out.len() as int) == out
            &&& forall|j: int|
                0 <= j < n && names_variant(sel, (#[trigger] e.spec.variants@[j]).id@)
                    ==> is_chosen(r, e.spec.entrant.id@, e.spec.variants@[j].id@)
        }),
    decreases n,
{
    if n == 0 {
        assert(out.take(out.len() as int) =~= out);
    } else {
        lemma_with_variants(out, sel, es, e, (n - 1) as nat);
        let sofar = with_variants(out, sel, e, (n - 1) as nat);
        let r = with_variants(out, sel, e, n);
        let v = e.spec.variants@[n - 1];
        if names_variant(sel, v.id@) && !is_chosen(sofar, e.spec.entrant.id@, v.id@) {
            let arm = ArmView { entrant: e, variant: v, image: sel.image };
            assert(r == sofar.push(arm));
            assert(r.take(out.len() as int) =~= sofar.take(out.len() as int));
            assert forall|i: int, j: int| 0 <= i < j < r.len() implies !is_arm(
                #[trigger] r[j],
                (#[trigger] r[i]).entrant.spec.entrant.id@,
                r[i].variant.id@,
            ) by {
                if j == sofar.len() {
                    assert(r[i] == sofar[i]);
                    if is_arm(arm, sofar[i].entrant.spec.entrant.id@, sofar[i].variant.id@) {
                        assert(is_arm(sofar[i], e.spec.entrant.id@, v.id@));
                    }
                } else {
                    assert(r[i] == sofar[i] && r[j] == sofar[j]);
                }
            }
            assert(is_arm(r[sofar.len() as int], e.spec.entrant.id@, v.id@));
        }
        assert forall|j: int|
            0 <= j < n && names_variant(sel, (#[trigger] e.spec.variants@[j]).id@) implies is_chosen(
            r,
            e.spec.entrant.id@,
            e.spec.variants@[j].id@,
        ) by {
            if j < n - 1 {
                let id = e.spec.variants@[j].id@;
                let k = choose|k: int|
                    0 <= k < sofar.len() && is_arm(#[trigger] sofar[k], e.spec.entrant.id@, id);
                assert(is_arm(r[k], e.spec.entrant.id@, id));
            }
        }
    }
}

proof fn lemma_chosen_stays(a: Seq<ArmView>, b: Seq<ArmView>, e: Seq<char>, v: Seq<char>)
    requires
        is_chosen(a, e, v),
        a.len() <= b.len(),
        b.take(a.len() as int) == a,
    ensures
        is_chosen(b, e, v),
{
    let k = choose|k: int| 0 <= k < a.len() && is_arm(#[trigger] a[k], e, v);
    assert(b.take(a.len() as int)[k] == b[k]);
    assert(is_arm(b[k], e, v));
}

proof fn lemma_with_entrants(out: Seq<ArmView>, sel: SelectorView, es: Seq<Entrant>, n: nat)
    requires
        n <= es.len(),
        no_arm_twice(out),
        all_from(out, es),
    ensures
        ({
            let r = with_entrants(out, sel, es, n);
            &&& no_arm_twice(r)
            &&& all_from(r, es)
            &&& out.len() <= r.len()
            &&& r.take(out.len() as int) == out
            &&& forall|i: int, j: int|
                i < n && #[trigger] names_arm(sel, es, i, j) ==> is_chosen(
                    r,
                    es[i].spec.entrant.id@,
                    es[i].spec.variants@[j].id@,
                )
        }),
    decreases n,
{
    if n == 0 {
        assert(out.take(out.len() as int) =~= out);
    } else {
        lemma_with_entrants(out, sel, es, (n - 1) as nat);
        let sofar = with_entrants(out, sel, es, (n - 1) as nat);
        let r = with_entrants(out, sel, es, n);
        let e = es[n - 1];
        if applies(sel, e) {
            assert(es.contains(e));
            lemma_with_variants(sofar, sel, es, e, e.spec.variants@.len());
            assert(r.take(out.len() as int) =~= r.take(sofar.len() as int).take(out.len() as int));
        }
        assert forall|i: int, j: int| i < n && #[trigger] names_arm(sel, es, i, j) implies is_chosen(
            r,
            es[i].spec.entrant.id@,
            es[i].spec.variants@[j].id@,
        ) by {
            if i < n - 1 {
                if applies(sel, e) {
                    lemma_chosen_stays(
                        sofar,
                        r,
                        es[i].spec.entrant.id@,
                        es[i].spec.variants@[j].id@,
                    );
                }
            } else {
                let v = e.spec.variants@[j];
                assert(names_variant(sel, v.id@));
            }
        }
    }
}

/// Of an expansion: no arm is chosen twice, each arm runs and is a declared variant
/// of a loaded entrant, and every arm that runs and that some selector names is
/// chosen.
pub proof fn law_expansion_is_exact(es: Seq<Entrant>, sels: Seq<SelectorView>, n: nat)
    requires
        n <= sels.len(),
        expanded(es, sels, n) is Ok,
    ensures
        no_arm_twice(expanded(es, sels, n)->Ok_0),
        all_from(expanded(es, sels, n)->Ok_0, es),
        forall|k: int, i: int, j: int|
            0 <= k < n && #[trigger] names_arm(sels[k], es, i, j) ==> is_chosen(
                expanded(es, sels, n)->Ok_0,
                es[i].spec.entrant.id@,
                es[i].spec.variants@[j].id@,
            ),
    decreases n,
{
    if n > 0 {
        law_expansion_is_exact(es, sels, (n - 1) as nat);
        let sofar = expanded(es, sels, (n - 1) as nat)->Ok_0;
        let r = expanded(es, sels, n)->Ok_0;
        lemma_with_entrants(sofar, sels[n - 1], es, es.len());
        assert forall|k: int, i: int, j: int|
            0 <= k < n && #[trigger] names_arm(sels[k], es, i, j) implies is_chosen(
            r,
            es[i].spec.entrant.id@,
            es[i].spec.variants@[j].id@,
        ) by {
            if k < n - 1 {
                lemma_chosen_stays(
                    sofar,
                    r,
                    es[i].spec.entrant.id@,
                    es[i].spec.variants@[j].id@,
                );
            }
        }
    }
}

/// A selector, an entrant and one of its variants, by their positions.
pub struct Pick {
    pub selector: int,
    pub entrant: int,
    pub variant: int,
}

/// The selector is the first that names the arm.
pub open spec fn is_pick(es: Seq<Entrant>, sels: Seq<SelectorView>, t: Pick) -> bool {
    &&& 0 <= t.selector < sels.len()
    &&& names_arm(sels[t.selector], es, t.entrant, t.variant)
    &&& forall|k: int|
        0 <= k < t.selector ==> !names_arm(#[trigger] sels[k], es, t.entrant, t.variant)
}

/// By selector, then by entrant, then by variant.
pub open spec fn precedes(a: Pick, b: Pick) -> bool {
    a.selector < b.selector || (a.selector == b.selector && (a.entrant < b.entrant || (a.entrant
        == b.entrant && a.variant < b.variant)))
}

/// The arm that a pick chooses, with the image of its selector.
pub open spec fn picked_arm(es: Seq<Entrant>, sels: Seq<SelectorView>, t: Pick) -> ArmView {
    ArmView {
        entrant: es[t.entrant],
        variant: es[t.entrant].spec.variants@[t.variant],
        image: sels[t.selector].image,
    }
}

pub open spec fn picked_arms(es: Seq<Entrant>, sels: Seq<SelectorView>, picks: Seq<Pick>) -> Seq<
    ArmView,
> {
    Seq::new(picks.len(), |m: int| picked_arm(es, sels, picks[m]))
}

/// `picks` are the picks before `end`, in order, and no others.
pub open spec fn are_picks_before(
    es: Seq<Entrant>,
    sels: Seq<SelectorView>,
    end: Pick,
    picks: Seq<Pick>,
) -> bool {
    &&& forall|a: int, b: int|
        0 <= a < b < picks.len() ==> precedes(#[trigger] picks[a], #[trigger] picks[b])
    &&& forall|t: Pick|
        #[trigger] picks.contains(t) <==> is_pick(es, sels, t) && precedes(t, end)
}

/// `picks` are the picks of the first `n` selectors, in order, and no others.
pub open spec fn are_picks(
    es: Seq<Entrant>,
    sels: Seq<SelectorView>,
    n: nat,
    picks: Seq<Pick>,
) -> bool {
    are_picks_before(es, sels, Pick { selector: n as int, entrant: 0, variant: 0 }, picks)
}

/// One of the first `n` selectors is the first to name the arm, and gives it its image.
pub open spec fn is_picked(es: Seq<Entrant>, sels: Seq<SelectorView>, n: nat, arm: ArmView) -> bool {
    exists|t: Pick| #[trigger]
        is_pick(es, sels, t) && t.selector < n && arm == picked_arm(es, sels, t)
}

/// No two entrants share an id, and no two variants of one entrant.
pub open spec fn ids_are_distinct(es: Seq<Entrant>) -> bool {
    &&& forall|a: int, b: int|
        0 <= a < b < es.len() ==> (#[trigger] es[a]).spec.entrant.id@ != (
        #[trigger] es[b]).spec.entrant.id@
    &&& forall|i: int, a: int, b: int|
        0 <= i < es.len() && 0 <= a < b < es[i].spec.variants@.len() ==> (
        #[trigger] es[i].spec.variants@[a]).id@ != (#[trigger] es[i].spec.variants@[b]).id@
}

/// An arm that some selector before `n` names has a first one that does.
proof fn lemma_first_naming(es: Seq<Entrant>, sels: Seq<SelectorView>, n: int, i: int, j: int) -> (k:
    int)
    requires
        0 <= n <= sels.len(),
        exists|k: int| 0 <= k < n && names_arm(#[trigger] sels[k], es, i, j),
    ensures
        0 <= k < n,
        is_pick(es, sels, Pick { selector: k, entrant: i, variant: j }),
    decreases n,
{
    if exists|k: int| 0 <= k < n - 1 && names_arm(#[trigger] sels[k], es, i, j) {
        lemma_first_naming(es, sels, n - 1, i, j)
    } else {
        n - 1
    }
}

/// An arm that a selector names is chosen already exactly where an earlier one names it.
proof fn lemma_chosen_before(
    es: Seq<Entrant>,
    sels: Seq<SelectorView>,
    t: Pick,
    picks: Seq<Pick>,
)
    requires
        ids_are_distinct(es),
        0 <= t.selector < sels.len(),
        names_arm(sels[t.selector], es, t.entrant, t.variant),
        are_picks_before(es, sels, t, picks),
    ensures
        is_chosen(
            picked_arms(es, sels, picks),
            es[t.entrant].spec.entrant.id@,
            es[t.entrant].spec.variants@[t.variant].id@,
        ) <==> !is_pick(es, sels, t),
{
    let out = picked_arms(es, sels, picks);
    let id = es[t.entrant].spec.entrant.id@;
    let variant = es[t.entrant].spec.variants@[t.variant].id@;
    if is_chosen(out, id, variant) {
        let m = choose|m: int| 0 <= m < out.len() && is_arm(#[trigger] out[m], id, variant);
        let p = picks[m];
        assert(picks.contains(p));
        assert(p.entrant == t.entrant);
        assert(p.variant == t.variant);
        assert(names_arm(sels[p.selector], es, t.entrant, t.variant));
    }
    if !is_pick(es, sels, t) {
        let k = lemma_first_naming(es, sels, t.selector, t.entrant, t.variant);
        let p = Pick { selector: k, entrant: t.entrant, variant: t.variant };
        assert(precedes(p, t));
        assert(picks.contains(p));
        let m = choose|m: int| 0 <= m < picks.len() && picks[m] == p;
        assert(is_arm(out[m], id, variant));
    }
}

proof fn lemma_picks_in_variants(
    es: Seq<Entrant>,
    sels: Seq<SelectorView>,
    out: Seq<ArmView>,
    start: Seq<Pick>,
    k: int,
    i: int,
    n: nat,
) -> (picks: Seq<Pick>)
    requires
        ids_are_distinct(es),
        0 <= k < sels.len(),
        0 <= i < es.len(),
        applies(sels[k], es[i]),
        n <= es[i].spec.variants@.len(),
        are_picks_before(es, sels, Pick { selector: k, entrant: i, variant: 0 }, start),
        out == picked_arms(es, sels, start),
    ensures
        are_picks_before(es, sels, Pick { selector: k, entrant: i, variant: n as int }, picks),
        with_variants(out, sels[k], es[i], n) == picked_arms(es, sels, picks),
    decreases n,
{
    if n == 0 {
        start
    } else {
        let sofar = lemma_picks_in_variants(es, sels, out, start, k, i, (n - 1) as nat);
        let t = Pick { selector: k, entrant: i, variant: n - 1 };
        let end = Pick { selector: k, entrant: i, variant: n as int };
        assert forall|p: Pick| precedes(p, end) <==> precedes(p, t) || p == t by {}
        if names_arm(sels[k], es, i, n - 1) {
            lemma_chosen_before(es, sels, t, sofar);
        }
        if is_pick(es, sels, t) {
            let picks = sofar.push(t);
            assert forall|a: int, b: int| 0 <= a < b < picks.len() implies precedes(
                #[trigger] picks[a],
                #[trigger] picks[b],
            ) by {
                assert(sofar.contains(sofar[a]));
            }
            assert forall|p: Pick| #[trigger] picks.contains(p) <==> is_pick(es, sels, p)
                && precedes(p, end) by {
                if picks.contains(p) {
                    let m = choose|m: int| 0 <= m < picks.len() && picks[m] == p;
                    assert(m < sofar.len() ==> sofar.contains(sofar[m]));
                }
                if is_pick(es, sels, p) && precedes(p, end) {
                    if p == t {
                        assert(picks[sofar.len() as int] == p);
                    } else {
                        assert(sofar.contains(p));
                        let m = choose|m: int| 0 <= m < sofar.len() && sofar[m] == p;
                        assert(picks[m] == p);
                    }
                }
            }
            assert(picked_arms(es, sels, picks) =~= picked_arms(es, sels, sofar).push(
                picked_arm(es, sels, t),
            ));
            picks
        } else {
            assert forall|p: Pick| #[trigger] sofar.contains(p) <==> is_pick(es, sels, p)
                && precedes(p, end) by {}
            sofar
        }
    }
}

proof fn lemma_picks_in_entrants(
    es: Seq<Entrant>,
    sels: Seq<SelectorView>,
    out: Seq<ArmView>,
    start: Seq<Pick>,
    k: int,
    n: nat,
) -> (picks: Seq<Pick>)
    requires
        ids_are_distinct(es),
        0 <= k < sels.len(),
        n <= es.len(),
        are_picks_before(es, sels, Pick { selector: k, entrant: 0, variant: 0 }, start),
        out == picked_arms(es, sels, start),
    ensures
        are_picks_before(es, sels, Pick { selector: k, entrant: n as int, variant: 0 }, picks),
        with_entrants(out, sels[k], es, n) == picked_arms(es, sels, picks),
    decreases n,
{
    if n == 0 {
        start
    } else {
        let sofar = lemma_picks_in_entrants(es, sels, out, start, k, (n - 1) as nat);
        let end = Pick { selector: k, entrant: n as int, variant: 0 };
        let picks = if applies(sels[k], es[n - 1]) {
            lemma_picks_in_variants(
                es,
                sels,
                picked_arms(es, sels, sofar),
                sofar,
                k,
                n - 1,
                es[n - 1].spec.variants@.len(),
            )
        } else {
            sofar
        };
        assert forall|p: Pick| #[trigger] picks.contains(p) <==> is_pick(es, sels, p)
            && precedes(p, end) by {}
        picks
    }
}

proof fn lemma_picks(es: Seq<Entrant>, sels: Seq<SelectorView>, n: nat) -> (picks: Seq<Pick>)
    requires
        ids_are_distinct(es),
        n <= sels.len(),
        expanded(es, sels, n) is Ok,
    ensures
        are_picks(es, sels, n, picks),
        expanded(es, sels, n)->Ok_0 == picked_arms(es, sels, picks),
    decreases n,
{
    if n == 0 {
        assert(picked_arms(es, sels, seq![]) =~= seq![]);
        seq![]
    } else {
        let sofar = lemma_picks(es, sels, (n - 1) as nat);
        let picks = lemma_picks_in_entrants(
            es,
            sels,
            picked_arms(es, sels, sofar),
            sofar,
            n - 1,
            es.len(),
        );
        let end = Pick { selector: n as int, entrant: 0, variant: 0 };
        assert forall|p: Pick| #[trigger] picks.contains(p) <==> is_pick(es, sels, p)
            && precedes(p, end) by {}
        picks
    }
}

/// What an expansion is, where no id stands for two things: every arm that some selector
/// names, once, and no other; each with the image of the first selector that names it;
/// in the order of those selectors, and under one selector in the order of the entrants
/// and of their variants.
pub proof fn law_expansion_is_in_order(es: Seq<Entrant>, sels: Seq<SelectorView>, n: nat)
    requires
        n <= sels.len(),
        expanded(es, sels, n) is Ok,
        ids_are_distinct(es),
    ensures
        exists|picks: Seq<Pick>| #[trigger]
            are_picks(es, sels, n, picks) && expanded(es, sels, n)->Ok_0 == picked_arms(
                es,
                sels,
                picks,
            ),
        forall|m: int|
            0 <= m < expanded(es, sels, n)->Ok_0.len() ==> is_picked(
                es,
                sels,
                n,
                #[trigger] expanded(es, sels, n)->Ok_0[m],
            ),
{
    let picks = lemma_picks(es, sels, n);
    let out = expanded(es, sels, n)->Ok_0;
    assert forall|m: int| 0 <= m < out.len() implies is_picked(es, sels, n, #[trigger] out[m]) by {
        assert(picks.contains(picks[m]));
        assert(is_pick(es, sels, picks[m]));
    }
}

proof fn lemma_body(body: Seq<char>, image: Seq<char>)
    requires
        lacks(body, '@'),
    ensures
        image_split(body) == (body, None::<Seq<char>>),
        image_split(body + seq!['@'] + image) == (body, Some(image)),
{
    let s = body + seq!['@'] + image;
    let n = body.len() as int;
    assert forall|k: int| 0 <= k < n implies s[k] != '@' by {
        assert(s[k] == body[k]);
    }
    lemma_first_of_is(s, '@', n);
    assert(s.take(n) =~= body);
    assert(s.skip(n + 1) =~= image);
    lemma_first_of_is(body, '@', n);
}

/// A selector is read part for part: what stands before the colon is the entrant, what
/// stands behind it the variant, and what stands behind an `@` the image. Without a variant
/// every one is meant; without an image, the descriptor's.
pub proof fn law_selector_is_read_part_for_part(e: Seq<char>, v: Seq<char>, image: Seq<char>)
    requires
        e.len() > 0 && v.len() > 0 && image.len() > 0,
        forall|i: int| 0 <= i < e.len() ==> #[trigger] e[i] != ':' && e[i] != '@',
        forall|i: int| 0 <= i < v.len() ==> #[trigger] v[i] != ':' && v[i] != '@',
    ensures
        parsed_selector(e) == Ok::<SelectorView, Seq<char>>(
            SelectorView { entrant: e, variant: "*"@, image: None },
        ),
        parsed_selector(e + seq![':'] + v) == Ok::<SelectorView, Seq<char>>(
            SelectorView { entrant: e, variant: v, image: None },
        ),
        parsed_selector(e + seq!['@'] + image) == Ok::<SelectorView, Seq<char>>(
            SelectorView { entrant: e, variant: "*"@, image: Some(image) },
        ),
        parsed_selector(e + seq![':'] + v + seq!['@'] + image) == Ok::<SelectorView, Seq<char>>(
            SelectorView { entrant: e, variant: v, image: Some(image) },
        ),
{
    reveal_strlit(":");
    let body = e + seq![':'] + v;
    assert(body =~= e + ":"@ + v);
    assert(lacks(e, ':') && lacks(v, ':') && lacks(e, '@'));
    assert forall|k: int| 0 <= k < body.len() implies body[k] != '@' by {
        if k < e.len() {
            assert(body[k] == e[k]);
        } else if k > e.len() {
            assert(body[k] == v[k - e.len() - 1]);
        }
    }
    lemma_body(e, image);
    lemma_body(body, image);
    lemma_split_pair(e, v);
    lemma_first_of_is(e, ':', e.len() as int);
    assert(split_at_each(e, ':') =~= seq![e]);
}

/// A selector with an empty part, an empty image or a third part is refused.
pub proof fn law_selector_is_never_widened(a: Seq<char>, b: Seq<char>, c: Seq<char>)
    requires
        forall|i: int| 0 <= i < a.len() ==> #[trigger] a[i] != ':' && a[i] != '@',
        forall|i: int| 0 <= i < b.len() ==> #[trigger] b[i] != ':' && b[i] != '@',
        forall|i: int| 0 <= i < c.len() ==> #[trigger] c[i] != ':' && c[i] != '@',
    ensures
        parsed_selector(a + seq!['@']) is Err,
        parsed_selector(seq![]) is Err,
        a.len() == 0 || b.len() == 0 ==> parsed_selector(a + seq![':'] + b) is Err,
        parsed_selector(a + seq![':'] + (b + seq![':'] + c)) is Err,
{
    reveal_strlit(":");
    let none = Seq::<char>::empty();
    assert(lacks(a, '@') && lacks(a, ':') && lacks(b, ':') && lacks(c, ':'));
    lemma_body(a, none);
    assert(a + seq!['@'] + none =~= a + seq!['@']);
    assert(lacks(none, '@') && lacks(none, ':'));
    lemma_body(none, none);
    lemma_first_of_is(none, ':', 0);
    assert(split_at_each(none, ':') =~= seq![none]);
    assert(split_at_each(none, ':')[0].len() == 0);
    let two = a + seq![':'] + b;
    assert(two =~= a + ":"@ + b);
    assert forall|k: int| 0 <= k < two.len() implies two[k] != '@' by {
        if k < a.len() {
            assert(two[k] == a[k]);
        } else if k > a.len() {
            assert(two[k] == b[k - a.len() - 1]);
        }
    }
    lemma_body(two, none);
    lemma_split_pair(a, b);
    let parts = split_at_each(two, ':');
    assert(parts[0] == a && parts[1] == b);
    let tail = b + seq![':'] + c;
    assert(tail =~= b + ":"@ + c);
    lemma_split_pair(b, c);
    let three = a + seq![':'] + tail;
    let n = a.len() as int;
    assert forall|k: int| 0 <= k < n implies three[k] != ':' by {
        assert(three[k] == a[k]);
    }
    lemma_first_of_is(three, ':', n);
    assert(three.take(n) =~= a);
    assert(three.skip(n + 1) =~= tail);
    assert(split_at_each(three, ':') =~= seq![a, b, c]);
    assert forall|k: int| 0 <= k < three.len() implies three[k] != '@' by {
        if k < n {
            assert(three[k] == a[k]);
        } else if k > n {
            assert(three[k] == tail[k - n - 1]);
            let j = k - n - 1;
            if j < b.len() {
                assert(tail[j] == b[j]);
            } else if j > b.len() {
                assert(tail[j] == c[j - b.len() - 1]);
            }
        }
    }
    lemma_body(three, none);
}

/// A name selects itself and nothing else; a star selects everything.
pub proof fn law_star_selects_everything(s: SelectorView, id: Seq<char>)
    ensures
        s.entrant == "*"@ ==> names_entrant(s, id),
        s.variant == "*"@ ==> names_variant(s, id),
        s.entrant != "*"@ ==> (names_entrant(s, id) <==> s.entrant == id),
        s.variant != "*"@ ==> (names_variant(s, id) <==> s.variant == id),
{
}

/// An expansion is refused exactly where some selector names an entrant that is not there,
/// or names no arm that runs.
pub proof fn law_selector_that_names_nothing_is_refused(
    es: Seq<Entrant>,
    sels: Seq<SelectorView>,
    n: nat,
)
    requires
        n <= sels.len(),
    ensures
        expanded(es, sels, n) is Ok <==> forall|k: int|
            0 <= k < n ==> ((#[trigger] sels[k]).entrant == "*"@ || ids_of(es).contains(
                sels[k].entrant,
            )) && exists|i: int, j: int| names_arm(sels[k], es, i, j),
    decreases n,
{
    if n > 0 {
        law_selector_that_names_nothing_is_refused(es, sels, (n - 1) as nat);
        let last = sels[n - 1];
        if expanded(es, sels, n) is Ok {
            assert forall|k: int| 0 <= k < n implies ((#[trigger] sels[k]).entrant == "*"@ || ids_of(
                es,
            ).contains(sels[k].entrant)) && exists|i: int, j: int| names_arm(sels[k], es, i, j) by {
                if k == n - 1 {
                    assert(hits(last, es));
                }
            }
        } else if expanded(es, sels, (n - 1) as nat) is Ok {
            assert(!((last.entrant == "*"@ || ids_of(es).contains(last.entrant)) && hits(last, es)));
        }
    }
}

/// A selector names an arm exactly where the entrant runs, and its id and the variant's are
/// those of the selector, or the selector leaves them open.
pub proof fn law_arm_is_named_by_both_ids(sel: SelectorView, es: Seq<Entrant>, i: int, j: int)
    ensures
        names_arm(sel, es, i, j) <==> {
            &&& 0 <= i < es.len() && 0 <= j < es[i].spec.variants@.len()
            &&& es[i].spec.entrant.status == crate::entrant::Status::Active
                || es[i].spec.entrant.status == crate::entrant::Status::Historical
            &&& sel.entrant == "*"@ || sel.entrant == es[i].spec.entrant.id@
            &&& sel.variant == "*"@ || sel.variant == es[i].spec.variants@[j].id@
        },
{
}

} // verus!
