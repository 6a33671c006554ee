//! Person and competitor names: a display text and the sorted, normalized words that identify
//! it whatever their order, spacing, case or accents.

use vstd::prelude::*;
use vstd::relations::sorted_by;
use vstd::seq_lib::lemma_sorted_unique;

use crate::order::{lemma_text_order_total, sort_texts, text_order};
use crate::text::{lemma_words_trimmed, split_words, trim, trimmed, views, words};

verus! {

/// What `str::to_lowercase` makes of a text.
pub uninterp spec fn lowercase_of(s: Seq<char>) -> Seq<char>;

/// What `deunicode::deunicode` makes of a text: its ASCII transliteration.
pub uninterp spec fn transliteration_of(s: Seq<char>) -> Seq<char>;

/// Relies on `str::to_lowercase`: the result depends on the characters alone.
#[verifier::external_body]
fn lowercase(s: &str) -> (r: String)
    ensures
        r@ == lowercase_of(s@),
{
    s.to_lowercase()
}

/// Relies on `deunicode::deunicode`: accented and other non-ASCII characters are replaced by
/// their closest ASCII spelling; the result depends on the characters alone.
#[verifier::external_body]
fn transliterate(s: &str) -> (r: String)
    ensures
        r@ == transliteration_of(s@),
{
    deunicode::deunicode(s)
}

/// A word as names compare it: lowercased, then transliterated to ASCII.
pub open spec fn normalized_word(w: Seq<char>) -> Seq<char> {
    transliteration_of(lowercase_of(w))
}

/// The normalized words of a name's text, in the order they come.
pub open spec fn name_tokens(name: Seq<char>) -> Seq<Seq<char>> {
    words(name).map_values(|w: Seq<char>| normalized_word(w))
}

/// Whether `parts` holds the normalized words of `name`, sorted.
pub open spec fn canonical_parts(parts: Seq<Seq<char>>, name: Seq<char>) -> bool {
    sorted_by(parts, text_order()) && parts.to_multiset() == name_tokens(name).to_multiset()
}

/// Returns the normalized words of `name`, sorted.
fn name_parts_of(name: &str) -> (r: Vec<String>)
    ensures
        canonical_parts(views(r@), name@),
{
    let ws = split_words(name);
    let mut normalized: Vec<String> = Vec::new();
    let mut i: usize = 0;
    while i < ws.len()
        invariant
            i <= ws.len(),
            views(ws@) == words(name@),
            views(normalized@) == name_tokens(name@).take(i as int),
        decreases ws.len() - i,
    {
        let lower = lowercase(ws[i].as_str());
        let w = transliterate(lower.as_str());
        let ghost before = normalized@;
        normalized.push(w);
        proof {
            assert(views(ws@)[i as int] == ws@[i as int]@);
            assert(name_tokens(name@)[i as int] == normalized_word(ws@[i as int]@));
            assert(views(normalized@) =~= views(before).push(w@));
            assert(name_tokens(name@).take(i + 1) =~= name_tokens(name@).take(i as int).push(
                name_tokens(name@)[i as int],
            ));
        }
        i = i + 1;
    }
    assert(name_tokens(name@).take(ws.len() as int) =~= name_tokens(name@));
    sort_texts(&normalized)
}

/// Whether two lists of texts are equal.
fn same_texts(a: &Vec<String>, b: &Vec<String>) -> (r: bool)
    ensures
        r == (views(a@) == views(b@)),
{
    if a.len() != b.len() {
        assert(views(a@).len() != views(b@).len());
        return false;
    }
    let mut i: usize = 0;
    while i < a.len()
        invariant
            a.len() == b.len(),
            i <= a.len(),
            forall|k: int| 0 <= k < i ==> #[trigger] a@[k]@ == b@[k]@,
        decreases a.len() - i,
    {
        if a[i] != b[i] {
            assert(views(a@)[i as int] != views(b@)[i as int]);
            return false;
        }
        i = i + 1;
    }
    assert(views(a@) =~= views(b@));
    true
}

/// A person's name: the text shown, and its normalized words, sorted.
#[derive(Debug, Clone)]
pub struct PersonName {
    name: String,
    name_parts: Vec<String>,
}

impl PersonName {
    /// The text shown for this name.
    pub closed spec fn display(&self) -> Seq<char> {
        self.name@
    }

    /// The normalized words of this name, sorted.
    pub closed spec fn parts(&self) -> Seq<Seq<char>> {
        views(self.name_parts@)
    }

    pub open spec fn wf(&self) -> bool {
        canonical_parts(self.parts(), self.display())
    }

    /// Two names are the same when their texts are, or when their normalized words are.
    pub open spec fn same_name(&self, other: &PersonName) -> bool {
        self.display() == other.display() || self.parts() == other.parts()
    }

    /// The name written in `name`, without its surrounding whitespace.
    pub fn new(name: &str) -> (r: PersonName)
        ensures
            r.wf(),
            r.display() == trimmed(name@),
    {
        let display = trim(name);
        let name_parts = name_parts_of(display.as_str());
        PersonName { name: display, name_parts }
    }

    /// The name made of a first and a last name, each trimmed, joined by one space.
    pub fn from_names(names: &[&String; 2]) -> (r: PersonName)
        ensures
            r.wf(),
            r.display() == trimmed(names@[0]@) + seq![' '] + trimmed(names@[1]@),
    {
        let mut display = trim(names[0].as_str());
        let last = trim(names[1].as_str());
        proof {
            reveal_strlit(" ");
        }
        display.append(" ");
        display.append(last.as_str());
        let name_parts = name_parts_of(display.as_str());
        PersonName { name: display, name_parts }
    }

    pub fn name(&self) -> (r: &String)
        ensures
            r@ == self.display(),
    {
        &self.name
    }

    /// A copy of this name.
    pub fn duplicate(&self) -> (r: PersonName)
        ensures
            r.display() == self.display(),
            r.parts() == self.parts(),
    {
        PersonName { name: self.name.clone(), name_parts: self.name_parts.clone() }
    }

    pub fn name_parts(&self) -> (r: &Vec<String>)
        ensures
            views(r@) == self.parts(),
    {
        &self.name_parts
    }
}

impl PartialEq for PersonName {
    fn eq(&self, other: &PersonName) -> (r: bool) {
        self.name == other.name || same_texts(&self.name_parts, &other.name_parts)
    }
}

impl vstd::std_specs::cmp::PartialEqSpecImpl for PersonName {
    open spec fn obeys_eq_spec() -> bool {
        true
    }

    open spec fn eq_spec(&self, other: &PersonName) -> bool {
        self.same_name(other)
    }
}

/// For well-formed names, being the same name is having the same normalized words up to order.
pub proof fn lemma_same_name_iff_same_tokens(a: PersonName, b: PersonName)
    requires
        a.wf(),
        b.wf(),
    ensures
        a.same_name(&b) <==> name_tokens(a.display()).to_multiset() == name_tokens(
            b.display(),
        ).to_multiset(),
        a.same_name(&b) <==> a.parts() == b.parts(),
{
    lemma_text_order_total();
    if name_tokens(a.display()).to_multiset() == name_tokens(b.display()).to_multiset() {
        lemma_sorted_unique(a.parts(), b.parts(), text_order());
    }
}

/// Name equality is reflexive and symmetric.
pub proof fn name_equality_reflexive_symmetric(a: PersonName, b: PersonName)
    ensures
        a.same_name(&a),
        a.same_name(&b) == b.same_name(&a),
{
}

/// Two names whose normalized words are the same up to order are equal: the order of the
/// words, the whitespace around and between them, and what lowercasing and transliteration
/// remove (case, accents) do not tell names apart.
pub proof fn names_with_same_words_are_equal(a: PersonName, b: PersonName)
    requires
        a.wf(),
        b.wf(),
        name_tokens(a.display()).to_multiset() == name_tokens(b.display()).to_multiset(),
    ensures
        a.same_name(&b),
{
    lemma_same_name_iff_same_tokens(a, b);
}

/// Mapping the elements of two sequences that hold the same elements, in any order, gives two
/// sequences that hold the same elements.
pub proof fn lemma_map_preserves_multiset(
    s: Seq<Seq<char>>,
    t: Seq<Seq<char>>,
    f: spec_fn(Seq<char>) -> Seq<char>,
)
    requires
        s.to_multiset() == t.to_multiset(),
    ensures
        s.map_values(f).to_multiset() == t.map_values(f).to_multiset(),
    decreases s.len(),
{
    broadcast use vstd::seq_lib::group_to_multiset_ensures;
    broadcast use vstd::multiset::group_multiset_axioms;
    broadcast use vstd::seq_lib::to_multiset_remove;

    if s.len() == 0 {
        assert(t.to_multiset().len() == 0);
        assert(t.len() == 0);
        assert(s.map_values(f) =~= t.map_values(f));
    } else {
        let x = s[0];
        assert(s.to_multiset().contains(x));
        assert(t.to_multiset().contains(x));
        assert(t.contains(x));
        let i = choose|i: int| 0 <= i < t.len() && t[i] == x;
        let s1 = s.drop_first();
        let t1 = t.remove(i);
        assert(s =~= seq![x] + s1);
        assert(s1 =~= s.remove(0));
        assert(s1.to_multiset() == s.to_multiset().remove(x));
        assert(t1.to_multiset() == t.to_multiset().remove(x));
        lemma_map_preserves_multiset(s1, t1, f);
        let ms = s.map_values(f);
        let mt = t.map_values(f);
        assert(ms.remove(0) =~= s1.map_values(f));
        assert(mt.remove(i) =~= t1.map_values(f));
        assert(ms.remove(0).to_multiset() == ms.to_multiset().remove(f(x)));
        assert(mt.remove(i).to_multiset() == mt.to_multiset().remove(f(x)));
        assert(ms.to_multiset().contains(f(x)));
        assert(mt.to_multiset().contains(f(x)));
        assert(ms.to_multiset() =~= ms.to_multiset().remove(f(x)).insert(f(x)));
        assert(mt.to_multiset() =~= mt.to_multiset().remove(f(x)).insert(f(x)));
    }
}

/// Word order and the whitespace around words do not tell names apart: two names whose texts
/// hold the same words, in any order, are equal.
pub proof fn names_with_reordered_words_are_equal(a: PersonName, b: PersonName)
    requires
        a.wf(),
        b.wf(),
        words(a.display()).to_multiset() == words(b.display()).to_multiset(),
    ensures
        a.same_name(&b),
{
    lemma_map_preserves_multiset(
        words(a.display()),
        words(b.display()),
        |w: Seq<char>| normalized_word(w),
    );
    lemma_same_name_iff_same_tokens(a, b);
}

/// Names made from texts with the same words, in any order and with any whitespace around
/// and between them, are equal: `PersonName::new` on `"John Doe"`, `"Doe John"` and
/// `"  John   Doe "` gives equal names.
pub proof fn names_of_reordered_texts_are_equal(
    s: Seq<char>,
    t: Seq<char>,
    a: PersonName,
    b: PersonName,
)
    requires
        a.wf(),
        b.wf(),
        a.display() == trimmed(s),
        b.display() == trimmed(t),
        words(s).to_multiset() == words(t).to_multiset(),
    ensures
        a.same_name(&b),
{
    lemma_words_trimmed(s);
    lemma_words_trimmed(t);
    names_with_reordered_words_are_equal(a, b);
}

/// Name equality is transitive among well-formed names.
pub proof fn name_equality_transitive(a: PersonName, b: PersonName, c: PersonName)
    requires
        a.wf(),
        b.wf(),
        c.wf(),
        a.same_name(&b),
        b.same_name(&c),
    ensures
        a.same_name(&c),
{
    lemma_same_name_iff_same_tokens(a, b);
    lemma_same_name_iff_same_tokens(b, c);
    lemma_same_name_iff_same_tokens(a, c);
}

/// The name of a competitor as a result sheet writes it.
#[derive(Debug, Clone)]
pub struct CompetitorName {
    name: PersonName,
}

impl CompetitorName {
    pub closed spec fn person_name(&self) -> PersonName {
        self.name
    }

    pub open spec fn wf(&self) -> bool {
        self.person_name().wf()
    }

    /// The name written in `name`, without its surrounding whitespace.
    pub fn new(name: &str) -> (r: CompetitorName)
        ensures
            r.wf(),
            r.person_name().display() == trimmed(name@),
    {
        CompetitorName { name: PersonName::new(name) }
    }

    pub fn name(&self) -> (r: &String)
        ensures
            r@ == self.person_name().display(),
    {
        self.name.name()
    }

    pub fn name_parts(&self) -> (r: &Vec<String>)
        ensures
            views(r@) == self.person_name().parts(),
    {
        self.name.name_parts()
    }

    /// A copy of this name.
    pub fn duplicate(&self) -> (r: CompetitorName)
        ensures
            copy_of(r, *self),
    {
        CompetitorName { name: self.name.duplicate() }
    }
}

/// Whether `a` holds the same text and words as `b`.
pub open spec fn copy_of(a: CompetitorName, b: CompetitorName) -> bool {
    a.person_name().display() == b.person_name().display() && a.person_name().parts()
        == b.person_name().parts()
}

/// Whether two competitor names are the same name.
pub open spec fn same_competitor(a: CompetitorName, b: CompetitorName) -> bool {
    a.person_name().same_name(&b.person_name())
}

/// The names of `names`, each once: a name is kept unless an earlier kept one is the same.
pub open spec fn distinct_names(names: Seq<CompetitorName>) -> Seq<CompetitorName>
    decreases names.len(),
{
    if names.len() == 0 {
        Seq::empty()
    } else {
        let d = distinct_names(names.drop_last());
        if exists|k: int| 0 <= k < d.len() && same_competitor(d[k], names.last()) {
            d
        } else {
            d.push(names.last())
        }
    }
}

/// Keeps `names` in order, each once, as `distinct_names` says.
pub fn keep_distinct(names: &Vec<&CompetitorName>) -> (r: Vec<CompetitorName>)
    ensures
        r.len() == distinct_names(names@.map_values(|n: &CompetitorName| *n)).len(),
        forall|k: int|
            0 <= k < r.len() ==> copy_of(
                #[trigger] r@[k],
                distinct_names(names@.map_values(|n: &CompetitorName| *n))[k],
            ),
{
    let ghost all = names@.map_values(|n: &CompetitorName| *n);
    let mut out: Vec<CompetitorName> = Vec::new();
    let mut i: usize = 0;
    assert(all.take(0) =~= Seq::<CompetitorName>::empty());
    while i < names.len()
        invariant
            i <= names.len(),
            all == names@.map_values(|n: &CompetitorName| *n),
            out.len() == distinct_names(all.take(i as int)).len(),
            forall|k: int| 0 <= k < out.len() ==> copy_of(#[trigger] out@[k], distinct_names(all.take(i as int))[k]),
        decreases names.len() - i,
    {
        let ghost d = distinct_names(all.take(i as int));
        assert(all.take(i + 1).drop_last() =~= all.take(i as int));
        assert(all.take(i + 1).last() == *names@[i as int]);
        let name = names[i];
        let mut k: usize = 0;
        while k < out.len() && !(out[k] == *name)
            invariant
                k <= out.len(),
                out.len() == d.len(),
                forall|j: int| 0 <= j < out.len() ==> copy_of(#[trigger] out@[j], d[j]),
                forall|j: int| 0 <= j < k ==> !same_competitor(#[trigger] d[j], *name),
            decreases out.len() - k,
        {
            k = k + 1;
        }
        if k == out.len() {
            out.push(name.duplicate());
            assert(!exists|j: int| 0 <= j < d.len() && same_competitor(d[j], *name));
        } else {
            assert(same_competitor(d[k as int], *name));
        }
        i = i + 1;
    }
    assert(all.take(names.len() as int) =~= all);
    out
}

impl PartialEq for CompetitorName {
    fn eq(&self, other: &CompetitorName) -> (r: bool) {
        self.name == other.name
    }
}

impl vstd::std_specs::cmp::PartialEqSpecImpl for CompetitorName {
    open spec fn obeys_eq_spec() -> bool {
        true
    }

    open spec fn eq_spec(&self, other: &CompetitorName) -> bool {
        self.person_name().same_name(&other.person_name())
    }
}

} // verus!
