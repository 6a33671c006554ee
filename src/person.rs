//! Registrants, identities and people: every registrant row of every convention merged into
//! one person per identity, with that person's ids and results per convention.

use chrono::Datelike;
use vstd::multiset::Multiset;
use vstd::prelude::*;

use crate::competition::{CompetitionResult, Convention, ResultRecord};
use crate::name::{lemma_same_name_iff_same_tokens, name_tokens, PersonName};
use crate::registration::records;
use crate::text::trimmed;

verus! {

/// A calendar date.
#[derive(Debug, Clone, Copy, PartialEq, Eq, Hash, Structural)]
pub struct Date {
    pub year: i32,
    pub month: u32,
    pub day: u32,
}

/// What `chrono::NaiveDate::parse_from_str` makes of a text and a format: year, month and day.
pub uninterp spec fn date_of_text(s: Seq<char>, format: Seq<char>) -> Option<(int, int, int)>;

/// Relies on `chrono::NaiveDate::parse_from_str`: the date that `s` writes in `format`, if it
/// writes one; the result depends on the two texts alone.
#[verifier::external_body]
fn parse_date(s: &str, format: &str) -> (r: Option<Date>)
    ensures
        match r {
            Some(d) => date_of_text(s@, format@) == Some((d.year as int, d.month as int, d.day as int)),
            None => date_of_text(s@, format@) is None,
        },
{
    match chrono::NaiveDate::parse_from_str(s, format) {
        Ok(d) => Some(Date { year: d.year(), month: d.month(), day: d.day() }),
        Err(_) => None,
    }
}

/// The format of birthdays in registrant rows: `day/month/year`.
pub open spec fn birthday_format() -> Seq<char> {
    seq!['%', 'd', '/', '%', 'm', '/', '%', 'Y']
}

impl Date {
    /// The date that a `day/month/year` text writes, such as `24/12/1990`.
    pub fn from_day_month_year(text: &str) -> (r: Option<Date>)
        ensures
            match r {
                Some(d) => date_of_text(text@, birthday_format()) == Some(
                    (d.year as int, d.month as int, d.day as int),
                ),
                None => date_of_text(text@, birthday_format()) is None,
            },
    {
        proof {
            reveal_strlit("%d/%m/%Y");
            assert("%d/%m/%Y"@ =~= birthday_format());
        }
        parse_date(text, "%d/%m/%Y")
    }
}

/// What a registrant row holds, as values.
pub ghost struct RegistrantRecord {
    pub id: nat,
    pub first_name: Seq<char>,
    pub last_name: Seq<char>,
    pub country: Seq<char>,
    pub birthday: Date,
}

/// One sign-up of a person for one convention.
#[derive(Debug, Clone)]
pub struct Registrant {
    id: u16,
    first_name: String,
    last_name: String,
    country: String,
    birthday: Date,
}

impl View for Registrant {
    type V = RegistrantRecord;

    closed spec fn view(&self) -> RegistrantRecord {
        RegistrantRecord {
            id: self.id as nat,
            first_name: self.first_name@,
            last_name: self.last_name@,
            country: self.country@,
            birthday: self.birthday,
        }
    }
}

impl Registrant {
    pub fn new(id: u16, first_name: String, last_name: String, country: String, birthday: Date) -> (r:
        Registrant)
        ensures
            r@ == (RegistrantRecord {
                id: id as nat,
                first_name: first_name@,
                last_name: last_name@,
                country: country@,
                birthday,
            }),
    {
        Registrant { id, first_name, last_name, country, birthday }
    }

    pub fn id(&self) -> (r: u16)
        ensures
            r == self@.id,
    {
        self.id
    }

    pub fn first_name(&self) -> (r: &String)
        ensures
            r@ == self@.first_name,
    {
        &self.first_name
    }

    pub fn last_name(&self) -> (r: &String)
        ensures
            r@ == self@.last_name,
    {
        &self.last_name
    }

    pub fn country(&self) -> (r: &String)
        ensures
            r@ == self@.country,
    {
        &self.country
    }

    pub fn birthday(&self) -> (r: Date)
        ensures
            r == self@.birthday,
    {
        self.birthday
    }
}

/// The text of the name that a registrant's first and last names make.
pub open spec fn registrant_display(r: RegistrantRecord) -> Seq<char> {
    trimmed(r.first_name) + seq![' '] + trimmed(r.last_name)
}

/// What tells two people apart: the normalized words of the name, whatever their order, and
/// the birthday.
pub ghost struct IdentityKey {
    pub tokens: Multiset<Seq<char>>,
    pub birthday: Date,
}

pub open spec fn key_of(display: Seq<char>, birthday: Date) -> IdentityKey {
    IdentityKey { tokens: name_tokens(display).to_multiset(), birthday }
}

/// The identity of a person: a name and a birthday.
#[derive(Debug, Clone)]
pub struct Identity {
    person_name: PersonName,
    birthday: Date,
}

impl Identity {
    pub closed spec fn person_name_spec(&self) -> PersonName {
        self.person_name
    }

    pub closed spec fn birthday_spec(&self) -> Date {
        self.birthday
    }

    pub open spec fn wf(&self) -> bool {
        self.person_name_spec().wf()
    }

    pub open spec fn key(&self) -> IdentityKey {
        key_of(self.person_name_spec().display(), self.birthday_spec())
    }

    /// Two identities are the same when their names are and their birthdays are equal.
    pub open spec fn same_identity(&self, other: &Identity) -> bool {
        self.person_name_spec().same_name(&other.person_name_spec()) && self.birthday_spec()
            == other.birthday_spec()
    }

    pub fn new(person_name: PersonName, birthday: Date) -> (r: Identity)
        ensures
            r.person_name_spec() == person_name,
            r.birthday_spec() == birthday,
    {
        Identity { person_name, birthday }
    }

    pub fn person_name(&self) -> (r: &PersonName)
        ensures
            *r == self.person_name_spec(),
    {
        &self.person_name
    }

    pub fn birthday(&self) -> (r: Date)
        ensures
            r == self.birthday_spec(),
    {
        self.birthday
    }

    /// A copy of this identity.
    pub fn duplicate(&self) -> (r: Identity)
        ensures
            r.person_name_spec().display() == self.person_name_spec().display(),
            r.person_name_spec().parts() == self.person_name_spec().parts(),
            r.birthday_spec() == self.birthday_spec(),
            r.key() == self.key(),
            self.wf() ==> r.wf(),
    {
        Identity { person_name: self.person_name.duplicate(), birthday: self.birthday }
    }
}

impl PartialEq for Identity {
    fn eq(&self, other: &Identity) -> (r: bool) {
        self.person_name == other.person_name && self.birthday == other.birthday
    }
}

impl vstd::std_specs::cmp::PartialEqSpecImpl for Identity {
    open spec fn obeys_eq_spec() -> bool {
        true
    }

    open spec fn eq_spec(&self, other: &Identity) -> bool {
        self.same_identity(other)
    }
}

/// For well-formed identities, being the same identity is having the same key.
pub proof fn lemma_same_identity_iff_same_key(a: Identity, b: Identity)
    requires
        a.wf(),
        b.wf(),
    ensures
        a.same_identity(&b) <==> a.key() == b.key(),
{
    lemma_same_name_iff_same_tokens(a.person_name_spec(), b.person_name_spec());
}

/// One registrant of one convention: the convention, the identity key, and the id.
pub ghost struct Enrolment {
    pub convention: (Seq<char>, Seq<char>),
    pub key: IdentityKey,
    pub id: nat,
}

pub open spec fn enrolment_of(c: Convention, r: Registrant) -> Enrolment {
    Enrolment { convention: c@, key: key_of(registrant_display(r@), r@.birthday), id: r@.id }
}

/// The registrants of every convention, convention after convention.
pub open spec fn enrolments(registrants: Seq<(Convention, Vec<Registrant>)>) -> Seq<Enrolment>
    decreases registrants.len(),
{
    if registrants.len() == 0 {
        Seq::empty()
    } else {
        let last = registrants.last();
        enrolments(registrants.drop_last()) + last.1@.map_values(
            |r: Registrant| enrolment_of(last.0, r),
        )
    }
}

pub open spec fn flat_enrolment(e: (Convention, Identity, u16)) -> Enrolment {
    Enrolment { convention: e.0@, key: e.1.key(), id: e.2 as nat }
}

/// Lists every registrant with its convention and identity.
fn flatten_registrants(registrants: &Vec<(Convention, Vec<Registrant>)>) -> (r: Vec<
    (Convention, Identity, u16),
>)
    ensures
        r@.map_values(|e: (Convention, Identity, u16)| flat_enrolment(e)) == enrolments(
            registrants@,
        ),
        forall|j: int| 0 <= j < r.len() ==> (#[trigger] r@[j]).1.wf(),
{
    let mut flat: Vec<(Convention, Identity, u16)> = Vec::new();
    let mut c: usize = 0;
    assert(registrants@.take(0) =~= Seq::<(Convention, Vec<Registrant>)>::empty());
    assert(flat@.map_values(|e: (Convention, Identity, u16)| flat_enrolment(e)) =~= Seq::<
        Enrolment,
    >::empty());
    while c < registrants.len()
        invariant
            c <= registrants.len(),
            flat@.map_values(|e: (Convention, Identity, u16)| flat_enrolment(e)) == enrolments(
                registrants@.take(c as int),
            ),
            forall|j: int| 0 <= j < flat.len() ==> (#[trigger] flat@[j]).1.wf(),
        decreases registrants.len() - c,
    {
        let ghost before = flat@.map_values(|e: (Convention, Identity, u16)| flat_enrolment(e));
        let convention = &registrants[c].0;
        let list = &registrants[c].1;
        let mut i: usize = 0;
        while i < list.len()
            invariant
                i <= list.len(),
                c < registrants.len(),
                *convention == registrants@[c as int].0,
                *list == registrants@[c as int].1,
                flat@.map_values(|e: (Convention, Identity, u16)| flat_enrolment(e)) == before
                    + list@.map_values(|r: Registrant| enrolment_of(*convention, r)).take(i as int),
                forall|j: int| 0 <= j < flat.len() ==> (#[trigger] flat@[j]).1.wf(),
            decreases list.len() - i,
        {
            let registrant = &list[i];
            let name = PersonName::from_names(&[registrant.first_name(), registrant.last_name()]);
            let identity = Identity::new(name, registrant.birthday());
            let ghost prev = flat@;
            let entry = (convention.duplicate(), identity, registrant.id());
            flat.push(entry);
            proof {
                let m = list@.map_values(|r: Registrant| enrolment_of(*convention, r));
                assert(flat_enrolment(entry) == m[i as int]);
                assert(m.take(i + 1) =~= m.take(i as int).push(m[i as int]));
                assert(flat@ == prev.push(entry));
                assert(flat@.map_values(|e: (Convention, Identity, u16)| flat_enrolment(e))
                    =~= prev.map_values(|e: (Convention, Identity, u16)| flat_enrolment(e)).push(
                    flat_enrolment(entry),
                ));
            }
            i = i + 1;
        }
        proof {
            let m = list@.map_values(|r: Registrant| enrolment_of(*convention, r));
            assert(m.take(list.len() as int) =~= m);
            assert(registrants@.take(c + 1).drop_last() =~= registrants@.take(c as int));
            assert(registrants@.take(c + 1).last() == registrants@[c as int]);
        }
        c = c + 1;
    }
    assert(registrants@.take(registrants.len() as int) =~= registrants@);
    flat
}


/// The identity keys of `e`, each once, in the order they first appear.
pub open spec fn keys_in_order(e: Seq<Enrolment>) -> Seq<IdentityKey>
    decreases e.len(),
{
    if e.len() == 0 {
        Seq::empty()
    } else {
        let d = keys_in_order(e.drop_last());
        if d.contains(e.last().key) {
            d
        } else {
            d.push(e.last().key)
        }
    }
}

/// The conventions where the identity `key` registered among `e`, each once, in the order
/// they first appear.
pub open spec fn conventions_of(e: Seq<Enrolment>, key: IdentityKey) -> Seq<(Seq<char>, Seq<char>)>
    decreases e.len(),
{
    if e.len() == 0 {
        Seq::empty()
    } else {
        let d = conventions_of(e.drop_last(), key);
        if e.last().key != key || d.contains(e.last().convention) {
            d
        } else {
            d.push(e.last().convention)
        }
    }
}

/// The ids of the identity `key` in `convention` among `e`, in their order, repeats kept.
pub open spec fn ids_of(e: Seq<Enrolment>, key: IdentityKey, convention: (Seq<char>, Seq<char>)) -> Seq<nat>
    decreases e.len(),
{
    if e.len() == 0 {
        Seq::empty()
    } else {
        let p = ids_of(e.drop_last(), key, convention);
        if e.last().key == key && e.last().convention == convention {
            p.push(e.last().id)
        } else {
            p
        }
    }
}

/// The ids of the identity `key` per convention among `e`.
pub open spec fn person_ids(e: Seq<Enrolment>, key: IdentityKey) -> Seq<((Seq<char>, Seq<char>), Seq<nat>)> {
    conventions_of(e, key).map_values(|c: (Seq<char>, Seq<char>)| (c, ids_of(e, key, c)))
}

pub open spec fn grouped_ids(e: Seq<Enrolment>) -> Seq<(IdentityKey, Seq<((Seq<char>, Seq<char>), Seq<nat>)>)> {
    keys_in_order(e).map_values(|k: IdentityKey| (k, person_ids(e, k)))
}

pub open spec fn id_lists(v: Seq<(Convention, Vec<u16>)>) -> Seq<((Seq<char>, Seq<char>), Seq<nat>)> {
    v.map_values(|x: (Convention, Vec<u16>)| (x.0@, x.1@.map_values(|i: u16| i as nat)))
}

pub open spec fn identity_groups(v: Seq<(Identity, Vec<(Convention, Vec<u16>)>)>) -> Seq<(IdentityKey, Seq<((Seq<char>, Seq<char>), Seq<nat>)>)> {
    v.map_values(|x: (Identity, Vec<(Convention, Vec<u16>)>)| (x.0.key(), id_lists(x.1@)))
}

/// Appends `id` to the list of `convention`, starting that list if it is the first id there.
fn add_id(list: &mut Vec<(Convention, Vec<u16>)>, convention: &Convention, id: u16)
    ensures
        ({
            let groups = id_lists(old(list)@);
            let c = convention@;
            if exists|q: int| 0 <= q < groups.len() && groups[q].0 == c {
                exists|q: int|
                    0 <= q < groups.len() && groups[q].0 == c && (forall|j: int|
                        0 <= j < q ==> groups[j].0 != c) && id_lists(final(list)@)
                        == groups.update(q, (c, groups[q].1.push(id as nat)))
            } else {
                id_lists(final(list)@) == groups.push((c, seq![id as nat]))
            }
        }),
{
    let ghost groups = id_lists(list@);
    let ghost c = convention@;
    let mut q: usize = 0;
    while q < list.len() && list[q].0 != *convention
        invariant
            q <= list.len(),
            groups == id_lists(list@),
            c == convention@,
            forall|j: int| 0 <= j < q ==> groups[j].0 != c,
        decreases list.len() - q,
    {
        q = q + 1;
    }
    if q == list.len() {
        let mut ids: Vec<u16> = Vec::new();
        ids.push(id);
        list.push((convention.duplicate(), ids));
        proof {
            assert(ids@.map_values(|i: u16| i as nat) =~= seq![id as nat]);
            assert(id_lists(list@) =~= groups.push((c, seq![id as nat])));
            assert(!exists|q: int| 0 <= q < groups.len() && groups[q].0 == c);
        }
    } else {
        let ghost before = list@;
        let (conv, mut ids) = list.remove(q);
        let ghost old_ids = ids@;
        ids.push(id);
        list.insert(q, (conv, ids));
        proof {
            assert(list@ =~= before.update(q as int, (conv, ids)));
            assert(ids@.map_values(|i: u16| i as nat) =~= old_ids.map_values(|i: u16| i as nat).push(
                id as nat,
            ));
            assert(id_lists(list@) =~= groups.update(q as int, (c, groups[q as int].1.push(id as nat))));
        }
    }
}

proof fn lemma_enrolment_push(e: Seq<Enrolment>, r: Enrolment)
    ensures
        forall|key: IdentityKey, c: (Seq<char>, Seq<char>)| #[trigger]
            ids_of(e.push(r), key, c) == if r.key == key && r.convention == c {
                ids_of(e, key, c).push(r.id)
            } else {
                ids_of(e, key, c)
            },
        forall|key: IdentityKey| #[trigger]
            conventions_of(e.push(r), key) == if r.key != key || conventions_of(e, key).contains(
                r.convention,
            ) {
                conventions_of(e, key)
            } else {
                conventions_of(e, key).push(r.convention)
            },
        keys_in_order(e.push(r)) == if keys_in_order(e).contains(r.key) {
            keys_in_order(e)
        } else {
            keys_in_order(e).push(r.key)
        },
{
    assert(e.push(r).drop_last() =~= e);
}

proof fn lemma_keys_distinct(e: Seq<Enrolment>)
    ensures
        keys_in_order(e).no_duplicates(),
    decreases e.len(),
{
    if e.len() > 0 {
        lemma_keys_distinct(e.drop_last());
    }
}

proof fn lemma_conventions_distinct(e: Seq<Enrolment>, key: IdentityKey)
    ensures
        conventions_of(e, key).no_duplicates(),
    decreases e.len(),
{
    if e.len() > 0 {
        lemma_conventions_distinct(e.drop_last(), key);
    }
}

proof fn lemma_absent_key(e: Seq<Enrolment>, key: IdentityKey, c: (Seq<char>, Seq<char>))
    requires
        !keys_in_order(e).contains(key),
    ensures
        conventions_of(e, key) == Seq::<(Seq<char>, Seq<char>)>::empty(),
        ids_of(e, key, c) == Seq::<nat>::empty(),
    decreases e.len(),
{
    if e.len() > 0 {
        let d = keys_in_order(e.drop_last());
        assert(!d.contains(key)) by {
            if d.contains(key) {
                let i = choose|i: int| 0 <= i < d.len() && d[i] == key;
                assert(keys_in_order(e)[i] == key);
            }
        }
        if e.last().key == key {
            assert(keys_in_order(e).contains(key)) by {
                if !d.contains(key) {
                    assert(keys_in_order(e).last() == key);
                }
            }
        }
        lemma_absent_key(e.drop_last(), key, c);
    }
}

proof fn lemma_absent_convention(e: Seq<Enrolment>, key: IdentityKey, c: (Seq<char>, Seq<char>))
    requires
        !conventions_of(e, key).contains(c),
    ensures
        ids_of(e, key, c) == Seq::<nat>::empty(),
    decreases e.len(),
{
    if e.len() > 0 {
        let d = conventions_of(e.drop_last(), key);
        assert(!d.contains(c)) by {
            if d.contains(c) {
                let i = choose|i: int| 0 <= i < d.len() && d[i] == c;
                assert(conventions_of(e, key)[i] == c);
            }
        }
        if e.last().key == key && e.last().convention == c {
            assert(conventions_of(e, key).contains(c)) by {
                if !d.contains(c) {
                    assert(conventions_of(e, key).last() == c);
                }
            }
        }
        lemma_absent_convention(e.drop_last(), key, c);
    }
}

proof fn lemma_group_at(v: Seq<(Identity, Vec<(Convention, Vec<u16>)>)>, e: Seq<Enrolment>)
    requires
        identity_groups(v) == grouped_ids(e),
    ensures
        v.len() == keys_in_order(e).len(),
        forall|p: int|
            0 <= p < v.len() ==> (#[trigger] v[p]).0.key() == keys_in_order(e)[p] && id_lists(
                v[p].1@,
            ) == person_ids(e, keys_in_order(e)[p]),
{
    let g = identity_groups(v);
    assert(g.len() == v.len());
    assert(grouped_ids(e).len() == keys_in_order(e).len());
    assert forall|p: int| 0 <= p < v.len() implies (#[trigger] v[p]).0.key() == keys_in_order(e)[p]
        && id_lists(v[p].1@) == person_ids(e, keys_in_order(e)[p]) by {
        assert(g[p] == (v[p].0.key(), id_lists(v[p].1@)));
        assert(grouped_ids(e)[p] == (keys_in_order(e)[p], person_ids(e, keys_in_order(e)[p])));
    }
}

/// Groups the registrants by identity, keeping each identity's ids per convention.
fn group_by_identity(flat: &Vec<(Convention, Identity, u16)>) -> (r: Vec<
    (Identity, Vec<(Convention, Vec<u16>)>),
>)
    requires
        forall|j: int| 0 <= j < flat.len() ==> (#[trigger] flat@[j]).1.wf(),
    ensures
        identity_groups(r@) == grouped_ids(
            flat@.map_values(|e: (Convention, Identity, u16)| flat_enrolment(e)),
        ),
        forall|j: int| 0 <= j < r.len() ==> (#[trigger] r@[j]).0.wf(),
{
    let ghost all = flat@.map_values(|e: (Convention, Identity, u16)| flat_enrolment(e));
    let mut people: Vec<(Identity, Vec<(Convention, Vec<u16>)>)> = Vec::new();
    let mut k: usize = 0;
    assert(all.take(0) =~= Seq::<Enrolment>::empty());
    assert(identity_groups(people@) =~= grouped_ids(all.take(0)));
    while k < flat.len()
        invariant
            k <= flat.len(),
            all == flat@.map_values(|e: (Convention, Identity, u16)| flat_enrolment(e)),
            forall|j: int| 0 <= j < flat.len() ==> (#[trigger] flat@[j]).1.wf(),
            identity_groups(people@) == grouped_ids(all.take(k as int)),
            forall|j: int| 0 <= j < people.len() ==> (#[trigger] people@[j]).0.wf(),
        decreases flat.len() - k,
    {
        let ghost s = all.take(k as int);
        let ghost rec = flat_enrolment(flat@[k as int]);
        let ghost keys = keys_in_order(s);
        proof {
            assert(all.take(k + 1) =~= s.push(rec));
            lemma_enrolment_push(s, rec);
            lemma_keys_distinct(s);
            lemma_group_at(people@, s);
        }
        let identity = &flat[k].1;
        let convention = &flat[k].0;
        let id = flat[k].2;
        let mut p: usize = 0;
        while p < people.len() && people[p].0 != *identity
            invariant
                p <= people.len(),
                identity_groups(people@) == grouped_ids(s),
                keys == keys_in_order(s),
                people.len() == keys.len(),
                identity.wf(),
                identity.key() == rec.key,
                forall|j: int| 0 <= j < people.len() ==> (#[trigger] people@[j]).0.wf(),
                forall|j: int| 0 <= j < people.len() ==> (#[trigger] people@[j]).0.key() == keys[j],
                forall|j: int| 0 <= j < p ==> keys[j] != rec.key,
            decreases people.len() - p,
        {
            proof {
                lemma_same_identity_iff_same_key(people@[p as int].0, *identity);
            }
            p = p + 1;
        }
        proof {
            if p < people.len() {
                lemma_same_identity_iff_same_key(people@[p as int].0, *identity);
            }
        }
        if p == people.len() {
            proof {
                assert(!keys.contains(rec.key)) by {
                    if keys.contains(rec.key) {
                        let i = choose|i: int| 0 <= i < keys.len() && keys[i] == rec.key;
                    }
                }
                lemma_absent_key(s, rec.key, rec.convention);
            }
            let mut ids: Vec<(Convention, Vec<u16>)> = Vec::new();
            assert(id_lists(ids@) =~= Seq::<((Seq<char>, Seq<char>), Seq<nat>)>::empty());
            add_id(&mut ids, convention, id);
            people.push((identity.duplicate(), ids));
            proof {
                let s2 = s.push(rec);
                assert(conventions_of(s2, rec.key) =~= seq![rec.convention]);
                assert(ids_of(s2, rec.key, rec.convention) =~= seq![rec.id]);
                assert(person_ids(s2, rec.key) =~= id_lists(ids@));
                assert forall|j: int| 0 <= j < keys.len() implies person_ids(s2, #[trigger] keys[j])
                    == person_ids(s, keys[j]) by {
                    assert(keys[j] != rec.key);
                    assert(person_ids(s2, keys[j]) =~= person_ids(s, keys[j]));
                }
                assert(identity_groups(people@) =~= grouped_ids(s2));
            }
        } else {
            let ghost before = people@;
            let (owner, mut ids) = people.remove(p);
            let ghost old_ids = id_lists(ids@);
            add_id(&mut ids, convention, id);
            people.insert(p, (owner, ids));
            proof {
                let s2 = s.push(rec);
                let convs = conventions_of(s, rec.key);
                lemma_conventions_distinct(s, rec.key);
                assert(keys[p as int] == rec.key);
                assert(old_ids == person_ids(s, rec.key));
                if exists|q: int| 0 <= q < old_ids.len() && old_ids[q].0 == rec.convention {
                    let q = choose|q: int|
                        0 <= q < old_ids.len() && old_ids[q].0 == rec.convention && (forall|j: int|
                            0 <= j < q ==> old_ids[j].0 != rec.convention) && id_lists(ids@)
                            == old_ids.update(q, (rec.convention, old_ids[q].1.push(rec.id)));
                    assert(convs[q] == rec.convention);
                    assert(convs.contains(rec.convention));
                    assert(person_ids(s2, rec.key) =~= id_lists(ids@)) by {
                        assert forall|j: int| 0 <= j < convs.len() && j != q implies convs[j]
                            != rec.convention by {
                            assert(convs.no_duplicates());
                        }
                    }
                } else {
                    assert(!convs.contains(rec.convention)) by {
                        if convs.contains(rec.convention) {
                            let j = choose|j: int| 0 <= j < convs.len() && convs[j] == rec.convention;
                            assert(old_ids[j].0 == rec.convention);
                        }
                    }
                    lemma_absent_convention(s, rec.key, rec.convention);
                    assert(person_ids(s2, rec.key) =~= id_lists(ids@));
                }
                assert(keys_in_order(s2) == keys);
                assert forall|j: int| 0 <= j < keys.len() && j != p implies person_ids(
                    s2,
                    #[trigger] keys[j],
                ) == person_ids(s, keys[j]) by {
                    assert(keys.no_duplicates());
                    assert(keys[j] != rec.key);
                    assert(person_ids(s2, keys[j]) =~= person_ids(s, keys[j]));
                }
                assert(people@ =~= before.update(p as int, (owner, ids)));
                assert(identity_groups(people@) =~= grouped_ids(s2));
            }
        }
        k = k + 1;
    }
    assert(all.take(flat.len() as int) =~= all);
    people
}


pub open spec fn result_table(v: Seq<(Convention, Vec<CompetitionResult>)>) -> Seq<
    ((Seq<char>, Seq<char>), Seq<ResultRecord>),
> {
    v.map_values(|x: (Convention, Vec<CompetitionResult>)| (x.0@, records(x.1@)))
}

/// The results that `table` holds for `convention`: those of its first entry for it.
pub open spec fn results_of_convention(
    table: Seq<((Seq<char>, Seq<char>), Seq<ResultRecord>)>,
    convention: (Seq<char>, Seq<char>),
) -> Option<Seq<ResultRecord>>
    decreases table.len(),
{
    if table.len() == 0 {
        None
    } else if table[0].0 == convention {
        Some(table[0].1)
    } else {
        results_of_convention(table.drop_first(), convention)
    }
}

/// The results among `rs` whose competitor id is one of `ids`, in their order.
pub open spec fn with_ids(rs: Seq<ResultRecord>, ids: Seq<nat>) -> Seq<ResultRecord>
    decreases rs.len(),
{
    if rs.len() == 0 {
        Seq::empty()
    } else if ids.contains(rs.last().id) {
        with_ids(rs.drop_last(), ids).push(rs.last())
    } else {
        with_ids(rs.drop_last(), ids)
    }
}

/// The results of a person per convention, for the conventions that `table` has results of.
pub open spec fn person_results(
    ids: Seq<((Seq<char>, Seq<char>), Seq<nat>)>,
    table: Seq<((Seq<char>, Seq<char>), Seq<ResultRecord>)>,
) -> Seq<((Seq<char>, Seq<char>), Seq<ResultRecord>)>
    decreases ids.len(),
{
    if ids.len() == 0 {
        Seq::empty()
    } else {
        let prev = person_results(ids.drop_last(), table);
        let c = ids.last().0;
        match results_of_convention(table, c) {
            Some(rs) => prev.push((c, with_ids(rs, ids.last().1))),
            None => prev,
        }
    }
}

/// What a person holds, as values.
pub ghost struct PersonRecord {
    pub key: IdentityKey,
    pub registrations_id: Seq<((Seq<char>, Seq<char>), Seq<nat>)>,
    pub results: Seq<((Seq<char>, Seq<char>), Seq<ResultRecord>)>,
}

/// One person, across every convention: an identity, the ids it registered with per
/// convention, and its results per convention.
#[derive(Debug, Clone)]
pub struct Person {
    identity: Identity,
    registrations_id: Vec<(Convention, Vec<u16>)>,
    results: Vec<(Convention, Vec<CompetitionResult>)>,
}

impl View for Person {
    type V = PersonRecord;

    closed spec fn view(&self) -> PersonRecord {
        PersonRecord {
            key: self.identity.key(),
            registrations_id: id_lists(self.registrations_id@),
            results: result_table(self.results@),
        }
    }
}

impl Person {
    pub closed spec fn identity_spec(&self) -> Identity {
        self.identity
    }

    pub fn new(
        identity: Identity,
        registrations_id: Vec<(Convention, Vec<u16>)>,
        results: Vec<(Convention, Vec<CompetitionResult>)>,
    ) -> (r: Person)
        ensures
            r.identity_spec() == identity,
            r@ == (PersonRecord {
                key: identity.key(),
                registrations_id: id_lists(registrations_id@),
                results: result_table(results@),
            }),
    {
        Person { identity, registrations_id, results }
    }

    pub fn identity(&self) -> (r: &Identity)
        ensures
            *r == self.identity_spec(),
    {
        &self.identity
    }

    pub fn registrations_id(&self) -> (r: &Vec<(Convention, Vec<u16>)>)
        ensures
            id_lists(r@) == self@.registrations_id,
    {
        &self.registrations_id
    }

    pub fn results(&self) -> (r: &Vec<(Convention, Vec<CompetitionResult>)>)
        ensures
            result_table(r@) == self@.results,
    {
        &self.results
    }
}

impl PartialEq for Person {
    fn eq(&self, other: &Person) -> (r: bool) {
        self.identity == other.identity
    }
}

impl vstd::std_specs::cmp::PartialEqSpecImpl for Person {
    open spec fn obeys_eq_spec() -> bool {
        true
    }

    open spec fn eq_spec(&self, other: &Person) -> bool {
        self.identity_spec().same_identity(&other.identity_spec())
    }
}

fn find_convention(table: &Vec<(Convention, Vec<CompetitionResult>)>, c: &Convention) -> (r:
    Option<usize>)
    ensures
        match r {
            Some(i) => i < table.len() && results_of_convention(result_table(table@), c@) == Some(
                records(table@[i as int].1@),
            ),
            None => results_of_convention(result_table(table@), c@) is None,
        },
{
    let ghost t = result_table(table@);
    let mut i: usize = 0;
    assert(t.skip(0) =~= t);
    while i < table.len()
        invariant
            i <= table.len(),
            t == result_table(table@),
            results_of_convention(t, c@) == results_of_convention(t.skip(i as int), c@),
        decreases table.len() - i,
    {
        assert(t.skip(i as int)[0] == t[i as int]);
        if table[i].0 == *c {
            return Some(i);
        }
        assert(t.skip(i as int).drop_first() =~= t.skip(i + 1));
        i = i + 1;
    }
    None
}

fn contains_id(ids: &Vec<u16>, id: u16) -> (r: bool)
    ensures
        r == ids@.map_values(|i: u16| i as nat).contains(id as nat),
{
    let ghost v = ids@.map_values(|i: u16| i as nat);
    let mut i: usize = 0;
    while i < ids.len()
        invariant
            i <= ids.len(),
            v == ids@.map_values(|i: u16| i as nat),
            forall|j: int| 0 <= j < i ==> v[j] != id as nat,
        decreases ids.len() - i,
    {
        if ids[i] == id {
            assert(v[i as int] == id as nat);
            return true;
        }
        i = i + 1;
    }
    false
}

/// The results among `rs` whose competitor id is one of `ids`, in their order.
fn results_with_ids(rs: &Vec<CompetitionResult>, ids: &Vec<u16>) -> (r: Vec<CompetitionResult>)
    ensures
        records(r@) == with_ids(records(rs@), ids@.map_values(|i: u16| i as nat)),
{
    let ghost all = records(rs@);
    let ghost idv = ids@.map_values(|i: u16| i as nat);
    let mut out: Vec<CompetitionResult> = Vec::new();
    let mut k: usize = 0;
    assert(all.take(0) =~= Seq::<ResultRecord>::empty());
    assert(records(out@) =~= Seq::<ResultRecord>::empty());
    while k < rs.len()
        invariant
            k <= rs.len(),
            all == records(rs@),
            idv == ids@.map_values(|i: u16| i as nat),
            records(out@) == with_ids(all.take(k as int), idv),
        decreases rs.len() - k,
    {
        assert(all.take(k + 1).drop_last() =~= all.take(k as int));
        assert(all.take(k + 1).last() == rs@[k as int]@);
        if contains_id(ids, rs[k].id()) {
            let ghost prev = out@;
            let d = rs[k].duplicate();
            out.push(d);
            assert(records(out@) =~= records(prev).push(d@));
        }
        k = k + 1;
    }
    assert(all.take(rs.len() as int) =~= all);
    out
}

/// The results of a person per convention, from the ids it registered with per convention.
fn collect_results(
    ids: &Vec<(Convention, Vec<u16>)>,
    table: &Vec<(Convention, Vec<CompetitionResult>)>,
) -> (r: Vec<(Convention, Vec<CompetitionResult>)>)
    ensures
        result_table(r@) == person_results(id_lists(ids@), result_table(table@)),
{
    let ghost all = id_lists(ids@);
    let mut out: Vec<(Convention, Vec<CompetitionResult>)> = Vec::new();
    let mut k: usize = 0;
    assert(all.take(0) =~= Seq::<((Seq<char>, Seq<char>), Seq<nat>)>::empty());
    assert(result_table(out@) =~= Seq::<((Seq<char>, Seq<char>), Seq<ResultRecord>)>::empty());
    while k < ids.len()
        invariant
            k <= ids.len(),
            all == id_lists(ids@),
            result_table(out@) == person_results(all.take(k as int), result_table(table@)),
        decreases ids.len() - k,
    {
        assert(all.take(k + 1).drop_last() =~= all.take(k as int));
        assert(all.take(k + 1).last() == all[k as int]);
        assert(all[k as int] == (ids@[k as int].0@, ids@[k as int].1@.map_values(|i: u16| i as nat)));
        let convention = &ids[k].0;
        match find_convention(table, convention) {
            Some(i) => {
                let selected = results_with_ids(&table[i].1, &ids[k].1);
                let ghost prev = out@;
                let entry = (convention.duplicate(), selected);
                out.push(entry);
                assert(result_table(out@) =~= result_table(prev).push(
                    (convention@, records(selected@)),
                ));
            },
            None => {},
        }
        k = k + 1;
    }
    assert(all.take(ids.len() as int) =~= all);
    out
}

fn copy_id_lists(v: &Vec<(Convention, Vec<u16>)>) -> (r: Vec<(Convention, Vec<u16>)>)
    ensures
        id_lists(r@) == id_lists(v@),
{
    let mut out: Vec<(Convention, Vec<u16>)> = Vec::new();
    let mut k: usize = 0;
    while k < v.len()
        invariant
            k <= v.len(),
            id_lists(out@) == id_lists(v@).take(k as int),
        decreases v.len() - k,
    {
        let ghost prev = out@;
        let entry = (v[k].0.duplicate(), v[k].1.clone());
        out.push(entry);
        assert(entry.1@ == v@[k as int].1@);
        assert(id_lists(out@) =~= id_lists(prev).push(id_lists(v@)[k as int]));
        assert(id_lists(v@).take(k + 1) =~= id_lists(v@).take(k as int).push(id_lists(v@)[k as int]));
        k = k + 1;
    }
    assert(id_lists(v@).take(v.len() as int) =~= id_lists(v@));
    out
}

/// The people that the registrants of every convention make.
pub open spec fn people_records(
    registrants: Seq<(Convention, Vec<Registrant>)>,
    results: Seq<(Convention, Vec<CompetitionResult>)>,
) -> Seq<PersonRecord> {
    grouped_ids(enrolments(registrants)).map_values(
        |g: (IdentityKey, Seq<((Seq<char>, Seq<char>), Seq<nat>)>)|
            PersonRecord {
                key: g.0,
                registrations_id: g.1,
                results: person_results(g.1, result_table(results)),
            },
    )
}

proof fn lemma_keys_cover(e: Seq<Enrolment>, i: int)
    requires
        0 <= i < e.len(),
    ensures
        keys_in_order(e).contains(e[i].key),
    decreases e.len(),
{
    let d = keys_in_order(e.drop_last());
    if i < e.len() - 1 {
        lemma_keys_cover(e.drop_last(), i);
        let j = choose|j: int| 0 <= j < d.len() && d[j] == e[i].key;
        if !d.contains(e.last().key) {
            assert(keys_in_order(e)[j] == e[i].key);
        }
    } else if !d.contains(e.last().key) {
        assert(keys_in_order(e).last() == e.last().key);
    }
}

/// There is one person per distinct identity: no two people share an identity, and the
/// identity of every registrant is that of one of the people.
pub proof fn one_person_per_identity(
    registrants: Seq<(Convention, Vec<Registrant>)>,
    results: Seq<(Convention, Vec<CompetitionResult>)>,
)
    ensures
        forall|i: int, j: int|
            0 <= i < j < people_records(registrants, results).len() ==> people_records(
                registrants,
                results,
            )[i].key != people_records(registrants, results)[j].key,
        forall|k: int|
            0 <= k < enrolments(registrants).len() ==> exists|i: int|
                0 <= i < people_records(registrants, results).len() && people_records(
                    registrants,
                    results,
                )[i].key == (#[trigger] enrolments(registrants)[k]).key,
{
    let e = enrolments(registrants);
    let people = people_records(registrants, results);
    let keys = keys_in_order(e);
    lemma_keys_distinct(e);
    assert(people.len() == keys.len());
    assert forall|i: int| 0 <= i < people.len() implies #[trigger] people[i].key == keys[i] by {
        assert(grouped_ids(e)[i] == (keys[i], person_ids(e, keys[i])));
    }
    assert forall|k: int| 0 <= k < e.len() implies exists|i: int|
        0 <= i < people.len() && people[i].key == (#[trigger] e[k]).key by {
        lemma_keys_cover(e, k);
        let i = choose|i: int| 0 <= i < keys.len() && keys[i] == e[k].key;
        assert(people[i].key == keys[i]);
    }
}

/// Merges the registrants of every convention into one person per identity (the name of the
/// first and last names, whatever the order, spacing, case or accents of its words, and the
/// birthday). Each person keeps every id it registered with per convention, and the results of
/// those ids per convention, for the conventions that have results.
/// Where a convention is listed more than once in `conventions_results`, its first entry
/// counts.
pub fn create_people(
    registrants: &Vec<(Convention, Vec<Registrant>)>,
    conventions_results: &Vec<(Convention, Vec<CompetitionResult>)>,
) -> (r: Vec<Person>)
    ensures
        r@.map_values(|p: Person| p@) == people_records(registrants@, conventions_results@),
        forall|j: int| 0 <= j < r.len() ==> (#[trigger] r@[j]).identity_spec().wf(),
{
    let flat = flatten_registrants(registrants);
    let groups = group_by_identity(&flat);
    let ghost target = people_records(registrants@, conventions_results@);
    let ghost g = identity_groups(groups@);
    let mut people: Vec<Person> = Vec::new();
    let mut k: usize = 0;
    while k < groups.len()
        invariant
            k <= groups.len(),
            g == identity_groups(groups@),
            g == grouped_ids(enrolments(registrants@)),
            target == people_records(registrants@, conventions_results@),
            forall|j: int| 0 <= j < groups.len() ==> (#[trigger] groups@[j]).0.wf(),
            people.len() == k,
            forall|j: int| 0 <= j < k ==> (#[trigger] people@[j])@ == target[j],
            forall|j: int| 0 <= j < k ==> (#[trigger] people@[j]).identity_spec().wf(),
        decreases groups.len() - k,
    {
        assert(g[k as int] == (groups@[k as int].0.key(), id_lists(groups@[k as int].1@)));
        let results = collect_results(&groups[k].1, conventions_results);
        let person = Person::new(groups[k].0.duplicate(), copy_id_lists(&groups[k].1), results);
        assert(target[k as int] == (PersonRecord {
            key: g[k as int].0,
            registrations_id: g[k as int].1,
            results: person_results(g[k as int].1, result_table(conventions_results@)),
        }));
        people.push(person);
        k = k + 1;
    }
    assert(people@.map_values(|p: Person| p@) =~= target);
    people
}

} // verus!
