//! Grouping the results of one convention by competitor, then by competition.

use vstd::prelude::*;

use crate::competition::{Competition, CompetitionResult, Convention, ResultRecord};

verus! {

/// The results among `s` of the competitor `id` in the competition named `competition`, in
/// their order.
pub open spec fn select(s: Seq<ResultRecord>, id: nat, competition: Seq<char>) -> Seq<
    ResultRecord,
>
    decreases s.len(),
{
    if s.len() == 0 {
        Seq::empty()
    } else {
        let p = select(s.drop_last(), id, competition);
        if s.last().id == id && s.last().competition == competition {
            p.push(s.last())
        } else {
            p
        }
    }
}

/// The competitor ids of `s`, each once, in the order they first appear.
pub open spec fn ids_in_order(s: Seq<ResultRecord>) -> Seq<nat>
    decreases s.len(),
{
    if s.len() == 0 {
        Seq::empty()
    } else {
        let d = ids_in_order(s.drop_last());
        if d.contains(s.last().id) {
            d
        } else {
            d.push(s.last().id)
        }
    }
}

/// The competitions that the competitor `id` has results in among `s`, each once, in the
/// order they first appear.
pub open spec fn competitions_in_order(s: Seq<ResultRecord>, id: nat) -> Seq<Seq<char>>
    decreases s.len(),
{
    if s.len() == 0 {
        Seq::empty()
    } else {
        let d = competitions_in_order(s.drop_last(), id);
        if s.last().id != id || d.contains(s.last().competition) {
            d
        } else {
            d.push(s.last().competition)
        }
    }
}

/// What a registration holds, as values.
pub ghost struct RegistrationRecord {
    pub convention: (Seq<char>, Seq<char>),
    pub id: nat,
    pub results: Seq<(Seq<char>, Seq<ResultRecord>)>,
}

/// The results of the competitor `id` among `s`, grouped by competition.
pub open spec fn grouped_results(s: Seq<ResultRecord>, id: nat) -> Seq<
    (Seq<char>, Seq<ResultRecord>),
> {
    competitions_in_order(s, id).map_values(|c: Seq<char>| (c, select(s, id, c)))
}

/// One registration per competitor id of `s`, in the order the ids first appear.
pub open spec fn registration_records(
    convention: (Seq<char>, Seq<char>),
    s: Seq<ResultRecord>,
) -> Seq<RegistrationRecord> {
    ids_in_order(s).map_values(
        |id: nat| RegistrationRecord { convention, id, results: grouped_results(s, id) },
    )
}

pub proof fn lemma_ids_in_order_distinct(s: Seq<ResultRecord>)
    ensures
        ids_in_order(s).no_duplicates(),
    decreases s.len(),
{
    if s.len() > 0 {
        lemma_ids_in_order_distinct(s.drop_last());
    }
}

pub proof fn lemma_competitions_in_order_distinct(s: Seq<ResultRecord>, id: nat)
    ensures
        competitions_in_order(s, id).no_duplicates(),
    decreases s.len(),
{
    if s.len() > 0 {
        lemma_competitions_in_order_distinct(s.drop_last(), id);
    }
}

/// The results of one competitor in one convention, grouped by competition.
#[derive(Debug, Clone)]
pub struct Registration {
    convention: Convention,
    id: u16,
    results: Vec<(Competition, Vec<CompetitionResult>)>,
}

pub open spec fn records(v: Seq<CompetitionResult>) -> Seq<ResultRecord> {
    v.map_values(|c: CompetitionResult| c@)
}

pub open spec fn group_records(v: Seq<(Competition, Vec<CompetitionResult>)>) -> Seq<
    (Seq<char>, Seq<ResultRecord>),
> {
    v.map_values(|g: (Competition, Vec<CompetitionResult>)| (g.0@, records(g.1@)))
}

impl View for Registration {
    type V = RegistrationRecord;

    closed spec fn view(&self) -> RegistrationRecord {
        RegistrationRecord {
            convention: self.convention@,
            id: self.id as nat,
            results: group_records(self.results@),
        }
    }
}

impl Registration {
    /// The registration of the competitor `id` in `convention`, with no result yet.
    pub fn new(convention: Convention, id: u16) -> (r: Registration)
        ensures
            r@ == (RegistrationRecord { convention: convention@, id: id as nat, results: seq![] }),
    {
        let r = Registration { convention, id, results: Vec::new() };
        assert(group_records(r.results@) =~= seq![]);
        r
    }

    pub fn convention(&self) -> (r: &Convention)
        ensures
            r@ == self@.convention,
    {
        &self.convention
    }

    pub fn id(&self) -> (r: u16)
        ensures
            r == self@.id,
    {
        self.id
    }

    pub fn results(&self) -> (r: &Vec<(Competition, Vec<CompetitionResult>)>)
        ensures
            group_records(r@) == self@.results,
    {
        &self.results
    }

    /// Appends `result` to the list of its competition, starting that list if it is the first
    /// result in that competition.
    pub fn add_result(&mut self, result: CompetitionResult)
        ensures
            final(self)@.convention == old(self)@.convention,
            final(self)@.id == old(self)@.id,
            ({
                let groups = old(self)@.results;
                let c = result@.competition;
                if exists|q: int| 0 <= q < groups.len() && groups[q].0 == c {
                    exists|q: int|
                        0 <= q < groups.len() && groups[q].0 == c && (forall|j: int|
                            0 <= j < q ==> groups[j].0 != c) && final(self)@.results
                            == groups.update(q, (c, groups[q].1.push(result@)))
                } else {
                    final(self)@.results == groups.push((c, seq![result@]))
                }
            }),
    {
        let ghost groups = self@.results;
        let ghost c = result@.competition;
        let mut q: usize = 0;
        while q < self.results.len() && self.results[q].0 != *result.competition()
            invariant
                q <= self.results.len(),
                groups == group_records(self.results@),
                c == result@.competition,
                forall|j: int| 0 <= j < q ==> groups[j].0 != c,
            decreases self.results.len() - q,
        {
            q = q + 1;
        }
        if q == self.results.len() {
            let competition = result.competition().duplicate();
            let mut list: Vec<CompetitionResult> = Vec::new();
            list.push(result);
            self.results.push((competition, list));
            proof {
                assert(records(list@) =~= seq![result@]);
                assert(group_records(self.results@) =~= groups.push((c, seq![result@])));
                assert(!exists|q: int| 0 <= q < groups.len() && groups[q].0 == c);
            }
        } else {
            let ghost before = self.results@;
            let (competition, mut list) = self.results.remove(q);
            let ghost old_list = list@;
            list.push(result);
            self.results.insert(q, (competition, list));
            proof {
                assert(self.results@ =~= before.update(q as int, (competition, list)));
                assert(records(list@) =~= records(old_list).push(result@));
                assert(group_records(self.results@) =~= groups.update(
                    q as int,
                    (c, groups[q as int].1.push(result@)),
                ));
            }
        }
    }
}


proof fn lemma_unfold_push(s: Seq<ResultRecord>, r: ResultRecord)
    ensures
        forall|id: nat, c: Seq<char>| #[trigger]
            select(s.push(r), id, c) == if r.id == id && r.competition == c {
                select(s, id, c).push(r)
            } else {
                select(s, id, c)
            },
        forall|id: nat| #[trigger]
            competitions_in_order(s.push(r), id) == if r.id != id || competitions_in_order(
                s,
                id,
            ).contains(r.competition) {
                competitions_in_order(s, id)
            } else {
                competitions_in_order(s, id).push(r.competition)
            },
        ids_in_order(s.push(r)) == if ids_in_order(s).contains(r.id) {
            ids_in_order(s)
        } else {
            ids_in_order(s).push(r.id)
        },
{
    assert(s.push(r).drop_last() =~= s);
}

proof fn lemma_absent_id(s: Seq<ResultRecord>, id: nat)
    requires
        !ids_in_order(s).contains(id),
    ensures
        competitions_in_order(s, id) == Seq::<Seq<char>>::empty(),
    decreases s.len(),
{
    if s.len() > 0 {
        let d = ids_in_order(s.drop_last());
        if !d.contains(s.last().id) {
            assert(ids_in_order(s).last() == s.last().id);
        }
        assert(!d.contains(id)) by {
            if d.contains(id) {
                let i = choose|i: int| 0 <= i < d.len() && d[i] == id;
                assert(ids_in_order(s)[i] == id);
            }
        }
        lemma_absent_id(s.drop_last(), id);
    }
}

/// Groups the results of one convention into one registration per competitor id, each with
/// the competitor's results per competition, in the order of the results.
pub fn compute_registrations(convention: &Convention, results: &Vec<CompetitionResult>) -> (r: Vec<
    Registration,
>)
    ensures
        r@.map_values(|g: Registration| g@) == registration_records(
            convention@,
            records(results@),
        ),
{
    let ghost all = records(results@);
    let mut regs: Vec<Registration> = Vec::new();
    let mut k: usize = 0;
    assert(all.take(0) =~= Seq::<ResultRecord>::empty());
    assert(regs@.map_values(|g: Registration| g@) =~= registration_records(convention@, all.take(0)));
    while k < results.len()
        invariant
            k <= results.len(),
            all == records(results@),
            regs@.map_values(|g: Registration| g@) == registration_records(
                convention@,
                all.take(k as int),
            ),
        decreases results.len() - k,
    {
        let ghost s = all.take(k as int);
        let ghost rec = results@[k as int]@;
        let ghost ids = ids_in_order(s);
        proof {
            assert(all.take(k + 1) =~= s.push(rec));
            lemma_unfold_push(s, rec);
            lemma_ids_in_order_distinct(s);
        }
        let result = results[k].duplicate();
        let id = result.id();
        proof {
            lemma_registration_at(regs@, convention@, s);
        }
        let mut p: usize = 0;
        while p < regs.len() && regs[p].id() != id
            invariant
                p <= regs.len(),
                regs@.map_values(|g: Registration| g@) == registration_records(convention@, s),
                ids == ids_in_order(s),
                id == rec.id,
                regs.len() == ids.len(),
                forall|j: int| 0 <= j < regs.len() ==> (#[trigger] regs@[j])@.id == ids[j],
                forall|j: int| 0 <= j < p ==> ids[j] != id,
            decreases regs.len() - p,
        {
            p = p + 1;
        }
        if p == regs.len() {
            proof {
                assert(!ids.contains(id as nat)) by {
                    if ids.contains(id as nat) {
                        let i = choose|i: int| 0 <= i < ids.len() && ids[i] == id;
                        assert(ids.len() == regs.len());
                    }
                }
                lemma_absent_id(s, id as nat);
            }
            let mut reg = Registration::new(convention.duplicate(), id);
            reg.add_result(result);
            regs.push(reg);
            proof {
                let s2 = s.push(rec);
                assert(competitions_in_order(s2, rec.id) =~= seq![rec.competition]);
                assert(select(s2, rec.id, rec.competition) =~= seq![rec]) by {
                    assert(select(s, rec.id, rec.competition) =~= Seq::<ResultRecord>::empty()) by {
                        lemma_select_absent(s, rec.id, rec.competition);
                    }
                }
                assert(grouped_results(s2, rec.id) =~= seq![(rec.competition, seq![rec])]);
                assert forall|j: int| 0 <= j < ids.len() implies grouped_results(s2, #[trigger] ids[j])
                    == grouped_results(s, ids[j]) by {
                    assert(ids[j] != rec.id);
                    assert(grouped_results(s2, ids[j]) =~= grouped_results(s, ids[j]));
                }
                assert(regs@.map_values(|g: Registration| g@) =~= registration_records(
                    convention@,
                    s2,
                ));
            }
        } else {
            let ghost before = regs@;
            let mut reg = regs.remove(p);
            let ghost old_reg = reg@;
            reg.add_result(result);
            regs.insert(p, reg);
            proof {
                let s2 = s.push(rec);
                let comps = competitions_in_order(s, rec.id);
                lemma_competitions_in_order_distinct(s, rec.id);
                assert(ids[p as int] == rec.id);
                assert(old_reg == registration_records(convention@, s)[p as int]);
                assert(old_reg.results == grouped_results(s, rec.id));
                if exists|q: int| 0 <= q < old_reg.results.len() && old_reg.results[q].0 == rec.competition {
                    let q = choose|q: int|
                        0 <= q < old_reg.results.len() && old_reg.results[q].0 == rec.competition && (
                        forall|j: int| 0 <= j < q ==> old_reg.results[j].0 != rec.competition)
                        && reg@.results == old_reg.results.update(
                            q,
                            (rec.competition, old_reg.results[q].1.push(rec)),
                        );
                    assert(comps[q] == rec.competition);
                    assert(comps.contains(rec.competition));
                    assert(grouped_results(s2, rec.id) =~= reg@.results) by {
                        assert forall|j: int| 0 <= j < comps.len() && j != q implies comps[j]
                            != rec.competition by {
                            assert(comps.no_duplicates());
                        }
                    }
                } else {
                    assert(!comps.contains(rec.competition)) by {
                        if comps.contains(rec.competition) {
                            let j = choose|j: int| 0 <= j < comps.len() && comps[j] == rec.competition;
                            assert(old_reg.results[j].0 == rec.competition);
                        }
                    }
                    assert(select(s, rec.id, rec.competition) =~= Seq::<ResultRecord>::empty()) by {
                        lemma_select_absent_competition(s, rec.id, rec.competition);
                    }
                    assert(grouped_results(s2, rec.id) =~= reg@.results);
                }
                assert(ids_in_order(s2) == ids);
                assert forall|j: int| 0 <= j < ids.len() && j != p implies grouped_results(
                    s2,
                    #[trigger] ids[j],
                ) == grouped_results(s, ids[j]) by {
                    assert(ids.no_duplicates());
                    assert(ids[j] != rec.id);
                    assert(grouped_results(s2, ids[j]) =~= grouped_results(s, ids[j]));
                }
                assert(regs@ =~= before.update(p as int, reg));
                assert(regs@.map_values(|g: Registration| g@) =~= registration_records(
                    convention@,
                    s2,
                ));
            }
        }
        k = k + 1;
    }
    assert(all.take(results.len() as int) =~= all);
    regs
}

proof fn lemma_registration_at(
    regs: Seq<Registration>,
    convention: (Seq<char>, Seq<char>),
    s: Seq<ResultRecord>,
)
    requires
        regs.map_values(|g: Registration| g@) == registration_records(convention, s),
    ensures
        regs.len() == ids_in_order(s).len(),
        forall|p: int|
            0 <= p < regs.len() ==> (#[trigger] regs[p])@ == (RegistrationRecord {
                convention,
                id: ids_in_order(s)[p],
                results: grouped_results(s, ids_in_order(s)[p]),
            }),
{
    let views = regs.map_values(|g: Registration| g@);
    assert(views.len() == regs.len());
    assert(registration_records(convention, s).len() == ids_in_order(s).len());
    assert forall|p: int| 0 <= p < regs.len() implies (#[trigger] regs[p])@ == (RegistrationRecord {
        convention,
        id: ids_in_order(s)[p],
        results: grouped_results(s, ids_in_order(s)[p]),
    }) by {
        assert(views[p] == regs[p]@);
        assert(registration_records(convention, s)[p] == (RegistrationRecord {
            convention,
            id: ids_in_order(s)[p],
            results: grouped_results(s, ids_in_order(s)[p]),
        }));
    }
}

proof fn lemma_select_absent(s: Seq<ResultRecord>, id: nat, c: Seq<char>)
    requires
        !ids_in_order(s).contains(id),
    ensures
        select(s, id, c) == Seq::<ResultRecord>::empty(),
    decreases s.len(),
{
    if s.len() > 0 {
        let d = ids_in_order(s.drop_last());
        assert(!d.contains(id)) by {
            if d.contains(id) {
                let i = choose|i: int| 0 <= i < d.len() && d[i] == id;
                assert(ids_in_order(s)[i] == id);
            }
        }
        if s.last().id == id {
            assert(ids_in_order(s).contains(id)) by {
                if d.contains(id) {
                } else {
                    assert(ids_in_order(s).last() == id);
                }
            }
        }
        lemma_select_absent(s.drop_last(), id, c);
    }
}

proof fn lemma_select_absent_competition(s: Seq<ResultRecord>, id: nat, c: Seq<char>)
    requires
        !competitions_in_order(s, id).contains(c),
    ensures
        select(s, id, c) == Seq::<ResultRecord>::empty(),
    decreases s.len(),
{
    if s.len() > 0 {
        let d = competitions_in_order(s.drop_last(), id);
        assert(!d.contains(c)) by {
            if d.contains(c) {
                let i = choose|i: int| 0 <= i < d.len() && d[i] == c;
                assert(competitions_in_order(s, id)[i] == c);
            }
        }
        if s.last().id == id && s.last().competition == c {
            assert(competitions_in_order(s, id).contains(c)) by {
                if !d.contains(c) {
                    assert(competitions_in_order(s, id).last() == c);
                }
            }
        }
        lemma_select_absent_competition(s.drop_last(), id, c);
    }
}

} // verus!
