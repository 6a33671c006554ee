//! Choosing the best result of each competition, where a policy table says whether higher
//! or lower values are better.

use std::cmp::Ordering;

use vstd::prelude::*;

use crate::competition::{Competition, CompetitionResult, ResultRecord};
use crate::registration::records;
use crate::result_value::{compare_measures, ComparisonError, Measure, ResultValue};

verus! {

/// The policy of `table` for the competition named `c`: its first entry for `c`, if any.
pub open spec fn policy_of(table: Seq<(Seq<char>, bool)>, c: Seq<char>) -> Option<bool>
    decreases table.len(),
{
    if table.len() == 0 {
        None
    } else if table[0].0 == c {
        Some(table[0].1)
    } else {
        policy_of(table.drop_first(), c)
    }
}

/// The index of the entry of `best` for the competition named `c`, or its length.
pub open spec fn index_of_competition(best: Seq<(Seq<char>, ResultRecord)>, c: Seq<char>) -> int
    decreases best.len(),
{
    if best.len() == 0 || best[0].0 == c {
        0
    } else {
        1 + index_of_competition(best.drop_first(), c)
    }
}

/// Whether a result holds a value that can take part in the selection.
pub open spec fn has_value(r: ResultRecord) -> bool {
    r.result is Some && r.result->0 != Measure::Empty
}

/// Whether a candidate of ordering `o` against the best so far replaces it.
pub open spec fn replaces(higher_is_better: bool, o: Ordering) -> bool {
    if higher_is_better {
        o == Ordering::Greater
    } else {
        o == Ordering::Less
    }
}

/// What went wrong with one candidate.
pub ghost enum SelectionFault {
    /// The competition has no policy.
    Lookup(Seq<char>),
    /// The candidate's value (first) could not be compared with the best so far (second).
    Comparison(Measure, Measure),
}

/// One step of the selection: the best results after considering `r`, and what went wrong.
pub open spec fn select_step(
    best: Seq<(Seq<char>, ResultRecord)>,
    table: Seq<(Seq<char>, bool)>,
    r: ResultRecord,
) -> (Seq<(Seq<char>, ResultRecord)>, Option<SelectionFault>) {
    let c = r.competition;
    if !has_value(r) {
        (best, None)
    } else if policy_of(table, c) is None {
        (best, Some(SelectionFault::Lookup(c)))
    } else {
        let q = index_of_competition(best, c);
        if q == best.len() {
            (best.push((c, r)), None)
        } else {
            let incumbent = best[q].1;
            match compare_measures(r.result->0, incumbent.result->0) {
                None => (best, Some(SelectionFault::Comparison(r.result->0, incumbent.result->0))),
                Some(o) => if replaces(policy_of(table, c)->0, o) {
                    (best.update(q, (c, r)), None)
                } else {
                    (best, None)
                },
            }
        }
    }
}

/// The best result of each competition after considering `results` in order, one entry per
/// competition in the order they first get one.
pub open spec fn best_after(results: Seq<ResultRecord>, table: Seq<(Seq<char>, bool)>) -> Seq<
    (Seq<char>, ResultRecord),
>
    decreases results.len(),
{
    if results.len() == 0 {
        Seq::empty()
    } else {
        select_step(best_after(results.drop_last(), table), table, results.last()).0
    }
}

/// What went wrong while considering `results` in order.
pub open spec fn faults_after(results: Seq<ResultRecord>, table: Seq<(Seq<char>, bool)>) -> Seq<
    SelectionFault,
>
    decreases results.len(),
{
    if results.len() == 0 {
        Seq::empty()
    } else {
        let prev = faults_after(results.drop_last(), table);
        match select_step(best_after(results.drop_last(), table), table, results.last()).1 {
            Some(f) => prev.push(f),
            None => prev,
        }
    }
}

/// A candidate that was skipped.
#[derive(Debug, Clone, PartialEq)]
pub enum SelectionError {
    /// The competition has no entry in the policy table.
    Lookup(Competition),
    Comparison(ComparisonError),
}

impl View for SelectionError {
    type V = SelectionFault;

    open spec fn view(&self) -> SelectionFault {
        match self {
            SelectionError::Lookup(c) => SelectionFault::Lookup(c@),
            SelectionError::Comparison(e) => SelectionFault::Comparison(e.left@, e.right@),
        }
    }
}

/// The best result of each competition, and the candidates that were skipped with why.
pub struct BestResults {
    pub best: Vec<(Competition, CompetitionResult)>,
    pub errors: Vec<SelectionError>,
}

pub open spec fn best_records(v: Seq<(Competition, CompetitionResult)>) -> Seq<
    (Seq<char>, ResultRecord),
> {
    v.map_values(|e: (Competition, CompetitionResult)| (e.0@, e.1@))
}

pub open spec fn policy_records(v: Seq<(Competition, bool)>) -> Seq<(Seq<char>, bool)> {
    v.map_values(|e: (Competition, bool)| (e.0@, e.1))
}

fn find_policy(table: &Vec<(Competition, bool)>, c: &Competition) -> (r: Option<bool>)
    ensures
        r == policy_of(policy_records(table@), c@),
{
    let ghost t = policy_records(table@);
    let mut i: usize = 0;
    assert(t.skip(0) =~= t);
    while i < table.len()
        invariant
            i <= table.len(),
            t == policy_records(table@),
            policy_of(t, c@) == policy_of(t.skip(i as int), c@),
        decreases table.len() - i,
    {
        assert(t.skip(i as int)[0] == t[i as int]);
        if table[i].0 == *c {
            return Some(table[i].1);
        }
        assert(t.skip(i as int).drop_first() =~= t.skip(i + 1));
        i = i + 1;
    }
    None
}

proof fn lemma_index_of_competition(best: Seq<(Seq<char>, ResultRecord)>, c: Seq<char>, q: int)
    requires
        0 <= q <= best.len(),
        forall|j: int| 0 <= j < q ==> (#[trigger] best[j]).0 != c,
        q < best.len() ==> best[q].0 == c,
    ensures
        index_of_competition(best, c) == q,
    decreases best.len(),
{
    if best.len() > 0 && q > 0 {
        assert(best[0].0 != c);
        lemma_index_of_competition(best.drop_first(), c, q - 1);
    }
}

/// Picks the best result of each competition: the first result with a value seeds it; a later
/// one replaces it when strictly better under the competition's policy (ties keep the first).
/// A candidate whose competition has no policy, or whose value cannot be compared with the
/// best so far, is skipped and reported.
/// The policy table lists competitions with their direction; where a competition is listed
/// more than once, its first entry counts.
pub fn get_best_results(
    results: &Vec<CompetitionResult>,
    higher_is_better_for_competition: &Vec<(Competition, bool)>,
) -> (r: BestResults)
    ensures
        best_records(r.best@) == best_after(
            records(results@),
            policy_records(higher_is_better_for_competition@),
        ),
        r.errors@.map_values(|e: SelectionError| e@) == faults_after(
            records(results@),
            policy_records(higher_is_better_for_competition@),
        ),
{
    let ghost all = records(results@);
    let ghost table = policy_records(higher_is_better_for_competition@);
    let mut best: Vec<(Competition, CompetitionResult)> = Vec::new();
    let mut errors: Vec<SelectionError> = Vec::new();
    let mut k: usize = 0;
    assert(all.take(0) =~= Seq::<ResultRecord>::empty());
    assert(best_records(best@) =~= Seq::<(Seq<char>, ResultRecord)>::empty());
    assert(errors@.map_values(|e: SelectionError| e@) =~= Seq::<SelectionFault>::empty());
    while k < results.len()
        invariant
            k <= results.len(),
            all == records(results@),
            table == policy_records(higher_is_better_for_competition@),
            best_records(best@) == best_after(all.take(k as int), table),
            errors@.map_values(|e: SelectionError| e@) == faults_after(all.take(k as int), table),
            forall|j: int| 0 <= j < best.len() ==> has_value(#[trigger] best@[j].1@),
        decreases results.len() - k,
    {
        let ghost s = all.take(k as int);
        let ghost state = best_records(best@);
        let ghost faults = errors@.map_values(|e: SelectionError| e@);
        let ghost rec = results@[k as int]@;
        proof {
            assert(all.take(k + 1).drop_last() =~= s);
            assert(all.take(k + 1).last() == rec);
        }
        let candidate = &results[k];
        let value = match candidate.result() {
            Some(v) => {
                if let ResultValue::Empty = v {
                    None
                } else {
                    Some(v)
                }
            },
            None => None,
        };
        if let Some(v) = value {
            let c = candidate.competition();
            match find_policy(higher_is_better_for_competition, c) {
                None => {
                    errors.push(SelectionError::Lookup(c.duplicate()));
                    assert(errors@.map_values(|e: SelectionError| e@) =~= faults.push(
                        SelectionFault::Lookup(rec.competition),
                    ));
                },
                Some(higher_is_better) => {
                    let mut q: usize = 0;
                    while q < best.len() && best[q].0 != *c
                        invariant
                            q <= best.len(),
                            state == best_records(best@),
                            c@ == rec.competition,
                            forall|j: int| 0 <= j < q ==> (#[trigger] state[j]).0 != c@,
                        decreases best.len() - q,
                    {
                        assert(state[q as int] == (best@[q as int].0@, best@[q as int].1@));
                        q = q + 1;
                    }
                    proof {
                        if q < best.len() {
                            assert(state[q as int] == (best@[q as int].0@, best@[q as int].1@));
                        }
                        lemma_index_of_competition(state, c@, q as int);
                    }
                    if q == best.len() {
                        best.push((c.duplicate(), candidate.duplicate()));
                        assert(best_records(best@) =~= state.push((rec.competition, rec)));
                    } else {
                        let incumbent = &best[q].1;
                        assert(state[q as int] == (best@[q as int].0@, best@[q as int].1@));
                        match incumbent.result() {
                            Some(w) => {
                                match v.compare(w) {
                                    Err(e) => {
                                        errors.push(SelectionError::Comparison(e));
                                        assert(errors@.map_values(|e: SelectionError| e@)
                                            =~= faults.push(
                                            SelectionFault::Comparison(
                                                rec.result->0,
                                                state[q as int].1.result->0,
                                            ),
                                        ));
                                    },
                                    Ok(o) => {
                                        let better = if higher_is_better {
                                            matches!(o, Ordering::Greater)
                                        } else {
                                            matches!(o, Ordering::Less)
                                        };
                                        if better {
                                            let entry = (c.duplicate(), candidate.duplicate());
                                            best.set(q, entry);
                                            assert(best_records(best@) =~= state.update(
                                                q as int,
                                                (rec.competition, rec),
                                            ));
                                        }
                                    },
                                }
                            },
                            None => {
                                assert(false);
                            },
                        }
                    }
                },
            }
        }
        k = k + 1;
    }
    assert(all.take(results.len() as int) =~= all);
    BestResults { best, errors }
}

} // verus!
