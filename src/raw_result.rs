//! Result rows as the result sheet gives them, and their expansion into one result per
//! competitor.

use vstd::prelude::*;

use crate::competition::{Competition, CompetitionResult, ResultRecord};
use crate::competitor::{
    Competitor, CompetitorRecord, IndividualCompetitor, UnknownIndividualCompetitor,
};
use crate::result_value::{parsed_measure, ResultValue};
use crate::text::{
    parse_u16, parsed_u16, remove_blanks, split_by, split_on, trim, trimmed, views,
    without_blanks,
};
use crate::vocabulary::{
    age_groups_of, dash_separator, parsed_gender, parsed_place, parsed_result_type, AgeGroup,
    Gender, Place, ResultType, ValidationError,
};

verus! {

/// The ten text fields of a result row (the age is a number).
pub ghost struct RawRow {
    pub ids: Seq<char>,
    pub name: Seq<char>,
    pub gender: Seq<char>,
    pub age: nat,
    pub competition: Seq<char>,
    pub place: Seq<char>,
    pub result_type: Seq<char>,
    pub result: Seq<char>,
    pub details: Seq<char>,
    pub age_group: Seq<char>,
}

/// One row of a result sheet. Its ids (comma-separated) and names (separated by ` - `) list
/// every competitor of one entry.
#[derive(Debug, Clone)]
pub struct RawResult {
    ids: String,
    name: String,
    gender: String,
    age: u8,
    competition: String,
    place: String,
    result_type: String,
    result: String,
    details: String,
    age_group: String,
}

impl View for RawResult {
    type V = RawRow;

    closed spec fn view(&self) -> RawRow {
        RawRow {
            ids: self.ids@,
            name: self.name@,
            gender: self.gender@,
            age: self.age as nat,
            competition: self.competition@,
            place: self.place@,
            result_type: self.result_type@,
            result: self.result@,
            details: self.details@,
            age_group: self.age_group@,
        }
    }
}

impl RawResult {
    pub fn new(
        ids: String,
        name: String,
        gender: String,
        age: u8,
        competition: String,
        place: String,
        result_type: String,
        result: String,
        details: String,
        age_group: String,
    ) -> (r: RawResult)
        ensures
            r@ == (RawRow {
                ids: ids@,
                name: name@,
                gender: gender@,
                age: age as nat,
                competition: competition@,
                place: place@,
                result_type: result_type@,
                result: result@,
                details: details@,
                age_group: age_group@,
            }),
    {
        RawResult {
            ids,
            name,
            gender,
            age,
            competition,
            place,
            result_type,
            result,
            details,
            age_group,
        }
    }

    pub fn ids(&self) -> (r: &String)
        ensures
            r@ == self@.ids,
    {
        &self.ids
    }

    pub fn name(&self) -> (r: &String)
        ensures
            r@ == self@.name,
    {
        &self.name
    }

    pub fn gender(&self) -> (r: &String)
        ensures
            r@ == self@.gender,
    {
        &self.gender
    }

    pub fn age(&self) -> (r: u8)
        ensures
            r == self@.age,
    {
        self.age
    }

    pub fn competition(&self) -> (r: &String)
        ensures
            r@ == self@.competition,
    {
        &self.competition
    }

    pub fn place(&self) -> (r: &String)
        ensures
            r@ == self@.place,
    {
        &self.place
    }

    pub fn result_type(&self) -> (r: &String)
        ensures
            r@ == self@.result_type,
    {
        &self.result_type
    }

    pub fn result(&self) -> (r: &String)
        ensures
            r@ == self@.result,
    {
        &self.result
    }

    pub fn details(&self) -> (r: &String)
        ensures
            r@ == self@.details,
    {
        &self.details
    }

    pub fn age_group(&self) -> (r: &String)
        ensures
            r@ == self@.age_group,
    {
        &self.age_group
    }
}

/// The ids that a row lists: its ids field without blanks, split at commas.
pub open spec fn row_ids(row: RawRow) -> Seq<Seq<char>> {
    split_on(without_blanks(row.ids), seq![','])
}

/// The names that a row lists: its names field split at ` - `.
pub open spec fn row_names(row: RawRow) -> Seq<Seq<char>> {
    split_on(row.name, dash_separator())
}

/// The index of the first id from `k` on that is not a `u16`, or the number of ids.
pub open spec fn first_bad_id_from(ids: Seq<Seq<char>>, k: int) -> int
    decreases ids.len() - k,
{
    if k < 0 || k >= ids.len() {
        ids.len() as int
    } else if parsed_u16(ids[k]) is None {
        k
    } else {
        first_bad_id_from(ids, k + 1)
    }
}

proof fn lemma_first_bad_id(ids: Seq<Seq<char>>, k: int, i: int)
    requires
        0 <= k <= i <= ids.len(),
        forall|j: int| k <= j < i ==> parsed_u16(#[trigger] ids[j]) is Some,
        i < ids.len() ==> parsed_u16(ids[i]) is None,
    ensures
        first_bad_id_from(ids, k) == i,
    decreases i - k,
{
    if k < i {
        lemma_first_bad_id(ids, k + 1, i);
    }
}

/// Parses each id; returns the index of the first one that is not a `u16` where there is one.
pub(crate) fn parse_ids(ids: &Vec<String>) -> (r: Result<Vec<u16>, usize>)
    ensures
        match r {
            Ok(p) => first_bad_id_from(views(ids@), 0) == ids.len() && p.len() == ids.len()
                && forall|j: int| 0 <= j < ids.len() ==> parsed_u16(#[trigger] views(ids@)[j]) == Some(p@[j]),
            Err(i) => first_bad_id_from(views(ids@), 0) == i && i < ids.len(),
        },
{
    let mut parsed: Vec<u16> = Vec::new();
    let mut i: usize = 0;
    while i < ids.len()
        invariant
            i <= ids.len(),
            parsed.len() == i,
            forall|j: int| 0 <= j < i ==> parsed_u16(#[trigger] views(ids@)[j]) == Some(parsed@[j]),
        decreases ids.len() - i,
    {
        assert(views(ids@)[i as int] == ids@[i as int]@);
        match parse_u16(ids[i].as_str()) {
            Some(id) => {
                parsed.push(id);
            },
            None => {
                proof {
                    lemma_first_bad_id(views(ids@), 0, i as int);
                }
                return Err(i);
            },
        }
        i = i + 1;
    }
    proof {
        lemma_first_bad_id(views(ids@), 0, ids.len() as int);
    }
    Ok(parsed)
}

/// Why a row cannot be expanded.
pub enum RowFault {
    Place,
    ResultType,
    CountMismatch,
    /// The id at this index is not an integer.
    Id(int),
    Gender,
}

/// The first fault of a row, checked in this order: place, result type, count of ids against
/// count of names, each id, and the gender of a single competitor.
pub open spec fn row_fault(row: RawRow) -> Option<RowFault> {
    let ids = row_ids(row);
    if parsed_place(row.place) is None {
        Some(RowFault::Place)
    } else if parsed_result_type(row.result_type) is None {
        Some(RowFault::ResultType)
    } else if ids.len() != row_names(row).len() {
        Some(RowFault::CountMismatch)
    } else if first_bad_id_from(ids, 0) < ids.len() {
        Some(RowFault::Id(first_bad_id_from(ids, 0)))
    } else if ids.len() == 1 && parsed_gender(row.gender) is None {
        Some(RowFault::Gender)
    } else {
        None
    }
}

/// The id of the `k`-th competitor of a row.
pub open spec fn row_id(row: RawRow, k: int) -> nat {
    parsed_u16(row_ids(row)[k])->0 as nat
}

/// The result that a row records for the competitor with id `id`.
pub open spec fn row_record(row: RawRow, id: nat) -> ResultRecord {
    ResultRecord {
        id,
        competition: row.competition,
        place: parsed_place(row.place)->0,
        result_type: parsed_result_type(row.result_type)->0,
        result: if row.result.len() == 0 {
            None
        } else {
            Some(parsed_measure(row.result))
        },
        details: if row.details.len() == 0 {
            None
        } else {
            Some(row.details)
        },
        age_group: if row.age_group.len() == 0 {
            None
        } else {
            Some(age_groups_of(row.age_group))
        },
    }
}

/// The `k`-th competitor of a row: with its name, gender and age where the row lists one
/// competitor, by id alone where it lists several.
pub open spec fn row_competitor(row: RawRow, k: int) -> CompetitorRecord {
    if row_ids(row).len() == 1 {
        CompetitorRecord::Individual {
            id: row_id(row, k),
            name: trimmed(row_names(row)[k]),
            gender: parsed_gender(row.gender)->0,
            age: row.age,
        }
    } else {
        CompetitorRecord::Unknown { id: row_id(row, k) }
    }
}

/// A row describes one outcome shared by every competitor it lists: the results it expands
/// into differ in the competitor id alone.
pub proof fn row_results_share_outcome(row: RawRow, j: int, k: int)
    ensures
        ({
            let a = row_record(row, row_id(row, j));
            let b = row_record(row, row_id(row, k));
            a.competition == b.competition && a.place == b.place && a.result_type == b.result_type
                && a.result == b.result && a.details == b.details && a.age_group == b.age_group
        }),
{
}

/// The ids and names of a row that do not match: different counts, or an id that is not an
/// integer.
#[derive(Debug, Clone, PartialEq, Eq)]
pub struct SchemaMismatchError {
    pub ids: Vec<String>,
    pub names: Vec<String>,
    pub wrong_id: Option<String>,
}

/// Why a result row was skipped.
#[derive(Debug, Clone, PartialEq, Eq)]
pub enum RowError {
    Validation(ValidationError),
    SchemaMismatch(SchemaMismatchError),
}

/// Whether `e` reports `fault` on `row`, with the row's values that show it.
pub open spec fn reports(e: RowError, row: RawRow, fault: RowFault) -> bool {
    match fault {
        RowFault::Place => e matches RowError::Validation(v) && v.field
            == crate::vocabulary::Field::Place && v.value@ == row.place,
        RowFault::ResultType => e matches RowError::Validation(v) && v.field
            == crate::vocabulary::Field::ResultType && v.value@ == row.result_type,
        RowFault::Gender => e matches RowError::Validation(v) && v.field
            == crate::vocabulary::Field::Gender && v.value@ == row.gender,
        RowFault::CountMismatch => e matches RowError::SchemaMismatch(m) && views(m.ids@)
            == row_ids(row) && views(m.names@) == row_names(row) && m.wrong_id is None,
        RowFault::Id(k) => e matches RowError::SchemaMismatch(m) && views(m.ids@) == row_ids(row)
            && views(m.names@) == row_names(row) && m.wrong_id is Some && m.wrong_id->0@
            == row_ids(row)[k],
    }
}

/// Expands one result row into one competitor and one result per id it lists; every result
/// shares the row's competition, place, result type, result, details and age group.
pub fn read_competition_result_from_raw_result(raw_result: &RawResult) -> (r: Result<
    Vec<(Competitor, CompetitionResult)>,
    RowError,
>)
    ensures
        match r {
            Ok(v) => row_fault(raw_result@) is None && v.len() == row_ids(raw_result@).len()
                && forall|k: int|
                0 <= k < v.len() ==> (#[trigger] v@[k]).0@ == row_competitor(raw_result@, k)
                    && v@[k].1@ == row_record(raw_result@, row_id(raw_result@, k)),
            Err(e) => row_fault(raw_result@) is Some && reports(
                e,
                raw_result@,
                row_fault(raw_result@)->0,
            ),
        },
{
    let ghost row = raw_result@;
    let place = match Place::from_string(raw_result.place.as_str()) {
        Ok(p) => p,
        Err(e) => {
            return Err(RowError::Validation(e));
        },
    };
    let result_type = match ResultType::from_string(raw_result.result_type.as_str()) {
        Ok(t) => t,
        Err(e) => {
            return Err(RowError::Validation(e));
        },
    };
    let ids_text = remove_blanks(raw_result.ids.as_str());
    proof {
        reveal_strlit(",");
        reveal_strlit(" - ");
        assert(","@ =~= seq![',']);
        assert(" - "@ =~= dash_separator());
    }
    let ids = split_by(ids_text.as_str(), ",");
    let names = split_by(raw_result.name.as_str(), " - ");
    if ids.len() != names.len() {
        return Err(RowError::SchemaMismatch(SchemaMismatchError { ids, names, wrong_id: None }));
    }
    let parsed = match parse_ids(&ids) {
        Ok(p) => p,
        Err(i) => {
            let wrong_id = Some(ids[i].clone());
            assert(views(ids@)[i as int] == ids@[i as int]@);
            assert(row_fault(row) == Some(RowFault::Id(i as int)));
            return Err(RowError::SchemaMismatch(SchemaMismatchError { ids, names, wrong_id }));
        },
    };
    let single = ids.len() == 1;
    let gender = if single {
        match Gender::from_string(raw_result.gender.as_str()) {
            Ok(g) => g,
            Err(e) => {
                return Err(RowError::Validation(e));
            },
        }
    } else {
        Gender::NotApplicable
    };
    let mut expanded: Vec<(Competitor, CompetitionResult)> = Vec::new();
    let mut k: usize = 0;
    while k < ids.len()
        invariant
            k <= ids.len(),
            ids.len() == names.len(),
            views(ids@) == row_ids(row),
            views(names@) == row_names(row),
            row == raw_result@,
            row_fault(row) is None,
            parsed.len() == ids.len(),
            single == (ids.len() == 1),
            single ==> parsed_gender(row.gender) == Some(gender),
            place == parsed_place(row.place)->0,
            result_type == parsed_result_type(row.result_type)->0,
            forall|j: int| 0 <= j < ids.len() ==> parsed_u16(#[trigger] row_ids(row)[j]) == Some(parsed@[j]),
            expanded.len() == k,
            forall|j: int|
                0 <= j < k ==> (#[trigger] expanded@[j]).0@ == row_competitor(row, j)
                    && expanded@[j].1@ == row_record(row, row_id(row, j)),
        decreases ids.len() - k,
    {
        let id = parsed[k];
        let competitor = if single {
            assert(views(names@)[k as int] == names@[k as int]@);
            Competitor::IndividualCompetitor(
                IndividualCompetitor::new(id, trim(names[k].as_str()), gender, raw_result.age),
            )
        } else {
            Competitor::UnknownIndividualCompetitor(UnknownIndividualCompetitor::new(id))
        };
        let result = if raw_result.result.unicode_len() == 0 {
            None
        } else {
            Some(ResultValue::from_string(raw_result.result.as_str()))
        };
        let details = if raw_result.details.unicode_len() == 0 {
            None
        } else {
            Some(raw_result.details.clone())
        };
        let age_group = if raw_result.age_group.unicode_len() == 0 {
            None
        } else {
            Some(AgeGroup::from_string(raw_result.age_group.as_str()))
        };
        let record = CompetitionResult::new(
            id,
            Competition::new(raw_result.competition.as_str()),
            place,
            result_type,
            result,
            details,
            age_group,
        );
        expanded.push((competitor, record));
        k = k + 1;
    }
    Ok(expanded)
}

/// The results that a row gives: one per id where it can be expanded, none where it cannot.
pub open spec fn row_records(row: RawRow) -> Seq<ResultRecord> {
    if row_fault(row) is None {
        Seq::new(row_ids(row).len(), |k: int| row_record(row, row_id(row, k)))
    } else {
        Seq::empty()
    }
}

/// The results of rows, row after row; a row that cannot be expanded is skipped.
pub open spec fn rows_records(rows: Seq<RawRow>) -> Seq<ResultRecord>
    decreases rows.len(),
{
    if rows.len() == 0 {
        Seq::empty()
    } else {
        rows_records(rows.drop_last()) + row_records(rows.last())
    }
}

/// Expands every row into its results, skipping the rows that cannot be expanded.
pub fn get_results_from_raw_results_lines(raw_results: &Vec<RawResult>) -> (r: Vec<
    CompetitionResult,
>)
    ensures
        r@.map_values(|c: CompetitionResult| c@) == rows_records(
            raw_results@.map_values(|row: RawResult| row@),
        ),
{
    let (results, _skipped) = read_raw_results_lines(raw_results);
    results
}

/// The indices of the rows that cannot be expanded, in order.
pub open spec fn faulty_rows(rows: Seq<RawRow>) -> Seq<int>
    decreases rows.len(),
{
    if rows.len() == 0 {
        Seq::empty()
    } else if row_fault(rows.last()) is Some {
        faulty_rows(rows.drop_last()).push(rows.len() - 1)
    } else {
        faulty_rows(rows.drop_last())
    }
}

/// Expands every row into its results; each row that cannot be expanded is skipped and
/// returned with its index and the error that says why.
pub fn read_raw_results_lines(raw_results: &Vec<RawResult>) -> (r: (
    Vec<CompetitionResult>,
    Vec<(usize, RowError)>,
))
    ensures
        r.0@.map_values(|c: CompetitionResult| c@) == rows_records(
            raw_results@.map_values(|row: RawResult| row@),
        ),
        r.1@.map_values(|e: (usize, RowError)| e.0 as int) == faulty_rows(
            raw_results@.map_values(|row: RawResult| row@),
        ),
        forall|k: int|
            0 <= k < r.1.len() ==> #[trigger] r.1@[k].0 < raw_results.len() && reports(
                r.1@[k].1,
                raw_results@[r.1@[k].0 as int]@,
                row_fault(raw_results@[r.1@[k].0 as int]@)->0,
            ),
{
    let ghost rows = raw_results@.map_values(|row: RawResult| row@);
    let mut results: Vec<CompetitionResult> = Vec::new();
    let mut skipped: Vec<(usize, RowError)> = Vec::new();
    let mut i: usize = 0;
    assert(rows.take(0) =~= Seq::<RawRow>::empty());
    assert(skipped@.map_values(|e: (usize, RowError)| e.0 as int) =~= Seq::<int>::empty());
    while i < raw_results.len()
        invariant
            i <= raw_results.len(),
            rows == raw_results@.map_values(|row: RawResult| row@),
            results@.map_values(|c: CompetitionResult| c@) == rows_records(rows.take(i as int)),
            skipped@.map_values(|e: (usize, RowError)| e.0 as int) == faulty_rows(
                rows.take(i as int),
            ),
            forall|k: int|
                0 <= k < skipped.len() ==> #[trigger] skipped@[k].0 < raw_results.len() && reports(
                    skipped@[k].1,
                    raw_results@[skipped@[k].0 as int]@,
                    row_fault(raw_results@[skipped@[k].0 as int]@)->0,
                ),
        decreases raw_results.len() - i,
    {
        let ghost skipped_before = skipped@.map_values(|e: (usize, RowError)| e.0 as int);
        let ghost before = results@.map_values(|c: CompetitionResult| c@);
        assert(rows.take(i + 1).drop_last() =~= rows.take(i as int));
        assert(rows.take(i + 1).last() == raw_results@[i as int]@);
        match read_competition_result_from_raw_result(&raw_results[i]) {
            Ok(expanded) => {
                let mut k: usize = 0;
                while k < expanded.len()
                    invariant
                        k <= expanded.len(),
                        expanded.len() == row_ids(raw_results@[i as int]@).len(),
                        row_fault(raw_results@[i as int]@) is None,
                        forall|j: int|
                            0 <= j < expanded.len() ==> (#[trigger] expanded@[j]).1@ == row_record(
                                raw_results@[i as int]@,
                                row_id(raw_results@[i as int]@, j),
                            ),
                        results@.map_values(|c: CompetitionResult| c@) == before + row_records(
                            raw_results@[i as int]@,
                        ).take(k as int),
                    decreases expanded.len() - k,
                {
                    let ghost prev = results@;
                    let d = expanded[k].1.duplicate();
                    results.push(d);
                    proof {
                        let row = raw_results@[i as int]@;
                        assert(results@ == prev.push(d));
                        assert(results@.map_values(|c: CompetitionResult| c@) =~= prev.map_values(
                            |c: CompetitionResult| c@,
                        ).push(d@));
                        assert(row_records(row)[k as int] == row_record(row, row_id(row, k as int)));
                        assert(row_records(row).take(k + 1) =~= row_records(row).take(k as int).push(
                            d@,
                        ));
                        assert(results@.map_values(|c: CompetitionResult| c@) =~= before
                            + row_records(row).take(k + 1));
                    }
                    k = k + 1;
                }
                assert(row_records(raw_results@[i as int]@).take(k as int) =~= row_records(
                    raw_results@[i as int]@,
                ));
            },
            Err(e) => {
                assert(row_records(raw_results@[i as int]@) =~= Seq::<ResultRecord>::empty());
                assert(before + Seq::<ResultRecord>::empty() =~= before);
                let ghost prev = skipped@;
                skipped.push((i, e));
                assert(skipped@.map_values(|e: (usize, RowError)| e.0 as int) =~= skipped_before.push(
                    i as int,
                ));
                assert(rows.take(i + 1).len() - 1 == i);
                assert(skipped@[skipped.len() - 1] == (i, e));
                assert(forall|k: int| 0 <= k < prev.len() ==> skipped@[k] == prev[k]);
            },
        }
        i = i + 1;
    }
    assert(rows.take(raw_results.len() as int) =~= rows);
    (results, skipped)
}

} // verus!
