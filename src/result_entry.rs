//! Result lines read as flat entries, one per competitor, and the competitors they name.

use vstd::prelude::*;

use crate::name::{distinct_names, keep_distinct, CompetitorName};
use crate::raw_result::{first_bad_id_from, parse_ids, row_ids, row_names, RawRow};
use crate::text::{parsed_u16, remove_blanks, split_by, trimmed, views};
use crate::vocabulary::{
    dash_separator, parsed_place, parsed_result_type, Place, ResultType, ValidationError,
};

verus! {

/// What a result entry holds, as values.
pub ghost struct EntryRecord {
    pub id: nat,
    pub name: Seq<char>,
    pub gender: Option<Seq<char>>,
    pub age: Option<nat>,
    pub competition: Seq<char>,
    pub place: Place,
    pub result_type: ResultType,
    pub result: Seq<char>,
    pub details: Seq<char>,
    pub age_group: Seq<char>,
}

/// The result of one competitor as one line of a result sheet gives it.
#[derive(Debug, Clone)]
pub struct ResultEntry {
    id: u16,
    name: CompetitorName,
    gender: Option<String>,
    age: Option<u8>,
    competition: String,
    place: Place,
    result_type: ResultType,
    result: String,
    details: String,
    age_group: String,
}

impl View for ResultEntry {
    type V = EntryRecord;

    closed spec fn view(&self) -> EntryRecord {
        EntryRecord {
            id: self.id as nat,
            name: self.name.person_name().display(),
            gender: match self.gender {
                Some(g) => Some(g@),
                None => None,
            },
            age: match self.age {
                Some(a) => Some(a as nat),
                None => None,
            },
            competition: self.competition@,
            place: self.place,
            result_type: self.result_type,
            result: self.result@,
            details: self.details@,
            age_group: self.age_group@,
        }
    }
}

/// Why a line cannot be read.
#[derive(Debug, Clone, PartialEq, Eq)]
pub enum LineError {
    Validation(ValidationError),
    /// The ids and names differ in number.
    CountMismatch { ids: Vec<String>, names: Vec<String> },
    /// An id that is not an integer.
    InvalidId { ids: Vec<String>, names: Vec<String>, wrong_id: String },
}

/// The row that a line's fields form.
pub open spec fn line_row(
    ids: Seq<char>,
    names: Seq<char>,
    gender: Seq<char>,
    age: nat,
    competition: Seq<char>,
    place: Seq<char>,
    result_type: Seq<char>,
    result: Seq<char>,
    details: Seq<char>,
    age_group: Seq<char>,
) -> RawRow {
    RawRow {
        ids,
        name: names,
        gender,
        age,
        competition,
        place,
        result_type,
        result,
        details,
        age_group,
    }
}

/// Whether `e` reports the first fault of `row`: an invalid place, an invalid result type,
/// ids and names that differ in number, or an id that is not an integer, in this order.
pub open spec fn line_error_of(row: RawRow, e: LineError) -> bool {
    let ids = row_ids(row);
    let names = row_names(row);
    if parsed_place(row.place) is None {
        e matches LineError::Validation(v) && v.field == crate::vocabulary::Field::Place
            && v.value@ == row.place
    } else if parsed_result_type(row.result_type) is None {
        e matches LineError::Validation(v) && v.field == crate::vocabulary::Field::ResultType
            && v.value@ == row.result_type
    } else if ids.len() != names.len() {
        e matches LineError::CountMismatch { ids: i, names: n } && views(i@) == ids && views(n@)
            == names
    } else if first_bad_id_from(ids, 0) < ids.len() {
        e matches LineError::InvalidId { ids: i, names: n, wrong_id: w } && views(i@) == ids
            && views(n@) == names && w@ == ids[first_bad_id_from(ids, 0)]
    } else {
        false
    }
}

/// The gender of the entries of a line: the line's gender where it lists one competitor;
/// none where it lists several, since gender is not shared among co-competitors.
pub open spec fn line_gender(row: RawRow) -> Option<Seq<char>> {
    if row_ids(row).len() == 1 {
        Some(row.gender)
    } else {
        None
    }
}

/// The age of the entries of a line: the line's age where it lists one competitor; none
/// where it lists several.
pub open spec fn line_age(row: RawRow) -> Option<nat> {
    if row_ids(row).len() == 1 {
        Some(row.age)
    } else {
        None
    }
}

/// Whether a line has a fault.
pub open spec fn line_has_fault(row: RawRow) -> bool {
    parsed_place(row.place) is None || parsed_result_type(row.result_type) is None
        || row_ids(row).len() != row_names(row).len() || first_bad_id_from(row_ids(row), 0)
        < row_ids(row).len()
}

impl ResultEntry {
    pub fn new(
        id: u16,
        name: CompetitorName,
        gender: Option<String>,
        age: Option<u8>,
        competition: String,
        place: Place,
        result_type: ResultType,
        result: String,
        details: String,
        age_group: String,
    ) -> (r: ResultEntry)
        ensures
            r@ == (EntryRecord {
                id: id as nat,
                name: name.person_name().display(),
                gender: match gender {
                    Some(g) => Some(g@),
                    None => None,
                },
                age: match age {
                    Some(a) => Some(a as nat),
                    None => None,
                },
                competition: competition@,
                place,
                result_type,
                result: result@,
                details: details@,
                age_group: age_group@,
            }),
            r.name_spec() == name,
    {
        ResultEntry {
            id,
            name,
            gender,
            age,
            competition,
            place,
            result_type,
            result,
            details,
            age_group,
        }
    }

    pub closed spec fn name_spec(&self) -> CompetitorName {
        self.name
    }

    /// Reads one line into one entry per competitor it lists (ids separated by commas, names
    /// by ` - `). Every entry shares the line's competition, place, result type, result,
    /// details and age group; gender and age go to the competitor of a one-competitor line
    /// only.
    pub fn from_result_line(
        ids: &str,
        names: &str,
        gender: &str,
        age: u8,
        competition: &str,
        place: &str,
        result_type: &str,
        result: &str,
        details: &str,
        age_group: &str,
    ) -> (r: Result<Vec<ResultEntry>, LineError>)
        ensures
            ({
                let row = line_row(
                    ids@,
                    names@,
                    gender@,
                    age as nat,
                    competition@,
                    place@,
                    result_type@,
                    result@,
                    details@,
                    age_group@,
                );
                match r {
                    Ok(v) => !line_has_fault(row) && v.len() == row_ids(row).len() && forall|k: int|
                        0 <= k < v.len() ==> (#[trigger] v@[k])@ == (EntryRecord {
                            id: parsed_u16(row_ids(row)[k])->0 as nat,
                            name: trimmed(row_names(row)[k]),
                            gender: line_gender(row),
                            age: line_age(row),
                            competition: competition@,
                            place: parsed_place(place@)->0,
                            result_type: parsed_result_type(result_type@)->0,
                            result: result@,
                            details: details@,
                            age_group: age_group@,
                        }) && v@[k].name_spec().wf(),
                    Err(e) => line_has_fault(row) && line_error_of(row, e),
                }
            }),
    {
        let ghost row = line_row(
            ids@,
            names@,
            gender@,
            age as nat,
            competition@,
            place@,
            result_type@,
            result@,
            details@,
            age_group@,
        );
        let place_value = match Place::from_string(place) {
            Ok(p) => p,
            Err(e) => {
                return Err(LineError::Validation(e));
            },
        };
        let kind = match ResultType::from_string(result_type) {
            Ok(t) => t,
            Err(e) => {
                return Err(LineError::Validation(e));
            },
        };
        proof {
            reveal_strlit(",");
            reveal_strlit(" - ");
            assert(","@ =~= seq![',']);
            assert(" - "@ =~= dash_separator());
        }
        let ids_text = remove_blanks(ids);
        let id_list = split_by(ids_text.as_str(), ",");
        let name_list = split_by(names, " - ");
        if id_list.len() != name_list.len() {
            return Err(LineError::CountMismatch { ids: id_list, names: name_list });
        }
        let parsed = match parse_ids(&id_list) {
            Ok(p) => p,
            Err(i) => {
                let wrong_id = id_list[i].clone();
                assert(views(id_list@)[i as int] == id_list@[i as int]@);
                return Err(LineError::InvalidId { ids: id_list, names: name_list, wrong_id });
            },
        };
        let mut entries: Vec<ResultEntry> = Vec::new();
        let mut k: usize = 0;
        while k < id_list.len()
            invariant
                row == line_row(
                    ids@,
                    names@,
                    gender@,
                    age as nat,
                    competition@,
                    place@,
                    result_type@,
                    result@,
                    details@,
                    age_group@,
                ),
                k <= id_list.len(),
                id_list.len() == name_list.len(),
                parsed.len() == id_list.len(),
                views(id_list@) == row_ids(row),
                views(name_list@) == row_names(row),
                forall|j: int|
                    0 <= j < id_list.len() ==> parsed_u16(#[trigger] views(id_list@)[j]) == Some(
                        parsed@[j],
                    ),
                parsed_place(row.place) == Some(place_value),
                parsed_result_type(row.result_type) == Some(kind),
                entries.len() == k,
                forall|j: int|
                    0 <= j < k ==> (#[trigger] entries@[j])@ == (EntryRecord {
                        id: parsed_u16(row_ids(row)[j])->0 as nat,
                        name: trimmed(row_names(row)[j]),
                        gender: line_gender(row),
                        age: line_age(row),
                        competition: row.competition,
                        place: parsed_place(row.place)->0,
                        result_type: parsed_result_type(row.result_type)->0,
                        result: row.result,
                        details: row.details,
                        age_group: row.age_group,
                    }) && entries@[j].name_spec().wf(),
            decreases id_list.len() - k,
        {
            assert(views(name_list@)[k as int] == name_list@[k as int]@);
            let (entry_gender, entry_age) = if id_list.len() == 1 {
                (Some(String::from_str(gender)), Some(age))
            } else {
                (None, None)
            };
            let entry = ResultEntry::new(
                parsed[k],
                CompetitorName::new(name_list[k].as_str()),
                entry_gender,
                entry_age,
                String::from_str(competition),
                place_value,
                kind,
                String::from_str(result),
                String::from_str(details),
                String::from_str(age_group),
            );
            entries.push(entry);
            k = k + 1;
        }
        Ok(entries)
    }

    pub fn id(&self) -> (r: u16)
        ensures
            r == self@.id,
    {
        self.id
    }

    pub fn name(&self) -> (r: &CompetitorName)
        ensures
            *r == self.name_spec(),
    {
        &self.name
    }

    pub fn gender(&self) -> (r: &Option<String>)
        ensures
            self@.gender == match r {
                Some(g) => Some(g@),
                None => None::<Seq<char>>,
            },
    {
        &self.gender
    }

    pub fn age(&self) -> (r: Option<u8>)
        ensures
            self@.age == match r {
                Some(a) => Some(a as nat),
                None => None::<nat>,
            },
    {
        self.age
    }

    pub fn competition(&self) -> (r: &String)
        ensures
            r@ == self@.competition,
    {
        &self.competition
    }

    pub fn place(&self) -> (r: Place)
        ensures
            r == self@.place,
    {
        self.place
    }

    pub fn result_type(&self) -> (r: ResultType)
        ensures
            r == self@.result_type,
    {
        self.result_type
    }

    pub fn result(&self) -> (r: &String)
        ensures
            r@ == self@.result,
    {
        &self.result
    }

    pub fn details(&self) -> (r: &String)
        ensures
            r@ == self@.details,
    {
        &self.details
    }

    pub fn age_group(&self) -> (r: &String)
        ensures
            r@ == self@.age_group,
    {
        &self.age_group
    }
}


/// The names of the entries of every list, list after list.
pub open spec fn entry_names(lists: Seq<Seq<ResultEntry>>) -> Seq<CompetitorName>
    decreases lists.len(),
{
    if lists.len() == 0 {
        Seq::empty()
    } else {
        entry_names(lists.drop_last()) + lists.last().map_values(|e: ResultEntry| e.name_spec())
    }
}

/// Lists the names of the entries of every list, list after list.
fn collect_names<'a>(lists: &Vec<&'a Vec<ResultEntry>>) -> (r: Vec<&'a CompetitorName>)
    ensures
        r@.map_values(|n: &CompetitorName| *n) == entry_names(
            lists@.map_values(|l: &Vec<ResultEntry>| l@),
        ),
{
    let ghost all = lists@.map_values(|l: &Vec<ResultEntry>| l@);
    let mut names: Vec<&'a CompetitorName> = Vec::new();
    let mut c: usize = 0;
    assert(all.take(0) =~= Seq::<Seq<ResultEntry>>::empty());
    assert(names@.map_values(|n: &CompetitorName| *n) =~= Seq::<CompetitorName>::empty());
    while c < lists.len()
        invariant
            c <= lists.len(),
            all == lists@.map_values(|l: &Vec<ResultEntry>| l@),
            names@.map_values(|n: &CompetitorName| *n) == entry_names(all.take(c as int)),
        decreases lists.len() - c,
    {
        let list: &'a Vec<ResultEntry> = lists[c];
        let ghost before = names@.map_values(|n: &CompetitorName| *n);
        let ghost m = list@.map_values(|e: ResultEntry| e.name_spec());
        let mut e: usize = 0;
        while e < list.len()
            invariant
                e <= list.len(),
                m == list@.map_values(|e: ResultEntry| e.name_spec()),
                names@.map_values(|n: &CompetitorName| *n) == before + m.take(e as int),
            decreases list.len() - e,
        {
            let ghost prev = names@;
            let n: &'a CompetitorName = list[e].name();
            names.push(n);
            assert(names@.map_values(|n: &CompetitorName| *n) =~= prev.map_values(
                |n: &CompetitorName| *n,
            ).push(*n));
            assert(m.take(e + 1) =~= m.take(e as int).push(m[e as int]));
            e = e + 1;
        }
        assert(m.take(list.len() as int) =~= m);
        assert(all.take(c + 1).drop_last() =~= all.take(c as int));
        assert(all.take(c + 1).last() == list@);
        c = c + 1;
    }
    assert(all.take(lists.len() as int) =~= all);
    names
}

impl ResultEntry {
    /// The competitors that the entries of every convention name, each once: a name that is
    /// the same as an earlier one is left out.
    pub fn compute_competitors(results: &Vec<(String, Vec<ResultEntry>)>) -> (r: Vec<
        CompetitorName,
    >)
        ensures
            r.len() == distinct_names(
                entry_names(results@.map_values(|x: (String, Vec<ResultEntry>)| x.1@)),
            ).len(),
            forall|k: int|
                0 <= k < r.len() ==> crate::name::copy_of(
                    #[trigger] r@[k],
                    distinct_names(
                        entry_names(results@.map_values(|x: (String, Vec<ResultEntry>)| x.1@)),
                    )[k],
                ),
    {
        let mut lists: Vec<&Vec<ResultEntry>> = Vec::new();
        let mut c: usize = 0;
        while c < results.len()
            invariant
                c <= results.len(),
                lists@.map_values(|l: &Vec<ResultEntry>| l@) == results@.map_values(
                    |x: (String, Vec<ResultEntry>)| x.1@,
                ).take(c as int),
            decreases results.len() - c,
        {
            let ghost prev = lists@;
            lists.push(&results[c].1);
            assert(lists@.map_values(|l: &Vec<ResultEntry>| l@) =~= prev.map_values(
                |l: &Vec<ResultEntry>| l@,
            ).push(results@[c as int].1@));
            assert(lists@.map_values(|l: &Vec<ResultEntry>| l@) =~= results@.map_values(
                |x: (String, Vec<ResultEntry>)| x.1@,
            ).take(c + 1));
            c = c + 1;
        }
        assert(results@.map_values(|x: (String, Vec<ResultEntry>)| x.1@).take(
            results.len() as int,
        ) =~= results@.map_values(|x: (String, Vec<ResultEntry>)| x.1@));
        let names = collect_names(&lists);
        keep_distinct(&names)
    }
}

/// All the result entries of one convention.
#[derive(Debug, Clone)]
pub struct ConventionResults {
    name: String,
    results: Vec<ResultEntry>,
}

impl ConventionResults {
    pub closed spec fn name_spec(&self) -> Seq<char> {
        self.name@
    }

    pub closed spec fn entries(&self) -> Seq<ResultEntry> {
        self.results@
    }

    pub fn new(name: &str, results: Vec<ResultEntry>) -> (r: ConventionResults)
        ensures
            r.name_spec() == name@,
            r.entries() == results@,
    {
        ConventionResults { name: String::from_str(name), results }
    }

    pub fn name(&self) -> (r: &String)
        ensures
            r@ == self.name_spec(),
    {
        &self.name
    }

    pub fn results(&self) -> (r: &Vec<ResultEntry>)
        ensures
            r@ == self.entries(),
    {
        &self.results
    }

    /// The competitors of every convention, each once: a name that is the same as an earlier
    /// one is left out.
    pub fn compute_competitors(results: &Vec<ConventionResults>) -> (r: Vec<CompetitorName>)
        ensures
            r.len() == distinct_names(
                entry_names(results@.map_values(|x: ConventionResults| x.entries())),
            ).len(),
            forall|k: int|
                0 <= k < r.len() ==> crate::name::copy_of(
                    #[trigger] r@[k],
                    distinct_names(
                        entry_names(results@.map_values(|x: ConventionResults| x.entries())),
                    )[k],
                ),
    {
        let mut lists: Vec<&Vec<ResultEntry>> = Vec::new();
        let mut c: usize = 0;
        while c < results.len()
            invariant
                c <= results.len(),
                lists@.map_values(|l: &Vec<ResultEntry>| l@) == results@.map_values(
                    |x: ConventionResults| x.entries(),
                ).take(c as int),
            decreases results.len() - c,
        {
            let ghost prev = lists@;
            lists.push(results[c].results());
            assert(lists@.map_values(|l: &Vec<ResultEntry>| l@) =~= prev.map_values(
                |l: &Vec<ResultEntry>| l@,
            ).push(results@[c as int].entries()));
            assert(lists@.map_values(|l: &Vec<ResultEntry>| l@) =~= results@.map_values(
                |x: ConventionResults| x.entries(),
            ).take(c + 1));
            c = c + 1;
        }
        assert(results@.map_values(|x: ConventionResults| x.entries()).take(results.len() as int)
            =~= results@.map_values(|x: ConventionResults| x.entries()));
        let names = collect_names(&lists);
        keep_distinct(&names)
    }
}

} // verus!
