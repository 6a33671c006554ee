//! The closed vocabularies of a result row: place, result type, gender and age group.

use vstd::prelude::*;

use crate::text::{
    eq_ignoring_case, parse_u16, parsed_u16, same_ignoring_case, split_by, split_on, trim,
    trimmed, views,
};

verus! {

/// The field of a result row that held a value out of its vocabulary.
#[derive(Debug, Clone, Copy, PartialEq, Eq, Hash, Structural)]
pub enum Field {
    Place,
    ResultType,
    Gender,
}

/// A value that is not in the vocabulary of its field.
#[derive(Debug, Clone, PartialEq, Eq)]
pub struct ValidationError {
    pub field: Field,
    pub value: String,
}

/// Why a competitor did not get a rank.
#[derive(Debug, Clone, Copy, PartialEq, Eq, Hash, Structural)]
pub enum Disqualification {
    /// Did not finish.
    Dnf,
    /// Disqualified.
    Dq,
}

/// A numeric rank, or a disqualification.
#[derive(Debug, Clone, Copy, PartialEq, Eq, Hash, Structural)]
pub enum Place {
    Rank(u16),
    Disqualified(Disqualification),
}

/// The place that a text writes: a rank, or `DNF` / `DQ` in any case.
pub open spec fn parsed_place(s: Seq<char>) -> Option<Place> {
    if parsed_u16(s) is Some {
        Some(Place::Rank(parsed_u16(s)->0))
    } else if same_ignoring_case(s, seq!['D', 'N', 'F']) {
        Some(Place::Disqualified(Disqualification::Dnf))
    } else if same_ignoring_case(s, seq!['D', 'Q']) {
        Some(Place::Disqualified(Disqualification::Dq))
    } else {
        None
    }
}

impl Place {
    pub fn from_string(place: &str) -> (r: Result<Place, ValidationError>)
        ensures
            match r {
                Ok(p) => parsed_place(place@) == Some(p),
                Err(e) => parsed_place(place@) is None && e.field == Field::Place && e.value@
                    == place@,
            },
    {
        if let Some(rank) = parse_u16(place) {
            return Ok(Place::Rank(rank));
        }
        proof {
            reveal_strlit("DNF");
            reveal_strlit("DQ");
            assert("DNF"@ =~= seq!['D', 'N', 'F']);
            assert("DQ"@ =~= seq!['D', 'Q']);
        }
        if eq_ignoring_case(place, "DNF") {
            Ok(Place::Disqualified(Disqualification::Dnf))
        } else if eq_ignoring_case(place, "DQ") {
            Ok(Place::Disqualified(Disqualification::Dq))
        } else {
            Err(ValidationError { field: Field::Place, value: String::from_str(place) })
        }
    }
}

/// Whether a ranking is overall or within an age group.
#[derive(Debug, Clone, Copy, PartialEq, Eq, Hash, Structural)]
pub enum ResultType {
    AgeGroup,
    Overall,
}

/// The result type that a text names, in any case.
pub open spec fn parsed_result_type(s: Seq<char>) -> Option<ResultType> {
    if same_ignoring_case(s, seq!['A', 'g', 'e', 'G', 'r', 'o', 'u', 'p']) {
        Some(ResultType::AgeGroup)
    } else if same_ignoring_case(s, seq!['O', 'v', 'e', 'r', 'a', 'l', 'l']) {
        Some(ResultType::Overall)
    } else {
        None
    }
}

impl ResultType {
    pub fn from_string(result_type: &str) -> (r: Result<ResultType, ValidationError>)
        ensures
            match r {
                Ok(t) => parsed_result_type(result_type@) == Some(t),
                Err(e) => parsed_result_type(result_type@) is None && e.field == Field::ResultType
                    && e.value@ == result_type@,
            },
    {
        proof {
            reveal_strlit("AgeGroup");
            reveal_strlit("Overall");
            assert("AgeGroup"@ =~= seq!['A', 'g', 'e', 'G', 'r', 'o', 'u', 'p']);
            assert("Overall"@ =~= seq!['O', 'v', 'e', 'r', 'a', 'l', 'l']);
        }
        if eq_ignoring_case(result_type, "AgeGroup") {
            Ok(ResultType::AgeGroup)
        } else if eq_ignoring_case(result_type, "Overall") {
            Ok(ResultType::Overall)
        } else {
            Err(ValidationError { field: Field::ResultType, value: String::from_str(result_type) })
        }
    }
}

/// The gender of an individual competitor.
#[derive(Debug, Clone, Copy, PartialEq, Eq, Hash, Structural)]
pub enum Gender {
    Male,
    Female,
    /// `(mixed)`
    Mixed,
    /// `(n/a)`
    NotApplicable,
}

/// The gender that a text names, in any case.
pub open spec fn parsed_gender(s: Seq<char>) -> Option<Gender> {
    if same_ignoring_case(s, seq!['M', 'a', 'l', 'e']) {
        Some(Gender::Male)
    } else if same_ignoring_case(s, seq!['F', 'e', 'm', 'a', 'l', 'e']) {
        Some(Gender::Female)
    } else if same_ignoring_case(s, seq!['(', 'm', 'i', 'x', 'e', 'd', ')']) {
        Some(Gender::Mixed)
    } else if same_ignoring_case(s, seq!['(', 'n', '/', 'a', ')']) {
        Some(Gender::NotApplicable)
    } else {
        None
    }
}

impl Gender {
    pub fn from_string(gender: &str) -> (r: Result<Gender, ValidationError>)
        ensures
            match r {
                Ok(g) => parsed_gender(gender@) == Some(g),
                Err(e) => parsed_gender(gender@) is None && e.field == Field::Gender && e.value@
                    == gender@,
            },
    {
        proof {
            reveal_strlit("Male");
            reveal_strlit("Female");
            reveal_strlit("(mixed)");
            reveal_strlit("(n/a)");
            assert("Male"@ =~= seq!['M', 'a', 'l', 'e']);
            assert("Female"@ =~= seq!['F', 'e', 'm', 'a', 'l', 'e']);
            assert("(mixed)"@ =~= seq!['(', 'm', 'i', 'x', 'e', 'd', ')']);
            assert("(n/a)"@ =~= seq!['(', 'n', '/', 'a', ')']);
        }
        if eq_ignoring_case(gender, "Male") {
            Ok(Gender::Male)
        } else if eq_ignoring_case(gender, "Female") {
            Ok(Gender::Female)
        } else if eq_ignoring_case(gender, "(mixed)") {
            Ok(Gender::Mixed)
        } else if eq_ignoring_case(gender, "(n/a)") {
            Ok(Gender::NotApplicable)
        } else {
            Err(ValidationError { field: Field::Gender, value: String::from_str(gender) })
        }
    }
}

/// The separator between age groups, and between names of co-competitors.
pub open spec fn dash_separator() -> Seq<char> {
    seq![' ', '-', ' ']
}

/// The age groups that a text lists, separated by ` - `, each trimmed.
pub open spec fn age_groups_of(s: Seq<char>) -> Seq<Seq<char>> {
    split_on(s, dash_separator()).map_values(|g: Seq<char>| trimmed(g))
}

/// The age groups a result was ranked in.
#[derive(Debug, Clone, PartialEq, Eq)]
pub struct AgeGroup {
    groups_name: Vec<String>,
}

impl View for AgeGroup {
    type V = Seq<Seq<char>>;

    closed spec fn view(&self) -> Seq<Seq<char>> {
        views(self.groups_name@)
    }
}

impl AgeGroup {
    pub fn from_string(groups_name: &str) -> (r: AgeGroup)
        ensures
            r@ == age_groups_of(groups_name@),
    {
        proof {
            reveal_strlit(" - ");
            assert(" - "@ =~= dash_separator());
        }
        let pieces = split_by(groups_name, " - ");
        let mut groups: Vec<String> = Vec::new();
        let mut i: usize = 0;
        while i < pieces.len()
            invariant
                i <= pieces.len(),
                views(pieces@) == split_on(groups_name@, dash_separator()),
                views(groups@) == age_groups_of(groups_name@).take(i as int),
            decreases pieces.len() - i,
        {
            let g = trim(pieces[i].as_str());
            let ghost before = groups@;
            groups.push(g);
            proof {
                assert(views(pieces@)[i as int] == pieces@[i as int]@);
                assert(views(groups@) =~= views(before).push(g@));
                assert(age_groups_of(groups_name@).take(i + 1) =~= age_groups_of(groups_name@).take(
                    i as int,
                ).push(age_groups_of(groups_name@)[i as int]));
            }
            i = i + 1;
        }
        assert(age_groups_of(groups_name@).take(pieces.len() as int) =~= age_groups_of(
            groups_name@,
        ));
        AgeGroup { groups_name: groups }
    }

    pub fn groups_name(&self) -> (r: &Vec<String>)
        ensures
            views(r@) == self@,
    {
        &self.groups_name
    }

    /// A copy of these age groups.
    pub fn duplicate(&self) -> (r: AgeGroup)
        ensures
            r@ == self@,
    {
        AgeGroup { groups_name: self.groups_name.clone() }
    }
}

} // verus!
