//! Conventions, competitions, and the result of one competitor in one competition.

use vstd::prelude::*;

use crate::result_value::{Measure, ResultValue};
use crate::vocabulary::{AgeGroup, Place, ResultType};

verus! {

/// One event gathering, known by a short tag and a display name.
#[derive(Debug, Clone, Hash)]
pub struct Convention {
    tag: String,
    name: String,
}

impl View for Convention {
    type V = (Seq<char>, Seq<char>);

    closed spec fn view(&self) -> (Seq<char>, Seq<char>) {
        (self.tag@, self.name@)
    }
}

impl Convention {
    pub fn new(tag: String, name: String) -> (r: Convention)
        ensures
            r@ == (tag@, name@),
    {
        Convention { tag, name }
    }

    pub fn tag(&self) -> (r: &String)
        ensures
            r@ == self@.0,
    {
        &self.tag
    }

    pub fn name(&self) -> (r: &String)
        ensures
            r@ == self@.1,
    {
        &self.name
    }

    /// A copy of this convention.
    pub fn duplicate(&self) -> (r: Convention)
        ensures
            r@ == self@,
    {
        Convention { tag: self.tag.clone(), name: self.name.clone() }
    }
}

impl PartialEq for Convention {
    fn eq(&self, other: &Convention) -> (r: bool) {
        self.tag == other.tag && self.name == other.name
    }
}

impl vstd::std_specs::cmp::PartialEqSpecImpl for Convention {
    open spec fn obeys_eq_spec() -> bool {
        true
    }

    open spec fn eq_spec(&self, other: &Convention) -> bool {
        self@ == other@
    }
}

impl Eq for Convention {
}

/// One discipline within a convention, known by its name.
#[derive(Debug, Clone, Hash)]
pub struct Competition {
    name: String,
}

impl View for Competition {
    type V = Seq<char>;

    closed spec fn view(&self) -> Seq<char> {
        self.name@
    }
}

impl Competition {
    pub fn new(name: &str) -> (r: Competition)
        ensures
            r@ == name@,
    {
        Competition { name: String::from_str(name) }
    }

    pub fn name(&self) -> (r: &String)
        ensures
            r@ == self@,
    {
        &self.name
    }

    /// A copy of this competition.
    pub fn duplicate(&self) -> (r: Competition)
        ensures
            r@ == self@,
    {
        Competition { name: self.name.clone() }
    }
}

impl PartialEq for Competition {
    fn eq(&self, other: &Competition) -> (r: bool) {
        self.name == other.name
    }
}

impl vstd::std_specs::cmp::PartialEqSpecImpl for Competition {
    open spec fn obeys_eq_spec() -> bool {
        true
    }

    open spec fn eq_spec(&self, other: &Competition) -> bool {
        self@ == other@
    }
}

impl Eq for Competition {
}

/// What a competition result holds, as values.
pub ghost struct ResultRecord {
    pub id: nat,
    pub competition: Seq<char>,
    pub place: Place,
    pub result_type: ResultType,
    pub result: Option<Measure>,
    pub details: Option<Seq<char>>,
    pub age_group: Option<Seq<Seq<char>>>,
}

/// The result of the competitor with a given id in one competition.
#[derive(Debug, Clone, PartialEq)]
pub struct CompetitionResult {
    id: u16,
    competition: Competition,
    place: Place,
    result_type: ResultType,
    result: Option<ResultValue>,
    details: Option<String>,
    age_group: Option<AgeGroup>,
}

impl View for CompetitionResult {
    type V = ResultRecord;

    closed spec fn view(&self) -> ResultRecord {
        ResultRecord {
            id: self.id as nat,
            competition: self.competition@,
            place: self.place,
            result_type: self.result_type,
            result: match self.result {
                Some(v) => Some(v@),
                None => None,
            },
            details: match self.details {
                Some(d) => Some(d@),
                None => None,
            },
            age_group: match self.age_group {
                Some(g) => Some(g@),
                None => None,
            },
        }
    }
}

impl CompetitionResult {
    pub fn new(
        id: u16,
        competition: Competition,
        place: Place,
        result_type: ResultType,
        result: Option<ResultValue>,
        details: Option<String>,
        age_group: Option<AgeGroup>,
    ) -> (r: CompetitionResult)
        ensures
            r@ == (ResultRecord {
                id: id as nat,
                competition: competition@,
                place,
                result_type,
                result: match result {
                    Some(v) => Some(v@),
                    None => None,
                },
                details: match details {
                    Some(d) => Some(d@),
                    None => None,
                },
                age_group: match age_group {
                    Some(g) => Some(g@),
                    None => None,
                },
            }),
    {
        CompetitionResult { id, competition, place, result_type, result, details, age_group }
    }

    pub fn id(&self) -> (r: u16)
        ensures
            r == self@.id,
    {
        self.id
    }

    pub fn competition(&self) -> (r: &Competition)
        ensures
            r@ == self@.competition,
    {
        &self.competition
    }

    pub fn place(&self) -> (r: Place)
        ensures
            r == self@.place,
    {
        self.place
    }

    pub fn result_type(&self) -> (r: ResultType)
        ensures
            r == self@.result_type,
    {
        self.result_type
    }

    pub fn result(&self) -> (r: &Option<ResultValue>)
        ensures
            self@.result == match r {
                Some(v) => Some(v@),
                None => None::<Measure>,
            },
    {
        &self.result
    }

    pub fn details(&self) -> (r: &Option<String>)
        ensures
            self@.details == match r {
                Some(d) => Some(d@),
                None => None::<Seq<char>>,
            },
    {
        &self.details
    }

    pub fn age_group(&self) -> (r: &Option<AgeGroup>)
        ensures
            self@.age_group == match r {
                Some(g) => Some(g@),
                None => None::<Seq<Seq<char>>>,
            },
    {
        &self.age_group
    }

    /// A copy of this result.
    pub fn duplicate(&self) -> (r: CompetitionResult)
        ensures
            r@ == self@,
    {
        CompetitionResult {
            id: self.id,
            competition: self.competition.duplicate(),
            place: self.place,
            result_type: self.result_type,
            result: match &self.result {
                Some(v) => Some(v.duplicate()),
                None => None,
            },
            details: match &self.details {
                Some(d) => Some(d.clone()),
                None => None,
            },
            age_group: match &self.age_group {
                Some(g) => Some(g.duplicate()),
                None => None,
            },
        }
    }
}

} // verus!
