//! The competitors that a result row names.

use vstd::prelude::*;

use crate::vocabulary::Gender;

verus! {

/// A competitor whose name, gender and age a result row gives.
#[derive(Debug, Clone, PartialEq, Eq, Hash)]
pub struct IndividualCompetitor {
    id: u16,
    name: String,
    gender: Gender,
    age: u8,
}

/// A competitor known only by id, as in team entries.
#[derive(Debug, Clone, Copy, PartialEq, Eq, Hash)]
pub struct UnknownIndividualCompetitor {
    id: u16,
}

/// A competitor, as values.
pub ghost enum CompetitorRecord {
    Individual { id: nat, name: Seq<char>, gender: Gender, age: nat },
    Unknown { id: nat },
    Team { name: Seq<char>, members: Seq<Competitor> },
}

/// A named team of competitors.
#[derive(Debug, PartialEq, Eq, Hash)]
pub struct Team {
    name: String,
    members: Vec<Competitor>,
}

/// An individual competitor, a team, or a competitor known only by id.
#[derive(Debug, PartialEq, Eq, Hash)]
pub enum Competitor {
    IndividualCompetitor(IndividualCompetitor),
    Team(Team),
    UnknownIndividualCompetitor(UnknownIndividualCompetitor),
}

impl View for Team {
    type V = CompetitorRecord;

    closed spec fn view(&self) -> CompetitorRecord {
        CompetitorRecord::Team { name: self.name@, members: self.members@ }
    }
}

impl Team {
    pub fn new(name: String, members: Vec<Competitor>) -> (r: Team)
        ensures
            r@ == (CompetitorRecord::Team { name: name@, members: members@ }),
    {
        Team { name, members }
    }

    pub fn name(&self) -> (r: &String)
        ensures
            self@ matches CompetitorRecord::Team { name, .. } && r@ == name,
    {
        &self.name
    }

    pub fn members(&self) -> (r: &Vec<Competitor>)
        ensures
            self@ matches CompetitorRecord::Team { members, .. } && r@ == members,
    {
        &self.members
    }
}

impl View for IndividualCompetitor {
    type V = CompetitorRecord;

    closed spec fn view(&self) -> CompetitorRecord {
        CompetitorRecord::Individual {
            id: self.id as nat,
            name: self.name@,
            gender: self.gender,
            age: self.age as nat,
        }
    }
}

impl IndividualCompetitor {
    pub fn new(id: u16, name: String, gender: Gender, age: u8) -> (r: IndividualCompetitor)
        ensures
            r@ == (CompetitorRecord::Individual {
                id: id as nat,
                name: name@,
                gender,
                age: age as nat,
            }),
    {
        IndividualCompetitor { id, name, gender, age }
    }

    pub fn id(&self) -> (r: u16)
        ensures
            self@ matches CompetitorRecord::Individual { id, .. } && r == id,
    {
        self.id
    }

    pub fn name(&self) -> (r: &String)
        ensures
            self@ matches CompetitorRecord::Individual { name, .. } && r@ == name,
    {
        &self.name
    }

    pub fn gender(&self) -> (r: Gender)
        ensures
            self@ matches CompetitorRecord::Individual { gender, .. } && r == gender,
    {
        self.gender
    }

    pub fn age(&self) -> (r: u8)
        ensures
            self@ matches CompetitorRecord::Individual { age, .. } && r == age,
    {
        self.age
    }
}

impl View for UnknownIndividualCompetitor {
    type V = CompetitorRecord;

    closed spec fn view(&self) -> CompetitorRecord {
        CompetitorRecord::Unknown { id: self.id as nat }
    }
}

impl UnknownIndividualCompetitor {
    pub fn new(id: u16) -> (r: UnknownIndividualCompetitor)
        ensures
            r@ == (CompetitorRecord::Unknown { id: id as nat }),
    {
        UnknownIndividualCompetitor { id }
    }

    pub fn id(&self) -> (r: u16)
        ensures
            self@ matches CompetitorRecord::Unknown { id } && r == id,
    {
        self.id
    }
}

impl View for Competitor {
    type V = CompetitorRecord;

    open spec fn view(&self) -> CompetitorRecord {
        match self {
            Competitor::IndividualCompetitor(c) => c@,
            Competitor::Team(t) => t@,
            Competitor::UnknownIndividualCompetitor(c) => c@,
        }
    }
}

} // verus!
