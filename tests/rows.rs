use uda_stats::competitor::{Competitor, Team, UnknownIndividualCompetitor};
use uda_stats::name::CompetitorName;
use uda_stats::raw_result::{
    get_results_from_raw_results_lines, read_competition_result_from_raw_result,
    read_raw_results_lines, RawResult, RowError,
};
use uda_stats::result_entry::{ConventionResults, LineError, ResultEntry};
use uda_stats::result_value::ResultValue;
use uda_stats::vocabulary::{
    AgeGroup, Disqualification, Field, Gender, Place, ResultType,
};

fn raw(ids: &str, names: &str, gender: &str, place: &str, result_type: &str, result: &str) -> RawResult {
    RawResult::new(
        String::from(ids),
        String::from(names),
        String::from(gender),
        22,
        String::from("100m"),
        String::from(place),
        String::from(result_type),
        String::from(result),
        String::new(),
        String::from("Senior"),
    )
}

fn create_result_entry(name: &str) -> ResultEntry {
    ResultEntry::new(
        1,
        CompetitorName::new(name),
        Some(String::from("Male")),
        Some(22),
        String::from("100m"),
        Place::from_string("1").unwrap(),
        ResultType::from_string("Overall").unwrap(),
        String::from("00:14:99"),
        String::new(),
        String::from("Senior"),
    )
}

#[test]
fn convention_results_should_merge_same_competitor() {
    let expected_competitor_name = CompetitorName::new("John Doe");

    let mut results = vec![];
    results.push(ConventionResults::new("convention 1", vec![create_result_entry("John Doe")]));
    results.push(ConventionResults::new("convention 2", vec![create_result_entry("John Doe")]));

    let competitors = ConventionResults::compute_competitors(&results);
    assert_eq!(competitors, vec![expected_competitor_name]);
}

#[test]
fn result_entry_should_merge_same_competitor() {
    let expected_competitor_name = CompetitorName::new("John Doe");

    let mut results = vec![];
    results.push((String::from("convention 1"), vec![create_result_entry("John Doe")]));
    results.push((String::from("convention 2"), vec![create_result_entry("John Doe")]));

    let competitors = ResultEntry::compute_competitors(&results);
    assert_eq!(competitors, vec![expected_competitor_name]);
}

#[test]
fn compute_competitors_keeps_distinct_names_in_order() {
    let results = vec![
        ConventionResults::new("a", vec![create_result_entry("John Doe"), create_result_entry("Jane Roe")]),
        ConventionResults::new("b", vec![create_result_entry("Doe John"), create_result_entry("Max Mustermann")]),
    ];
    let competitors = ConventionResults::compute_competitors(&results);
    assert_eq!(
        competitors,
        vec![
            CompetitorName::new("John Doe"),
            CompetitorName::new("Jane Roe"),
            CompetitorName::new("Max Mustermann")
        ]
    );
}

#[test]
fn row_with_two_ids_yields_two_results_sharing_the_outcome() {
    let row = raw("12,13", "Alice Smith - Bob Jones", "Female", "2", "Overall", "00:14.99");
    let expanded = read_competition_result_from_raw_result(&row).unwrap();
    assert_eq!(expanded.len(), 2);
    assert_eq!(expanded[0].1.id(), 12);
    assert_eq!(expanded[1].1.id(), 13);
    for (_, result) in &expanded {
        assert_eq!(result.competition().name(), "100m");
        assert_eq!(result.place(), Place::Rank(2));
        assert_eq!(result.result_type(), ResultType::Overall);
        assert_eq!(result.result(), &Some(ResultValue::Time(14_990)));
        assert_eq!(result.details(), &None);
    }
    assert!(matches!(expanded[0].0, Competitor::UnknownIndividualCompetitor(_)));
    assert!(matches!(expanded[1].0, Competitor::UnknownIndividualCompetitor(_)));
}

#[test]
fn row_with_two_ids_and_one_name_is_a_schema_mismatch() {
    let row = raw("12,13", "Alice Smith", "Female", "2", "Overall", "00:14.99");
    match read_competition_result_from_raw_result(&row) {
        Err(RowError::SchemaMismatch(e)) => {
            assert_eq!(e.ids, vec![String::from("12"), String::from("13")]);
            assert_eq!(e.names, vec![String::from("Alice Smith")]);
            assert_eq!(e.wrong_id, None);
        }
        other => panic!("unexpected {:?}", other),
    }
}

#[test]
fn row_with_a_non_numeric_id_names_it() {
    let row = raw("12,x3", "Alice Smith - Bob Jones", "Female", "2", "Overall", "");
    match read_competition_result_from_raw_result(&row) {
        Err(RowError::SchemaMismatch(e)) => assert_eq!(e.wrong_id, Some(String::from("x3"))),
        other => panic!("unexpected {:?}", other),
    }
}

#[test]
fn row_with_one_id_yields_an_individual_competitor() {
    let row = raw(" 7 ", "  John Doe ", "male", "DNF", "agegroup", "");
    let expanded = read_competition_result_from_raw_result(&row).unwrap();
    assert_eq!(expanded.len(), 1);
    match &expanded[0].0 {
        Competitor::IndividualCompetitor(c) => {
            assert_eq!(c.id(), 7);
            assert_eq!(c.name(), "John Doe");
            assert_eq!(c.gender(), Gender::Male);
            assert_eq!(c.age(), 22);
        }
        other => panic!("unexpected {:?}", other),
    }
    let result = &expanded[0].1;
    assert_eq!(result.place(), Place::Disqualified(Disqualification::Dnf));
    assert_eq!(result.result_type(), ResultType::AgeGroup);
    assert_eq!(result.result(), &None);
    assert_eq!(result.age_group(), &Some(AgeGroup::from_string("Senior")));
}

#[test]
fn row_errors_name_the_invalid_field() {
    let bad_place = raw("1", "John Doe", "Male", "first", "Overall", "");
    match read_competition_result_from_raw_result(&bad_place) {
        Err(RowError::Validation(e)) => {
            assert_eq!(e.field, Field::Place);
            assert_eq!(e.value, "first");
        }
        other => panic!("unexpected {:?}", other),
    }
    let bad_type = raw("1", "John Doe", "Male", "1", "Final", "");
    match read_competition_result_from_raw_result(&bad_type) {
        Err(RowError::Validation(e)) => assert_eq!(e.field, Field::ResultType),
        other => panic!("unexpected {:?}", other),
    }
    let bad_gender = raw("1", "John Doe", "Robot", "1", "Overall", "");
    match read_competition_result_from_raw_result(&bad_gender) {
        Err(RowError::Validation(e)) => assert_eq!(e.field, Field::Gender),
        other => panic!("unexpected {:?}", other),
    }
}

#[test]
fn lines_skip_bad_rows_and_keep_order() {
    let rows = vec![
        raw("1", "John Doe", "Male", "1", "Overall", "00:14.99"),
        raw("2,3", "Only One", "Male", "1", "Overall", ""),
        raw("4,5", "A B - C D", "(mixed)", "2", "Overall", "340 cm"),
    ];
    let results = get_results_from_raw_results_lines(&rows);
    let ids: Vec<u16> = results.iter().map(|r| r.id()).collect();
    assert_eq!(ids, vec![1, 4, 5]);
    assert_eq!(results[2].result(), &Some(ResultValue::Distance(340)));
}

#[test]
fn from_result_line_splits_ids_and_names() {
    let entries = ResultEntry::from_result_line(
        "1, 2", "John Doe - Jane Roe", "Male", 30, "Relay", "3", "Overall", "01:02.50", "", "",
    )
    .unwrap();
    assert_eq!(entries.len(), 2);
    assert_eq!(entries[0].id(), 1);
    assert_eq!(entries[1].id(), 2);
    assert_eq!(entries[1].name(), &CompetitorName::new("Jane Roe"));
    assert_eq!(entries[0].place(), Place::Rank(3));
    assert_eq!(entries[0].result(), "01:02.50");
    assert_eq!(entries[0].gender(), &None);
    assert_eq!(entries[1].age(), None);
}

#[test]
fn from_result_line_keeps_gender_and_age_of_a_single_competitor() {
    let entries = ResultEntry::from_result_line(
        "+4", "John Doe", "Male", 30, "100m", "+2", "Overall", "00:14.99", "", "",
    )
    .unwrap();
    assert_eq!(entries.len(), 1);
    assert_eq!(entries[0].id(), 4);
    assert_eq!(entries[0].place(), Place::Rank(2));
    assert_eq!(entries[0].gender(), &Some(String::from("Male")));
    assert_eq!(entries[0].age(), Some(30));
}

#[test]
fn from_result_line_reports_count_mismatch() {
    let err = ResultEntry::from_result_line(
        "1,2", "John Doe", "Male", 30, "Relay", "3", "Overall", "", "", "",
    )
    .unwrap_err();
    match err {
        LineError::CountMismatch { ids, names } => {
            assert_eq!(ids.len(), 2);
            assert_eq!(names.len(), 1);
        }
        other => panic!("unexpected {:?}", other),
    }
}

#[test]
fn vocabularies_are_case_insensitive_and_closed() {
    assert_eq!(Place::from_string("12").unwrap(), Place::Rank(12));
    assert_eq!(Place::from_string("+5").unwrap(), Place::Rank(5));
    assert!(Place::from_string("+").is_err());
    assert!(Place::from_string("-5").is_err());
    assert_eq!(Place::from_string("dq").unwrap(), Place::Disqualified(Disqualification::Dq));
    assert!(Place::from_string("70000").is_err());
    assert!(Place::from_string("").is_err());
    assert_eq!(ResultType::from_string("OVERALL").unwrap(), ResultType::Overall);
    assert_eq!(Gender::from_string("(N/A)").unwrap(), Gender::NotApplicable);
    assert_eq!(Gender::from_string("female").unwrap(), Gender::Female);
    assert!(Gender::from_string("unknown").is_err());
}

#[test]
fn age_groups_are_split_and_trimmed() {
    let groups = AgeGroup::from_string("Senior - 19-29 ");
    assert_eq!(groups.groups_name(), &vec![String::from("Senior"), String::from("19-29")]);
}

#[test]
fn lines_report_each_skipped_row_with_its_error() {
    let rows = vec![
        raw("1", "John Doe", "Male", "1", "Overall", ""),
        raw("2,3", "Only One", "Male", "1", "Overall", ""),
        raw("4", "Jane Roe", "Female", "last", "Overall", ""),
    ];
    let (results, skipped) = read_raw_results_lines(&rows);
    assert_eq!(results.len(), 1);
    assert_eq!(skipped.len(), 2);
    assert_eq!(skipped[0].0, 1);
    assert!(matches!(skipped[0].1, RowError::SchemaMismatch(_)));
    assert_eq!(skipped[1].0, 2);
    match &skipped[1].1 {
        RowError::Validation(e) => assert_eq!(e.value, "last"),
        other => panic!("unexpected {:?}", other),
    }
}

#[test]
fn teams_hold_their_members() {
    let members = vec![
        Competitor::UnknownIndividualCompetitor(UnknownIndividualCompetitor::new(12)),
        Competitor::UnknownIndividualCompetitor(UnknownIndividualCompetitor::new(13)),
    ];
    let team = Team::new(String::from("Relay A"), members);
    assert_eq!(team.name(), "Relay A");
    assert_eq!(team.members().len(), 2);
    assert_eq!(
        team.members()[1],
        Competitor::UnknownIndividualCompetitor(UnknownIndividualCompetitor::new(13))
    );
}
