use uda_stats::best::{get_best_results, SelectionError};
use uda_stats::competition::{Competition, CompetitionResult, Convention};
use uda_stats::person::{create_people, Date, Registrant};
use uda_stats::raw_result::{get_results_from_raw_results_lines, RawResult};
use uda_stats::registration::{compute_registrations, Registration};
use uda_stats::result_value::ResultValue;
use uda_stats::vocabulary::{AgeGroup, Place, ResultType};

fn result(id: u16, competition: &str, value: &str) -> CompetitionResult {
    CompetitionResult::new(
        id,
        Competition::new(competition),
        Place::from_string("1").unwrap(),
        ResultType::from_string("Overall").unwrap(),
        Some(ResultValue::from_string(value)),
        None,
        Some(AgeGroup::from_string("Senior")),
    )
}

fn row(id: &str, name: &str, result: &str) -> RawResult {
    RawResult::new(
        String::from(id),
        String::from(name),
        String::from("Male"),
        30,
        String::from("100m"),
        String::from("1"),
        String::from("Overall"),
        String::from(result),
        String::new(),
        String::new(),
    )
}

#[test]
fn should_get_best_result() {
    let result1 = CompetitionResult::new(
        1,
        Competition::new("Competition"),
        Place::from_string("1").unwrap(),
        ResultType::from_string("Overall").unwrap(),
        Some(ResultValue::from_string("00:14.99")),
        None,
        Some(AgeGroup::from_string("Senior")),
    );
    let result2 = CompetitionResult::new(
        2,
        Competition::new("Competition"),
        Place::from_string("2").unwrap(),
        ResultType::from_string("Overall").unwrap(),
        Some(ResultValue::from_string("00:18.00")),
        None,
        Some(AgeGroup::from_string("Senior")),
    );
    let results = vec![result1, result2.clone()];

    let higher_is_better_for_competition = vec![(Competition::new("Competition"), true)];

    let best_results = get_best_results(&results, &higher_is_better_for_competition);
    println!("{:?}", best_results.best);

    let best_result = &best_results.best[0].1;
    assert_eq!(best_result, &result2);
}

#[test]
fn lower_is_better_picks_the_faster_time() {
    let results = vec![result(1, "100m", "00:14.99"), result(2, "100m", "00:18.00")];
    let policy = vec![(Competition::new("100m"), false)];
    let best = get_best_results(&results, &policy);
    assert_eq!(best.best.len(), 1);
    assert_eq!(best.best[0].0, Competition::new("100m"));
    assert_eq!(best.best[0].1.id(), 1);
    assert!(best.errors.is_empty());
}

#[test]
fn ties_keep_the_first_result() {
    let results = vec![result(1, "100m", "00:14.99"), result(2, "100m", "00:14.990")];
    let policy = vec![(Competition::new("100m"), false)];
    assert_eq!(get_best_results(&results, &policy).best[0].1.id(), 1);
}

#[test]
fn competitions_without_policy_get_no_best_and_are_reported() {
    let results = vec![result(1, "High jump", "150 cm"), result(2, "100m", "00:14.99")];
    let policy = vec![(Competition::new("100m"), false)];
    let best = get_best_results(&results, &policy);
    assert_eq!(best.best.len(), 1);
    assert_eq!(best.best[0].0, Competition::new("100m"));
    assert_eq!(best.errors, vec![SelectionError::Lookup(Competition::new("High jump"))]);
}

#[test]
fn incomparable_candidates_are_skipped_and_reported() {
    let results = vec![result(1, "Freestyle", "12.5 pts"), result(2, "Freestyle", "lap 3"), result(3, "Freestyle", "14.0 pts")];
    let policy = vec![(Competition::new("Freestyle"), true)];
    let best = get_best_results(&results, &policy);
    assert_eq!(best.best[0].1.id(), 3);
    assert_eq!(best.errors.len(), 1);
    assert!(matches!(best.errors[0], SelectionError::Comparison(_)));
}

#[test]
fn registrations_group_by_competitor_then_competition() {
    let convention = Convention::new(String::from("cfm2023"), String::from("CFM 2023"));
    let results = vec![
        result(5, "100m", "00:14.99"),
        result(6, "100m", "00:15.50"),
        result(5, "High jump", "150 cm"),
        result(5, "100m", "00:14.50"),
    ];
    let registrations: Vec<Registration> = compute_registrations(&convention, &results);
    assert_eq!(registrations.len(), 2);
    assert_eq!(registrations[0].id(), 5);
    assert_eq!(registrations[1].id(), 6);
    let groups = registrations[0].results();
    assert_eq!(groups.len(), 2);
    assert_eq!(groups[0].0, Competition::new("100m"));
    assert_eq!(groups[0].1.len(), 2);
    assert_eq!(groups[0].1[1].result(), &Some(ResultValue::Time(14_500)));
    assert_eq!(groups[1].0, Competition::new("High jump"));
    assert_eq!(registrations[1].convention(), &convention);
}

#[test]
fn end_to_end_merges_one_person_across_conventions() {
    let a = Convention::new(String::from("a"), String::from("Convention A"));
    let b = Convention::new(String::from("b"), String::from("Convention B"));
    let birthday = Date::from_day_month_year("24/12/1990").unwrap();
    let registrants = vec![
        (a.clone(), vec![Registrant::new(5, String::from("John"), String::from("Doe"), String::from("FR"), birthday)]),
        (b.clone(), vec![Registrant::new(9, String::from("John"), String::from("Doe"), String::from("FR"), birthday)]),
    ];
    let results = vec![
        (a.clone(), get_results_from_raw_results_lines(&vec![row("5", "John Doe", "00:14.99")])),
        (b.clone(), get_results_from_raw_results_lines(&vec![row("9", "John Doe", "00:13.00")])),
    ];
    let people = create_people(&registrants, &results);
    assert_eq!(people.len(), 1);
    let person = &people[0];
    assert_eq!(person.registrations_id(), &vec![(a.clone(), vec![5]), (b.clone(), vec![9])]);
    let per_convention = person.results();
    assert_eq!(per_convention.len(), 2);
    assert_eq!(per_convention[0].0, a);
    assert_eq!(per_convention[0].1.len(), 1);
    assert_eq!(per_convention[0].1[0].id(), 5);
    assert_eq!(per_convention[1].0, b);
    assert_eq!(per_convention[1].1.len(), 1);
    assert_eq!(per_convention[1].1[0].id(), 9);
}

#[test]
fn different_birthdays_are_different_people() {
    let a = Convention::new(String::from("a"), String::from("Convention A"));
    let registrants = vec![(
        a.clone(),
        vec![
            Registrant::new(1, String::from("John"), String::from("Doe"), String::new(), Date { year: 1990, month: 1, day: 1 }),
            Registrant::new(2, String::from("Doe"), String::from("Jöhn"), String::new(), Date { year: 1990, month: 1, day: 1 }),
            Registrant::new(3, String::from("John"), String::from("Doe"), String::new(), Date { year: 1991, month: 1, day: 1 }),
        ],
    )];
    let people = create_people(&registrants, &vec![]);
    assert_eq!(people.len(), 2);
    assert_eq!(people[0].registrations_id(), &vec![(a.clone(), vec![1, 2])]);
    assert_eq!(people[1].registrations_id(), &vec![(a.clone(), vec![3])]);
    assert!(people[0].results().is_empty());
}

#[test]
fn birthdays_parse_day_month_year() {
    assert_eq!(Date::from_day_month_year("24/12/1990"), Some(Date { year: 1990, month: 12, day: 24 }));
    assert_eq!(Date::from_day_month_year("31/02/1990"), None);
    assert_eq!(Date::from_day_month_year("1990-12-24"), None);
}
