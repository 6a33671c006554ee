use uda_stats::name::{CompetitorName, PersonName};

#[test]
fn competitor_name_should_be_equal_when_same_name() {
    let name = "John Doe";
    assert_eq!(CompetitorName::new(name), CompetitorName::new(name));
}

#[test]
fn competitor_name_should_be_equal_when_same_name_but_more_spaces() {
    assert_eq!(CompetitorName::new("John Doe"), CompetitorName::new("  John    Doe "));
}

#[test]
fn competitor_name_should_be_equal_when_same_name_but_reversed() {
    assert_eq!(CompetitorName::new("John Doe"), CompetitorName::new("Doe John"));
}

#[test]
fn competitor_name_should_be_equal_when_same_name_with_accent() {
    assert_eq!(CompetitorName::new("John Doe"), CompetitorName::new("Jôhn Doé"));
}

#[test]
fn person_name_should_be_equal_when_same_name() {
    let name = "John Doe";
    assert_eq!(PersonName::new(name), PersonName::new(name));
}

#[test]
fn person_name_should_be_equal_when_same_name_but_more_spaces() {
    assert_eq!(PersonName::new("John Doe"), PersonName::new("  John    Doe "));
}

#[test]
fn person_name_should_be_equal_when_same_name_but_reversed() {
    assert_eq!(PersonName::new("John Doe"), PersonName::new("Doe John"));
}

#[test]
fn person_name_should_be_equal_when_same_name_with_accent() {
    assert_eq!(PersonName::new("John Doe"), PersonName::new("Jôhn Doé"));
}

#[test]
fn person_name_keeps_trimmed_display_and_sorted_parts() {
    let name = PersonName::new("  Jôhn   DOE ");
    assert_eq!(name.name(), "Jôhn   DOE");
    assert_eq!(name.name_parts(), &vec![String::from("doe"), String::from("john")]);
}

#[test]
fn person_name_equality_is_symmetric_and_chains_through_forms() {
    let a = PersonName::new("John Doe");
    let b = PersonName::new("Doe John");
    let c = PersonName::new("  Jöhn   Doe ");
    assert!(a == b && b == a);
    assert!(b == c && a == c);
}

#[test]
fn person_name_differs_on_other_words() {
    assert_ne!(PersonName::new("John Doe"), PersonName::new("Jane Doe"));
    assert_ne!(PersonName::new("John Doe"), PersonName::new("John Doe Smith"));
}

#[test]
fn person_name_from_names_joins_with_one_space() {
    let first = String::from(" John ");
    let last = String::from("Doe  ");
    let name = PersonName::from_names(&[&first, &last]);
    assert_eq!(name.name(), "John Doe");
    assert_eq!(name, PersonName::new("Doe John"));
}

#[test]
fn person_name_of_empty_text_has_no_parts() {
    let name = PersonName::new("   ");
    assert_eq!(name.name(), "");
    assert!(name.name_parts().is_empty());
}
