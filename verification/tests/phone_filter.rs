use contact_scraper::candidates::CandidateSet;
use contact_scraper::filter::{
    has_char, is_plausible_phone, AcceptedPhoneSet, MAX_PHONE_LENGTH, MIN_PHONE_LENGTH,
};

fn strings(items: &[&str]) -> Vec<String> {
    items.iter().map(|s| s.to_string()).collect()
}

fn accepted(items: &[&str]) -> Vec<String> {
    let candidates = CandidateSet::from_matches(&strings(items));
    AcceptedPhoneSet::from_candidates(&candidates).items().clone()
}

#[test]
fn filter_rejects_a_candidate_with_a_dot() {
    assert!(!is_plausible_phone("123.456.7890"));
    assert!(!is_plausible_phone("555-123-4567."));
    assert!(!is_plausible_phone(".5551234567"));
    assert!(!is_plausible_phone("3.14159265358979"));
}

#[test]
fn filter_rejects_a_date() {
    assert!(!is_plausible_phone("15-06-1990"));
    assert!(!is_plausible_phone("12-05-2023"));
    assert!(!is_plausible_phone("+15-06-1990"));
}

#[test]
fn filter_accepts_what_only_looks_like_a_date() {
    // Ten characters, no dot, and 99 is neither a day nor a month.
    assert!(is_plausible_phone("99-99-9999"));
    assert!(is_plausible_phone("15-13-1990"));
    assert!(is_plausible_phone("15-06-2101"));
}

#[test]
fn filter_rules_are_joined_by_and() {
    // No date, but too short.
    assert!(!is_plausible_phone("99-99-999"));
    // Long enough and no date, but a dot.
    assert!(!is_plausible_phone("99-99.9999"));
    // No dot and long enough, but a date.
    assert!(!is_plausible_phone("01-01-2000"));
}

#[test]
fn filter_length_bounds_are_inclusive() {
    assert_eq!(MIN_PHONE_LENGTH, 10);
    assert_eq!(MAX_PHONE_LENGTH, 16);
    assert!(!is_plausible_phone("123456789"));
    assert!(is_plausible_phone("1234567890"));
    assert!(is_plausible_phone("1234567890123456"));
    assert!(!is_plausible_phone("12345678901234567"));
    assert!(!is_plausible_phone(""));
}

#[test]
fn filter_counts_separators() {
    assert!(!is_plausible_phone("555 1234"));
    assert!(is_plausible_phone("55 5123 4 5"));
    assert!(is_plausible_phone("555-123-4567"));
    assert!(is_plausible_phone("+1 555 123 4567"));
    assert!(is_plausible_phone("+1 555-123-45678"));
    assert!(!is_plausible_phone("+12 555-123-45678"));
}

#[test]
fn filter_counts_characters() {
    // Ten digits of another script: ten characters, thirty bytes.
    assert!(is_plausible_phone("١٢٣٤٥٦٧٨٩٠"));
    assert!(!is_plausible_phone("١٢٣٤٥٦٧٨٩"));
}

#[test]
fn has_char_finds_a_character() {
    let chars: Vec<char> = "555.123".chars().collect();
    assert!(has_char(&chars, '.'));
    assert!(has_char(&chars, '5'));
    assert!(!has_char(&chars, '-'));
    assert!(!has_char(&Vec::new(), '.'));
}

#[test]
fn accepted_set_keeps_the_plausible_candidates() {
    assert_eq!(
        accepted(&["555-123-4567", "12-05-2023", "123.456.7890", "12345", "+1 555 123 4567"]),
        strings(&["+1 555 123 4567", "555-123-4567"])
    );
}

#[test]
fn accepted_set_of_nothing_is_empty() {
    assert!(accepted(&[]).is_empty());
    let set = AcceptedPhoneSet::new();
    assert!(set.is_empty());
    assert_eq!(set.len(), 0);
    let candidates = CandidateSet::from_matches(&strings(&["1", "2.5"]));
    let none = AcceptedPhoneSet::from_candidates(&candidates);
    assert!(none.is_empty());
    assert_eq!(none.len(), 0);
}

#[test]
fn accepted_set_agrees_with_the_test_on_each_member() {
    let candidates = strings(&[
        "555-123-4567", "15-06-1990", "99-99-9999", "1234567890", "123456789", "1.2.3.4.5.6.7",
        "12345678901234567", "1234567890123456", "+44 20 7946 0958",
    ]);
    let mut expected: Vec<String> =
        candidates.iter().filter(|c| is_plausible_phone(c)).cloned().collect();
    expected.sort();
    let set = AcceptedPhoneSet::from_candidates(&CandidateSet::from_matches(&candidates));
    assert_eq!(set.items(), &expected);
    assert_eq!(set.len(), expected.len());
}
