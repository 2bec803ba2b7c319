use contact_scraper::extract::{DEFAULT_PHONE_REGEX, STANDARD_EMAIL_REGEX};
use contact_scraper::link::message_links;
use contact_scraper::scan::{scan_page, ScanConfig, DEFAULT_MESSAGE};

const PAGE: &str = "Contact: jane.doe@example.com or call 555-123-4567 on 12-05-2023.";

#[test]
fn config_takes_what_is_given() {
    let config = ScanConfig::new(r"\d{3}-\d{3}-\d{4}", "Hello there");
    assert_eq!(config.phone_pattern, r"\d{3}-\d{3}-\d{4}");
    assert_eq!(config.message, "Hello there");
}

#[test]
fn config_falls_back_to_the_defaults() {
    let config = ScanConfig::new("", "");
    assert_eq!(config.phone_pattern, DEFAULT_PHONE_REGEX);
    assert_eq!(config.message, DEFAULT_MESSAGE);
    assert_eq!(config.message, "Hi, Batscram needs your help");
    let mixed = ScanConfig::new("", "Hello");
    assert_eq!(mixed.phone_pattern, DEFAULT_PHONE_REGEX);
    assert_eq!(mixed.message, "Hello");
}

#[test]
fn scan_finds_address_and_number_and_drops_the_date() {
    let contacts = scan_page(PAGE, &ScanConfig::new("", ""));
    assert_eq!(contacts.emails.items(), &vec!["jane.doe@example.com".to_string()]);
    assert_eq!(contacts.phones.items(), &vec!["555-123-4567".to_string()]);
    assert!(contacts.phone_error.is_none());
    assert!(contacts.email_error.is_none());
}

#[test]
fn scan_then_links() {
    let config = ScanConfig::new("", "Hello there");
    let contacts = scan_page(PAGE, &config);
    let outcomes = message_links(&contacts.phones, &config.message);
    assert_eq!(outcomes.len(), 1);
    let link = outcomes[0].clone().unwrap();
    assert_eq!(link.phone, "5551234567");
    assert_eq!(link.url, "https://wa.me/5551234567?text=Hello+there");
}

#[test]
fn scan_with_the_default_message() {
    let config = ScanConfig::new("", "");
    let contacts = scan_page(PAGE, &config);
    let outcomes = message_links(&contacts.phones, &config.message);
    assert_eq!(
        outcomes[0].clone().unwrap().url,
        "https://wa.me/5551234567?text=Hi%2C+Batscram+needs+your+help"
    );
}

#[test]
fn scan_of_an_empty_page_finds_nothing() {
    let contacts = scan_page("", &ScanConfig::new("", ""));
    assert!(contacts.phones.is_empty());
    assert!(contacts.emails.is_empty());
    assert!(contacts.phone_error.is_none());
    assert!(contacts.email_error.is_none());
}

#[test]
fn scan_goes_on_after_a_refused_pattern() {
    let contacts = scan_page(PAGE, &ScanConfig::new(r"[0-9", "Hello"));
    assert!(contacts.phones.is_empty());
    let error = contacts.phone_error.unwrap();
    assert_eq!(error.pattern, r"[0-9");
    assert_eq!(error.complaint, regex::Regex::new(r"[0-9").unwrap_err().to_string());
    assert_eq!(contacts.emails.items(), &vec!["jane.doe@example.com".to_string()]);
    assert!(contacts.email_error.is_none());
}

#[test]
fn scan_with_a_pattern_of_the_caller() {
    let page = "a 555-123-4567 b 555-123-4567 c 5551239999 d 55-12";
    let contacts = scan_page(page, &ScanConfig::new(r"\d[\d-]*\d", ""));
    assert_eq!(
        contacts.phones.items(),
        &vec!["555-123-4567".to_string(), "5551239999".to_string()]
    );
}

#[test]
fn scan_lists_each_kind_once_and_in_order() {
    let page = "z@z.zz, 555-123-4567; a@a.aa, +1 555 123 4567; z@z.zz; 555-123-4567; pi is \
                3.14159; born on 15-06-1990.";
    let contacts = scan_page(page, &ScanConfig::new("", ""));
    assert_eq!(contacts.emails.items(), &vec!["a@a.aa".to_string(), "z@z.zz".to_string()]);
    assert_eq!(
        contacts.phones.items(),
        &vec!["+1 555 123 4567".to_string(), "555-123-4567".to_string()]
    );
    assert_eq!(contacts.emails.len(), 2);
    assert_eq!(contacts.phones.len(), 2);
}

#[test]
fn email_pattern_is_fixed() {
    assert_eq!(STANDARD_EMAIL_REGEX, r"[a-zA-Z0-9._%+-]+@[a-zA-Z0-9.-]+\.[a-zA-Z]{2,}");
}
