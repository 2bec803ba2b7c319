use contact_scraper::order::precedes;
use contact_scraper::text::{from_chars, to_chars};

#[test]
fn to_chars_lists_the_characters() {
    assert_eq!(to_chars(""), Vec::<char>::new());
    assert_eq!(to_chars("a-1"), vec!['a', '-', '1']);
    assert_eq!(to_chars("é٣"), vec!['é', '٣']);
}

#[test]
fn from_chars_builds_the_string() {
    assert_eq!(from_chars(&vec![]), "");
    assert_eq!(from_chars(&vec!['5', '5', '5']), "555");
    assert_eq!(from_chars(&vec!['é', 'x']), "éx");
}

#[test]
fn chars_round_trip() {
    for s in ["", "hello", "+1 (555) 123-4567", "naïve ☎ 555"] {
        assert_eq!(from_chars(&to_chars(s)), s);
    }
}

#[test]
fn precedes_is_the_dictionary_order() {
    assert!(precedes("", "a"));
    assert!(!precedes("a", ""));
    assert!(!precedes("", ""));
    assert!(precedes("a", "b"));
    assert!(!precedes("b", "a"));
    assert!(!precedes("a", "a"));
    assert!(precedes("ab", "abc"));
    assert!(!precedes("abc", "ab"));
    assert!(precedes("12-05-2023", "555-123-4567"));
    assert!(precedes("Z", "a"));
    assert!(precedes("+1", "1"));
}

#[test]
fn precedes_agrees_with_the_order_of_strings() {
    let samples = [
        "", "a", "A", "ab", "abc", "b", "0", "10", "2", "+1", "-", "é", "e", "z", "zz", "☎",
        "555-123-4567", "12-05-2023", "\u{10000}", "\u{ffff}", "jane.doe@example.com",
    ];
    for a in samples {
        for b in samples {
            assert_eq!(precedes(a, b), a < b, "{:?} {:?}", a, b);
        }
    }
}
