use contact_scraper::normalize::{digits_in, normalize_phone, LINK_DIGITS};

#[test]
fn normalization_keeps_the_last_ten_digits() {
    assert_eq!(normalize_phone("+1 (555) 123-4567"), Some("5551234567".to_string()));
    assert_eq!(normalize_phone("0044 20 7946 0958"), Some("2079460958".to_string()));
    assert_eq!(normalize_phone("12345678901"), Some("2345678901".to_string()));
}

#[test]
fn normalization_keeps_exactly_ten_digits_as_they_are() {
    assert_eq!(LINK_DIGITS, 10);
    assert_eq!(normalize_phone("555-123-4567"), Some("5551234567".to_string()));
    assert_eq!(normalize_phone("1234567890"), Some("1234567890".to_string()));
}

#[test]
fn normalization_keeps_fewer_digits_all() {
    assert_eq!(normalize_phone("12345"), Some("12345".to_string()));
    assert_eq!(normalize_phone("1-2 3"), Some("123".to_string()));
    assert_eq!(normalize_phone("x7"), Some("7".to_string()));
    assert_eq!(normalize_phone("123456789"), Some("123456789".to_string()));
}

#[test]
fn normalization_fails_without_a_digit() {
    assert_eq!(normalize_phone(""), None);
    assert_eq!(normalize_phone("no digits at all"), None);
    assert_eq!(normalize_phone("+-() "), None);
}

#[test]
fn normalization_takes_ascii_digits_only() {
    assert_eq!(normalize_phone("١٢٣٤٥٦٧٨٩٠"), None);
    assert_eq!(normalize_phone("١٢٣ 45"), Some("45".to_string()));
}

#[test]
fn digits_in_drops_everything_else() {
    let chars: Vec<char> = "+1 (555) 123-4567 ext. x".chars().collect();
    let digits: String = digits_in(&chars).into_iter().collect();
    assert_eq!(digits, "15551234567");
    assert!(digits_in(&Vec::new()).is_empty());
}

#[test]
fn normalization_agrees_with_filter_and_suffix() {
    for s in ["+1 (555) 123-4567", "12345", "", "a1b2c3d4e5f6g7h8i9j0k1l2", "0000000000000", "9"] {
        let digits: Vec<char> = s.chars().filter(|c| c.is_digit(10)).collect();
        let kept: String = digits[digits.len().saturating_sub(10)..].iter().collect();
        let expected = if kept.is_empty() { None } else { Some(kept) };
        assert_eq!(normalize_phone(s), expected, "{:?}", s);
    }
}
