use contact_scraper::date::{is_date, is_date_chars, parse_number, split_chars};

fn chars(s: &str) -> Vec<char> {
    s.chars().collect()
}

fn pieces(s: &str, sep: char) -> Vec<String> {
    split_chars(&chars(s), sep).iter().map(|p| p.iter().collect::<String>()).collect()
}

#[test]
fn day_month_year_is_a_date() {
    assert!(is_date("15-06-1990"));
    assert!(is_date("12-05-2023"));
}

#[test]
fn out_of_range_day_and_month_are_no_date() {
    assert!(!is_date("99-99-9999"));
}

#[test]
fn telephone_number_with_hyphens_is_no_date() {
    // Three numerals, but 123 is no month.
    assert!(!is_date("555-123-4567"));
}

#[test]
fn date_bounds_are_inclusive() {
    assert!(is_date("1-1-1900"));
    assert!(is_date("31-12-2100"));
    assert!(!is_date("0-1-1900"));
    assert!(!is_date("32-1-2000"));
    assert!(!is_date("1-0-2000"));
    assert!(!is_date("1-13-2000"));
    assert!(!is_date("1-1-1899"));
    assert!(!is_date("1-1-2101"));
}

#[test]
fn date_needs_exactly_three_pieces() {
    assert!(!is_date(""));
    assert!(!is_date("15"));
    assert!(!is_date("15-06"));
    assert!(!is_date("15-06-1990-"));
    assert!(!is_date("15-06-1990-1"));
    assert!(!is_date("-15-06-1990"));
    assert!(!is_date("--"));
}

#[test]
fn date_pieces_must_be_numerals() {
    assert!(!is_date("aa-06-1990"));
    assert!(!is_date("15-06-19x0"));
    assert!(!is_date("15 -06-1990"));
    assert!(!is_date("15-06-1990 "));
    assert!(!is_date("15-06.-1990"));
    assert!(!is_date("15--1990"));
}

#[test]
fn date_pieces_may_carry_a_plus_sign_and_leading_zeros() {
    assert!(is_date("+15-+06-+1990"));
    assert!(is_date("015-006-01990"));
    assert!(is_date("0000000000015-6-1990"));
    assert!(!is_date("++15-06-1990"));
    assert!(!is_date("+-06-1990"));
}

#[test]
fn date_piece_too_large_for_a_number_is_no_date() {
    assert!(!is_date("4294967296-06-1990"));
    assert!(!is_date("15-06-99999999999999999999"));
}

#[test]
fn date_agrees_with_split_and_parse_of_std() {
    let samples = [
        "15-06-1990", "99-99-9999", "555-123-4567", "1-1-1900", "31-12-2100", "+1-+2-+2000",
        "1-2", "1-2-3-4", "", "-", "--", "a-b-c", "12-05-2023", "0-0-0", "31-12-1899",
        "٣-06-1990", "15-06-1990x", " 15-06-1990", "0000000000015-6-1990", "+15-06-1990",
        "15-06-+1990", "++15-06-1990", "4294967296-06-1990", "15-06-99999999999999999999",
        "15-6-1990-", "-15-6-1990", "15--1990", "1-1-1900", "31-12-2100", "32-12-2000",
        "31-13-2000", "31-12-2101",
    ];
    for s in samples {
        let parts: Vec<&str> = s.split('-').collect();
        let expected = parts.len() == 3
            && match (parts[0].parse::<u32>(), parts[1].parse::<u32>(), parts[2].parse::<u32>()) {
                (Ok(d), Ok(m), Ok(y)) => {
                    d >= 1 && d <= 31 && m >= 1 && m <= 12 && y >= 1900 && y <= 2100
                }
                _ => false,
            };
        assert_eq!(is_date(s), expected, "{:?}", s);
        assert_eq!(is_date_chars(&chars(s)), expected, "{:?}", s);
    }
}

#[test]
fn split_gives_one_more_piece_than_separators() {
    assert_eq!(pieces("", '-'), vec![""]);
    assert_eq!(pieces("abc", '-'), vec!["abc"]);
    assert_eq!(pieces("a-b", '-'), vec!["a", "b"]);
    assert_eq!(pieces("15-06-1990", '-'), vec!["15", "06", "1990"]);
    assert_eq!(pieces("-", '-'), vec!["", ""]);
    assert_eq!(pieces("--x-", '-'), vec!["", "", "x", ""]);
    assert_eq!(pieces("a.b", '-'), vec!["a.b"]);
    assert_eq!(pieces("a.b", '.'), vec!["a", "b"]);
}

#[test]
fn split_agrees_with_std() {
    for s in ["", "-", "a-", "-a", "a--b", "555-123-4567", "no separator", "é-ü-ß"] {
        let expected: Vec<String> = s.split('-').map(|p| p.to_string()).collect();
        assert_eq!(pieces(s, '-'), expected, "{:?}", s);
    }
}

#[test]
fn parse_number_reads_numerals() {
    assert_eq!(parse_number(&chars("0")), Some(0));
    assert_eq!(parse_number(&chars("7")), Some(7));
    assert_eq!(parse_number(&chars("007")), Some(7));
    assert_eq!(parse_number(&chars("+5")), Some(5));
    assert_eq!(parse_number(&chars("1990")), Some(1990));
    assert_eq!(parse_number(&chars("4294967295")), Some(u32::MAX));
    assert_eq!(parse_number(&chars("0004294967295")), Some(u32::MAX));
}

#[test]
fn parse_number_refuses_what_is_no_numeral() {
    assert_eq!(parse_number(&chars("")), None);
    assert_eq!(parse_number(&chars("+")), None);
    assert_eq!(parse_number(&chars("-5")), None);
    assert_eq!(parse_number(&chars("++5")), None);
    assert_eq!(parse_number(&chars("5+")), None);
    assert_eq!(parse_number(&chars("12a")), None);
    assert_eq!(parse_number(&chars(" 12")), None);
    assert_eq!(parse_number(&chars("1_000")), None);
    assert_eq!(parse_number(&chars("٣")), None);
}

#[test]
fn parse_number_refuses_what_does_not_fit() {
    assert_eq!(parse_number(&chars("4294967296")), None);
    assert_eq!(parse_number(&chars("4294967300")), None);
    assert_eq!(parse_number(&chars("42949672950")), None);
    assert_eq!(parse_number(&chars("99999999999999999999999")), None);
}

#[test]
fn parse_number_agrees_with_std() {
    for s in [
        "", "+", "0", "+0", "12", "0012", "12x", "x12", "4294967295", "4294967296", "-1", "1-",
        "0000000000000000000015", "+0000000004294967295", "42949672950", "+-1", "1+", "١٢",
    ] {
        assert_eq!(parse_number(&chars(s)), s.parse::<u32>().ok(), "{:?}", s);
    }
}
