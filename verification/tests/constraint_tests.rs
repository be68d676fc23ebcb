use routematch::constraint::Constraint;

fn matches(pattern: &str, value: &str) -> bool {
    Constraint::parse(pattern).unwrap().is_match(value)
}

#[test]
fn digit_class_matches_only_digits() {
    assert!(matches(r"\d+", "42"));
    assert!(!matches(r"\d+", "4a"));
    assert!(!matches(r"\d+", ""));
}

#[test]
fn literal_chars_must_match_exactly() {
    assert!(matches("abc", "abc"));
    assert!(!matches("abc", "abcd"));
    assert!(!matches("abc", "ab"));
}

#[test]
fn word_class_matches_letters_digits_and_underscore() {
    assert!(matches(r"\w+", "user_42"));
    assert!(!matches(r"\w+", "user-42"));
}

#[test]
fn char_class_with_range_matches() {
    assert!(matches("[a-f0-9]+", "cafe0"));
    assert!(!matches("[a-f0-9]+", "cafeg"));
}

#[test]
fn negated_char_class_excludes_members() {
    assert!(matches("[^0-9]+", "abc"));
    assert!(!matches("[^0-9]+", "ab3"));
}

#[test]
fn optional_quantifier_allows_zero_or_one() {
    assert!(matches(r"colou?r", "color"));
    assert!(matches(r"colou?r", "colour"));
    assert!(!matches(r"colou?r", "colouur"));
}

#[test]
fn backtracks_when_greedy_run_overshoots() {
    // ".*" would happily eat the whole string, but has to give back
    // the trailing "ab" for the rest of the pattern to match.
    assert!(matches(".*ab", "xxxab"));
    assert!(!matches(".*ab", "xxxa"));
}

#[test]
fn rejects_dangling_escape() {
    assert!(Constraint::parse("abc\\").is_err());
}

#[test]
fn rejects_unterminated_char_class() {
    assert!(Constraint::parse("[a-z").is_err());
}

#[test]
fn rejects_empty_char_class() {
    assert!(Constraint::parse("[]").is_err());
}

#[test]
fn rejects_groups_and_alternation() {
    assert!(Constraint::parse("(abc)").is_err());
    assert!(Constraint::parse("a|b").is_err());
}

#[test]
fn rejects_empty_pattern() {
    assert!(Constraint::parse("").is_err());
}
