use routematch::matching::explain_mismatch;
use routematch::overlap::patterns_overlap;
use routematch::router::{parse_pattern, split_path, Segment};

#[test]
fn parses_static_and_param_segments() {
    let segments = parse_pattern("/users/:id/posts").unwrap();
    assert_eq!(
        segments,
        vec![
            Segment::Static("users".to_string()),
            Segment::Param("id".to_string()),
            Segment::Static("posts".to_string()),
        ]
    );
}

#[test]
fn rejects_wildcard_not_in_last_position() {
    let err = parse_pattern("/files/*rest/extra").unwrap_err();
    assert!(err.message.contains("must be last"));
}

#[test]
fn rejects_empty_segment() {
    let err = parse_pattern("/users//id").unwrap_err();
    assert!(err.message.contains("empty segment"));
}

#[test]
fn matches_static_route() {
    let result = routematch::matching::matches("/health", "/health").unwrap();
    assert_eq!(result, Some(Vec::new()));
}

#[test]
fn matches_param_and_captures_value() {
    let result = routematch::matching::matches("/users/:id", "/users/42").unwrap();
    assert_eq!(result, Some(vec![("id".to_string(), "42".to_string())]));
}

#[test]
fn rejects_mismatched_static_segment() {
    let result = routematch::matching::matches("/users/:id", "/accounts/42").unwrap();
    assert_eq!(result, None);
}

#[test]
fn rejects_wrong_segment_count() {
    let result = routematch::matching::matches("/users/:id", "/users/42/posts").unwrap();
    assert_eq!(result, None);
}

#[test]
fn wildcard_captures_remaining_path() {
    let result = routematch::matching::matches("/files/*rest", "/files/2026/08/report.pdf").unwrap();
    assert_eq!(
        result,
        Some(vec![("rest".to_string(), "2026/08/report.pdf".to_string())])
    );
}

#[test]
fn wildcard_requires_at_least_one_segment() {
    let result = routematch::matching::matches("/files/*rest", "/files").unwrap();
    assert_eq!(result, None);
}

#[test]
fn root_pattern_matches_root_path_only() {
    assert_eq!(routematch::matching::matches("/", "/").unwrap(), Some(Vec::new()));
    assert_eq!(routematch::matching::matches("/", "/anything").unwrap(), None);
}

#[test]
fn optional_trailing_param_may_be_absent() {
    let result = routematch::matching::matches("/users/:id/:format?", "/users/42").unwrap();
    assert_eq!(result, Some(vec![("id".to_string(), "42".to_string())]));
}

#[test]
fn optional_trailing_param_captures_when_present() {
    let result = routematch::matching::matches("/users/:id/:format?", "/users/42/json").unwrap();
    assert_eq!(
        result,
        Some(vec![
            ("id".to_string(), "42".to_string()),
            ("format".to_string(), "json".to_string()),
        ])
    );
}

#[test]
fn optional_trailing_static_must_match_when_present() {
    assert_eq!(
        routematch::matching::matches("/report/json?", "/report/json").unwrap(),
        Some(Vec::new())
    );
    assert_eq!(routematch::matching::matches("/report/json?", "/report").unwrap(), Some(Vec::new()));
    assert_eq!(routematch::matching::matches("/report/json?", "/report/xml").unwrap(), None);
}

#[test]
fn later_optional_segment_cannot_match_without_earlier_one() {
    // Path only has one component left, so it satisfies ":a?" and
    // there's nothing left for ":b?" — it is skipped, not matched
    // out of order.
    let result = routematch::matching::matches("/x/:a?/:b?", "/x/one").unwrap();
    assert_eq!(result, Some(vec![("a".to_string(), "one".to_string())]));
}

#[test]
fn too_many_path_segments_after_optional_run_does_not_match() {
    let result = routematch::matching::matches("/x/:a?", "/x/one/two").unwrap();
    assert_eq!(result, None);
}

#[test]
fn rejects_optional_segment_before_required_segment() {
    let err = parse_pattern("/users/:id?/posts").unwrap_err();
    assert!(err.message.contains("must be at the end"));
}

#[test]
fn rejects_optional_wildcard() {
    let err = parse_pattern("/files/*rest?").unwrap_err();
    assert!(err.message.contains("cannot be optional"));
}

#[test]
fn constrained_param_matches_only_conforming_values() {
    let result = routematch::matching::matches(r"/users/:id(\d+)", "/users/42").unwrap();
    assert_eq!(result, Some(vec![("id".to_string(), "42".to_string())]));
    assert_eq!(routematch::matching::matches(r"/users/:id(\d+)", "/users/abc").unwrap(), None);
}

#[test]
fn optional_constrained_param_may_be_absent_or_conform() {
    assert_eq!(
        routematch::matching::matches(r"/users/:id(\d+)?", "/users").unwrap(),
        Some(Vec::new())
    );
    assert_eq!(
        routematch::matching::matches(r"/users/:id(\d+)?", "/users/42").unwrap(),
        Some(vec![("id".to_string(), "42".to_string())])
    );
    assert_eq!(routematch::matching::matches(r"/users/:id(\d+)?", "/users/abc").unwrap(), None);
}

#[test]
fn rejects_unterminated_constraint() {
    let err = parse_pattern(r"/users/:id(\d+").unwrap_err();
    assert!(err.message.contains("unterminated constraint"));
}

#[test]
fn rejects_invalid_constraint_body() {
    let err = parse_pattern(r"/users/:id()").unwrap_err();
    assert!(err.message.contains("constraint pattern is empty"));
}

fn overlap(a: &str, b: &str) -> bool {
    patterns_overlap(&parse_pattern(a).unwrap(), &parse_pattern(b).unwrap())
}

#[test]
fn constrained_param_overlaps_with_unconstrained_param() {
    // The overlap check doesn't run the constraint matcher, so it
    // conservatively treats this as an overlap even though "abc"
    // would never satisfy `\d+`.
    assert!(overlap(r"/users/:id(\d+)", "/users/:name"));
}

#[test]
fn identical_patterns_overlap() {
    assert!(overlap("/users/:id", "/users/:id"));
}

#[test]
fn param_overlaps_static_at_same_position() {
    // Both match "/users/42".
    assert!(overlap("/users/:id", "/users/42"));
}

#[test]
fn different_statics_at_same_position_do_not_overlap() {
    assert!(!overlap("/users/:id", "/accounts/:id"));
}

#[test]
fn different_lengths_do_not_overlap() {
    assert!(!overlap("/users/:id", "/users/:id/posts"));
}

#[test]
fn wildcard_overlaps_longer_static_path() {
    // "/assets/logo.png" matches both.
    assert!(overlap("/assets/*path", "/assets/logo.png"));
}

#[test]
fn wildcard_does_not_overlap_shorter_path() {
    // The wildcard needs at least one component past "/assets".
    assert!(!overlap("/assets/*path", "/assets"));
}

#[test]
fn two_wildcards_on_different_prefixes_do_not_overlap() {
    assert!(!overlap("/assets/*path", "/uploads/*path"));
}

#[test]
fn optional_trailing_segment_overlaps_shorter_required_route() {
    // "/report/42" matches both.
    assert!(overlap("/report/:id", "/report/:id/:format?"));
}

#[test]
fn optional_static_mismatch_does_not_block_shorter_overlap() {
    // Both match "/report/42"; only the optional tail differs.
    assert!(overlap("/report/:id", "/report/:id/json?"));
}

fn explain(pattern: &str, path: &str) -> String {
    let segments = parse_pattern(pattern).unwrap();
    explain_mismatch(&segments, &split_path(path))
}

#[test]
fn explains_static_segment_mismatch() {
    assert_eq!(
        explain("/users/:id", "/accounts/42"),
        "segment 1 is 'accounts', expected literal 'users'"
    );
}

#[test]
fn explains_too_few_path_segments() {
    assert_eq!(
        explain("/users/:id/posts", "/users/42"),
        "path has only 2 segment(s), but the pattern requires at least 3"
    );
}

#[test]
fn explains_too_many_path_segments() {
    assert_eq!(
        explain("/users/:id", "/users/42/posts"),
        "path has 1 extra segment(s) beyond what the pattern accounts for"
    );
}

#[test]
fn explains_constraint_failure() {
    assert_eq!(
        explain(r"/users/:id(\d+)", "/users/abc"),
        r"segment 2 ('abc') does not satisfy the constraint on ':id' (\d+)"
    );
}

#[test]
fn explains_wildcard_needing_a_segment() {
    assert_eq!(
        explain("/files/*rest", "/files"),
        "wildcard ':rest' needs at least one path segment after position 1, but the path ends there"
    );
}

#[test]
fn explains_optional_static_mismatch() {
    assert_eq!(
        explain("/report/json?", "/report/xml"),
        "segment 2 is 'xml', expected optional literal 'json'"
    );
}

#[test]
fn explains_optional_constraint_failure() {
    assert_eq!(
        explain(r"/users/:id(\d+)?", "/users/abc"),
        r"segment 2 ('abc') does not satisfy the constraint on ':id' (\d+)"
    );
}
