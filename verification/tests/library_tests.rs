use routematch::constraint::Constraint;
use routematch::matching::{explain_mismatch, match_segments, matching_routes};
use routematch::overlap::{overlapping_pairs, patterns_overlap};
use routematch::render::{
    json_string, render_match, render_matches_json, render_mismatch, render_overlap_warning,
};
use routematch::router::{parse_pattern, split_path, try_parse_pattern, Segment};
use routematch::routes::{parse_routes_file, Route};

fn constraint_error(source: &str) -> String {
    Constraint::parse(source).unwrap_err()
}

fn pattern_error(pattern: &str) -> String {
    parse_pattern(pattern).unwrap_err().message
}

fn captures(pairs: &[(&str, &str)]) -> Vec<(String, String)> {
    pairs
        .iter()
        .map(|(k, v)| (k.to_string(), v.to_string()))
        .collect()
}

// --- constraint parsing: each rejection and its message ---

#[test]
fn constraint_error_messages_name_the_source() {
    assert_eq!(constraint_error(""), "constraint pattern is empty");
    assert_eq!(constraint_error("ab\\"), "dangling escape in constraint 'ab\\'");
    assert_eq!(
        constraint_error("a(b"),
        "unsupported constraint syntax '(' in 'a(b' (groups and alternation aren't supported)"
    );
    assert_eq!(
        constraint_error("\\q"),
        "unsupported escape '\\q' in constraint '\\q'"
    );
    assert_eq!(constraint_error("[ab"), "unterminated '[' in constraint '[ab'");
    assert_eq!(
        constraint_error("[z-a]"),
        "invalid range 'z-a' in constraint '[z-a]'"
    );
    assert_eq!(constraint_error("[^]"), "empty character class in constraint '[^]'");
    assert_eq!(constraint_error("[\\"), "dangling escape in constraint '[\\'");
}

#[test]
fn constraint_keeps_its_source() {
    let c = Constraint::parse("[a-z]+").unwrap();
    assert_eq!(c.source(), "[a-z]+");
}

#[test]
fn escaped_punctuation_is_a_literal() {
    let c = Constraint::parse("\\.x").unwrap();
    assert!(c.is_match(".x"));
    assert!(!c.is_match("ax"));
}

#[test]
fn dash_before_closing_bracket_is_a_member() {
    let c = Constraint::parse("[a-]+").unwrap();
    assert!(c.is_match("a-a"));
    assert!(!c.is_match("b"));
}

#[test]
fn range_dash_at_end_of_text_is_outside_accepted_input() {
    assert!(Constraint::try_parse("[a-").is_none());
    assert!(try_parse_pattern("/x/:id([a-)").is_none());
    assert!(try_parse_pattern("/x/:id([a-])").unwrap().is_ok());
}

#[test]
fn whitespace_classes_use_unicode_whitespace() {
    let ws = Constraint::parse("\\s+").unwrap();
    assert!(ws.is_match(" \t"));
    assert!(ws.is_match("\u{3000}"));
    assert!(!ws.is_match("a"));
    let non_ws = Constraint::parse("\\S+").unwrap();
    assert!(non_ws.is_match("ab"));
    assert!(!non_ws.is_match("a b"));
}

#[test]
fn non_ascii_digit_is_not_a_digit() {
    let c = Constraint::parse("\\d").unwrap();
    assert!(!c.is_match("\u{0663}"));
    assert!(Constraint::parse("\\D").unwrap().is_match("\u{0663}"));
    assert!(!Constraint::parse("\\W").unwrap().is_match("_"));
}

#[test]
fn star_allows_empty_and_plus_does_not() {
    assert!(Constraint::parse("a*").unwrap().is_match(""));
    assert!(!Constraint::parse("a+").unwrap().is_match(""));
    assert!(Constraint::parse("a*b+").unwrap().is_match("aabbb"));
}

#[test]
fn any_char_matches_one_char() {
    let c = Constraint::parse("a.c").unwrap();
    assert!(c.is_match("abc"));
    assert!(c.is_match("a/c"));
    assert!(!c.is_match("ac"));
}

// --- pattern parsing: each rejection and its message ---

#[test]
fn pattern_error_messages() {
    assert_eq!(pattern_error("/users//id"), "empty segment in pattern '/users//id'");
    assert_eq!(pattern_error("/users/"), "empty segment in pattern '/users/'");
    assert_eq!(pattern_error("/a/?"), "empty segment in pattern '/a/?'");
    assert_eq!(pattern_error("/a/:"), "param segment missing a name in '/a/:'");
    assert_eq!(pattern_error("/a/:(x)"), "param segment missing a name in '/a/:(x)'");
    assert_eq!(
        pattern_error("/a/:id(x"),
        "unterminated constraint in ':id(x' in pattern '/a/:id(x'"
    );
    assert_eq!(
        pattern_error("/a/:id([)"),
        "in constraint for ':id' in pattern '/a/:id([)': unterminated '[' in constraint '['"
    );
    assert_eq!(pattern_error("/a/*"), "wildcard segment missing a name in '/a/*'");
    assert_eq!(
        pattern_error("/a/*r?"),
        "wildcard segment cannot be optional in '/a/*r?'"
    );
    assert_eq!(pattern_error("/*r/b"), "wildcard segment must be last in '/*r/b'");
    assert_eq!(
        pattern_error("/a?/b"),
        "optional segments must be at the end of pattern '/a?/b'"
    );
}

#[test]
fn pattern_is_trimmed_and_leading_slash_is_optional() {
    let segments = parse_pattern("  users/:id \t").unwrap();
    assert_eq!(
        segments,
        vec![
            Segment::Static("users".to_string()),
            Segment::Param("id".to_string())
        ]
    );
    assert_eq!(parse_pattern("   ").unwrap(), Vec::new());
}

#[test]
fn constrained_and_optional_segments_parse() {
    let segments = parse_pattern(r"/a/:id(\d+)/json?").unwrap();
    assert_eq!(segments.len(), 3);
    match &segments[1] {
        Segment::ConstrainedParam(name, c) => {
            assert_eq!(name, "id");
            assert_eq!(c.source(), r"\d+");
        }
        other => panic!("unexpected segment {:?}", other),
    }
    assert_eq!(segments[2], Segment::OptionalStatic("json".to_string()));
}

// --- paths ---

#[test]
fn split_path_components() {
    assert_eq!(split_path("/"), Vec::<&str>::new());
    assert_eq!(split_path(""), Vec::<&str>::new());
    assert_eq!(split_path(" /a/b "), vec!["a", "b"]);
    assert_eq!(split_path("a//b/"), vec!["a", "", "b", ""]);
    assert_eq!(split_path("/a/b").join("/"), "a/b");
}

// --- matching ---

#[test]
fn match_segments_on_parsed_pattern() {
    let segments = parse_pattern("/users/:id/posts/:post").unwrap();
    let path = split_path("/users/7/posts/9");
    assert_eq!(
        match_segments(&segments, &path),
        Some(captures(&[("id", "7"), ("post", "9")]))
    );
    assert_eq!(match_segments(&segments, &split_path("/users/7/posts")), None);
}

#[test]
fn wildcard_keeps_empty_components() {
    assert_eq!(
        routematch::matching::matches("/f/*rest", "/f/a//b").unwrap(),
        Some(captures(&[("rest", "a//b")]))
    );
}

#[test]
fn matches_reports_pattern_errors() {
    let err = routematch::matching::matches("/a//b", "/a/b").unwrap_err();
    assert_eq!(err.message, "empty segment in pattern '/a//b'");
}

// --- explanations ---

#[test]
fn explanation_reads_pattern_matches_exactly_when_matching() {
    let cases = [
        ("/users/:id", "/users/42"),
        ("/users/:id", "/users"),
        ("/files/*rest", "/files/a/b"),
        ("/files/*rest", "/files"),
        ("/x/:a?/:b?", "/x/one"),
        ("/x/:a?", "/x/one/two"),
        (r"/u/:id(\d+)?", "/u/x"),
        ("/", "/"),
        ("/", "/a"),
    ];
    for (pattern, path) in cases {
        let segments = parse_pattern(pattern).unwrap();
        let components = split_path(path);
        let matched = match_segments(&segments, &components).is_some();
        let explanation = explain_mismatch(&segments, &components);
        assert_eq!(matched, explanation == "pattern matches", "{} {}", pattern, path);
    }
}

#[test]
fn explanation_counts_in_decimal() {
    let pattern: String = (0..12).map(|i| format!("/s{}", i)).collect();
    let segments = parse_pattern(&pattern).unwrap();
    assert_eq!(
        explain_mismatch(&segments, &split_path("/s0")),
        "path has only 1 segment(s), but the pattern requires at least 12"
    );
    let long: String = (0..13).map(|i| format!("/s{}", i)).collect();
    assert_eq!(
        explain_mismatch(&segments, &split_path(&long)),
        "path has 1 extra segment(s) beyond what the pattern accounts for"
    );
}

// --- overlap ---

#[test]
fn overlap_is_symmetric_and_reflexive() {
    let patterns = [
        "/users/:id",
        "/users/active",
        "/assets/*path",
        "/assets",
        "/report/:id/json?",
        "/report/:id/xml?",
        "/",
    ];
    for a in patterns {
        let sa = parse_pattern(a).unwrap();
        assert!(patterns_overlap(&sa, &sa));
        for b in patterns {
            let sb = parse_pattern(b).unwrap();
            assert_eq!(patterns_overlap(&sa, &sb), patterns_overlap(&sb, &sa));
        }
    }
}

#[test]
fn overlap_found_when_one_path_matches_both() {
    let a = parse_pattern("/users/:id").unwrap();
    let b = parse_pattern("/users/active").unwrap();
    assert!(match_segments(&a, &split_path("/users/active")).is_some());
    assert!(match_segments(&b, &split_path("/users/active")).is_some());
    assert!(patterns_overlap(&a, &b));
}

#[test]
fn differing_optional_literals_past_a_shared_path_still_overlap() {
    // "/x" matches both; the two optional literals differ only at a
    // position that path never reaches.
    let a = parse_pattern("/x/json?").unwrap();
    let b = parse_pattern("/x/xml?").unwrap();
    assert!(match_segments(&a, &split_path("/x")).is_some());
    assert!(match_segments(&b, &split_path("/x")).is_some());
    assert!(patterns_overlap(&a, &b));
    let c = parse_pattern("/r/:id/xml?").unwrap();
    let d = parse_pattern("/r/:id/json?").unwrap();
    assert!(patterns_overlap(&c, &d));
    // Different required literals still rule an overlap out.
    let e = parse_pattern("/x/json").unwrap();
    let f = parse_pattern("/x/xml?").unwrap();
    assert!(!patterns_overlap(&e, &f));
}

#[test]
fn overlapping_pairs_lists_each_pair_in_order() {
    let patterns: Vec<Vec<Segment>> = ["/users/:id", "/accounts/:id", "/users/active", "/:any/:id"]
        .iter()
        .map(|p| parse_pattern(p).unwrap())
        .collect();
    assert_eq!(
        overlapping_pairs(&patterns),
        vec![(0, 2), (0, 3), (1, 3), (2, 3)]
    );
}

// --- routes files ---

#[test]
fn routes_file_lines() {
    let contents = "# api.routes\r\nuser_show = /users/:id\r\n\n  health=/health  \n/plain\n#x = /y\n";
    let routes = parse_routes_file(contents);
    assert_eq!(
        routes,
        vec![
            Route {
                name: "user_show".to_string(),
                pattern: "/users/:id".to_string()
            },
            Route {
                name: "health".to_string(),
                pattern: "/health".to_string()
            },
            Route {
                name: "/plain".to_string(),
                pattern: "/plain".to_string()
            },
        ]
    );
    assert_eq!(parse_routes_file(""), Vec::new());
    assert_eq!(
        parse_routes_file("a = b = c"),
        vec![Route {
            name: "a".to_string(),
            pattern: "b = c".to_string()
        }]
    );
}

// --- rendering ---

#[test]
fn json_string_escapes() {
    assert_eq!(json_string("plain"), "\"plain\"");
    assert_eq!(json_string("a\"b\\c"), "\"a\\\"b\\\\c\"");
    assert_eq!(json_string("\n\r\t"), "\"\\n\\r\\t\"");
    assert_eq!(json_string("\u{1}\u{1f}"), "\"\\u0001\\u001f\"");
    assert_eq!(json_string("é"), "\"é\"");
}

#[test]
fn render_match_lines() {
    assert_eq!(render_match("health", "/health", &[]), "health (/health)");
    assert_eq!(
        render_match(
            "user_posts",
            "/users/:id/posts/:post_id",
            &captures(&[("id", "42"), ("post_id", "7")])
        ),
        "user_posts (/users/:id/posts/:post_id) id=42 post_id=7"
    );
}

#[test]
fn render_matches_json_array() {
    let route = Route {
        name: "user_posts".to_string(),
        pattern: "/users/:id/posts/:post_id".to_string(),
    };
    let hits = vec![(&route, captures(&[("id", "42"), ("post_id", "7")]))];
    assert_eq!(
        render_matches_json(&hits),
        "[{\"name\":\"user_posts\",\"pattern\":\"/users/:id/posts/:post_id\",\"params\":{\"id\":\"42\",\"post_id\":\"7\"}}]"
    );
    assert_eq!(render_matches_json(&[]), "[]");
}

#[test]
fn each_segment_takes_its_own_component() {
    assert_eq!(
        routematch::matching::matches("/a/:x/:y?/:z?", "/a/1/2").unwrap(),
        Some(captures(&[("x", "1"), ("y", "2")]))
    );
    assert_eq!(
        routematch::matching::matches("/a/:x/:y?/:z?", "/a/1/2/3").unwrap(),
        Some(captures(&[("x", "1"), ("y", "2"), ("z", "3")]))
    );
}

#[test]
fn matching_routes_lists_every_hit_in_table_order() {
    let patterns: Vec<Vec<Segment>> = ["/users/:id", "/users/active", "/health", "/users/*rest"]
        .iter()
        .map(|p| parse_pattern(p).unwrap())
        .collect();
    let path = split_path("/users/active");
    let hits = matching_routes(&patterns, &path);
    assert_eq!(
        hits,
        vec![
            (0, captures(&[("id", "active")])),
            (1, Vec::new()),
            (3, captures(&[("rest", "active")])),
        ]
    );
    assert_eq!(matching_routes(&patterns, &split_path("/unknown")), Vec::new());
}

#[test]
fn overlap_warning_and_mismatch_lines() {
    let show = Route { name: "user_show".to_string(), pattern: r"/users/:id(\d+)".to_string() };
    let active = Route { name: "user_active".to_string(), pattern: "/users/active".to_string() };
    assert_eq!(
        render_overlap_warning(&show, &active),
        r"warning: routes 'user_show' (/users/:id(\d+)) and 'user_active' (/users/active) may both match the same path"
    );
    let segments = parse_pattern(r"/users/:id(\d+)").unwrap();
    let reason = explain_mismatch(&segments, &split_path("/users/abc"));
    assert_eq!(
        render_mismatch(&show.name, &show.pattern, &reason),
        r"user_show (/users/:id(\d+)) did not match: segment 2 ('abc') does not satisfy the constraint on ':id' (\d+)"
    );
}

#[test]
fn leading_slash_is_optional() {
    for p in ["users/:id/posts", "files/*rest", "report/:id/:format?", ""] {
        let with_slash = format!("/{}", p);
        assert_eq!(parse_pattern(p).unwrap(), parse_pattern(&with_slash).unwrap());
        assert_eq!(split_path(p), split_path(&with_slash));
    }
}

#[test]
fn unicode_whitespace_is_trimmed() {
    // No-break space, next line and ideographic space surround the text.
    let path = "\u{a0}/users/42\u{85}\u{3000}";
    assert_eq!(split_path(path), vec!["users", "42"]);
    assert_eq!(
        parse_pattern("\u{2003}/users/:id\t").unwrap(),
        parse_pattern("/users/:id").unwrap()
    );
    // A zero-width space is not whitespace, so it stays.
    assert_eq!(split_path("/a\u{200b}"), vec!["a\u{200b}"]);
    assert!(Constraint::parse(r"\s+").unwrap().is_match("\u{2028}\u{a0}"));
    assert!(!Constraint::parse(r"\s+").unwrap().is_match("\u{200b}"));
}

#[test]
fn segments_out_of_order_still_match_where_the_walk_allows() {
    // An optional segment before a required one: the walk ends with the
    // path before it meets the misplaced required segment.
    let segments = vec![
        Segment::OptionalParam("a".to_string()),
        Segment::Static("b".to_string()),
    ];
    assert_eq!(match_segments(&segments, &[]), Some(Vec::new()));
    assert_eq!(explain_mismatch(&segments, &[]), "pattern matches");
}
