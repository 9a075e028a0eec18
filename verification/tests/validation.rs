use octocode::output_format::OutputFormat;
use octocode::validate::{
    effective_detail_level, parse_search_mode, validate_detail_level, validate_queries,
    validate_query_count, QueryError, SearchMode,
};

fn strings(v: &[&str]) -> Vec<String> {
    v.iter().map(|s| s.to_string()).collect()
}

#[test]
fn detail_levels_accepted() {
    assert_eq!(validate_detail_level("signatures"), Ok("signatures".to_string()));
    assert_eq!(validate_detail_level("partial"), Ok("partial".to_string()));
    assert_eq!(validate_detail_level("full"), Ok("full".to_string()));
}

#[test]
fn detail_level_refused() {
    assert_eq!(
        validate_detail_level("verbose"),
        Err("Invalid detail level 'verbose'. Use 'signatures', 'partial', or 'full'.".to_string())
    );
    assert!(validate_detail_level("Full").is_err());
    assert!(validate_detail_level("").is_err());
}

#[test]
fn queries_empty() {
    let r = validate_queries(&Vec::new());
    assert_eq!(r, Err(QueryError::Empty));
    assert_eq!(r.unwrap_err().message(), "At least one query is required");
}

#[test]
fn queries_too_many() {
    let qs = strings(&["auth", "login", "token", "session", "cookie", "jwt"]);
    let r = validate_queries(&qs);
    assert_eq!(r, Err(QueryError::TooMany { max: 5, got: 6 }));
    assert_eq!(
        r.unwrap_err().message(),
        "Maximum 5 queries allowed, got 6. Use fewer, more specific terms."
    );
}

#[test]
fn queries_at_the_limit() {
    let qs = strings(&["auth", "login", "token", "session", "cookie"]);
    assert_eq!(validate_queries(&qs), Ok(()));
}

#[test]
fn query_too_short_after_trim() {
    let qs = strings(&["authentication", "  ab  "]);
    let r = validate_queries(&qs);
    assert_eq!(r, Err(QueryError::TooShort { position: 2 }));
    assert_eq!(r.unwrap_err().message(), "Query 2 must be at least 3 characters long");
}

#[test]
fn query_length_counts_bytes() {
    // Two characters, four bytes: long enough.
    assert_eq!(validate_queries(&strings(&["éé"])), Ok(()));
    // One character, two bytes: too short.
    assert_eq!(validate_queries(&strings(&["é"])), Err(QueryError::TooShort { position: 1 }));
}

#[test]
fn query_too_long() {
    let long = "x".repeat(501);
    let ok = "y".repeat(500);
    assert_eq!(validate_queries(&vec![ok.clone()]), Ok(()));
    let r = validate_queries(&vec![ok, long]);
    assert_eq!(r, Err(QueryError::TooLong { position: 2 }));
    assert_eq!(r.unwrap_err().message(), "Query 2 must be no more than 500 characters long");
}

#[test]
fn first_bad_query_is_reported() {
    let qs = strings(&["ok query", "x", &"z".repeat(600)]);
    assert_eq!(validate_queries(&qs), Err(QueryError::TooShort { position: 2 }));
}

#[test]
fn query_count_only() {
    assert_eq!(validate_query_count(0), Err(QueryError::Empty));
    assert_eq!(validate_query_count(3), Ok(()));
    assert_eq!(validate_query_count(9), Err(QueryError::TooMany { max: 5, got: 9 }));
}

#[test]
fn search_modes() {
    assert_eq!(parse_search_mode("all"), Ok(SearchMode::All));
    assert_eq!(parse_search_mode("code"), Ok(SearchMode::Code));
    assert_eq!(parse_search_mode("docs"), Ok(SearchMode::Docs));
    assert_eq!(parse_search_mode("text"), Ok(SearchMode::Text));
    assert_eq!(
        parse_search_mode("doc"),
        Err("Invalid search mode 'doc'. Use 'all', 'code', 'docs', or 'text'.".to_string())
    );
}

#[test]
fn detail_level_with_formats() {
    assert_eq!(effective_detail_level(&None, OutputFormat::Cli), Ok("partial".to_string()));
    assert_eq!(effective_detail_level(&None, OutputFormat::Json), Ok("partial".to_string()));
    assert_eq!(
        effective_detail_level(&Some("full".to_string()), OutputFormat::Text),
        Ok("full".to_string())
    );
    assert_eq!(
        effective_detail_level(&Some("full".to_string()), OutputFormat::Json),
        Err("--detail-level is not supported with JSON format. Use --format=cli or --format=text instead.".to_string())
    );
    assert_eq!(
        effective_detail_level(&Some("full".to_string()), OutputFormat::Md),
        Err("--detail-level is not supported with Markdown format. Use --format=cli or --format=text instead.".to_string())
    );
}
