use criew::dates::{
    choose_reading, compare_days, date_matches, parse_message_date, parse_query_date,
};
use criew::mail_store::ThreadRow;
use criew::query::{
    check_term, contains_case_insensitive, is_patch_subject, parse_query, read_token,
    term_matches, tokenize, QueryField, QueryTerm,
};

fn row(subject: &str, from: &str, message_id: &str, date: Option<&str>) -> ThreadRow {
    ThreadRow {
        thread_id: 1,
        mail_id: 1,
        depth: 0,
        subject: subject.to_string(),
        from_addr: from.to_string(),
        message_id: message_id.to_string(),
        in_reply_to: None,
        date: date.map(ToOwned::to_owned),
        raw_path: None,
    }
}

#[test]
fn tokenizes_quotes_and_escaped_spaces() {
    assert_eq!(
        tokenize(r#"subject:"mm cleanup" from:alice\ bob"#).expect("tokens"),
        vec!["subject:mm cleanup", "from:alice bob"]
    );
    assert!(tokenize("subject:'unfinished").is_err());
}

#[test]
fn parses_legacy_terms_and_structured_fields() {
    let query = parse_query("subject:cleanup from:alice id:patch is:patch").expect("query");
    let message = row(
        "[PATCH] mm cleanup",
        "Alice <alice@example.com>",
        "patch@example.com",
        Some("Fri, 6 Mar 2026 09:30:00 +0000"),
    );
    assert!(query.matches(&message, Some("needs-review")));
    assert!(
        parse_query("cleanup")
            .expect("query")
            .matches(&message, None)
    );
}

#[test]
fn supports_negation_review_and_date_filters() {
    let message = row(
        "[PATCH] net fix",
        "Alice <alice@example.com>",
        "patch@example.com",
        Some("Fri, 6 Mar 2026 09:30:00 +0000"),
    );
    assert!(
        parse_query(
            "-subject:documentation after:2026-03-01 before:2026-03-10 review:reviewed"
        )
        .expect("query")
        .matches(&message, Some("reviewed"))
    );
    assert!(
        !parse_query("review:reviewed")
            .expect("query")
            .matches(&message, None)
    );
}

#[test]
fn rejects_unknown_fields_and_invalid_values() {
    assert!(parse_query("label:foo").is_err());
    assert!(parse_query("after:not-a-date").is_err());
    assert!(parse_query("review:pending").is_err());
    assert!(parse_query("is:reply").is_err());
}

#[test]
fn complaints_name_what_is_wrong() {
    assert_eq!(
        parse_query("Label:foo").unwrap_err(),
        "unknown query field 'Label'; use subject:, from:, id:, after:, before:, review:, or is:patch"
    );
    assert_eq!(
        parse_query("after:2026-02-30").unwrap_err(),
        "invalid date '2026-02-30'; use YYYY-MM-DD"
    );
    assert_eq!(
        parse_query("review:Pending").unwrap_err(),
        "invalid review status 'pending'; use needs-review, reviewed, all, or none"
    );
    assert_eq!(
        parse_query("is:reply").unwrap_err(),
        "invalid is: value 'reply'; only is:patch is supported"
    );
    assert_eq!(parse_query("a - b").unwrap_err(), "query term '-' is missing a value");
    assert_eq!(parse_query("from:").unwrap_err(), "query term 'from:' is missing a value");
    assert_eq!(parse_query("a 'b").unwrap_err(), "unterminated query quote '");
    // The first complaint counts.
    assert!(parse_query("is:x label:y").unwrap_err().starts_with("invalid is:"));
}

#[test]
fn tokens_keep_escapes_and_are_not_empty() {
    assert_eq!(tokenize("a\\").expect("tokens"), vec!["a\\"]);
    assert_eq!(tokenize("  '' \t").expect("tokens"), Vec::<String>::new());
    assert_eq!(tokenize("'a\\'b' \"c d\"e").expect("tokens"), vec!["a'b", "c de"]);
    assert!(parse_query("").expect("query").is_empty());
    assert!(!parse_query("x").expect("query").is_empty());
}

#[test]
fn terms_combine_with_and() {
    let message = row("[PATCH] one two", "a@b", "m@x", None);
    let both = parse_query("one two").expect("query");
    assert!(both.matches(&message, None));
    let mixed = parse_query("one three").expect("query");
    assert!(!mixed.matches(&message, None));
    assert!(parse_query("").expect("query").matches(&message, None));
    assert!(parse_query("M@X").expect("query").matches(&message, None));
}

#[test]
fn dash_negates_a_term() {
    let message = row("[PATCH] one", "a@b", "m@x", None);
    assert!(!parse_query("-one").expect("query").matches(&message, None));
    assert!(parse_query("-two").expect("query").matches(&message, None));
    let plain = read_token("subject:One ").expect("term");
    let negated = read_token("-subject:One ").expect("term");
    assert_eq!(plain.value, "one");
    assert!(!plain.negated && negated.negated);
    assert_eq!(read_token("--x").expect("term").value, "-x");
}

#[test]
fn checks_values_against_their_fields() {
    let after = QueryTerm {
        field: QueryField::After,
        value: "soon".to_string(),
        negated: false,
    };
    assert!(check_term(after.clone(), Some(1)).is_ok());
    assert!(check_term(after, None).is_err());
    let review = QueryTerm {
        field: QueryField::Review,
        value: "none".to_string(),
        negated: false,
    };
    assert!(check_term(review, None).is_ok());
}

#[test]
fn review_filters_match_any_status_but_none() {
    let message = row("x", "a@b", "m@x", None);
    let all = parse_query("review:all").expect("query");
    assert!(all.matches(&message, Some("reviewed")));
    assert!(!all.matches(&message, Some("none")));
    assert!(!all.matches(&message, None));
    let none = parse_query("review:none").expect("query");
    assert!(none.matches(&message, Some("NONE")));
}

#[test]
fn patch_subjects_need_the_tag_in_front() {
    assert!(is_patch_subject("[patch] x"));
    assert!(is_patch_subject("  [PATCH] x"));
    assert!(is_patch_subject("[PATCH v2 1/2] x"));
    assert!(!is_patch_subject(" [PATCH v2 1/2] x"));
    assert!(!is_patch_subject("Re: [PATCH] x"));
    assert!(!is_patch_subject(""));
    assert!(contains_case_insensitive("ABC", "bc"));
    assert!(!contains_case_insensitive("abc", "BC"));
}

#[test]
fn dates_are_read_in_four_forms() {
    let day = parse_query_date("2026-03-06").expect("day");
    assert_eq!(day, 739_681);
    assert_eq!(parse_query_date("2026-3"), None);
    assert_eq!(parse_message_date("Fri, 6 Mar 2026 09:30:00 +0000"), Some(day));
    assert_eq!(parse_message_date("2026-03-06T23:30:00-02:00"), Some(day + 1));
    assert_eq!(parse_message_date("2026-03-06 09:30:00"), Some(day));
    assert_eq!(parse_message_date("2026-03-06"), Some(day));
    assert_eq!(parse_message_date("yesterday"), None);
}

#[test]
fn date_filters_meet_on_the_day() {
    assert!(date_matches(Some("2026-03-06"), "2026-03-06", true));
    assert!(date_matches(Some("2026-03-06"), "2026-03-06", false));
    assert!(!date_matches(Some("2026-03-05"), "2026-03-06", true));
    assert!(!date_matches(Some("2026-03-07"), "2026-03-06", false));
    assert!(!date_matches(None, "2026-03-06", true));
    assert!(!date_matches(Some("x"), "2026-03-06", false));
    assert!(!compare_days(Some(1), None, false));
    assert!(compare_days(Some(2), Some(1), true));
    assert_eq!(choose_reading(None, Some(2), Some(3), None), Some(2));
    assert_eq!(choose_reading(None, None, None, Some(4)), Some(4));
}

#[test]
fn term_days_decide_date_terms() {
    let message = row("x", "a@b", "m@x", None);
    let term = QueryTerm {
        field: QueryField::Before,
        value: "x".to_string(),
        negated: true,
    };
    assert!(!term_matches(&term, &message, None, Some(3), Some(3)));
    assert!(term_matches(&term, &message, None, Some(4), Some(3)));
    assert!(term_matches(&term, &message, None, None, Some(3)));
}

#[test]
fn joined_queries_ask_for_both() {
    let joined = |left: &str, right: &str| parse_query(&format!("{left} {right}"));
    let whole = joined("from:alice", "-subject:\"b c\"").expect("whole");
    let left = parse_query("from:alice").expect("left");
    let right = parse_query("-subject:\"b c\"").expect("right");
    for subject in ["b c", "b"] {
        for from in ["alice@x", "bob@x"] {
            let row = row(subject, from, "m", None);
            assert_eq!(
                whole.matches(&row, None),
                left.matches(&row, None) && right.matches(&row, None)
            );
        }
    }
    assert_eq!(joined("from:alice", "after:x"), parse_query("after:x"));
    // A backslash keeps the space, and one term comes of two.
    assert_eq!(tokenize("a\\ b").expect("tokens"), vec!["a b"]);
}
