use std::collections::HashMap;

use criew::cli::ReviewInboxMode;
use criew::mail_parser::{parse_headers, ParsedTrailer};
use criew::mail_store::ThreadRow;
use criew::patch::{SeriesIntegrity, SeriesSummary};
use criew::review::{
    build_review_index, format_review_inbox, is_review_trailer_kind, load_review_inbox,
    mode_label, ReviewInboxEntry,
};

fn sample_entry(reviewed: bool) -> ReviewInboxEntry {
    ReviewInboxEntry {
        thread_id: 7,
        subject: "[PATCH 1/1] demo".to_string(),
        anchor_message_id: "patch@example.com".to_string(),
        version: 2,
        present_count: 1,
        expected_total: 1,
        integrity: SeriesIntegrity::Complete,
        trailers: if reviewed {
            vec![ParsedTrailer {
                kind: "Reviewed-by".to_string(),
                value: "Reader <reader@example.com>".to_string(),
            }]
        } else {
            Vec::new()
        },
    }
}

fn trailer(kind: &str, value: &str) -> ParsedTrailer {
    ParsedTrailer {
        kind: kind.to_string(),
        value: value.to_string(),
    }
}

fn summary(subject: &str) -> SeriesSummary {
    SeriesSummary {
        subject: subject.to_string(),
        anchor_message_id: "anchor@x".to_string(),
        version: 1,
        present_count: 1,
        expected_total: 2,
        integrity: SeriesIntegrity::Partial,
    }
}

fn thread(thread_id: i64) -> ThreadRow {
    ThreadRow {
        thread_id,
        mail_id: thread_id,
        depth: 0,
        subject: String::new(),
        from_addr: String::new(),
        message_id: String::new(),
        in_reply_to: None,
        date: None,
        raw_path: None,
    }
}

#[test]
fn review_modes_follow_reviewed_by_presence() {
    let needs_review = sample_entry(false);
    let reviewed = sample_entry(true);

    assert!(needs_review.matches_mode(ReviewInboxMode::NeedsReview));
    assert!(!needs_review.matches_mode(ReviewInboxMode::Reviewed));
    assert!(!reviewed.matches_mode(ReviewInboxMode::NeedsReview));
    assert!(reviewed.matches_mode(ReviewInboxMode::Reviewed));
    assert!(reviewed.matches_mode(ReviewInboxMode::All));
}

#[test]
fn report_includes_review_trailer_values() {
    let report = format_review_inbox("io-uring", ReviewInboxMode::All, &[sample_entry(true)]);
    assert!(report.contains("mode=all"));
    assert!(report.contains("Reviewed-by: Reader <reader@example.com>"));
    assert_eq!(mode_label(ReviewInboxMode::NeedsReview), "needs-review");
}

#[test]
fn build_index_aggregates_review_trailers_for_patch_thread() {
    let root_raw = b"Message-ID: <patch@example.com>\nSubject: [PATCH 1/1] demo\n\npatch\n";
    let reply_raw = b"Message-ID: <reply@example.com>\nIn-Reply-To: <patch@example.com>\nSubject: Re: [PATCH 1/1] demo\n\nReviewed-by: Reader <reader@example.com>\n";
    let mut trailers = parse_headers(root_raw, "patch@example.com".to_string()).trailers;
    trailers.extend(parse_headers(reply_raw, "reply@example.com".to_string()).trailers);
    let index = build_review_index(
        HashMap::from([(5, summary("[PATCH 1/1] demo"))]),
        HashMap::from([(5, trailers), (6, vec![trailer("Acked-by", "x")])]),
    );
    assert_eq!(index.len(), 1);
    let entry = index.values().next().expect("review entry");
    assert!(entry.has_reviewed_by());
    assert_eq!(entry.review_count(), 1);
    assert_eq!(entry.thread_id, 5);
}

#[test]
fn report_states_every_entry_exactly() {
    let mut entry = sample_entry(true);
    entry.thread_id = -3;
    entry.trailers.push(trailer("Acked-by", "A"));
    entry.trailers.push(trailer("Reviewed-by", "Z"));
    entry.trailers.push(trailer("Acked-by", "A"));
    entry.trailers.push(trailer("Signed-off-by", "S"));
    assert_eq!(
        format_review_inbox("list", ReviewInboxMode::Reviewed, &[entry]),
        "Review Inbox: mailbox=list mode=reviewed entries=1\n\
         thread=-3 status=reviewed patch=v2 1/1 integrity=complete reviews=4 anchor=<patch@example.com> subject=[PATCH 1/1] demo\n  \
         Acked-by: A\n  \
         Reviewed-by: Reader <reader@example.com>, Z"
    );
    assert_eq!(
        format_review_inbox("list", ReviewInboxMode::NeedsReview, &[]),
        "Review Inbox: mailbox=list mode=needs-review entries=0\n(no matching patch series)"
    );
}

#[test]
fn groups_hold_the_reviews_in_order() {
    let mut entry = sample_entry(false);
    for (kind, value) in [
        ("Tested-by", "t"),
        ("acked-by", "low"),
        ("Acked-by", "a"),
        ("Fixes", "no"),
        ("Tested-by", "t"),
        ("Tested-by", "s"),
        ("Reviewed-by", "r"),
    ] {
        entry.trailers.push(trailer(kind, value));
    }
    let groups: Vec<(String, Vec<String>)> = entry
        .trailer_groups()
        .into_iter()
        .map(|group| (group.kind, group.values))
        .collect();
    assert_eq!(
        groups,
        vec![
            ("Acked-by".to_string(), vec!["a".to_string()]),
            ("Reviewed-by".to_string(), vec!["r".to_string()]),
            ("Tested-by".to_string(), vec!["t".to_string(), "s".to_string()]),
            ("acked-by".to_string(), vec!["low".to_string()]),
        ]
    );
    assert_eq!(entry.review_count(), 6);
    assert_eq!(entry.status_label(), "reviewed");
    assert_eq!(sample_entry(false).status_label(), "needs-review");
}

#[test]
fn inbox_shows_each_thread_once() {
    let index = build_review_index(
        HashMap::from([(1, summary("one")), (2, summary("two")), (3, summary("three"))]),
        HashMap::from([(2, vec![trailer("reviewed-by", "r")])]),
    );
    let rows = || vec![thread(3), thread(9), thread(1), thread(3), thread(2), thread(1)];
    let shown = |mode| {
        load_review_inbox(rows(), index.clone(), mode)
            .iter()
            .map(|entry| entry.thread_id)
            .collect::<Vec<_>>()
    };
    assert_eq!(shown(ReviewInboxMode::All), vec![3, 1, 2]);
    assert_eq!(shown(ReviewInboxMode::NeedsReview), vec![3, 1]);
    assert_eq!(shown(ReviewInboxMode::Reviewed), vec![2]);
}

#[test]
fn review_kinds_and_words() {
    assert!(is_review_trailer_kind("TESTED-BY"));
    assert!(!is_review_trailer_kind("Signed-off-by"));
    assert_eq!(mode_label(ReviewInboxMode::All), "all");
    assert_eq!(mode_label(ReviewInboxMode::Reviewed), "reviewed");
    assert_eq!(SeriesIntegrity::Ambiguous.short_label(), "ambiguous");
    assert_eq!(SeriesIntegrity::Partial.short_label(), "partial");
}
