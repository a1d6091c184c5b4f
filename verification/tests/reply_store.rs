use criew::reply_store::{
    anchor_subject, bool_to_i64, draft_row, list_reply_outbox, map_reply_draft, map_reply_send,
    send_row, ReplyDraftRequest, ReplyDraftStatus, ReplySendRecordRequest, ReplySendStatus,
    StoredDraft, StoredOutboxEntry,
};

fn request() -> ReplyDraftRequest {
    ReplyDraftRequest {
        thread_id: 7,
        mail_id: 11,
        from_addr: "Tester <tester@example.com>".to_string(),
        to_addrs: "maintainer@example.com".to_string(),
        cc_addrs: "list@example.com".to_string(),
        subject: "Re: [PATCH] demo".to_string(),
        in_reply_to: "patch@example.com".to_string(),
        references: vec![
            "patch@example.com".to_string(),
            "root@example.com".to_string(),
        ],
        body: vec!["Looks good".to_string(), String::new()],
        preview_confirmed_at: None,
        status: ReplyDraftStatus::Draft,
        draft_path: None,
        last_error: None,
    }
}

#[test]
fn persists_and_loads_latest_reply_send_record() {
    let row = send_row(&ReplySendRecordRequest {
        thread_id: 7,
        mail_id: 11,
        transport: "git-send-email".to_string(),
        message_id: "msg-1@example.com".to_string(),
        from_addr: "Tester <tester@example.com>".to_string(),
        to_addrs: "maintainer@example.com".to_string(),
        cc_addrs: "list@example.com".to_string(),
        subject: "Re: [PATCH] demo".to_string(),
        preview_confirmed_at: "2026-03-07T10:00:00Z".to_string(),
        status: ReplySendStatus::Sent,
        command: Some("git send-email /tmp/reply.eml".to_string()),
        draft_path: Some("/tmp/reply.eml".to_string()),
        exit_code: Some(0),
        timed_out: false,
        error_summary: None,
        stdout: Some("ok".to_string()),
        stderr: Some(String::new()),
        started_at: "2026-03-07T10:00:01Z".to_string(),
        finished_at: "2026-03-07T10:00:02Z".to_string(),
    });
    assert_eq!(row.status, "sent");
    assert_eq!(row.timed_out, 0);
    let record = map_reply_send(3, row);
    assert_eq!(record.id, 3);
    assert_eq!(record.thread_id, 7);
    assert_eq!(record.status, ReplySendStatus::Sent);
    assert_eq!(record.message_id, "msg-1@example.com");
    assert_eq!(
        record.command.as_deref(),
        Some("git send-email /tmp/reply.eml")
    );
    assert_eq!(record.draft_path.as_deref(), Some("/tmp/reply.eml"));
    assert!(!record.timed_out);
    assert_eq!(record.stderr.as_deref(), Some(""));
}

#[test]
fn persists_updates_lists_and_deletes_reply_draft() {
    let request = request();
    let loaded = map_reply_draft(StoredDraft {
        id: 1,
        row: draft_row(&request),
        updated_at: "now".to_string(),
    });
    assert_eq!(loaded.references, request.references);
    assert_eq!(loaded.body, request.body);
    assert_eq!(loaded.status, ReplyDraftStatus::Draft);

    let mut failed = request.clone();
    failed.status = ReplyDraftStatus::Failed;
    failed.last_error = Some("smtp auth failed".to_string());
    failed.draft_path = Some("/tmp/reply.eml".to_string());
    let row = draft_row(&failed);
    let outbox = list_reply_outbox(vec![StoredOutboxEntry {
        id: 1,
        thread_id: row.thread_id,
        mail_id: row.mail_id,
        subject: row.subject,
        to_addrs: row.to_addrs,
        status: row.status,
        draft_path: row.draft_path,
        last_error: row.last_error,
        updated_at: "now".to_string(),
    }]);
    assert_eq!(outbox.len(), 1);
    assert_eq!(outbox[0].status, ReplyDraftStatus::Failed);
    assert_eq!(outbox[0].last_error.as_deref(), Some("smtp auth failed"));
    assert_eq!(outbox[0].draft_path.as_deref(), Some("/tmp/reply.eml"));
    assert!(list_reply_outbox(Vec::new()).is_empty());
}

#[test]
fn stored_drafts_are_read_back() {
    let row = draft_row(&request());
    assert_eq!(row.references_text, "patch@example.com\nroot@example.com");
    assert_eq!(row.body, "Looks good\n");
    let mut empty = request();
    empty.references = Vec::new();
    empty.body = Vec::new();
    let loaded = map_reply_draft(StoredDraft {
        id: 9,
        row: draft_row(&empty),
        updated_at: "t".to_string(),
    });
    assert!(loaded.references.is_empty());
    assert_eq!(loaded.body, vec![""]);
    assert_eq!(loaded.id, 9);
    assert_eq!(loaded.updated_at, "t");
    let mut blank = request();
    blank.references = vec!["a".to_string(), "  ".to_string(), "b\r".to_string()];
    let loaded = map_reply_draft(StoredDraft {
        id: 9,
        row: draft_row(&blank),
        updated_at: "t".to_string(),
    });
    assert_eq!(loaded.references, vec!["a", "b\r"]);
}

#[test]
fn stored_statuses_are_read_back() {
    for status in [ReplyDraftStatus::Draft, ReplyDraftStatus::Failed] {
        assert_eq!(ReplyDraftStatus::from_db(status.as_str()), status);
    }
    for status in [
        ReplySendStatus::Sent,
        ReplySendStatus::Failed,
        ReplySendStatus::TimedOut,
    ] {
        assert_eq!(ReplySendStatus::from_db(status.as_str()), status);
    }
    assert_eq!(ReplyDraftStatus::from_db("other"), ReplyDraftStatus::Draft);
    assert_eq!(ReplySendStatus::from_db("other"), ReplySendStatus::Failed);
    assert_eq!(ReplySendStatus::TimedOut.as_str(), "timed_out");
    assert_eq!(bool_to_i64(true), 1);
    assert_eq!(bool_to_i64(false), 0);
    assert_eq!(anchor_subject("  Draft SUBJECT "), "draft subject");
}

#[test]
fn outbox_lists_what_was_written_last() {
    let mut kept = std::collections::BTreeMap::new();
    let mut put = |thread_id: i64, mail_id: i64, subject: &str, status: ReplyDraftStatus, at: &str| {
        let mut draft = request();
        draft.thread_id = thread_id;
        draft.mail_id = mail_id;
        draft.subject = subject.to_string();
        draft.status = status;
        kept.insert((thread_id, mail_id), (draft_row(&draft), at.to_string()));
    };
    put(1, 1, "first", ReplyDraftStatus::Draft, "t1");
    put(1, 2, "other", ReplyDraftStatus::Draft, "t2");
    put(1, 1, "again", ReplyDraftStatus::Failed, "t3");
    put(2, 1, "gone", ReplyDraftStatus::Draft, "t4");
    kept.remove(&(2, 1));
    let mut rows: Vec<StoredOutboxEntry> = kept
        .into_values()
        .zip(1i64..)
        .map(|((row, at), id)| StoredOutboxEntry {
            id,
            thread_id: row.thread_id,
            mail_id: row.mail_id,
            subject: row.subject,
            to_addrs: row.to_addrs,
            status: row.status,
            draft_path: row.draft_path,
            last_error: row.last_error,
            updated_at: at,
        })
        .collect();
    rows.sort_by(|a, b| b.updated_at.cmp(&a.updated_at).then_with(|| b.id.cmp(&a.id)));
    let shown: Vec<(i64, i64, String, ReplyDraftStatus)> = list_reply_outbox(rows)
        .into_iter()
        .map(|entry| (entry.thread_id, entry.mail_id, entry.subject, entry.status))
        .collect();
    assert_eq!(
        shown,
        vec![
            (1, 1, "again".to_string(), ReplyDraftStatus::Failed),
            (1, 2, "other".to_string(), ReplyDraftStatus::Draft),
        ]
    );
}
