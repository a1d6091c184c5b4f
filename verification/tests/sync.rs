use criew::config::{ImapConfig, ImapEncryption, RuntimeConfig, FOLLOWING_VIEW, IMAP_INBOX_MAILBOX};
use criew::error::{CriewError, ErrorCode};
use criew::imap::{MailboxSnapshot, RemoteMail};
use criew::mail_parser;
use criew::mail_store::{MailboxState, SyncBatch, SyncWriteResult};
use criew::selection::select_initial_inbox_messages;
use criew::sync::{
    can_add, fetch_thread, is_following_match, is_following_sent_match, max_option,
    normalize_requested_message_id, plan_window, resolve_sync_source, run, ClientPlan, Goal,
    JobAction, Retry, Stage, SyncAction, SyncEvent, SyncRequest, SyncRun, SyncSource, SyncSummary,
    ThreadFetchRequest,
};

fn runtime(source_mailbox: &str) -> RuntimeConfig {
    RuntimeConfig {
        config_path: "/tmp/criew-sync-route.toml".to_string(),
        data_dir: "/tmp/criew-sync-route-data".to_string(),
        database_path: "/tmp/criew-sync-route.db".to_string(),
        raw_mail_dir: "/tmp/criew-sync-route-raw".to_string(),
        patch_dir: "/tmp/criew-sync-route-patches".to_string(),
        log_dir: "/tmp/criew-sync-route-logs".to_string(),
        b4_path: None,
        log_filter: "info".to_string(),
        source_mailbox: source_mailbox.to_string(),
        imap: ImapConfig {
            email: Some("me@example.com".to_string()),
            user: Some("imap-user".to_string()),
            pass: Some("imap-pass".to_string()),
            server: Some("imap.example.com".to_string()),
            server_port: Some(993),
            encryption: Some(ImapEncryption::Tls),
            proxy: None,
            sent_mailbox: None,
        },
        git_user_email: None,
        lore_base_url: "https://lore.kernel.org".to_string(),
        startup_sync: true,
        allow_preview_resize: false,
        kernel_trees: Vec::new(),
    }
}

fn request(mailbox: &str) -> SyncRequest {
    SyncRequest {
        mailbox: mailbox.to_string(),
        fixture_dir: None,
        uidvalidity: None,
        reconnect_attempts: 1,
    }
}

fn remote(uid: u32, raw: &str) -> RemoteMail {
    RemoteMail {
        uid,
        modseq: if uid == 0 { None } else { Some(u64::from(uid)) },
        flags: Vec::new(),
        raw: raw.as_bytes().to_vec(),
    }
}

fn snapshot(highest_uid: u32) -> MailboxSnapshot {
    MailboxSnapshot {
        uidvalidity: 1,
        highest_uid,
        highest_modseq: None,
    }
}

fn written(batch: &SyncBatch) -> SyncWriteResult {
    SyncWriteResult {
        inserted: batch.mails.len(),
        updated: 0,
        rebuilt_roots: 1,
        mailbox_rebuilt: false,
        state: MailboxState {
            uidvalidity: batch.uidvalidity,
            last_seen_uid: batch.highest_uid,
            highest_modseq: batch.highest_modseq,
            synced_at: Some("now".to_string()),
        },
    }
}

fn summary(fetched: usize) -> SyncSummary {
    SyncSummary {
        mailbox: "m".to_string(),
        source: "s".to_string(),
        fetched,
        inserted: fetched,
        updated: 0,
        rebuilt_roots: 1,
        mailbox_rebuilt: false,
        uidvalidity: 1,
        checkpoint_last_seen_uid: 5,
        checkpoint_highest_modseq: None,
        checkpoint_synced_at: None,
    }
}

fn lore() -> SyncSource {
    SyncSource::Lore {
        base_url: "https://lore.test".to_string(),
    }
}

/// Brings a pass to the point where the mails of its window are asked for.
fn opened(
    mailbox: &str,
    source: SyncSource,
    checkpoint: Option<MailboxState>,
    count: usize,
    highest_uid: u32,
) -> (SyncRun, SyncAction) {
    let (pass, _) = SyncRun::start(mailbox.to_string(), source, Goal::Sync);
    let (pass, action) = pass.step(SyncEvent::Checkpoint(checkpoint));
    assert!(matches!(action, SyncAction::CountMessages { .. }));
    let (pass, action) = pass.step(SyncEvent::Counted(count));
    assert!(matches!(action, SyncAction::Connect(_)));
    let (pass, action) = pass.step(SyncEvent::Connected);
    assert!(matches!(action, SyncAction::SelectMailbox { .. }));
    pass.step(SyncEvent::Selected(snapshot(highest_uid)))
}

#[test]
fn initial_inbox_selection_keeps_all_patch_threads() {
    let remote_messages: Vec<RemoteMail> = (1..=25u32)
        .flat_map(|uid| {
            let root = RemoteMail {
                uid: uid * 2 - 1,
                modseq: Some((uid * 2 - 1) as u64),
                flags: Vec::new(),
                raw: format!("Message-ID: <thread-{uid}@example.com>\nSubject: [PATCH 0/1] thread {uid}\n\n").into_bytes(),
            };
            let reply = RemoteMail {
                uid: uid * 2,
                modseq: Some((uid * 2) as u64),
                flags: Vec::new(),
                raw: format!("Message-ID: <thread-{uid}-reply@example.com>\nSubject: Re: [PATCH 0/1] thread {uid}\nIn-Reply-To: <thread-{uid}@example.com>\nReferences: <thread-{uid}@example.com>\n\n").into_bytes(),
            };
            [root, reply]
        })
        .chain(std::iter::once(RemoteMail {
            uid: 1000,
            modseq: Some(1000),
            flags: Vec::new(),
            raw: b"Message-ID: <status@example.com>\nSubject: Weekly status update\n\n".to_vec(),
        }))
        .collect();

    let selection = select_initial_inbox_messages("INBOX", remote_messages);
    assert_eq!(selection.scanned, 51);
    assert_eq!(selection.patch_related, 50);
    assert_eq!(selection.selected_threads, 25);
    assert_eq!(selection.selected_uids.len(), 50);
    assert!(selection.selected_uids.contains(&1));
    assert!(selection.selected_uids.contains(&50));
}

#[test]
fn initial_selection_keeps_patch_reply_without_root_candidate() {
    let messages = vec![
        RemoteMail {
            uid: 1,
            modseq: None,
            flags: Vec::new(),
            raw: b"Message-ID: <reply@example.com>\nSubject: Re: [PATCH] missing\nReferences: <root@example.com>\n\n".to_vec(),
        },
        RemoteMail {
            uid: 2,
            modseq: None,
            flags: Vec::new(),
            raw: b"Message-ID: <root2@example.com>\nSubject: [PATCH] complete\n\n".to_vec(),
        },
    ];
    let selection = select_initial_inbox_messages("list", messages);
    assert_eq!(selection.selected_uids, vec![1, 2]);
}

#[test]
fn following_routes_to_real_imap_when_config_is_complete() {
    let source =
        resolve_sync_source(&runtime("io-uring"), &request(IMAP_INBOX_MAILBOX)).expect("resolve source");

    assert!(matches!(source, SyncSource::Following { .. }));
}

#[test]
fn following_view_name_routes_to_real_imap_when_config_is_complete() {
    let source =
        resolve_sync_source(&runtime("io-uring"), &request(FOLLOWING_VIEW)).expect("resolve Following source");

    assert!(matches!(source, SyncSource::Following { .. }));
}

#[test]
fn lore_subscriptions_stay_on_lore_when_imap_is_configured() {
    let source = resolve_sync_source(&runtime("io-uring"), &request("io-uring")).expect("resolve source");

    assert!(matches!(source, SyncSource::Lore { .. }));
}

#[test]
fn qemu_subscriptions_route_to_gnu_archive() {
    let source = resolve_sync_source(&runtime("qemu-rust"), &request("qemu-rust")).expect("resolve source");

    assert!(matches!(source, SyncSource::GnuArchive));
}

#[test]
fn following_keeps_own_reply_mail() {
    let parsed = mail_parser::parse_headers(
        b"Message-ID: <reply@example.com>\nSubject: Re: [PATCH 1/1] demo\nFrom: Me <me@example.com>\nTo: list@example.com\n\nreply\n",
        "fallback@example.com".to_string(),
    );
    assert!(is_following_match(&parsed, "me@example.com"));
}

#[test]
fn sent_mail_sync_keeps_only_own_patch_messages() {
    let own_patch = mail_parser::parse_headers(
        b"Message-ID: <patch@example.com>\nSubject: Re: [PATCH 1/1] demo\nFrom: me@example.com\n\nreply\n",
        "patch-fallback@example.com".to_string(),
    );
    let own_regular = mail_parser::parse_headers(
        b"Message-ID: <note@example.com>\nSubject: status update\nFrom: me@example.com\n\nnote\n",
        "note-fallback@example.com".to_string(),
    );
    let someone_else_patch = mail_parser::parse_headers(
        b"Message-ID: <other@example.com>\nSubject: [PATCH 1/1] demo\nFrom: other@example.com\n\npatch\n",
        "other-fallback@example.com".to_string(),
    );

    assert!(is_following_sent_match(&own_patch, "me@example.com"));
    assert!(!is_following_sent_match(&own_regular, "me@example.com"));
    assert!(!is_following_sent_match(
        &someone_else_patch,
        "me@example.com"
    ));
}

#[test]
fn lore_sync_completes_reply_only_patch_series_from_thread_endpoint() {
    let reply_raw = "Message-ID: <reply@example.com>\nSubject: Re: [PATCH v3 2/2] demo\nIn-Reply-To: <cover@example.com>\nReferences: <cover@example.com>\n\nreply\n";
    let thread = vec![
        remote(0, "Message-ID: <cover@example.com>\nSubject: [PATCH v3 0/2] demo\n\ncover\n"),
        remote(0, "Message-ID: <patch-1@example.com>\nSubject: [PATCH v3 1/2] demo\nIn-Reply-To: <cover@example.com>\nReferences: <cover@example.com>\n\npatch 1\n"),
        remote(0, "Message-ID: <patch-2@example.com>\nSubject: [PATCH v3 2/2] demo\nIn-Reply-To: <cover@example.com>\nReferences: <cover@example.com>\n\npatch 2\n"),
        remote(0, reply_raw),
    ];

    let (pass, action) = opened("io-uring", lore(), None, 3, 0);
    assert!(matches!(action, SyncAction::FetchIncremental { .. }));
    let (pass, action) = pass.step(SyncEvent::Mails(vec![remote(0, reply_raw)]));
    match action {
        SyncAction::FetchThread { mailbox, message_id } => {
            assert_eq!(mailbox, "io-uring");
            assert_eq!(message_id, "reply@example.com");
        }
        other => panic!("unexpected action: {other:?}"),
    }
    let (_, action) = pass.step(SyncEvent::Mails(thread));
    match action {
        SyncAction::Store(batch) => {
            assert_eq!(batch.mails.len(), 4);
            assert!(batch.mails.iter().any(|mail| mail.parsed.message_id == "cover@example.com"));
            let uids: Vec<u32> = batch.mails.iter().map(|mail| mail.uid).collect();
            assert_eq!(uids, vec![1, 2, 3, 4]);
        }
        other => panic!("unexpected action: {other:?}"),
    }
}

#[test]
fn failed_threads_are_passed_over() {
    let (pass, _) = opened("io-uring", lore(), None, 3, 0);
    let (pass, action) = pass.step(SyncEvent::Mails(vec![
        remote(0, "Message-ID: <a@x>\nSubject: [PATCH 1/2] alpha\n\n"),
        remote(0, "Message-ID: <b@x>\nSubject: [PATCH 1/2] beta\n\n"),
        remote(0, "Message-ID: <c@x>\nSubject: [PATCH] gamma\n\n"),
    ]));
    assert!(matches!(&action, SyncAction::FetchThread { message_id, .. } if message_id == "a@x"));
    let (pass, action) = pass.step(SyncEvent::Failed(CriewError::new(
        ErrorCode::Imap,
        "down".to_string(),
    )));
    assert!(matches!(&action, SyncAction::FetchThread { message_id, .. } if message_id == "b@x"));
    let (_, action) = pass.step(SyncEvent::Mails(vec![
        remote(0, "Message-ID: <b@x>\nSubject: [PATCH 1/2] beta\n\n"),
        remote(0, "Message-ID: <b2@x>\nSubject: [PATCH 2/2] beta\n\n"),
        remote(0, "Message-ID: <b2@x>\nSubject: [PATCH 2/2] beta\n\n"),
    ]));
    match action {
        SyncAction::Store(batch) => {
            let ids: Vec<&str> = batch
                .mails
                .iter()
                .map(|mail| mail.parsed.message_id.as_str())
                .collect();
            assert_eq!(ids, vec!["a@x", "b@x", "c@x", "b2@x"]);
        }
        other => panic!("unexpected action: {other:?}"),
    }
}

#[test]
fn server_series_are_completed_by_number() {
    let state = MailboxState {
        uidvalidity: 1,
        last_seen_uid: 10,
        highest_modseq: Some(4),
        synced_at: None,
    };
    let source = SyncSource::Following {
        self_email: "me@x".to_string(),
    };
    let (pass, action) = opened("Following", source, Some(state), 8, 12);
    match action {
        SyncAction::FetchFollowing {
            mailbox,
            self_email,
            after_uid,
            since_modseq,
        } => {
            assert_eq!(mailbox, "INBOX");
            assert_eq!(self_email, "me@x");
            assert_eq!(after_uid, 10);
            assert_eq!(since_modseq, Some(4));
        }
        other => panic!("unexpected action: {other:?}"),
    }
    let patch = |seq: u32| {
        format!("Message-ID: <p{seq}@x>\nSubject: [PATCH {seq}/3] fix it\nFrom: a@x\nTo: me@x\n\n")
    };
    let (pass, action) = pass.step(SyncEvent::Mails(vec![remote(11, &patch(1))]));
    assert!(matches!(
        action,
        SyncAction::FetchHeaders { after_uid: 0, since_modseq: None, .. }
    ));
    let (pass, action) = pass.step(SyncEvent::Mails(vec![
        remote(4, &patch(0)),
        remote(5, &patch(2)),
        remote(6, &patch(1)),
        remote(7, "Message-ID: <r@x>\nSubject: Re: [PATCH 3/3] fix it\nFrom: a@x\n\n"),
        remote(8, "Message-ID: <o@x>\nSubject: [PATCH 3/3] other\nFrom: a@x\n\n"),
    ]));
    assert!(matches!(&action, SyncAction::FetchFull { uids, .. } if *uids == vec![5]));
    let (pass, action) = pass.step(SyncEvent::Mails(vec![remote(5, &patch(2))]));
    let batch = match action {
        SyncAction::Store(batch) => batch,
        other => panic!("unexpected action: {other:?}"),
    };
    assert_eq!(batch.mailbox, "INBOX");
    assert_eq!(batch.mails.len(), 2);
    assert_eq!(batch.highest_uid, 12);
    assert_eq!(batch.highest_modseq, Some(11));
    assert_eq!(batch.mails[1].raw_name, "0000000005.eml");
    let (pass, action) = pass.step(SyncEvent::Stored(written(&batch)));
    assert!(matches!(&action, SyncAction::RefreshFollowing { self_email } if self_email == "me@x"));
    let (pass, action) = pass.step(SyncEvent::Refreshed);
    assert!(matches!(&action, SyncAction::RefreshSeries { mailbox } if mailbox == "INBOX"));
    let (pass, action) = pass.step(SyncEvent::Refreshed);
    match action {
        SyncAction::Finish(summary) => {
            assert_eq!(summary.mailbox, "Following");
            assert_eq!(summary.source, "imap-following");
            assert_eq!(summary.fetched, 2);
            assert_eq!(summary.checkpoint_last_seen_uid, 12);
        }
        other => panic!("unexpected action: {other:?}"),
    }
    assert!(!pass.awaits(&SyncEvent::Connected));
}

#[test]
fn first_fixture_inbox_sync_selects_and_prunes() {
    let source = SyncSource::Fixture {
        fixture_dir: "/fixture".to_string(),
        uidvalidity_hint: 1,
    };
    let mails = || {
        vec![
            remote(1, "Message-ID: <cover@example.com>\nSubject: [PATCH 0/1] demo\nFrom: alice@example.com\n\nbody\n"),
            remote(2, "Message-ID: <reply@example.com>\nSubject: Re: [PATCH 0/1] demo\nFrom: bob@example.com\nIn-Reply-To: <cover@example.com>\nReferences: <cover@example.com>\n\nbody\n"),
            remote(3, "Message-ID: <status@example.com>\nSubject: Weekly status update\nFrom: carol@example.com\n\nbody\n"),
        ]
    };
    let (pass, action) = opened("inbox", source, None, 0, 3);
    assert!(matches!(action, SyncAction::FetchHeaders { after_uid: 0, .. }));
    let (pass, action) = pass.step(SyncEvent::Mails(mails()));
    assert!(matches!(&action, SyncAction::FetchFull { uids, .. } if *uids == vec![1, 2]));
    let (pass, action) = pass.step(SyncEvent::Mails(mails()));
    let batch = match action {
        SyncAction::Store(batch) => batch,
        other => panic!("unexpected action: {other:?}"),
    };
    assert_eq!(batch.mails.len(), 2);
    let (pass, action) = pass.step(SyncEvent::Stored(written(&batch)));
    assert!(matches!(action, SyncAction::RefreshSeries { .. }));
    let (pass, action) = pass.step(SyncEvent::Refreshed);
    assert!(matches!(&action, SyncAction::PruneMailbox { mailbox } if mailbox == "inbox"));
    let (_, action) = pass.step(SyncEvent::Pruned);
    match action {
        SyncAction::Finish(summary) => {
            assert_eq!(summary.fetched, 2);
            assert_eq!(summary.inserted, 2);
            assert_eq!(summary.source, "/fixture");
        }
        other => panic!("unexpected action: {other:?}"),
    }
}

#[test]
fn fetched_threads_hold_the_requested_message() {
    let goal = || Goal::Thread {
        message_id: "<wanted@x>".to_string(),
    };
    let state = MailboxState {
        uidvalidity: 9,
        last_seen_uid: 40,
        highest_modseq: Some(2),
        synced_at: None,
    };
    let (pass, _) = SyncRun::start("io-uring".to_string(), lore(), goal());
    let (pass, _) = pass.step(SyncEvent::Checkpoint(Some(state)));
    let (pass, action) = pass.step(SyncEvent::Connected);
    assert!(matches!(&action, SyncAction::FetchThread { message_id, .. } if message_id == "<wanted@x>"));
    let (_, action) = pass.step(SyncEvent::Mails(vec![remote(
        0,
        "Message-ID: <wanted@x>\nSubject: status\n\n",
    )]));
    match action {
        SyncAction::Store(batch) => {
            assert_eq!(batch.uidvalidity, 9);
            assert_eq!(batch.highest_uid, 41);
            assert_eq!(batch.highest_modseq, Some(2));
            assert_eq!(batch.mails[0].uid, 41);
        }
        other => panic!("unexpected action: {other:?}"),
    }
    let (pass, _) = SyncRun::start("qemu-x".to_string(), SyncSource::GnuArchive, goal());
    let (pass, _) = pass.step(SyncEvent::Checkpoint(None));
    let (pass, action) = pass.step(SyncEvent::Connected);
    assert!(matches!(action, SyncAction::SelectMailbox { .. }));
    let (pass, _) = pass.step(SyncEvent::Selected(snapshot(3)));
    let (_, action) = pass.step(SyncEvent::Mails(vec![remote(1, "Message-ID: <no@x>\n\n")]));
    match action {
        SyncAction::Fail(error) => {
            assert_eq!(error.code, ErrorCode::Imap);
            assert_eq!(
                error.message,
                "fetched thread does not contain Message-ID '<wanted@x>'"
            );
        }
        other => panic!("unexpected action: {other:?}"),
    }
}

#[test]
fn failures_end_a_pass() {
    let (pass, action) = SyncRun::start("l".to_string(), lore(), Goal::Sync);
    assert!(matches!(&action, SyncAction::LoadCheckpoint { mailbox } if mailbox == "l"));
    assert!(pass.awaits(&SyncEvent::Checkpoint(None)));
    assert!(!pass.awaits(&SyncEvent::Pruned));
    let (_, action) = pass.step(SyncEvent::Failed(CriewError::new(
        ErrorCode::Database,
        "locked".to_string(),
    )));
    assert!(matches!(&action, SyncAction::Fail(error) if error.message == "locked"));
}

#[test]
fn synthetic_ids_stand_in_for_missing_ones() {
    let (pass, _) = opened("list", SyncSource::GnuArchive, None, 1, 0);
    let (_, action) = pass.step(SyncEvent::Mails(vec![
        remote(7, "Subject: a\n\n"),
        remote(0, "Subject: b\n\n"),
        remote(0, "Subject: c\n\n"),
    ]));
    match action {
        SyncAction::Store(batch) => {
            let mails: Vec<(u32, &str)> = batch
                .mails
                .iter()
                .map(|mail| (mail.uid, mail.parsed.message_id.as_str()))
                .collect();
            assert_eq!(
                mails,
                vec![
                    (7, "synthetic-list-7@local"),
                    (1, "synthetic-list-1@local"),
                    (2, "synthetic-list-2@local"),
                ]
            );
            assert_eq!(batch.highest_uid, 7);
        }
        other => panic!("unexpected action: {other:?}"),
    }
}

#[test]
fn rebuilt_mailboxes_are_read_from_the_start() {
    let state = Some(MailboxState {
        uidvalidity: 2,
        last_seen_uid: 30,
        highest_modseq: Some(6),
        synced_at: None,
    });
    let window = plan_window(&state, snapshot(5));
    assert_eq!((window.after_uid, window.since_modseq), (0, None));
    assert_eq!(window.last_seen_uid, 30);
    let same = MailboxSnapshot {
        uidvalidity: 2,
        highest_uid: 35,
        highest_modseq: None,
    };
    let window = plan_window(&state, same);
    assert_eq!((window.after_uid, window.since_modseq), (30, Some(6)));
    assert_eq!(plan_window(&None, same).after_uid, 0);
}

#[test]
fn attempts_are_as_many_as_requested() {
    assert_eq!(Retry::begin(0), Retry { attempt: 1, attempts: 1 });
    assert_eq!(Retry::begin(0).again(), None);
    let second = Retry::begin(3).again().expect("second");
    let third = second.again().expect("third");
    assert_eq!(third.attempt, 3);
    assert_eq!(third.again(), None);
}

#[test]
fn runs_retry_and_then_fail() {
    let mut asked = request("io-uring");
    asked.reconnect_attempts = 2;
    let (job, action) = run(&runtime("x"), asked).expect("job");
    assert!(matches!(&action, JobAction::Attempt { mailbox, delay_ms: 0, .. } if mailbox == "io-uring"));
    let failure = || CriewError::new(ErrorCode::Imap, "down".to_string());
    let (job, action) = job.next(Err(failure()));
    assert!(matches!(action, JobAction::Attempt { delay_ms: 200, .. }));
    let (job, action) = job.expect("second attempt").next(Err(failure()));
    assert!(job.is_none());
    assert!(matches!(&action, JobAction::Fail(error) if error.message == "down"));
}

#[test]
fn sent_mail_is_added_and_cannot_fail_the_whole() {
    let mut config = runtime("x");
    config.imap.sent_mailbox = Some("  Sent  ".to_string());
    let (job, _) = run(&config, request("following")).expect("job");
    let (job, action) = job.next(Ok(summary(3)));
    match action {
        JobAction::Attempt {
            mailbox,
            source: SyncSource::FollowingSent { self_email, mailbox: sent },
            ..
        } => {
            assert_eq!(mailbox, "Sent");
            assert_eq!(sent, "Sent");
            assert_eq!(self_email, "me@example.com");
        }
        other => panic!("unexpected action: {other:?}"),
    }
    let job = job.expect("sent pass");
    assert!(can_add(job.summary.as_ref().expect("summary"), &summary(4)));
    let (_, action) = job.next(Ok(summary(4)));
    match action {
        JobAction::Return(total) => {
            assert_eq!(total.fetched, 7);
            assert_eq!(total.rebuilt_roots, 2);
            assert_eq!(total.mailbox, "m");
        }
        other => panic!("unexpected action: {other:?}"),
    }

    let (job, _) = run(&config, request("INBOX")).expect("job");
    let (job, _) = job.next(Ok(summary(3)));
    let (job, action) = job
        .expect("sent pass")
        .next(Err(CriewError::new(ErrorCode::Imap, "no".to_string())));
    assert!(job.is_none());
    assert!(matches!(&action, JobAction::Return(total) if total.fetched == 3));

    for unused in ["  ", "Inbox"] {
        config.imap.sent_mailbox = Some(unused.to_string());
        let (job, _) = run(&config, request("Following")).expect("job");
        let (_, action) = job.next(Ok(summary(3)));
        assert!(matches!(action, JobAction::Return(_)));
    }
}

#[test]
fn incomplete_accounts_are_refused() {
    let mut config = runtime("x");
    config.imap.pass = None;
    config.imap.server_port = None;
    let error = run(&config, request("Following")).expect_err("incomplete");
    assert_eq!(
        error.message,
        "IMAP config is incomplete for Following: missing imap.pass, imap.serverport"
    );
    let mut config = runtime("x");
    config.imap.email = None;
    let error = resolve_sync_source(&config, &request("inbox")).expect_err("no address");
    assert_eq!(
        error.message,
        "self email is required for Following discovery; set imap.email or git config user.email"
    );
    config.git_user_email = Some("git@example.com".to_string());
    let source = resolve_sync_source(&config, &request("inbox")).expect("source");
    assert_eq!(source.following_self_email(), Some("git@example.com"));
}

#[test]
fn thread_fetches_name_their_message() {
    let (_, action) = fetch_thread(
        &runtime("x"),
        ThreadFetchRequest {
            mailbox: "io-uring".to_string(),
            message_id: "<m@x>".to_string(),
            reconnect_attempts: 0,
        },
    )
    .expect("job");
    match action {
        JobAction::Attempt { goal: Goal::Thread { message_id }, source, .. } => {
            assert_eq!(message_id, "<m@x>");
            assert_eq!(source.label(), "https://lore.kernel.org");
        }
        other => panic!("unexpected action: {other:?}"),
    }
    assert_eq!(normalize_requested_message_id("  <<m@x> "), "m@x");
}

#[test]
fn sources_have_labels_clients_and_mailboxes() {
    let fixture = SyncSource::Fixture {
        fixture_dir: "/d".to_string(),
        uidvalidity_hint: 4,
    };
    assert_eq!(fixture.label(), "/d");
    assert!(fixture.is_fixture() && !fixture.is_following_sent());
    assert!(matches!(fixture.client(), ClientPlan::Fixture { uidvalidity_hint: 4, .. }));
    assert_eq!(fixture.storage_mailbox("m"), "m");
    let sent = SyncSource::FollowingSent {
        self_email: "me@x".to_string(),
        mailbox: "Sent".to_string(),
    };
    assert_eq!(sent.label(), "imap-following-sent:Sent");
    assert!(matches!(sent.client(), ClientPlan::RemoteImap));
    assert_eq!(sent.storage_mailbox("Sent"), "Sent");
    assert_eq!(SyncSource::GnuArchive.label(), "https://lists.gnu.org/archive/mbox");
    assert!(matches!(SyncSource::GnuArchive.client(), ClientPlan::GnuArchive));
    assert!(lore().select_thread_snapshot(&None).is_some());
    assert!(sent.select_thread_snapshot(&None).is_none());
    assert_eq!(max_option(None, Some(1)), Some(1));
    assert_eq!(max_option(Some(3), Some(1)), Some(3));
    assert_eq!(max_option(None, None), None);
}

#[test]
fn following_matches_recipients_and_own_mail() {
    let headers = |text: &str| mail_parser::parse_header_text(text, "i@x".to_string());
    assert!(is_following_match(&headers("To: Me <ME@x>\n\n"), "me@x"));
    assert!(is_following_match(&headers("Cc: a@x, me@x\n\n"), "<me@X>"));
    assert!(is_following_match(&headers("From: me@x\nSubject: [PATCH] a\n\n"), "me@x"));
    assert!(!is_following_match(&headers("From: me@x\nSubject: lunch\n\n"), "me@x"));
    assert!(!is_following_match(&headers("From: you@x\nSubject: [PATCH] a\n\n"), "me@x"));
    assert!(!is_following_match(&headers("To: me@x\n\n"), "nobody"));
}

#[test]
fn circular_ancestry_stands_for_itself() {
    let selection = select_initial_inbox_messages(
        "list",
        vec![
            remote(1, "Message-ID: <a@x>\nSubject: [PATCH] a\nReferences: <b@x>\n\n"),
            remote(2, "Message-ID: <b@x>\nSubject: [PATCH] b\nReferences: <a@x>\n\n"),
            remote(3, "Message-ID: <c@x>\nSubject: [PATCH] c\nReferences: <c@x>\nIn-Reply-To: <a@x>\n\n"),
            remote(0, "Message-ID: <d@x>\nSubject: [PATCH] d\nReferences: <root@x> <gone@x>\n\n"),
            remote(5, "Message-ID: <e@x>\nSubject: [PATCH] e\nReferences: <root@x> <d@x>\n\n"),
        ],
    );
    // a, b and c each stand for themselves; d and e share the missing root.
    assert_eq!(selection.selected_threads, 4);
    assert_eq!(selection.patch_related, 5);
    assert_eq!(selection.selected_uids, vec![1, 2, 3, 5]);
}

#[test]
fn fetching_a_thread_twice_stores_the_same_messages() {
    let thread = || {
        vec![
            remote(0, "Message-ID: <wanted@x>\nSubject: [PATCH] a\n\n"),
            remote(0, "Subject: Re: [PATCH] a\n\n"),
        ]
    };
    let fetch = |last_seen_uid: Option<u32>, mails: Vec<RemoteMail>| {
        let goal = Goal::Thread {
            message_id: "<wanted@x>".to_string(),
        };
        let checkpoint = last_seen_uid.map(|last_seen_uid| MailboxState {
            uidvalidity: 1,
            last_seen_uid,
            highest_modseq: None,
            synced_at: None,
        });
        let (pass, _) = SyncRun::start("io-uring".to_string(), lore(), goal);
        let (pass, _) = pass.step(SyncEvent::Checkpoint(checkpoint));
        let (pass, _) = pass.step(SyncEvent::Connected);
        pass.step(SyncEvent::Mails(mails))
    };
    let ids = |action: &SyncAction| match action {
        SyncAction::Store(batch) => batch
            .mails
            .iter()
            .map(|mail| mail.parsed.message_id.clone())
            .collect::<Vec<String>>(),
        other => panic!("unexpected action: {other:?}"),
    };
    let (_, first) = fetch(None, thread());
    let (pass, second) = fetch(Some(2), thread());
    assert_eq!(ids(&first), vec!["wanted@x", "synthetic-io-uring-1@local"]);
    assert_eq!(ids(&first), ids(&second));

    // A store that files by identifier holds all of them already.
    let mut held: Vec<String> = ids(&first);
    let fresh: Vec<String> = ids(&second).into_iter().filter(|id| !held.contains(id)).collect();
    let result = SyncWriteResult {
        inserted: fresh.len(),
        updated: 2,
        rebuilt_roots: 0,
        mailbox_rebuilt: false,
        state: MailboxState {
            uidvalidity: 1,
            last_seen_uid: 4,
            highest_modseq: None,
            synced_at: None,
        },
    };
    held.extend(fresh);
    assert_eq!(held.len(), 2);
    let (pass, _) = pass.step(SyncEvent::Stored(result));
    let (_, action) = pass.step(SyncEvent::Refreshed);
    assert!(matches!(action, SyncAction::Finish(summary) if summary.inserted == 0 && summary.updated == 2));

    let other = || vec![remote(1, "Message-ID: <no@x>\n\n")];
    let (_, first) = fetch(None, other());
    let (_, second) = fetch(Some(9), other());
    match (first, second) {
        (SyncAction::Fail(first), SyncAction::Fail(second)) => assert_eq!(first, second),
        other => panic!("unexpected actions: {other:?}"),
    }
}

#[test]
fn mails_that_a_source_is_not_about_are_counted() {
    let source = SyncSource::FollowingSent {
        self_email: "me@x".to_string(),
        mailbox: "Sent".to_string(),
    };
    let (pass, _) = opened("Sent", source, None, 1, 2);
    let (pass, _) = pass.step(SyncEvent::Mails(vec![
        remote(1, "Message-ID: <a@x>\nFrom: me@x\nSubject: [PATCH] a\n\n"),
        remote(2, "Message-ID: <b@x>\nFrom: me@x\nSubject: lunch\n\n"),
    ]));
    assert!(matches!(pass.stage, Stage::Storing { fetched: 1, filtered_out: 1 }));
}
