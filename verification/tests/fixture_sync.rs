use std::collections::BTreeMap;

use criew::config::{ImapConfig, RuntimeConfig};
use criew::imap::{MailboxSnapshot, RemoteMail};
use criew::mail_store::{MailboxState, SyncBatch, SyncWriteResult};
use criew::patch::subject_is_patch_related;
use criew::sync::{run, Goal, JobAction, SyncAction, SyncEvent, SyncRequest, SyncRun, SyncSource, SyncSummary};

/// A mailbox in memory: the mails of the source, and what was stored of them.
struct Mailbox {
    mails: Vec<RemoteMail>,
    state: Option<(u64, u32, Option<u64>)>,
    stored: BTreeMap<String, String>,
}

impl Mailbox {
    fn with(texts: &[String]) -> Mailbox {
        let mails = texts
            .iter()
            .zip(1u32..)
            .map(|(text, uid)| RemoteMail {
                uid,
                modseq: Some(u64::from(uid)),
                flags: Vec::new(),
                raw: text.clone().into_bytes(),
            })
            .collect();
        Mailbox {
            mails,
            state: None,
            stored: BTreeMap::new(),
        }
    }

    fn checkpoint(&self) -> Option<MailboxState> {
        self.state.map(|(uidvalidity, last_seen_uid, highest_modseq)| MailboxState {
            uidvalidity,
            last_seen_uid,
            highest_modseq,
            synced_at: None,
        })
    }

    fn after(&self, uid: u32) -> Vec<RemoteMail> {
        self.mails.iter().filter(|mail| mail.uid > uid).cloned().collect()
    }

    fn store(&mut self, batch: &SyncBatch) -> SyncWriteResult {
        let mut inserted = 0;
        for mail in &batch.mails {
            let known = self
                .stored
                .insert(mail.parsed.message_id.clone(), mail.parsed.subject.clone());
            if known.is_none() {
                inserted += 1;
            }
        }
        self.state = Some((batch.uidvalidity, batch.highest_uid, batch.highest_modseq));
        SyncWriteResult {
            inserted,
            updated: batch.mails.len() - inserted,
            rebuilt_roots: 0,
            mailbox_rebuilt: false,
            state: self.checkpoint().expect("just stored"),
        }
    }

    fn pass(&mut self, mailbox: String, source: SyncSource, goal: Goal) -> SyncSummary {
        let (mut pass, mut action) = SyncRun::start(mailbox, source, goal);
        loop {
            let event = match action {
                SyncAction::LoadCheckpoint { .. } => SyncEvent::Checkpoint(self.checkpoint()),
                SyncAction::CountMessages { .. } => SyncEvent::Counted(self.stored.len()),
                SyncAction::Connect(_) => SyncEvent::Connected,
                SyncAction::SelectMailbox { .. } => SyncEvent::Selected(MailboxSnapshot {
                    uidvalidity: 1,
                    highest_uid: self.mails.len() as u32,
                    highest_modseq: None,
                }),
                SyncAction::FetchHeaders { after_uid, .. }
                | SyncAction::FetchIncremental { after_uid, .. } => {
                    SyncEvent::Mails(self.after(after_uid))
                }
                SyncAction::FetchFull { uids, .. } => SyncEvent::Mails(
                    self.mails.iter().filter(|mail| uids.contains(&mail.uid)).cloned().collect(),
                ),
                SyncAction::Store(batch) => SyncEvent::Stored(self.store(&batch)),
                SyncAction::RefreshSeries { .. } => SyncEvent::Refreshed,
                SyncAction::PruneMailbox { .. } => {
                    self.stored.retain(|_, subject| subject_is_patch_related(subject));
                    SyncEvent::Pruned
                }
                SyncAction::Finish(summary) => return summary,
                other => panic!("unexpected action: {other:?}"),
            };
            assert!(pass.awaits(&event));
            (pass, action) = pass.step(event);
        }
    }

    fn sync(&mut self) -> SyncSummary {
        let request = SyncRequest {
            mailbox: "inbox".to_string(),
            fixture_dir: Some("fixture".to_string()),
            uidvalidity: Some(1),
            reconnect_attempts: 1,
        };
        let (job, action) = run(&config(), request).expect("a fixture needs no account");
        match action {
            JobAction::Attempt { mailbox, source, goal, .. } => {
                let summary = self.pass(mailbox, source, goal);
                match job.next(Ok(summary)).1 {
                    JobAction::Return(summary) => summary,
                    other => panic!("unexpected action: {other:?}"),
                }
            }
            other => panic!("unexpected action: {other:?}"),
        }
    }
}

fn config() -> RuntimeConfig {
    RuntimeConfig {
        config_path: "config.toml".to_string(),
        data_dir: "data".to_string(),
        database_path: "data/criew.db".to_string(),
        raw_mail_dir: "data/raw".to_string(),
        patch_dir: "data/patches".to_string(),
        log_dir: "data/logs".to_string(),
        b4_path: None,
        log_filter: "info".to_string(),
        source_mailbox: "inbox".to_string(),
        imap: ImapConfig {
            email: None,
            user: None,
            pass: None,
            server: None,
            server_port: None,
            encryption: None,
            proxy: None,
            sent_mailbox: None,
        },
        git_user_email: None,
        lore_base_url: "https://lore.kernel.org".to_string(),
        startup_sync: true,
        allow_preview_resize: false,
        kernel_trees: Vec::new(),
    }
}

#[test]
fn sync_worker_imports_fixture_mails_and_builds_threads() {
    let mut mailbox = Mailbox::with(&[
        "Message-ID: <root@example.com>\nSubject: [PATCH 0/2] root\nFrom: alice@example.com\n\nbody\n".to_string(),
        "Message-ID: <reply@example.com>\nSubject: Re: [PATCH 0/2] root\nFrom: bob@example.com\nIn-Reply-To: <root@example.com>\nReferences: <root@example.com>\n\nbody\n".to_string(),
    ]);

    let first = mailbox.sync();
    assert_eq!(first.fetched, 2);
    assert_eq!(first.inserted, 2);
    assert_eq!(first.updated, 0);

    let second = mailbox.sync();
    assert_eq!(second.fetched, 0);
    assert_eq!(second.inserted, 0);
    assert_eq!(second.updated, 0);

    assert_eq!(mailbox.stored.len(), 2);
}

#[test]
fn inbox_sync_keeps_only_patch_related_mail() {
    let mut mailbox = Mailbox::with(&[
        "Message-ID: <cover@example.com>\nSubject: [PATCH 0/1] demo\nFrom: alice@example.com\n\nbody\n".to_string(),
        "Message-ID: <reply@example.com>\nSubject: Re: [PATCH 0/1] demo\nFrom: bob@example.com\nIn-Reply-To: <cover@example.com>\nReferences: <cover@example.com>\n\nbody\n".to_string(),
        "Message-ID: <status@example.com>\nSubject: Weekly status update\nFrom: carol@example.com\n\nbody\n".to_string(),
    ]);

    let summary = mailbox.sync();
    assert_eq!(summary.fetched, 2);
    assert_eq!(summary.inserted, 2);

    assert_eq!(mailbox.stored.len(), 2);
    assert!(mailbox.stored.values().all(|subject| subject.contains("[PATCH")));
}

#[test]
fn initial_empty_mailbox_sync_keeps_all_patch_threads() {
    let texts: Vec<String> = (1..=25u32)
        .map(|uid| format!("Message-ID: <thread-{uid}@example.com>\nSubject: [PATCH] thread {uid}\n\nbody\n"))
        .collect();
    let mut mailbox = Mailbox::with(&texts);

    let summary = mailbox.sync();
    assert_eq!(summary.fetched, 25);
    assert_eq!(summary.inserted, 25);
    assert_eq!(summary.checkpoint_last_seen_uid, 25);

    assert_eq!(mailbox.stored.len(), 25);
    assert!(mailbox.stored.contains_key("thread-1@example.com"));
    assert!(mailbox.stored.contains_key("thread-25@example.com"));
}
