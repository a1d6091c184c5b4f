use std::collections::BTreeMap;

use criew::catalog::{CatalogWrite, RefreshAction, RefreshEvent, RefreshRun};
use criew::error::{CriewError, ErrorCode};
use criew::series_store::{load_catalog, refresh, CatalogMail, RefreshPlan, SeriesCatalog, StoredMember, StoredRevision};

#[derive(Clone, Debug, PartialEq)]
struct Revision {
    expected_total: u32,
    completeness: String,
    members: Vec<(u32, u32, i64, String)>,
    followups: usize,
    status: String,
}

#[derive(Clone, Debug, PartialEq)]
struct Change {
    subject: String,
    author: String,
    revisions: BTreeMap<u32, Revision>,
}

type Table = BTreeMap<String, Change>;

fn mail(mail_id: i64, subject: &str, change_id: Option<&str>) -> CatalogMail {
    CatalogMail::from_row(
        mail_id,
        None,
        mail_id,
        change_id.map(ToOwned::to_owned),
        subject.to_string(),
        "Alice <alice@example.com>".to_string(),
    )
}

fn mails() -> Vec<CatalogMail> {
    vec![
        mail(1, "[PATCH 0/2] mm: tidy up", None),
        mail(2, "[PATCH 1/2] mm: tidy up", None),
        mail(3, "Re: [PATCH 1/2] mm: tidy up", None),
        mail(4, "[PATCH v2 1/1] mm: tidy up", None),
    ]
}

fn write(table: &mut Table, plan: &RefreshPlan, write: CatalogWrite) {
    match write {
        CatalogWrite::Put { change } => {
            let row = &plan.changes[change];
            let entry = table.entry(row.change_key.clone()).or_insert(Change {
                subject: String::new(),
                author: String::new(),
                revisions: BTreeMap::new(),
            });
            entry.subject = row.subject.clone();
            entry.author = row.author.clone();
            for revision in &row.revisions {
                let status = match entry.revisions.get(&revision.revision) {
                    Some(old) => old.status.clone(),
                    None => "new".to_string(),
                };
                let members = revision
                    .members
                    .iter()
                    .map(|m| (m.seq, m.total, m.mail_id, m.subject.clone()))
                    .collect();
                entry.revisions.insert(
                    revision.revision,
                    Revision {
                        expected_total: revision.expected_total,
                        completeness: revision.completeness.to_string(),
                        members,
                        followups: revision.followups.len(),
                        status,
                    },
                );
            }
        }
        CatalogWrite::Remove { stale } => {
            table.remove(&plan.stale[stale]);
        }
        CatalogWrite::Commit => {}
    }
}

/// Refreshes a table; the write after `good` ones fails.
fn run(table: &Table, rows: Vec<CatalogMail>, good: usize) -> (Table, Result<usize, CriewError>) {
    let plan = refresh(rows, table.keys().cloned().collect());
    let mut pending = table.clone();
    let mut committed = table.clone();
    let mut done = 0;
    let (mut refresh, mut action) = RefreshRun::start(plan);
    loop {
        let asked = match action {
            RefreshAction::Finish(count) => return (committed, Ok(count)),
            RefreshAction::Fail(error) => return (committed, Err(error)),
            RefreshAction::Write(asked) => asked,
        };
        let event = if done == good {
            RefreshEvent::Failed(CriewError::new(ErrorCode::Database, "full".to_string()))
        } else {
            write(&mut pending, &refresh.plan, asked);
            if asked == CatalogWrite::Commit {
                committed = pending.clone();
            }
            RefreshEvent::Done
        };
        done += 1;
        (refresh, action) = refresh.step(event);
    }
}

fn show(table: &Table) -> Vec<SeriesCatalog> {
    let mut rows = Vec::new();
    for (key, change) in table {
        for (number, revision) in &change.revisions {
            rows.push(StoredRevision {
                change_key: key.clone(),
                revision: i64::from(*number),
                thread_id: None,
                subject: change.subject.clone(),
                author: change.author.clone(),
                expected_total: i64::from(revision.expected_total),
                members: revision
                    .members
                    .iter()
                    .map(|(seq, total, mail_id, subject)| StoredMember {
                        seq: i64::from(*seq),
                        total: i64::from(*total),
                        mail_id: *mail_id,
                        message_id: format!("m{mail_id}@x"),
                        subject: subject.clone(),
                        raw_path: None,
                    })
                    .collect(),
                followup_count: revision.followups as i64,
                completeness: revision.completeness.clone(),
                status: revision.status.clone(),
            });
        }
    }
    load_catalog(rows)
}

#[test]
fn refreshing_twice_changes_nothing() {
    let (once, count) = run(&Table::new(), mails(), usize::MAX);
    assert_eq!(count, Ok(2));
    let (twice, count) = run(&once, mails(), usize::MAX);
    assert_eq!(count, Ok(2));
    assert_eq!(once, twice);
    let shown = show(&once);
    assert_eq!(shown, show(&twice));
    assert_eq!(shown.len(), 2);
    assert_eq!(shown[0].missing, vec![2]);
    assert_eq!(shown[0].followup_count, 1);
    assert_eq!(shown[1].completeness, "complete");
}

#[test]
fn expunged_series_leave_and_others_keep_their_status() {
    let mut rows = mails();
    let mut other = mail(9, "[PATCH] net: another thing", None);
    other.from_addr = "Bob <bob@example.com>".to_string();
    rows.push(other);
    let (mut table, count) = run(&Table::new(), rows, usize::MAX);
    assert_eq!(count, Ok(3));
    assert_eq!(table.len(), 2);
    let gone = table
        .iter()
        .find(|(_, change)| change.subject.starts_with("net"))
        .map(|(key, _)| key.clone())
        .expect("stored");
    for change in table.values_mut() {
        for revision in change.revisions.values_mut() {
            revision.status = "applied".to_string();
        }
    }
    let (table, count) = run(&table, mails(), usize::MAX);
    assert_eq!(count, Ok(2));
    assert!(show(&table).iter().all(|item| item.change_key != gone));
    assert!(show(&table).iter().all(|item| item.status == "applied"));
}

#[test]
fn failed_refreshes_change_nothing() {
    let (table, _) = run(&Table::new(), vec![mail(9, "[PATCH] net: another thing", None)], usize::MAX);
    // One series is written, one removed, then all is committed.
    for good in 0..3 {
        let (after, outcome) = run(&table, mails(), good);
        assert_eq!(outcome.expect_err("failed").message, "full");
        assert_eq!(after, table);
    }
    let (after, outcome) = run(&table, mails(), 3);
    assert_eq!(outcome, Ok(2));
    assert_ne!(after, table);
}

#[test]
fn refreshes_write_then_remove_then_commit() {
    let plan = refresh(mails(), vec!["change:old".to_string()]);
    let (refresh_run, action) = RefreshRun::start(plan);
    assert!(matches!(action, RefreshAction::Write(CatalogWrite::Put { change: 0 })));
    let (refresh_run, action) = refresh_run.step(RefreshEvent::Done);
    assert!(matches!(action, RefreshAction::Write(CatalogWrite::Remove { stale: 0 })));
    let (refresh_run, action) = refresh_run.step(RefreshEvent::Done);
    assert!(matches!(action, RefreshAction::Write(CatalogWrite::Commit)));
    let (refresh_run, action) = refresh_run.step(RefreshEvent::Done);
    assert!(matches!(action, RefreshAction::Finish(2)));
    assert_eq!(refresh_run.write, None);
    let (_, action) = RefreshRun::start(refresh(Vec::new(), Vec::new()));
    assert!(matches!(action, RefreshAction::Write(CatalogWrite::Commit)));
}

#[test]
fn single_change_ids_decide_nothing() {
    let keys = |change_id| {
        refresh(vec![mail(1, "[PATCH] a b c", change_id), mail(2, "[PATCH] a b c", None)], Vec::new())
            .changes
            .len()
    };
    assert_eq!(keys(Some("I1")), 1);
    assert_eq!(keys(None), 1);
}
