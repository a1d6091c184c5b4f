//! The stored catalog, and how a refresh changes it.
//!
//! A refresh writes every series of a source, removes the series that are gone,
//! and commits, all in one transaction. This module says which write comes next
//! and what the tables hold after it.

use crate::error::CriewError;
use crate::series_store;
use crate::series_store::ChangeRow;
use crate::series_store::FollowupRow;
use crate::series_store::GroupView;
use crate::series_store::MailView;
use crate::series_store::MemberRow;
use crate::series_store::RefreshPlan;
use crate::series_store::RevisionRow;
use crate::series_store::SeriesCatalog;
use crate::series_store::SeriesMember;
use crate::series_store::StoredMember;
use crate::series_store::StoredRevision;
use crate::text;
use vstd::prelude::*;

verus! {

// ---------------------------------------------------------------------------
// The tables
// ---------------------------------------------------------------------------

/// A stored patch, apart from its sequence number.
pub struct MemberEntry {
    pub total: u32,
    pub mail_id: i64,
    pub subject: Seq<char>,
    pub is_cover: bool,
}

/// A stored revision, apart from its number. Its status belongs to those who
/// review it: a refresh never writes it.
#[verifier::ext_equal]
pub struct RevisionEntry {
    pub expected_total: u32,
    pub cover_mail_id: Option<i64>,
    pub completeness: Seq<char>,
    pub fingerprint: Seq<char>,
    pub thread_key: Option<Seq<char>>,
    pub members: Map<u32, MemberEntry>,
    pub followups: Map<i64, Option<u32>>,
    pub status: Seq<char>,
}

/// A stored series, apart from its key.
#[verifier::ext_equal]
pub struct ChangeEntry {
    pub source: Seq<char>,
    pub change_id: Option<Seq<char>>,
    pub subject: Seq<char>,
    pub author: Seq<char>,
    pub revisions: Map<u32, RevisionEntry>,
}

/// The member rows by sequence number.
pub open spec fn members_of(rows: Seq<MemberRow>) -> Map<u32, MemberEntry>
    decreases rows.len(),
{
    if rows.len() == 0 {
        Map::empty()
    } else {
        let row = rows.last();
        members_of(rows.drop_last()).insert(
            row.seq,
            MemberEntry {
                total: row.total,
                mail_id: row.mail_id,
                subject: row.subject@,
                is_cover: row.is_cover,
            },
        )
    }
}

/// The follow-up rows by mail.
pub open spec fn followups_of(rows: Seq<FollowupRow>) -> Map<i64, Option<u32>>
    decreases rows.len(),
{
    if rows.len() == 0 {
        Map::empty()
    } else {
        followups_of(rows.drop_last()).insert(rows.last().mail_id, rows.last().member_seq)
    }
}

/// The thread of a revision: the one that is written, or else the one that was
/// there.
pub open spec fn kept_thread(
    there: Map<u32, RevisionEntry>,
    revision: u32,
    written: Option<Seq<char>>,
) -> Option<Seq<char>> {
    if written is Some {
        written
    } else if there.contains_key(revision) {
        there[revision].thread_key
    } else {
        None
    }
}

/// The status of a revision: the one that was there, or else the one that a new
/// revision gets.
pub open spec fn kept_status(
    there: Map<u32, RevisionEntry>,
    revision: u32,
    fresh: Seq<char>,
) -> Seq<char> {
    if there.contains_key(revision) {
        there[revision].status
    } else {
        fresh
    }
}

/// The revisions with one more written. Members and follow-ups are replaced.
pub open spec fn put_revision(
    there: Map<u32, RevisionEntry>,
    row: RevisionRow,
    thread_key: Option<Seq<char>>,
    fresh: Seq<char>,
) -> Map<u32, RevisionEntry> {
    there.insert(
        row.revision,
        RevisionEntry {
            expected_total: row.expected_total,
            cover_mail_id: row.cover_mail_id,
            completeness: row.completeness@,
            fingerprint: row.fingerprint@,
            thread_key: kept_thread(there, row.revision, thread_key),
            members: members_of(row.members@),
            followups: followups_of(row.followups@),
            status: kept_status(there, row.revision, fresh),
        },
    )
}

/// The revisions with some more written, one after the other.
pub open spec fn put_revisions(
    there: Map<u32, RevisionEntry>,
    rows: Seq<RevisionRow>,
    thread_key: Option<Seq<char>>,
    fresh: Seq<char>,
) -> Map<u32, RevisionEntry>
    decreases rows.len(),
{
    if rows.len() == 0 {
        there
    } else {
        put_revision(
            put_revisions(there, rows.drop_last(), thread_key, fresh),
            rows.last(),
            thread_key,
            fresh,
        )
    }
}

/// The revisions that are stored under a key.
pub open spec fn stored_revisions(
    table: Map<Seq<char>, ChangeEntry>,
    change_key: Seq<char>,
) -> Map<u32, RevisionEntry> {
    if table.contains_key(change_key) {
        table[change_key].revisions
    } else {
        Map::empty()
    }
}

/// The tables with one series written. Revisions that it does not write stay.
pub open spec fn put_change(
    table: Map<Seq<char>, ChangeEntry>,
    source: Seq<char>,
    row: ChangeRow,
    fresh: Seq<char>,
) -> Map<Seq<char>, ChangeEntry> {
    table.insert(
        row.change_key@,
        ChangeEntry {
            source,
            change_id: text::opt_text(row.change_id),
            subject: row.subject@,
            author: row.author@,
            revisions: put_revisions(
                stored_revisions(table, row.change_key@),
                row.revisions@,
                text::opt_text(row.thread_key),
                fresh,
            ),
        },
    )
}

/// The tables with the first `n` series written.
pub open spec fn put_changes(
    table: Map<Seq<char>, ChangeEntry>,
    source: Seq<char>,
    rows: Seq<ChangeRow>,
    n: int,
    fresh: Seq<char>,
) -> Map<Seq<char>, ChangeEntry>
    decreases n,
{
    if n <= 0 {
        table
    } else {
        put_change(put_changes(table, source, rows, n - 1, fresh), source, rows[n - 1], fresh)
    }
}

/// The tables with one series of a source removed.
pub open spec fn remove_change(
    table: Map<Seq<char>, ChangeEntry>,
    source: Seq<char>,
    change_key: Seq<char>,
) -> Map<Seq<char>, ChangeEntry> {
    if table.contains_key(change_key) && table[change_key].source == source {
        table.remove(change_key)
    } else {
        table
    }
}

/// The tables with the first `n` series of a source removed.
pub open spec fn remove_changes(
    table: Map<Seq<char>, ChangeEntry>,
    source: Seq<char>,
    keys: Seq<Seq<char>>,
    n: int,
) -> Map<Seq<char>, ChangeEntry>
    decreases n,
{
    if n <= 0 {
        table
    } else {
        remove_change(remove_changes(table, source, keys, n - 1), source, keys[n - 1])
    }
}

/// The tables with every series of a plan written.
pub open spec fn all_put(
    table: Map<Seq<char>, ChangeEntry>,
    source: Seq<char>,
    plan: RefreshPlan,
    fresh: Seq<char>,
) -> Map<Seq<char>, ChangeEntry> {
    put_changes(table, source, plan.changes@, plan.changes@.len() as int, fresh)
}

/// The tables after a refresh by a plan. `fresh` is the status that the database
/// gives to a new revision.
pub open spec fn refreshed(
    table: Map<Seq<char>, ChangeEntry>,
    source: Seq<char>,
    plan: RefreshPlan,
    fresh: Seq<char>,
) -> Map<Seq<char>, ChangeEntry> {
    remove_changes(
        all_put(table, source, plan, fresh),
        source,
        text::texts(plan.stale@),
        plan.stale@.len() as int,
    )
}

/// Whether a list holds the keys of a source's series.
pub open spec fn lists_keys(
    keys: Seq<Seq<char>>,
    table: Map<Seq<char>, ChangeEntry>,
    source: Seq<char>,
) -> bool {
    forall|key: Seq<char>| #[trigger]
        keys.contains(key) <==> table.contains_key(key) && table[key].source == source
}

// ---------------------------------------------------------------------------
// The transaction
// ---------------------------------------------------------------------------

/// One write of a refresh.
#[derive(Debug, Clone, Copy, PartialEq, Eq, Structural)]
pub enum CatalogWrite {
    /// Write a series of the plan, with its revisions, members and follow-ups.
    Put { change: usize },
    /// Remove a stale key of the plan.
    Remove { stale: usize },
    /// Make what was written permanent.
    Commit,
}

/// What a refresh asks for.
#[derive(Debug)]
pub enum RefreshAction {
    Write(CatalogWrite),
    Finish(usize),
    /// Roll the transaction back and report the error.
    Fail(CriewError),
}

/// What came of a write.
#[derive(Debug)]
pub enum RefreshEvent {
    Done,
    Failed(CriewError),
}

/// A refresh that is being carried out. Once it is over it waits for no write.
#[derive(Debug)]
pub struct RefreshRun {
    pub plan: RefreshPlan,
    pub write: Option<CatalogWrite>,
}

/// The write from the `stale`th removal on.
pub open spec fn removal_from(plan: RefreshPlan, stale: int) -> CatalogWrite {
    if stale < plan.stale@.len() {
        CatalogWrite::Remove { stale: stale as usize }
    } else {
        CatalogWrite::Commit
    }
}

/// The write from the `change`th series on.
pub open spec fn write_from(plan: RefreshPlan, change: int) -> CatalogWrite {
    if change < plan.changes@.len() {
        CatalogWrite::Put { change: change as usize }
    } else {
        removal_from(plan, 0)
    }
}

/// The write after another. Nothing follows the commit.
pub open spec fn following_write(plan: RefreshPlan, write: CatalogWrite) -> Option<CatalogWrite> {
    match write {
        CatalogWrite::Put { change } => Some(write_from(plan, change + 1)),
        CatalogWrite::Remove { stale } => Some(removal_from(plan, stale + 1)),
        CatalogWrite::Commit => None,
    }
}

/// Finds the write from a removal on.
fn next_removal(plan: &RefreshPlan, stale: usize) -> (r: CatalogWrite)
    ensures
        r == removal_from(*plan, stale as int),
{
    if stale < plan.stale.len() {
        CatalogWrite::Remove { stale }
    } else {
        CatalogWrite::Commit
    }
}

/// Finds the write from a series on.
fn next_put(plan: &RefreshPlan, change: usize) -> (r: CatalogWrite)
    ensures
        r == write_from(*plan, change as int),
{
    if change < plan.changes.len() {
        CatalogWrite::Put { change }
    } else {
        next_removal(plan, 0)
    }
}

impl RefreshRun {
    /// A write that is waited for is one of the plan.
    pub open spec fn wf(self) -> bool {
        match self.write {
            Some(CatalogWrite::Put { change }) => change < self.plan.changes@.len(),
            Some(CatalogWrite::Remove { stale }) => stale < self.plan.stale@.len(),
            _ => true,
        }
    }

    /// What a refresh does about an event: it goes on to the next write, and
    /// gives up at the first that failed.
    pub open spec fn steps_to(
        self,
        event: RefreshEvent,
        next: RefreshRun,
        action: RefreshAction,
    ) -> bool {
        &&& next.plan == self.plan
        &&& match (self.write, event) {
            (Some(write), RefreshEvent::Done) => {
                &&& next.write == following_write(self.plan, write)
                &&& action == match next.write {
                    Some(asked) => RefreshAction::Write(asked),
                    None => RefreshAction::Finish(self.plan.persisted),
                }
            },
            (Some(_), RefreshEvent::Failed(error)) => {
                &&& next.write is None
                &&& action == RefreshAction::Fail(error)
            },
            (None, _) => true,
        }
    }

    /// How many writes are left.
    pub open spec fn writes_left(self) -> int {
        let last = self.plan.changes@.len() + self.plan.stale@.len() + 1;
        match self.write {
            Some(CatalogWrite::Put { change }) => last - change,
            Some(CatalogWrite::Remove { stale }) => last - self.plan.changes@.len() - stale,
            Some(CatalogWrite::Commit) => 1,
            None => 0,
        }
    }

    /// Begins a refresh by a plan.
    pub fn start(plan: RefreshPlan) -> (r: (RefreshRun, RefreshAction))
        ensures
            r.0.plan == plan,
            r.0.write == Some(write_from(plan, 0)),
            r.1 == RefreshAction::Write(write_from(plan, 0)),
            r.0.wf(),
    {
        let first = next_put(&plan, 0);
        (RefreshRun { plan, write: Some(first) }, RefreshAction::Write(first))
    }

    /// Goes on after a write.
    pub fn step(self, event: RefreshEvent) -> (r: (RefreshRun, RefreshAction))
        requires
            self.wf(),
            self.write is Some,
        ensures
            self.steps_to(event, r.0, r.1),
            r.0.wf(),
    {
        let RefreshRun { plan, write } = self;
        match event {
            RefreshEvent::Failed(error) => (
                RefreshRun { plan, write: None },
                RefreshAction::Fail(error),
            ),
            RefreshEvent::Done => {
                let next = match write {
                    Some(CatalogWrite::Put { change }) => {
                        let all = plan.changes.len();
                        assert(change < all);
                        Some(next_put(&plan, change + 1))
                    },
                    Some(CatalogWrite::Remove { stale }) => {
                        let all = plan.stale.len();
                        assert(stale < all);
                        Some(next_removal(&plan, stale + 1))
                    },
                    _ => None,
                };
                let persisted = plan.persisted;
                match next {
                    Some(asked) => (
                        RefreshRun { plan, write: Some(asked) },
                        RefreshAction::Write(asked),
                    ),
                    None => (RefreshRun { plan, write: None }, RefreshAction::Finish(persisted)),
                }
            },
        }
    }
}

/// The tables as everyone sees them, and as the transaction sees them.
#[verifier::ext_equal]
pub struct Tables {
    pub committed: Map<Seq<char>, ChangeEntry>,
    pub pending: Map<Seq<char>, ChangeEntry>,
}

/// The tables after a write that was done.
pub open spec fn written(
    tables: Tables,
    source: Seq<char>,
    plan: RefreshPlan,
    write: CatalogWrite,
    fresh: Seq<char>,
) -> Tables {
    match write {
        CatalogWrite::Put { change } => Tables {
            pending: put_change(tables.pending, source, plan.changes@[change as int], fresh),
            ..tables
        },
        CatalogWrite::Remove { stale } => Tables {
            pending: remove_change(tables.pending, source, plan.stale@[stale as int]@),
            ..tables
        },
        CatalogWrite::Commit => Tables { committed: tables.pending, ..tables },
    }
}

/// What the transaction sees before a write.
pub open spec fn pending_at(
    before: Map<Seq<char>, ChangeEntry>,
    source: Seq<char>,
    plan: RefreshPlan,
    write: CatalogWrite,
    fresh: Seq<char>,
) -> Map<Seq<char>, ChangeEntry> {
    match write {
        CatalogWrite::Put { change } => put_changes(
            before,
            source,
            plan.changes@,
            change as int,
            fresh,
        ),
        CatalogWrite::Remove { stale } => remove_changes(
            all_put(before, source, plan, fresh),
            source,
            text::texts(plan.stale@),
            stale as int,
        ),
        CatalogWrite::Commit => refreshed(before, source, plan, fresh),
    }
}

/// Whether the tables are where a refresh that began with `before` has brought
/// them.
pub open spec fn in_progress(
    run: RefreshRun,
    tables: Tables,
    before: Map<Seq<char>, ChangeEntry>,
    source: Seq<char>,
    fresh: Seq<char>,
) -> bool {
    run.write matches Some(write) ==> {
        &&& tables.committed == before
        &&& tables.pending == pending_at(before, source, run.plan, write, fresh)
    }
}

// ---------------------------------------------------------------------------
// Laws of the transaction
// ---------------------------------------------------------------------------

/// A refresh begins with the tables as they are.
pub proof fn law_refreshes_begin_with_what_is_stored(
    run: RefreshRun,
    before: Map<Seq<char>, ChangeEntry>,
    source: Seq<char>,
    fresh: Seq<char>,
)
    requires
        run.write == Some(write_from(run.plan, 0)),
    ensures
        in_progress(
            run,
            (Tables { committed: before, pending: before }),
            before,
            source,
            fresh,
        ),
{
}

/// A refresh is all or nothing. As long as it goes on, the stored catalog is as
/// it was before. If it fails, at whatever write and whatever the transaction
/// had seen by then, the catalog is still as it was; if it finishes, every series
/// of the plan is written and every stale key is gone.
pub proof fn law_refreshes_are_all_or_nothing(
    run: RefreshRun,
    tables: Tables,
    before: Map<Seq<char>, ChangeEntry>,
    source: Seq<char>,
    fresh: Seq<char>,
    event: RefreshEvent,
    after: Tables,
    next: RefreshRun,
    action: RefreshAction,
)
    requires
        run.wf(),
        run.write is Some,
        in_progress(run, tables, before, source, fresh),
        run.steps_to(event, next, action),
        match event {
            RefreshEvent::Done => after == written(tables, source, run.plan, run.write->0, fresh),
            RefreshEvent::Failed(_) => after.committed == tables.committed,
        },
    ensures
        in_progress(next, after, before, source, fresh),
        action is Write ==> after.committed == before,
        action is Fail ==> after.committed == before,
        action matches RefreshAction::Finish(count) ==> {
            &&& after.committed == refreshed(before, source, run.plan, fresh)
            &&& count == run.plan.persisted
        },
        event is Failed <==> action is Fail,
{
    let write = run.write->0;
    assert(run.plan.changes@.len() == run.plan.changes.len());
    assert(run.plan.stale@.len() == run.plan.stale.len());
    if event is Done {
        match write {
            CatalogWrite::Put { change } => {
                let n = change as int;
                assert(put_changes(before, source, run.plan.changes@, n + 1, fresh) == put_change(
                    put_changes(before, source, run.plan.changes@, n, fresh),
                    source,
                    run.plan.changes@[n],
                    fresh,
                ));
            },
            CatalogWrite::Remove { stale } => {
                let n = stale as int;
                let keys = text::texts(run.plan.stale@);
                assert(keys[n] == run.plan.stale@[n]@);
                let put = all_put(before, source, run.plan, fresh);
                assert(remove_changes(put, source, keys, n + 1) == remove_change(
                    remove_changes(put, source, keys, n),
                    source,
                    keys[n],
                ));
            },
            CatalogWrite::Commit => {},
        }
    }
}

/// A refresh comes to an end: each step leaves fewer writes.
pub proof fn law_refreshes_end(
    run: RefreshRun,
    event: RefreshEvent,
    next: RefreshRun,
    action: RefreshAction,
)
    requires
        run.wf(),
        run.write is Some,
        run.steps_to(event, next, action),
    ensures
        0 <= next.writes_left() < run.writes_left(),
        next.writes_left() == 0 <==> action is Finish || action is Fail,
{
    assert(run.plan.changes@.len() == run.plan.changes.len());
    assert(run.plan.stale@.len() == run.plan.stale.len());
}

// ---------------------------------------------------------------------------
// What a refresh leaves
// ---------------------------------------------------------------------------

/// A patch of a series as it is stored.
spec fn member_of(mail: MailView, seq: u32) -> MemberEntry {
    MemberEntry {
        total: mail.parsed.total,
        mail_id: mail.mail_id,
        subject: mail.subject,
        is_cover: seq == 0,
    }
}

/// A revision of a series as it is stored with a thread and a status.
spec fn revision_of(
    group: GroupView,
    version: u32,
    thread_key: Option<Seq<char>>,
    status: Seq<char>,
) -> RevisionEntry {
    let revision = group.revisions[version];
    RevisionEntry {
        expected_total: revision.expected_total,
        cover_mail_id: if revision.members.contains_key(0) {
            Some(revision.members[0].mail_id)
        } else {
            None
        },
        completeness: series_store::completeness_of(revision),
        fingerprint: group.change_key + ":"@ + text::decimal(version as nat),
        thread_key,
        members: Map::new(
            |seq: u32| revision.members.contains_key(seq),
            |seq: u32| member_of(revision.members[seq], seq),
        ),
        followups: Map::new(
            |id: i64| revision.followups.contains_key(id),
            |id: i64|
                if revision.followups[id].parsed.seq == 0 {
                    None
                } else {
                    Some(revision.followups[id].parsed.seq)
                },
        ),
        status,
    }
}

/// The revisions with those of a series written.
spec fn put_versions(
    there: Map<u32, RevisionEntry>,
    group: GroupView,
    fresh: Seq<char>,
) -> Map<u32, RevisionEntry> {
    Map::new(
        |v: u32| there.contains_key(v) || group.revisions.contains_key(v),
        |v: u32|
            if group.revisions.contains_key(v) {
                revision_of(
                    group,
                    v,
                    kept_thread(there, v, group.thread_key),
                    kept_status(there, v, fresh),
                )
            } else {
                there[v]
            },
    )
}

/// The tables with a series written.
spec fn put_group(
    table: Map<Seq<char>, ChangeEntry>,
    source: Seq<char>,
    group: GroupView,
    fresh: Seq<char>,
) -> Map<Seq<char>, ChangeEntry> {
    table.insert(
        group.change_key,
        ChangeEntry {
            source,
            change_id: group.change_id,
            subject: group.subject,
            author: group.author,
            revisions: put_versions(stored_revisions(table, group.change_key), group, fresh),
        },
    )
}

/// The tables with the first `n` series written.
spec fn put_groups(
    table: Map<Seq<char>, ChangeEntry>,
    source: Seq<char>,
    groups: Seq<GroupView>,
    n: int,
    fresh: Seq<char>,
) -> Map<Seq<char>, ChangeEntry>
    decreases n,
{
    if n <= 0 {
        table
    } else {
        put_group(put_groups(table, source, groups, n - 1, fresh), source, groups[n - 1], fresh)
    }
}

/// Rows with distinct sequence numbers are all found by theirs.
proof fn lemma_members_of(rows: Seq<MemberRow>, seq: u32)
    requires
        forall|i: int, j: int| 0 <= i < j < rows.len() ==> rows[i].seq < rows[j].seq,
    ensures
        members_of(rows).contains_key(seq) <==> exists|i: int|
            0 <= i < rows.len() && (#[trigger] rows[i]).seq == seq,
        forall|i: int|
            0 <= i < rows.len() && (#[trigger] rows[i]).seq == seq ==> members_of(rows)[seq] == (
            MemberEntry {
                total: rows[i].total,
                mail_id: rows[i].mail_id,
                subject: rows[i].subject@,
                is_cover: rows[i].is_cover,
            }),
    decreases rows.len(),
{
    if rows.len() > 0 {
        let init = rows.drop_last();
        let n = rows.len() - 1;
        assert forall|i: int, j: int| 0 <= i < j < init.len() implies init[i].seq < init[j].seq by {
            assert(init[i] == rows[i] && init[j] == rows[j]);
        }
        lemma_members_of(init, seq);
        assert(rows[n] == rows.last());
        assert forall|i: int| 0 <= i < n implies #[trigger] rows[i] == init[i] by {}
        if exists|i: int| 0 <= i < init.len() && (#[trigger] init[i]).seq == seq {
            let i = choose|i: int| 0 <= i < init.len() && (#[trigger] init[i]).seq == seq;
            assert(rows[i].seq == seq);
            assert(rows[i].seq < rows[n].seq);
        }
        if exists|i: int| 0 <= i < rows.len() && (#[trigger] rows[i]).seq == seq {
            let i = choose|i: int| 0 <= i < rows.len() && (#[trigger] rows[i]).seq == seq;
            if i < n {
                assert(init[i].seq == seq);
            }
        }
    }
}

/// Rows of distinct mails are all found by theirs.
proof fn lemma_followups_of(rows: Seq<FollowupRow>, mail_id: i64)
    requires
        forall|i: int, j: int| 0 <= i < j < rows.len() ==> rows[i].mail_id < rows[j].mail_id,
    ensures
        followups_of(rows).contains_key(mail_id) <==> exists|i: int|
            0 <= i < rows.len() && (#[trigger] rows[i]).mail_id == mail_id,
        forall|i: int|
            0 <= i < rows.len() && (#[trigger] rows[i]).mail_id == mail_id ==> followups_of(
                rows,
            )[mail_id] == rows[i].member_seq,
    decreases rows.len(),
{
    if rows.len() > 0 {
        let init = rows.drop_last();
        let n = rows.len() - 1;
        assert forall|i: int, j: int| 0 <= i < j < init.len() implies init[i].mail_id
            < init[j].mail_id by {
            assert(init[i] == rows[i] && init[j] == rows[j]);
        }
        lemma_followups_of(init, mail_id);
        assert(rows[n] == rows.last());
        assert forall|i: int| 0 <= i < n implies #[trigger] rows[i] == init[i] by {}
        if exists|i: int| 0 <= i < init.len() && (#[trigger] init[i]).mail_id == mail_id {
            let i = choose|i: int| 0 <= i < init.len() && (#[trigger] init[i]).mail_id == mail_id;
            assert(rows[i].mail_id == mail_id);
            assert(rows[i].mail_id < rows[n].mail_id);
        }
        if exists|i: int| 0 <= i < rows.len() && (#[trigger] rows[i]).mail_id == mail_id {
            let i = choose|i: int| 0 <= i < rows.len() && (#[trigger] rows[i]).mail_id == mail_id;
            if i < n {
                assert(init[i].mail_id == mail_id);
            }
        }
    }
}

/// A row that records a revision is stored as that revision.
proof fn lemma_put_revision(
    there: Map<u32, RevisionEntry>,
    row: RevisionRow,
    group: GroupView,
    fresh: Seq<char>,
)
    requires
        group.revisions.contains_key(row.revision),
        series_store::records_revision(row, group.change_key, group.revisions[row.revision]),
    ensures
        put_revision(there, row, group.thread_key, fresh) == there.insert(
            row.revision,
            revision_of(
                group,
                row.revision,
                kept_thread(there, row.revision, group.thread_key),
                kept_status(there, row.revision, fresh),
            ),
        ),
{
    let revision = group.revisions[row.revision];
    let entry = revision_of(
        group,
        row.revision,
        kept_thread(there, row.revision, group.thread_key),
        kept_status(there, row.revision, fresh),
    );
    let members = row.members@;
    let followups = row.followups@;
    assert forall|seq: u32|
        #![trigger members_of(members).dom().contains(seq)]
        #![trigger members_of(members)[seq]]
        members_of(members).dom().contains(seq) == entry.members.contains_key(seq) && (
        entry.members.contains_key(seq) ==> members_of(members)[seq] == entry.members[seq]) by {
        lemma_members_of(members, seq);
        if revision.members.contains_key(seq) {
            let i = choose|i: int| 0 <= i < members.len() && (#[trigger] members[i]).seq == seq;
            assert(members[i].seq == seq);
        }
    }
    assert(members_of(members) =~= entry.members);
    assert forall|id: i64|
        #![trigger followups_of(followups).dom().contains(id)]
        #![trigger followups_of(followups)[id]]
        followups_of(followups).dom().contains(id) == entry.followups.contains_key(id) && (
        entry.followups.contains_key(id) ==> followups_of(followups)[id] == entry.followups[id]) by {
        lemma_followups_of(followups, id);
        if revision.followups.contains_key(id) {
            let i = choose|i: int|
                0 <= i < followups.len() && (#[trigger] followups[i]).mail_id == id;
            assert(followups[i].mail_id == id);
        }
    }
    assert(followups_of(followups) =~= entry.followups);
}

/// Rows that record revisions are stored as those revisions.
proof fn lemma_put_revisions(
    there: Map<u32, RevisionEntry>,
    rows: Seq<RevisionRow>,
    group: GroupView,
    fresh: Seq<char>,
    v: u32,
)
    requires
        forall|i: int, j: int| 0 <= i < j < rows.len() ==> rows[i].revision < rows[j].revision,
        forall|i: int|
            0 <= i < rows.len() ==> {
                let revision = (#[trigger] rows[i]).revision;
                &&& group.revisions.contains_key(revision)
                &&& series_store::records_revision(
                    rows[i],
                    group.change_key,
                    group.revisions[revision],
                )
            },
    ensures
        ({
            let now = put_revisions(there, rows, group.thread_key, fresh);
            if exists|i: int| 0 <= i < rows.len() && (#[trigger] rows[i]).revision == v {
                &&& now.contains_key(v)
                &&& now[v] == revision_of(
                    group,
                    v,
                    kept_thread(there, v, group.thread_key),
                    kept_status(there, v, fresh),
                )
            } else {
                &&& now.contains_key(v) == there.contains_key(v)
                &&& there.contains_key(v) ==> now[v] == there[v]
            }
        }),
    decreases rows.len(),
{
    if rows.len() > 0 {
        let init = rows.drop_last();
        let n = rows.len() - 1;
        assert forall|i: int| 0 <= i < n implies #[trigger] rows[i] == init[i] by {}
        assert forall|i: int, j: int| 0 <= i < j < init.len() implies init[i].revision
            < init[j].revision by {
            assert(init[i] == rows[i] && init[j] == rows[j]);
        }
        assert forall|i: int| 0 <= i < init.len() implies {
            let revision = (#[trigger] init[i]).revision;
            &&& group.revisions.contains_key(revision)
            &&& series_store::records_revision(
                init[i],
                group.change_key,
                group.revisions[revision],
            )
        } by {
            assert(init[i] == rows[i]);
        }
        lemma_put_revisions(there, init, group, fresh, v);
        let was = put_revisions(there, init, group.thread_key, fresh);
        assert(rows[n] == rows.last());
        lemma_put_revision(was, rows.last(), group, fresh);
        if exists|i: int| 0 <= i < init.len() && (#[trigger] init[i]).revision == v {
            let i = choose|i: int| 0 <= i < init.len() && (#[trigger] init[i]).revision == v;
            assert(rows[i].revision == v);
            assert(rows[i].revision < rows[n].revision);
        } else if rows.last().revision != v {
            assert forall|i: int| 0 <= i < rows.len() implies (#[trigger] rows[i]).revision != v by {
                if i < n {
                    assert(init[i].revision != v);
                }
            }
        }
    }
}

/// A row that records a series is stored as that series.
proof fn lemma_put_change(
    table: Map<Seq<char>, ChangeEntry>,
    source: Seq<char>,
    row: ChangeRow,
    group: GroupView,
    fresh: Seq<char>,
)
    requires
        series_store::records_change(row, group),
    ensures
        put_change(table, source, row, fresh) == put_group(table, source, group, fresh),
{
    let there = stored_revisions(table, group.change_key);
    let rows = row.revisions@;
    let now = put_revisions(there, rows, group.thread_key, fresh);
    let wanted = put_versions(there, group, fresh);
    assert forall|v: u32|
        #![trigger now.dom().contains(v)]
        #![trigger now[v]]
        now.dom().contains(v) == wanted.contains_key(v) && (wanted.contains_key(v) ==> now[v]
            == wanted[v]) by {
        lemma_put_revisions(there, rows, group, fresh, v);
        if group.revisions.contains_key(v) {
            assert(exists|i: int| 0 <= i < rows.len() && (#[trigger] rows[i]).revision == v);
        }
    }
    assert(now =~= wanted);
}

/// Rows that record series are stored as those series.
proof fn lemma_put_changes(
    table: Map<Seq<char>, ChangeEntry>,
    source: Seq<char>,
    rows: Seq<ChangeRow>,
    groups: Seq<GroupView>,
    n: int,
    fresh: Seq<char>,
)
    requires
        0 <= n <= rows.len(),
        rows.len() == groups.len(),
        forall|i: int|
            0 <= i < rows.len() ==> series_store::records_change(#[trigger] rows[i], groups[i]),
    ensures
        put_changes(table, source, rows, n, fresh) == put_groups(table, source, groups, n, fresh),
    decreases n,
{
    if n > 0 {
        lemma_put_changes(table, source, rows, groups, n - 1, fresh);
        assert(series_store::records_change(rows[n - 1], groups[n - 1]));
        lemma_put_change(
            put_changes(table, source, rows, n - 1, fresh),
            source,
            rows[n - 1],
            groups[n - 1],
            fresh,
        );
    }
}

/// The last of the first `n` series with a key.
spec fn last_with(groups: Seq<GroupView>, n: int, key: Seq<char>) -> Option<GroupView>
    decreases n,
{
    if n <= 0 {
        None
    } else if groups[n - 1].change_key == key {
        Some(groups[n - 1])
    } else {
        last_with(groups, n - 1, key)
    }
}

/// The last of the first `n` series with a key and a revision.
spec fn last_revised(groups: Seq<GroupView>, n: int, key: Seq<char>, v: u32) -> Option<GroupView>
    decreases n,
{
    if n <= 0 {
        None
    } else if groups[n - 1].change_key == key && groups[n - 1].revisions.contains_key(v) {
        Some(groups[n - 1])
    } else {
        last_revised(groups, n - 1, key, v)
    }
}

/// The last thread that the first `n` series with a key and a revision name.
spec fn last_thread(groups: Seq<GroupView>, n: int, key: Seq<char>, v: u32) -> Option<Seq<char>>
    decreases n,
{
    if n <= 0 {
        None
    } else if groups[n - 1].change_key == key && groups[n - 1].revisions.contains_key(v)
        && groups[n - 1].thread_key is Some {
        groups[n - 1].thread_key
    } else {
        last_thread(groups, n - 1, key, v)
    }
}

/// What the first `n` series leave under a key: what the last of them says, and
/// what was there where none says anything.
proof fn lemma_put_groups(
    table: Map<Seq<char>, ChangeEntry>,
    source: Seq<char>,
    groups: Seq<GroupView>,
    n: int,
    fresh: Seq<char>,
    key: Seq<char>,
    v: u32,
)
    requires
        0 <= n <= groups.len(),
    ensures
        ({
            let now = put_groups(table, source, groups, n, fresh);
            match last_with(groups, n, key) {
                Some(group) => {
                    &&& now.contains_key(key)
                    &&& now[key].source == source
                    &&& now[key].change_id == group.change_id
                    &&& now[key].subject == group.subject
                    &&& now[key].author == group.author
                },
                None => {
                    &&& now.contains_key(key) == table.contains_key(key)
                    &&& table.contains_key(key) ==> now[key] == table[key]
                },
            }
        }),
        ({
            let there = stored_revisions(table, key);
            let now = stored_revisions(put_groups(table, source, groups, n, fresh), key);
            match last_revised(groups, n, key, v) {
                Some(group) => {
                    &&& last_with(groups, n, key) is Some
                    &&& now.contains_key(v)
                    &&& now[v] == revision_of(
                        group,
                        v,
                        kept_thread(there, v, last_thread(groups, n, key, v)),
                        kept_status(there, v, fresh),
                    )
                },
                None => {
                    &&& now.contains_key(v) == there.contains_key(v)
                    &&& there.contains_key(v) ==> now[v] == there[v]
                },
            }
        }),
        last_revised(groups, n, key, v) is None ==> last_thread(groups, n, key, v) is None,
    decreases n,
{
    if n > 0 {
        lemma_put_groups(table, source, groups, n - 1, fresh, key, v);
    }
}

/// A key is written exactly when some series has it.
proof fn lemma_last_with(groups: Seq<GroupView>, n: int, key: Seq<char>)
    requires
        0 <= n <= groups.len(),
    ensures
        last_with(groups, n, key) is Some <==> exists|i: int|
            0 <= i < n && (#[trigger] groups[i]).change_key == key,
    decreases n,
{
    if n > 0 {
        lemma_last_with(groups, n - 1, key);
    }
}

/// What removing leaves under a key.
proof fn lemma_removed(
    table: Map<Seq<char>, ChangeEntry>,
    source: Seq<char>,
    keys: Seq<Seq<char>>,
    n: int,
    key: Seq<char>,
)
    requires
        0 <= n <= keys.len(),
    ensures
        ({
            let now = remove_changes(table, source, keys, n);
            let gone = table.contains_key(key) && table[key].source == source && (exists|i: int|
                0 <= i < n && #[trigger] keys[i] == key);
            &&& now.contains_key(key) == (table.contains_key(key) && !gone)
            &&& now.contains_key(key) ==> now[key] == table[key]
        }),
    decreases n,
{
    if n > 0 {
        lemma_removed(table, source, keys, n - 1, key);
    }
}

/// What a refresh leaves under a key, said once for all its laws.
proof fn lemma_refreshed(
    table: Map<Seq<char>, ChangeEntry>,
    source: Seq<char>,
    mails: Seq<MailView>,
    existing: Seq<Seq<char>>,
    plan: RefreshPlan,
    fresh: Seq<char>,
    key: Seq<char>,
)
    requires
        lists_keys(existing, table, source),
        series_store::plans_refresh(plan, mails, existing),
    ensures
        ({
            let groups = series_store::series_of(mails);
            let put = put_groups(table, source, groups, groups.len() as int, fresh);
            let now = refreshed(table, source, plan, fresh);
            if series_store::has_change_key(groups, key) {
                &&& last_with(groups, groups.len() as int, key) is Some
                &&& now.contains_key(key)
                &&& now[key] == put[key]
                &&& put.contains_key(key)
            } else {
                &&& last_with(groups, groups.len() as int, key) is None
                &&& now.contains_key(key) == (table.contains_key(key) && table[key].source
                    != source)
                &&& now.contains_key(key) ==> now[key] == table[key]
            }
        }),
{
    let groups = series_store::series_of(mails);
    let n = groups.len() as int;
    let put = put_groups(table, source, groups, n, fresh);
    let stale = text::texts(plan.stale@);
    lemma_put_changes(table, source, plan.changes@, groups, n, fresh);
    lemma_last_with(groups, n, key);
    lemma_put_groups(table, source, groups, n, fresh, key, 0);
    lemma_removed(put, source, stale, stale.len() as int, key);
    series_store::law_stale_keys_are_those_without_a_series(existing, groups);
    assert(stale == series_store::stale_keys(existing, groups));
    assert(stale.contains(key) <==> existing.contains(key) && !series_store::has_change_key(
        groups,
        key,
    ));
    assert(stale.contains(key) <==> exists|i: int|
        0 <= i < stale.len() && #[trigger] stale[i] == key);
}

/// Refreshing twice changes nothing: without new or expunged mails in between,
/// the second refresh removes nothing, counts the same revisions, and leaves the
/// tables as the first left them. The count is that of the revisions that the
/// mails of the source form.
pub proof fn law_refreshing_twice_changes_nothing(
    table: Map<Seq<char>, ChangeEntry>,
    source: Seq<char>,
    mails: Seq<MailView>,
    existing: Seq<Seq<char>>,
    plan: RefreshPlan,
    existing_then: Seq<Seq<char>>,
    plan_then: RefreshPlan,
    fresh: Seq<char>,
)
    requires
        lists_keys(existing, table, source),
        series_store::plans_refresh(plan, mails, existing),
        lists_keys(existing_then, refreshed(table, source, plan, fresh), source),
        series_store::plans_refresh(plan_then, mails, existing_then),
    ensures
        refreshed(refreshed(table, source, plan, fresh), source, plan_then, fresh) == refreshed(
            table,
            source,
            plan,
            fresh,
        ),
        plan_then.stale@.len() == 0,
        plan_then.persisted == plan.persisted,
        plan.persisted == series_store::group_revisions(series_store::series_of(mails)),
{
    let groups = series_store::series_of(mails);
    let n = groups.len() as int;
    let once = refreshed(table, source, plan, fresh);
    let twice = refreshed(once, source, plan_then, fresh);
    let put = put_groups(table, source, groups, n, fresh);
    let put_then = put_groups(once, source, groups, n, fresh);
    let stale = text::texts(plan_then.stale@);
    series_store::law_stale_keys_are_those_without_a_series(existing_then, groups);
    if stale.len() > 0 {
        let key = stale[0];
        assert(series_store::stale_keys(existing_then, groups).contains(key));
        assert(existing_then.contains(key));
        lemma_refreshed(table, source, mails, existing, plan, fresh, key);
    }
    assert forall|key: Seq<char>|
        #![trigger twice.dom().contains(key)]
        #![trigger twice[key]]
        twice.dom().contains(key) == once.contains_key(key) && (once.contains_key(key)
            ==> twice[key] == once[key]) by {
        lemma_refreshed(table, source, mails, existing, plan, fresh, key);
        lemma_refreshed(once, source, mails, existing_then, plan_then, fresh, key);
        if series_store::has_change_key(groups, key) {
            lemma_put_groups(table, source, groups, n, fresh, key, 0);
            lemma_put_groups(once, source, groups, n, fresh, key, 0);
            let before = once[key].revisions;
            let after = twice[key].revisions;
            assert forall|v: u32|
                #![trigger after.dom().contains(v)]
                #![trigger after[v]]
                after.dom().contains(v) == before.contains_key(v) && (before.contains_key(v)
                    ==> after[v] == before[v]) by {
                lemma_put_groups(table, source, groups, n, fresh, key, v);
                lemma_put_groups(once, source, groups, n, fresh, key, v);
            }
            assert(after =~= before);
            assert(twice[key] =~= once[key]);
        }
    }
    assert(twice =~= once);
}

// ---------------------------------------------------------------------------
// What the catalog shows
// ---------------------------------------------------------------------------

/// Whether the rows are the stored patches in ascending order.
pub open spec fn lists_stored_members(
    rows: Seq<StoredMember>,
    members: Map<u32, MemberEntry>,
) -> bool {
    &&& forall|i: int, j: int| 0 <= i < j < rows.len() ==> rows[i].seq < rows[j].seq
    &&& forall|i: int|
        0 <= i < rows.len() ==> {
            let row = #[trigger] rows[i];
            let entry = members[row.seq as u32];
            &&& 0 <= row.seq <= u32::MAX
            &&& members.contains_key(row.seq as u32)
            &&& row.total == entry.total
            &&& row.mail_id == entry.mail_id
            &&& row.subject@ == entry.subject
        }
    &&& forall|seq: u32| #[trigger]
        members.contains_key(seq) ==> exists|i: int|
            0 <= i < rows.len() && (#[trigger] rows[i]).seq == seq
}

/// Whether a row is read from the tables, for a source.
pub open spec fn reads_revision(
    row: StoredRevision,
    table: Map<Seq<char>, ChangeEntry>,
    source: Seq<char>,
) -> bool {
    let change = table[row.change_key@];
    let entry = change.revisions[row.revision as u32];
    &&& 0 <= row.revision <= u32::MAX
    &&& table.contains_key(row.change_key@)
    &&& change.source == source
    &&& change.revisions.contains_key(row.revision as u32)
    &&& row.subject@ == change.subject
    &&& row.author@ == change.author
    &&& row.expected_total == entry.expected_total
    &&& lists_stored_members(row.members@, entry.members)
    &&& row.followup_count == entry.followups.dom().len()
    &&& row.completeness@ == entry.completeness
    &&& row.status@ == entry.status
}

/// Whether the rows are the stored revisions of a source, each once, in any
/// order.
pub open spec fn lists_revisions(
    rows: Seq<StoredRevision>,
    table: Map<Seq<char>, ChangeEntry>,
    source: Seq<char>,
) -> bool {
    &&& forall|i: int| 0 <= i < rows.len() ==> reads_revision(#[trigger] rows[i], table, source)
    &&& forall|i: int, j: int|
        0 <= i < j < rows.len() ==> ((#[trigger] rows[i]).change_key@, rows[i].revision) != ((
        #[trigger] rows[j]).change_key@, rows[j].revision)
    &&& forall|key: Seq<char>, v: u32|
        #![trigger table[key].revisions.contains_key(v)]
        table.contains_key(key) && table[key].source == source
            && table[key].revisions.contains_key(v) ==> exists|i: int|
            0 <= i < rows.len() && (#[trigger] rows[i]).change_key@ == key && rows[i].revision == v
}

/// Whether a catalog shows the revisions of a source: it is what `load_catalog`
/// makes of the rows that hold them.
pub open spec fn shows_catalog(
    shown: Seq<SeriesCatalog>,
    rows: Seq<StoredRevision>,
    table: Map<Seq<char>, ChangeEntry>,
    source: Seq<char>,
) -> bool {
    &&& lists_revisions(rows, table, source)
    &&& shown.len() == rows.len()
    &&& forall|i: int|
        0 <= i < shown.len() ==> series_store::shows_revision(#[trigger] shown[i], rows[i])
}

/// Whether two members show the same stored patch.
pub open spec fn same_member(a: SeriesMember, b: SeriesMember) -> bool {
    &&& a.seq == b.seq
    &&& a.total == b.total
    &&& a.mail_id == b.mail_id
    &&& a.subject@ == b.subject@
}

/// Whether two catalog items show the same stored revision.
pub open spec fn same_item(a: SeriesCatalog, b: SeriesCatalog) -> bool {
    &&& a.change_key@ == b.change_key@
    &&& a.revision == b.revision
    &&& a.subject@ == b.subject@
    &&& a.author@ == b.author@
    &&& a.expected_total == b.expected_total
    &&& a.members@.len() == b.members@.len()
    &&& forall|i: int|
        0 <= i < a.members@.len() ==> same_member(#[trigger] a.members@[i], b.members@[i])
    &&& a.missing@ == b.missing@
    &&& a.followup_count == b.followup_count
    &&& a.completeness@ == b.completeness@
    &&& a.status@ == b.status@
}

/// Whether a catalog shows what an item shows.
pub open spec fn has_item(shown: Seq<SeriesCatalog>, item: SeriesCatalog) -> bool {
    exists|j: int| 0 <= j < shown.len() && same_item(item, #[trigger] shown[j])
}

/// Whether two catalogs hold the same items, order aside.
pub open spec fn same_items(a: Seq<SeriesCatalog>, b: Seq<SeriesCatalog>) -> bool {
    &&& a.len() == b.len()
    &&& forall|i: int| 0 <= i < a.len() ==> has_item(b, #[trigger] a[i])
    &&& forall|i: int| 0 <= i < b.len() ==> has_item(a, #[trigger] b[i])
}

/// The key and the revision of each item.
spec fn item_keys(shown: Seq<SeriesCatalog>) -> Seq<(Seq<char>, u32)> {
    Seq::new(shown.len(), |i: int| (shown[i].change_key@, shown[i].revision))
}

/// Numbers in ascending order are determined by which they are.
proof fn lemma_ascending(a: Seq<int>, b: Seq<int>)
    requires
        forall|i: int, j: int| 0 <= i < j < a.len() ==> a[i] < a[j],
        forall|i: int, j: int| 0 <= i < j < b.len() ==> b[i] < b[j],
        forall|x: int| #[trigger] a.contains(x) <==> b.contains(x),
    ensures
        a == b,
    decreases a.len(),
{
    if a.len() == 0 {
        if b.len() > 0 {
            assert(b.contains(b[0]));
            assert(a.contains(b[0]));
        }
        assert(a =~= b);
    } else {
        let x = a.last();
        let n = a.len() - 1;
        assert(a[n] == x);
        assert(a.contains(x));
        assert(b.contains(x));
        let m = b.len() - 1;
        let y = b.last();
        assert(b[m] == y);
        assert(b.contains(y));
        assert(a.contains(y));
        let i = choose|i: int| 0 <= i < a.len() && a[i] == y;
        let j = choose|j: int| 0 <= j < b.len() && b[j] == x;
        if i < n {
            assert(a[i] < a[n]);
        }
        if j < m {
            assert(b[j] < b[m]);
        }
        assert(x == y);
        let short_a = a.drop_last();
        let short_b = b.drop_last();
        assert forall|z: int| #[trigger] short_a.contains(z) <==> short_b.contains(z) by {
            if short_a.contains(z) {
                let k = choose|k: int| 0 <= k < short_a.len() && short_a[k] == z;
                assert(a[k] == z && a[k] < a[n]);
                assert(a.contains(z));
                assert(b.contains(z));
                let l = choose|l: int| 0 <= l < b.len() && b[l] == z;
                assert(short_b[l] == z);
            }
            if short_b.contains(z) {
                let k = choose|k: int| 0 <= k < short_b.len() && short_b[k] == z;
                assert(b[k] == z && b[k] < b[m]);
                assert(b.contains(z));
                assert(a.contains(z));
                let l = choose|l: int| 0 <= l < a.len() && a[l] == z;
                assert(short_a[l] == z);
            }
        }
        lemma_ascending(short_a, short_b);
        assert(a =~= short_a.push(x));
        assert(b =~= short_b.push(x));
    }
}

/// Rows of the same patches have the same numbers.
proof fn lemma_same_numbers(
    a: Seq<StoredMember>,
    b: Seq<StoredMember>,
    members: Map<u32, MemberEntry>,
)
    requires
        lists_stored_members(a, members),
        lists_stored_members(b, members),
    ensures
        a.len() == b.len(),
        forall|i: int|
            #![trigger a[i]]
            #![trigger b[i]]
            0 <= i < a.len() ==> a[i].seq == b[i].seq,
{
    let x = Seq::new(a.len(), |i: int| a[i].seq as int);
    let y = Seq::new(b.len(), |i: int| b[i].seq as int);
    assert forall|z: int| #[trigger] x.contains(z) <==> y.contains(z) by {
        if x.contains(z) {
            let i = choose|i: int| 0 <= i < x.len() && x[i] == z;
            assert(members.contains_key(a[i].seq as u32));
            let j = choose|j: int| 0 <= j < b.len() && (#[trigger] b[j]).seq == a[i].seq as u32;
            assert(y[j] == z);
        }
        if y.contains(z) {
            let i = choose|i: int| 0 <= i < y.len() && y[i] == z;
            assert(members.contains_key(b[i].seq as u32));
            let j = choose|j: int| 0 <= j < a.len() && (#[trigger] a[j]).seq == b[i].seq as u32;
            assert(x[j] == z);
        }
    }
    lemma_ascending(x, y);
    assert forall|i: int|
        #![trigger a[i]]
        #![trigger b[i]]
        0 <= i < a.len() implies a[i].seq == b[i].seq by {
        assert(x[i] == y[i]);
    }
}

/// The same numbers leave the same ones missing.
proof fn lemma_same_missing(a: Seq<SeriesMember>, b: Seq<SeriesMember>, total: int)
    requires
        forall|seq: u32|
            series_store::has_member(a, seq) == #[trigger] series_store::has_member(b, seq),
    ensures
        series_store::missing_members(a, total) == series_store::missing_members(b, total),
    decreases total,
{
    if total > 0 {
        lemma_same_missing(a, b, total - 1);
        assert(series_store::has_member(b, total as u32) == series_store::has_member(
            a,
            total as u32,
        ));
    }
}

/// Rows of one stored revision show the same item.
proof fn lemma_same_item(
    a: SeriesCatalog,
    row_a: StoredRevision,
    b: SeriesCatalog,
    row_b: StoredRevision,
    table: Map<Seq<char>, ChangeEntry>,
    source: Seq<char>,
)
    requires
        reads_revision(row_a, table, source),
        reads_revision(row_b, table, source),
        series_store::shows_revision(a, row_a),
        series_store::shows_revision(b, row_b),
        row_a.change_key@ == row_b.change_key@,
        row_a.revision == row_b.revision,
    ensures
        same_item(a, b),
{
    let entry = table[row_a.change_key@].revisions[row_a.revision as u32];
    lemma_same_numbers(row_a.members@, row_b.members@, entry.members);
    assert forall|i: int| 0 <= i < a.members@.len() implies same_member(
        #[trigger] a.members@[i],
        b.members@[i],
    ) by {
        assert(series_store::shows_member(a.members@[i], row_a.members@[i]));
        assert(series_store::shows_member(b.members@[i], row_b.members@[i]));
        assert(row_a.members@[i].seq == row_b.members@[i].seq);
    }
    assert forall|seq: u32|
        series_store::has_member(a.members@, seq) == #[trigger] series_store::has_member(
            b.members@,
            seq,
        ) by {
        if series_store::has_member(a.members@, seq) {
            let i = choose|i: int|
                0 <= i < a.members@.len() && (#[trigger] a.members@[i]).seq == seq;
            assert(same_member(a.members@[i], b.members@[i]));
            assert(b.members@[i].seq == seq);
        }
        if series_store::has_member(b.members@, seq) {
            let i = choose|i: int|
                0 <= i < b.members@.len() && (#[trigger] b.members@[i]).seq == seq;
            assert(same_member(a.members@[i], b.members@[i]));
            assert(a.members@[i].seq == seq);
        }
    }
    lemma_same_missing(a.members@, b.members@, a.expected_total as int);
}

/// Whatever shows the tables shows the same items, in some order.
pub proof fn law_catalogs_show_the_tables(
    table: Map<Seq<char>, ChangeEntry>,
    source: Seq<char>,
    a: Seq<SeriesCatalog>,
    rows_a: Seq<StoredRevision>,
    b: Seq<SeriesCatalog>,
    rows_b: Seq<StoredRevision>,
)
    requires
        shows_catalog(a, rows_a, table, source),
        shows_catalog(b, rows_b, table, source),
    ensures
        same_items(a, b),
{
    lemma_items_among(table, source, a, rows_a, b, rows_b);
    lemma_items_among(table, source, b, rows_b, a, rows_a);
    lemma_items_differ(a, rows_a, table, source);
    lemma_items_differ(b, rows_b, table, source);
    let x = item_keys(a);
    let y = item_keys(b);
    assert forall|key: (Seq<char>, u32)| x.contains(key) <==> y.contains(key) by {
        if x.contains(key) {
            let i = choose|i: int| 0 <= i < x.len() && x[i] == key;
            assert(has_item(b, a[i]));
            let j = choose|j: int| 0 <= j < b.len() && same_item(a[i], #[trigger] b[j]);
            assert(y[j] == key);
        }
        if y.contains(key) {
            let i = choose|i: int| 0 <= i < y.len() && y[i] == key;
            assert(has_item(a, b[i]));
            let j = choose|j: int| 0 <= j < a.len() && same_item(b[i], #[trigger] a[j]);
            assert(x[j] == key);
        }
    }
    x.unique_seq_to_set();
    y.unique_seq_to_set();
    assert(x.to_set() =~= y.to_set());
}

/// A catalog shows no revision twice.
proof fn lemma_items_differ(
    shown: Seq<SeriesCatalog>,
    rows: Seq<StoredRevision>,
    table: Map<Seq<char>, ChangeEntry>,
    source: Seq<char>,
)
    requires
        shows_catalog(shown, rows, table, source),
    ensures
        item_keys(shown).no_duplicates(),
{
    let keys = item_keys(shown);
    assert forall|i: int, j: int| 0 <= i < j < keys.len() implies keys[i] != keys[j] by {
        assert(series_store::shows_revision(shown[i], rows[i]));
        assert(series_store::shows_revision(shown[j], rows[j]));
        assert(reads_revision(rows[i], table, source));
        assert(reads_revision(rows[j], table, source));
    }
}

/// Every item of a catalog stands in any other of the same tables.
proof fn lemma_items_among(
    table: Map<Seq<char>, ChangeEntry>,
    source: Seq<char>,
    a: Seq<SeriesCatalog>,
    rows_a: Seq<StoredRevision>,
    b: Seq<SeriesCatalog>,
    rows_b: Seq<StoredRevision>,
)
    requires
        shows_catalog(a, rows_a, table, source),
        shows_catalog(b, rows_b, table, source),
    ensures
        forall|i: int| 0 <= i < a.len() ==> has_item(b, #[trigger] a[i]),
{
    assert forall|i: int| 0 <= i < a.len() implies has_item(b, #[trigger] a[i]) by {
        let key = rows_a[i].change_key@;
        let v = rows_a[i].revision as u32;
        assert(series_store::shows_revision(a[i], rows_a[i]));
        assert(reads_revision(rows_a[i], table, source));
        assert(table[key].revisions.contains_key(v));
        let j = choose|j: int|
            0 <= j < rows_b.len() && (#[trigger] rows_b[j]).change_key@ == key
                && rows_b[j].revision == v;
        assert(reads_revision(rows_b[j], table, source));
        assert(series_store::shows_revision(b[j], rows_b[j]));
        lemma_same_item(a[i], rows_a[i], b[j], rows_b[j], table, source);
        assert(same_item(a[i], b[j]));
    }
}

/// After a second refresh on the same mails the catalog shows the items that it
/// showed after the first, order aside.
pub proof fn law_refreshing_twice_shows_the_same(
    table: Map<Seq<char>, ChangeEntry>,
    source: Seq<char>,
    mails: Seq<MailView>,
    existing: Seq<Seq<char>>,
    plan: RefreshPlan,
    existing_then: Seq<Seq<char>>,
    plan_then: RefreshPlan,
    fresh: Seq<char>,
    shown: Seq<SeriesCatalog>,
    rows: Seq<StoredRevision>,
    shown_then: Seq<SeriesCatalog>,
    rows_then: Seq<StoredRevision>,
)
    requires
        lists_keys(existing, table, source),
        series_store::plans_refresh(plan, mails, existing),
        lists_keys(existing_then, refreshed(table, source, plan, fresh), source),
        series_store::plans_refresh(plan_then, mails, existing_then),
        shows_catalog(shown, rows, refreshed(table, source, plan, fresh), source),
        shows_catalog(
            shown_then,
            rows_then,
            refreshed(refreshed(table, source, plan, fresh), source, plan_then, fresh),
            source,
        ),
    ensures
        plan_then.persisted == plan.persisted,
        same_items(shown, shown_then),
{
    let once = refreshed(table, source, plan, fresh);
    law_refreshing_twice_changes_nothing(
        table,
        source,
        mails,
        existing,
        plan,
        existing_then,
        plan_then,
        fresh,
    );
    law_catalogs_show_the_tables(once, source, shown, rows, shown_then, rows_then);
}

/// Whether the series without mails are gone from a source, and those of other
/// sources are as they were.
pub open spec fn expunged_series_are_gone(
    table: Map<Seq<char>, ChangeEntry>,
    now: Map<Seq<char>, ChangeEntry>,
    source: Seq<char>,
    groups: Seq<GroupView>,
) -> bool {
    forall|key: Seq<char>|
        #![trigger series_store::has_change_key(groups, key)]
        #![trigger now.contains_key(key)]
        !series_store::has_change_key(groups, key) ==> {
            &&& now.contains_key(key) <==> (table.contains_key(key) && table[key].source != source)
            &&& now.contains_key(key) ==> now[key] == table[key]
        }
}

/// Whether every revision of the series that are there has the status that it
/// had.
pub open spec fn statuses_are_kept(
    table: Map<Seq<char>, ChangeEntry>,
    now: Map<Seq<char>, ChangeEntry>,
    groups: Seq<GroupView>,
) -> bool {
    forall|key: Seq<char>, v: u32|
        #![trigger stored_revisions(table, key).contains_key(v)]
        series_store::has_change_key(groups, key) && stored_revisions(table, key).contains_key(v)
            ==> {
            &&& stored_revisions(now, key).contains_key(v)
            &&& stored_revisions(now, key)[v].status == stored_revisions(table, key)[v].status
        }
}

/// A series whose mails are all gone leaves the catalog, and nothing shows it any
/// more. A series that is still there keeps the status of each of its revisions,
/// and is shown with it. Series of other sources stay as they are.
pub proof fn law_expunged_series_leave_and_others_keep_their_status(
    table: Map<Seq<char>, ChangeEntry>,
    source: Seq<char>,
    mails: Seq<MailView>,
    existing: Seq<Seq<char>>,
    plan: RefreshPlan,
    fresh: Seq<char>,
    shown: Seq<SeriesCatalog>,
    rows: Seq<StoredRevision>,
)
    requires
        lists_keys(existing, table, source),
        series_store::plans_refresh(plan, mails, existing),
        shows_catalog(shown, rows, refreshed(table, source, plan, fresh), source),
    ensures
        expunged_series_are_gone(
            table,
            refreshed(table, source, plan, fresh),
            source,
            series_store::series_of(mails),
        ),
        statuses_are_kept(
            table,
            refreshed(table, source, plan, fresh),
            series_store::series_of(mails),
        ),
        forall|i: int|
            0 <= i < shown.len() ==> series_store::has_change_key(
                series_store::series_of(mails),
                (#[trigger] shown[i]).change_key@,
            ),
        forall|i: int|
            0 <= i < shown.len() && stored_revisions(
                table,
                (#[trigger] shown[i]).change_key@,
            ).contains_key(shown[i].revision) ==> shown[i].status@ == stored_revisions(
                table,
                shown[i].change_key@,
            )[shown[i].revision].status,
{
    let groups = series_store::series_of(mails);
    let n = groups.len() as int;
    let now = refreshed(table, source, plan, fresh);
    assert forall|key: Seq<char>|
        #![trigger series_store::has_change_key(groups, key)]
        #![trigger now.contains_key(key)]
        !series_store::has_change_key(groups, key) implies {
        &&& now.contains_key(key) <==> (table.contains_key(key) && table[key].source != source)
        &&& now.contains_key(key) ==> now[key] == table[key]
    } by {
        lemma_refreshed(table, source, mails, existing, plan, fresh, key);
    }
    assert forall|key: Seq<char>, v: u32|
        #![trigger stored_revisions(table, key).contains_key(v)]
        series_store::has_change_key(groups, key) && stored_revisions(table, key).contains_key(
            v,
        ) implies {
        &&& stored_revisions(now, key).contains_key(v)
        &&& stored_revisions(now, key)[v].status == stored_revisions(table, key)[v].status
    } by {
        lemma_refreshed(table, source, mails, existing, plan, fresh, key);
        lemma_put_groups(table, source, groups, n, fresh, key, v);
    }
    assert forall|i: int| 0 <= i < shown.len() implies series_store::has_change_key(
        groups,
        (#[trigger] shown[i]).change_key@,
    ) && (stored_revisions(table, shown[i].change_key@).contains_key(shown[i].revision)
        ==> shown[i].status@ == stored_revisions(
        table,
        shown[i].change_key@,
    )[shown[i].revision].status) by {
        assert(series_store::shows_revision(shown[i], rows[i]));
        assert(reads_revision(rows[i], now, source));
        lemma_refreshed(table, source, mails, existing, plan, fresh, shown[i].change_key@);
    }
}

} // verus!
