//! Reply drafts and the history of sent replies, as they are stored.
//!
//! Send attempts are kept apart from the live state of the composer, so that an
//! audit trail remains when a session ends. This module turns drafts and send
//! records into rows of the store and back.

use crate::text;
use crate::text::CharClass;
use vstd::prelude::*;

verus! {

// ---------------------------------------------------------------------------
// Statuses
// ---------------------------------------------------------------------------

/// Whether a draft waits to be sent or failed to be.
#[derive(Debug, Clone, Copy, PartialEq, Eq, Structural)]
pub enum ReplyDraftStatus {
    Draft,
    Failed,
}

impl ReplyDraftStatus {
    /// The name under which a status is stored.
    pub open spec fn stored_name(self) -> Seq<char> {
        match self {
            ReplyDraftStatus::Draft => "draft"@,
            ReplyDraftStatus::Failed => "failed"@,
        }
    }

    /// The status that is stored under a name.
    pub open spec fn named(name: Seq<char>) -> ReplyDraftStatus {
        if name == "failed"@ {
            ReplyDraftStatus::Failed
        } else {
            ReplyDraftStatus::Draft
        }
    }

    /// The name under which the status is stored.
    pub fn as_str(self) -> (r: &'static str)
        ensures
            r@ == self.stored_name(),
    {
        match self {
            ReplyDraftStatus::Draft => "draft",
            ReplyDraftStatus::Failed => "failed",
        }
    }

    /// The status that is stored under a name. Unknown names are drafts.
    pub fn from_db(value: &str) -> (r: ReplyDraftStatus)
        ensures
            r == ReplyDraftStatus::named(value@),
    {
        if text::same_str(value, "failed") {
            ReplyDraftStatus::Failed
        } else {
            ReplyDraftStatus::Draft
        }
    }
}

/// How an attempt to send a reply ended.
#[derive(Debug, Clone, Copy, PartialEq, Eq, Structural)]
pub enum ReplySendStatus {
    Sent,
    Failed,
    TimedOut,
}

impl ReplySendStatus {
    /// The name under which a status is stored.
    pub open spec fn stored_name(self) -> Seq<char> {
        match self {
            ReplySendStatus::Sent => "sent"@,
            ReplySendStatus::Failed => "failed"@,
            ReplySendStatus::TimedOut => "timed_out"@,
        }
    }

    /// The status that is stored under a name.
    pub open spec fn named(name: Seq<char>) -> ReplySendStatus {
        if name == "sent"@ {
            ReplySendStatus::Sent
        } else if name == "timed_out"@ {
            ReplySendStatus::TimedOut
        } else {
            ReplySendStatus::Failed
        }
    }

    /// The name under which the status is stored.
    pub fn as_str(self) -> (r: &'static str)
        ensures
            r@ == self.stored_name(),
    {
        match self {
            ReplySendStatus::Sent => "sent",
            ReplySendStatus::Failed => "failed",
            ReplySendStatus::TimedOut => "timed_out",
        }
    }

    /// The status that is stored under a name. Unknown names are failures.
    pub fn from_db(value: &str) -> (r: ReplySendStatus)
        ensures
            r == ReplySendStatus::named(value@),
    {
        if text::same_str(value, "sent") {
            ReplySendStatus::Sent
        } else if text::same_str(value, "timed_out") {
            ReplySendStatus::TimedOut
        } else {
            ReplySendStatus::Failed
        }
    }
}

/// A truth value as the store keeps it.
pub fn bool_to_i64(value: bool) -> (r: i64)
    ensures
        r == if value {
            1i64
        } else {
            0i64
        },
{
    if value {
        1
    } else {
        0
    }
}

// ---------------------------------------------------------------------------
// Drafts
// ---------------------------------------------------------------------------

/// A draft to store.
#[derive(Debug, Clone)]
pub struct ReplyDraftRequest {
    pub thread_id: i64,
    pub mail_id: i64,
    pub from_addr: String,
    pub to_addrs: String,
    pub cc_addrs: String,
    pub subject: String,
    pub in_reply_to: String,
    pub references: Vec<String>,
    pub body: Vec<String>,
    pub preview_confirmed_at: Option<String>,
    pub status: ReplyDraftStatus,
    pub draft_path: Option<String>,
    pub last_error: Option<String>,
}

/// A draft that was stored.
#[derive(Debug, Clone)]
pub struct ReplyDraft {
    pub id: i64,
    pub thread_id: i64,
    pub mail_id: i64,
    pub from_addr: String,
    pub to_addrs: String,
    pub cc_addrs: String,
    pub subject: String,
    pub in_reply_to: String,
    pub references: Vec<String>,
    pub body: Vec<String>,
    pub preview_confirmed_at: Option<String>,
    pub status: ReplyDraftStatus,
    pub draft_path: Option<String>,
    pub last_error: Option<String>,
    pub updated_at: String,
}

/// The columns that a draft is written to.
#[derive(Debug)]
pub struct DraftRow {
    pub thread_id: i64,
    pub mail_id: i64,
    pub from_addr: String,
    pub to_addrs: String,
    pub cc_addrs: String,
    pub subject: String,
    pub in_reply_to: String,
    pub references_text: String,
    pub body: String,
    pub preview_confirmed_at: Option<String>,
    pub status: String,
    pub draft_path: Option<String>,
    pub last_error: Option<String>,
}

/// A draft row as it is read, with what the store adds to it.
#[derive(Debug)]
pub struct StoredDraft {
    pub id: i64,
    pub row: DraftRow,
    pub updated_at: String,
}

/// The lines that are not blank.
pub open spec fn filled_lines(all: Seq<Seq<char>>) -> Seq<Seq<char>>
    decreases all.len(),
{
    if all.len() == 0 {
        seq![]
    } else if text::trimmed(all.last()).len() > 0 {
        filled_lines(all.drop_last()).push(all.last())
    } else {
        filled_lines(all.drop_last())
    }
}

/// The references that a stored text lists, one per line.
pub open spec fn listed_references(s: Seq<char>) -> Seq<Seq<char>> {
    filled_lines(text::lines(s))
}

/// The body lines that a stored text holds. There is always at least one.
pub open spec fn body_lines(s: Seq<char>) -> Seq<Seq<char>> {
    text::pieces(s, CharClass::One('\n'))
}

/// Whether the columns hold a draft.
pub open spec fn stores_draft(row: DraftRow, request: ReplyDraftRequest) -> bool {
    &&& row.thread_id == request.thread_id
    &&& row.mail_id == request.mail_id
    &&& row.from_addr@ == request.from_addr@
    &&& row.to_addrs@ == request.to_addrs@
    &&& row.cc_addrs@ == request.cc_addrs@
    &&& row.subject@ == request.subject@
    &&& row.in_reply_to@ == request.in_reply_to@
    &&& row.references_text@ == text::joined(text::texts(request.references@), seq!['\n'])
    &&& row.body@ == text::joined(text::texts(request.body@), seq!['\n'])
    &&& text::opt_text(row.preview_confirmed_at) == text::opt_text(request.preview_confirmed_at)
    &&& row.status@ == request.status.stored_name()
    &&& text::opt_text(row.draft_path) == text::opt_text(request.draft_path)
    &&& text::opt_text(row.last_error) == text::opt_text(request.last_error)
}

/// Whether a draft is the stored one.
pub open spec fn reads_draft(draft: ReplyDraft, stored: StoredDraft) -> bool {
    &&& draft.id == stored.id
    &&& draft.thread_id == stored.row.thread_id
    &&& draft.mail_id == stored.row.mail_id
    &&& draft.from_addr@ == stored.row.from_addr@
    &&& draft.to_addrs@ == stored.row.to_addrs@
    &&& draft.cc_addrs@ == stored.row.cc_addrs@
    &&& draft.subject@ == stored.row.subject@
    &&& draft.in_reply_to@ == stored.row.in_reply_to@
    &&& text::texts(draft.references@) == listed_references(stored.row.references_text@)
    &&& text::texts(draft.body@) == body_lines(stored.row.body@)
    &&& text::opt_text(draft.preview_confirmed_at) == text::opt_text(stored.row.preview_confirmed_at)
    &&& draft.status == ReplyDraftStatus::named(stored.row.status@)
    &&& text::opt_text(draft.draft_path) == text::opt_text(stored.row.draft_path)
    &&& text::opt_text(draft.last_error) == text::opt_text(stored.row.last_error)
    &&& draft.updated_at@ == stored.updated_at@
}

/// Joins lines by line feeds.
fn join_lines(parts: &Vec<String>) -> (r: String)
    ensures
        r@ == text::joined(text::texts(parts@), seq!['\n']),
{
    let mut feed: Vec<char> = Vec::new();
    feed.push('\n');
    assert(feed@ == seq!['\n']);
    let all = text::join_strings(parts, feed.as_slice());
    text::string_of(all.as_slice())
}

/// Turns a draft into the columns that it is written to.
pub fn draft_row(request: &ReplyDraftRequest) -> (r: DraftRow)
    ensures
        stores_draft(r, *request),
{
    DraftRow {
        thread_id: request.thread_id,
        mail_id: request.mail_id,
        from_addr: request.from_addr.clone(),
        to_addrs: request.to_addrs.clone(),
        cc_addrs: request.cc_addrs.clone(),
        subject: request.subject.clone(),
        in_reply_to: request.in_reply_to.clone(),
        references_text: join_lines(&request.references),
        body: join_lines(&request.body),
        preview_confirmed_at: text::copy_opt(&request.preview_confirmed_at),
        status: request.status.as_str().to_string(),
        draft_path: text::copy_opt(&request.draft_path),
        last_error: text::copy_opt(&request.last_error),
    }
}

/// Reads the references that a stored text lists.
fn read_references(s: &String) -> (r: Vec<String>)
    ensures
        text::texts(r@) == listed_references(s@),
{
    let all = text::chars_of(s.as_str());
    let parts = text::split_lines(all.as_slice());
    let ghost views = text::slices(parts@);
    let mut out: Vec<String> = Vec::new();
    let mut i: usize = 0;
    assert(text::texts(out@) == filled_lines(views.take(0)));
    while i < parts.len()
        invariant
            i <= parts.len(),
            views == text::slices(parts@),
            text::texts(out@) == filled_lines(views.take(i as int)),
        decreases parts.len() - i,
    {
        assert(views.take(i + 1).drop_last() == views.take(i as int));
        assert(views.take(i + 1).last() == parts@[i as int]@);
        let filled = text::trim(parts[i]);
        if filled.len() > 0 {
            let ghost before = out@;
            let line = text::string_of(parts[i]);
            out.push(line);
            assert(text::texts(out@) == text::texts(before).push(line@));
        }
        i += 1;
    }
    assert(views.take(i as int) == views);
    out
}

/// Reads the body lines that a stored text holds.
fn read_body(s: &String) -> (r: Vec<String>)
    ensures
        text::texts(r@) == body_lines(s@),
{
    let all = text::chars_of(s.as_str());
    let parts = text::split(all.as_slice(), &CharClass::One('\n'));
    let ghost views = text::slices(parts@);
    let mut out: Vec<String> = Vec::new();
    let mut i: usize = 0;
    while i < parts.len()
        invariant
            i <= parts.len(),
            views == text::slices(parts@),
            text::texts(out@) == views.take(i as int),
        decreases parts.len() - i,
    {
        let ghost before = out@;
        let line = text::string_of(parts[i]);
        out.push(line);
        assert(text::texts(out@) == text::texts(before).push(line@));
        assert(views.take(i + 1) == views.take(i as int).push(parts@[i as int]@));
        i += 1;
    }
    assert(views.take(i as int) == views);
    out
}

/// Reads a stored draft.
pub fn map_reply_draft(stored: StoredDraft) -> (r: ReplyDraft)
    ensures
        reads_draft(r, stored),
{
    let references = read_references(&stored.row.references_text);
    let body = read_body(&stored.row.body);
    let status = ReplyDraftStatus::from_db(stored.row.status.as_str());
    ReplyDraft {
        id: stored.id,
        thread_id: stored.row.thread_id,
        mail_id: stored.row.mail_id,
        from_addr: stored.row.from_addr,
        to_addrs: stored.row.to_addrs,
        cc_addrs: stored.row.cc_addrs,
        subject: stored.row.subject,
        in_reply_to: stored.row.in_reply_to,
        references,
        body,
        preview_confirmed_at: stored.row.preview_confirmed_at,
        status,
        draft_path: stored.row.draft_path,
        last_error: stored.row.last_error,
        updated_at: stored.updated_at,
    }
}

/// The subject under which the anchor of a standalone draft is threaded.
pub fn anchor_subject(subject: &str) -> (r: String)
    ensures
        r@ == text::lowered(text::trimmed(subject@)),
{
    let all = text::chars_of(subject);
    let low = text::lower(text::trim(all.as_slice()));
    text::string_of(low.as_slice())
}

// ---------------------------------------------------------------------------
// Outbox
// ---------------------------------------------------------------------------

/// A draft or failed reply that can be sent again.
#[derive(Debug, Clone)]
pub struct ReplyOutboxEntry {
    pub id: i64,
    pub thread_id: i64,
    pub mail_id: i64,
    pub subject: String,
    pub to_addrs: String,
    pub status: ReplyDraftStatus,
    pub draft_path: Option<String>,
    pub last_error: Option<String>,
    pub updated_at: String,
}

/// An outbox row as it is read.
#[derive(Debug)]
pub struct StoredOutboxEntry {
    pub id: i64,
    pub thread_id: i64,
    pub mail_id: i64,
    pub subject: String,
    pub to_addrs: String,
    pub status: String,
    pub draft_path: Option<String>,
    pub last_error: Option<String>,
    pub updated_at: String,
}

/// Whether an outbox entry is the stored one.
pub open spec fn reads_entry(entry: ReplyOutboxEntry, stored: StoredOutboxEntry) -> bool {
    &&& entry.id == stored.id
    &&& entry.thread_id == stored.thread_id
    &&& entry.mail_id == stored.mail_id
    &&& entry.subject@ == stored.subject@
    &&& entry.to_addrs@ == stored.to_addrs@
    &&& entry.status == ReplyDraftStatus::named(stored.status@)
    &&& text::opt_text(entry.draft_path) == text::opt_text(stored.draft_path)
    &&& text::opt_text(entry.last_error) == text::opt_text(stored.last_error)
    &&& entry.updated_at@ == stored.updated_at@
}

/// Reads the rows of the outbox, in their order.
pub fn list_reply_outbox(rows: Vec<StoredOutboxEntry>) -> (r: Vec<ReplyOutboxEntry>)
    ensures
        r@.len() == rows@.len(),
        forall|i: int| 0 <= i < r@.len() ==> reads_entry(#[trigger] r@[i], rows@[i]),
{
    let mut out: Vec<ReplyOutboxEntry> = Vec::new();
    let mut i: usize = 0;
    while i < rows.len()
        invariant
            i <= rows.len(),
            out@.len() == i,
            forall|j: int| 0 <= j < i ==> reads_entry(#[trigger] out@[j], rows@[j]),
        decreases rows.len() - i,
    {
        let row = &rows[i];
        out.push(
            ReplyOutboxEntry {
                id: row.id,
                thread_id: row.thread_id,
                mail_id: row.mail_id,
                subject: row.subject.clone(),
                to_addrs: row.to_addrs.clone(),
                status: ReplyDraftStatus::from_db(row.status.as_str()),
                draft_path: text::copy_opt(&row.draft_path),
                last_error: text::copy_opt(&row.last_error),
                updated_at: row.updated_at.clone(),
            },
        );
        i += 1;
    }
    out
}

// ---------------------------------------------------------------------------
// Send history
// ---------------------------------------------------------------------------

/// An attempt to send a reply, to be recorded.
#[derive(Debug, Clone)]
pub struct ReplySendRecordRequest {
    pub thread_id: i64,
    pub mail_id: i64,
    pub transport: String,
    pub message_id: String,
    pub from_addr: String,
    pub to_addrs: String,
    pub cc_addrs: String,
    pub subject: String,
    pub preview_confirmed_at: String,
    pub status: ReplySendStatus,
    pub command: Option<String>,
    pub draft_path: Option<String>,
    pub exit_code: Option<i32>,
    pub timed_out: bool,
    pub error_summary: Option<String>,
    pub stdout: Option<String>,
    pub stderr: Option<String>,
    pub started_at: String,
    pub finished_at: String,
}

/// A recorded attempt to send a reply.
#[derive(Debug, Clone)]
pub struct ReplySendRecord {
    pub id: i64,
    pub thread_id: i64,
    pub mail_id: i64,
    pub transport: String,
    pub message_id: String,
    pub from_addr: String,
    pub to_addrs: String,
    pub cc_addrs: String,
    pub subject: String,
    pub preview_confirmed_at: String,
    pub status: ReplySendStatus,
    pub command: Option<String>,
    pub draft_path: Option<String>,
    pub exit_code: Option<i32>,
    pub timed_out: bool,
    pub error_summary: Option<String>,
    pub stdout: Option<String>,
    pub stderr: Option<String>,
    pub started_at: String,
    pub finished_at: String,
}

/// The columns of a send record.
#[derive(Debug)]
pub struct SendRow {
    pub thread_id: i64,
    pub mail_id: i64,
    pub transport: String,
    pub message_id: String,
    pub from_addr: String,
    pub to_addrs: String,
    pub cc_addrs: String,
    pub subject: String,
    pub preview_confirmed_at: String,
    pub status: String,
    pub command: Option<String>,
    pub draft_path: Option<String>,
    pub exit_code: Option<i32>,
    pub timed_out: i64,
    pub error_summary: Option<String>,
    pub stdout: Option<String>,
    pub stderr: Option<String>,
    pub started_at: String,
    pub finished_at: String,
}

/// Whether the columns hold a send record.
pub open spec fn stores_send(row: SendRow, request: ReplySendRecordRequest) -> bool {
    &&& row.thread_id == request.thread_id
    &&& row.mail_id == request.mail_id
    &&& row.transport@ == request.transport@
    &&& row.message_id@ == request.message_id@
    &&& row.from_addr@ == request.from_addr@
    &&& row.to_addrs@ == request.to_addrs@
    &&& row.cc_addrs@ == request.cc_addrs@
    &&& row.subject@ == request.subject@
    &&& row.preview_confirmed_at@ == request.preview_confirmed_at@
    &&& row.status@ == request.status.stored_name()
    &&& text::opt_text(row.command) == text::opt_text(request.command)
    &&& text::opt_text(row.draft_path) == text::opt_text(request.draft_path)
    &&& row.exit_code == request.exit_code
    &&& row.timed_out == if request.timed_out {
        1i64
    } else {
        0i64
    }
    &&& text::opt_text(row.error_summary) == text::opt_text(request.error_summary)
    &&& text::opt_text(row.stdout) == text::opt_text(request.stdout)
    &&& text::opt_text(row.stderr) == text::opt_text(request.stderr)
    &&& row.started_at@ == request.started_at@
    &&& row.finished_at@ == request.finished_at@
}

/// Whether a record is the stored one.
pub open spec fn reads_send(record: ReplySendRecord, id: i64, row: SendRow) -> bool {
    &&& record.id == id
    &&& record.thread_id == row.thread_id
    &&& record.mail_id == row.mail_id
    &&& record.transport@ == row.transport@
    &&& record.message_id@ == row.message_id@
    &&& record.from_addr@ == row.from_addr@
    &&& record.to_addrs@ == row.to_addrs@
    &&& record.cc_addrs@ == row.cc_addrs@
    &&& record.subject@ == row.subject@
    &&& record.preview_confirmed_at@ == row.preview_confirmed_at@
    &&& record.status == ReplySendStatus::named(row.status@)
    &&& text::opt_text(record.command) == text::opt_text(row.command)
    &&& text::opt_text(record.draft_path) == text::opt_text(row.draft_path)
    &&& record.exit_code == row.exit_code
    &&& record.timed_out == (row.timed_out != 0)
    &&& text::opt_text(record.error_summary) == text::opt_text(row.error_summary)
    &&& text::opt_text(record.stdout) == text::opt_text(row.stdout)
    &&& text::opt_text(record.stderr) == text::opt_text(row.stderr)
    &&& record.started_at@ == row.started_at@
    &&& record.finished_at@ == row.finished_at@
}

/// Turns an attempt into the columns that it is written to. The path of the
/// draft and the outcome stand together, so that a failed attempt can be
/// recovered by hand.
pub fn send_row(request: &ReplySendRecordRequest) -> (r: SendRow)
    ensures
        stores_send(r, *request),
{
    SendRow {
        thread_id: request.thread_id,
        mail_id: request.mail_id,
        transport: request.transport.clone(),
        message_id: request.message_id.clone(),
        from_addr: request.from_addr.clone(),
        to_addrs: request.to_addrs.clone(),
        cc_addrs: request.cc_addrs.clone(),
        subject: request.subject.clone(),
        preview_confirmed_at: request.preview_confirmed_at.clone(),
        status: request.status.as_str().to_string(),
        command: text::copy_opt(&request.command),
        draft_path: text::copy_opt(&request.draft_path),
        exit_code: request.exit_code,
        timed_out: bool_to_i64(request.timed_out),
        error_summary: text::copy_opt(&request.error_summary),
        stdout: text::copy_opt(&request.stdout),
        stderr: text::copy_opt(&request.stderr),
        started_at: request.started_at.clone(),
        finished_at: request.finished_at.clone(),
    }
}

/// Reads a stored send record.
pub fn map_reply_send(id: i64, row: SendRow) -> (r: ReplySendRecord)
    ensures
        reads_send(r, id, row),
{
    let status = ReplySendStatus::from_db(row.status.as_str());
    ReplySendRecord {
        id,
        thread_id: row.thread_id,
        mail_id: row.mail_id,
        transport: row.transport,
        message_id: row.message_id,
        from_addr: row.from_addr,
        to_addrs: row.to_addrs,
        cc_addrs: row.cc_addrs,
        subject: row.subject,
        preview_confirmed_at: row.preview_confirmed_at,
        status,
        command: row.command,
        draft_path: row.draft_path,
        exit_code: row.exit_code,
        timed_out: row.timed_out != 0,
        error_summary: row.error_summary,
        stdout: row.stdout,
        stderr: row.stderr,
        started_at: row.started_at,
        finished_at: row.finished_at,
    }
}

// ---------------------------------------------------------------------------
// Laws
// ---------------------------------------------------------------------------

/// A status is read back from the name under which it is stored.
pub proof fn law_stored_statuses_are_read_back(draft: ReplyDraftStatus, send: ReplySendStatus)
    ensures
        ReplyDraftStatus::named(draft.stored_name()) == draft,
        ReplySendStatus::named(send.stored_name()) == send,
{
    reveal_strlit("draft");
    reveal_strlit("failed");
    reveal_strlit("sent");
    reveal_strlit("timed_out");
    assert("draft"@[0] == 'd');
    assert("failed"@[0] == 'f');
    assert("sent"@[0] == 's');
    assert("timed_out"@[0] == 't');
}

/// Whether references survive being stored one per line: none is blank or holds
/// a line feed, and none but the last ends in a carriage return.
pub open spec fn storable_references(references: Seq<Seq<char>>) -> bool {
    forall|i: int|
        0 <= i < references.len() ==> text::trimmed(#[trigger] references[i]).len() > 0 && !text::has_any(
            references[i],
            CharClass::One('\n'),
        ) && (i < references.len() - 1 ==> references[i].last() != '\r')
}

/// Whether body lines survive being stored: there is one, and none holds a line
/// feed.
pub open spec fn storable_body(body: Seq<Seq<char>>) -> bool {
    &&& body.len() > 0
    &&& forall|i: int|
        0 <= i < body.len() ==> !text::has_any(#[trigger] body[i], CharClass::One('\n'))
}

/// What was stored of a draft is what is read back: every field of it, the
/// references and the body wherever they survive being stored.
pub proof fn law_stored_drafts_are_read_back(
    request: ReplyDraftRequest,
    stored: StoredDraft,
    draft: ReplyDraft,
)
    requires
        stores_draft(stored.row, request),
        reads_draft(draft, stored),
    ensures
        draft.id == stored.id,
        draft.thread_id == request.thread_id,
        draft.mail_id == request.mail_id,
        draft.from_addr@ == request.from_addr@,
        draft.to_addrs@ == request.to_addrs@,
        draft.cc_addrs@ == request.cc_addrs@,
        draft.subject@ == request.subject@,
        draft.in_reply_to@ == request.in_reply_to@,
        storable_references(text::texts(request.references@)) ==> text::texts(draft.references@)
            == text::texts(request.references@),
        storable_body(text::texts(request.body@)) ==> text::texts(draft.body@) == text::texts(
            request.body@,
        ),
        text::opt_text(draft.preview_confirmed_at) == text::opt_text(request.preview_confirmed_at),
        draft.status == request.status,
        text::opt_text(draft.draft_path) == text::opt_text(request.draft_path),
        text::opt_text(draft.last_error) == text::opt_text(request.last_error),
{
    law_stored_statuses_are_read_back(request.status, ReplySendStatus::Sent);
    if storable_references(text::texts(request.references@)) {
        law_stored_references_are_read_back(text::texts(request.references@));
    }
    if storable_body(text::texts(request.body@)) {
        law_stored_bodies_are_read_back(text::texts(request.body@));
    }
}

/// References that survive being stored one per line are read back from the
/// joined text.
pub proof fn law_stored_references_are_read_back(references: Seq<Seq<char>>)
    requires
        storable_references(references),
    ensures
        listed_references(text::joined(references, seq!['\n'])) == references,
{
    assert forall|i: int| 0 <= i < references.len() implies (#[trigger] references[i]).len() > 0
        && !text::has_any(references[i], CharClass::One('\n')) && (i < references.len() - 1
        ==> references[i].last() != '\r') by {
        text::lemma_stripped(references[i], CharClass::Space);
    }
    text::lemma_lines_of_joined(references);
    lemma_filled_lines(references);
}

/// Lines that are not blank are all kept.
proof fn lemma_filled_lines(all: Seq<Seq<char>>)
    requires
        forall|i: int| 0 <= i < all.len() ==> text::trimmed(#[trigger] all[i]).len() > 0,
    ensures
        filled_lines(all) == all,
    decreases all.len(),
{
    if all.len() > 0 {
        assert(text::trimmed(all[all.len() - 1]).len() > 0);
        assert forall|i: int| 0 <= i < all.drop_last().len() implies text::trimmed(
            #[trigger] all.drop_last()[i],
        ).len() > 0 by {
            assert(all.drop_last()[i] == all[i]);
        }
        lemma_filled_lines(all.drop_last());
        assert(all.drop_last().push(all.last()) == all);
    }
}

/// Body lines that survive being stored are read back from the joined text.
pub proof fn law_stored_bodies_are_read_back(body: Seq<Seq<char>>)
    requires
        storable_body(body),
    ensures
        body_lines(text::joined(body, seq!['\n'])) == body,
{
    text::lemma_pieces_of_joined(body, '\n');
}

/// What was stored of a send record is what is read back.
pub proof fn law_stored_sends_are_read_back(
    request: ReplySendRecordRequest,
    id: i64,
    row: SendRow,
    record: ReplySendRecord,
)
    requires
        stores_send(row, request),
        reads_send(record, id, row),
    ensures
        record.id == id,
        record.thread_id == request.thread_id,
        record.mail_id == request.mail_id,
        record.transport@ == request.transport@,
        record.message_id@ == request.message_id@,
        record.from_addr@ == request.from_addr@,
        record.to_addrs@ == request.to_addrs@,
        record.cc_addrs@ == request.cc_addrs@,
        record.subject@ == request.subject@,
        record.preview_confirmed_at@ == request.preview_confirmed_at@,
        record.status == request.status,
        text::opt_text(record.command) == text::opt_text(request.command),
        text::opt_text(record.draft_path) == text::opt_text(request.draft_path),
        record.exit_code == request.exit_code,
        record.timed_out == request.timed_out,
        text::opt_text(record.error_summary) == text::opt_text(request.error_summary),
        text::opt_text(record.stdout) == text::opt_text(request.stdout),
        text::opt_text(record.stderr) == text::opt_text(request.stderr),
        record.started_at@ == request.started_at@,
        record.finished_at@ == request.finished_at@,
{
    law_stored_statuses_are_read_back(ReplyDraftStatus::Draft, request.status);
}

// ---------------------------------------------------------------------------
// The outbox over time
// ---------------------------------------------------------------------------

/// One call on the stored drafts that succeeded.
pub enum DraftCall {
    /// The columns of a draft were written, in place of those of an earlier one
    /// for the same mail.
    Put { request: ReplyDraftRequest, row: DraftRow },
    /// The draft for a mail was removed.
    Delete { thread_id: i64, mail_id: i64 },
}

/// The thread and the mail that a call is about.
pub open spec fn call_pair(call: DraftCall) -> (i64, i64) {
    match call {
        DraftCall::Put { row, .. } => (row.thread_id, row.mail_id),
        DraftCall::Delete { thread_id, mail_id } => (thread_id, mail_id),
    }
}

/// Whether every call wrote the columns of its draft.
pub open spec fn calls_write_drafts(calls: Seq<DraftCall>) -> bool {
    forall|i: int|
        0 <= i < calls.len() ==> (#[trigger] calls[i] matches DraftCall::Put { request, row }
            ==> stores_draft(row, request))
}

/// The columns that are stored after some calls, by thread and mail.
pub open spec fn kept_drafts(calls: Seq<DraftCall>) -> Map<(i64, i64), DraftRow>
    decreases calls.len(),
{
    if calls.len() == 0 {
        Map::empty()
    } else {
        let before = kept_drafts(calls.drop_last());
        match calls.last() {
            DraftCall::Put { row, .. } => before.insert(call_pair(calls.last()), row),
            DraftCall::Delete { .. } => before.remove(call_pair(calls.last())),
        }
    }
}

/// The last call about a thread and a mail.
pub open spec fn last_call(calls: Seq<DraftCall>, pair: (i64, i64)) -> Option<DraftCall>
    decreases calls.len(),
{
    if calls.len() == 0 {
        None
    } else if call_pair(calls.last()) == pair {
        Some(calls.last())
    } else {
        last_call(calls.drop_last(), pair)
    }
}

/// Whether an outbox row is read from the columns of a draft.
pub open spec fn selects(row: StoredOutboxEntry, draft: DraftRow) -> bool {
    &&& row.thread_id == draft.thread_id
    &&& row.mail_id == draft.mail_id
    &&& row.subject@ == draft.subject@
    &&& row.to_addrs@ == draft.to_addrs@
    &&& row.status@ == draft.status@
    &&& text::opt_text(row.draft_path) == text::opt_text(draft.draft_path)
    &&& text::opt_text(row.last_error) == text::opt_text(draft.last_error)
}

/// Whether a stored status belongs into the outbox.
pub open spec fn waits(status: Seq<char>) -> bool {
    status == "draft"@ || status == "failed"@
}

/// Whether something comes before something else in the outbox: it is later, or
/// as late and stored under a larger number.
pub open spec fn comes_first(time: Seq<char>, id: i64, other_time: Seq<char>, other: i64) -> bool {
    text::precedes(other_time, time) || (time == other_time && id > other)
}

/// Whether the rows are the stored drafts that wait, each once, the latest
/// first.
pub open spec fn lists_drafts(
    rows: Seq<StoredOutboxEntry>,
    kept: Map<(i64, i64), DraftRow>,
) -> bool {
    &&& forall|i: int|
        0 <= i < rows.len() ==> {
            let pair = ((#[trigger] rows[i]).thread_id, rows[i].mail_id);
            kept.contains_key(pair) && selects(rows[i], kept[pair])
        }
    &&& forall|i: int, j: int|
        0 <= i < j < rows.len() ==> ((#[trigger] rows[i]).thread_id, rows[i].mail_id) != ((
        #[trigger] rows[j]).thread_id, rows[j].mail_id)
    &&& forall|pair: (i64, i64)| #[trigger]
        kept.contains_key(pair) && waits(kept[pair].status@) ==> exists|i: int|
            0 <= i < rows.len() && ((#[trigger] rows[i]).thread_id, rows[i].mail_id) == pair
    &&& forall|i: int, j: int|
        0 <= i < j < rows.len() ==> comes_first(
            (#[trigger] rows[i]).updated_at@,
            rows[i].id,
            (#[trigger] rows[j]).updated_at@,
            rows[j].id,
        )
}

/// Whether an outbox entry shows a draft.
pub open spec fn entry_shows(entry: ReplyOutboxEntry, request: ReplyDraftRequest) -> bool {
    &&& entry.thread_id == request.thread_id
    &&& entry.mail_id == request.mail_id
    &&& entry.subject@ == request.subject@
    &&& entry.to_addrs@ == request.to_addrs@
    &&& entry.status == request.status
    &&& text::opt_text(entry.draft_path) == text::opt_text(request.draft_path)
    &&& text::opt_text(entry.last_error) == text::opt_text(request.last_error)
}

/// Whether some entry is about a thread and a mail.
pub open spec fn has_entry(outbox: Seq<ReplyOutboxEntry>, pair: (i64, i64)) -> bool {
    exists|i: int|
        0 <= i < outbox.len() && ((#[trigger] outbox[i]).thread_id, outbox[i].mail_id) == pair
}

/// What is stored for a mail is what was written last, unless it was removed
/// after that.
proof fn lemma_kept_drafts(calls: Seq<DraftCall>, pair: (i64, i64))
    ensures
        match last_call(calls, pair) {
            Some(DraftCall::Put { request, row }) => {
                &&& kept_drafts(calls).contains_key(pair)
                &&& kept_drafts(calls)[pair] == row
                &&& calls_write_drafts(calls) ==> stores_draft(row, request)
            },
            _ => !kept_drafts(calls).contains_key(pair),
        },
    decreases calls.len(),
{
    if calls.len() > 0 {
        let init = calls.drop_last();
        lemma_kept_drafts(init, pair);
        if calls_write_drafts(calls) {
            assert(calls[calls.len() - 1] == calls.last());
            assert forall|i: int| 0 <= i < init.len() implies (
            #[trigger] init[i] matches DraftCall::Put { request, row } ==> stores_draft(
                row,
                request,
            )) by {
                assert(init[i] == calls[i]);
            }
        }
    }
}

/// After any drafts were written and removed, the outbox has one entry for each
/// mail whose last call wrote a draft, a failed one as well as a new one, with
/// what that call wrote. A mail whose draft was removed last has none. The
/// latest entries come first.
pub proof fn law_outbox_lists_what_was_written_last(
    calls: Seq<DraftCall>,
    rows: Seq<StoredOutboxEntry>,
    outbox: Seq<ReplyOutboxEntry>,
)
    requires
        calls_write_drafts(calls),
        lists_drafts(rows, kept_drafts(calls)),
        outbox.len() == rows.len(),
        forall|i: int| 0 <= i < outbox.len() ==> reads_entry(#[trigger] outbox[i], rows[i]),
    ensures
        forall|pair: (i64, i64)|
            #![trigger has_entry(outbox, pair)]
            #![trigger last_call(calls, pair)]
            has_entry(outbox, pair) <==> last_call(calls, pair) matches Some(DraftCall::Put { .. }),
        forall|i: int|
            0 <= i < outbox.len() ==> (last_call(
                calls,
                ((#[trigger] outbox[i]).thread_id, outbox[i].mail_id),
            ) matches Some(DraftCall::Put { request, .. }) && entry_shows(outbox[i], request)),
        forall|i: int, j: int|
            0 <= i < j < outbox.len() ==> ((#[trigger] outbox[i]).thread_id, outbox[i].mail_id) != (
            (#[trigger] outbox[j]).thread_id, outbox[j].mail_id),
        forall|i: int, j: int|
            0 <= i < j < outbox.len() ==> comes_first(
                (#[trigger] outbox[i]).updated_at@,
                outbox[i].id,
                (#[trigger] outbox[j]).updated_at@,
                outbox[j].id,
            ),
{
    let kept = kept_drafts(calls);
    assert forall|i: int| 0 <= i < outbox.len() implies (last_call(
        calls,
        ((#[trigger] outbox[i]).thread_id, outbox[i].mail_id),
    ) matches Some(DraftCall::Put { request, .. }) && entry_shows(outbox[i], request)) by {
        let pair = (rows[i].thread_id, rows[i].mail_id);
        assert(reads_entry(outbox[i], rows[i]));
        assert(kept.contains_key(pair) && selects(rows[i], kept[pair]));
        lemma_kept_drafts(calls, pair);
        if let Some(DraftCall::Put { request, .. }) = last_call(calls, pair) {
            law_stored_statuses_are_read_back(request.status, ReplySendStatus::Sent);
        }
    }
    assert forall|pair: (i64, i64)|
        #![trigger has_entry(outbox, pair)]
        #![trigger last_call(calls, pair)]
        has_entry(outbox, pair) <==> last_call(calls, pair) matches Some(DraftCall::Put { .. }) by {
        lemma_kept_drafts(calls, pair);
        if last_call(calls, pair) matches Some(DraftCall::Put { .. }) {
            assert(kept.contains_key(pair) && waits(kept[pair].status@));
            let i = choose|i: int|
                0 <= i < rows.len() && ((#[trigger] rows[i]).thread_id, rows[i].mail_id) == pair;
            assert(reads_entry(outbox[i], rows[i]));
        }
    }
    assert forall|i: int, j: int| 0 <= i < j < outbox.len() implies ((
    #[trigger] outbox[i]).thread_id, outbox[i].mail_id) != (
    (#[trigger] outbox[j]).thread_id, outbox[j].mail_id) && comes_first(
        outbox[i].updated_at@,
        outbox[i].id,
        outbox[j].updated_at@,
        outbox[j].id,
    ) by {
        assert(reads_entry(outbox[i], rows[i]));
        assert(reads_entry(outbox[j], rows[j]));
    }
}

/// The names under which statuses are stored. A draft whose status is not known
/// counts as a draft, and a send whose status is not known as failed.
pub proof fn law_statuses_have_names(name: Seq<char>)
    ensures
        ReplyDraftStatus::Draft.stored_name() == "draft"@,
        ReplyDraftStatus::Failed.stored_name() == "failed"@,
        ReplySendStatus::Sent.stored_name() == "sent"@,
        ReplySendStatus::Failed.stored_name() == "failed"@,
        ReplySendStatus::TimedOut.stored_name() == "timed_out"@,
        name != "failed"@ ==> ReplyDraftStatus::named(name) == ReplyDraftStatus::Draft,
        name != "sent"@ && name != "timed_out"@ ==> ReplySendStatus::named(name)
            == ReplySendStatus::Failed,
{
}

/// Each column of a draft holds the field of its name.
pub proof fn law_draft_columns_hold_their_fields(row: DraftRow, request: ReplyDraftRequest)
    requires
        stores_draft(row, request),
    ensures
        row.thread_id == request.thread_id,
        row.mail_id == request.mail_id,
        row.from_addr@ == request.from_addr@,
        row.to_addrs@ == request.to_addrs@,
        row.cc_addrs@ == request.cc_addrs@,
        row.subject@ == request.subject@,
        row.in_reply_to@ == request.in_reply_to@,
        text::opt_text(row.preview_confirmed_at) == text::opt_text(request.preview_confirmed_at),
        text::opt_text(row.draft_path) == text::opt_text(request.draft_path),
        text::opt_text(row.last_error) == text::opt_text(request.last_error),
        request.status is Draft ==> row.status@ == "draft"@,
        request.status is Failed ==> row.status@ == "failed"@,
        request.references@.len() == 0 ==> row.references_text@.len() == 0,
        request.body@.len() == 0 ==> row.body@.len() == 0,
{
    if request.references@.len() == 0 {
        assert(text::texts(request.references@).len() == 0);
    }
    if request.body@.len() == 0 {
        assert(text::texts(request.body@).len() == 0);
    }
}

/// Each column of a sent reply holds the field of its name.
pub proof fn law_send_columns_hold_their_fields(row: SendRow, request: ReplySendRecordRequest)
    requires
        stores_send(row, request),
    ensures
        row.thread_id == request.thread_id,
        row.mail_id == request.mail_id,
        row.transport@ == request.transport@,
        row.message_id@ == request.message_id@,
        row.from_addr@ == request.from_addr@,
        row.to_addrs@ == request.to_addrs@,
        row.cc_addrs@ == request.cc_addrs@,
        row.subject@ == request.subject@,
        row.preview_confirmed_at@ == request.preview_confirmed_at@,
        row.exit_code == request.exit_code,
        request.timed_out ==> row.timed_out == 1,
        !request.timed_out ==> row.timed_out == 0,
        request.status is Sent ==> row.status@ == "sent"@,
        request.status is Failed ==> row.status@ == "failed"@,
        request.status is TimedOut ==> row.status@ == "timed_out"@,
        text::opt_text(row.command) == text::opt_text(request.command),
        text::opt_text(row.draft_path) == text::opt_text(request.draft_path),
        text::opt_text(row.error_summary) == text::opt_text(request.error_summary),
        text::opt_text(row.stdout) == text::opt_text(request.stdout),
        text::opt_text(row.stderr) == text::opt_text(request.stderr),
        row.started_at@ == request.started_at@,
        row.finished_at@ == request.finished_at@,
{
}

/// Each line of the outbox shows what is stored of its draft.
pub proof fn law_outbox_lines_show_their_drafts(
    entry: ReplyOutboxEntry,
    stored: StoredOutboxEntry,
)
    requires
        reads_entry(entry, stored),
    ensures
        entry.id == stored.id,
        entry.thread_id == stored.thread_id,
        entry.mail_id == stored.mail_id,
        entry.subject@ == stored.subject@,
        entry.to_addrs@ == stored.to_addrs@,
        text::opt_text(entry.draft_path) == text::opt_text(stored.draft_path),
        text::opt_text(entry.last_error) == text::opt_text(stored.last_error),
        entry.updated_at@ == stored.updated_at@,
        stored.status@ == "failed"@ ==> entry.status is Failed,
        stored.status@ != "failed"@ ==> entry.status is Draft,
{
}

/// Blank lines are no references, and every other line is one, as it stands.
pub proof fn law_filled_lines_are_references(all: Seq<Seq<char>>, line: Seq<char>)
    ensures
        text::trimmed(line).len() > 0 ==> filled_lines(all.push(line)) == filled_lines(all).push(
            line,
        ),
        text::trimmed(line).len() == 0 ==> filled_lines(all.push(line)) == filled_lines(all),
{
    assert(all.push(line).drop_last() == all);
}

} // verus!
