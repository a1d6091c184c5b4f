//! Records that pass between the mail store and the rest of the library.

use crate::mail_parser::HeadersView;
use crate::mail_parser::ParsedMailHeaders;
use crate::text;
use vstd::prelude::*;

verus! {

/// One mail of a thread, as the thread list shows it.
#[derive(Debug, Clone, PartialEq, Eq)]
pub struct ThreadRow {
    pub thread_id: i64,
    pub mail_id: i64,
    pub depth: i64,
    pub subject: String,
    pub from_addr: String,
    pub message_id: String,
    pub in_reply_to: Option<String>,
    pub date: Option<String>,
    pub raw_path: Option<String>,
}

/// The texts of a thread row.
pub struct RowView {
    pub thread_id: i64,
    pub mail_id: i64,
    pub depth: i64,
    pub subject: Seq<char>,
    pub from_addr: Seq<char>,
    pub message_id: Seq<char>,
    pub in_reply_to: Option<Seq<char>>,
    pub date: Option<Seq<char>>,
    pub raw_path: Option<Seq<char>>,
}

impl View for ThreadRow {
    type V = RowView;

    open spec fn view(&self) -> RowView {
        RowView {
            thread_id: self.thread_id,
            mail_id: self.mail_id,
            depth: self.depth,
            subject: self.subject@,
            from_addr: self.from_addr@,
            message_id: self.message_id@,
            in_reply_to: text::opt_text(self.in_reply_to),
            date: text::opt_text(self.date),
            raw_path: text::opt_text(self.raw_path),
        }
    }
}

/// How far a mailbox was synchronised.
#[derive(Debug)]
pub struct MailboxState {
    pub uidvalidity: u64,
    pub last_seen_uid: u32,
    pub highest_modseq: Option<u64>,
    pub synced_at: Option<String>,
}

/// One mail to store, with the name of the file that keeps it as it came.
#[derive(Debug)]
pub struct IncomingMail {
    pub mailbox: String,
    pub uid: u32,
    pub modseq: Option<u64>,
    pub flags: Vec<String>,
    pub raw_name: String,
    pub raw: Vec<u8>,
    pub parsed: ParsedMailHeaders,
}

/// The contents of a mail to store.
#[verifier::ext_equal]
pub struct IncomingView {
    pub mailbox: Seq<char>,
    pub uid: u32,
    pub modseq: Option<u64>,
    pub flags: Seq<Seq<char>>,
    pub raw_name: Seq<char>,
    pub raw: Seq<u8>,
    pub parsed: HeadersView,
}

impl View for IncomingMail {
    type V = IncomingView;

    open spec fn view(&self) -> IncomingView {
        IncomingView {
            mailbox: self.mailbox@,
            uid: self.uid,
            modseq: self.modseq,
            flags: text::texts(self.flags@),
            raw_name: self.raw_name@,
            raw: self.raw@,
            parsed: self.parsed@,
        }
    }
}

/// The contents of a list of mails to store.
pub open spec fn incoming_views(v: Seq<IncomingMail>) -> Seq<IncomingView> {
    Seq::new(v.len(), |i: int| v[i]@)
}

/// Everything that one synchronisation writes, with the checkpoint it reaches.
#[derive(Debug)]
pub struct SyncBatch {
    pub mailbox: String,
    pub uidvalidity: u64,
    pub highest_uid: u32,
    pub highest_modseq: Option<u64>,
    pub mails: Vec<IncomingMail>,
}

/// What writing a batch did.
#[derive(Debug)]
pub struct SyncWriteResult {
    pub inserted: usize,
    pub updated: usize,
    pub rebuilt_roots: usize,
    pub mailbox_rebuilt: bool,
    pub state: MailboxState,
}

/// A row is seen as it is stored, field by field.
pub proof fn law_rows_are_seen_as_stored(row: ThreadRow)
    ensures
        row@.thread_id == row.thread_id,
        row@.mail_id == row.mail_id,
        row@.depth == row.depth,
        row@.subject == row.subject@,
        row@.from_addr == row.from_addr@,
        row@.message_id == row.message_id@,
        row@.in_reply_to == text::opt_text(row.in_reply_to),
        row@.date == text::opt_text(row.date),
        row@.raw_path == text::opt_text(row.raw_path),
{
}

/// A mail to store is seen as it is, field by field.
pub proof fn law_incoming_mails_are_seen_as_they_are(mail: IncomingMail)
    ensures
        mail@.mailbox == mail.mailbox@,
        mail@.uid == mail.uid,
        mail@.modseq == mail.modseq,
        mail@.flags == text::texts(mail.flags@),
        mail@.raw_name == mail.raw_name@,
        mail@.raw == mail.raw@,
        mail@.parsed == mail.parsed@,
{
}

} // verus!
