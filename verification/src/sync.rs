//! Synchronisation of mailboxes.
//!
//! Fixtures, public archives and mail servers all pass through the same steps
//! before anything is stored, so that threads and checkpoints rest on one set of
//! rules whatever the source. This module decides; the program around it talks
//! to servers, files and the database and reports back.

use crate::completion;
use crate::config;
use crate::config::RuntimeConfig;
use crate::error::CriewError;
use crate::error::ErrorCode;
use crate::imap;
use crate::imap::EnvelopeView;
use crate::imap::MailboxSnapshot;
use crate::imap::RemoteMail;
use crate::imap::RemoteMailEnvelope;
use crate::mail_parser;
use crate::mail_parser::HeadersView;
use crate::mail_parser::ParsedMailHeaders;
use crate::mail_store;
use crate::mail_store::IncomingMail;
use crate::mail_store::IncomingView;
use crate::mail_store::MailboxState;
use crate::mail_store::SyncBatch;
use crate::mail_store::SyncWriteResult;
use crate::patch;
use crate::selection;
use crate::text;
use crate::text::CharClass;
use vstd::prelude::*;

verus! {

// ---------------------------------------------------------------------------
// Requests and sources
// ---------------------------------------------------------------------------

/// A mailbox to synchronise.
#[derive(Debug, Clone)]
pub struct SyncRequest {
    pub mailbox: String,
    pub fixture_dir: Option<String>,
    pub uidvalidity: Option<u64>,
    pub reconnect_attempts: u8,
}

/// A thread to fetch.
#[derive(Debug, Clone)]
pub struct ThreadFetchRequest {
    pub mailbox: String,
    pub message_id: String,
    pub reconnect_attempts: u8,
}

/// What a synchronisation did.
#[derive(Debug, Clone)]
pub struct SyncSummary {
    pub mailbox: String,
    pub source: String,
    pub fetched: usize,
    pub inserted: usize,
    pub updated: usize,
    pub rebuilt_roots: usize,
    pub mailbox_rebuilt: bool,
    pub uidvalidity: u64,
    pub checkpoint_last_seen_uid: u32,
    pub checkpoint_highest_modseq: Option<u64>,
    pub checkpoint_synced_at: Option<String>,
}

/// Where mails come from.
#[derive(Debug)]
pub enum SyncSource {
    Fixture { fixture_dir: String, uidvalidity_hint: u64 },
    Following { self_email: String },
    FollowingSent { self_email: String, mailbox: String },
    GnuArchive,
    Lore { base_url: String },
}

/// The texts of a source.
pub enum SourceView {
    Fixture { fixture_dir: Seq<char>, uidvalidity_hint: u64 },
    Following { self_email: Seq<char> },
    FollowingSent { self_email: Seq<char>, mailbox: Seq<char> },
    GnuArchive,
    Lore { base_url: Seq<char> },
}

impl View for SyncSource {
    type V = SourceView;

    open spec fn view(&self) -> SourceView {
        match *self {
            SyncSource::Fixture { fixture_dir, uidvalidity_hint } => SourceView::Fixture {
                fixture_dir: fixture_dir@,
                uidvalidity_hint,
            },
            SyncSource::Following { self_email } => SourceView::Following {
                self_email: self_email@,
            },
            SyncSource::FollowingSent { self_email, mailbox } => SourceView::FollowingSent {
                self_email: self_email@,
                mailbox: mailbox@,
            },
            SyncSource::GnuArchive => SourceView::GnuArchive,
            SyncSource::Lore { base_url } => SourceView::Lore { base_url: base_url@ },
        }
    }
}

/// The connection that a source needs.
#[derive(Debug)]
pub enum ClientPlan {
    Fixture { fixture_dir: String, uidvalidity_hint: u64 },
    RemoteImap,
    GnuArchive,
    Lore { base_url: String },
}

impl SourceView {
    /// The name of the source in reports.
    pub open spec fn name(self) -> Seq<char> {
        match self {
            SourceView::Fixture { fixture_dir, .. } => fixture_dir,
            SourceView::Following { .. } => "imap-following"@,
            SourceView::FollowingSent { mailbox, .. } => "imap-following-sent:"@ + mailbox,
            SourceView::GnuArchive => "https://lists.gnu.org/archive/mbox"@,
            SourceView::Lore { base_url } => base_url,
        }
    }

    /// The address of the user, where the source is about them.
    pub open spec fn follows(self) -> Option<Seq<char>> {
        match self {
            SourceView::Following { self_email } => Some(self_email),
            SourceView::FollowingSent { self_email, .. } => Some(self_email),
            _ => None,
        }
    }

    /// The mailbox that is read and stored for a requested one.
    pub open spec fn stored_under(self, mailbox: Seq<char>) -> Seq<char> {
        if self is Following {
            config::IMAP_INBOX_MAILBOX@
        } else {
            mailbox
        }
    }
}

/// Whether a plan connects to a source.
pub open spec fn connects(plan: ClientPlan, source: SourceView) -> bool {
    match source {
        SourceView::Fixture { fixture_dir, uidvalidity_hint } => plan matches ClientPlan::Fixture {
            fixture_dir: dir,
            uidvalidity_hint: hint,
        } && dir@ == fixture_dir && hint == uidvalidity_hint,
        SourceView::Following { .. } => plan is RemoteImap,
        SourceView::FollowingSent { .. } => plan is RemoteImap,
        SourceView::GnuArchive => plan is GnuArchive,
        SourceView::Lore { base_url } => plan matches ClientPlan::Lore { base_url: url } && url@
            == base_url,
    }
}

/// The snapshot that stands for an archive of threads: what was reached the
/// last time. A thread is found there even after it left the recent list.
pub open spec fn archived_snapshot(checkpoint: Option<MailboxState>) -> MailboxSnapshot {
    match checkpoint {
        Some(state) => MailboxSnapshot {
            uidvalidity: state.uidvalidity,
            highest_uid: state.last_seen_uid,
            highest_modseq: state.highest_modseq,
        },
        None => MailboxSnapshot { uidvalidity: 1, highest_uid: 0, highest_modseq: None },
    }
}

impl SyncSource {
    /// The name of the source in reports.
    pub fn label(&self) -> (r: String)
        ensures
            r@ == self@.name(),
    {
        match self {
            SyncSource::Fixture { fixture_dir, .. } => fixture_dir.clone(),
            SyncSource::Following { .. } => "imap-following".to_string(),
            SyncSource::FollowingSent { mailbox, .. } => {
                let name = text::chars_of(mailbox.as_str());
                text::labelled("imap-following-sent:", name.as_slice())
            },
            SyncSource::GnuArchive => "https://lists.gnu.org/archive/mbox".to_string(),
            SyncSource::Lore { base_url } => base_url.clone(),
        }
    }

    /// Whether mails come from files.
    pub fn is_fixture(&self) -> (r: bool)
        ensures
            r == self@ is Fixture,
    {
        match self {
            SyncSource::Fixture { .. } => true,
            _ => false,
        }
    }

    /// Whether mails come from the user's sent mail.
    pub fn is_following_sent(&self) -> (r: bool)
        ensures
            r == self@ is FollowingSent,
    {
        match self {
            SyncSource::FollowingSent { .. } => true,
            _ => false,
        }
    }

    /// Whether mails come from a public archive of threads.
    pub fn is_lore(&self) -> (r: bool)
        ensures
            r == self@ is Lore,
    {
        match self {
            SyncSource::Lore { .. } => true,
            _ => false,
        }
    }

    /// The address of the user, where the source is about them.
    pub fn following_self_email(&self) -> (r: Option<&str>)
        ensures
            match r {
                Some(email) => self@.follows() == Some(email@),
                None => self@.follows() is None,
            },
    {
        match self {
            SyncSource::Following { self_email } => Some(self_email.as_str()),
            SyncSource::FollowingSent { self_email, .. } => Some(self_email.as_str()),
            _ => None,
        }
    }

    /// The mailbox that is read and stored for a requested one. The virtual view
    /// is backed by the inbox.
    pub fn storage_mailbox<'a>(&self, mailbox: &'a str) -> (r: &'a str)
        ensures
            r@ == self@.stored_under(mailbox@),
    {
        match self {
            SyncSource::Following { .. } => config::IMAP_INBOX_MAILBOX,
            _ => mailbox,
        }
    }

    /// The connection that the source needs.
    pub fn client(&self) -> (r: ClientPlan)
        ensures
            connects(r, self@),
    {
        match self {
            SyncSource::Fixture { fixture_dir, uidvalidity_hint } => ClientPlan::Fixture {
                fixture_dir: fixture_dir.clone(),
                uidvalidity_hint: *uidvalidity_hint,
            },
            SyncSource::Following { .. } => ClientPlan::RemoteImap,
            SyncSource::FollowingSent { .. } => ClientPlan::RemoteImap,
            SyncSource::GnuArchive => ClientPlan::GnuArchive,
            SyncSource::Lore { base_url } => ClientPlan::Lore { base_url: base_url.clone() },
        }
    }

    /// The snapshot to fetch a thread with, where no mailbox has to be opened
    /// for it.
    pub fn select_thread_snapshot(&self, checkpoint: &Option<MailboxState>) -> (r: Option<
        MailboxSnapshot,
    >)
        ensures
            r == if self@ is Lore {
                Some(archived_snapshot(*checkpoint))
            } else {
                None
            },
    {
        if !self.is_lore() {
            return None;
        }
        match checkpoint {
            Some(state) => Some(
                MailboxSnapshot {
                    uidvalidity: state.uidvalidity,
                    highest_uid: state.last_seen_uid,
                    highest_modseq: state.highest_modseq,
                },
            ),
            None => Some(
                MailboxSnapshot { uidvalidity: 1, highest_uid: 0, highest_modseq: None },
            ),
        }
    }
}

/// Whether a mailbox is the inbox.
pub open spec fn inbox(mailbox: Seq<char>) -> bool {
    text::same_letters(mailbox, config::IMAP_INBOX_MAILBOX@)
}

/// Whether a list is kept in the archive of the GNU project. It is an assumption
/// that these are the lists whose names open with `qemu-`.
pub open spec fn in_gnu_archive(mailbox: Seq<char>) -> bool {
    text::opens_with(text::lowered(mailbox), "qemu-"@)
}

/// The source of a requested mailbox, or the complaint about the configuration.
pub open spec fn source_of(config: RuntimeConfig, request: SyncRequest) -> Result<
    SourceView,
    Seq<char>,
> {
    if let Some(dir) = request.fixture_dir {
        Ok(
            SourceView::Fixture {
                fixture_dir: dir@,
                uidvalidity_hint: match request.uidvalidity {
                    Some(hint) => hint,
                    None => 1,
                },
            },
        )
    } else if text::same_letters(request.mailbox@, config::FOLLOWING_VIEW@) || inbox(request.mailbox@) {
        if !config.imap.complete() {
            Err(
                "IMAP config is incomplete for Following: missing "@ + text::joined(
                    config.imap.missing(),
                    ", "@,
                ),
            )
        } else {
            match config.self_email() {
                Some(email) => Ok(SourceView::Following { self_email: email }),
                None => Err(
                    "self email is required for Following discovery; set imap.email or git config user.email"@,
                ),
            }
        }
    } else if in_gnu_archive(request.mailbox@) {
        Ok(SourceView::GnuArchive)
    } else {
        Ok(SourceView::Lore { base_url: config.lore_base_url@ })
    }
}

/// Decides whether a mailbox is the inbox.
pub fn is_inbox(mailbox: &str) -> (r: bool)
    ensures
        r == inbox(mailbox@),
{
    text::same_str_ignoring_case(mailbox, config::IMAP_INBOX_MAILBOX)
}

/// Decides whether a list is kept in the archive of the GNU project.
pub fn uses_gnu_qemu_archive(mailbox: &str) -> (r: bool)
    ensures
        r == in_gnu_archive(mailbox@),
{
    let all = text::chars_of(mailbox);
    let low = text::lower(all.as_slice());
    let opening = text::chars_of("qemu-");
    text::starts_with(low.as_slice(), opening.as_slice())
}

/// Finds the source of a requested mailbox. The virtual view is backed by the
/// inbox of the mail account, and either name reaches it.
pub fn resolve_sync_source(config: &RuntimeConfig, request: &SyncRequest) -> (r: Result<
    SyncSource,
    CriewError,
>)
    ensures
        match r {
            Ok(source) => source_of(*config, *request) == Ok::<SourceView, Seq<char>>(source@),
            Err(error) => error.code == ErrorCode::Imap && source_of(*config, *request) == Err::<
                SourceView,
                Seq<char>,
            >(error.message@),
        },
{
    if let Some(fixture_dir) = &request.fixture_dir {
        let uidvalidity_hint = match request.uidvalidity {
            Some(hint) => hint,
            None => 1,
        };
        return Ok(SyncSource::Fixture { fixture_dir: fixture_dir.clone(), uidvalidity_hint });
    }
    let mailbox = request.mailbox.as_str();
    if text::same_str_ignoring_case(mailbox, config::FOLLOWING_VIEW) || is_inbox(mailbox) {
        if config.imap.is_complete() {
            return match config.resolve_self_email() {
                Some(self_email) => Ok(SyncSource::Following { self_email }),
                None => Err(
                    CriewError::new(
                        ErrorCode::Imap,
                        "self email is required for Following discovery; set imap.email or git config user.email".to_string(),
                    ),
                ),
            };
        }
        let missing = config.imap.missing_required_fields();
        let comma = text::chars_of(", ");
        let names = text::join_strings(&missing, comma.as_slice());
        return Err(
            CriewError::new(
                ErrorCode::Imap,
                text::labelled("IMAP config is incomplete for Following: missing ", names.as_slice()),
            ),
        );
    }
    if uses_gnu_qemu_archive(mailbox) {
        return Ok(SyncSource::GnuArchive);
    }
    Ok(SyncSource::Lore { base_url: config.lore_base_url.clone() })
}

// ---------------------------------------------------------------------------
// Which mails are kept
// ---------------------------------------------------------------------------

/// Whether a subject is that of a patch that was sent, not of a reply.
pub open spec fn sent_patch(subject: Seq<char>) -> bool {
    let value = text::lowered(text::trimmed(subject));
    &&& !text::opens_with(value, "re:"@)
    &&& !text::opens_with(value, "fwd:"@)
    &&& patch::signature(subject) is Some
}

/// Whether some address names a mailbox.
pub open spec fn names_mailbox(addresses: Seq<Seq<char>>, mailbox: Seq<char>) -> bool {
    exists|i: int|
        0 <= i < addresses.len() && mail_parser::mailbox_of(#[trigger] addresses[i]) == Some(
            mailbox,
        )
}

/// Whether a mail concerns the user: it is addressed to them, or they sent it
/// and it is a patch or a reply to one.
pub open spec fn concerns(mail: HeadersView, self_email: Seq<char>) -> bool {
    match mail_parser::mailbox_of(self_email) {
        Some(me) => {
            ||| names_mailbox(mail.to_addresses, me)
            ||| names_mailbox(mail.cc_addresses, me)
            ||| mail_parser::mailbox_of(mail.from_addr) == Some(me) && (sent_patch(mail.subject)
                || (completion::marked(mail.subject) && patch::signature(mail.subject) is Some))
        },
        None => false,
    }
}

/// Whether a mail is patch mail that the user sent.
pub open spec fn own_patch_mail(mail: HeadersView, self_email: Seq<char>) -> bool {
    mail_parser::mailbox_of(mail.from_addr) == Some(self_email) && patch::signature(
        mail.subject,
    ) is Some
}

/// Whether a source keeps a mail of a mailbox.
pub open spec fn keeps(source: SourceView, mailbox: Seq<char>, mail: HeadersView) -> bool {
    match source.follows() {
        Some(self_email) => if source is FollowingSent {
            own_patch_mail(mail, self_email)
        } else {
            concerns(mail, self_email)
        },
        None => if source is Fixture && inbox(mailbox) {
            patch::signature(mail.subject) is Some
        } else {
            true
        },
    }
}

/// The mails that a source keeps.
pub open spec fn kept_mails(
    mails: Seq<EnvelopeView>,
    source: SourceView,
    mailbox: Seq<char>,
) -> Seq<EnvelopeView>
    decreases mails.len(),
{
    if mails.len() == 0 {
        seq![]
    } else if keeps(source, mailbox, mails.last().parsed) {
        kept_mails(mails.drop_last(), source, mailbox).push(mails.last())
    } else {
        kept_mails(mails.drop_last(), source, mailbox)
    }
}

/// A message identifier without the brackets around it.
pub open spec fn bare_id(value: Seq<char>) -> Seq<char> {
    text::skip_trailing(text::skip_leading(text::trimmed(value), CharClass::One('<')), CharClass::One('>'))
}

/// Decides whether a subject is that of a patch that was sent.
pub fn is_sent_patch_subject(subject: &str) -> (r: bool)
    ensures
        r == sent_patch(subject@),
{
    let all = text::chars_of(subject);
    let value = text::lower(text::trim(all.as_slice()));
    let re = text::chars_of("re:");
    let fwd = text::chars_of("fwd:");
    !text::starts_with(value.as_slice(), re.as_slice()) && !text::starts_with(value.as_slice(), fwd.as_slice())
        && patch::subject_is_patch_related(subject)
}

/// Decides whether an address names a mailbox.
fn is_mailbox(address: &String, mailbox: &String) -> (r: bool)
    ensures
        r == (mail_parser::mailbox_of(address@) == Some(mailbox@)),
{
    match mail_parser::normalize_email_address(address.as_str()) {
        Some(found) => found == *mailbox,
        None => false,
    }
}

/// Decides whether some address names a mailbox.
fn has_mailbox(addresses: &Vec<String>, mailbox: &String) -> (r: bool)
    ensures
        r == names_mailbox(text::texts(addresses@), mailbox@),
{
    let ghost views = text::texts(addresses@);
    let mut i: usize = 0;
    while i < addresses.len()
        invariant
            i <= addresses.len(),
            views == text::texts(addresses@),
            forall|j: int|
                0 <= j < i ==> mail_parser::mailbox_of(#[trigger] views[j]) != Some(mailbox@),
        decreases addresses.len() - i,
    {
        assert(views[i as int] == addresses@[i as int]@);
        if is_mailbox(&addresses[i], mailbox) {
            return true;
        }
        i += 1;
    }
    false
}

/// Decides whether a mail concerns the user.
pub fn is_following_match(parsed: &ParsedMailHeaders, self_email: &str) -> (r: bool)
    ensures
        r == concerns(parsed@, self_email@),
        mail_parser::mailbox_of(self_email@) matches Some(me) ==> forall|i: int|
            0 <= i < parsed.to_addresses@.len() && mail_parser::mailbox_of(
                (#[trigger] parsed.to_addresses@[i])@,
            ) == Some(me) ==> r,
        mail_parser::mailbox_of(self_email@) matches Some(me) ==> forall|i: int|
            0 <= i < parsed.cc_addresses@.len() && mail_parser::mailbox_of(
                (#[trigger] parsed.cc_addresses@[i])@,
            ) == Some(me) ==> r,
{
    proof {
        if let Some(me) = mail_parser::mailbox_of(self_email@) {
            law_addressed_mail_concerns_the_user(parsed@, self_email@, me);
            assert forall|i: int|
                0 <= i < parsed.to_addresses@.len() && mail_parser::mailbox_of(
                    (#[trigger] parsed.to_addresses@[i])@,
                ) == Some(me) implies concerns(parsed@, self_email@) by {
                assert(parsed@.to_addresses[i] == parsed.to_addresses@[i]@);
            }
            assert forall|i: int|
                0 <= i < parsed.cc_addresses@.len() && mail_parser::mailbox_of(
                    (#[trigger] parsed.cc_addresses@[i])@,
                ) == Some(me) implies concerns(parsed@, self_email@) by {
                assert(parsed@.cc_addresses[i] == parsed.cc_addresses@[i]@);
            }
        }
    }
    let me = match mail_parser::normalize_email_address(self_email) {
        Some(me) => me,
        None => {
            return false;
        },
    };
    if has_mailbox(&parsed.to_addresses, &me) || has_mailbox(&parsed.cc_addresses, &me) {
        return true;
    }
    if !is_mailbox(&parsed.from_addr, &me) {
        return false;
    }
    let subject = parsed.subject.as_str();
    is_sent_patch_subject(subject) || (completion::is_reply_or_forward_subject(subject)
        && patch::subject_is_patch_related(subject))
}

/// Decides whether a mail is patch mail that the user sent.
pub fn is_following_sent_match(parsed: &ParsedMailHeaders, self_email: &str) -> (r: bool)
    ensures
        r == own_patch_mail(parsed@, self_email@),
{
    match mail_parser::normalize_email_address(parsed.from_addr.as_str()) {
        Some(address) => text::same_str(address.as_str(), self_email)
            && patch::subject_is_patch_related(parsed.subject.as_str()),
        None => false,
    }
}

/// Decides whether a source keeps a mail of a mailbox.
fn is_kept(source: &SyncSource, mailbox: &str, parsed: &ParsedMailHeaders) -> (r: bool)
    ensures
        r == keeps(source@, mailbox@, parsed@),
{
    match source.following_self_email() {
        Some(self_email) => {
            if source.is_following_sent() {
                is_following_sent_match(parsed, self_email)
            } else {
                is_following_match(parsed, self_email)
            }
        },
        None => {
            if source.is_fixture() && is_inbox(mailbox) {
                patch::subject_is_patch_related(parsed.subject.as_str())
            } else {
                true
            }
        },
    }
}

/// Keeps the mails that a source is about.
pub fn filter_messages(
    envelopes: Vec<RemoteMailEnvelope>,
    source: &SyncSource,
    mailbox: &str,
) -> (r: Vec<RemoteMailEnvelope>)
    ensures
        imap::envelope_views(r@) == kept_mails(
            imap::envelope_views(envelopes@),
            source@,
            mailbox@,
        ),
{
    let ghost given = envelopes@;
    let ghost mails = imap::envelope_views(given);
    let mut out: Vec<RemoteMailEnvelope> = Vec::new();
    assert(imap::envelope_views(out@) == kept_mails(mails.take(0), source@, mailbox@));
    for envelope in it: envelopes
        invariant
            it.seq() == given,
            mails == imap::envelope_views(given),
            imap::envelope_views(out@) == kept_mails(mails.take(it.index()), source@, mailbox@),
    {
        let ghost before = out@;
        let ghost at = it.index();
        assert(mails.take(at + 1).drop_last() == mails.take(at));
        assert(mails.take(at + 1).last() == envelope@);
        if is_kept(source, mailbox, &envelope.parsed) {
            out.push(envelope);
            assert(imap::envelope_views(out@) == imap::envelope_views(before).push(envelope@));
        }
    }
    assert(mails.take(mails.len() as int) == mails);
    out
}

/// No more mails are kept than there are.
proof fn lemma_kept_are_fewer(mails: Seq<EnvelopeView>, source: SourceView, mailbox: Seq<char>)
    ensures
        kept_mails(mails, source, mailbox).len() <= mails.len(),
    decreases mails.len(),
{
    if mails.len() > 0 {
        lemma_kept_are_fewer(mails.drop_last(), source, mailbox);
    }
}

/// Removes the brackets around a message identifier.
pub fn normalize_requested_message_id(value: &str) -> (r: String)
    ensures
        r@ == bare_id(value@),
{
    let all = text::chars_of(value);
    let opened = text::strip_leading(text::trim(all.as_slice()), &CharClass::One('<'));
    text::string_of(text::strip_trailing(opened, &CharClass::One('>')))
}

// ---------------------------------------------------------------------------
// What is stored
// ---------------------------------------------------------------------------

/// The last number that was made up after the first `n` mails. Numbers are made
/// up for mails without one, counting on from the checkpoint.
pub open spec fn last_made_up(start: u32, mails: Seq<EnvelopeView>, n: int) -> u32
    decreases n,
{
    if n <= 0 {
        start
    } else {
        let before = last_made_up(start, mails, n - 1);
        if mails[n - 1].remote.uid != 0 || before == u32::MAX {
            before
        } else {
            (before + 1) as u32
        }
    }
}

/// The number under which the mail at index `i` is stored.
pub open spec fn stored_number(start: u32, mails: Seq<EnvelopeView>, i: int) -> u32 {
    if mails[i].remote.uid == 0 {
        last_made_up(start, mails, i + 1)
    } else {
        mails[i].remote.uid
    }
}

/// The name of the file that keeps a mail. Leading zeros let names sort as
/// numbers do.
pub open spec fn file_name(uid: u32) -> Seq<char> {
    text::padded(uid as nat, 10) + ".eml"@
}

/// The mails to store.
pub open spec fn incoming_mails(
    mailbox: Seq<char>,
    start: u32,
    mails: Seq<EnvelopeView>,
) -> Seq<IncomingView> {
    Seq::new(
        mails.len(),
        |i: int|
            IncomingView {
                mailbox,
                uid: stored_number(start, mails, i),
                modseq: mails[i].remote.modseq,
                flags: mails[i].remote.flags,
                raw_name: file_name(stored_number(start, mails, i)),
                raw: mails[i].remote.raw,
                parsed: mails[i].parsed,
            },
    )
}

/// The larger of two optional numbers. None is smaller than any.
pub open spec fn larger_option(left: Option<u64>, right: Option<u64>) -> Option<u64> {
    match (left, right) {
        (Some(l), Some(r)) => if l < r {
            right
        } else {
            left
        },
        (Some(_), None) => left,
        (None, _) => right,
    }
}

/// The largest number of the mails, or a lower bound.
pub open spec fn largest_uid(mails: Seq<IncomingView>, bound: u32) -> u32
    decreases mails.len(),
{
    if mails.len() == 0 {
        bound
    } else {
        let before = largest_uid(mails.drop_last(), bound);
        if before < mails.last().uid {
            mails.last().uid
        } else {
            before
        }
    }
}

/// The largest modification number of the mails.
pub open spec fn largest_modseq(mails: Seq<IncomingView>) -> Option<u64>
    decreases mails.len(),
{
    if mails.len() == 0 {
        None
    } else {
        larger_option(largest_modseq(mails.drop_last()), mails.last().modseq)
    }
}

/// The larger of two numbers.
pub open spec fn larger(a: u32, b: u32) -> u32 {
    if a < b {
        b
    } else {
        a
    }
}

/// Whether a batch stores mails that were fetched after a checkpoint.
pub open spec fn stores_mails(
    batch: SyncBatch,
    mailbox: Seq<char>,
    last_seen_uid: u32,
    snapshot: MailboxSnapshot,
    mails: Seq<EnvelopeView>,
) -> bool {
    let incoming = incoming_mails(mailbox, last_seen_uid, mails);
    &&& batch.mailbox@ == mailbox
    &&& batch.uidvalidity == snapshot.uidvalidity
    &&& batch.highest_uid == larger(snapshot.highest_uid, largest_uid(incoming, last_seen_uid))
    &&& batch.highest_modseq == larger_option(snapshot.highest_modseq, largest_modseq(incoming))
    &&& mail_store::incoming_views(batch.mails@) == incoming
}

/// The larger of two optional numbers.
pub fn max_option(left: Option<u64>, right: Option<u64>) -> (r: Option<u64>)
    ensures
        r == larger_option(left, right),
{
    match (left, right) {
        (Some(l), Some(r)) => if l < r {
            right
        } else {
            left
        },
        (Some(_), None) => left,
        (None, _) => right,
    }
}

/// Makes the name of the file that keeps a mail.
fn make_file_name(uid: u32) -> (r: String)
    ensures
        r@ == file_name(uid),
{
    let mut name = text::padded_chars(uid as u64, 10);
    text::append_str(&mut name, ".eml");
    text::string_of(name.as_slice())
}

/// Prepares fetched mails for the store. Fixtures and archives do not always
/// number their mails; numbers are then made up, so that files and checkpoints
/// follow the same rules as for a mail server.
pub fn build_incoming_mail(
    mailbox: &str,
    checkpoint_last_seen_uid: u32,
    envelopes: Vec<RemoteMailEnvelope>,
) -> (r: Vec<IncomingMail>)
    ensures
        mail_store::incoming_views(r@) == incoming_mails(
            mailbox@,
            checkpoint_last_seen_uid,
            imap::envelope_views(envelopes@),
        ),
{
    let ghost given = envelopes@;
    let ghost mails = imap::envelope_views(given);
    let ghost wanted = incoming_mails(mailbox@, checkpoint_last_seen_uid, mails);
    let mut synthetic_uid: u32 = checkpoint_last_seen_uid;
    let mut out: Vec<IncomingMail> = Vec::new();
    for envelope in it: envelopes
        invariant
            it.seq() == given,
            mails == imap::envelope_views(given),
            wanted == incoming_mails(mailbox@, checkpoint_last_seen_uid, mails),
            synthetic_uid == last_made_up(checkpoint_last_seen_uid, mails, it.index()),
            mail_store::incoming_views(out@) == wanted.take(it.index()),
    {
        let ghost before = out@;
        let ghost at = it.index();
        assert(mails[at] == envelope@);
        let mut uid = envelope.remote.uid;
        if uid == 0 {
            synthetic_uid = synthetic_uid.saturating_add(1);
            uid = synthetic_uid;
        }
        let mail = IncomingMail {
            mailbox: mailbox.to_string(),
            uid,
            modseq: envelope.remote.modseq,
            flags: envelope.remote.flags,
            raw_name: make_file_name(uid),
            raw: envelope.remote.raw,
            parsed: envelope.parsed,
        };
        out.push(mail);
        assert(mail_store::incoming_views(out@) == mail_store::incoming_views(before).push(mail@));
        assert(wanted[at] == mail@);
        assert(wanted.take(at + 1) == wanted.take(at).push(wanted[at]));
    }
    assert(wanted.take(wanted.len() as int) == wanted);
    out
}

/// Finds the largest number of the mails.
fn find_largest_uid(mails: &Vec<IncomingMail>, bound: u32) -> (r: u32)
    ensures
        r == largest_uid(mail_store::incoming_views(mails@), bound),
{
    let ghost views = mail_store::incoming_views(mails@);
    let mut largest: u32 = bound;
    let mut i: usize = 0;
    assert(largest == largest_uid(views.take(0), bound));
    while i < mails.len()
        invariant
            i <= mails.len(),
            views == mail_store::incoming_views(mails@),
            largest == largest_uid(views.take(i as int), bound),
        decreases mails.len() - i,
    {
        assert(views.take(i + 1).drop_last() == views.take(i as int));
        assert(views.take(i + 1).last() == mails@[i as int]@);
        if largest < mails[i].uid {
            largest = mails[i].uid;
        }
        i += 1;
    }
    assert(views.take(i as int) == views);
    largest
}

/// Finds the largest modification number of the mails.
fn find_largest_modseq(mails: &Vec<IncomingMail>) -> (r: Option<u64>)
    ensures
        r == largest_modseq(mail_store::incoming_views(mails@)),
{
    let ghost views = mail_store::incoming_views(mails@);
    let mut largest: Option<u64> = None;
    let mut i: usize = 0;
    assert(largest == largest_modseq(views.take(0)));
    while i < mails.len()
        invariant
            i <= mails.len(),
            views == mail_store::incoming_views(mails@),
            largest == largest_modseq(views.take(i as int)),
        decreases mails.len() - i,
    {
        assert(views.take(i + 1).drop_last() == views.take(i as int));
        assert(views.take(i + 1).last() == mails@[i as int]@);
        largest = max_option(largest, mails[i].modseq);
        i += 1;
    }
    assert(views.take(i as int) == views);
    largest
}

/// Puts fetched mails into a batch. The checkpoint only moves forward, even when
/// just a part of the mailbox was fetched.
pub fn build_batch(
    mailbox: &str,
    checkpoint_last_seen_uid: u32,
    snapshot: MailboxSnapshot,
    envelopes: Vec<RemoteMailEnvelope>,
) -> (r: SyncBatch)
    ensures
        stores_mails(
            r,
            mailbox@,
            checkpoint_last_seen_uid,
            snapshot,
            imap::envelope_views(envelopes@),
        ),
{
    let mails = build_incoming_mail(mailbox, checkpoint_last_seen_uid, envelopes);
    let fetched_highest = find_largest_uid(&mails, checkpoint_last_seen_uid);
    let highest_uid = if snapshot.highest_uid < fetched_highest {
        fetched_highest
    } else {
        snapshot.highest_uid
    };
    let highest_modseq = max_option(snapshot.highest_modseq, find_largest_modseq(&mails));
    SyncBatch {
        mailbox: mailbox.to_string(),
        uidvalidity: snapshot.uidvalidity,
        highest_uid,
        highest_modseq,
        mails,
    }
}

/// Whether a summary reports what was written.
pub open spec fn reports(
    summary: SyncSummary,
    mailbox: Seq<char>,
    source: SourceView,
    fetched: usize,
    result: SyncWriteResult,
) -> bool {
    &&& summary.mailbox@ == mailbox
    &&& summary.source@ == source.name()
    &&& summary.fetched == fetched
    &&& summary.inserted == result.inserted
    &&& summary.updated == result.updated
    &&& summary.rebuilt_roots == result.rebuilt_roots
    &&& summary.mailbox_rebuilt == result.mailbox_rebuilt
    &&& summary.uidvalidity == result.state.uidvalidity
    &&& summary.checkpoint_last_seen_uid == result.state.last_seen_uid
    &&& summary.checkpoint_highest_modseq == result.state.highest_modseq
    &&& text::opt_text(summary.checkpoint_synced_at) == text::opt_text(result.state.synced_at)
}

/// Reports what was written.
pub fn build_summary(
    mailbox: &str,
    source: &SyncSource,
    fetched: usize,
    write_result: SyncWriteResult,
) -> (r: SyncSummary)
    ensures
        reports(r, mailbox@, source@, fetched, write_result),
{
    SyncSummary {
        mailbox: mailbox.to_string(),
        source: source.label(),
        fetched,
        inserted: write_result.inserted,
        updated: write_result.updated,
        rebuilt_roots: write_result.rebuilt_roots,
        mailbox_rebuilt: write_result.mailbox_rebuilt,
        uidvalidity: write_result.state.uidvalidity,
        checkpoint_last_seen_uid: write_result.state.last_seen_uid,
        checkpoint_highest_modseq: write_result.state.highest_modseq,
        checkpoint_synced_at: write_result.state.synced_at,
    }
}

// ---------------------------------------------------------------------------
// One pass over a mailbox
// ---------------------------------------------------------------------------

/// What a pass is for.
#[derive(Debug)]
pub enum Goal {
    /// Bring the mailbox up to date.
    Sync,
    /// Fetch the thread of a message.
    Thread { message_id: String },
}

/// What a pass starts from: the mailbox as it is now, and how far it was read.
#[derive(Debug, Clone, Copy, PartialEq, Eq, Structural)]
pub struct Window {
    pub snapshot: MailboxSnapshot,
    pub last_seen_uid: u32,
    pub after_uid: u32,
    pub since_modseq: Option<u64>,
}

/// What a pass waits for.
#[derive(Debug)]
pub enum Stage {
    Checkpoint,
    Count { checkpoint: Option<MailboxState> },
    Connection { checkpoint: Option<MailboxState>, initial: bool },
    Snapshot { checkpoint: Option<MailboxState>, initial: bool },
    Selection { window: Window },
    Messages { window: Window },
    Candidates { window: Window, envelopes: Vec<RemoteMailEnvelope> },
    Missing { window: Window, envelopes: Vec<RemoteMailEnvelope> },
    Threads {
        window: Window,
        envelopes: Vec<RemoteMailEnvelope>,
        requests: Vec<String>,
        next: usize,
    },
    Requested { window: Window },
    Storing { fetched: usize, filtered_out: usize },
    Following { fetched: usize, result: SyncWriteResult },
    Series { fetched: usize, result: SyncWriteResult },
    Pruning { summary: SyncSummary },
    Finished,
}

/// What the program has to do next.
#[derive(Debug)]
pub enum SyncAction {
    LoadCheckpoint { mailbox: String },
    CountMessages { mailbox: String },
    Connect(ClientPlan),
    SelectMailbox { mailbox: String },
    FetchHeaders { mailbox: String, after_uid: u32, since_modseq: Option<u64> },
    FetchFull { mailbox: String, uids: Vec<u32> },
    FetchFollowing {
        mailbox: String,
        self_email: String,
        after_uid: u32,
        since_modseq: Option<u64>,
    },
    FetchIncremental { mailbox: String, after_uid: u32, since_modseq: Option<u64> },
    FetchThread { mailbox: String, message_id: String },
    Store(SyncBatch),
    RefreshFollowing { self_email: String },
    RefreshSeries { mailbox: String },
    PruneMailbox { mailbox: String },
    Finish(SyncSummary),
    Fail(CriewError),
}

/// What came of an action.
#[derive(Debug)]
pub enum SyncEvent {
    Checkpoint(Option<MailboxState>),
    Counted(usize),
    Connected,
    Selected(MailboxSnapshot),
    Mails(Vec<RemoteMail>),
    Stored(SyncWriteResult),
    Refreshed,
    Pruned,
    Failed(CriewError),
}

/// One pass over a mailbox.
#[derive(Debug)]
pub struct SyncRun {
    pub mailbox: String,
    pub source: SyncSource,
    pub goal: Goal,
    pub stage: Stage,
}

/// The number that a checkpoint reached.
pub open spec fn reached_uid(checkpoint: Option<MailboxState>) -> u32 {
    match checkpoint {
        Some(state) => state.last_seen_uid,
        None => 0,
    }
}

/// Whether a mailbox was rebuilt on the server since the checkpoint.
pub open spec fn rebuilt(checkpoint: Option<MailboxState>, snapshot: MailboxSnapshot) -> bool {
    checkpoint matches Some(state) && state.uidvalidity != snapshot.uidvalidity
}

/// What a synchronisation starts from. A rebuilt mailbox is read from its
/// beginning.
pub open spec fn window_of(
    checkpoint: Option<MailboxState>,
    snapshot: MailboxSnapshot,
) -> Window {
    Window {
        snapshot,
        last_seen_uid: reached_uid(checkpoint),
        after_uid: if rebuilt(checkpoint, snapshot) {
            0
        } else {
            reached_uid(checkpoint)
        },
        since_modseq: match checkpoint {
            Some(state) => if rebuilt(checkpoint, snapshot) {
                None
            } else {
                state.highest_modseq
            },
            None => None,
        },
    }
}

impl SyncRun {
    /// The mailbox that is read and stored.
    pub open spec fn storage(self) -> Seq<char> {
        self.source@.stored_under(self.mailbox@)
    }

    /// Whether two states belong to one pass.
    pub open spec fn continues(self, before: SyncRun) -> bool {
        &&& self.mailbox == before.mailbox
        &&& self.source == before.source
        &&& self.goal == before.goal
    }

    /// Whether an event is one that the pass waits for.
    pub open spec fn expects(self, event: SyncEvent) -> bool {
        match event {
            SyncEvent::Failed(_) => self.stage !is Finished,
            SyncEvent::Checkpoint(_) => self.stage is Checkpoint,
            SyncEvent::Counted(_) => self.stage is Count,
            SyncEvent::Connected => self.stage is Connection,
            SyncEvent::Selected(_) => self.stage is Snapshot,
            SyncEvent::Mails(_) => self.stage is Selection || self.stage is Messages
                || self.stage is Candidates || self.stage is Missing || self.stage is Threads
                || self.stage is Requested,
            SyncEvent::Stored(_) => self.stage is Storing,
            SyncEvent::Refreshed => self.stage is Following || self.stage is Series,
            SyncEvent::Pruned => self.stage is Pruning,
        }
    }

    /// A pass that asks for threads has one to ask for, and only a pass for a
    /// thread waits for it.
    pub open spec fn wf(self) -> bool {
        match self.stage {
            Stage::Threads { requests, next, .. } => next < requests@.len(),
            Stage::Requested { .. } => self.goal is Thread,
            _ => true,
        }
    }

    /// Whether the pass asks for a thread.
    pub open spec fn asks_thread(
        self,
        action: SyncAction,
        message_id: Seq<char>,
    ) -> bool {
        action matches SyncAction::FetchThread { mailbox, message_id: id } && mailbox@
            == self.storage() && id@ == message_id
    }

    /// Whether the pass fetches the mails of a window.
    pub open spec fn asks_messages(self, action: SyncAction, window: Window) -> bool {
        match self.source@.follows() {
            Some(me) => action matches SyncAction::FetchFollowing {
                mailbox,
                self_email,
                after_uid,
                since_modseq,
            } && mailbox@ == self.storage() && self_email@ == me && after_uid == window.after_uid
                && since_modseq == window.since_modseq,
            None => action matches SyncAction::FetchIncremental {
                mailbox,
                after_uid,
                since_modseq,
            } && mailbox@ == self.storage() && after_uid == window.after_uid && since_modseq
                == window.since_modseq,
        }
    }

    /// Whether the pass asks for headers.
    pub open spec fn asks_headers(
        self,
        action: SyncAction,
        after: u32,
        since: Option<u64>,
    ) -> bool {
        action matches SyncAction::FetchHeaders { mailbox, after_uid, since_modseq } && mailbox@
            == self.storage() && after_uid == after && since_modseq == since
    }

    /// Whether the pass asks for mails by number.
    pub open spec fn asks_full(self, action: SyncAction, wanted: Seq<u32>) -> bool {
        action matches SyncAction::FetchFull { mailbox, uids } && mailbox@ == self.storage()
            && uids@ == wanted
    }

    /// Whether the pass goes on to store mails.
    pub open spec fn goes_on_to_store(
        self,
        next: SyncRun,
        action: SyncAction,
        window: Window,
        mails: Seq<EnvelopeView>,
        left_out: int,
    ) -> bool {
        &&& next.stage matches Stage::Storing { fetched, filtered_out } && fetched == mails.len()
            && filtered_out == left_out
        &&& action matches SyncAction::Store(batch) && stores_mails(
            batch,
            self.storage(),
            window.last_seen_uid,
            window.snapshot,
            mails,
        )
    }

    /// Whether the pass goes on to store the mails that its source keeps.
    pub open spec fn goes_on_to_filter(
        self,
        next: SyncRun,
        action: SyncAction,
        window: Window,
        mails: Seq<EnvelopeView>,
    ) -> bool {
        let kept = kept_mails(mails, self.source@, self.storage());
        self.goes_on_to_store(next, action, window, kept, mails.len() - kept.len())
    }

    /// Whether the pass asks for the next thread, or goes on to store if all were
    /// asked for.
    pub open spec fn goes_on_with_threads(
        self,
        next: SyncRun,
        action: SyncAction,
        window: Window,
        mails: Seq<EnvelopeView>,
        requests: Seq<Seq<char>>,
        at: int,
    ) -> bool {
        if at < requests.len() {
            &&& next.stage matches Stage::Threads {
                window: w,
                envelopes,
                requests: asked,
                next: n,
            } && w == window && imap::envelope_views(envelopes@) == mails && text::texts(asked@)
                == requests && n == at
            &&& self.asks_thread(action, requests[at])
        } else {
            self.goes_on_to_filter(next, action, window, mails)
        }
    }

    /// Whether the pass goes on after the mails of its window came.
    pub open spec fn goes_on_to_complete(
        self,
        next: SyncRun,
        action: SyncAction,
        window: Window,
        mails: Seq<EnvelopeView>,
    ) -> bool {
        if self.source@ is Lore {
            self.goes_on_with_threads(
                next,
                action,
                window,
                mails,
                completion::thread_requests(mails),
                0,
            )
        } else if completion::any_incomplete(mails) {
            &&& next.stage matches Stage::Candidates { window: w, envelopes } && w == window
                && imap::envelope_views(envelopes@) == mails
            &&& self.asks_headers(action, 0, None)
        } else {
            self.goes_on_to_filter(next, action, window, mails)
        }
    }

    /// Whether the pass refreshes the series of its mailbox.
    pub open spec fn goes_on_to_series(
        self,
        next: SyncRun,
        action: SyncAction,
        fetched: usize,
        result: SyncWriteResult,
    ) -> bool {
        &&& next.stage matches Stage::Series { fetched: f, result: r } && f == fetched && r
            == result
        &&& action matches SyncAction::RefreshSeries { mailbox } && mailbox@ == self.storage()
    }

    /// Whether the pass ends with a complaint.
    pub open spec fn gives_up(self, next: SyncRun, action: SyncAction, message: Seq<char>) -> bool {
        &&& next.stage is Finished
        &&& action matches SyncAction::Fail(error) && error.code == ErrorCode::Imap
            && error.message@ == message
    }

    /// What a pass does about an event: its next state and what it asks for.
    pub open spec fn steps_to(self, event: SyncEvent, next: SyncRun, action: SyncAction) -> bool {
        &&& next.continues(self)
        &&& match (self.stage, event) {
            (Stage::Checkpoint, SyncEvent::Checkpoint(found)) => if self.goal is Sync {
                &&& next.stage == (Stage::Count { checkpoint: found })
                &&& action matches SyncAction::CountMessages { mailbox } && mailbox@
                    == self.storage()
            } else {
                &&& next.stage == (Stage::Connection { checkpoint: found, initial: false })
                &&& action matches SyncAction::Connect(plan) && connects(plan, self.source@)
            },
            (Stage::Count { checkpoint }, SyncEvent::Counted(count)) => {
                &&& next.stage == (Stage::Connection { checkpoint, initial: count == 0 })
                &&& action matches SyncAction::Connect(plan) && connects(plan, self.source@)
            },
            (Stage::Connection { checkpoint, initial }, SyncEvent::Connected) => match self.goal {
                Goal::Thread { message_id } => if self.source@ is Lore {
                    &&& next.stage == (Stage::Requested {
                        window: window_of(checkpoint, archived_snapshot(checkpoint)),
                    })
                    &&& self.asks_thread(action, message_id@)
                } else {
                    &&& next.stage == (Stage::Snapshot { checkpoint, initial })
                    &&& action matches SyncAction::SelectMailbox { mailbox } && mailbox@
                        == self.storage()
                },
                Goal::Sync => {
                    &&& next.stage == (Stage::Snapshot { checkpoint, initial })
                    &&& action matches SyncAction::SelectMailbox { mailbox } && mailbox@
                        == self.storage()
                },
            },
            (Stage::Snapshot { checkpoint, initial }, SyncEvent::Selected(snapshot)) => {
                let window = window_of(checkpoint, snapshot);
                match self.goal {
                    Goal::Thread { message_id } => {
                        &&& next.stage == (Stage::Requested { window })
                        &&& self.asks_thread(action, message_id@)
                    },
                    Goal::Sync => if initial && self.source@ is Fixture && inbox(self.storage()) {
                        &&& next.stage == (Stage::Selection { window })
                        &&& self.asks_headers(action, window.after_uid, window.since_modseq)
                    } else {
                        &&& next.stage == (Stage::Messages { window })
                        &&& self.asks_messages(action, window)
                    },
                }
            },
            (Stage::Selection { window }, SyncEvent::Mails(mails)) => {
                let opened = imap::opened(self.storage(), imap::remote_views(mails@));
                &&& next.stage == (Stage::Messages { window })
                &&& self.asks_full(
                    action,
                    selection::numbers_of(selection::patch_mails(opened)),
                )
            },
            (Stage::Messages { window }, SyncEvent::Mails(mails)) => self.goes_on_to_complete(
                next,
                action,
                window,
                imap::opened(self.storage(), imap::remote_views(mails@)),
            ),
            (Stage::Candidates { window, envelopes }, SyncEvent::Mails(mails)) => {
                let there = imap::envelope_views(envelopes@);
                let gaps = completion::gap_numbers(
                    there,
                    completion::fetched_mails(imap::remote_views(mails@)),
                );
                if gaps.len() > 0 {
                    &&& next.stage == (Stage::Missing { window, envelopes })
                    &&& self.asks_full(action, gaps)
                } else {
                    self.goes_on_to_filter(next, action, window, there)
                }
            },
            (Stage::Missing { window, envelopes }, SyncEvent::Mails(mails)) => {
                let there = imap::envelope_views(envelopes@);
                let fetched = completion::fetched_mails(imap::remote_views(mails@));
                self.goes_on_to_filter(
                    next,
                    action,
                    window,
                    there + completion::unknown_mails(there, fetched),
                )
            },
            (Stage::Threads { window, envelopes, requests, next: at }, SyncEvent::Mails(mails)) => {
                let fetched = completion::fetched_mails(imap::remote_views(mails@));
                self.goes_on_with_threads(
                    next,
                    action,
                    window,
                    completion::joined_mails(imap::envelope_views(envelopes@), fetched),
                    text::texts(requests@),
                    at + 1,
                )
            },
            (Stage::Threads { window, envelopes, requests, next: at }, SyncEvent::Failed(_)) => {
                self.goes_on_with_threads(
                    next,
                    action,
                    window,
                    imap::envelope_views(envelopes@),
                    text::texts(requests@),
                    at + 1,
                )
            },
            (Stage::Requested { window }, SyncEvent::Mails(mails)) => {
                let opened = imap::opened(self.storage(), imap::remote_views(mails@));
                let wanted = self.goal->message_id@;
                if completion::has_mail(opened, bare_id(wanted)) {
                    self.goes_on_to_store(next, action, window, opened, 0)
                } else {
                    self.gives_up(
                        next,
                        action,
                        "fetched thread does not contain Message-ID '"@ + wanted + "'"@,
                    )
                }
            },
            (Stage::Storing { fetched, .. }, SyncEvent::Stored(result)) => match self.source@.follows() {
                Some(me) => {
                    &&& next.stage == (Stage::Following { fetched, result })
                    &&& action matches SyncAction::RefreshFollowing { self_email } && self_email@
                        == me
                },
                None => self.goes_on_to_series(next, action, fetched, result),
            },
            (Stage::Following { fetched, result }, SyncEvent::Refreshed) => self.goes_on_to_series(
                next,
                action,
                fetched,
                result,
            ),
            (Stage::Series { fetched, result }, SyncEvent::Refreshed) => if self.goal is Sync
                && self.source@ is Fixture && inbox(self.storage()) {
                &&& next.stage matches Stage::Pruning { summary } && reports(
                    summary,
                    self.mailbox@,
                    self.source@,
                    fetched,
                    result,
                )
                &&& action matches SyncAction::PruneMailbox { mailbox } && mailbox@
                    == self.mailbox@
            } else {
                &&& next.stage is Finished
                &&& action matches SyncAction::Finish(summary) && reports(
                    summary,
                    self.mailbox@,
                    self.source@,
                    fetched,
                    result,
                )
            },
            (Stage::Pruning { summary }, SyncEvent::Pruned) => {
                &&& next.stage is Finished
                &&& action == SyncAction::Finish(summary)
            },
            (_, SyncEvent::Failed(error)) => {
                &&& next.stage is Finished
                &&& action == SyncAction::Fail(error)
            },
            _ => true,
        }
    }
}

impl SyncRun {
    /// Begins a pass over a mailbox.
    pub fn start(mailbox: String, source: SyncSource, goal: Goal) -> (r: (SyncRun, SyncAction))
        ensures
            r.0.mailbox == mailbox,
            r.0.source == source,
            r.0.goal == goal,
            r.0.stage is Checkpoint,
            r.0.wf(),
            r.1 matches SyncAction::LoadCheckpoint { mailbox: asked } && asked@
                == source@.stored_under(mailbox@),
    {
        let asked = source.storage_mailbox(mailbox.as_str()).to_string();
        let run = SyncRun { mailbox, source, goal, stage: Stage::Checkpoint };
        (run, SyncAction::LoadCheckpoint { mailbox: asked })
    }

    /// Whether an event is one that the pass waits for.
    pub fn awaits(&self, event: &SyncEvent) -> (r: bool)
        ensures
            r == self.expects(*event),
    {
        match (&self.stage, event) {
            (Stage::Finished, _) => false,
            (_, SyncEvent::Failed(_)) => true,
            (Stage::Checkpoint, SyncEvent::Checkpoint(_)) => true,
            (Stage::Count { .. }, SyncEvent::Counted(_)) => true,
            (Stage::Connection { .. }, SyncEvent::Connected) => true,
            (Stage::Snapshot { .. }, SyncEvent::Selected(_)) => true,
            (Stage::Selection { .. }, SyncEvent::Mails(_)) => true,
            (Stage::Messages { .. }, SyncEvent::Mails(_)) => true,
            (Stage::Candidates { .. }, SyncEvent::Mails(_)) => true,
            (Stage::Missing { .. }, SyncEvent::Mails(_)) => true,
            (Stage::Threads { .. }, SyncEvent::Mails(_)) => true,
            (Stage::Requested { .. }, SyncEvent::Mails(_)) => true,
            (Stage::Storing { .. }, SyncEvent::Stored(_)) => true,
            (Stage::Following { .. }, SyncEvent::Refreshed) => true,
            (Stage::Series { .. }, SyncEvent::Refreshed) => true,
            (Stage::Pruning { .. }, SyncEvent::Pruned) => true,
            _ => false,
        }
    }

    /// The mailbox that is read and stored.
    fn storage_name(&self) -> (r: String)
        ensures
            r@ == self.storage(),
    {
        self.source.storage_mailbox(self.mailbox.as_str()).to_string()
    }

    /// The pass in another stage.
    fn at(self, stage: Stage) -> (r: SyncRun)
        ensures
            r.continues(self),
            r.stage == stage,
    {
        SyncRun { mailbox: self.mailbox, source: self.source, goal: self.goal, stage }
    }

    /// Stores mails.
    fn store(
        self,
        window: Window,
        envelopes: Vec<RemoteMailEnvelope>,
        filtered_out: usize,
    ) -> (r: (SyncRun, SyncAction))
        ensures
            r.0.continues(self),
            r.0.wf(),
            self.goes_on_to_store(
                r.0,
                r.1,
                window,
                imap::envelope_views(envelopes@),
                filtered_out as int,
            ),
    {
        let storage = self.storage_name();
        let fetched = envelopes.len();
        let batch = build_batch(
            storage.as_str(),
            window.last_seen_uid,
            window.snapshot,
            envelopes,
        );
        (self.at(Stage::Storing { fetched, filtered_out }), SyncAction::Store(batch))
    }

    /// Stores the mails that the source keeps.
    fn filter(self, window: Window, envelopes: Vec<RemoteMailEnvelope>) -> (r: (
        SyncRun,
        SyncAction,
    ))
        ensures
            r.0.continues(self),
            r.0.wf(),
            self.goes_on_to_filter(r.0, r.1, window, imap::envelope_views(envelopes@)),
    {
        let storage = self.storage_name();
        let before = envelopes.len();
        let ghost mails = imap::envelope_views(envelopes@);
        proof {
            lemma_kept_are_fewer(mails, self.source@, storage@);
        }
        let kept = filter_messages(envelopes, &self.source, storage.as_str());
        assert(imap::envelope_views(kept@).len() == kept@.len());
        let filtered_out = before - kept.len();
        self.store(window, kept, filtered_out)
    }

    /// Asks for the next thread, or stores if all were asked for.
    fn next_thread(
        self,
        window: Window,
        envelopes: Vec<RemoteMailEnvelope>,
        requests: Vec<String>,
        next: usize,
    ) -> (r: (SyncRun, SyncAction))
        ensures
            r.0.continues(self),
            r.0.wf(),
            self.goes_on_with_threads(
                r.0,
                r.1,
                window,
                imap::envelope_views(envelopes@),
                text::texts(requests@),
                next as int,
            ),
    {
        assert(text::texts(requests@).len() == requests@.len());
        if next < requests.len() {
            let storage = self.storage_name();
            let message_id = requests[next].clone();
            assert(text::texts(requests@)[next as int] == message_id@);
            (
                self.at(Stage::Threads { window, envelopes, requests, next }),
                SyncAction::FetchThread { mailbox: storage, message_id },
            )
        } else {
            self.filter(window, envelopes)
        }
    }

    /// Looks for what the fetched mails miss.
    fn complete(self, window: Window, envelopes: Vec<RemoteMailEnvelope>) -> (r: (
        SyncRun,
        SyncAction,
    ))
        ensures
            r.0.continues(self),
            r.0.wf(),
            self.goes_on_to_complete(r.0, r.1, window, imap::envelope_views(envelopes@)),
    {
        if self.source.is_lore() {
            let requests = completion::find_thread_requests(&envelopes);
            self.next_thread(window, envelopes, requests, 0)
        } else if completion::has_incomplete_series(&envelopes) {
            let storage = self.storage_name();
            (
                self.at(Stage::Candidates { window, envelopes }),
                SyncAction::FetchHeaders { mailbox: storage, after_uid: 0, since_modseq: None },
            )
        } else {
            self.filter(window, envelopes)
        }
    }

    /// Fetches the mails of a window.
    fn fetch(self, window: Window) -> (r: (SyncRun, SyncAction))
        ensures
            r.0.continues(self),
            r.0.stage == (Stage::Messages { window }),
            self.asks_messages(r.1, window),
    {
        let storage = self.storage_name();
        let me = match self.source.following_self_email() {
            Some(me) => Some(me.to_string()),
            None => None,
        };
        let action = match me {
            Some(self_email) => SyncAction::FetchFollowing {
                mailbox: storage,
                self_email,
                after_uid: window.after_uid,
                since_modseq: window.since_modseq,
            },
            None => SyncAction::FetchIncremental {
                mailbox: storage,
                after_uid: window.after_uid,
                since_modseq: window.since_modseq,
            },
        };
        (self.at(Stage::Messages { window }), action)
    }

    /// Refreshes the series of the mailbox.
    fn refresh_series(self, fetched: usize, result: SyncWriteResult) -> (r: (SyncRun, SyncAction))
        ensures
            r.0.continues(self),
            r.0.wf(),
            self.goes_on_to_series(r.0, r.1, fetched, result),
    {
        let storage = self.storage_name();
        (
            self.at(Stage::Series { fetched, result }),
            SyncAction::RefreshSeries { mailbox: storage },
        )
    }

    /// Goes on after the mailbox was opened.
    fn open(self, checkpoint: Option<MailboxState>, initial: bool, snapshot: MailboxSnapshot) -> (r:
        (SyncRun, SyncAction))
        ensures
            (SyncRun { stage: Stage::Snapshot { checkpoint, initial }, ..self }).steps_to(
                SyncEvent::Selected(snapshot),
                r.0,
                r.1,
            ),
            r.0.wf(),
    {
        let window = plan_window(&checkpoint, snapshot);
        let storage = self.storage_name();
        let asked = match &self.goal {
            Goal::Thread { message_id } => Some(message_id.clone()),
            Goal::Sync => None,
        };
        match asked {
            Some(message_id) => (
                self.at(Stage::Requested { window }),
                SyncAction::FetchThread { mailbox: storage, message_id },
            ),
            None => {
                if initial && self.source.is_fixture() && is_inbox(storage.as_str()) {
                    (
                        self.at(Stage::Selection { window }),
                        SyncAction::FetchHeaders {
                            mailbox: storage,
                            after_uid: window.after_uid,
                            since_modseq: window.since_modseq,
                        },
                    )
                } else {
                    self.fetch(window)
                }
            },
        }
    }

    /// Goes on after the connection stands.
    fn connected(self, checkpoint: Option<MailboxState>, initial: bool) -> (r: (
        SyncRun,
        SyncAction,
    ))
        ensures
            (SyncRun { stage: Stage::Connection { checkpoint, initial }, ..self }).steps_to(
                SyncEvent::Connected,
                r.0,
                r.1,
            ),
            r.0.wf(),
    {
        let storage = self.storage_name();
        let asked = match &self.goal {
            Goal::Thread { message_id } => Some(message_id.clone()),
            Goal::Sync => None,
        };
        if let Some(message_id) = asked {
            if let Some(snapshot) = self.source.select_thread_snapshot(&checkpoint) {
                let window = plan_window(&checkpoint, snapshot);
                return (
                    self.at(Stage::Requested { window }),
                    SyncAction::FetchThread { mailbox: storage, message_id },
                );
            }
        }
        (
            self.at(Stage::Snapshot { checkpoint, initial }),
            SyncAction::SelectMailbox { mailbox: storage },
        )
    }

    /// Goes on after the requested thread came.
    fn accept_thread(self, window: Window, mails: Vec<RemoteMail>) -> (r: (SyncRun, SyncAction))
        requires
            self.goal is Thread,
        ensures
            (SyncRun { stage: Stage::Requested { window }, ..self }).steps_to(
                SyncEvent::Mails(mails),
                r.0,
                r.1,
            ),
            r.0.wf(),
    {
        let storage = self.storage_name();
        let envelopes = imap::parse_remote_messages(storage.as_str(), mails);
        let message_id = match &self.goal {
            Goal::Thread { message_id } => message_id.clone(),
            Goal::Sync => String::new(),
        };
        let wanted = normalize_requested_message_id(message_id.as_str());
        if completion::knows_mail(&envelopes, &wanted) {
            return self.store(window, envelopes, 0);
        }
        let mut message = text::chars_of("fetched thread does not contain Message-ID '");
        text::append_str(&mut message, message_id.as_str());
        text::append_str(&mut message, "'");
        let error = CriewError::new(ErrorCode::Imap, text::string_of(message.as_slice()));
        (self.at(Stage::Finished), SyncAction::Fail(error))
    }

    /// Goes on after the series were refreshed.
    fn conclude(self, fetched: usize, result: SyncWriteResult) -> (r: (SyncRun, SyncAction))
        ensures
            (SyncRun { stage: Stage::Series { fetched, result }, ..self }).steps_to(
                SyncEvent::Refreshed,
                r.0,
                r.1,
            ),
            r.0.wf(),
    {
        let storage = self.storage_name();
        let summary = build_summary(self.mailbox.as_str(), &self.source, fetched, result);
        let syncs = match &self.goal {
            Goal::Sync => true,
            Goal::Thread { .. } => false,
        };
        if syncs && self.source.is_fixture() && is_inbox(storage.as_str()) {
            let mailbox = self.mailbox.clone();
            (self.at(Stage::Pruning { summary }), SyncAction::PruneMailbox { mailbox })
        } else {
            (self.at(Stage::Finished), SyncAction::Finish(summary))
        }
    }

    /// Goes on after an event that the pass waited for.
    pub fn step(self, event: SyncEvent) -> (r: (SyncRun, SyncAction))
        requires
            self.wf(),
            self.expects(event),
        ensures
            self.steps_to(event, r.0, r.1),
            r.0.wf(),
    {
        let storage = self.storage_name();
        let SyncRun { mailbox, source, goal, stage } = self;
        match (stage, event) {
            (Stage::Threads { window, envelopes, requests, next }, SyncEvent::Failed(_)) => {
                let run = SyncRun { mailbox, source, goal, stage: Stage::Finished };
                let asked = requests.len();
                assert(next < asked);
                run.next_thread(window, envelopes, requests, next + 1)
            },
            (_, SyncEvent::Failed(error)) => {
                let run = SyncRun { mailbox, source, goal, stage: Stage::Finished };
                (run, SyncAction::Fail(error))
            },
            (Stage::Checkpoint, SyncEvent::Checkpoint(checkpoint)) => match goal {
                Goal::Sync => (
                    SyncRun { mailbox, source, goal, stage: Stage::Count { checkpoint } },
                    SyncAction::CountMessages { mailbox: storage },
                ),
                Goal::Thread { message_id } => {
                    let plan = source.client();
                    let stage = Stage::Connection { checkpoint, initial: false };
                    (
                        SyncRun { mailbox, source, goal: Goal::Thread { message_id }, stage },
                        SyncAction::Connect(plan),
                    )
                },
            },
            (Stage::Count { checkpoint }, SyncEvent::Counted(count)) => {
                let plan = source.client();
                let stage = Stage::Connection { checkpoint, initial: count == 0 };
                (SyncRun { mailbox, source, goal, stage }, SyncAction::Connect(plan))
            },
            (Stage::Connection { checkpoint, initial }, SyncEvent::Connected) => {
                let run = SyncRun { mailbox, source, goal, stage: Stage::Finished };
                run.connected(checkpoint, initial)
            },
            (Stage::Snapshot { checkpoint, initial }, SyncEvent::Selected(snapshot)) => {
                let run = SyncRun { mailbox, source, goal, stage: Stage::Finished };
                run.open(checkpoint, initial, snapshot)
            },
            (Stage::Selection { window }, SyncEvent::Mails(mails)) => {
                let picked = selection::select_initial_inbox_messages(storage.as_str(), mails);
                let uids = picked.selected_uids;
                (
                    SyncRun { mailbox, source, goal, stage: Stage::Messages { window } },
                    SyncAction::FetchFull { mailbox: storage, uids },
                )
            },
            (Stage::Messages { window }, SyncEvent::Mails(mails)) => {
                let envelopes = imap::parse_remote_messages(storage.as_str(), mails);
                let run = SyncRun { mailbox, source, goal, stage: Stage::Finished };
                run.complete(window, envelopes)
            },
            (Stage::Candidates { window, envelopes }, SyncEvent::Mails(mails)) => {
                let candidates = completion::open_fetched(mails);
                let uids = completion::find_gap_numbers(&envelopes, &candidates);
                if uids.len() > 0 {
                    (
                        SyncRun {
                            mailbox,
                            source,
                            goal,
                            stage: Stage::Missing { window, envelopes },
                        },
                        SyncAction::FetchFull { mailbox: storage, uids },
                    )
                } else {
                    let run = SyncRun { mailbox, source, goal, stage: Stage::Finished };
                    run.filter(window, envelopes)
                }
            },
            (Stage::Missing { window, envelopes }, SyncEvent::Mails(mails)) => {
                let fetched = completion::open_fetched(mails);
                let all = completion::append_unknown(envelopes, fetched);
                let run = SyncRun { mailbox, source, goal, stage: Stage::Finished };
                run.filter(window, all)
            },
            (Stage::Threads { window, envelopes, requests, next }, SyncEvent::Mails(mails)) => {
                let fetched = completion::open_fetched(mails);
                let all = completion::append_thread(envelopes, fetched);
                let run = SyncRun { mailbox, source, goal, stage: Stage::Finished };
                let asked = requests.len();
                assert(next < asked);
                run.next_thread(window, all, requests, next + 1)
            },
            (Stage::Requested { window }, SyncEvent::Mails(mails)) => {
                let run = SyncRun { mailbox, source, goal, stage: Stage::Finished };
                run.accept_thread(window, mails)
            },
            (Stage::Storing { fetched, .. }, SyncEvent::Stored(result)) => {
                let me = match source.following_self_email() {
                    Some(me) => Some(me.to_string()),
                    None => None,
                };
                match me {
                    Some(self_email) => (
                        SyncRun {
                            mailbox,
                            source,
                            goal,
                            stage: Stage::Following { fetched, result },
                        },
                        SyncAction::RefreshFollowing { self_email },
                    ),
                    None => {
                        let run = SyncRun { mailbox, source, goal, stage: Stage::Finished };
                        run.refresh_series(fetched, result)
                    },
                }
            },
            (Stage::Following { fetched, result }, SyncEvent::Refreshed) => {
                let run = SyncRun { mailbox, source, goal, stage: Stage::Finished };
                run.refresh_series(fetched, result)
            },
            (Stage::Series { fetched, result }, SyncEvent::Refreshed) => {
                let run = SyncRun { mailbox, source, goal, stage: Stage::Finished };
                run.conclude(fetched, result)
            },
            (Stage::Pruning { summary }, SyncEvent::Pruned) => (
                SyncRun { mailbox, source, goal, stage: Stage::Finished },
                SyncAction::Finish(summary),
            ),
            (stage, _) => {
                assert(false);
                (
                    SyncRun { mailbox, source, goal, stage },
                    SyncAction::LoadCheckpoint { mailbox: storage },
                )
            },
        }
    }
}

/// Plans what a synchronisation starts from.
pub fn plan_window(checkpoint: &Option<MailboxState>, snapshot: MailboxSnapshot) -> (r: Window)
    ensures
        r == window_of(*checkpoint, snapshot),
{
    match checkpoint {
        Some(state) => {
            if state.uidvalidity != snapshot.uidvalidity {
                Window {
                    snapshot,
                    last_seen_uid: state.last_seen_uid,
                    after_uid: 0,
                    since_modseq: None,
                }
            } else {
                Window {
                    snapshot,
                    last_seen_uid: state.last_seen_uid,
                    after_uid: state.last_seen_uid,
                    since_modseq: state.highest_modseq,
                }
            }
        },
        None => Window { snapshot, last_seen_uid: 0, after_uid: 0, since_modseq: None },
    }
}

// ---------------------------------------------------------------------------
// Whole synchronisations
// ---------------------------------------------------------------------------

/// How long to wait before a failed pass is tried again.
pub const RETRY_DELAY_MS: u64 = 200;

/// Which attempt a pass is at, and how many it has.
#[derive(Debug, Clone, Copy, PartialEq, Eq, Structural)]
pub struct Retry {
    pub attempt: u8,
    pub attempts: u8,
}

impl Retry {
    /// The first of a requested number of attempts. There is always one.
    pub open spec fn first(requested: u8) -> Retry {
        Retry {
            attempt: 1,
            attempts: if requested == 0 {
                1
            } else {
                requested
            },
        }
    }

    /// The attempt after a failure.
    pub open spec fn following(self) -> Option<Retry> {
        if self.attempt < self.attempts {
            Some(Retry { attempt: (self.attempt + 1) as u8, attempts: self.attempts })
        } else {
            None
        }
    }

    /// Begins a requested number of attempts.
    pub fn begin(requested: u8) -> (r: Retry)
        ensures
            r == Retry::first(requested),
    {
        let attempts = if requested == 0 {
            1
        } else {
            requested
        };
        Retry { attempt: 1, attempts }
    }

    /// Goes on to the attempt after a failure.
    pub fn again(self) -> (r: Option<Retry>)
        ensures
            r == self.following(),
    {
        if self.attempt < self.attempts {
            Some(Retry { attempt: self.attempt + 1, attempts: self.attempts })
        } else {
            None
        }
    }
}

impl Clone for SyncSource {
    fn clone(&self) -> (r: Self)
        ensures
            r == *self,
    {
        match self {
            SyncSource::Fixture { fixture_dir, uidvalidity_hint } => SyncSource::Fixture {
                fixture_dir: fixture_dir.clone(),
                uidvalidity_hint: *uidvalidity_hint,
            },
            SyncSource::Following { self_email } => SyncSource::Following {
                self_email: self_email.clone(),
            },
            SyncSource::FollowingSent { self_email, mailbox } => SyncSource::FollowingSent {
                self_email: self_email.clone(),
                mailbox: mailbox.clone(),
            },
            SyncSource::GnuArchive => SyncSource::GnuArchive,
            SyncSource::Lore { base_url } => SyncSource::Lore { base_url: base_url.clone() },
        }
    }
}

impl Clone for Goal {
    fn clone(&self) -> (r: Self)
        ensures
            r == *self,
    {
        match self {
            Goal::Sync => Goal::Sync,
            Goal::Thread { message_id } => Goal::Thread { message_id: message_id.clone() },
        }
    }
}

/// A synchronisation in progress: the pass that runs, and what is left to do
/// after it.
#[derive(Debug)]
pub struct SyncJob {
    pub mailbox: String,
    pub source: SyncSource,
    pub goal: Goal,
    pub retry: Retry,
    /// The sent mail of the user, while it is still to be read.
    pub sent: Option<SyncSource>,
    /// What the first pass did, while the sent mail is read.
    pub summary: Option<SyncSummary>,
}

/// What the program has to do for a synchronisation.
#[derive(Debug)]
pub enum JobAction {
    /// Run a pass, after a delay.
    Attempt { mailbox: String, source: SyncSource, goal: Goal, delay_ms: u64 },
    Return(SyncSummary),
    Fail(CriewError),
}

/// The sent mail that belongs to a source: that of the user's own account,
/// unless it is not set or is the inbox itself.
pub open spec fn sent_source(config: RuntimeConfig, source: SourceView) -> Option<SourceView> {
    match (source, config.imap.sent_mailbox) {
        (SourceView::Following { self_email }, Some(sent)) => if text::trimmed(sent@).len() > 0
            && !inbox(text::trimmed(sent@)) {
            Some(SourceView::FollowingSent { self_email, mailbox: text::trimmed(sent@) })
        } else {
            None
        },
        _ => None,
    }
}

/// The texts of an optional source.
pub open spec fn opt_source(source: Option<SyncSource>) -> Option<SourceView> {
    match source {
        Some(source) => Some(source@),
        None => None,
    }
}

/// Whether an action runs a pass.
pub open spec fn attempts(
    action: JobAction,
    mailbox: Seq<char>,
    source: SyncSource,
    goal: Goal,
    delay: u64,
) -> bool {
    action matches JobAction::Attempt { mailbox: m, source: s, goal: g, delay_ms } && m@ == mailbox
        && s == source && g == goal && delay_ms == delay
}

/// Whether a summary adds the counts of the sent mail to the first pass.
pub open spec fn adds_up(total: SyncSummary, main: SyncSummary, sent: SyncSummary) -> bool {
    &&& total.fetched == main.fetched + sent.fetched
    &&& total.inserted == main.inserted + sent.inserted
    &&& total.updated == main.updated + sent.updated
    &&& total.rebuilt_roots == main.rebuilt_roots + sent.rebuilt_roots
    &&& total.mailbox == main.mailbox
    &&& total.source == main.source
    &&& total.mailbox_rebuilt == main.mailbox_rebuilt
    &&& total.uidvalidity == main.uidvalidity
    &&& total.checkpoint_last_seen_uid == main.checkpoint_last_seen_uid
    &&& total.checkpoint_highest_modseq == main.checkpoint_highest_modseq
    &&& total.checkpoint_synced_at == main.checkpoint_synced_at
}

/// Whether the counts of two summaries can be added.
pub open spec fn counts_fit(main: SyncSummary, sent: SyncSummary) -> bool {
    &&& main.fetched + sent.fetched <= usize::MAX
    &&& main.inserted + sent.inserted <= usize::MAX
    &&& main.updated + sent.updated <= usize::MAX
    &&& main.rebuilt_roots + sent.rebuilt_roots <= usize::MAX
}

/// Decides whether the counts of two summaries can be added.
pub fn can_add(main: &SyncSummary, sent: &SyncSummary) -> (r: bool)
    ensures
        r == counts_fit(*main, *sent),
{
    main.fetched <= usize::MAX - sent.fetched && main.inserted <= usize::MAX - sent.inserted
        && main.updated <= usize::MAX - sent.updated && main.rebuilt_roots <= usize::MAX
        - sent.rebuilt_roots
}

impl SyncJob {
    /// Sent mail is read in its own mailbox.
    pub open spec fn wf(self) -> bool {
        self.sent matches Some(source) ==> source@ is FollowingSent
    }

    /// Whether a job is the one that a request asks for.
    pub open spec fn serves(
        self,
        mailbox: Seq<char>,
        source: SourceView,
        goal: Goal,
        requested_attempts: u8,
        sent: Option<SourceView>,
    ) -> bool {
        &&& self.mailbox@ == mailbox
        &&& self.source@ == source
        &&& self.goal == goal
        &&& self.retry == Retry::first(requested_attempts)
        &&& opt_source(self.sent) == sent
        &&& self.summary is None
    }

    /// What a job does about the outcome of a pass. A failed pass is tried again
    /// while attempts are left. After the first pass the sent mail is read, if
    /// there is any; that it cannot be read is no failure of the whole.
    pub open spec fn proceeds(
        self,
        outcome: Result<SyncSummary, CriewError>,
        next: Option<SyncJob>,
        action: JobAction,
    ) -> bool {
        match outcome {
            Ok(summary) => match (self.summary, self.sent) {
                (Some(main), _) => next is None && (action matches JobAction::Return(total)
                    && adds_up(total, main, summary)),
                (None, Some(sent)) => {
                    &&& next matches Some(job) && job.mailbox@ == sent@->FollowingSent_mailbox
                        && job.source == sent && job.goal == self.goal && job.retry
                        == Retry::first(self.retry.attempts) && job.sent is None && job.summary
                        == Some(summary)
                    &&& attempts(action, sent@->FollowingSent_mailbox, sent, self.goal, 0)
                },
                (None, None) => next is None && action == JobAction::Return(summary),
            },
            Err(error) => match self.retry.following() {
                Some(retry) => {
                    &&& next == Some(SyncJob { retry, ..self })
                    &&& attempts(action, self.mailbox@, self.source, self.goal, RETRY_DELAY_MS)
                },
                None => next is None && match self.summary {
                    Some(main) => action == JobAction::Return(main),
                    None => action == JobAction::Fail(error),
                },
            },
        }
    }

    /// Goes on after a pass.
    pub fn next(self, outcome: Result<SyncSummary, CriewError>) -> (r: (Option<SyncJob>, JobAction))
        requires
            self.wf(),
            outcome matches Ok(sent) ==> (self.summary matches Some(main) ==> counts_fit(
                main,
                sent,
            )),
        ensures
            self.proceeds(outcome, r.0, r.1),
            r.0 matches Some(job) ==> job.wf(),
    {
        match outcome {
            Ok(summary) => match (self.summary, self.sent) {
                (Some(main), _) => {
                    let mut total = main;
                    total.fetched = total.fetched + summary.fetched;
                    total.inserted = total.inserted + summary.inserted;
                    total.updated = total.updated + summary.updated;
                    total.rebuilt_roots = total.rebuilt_roots + summary.rebuilt_roots;
                    (None, JobAction::Return(total))
                },
                (None, Some(sent)) => {
                    let mailbox = match &sent {
                        SyncSource::FollowingSent { mailbox, .. } => mailbox.clone(),
                        _ => String::new(),
                    };
                    let action = JobAction::Attempt {
                        mailbox: mailbox.clone(),
                        source: sent.clone(),
                        goal: self.goal.clone(),
                        delay_ms: 0,
                    };
                    let job = SyncJob {
                        mailbox,
                        source: sent,
                        goal: self.goal,
                        retry: Retry::begin(self.retry.attempts),
                        sent: None,
                        summary: Some(summary),
                    };
                    (Some(job), action)
                },
                (None, None) => (None, JobAction::Return(summary)),
            },
            Err(error) => match self.retry.again() {
                Some(retry) => {
                    let action = JobAction::Attempt {
                        mailbox: self.mailbox.clone(),
                        source: self.source.clone(),
                        goal: self.goal.clone(),
                        delay_ms: RETRY_DELAY_MS,
                    };
                    let job = SyncJob {
                        mailbox: self.mailbox,
                        source: self.source,
                        goal: self.goal,
                        retry,
                        sent: self.sent,
                        summary: self.summary,
                    };
                    (Some(job), action)
                },
                None => match self.summary {
                    Some(main) => (None, JobAction::Return(main)),
                    None => (None, JobAction::Fail(error)),
                },
            },
        }
    }
}

/// Finds the sent mail that belongs to a source.
fn find_sent_source(config: &RuntimeConfig, source: &SyncSource) -> (r: Option<SyncSource>)
    ensures
        opt_source(r) == sent_source(*config, source@),
        r matches Some(sent) ==> sent@ is FollowingSent,
{
    match (source, &config.imap.sent_mailbox) {
        (SyncSource::Following { self_email }, Some(sent)) => {
            let all = text::chars_of(sent.as_str());
            let name = text::string_of(text::trim(all.as_slice()));
            if name.as_str().is_empty() || is_inbox(name.as_str()) {
                None
            } else {
                Some(SyncSource::FollowingSent { self_email: self_email.clone(), mailbox: name })
            }
        },
        _ => None,
    }
}

/// Begins to synchronise a mailbox: says which pass to run first, or why none
/// can be.
pub fn run(config: &RuntimeConfig, request: SyncRequest) -> (r: Result<
    (SyncJob, JobAction),
    CriewError,
>)
    ensures
        match (r, source_of(*config, request)) {
            (Ok((job, action)), Ok(source)) => {
                &&& job.wf()
                &&& job.serves(
                    request.mailbox@,
                    source,
                    Goal::Sync,
                    request.reconnect_attempts,
                    sent_source(*config, source),
                )
                &&& attempts(action, request.mailbox@, job.source, Goal::Sync, 0)
            },
            (Err(error), Err(message)) => error.code == ErrorCode::Imap && error.message@
                == message,
            _ => false,
        },
{
    let source = match resolve_sync_source(config, &request) {
        Ok(source) => source,
        Err(error) => {
            return Err(error);
        },
    };
    let sent = find_sent_source(config, &source);
    let action = JobAction::Attempt {
        mailbox: request.mailbox.clone(),
        source: source.clone(),
        goal: Goal::Sync,
        delay_ms: 0,
    };
    let job = SyncJob {
        mailbox: request.mailbox,
        source,
        goal: Goal::Sync,
        retry: Retry::begin(request.reconnect_attempts),
        sent,
        summary: None,
    };
    Ok((job, action))
}

/// The request that names the source of a thread.
pub open spec fn thread_source(config: RuntimeConfig, mailbox: String, attempts: u8) -> Result<
    SourceView,
    Seq<char>,
> {
    source_of(
        config,
        SyncRequest {
            mailbox,
            fixture_dir: None,
            uidvalidity: None,
            reconnect_attempts: attempts,
        },
    )
}

/// Begins to fetch the thread of a message: says which pass to run first, or why
/// none can be.
pub fn fetch_thread(config: &RuntimeConfig, request: ThreadFetchRequest) -> (r: Result<
    (SyncJob, JobAction),
    CriewError,
>)
    ensures
        match (
            r,
            thread_source(*config, request.mailbox, request.reconnect_attempts),
        ) {
            (Ok((job, action)), Ok(source)) => {
                let goal = Goal::Thread { message_id: request.message_id };
                &&& job.wf()
                &&& job.serves(request.mailbox@, source, goal, request.reconnect_attempts, None)
                &&& attempts(action, request.mailbox@, job.source, goal, 0)
            },
            (Err(error), Err(message)) => error.code == ErrorCode::Imap && error.message@
                == message,
            _ => false,
        },
{
    let lookup = SyncRequest {
        mailbox: request.mailbox.clone(),
        fixture_dir: None,
        uidvalidity: None,
        reconnect_attempts: request.reconnect_attempts,
    };
    let source = match resolve_sync_source(config, &lookup) {
        Ok(source) => source,
        Err(error) => {
            return Err(error);
        },
    };
    let goal = Goal::Thread { message_id: request.message_id };
    let action = JobAction::Attempt {
        mailbox: request.mailbox.clone(),
        source: source.clone(),
        goal: goal.clone(),
        delay_ms: 0,
    };
    let job = SyncJob {
        mailbox: request.mailbox,
        source,
        goal,
        retry: Retry::begin(request.reconnect_attempts),
        sent: None,
        summary: None,
    };
    Ok((job, action))
}

// ---------------------------------------------------------------------------
// Laws
// ---------------------------------------------------------------------------

/// A checkpoint only moves forward: what a batch reaches is at least what was
/// reached before, what the mailbox announces, and every number that is stored.
pub proof fn law_checkpoints_move_forward(
    batch: SyncBatch,
    mailbox: Seq<char>,
    last_seen_uid: u32,
    snapshot: MailboxSnapshot,
    mails: Seq<EnvelopeView>,
)
    requires
        stores_mails(batch, mailbox, last_seen_uid, snapshot, mails),
    ensures
        batch.highest_uid >= last_seen_uid,
        batch.highest_uid >= snapshot.highest_uid,
        forall|i: int| 0 <= i < batch.mails@.len() ==> (#[trigger] batch.mails@[i]).uid
            <= batch.highest_uid,
        snapshot.highest_modseq matches Some(known) ==> (batch.highest_modseq matches Some(reached)
            && known <= reached),
{
    let incoming = incoming_mails(mailbox, last_seen_uid, mails);
    lemma_largest_uid(incoming, last_seen_uid);
    assert forall|i: int| 0 <= i < batch.mails@.len() implies (#[trigger] batch.mails@[i]).uid
        <= batch.highest_uid by {
        assert(mail_store::incoming_views(batch.mails@)[i] == batch.mails@[i]@);
        assert(incoming[i].uid <= largest_uid(incoming, last_seen_uid));
    }
}

/// The largest number is an upper bound.
proof fn lemma_largest_uid(mails: Seq<IncomingView>, bound: u32)
    ensures
        bound <= largest_uid(mails, bound),
        forall|i: int|
            0 <= i < mails.len() ==> (#[trigger] mails[i]).uid <= largest_uid(mails, bound),
    decreases mails.len(),
{
    if mails.len() > 0 {
        let init = mails.drop_last();
        lemma_largest_uid(init, bound);
        assert forall|i: int| 0 <= i < mails.len() implies (#[trigger] mails[i]).uid <= largest_uid(
            mails,
            bound,
        ) by {
            if i < init.len() {
                assert(init[i] == mails[i]);
            }
        }
    }
}

/// Every mail is stored under a number. Numbers that are made up count on from
/// the checkpoint, one by one, as long as there are numbers left.
pub proof fn law_made_up_numbers_count_on(start: u32, mails: Seq<EnvelopeView>)
    ensures
        forall|i: int|
            0 <= i < mails.len() ==> #[trigger] stored_number(start, mails, i) > 0,
        start + mails.len() <= u32::MAX ==> {
            &&& forall|i: int|
                0 <= i < mails.len() && mails[i].remote.uid == 0 ==> #[trigger] stored_number(
                    start,
                    mails,
                    i,
                ) > start
            &&& forall|i: int, j: int|
                0 <= i < j < mails.len() && mails[i].remote.uid == 0 && mails[j].remote.uid == 0
                    ==> #[trigger] stored_number(start, mails, i) < #[trigger] stored_number(
                    start,
                    mails,
                    j,
                )
        },
{
    assert forall|i: int| 0 <= i < mails.len() implies #[trigger] stored_number(start, mails, i)
        > 0 by {
        lemma_made_up(start, mails, i + 1);
        lemma_made_up(start, mails, i);
    }
    if start + mails.len() <= u32::MAX {
        assert forall|i: int| 0 <= i < mails.len() && mails[i].remote.uid == 0 implies
            #[trigger] stored_number(start, mails, i) > start by {
            lemma_made_up(start, mails, i);
        }
        assert forall|i: int, j: int|
            0 <= i < j < mails.len() && mails[i].remote.uid == 0 && mails[j].remote.uid
                == 0 implies #[trigger] stored_number(start, mails, i) < #[trigger] stored_number(
            start,
            mails,
            j,
        ) by {
            lemma_made_up_grows(start, mails, i + 1, j);
            lemma_made_up(start, mails, j);
        }
    }
}

/// How far made-up numbers can be.
proof fn lemma_made_up(start: u32, mails: Seq<EnvelopeView>, n: int)
    requires
        0 <= n <= mails.len(),
    ensures
        start <= last_made_up(start, mails, n) <= start + n,
    decreases n,
{
    if n > 0 {
        lemma_made_up(start, mails, n - 1);
    }
}

/// Made-up numbers do not shrink.
proof fn lemma_made_up_grows(start: u32, mails: Seq<EnvelopeView>, a: int, b: int)
    requires
        0 <= a <= b <= mails.len(),
    ensures
        last_made_up(start, mails, a) <= last_made_up(start, mails, b),
    decreases b - a,
{
    if a < b {
        lemma_made_up_grows(start, mails, a, b - 1);
    }
}

/// File names sort as the numbers of their mails do.
pub proof fn law_file_names_sort_as_numbers(a: u32, b: u32)
    requires
        a < b,
    ensures
        text::precedes(file_name(a), file_name(b)),
{
    assert(text::ten_to(10) == 10000000000) by {
        reveal_with_fuel(text::ten_to, 11);
    }
    text::lemma_padded_order(a as nat, b as nat, 10);
    text::lemma_padded(a as nat, 10);
    text::lemma_padded(b as nat, 10);
    text::lemma_precedes_append(text::padded(a as nat, 10), text::padded(b as nat, 10), ".eml"@, ".eml"@);
}

/// A source keeps exactly the mails that it is about, in their order.
pub proof fn law_sources_keep_what_they_are_about(
    mails: Seq<EnvelopeView>,
    source: SourceView,
    mailbox: Seq<char>,
)
    ensures
        kept_mails(mails, source, mailbox) == mails.filter(
            |mail: EnvelopeView| keeps(source, mailbox, mail.parsed),
        ),
        forall|mail: EnvelopeView|
            #![trigger kept_mails(mails, source, mailbox).contains(mail)]
            kept_mails(mails, source, mailbox).contains(mail) <==> mails.contains(mail) && keeps(
                source,
                mailbox,
                mail.parsed,
            ),
    decreases mails.len(),
{
    reveal(Seq::filter);
    if mails.len() > 0 {
        let init = mails.drop_last();
        law_sources_keep_what_they_are_about(init, source, mailbox);
        let was = kept_mails(init, source, mailbox);
        let now = kept_mails(mails, source, mailbox);
        assert forall|mail: EnvelopeView| #![trigger now.contains(mail)]
            now.contains(mail) <==> mails.contains(mail) && keeps(
                source,
                mailbox,
                mail.parsed,
            ) by {
            if mails.contains(mail) && keeps(source, mailbox, mail.parsed) {
                let i = choose|i: int| 0 <= i < mails.len() && mails[i] == mail;
                if i < init.len() {
                    assert(init[i] == mail);
                    assert(was.contains(mail));
                    let k = choose|k: int| 0 <= k < was.len() && was[k] == mail;
                    assert(now[k] == mail);
                } else {
                    assert(now[was.len() as int] == mail);
                }
            }
            if now.contains(mail) {
                let k = choose|k: int| 0 <= k < now.len() && now[k] == mail;
                if k < was.len() {
                    assert(was[k] == mail);
                    assert(was.contains(mail));
                    let i = choose|i: int| 0 <= i < init.len() && init[i] == mail;
                    assert(mails[i] == mail);
                } else {
                    assert(mails[mails.len() - 1] == mail);
                }
            }
        }
    }
}

/// Patch mail that the user sent concerns them, in whatever mailbox it is found.
pub proof fn law_sent_patch_mail_concerns_the_sender(mail: HeadersView, self_email: Seq<char>)
    requires
        own_patch_mail(mail, self_email),
    ensures
        concerns(mail, self_email),
{
    mail_parser::law_normalized_mailboxes_are_stable(mail.from_addr);
    let subject = mail.subject;
    if !sent_patch(subject) {
        lemma_markers_show(subject);
    }
}

/// A marker in front of a trimmed subject stands in front of the subject.
proof fn lemma_markers_show(subject: Seq<char>)
    ensures
        text::opens_with(text::lowered(text::trimmed(subject)), "re:"@) || text::opens_with(
            text::lowered(text::trimmed(subject)),
            "fwd:"@,
        ) ==> completion::marked(subject),
{
    reveal_strlit("re:");
    reveal_strlit("fwd:");
    let front = text::trimmed_start(subject);
    text::lemma_skip_trailing(front, CharClass::Space);
    let short = text::lowered(text::trimmed(subject));
    let long = text::lowered(front);
    if text::opens_with(short, "re:"@) {
        assert(long.subrange(0, 3) == short.subrange(0, 3));
    }
    if text::opens_with(short, "fwd:"@) {
        assert(long.subrange(0, 4) == short.subrange(0, 4));
    }
}

/// The attempt that is made after a number of failures.
pub open spec fn after_failures(requested: u8, failures: nat) -> Option<Retry>
    decreases failures,
{
    if failures == 0 {
        Some(Retry::first(requested))
    } else {
        match after_failures(requested, (failures - 1) as nat) {
            Some(retry) => retry.following(),
            None => None,
        }
    }
}

/// As many attempts are made as were asked for, but always one: after fewer
/// failures there is another attempt, after as many there is none.
pub proof fn law_attempts_are_as_many_as_requested(requested: u8, failures: nat)
    ensures
        after_failures(requested, failures) is Some <==> failures < Retry::first(
            requested,
        ).attempts,
        after_failures(requested, failures) matches Some(retry) ==> retry.attempt == failures + 1
            && retry.attempts == Retry::first(requested).attempts,
    decreases failures,
{
    if failures > 0 {
        law_attempts_are_as_many_as_requested(requested, (failures - 1) as nat);
    }
}

/// Once the first pass succeeded, the whole succeeds, whatever becomes of the
/// sent mail.
pub proof fn law_sent_mail_cannot_fail_the_whole(
    job: SyncJob,
    outcome: Result<SyncSummary, CriewError>,
    next: Option<SyncJob>,
    action: JobAction,
)
    requires
        job.summary is Some,
        job.proceeds(outcome, next, action),
    ensures
        action !is Fail,
        next matches Some(job) ==> job.summary is Some,
{
}

/// A mailbox that was rebuilt is read from its beginning; any other is read from
/// where it was left.
pub proof fn law_rebuilt_mailboxes_are_read_from_the_start(
    state: MailboxState,
    snapshot: MailboxSnapshot,
)
    ensures
        ({
            let window = window_of(Some(state), snapshot);
            if state.uidvalidity != snapshot.uidvalidity {
                window.after_uid == 0 && window.since_modseq is None
            } else {
                window.after_uid == state.last_seen_uid && window.since_modseq
                    == state.highest_modseq
            }
        }),
        window_of(None, snapshot).after_uid == 0,
{
}

impl SyncRun {
    /// How many stages may still follow.
    pub open spec fn stages_left(self) -> nat {
        match self.stage {
            Stage::Checkpoint => 12,
            Stage::Count { .. } => 11,
            Stage::Connection { .. } => 10,
            Stage::Snapshot { .. } => 9,
            Stage::Selection { .. } => 8,
            Stage::Messages { .. } => 7,
            Stage::Requested { .. } => 7,
            Stage::Candidates { .. } => 6,
            Stage::Missing { .. } => 5,
            Stage::Threads { .. } => 5,
            Stage::Storing { .. } => 4,
            Stage::Following { .. } => 3,
            Stage::Series { .. } => 2,
            Stage::Pruning { .. } => 1,
            Stage::Finished => 0,
        }
    }

    /// How many threads are still to be asked for.
    pub open spec fn threads_left(self) -> int {
        match self.stage {
            Stage::Threads { requests, next, .. } => requests@.len() - next,
            _ => 0,
        }
    }
}

/// A pass always comes to an end: each step leads to a later stage, or leaves
/// one thread less to ask for.
pub proof fn law_passes_end(run: SyncRun, event: SyncEvent, next: SyncRun, action: SyncAction)
    requires
        run.wf(),
        run.expects(event),
        run.steps_to(event, next, action),
        next.wf(),
    ensures
        next.stages_left() < run.stages_left() || (next.stages_left() == run.stages_left()
            && 0 <= next.threads_left() < run.threads_left()),
{
    if let Stage::Threads { requests, next: at, .. } = run.stage {
        assert(text::texts(requests@).len() == requests@.len());
        if let Stage::Threads { requests: asked, .. } = next.stage {
            assert(text::texts(asked@).len() == asked@.len());
        }
    }
}

/// A pass ends with a summary or an error, and only then.
pub proof fn law_passes_end_with_an_answer(
    run: SyncRun,
    event: SyncEvent,
    next: SyncRun,
    action: SyncAction,
)
    requires
        run.wf(),
        run.expects(event),
        run.steps_to(event, next, action),
    ensures
        next.stage is Finished <==> action is Finish || action is Fail,
{
}

/// Mails of a thread are stored only if the requested message is among them.
pub proof fn law_fetched_threads_hold_the_requested_message(
    run: SyncRun,
    mails: Vec<RemoteMail>,
    next: SyncRun,
    action: SyncAction,
)
    requires
        run.wf(),
        run.stage is Requested,
        run.steps_to(SyncEvent::Mails(mails), next, action),
    ensures
        action is Store <==> completion::has_mail(
            imap::opened(run.storage(), imap::remote_views(mails@)),
            bare_id(run.goal->message_id@),
        ),
        action is Store || action is Fail,
{
}

/// The identifiers of the messages that a batch stores.
pub open spec fn stored_ids(batch: SyncBatch) -> Seq<Seq<char>> {
    Seq::new(batch.mails@.len(), |i: int| batch.mails@[i].parsed.message_id@)
}

/// Fetching a thread twice stores the same messages. Two passes for one message
/// that get the same thread both store it, wherever their checkpoints stand, and
/// hand the store the same messages with the same identifiers in the same order;
/// or both give up with the same complaint.
pub proof fn law_fetching_a_thread_twice_stores_the_same_messages(
    first: SyncRun,
    mails: Vec<RemoteMail>,
    first_next: SyncRun,
    first_action: SyncAction,
    second: SyncRun,
    again: Vec<RemoteMail>,
    second_next: SyncRun,
    second_action: SyncAction,
)
    requires
        first.wf(),
        first.stage is Requested,
        first.steps_to(SyncEvent::Mails(mails), first_next, first_action),
        second.wf(),
        second.stage is Requested,
        second.steps_to(SyncEvent::Mails(again), second_next, second_action),
        first.storage() == second.storage(),
        first.goal->message_id@ == second.goal->message_id@,
        imap::remote_views(mails@) == imap::remote_views(again@),
    ensures
        match (first_action, second_action) {
            (SyncAction::Store(a), SyncAction::Store(b)) => {
                &&& stored_ids(a) == stored_ids(b)
                &&& a.mailbox@ == b.mailbox@
                &&& a.mails@.len() == b.mails@.len()
                &&& forall|i: int|
                    0 <= i < a.mails@.len() ==> (#[trigger] a.mails@[i]).parsed@
                        == b.mails@[i].parsed@ && a.mails@[i].raw@ == b.mails@[i].raw@
            },
            (SyncAction::Fail(a), SyncAction::Fail(b)) => a.code == b.code && a.message@
                == b.message@,
            _ => false,
        },
{
    if let (SyncAction::Store(a), SyncAction::Store(b)) = (first_action, second_action) {
        let x = mail_store::incoming_views(a.mails@);
        let y = mail_store::incoming_views(b.mails@);
        assert(x.len() == y.len());
        assert forall|i: int| 0 <= i < a.mails@.len() implies (#[trigger] a.mails@[i]).parsed@
            == b.mails@[i].parsed@ && a.mails@[i].raw@ == b.mails@[i].raw@ by {
            assert(x[i] == a.mails@[i]@);
            assert(y[i] == b.mails@[i]@);
        }
        assert forall|i: int| 0 <= i < stored_ids(a).len() implies stored_ids(a)[i]
            == stored_ids(b)[i] by {
            assert(a.mails@[i].parsed@ == b.mails@[i].parsed@);
        }
        assert(stored_ids(a) =~= stored_ids(b));
    }
}

/// Whether a store files each message of a batch under its identifier, and
/// counts as inserted those that it did not hold. `before` and `after` are the
/// identifiers that it holds for the mailbox.
pub open spec fn files_by_id(
    before: Set<Seq<char>>,
    batch: SyncBatch,
    after: Set<Seq<char>>,
    result: SyncWriteResult,
) -> bool {
    &&& after == before.union(stored_ids(batch).to_set())
    &&& result.inserted == after.difference(before).len()
}

/// Fetching a thread twice inserts nothing the second time: in a store that files
/// messages by their identifiers, and to which nothing else was written, the
/// second fetch finds every message there. The store holds the same messages
/// after it as before, and the summary of the second fetch reports none inserted.
pub proof fn law_fetching_a_thread_twice_inserts_nothing(
    first: SyncRun,
    mails: Vec<RemoteMail>,
    first_next: SyncRun,
    first_batch: SyncBatch,
    second: SyncRun,
    again: Vec<RemoteMail>,
    second_next: SyncRun,
    second_batch: SyncBatch,
    before: Set<Seq<char>>,
    between: Set<Seq<char>>,
    after: Set<Seq<char>>,
    first_result: SyncWriteResult,
    second_result: SyncWriteResult,
    fetched: usize,
    summary: SyncSummary,
)
    requires
        first.wf(),
        first.stage is Requested,
        first.steps_to(SyncEvent::Mails(mails), first_next, SyncAction::Store(first_batch)),
        files_by_id(before, first_batch, between, first_result),
        second.wf(),
        second.stage is Requested,
        second.steps_to(SyncEvent::Mails(again), second_next, SyncAction::Store(second_batch)),
        files_by_id(between, second_batch, after, second_result),
        first.storage() == second.storage(),
        first.goal->message_id@ == second.goal->message_id@,
        imap::remote_views(mails@) == imap::remote_views(again@),
        reports(summary, second.mailbox@, second.source@, fetched, second_result),
    ensures
        after == between,
        second_result.inserted == 0,
        summary.inserted == 0,
{
    law_fetching_a_thread_twice_stores_the_same_messages(
        first,
        mails,
        first_next,
        SyncAction::Store(first_batch),
        second,
        again,
        second_next,
        SyncAction::Store(second_batch),
    );
    assert(after =~= between);
    assert(after.difference(between) =~= Set::<Seq<char>>::empty());
}

/// Whether a pass has stored mails with a result and is still to report it.
pub open spec fn carries(run: SyncRun, fetched: usize, result: SyncWriteResult) -> bool {
    match run.stage {
        Stage::Following { fetched: f, result: r } => f == fetched && r == result,
        Stage::Series { fetched: f, result: r } => f == fetched && r == result,
        Stage::Pruning { summary } => reports(
            summary,
            run.mailbox@,
            run.source@,
            fetched,
            result,
        ),
        _ => false,
    }
}

/// A summary reports what was stored: unless something fails, what the store
/// answered is carried on to the summary with which the pass finishes.
pub proof fn law_summaries_report_what_was_stored(
    run: SyncRun,
    event: SyncEvent,
    next: SyncRun,
    action: SyncAction,
    fetched: usize,
    result: SyncWriteResult,
)
    requires
        run.wf(),
        run.expects(event),
        event !is Failed,
        run.steps_to(event, next, action),
        carries(run, fetched, result) || (event == SyncEvent::Stored(result) && (
        run.stage matches Stage::Storing { fetched: f, .. } && f == fetched)),
    ensures
        carries(next, fetched, result) || (action matches SyncAction::Finish(summary) && reports(
            summary,
            run.mailbox@,
            run.source@,
            fetched,
            result,
        )),
{
}

/// Whether the mailbox of the user is among addresses, at some index.
pub open spec fn stands_among(addresses: Seq<Seq<char>>, me: Seq<char>) -> bool {
    exists|i: int|
        0 <= i < addresses.len() && mail_parser::mailbox_of(#[trigger] addresses[i]) == Some(me)
}

/// A mail concerns the user exactly when their mailbox is any of the addresses it
/// goes to, any of those it is copied to, or the one it comes from while its
/// subject states a patch. It does not matter at which place the address stands.
pub proof fn law_addressed_mail_concerns_the_user(
    mail: HeadersView,
    self_email: Seq<char>,
    me: Seq<char>,
)
    requires
        mail_parser::mailbox_of(self_email) == Some(me),
    ensures
        forall|i: int|
            0 <= i < mail.to_addresses.len() && mail_parser::mailbox_of(
                #[trigger] mail.to_addresses[i],
            ) == Some(me) ==> concerns(mail, self_email),
        forall|i: int|
            0 <= i < mail.cc_addresses.len() && mail_parser::mailbox_of(
                #[trigger] mail.cc_addresses[i],
            ) == Some(me) ==> concerns(mail, self_email),
        forall|i: int|
            0 <= i < mail.to_addresses.len() && #[trigger] mail.to_addresses[i] == me ==> concerns(
                mail,
                self_email,
            ),
        forall|i: int|
            0 <= i < mail.cc_addresses.len() && #[trigger] mail.cc_addresses[i] == me ==> concerns(
                mail,
                self_email,
            ),
        mail_parser::mailbox_of(mail.from_addr) == Some(me) && crate::series_store::patch_subject(
            mail.subject,
        ) is Some ==> concerns(mail, self_email),
        concerns(mail, self_email) ==> {
            ||| stands_among(mail.to_addresses, me)
            ||| stands_among(mail.cc_addresses, me)
            ||| mail_parser::mailbox_of(mail.from_addr) == Some(me) && crate::series_store::patch_subject(
                mail.subject,
            ) is Some
        },
{
    mail_parser::law_normalized_mailboxes_are_stable(self_email);
    if !sent_patch(mail.subject) {
        lemma_markers_show(mail.subject);
    }
    assert forall|i: int|
        0 <= i < mail.to_addresses.len() && mail_parser::mailbox_of(#[trigger] mail.to_addresses[i])
            == Some(me) implies concerns(mail, self_email) by {
        assert(names_mailbox(mail.to_addresses, me));
    }
    assert forall|i: int|
        0 <= i < mail.cc_addresses.len() && mail_parser::mailbox_of(#[trigger] mail.cc_addresses[i])
            == Some(me) implies concerns(mail, self_email) by {
        assert(names_mailbox(mail.cc_addresses, me));
    }
    if names_mailbox(mail.to_addresses, me) {
        assert(stands_among(mail.to_addresses, me));
    }
    if names_mailbox(mail.cc_addresses, me) {
        assert(stands_among(mail.cc_addresses, me));
    }
}

/// Nothing concerns a user whose address names no mailbox.
pub proof fn law_nothing_concerns_nobody(mail: HeadersView, self_email: Seq<char>)
    requires
        mail_parser::mailbox_of(self_email) is None,
    ensures
        !concerns(mail, self_email),
{
}

/// What each source is about: the view of the user, what concerns them; their
/// sent mail, the patch mail that they sent; an inbox of files, patch mail;
/// archives, everything.
pub proof fn law_each_source_is_about_something(
    mailbox: Seq<char>,
    mail: HeadersView,
    self_email: Seq<char>,
    sent: Seq<char>,
    dir: Seq<char>,
    hint: u64,
    base_url: Seq<char>,
)
    ensures
        keeps(SourceView::Following { self_email }, mailbox, mail) == concerns(mail, self_email),
        keeps(SourceView::FollowingSent { self_email, mailbox: sent }, mailbox, mail) == (
        mail_parser::mailbox_of(mail.from_addr) == Some(self_email) && crate::series_store::patch_subject(
            mail.subject,
        ) is Some),
        keeps(SourceView::GnuArchive, mailbox, mail),
        keeps(SourceView::Lore { base_url }, mailbox, mail),
        text::same_letters(mailbox, "INBOX"@) ==> keeps(
            SourceView::Fixture { fixture_dir: dir, uidvalidity_hint: hint },
            mailbox,
            mail,
        ) == (crate::series_store::patch_subject(mail.subject) is Some),
        !text::same_letters(mailbox, "INBOX"@) ==> keeps(
            SourceView::Fixture { fixture_dir: dir, uidvalidity_hint: hint },
            mailbox,
            mail,
        ),
{
}

/// Which source a requested mailbox has. Files win where they are named. The view
/// of the user and the inbox, in any case, need the account and an address; lists
/// whose names open with `qemu-`, in any case, are read from the archive of the
/// GNU project; every other list is read from the public archive.
pub proof fn law_mailboxes_have_their_sources(config: RuntimeConfig, request: SyncRequest)
    ensures
        ({
            let mailbox = request.mailbox@;
            let found = source_of(config, request);
            let personal = text::same_letters(mailbox, "Following"@) || text::same_letters(
                mailbox,
                "INBOX"@,
            );
            let files = request.fixture_dir is Some;
            &&& files ==> found == Ok::<SourceView, Seq<char>>(
                SourceView::Fixture {
                    fixture_dir: request.fixture_dir->0@,
                    uidvalidity_hint: if request.uidvalidity is Some {
                        request.uidvalidity->0
                    } else {
                        1
                    },
                },
            )
            &&& !files && personal && config.imap.missing().len() > 0 ==> found is Err
            &&& !files && personal && config.imap.missing().len() == 0 && config.imap.email is Some
                ==> found == Ok::<SourceView, Seq<char>>(
                SourceView::Following { self_email: config.imap.email->0@ },
            )
            &&& !files && personal && config.imap.missing().len() == 0 && config.imap.email is None
                && config.git_user_email is Some ==> found == Ok::<SourceView, Seq<char>>(
                SourceView::Following { self_email: config.git_user_email->0@ },
            )
            &&& !files && personal && config.imap.email is None && config.git_user_email is None
                ==> found is Err
            &&& !files && !personal && text::opens_with(text::lowered(mailbox), "qemu-"@) ==> found
                == Ok::<SourceView, Seq<char>>(SourceView::GnuArchive)
            &&& !files && !personal && !text::opens_with(text::lowered(mailbox), "qemu-"@) ==> found
                == Ok::<SourceView, Seq<char>>(
                SourceView::Lore { base_url: config.lore_base_url@ },
            )
        }),
{
}

/// The sent mail of the user is read exactly where the view of the user is, a
/// mailbox for it is named, and that mailbox is not the inbox once more.
pub proof fn law_sent_mail_is_read_beside_the_view(
    config: RuntimeConfig,
    self_email: Seq<char>,
    source: SourceView,
)
    ensures
        source !is Following ==> sent_source(config, source) is None,
        config.imap.sent_mailbox is None ==> sent_source(config, source) is None,
        config.imap.sent_mailbox matches Some(sent) ==> {
            let found = sent_source(config, SourceView::Following { self_email });
            &&& text::trimmed(sent@).len() == 0 ==> found is None
            &&& text::same_letters(text::trimmed(sent@), "INBOX"@) ==> found is None
            &&& text::trimmed(sent@).len() > 0 && !text::same_letters(
                text::trimmed(sent@),
                "INBOX"@,
            ) ==> found == Some(
                SourceView::FollowingSent { self_email, mailbox: text::trimmed(sent@) },
            )
        },
{
}

/// A batch holds every mail it was made of, in order, each as it was fetched: with
/// its bytes, its flags, its modification number and its headers, under its own
/// number where it has one, and in a file named after the number.
pub proof fn law_batches_hold_what_was_fetched(
    batch: SyncBatch,
    mailbox: Seq<char>,
    last_seen_uid: u32,
    snapshot: MailboxSnapshot,
    mails: Seq<EnvelopeView>,
)
    requires
        stores_mails(batch, mailbox, last_seen_uid, snapshot, mails),
    ensures
        batch.mailbox@ == mailbox,
        batch.uidvalidity == snapshot.uidvalidity,
        batch.mails@.len() == mails.len(),
        forall|i: int|
            0 <= i < mails.len() ==> {
                let stored = (#[trigger] batch.mails@[i])@;
                &&& stored.mailbox == mailbox
                &&& stored.raw == mails[i].remote.raw
                &&& stored.flags == mails[i].remote.flags
                &&& stored.modseq == mails[i].remote.modseq
                &&& stored.parsed == mails[i].parsed
                &&& mails[i].remote.uid != 0 ==> stored.uid == mails[i].remote.uid
                &&& stored.raw_name == text::padded(stored.uid as nat, 10) + ".eml"@
            },
{
    let views = mail_store::incoming_views(batch.mails@);
    assert(views.len() == mails.len());
    assert forall|i: int| 0 <= i < mails.len() implies {
        let stored = (#[trigger] batch.mails@[i])@;
        &&& stored.mailbox == mailbox
        &&& stored.raw == mails[i].remote.raw
        &&& stored.flags == mails[i].remote.flags
        &&& stored.modseq == mails[i].remote.modseq
        &&& stored.parsed == mails[i].parsed
        &&& mails[i].remote.uid != 0 ==> stored.uid == mails[i].remote.uid
        &&& stored.raw_name == text::padded(stored.uid as nat, 10) + ".eml"@
    } by {
        assert(views[i] == batch.mails@[i]@);
    }
}

/// Whether some mail that is stored has a number.
pub open spec fn stored_with(batch: SyncBatch, uid: u32) -> bool {
    exists|i: int| 0 <= i < batch.mails@.len() && (#[trigger] batch.mails@[i]).uid == uid
}

/// Whether some mail that is stored has a modification number.
pub open spec fn stored_with_modseq(batch: SyncBatch, modseq: u64) -> bool {
    exists|i: int|
        0 <= i < batch.mails@.len() && (#[trigger] batch.mails@[i]).modseq == Some(modseq)
}

/// A checkpoint reaches no further than there are mails: the number it reaches is
/// the one that was reached before, the one that the mailbox announces, or that of
/// a stored mail. The same holds of the modification number, which is the largest
/// there is.
pub proof fn law_checkpoints_reach_no_further_than_mails(
    batch: SyncBatch,
    mailbox: Seq<char>,
    last_seen_uid: u32,
    snapshot: MailboxSnapshot,
    mails: Seq<EnvelopeView>,
)
    requires
        stores_mails(batch, mailbox, last_seen_uid, snapshot, mails),
    ensures
        batch.highest_uid == last_seen_uid || batch.highest_uid == snapshot.highest_uid
            || stored_with(batch, batch.highest_uid),
        batch.highest_modseq matches Some(reached) ==> snapshot.highest_modseq == Some(reached)
            || stored_with_modseq(batch, reached),
        snapshot.highest_modseq matches Some(announced) ==> batch.highest_modseq is Some
            && announced <= batch.highest_modseq->0,
        forall|i: int|
            0 <= i < batch.mails@.len() && (#[trigger] batch.mails@[i]).modseq is Some
                ==> batch.highest_modseq is Some && batch.mails@[i].modseq->0
                <= batch.highest_modseq->0,
{
    let views = mail_store::incoming_views(batch.mails@);
    lemma_largest_is_there(views, last_seen_uid);
    lemma_largest_modseq(views);
    let top = largest_uid(views, last_seen_uid);
    if batch.highest_uid != last_seen_uid && batch.highest_uid != snapshot.highest_uid {
        let i = choose|i: int| 0 <= i < views.len() && (#[trigger] views[i]).uid == top;
        assert(batch.mails@[i]@ == views[i]);
    }
    if let Some(reached) = batch.highest_modseq {
        if snapshot.highest_modseq != Some(reached) {
            let i = choose|i: int|
                0 <= i < views.len() && (#[trigger] views[i]).modseq == Some(reached);
            assert(batch.mails@[i]@ == views[i]);
        }
    }
    assert forall|i: int|
        0 <= i < batch.mails@.len() && (#[trigger] batch.mails@[i]).modseq is Some implies
        batch.highest_modseq is Some && batch.mails@[i].modseq->0 <= batch.highest_modseq->0 by {
        assert(views[i] == batch.mails@[i]@);
    }
}

/// The largest number is the bound or that of a mail.
proof fn lemma_largest_is_there(mails: Seq<IncomingView>, bound: u32)
    ensures
        largest_uid(mails, bound) == bound || exists|i: int|
            0 <= i < mails.len() && (#[trigger] mails[i]).uid == largest_uid(mails, bound),
    decreases mails.len(),
{
    if mails.len() > 0 {
        let init = mails.drop_last();
        lemma_largest_is_there(init, bound);
        let top = largest_uid(mails, bound);
        if top == mails.last().uid {
            assert(mails[mails.len() - 1].uid == top);
        } else if top != bound {
            let i = choose|i: int| 0 <= i < init.len() && (#[trigger] init[i]).uid == top;
            assert(mails[i] == init[i]);
        }
    }
}

/// The largest modification number is that of a mail, and no mail has a larger.
proof fn lemma_largest_modseq(mails: Seq<IncomingView>)
    ensures
        largest_modseq(mails) matches Some(top) ==> exists|i: int|
            0 <= i < mails.len() && (#[trigger] mails[i]).modseq == Some(top),
        forall|i: int|
            0 <= i < mails.len() && (#[trigger] mails[i]).modseq is Some ==> largest_modseq(
                mails,
            ) is Some && mails[i].modseq->0 <= largest_modseq(mails)->0,
    decreases mails.len(),
{
    if mails.len() > 0 {
        let init = mails.drop_last();
        lemma_largest_modseq(init);
        assert(mails[mails.len() - 1] == mails.last());
        if let Some(top) = largest_modseq(mails) {
            if mails.last().modseq != Some(top) {
                let i = choose|i: int|
                    0 <= i < init.len() && (#[trigger] init[i]).modseq == Some(top);
                assert(mails[i] == init[i]);
            }
        }
        assert forall|i: int| 0 <= i < mails.len() && (#[trigger] mails[i]).modseq is Some implies
            largest_modseq(mails) is Some && mails[i].modseq->0 <= largest_modseq(mails)->0 by {
            if i < init.len() {
                assert(init[i] == mails[i]);
            }
        }
    }
}

/// What sources are called in reports.
pub proof fn law_sources_have_names(source: SourceView, mailbox: Seq<char>)
    ensures
        source matches SourceView::Fixture { fixture_dir, .. } ==> source.name() == fixture_dir,
        source is Following ==> source.name() == "imap-following"@,
        source matches SourceView::FollowingSent { mailbox: sent, .. } ==> source.name()
            == "imap-following-sent:"@ + sent,
        source is GnuArchive ==> source.name() == "https://lists.gnu.org/archive/mbox"@,
        source matches SourceView::Lore { base_url } ==> source.name() == base_url,
        source is Following ==> source.stored_under(mailbox) == "INBOX"@,
        source !is Following ==> source.stored_under(mailbox) == mailbox,
{
}

/// A requested identifier is found again without the brackets and the white space
/// around it.
pub proof fn law_requested_identifiers_lose_their_brackets(
    before: Seq<char>,
    id: Seq<char>,
    after: Seq<char>,
)
    requires
        id.len() > 0,
        !text::white_space(id[0]),
        !text::white_space(id.last()),
        id[0] != '<',
        id.last() != '>',
        forall|i: int| 0 <= i < before.len() ==> text::white_space(#[trigger] before[i]),
        forall|i: int| 0 <= i < after.len() ==> text::white_space(#[trigger] after[i]),
    ensures
        bare_id(before + seq!['<'] + id + seq!['>'] + after) == id,
        bare_id(before + id + after) == id,
{
    let bracketed = seq!['<'] + id + seq!['>'];
    text::law_white_space_around_is_trimmed(before, bracketed, after);
    text::law_white_space_around_is_trimmed(before, id, after);
    assert(before + seq!['<'] + id + seq!['>'] + after == before + bracketed + after);
    assert(bracketed[1] == id[0]);
    text::lemma_skip_leading_is(bracketed, CharClass::One('<'), 1);
    let opened = id + seq!['>'];
    assert(bracketed.skip(1) == opened);
    assert(opened[id.len() - 1] == id.last());
    text::lemma_skip_trailing_is(opened, CharClass::One('>'), id.len() as int);
    assert(opened.take(id.len() as int) == id);
    text::lemma_skip_leading_is(id, CharClass::One('<'), 0);
    assert(id.skip(0) == id);
    text::lemma_skip_trailing_is(id, CharClass::One('>'), id.len() as int);
    assert(id.take(id.len() as int) == id);
}

/// A window starts where the last pass ended, a rebuilt mailbox excepted, and
/// carries the mailbox as it is now. An archive of threads stands where the last
/// pass left it.
pub proof fn law_windows_start_where_the_last_pass_ended(
    state: MailboxState,
    snapshot: MailboxSnapshot,
)
    ensures
        window_of(Some(state), snapshot).snapshot == snapshot,
        window_of(None, snapshot).snapshot == snapshot,
        window_of(Some(state), snapshot).last_seen_uid == state.last_seen_uid,
        window_of(None, snapshot).last_seen_uid == 0,
        window_of(None, snapshot).since_modseq is None,
        archived_snapshot(Some(state)).uidvalidity == state.uidvalidity,
        archived_snapshot(Some(state)).highest_uid == state.last_seen_uid,
        archived_snapshot(Some(state)).highest_modseq == state.highest_modseq,
        archived_snapshot(None) == (MailboxSnapshot {
            uidvalidity: 1,
            highest_uid: 0,
            highest_modseq: None,
        }),
{
}

/// How a synchronisation begins: it learns how far it came, counts what is stored,
/// connects and opens the mailbox. A fetch of a thread counts nothing, and from an
/// archive of threads it opens nothing.
pub proof fn law_passes_begin_in_order(
    run: SyncRun,
    found: Option<MailboxState>,
    count: usize,
    next: SyncRun,
    action: SyncAction,
)
    ensures
        run.stage is Checkpoint && run.goal is Sync && run.steps_to(
            SyncEvent::Checkpoint(found),
            next,
            action,
        ) ==> action is CountMessages && next.stage == (Stage::Count { checkpoint: found }),
        run.stage is Checkpoint && run.goal is Thread && run.steps_to(
            SyncEvent::Checkpoint(found),
            next,
            action,
        ) ==> action is Connect && next.stage == (Stage::Connection {
            checkpoint: found,
            initial: false,
        }),
        run.stage == (Stage::Count { checkpoint: found }) && run.steps_to(
            SyncEvent::Counted(count),
            next,
            action,
        ) ==> action is Connect && next.stage == (Stage::Connection {
            checkpoint: found,
            initial: count == 0,
        }),
        (run.stage matches Stage::Connection { .. }) && (run.goal is Sync || run.source !is Lore)
            && run.steps_to(SyncEvent::Connected, next, action) ==> action is SelectMailbox
            && next.stage is Snapshot,
        (run.stage matches Stage::Connection { checkpoint, .. } && checkpoint == found)
            && run.goal is Thread && run.source is Lore && run.steps_to(
            SyncEvent::Connected,
            next,
            action,
        ) ==> action is FetchThread && next.stage == (Stage::Requested {
            window: window_of(found, archived_snapshot(found)),
        }),
        run.steps_to(SyncEvent::Connected, next, action) ==> next.mailbox == run.mailbox
            && next.source == run.source && next.goal == run.goal,
{
}

/// What a pass fetches from an opened mailbox: for the view of the user and their
/// sent mail what concerns their address, else what is new, in either case after
/// the number that was reached before; the first time that files fill the inbox,
/// headers to choose from; and for a thread, the thread of the message.
pub proof fn law_passes_fetch_what_is_new(
    run: SyncRun,
    state: MailboxState,
    initial: bool,
    snapshot: MailboxSnapshot,
    next: SyncRun,
    action: SyncAction,
)
    requires
        run.stage == (Stage::Snapshot { checkpoint: Some(state), initial }),
        run.steps_to(SyncEvent::Selected(snapshot), next, action),
    ensures
        ({
            let first = initial && run.source is Fixture && text::same_letters(
                run.mailbox@,
                "INBOX"@,
            );
            let same = state.uidvalidity == snapshot.uidvalidity;
            let after: u32 = if same {
                state.last_seen_uid
            } else {
                0
            };
            let since = if same {
                state.highest_modseq
            } else {
                None
            };
            &&& run.goal is Thread ==> (action matches SyncAction::FetchThread { message_id, .. }
                && message_id@ == run.goal->message_id@)
            &&& run.goal is Sync && first ==> (action matches SyncAction::FetchHeaders {
                mailbox,
                after_uid,
                since_modseq,
            } && mailbox@ == run.mailbox@ && after_uid == after && since_modseq == since)
            &&& run.goal is Sync && !first && run.source is Following ==> (
            action matches SyncAction::FetchFollowing {
                mailbox,
                self_email,
                after_uid,
                since_modseq,
            } && mailbox@ == "INBOX"@ && Some(self_email@) == run.source@.follows() && after_uid
                == after && since_modseq == since)
            &&& run.goal is Sync && !first && run.source is FollowingSent ==> (
            action matches SyncAction::FetchFollowing {
                mailbox,
                self_email,
                after_uid,
                since_modseq,
            } && mailbox@ == run.mailbox@ && Some(self_email@) == run.source@.follows() && after_uid
                == after && since_modseq == since)
            &&& run.goal is Sync && !first && run.source !is Following && run.source
                !is FollowingSent ==> (action matches SyncAction::FetchIncremental {
                mailbox,
                after_uid,
                since_modseq,
            } && mailbox@ == run.mailbox@ && after_uid == after && since_modseq == since)
        }),
{
}

/// What follows once mails are stored: for the view of the user and their sent
/// mail the view is refreshed first, then the series of the mailbox; an inbox of
/// files that was synchronised is pruned last, and nothing else is.
pub proof fn law_passes_refresh_after_storing(
    run: SyncRun,
    result: SyncWriteResult,
    next: SyncRun,
    action: SyncAction,
)
    ensures
        run.stage is Storing && (run.source is Following || run.source is FollowingSent)
            && run.steps_to(SyncEvent::Stored(result), next, action) ==> (
        action matches SyncAction::RefreshFollowing { self_email } && Some(self_email@)
            == run.source@.follows()),
        run.stage is Storing && run.source !is Following && run.source !is FollowingSent
            && run.steps_to(SyncEvent::Stored(result), next, action) ==> (
        action matches SyncAction::RefreshSeries { mailbox } && mailbox@ == run.mailbox@),
        run.stage is Following && run.source is Following && run.steps_to(
            SyncEvent::Refreshed,
            next,
            action,
        ) ==> (action matches SyncAction::RefreshSeries { mailbox } && mailbox@ == "INBOX"@),
        run.stage is Following && run.source !is Following && run.steps_to(
            SyncEvent::Refreshed,
            next,
            action,
        ) ==> (action matches SyncAction::RefreshSeries { mailbox } && mailbox@ == run.mailbox@),
        run.stage is Series && run.steps_to(SyncEvent::Refreshed, next, action) ==> (
        action is PruneMailbox <==> run.goal is Sync && run.source is Fixture
            && text::same_letters(run.mailbox@, "INBOX"@)) && (action is PruneMailbox
            || action is Finish),
{
}

/// A failure ends a pass with its own complaint, but for a thread that could not
/// be fetched to complete a series: that one is passed over.
pub proof fn law_failures_end_a_pass(
    run: SyncRun,
    error: CriewError,
    next: SyncRun,
    action: SyncAction,
)
    requires
        run.steps_to(SyncEvent::Failed(error), next, action),
    ensures
        run.stage !is Threads ==> action == SyncAction::Fail(error) && next.stage is Finished,
        run.stage is Threads ==> action is FetchThread || action is Store,
{
}

/// What the pass for a thread stores: every mail of the thread, whatever the source
/// is about, and only where one of them is the requested message.
pub proof fn law_fetched_threads_are_stored_whole(
    run: SyncRun,
    mails: Vec<RemoteMail>,
    next: SyncRun,
    action: SyncAction,
)
    requires
        run.stage is Requested,
        run.steps_to(SyncEvent::Mails(mails), next, action),
    ensures
        action matches SyncAction::Store(batch) ==> batch.mails@.len() == mails@.len()
            && forall|i: int|
            0 <= i < mails@.len() ==> (#[trigger] batch.mails@[i])@.raw == mails@[i].raw@,
        action is Store || action is Fail,
{
    if let SyncAction::Store(batch) = action {
        let window = run.stage->Requested_window;
        let opened = imap::opened(run.storage(), imap::remote_views(mails@));
        law_batches_hold_what_was_fetched(
            batch,
            run.storage(),
            window.last_seen_uid,
            window.snapshot,
            opened,
        );
        assert forall|i: int| 0 <= i < mails@.len() implies (#[trigger] batch.mails@[i])@.raw
            == mails@[i].raw@ by {
            assert(opened[i].remote == mails@[i]@);
        }
    }
}

/// What a job does after a pass: it adds the counts of the sent mail to those of
/// the first pass and reports the checkpoint of the first; it reads the sent mail
/// at once, with as many attempts; and it tries a failed pass again after a fifth
/// of a second.
pub proof fn law_jobs_go_on_after_a_pass(
    job: SyncJob,
    summary: SyncSummary,
    error: CriewError,
    next: Option<SyncJob>,
    action: JobAction,
)
    ensures
        job.summary is None && job.sent is None && job.proceeds(Ok(summary), next, action) ==> next
            is None && action == JobAction::Return(summary),
        job.summary is None && job.sent is Some && job.proceeds(Ok(summary), next, action) ==> (
        next matches Some(after) && after.source == job.sent->0 && after.summary == Some(summary)
            && after.sent is None && after.retry.attempt == 1 && after.goal == job.goal) && (
        action matches JobAction::Attempt { source, delay_ms, .. } && source == job.sent->0
            && delay_ms == 0),
        job.summary is Some && job.proceeds(Ok(summary), next, action) ==> next is None && (
        action matches JobAction::Return(total) && total.fetched == job.summary->0.fetched
            + summary.fetched && total.inserted == job.summary->0.inserted + summary.inserted
            && total.updated == job.summary->0.updated + summary.updated && total.rebuilt_roots
            == job.summary->0.rebuilt_roots + summary.rebuilt_roots && total.mailbox
            == job.summary->0.mailbox && total.source == job.summary->0.source
            && total.checkpoint_last_seen_uid == job.summary->0.checkpoint_last_seen_uid
            && total.uidvalidity == job.summary->0.uidvalidity && total.mailbox_rebuilt
            == job.summary->0.mailbox_rebuilt && total.checkpoint_highest_modseq
            == job.summary->0.checkpoint_highest_modseq && total.checkpoint_synced_at
            == job.summary->0.checkpoint_synced_at),
        job.retry.attempt < job.retry.attempts && job.proceeds(Err(error), next, action) ==> (
        next matches Some(after) && after.retry.attempt == job.retry.attempt + 1
            && after.retry.attempts == job.retry.attempts && after.source == job.source
            && after.mailbox == job.mailbox && after.goal == job.goal && after.sent == job.sent
            && after.summary == job.summary) && (action matches JobAction::Attempt {
            mailbox,
            source,
            goal,
            delay_ms,
        } && mailbox@ == job.mailbox@ && source == job.source && goal == job.goal && delay_ms
            == 200),
        job.retry.attempt >= job.retry.attempts && job.summary is None && job.proceeds(
            Err(error),
            next,
            action,
        ) ==> next is None && action == JobAction::Fail(error),
        job.retry.attempt >= job.retry.attempts && job.summary is Some && job.proceeds(
            Err(error),
            next,
            action,
        ) ==> next is None && action == JobAction::Return(job.summary->0),
{
}

/// There is always an attempt, and otherwise as many as were asked for.
pub proof fn law_there_is_always_an_attempt(requested: u8)
    ensures
        Retry::first(requested).attempt == 1,
        requested > 0 ==> Retry::first(requested).attempts == requested,
        requested == 0 ==> Retry::first(requested).attempts == 1,
{
}

/// Whether a batch holds mails as they were fetched, in order.
pub open spec fn holds_mails(batch: SyncBatch, mails: Seq<EnvelopeView>) -> bool {
    &&& batch.mails@.len() == mails.len()
    &&& forall|i: int|
        0 <= i < mails.len() ==> (#[trigger] batch.mails@[i])@.raw == mails[i].remote.raw
            && batch.mails@[i]@.parsed == mails[i].parsed
}

/// What is stored is what the source keeps.
proof fn lemma_stored_is_kept(
    run: SyncRun,
    next: SyncRun,
    action: SyncAction,
    window: Window,
    mails: Seq<EnvelopeView>,
)
    requires
        run.goes_on_to_filter(next, action, window, mails),
    ensures
        action matches SyncAction::Store(batch) && holds_mails(
            batch,
            mails.filter(|mail: EnvelopeView| keeps(run.source@, run.storage(), mail.parsed)),
        ),
{
    let kept = kept_mails(mails, run.source@, run.storage());
    law_sources_keep_what_they_are_about(mails, run.source@, run.storage());
    if let SyncAction::Store(batch) = action {
        law_batches_hold_what_was_fetched(
            batch,
            run.storage(),
            window.last_seen_uid,
            window.snapshot,
            kept,
        );
    }
}

/// What follows once new mails came. From an archive of threads, the threads of
/// what is missing are fetched, one after the other; elsewhere, where a series is
/// incomplete, the headers of the whole mailbox are looked through. Where nothing
/// is missing, the mails that the source keeps are stored, and no others.
pub proof fn law_incomplete_series_are_completed(
    run: SyncRun,
    window: Window,
    mails: Vec<RemoteMail>,
    next: SyncRun,
    action: SyncAction,
)
    requires
        run.stage == (Stage::Messages { window }),
        run.steps_to(SyncEvent::Mails(mails), next, action),
    ensures
        ({
            let came = imap::opened(run.storage(), imap::remote_views(mails@));
            let asked = completion::thread_requests(came);
            let kept = came.filter(
                |mail: EnvelopeView| keeps(run.source@, run.storage(), mail.parsed),
            );
            &&& run.source is Lore && asked.len() > 0 ==> (action matches SyncAction::FetchThread {
                message_id,
                ..
            } && message_id@ == asked[0])
            &&& run.source is Lore && asked.len() == 0 ==> (action matches SyncAction::Store(batch)
                && holds_mails(batch, kept))
            &&& run.source !is Lore && completion::any_incomplete(came) ==> (
            action matches SyncAction::FetchHeaders { mailbox, after_uid, since_modseq } && mailbox@
                == run.storage() && after_uid == 0 && since_modseq is None)
            &&& run.source !is Lore && !completion::any_incomplete(came) ==> (
            action matches SyncAction::Store(batch) && holds_mails(batch, kept))
        }),
{
    let came = imap::opened(run.storage(), imap::remote_views(mails@));
    if run.source is Lore {
        if completion::thread_requests(came).len() == 0 {
            lemma_stored_is_kept(run, next, action, window, came);
        }
    } else if !completion::any_incomplete(came) {
        lemma_stored_is_kept(run, next, action, window, came);
    }
}

/// Of the headers that were looked through, the mails that fill gaps are fetched;
/// where none does, what is there is stored, as far as the source keeps it.
pub proof fn law_gaps_are_fetched(
    run: SyncRun,
    window: Window,
    there: Vec<RemoteMailEnvelope>,
    mails: Vec<RemoteMail>,
    next: SyncRun,
    action: SyncAction,
)
    requires
        run.stage == (Stage::Candidates { window, envelopes: there }),
        run.steps_to(SyncEvent::Mails(mails), next, action),
    ensures
        ({
            let views = imap::envelope_views(there@);
            let looked = completion::fetched_mails(imap::remote_views(mails@));
            let gaps = completion::gap_numbers(views, looked);
            let kept = views.filter(
                |mail: EnvelopeView| keeps(run.source@, run.storage(), mail.parsed),
            );
            &&& gaps.len() > 0 ==> (action matches SyncAction::FetchFull { mailbox, uids }
                && mailbox@ == run.storage() && uids@ == gaps)
            &&& gaps.len() == 0 ==> (action matches SyncAction::Store(batch) && holds_mails(
                batch,
                kept,
            ))
        }),
{
    let views = imap::envelope_views(there@);
    let looked = completion::fetched_mails(imap::remote_views(mails@));
    if completion::gap_numbers(views, looked).len() == 0 {
        lemma_stored_is_kept(run, next, action, window, views);
    }
}

/// What was fetched to fill gaps is stored beside what was there, each mail once,
/// as far as the source keeps it.
pub proof fn law_filled_gaps_are_stored(
    run: SyncRun,
    window: Window,
    there: Vec<RemoteMailEnvelope>,
    mails: Vec<RemoteMail>,
    next: SyncRun,
    action: SyncAction,
)
    requires
        run.stage == (Stage::Missing { window, envelopes: there }),
        run.steps_to(SyncEvent::Mails(mails), next, action),
    ensures
        ({
            let views = imap::envelope_views(there@);
            let came = completion::fetched_mails(imap::remote_views(mails@));
            let unknown = came.filter(
                |mail: EnvelopeView| !completion::has_mail(views, mail.parsed.message_id),
            );
            action matches SyncAction::Store(batch) && holds_mails(
                batch,
                (views + unknown).filter(
                    |mail: EnvelopeView| keeps(run.source@, run.storage(), mail.parsed),
                ),
            )
        }),
{
    let views = imap::envelope_views(there@);
    let came = completion::fetched_mails(imap::remote_views(mails@));
    completion::law_unknown_mails_are_added(views, came);
    lemma_stored_is_kept(
        run,
        next,
        action,
        window,
        views + completion::unknown_mails(views, came),
    );
}

/// Threads are fetched one after the other, in the order in which they were asked
/// for, and each adds its mails; after the last one what the source keeps is
/// stored. A thread that cannot be fetched adds nothing.
pub proof fn law_threads_are_fetched_in_turn(
    run: SyncRun,
    window: Window,
    there: Vec<RemoteMailEnvelope>,
    requests: Vec<String>,
    at: usize,
    event: SyncEvent,
    next: SyncRun,
    action: SyncAction,
)
    requires
        run.stage == (Stage::Threads { window, envelopes: there, requests, next: at }),
        run.steps_to(event, next, action),
        event is Mails || event is Failed,
    ensures
        ({
            let views = imap::envelope_views(there@);
            let joined = match event {
                SyncEvent::Mails(mails) => completion::joined_mails(
                    views,
                    completion::fetched_mails(imap::remote_views(mails@)),
                ),
                _ => views,
            };
            &&& at + 1 < requests@.len() ==> (action matches SyncAction::FetchThread {
                message_id,
                ..
            } && message_id@ == requests@[at + 1]@) && (next.stage matches Stage::Threads {
                envelopes,
                next: then,
                ..
            } && then == at + 1 && imap::envelope_views(envelopes@) == joined)
            &&& at + 1 >= requests@.len() ==> (action matches SyncAction::Store(batch)
                && holds_mails(
                batch,
                joined.filter(
                    |mail: EnvelopeView| keeps(run.source@, run.storage(), mail.parsed),
                ),
            ))
        }),
{
    let views = imap::envelope_views(there@);
    let joined = match event {
        SyncEvent::Mails(mails) => completion::joined_mails(
            views,
            completion::fetched_mails(imap::remote_views(mails@)),
        ),
        _ => views,
    };
    if at + 1 >= requests@.len() {
        lemma_stored_is_kept(run, next, action, window, joined);
    } else {
        assert(text::texts(requests@)[at + 1] == requests@[at + 1]@);
    }
}

/// Of the first headers of an inbox of files, those mails are fetched that state a
/// patch and have a number.
pub proof fn law_first_selections_fetch_patch_mail(
    run: SyncRun,
    window: Window,
    mails: Vec<RemoteMail>,
    next: SyncRun,
    action: SyncAction,
)
    requires
        run.stage == (Stage::Selection { window }),
        run.steps_to(SyncEvent::Mails(mails), next, action),
    ensures
        next.stage == (Stage::Messages { window }),
        action is FetchFull,
        forall|uid: u32| #[trigger]
            action->uids@.contains(uid) <==> uid > 0 && states_patch_under(
                imap::opened(run.storage(), imap::remote_views(mails@)),
                uid,
            ),
{
    let opened = imap::opened(run.storage(), imap::remote_views(mails@));
    selection::law_selection_keeps_every_patch_mail(opened);
    assert forall|uid: u32| #[trigger] action->uids@.contains(uid) <==> uid > 0
        && states_patch_under(opened, uid) by {
        assert(action->uids@ == selection::numbers_of(selection::patch_mails(opened)));
        if selection::numbers_of(selection::patch_mails(opened)).contains(uid) {
            let i = choose|i: int|
                0 <= i < opened.len() && (#[trigger] opened[i]).remote.uid == uid
                    && patch::signature(opened[i].parsed.subject) is Some;
            assert(opened[i].remote.uid == uid);
        }
    }
}

/// Whether some mail with a number states a patch.
pub open spec fn states_patch_under(mails: Seq<EnvelopeView>, uid: u32) -> bool {
    exists|i: int|
        0 <= i < mails.len() && (#[trigger] mails[i]).remote.uid == uid
            && crate::series_store::patch_subject(mails[i].parsed.subject) is Some
}

/// A sent patch is a subject that states a patch and is neither a reply nor a
/// forward.
pub proof fn law_sent_patches_are_no_replies(subject: Seq<char>)
    ensures
        sent_patch(subject) <==> (crate::series_store::patch_subject(subject) matches Some(
            (_, is_reply),
        ) && !is_reply),
{
    crate::series_store::law_replies_are_told_by_their_opening(subject);
}

/// Which connection each source needs: files from their directory, the mail of the
/// user from their account, lists from their archives.
pub proof fn law_sources_have_connections(plan: ClientPlan, source: SourceView)
    requires
        connects(plan, source),
    ensures
        source is Following || source is FollowingSent ==> plan is RemoteImap,
        source is GnuArchive ==> plan is GnuArchive,
        source matches SourceView::Lore { base_url } ==> (plan matches ClientPlan::Lore {
            base_url: url,
        } && url@ == base_url),
        source matches SourceView::Fixture { fixture_dir, uidvalidity_hint } ==> (
        plan matches ClientPlan::Fixture { fixture_dir: dir, uidvalidity_hint: hint } && dir@
            == fixture_dir && hint == uidvalidity_hint),
{
}

/// What a pass waits for is the outcome of what it asked for, or a failure.
pub proof fn law_passes_await_what_they_asked_for(run: SyncRun, event: SyncEvent)
    ensures
        run.stage is Checkpoint ==> (run.expects(event) <==> event is Checkpoint || event
            is Failed),
        run.stage is Count ==> (run.expects(event) <==> event is Counted || event is Failed),
        run.stage is Connection ==> (run.expects(event) <==> event is Connected || event is Failed),
        run.stage is Snapshot ==> (run.expects(event) <==> event is Selected || event is Failed),
        run.stage is Selection || run.stage is Messages || run.stage is Candidates || run.stage
            is Missing || run.stage is Threads || run.stage is Requested ==> (run.expects(event)
            <==> event is Mails || event is Failed),
        run.stage is Storing ==> (run.expects(event) <==> event is Stored || event is Failed),
        run.stage is Following || run.stage is Series ==> (run.expects(event) <==> event
            is Refreshed || event is Failed),
        run.stage is Pruning ==> (run.expects(event) <==> event is Pruned || event is Failed),
        run.stage is Finished ==> !run.expects(event),
{
}

/// A thread is fetched from the source that its mailbox has, never from files.
pub proof fn law_threads_come_from_the_source_of_their_mailbox(
    config: RuntimeConfig,
    mailbox: String,
    attempts: u8,
    request: SyncRequest,
)
    requires
        request.mailbox == mailbox,
        request.fixture_dir is None,
    ensures
        thread_source(config, mailbox, attempts) == source_of(config, request),
        thread_source(config, mailbox, attempts) matches Ok(source) ==> source !is Fixture,
{
}

/// A summary tells the requested mailbox, the name of its source, how many mails
/// were fetched, and what the store reports of writing them.
pub proof fn law_summaries_tell_what_was_written(
    summary: SyncSummary,
    mailbox: Seq<char>,
    source: SourceView,
    fetched: usize,
    result: SyncWriteResult,
)
    requires
        reports(summary, mailbox, source, fetched, result),
    ensures
        summary.mailbox@ == mailbox,
        summary.source@ == source.name(),
        summary.fetched == fetched,
        summary.inserted == result.inserted,
        summary.updated == result.updated,
        summary.rebuilt_roots == result.rebuilt_roots,
        summary.mailbox_rebuilt == result.mailbox_rebuilt,
        summary.uidvalidity == result.state.uidvalidity,
        summary.checkpoint_last_seen_uid == result.state.last_seen_uid,
        summary.checkpoint_highest_modseq == result.state.highest_modseq,
        text::opt_text(summary.checkpoint_synced_at) == text::opt_text(result.state.synced_at),
{
}

/// Counts can be added exactly when each of the four sums fits.
pub proof fn law_counts_fit_when_their_sums_do(main: SyncSummary, sent: SyncSummary)
    ensures
        counts_fit(main, sent) <==> main.fetched + sent.fetched <= usize::MAX && main.inserted
            + sent.inserted <= usize::MAX && main.updated + sent.updated <= usize::MAX
            && main.rebuilt_roots + sent.rebuilt_roots <= usize::MAX,
{
}

/// What is said where the view of the user cannot be read: which settings are
/// missing, or that no address of theirs is known.
pub proof fn law_complaints_name_what_is_missing(config: RuntimeConfig, request: SyncRequest)
    requires
        request.fixture_dir is None,
        text::same_letters(request.mailbox@, "Following"@) || text::same_letters(
            request.mailbox@,
            "INBOX"@,
        ),
    ensures
        config.imap.missing().len() > 0 ==> source_of(config, request) == Err::<
            SourceView,
            Seq<char>,
        >(
            "IMAP config is incomplete for Following: missing "@ + text::joined(
                config.imap.missing(),
                ", "@,
            ),
        ),
        config.imap.missing().len() == 0 && config.imap.email is None
            && config.git_user_email is None ==> source_of(config, request) == Err::<
            SourceView,
            Seq<char>,
        >(
            "self email is required for Following discovery; set imap.email or git config user.email"@,
        ),
{
}

/// What is stored when a thread does not hold the requested message: nothing. The
/// complaint names the message as it was requested.
pub proof fn law_missing_messages_are_complained_of(
    run: SyncRun,
    mails: Vec<RemoteMail>,
    next: SyncRun,
    action: SyncAction,
)
    requires
        run.stage is Requested,
        run.steps_to(SyncEvent::Mails(mails), next, action),
    ensures
        (forall|i: int|
            0 <= i < mails@.len() ==> (#[trigger] imap::opened(
                run.storage(),
                imap::remote_views(mails@),
            )[i]).parsed.message_id != bare_id(run.goal->message_id@)) ==> (
        action matches SyncAction::Fail(error) && error.message@
            == "fetched thread does not contain Message-ID '"@ + run.goal->message_id@ + "'"@),
        action is Store ==> completion::has_mail(
            imap::opened(run.storage(), imap::remote_views(mails@)),
            bare_id(run.goal->message_id@),
        ),
{
}

/// How a pass ends well: with a summary of the requested mailbox and its source,
/// with the number of mails that were fetched and what the store reported. An
/// inbox of files is pruned before, and the summary stays the same.
pub proof fn law_passes_end_with_their_summary(
    run: SyncRun,
    next: SyncRun,
    action: SyncAction,
)
    ensures
        (run.stage matches Stage::Series { fetched, result } && run.steps_to(
            SyncEvent::Refreshed,
            next,
            action,
        )) ==> {
            let result = run.stage->Series_result;
            let fetched = run.stage->Series_fetched;
            &&& action matches SyncAction::Finish(summary) ==> summary.mailbox@ == run.mailbox@
                && summary.source@ == run.source@.name() && summary.fetched == fetched
                && summary.inserted == result.inserted && summary.updated == result.updated
            &&& action matches SyncAction::PruneMailbox { mailbox } ==> mailbox@ == run.mailbox@ && (
            next.stage matches Stage::Pruning { summary } && summary.mailbox@ == run.mailbox@
                && summary.fetched == fetched && summary.inserted == result.inserted
                && summary.updated == result.updated)
        },
        run.stage is Pruning && run.steps_to(SyncEvent::Pruned, next, action) ==> action
            == SyncAction::Finish(run.stage->Pruning_summary) && next.stage is Finished,
{
}

} // verus!
