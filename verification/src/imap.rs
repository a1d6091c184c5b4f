//! What mail servers and archives hand over.

use crate::mail_parser;
use crate::mail_parser::HeadersView;
use crate::mail_parser::ParsedMailHeaders;
use crate::text;
use vstd::prelude::*;

verus! {

/// One mail as a source delivers it. A mail without a number of its own has
/// number 0.
#[derive(Debug, Clone)]
pub struct RemoteMail {
    pub uid: u32,
    pub modseq: Option<u64>,
    pub flags: Vec<String>,
    pub raw: Vec<u8>,
}

/// The contents of a delivered mail.
#[verifier::ext_equal]
pub struct RemoteView {
    pub uid: u32,
    pub modseq: Option<u64>,
    pub flags: Seq<Seq<char>>,
    pub raw: Seq<u8>,
}

impl View for RemoteMail {
    type V = RemoteView;

    open spec fn view(&self) -> RemoteView {
        RemoteView {
            uid: self.uid,
            modseq: self.modseq,
            flags: text::texts(self.flags@),
            raw: self.raw@,
        }
    }
}

/// The contents of a list of delivered mails.
pub open spec fn remote_views(v: Seq<RemoteMail>) -> Seq<RemoteView> {
    Seq::new(v.len(), |i: int| v[i]@)
}

/// The state of a mailbox when it was opened.
#[derive(Debug, Clone, Copy, PartialEq, Eq, Structural)]
pub struct MailboxSnapshot {
    pub uidvalidity: u64,
    pub highest_uid: u32,
    pub highest_modseq: Option<u64>,
}

/// A delivered mail with its headers.
#[derive(Debug)]
pub struct RemoteMailEnvelope {
    pub remote: RemoteMail,
    pub parsed: ParsedMailHeaders,
}

/// The contents of an envelope.
#[verifier::ext_equal]
pub struct EnvelopeView {
    pub remote: RemoteView,
    pub parsed: HeadersView,
}

impl View for RemoteMailEnvelope {
    type V = EnvelopeView;

    open spec fn view(&self) -> EnvelopeView {
        EnvelopeView { remote: self.remote@, parsed: self.parsed@ }
    }
}

/// The contents of a list of envelopes.
pub open spec fn envelope_views(v: Seq<RemoteMailEnvelope>) -> Seq<EnvelopeView> {
    Seq::new(v.len(), |i: int| v[i]@)
}

/// The headers of a delivered mail.
pub open spec fn headers_of(raw: Seq<u8>, fallback: Seq<char>) -> HeadersView {
    mail_parser::mail_headers(text::lossy_text(raw), fallback)
}

/// The identifier of a mail that has none, unique within its mailbox: made from
/// its number, or from its place in the delivery.
pub open spec fn synthetic_id(mailbox: Seq<char>, uid: u32, index: int) -> Seq<char> {
    "synthetic-"@ + mailbox + "-"@ + text::decimal(
        if uid == 0 {
            index as nat
        } else {
            uid as nat
        },
    ) + "@local"@
}

/// The envelopes of a delivery.
pub open spec fn opened(mailbox: Seq<char>, mails: Seq<RemoteView>) -> Seq<EnvelopeView> {
    Seq::new(
        mails.len(),
        |i: int|
            EnvelopeView {
                remote: mails[i],
                parsed: headers_of(mails[i].raw, synthetic_id(mailbox, mails[i].uid, i)),
            },
    )
}

/// Makes the identifier of a mail that has none.
fn make_synthetic_id(mailbox: &str, uid: u32, index: usize) -> (r: String)
    ensures
        r@ == synthetic_id(mailbox@, uid, index as int),
{
    let mut out = text::chars_of("synthetic-");
    text::append_str(&mut out, mailbox);
    text::append_str(&mut out, "-");
    if uid == 0 {
        text::append_number(&mut out, index as u64);
    } else {
        text::append_number(&mut out, uid as u64);
    }
    text::append_str(&mut out, "@local");
    text::string_of(out.as_slice())
}

/// Reads the headers of a delivery.
pub fn parse_remote_messages(mailbox: &str, remote_messages: Vec<RemoteMail>) -> (r: Vec<
    RemoteMailEnvelope,
>)
    ensures
        envelope_views(r@) == opened(mailbox@, remote_views(remote_messages@)),
{
    let ghost mails = remote_views(remote_messages@);
    let ghost wanted = opened(mailbox@, mails);
    let ghost given = remote_messages@;
    let mut out: Vec<RemoteMailEnvelope> = Vec::new();
    for remote in it: remote_messages
        invariant
            it.seq() == given,
            mails == remote_views(given),
            wanted == opened(mailbox@, mails),
            out@.len() == it.index(),
            envelope_views(out@) == wanted.take(it.index()),
    {
        let ghost before = out@;
        let ghost at = it.index();
        let index = out.len();
        let fallback = make_synthetic_id(mailbox, remote.uid, index);
        let parsed = mail_parser::parse_headers(remote.raw.as_slice(), fallback);
        assert(mails[at] == remote@);
        let envelope = RemoteMailEnvelope { remote, parsed };
        out.push(envelope);
        assert(envelope_views(out@) == envelope_views(before).push(envelope@));
        assert(wanted[at] == envelope@);
        assert(wanted.take(at + 1) == wanted.take(at).push(wanted[at]));
    }
    assert(wanted.take(wanted.len() as int) == wanted);
    out
}

/// A delivery is opened mail by mail: each keeps its bytes, number, flags and
/// modification number, and its headers are those of its own text. A mail without
/// an identifier gets one from its mailbox and its number, or from its place where
/// it has no number.
pub proof fn law_deliveries_are_opened_mail_by_mail(
    mailbox: Seq<char>,
    mails: Seq<RemoteView>,
    i: int,
)
    requires
        0 <= i < mails.len(),
    ensures
        opened(mailbox, mails).len() == mails.len(),
        opened(mailbox, mails)[i].remote == mails[i],
        mails[i].uid != 0 ==> opened(mailbox, mails)[i].parsed == mail_parser::mail_headers(
            text::lossy_text(mails[i].raw),
            "synthetic-"@ + mailbox + "-"@ + text::decimal(mails[i].uid as nat) + "@local"@,
        ),
        mails[i].uid == 0 ==> opened(mailbox, mails)[i].parsed == mail_parser::mail_headers(
            text::lossy_text(mails[i].raw),
            "synthetic-"@ + mailbox + "-"@ + text::decimal(i as nat) + "@local"@,
        ),
{
}

/// A delivered mail is seen as it came, field by field.
pub proof fn law_deliveries_are_seen_as_they_came(mail: RemoteMail, envelope: RemoteMailEnvelope)
    ensures
        mail@.uid == mail.uid,
        mail@.modseq == mail.modseq,
        mail@.flags == text::texts(mail.flags@),
        mail@.raw == mail.raw@,
        envelope@.remote == envelope.remote@,
        envelope@.parsed == envelope.parsed@,
{
}

} // verus!
