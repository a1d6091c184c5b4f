//! Canonical patch-series catalog.
//!
//! Mail threading and patch-series identity are related, but they are not the
//! same graph. This module turns the mails of one source into series: one
//! group per change, with its revisions, their members and the follow-ups,
//! independent of the thread that a mail happens to stand in.

use crate::text;
use crate::text::CharClass;
use std::collections::BTreeMap;
use std::collections::HashSet;
use vstd::prelude::*;
use vstd::slice::slice_subrange;

verus! {

// ---------------------------------------------------------------------------
// Patch subjects
// ---------------------------------------------------------------------------

/// What the subject of a patch mail says of its place in a series.
#[derive(Debug)]
pub struct ParsedPatchSubject {
    pub version: u32,
    pub seq: u32,
    pub total: u32,
    pub title: String,
}

/// A patch subject with its title as text.
pub struct PatchSubject {
    pub version: u32,
    pub seq: u32,
    pub total: u32,
    pub title: Seq<char>,
}

impl View for ParsedPatchSubject {
    type V = PatchSubject;

    open spec fn view(&self) -> PatchSubject {
        PatchSubject {
            version: self.version,
            seq: self.seq,
            total: self.total,
            title: self.title@,
        }
    }
}

impl Clone for ParsedPatchSubject {
    fn clone(&self) -> (r: Self)
        ensures
            r == *self,
    {
        ParsedPatchSubject {
            version: self.version,
            seq: self.seq,
            total: self.total,
            title: self.title.clone(),
        }
    }
}

/// A subject without the reply and forward markers in front of it, and whether
/// there were any.
pub open spec fn unreplied(s: Seq<char>) -> (Seq<char>, bool)
    decreases s.len(),
{
    proof {
        reveal_strlit("re:");
        reveal_strlit("fwd:");
        text::lemma_skip_leading(s.skip(3), CharClass::Space);
        text::lemma_skip_leading(s.skip(4), CharClass::Space);
    }
    if text::opens_with(text::lowered(s), "re:"@) {
        (unreplied(text::trimmed_start(s.skip(3))).0, true)
    } else if text::opens_with(text::lowered(s), "fwd:"@) {
        (unreplied(text::trimmed_start(s.skip(4))).0, true)
    } else {
        (s, false)
    }
}

/// The revision that a word of a patch tag states, such as `v2`.
pub open spec fn tag_version(word: Seq<char>) -> Option<u32> {
    if word.len() > 0 && word[0] == 'v' {
        text::number(word.skip(1))
    } else {
        None
    }
}

/// The place in the series that a word of a patch tag states, such as `1/3`.
pub open spec fn tag_position(word: Seq<char>) -> Option<(u32, u32)> {
    match text::cut(word, CharClass::One('/')) {
        Some((left, right)) => match (text::number(left), text::number(right)) {
            (Some(seq), Some(total)) => Some((seq, total)),
            _ => None,
        },
        None => None,
    }
}

/// Version, sequence number and total that the words of a patch tag state.
/// A later word overrides an earlier one; each number is 1 by default.
pub open spec fn tag_numbers(tag: Seq<Seq<char>>) -> (u32, u32, u32)
    decreases tag.len(),
{
    if tag.len() == 0 {
        (1, 1, 1)
    } else {
        let (version, seq, total) = tag_numbers(tag.drop_last());
        let word = text::stripped(tag.last(), CharClass::TagMark);
        let version = match tag_version(word) {
            Some(n) => n,
            None => version,
        };
        match tag_position(word) {
            Some((a, b)) => (version, a, b),
            None => (version, seq, total),
        }
    }
}

/// What a patch subject states, and whether it is a reply or a forward. The
/// tag is what stands between the first character and the first closing
/// bracket; it has to mention a patch, and its numbers have to be possible.
pub open spec fn patch_subject(subject: Seq<char>) -> Option<(PatchSubject, bool)> {
    let (value, is_reply) = unreplied(text::trimmed(subject));
    match text::find(value, CharClass::One(']')) {
        Some(end) => if end < 1 || value[0] > '\x7f' {
            None
        } else {
            let tag = value.subrange(1, end);
            let (version, seq, total) = tag_numbers(text::words(tag));
            if !text::occurs_in(text::lowered(tag), "patch"@) || total == 0 || seq > total {
                None
            } else {
                Some(
                    (
                        PatchSubject { version, seq, total, title: text::trimmed(value.skip(end + 1)) },
                        is_reply,
                    ),
                )
            }
        },
        None => None,
    }
}

/// Drops the reply and forward markers in front of a subject.
fn drop_reply_markers<'a>(s: &'a [char]) -> (r: (&'a [char], bool))
    ensures
        (r.0@, r.1) == unreplied(s@),
{
    let re = text::chars_of("re:");
    let fwd = text::chars_of("fwd:");
    let mut value: &'a [char] = s;
    let mut is_reply = false;
    proof {
        reveal_strlit("re:");
        reveal_strlit("fwd:");
    }
    loop
        invariant
            re@ == "re:"@,
            fwd@ == "fwd:"@,
            re@.len() == 3,
            fwd@.len() == 4,
            unreplied(s@) == (unreplied(value@).0, is_reply || unreplied(value@).1),
        decreases value@.len(),
    {
        let low = text::lower(value);
        let n = value.len();
        if text::starts_with(low.as_slice(), re.as_slice()) {
            value = text::trim_start(slice_subrange(value, 3, n));
            is_reply = true;
        } else if text::starts_with(low.as_slice(), fwd.as_slice()) {
            value = text::trim_start(slice_subrange(value, 4, n));
            is_reply = true;
        } else {
            return (value, is_reply);
        }
    }
}

/// Reads the revision that a word of a patch tag states.
fn read_tag_version(word: &[char]) -> (r: Option<u32>)
    ensures
        r == tag_version(word@),
{
    if word.len() > 0 && word[0] == 'v' {
        text::parse_number(slice_subrange(word, 1, word.len()))
    } else {
        None
    }
}

/// Reads the place in the series that a word of a patch tag states.
fn read_tag_position(word: &[char]) -> (r: Option<(u32, u32)>)
    ensures
        r == tag_position(word@),
{
    match text::split_once(word, &CharClass::One('/')) {
        Some((left, right)) => match (text::parse_number(left), text::parse_number(right)) {
            (Some(seq), Some(total)) => Some((seq, total)),
            _ => None,
        },
        None => None,
    }
}

/// Reads the subject of a patch mail. The flag tells replies and forwards,
/// which belong to the discussion, from the patches themselves.
pub fn parse_subject(subject: &str) -> (r: Option<(ParsedPatchSubject, bool)>)
    ensures
        match r {
            Some((parsed, is_reply)) => patch_subject(subject@) == Some((parsed@, is_reply)),
            None => patch_subject(subject@) is None,
        },
{
    let all = text::chars_of(subject);
    let (value, is_reply) = drop_reply_markers(text::trim(all.as_slice()));
    let n = value.len();
    let end = match text::find_class(value, &CharClass::One(']')) {
        Some(end) => end,
        None => {
            return None;
        },
    };
    if end < 1 || value[0] > '\x7f' {
        return None;
    }
    let tag = slice_subrange(value, 1, end);
    let low = text::lower(tag);
    let wanted = text::chars_of("patch");
    if !text::contains(low.as_slice(), wanted.as_slice()) {
        return None;
    }
    let parts = text::split_words(tag);
    let ghost views = text::slices(parts@);
    let mut version: u32 = 1;
    let mut seq: u32 = 1;
    let mut total: u32 = 1;
    let mut i: usize = 0;
    assert(tag_numbers(views.take(0)) == (1u32, 1u32, 1u32));
    while i < parts.len()
        invariant
            i <= parts.len(),
            views == text::slices(parts@),
            (version, seq, total) == tag_numbers(views.take(i as int)),
        decreases parts.len() - i,
    {
        assert(views.take(i + 1).drop_last() == views.take(i as int));
        assert(views.take(i + 1).last() == parts@[i as int]@);
        let word = text::strip(parts[i], &CharClass::TagMark);
        if let Some(stated) = read_tag_version(word) {
            version = stated;
        }
        if let Some((left, right)) = read_tag_position(word) {
            seq = left;
            total = right;
        }
        i += 1;
    }
    assert(views.take(i as int) == views);
    if total == 0 || seq > total {
        return None;
    }
    let title = text::string_of(text::trim(slice_subrange(value, end + 1, n)));
    Some((ParsedPatchSubject { version, seq, total, title }, is_reply))
}

// ---------------------------------------------------------------------------
// Titles and keys
// ---------------------------------------------------------------------------

/// The first words of a title, in lower case: what rerolls of a series share.
pub open spec fn family_title(title: Seq<char>) -> Seq<char> {
    let all = text::words(title);
    let n = if all.len() < 3 {
        all.len() as int
    } else {
        3
    };
    text::lowered(text::joined(all.take(n), " "@))
}

/// A title with single spaces between its words.
pub open spec fn display_title(title: Seq<char>) -> Seq<char> {
    text::joined(text::words(title), " "@)
}

/// An author without the characters in which spellings of an address differ.
pub open spec fn author_key(author: Seq<char>) -> Seq<char> {
    text::without(text::lowered(author), CharClass::AuthorNoise)
}

/// The words without the symbols around them, in lower case, without those
/// of which nothing is left.
pub open spec fn plain_words(parts: Seq<Seq<char>>) -> Seq<Seq<char>>
    decreases parts.len(),
{
    if parts.len() == 0 {
        seq![]
    } else {
        let word = text::lowered(text::stripped(parts.last(), CharClass::Symbol));
        if word.len() > 0 {
            plain_words(parts.drop_last()).push(word)
        } else {
            plain_words(parts.drop_last())
        }
    }
}

/// Whether a title opens with the first two plain words of a cover title.
pub open spec fn opens_like(cover: Seq<char>, title: Seq<char>) -> bool {
    let wanted = plain_words(text::words(cover));
    let present = plain_words(text::words(title));
    &&& wanted.len() > 0
    &&& present.len() > 0 && present[0] == wanted[0]
    &&& wanted.len() > 1 ==> present.len() > 1 && present[1] == wanted[1]
}

/// The first cover, at or after index `from`, that a title opens like.
pub open spec fn matching_cover(
    covers: Seq<Seq<char>>,
    title: Seq<char>,
    from: int,
) -> Option<Seq<char>>
    decreases covers.len() - from,
{
    if from >= covers.len() {
        None
    } else if opens_like(covers[from], title) {
        Some(covers[from])
    } else {
        matching_cover(covers, title, from + 1)
    }
}

/// The title of the series that a mail belongs to, given the titles of its
/// author's cover letters: the first cover that the mail's title opens like,
/// or the only cover there is, or the title itself.
pub open spec fn series_title(title: Seq<char>, covers: Seq<Seq<char>>) -> Seq<char> {
    let unique = text::distinct(covers);
    match matching_cover(unique, title, 0) {
        Some(cover) => cover,
        None => if unique.len() == 1 {
            unique[0]
        } else {
            title
        },
    }
}

/// The 64-bit FNV-1a hash of bytes.
pub open spec fn fnv_bytes(bytes: Seq<u8>) -> u64
    decreases bytes.len(),
{
    if bytes.len() == 0 {
        0xcbf29ce484222325
    } else {
        (fnv_bytes(bytes.drop_last()) ^ bytes.last() as u64).wrapping_mul(0x100000001b3)
    }
}

/// The 64-bit FNV-1a hash of a text in UTF-8.
pub open spec fn fnv_text(s: Seq<char>) -> u64 {
    fnv_bytes(vstd::utf8::encode_utf8(s))
}

/// Keeps the first three words of a title, in lower case.
pub fn normalize_title(value: &str) -> (r: String)
    ensures
        r@ == family_title(value@),
{
    let all = text::chars_of(value);
    let parts = text::split_words(all.as_slice());
    let ghost views = text::slices(parts@);
    let mut first: Vec<&[char]> = Vec::new();
    let mut i: usize = 0;
    while i < parts.len() && i < 3
        invariant
            i <= parts.len(),
            i <= 3,
            views == text::slices(parts@),
            text::slices(first@) == views.take(i as int),
        decreases parts.len() - i,
    {
        let ghost before = first@;
        first.push(parts[i]);
        assert(text::slices(first@) == text::slices(before).push(parts@[i as int]@));
        assert(views.take(i + 1) == views.take(i as int).push(views[i as int]));
        i += 1;
    }
    let space = text::chars_of(" ");
    let line = text::join(&first, space.as_slice());
    let low = text::lower(line.as_slice());
    text::string_of(low.as_slice())
}

/// Puts single spaces between the words of a title.
pub fn normalize_display_title(value: &str) -> (r: String)
    ensures
        r@ == display_title(value@),
{
    let all = text::chars_of(value);
    let parts = text::split_words(all.as_slice());
    let space = text::chars_of(" ");
    let line = text::join(&parts, space.as_slice());
    text::string_of(line.as_slice())
}

/// Reduces an author to what identifies them.
pub fn normalize_author(value: &str) -> (r: String)
    ensures
        r@ == author_key(value@),
{
    let all = text::chars_of(value);
    let low = text::lower(all.as_slice());
    let key = text::remove_class(low.as_slice(), &CharClass::AuthorNoise);
    text::string_of(key.as_slice())
}

/// The plain words of a title.
fn title_words(value: &String) -> (r: Vec<String>)
    ensures
        text::texts(r@) == plain_words(text::words(value@)),
{
    let all = text::chars_of(value.as_str());
    let parts = text::split_words(all.as_slice());
    let ghost views = text::slices(parts@);
    let mut out: Vec<String> = Vec::new();
    let mut i: usize = 0;
    assert(text::texts(out@) == plain_words(views.take(0)));
    while i < parts.len()
        invariant
            i <= parts.len(),
            views == text::slices(parts@),
            text::texts(out@) == plain_words(views.take(i as int)),
        decreases parts.len() - i,
    {
        assert(views.take(i + 1).drop_last() == views.take(i as int));
        assert(views.take(i + 1).last() == parts@[i as int]@);
        let low = text::lower(text::strip(parts[i], &CharClass::Symbol));
        if low.len() > 0 {
            let ghost before = out@;
            let word = text::string_of(low.as_slice());
            out.push(word);
            assert(text::texts(out@) == text::texts(before).push(word@));
        }
        i += 1;
    }
    assert(views.take(i as int) == views);
    out
}

/// Decides whether a title, given by its plain words, opens like a cover.
fn title_opens_like(cover: &String, title: &String, present: &Vec<String>) -> (r: bool)
    requires
        text::texts(present@) == plain_words(text::words(title@)),
    ensures
        r == opens_like(cover@, title@),
{
    let wanted = title_words(cover);
    let ghost w = text::texts(wanted@);
    let ghost p = text::texts(present@);
    assert(w.len() == wanted@.len() && p.len() == present@.len());
    if wanted.len() == 0 || present.len() == 0 {
        return false;
    }
    assert(w[0] == wanted@[0]@ && p[0] == present@[0]@);
    if present[0] != wanted[0] {
        return false;
    }
    if wanted.len() > 1 {
        if present.len() < 2 {
            return false;
        }
        assert(w[1] == wanted@[1]@ && p[1] == present@[1]@);
        return present[1] == wanted[1];
    }
    true
}

/// Chooses the title of the series that a mail belongs to.
pub fn choose_series_title(display_title: &String, covers: &Vec<String>) -> (r: String)
    ensures
        r@ == series_title(display_title@, text::texts(covers@)),
{
    let unique = text::dedup(covers);
    let ghost views = text::texts(unique@);
    let present = title_words(display_title);
    let mut i: usize = 0;
    while i < unique.len()
        invariant
            i <= unique.len(),
            views == text::texts(unique@),
            views == text::distinct(text::texts(covers@)),
            text::texts(present@) == plain_words(text::words(display_title@)),
            matching_cover(views, display_title@, 0) == matching_cover(
                views,
                display_title@,
                i as int,
            ),
        decreases unique.len() - i,
    {
        assert(views[i as int] == unique@[i as int]@);
        if title_opens_like(&unique[i], display_title, &present) {
            return unique[i].clone();
        }
        i += 1;
    }
    if unique.len() == 1 {
        assert(views[0] == unique@[0]@);
        return unique[0].clone();
    }
    display_title.clone()
}

/// The 64-bit FNV-1a hash of a text.
pub fn fnv1a(value: &str) -> (r: u64)
    ensures
        r == fnv_text(value@),
{
    let bytes = value.as_bytes();
    let mut hash: u64 = 0xcbf29ce484222325;
    let mut i: usize = 0;
    while i < bytes.len()
        invariant
            i <= bytes.len(),
            hash == fnv_bytes(bytes@.take(i as int)),
        decreases bytes.len() - i,
    {
        assert(bytes@.take(i + 1).drop_last() == bytes@.take(i as int));
        hash = (hash ^ bytes[i] as u64).wrapping_mul(0x100000001b3);
        i += 1;
    }
    assert(bytes@.take(i as int) == bytes@);
    hash
}

// ---------------------------------------------------------------------------
// Grouping
// ---------------------------------------------------------------------------

/// One mail of a source, with what its subject says.
#[derive(Debug)]
pub struct CatalogMail {
    pub thread_id: i64,
    pub thread_key: Option<String>,
    pub mail_id: i64,
    pub change_id: Option<String>,
    pub subject: String,
    pub from_addr: String,
    pub parsed: ParsedPatchSubject,
    pub is_reply: bool,
}

/// The texts of a catalog mail.
pub struct MailView {
    pub thread_id: i64,
    pub thread_key: Option<Seq<char>>,
    pub mail_id: i64,
    pub change_id: Option<Seq<char>>,
    pub subject: Seq<char>,
    pub from_addr: Seq<char>,
    pub parsed: PatchSubject,
    pub is_reply: bool,
}

impl View for CatalogMail {
    type V = MailView;

    open spec fn view(&self) -> MailView {
        MailView {
            thread_id: self.thread_id,
            thread_key: text::opt_text(self.thread_key),
            mail_id: self.mail_id,
            change_id: text::opt_text(self.change_id),
            subject: self.subject@,
            from_addr: self.from_addr@,
            parsed: self.parsed@,
            is_reply: self.is_reply,
        }
    }
}

impl Clone for CatalogMail {
    fn clone(&self) -> (r: Self)
        ensures
            r == *self,
    {
        CatalogMail {
            thread_id: self.thread_id,
            thread_key: text::copy_opt(&self.thread_key),
            mail_id: self.mail_id,
            change_id: text::copy_opt(&self.change_id),
            subject: self.subject.clone(),
            from_addr: self.from_addr.clone(),
            parsed: self.parsed.clone(),
            is_reply: self.is_reply,
        }
    }
}

/// The texts of a list of catalog mails.
pub open spec fn mail_views(v: Seq<CatalogMail>) -> Seq<MailView> {
    Seq::new(v.len(), |i: int| v[i]@)
}

/// What the catalog takes a subject for. One that states no patch counts as a
/// reply outside every series.
pub open spec fn catalog_subject(subject: Seq<char>) -> (PatchSubject, bool) {
    match patch_subject(subject) {
        Some((parsed, is_reply)) => (parsed, is_reply),
        None => (PatchSubject { version: 1, seq: 0, total: 0, title: seq![] }, true),
    }
}

impl CatalogMail {
    /// The stored reading is the one that the subject has.
    pub open spec fn wf(&self) -> bool {
        (self.parsed@, self.is_reply) == catalog_subject(self.subject@)
    }

    /// Reads one row of a source.
    pub fn from_row(
        thread_id: i64,
        thread_key: Option<String>,
        mail_id: i64,
        change_id: Option<String>,
        subject: String,
        from_addr: String,
    ) -> (r: CatalogMail)
        ensures
            r.wf(),
            r.thread_id == thread_id,
            r.thread_key == thread_key,
            r.mail_id == mail_id,
            r.change_id == change_id,
            r.subject == subject,
            r.from_addr == from_addr,
    {
        let (parsed, is_reply) = match parse_subject(subject.as_str()) {
            Some((parsed, is_reply)) => (parsed, is_reply),
            None => {
                let none = ParsedPatchSubject {
                    version: 1,
                    seq: 0,
                    total: 0,
                    title: String::new(),
                };
                assert(none@.title == Seq::<char>::empty());
                (none, true)
            },
        };
        CatalogMail { thread_id, thread_key, mail_id, change_id, subject, from_addr, parsed, is_reply }
    }
}

/// A cover letter: the mail that announces a series.
pub open spec fn announces(mail: MailView) -> bool {
    !mail.is_reply && mail.parsed.seq == 0 && mail.parsed.total > 0
}

/// Thread, author and title of a cover letter.
pub struct CoverView {
    pub thread_id: i64,
    pub author: Seq<char>,
    pub title: Seq<char>,
}

/// The cover letters among the mails.
pub open spec fn covers_of(mails: Seq<MailView>) -> Seq<CoverView>
    decreases mails.len(),
{
    if mails.len() == 0 {
        seq![]
    } else {
        let before = covers_of(mails.drop_last());
        let mail = mails.last();
        if announces(mail) {
            before.push(
                CoverView {
                    thread_id: mail.thread_id,
                    author: author_key(mail.from_addr),
                    title: display_title(mail.parsed.title),
                },
            )
        } else {
            before
        }
    }
}

/// The title of the first cover letter of a thread.
pub open spec fn thread_title(covers: Seq<CoverView>, thread_id: i64) -> Option<Seq<char>>
    decreases covers.len(),
{
    if covers.len() == 0 {
        None
    } else {
        match thread_title(covers.drop_last(), thread_id) {
            Some(title) => Some(title),
            None => if covers.last().thread_id == thread_id {
                Some(covers.last().title)
            } else {
                None
            },
        }
    }
}

/// The titles of an author's cover letters.
pub open spec fn author_titles(covers: Seq<CoverView>, author: Seq<char>) -> Seq<Seq<char>>
    decreases covers.len(),
{
    if covers.len() == 0 {
        seq![]
    } else {
        let before = author_titles(covers.drop_last(), author);
        if covers.last().author == author {
            before.push(covers.last().title)
        } else {
            before
        }
    }
}

/// The change identifiers of the mails, in lower case.
pub open spec fn change_ids_of(mails: Seq<MailView>) -> Seq<Seq<char>>
    decreases mails.len(),
{
    if mails.len() == 0 {
        seq![]
    } else {
        let before = change_ids_of(mails.drop_last());
        match mails.last().change_id {
            Some(id) => before.push(text::lowered(id)),
            None => before,
        }
    }
}

/// How often an identifier stands in a list.
pub open spec fn occurrences(ids: Seq<Seq<char>>, id: Seq<char>) -> nat
    decreases ids.len(),
{
    if ids.len() == 0 {
        0
    } else {
        occurrences(ids.drop_last(), id) + if ids.last() == id {
            1nat
        } else {
            0nat
        }
    }
}

/// The title of the series of a mail among `mails`.
pub open spec fn mail_series_title(
    mails: Seq<MailView>,
    mail: MailView,
    title: Seq<char>,
) -> Seq<char> {
    let covers = covers_of(mails);
    let shown = match thread_title(covers, mail.thread_id) {
        Some(cover) => cover,
        None => display_title(title),
    };
    series_title(shown, author_titles(covers, author_key(mail.from_addr)))
}

/// The key of the series of a mail among `mails`. A change identifier counts
/// only where more than one mail carries it; otherwise the author and the
/// first words of the title tell series apart.
pub open spec fn series_key(mails: Seq<MailView>, mail: MailView, title: Seq<char>) -> Seq<char> {
    let family = "family:"@ + author_key(mail.from_addr) + "|"@ + family_title(
        mail_series_title(mails, mail, title),
    );
    match mail.change_id {
        Some(id) => if occurrences(change_ids_of(mails), text::lowered(id)) > 1 {
            "change:"@ + text::lowered(id)
        } else {
            family
        },
        None => family,
    }
}

/// The stable public key of a series.
pub open spec fn change_key_of(key: Seq<char>) -> Seq<char> {
    "change:"@ + text::hex_word(fnv_text(key))
}

/// One revision of a series: its members by sequence number and its
/// follow-ups by mail.
#[derive(Debug)]
pub struct RevisionGroup {
    pub version: u32,
    pub expected_total: u32,
    pub members: BTreeMap<u32, CatalogMail>,
    pub followups: BTreeMap<i64, CatalogMail>,
}

/// The texts of a revision.
#[verifier::ext_equal]
pub struct RevisionView {
    pub version: u32,
    pub expected_total: u32,
    pub members: Map<u32, MailView>,
    pub followups: Map<i64, MailView>,
}

impl View for RevisionGroup {
    type V = RevisionView;

    open spec fn view(&self) -> RevisionView {
        RevisionView {
            version: self.version,
            expected_total: self.expected_total,
            members: self.members@.map_values(|m: CatalogMail| m@),
            followups: self.followups@.map_values(|m: CatalogMail| m@),
        }
    }
}

/// One series: everything that shares a key.
#[derive(Debug)]
pub struct Group {
    pub key: String,
    pub change_key: String,
    pub change_id: Option<String>,
    pub subject: String,
    pub author: String,
    pub thread_key: Option<String>,
    pub revisions: BTreeMap<u32, RevisionGroup>,
}

/// The texts of a series.
#[verifier::ext_equal]
pub struct GroupView {
    pub key: Seq<char>,
    pub change_key: Seq<char>,
    pub change_id: Option<Seq<char>>,
    pub subject: Seq<char>,
    pub author: Seq<char>,
    pub thread_key: Option<Seq<char>>,
    pub revisions: Map<u32, RevisionView>,
}

impl View for Group {
    type V = GroupView;

    open spec fn view(&self) -> GroupView {
        GroupView {
            key: self.key@,
            change_key: self.change_key@,
            change_id: text::opt_text(self.change_id),
            subject: self.subject@,
            author: self.author@,
            thread_key: text::opt_text(self.thread_key),
            revisions: self.revisions@.map_values(|r: RevisionGroup| r@),
        }
    }
}

/// The texts of a list of series.
pub open spec fn group_views(v: Seq<Group>) -> Seq<GroupView> {
    Seq::new(v.len(), |i: int| v[i]@)
}

/// A revision that nothing was filed under yet.
pub open spec fn empty_revision(version: u32) -> RevisionView {
    RevisionView { version, expected_total: 0, members: Map::empty(), followups: Map::empty() }
}

/// A revision with one more mail. The first patch with a sequence number is
/// its member; a reply is a follow-up.
pub open spec fn with_mail(
    revision: RevisionView,
    mail: MailView,
    parsed: PatchSubject,
) -> RevisionView {
    RevisionView {
        version: revision.version,
        expected_total: if revision.expected_total < parsed.total {
            parsed.total
        } else {
            revision.expected_total
        },
        members: if mail.is_reply || revision.members.contains_key(parsed.seq) {
            revision.members
        } else {
            revision.members.insert(parsed.seq, mail)
        },
        followups: if mail.is_reply {
            revision.followups.insert(mail.mail_id, mail)
        } else {
            revision.followups
        },
    }
}

/// A series with one more mail. Its change identifier stands as long as every
/// mail agrees on it; its thread is the first one known.
pub open spec fn group_with(group: GroupView, mail: MailView, parsed: PatchSubject) -> GroupView {
    let revision = if group.revisions.contains_key(parsed.version) {
        group.revisions[parsed.version]
    } else {
        empty_revision(parsed.version)
    };
    GroupView {
        change_id: if group.change_id == mail.change_id {
            group.change_id
        } else {
            None
        },
        thread_key: if group.thread_key is None {
            mail.thread_key
        } else {
            group.thread_key
        },
        revisions: group.revisions.insert(parsed.version, with_mail(revision, mail, parsed)),
        ..group
    }
}

/// A series that its first mail opens.
pub open spec fn opened_group(
    mails: Seq<MailView>,
    mail: MailView,
    parsed: PatchSubject,
) -> GroupView {
    let key = series_key(mails, mail, parsed.title);
    GroupView {
        key,
        change_key: change_key_of(key),
        change_id: mail.change_id,
        subject: mail_series_title(mails, mail, parsed.title),
        author: mail.from_addr,
        thread_key: mail.thread_key,
        revisions: Map::empty(),
    }
}

/// The index of the series with a key, at or after index `from`.
pub open spec fn group_index(groups: Seq<GroupView>, key: Seq<char>, from: int) -> Option<int>
    decreases groups.len() - from,
{
    if from >= groups.len() {
        None
    } else if groups[from].key == key {
        Some(from)
    } else {
        group_index(groups, key, from + 1)
    }
}

/// The series of the first `n` of the mails, in the order in which they
/// appear. A mail whose subject states no patch belongs to none.
pub open spec fn grouped(mails: Seq<MailView>, n: int) -> Seq<GroupView>
    decreases n,
{
    if n <= 0 {
        seq![]
    } else {
        let before = grouped(mails, n - 1);
        let mail = mails[n - 1];
        match patch_subject(mail.subject) {
            Some((parsed, _)) => {
                let key = series_key(mails, mail, parsed.title);
                match group_index(before, key, 0) {
                    Some(i) => before.update(i, group_with(before[i], mail, parsed)),
                    None => before.push(
                        group_with(opened_group(mails, mail, parsed), mail, parsed),
                    ),
                }
            },
            None => before,
        }
    }
}

/// The series of the mails.
pub open spec fn series_of(mails: Seq<MailView>) -> Seq<GroupView> {
    grouped(mails, mails.len() as int)
}

/// One cover letter.
struct Cover {
    thread_id: i64,
    author: String,
    title: String,
}

impl View for Cover {
    type V = CoverView;

    closed spec fn view(&self) -> CoverView {
        CoverView { thread_id: self.thread_id, author: self.author@, title: self.title@ }
    }
}

/// The texts of a list of cover letters.
spec fn cover_views(v: Seq<Cover>) -> Seq<CoverView> {
    Seq::new(v.len(), |i: int| v[i]@)
}

/// Collects the cover letters.
fn collect_covers(mails: &Vec<CatalogMail>) -> (r: Vec<Cover>)
    ensures
        cover_views(r@) == covers_of(mail_views(mails@)),
{
    let ghost views = mail_views(mails@);
    let mut out: Vec<Cover> = Vec::new();
    let mut i: usize = 0;
    assert(cover_views(out@) == covers_of(views.take(0)));
    while i < mails.len()
        invariant
            i <= mails.len(),
            views == mail_views(mails@),
            cover_views(out@) == covers_of(views.take(i as int)),
        decreases mails.len() - i,
    {
        assert(views.take(i + 1).drop_last() == views.take(i as int));
        assert(views.take(i + 1).last() == mails@[i as int]@);
        let mail = &mails[i];
        if !mail.is_reply && mail.parsed.seq == 0 && mail.parsed.total > 0 {
            let ghost before = out@;
            let cover = Cover {
                thread_id: mail.thread_id,
                author: normalize_author(mail.from_addr.as_str()),
                title: normalize_display_title(mail.parsed.title.as_str()),
            };
            out.push(cover);
            assert(cover_views(out@) == cover_views(before).push(cover@));
        }
        i += 1;
    }
    assert(views.take(i as int) == views);
    out
}

/// Finds the title of the first cover letter of a thread.
fn find_thread_title(covers: &Vec<Cover>, thread_id: i64) -> (r: Option<String>)
    ensures
        text::opt_text(r) == thread_title(cover_views(covers@), thread_id),
{
    let ghost views = cover_views(covers@);
    let mut i: usize = 0;
    while i < covers.len()
        invariant
            i <= covers.len(),
            views == cover_views(covers@),
            thread_title(views.take(i as int), thread_id) is None,
        decreases covers.len() - i,
    {
        assert(views.take(i + 1).drop_last() == views.take(i as int));
        assert(views.take(i + 1).last() == covers@[i as int]@);
        if covers[i].thread_id == thread_id {
            proof {
                lemma_thread_title_stays(views, thread_id, i + 1);
            }
            return Some(covers[i].title.clone());
        }
        i += 1;
    }
    assert(views.take(i as int) == views);
    None
}

/// A thread keeps the first title that it got.
proof fn lemma_thread_title_stays(covers: Seq<CoverView>, thread_id: i64, n: int)
    requires
        0 <= n <= covers.len(),
        thread_title(covers.take(n), thread_id) is Some,
    ensures
        thread_title(covers, thread_id) == thread_title(covers.take(n), thread_id),
    decreases covers.len() - n,
{
    if n < covers.len() {
        assert(covers.take(n + 1).drop_last() == covers.take(n));
        lemma_thread_title_stays(covers, thread_id, n + 1);
    } else {
        assert(covers.take(n) == covers);
    }
}

/// Collects the titles of an author's cover letters.
fn find_author_titles(covers: &Vec<Cover>, author: &String) -> (r: Vec<String>)
    ensures
        text::texts(r@) == author_titles(cover_views(covers@), author@),
{
    let ghost views = cover_views(covers@);
    let mut out: Vec<String> = Vec::new();
    let mut i: usize = 0;
    assert(text::texts(out@) == author_titles(views.take(0), author@));
    while i < covers.len()
        invariant
            i <= covers.len(),
            views == cover_views(covers@),
            text::texts(out@) == author_titles(views.take(i as int), author@),
        decreases covers.len() - i,
    {
        assert(views.take(i + 1).drop_last() == views.take(i as int));
        assert(views.take(i + 1).last() == covers@[i as int]@);
        if covers[i].author == *author {
            let ghost before = out@;
            out.push(covers[i].title.clone());
            assert(text::texts(out@) == text::texts(before).push(covers@[i as int].title@));
        }
        i += 1;
    }
    assert(views.take(i as int) == views);
    out
}

/// A change identifier in lower case.
fn lower_id(id: &String) -> (r: String)
    ensures
        r@ == text::lowered(id@),
{
    let all = text::chars_of(id.as_str());
    let low = text::lower(all.as_slice());
    text::string_of(low.as_slice())
}

/// Collects the change identifiers in lower case.
fn collect_change_ids(mails: &Vec<CatalogMail>) -> (r: Vec<String>)
    ensures
        text::texts(r@) == change_ids_of(mail_views(mails@)),
{
    let ghost views = mail_views(mails@);
    let mut out: Vec<String> = Vec::new();
    let mut i: usize = 0;
    assert(text::texts(out@) == change_ids_of(views.take(0)));
    while i < mails.len()
        invariant
            i <= mails.len(),
            views == mail_views(mails@),
            text::texts(out@) == change_ids_of(views.take(i as int)),
        decreases mails.len() - i,
    {
        assert(views.take(i + 1).drop_last() == views.take(i as int));
        assert(views.take(i + 1).last() == mails@[i as int]@);
        match &mails[i].change_id {
            Some(id) => {
                let ghost before = out@;
                let low = lower_id(id);
                out.push(low);
                assert(text::texts(out@) == text::texts(before).push(low@));
            },
            None => {},
        }
        i += 1;
    }
    assert(views.take(i as int) == views);
    out
}

/// Decides whether an identifier stands in a list more than once.
fn occurs_repeatedly(ids: &Vec<String>, id: &String) -> (r: bool)
    ensures
        r == (occurrences(text::texts(ids@), id@) > 1),
{
    let ghost views = text::texts(ids@);
    let mut count: usize = 0;
    let mut i: usize = 0;
    assert(occurrences(views.take(0), id@) == 0);
    while i < ids.len()
        invariant
            i <= ids.len(),
            views == text::texts(ids@),
            count == occurrences(views.take(i as int), id@),
            count <= i,
        decreases ids.len() - i,
    {
        assert(views.take(i + 1).drop_last() == views.take(i as int));
        assert(views.take(i + 1).last() == ids@[i as int]@);
        if ids[i] == *id {
            count += 1;
        }
        i += 1;
    }
    assert(views.take(i as int) == views);
    count > 1
}

/// Finds the title of the series of a mail.
fn find_series_title(
    covers: &Vec<Cover>,
    mail: &CatalogMail,
    title: &String,
    author: &String,
    mails: Ghost<Seq<MailView>>,
) -> (r: String)
    requires
        cover_views(covers@) == covers_of(mails@),
        author@ == author_key(mail.from_addr@),
    ensures
        r@ == mail_series_title(mails@, mail@, title@),
{
    let shown = match find_thread_title(covers, mail.thread_id) {
        Some(cover) => cover,
        None => normalize_display_title(title.as_str()),
    };
    let titles = find_author_titles(covers, author);
    choose_series_title(&shown, &titles)
}

/// Finds the key of the series of a mail.
fn find_series_key(
    ids: &Vec<String>,
    mail: &CatalogMail,
    series_title: &String,
    title: &String,
    author: &String,
    mails: Ghost<Seq<MailView>>,
) -> (r: String)
    requires
        text::texts(ids@) == change_ids_of(mails@),
        author@ == author_key(mail.from_addr@),
        series_title@ == mail_series_title(mails@, mail@, title@),
    ensures
        r@ == series_key(mails@, mail@, title@),
{
    if let Some(id) = &mail.change_id {
        let low = lower_id(id);
        if occurs_repeatedly(ids, &low) {
            let low_chars = text::chars_of(low.as_str());
            return text::labelled("change:", low_chars.as_slice());
        }
    }
    let mut key = text::chars_of("family:");
    let author_chars = text::chars_of(author.as_str());
    text::append(&mut key, author_chars.as_slice());
    let bar = text::chars_of("|");
    text::append(&mut key, bar.as_slice());
    let family = normalize_title(series_title.as_str());
    let family_chars = text::chars_of(family.as_str());
    text::append(&mut key, family_chars.as_slice());
    text::string_of(key.as_slice())
}

/// Finds the series with a key.
fn find_group(groups: &Vec<Group>, key: &String) -> (r: Option<usize>)
    ensures
        match r {
            Some(i) => i < groups@.len() && group_index(group_views(groups@), key@, 0) == Some(
                i as int,
            ),
            None => group_index(group_views(groups@), key@, 0) is None,
        },
{
    let ghost views = group_views(groups@);
    let mut i: usize = 0;
    while i < groups.len()
        invariant
            i <= groups.len(),
            views == group_views(groups@),
            group_index(views, key@, 0) == group_index(views, key@, i as int),
        decreases groups.len() - i,
    {
        assert(views[i as int] == groups@[i as int]@);
        if groups[i].key == *key {
            return Some(i);
        }
        i += 1;
    }
    None
}

impl RevisionGroup {
    /// A revision without mails.
    fn empty(version: u32) -> (r: RevisionGroup)
        ensures
            r@ == empty_revision(version),
    {
        let r = RevisionGroup {
            version,
            expected_total: 0,
            members: BTreeMap::new(),
            followups: BTreeMap::new(),
        };
        assert(r@ == empty_revision(version));
        r
    }

    /// Files one mail under the revision.
    fn add(&mut self, mail: CatalogMail, seq: u32, total: u32, parsed: Ghost<PatchSubject>)
        requires
            parsed@.seq == seq,
            parsed@.total == total,
        ensures
            final(self)@ == with_mail(old(self)@, mail@, parsed@),
    {
        broadcast use vstd::std_specs::btree::group_btree_axioms;
        broadcast use vstd::laws_cmp::group_laws_cmp;

        let ghost was = self@;
        if self.expected_total < total {
            self.expected_total = total;
        }
        if mail.is_reply {
            self.followups.insert(mail.mail_id, mail);
        } else if !self.members.contains_key(&seq) {
            self.members.insert(seq, mail);
        }
        assert(self@ == with_mail(was, mail@, parsed@));
    }
}

impl Group {
    /// Files one mail under the series.
    fn add(&mut self, mail: CatalogMail, parsed: &ParsedPatchSubject)
        ensures
            final(self)@ == group_with(old(self)@, mail@, parsed@),
    {
        broadcast use vstd::std_specs::btree::group_btree_axioms;
        broadcast use vstd::laws_cmp::group_laws_cmp;

        let ghost was = self@;
        let ghost revisions = self.revisions@;
        let ghost view = |r: RevisionGroup| r@;
        let version = parsed.version;
        if !text::same_opt(&self.change_id, &mail.change_id) {
            self.change_id = None;
        }
        if self.thread_key.is_none() {
            self.thread_key = text::copy_opt(&mail.thread_key);
        }
        let ghost mail_view = mail@;
        let mut revision = match self.revisions.remove(&version) {
            Some(revision) => revision,
            None => RevisionGroup::empty(version),
        };
        let ghost base = revision@;
        assert(base == if was.revisions.contains_key(version) {
            was.revisions[version]
        } else {
            empty_revision(version)
        });
        revision.add(mail, parsed.seq, parsed.total, Ghost(parsed@));
        let ghost filed = revision;
        self.revisions.insert(version, revision);
        assert(self.revisions@ == revisions.remove(version).insert(version, filed));
        assert(self.revisions@.map_values(view) == was.revisions.insert(version, filed@));
        assert(self@ == group_with(was, mail_view, parsed@));
    }
}

/// Sorts the mails of a source into series. The series come in the order of
/// their first mail.
pub fn build_groups(rows: Vec<CatalogMail>) -> (r: Vec<Group>)
    ensures
        group_views(r@) == series_of(mail_views(rows@)),
{
    let ghost views = mail_views(rows@);
    let covers = collect_covers(&rows);
    let ids = collect_change_ids(&rows);
    let mut groups: Vec<Group> = Vec::new();
    let mut i: usize = 0;
    assert(group_views(groups@) == grouped(views, 0));
    while i < rows.len()
        invariant
            i <= rows.len(),
            views == mail_views(rows@),
            cover_views(covers@) == covers_of(views),
            text::texts(ids@) == change_ids_of(views),
            group_views(groups@) == grouped(views, i as int),
        decreases rows.len() - i,
    {
        let row = &rows[i];
        assert(views[i as int] == row@);
        if let Some((parsed, _)) = parse_subject(row.subject.as_str()) {
            let author = normalize_author(row.from_addr.as_str());
            let title = find_series_title(&covers, row, &parsed.title, &author, Ghost(views));
            let key = find_series_key(&ids, row, &title, &parsed.title, &author, Ghost(views));
            let ghost before = groups@;
            match find_group(&groups, &key) {
                Some(at) => {
                    groups[at].add(row.clone(), &parsed);
                    assert(group_views(groups@) == group_views(before).update(
                        at as int,
                        group_with(group_views(before)[at as int], row@, parsed@),
                    ));
                },
                None => {
                    let key_hash = fnv1a(key.as_str());
                    let word = text::hex_chars(key_hash);
                    let mut group = Group {
                        key,
                        change_key: text::labelled("change:", word.as_slice()),
                        change_id: text::copy_opt(&row.change_id),
                        subject: title,
                        author: row.from_addr.clone(),
                        thread_key: text::copy_opt(&row.thread_key),
                        revisions: BTreeMap::new(),
                    };
                    assert(group@ == opened_group(views, row@, parsed@));
                    group.add(row.clone(), &parsed);
                    groups.push(group);
                    assert(group_views(groups@) == group_views(before).push(group@));
                },
            }
        }
        i += 1;
    }
    groups
}

// ---------------------------------------------------------------------------
// Refreshing the catalog
// ---------------------------------------------------------------------------

/// One member row of a revision.
#[derive(Debug)]
pub struct MemberRow {
    pub seq: u32,
    pub total: u32,
    pub mail_id: i64,
    pub subject: String,
    pub is_cover: bool,
}

/// One follow-up row of a revision.
#[derive(Debug)]
pub struct FollowupRow {
    pub mail_id: i64,
    pub member_seq: Option<u32>,
}

/// One revision row of a series, with its members and follow-ups.
#[derive(Debug)]
pub struct RevisionRow {
    pub revision: u32,
    pub expected_total: u32,
    pub cover_mail_id: Option<i64>,
    pub completeness: &'static str,
    pub fingerprint: String,
    pub members: Vec<MemberRow>,
    pub followups: Vec<FollowupRow>,
}

/// One series row with its revisions.
#[derive(Debug)]
pub struct ChangeRow {
    pub change_key: String,
    pub change_id: Option<String>,
    pub subject: String,
    pub author: String,
    pub thread_key: Option<String>,
    pub revisions: Vec<RevisionRow>,
}

/// What a refresh of the catalog writes and removes.
#[derive(Debug)]
pub struct RefreshPlan {
    pub changes: Vec<ChangeRow>,
    pub stale: Vec<String>,
    pub persisted: usize,
}

/// How far a revision is complete: whether every announced patch is there.
pub open spec fn completeness_of(revision: RevisionView) -> Seq<char> {
    if revision.expected_total == 0 {
        "ambiguous"@
    } else if forall|seq: u32|
        1 <= seq <= revision.expected_total ==> revision.members.contains_key(seq) {
        "complete"@
    } else {
        "partial"@
    }
}

/// Whether the rows are the members in ascending order.
pub open spec fn lists_members(rows: Seq<MemberRow>, members: Map<u32, MailView>) -> bool {
    &&& forall|i: int, j: int| 0 <= i < j < rows.len() ==> rows[i].seq < rows[j].seq
    &&& forall|i: int|
        0 <= i < rows.len() ==> {
            let row = #[trigger] rows[i];
            let mail = members[row.seq];
            &&& members.contains_key(row.seq)
            &&& row.total == mail.parsed.total
            &&& row.mail_id == mail.mail_id
            &&& row.subject@ == mail.subject
            &&& row.is_cover == (row.seq == 0)
        }
    &&& forall|seq: u32| #[trigger]
        members.contains_key(seq) ==> exists|i: int|
            0 <= i < rows.len() && (#[trigger] rows[i]).seq == seq
}

/// Whether the rows are the follow-ups in ascending order.
pub open spec fn lists_followups(rows: Seq<FollowupRow>, followups: Map<i64, MailView>) -> bool {
    &&& forall|i: int, j: int| 0 <= i < j < rows.len() ==> rows[i].mail_id < rows[j].mail_id
    &&& forall|i: int|
        0 <= i < rows.len() ==> {
            let row = #[trigger] rows[i];
            let seq = followups[row.mail_id].parsed.seq;
            &&& followups.contains_key(row.mail_id)
            &&& row.member_seq == if seq == 0 {
                None
            } else {
                Some(seq)
            }
        }
    &&& forall|mail_id: i64| #[trigger]
        followups.contains_key(mail_id) ==> exists|i: int|
            0 <= i < rows.len() && (#[trigger] rows[i]).mail_id == mail_id
}

/// Whether the row records a revision of a series.
pub open spec fn records_revision(
    row: RevisionRow,
    change_key: Seq<char>,
    revision: RevisionView,
) -> bool {
    &&& row.expected_total == revision.expected_total
    &&& row.cover_mail_id == if revision.members.contains_key(0) {
        Some(revision.members[0].mail_id)
    } else {
        None
    }
    &&& row.completeness@ == completeness_of(revision)
    &&& row.fingerprint@ == change_key + ":"@ + text::decimal(row.revision as nat)
    &&& lists_members(row.members@, revision.members)
    &&& lists_followups(row.followups@, revision.followups)
}

/// Whether the row records a series, its revisions in ascending order.
pub open spec fn records_change(row: ChangeRow, group: GroupView) -> bool {
    let rows = row.revisions@;
    &&& row.change_key@ == group.change_key
    &&& text::opt_text(row.change_id) == group.change_id
    &&& row.subject@ == group.subject
    &&& row.author@ == group.author
    &&& text::opt_text(row.thread_key) == group.thread_key
    &&& forall|i: int, j: int| 0 <= i < j < rows.len() ==> rows[i].revision < rows[j].revision
    &&& forall|i: int|
        0 <= i < rows.len() ==> {
            let revision = (#[trigger] rows[i]).revision;
            &&& group.revisions.contains_key(revision)
            &&& records_revision(rows[i], group.change_key, group.revisions[revision])
        }
    &&& forall|version: u32| #[trigger]
        group.revisions.contains_key(version) ==> exists|i: int|
            0 <= i < rows.len() && (#[trigger] rows[i]).revision == version
}

/// How many revisions the rows record.
pub open spec fn revision_count(rows: Seq<ChangeRow>) -> nat
    decreases rows.len(),
{
    if rows.len() == 0 {
        0
    } else {
        revision_count(rows.drop_last()) + rows.last().revisions@.len()
    }
}

/// The catalog keys that no series of the source has any more.
pub open spec fn stale_keys(existing: Seq<Seq<char>>, groups: Seq<GroupView>) -> Seq<Seq<char>>
    decreases existing.len(),
{
    if existing.len() == 0 {
        seq![]
    } else {
        let before = stale_keys(existing.drop_last(), groups);
        if has_change_key(groups, existing.last()) {
            before
        } else {
            before.push(existing.last())
        }
    }
}

/// Whether a series has a change key.
pub open spec fn has_change_key(groups: Seq<GroupView>, change_key: Seq<char>) -> bool {
    exists|i: int| 0 <= i < groups.len() && (#[trigger] groups[i]).change_key == change_key
}

/// The keys of a map from sequence numbers, in ascending order.
fn sequence_keys<T>(map: &BTreeMap<u32, T>) -> (r: Vec<u32>)
    ensures
        forall|i: int, j: int| 0 <= i < j < r@.len() ==> r@[i] < r@[j],
        forall|k: u32| map@.contains_key(k) <==> r@.contains(k),
        r@.len() == map@.dom().len(),
{
    broadcast use vstd::std_specs::btree::group_btree_axioms;
    broadcast use vstd::laws_cmp::group_laws_cmp;

    let entries = map.iter();
    let ghost items = vstd::std_specs::iter::IteratorSpec::remaining(&entries);
    let ghost keys = items.map_values(|kv: (&u32, &T)| *kv.0);
    proof {
        assert(exists|s: Seq<u32>|
            #[trigger] vstd::std_specs::btree::increasing_seq(s) && s =~= keys);
        assert(vstd::std_specs::btree::increasing_seq(keys));
    }
    let mut out: Vec<u32> = Vec::new();
    for entry in it: entries
        invariant
            it.seq() == items,
            keys == items.map_values(|kv: (&u32, &T)| *kv.0),
            out@ == keys.take(it.index()),
    {
        out.push(*entry.0);
    }
    proof {
        assert(out@ == keys);
        assert forall|i: int, j: int| 0 <= i < j < out@.len() implies out@[i] < out@[j] by {
            assert(vstd::laws_cmp::obeys_cmp::<u32>());
            assert(vstd::std_specs::cmp::OrdSpec::cmp_spec(&keys[i], &keys[j]) is Less);
        }
        assert forall|k: u32| map@.contains_key(k) <==> out@.contains(k) by {
            if map@.contains_key(k) {
                assert(items.contains((&k, &map@[k])));
                let i = choose|i: int| 0 <= i < items.len() && items[i] == (&k, &map@[k]);
                assert(keys[i] == k);
            }
            if out@.contains(k) {
                let i = choose|i: int| 0 <= i < keys.len() && keys[i] == k;
                assert(map@.contains_key(*items[i].0));
            }
        }
    }
    out
}

/// The keys of a map from mails, in ascending order.
fn mail_keys<T>(map: &BTreeMap<i64, T>) -> (r: Vec<i64>)
    ensures
        forall|i: int, j: int| 0 <= i < j < r@.len() ==> r@[i] < r@[j],
        forall|k: i64| map@.contains_key(k) <==> r@.contains(k),
        r@.len() == map@.dom().len(),
{
    broadcast use vstd::std_specs::btree::group_btree_axioms;
    broadcast use vstd::laws_cmp::group_laws_cmp;

    let entries = map.iter();
    let ghost items = vstd::std_specs::iter::IteratorSpec::remaining(&entries);
    let ghost keys = items.map_values(|kv: (&i64, &T)| *kv.0);
    proof {
        assert(exists|s: Seq<i64>|
            #[trigger] vstd::std_specs::btree::increasing_seq(s) && s =~= keys);
        assert(vstd::std_specs::btree::increasing_seq(keys));
    }
    let mut out: Vec<i64> = Vec::new();
    for entry in it: entries
        invariant
            it.seq() == items,
            keys == items.map_values(|kv: (&i64, &T)| *kv.0),
            out@ == keys.take(it.index()),
    {
        out.push(*entry.0);
    }
    proof {
        assert(out@ == keys);
        assert forall|i: int, j: int| 0 <= i < j < out@.len() implies out@[i] < out@[j] by {
            assert(vstd::laws_cmp::obeys_cmp::<i64>());
            assert(vstd::std_specs::cmp::OrdSpec::cmp_spec(&keys[i], &keys[j]) is Less);
        }
        assert forall|k: i64| map@.contains_key(k) <==> out@.contains(k) by {
            if map@.contains_key(k) {
                assert(items.contains((&k, &map@[k])));
                let i = choose|i: int| 0 <= i < items.len() && items[i] == (&k, &map@[k]);
                assert(keys[i] == k);
            }
            if out@.contains(k) {
                let i = choose|i: int| 0 <= i < keys.len() && keys[i] == k;
                assert(map@.contains_key(*items[i].0));
            }
        }
    }
    out
}

/// Rates how far a revision is complete.
pub fn completeness(revision: &RevisionGroup) -> (r: &'static str)
    ensures
        r@ == completeness_of(revision@),
{
    broadcast use vstd::std_specs::btree::group_btree_axioms;
    broadcast use vstd::laws_cmp::group_laws_cmp;

    let total = revision.expected_total;
    if total == 0 {
        return "ambiguous";
    }
    let mut seq: u32 = 0;
    while seq < total
        invariant
            seq <= total,
            total == revision.expected_total,
            total > 0,
            forall|k: u32| 1 <= k <= seq ==> revision@.members.contains_key(k),
        decreases total - seq,
    {
        seq += 1;
        if !revision.members.contains_key(&seq) {
            assert(!revision@.members.contains_key(seq));
            return "partial";
        }
    }
    "complete"
}

/// Lists the members of a revision in ascending order.
fn member_rows(revision: &RevisionGroup) -> (r: Vec<MemberRow>)
    ensures
        lists_members(r@, revision@.members),
{
    broadcast use vstd::std_specs::btree::group_btree_axioms;
    broadcast use vstd::laws_cmp::group_laws_cmp;

    let keys = sequence_keys(&revision.members);
    let mut out: Vec<MemberRow> = Vec::new();
    let mut i: usize = 0;
    while i < keys.len()
        invariant
            i <= keys.len(),
            out@.len() == i,
            forall|a: int, b: int| 0 <= a < b < keys@.len() ==> keys@[a] < keys@[b],
            forall|k: u32| revision.members@.contains_key(k) <==> keys@.contains(k),
            forall|a: int|
                0 <= a < out@.len() ==> {
                    let row = #[trigger] out@[a];
                    let mail = revision@.members[row.seq];
                    &&& row.seq == keys@[a]
                    &&& revision@.members.contains_key(row.seq)
                    &&& row.total == mail.parsed.total
                    &&& row.mail_id == mail.mail_id
                    &&& row.subject@ == mail.subject
                    &&& row.is_cover == (row.seq == 0)
                },
        decreases keys.len() - i,
    {
        let seq = keys[i];
        assert(keys@.contains(seq));
        match revision.members.get(&seq) {
            Some(mail) => {
                assert(revision@.members[seq] == mail@);
                out.push(
                    MemberRow {
                        seq,
                        total: mail.parsed.total,
                        mail_id: mail.mail_id,
                        subject: mail.subject.clone(),
                        is_cover: seq == 0,
                    },
                );
            },
            None => {
                assert(false);
            },
        }
        i += 1;
    }
    assert forall|seq: u32| #[trigger] revision@.members.contains_key(seq) implies exists|a: int|
        0 <= a < out@.len() && (#[trigger] out@[a]).seq == seq by {
        assert(keys@.contains(seq));
        let a = choose|a: int| 0 <= a < keys@.len() && keys@[a] == seq;
        assert(out@[a].seq == seq);
    }
    out
}

/// Lists the follow-ups of a revision in ascending order.
fn followup_rows(revision: &RevisionGroup) -> (r: Vec<FollowupRow>)
    ensures
        lists_followups(r@, revision@.followups),
{
    broadcast use vstd::std_specs::btree::group_btree_axioms;
    broadcast use vstd::laws_cmp::group_laws_cmp;

    let keys = mail_keys(&revision.followups);
    let mut out: Vec<FollowupRow> = Vec::new();
    let mut i: usize = 0;
    while i < keys.len()
        invariant
            i <= keys.len(),
            out@.len() == i,
            forall|a: int, b: int| 0 <= a < b < keys@.len() ==> keys@[a] < keys@[b],
            forall|k: i64| revision.followups@.contains_key(k) <==> keys@.contains(k),
            forall|a: int|
                0 <= a < out@.len() ==> {
                    let row = #[trigger] out@[a];
                    let seq = revision@.followups[row.mail_id].parsed.seq;
                    &&& row.mail_id == keys@[a]
                    &&& revision@.followups.contains_key(row.mail_id)
                    &&& row.member_seq == if seq == 0 {
                        None
                    } else {
                        Some(seq)
                    }
                },
        decreases keys.len() - i,
    {
        let mail_id = keys[i];
        assert(keys@.contains(mail_id));
        match revision.followups.get(&mail_id) {
            Some(mail) => {
                assert(revision@.followups[mail_id] == mail@);
                let seq = mail.parsed.seq;
                let member_seq = if seq == 0 {
                    None
                } else {
                    Some(seq)
                };
                out.push(FollowupRow { mail_id, member_seq });
            },
            None => {
                assert(false);
            },
        }
        i += 1;
    }
    assert forall|mail_id: i64| #[trigger]
        revision@.followups.contains_key(mail_id) implies exists|a: int|
        0 <= a < out@.len() && (#[trigger] out@[a]).mail_id == mail_id by {
        assert(keys@.contains(mail_id));
        let a = choose|a: int| 0 <= a < keys@.len() && keys@[a] == mail_id;
        assert(out@[a].mail_id == mail_id);
    }
    out
}

/// The mail of the cover letter of a revision.
fn cover_mail(revision: &RevisionGroup) -> (r: Option<i64>)
    ensures
        r == if revision@.members.contains_key(0) {
            Some(revision@.members[0].mail_id)
        } else {
            None
        },
{
    broadcast use vstd::std_specs::btree::group_btree_axioms;
    broadcast use vstd::laws_cmp::group_laws_cmp;

    let cover: u32 = 0;
    match revision.members.get(&cover) {
        Some(mail) => {
            assert(revision@.members[0] == mail@);
            Some(mail.mail_id)
        },
        None => None,
    }
}

/// The key of a series followed by a revision number.
fn fingerprint(change_key: &String, version: u32) -> (r: String)
    ensures
        r@ == change_key@ + ":"@ + text::decimal(version as nat),
{
    let mut out = text::chars_of(change_key.as_str());
    let colon = text::chars_of(":");
    text::append(&mut out, colon.as_slice());
    let digits = text::decimal_chars(version as u64);
    text::append(&mut out, digits.as_slice());
    text::string_of(out.as_slice())
}

/// Records one revision of a series.
fn revision_row(change_key: &String, version: u32, revision: &RevisionGroup) -> (r: RevisionRow)
    ensures
        r.revision == version,
        records_revision(r, change_key@, revision@),
{
    RevisionRow {
        revision: version,
        expected_total: revision.expected_total,
        cover_mail_id: cover_mail(revision),
        completeness: completeness(revision),
        fingerprint: fingerprint(change_key, version),
        members: member_rows(revision),
        followups: followup_rows(revision),
    }
}

/// Records one series.
fn change_row(group: &Group) -> (r: ChangeRow)
    ensures
        records_change(r, group@),
        r.revisions@.len() == group@.revisions.dom().len(),
{
    broadcast use vstd::std_specs::btree::group_btree_axioms;
    broadcast use vstd::laws_cmp::group_laws_cmp;

    let keys = sequence_keys(&group.revisions);
    let mut out: Vec<RevisionRow> = Vec::new();
    let mut i: usize = 0;
    while i < keys.len()
        invariant
            i <= keys.len(),
            out@.len() == i,
            forall|a: int, b: int| 0 <= a < b < keys@.len() ==> keys@[a] < keys@[b],
            forall|k: u32| group.revisions@.contains_key(k) <==> keys@.contains(k),
            forall|a: int|
                0 <= a < out@.len() ==> {
                    let version = (#[trigger] out@[a]).revision;
                    &&& version == keys@[a]
                    &&& group@.revisions.contains_key(version)
                    &&& records_revision(out@[a], group@.change_key, group@.revisions[version])
                },
        decreases keys.len() - i,
    {
        let version = keys[i];
        assert(keys@.contains(version));
        match group.revisions.get(&version) {
            Some(revision) => {
                assert(group@.revisions[version] == revision@);
                out.push(revision_row(&group.change_key, version, revision));
            },
            None => {
                assert(false);
            },
        }
        i += 1;
    }
    assert forall|version: u32| #[trigger]
        group@.revisions.contains_key(version) implies exists|a: int|
        0 <= a < out@.len() && (#[trigger] out@[a]).revision == version by {
        assert(keys@.contains(version));
        let a = choose|a: int| 0 <= a < keys@.len() && keys@[a] == version;
        assert(out@[a].revision == version);
    }
    assert(group@.revisions.dom() == group.revisions@.dom());
    ChangeRow {
        change_key: group.change_key.clone(),
        change_id: text::copy_opt(&group.change_id),
        subject: group.subject.clone(),
        author: group.author.clone(),
        thread_key: text::copy_opt(&group.thread_key),
        revisions: out,
    }
}

/// Decides whether a series has a change key.
fn is_present(groups: &Vec<Group>, change_key: &String) -> (r: bool)
    ensures
        r == has_change_key(group_views(groups@), change_key@),
{
    let ghost views = group_views(groups@);
    let mut i: usize = 0;
    while i < groups.len()
        invariant
            i <= groups.len(),
            views == group_views(groups@),
            forall|j: int| 0 <= j < i ==> (#[trigger] views[j]).change_key != change_key@,
        decreases groups.len() - i,
    {
        assert(views[i as int] == groups@[i as int]@);
        if groups[i].change_key == *change_key {
            return true;
        }
        i += 1;
    }
    false
}

/// Collects the catalog keys that no series has any more.
fn find_stale(existing: &Vec<String>, groups: &Vec<Group>) -> (r: Vec<String>)
    ensures
        text::texts(r@) == stale_keys(text::texts(existing@), group_views(groups@)),
{
    let ghost views = text::texts(existing@);
    let ghost present = group_views(groups@);
    let mut out: Vec<String> = Vec::new();
    let mut i: usize = 0;
    assert(text::texts(out@) == stale_keys(views.take(0), present));
    while i < existing.len()
        invariant
            i <= existing.len(),
            views == text::texts(existing@),
            present == group_views(groups@),
            text::texts(out@) == stale_keys(views.take(i as int), present),
        decreases existing.len() - i,
    {
        assert(views.take(i + 1).drop_last() == views.take(i as int));
        assert(views.take(i + 1).last() == existing@[i as int]@);
        if !is_present(groups, &existing[i]) {
            let ghost before = out@;
            out.push(existing[i].clone());
            assert(text::texts(out@) == text::texts(before).push(existing@[i as int]@));
        }
        i += 1;
    }
    assert(views.take(i as int) == views);
    out
}

/// How many revisions the series have together.
pub open spec fn group_revisions(groups: Seq<GroupView>) -> nat
    decreases groups.len(),
{
    if groups.len() == 0 {
        0
    } else {
        group_revisions(groups.drop_last()) + groups.last().revisions.dom().len()
    }
}

/// One more revision in one series is one more revision in all.
proof fn lemma_group_revisions_update(groups: Seq<GroupView>, i: int, group: GroupView)
    requires
        0 <= i < groups.len(),
        group.revisions.dom().len() <= groups[i].revisions.dom().len() + 1,
    ensures
        group_revisions(groups.update(i, group)) <= group_revisions(groups) + 1,
    decreases groups.len(),
{
    let updated = groups.update(i, group);
    if i == groups.len() - 1 {
        assert(updated.drop_last() == groups.drop_last());
    } else {
        assert(updated.drop_last() == groups.drop_last().update(i, group));
        lemma_group_revisions_update(groups.drop_last(), i, group);
    }
}

/// A mail opens at most one revision.
proof fn lemma_revisions_bounded(mails: Seq<MailView>, n: int)
    requires
        0 <= n <= mails.len(),
    ensures
        group_revisions(grouped(mails, n)) <= n,
        forall|i: int|
            0 <= i < grouped(mails, n).len() ==> (#[trigger] grouped(
                mails,
                n,
            )[i]).revisions.dom().finite(),
    decreases n,
{
    if n > 0 {
        lemma_revisions_bounded(mails, n - 1);
        let before = grouped(mails, n - 1);
        let after = grouped(mails, n);
        let mail = mails[n - 1];
        match patch_subject(mail.subject) {
            Some((parsed, _)) => {
                let key = series_key(mails, mail, parsed.title);
                lemma_group_index(before, key, 0);
                match group_index(before, key, 0) {
                    Some(i) => {
                        let group = group_with(before[i], mail, parsed);
                        assert(group.revisions.dom() == before[i].revisions.dom().insert(
                            parsed.version,
                        ));
                        lemma_group_revisions_update(before, i, group);
                        assert forall|j: int| 0 <= j < after.len() implies (
                        #[trigger] after[j]).revisions.dom().finite() by {
                            if j != i {
                                assert(after[j] == before[j]);
                            }
                        }
                    },
                    None => {
                        let group = group_with(opened_group(mails, mail, parsed), mail, parsed);
                        assert(group.revisions.dom() == Set::<u32>::empty().insert(
                            parsed.version,
                        ));
                        assert(after.drop_last() == before);
                        assert forall|j: int| 0 <= j < after.len() implies (
                        #[trigger] after[j]).revisions.dom().finite() by {
                            if j < before.len() {
                                assert(after[j] == before[j]);
                            }
                        }
                    },
                }
            },
            None => {},
        }
    }
}

/// A found series has the key, and no earlier one does.
proof fn lemma_group_index(groups: Seq<GroupView>, key: Seq<char>, from: int)
    requires
        0 <= from,
    ensures
        match group_index(groups, key, from) {
            Some(i) => {
                &&& from <= i < groups.len()
                &&& groups[i].key == key
                &&& forall|j: int| from <= j < i ==> (#[trigger] groups[j]).key != key
            },
            None => forall|j: int| from <= j < groups.len() ==> (#[trigger] groups[j]).key != key,
        },
    decreases groups.len() - from,
{
    if from < groups.len() && groups[from].key != key {
        lemma_group_index(groups, key, from + 1);
    }
}

/// Whether a plan is the one by which the catalog of a source follows its mails:
/// it writes every series, removes the keys that no series has, and counts the
/// revisions.
pub open spec fn plans_refresh(
    plan: RefreshPlan,
    mails: Seq<MailView>,
    existing: Seq<Seq<char>>,
) -> bool {
    let groups = series_of(mails);
    &&& plan.changes@.len() == groups.len()
    &&& forall|i: int|
        0 <= i < plan.changes@.len() ==> records_change(#[trigger] plan.changes@[i], groups[i])
    &&& text::texts(plan.stale@) == stale_keys(existing, groups)
    &&& plan.persisted == group_revisions(groups)
}

/// Plans how the catalog of a source follows its mails: which series and
/// revisions to write, and which keys of the catalog to remove because no
/// mail belongs to them any more.
pub fn refresh(rows: Vec<CatalogMail>, existing: Vec<String>) -> (r: RefreshPlan)
    ensures
        plans_refresh(r, mail_views(rows@), text::texts(existing@)),
        r.persisted == revision_count(r.changes@),
{
    let ghost mails = mail_views(rows@);
    let limit = rows.len();
    let groups = build_groups(rows);
    let ghost views = group_views(groups@);
    proof {
        lemma_revisions_bounded(mails, mails.len() as int);
        assert(views.take(0) == Seq::<GroupView>::empty());
    }
    let mut changes: Vec<ChangeRow> = Vec::new();
    let mut persisted: usize = 0;
    let mut i: usize = 0;
    while i < groups.len()
        invariant
            i <= groups.len(),
            views == group_views(groups@),
            views == series_of(mails),
            group_revisions(views) <= limit,
            changes@.len() == i,
            forall|j: int| 0 <= j < i ==> records_change(#[trigger] changes@[j], views[j]),
            persisted == revision_count(changes@),
            persisted == group_revisions(views.take(i as int)),
        decreases groups.len() - i,
    {
        let ghost before = changes@;
        let row = change_row(&groups[i]);
        assert(views[i as int] == groups@[i as int]@);
        proof {
            assert(views.take(i + 1).drop_last() == views.take(i as int));
            lemma_group_revisions_prefix(views, i + 1);
        }
        persisted = persisted + row.revisions.len();
        changes.push(row);
        assert(changes@.drop_last() == before);
        i += 1;
    }
    assert(views.take(i as int) == views);
    let stale = find_stale(&existing, &groups);
    RefreshPlan { changes, stale, persisted }
}

/// Fewer series have fewer revisions.
proof fn lemma_group_revisions_prefix(groups: Seq<GroupView>, n: int)
    requires
        0 <= n <= groups.len(),
    ensures
        group_revisions(groups.take(n)) <= group_revisions(groups),
    decreases groups.len() - n,
{
    if n < groups.len() {
        assert(groups.take(n + 1).drop_last() == groups.take(n));
        lemma_group_revisions_prefix(groups, n + 1);
    } else {
        assert(groups.take(n) == groups);
    }
}

// ---------------------------------------------------------------------------
// Reading the catalog
// ---------------------------------------------------------------------------

/// One member of a series revision.
#[derive(Debug, Clone, PartialEq, Eq)]
pub struct SeriesMember {
    pub seq: u32,
    pub total: u32,
    pub mail_id: i64,
    pub message_id: String,
    pub subject: String,
    pub raw_path: Option<String>,
}

/// One revision of a series as the catalog shows it.
#[derive(Debug, Clone, PartialEq, Eq)]
pub struct SeriesCatalog {
    pub change_key: String,
    pub revision: u32,
    pub thread_id: Option<i64>,
    pub subject: String,
    pub author: String,
    pub expected_total: u32,
    pub members: Vec<SeriesMember>,
    pub missing: Vec<u32>,
    pub followup_count: usize,
    pub completeness: String,
    pub status: String,
}

/// A member as it is stored.
#[derive(Debug)]
pub struct StoredMember {
    pub seq: i64,
    pub total: i64,
    pub mail_id: i64,
    pub message_id: String,
    pub subject: String,
    pub raw_path: Option<String>,
}

/// A revision as it is stored.
#[derive(Debug)]
pub struct StoredRevision {
    pub change_key: String,
    pub revision: i64,
    pub thread_id: Option<i64>,
    pub subject: String,
    pub author: String,
    pub expected_total: i64,
    pub members: Vec<StoredMember>,
    pub followup_count: i64,
    pub completeness: String,
    pub status: String,
}

/// Whether a member is the stored one.
pub open spec fn shows_member(shown: SeriesMember, stored: StoredMember) -> bool {
    &&& shown.seq == stored.seq as u32
    &&& shown.total == stored.total as u32
    &&& shown.mail_id == stored.mail_id
    &&& shown.message_id == stored.message_id
    &&& shown.subject == stored.subject
    &&& shown.raw_path == stored.raw_path
}

/// Whether some member has a sequence number.
pub open spec fn has_member(members: Seq<SeriesMember>, seq: u32) -> bool {
    exists|i: int| 0 <= i < members.len() && (#[trigger] members[i]).seq == seq
}

/// The sequence numbers from 1 to `total` that no member has, in order.
pub open spec fn missing_members(members: Seq<SeriesMember>, total: int) -> Seq<u32>
    decreases total,
{
    if total <= 0 {
        seq![]
    } else if has_member(members, total as u32) {
        missing_members(members, total - 1)
    } else {
        missing_members(members, total - 1).push(total as u32)
    }
}

/// Whether a catalog entry shows a stored revision.
pub open spec fn shows_revision(shown: SeriesCatalog, stored: StoredRevision) -> bool {
    &&& shown.change_key == stored.change_key
    &&& shown.revision == stored.revision as u32
    &&& shown.thread_id == stored.thread_id
    &&& shown.subject == stored.subject
    &&& shown.author == stored.author
    &&& shown.expected_total == stored.expected_total as u32
    &&& shown.members@.len() == stored.members@.len()
    &&& forall|i: int|
        0 <= i < shown.members@.len() ==> shows_member(
            #[trigger] shown.members@[i],
            stored.members@[i],
        )
    &&& shown.missing@ == missing_members(shown.members@, shown.expected_total as int)
    &&& shown.followup_count == stored.followup_count as usize
    &&& shown.completeness == stored.completeness
    &&& shown.status == stored.status
}

/// Reads the stored members.
fn read_members(stored: &Vec<StoredMember>) -> (r: Vec<SeriesMember>)
    ensures
        r@.len() == stored@.len(),
        forall|i: int| 0 <= i < r@.len() ==> shows_member(#[trigger] r@[i], stored@[i]),
{
    let mut out: Vec<SeriesMember> = Vec::new();
    let mut i: usize = 0;
    while i < stored.len()
        invariant
            i <= stored.len(),
            out@.len() == i,
            forall|j: int| 0 <= j < i ==> shows_member(#[trigger] out@[j], stored@[j]),
        decreases stored.len() - i,
    {
        let row = &stored[i];
        out.push(
            SeriesMember {
                seq: row.seq as u32,
                total: row.total as u32,
                mail_id: row.mail_id,
                message_id: row.message_id.clone(),
                subject: row.subject.clone(),
                raw_path: text::copy_opt(&row.raw_path),
            },
        );
        i += 1;
    }
    out
}

/// Lists the sequence numbers that no member has.
fn find_missing(members: &Vec<SeriesMember>, total: u32) -> (r: Vec<u32>)
    ensures
        r@ == missing_members(members@, total as int),
{
    broadcast use vstd::std_specs::hash::group_hash_axioms;

    let mut present: HashSet<u32> = HashSet::new();
    let mut i: usize = 0;
    while i < members.len()
        invariant
            i <= members.len(),
            forall|seq: u32|
                present@.contains(seq) <==> exists|j: int|
                    0 <= j < i && (#[trigger] members@[j]).seq == seq,
        decreases members.len() - i,
    {
        present.insert(members[i].seq);
        assert forall|seq: u32| present@.contains(seq) <==> exists|j: int|
            0 <= j < i + 1 && (#[trigger] members@[j]).seq == seq by {
            assert(members@[i as int].seq == members@[i as int].seq);
        }
        i += 1;
    }
    let mut out: Vec<u32> = Vec::new();
    let mut seq: u32 = 0;
    while seq < total
        invariant
            seq <= total,
            forall|k: u32| present@.contains(k) <==> has_member(members@, k),
            out@ == missing_members(members@, seq as int),
        decreases total - seq,
    {
        seq += 1;
        if !present.contains(&seq) {
            out.push(seq);
        }
    }
    out
}

/// Shows stored revisions, each with the patches that it still misses.
pub fn load_catalog(rows: Vec<StoredRevision>) -> (r: Vec<SeriesCatalog>)
    ensures
        r@.len() == rows@.len(),
        forall|i: int| 0 <= i < r@.len() ==> shows_revision(#[trigger] r@[i], rows@[i]),
{
    let mut out: Vec<SeriesCatalog> = Vec::new();
    let mut i: usize = 0;
    while i < rows.len()
        invariant
            i <= rows.len(),
            out@.len() == i,
            forall|j: int| 0 <= j < i ==> shows_revision(#[trigger] out@[j], rows@[j]),
        decreases rows.len() - i,
    {
        let row = &rows[i];
        let expected_total = row.expected_total as u32;
        let members = read_members(&row.members);
        let missing = find_missing(&members, expected_total);
        out.push(
            SeriesCatalog {
                change_key: row.change_key.clone(),
                revision: row.revision as u32,
                thread_id: row.thread_id,
                subject: row.subject.clone(),
                author: row.author.clone(),
                expected_total,
                members,
                missing,
                followup_count: row.followup_count as usize,
                completeness: row.completeness.clone(),
                status: row.status.clone(),
            },
        );
        i += 1;
    }
    out
}

// ---------------------------------------------------------------------------
// Laws
// ---------------------------------------------------------------------------

/// A recognised patch has a possible place in its series: the series is not
/// empty, and no sequence number exceeds its total.
pub proof fn law_patch_numbers_are_possible(subject: Seq<char>)
    ensures
        patch_subject(subject) matches Some((parsed, _)) ==> parsed.total >= 1 && parsed.seq
            <= parsed.total,
{
}

/// A reply marker in front of a patch subject leaves the patch that it names
/// and makes the mail a reply.
pub proof fn law_reply_to_a_patch_names_the_patch(marker: Seq<char>, subject: Seq<char>)
    requires
        text::same_letters(marker, "re:"@) || text::same_letters(marker, "fwd:"@),
    ensures
        match patch_subject(subject) {
            Some((parsed, _)) => patch_subject(marker + subject) == Some((parsed, true)),
            None => patch_subject(marker + subject) is None,
        },
{
    reveal_strlit("re:");
    reveal_strlit("fwd:");
    let all = marker + subject;
    let low = text::lowered(marker);
    let n = marker.len() as int;
    assert(text::lowered("re:"@) == "re:"@);
    assert(text::lowered("fwd:"@) == "fwd:"@);
    assert(low[0] == text::lower_char(marker[0]));
    assert(low[n - 1] == text::lower_char(marker[n - 1]));
    text::lemma_skip_leading_is(all, CharClass::Space, 0);
    assert(all.skip(0) == all);
    let tail = text::skip_trailing(subject, CharClass::Space);
    text::lemma_skip_trailing(subject, CharClass::Space);
    let m = tail.len() as int;
    assert forall|j: int| n + m <= j < all.len() implies CharClass::Space.has(#[trigger] all[j]) by {
        assert(all[j] == subject[j - n]);
        assert(CharClass::Space.has(subject[j - n]));
    }
    if m > 0 {
        assert(all[n + m - 1] == tail.last());
    } else {
        assert(all[n - 1] == marker[n - 1]);
    }
    text::lemma_skip_trailing_is(all, CharClass::Space, n + m);
    let value = text::trimmed(all);
    assert(value == marker + tail);
    let folded = text::lowered(value);
    assert(folded == low + text::lowered(tail));
    assert(folded.subrange(0, n) == low);
    assert(value.skip(n) == tail);
    if low == "fwd:"@ {
        assert(folded.subrange(0, 3)[0] == folded[0]);
        assert(!text::opens_with(folded, "re:"@));
    }
    assert(unreplied(value) == (unreplied(text::trimmed_start(tail)).0, true));
    text::lemma_stripped_either_order(subject, CharClass::Space);
    assert(text::trimmed_start(tail) == text::trimmed(subject));
}

/// Where a mail is filed: under the series that its key names and the revision
/// that its subject states, as a follow-up if it is a reply, else as the
/// member of its sequence number or in the place of an earlier one.
pub open spec fn filed(
    groups: Seq<GroupView>,
    key: Seq<char>,
    mail: MailView,
    parsed: PatchSubject,
) -> bool {
    exists|i: int|
        0 <= i < groups.len() && (#[trigger] groups[i]).key == key && filed_in(
            groups[i],
            mail,
            parsed,
        )
}

/// Whether a series holds a mail, or an earlier patch in its place.
pub open spec fn filed_in(group: GroupView, mail: MailView, parsed: PatchSubject) -> bool {
    let revision = group.revisions[parsed.version];
    &&& group.revisions.contains_key(parsed.version)
    &&& parsed.total <= revision.expected_total
    &&& if mail.is_reply {
        revision.followups.contains_key(mail.mail_id)
    } else {
        revision.members.contains_key(parsed.seq)
    }
}

/// What holds of every series: its revisions stand under their own number, no
/// reply is a member, every follow-up is a reply, and members and follow-ups
/// stand under the numbers that their subjects and mails have.
pub open spec fn well_filed(group: GroupView) -> bool {
    &&& group.change_key == change_key_of(group.key)
    &&& forall|v: u32| #[trigger]
        group.revisions.contains_key(v) ==> {
            let revision = group.revisions[v];
            &&& revision.version == v
            &&& revision.expected_total >= 1
            &&& forall|seq: u32| #[trigger]
                revision.members.contains_key(seq) ==> {
                    let mail = revision.members[seq];
                    &&& !mail.is_reply
                    &&& seq <= revision.expected_total
                    &&& patch_subject(mail.subject) matches Some((parsed, _)) && parsed.seq == seq
                        && parsed.version == v
                }
            &&& forall|id: i64| #[trigger]
                revision.followups.contains_key(id) ==> {
                    let mail = revision.followups[id];
                    &&& mail.is_reply
                    &&& mail.mail_id == id
                    &&& patch_subject(mail.subject) matches Some((parsed, _)) && parsed.version
                        == v
                }
        }
}

/// Filing a mail keeps a series well filed.
proof fn lemma_group_with(group: GroupView, mail: MailView, parsed: PatchSubject)
    requires
        well_filed(group),
        patch_subject(mail.subject) matches Some((p, _)) && p == parsed,
    ensures
        well_filed(group_with(group, mail, parsed)),
        filed_in(group_with(group, mail, parsed), mail, parsed),
{
    let after = group_with(group, mail, parsed);
    law_patch_numbers_are_possible(mail.subject);
    assert forall|v: u32| #[trigger] after.revisions.contains_key(v) implies {
        let revision = after.revisions[v];
        &&& revision.version == v
        &&& revision.expected_total >= 1
        &&& forall|seq: u32| #[trigger]
            revision.members.contains_key(seq) ==> {
                let m = revision.members[seq];
                &&& !m.is_reply
                &&& seq <= revision.expected_total
                &&& patch_subject(m.subject) matches Some((p, _)) && p.seq == seq && p.version == v
            }
        &&& forall|id: i64| #[trigger]
            revision.followups.contains_key(id) ==> {
                let m = revision.followups[id];
                &&& m.is_reply
                &&& m.mail_id == id
                &&& patch_subject(m.subject) matches Some((p, _)) && p.version == v
            }
    } by {
        if v == parsed.version {
            let old_revision = if group.revisions.contains_key(v) {
                group.revisions[v]
            } else {
                empty_revision(v)
            };
            let revision = after.revisions[v];
            assert(revision == with_mail(old_revision, mail, parsed));
            assert forall|seq: u32| #[trigger] revision.members.contains_key(seq) implies {
                let m = revision.members[seq];
                &&& !m.is_reply
                &&& seq <= revision.expected_total
                &&& patch_subject(m.subject) matches Some((p, _)) && p.seq == seq && p.version == v
            } by {
                if old_revision.members.contains_key(seq) {
                    assert(group.revisions.contains_key(v));
                }
            }
            assert forall|id: i64| #[trigger] revision.followups.contains_key(id) implies {
                let m = revision.followups[id];
                &&& m.is_reply
                &&& m.mail_id == id
                &&& patch_subject(m.subject) matches Some((p, _)) && p.version == v
            } by {
                if old_revision.followups.contains_key(id) {
                    assert(group.revisions.contains_key(v));
                }
            }
        } else {
            assert(group.revisions.contains_key(v));
            assert(after.revisions[v] == group.revisions[v]);
        }
    }
}

/// What was filed stays filed.
proof fn lemma_filed_stays(
    group: GroupView,
    mail: MailView,
    parsed: PatchSubject,
    other: MailView,
    said: PatchSubject,
)
    requires
        filed_in(group, other, said),
    ensures
        filed_in(group_with(group, mail, parsed), other, said),
{
}

/// No two series have one key.
pub open spec fn keys_differ(groups: Seq<GroupView>) -> bool {
    forall|i: int, j: int|
        0 <= i < j < groups.len() ==> (#[trigger] groups[i]).key != (#[trigger] groups[j]).key
}

/// Every mail that states a patch is filed under its series and revision, no
/// two series share a key, and every series is well filed: in particular, a
/// reply is never a member.
pub proof fn law_series_file_every_patch(mails: Seq<MailView>)
    ensures
        keys_differ(series_of(mails)),
        forall|i: int| 0 <= i < series_of(mails).len() ==> well_filed(#[trigger] series_of(mails)[i]),
        forall|k: int|
            0 <= k < mails.len() ==> (patch_subject((#[trigger] mails[k]).subject) matches Some(
                (parsed, _),
            ) ==> filed(
                series_of(mails),
                series_key(mails, mails[k], parsed.title),
                mails[k],
                parsed,
            )),
{
    lemma_grouped(mails, mails.len() as int);
}

/// The first mails are filed.
proof fn lemma_grouped(mails: Seq<MailView>, n: int)
    requires
        0 <= n <= mails.len(),
    ensures
        keys_differ(grouped(mails, n)),
        forall|i: int| 0 <= i < grouped(mails, n).len() ==> well_filed(#[trigger] grouped(mails, n)[i]),
        forall|k: int|
            0 <= k < n ==> (patch_subject((#[trigger] mails[k]).subject) matches Some((parsed, _))
                ==> filed(
                grouped(mails, n),
                series_key(mails, mails[k], parsed.title),
                mails[k],
                parsed,
            )),
    decreases n,
{
    if n > 0 {
        lemma_grouped(mails, n - 1);
        let before = grouped(mails, n - 1);
        let after = grouped(mails, n);
        let mail = mails[n - 1];
        match patch_subject(mail.subject) {
            Some((parsed, _)) => {
                let key = series_key(mails, mail, parsed.title);
                lemma_group_index(before, key, 0);
                match group_index(before, key, 0) {
                    Some(at) => {
                        lemma_group_with(before[at], mail, parsed);
                        assert forall|i: int, j: int| 0 <= i < j < after.len() implies (
                        #[trigger] after[i]).key != (#[trigger] after[j]).key by {
                            assert(after[i].key == before[i].key);
                            assert(after[j].key == before[j].key);
                        }
                        assert forall|i: int| 0 <= i < after.len() implies well_filed(
                            #[trigger] after[i],
                        ) by {
                            if i != at {
                                assert(after[i] == before[i]);
                            }
                        }
                        assert forall|k: int| 0 <= k < n implies (patch_subject(
                            (#[trigger] mails[k]).subject,
                        ) matches Some((said, _)) ==> filed(
                            after,
                            series_key(mails, mails[k], said.title),
                            mails[k],
                            said,
                        )) by {
                            if let Some((said, _)) = patch_subject(mails[k].subject) {
                                let k_key = series_key(mails, mails[k], said.title);
                                if k == n - 1 {
                                    assert(after[at].key == k_key);
                                } else {
                                    assert(filed(before, k_key, mails[k], said));
                                    let i = choose|i: int|
                                        0 <= i < before.len() && (#[trigger] before[i]).key == k_key
                                            && filed_in(before[i], mails[k], said);
                                    if i == at {
                                        lemma_filed_stays(before[at], mail, parsed, mails[k], said);
                                        assert(after[at].key == k_key);
                                    } else {
                                        assert(after[i] == before[i]);
                                    }
                                }
                            }
                        }
                    },
                    None => {
                        let fresh = opened_group(mails, mail, parsed);
                        assert(well_filed(fresh));
                        lemma_group_with(fresh, mail, parsed);
                        let at = before.len() as int;
                        assert(after[at] == group_with(fresh, mail, parsed));
                        assert forall|i: int, j: int| 0 <= i < j < after.len() implies (
                        #[trigger] after[i]).key != (#[trigger] after[j]).key by {
                            assert(after[i] == before[i]);
                            if j < at {
                                assert(after[j] == before[j]);
                            }
                        }
                        assert forall|i: int| 0 <= i < after.len() implies well_filed(
                            #[trigger] after[i],
                        ) by {
                            if i < at {
                                assert(after[i] == before[i]);
                            }
                        }
                        assert forall|k: int| 0 <= k < n implies (patch_subject(
                            (#[trigger] mails[k]).subject,
                        ) matches Some((said, _)) ==> filed(
                            after,
                            series_key(mails, mails[k], said.title),
                            mails[k],
                            said,
                        )) by {
                            if let Some((said, _)) = patch_subject(mails[k].subject) {
                                let k_key = series_key(mails, mails[k], said.title);
                                if k == n - 1 {
                                    assert(after[at].key == k_key);
                                } else {
                                    assert(filed(before, k_key, mails[k], said));
                                    let i = choose|i: int|
                                        0 <= i < before.len() && (#[trigger] before[i]).key == k_key
                                            && filed_in(before[i], mails[k], said);
                                    assert(after[i] == before[i]);
                                }
                            }
                        }
                    },
                }
            },
            None => {
                assert forall|k: int| 0 <= k < n implies (patch_subject(
                    (#[trigger] mails[k]).subject,
                ) matches Some((said, _)) ==> filed(
                    after,
                    series_key(mails, mails[k], said.title),
                    mails[k],
                    said,
                )) by {
                    if let Some((said, _)) = patch_subject(mails[k].subject) {
                        assert(k < n - 1);
                        assert(filed(
                            before,
                            series_key(mails, mails[k], said.title),
                            mails[k],
                            said,
                        ));
                    }
                }
            },
        }
    }
}

/// Whether the mail at index `k` states a patch of a revision of a series.
pub open spec fn belongs(mails: Seq<MailView>, k: int, key: Seq<char>, version: u32) -> bool {
    patch_subject(mails[k].subject) matches Some((parsed, _)) && parsed.version == version
        && series_key(mails, mails[k], parsed.title) == key
}

/// Whether the mail at index `k` is a patch with a sequence number.
pub open spec fn patch_at(
    mails: Seq<MailView>,
    k: int,
    key: Seq<char>,
    version: u32,
    seq: u32,
) -> bool {
    &&& belongs(mails, k, key, version)
    &&& !mails[k].is_reply
    &&& catalog_subject(mails[k].subject).0.seq == seq
}

/// Whether the mail at index `k` is a reply with a mail number.
pub open spec fn reply_at(
    mails: Seq<MailView>,
    k: int,
    key: Seq<char>,
    version: u32,
    mail_id: i64,
) -> bool {
    &&& belongs(mails, k, key, version)
    &&& mails[k].is_reply
    &&& mails[k].mail_id == mail_id
}

/// Whether a mail is the first patch with a sequence number.
pub open spec fn is_first_patch(
    mails: Seq<MailView>,
    n: int,
    key: Seq<char>,
    version: u32,
    seq: u32,
    mail: MailView,
) -> bool {
    exists|k: int|
        0 <= k < n && #[trigger] patch_at(mails, k, key, version, seq) && mails[k] == mail
            && forall|j: int| 0 <= j < k ==> !#[trigger] patch_at(mails, j, key, version, seq)
}

/// Whether a mail is the last reply with a mail number.
pub open spec fn is_last_reply(
    mails: Seq<MailView>,
    n: int,
    key: Seq<char>,
    version: u32,
    mail_id: i64,
    mail: MailView,
) -> bool {
    exists|k: int|
        0 <= k < n && #[trigger] reply_at(mails, k, key, version, mail_id) && mails[k] == mail
            && forall|j: int| k < j < n ==> !#[trigger] reply_at(mails, j, key, version, mail_id)
}

/// Whether some mail of a revision announces a total.
pub open spec fn is_announced(
    mails: Seq<MailView>,
    n: int,
    key: Seq<char>,
    version: u32,
    total: u32,
) -> bool {
    exists|k: int|
        0 <= k < n && #[trigger] belongs(mails, k, key, version) && catalog_subject(mails[k].subject).0.total == total
}

/// What a series holds after the first `n` mails: of each sequence number the
/// first patch, of each mail number the last reply, and the largest total
/// that was announced.
pub open spec fn holds_first_patches(mails: Seq<MailView>, n: int, group: GroupView) -> bool {
    forall|v: u32| #[trigger]
        group.revisions.contains_key(v) ==> {
            let revision = group.revisions[v];
            &&& is_announced(mails, n, group.key, v, revision.expected_total)
            &&& forall|seq: u32| #[trigger]
                revision.members.contains_key(seq) ==> is_first_patch(
                    mails,
                    n,
                    group.key,
                    v,
                    seq,
                    revision.members[seq],
                )
            &&& forall|id: i64| #[trigger]
                revision.followups.contains_key(id) ==> is_last_reply(
                    mails,
                    n,
                    group.key,
                    v,
                    id,
                    revision.followups[id],
                )
        }
}

/// A mail of another series changes nothing.
proof fn lemma_other_series(mails: Seq<MailView>, n: int, group: GroupView)
    requires
        0 < n <= mails.len(),
        holds_first_patches(mails, n - 1, group),
        forall|v: u32| !#[trigger] belongs(mails, n - 1, group.key, v),
    ensures
        holds_first_patches(mails, n, group),
{
    assert forall|v: u32| #[trigger] group.revisions.contains_key(v) implies {
        let revision = group.revisions[v];
        &&& is_announced(mails, n, group.key, v, revision.expected_total)
        &&& forall|seq: u32| #[trigger]
            revision.members.contains_key(seq) ==> is_first_patch(
                mails,
                n,
                group.key,
                v,
                seq,
                revision.members[seq],
            )
        &&& forall|id: i64| #[trigger]
            revision.followups.contains_key(id) ==> is_last_reply(
                mails,
                n,
                group.key,
                v,
                id,
                revision.followups[id],
            )
    } by {
        let revision = group.revisions[v];
        assert(!belongs(mails, n - 1, group.key, v));
        assert forall|seq: u32| #[trigger] revision.members.contains_key(seq) implies
            is_first_patch(mails, n, group.key, v, seq, revision.members[seq]) by {
            assert(is_first_patch(mails, n - 1, group.key, v, seq, revision.members[seq]));
        }
        assert forall|id: i64| #[trigger] revision.followups.contains_key(id) implies
            is_last_reply(mails, n, group.key, v, id, revision.followups[id]) by {
            assert(is_last_reply(mails, n - 1, group.key, v, id, revision.followups[id]));
        }
        assert(is_announced(mails, n - 1, group.key, v, revision.expected_total));
    }
}

/// A mail of the series is filed where it belongs.
proof fn lemma_same_series(
    mails: Seq<MailView>,
    n: int,
    group: GroupView,
    parsed: PatchSubject,
)
    requires
        0 < n <= mails.len(),
        holds_first_patches(mails, n - 1, group),
        patch_subject(mails[n - 1].subject) matches Some((p, _)) && p == parsed,
        series_key(mails, mails[n - 1], parsed.title) == group.key,
        forall|j: int|
            0 <= j < n - 1 && #[trigger] patch_at(mails, j, group.key, parsed.version, parsed.seq)
                ==> group.revisions.contains_key(parsed.version)
                && group.revisions[parsed.version].members.contains_key(parsed.seq),
    ensures
        holds_first_patches(mails, n, group_with(group, mails[n - 1], parsed)),
{
    let mail = mails[n - 1];
    let after = group_with(group, mail, parsed);
    let key = group.key;
    assert forall|v: u32| #[trigger] after.revisions.contains_key(v) implies {
        let revision = after.revisions[v];
        &&& is_announced(mails, n, key, v, revision.expected_total)
        &&& forall|seq: u32| #[trigger]
            revision.members.contains_key(seq) ==> is_first_patch(
                mails,
                n,
                key,
                v,
                seq,
                revision.members[seq],
            )
        &&& forall|id: i64| #[trigger]
            revision.followups.contains_key(id) ==> is_last_reply(
                mails,
                n,
                key,
                v,
                id,
                revision.followups[id],
            )
    } by {
        let revision = after.revisions[v];
        let was = if group.revisions.contains_key(v) {
            group.revisions[v]
        } else {
            empty_revision(v)
        };
        if v == parsed.version {
            assert(revision == with_mail(was, mail, parsed));
            assert(belongs(mails, n - 1, key, v));
        } else {
            assert(revision == was);
            assert(!belongs(mails, n - 1, key, v));
        }
        assert(is_announced(mails, n, key, v, revision.expected_total)) by {
            if group.revisions.contains_key(v) {
                assert(is_announced(mails, n - 1, key, v, was.expected_total));
            }
        }
        assert forall|seq: u32| #[trigger] revision.members.contains_key(seq) implies
            is_first_patch(mails, n, key, v, seq, revision.members[seq]) by {
            if was.members.contains_key(seq) {
                assert(is_first_patch(mails, n - 1, key, v, seq, was.members[seq]));
            } else {
                assert(patch_at(mails, n - 1, key, v, seq));
            }
        }
        assert forall|id: i64| #[trigger] revision.followups.contains_key(id) implies
            is_last_reply(mails, n, key, v, id, revision.followups[id]) by {
            if v == parsed.version && mail.is_reply && mail.mail_id == id {
                assert(reply_at(mails, n - 1, key, v, id));
            } else {
                assert(was.followups.contains_key(id));
                assert(is_last_reply(mails, n - 1, key, v, id, was.followups[id]));
                assert(!reply_at(mails, n - 1, key, v, id));
            }
        }
    }
}

/// Every series holds, of each sequence number, the first patch that states
/// it, and of each mail number the last reply; its totals were announced by
/// its own mails. Nothing else stands in a series.
pub proof fn law_series_hold_first_patches(mails: Seq<MailView>)
    ensures
        forall|i: int|
            0 <= i < series_of(mails).len() ==> holds_first_patches(
                mails,
                mails.len() as int,
                #[trigger] series_of(mails)[i],
            ),
{
    lemma_grouped_holds(mails, mails.len() as int);
}

/// The series of the first mails hold what they should.
proof fn lemma_grouped_holds(mails: Seq<MailView>, n: int)
    requires
        0 <= n <= mails.len(),
    ensures
        forall|i: int|
            0 <= i < grouped(mails, n).len() ==> holds_first_patches(
                mails,
                n,
                #[trigger] grouped(mails, n)[i],
            ),
    decreases n,
{
    if n > 0 {
        lemma_grouped_holds(mails, n - 1);
        lemma_grouped(mails, n - 1);
        let before = grouped(mails, n - 1);
        let after = grouped(mails, n);
        let mail = mails[n - 1];
        match patch_subject(mail.subject) {
            Some((parsed, _)) => {
                let key = series_key(mails, mail, parsed.title);
                lemma_group_index(before, key, 0);
                match group_index(before, key, 0) {
                    Some(at) => {
                        lemma_filed_members(mails, n, at, parsed);
                        lemma_same_series(mails, n, before[at], parsed);
                        assert forall|i: int| 0 <= i < after.len() implies holds_first_patches(
                            mails,
                            n,
                            #[trigger] after[i],
                        ) by {
                            if i != at {
                                assert(after[i] == before[i]);
                                assert(before[i].key != key);
                                lemma_other_series(mails, n, before[i]);
                            }
                        }
                    },
                    None => {
                        let fresh = opened_group(mails, mail, parsed);
                        assert forall|j: int|
                            0 <= j < n - 1 && #[trigger] patch_at(
                                mails,
                                j,
                                fresh.key,
                                parsed.version,
                                parsed.seq,
                            ) implies false by {
                            let said = catalog_subject(mails[j].subject).0;
                            assert(filed(before, key, mails[j], said));
                        }
                        lemma_same_series(mails, n, fresh, parsed);
                        assert forall|i: int| 0 <= i < after.len() implies holds_first_patches(
                            mails,
                            n,
                            #[trigger] after[i],
                        ) by {
                            if i < before.len() {
                                assert(after[i] == before[i]);
                                lemma_other_series(mails, n, before[i]);
                            }
                        }
                    },
                }
            },
            None => {
                assert forall|i: int| 0 <= i < after.len() implies holds_first_patches(
                    mails,
                    n,
                    #[trigger] after[i],
                ) by {
                    assert(after[i] == before[i]);
                    lemma_other_series(mails, n, before[i]);
                }
            },
        }
    }
}

/// A patch that came earlier stands among the members.
proof fn lemma_filed_members(mails: Seq<MailView>, n: int, at: int, parsed: PatchSubject)
    requires
        0 < n <= mails.len(),
        0 <= at < grouped(mails, n - 1).len(),
    ensures
        forall|j: int|
            0 <= j < n - 1 && #[trigger] patch_at(
                mails,
                j,
                grouped(mails, n - 1)[at].key,
                parsed.version,
                parsed.seq,
            ) ==> grouped(mails, n - 1)[at].revisions.contains_key(parsed.version) && grouped(
                mails,
                n - 1,
            )[at].revisions[parsed.version].members.contains_key(parsed.seq),
{
    let before = grouped(mails, n - 1);
    let group = before[at];
    lemma_grouped(mails, n - 1);
    assert forall|j: int|
        0 <= j < n - 1 && #[trigger] patch_at(
            mails,
            j,
            group.key,
            parsed.version,
            parsed.seq,
        ) implies group.revisions.contains_key(parsed.version)
        && group.revisions[parsed.version].members.contains_key(parsed.seq) by {
        let said = catalog_subject(mails[j].subject).0;
        assert(filed(before, group.key, mails[j], said));
        let i = choose|i: int|
            0 <= i < before.len() && (#[trigger] before[i]).key == group.key && filed_in(
                before[i],
                mails[j],
                said,
            );
        assert(i == at) by {
            if i < at {
                assert(before[i].key != before[at].key);
            } else if at < i {
                assert(before[at].key != before[i].key);
            }
        }
    }
}

/// A catalog key is removed exactly when no series of the source has it.
pub proof fn law_stale_keys_are_those_without_a_series(
    existing: Seq<Seq<char>>,
    groups: Seq<GroupView>,
)
    ensures
        forall|key: Seq<char>|
            stale_keys(existing, groups).contains(key) <==> existing.contains(key)
                && !has_change_key(groups, key),
    decreases existing.len(),
{
    if existing.len() > 0 {
        let init = existing.drop_last();
        law_stale_keys_are_those_without_a_series(init, groups);
        let before = stale_keys(init, groups);
        let stale = stale_keys(existing, groups);
        assert forall|key: Seq<char>|
            stale.contains(key) <==> existing.contains(key) && !has_change_key(groups, key) by {
            if existing.contains(key) && !has_change_key(groups, key) {
                let i = choose|i: int| 0 <= i < existing.len() && existing[i] == key;
                if i < init.len() {
                    assert(init[i] == key);
                    assert(init.contains(key));
                    assert(before.contains(key));
                    let k = choose|k: int| 0 <= k < before.len() && before[k] == key;
                    assert(stale[k] == key);
                } else {
                    assert(stale[before.len() as int] == key);
                }
            }
            if stale.contains(key) {
                let k = choose|k: int| 0 <= k < stale.len() && stale[k] == key;
                if k < before.len() {
                    assert(before[k] == key);
                    assert(before.contains(key));
                    assert(init.contains(key));
                    let i = choose|i: int| 0 <= i < init.len() && init[i] == key;
                    assert(existing[i] == key);
                } else {
                    assert(existing[existing.len() - 1] == key);
                }
            }
        }
    }
}

/// A patch is listed as missing exactly when its number is announced and no
/// member has it, and nothing is listed exactly when every number has a member.
pub proof fn law_missing_patches_are_those_without_a_member(members: Seq<SeriesMember>, total: u32)
    ensures
        missing_members(members, total as int).len() == 0 <==> forall|seq: u32|
            1 <= seq <= total ==> #[trigger] has_member(members, seq),
        forall|seq: u32|
            #![trigger missing_members(members, total as int).contains(seq)]
            #![trigger has_member(members, seq)]
            missing_members(members, total as int).contains(seq) <==> 1 <= seq <= total
                && !has_member(members, seq),
{
    lemma_missing(members, total as int);
    let missing = missing_members(members, total as int);
    if missing.len() == 0 {
        assert forall|seq: u32| 1 <= seq <= total implies #[trigger] has_member(members, seq) by {
            assert(!missing.contains(seq));
        }
    } else {
        assert(missing.contains(missing[0]));
    }
}

/// The missing numbers are those without a member.
proof fn lemma_missing(members: Seq<SeriesMember>, total: int)
    requires
        0 <= total <= u32::MAX,
    ensures
        forall|seq: u32|
            #![trigger missing_members(members, total).contains(seq)]
            #![trigger has_member(members, seq)]
            missing_members(members, total).contains(seq) <==> 1 <= seq <= total && !has_member(
                members,
                seq,
            ),
    decreases total,
{
    if total > 0 {
        lemma_missing(members, total - 1);
        let before = missing_members(members, total - 1);
        let all = missing_members(members, total);
        assert forall|seq: u32|
            all.contains(seq) <==> 1 <= seq <= total && !has_member(members, seq) by {
            if seq == total {
                if !has_member(members, seq) {
                    assert(all[before.len() as int] == seq);
                } else {
                    assert(!before.contains(seq));
                }
            } else {
                if before.contains(seq) {
                    let k = choose|k: int| 0 <= k < before.len() && before[k] == seq;
                    assert(all[k] == seq);
                }
                if all.contains(seq) {
                    let k = choose|k: int| 0 <= k < all.len() && all[k] == seq;
                    assert(k < before.len());
                    assert(before[k] == seq);
                }
            }
        }
    }
}

/// A revision counts as complete exactly when its total is known and the catalog
/// lists nothing of it as missing.
pub proof fn law_complete_revisions_miss_nothing(
    revision: RevisionView,
    members: Seq<SeriesMember>,
)
    requires
        forall|seq: u32| #[trigger]
            revision.members.contains_key(seq) <==> has_member(members, seq),
    ensures
        completeness_of(revision) == "complete"@ <==> revision.expected_total > 0
            && missing_members(members, revision.expected_total as int).len() == 0,
{
    reveal_strlit("complete");
    reveal_strlit("partial");
    reveal_strlit("ambiguous");
    assert("complete"@[0] == 'c');
    assert("partial"@[0] == 'p');
    assert("ambiguous"@[0] == 'a');
    let total = revision.expected_total;
    law_missing_patches_are_those_without_a_member(members, total);
    if forall|seq: u32| 1 <= seq <= total ==> revision.members.contains_key(seq) {
        assert forall|seq: u32| 1 <= seq <= total implies #[trigger] has_member(members, seq) by {
            assert(revision.members.contains_key(seq));
        }
    }
    if forall|seq: u32| 1 <= seq <= total ==> #[trigger] has_member(members, seq) {
        assert forall|seq: u32| 1 <= seq <= total implies revision.members.contains_key(seq) by {
            assert(has_member(members, seq));
        }
    }
}

/// Whether a mail carries a change identifier that several mails carry.
pub open spec fn shares_change_id(mails: Seq<MailView>, mail: MailView) -> bool {
    mail.change_id matches Some(id) && occurrences(change_ids_of(mails), text::lowered(id)) > 1
}

/// Rerolls and patches of one series find together: mails of one author whose
/// series titles open alike have one key, whatever their revisions, unless a
/// change identifier that several mails carry says otherwise. Mails that carry
/// such an identifier have one key whatever else they say.
pub proof fn law_rerolls_share_a_series(
    mails: Seq<MailView>,
    a: MailView,
    b: MailView,
    title_a: Seq<char>,
    title_b: Seq<char>,
)
    ensures
        !shares_change_id(mails, a) && !shares_change_id(mails, b) && author_key(a.from_addr)
            == author_key(b.from_addr) && family_title(mail_series_title(mails, a, title_a)) == family_title(
            mail_series_title(mails, b, title_b),
        ) ==> series_key(mails, a, title_a) == series_key(mails, b, title_b),
        shares_change_id(mails, a) && b.change_id is Some && text::same_letters(
            a.change_id->0,
            b.change_id->0,
        ) ==> series_key(mails, a, title_a) == series_key(mails, b, title_b),
{
}

/// A change identifier that one mail carries decides no group: the mail is filed
/// as if it carried none, by its author and the title of its series.
pub proof fn law_single_change_ids_decide_nothing(
    mails: Seq<MailView>,
    mail: MailView,
    title: Seq<char>,
)
    requires
        mail.change_id matches Some(id) && occurrences(
            change_ids_of(mails),
            text::lowered(id),
        ) <= 1,
    ensures
        series_key(mails, mail, title) == series_key(
            mails,
            MailView { change_id: None, ..mail },
            title,
        ),
        series_key(mails, mail, title) == "family:"@ + author_key(mail.from_addr) + "|"@
            + family_title(mail_series_title(mails, mail, title)),
{
}

// ---------------------------------------------------------------------------
// Laws of cover letters and change identifiers
// ---------------------------------------------------------------------------

/// Whether a mail carries a change identifier, in any case.
pub open spec fn carries_id(mail: MailView, id: Seq<char>) -> bool {
    mail.change_id matches Some(own) && text::same_letters(own, id)
}

/// Whether no other mail carries the change identifier of the mail at index `k`.
pub open spec fn carries_alone(mails: Seq<MailView>, k: int) -> bool {
    mails[k].change_id matches Some(id) ==> forall|j: int|
        0 <= j < mails.len() && j != k ==> !carries_id(#[trigger] mails[j], id)
}

/// Counting one more mail.
proof fn lemma_occurrences_step(mails: Seq<MailView>, id: Seq<char>)
    requires
        mails.len() > 0,
    ensures
        occurrences(change_ids_of(mails), text::lowered(id)) == occurrences(
            change_ids_of(mails.drop_last()),
            text::lowered(id),
        ) + if carries_id(mails.last(), id) {
            1nat
        } else {
            0nat
        },
{
    let before = change_ids_of(mails.drop_last());
    if let Some(own) = mails.last().change_id {
        assert(change_ids_of(mails).drop_last() == before);
    }
}

/// An identifier that no mail carries does not occur.
proof fn lemma_occurs_never(mails: Seq<MailView>, id: Seq<char>)
    requires
        forall|j: int| 0 <= j < mails.len() ==> !carries_id(#[trigger] mails[j], id),
    ensures
        occurrences(change_ids_of(mails), text::lowered(id)) == 0,
    decreases mails.len(),
{
    if mails.len() > 0 {
        let init = mails.drop_last();
        lemma_occurrences_step(mails, id);
        assert forall|j: int| 0 <= j < init.len() implies !carries_id(#[trigger] init[j], id) by {
            assert(init[j] == mails[j]);
        }
        assert(mails[mails.len() - 1] == mails.last());
        lemma_occurs_never(init, id);
    }
}

/// An identifier that one mail carries occurs once.
proof fn lemma_occurs_once(mails: Seq<MailView>, id: Seq<char>, k: int)
    requires
        0 <= k < mails.len(),
        forall|j: int| 0 <= j < mails.len() && j != k ==> !carries_id(#[trigger] mails[j], id),
    ensures
        occurrences(change_ids_of(mails), text::lowered(id)) <= 1,
    decreases mails.len(),
{
    let init = mails.drop_last();
    lemma_occurrences_step(mails, id);
    if k == mails.len() - 1 {
        assert forall|j: int| 0 <= j < init.len() implies !carries_id(#[trigger] init[j], id) by {
            assert(init[j] == mails[j]);
        }
        lemma_occurs_never(init, id);
    } else {
        assert forall|j: int| 0 <= j < init.len() && j != k implies !carries_id(
            #[trigger] init[j],
            id,
        ) by {
            assert(init[j] == mails[j]);
        }
        assert(mails[mails.len() - 1] == mails.last());
        lemma_occurs_once(init, id, k);
    }
}

/// An identifier that mails carry occurs as often at least.
proof fn lemma_occurs(mails: Seq<MailView>, id: Seq<char>, i: int, j: int)
    requires
        0 <= i <= j < mails.len(),
        carries_id(mails[i], id),
        carries_id(mails[j], id),
    ensures
        occurrences(change_ids_of(mails), text::lowered(id)) >= if i < j {
            2nat
        } else {
            1nat
        },
    decreases mails.len(),
{
    let init = mails.drop_last();
    lemma_occurrences_step(mails, id);
    if j == mails.len() - 1 {
        if i < j {
            assert(init[i] == mails[i]);
            lemma_occurs(init, id, i, i);
        }
    } else {
        assert(init[i] == mails[i]);
        assert(init[j] == mails[j]);
        lemma_occurs(init, id, i, j);
    }
}

/// A change identifier is shared exactly when another mail carries it too.
pub proof fn law_shared_identifiers_are_carried_twice(mails: Seq<MailView>, k: int)
    requires
        0 <= k < mails.len(),
    ensures
        shares_change_id(mails, mails[k]) <==> !carries_alone(mails, k),
{
    if let Some(id) = mails[k].change_id {
        assert(carries_id(mails[k], id));
        if carries_alone(mails, k) {
            lemma_occurs_once(mails, id, k);
        } else {
            let j = choose|j: int|
                0 <= j < mails.len() && j != k && carries_id(#[trigger] mails[j], id);
            if j < k {
                lemma_occurs(mails, id, j, k);
            } else {
                lemma_occurs(mails, id, k, j);
            }
        }
    }
}

/// Whether two mails are filed in one series.
pub open spec fn filed_together(
    mails: Seq<MailView>,
    a: MailView,
    said_a: PatchSubject,
    b: MailView,
    said_b: PatchSubject,
) -> bool {
    exists|g: int|
        0 <= g < series_of(mails).len() && filed_in(#[trigger] series_of(mails)[g], a, said_a)
            && filed_in(series_of(mails)[g], b, said_b)
}

/// Patches with one key are filed together, and patches with different keys
/// apart.
proof fn lemma_one_key_one_series(
    mails: Seq<MailView>,
    i: int,
    said_i: PatchSubject,
    j: int,
    said_j: PatchSubject,
)
    requires
        0 <= i < mails.len(),
        0 <= j < mails.len(),
        patch_subject(mails[i].subject) matches Some((p, _)) && p == said_i,
        patch_subject(mails[j].subject) matches Some((p, _)) && p == said_j,
        series_key(mails, mails[i], said_i.title) == series_key(mails, mails[j], said_j.title),
    ensures
        filed_together(mails, mails[i], said_i, mails[j], said_j),
{
    law_series_file_every_patch(mails);
    let groups = series_of(mails);
    let key = series_key(mails, mails[i], said_i.title);
    assert(filed(groups, key, mails[i], said_i));
    assert(filed(groups, key, mails[j], said_j));
    let g = choose|g: int|
        0 <= g < groups.len() && (#[trigger] groups[g]).key == key && filed_in(
            groups[g],
            mails[i],
            said_i,
        );
    let h = choose|h: int|
        0 <= h < groups.len() && (#[trigger] groups[h]).key == key && filed_in(
            groups[h],
            mails[j],
            said_j,
        );
    if g < h {
        assert(groups[g].key != groups[h].key);
    } else if h < g {
        assert(groups[h].key != groups[g].key);
    }
    assert(filed_in(series_of(mails)[g], mails[i], said_i));
}

/// A patch whose thread holds a cover letter is filed in the same series as that
/// cover letter, if one author wrote both and neither shares its change identifier
/// with another mail: whatever title the patch has, and however many other cover
/// letters the author sent.
pub proof fn law_patches_join_the_cover_letter_of_their_thread(
    mails: Seq<MailView>,
    c: int,
    cover: PatchSubject,
    k: int,
    said: PatchSubject,
)
    requires
        0 <= c < mails.len(),
        0 <= k < mails.len(),
        !mails[c].is_reply,
        mails[c].parsed == cover,
        cover.seq == 0,
        cover.total > 0,
        patch_subject(mails[c].subject) matches Some((p, _)) && p == cover,
        patch_subject(mails[k].subject) matches Some((p, _)) && p == said,
        mails[c].thread_id == mails[k].thread_id,
        author_key(mails[c].from_addr) == author_key(mails[k].from_addr),
        carries_alone(mails, c),
        carries_alone(mails, k),
    ensures
        filed_together(mails, mails[c], cover, mails[k], said),
{
    law_shared_identifiers_are_carried_twice(mails, c);
    law_shared_identifiers_are_carried_twice(mails, k);
    lemma_thread_titled(mails, c);
    assert(series_key(mails, mails[c], cover.title) == series_key(mails, mails[k], said.title));
    lemma_one_key_one_series(mails, c, cover, k, said);
}

/// A thread with a cover letter has a title.
proof fn lemma_thread_titled(mails: Seq<MailView>, c: int)
    requires
        0 <= c < mails.len(),
        announces(mails[c]),
    ensures
        thread_title(covers_of(mails), mails[c].thread_id) is Some,
    decreases mails.len(),
{
    let init = mails.drop_last();
    let before = covers_of(init);
    let all = covers_of(mails);
    if announces(mails.last()) {
        assert(all.drop_last() == before);
    }
    if c < init.len() {
        assert(init[c] == mails[c]);
        lemma_thread_titled(init, c);
    }
}

/// Mails that carry one change identifier, in any case, are filed in one series:
/// whoever sent them, in whatever thread and under whatever title.
pub proof fn law_shared_identifiers_join_mails(
    mails: Seq<MailView>,
    i: int,
    said_i: PatchSubject,
    j: int,
    said_j: PatchSubject,
)
    requires
        0 <= i < mails.len(),
        0 <= j < mails.len(),
        i != j,
        patch_subject(mails[i].subject) matches Some((p, _)) && p == said_i,
        patch_subject(mails[j].subject) matches Some((p, _)) && p == said_j,
        mails[i].change_id is Some,
        mails[j].change_id is Some,
        text::same_letters(mails[i].change_id->0, mails[j].change_id->0),
    ensures
        filed_together(mails, mails[i], said_i, mails[j], said_j),
{
    assert(carries_id(mails[j], mails[i].change_id->0));
    assert(carries_id(mails[i], mails[j].change_id->0));
    law_shared_identifiers_are_carried_twice(mails, i);
    law_shared_identifiers_are_carried_twice(mails, j);
    assert(series_key(mails, mails[i], said_i.title) == series_key(mails, mails[j], said_j.title));
    lemma_one_key_one_series(mails, i, said_i, j, said_j);
}

/// Mails with different change identifiers, each of which several mails carry,
/// have different series, and so has a mail whose identifier is not shared.
pub proof fn law_shared_identifiers_keep_mails_apart(
    mails: Seq<MailView>,
    i: int,
    j: int,
    title_i: Seq<char>,
    title_j: Seq<char>,
)
    requires
        0 <= i < mails.len(),
        0 <= j < mails.len(),
        !carries_alone(mails, i),
    ensures
        !carries_alone(mails, j) && !text::same_letters(
            mails[i].change_id->0,
            mails[j].change_id->0,
        ) ==> series_key(mails, mails[i], title_i) != series_key(mails, mails[j], title_j),
        carries_alone(mails, j) ==> series_key(mails, mails[i], title_i) != series_key(
            mails,
            mails[j],
            title_j,
        ),
{
    reveal_strlit("change:");
    reveal_strlit("family:");
    law_shared_identifiers_are_carried_twice(mails, i);
    law_shared_identifiers_are_carried_twice(mails, j);
    let key_i = series_key(mails, mails[i], title_i);
    let key_j = series_key(mails, mails[j], title_j);
    assert(key_i[0] == 'c');
    let id = text::lowered(mails[i].change_id->0);
    assert(key_i.skip(7) == id);
    if carries_alone(mails, j) {
        assert(key_j[0] == 'f');
    } else {
        assert(key_j.skip(7) == text::lowered(mails[j].change_id->0));
    }
}

/// Without shared change identifiers, authors have series of their own.
pub proof fn law_authors_have_series_of_their_own(
    mails: Seq<MailView>,
    i: int,
    j: int,
    title_i: Seq<char>,
    title_j: Seq<char>,
)
    requires
        0 <= i < mails.len(),
        0 <= j < mails.len(),
        carries_alone(mails, i),
        carries_alone(mails, j),
        author_key(mails[i].from_addr) != author_key(mails[j].from_addr),
        !text::has_any(author_key(mails[i].from_addr), CharClass::One('|')),
        !text::has_any(author_key(mails[j].from_addr), CharClass::One('|')),
    ensures
        series_key(mails, mails[i], title_i) != series_key(mails, mails[j], title_j),
{
    reveal_strlit("family:");
    reveal_strlit("|");
    law_shared_identifiers_are_carried_twice(mails, i);
    law_shared_identifiers_are_carried_twice(mails, j);
    let a = author_key(mails[i].from_addr);
    let b = author_key(mails[j].from_addr);
    let rest_a = family_title(mail_series_title(mails, mails[i], title_i));
    let rest_b = family_title(mail_series_title(mails, mails[j], title_j));
    let key_a = series_key(mails, mails[i], title_i);
    let key_b = series_key(mails, mails[j], title_j);
    assert(key_a == "family:"@ + a + "|"@ + rest_a);
    assert(key_b == "family:"@ + b + "|"@ + rest_b);
    lemma_parted(a, rest_a);
    lemma_parted(b, rest_b);
    assert(key_a.skip(7) == a + "|"@ + rest_a);
    assert(key_b.skip(7) == b + "|"@ + rest_b);
}

/// A text without a bar is found again before the first bar.
proof fn lemma_parted(a: Seq<char>, rest: Seq<char>)
    requires
        !text::has_any(a, CharClass::One('|')),
    ensures
        text::cut(a + "|"@ + rest, CharClass::One('|')) == Some((a, rest)),
{
    reveal_strlit("|");
    let all = a + "|"@ + rest;
    let n = a.len() as int;
    assert forall|j: int| 0 <= j < n implies !CharClass::One('|').has(#[trigger] all[j]) by {
        assert(all[j] == a[j]);
        if CharClass::One('|').has(a[j]) {
            assert(text::has_any(a, CharClass::One('|')));
        }
    }
    assert(all[n] == '|');
    text::lemma_find_is(all, CharClass::One('|'), n);
    assert(all.take(n) == a);
    assert(all.skip(n + 1) == rest);
}

/// Authors are told apart by their letters: case, spaces and angle brackets do not
/// count.
pub proof fn law_spellings_of_an_author_agree(a: Seq<char>, b: Seq<char>, noise: char)
    ensures
        text::same_letters(a, b) ==> author_key(a) == author_key(b),
        noise == ' ' || noise == '<' || noise == '>' ==> author_key(a + seq![noise] + b)
            == author_key(a + b),
        forall|i: int|
            0 <= i < author_key(a).len() ==> #[trigger] author_key(a)[i] != ' ' && author_key(
                a,
            )[i] != '<' && author_key(a)[i] != '>',
{
    let class = CharClass::AuthorNoise;
    if noise == ' ' || noise == '<' || noise == '>' {
        assert(text::lowered(a + seq![noise] + b) == text::lowered(a) + seq![noise]
            + text::lowered(b));
        assert(text::lowered(a + b) == text::lowered(a) + text::lowered(b));
        text::law_dropped_characters_are_those_of_the_class(
            text::lowered(a),
            noise,
            seq![noise],
            class,
        );
        text::law_dropped_characters_are_those_of_the_class(
            text::lowered(a) + seq![noise],
            noise,
            text::lowered(b),
            class,
        );
        text::law_dropped_characters_are_those_of_the_class(
            text::lowered(a),
            noise,
            text::lowered(b),
            class,
        );
        let left = text::without(text::lowered(a), class);
        assert(left + Seq::<char>::empty() == left);
    }
    lemma_without_is_clean(text::lowered(a), class);
    assert forall|i: int| 0 <= i < author_key(a).len() implies #[trigger] author_key(a)[i] != ' '
        && author_key(a)[i] != '<' && author_key(a)[i] != '>' by {
        assert(!class.has(text::without(text::lowered(a), class)[i]));
    }
}

/// What is left has nothing of the class.
proof fn lemma_without_is_clean(s: Seq<char>, class: CharClass)
    ensures
        forall|i: int|
            0 <= i < text::without(s, class).len() ==> !class.has(
                #[trigger] text::without(s, class)[i],
            ),
    decreases s.len(),
{
    if s.len() > 0 {
        lemma_without_is_clean(s.drop_last(), class);
        let before = text::without(s.drop_last(), class);
        let all = text::without(s, class);
        assert forall|i: int| 0 <= i < all.len() implies !class.has(#[trigger] all[i]) by {
            if i < before.len() {
                assert(all[i] == before[i]);
            }
        }
    }
}

// ---------------------------------------------------------------------------
// Laws of series titles
// ---------------------------------------------------------------------------

/// Whether a mail is a cover letter of a thread.
pub open spec fn covers_thread(mail: MailView, thread_id: i64) -> bool {
    !mail.is_reply && mail.parsed.seq == 0 && mail.parsed.total > 0 && mail.thread_id == thread_id
}

/// Whether a mail is a cover letter of an author.
pub open spec fn covers_author(mail: MailView, author: Seq<char>) -> bool {
    !mail.is_reply && mail.parsed.seq == 0 && mail.parsed.total > 0 && author_key(mail.from_addr)
        == author
}

/// Whether the mail at index `c` is the first cover letter of a thread.
pub open spec fn first_cover(mails: Seq<MailView>, thread_id: i64, c: int) -> bool {
    &&& 0 <= c < mails.len()
    &&& covers_thread(mails[c], thread_id)
    &&& forall|j: int| 0 <= j < c ==> !covers_thread(#[trigger] mails[j], thread_id)
}

/// Whether a title is what a mail is shown under: that of the first cover letter
/// of its thread, or its own where the thread has none.
pub open spec fn shown_under(
    mails: Seq<MailView>,
    mail: MailView,
    title: Seq<char>,
    shown: Seq<char>,
) -> bool {
    ||| exists|c: int|
        #[trigger] first_cover(mails, mail.thread_id, c) && shown == display_title(
            mails[c].parsed.title,
        )
    ||| shown == display_title(title) && forall|j: int|
        0 <= j < mails.len() ==> !covers_thread(#[trigger] mails[j], mail.thread_id)
}

/// The first cover letter of a thread gives it its title.
proof fn lemma_first_cover(mails: Seq<MailView>, thread_id: i64, c: int)
    ensures
        first_cover(mails, thread_id, c) ==> thread_title(covers_of(mails), thread_id) == Some(
            display_title(mails[c].parsed.title),
        ),
        (forall|j: int| 0 <= j < mails.len() ==> !covers_thread(#[trigger] mails[j], thread_id))
            ==> thread_title(covers_of(mails), thread_id) is None,
    decreases mails.len(),
{
    if mails.len() > 0 {
        let init = mails.drop_last();
        lemma_first_cover(init, thread_id, c);
        let last = mails.last();
        assert(mails[mails.len() - 1] == last);
        if announces(last) {
            assert(covers_of(mails).drop_last() == covers_of(init));
        }
        if forall|j: int| 0 <= j < mails.len() ==> !covers_thread(#[trigger] mails[j], thread_id) {
            assert forall|j: int| 0 <= j < init.len() implies !covers_thread(
                #[trigger] init[j],
                thread_id,
            ) by {
                assert(init[j] == mails[j]);
            }
        }
        if first_cover(mails, thread_id, c) {
            assert forall|j: int| 0 <= j < init.len() && j < c implies !covers_thread(
                #[trigger] init[j],
                thread_id,
            ) by {
                assert(init[j] == mails[j]);
            }
            if c < init.len() {
                assert(init[c] == mails[c]);
                assert(first_cover(init, thread_id, c));
            }
        }
    }
}

/// The titles of an author's cover letters: those of the mails before one, then
/// its own.
proof fn lemma_author_titles(mails: Seq<MailView>, author: Seq<char>, n: int)
    requires
        0 <= n <= mails.len(),
    ensures
        author_titles(covers_of(mails.take(n)), author).len() <= author_titles(
            covers_of(mails),
            author,
        ).len(),
        author_titles(covers_of(mails), author).take(
            author_titles(covers_of(mails.take(n)), author).len() as int,
        ) == author_titles(covers_of(mails.take(n)), author),
        n < mails.len() && covers_author(mails[n], author) ==> author_titles(
            covers_of(mails.take(n)),
            author,
        ).len() < author_titles(covers_of(mails), author).len() && author_titles(
            covers_of(mails),
            author,
        )[author_titles(covers_of(mails.take(n)), author).len() as int] == display_title(
            mails[n].parsed.title,
        ),
    decreases mails.len() - n,
{
    let all = author_titles(covers_of(mails), author);
    let front = author_titles(covers_of(mails.take(n)), author);
    if n < mails.len() {
        lemma_author_titles(mails, author, n + 1);
        let next = mails.take(n + 1);
        assert(next.drop_last() == mails.take(n));
        assert(next.last() == mails[n]);
        if announces(mails[n]) {
            assert(covers_of(next).drop_last() == covers_of(mails.take(n)));
        }
        let more = author_titles(covers_of(next), author);
        assert(more.take(front.len() as int) == front);
        assert(all.take(front.len() as int) == all.take(more.len() as int).take(
            front.len() as int,
        ));
        if covers_author(mails[n], author) {
            assert(more == front.push(display_title(mails[n].parsed.title)));
            assert(all[front.len() as int] == all.take(more.len() as int)[front.len() as int]);
        }
    } else {
        assert(mails.take(n) == mails);
        assert(all.take(all.len() as int) == all);
    }
}

/// Whether some cover letter of an author has a title.
spec fn titled_by(mails: Seq<MailView>, author: Seq<char>, title: Seq<char>) -> bool {
    exists|j: int|
        0 <= j < mails.len() && covers_author(#[trigger] mails[j], author) && title
            == display_title(mails[j].parsed.title)
}

/// Every title of an author is that of one of their cover letters.
proof fn lemma_titles_have_covers(mails: Seq<MailView>, author: Seq<char>)
    ensures
        forall|t: int|
            0 <= t < author_titles(covers_of(mails), author).len() ==> titled_by(
                mails,
                author,
                #[trigger] author_titles(covers_of(mails), author)[t],
            ),
    decreases mails.len(),
{
    if mails.len() > 0 {
        let init = mails.drop_last();
        let last = mails.last();
        assert(mails[mails.len() - 1] == last);
        lemma_titles_have_covers(init, author);
        if announces(last) {
            assert(covers_of(mails).drop_last() == covers_of(init));
        }
        let before = author_titles(covers_of(init), author);
        let all = author_titles(covers_of(mails), author);
        assert forall|t: int| 0 <= t < all.len() implies titled_by(
            mails,
            author,
            #[trigger] all[t],
        ) by {
            if t < before.len() {
                assert(all[t] == before[t]);
                assert(titled_by(init, author, before[t]));
                let j = choose|j: int|
                    0 <= j < init.len() && covers_author(#[trigger] init[j], author)
                        && before[t] == display_title(init[j].parsed.title);
                assert(mails[j] == init[j]);
            } else {
                assert(covers_author(mails[mails.len() - 1], author));
            }
        }
    }
}

/// The first cover that a title opens like is found.
proof fn lemma_matching_at(covers: Seq<Seq<char>>, title: Seq<char>, from: int, p: int)
    requires
        0 <= from <= p < covers.len(),
        opens_like(covers[p], title),
        forall|q: int| from <= q < p ==> !opens_like(#[trigger] covers[q], title),
    ensures
        matching_cover(covers, title, from) == Some(covers[p]),
    decreases p - from,
{
    if from < p {
        assert(!opens_like(covers[from], title));
        lemma_matching_at(covers, title, from + 1, p);
    }
}

/// Where a title opens like no cover, none is found.
proof fn lemma_matching_none(covers: Seq<Seq<char>>, title: Seq<char>, from: int)
    requires
        0 <= from <= covers.len(),
        forall|q: int| from <= q < covers.len() ==> !opens_like(#[trigger] covers[q], title),
    ensures
        matching_cover(covers, title, from) is None,
    decreases covers.len() - from,
{
    if from < covers.len() {
        assert(!opens_like(covers[from], title));
        lemma_matching_none(covers, title, from + 1);
    }
}

/// A series is named after the first cover letter of the author, in the order of
/// the mails, that the title opens like which the mail is shown under.
pub proof fn law_series_are_named_after_a_matching_cover(
    mails: Seq<MailView>,
    mail: MailView,
    title: Seq<char>,
    shown: Seq<char>,
    c: int,
)
    requires
        shown_under(mails, mail, title, shown),
        0 <= c < mails.len(),
        covers_author(mails[c], author_key(mail.from_addr)),
        opens_like(display_title(mails[c].parsed.title), shown),
        forall|j: int|
            0 <= j < c && covers_author(#[trigger] mails[j], author_key(mail.from_addr))
                ==> !opens_like(display_title(mails[j].parsed.title), shown),
    ensures
        mail_series_title(mails, mail, title) == display_title(mails[c].parsed.title),
{
    let author = author_key(mail.from_addr);
    lemma_shown(mails, mail, title, shown);
    let titles = author_titles(covers_of(mails), author);
    let front = author_titles(covers_of(mails.take(c)), author);
    lemma_author_titles(mails, author, c);
    let t = front.len() as int;
    let wanted = titles[t];
    lemma_titles_have_covers(mails.take(c), author);
    assert forall|q: int| 0 <= q < t implies !opens_like(#[trigger] front[q], shown) by {
        assert(titled_by(mails.take(c), author, front[q]));
        let j = choose|j: int|
            0 <= j < mails.take(c).len() && covers_author(#[trigger] mails.take(c)[j], author)
                && front[q] == display_title(mails.take(c)[j].parsed.title);
        assert(mails.take(c)[j] == mails[j]);
        assert(covers_author(mails[j], author));
    }
    let unique = text::distinct(titles);
    text::law_repetitions_leave_the_order(titles, t);
    text::law_repetitions_leave_the_order(titles, t + 1);
    assert(titles.take(t) == front);
    assert(titles.take(t + 1).drop_last() == front);
    text::lemma_distinct(front);
    let seen = text::distinct(front);
    assert(!seen.contains(wanted)) by {
        if seen.contains(wanted) {
            assert(front.contains(wanted));
            let q = choose|q: int| 0 <= q < front.len() && front[q] == wanted;
            assert(!opens_like(front[q], shown));
        }
    }
    let p = seen.len() as int;
    let more = text::distinct(titles.take(t + 1));
    assert(more == seen.push(wanted));
    assert(unique[p] == unique.take(more.len() as int)[p]);
    assert(unique[p] == wanted);
    assert forall|q: int| 0 <= q < p implies !opens_like(#[trigger] unique[q], shown) by {
        assert(unique[q] == unique.take(p)[q]);
        assert(seen.contains(seen[q]));
        assert(front.contains(seen[q]));
        let r = choose|r: int| 0 <= r < front.len() && front[r] == seen[q];
        assert(!opens_like(front[r], shown));
    }
    lemma_matching_at(unique, shown, 0, p);
}

/// What a mail is shown under.
proof fn lemma_shown(mails: Seq<MailView>, mail: MailView, title: Seq<char>, shown: Seq<char>)
    requires
        shown_under(mails, mail, title, shown),
    ensures
        mail_series_title(mails, mail, title) == series_title(
            shown,
            author_titles(covers_of(mails), author_key(mail.from_addr)),
        ),
{
    if exists|c: int|
        #[trigger] first_cover(mails, mail.thread_id, c) && shown == display_title(
            mails[c].parsed.title,
        ) {
        let c = choose|c: int|
            #[trigger] first_cover(mails, mail.thread_id, c) && shown == display_title(
                mails[c].parsed.title,
            );
        lemma_first_cover(mails, mail.thread_id, c);
    } else {
        lemma_first_cover(mails, mail.thread_id, 0);
    }
}

/// Where an author's cover letters all have one title, every series of theirs is
/// named so.
pub proof fn law_a_single_cover_names_every_series(
    mails: Seq<MailView>,
    mail: MailView,
    title: Seq<char>,
    shown: Seq<char>,
    c: int,
)
    requires
        shown_under(mails, mail, title, shown),
        0 <= c < mails.len(),
        covers_author(mails[c], author_key(mail.from_addr)),
        forall|j: int|
            0 <= j < mails.len() && covers_author(#[trigger] mails[j], author_key(mail.from_addr))
                ==> display_title(mails[j].parsed.title) == display_title(mails[c].parsed.title),
    ensures
        mail_series_title(mails, mail, title) == display_title(mails[c].parsed.title),
{
    let author = author_key(mail.from_addr);
    let wanted = display_title(mails[c].parsed.title);
    lemma_shown(mails, mail, title, shown);
    let titles = author_titles(covers_of(mails), author);
    lemma_author_titles(mails, author, c);
    lemma_titles_have_covers(mails, author);
    assert forall|t: int| 0 <= t < titles.len() implies #[trigger] titles[t] == wanted by {
        assert(titled_by(mails, author, titles[t]));
        let j = choose|j: int|
            0 <= j < mails.len() && covers_author(#[trigger] mails[j], author) && titles[t]
                == display_title(mails[j].parsed.title);
        assert(covers_author(mails[j], author));
    }
    let unique = text::distinct(titles);
    text::lemma_distinct(titles);
    assert(titles.contains(titles[0]));
    assert(unique.contains(wanted));
    assert forall|q: int| 0 <= q < unique.len() implies #[trigger] unique[q] == wanted by {
        assert(unique.contains(unique[q]));
        assert(titles.contains(unique[q]));
    }
    assert(unique.len() == 1) by {
        if unique.len() > 1 {
            assert(unique[0] == unique[1]);
        }
    }
    if opens_like(unique[0], shown) {
        lemma_matching_at(unique, shown, 0, 0);
    } else {
        lemma_matching_none(unique, shown, 0);
    }
}

/// Where a title opens like none of the author's cover letters, and these have no
/// one title, the series is named as the mail is shown; so it is where the author
/// sent no cover letter.
pub proof fn law_other_series_keep_their_titles(
    mails: Seq<MailView>,
    mail: MailView,
    title: Seq<char>,
    shown: Seq<char>,
    a: int,
    b: int,
)
    requires
        shown_under(mails, mail, title, shown),
        forall|j: int|
            0 <= j < mails.len() && covers_author(#[trigger] mails[j], author_key(mail.from_addr))
                ==> !opens_like(display_title(mails[j].parsed.title), shown),
        (forall|j: int|
            0 <= j < mails.len() ==> !covers_author(
                #[trigger] mails[j],
                author_key(mail.from_addr),
            )) || (0 <= a < mails.len() && 0 <= b < mails.len() && covers_author(
            mails[a],
            author_key(mail.from_addr),
        ) && covers_author(mails[b], author_key(mail.from_addr)) && display_title(
            mails[a].parsed.title,
        ) != display_title(mails[b].parsed.title)),
    ensures
        mail_series_title(mails, mail, title) == shown,
{
    let author = author_key(mail.from_addr);
    lemma_shown(mails, mail, title, shown);
    let titles = author_titles(covers_of(mails), author);
    lemma_titles_have_covers(mails, author);
    let unique = text::distinct(titles);
    text::lemma_distinct(titles);
    assert forall|q: int| 0 <= q < unique.len() implies !opens_like(#[trigger] unique[q], shown) by {
        assert(unique.contains(unique[q]));
        assert(titles.contains(unique[q]));
        let t = choose|t: int| 0 <= t < titles.len() && titles[t] == unique[q];
        assert(titled_by(mails, author, titles[t]));
        let j = choose|j: int|
            0 <= j < mails.len() && covers_author(#[trigger] mails[j], author) && titles[t]
                == display_title(mails[j].parsed.title);
        assert(covers_author(mails[j], author));
    }
    lemma_matching_none(unique, shown, 0);
    if forall|j: int| 0 <= j < mails.len() ==> !covers_author(#[trigger] mails[j], author) {
        assert(unique.len() == 0) by {
            if unique.len() > 0 {
                assert(unique.contains(unique[0]));
                assert(titles.contains(unique[0]));
                assert(titles.len() > 0);
                assert(titled_by(mails, author, titles[0]));
                let j = choose|j: int|
                    0 <= j < mails.len() && covers_author(#[trigger] mails[j], author)
                        && titles[0] == display_title(mails[j].parsed.title);
                assert(covers_author(mails[j], author));
            }
        }
    } else {
        lemma_author_titles(mails, author, a);
        lemma_author_titles(mails, author, b);
        let x = display_title(mails[a].parsed.title);
        let y = display_title(mails[b].parsed.title);
        assert(titles.contains(x));
        assert(titles.contains(y));
        assert(unique.contains(x));
        assert(unique.contains(y));
        let p = choose|p: int| 0 <= p < unique.len() && unique[p] == x;
        let q = choose|q: int| 0 <= q < unique.len() && unique[q] == y;
        assert(p != q);
    }
}

/// A title opens like a cover when their first plain words agree, and their second
/// too where the cover has a second. Without a plain word on either side it does
/// not.
pub proof fn law_titles_open_alike(cover: Seq<char>, title: Seq<char>)
    ensures
        ({
            let wanted = plain_words(text::words(cover));
            let present = plain_words(text::words(title));
            &&& wanted.len() == 0 ==> !opens_like(cover, title)
            &&& present.len() == 0 ==> !opens_like(cover, title)
            &&& wanted.len() == 1 && present.len() > 0 ==> opens_like(cover, title) == (wanted[0]
                == present[0])
            &&& wanted.len() > 1 && present.len() == 1 ==> !opens_like(cover, title)
            &&& wanted.len() > 1 && present.len() > 1 ==> opens_like(cover, title) == (wanted[0]
                == present[0] && wanted[1] == present[1])
        }),
{
}

/// Plain words are the words of a title without the symbols around them, in lower
/// case; a word of symbols alone is none.
pub proof fn law_plain_words_lose_their_symbols(parts: Seq<Seq<char>>, word: Seq<char>)
    ensures
        text::stripped(word, CharClass::Symbol).len() > 0 ==> plain_words(parts.push(word))
            == plain_words(parts).push(text::lowered(text::stripped(word, CharClass::Symbol))),
        text::stripped(word, CharClass::Symbol).len() == 0 ==> plain_words(parts.push(word))
            == plain_words(parts),
        plain_words(seq![]) == Seq::<Seq<char>>::empty(),
{
    assert(parts.push(word).drop_last() == parts);
}

/// Titles have one family when their first three words agree, in any case; what
/// follows does not count, nor does the white space between words.
pub proof fn law_families_are_the_first_three_words(
    a: Seq<char>,
    b: Seq<char>,
    c: Seq<char>,
    rest: Seq<Seq<char>>,
)
    requires
        a.len() > 0 && !text::has_any(a, CharClass::Space),
        b.len() > 0 && !text::has_any(b, CharClass::Space),
        c.len() > 0 && !text::has_any(c, CharClass::Space),
        forall|k: int|
            0 <= k < rest.len() ==> (#[trigger] rest[k]).len() > 0 && !text::has_any(
                rest[k],
                CharClass::Space,
            ),
    ensures
        family_title(text::joined(seq![a, b, c] + rest, " "@)) == text::lowered(
            a + " "@ + b + " "@ + c,
        ),
        family_title(a + " "@ + b) == text::lowered(a + " "@ + b),
        family_title(a) == text::lowered(a),
{
    let three = seq![a, b, c];
    let all = three + rest;
    assert forall|k: int| 0 <= k < all.len() implies (#[trigger] all[k]).len() > 0
        && !text::has_any(all[k], CharClass::Space) by {
        if k >= 3 {
            assert(all[k] == rest[k - 3]);
        }
    }
    text::law_spaced_words_are_found(all);
    assert(all.take(3) == three);
    let two = seq![a, b];
    let one = seq![a];
    assert(two.drop_last() == one);
    assert(three.drop_last() == two);
    assert(text::joined(one, " "@) == a);
    assert(text::joined(two, " "@) == a + " "@ + b);
    assert(text::joined(three, " "@) == a + " "@ + b + " "@ + c);
    text::law_spaced_words_are_found(two);
    text::law_spaced_words_are_found(one);
    assert(two.take(2) == two);
    assert(one.take(1) == one);
}

/// A shown title is the title with single spaces between its words.
pub proof fn law_shown_titles_have_single_spaces(parts: Seq<Seq<char>>, title: Seq<char>)
    requires
        forall|k: int|
            0 <= k < parts.len() ==> (#[trigger] parts[k]).len() > 0 && !text::has_any(
                parts[k],
                CharClass::Space,
            ),
    ensures
        display_title(text::joined(parts, " "@)) == text::joined(parts, " "@),
        text::words(display_title(title)) == text::words(title),
        display_title(display_title(title)) == display_title(title),
{
    text::law_spaced_words_are_found(parts);
    text::lemma_words(title);
    text::law_spaced_words_are_found(text::words(title));
}

// ---------------------------------------------------------------------------
// Laws of patch subjects
// ---------------------------------------------------------------------------

/// A word of a patch tag: not empty, and without white space and closing brackets.
pub open spec fn tag_word(word: Seq<char>) -> bool {
    &&& word.len() > 0
    &&& !text::has_any(word, CharClass::Space)
    &&& !text::has_any(word, CharClass::One(']'))
}

/// A subject with words in brackets in front.
pub open spec fn tagged(words: Seq<Seq<char>>, rest: Seq<char>) -> Seq<char> {
    seq!['['] + text::joined(words, " "@) + seq![']'] + rest
}

/// Joined words hold no character that none of them holds.
proof fn lemma_joined_lacks(words: Seq<Seq<char>>, c: char)
    requires
        c != ' ',
        forall|k: int|
            0 <= k < words.len() ==> !text::has_any(#[trigger] words[k], CharClass::One(c)),
    ensures
        !text::has_any(text::joined(words, " "@), CharClass::One(c)),
    decreases words.len(),
{
    reveal_strlit(" ");
    let whole = text::joined(words, " "@);
    let class = CharClass::One(c);
    if words.len() == 1 {
        assert(!text::has_any(words[0], class));
    } else if words.len() > 1 {
        let init = words.drop_last();
        assert forall|k: int| 0 <= k < init.len() implies !text::has_any(#[trigger] init[k], class) by {
            assert(init[k] == words[k]);
        }
        lemma_joined_lacks(init, c);
        let front = text::joined(init, " "@);
        let last = words[words.len() - 1];
        assert(!text::has_any(last, class));
        if text::has_any(whole, class) {
            let i = choose|i: int| 0 <= i < whole.len() && class.has(#[trigger] whole[i]);
            if i < front.len() {
                assert(class.has(front[i]));
            } else if i > front.len() {
                assert(class.has(last[i - front.len() - 1]));
            }
        }
    }
}

/// A word occurs in the joined words.
proof fn lemma_word_occurs(words: Seq<Seq<char>>, m: int) -> (at: int)
    requires
        0 <= m < words.len(),
    ensures
        text::occurs_at(text::joined(words, " "@), words[m], at),
    decreases words.len(),
{
    reveal_strlit(" ");
    let whole = text::joined(words, " "@);
    if words.len() == 1 {
        assert(whole.subrange(0, whole.len() as int) == whole);
        0
    } else {
        let init = words.drop_last();
        let front = text::joined(init, " "@);
        let last = words.last();
        if m == words.len() - 1 {
            let at: int = (front.len() + 1) as int;
            assert(whole.subrange(at, at + last.len()) == last);
            at
        } else {
            let at = lemma_word_occurs(init, m);
            let word = init[m];
            assert(whole.subrange(at, at + word.len()) == front.subrange(at, at + word.len()));
            at
        }
    }
}

/// A subject in front of which stands a tag that mentions a patch states what the
/// words of the tag state; the title is what follows, without white space around.
/// It states nothing where the tag does not mention a patch or the numbers are
/// impossible.
pub proof fn law_tags_state_patches(words: Seq<Seq<char>>, rest: Seq<char>)
    requires
        forall|k: int| 0 <= k < words.len() ==> tag_word(#[trigger] words[k]),
    ensures
        ({
            let (version, seq, total) = tag_numbers(words);
            patch_subject(tagged(words, rest)) == if !text::occurs_in(
                text::lowered(text::joined(words, " "@)),
                "patch"@,
            ) || total == 0 || seq > total {
                None
            } else {
                Some(
                    (PatchSubject { version, seq, total, title: text::trimmed(rest) }, false),
                )
            }
        }),
{
    reveal_strlit("patch");
    reveal_strlit("re:");
    reveal_strlit("fwd:");
    let tag = text::joined(words, " "@);
    let subject = tagged(words, rest);
    let n = tag.len() as int;
    assert forall|k: int| 0 <= k < words.len() implies !text::has_any(
        #[trigger] words[k],
        CharClass::One(']'),
    ) by {
        assert(tag_word(words[k]));
    }
    lemma_joined_lacks(words, ']');
    let tail = text::skip_trailing(rest, CharClass::Space);
    text::lemma_skip_trailing(rest, CharClass::Space);
    let l = tail.len() as int;
    text::lemma_skip_leading_is(subject, CharClass::Space, 0);
    assert(subject.skip(0) == subject);
    assert forall|j: int| n + 2 + l <= j < subject.len() implies CharClass::Space.has(
        #[trigger] subject[j],
    ) by {
        assert(subject[j] == rest[j - n - 2]);
        assert(CharClass::Space.has(rest[j - n - 2]));
    }
    if l > 0 {
        assert(subject[n + 2 + l - 1] == tail.last());
    } else {
        assert(subject[n + 1] == ']');
    }
    text::lemma_skip_trailing_is(subject, CharClass::Space, n + 2 + l);
    let value = text::trimmed(subject);
    assert(value == seq!['['] + tag + seq![']'] + tail);
    let low = text::lowered(value);
    assert(low[0] == '[');
    assert(!text::opens_with(low, "re:"@)) by {
        if text::opens_with(low, "re:"@) {
            assert(low.subrange(0, 3)[0] == low[0]);
        }
    }
    assert(!text::opens_with(low, "fwd:"@)) by {
        if text::opens_with(low, "fwd:"@) {
            assert(low.subrange(0, 4)[0] == low[0]);
        }
    }
    assert(unreplied(value) == (value, false));
    assert forall|j: int| 0 <= j < n + 1 implies !CharClass::One(']').has(#[trigger] value[j]) by {
        if j > 0 {
            assert(value[j] == tag[j - 1]);
            if CharClass::One(']').has(tag[j - 1]) {
                assert(text::has_any(tag, CharClass::One(']')));
            }
        }
    }
    assert(value[n + 1] == ']');
    text::lemma_find_is(value, CharClass::One(']'), n + 1);
    assert(value.subrange(1, n + 1) == tag);
    assert(value.skip(n + 2) == tail);
    assert forall|k: int| 0 <= k < words.len() implies (#[trigger] words[k]).len() > 0
        && !text::has_any(words[k], CharClass::Space) by {
        assert(tag_word(words[k]));
    }
    text::law_spaced_words_are_found(words);
    text::lemma_stripped_either_order(rest, CharClass::Space);
    text::lemma_stripped(rest, CharClass::Space);
    let title = text::trimmed(rest);
    assert(text::trimmed_start(tail) == title);
    text::lemma_skip_trailing_is(title, CharClass::Space, title.len() as int);
    assert(title.take(title.len() as int) == title);
    assert(text::trimmed(tail) == title);
}

/// The word `PATCH`, in any case, mentions a patch.
proof fn lemma_mentions_patch(words: Seq<Seq<char>>, m: int)
    requires
        0 <= m < words.len(),
        text::same_letters(words[m], "patch"@),
    ensures
        text::occurs_in(text::lowered(text::joined(words, " "@)), "patch"@),
{
    reveal_strlit("patch");
    let tag = text::joined(words, " "@);
    let at = lemma_word_occurs(words, m);
    let word = words[m];
    assert(text::lowered("patch"@) == "patch"@);
    assert(text::lowered(tag).subrange(at, at + 5) == "patch"@) by {
        assert(word.len() == 5) by {
            assert(text::lowered(word).len() == 5);
        }
        assert forall|j: int| 0 <= j < 5 implies text::lowered(tag).subrange(at, at + 5)[j]
            == "patch"@[j] by {
            assert(tag.subrange(at, at + 5)[j] == word[j]);
            assert(text::lowered(word)[j] == "patch"@[j]);
        }
    }
    assert(text::occurs_at(text::lowered(tag), "patch"@, at));
}

/// A number as a word of a tag.
proof fn lemma_digit_word(n: u32)
    ensures
        tag_word(text::decimal(n as nat)),
        !text::has_any(text::decimal(n as nat), CharClass::One('/')),
        forall|i: int|
            0 <= i < text::decimal(n as nat).len() ==> '0' <= #[trigger] text::decimal(
                n as nat,
            )[i] <= '9',
        text::number(text::decimal(n as nat)) == Some(n),
{
    text::lemma_decimal(n as nat);
    text::law_numbers_are_read_back(n);
}

/// What the word of a revision states.
proof fn lemma_version_word(version: u32)
    ensures
        ({
            let word = seq!['v'] + text::decimal(version as nat);
            &&& tag_word(word)
            &&& text::stripped(word, CharClass::TagMark) == word
            &&& tag_version(word) == Some(version)
            &&& tag_position(word) is None
        }),
{
    let digits = text::decimal(version as nat);
    let word = seq!['v'] + digits;
    lemma_digit_word(version);
    assert forall|i: int| 0 <= i < word.len() implies !CharClass::Space.has(#[trigger] word[i])
        && !CharClass::One(']').has(word[i]) && !CharClass::One('/').has(word[i])
        && !CharClass::TagMark.has(word[i]) by {
        if i > 0 {
            assert(word[i] == digits[i - 1]);
        }
    }
    text::lemma_stripped_same(word, CharClass::TagMark);
    assert(word.skip(1) == digits);
    text::lemma_find_none(word, CharClass::One('/'));
}

/// What the word of a place states.
proof fn lemma_position_word(seq: u32, total: u32)
    ensures
        ({
            let word = text::decimal(seq as nat) + seq!['/'] + text::decimal(total as nat);
            &&& tag_word(word)
            &&& text::stripped(word, CharClass::TagMark) == word
            &&& tag_version(word) is None
            &&& tag_position(word) == Some((seq, total))
        }),
{
    let left = text::decimal(seq as nat);
    let right = text::decimal(total as nat);
    let word = left + seq!['/'] + right;
    lemma_digit_word(seq);
    lemma_digit_word(total);
    let n = left.len() as int;
    assert forall|i: int| 0 <= i < word.len() implies !CharClass::Space.has(#[trigger] word[i])
        && !CharClass::One(']').has(word[i]) && !CharClass::TagMark.has(word[i]) && word[i]
        != 'v' by {
        if i < n {
            assert(word[i] == left[i]);
        } else if i > n {
            assert(word[i] == right[i - n - 1]);
        }
    }
    text::lemma_stripped_same(word, CharClass::TagMark);
    assert forall|j: int| 0 <= j < n implies !CharClass::One('/').has(#[trigger] word[j]) by {
        assert(word[j] == left[j]);
    }
    assert(word[n] == '/');
    text::lemma_find_is(word, CharClass::One('/'), n);
    assert(word.take(n) == left);
    assert(word.skip(n + 1) == right);
}

/// What the word `PATCH` states: nothing but that there is one.
proof fn lemma_patch_word(word: Seq<char>)
    requires
        text::same_letters(word, "patch"@),
    ensures
        tag_word(word),
        text::stripped(word, CharClass::TagMark) == word,
        tag_version(word) is None,
        tag_position(word) is None,
{
    reveal_strlit("patch");
    assert(text::lowered("patch"@) == "patch"@);
    assert(text::lowered(word).len() == 5);
    assert forall|i: int| 0 <= i < word.len() implies !CharClass::Space.has(#[trigger] word[i])
        && !CharClass::One(']').has(word[i]) && !CharClass::One('/').has(word[i])
        && !CharClass::TagMark.has(word[i]) by {
        assert(text::lowered(word)[i] == "patch"@[i]);
    }
    assert(text::lowered(word)[0] == 'p');
    text::lemma_stripped_same(word, CharClass::TagMark);
    text::lemma_find_none(word, CharClass::One('/'));
}

/// Reading `[PATCH v2 1/3] title`, for any numbers and any title: revision, place
/// and total are those of the tag, each 1 where the tag does not say, and the title
/// is what follows. Impossible numbers make it no patch.
pub proof fn law_patch_subjects_are_read(
    patch: Seq<char>,
    version: u32,
    seq: u32,
    total: u32,
    title: Seq<char>,
)
    requires
        text::same_letters(patch, "patch"@),
    ensures
        1 <= total && seq <= total ==> patch_subject(
            tagged(
                seq![
                    patch,
                    seq!['v'] + text::decimal(version as nat),
                    text::decimal(seq as nat) + seq!['/'] + text::decimal(total as nat),
                ],
                title,
            ),
        ) == Some(
            (PatchSubject { version, seq, total, title: text::trimmed(title) }, false),
        ),
        total == 0 || seq > total ==> patch_subject(
            tagged(
                seq![
                    patch,
                    seq!['v'] + text::decimal(version as nat),
                    text::decimal(seq as nat) + seq!['/'] + text::decimal(total as nat),
                ],
                title,
            ),
        ) is None,
        1 <= total && seq <= total ==> patch_subject(
            tagged(
                seq![
                    patch,
                    text::decimal(seq as nat) + seq!['/'] + text::decimal(total as nat),
                ],
                title,
            ),
        ) == Some(
            (PatchSubject { version: 1, seq, total, title: text::trimmed(title) }, false),
        ),
        patch_subject(
            tagged(seq![patch, seq!['v'] + text::decimal(version as nat)], title),
        ) == Some(
            (PatchSubject { version, seq: 1, total: 1, title: text::trimmed(title) }, false),
        ),
        patch_subject(tagged(seq![patch], title)) == Some(
            (PatchSubject { version: 1, seq: 1, total: 1, title: text::trimmed(title) }, false),
        ),
{
    let v = seq!['v'] + text::decimal(version as nat);
    let p = text::decimal(seq as nat) + seq!['/'] + text::decimal(total as nat);
    lemma_patch_word(patch);
    lemma_version_word(version);
    lemma_position_word(seq, total);
    let none = Seq::<Seq<char>>::empty();
    let one = seq![patch];
    let with_version = seq![patch, v];
    let with_place = seq![patch, p];
    let full = seq![patch, v, p];
    assert(one.drop_last() == none);
    assert(with_version.drop_last() == one);
    assert(with_place.drop_last() == one);
    assert(full.drop_last() == with_version);
    assert(tag_numbers(none) == (1u32, 1u32, 1u32));
    assert(tag_numbers(one) == (1u32, 1u32, 1u32));
    assert(tag_numbers(with_version) == (version, 1u32, 1u32));
    assert(tag_numbers(with_place) == (1u32, seq, total));
    assert(tag_numbers(full) == (version, seq, total));
    lemma_mentions_patch(one, 0);
    law_tags_state_patches(one, title);
    lemma_mentions_patch(with_version, 0);
    law_tags_state_patches(with_version, title);
    lemma_mentions_patch(with_place, 0);
    law_tags_state_patches(with_place, title);
    lemma_mentions_patch(full, 0);
    law_tags_state_patches(full, title);
}

/// Other words of a tag, such as the name of a tree in front of `PATCH`, change
/// nothing, and of several places or revisions the last one counts.
pub proof fn law_later_words_of_a_tag_count(words: Seq<Seq<char>>, word: Seq<char>)
    ensures
        ({
            let (version, seq, total) = tag_numbers(words);
            let more = tag_numbers(words.push(word));
            let bare = text::stripped(word, CharClass::TagMark);
            &&& tag_version(bare) is None && tag_position(bare) is None ==> more == (
                version,
                seq,
                total,
            )
            &&& tag_version(bare) is Some ==> more.0 == tag_version(bare)->0
            &&& tag_version(bare) is None ==> more.0 == version
            &&& tag_position(bare) is Some ==> (more.1, more.2) == tag_position(bare)->0
            &&& tag_position(bare) is None ==> more.1 == seq && more.2 == total
        }),
{
    assert(words.push(word).drop_last() == words);
}

/// A subject without a closing bracket states no patch, nor does one whose tag
/// does not mention a patch.
pub proof fn law_other_subjects_state_no_patch(
    subject: Seq<char>,
    words: Seq<Seq<char>>,
    rest: Seq<char>,
)
    requires
        forall|k: int| 0 <= k < words.len() ==> tag_word(#[trigger] words[k]),
    ensures
        !text::occurs_in(text::lowered(text::joined(words, " "@)), "patch"@) ==> patch_subject(
            tagged(words, rest),
        ) is None,
        !text::has_any(subject, CharClass::One(']')) ==> patch_subject(subject) is None,
{
    law_tags_state_patches(words, rest);
    if patch_subject(subject) is Some {
        let value = unreplied(text::trimmed(subject)).0;
        text::lemma_find_from(value, CharClass::One(']'), 0);
        lemma_unreplied_keeps(text::trimmed(subject));
        text::lemma_stripped_keeps(subject, CharClass::Space, CharClass::One(']'));
        assert(text::has_any(value, CharClass::One(']')));
    }
}

/// Dropping markers adds nothing.
proof fn lemma_unreplied_keeps(s: Seq<char>)
    ensures
        text::has_any(unreplied(s).0, CharClass::One(']')) ==> text::has_any(
            s,
            CharClass::One(']'),
        ),
    decreases s.len(),
{
    reveal_strlit("re:");
    reveal_strlit("fwd:");
    let class = CharClass::One(']');
    text::lemma_skip_leading(s.skip(3), CharClass::Space);
    text::lemma_skip_leading(s.skip(4), CharClass::Space);
    let n: int = if text::opens_with(text::lowered(s), "re:"@) {
        3
    } else {
        4
    };
    if text::opens_with(text::lowered(s), "re:"@) || text::opens_with(text::lowered(s), "fwd:"@) {
        let rest = text::trimmed_start(s.skip(n));
        lemma_unreplied_keeps(rest);
        if text::has_any(rest, class) {
            let i = choose|i: int| 0 <= i < rest.len() && class.has(#[trigger] rest[i]);
            let k = s.len() - rest.len() + i;
            assert(s[k] == rest[i]);
        }
    }
}

// ---------------------------------------------------------------------------
// Laws of what a series tells
// ---------------------------------------------------------------------------

/// Whether the mail at index `k` states a patch of a series.
pub open spec fn in_series(mails: Seq<MailView>, k: int, key: Seq<char>) -> bool {
    patch_subject(mails[k].subject) matches Some((parsed, _)) && series_key(
        mails,
        mails[k],
        parsed.title,
    ) == key
}

/// Whether the mail at index `k` is the first of a series.
pub open spec fn opens_series(mails: Seq<MailView>, k: int, key: Seq<char>) -> bool {
    in_series(mails, k, key) && forall|j: int| 0 <= j < k ==> !#[trigger] in_series(mails, j, key)
}

/// Whether a thread is the first one known among the first `n` mails of a series.
pub open spec fn first_thread(
    mails: Seq<MailView>,
    n: int,
    key: Seq<char>,
    thread: Seq<char>,
) -> bool {
    exists|k: int|
        0 <= k < n && #[trigger] in_series(mails, k, key) && mails[k].thread_key == Some(thread)
            && forall|j: int|
            0 <= j < k && #[trigger] in_series(mails, j, key) ==> mails[j].thread_key is None
}

/// What a series tells after the first `n` mails: author and title of its first
/// mail, the change identifier that all its mails carry, and the first thread
/// known.
pub open spec fn tells(mails: Seq<MailView>, n: int, group: GroupView) -> bool {
    &&& exists|k: int|
        0 <= k < n && #[trigger] opens_series(mails, k, group.key) && group.author
            == mails[k].from_addr && group.subject == mail_series_title(
            mails,
            mails[k],
            catalog_subject(mails[k].subject).0.title,
        )
    &&& group.change_id matches Some(id) ==> forall|k: int|
        0 <= k < n && #[trigger] in_series(mails, k, group.key) ==> mails[k].change_id == Some(id)
    &&& group.change_id is None ==> forall|id: Seq<char>| !#[trigger] all_carry(
        mails,
        n,
        group.key,
        id,
    )
    &&& group.thread_key matches Some(thread) ==> first_thread(mails, n, group.key, thread)
    &&& group.thread_key is None ==> forall|k: int|
        0 <= k < n && #[trigger] in_series(mails, k, group.key) ==> mails[k].thread_key is None
}

/// Whether the first `n` mails of a series all carry one change identifier.
pub open spec fn all_carry(mails: Seq<MailView>, n: int, key: Seq<char>, id: Seq<char>) -> bool {
    forall|k: int|
        0 <= k < n && #[trigger] in_series(mails, k, key) ==> mails[k].change_id == Some(id)
}

/// Every series tells author and title of its first mail, the change identifier
/// that all of its mails carry, if there is one, and the first thread known.
pub proof fn law_series_tell_of_their_mails(mails: Seq<MailView>)
    ensures
        forall|i: int|
            0 <= i < series_of(mails).len() ==> tells(
                mails,
                mails.len() as int,
                #[trigger] series_of(mails)[i],
            ),
{
    lemma_grouped_tells(mails, mails.len() as int);
}

/// A mail of another series changes nothing that a series tells.
proof fn lemma_tells_still(mails: Seq<MailView>, n: int, group: GroupView)
    requires
        0 < n <= mails.len(),
        tells(mails, n - 1, group),
        !in_series(mails, n - 1, group.key),
    ensures
        tells(mails, n, group),
{
    let key = group.key;
    let first = choose|k: int|
        0 <= k < n - 1 && #[trigger] opens_series(mails, k, key) && group.author
            == mails[k].from_addr && group.subject == mail_series_title(
            mails,
            mails[k],
            catalog_subject(mails[k].subject).0.title,
        );
    assert(opens_series(mails, first, key));
    if group.change_id is None {
        assert forall|id: Seq<char>| !#[trigger] all_carry(mails, n, key, id) by {
            assert(!all_carry(mails, n - 1, key, id));
        }
    }
    if let Some(thread) = group.thread_key {
        assert(first_thread(mails, n - 1, key, thread));
    }
}

/// A mail of the series changes what it tells as it should.
proof fn lemma_tells_more(mails: Seq<MailView>, n: int, group: GroupView, parsed: PatchSubject)
    requires
        0 < n <= mails.len(),
        tells(mails, n - 1, group),
        patch_subject(mails[n - 1].subject) matches Some((p, _)) && p == parsed,
        in_series(mails, n - 1, group.key),
    ensures
        tells(mails, n, group_with(group, mails[n - 1], parsed)),
{
    let mail = mails[n - 1];
    let key = group.key;
    let after = group_with(group, mail, parsed);
    let first = choose|k: int|
        0 <= k < n - 1 && #[trigger] opens_series(mails, k, key) && group.author
            == mails[k].from_addr && group.subject == mail_series_title(
            mails,
            mails[k],
            catalog_subject(mails[k].subject).0.title,
        );
    assert(opens_series(mails, first, key));
    assert(in_series(mails, first, key));
    if after.change_id is None {
        assert forall|id: Seq<char>| !#[trigger] all_carry(mails, n, key, id) by {
            if all_carry(mails, n, key, id) {
                assert(in_series(mails, n - 1, key));
                assert(mail.change_id == Some(id));
                assert(all_carry(mails, n - 1, key, id));
                if let Some(own) = group.change_id {
                    assert(mails[first].change_id == Some(own));
                }
            }
        }
    }
    if group.thread_key is None {
        if let Some(thread) = mail.thread_key {
            assert(first_thread(mails, n, key, thread));
        }
    } else {
        assert(first_thread(mails, n - 1, key, group.thread_key->0));
    }
}

/// A series that a mail opens tells of that mail.
proof fn lemma_tells_first(mails: Seq<MailView>, n: int, parsed: PatchSubject)
    requires
        0 < n <= mails.len(),
        patch_subject(mails[n - 1].subject) matches Some((p, _)) && p == parsed,
        forall|j: int|
            0 <= j < n - 1 ==> !#[trigger] in_series(
                mails,
                j,
                series_key(mails, mails[n - 1], parsed.title),
            ),
    ensures
        tells(
            mails,
            n,
            group_with(opened_group(mails, mails[n - 1], parsed), mails[n - 1], parsed),
        ),
{
    let mail = mails[n - 1];
    let key = series_key(mails, mail, parsed.title);
    let after = group_with(opened_group(mails, mail, parsed), mail, parsed);
    assert(in_series(mails, n - 1, key));
    assert(opens_series(mails, n - 1, key));
    if after.change_id is None {
        assert forall|id: Seq<char>| !#[trigger] all_carry(mails, n, key, id) by {
            if all_carry(mails, n, key, id) {
                assert(mail.change_id == Some(id));
            }
        }
    }
    if let Some(thread) = after.thread_key {
        assert(in_series(mails, n - 1, key) && mails[n - 1].thread_key == Some(thread));
        assert(first_thread(mails, n, key, thread));
    }
    assert(after.key == key);
    assert(catalog_subject(mail.subject).0 == parsed);
    assert(after.subject == mail_series_title(
        mails,
        mails[n - 1],
        catalog_subject(mails[n - 1].subject).0.title,
    ));
    assert forall|k: int| 0 <= k < n && #[trigger] in_series(mails, k, after.key) implies k == n
        - 1 by {}
}

/// The series of the first mails tell what they should.
proof fn lemma_grouped_tells(mails: Seq<MailView>, n: int)
    requires
        0 <= n <= mails.len(),
    ensures
        forall|i: int|
            0 <= i < grouped(mails, n).len() ==> tells(mails, n, #[trigger] grouped(mails, n)[i]),
    decreases n,
{
    if n > 0 {
        lemma_grouped_tells(mails, n - 1);
        lemma_grouped(mails, n - 1);
        let before = grouped(mails, n - 1);
        let after = grouped(mails, n);
        let mail = mails[n - 1];
        match patch_subject(mail.subject) {
            Some((parsed, _)) => {
                let key = series_key(mails, mail, parsed.title);
                lemma_group_index(before, key, 0);
                match group_index(before, key, 0) {
                    Some(at) => {
                        assert(in_series(mails, n - 1, key));
                        lemma_tells_more(mails, n, before[at], parsed);
                        assert forall|i: int| 0 <= i < after.len() implies tells(
                            mails,
                            n,
                            #[trigger] after[i],
                        ) by {
                            if i != at {
                                assert(after[i] == before[i]);
                                assert(before[i].key != key);
                                lemma_tells_still(mails, n, before[i]);
                            }
                        }
                    },
                    None => {
                        assert forall|j: int| 0 <= j < n - 1 implies !#[trigger] in_series(
                            mails,
                            j,
                            key,
                        ) by {
                            if in_series(mails, j, key) {
                                let said = catalog_subject(mails[j].subject).0;
                                assert(filed(before, key, mails[j], said));
                            }
                        }
                        lemma_tells_first(mails, n, parsed);
                        assert forall|i: int| 0 <= i < after.len() implies tells(
                            mails,
                            n,
                            #[trigger] after[i],
                        ) by {
                            if i < before.len() {
                                assert(after[i] == before[i]);
                                lemma_tells_still(mails, n, before[i]);
                            }
                        }
                    },
                }
            },
            None => {
                assert forall|i: int| 0 <= i < after.len() implies tells(
                    mails,
                    n,
                    #[trigger] after[i],
                ) by {
                    assert(after[i] == before[i]);
                    lemma_tells_still(mails, n, before[i]);
                }
            },
        }
    }
}

/// Whether some member row has a sequence number and a mail.
pub open spec fn has_row(rows: Seq<MemberRow>, seq: u32, mail_id: i64) -> bool {
    exists|i: int|
        0 <= i < rows.len() && (#[trigger] rows[i]).seq == seq && rows[i].mail_id == mail_id
}

/// Whether some member row has a sequence number.
pub open spec fn has_seq(rows: Seq<MemberRow>, seq: u32) -> bool {
    exists|i: int| 0 <= i < rows.len() && (#[trigger] rows[i]).seq == seq
}

/// What the row of a revision says follows from its member rows: the cover is the
/// member with number 0 and no other row is marked as one, and the revision is
/// complete exactly when every number up to the announced total has a row.
pub proof fn law_revision_rows_agree_with_their_members(
    row: RevisionRow,
    change_key: Seq<char>,
    revision: RevisionView,
)
    requires
        records_revision(row, change_key, revision),
    ensures
        row.expected_total == revision.expected_total,
        row.cover_mail_id matches Some(id) ==> has_row(row.members@, 0, id),
        row.cover_mail_id is None ==> !has_seq(row.members@, 0),
        forall|i: int|
            0 <= i < row.members@.len() ==> ((#[trigger] row.members@[i]).is_cover
                <==> row.members@[i].seq == 0),
        row.expected_total > 0 ==> (row.completeness@ == "complete"@ <==> forall|seq: u32|
            1 <= seq <= row.expected_total ==> #[trigger] has_seq(row.members@, seq)),
        row.expected_total > 0 ==> (row.completeness@ == "complete"@ || row.completeness@
            == "partial"@),
        row.expected_total == 0 ==> row.completeness@ == "ambiguous"@,
        row.fingerprint@ == change_key + ":"@ + text::decimal(row.revision as nat),
{
    reveal_strlit("complete");
    reveal_strlit("partial");
    assert("complete"@.len() != "partial"@.len());
    let members = revision.members;
    let rows = row.members@;
    assert forall|seq: u32| #[trigger] has_seq(rows, seq) <==> members.contains_key(seq) by {
        if has_seq(rows, seq) {
            let i = choose|i: int| 0 <= i < rows.len() && (#[trigger] rows[i]).seq == seq;
            assert(members.contains_key(rows[i].seq));
        }
    }
    if members.contains_key(0) {
        let i = choose|i: int| 0 <= i < rows.len() && (#[trigger] rows[i]).seq == 0;
        assert(rows[i].mail_id == members[0].mail_id);
        assert(has_row(rows, 0, members[0].mail_id));
    } else {
        assert(!has_seq(rows, 0));
    }
    if forall|seq: u32| 1 <= seq <= row.expected_total ==> #[trigger] has_seq(rows, seq) {
        assert forall|seq: u32| 1 <= seq <= revision.expected_total implies members.contains_key(
            seq,
        ) by {
            assert(has_seq(rows, seq));
        }
    }
    if forall|seq: u32| 1 <= seq <= revision.expected_total ==> members.contains_key(seq) {
        assert forall|seq: u32| 1 <= seq <= row.expected_total implies #[trigger] has_seq(
            rows,
            seq,
        ) by {
            assert(members.contains_key(seq));
        }
    }
}

/// What a plan writes of a patch: for the first mail with its number in a revision
/// of a series, a row with the number of the mail, its subject and its total.
pub proof fn law_plans_write_first_patches(
    plan: RefreshPlan,
    mails: Seq<MailView>,
    existing: Seq<Seq<char>>,
    g: int,
    r: int,
    m: int,
)
    requires
        plans_refresh(plan, mails, existing),
        0 <= g < plan.changes@.len(),
        0 <= r < plan.changes@[g].revisions@.len(),
        0 <= m < plan.changes@[g].revisions@[r].members@.len(),
    ensures
        ({
            let group = series_of(mails)[g];
            let row = plan.changes@[g].revisions@[r];
            let member = row.members@[m];
            exists|k: int|
                {
                    &&& 0 <= k < mails.len()
                    &&& #[trigger] patch_at(mails, k, group.key, row.revision, member.seq)
                    &&& member.mail_id == mails[k].mail_id
                    &&& member.subject@ == mails[k].subject
                    &&& member.total == mails[k].parsed.total
                    &&& forall|j: int|
                        0 <= j < k ==> !#[trigger] patch_at(
                            mails,
                            j,
                            group.key,
                            row.revision,
                            member.seq,
                        )
                }
        }),
{
    let group = series_of(mails)[g];
    let change = plan.changes@[g];
    assert(records_change(change, group));
    let row = change.revisions@[r];
    let revision = group.revisions[row.revision];
    assert(records_revision(row, group.change_key, revision));
    let member = row.members@[m];
    law_series_hold_first_patches(mails);
    assert(holds_first_patches(mails, mails.len() as int, group));
    assert(revision.members.contains_key(member.seq));
    let mail = revision.members[member.seq];
    assert(is_first_patch(mails, mails.len() as int, group.key, row.revision, member.seq, mail));
}

/// What a plan writes of a reply: the last mail with its number, with the patch
/// that it replies to where it names one.
pub proof fn law_plans_write_replies(
    plan: RefreshPlan,
    mails: Seq<MailView>,
    existing: Seq<Seq<char>>,
    g: int,
    r: int,
    m: int,
)
    requires
        plans_refresh(plan, mails, existing),
        0 <= g < plan.changes@.len(),
        0 <= r < plan.changes@[g].revisions@.len(),
        0 <= m < plan.changes@[g].revisions@[r].followups@.len(),
    ensures
        ({
            let group = series_of(mails)[g];
            let row = plan.changes@[g].revisions@[r];
            let reply = row.followups@[m];
            exists|k: int|
                {
                    &&& 0 <= k < mails.len()
                    &&& #[trigger] reply_at(mails, k, group.key, row.revision, reply.mail_id)
                    &&& mails[k].parsed.seq == 0 ==> reply.member_seq is None
                    &&& mails[k].parsed.seq > 0 ==> reply.member_seq == Some(mails[k].parsed.seq)
                }
        }),
{
    let group = series_of(mails)[g];
    let change = plan.changes@[g];
    assert(records_change(change, group));
    let row = change.revisions@[r];
    let revision = group.revisions[row.revision];
    assert(records_revision(row, group.change_key, revision));
    let reply = row.followups@[m];
    law_series_hold_first_patches(mails);
    assert(holds_first_patches(mails, mails.len() as int, group));
    assert(revision.followups.contains_key(reply.mail_id));
    let mail = revision.followups[reply.mail_id];
    assert(is_last_reply(
        mails,
        mails.len() as int,
        group.key,
        row.revision,
        reply.mail_id,
        mail,
    ));
}

/// A catalog entry shows what is stored of its revision, member by member, and
/// lists as missing the announced numbers that no stored member has.
pub proof fn law_catalog_entries_show_what_is_stored(shown: SeriesCatalog, stored: StoredRevision)
    requires
        shows_revision(shown, stored),
        0 <= stored.expected_total <= u32::MAX,
    ensures
        shown.change_key == stored.change_key,
        0 <= stored.revision <= u32::MAX ==> shown.revision as int == stored.revision as int,
        shown.thread_id == stored.thread_id,
        shown.subject == stored.subject,
        shown.author == stored.author,
        shown.expected_total as int == stored.expected_total as int,
        shown.completeness == stored.completeness,
        shown.status == stored.status,
        0 <= stored.followup_count <= u32::MAX ==> shown.followup_count as int
            == stored.followup_count as int,
        shown.members@.len() == stored.members@.len(),
        forall|i: int|
            0 <= i < shown.members@.len() ==> {
                let member = #[trigger] shown.members@[i];
                let kept = stored.members@[i];
                &&& member.mail_id == kept.mail_id
                &&& member.message_id == kept.message_id
                &&& member.subject == kept.subject
                &&& member.raw_path == kept.raw_path
                &&& 0 <= kept.seq <= u32::MAX ==> member.seq as int == kept.seq as int
                &&& 0 <= kept.total <= u32::MAX ==> member.total as int == kept.total as int
            },
        forall|seq: u32|
            shown.missing@.contains(seq) <==> 1 <= seq <= stored.expected_total && !#[trigger] has_member(
                shown.members@,
                seq,
            ),
{
    law_missing_patches_are_those_without_a_member(shown.members@, shown.expected_total);
    assert forall|i: int| 0 <= i < shown.members@.len() implies {
        let member = #[trigger] shown.members@[i];
        let kept = stored.members@[i];
        &&& member.mail_id == kept.mail_id
        &&& member.message_id == kept.message_id
        &&& member.subject == kept.subject
        &&& member.raw_path == kept.raw_path
        &&& 0 <= kept.seq <= u32::MAX ==> member.seq as int == kept.seq as int
        &&& 0 <= kept.total <= u32::MAX ==> member.total as int == kept.total as int
    } by {
        assert(shows_member(shown.members@[i], stored.members@[i]));
    }
}

/// Missing patches are listed in ascending order.
pub proof fn law_missing_patches_ascend(members: Seq<SeriesMember>, total: u32)
    ensures
        forall|i: int, j: int|
            0 <= i < j < missing_members(members, total as int).len() ==> missing_members(
                members,
                total as int,
            )[i] < missing_members(members, total as int)[j],
{
    lemma_missing_ascend(members, total as int);
}

/// Missing numbers ascend and stay below the total.
proof fn lemma_missing_ascend(members: Seq<SeriesMember>, total: int)
    requires
        0 <= total <= u32::MAX,
    ensures
        forall|i: int, j: int|
            0 <= i < j < missing_members(members, total).len() ==> missing_members(
                members,
                total,
            )[i] < missing_members(members, total)[j],
        forall|i: int|
            0 <= i < missing_members(members, total).len() ==> #[trigger] missing_members(
                members,
                total,
            )[i] <= total,
    decreases total,
{
    if total > 0 {
        lemma_missing_ascend(members, total - 1);
        let before = missing_members(members, total - 1);
        let all = missing_members(members, total);
        assert forall|i: int| 0 <= i < all.len() implies #[trigger] all[i] <= total by {
            if i < before.len() {
                assert(all[i] == before[i]);
            }
        }
        assert forall|i: int, j: int| 0 <= i < j < all.len() implies all[i] < all[j] by {
            assert(all[i] == before[i]);
            if j < before.len() {
                assert(all[j] == before[j]);
            }
        }
    }
}

/// What the catalog takes a subject for.
pub proof fn law_other_mails_stand_outside_every_series(subject: Seq<char>)
    ensures
        patch_subject(subject) matches Some((parsed, is_reply)) ==> catalog_subject(subject) == (
            parsed,
            is_reply,
        ),
        patch_subject(subject) is None ==> catalog_subject(subject).1 && catalog_subject(
            subject,
        ).0.total == 0,
{
}

/// A catalog mail is seen as it is, field by field.
pub proof fn law_catalog_mails_are_seen_as_they_are(mail: CatalogMail)
    ensures
        mail@.thread_id == mail.thread_id,
        mail@.thread_key == text::opt_text(mail.thread_key),
        mail@.mail_id == mail.mail_id,
        mail@.change_id == text::opt_text(mail.change_id),
        mail@.subject == mail.subject@,
        mail@.from_addr == mail.from_addr@,
        mail@.is_reply == mail.is_reply,
        mail@.parsed.version == mail.parsed.version,
        mail@.parsed.seq == mail.parsed.seq,
        mail@.parsed.total == mail.parsed.total,
        mail@.parsed.title == mail.parsed.title@,
{
}

/// A series is seen as it is, field by field.
pub proof fn law_series_are_seen_as_they_are(group: Group)
    ensures
        group@.key == group.key@,
        group@.change_key == group.change_key@,
        group@.change_id == text::opt_text(group.change_id),
        group@.subject == group.subject@,
        group@.author == group.author@,
        group@.thread_key == text::opt_text(group.thread_key),
        forall|v: u32| #[trigger]
            group.revisions@.contains_key(v) ==> group@.revisions.contains_key(v)
                && group@.revisions[v].version == group.revisions@[v].version
                && group@.revisions[v].expected_total == group.revisions@[v].expected_total,
{
}

/// A patch mail is told from a reply or a forward by how its subject opens, and by
/// nothing else.
pub proof fn law_replies_are_told_by_their_opening(subject: Seq<char>)
    ensures
        patch_subject(subject) matches Some((_, is_reply)) ==> is_reply == (text::opens_with(
            text::lowered(text::trimmed(subject)),
            "re:"@,
        ) || text::opens_with(text::lowered(text::trimmed(subject)), "fwd:"@)),
        text::trimmed(subject).len() > 0 && text::trimmed(subject)[0] > '\x7f' ==> patch_subject(
            subject,
        ) is None,
{
    reveal_strlit("re:");
    reveal_strlit("fwd:");
    let value = text::trimmed(subject);
    let low = text::lowered(value);
    if value.len() > 0 && value[0] > '\x7f' {
        assert(low[0] == value[0]);
        if text::opens_with(low, "re:"@) {
            assert(low.subrange(0, 3)[0] == low[0]);
        }
        if text::opens_with(low, "fwd:"@) {
            assert(low.subrange(0, 4)[0] == low[0]);
        }
    }
}

/// Keys are hashed byte by byte, each byte after those before it, so that a key of
/// the catalog stays the same wherever it is computed.
pub proof fn law_hashes_go_byte_by_byte(bytes: Seq<u8>, byte: u8, key: Seq<char>)
    ensures
        fnv_bytes(seq![]) == 0xcbf29ce484222325,
        fnv_bytes(bytes.push(byte)) == (fnv_bytes(bytes) ^ byte as u64).wrapping_mul(
            0x100000001b3,
        ),
        change_key_of(key) == "change:"@ + text::hex_word(
            fnv_bytes(vstd::utf8::encode_utf8(key)),
        ),
{
    assert(bytes.push(byte).drop_last() == bytes);
}

/// Whether two series stand in the order of their first mails.
pub open spec fn opens_before(mails: Seq<MailView>, a: GroupView, b: GroupView) -> bool {
    exists|i: int, j: int|
        0 <= i < j < mails.len() && #[trigger] opens_series(mails, i, a.key)
            && #[trigger] opens_series(mails, j, b.key)
}

/// Series stand in the order of their first mails.
pub proof fn law_series_stand_in_the_order_of_their_mails(mails: Seq<MailView>, a: int, b: int)
    requires
        0 <= a < b < series_of(mails).len(),
    ensures
        opens_before(mails, series_of(mails)[a], series_of(mails)[b]),
{
    let n = mails.len() as int;
    let m = lemma_opened_later(mails, n, b);
    lemma_grouped_tells(mails, m);
    lemma_grouped_tells(mails, n);
    lemma_groups_stay(mails, m, n);
    let before = grouped(mails, m);
    let after = grouped(mails, n);
    let first = before[a];
    assert(tells(mails, m, first));
    let i = choose|i: int|
        0 <= i < m && #[trigger] opens_series(mails, i, first.key) && first.author
            == mails[i].from_addr && first.subject == mail_series_title(
            mails,
            mails[i],
            catalog_subject(mails[i].subject).0.title,
        );
    assert(opens_series(mails, i, after[a].key));
    assert(opens_series(mails, m, after[b].key));
}

/// Series keep their places and keys.
proof fn lemma_groups_stay(mails: Seq<MailView>, m: int, n: int)
    requires
        0 <= m <= n <= mails.len(),
    ensures
        grouped(mails, m).len() <= grouped(mails, n).len(),
        forall|i: int|
            0 <= i < grouped(mails, m).len() ==> (#[trigger] grouped(mails, m)[i]).key == grouped(
                mails,
                n,
            )[i].key,
    decreases n - m,
{
    if m < n {
        lemma_groups_stay(mails, m, n - 1);
        let before = grouped(mails, n - 1);
        let mail = mails[n - 1];
        if let Some((parsed, _)) = patch_subject(mail.subject) {
            let key = series_key(mails, mail, parsed.title);
            lemma_group_index(before, key, 0);
        }
        let start = grouped(mails, m);
        let after = grouped(mails, n);
        assert forall|i: int| 0 <= i < start.len() implies (#[trigger] start[i]).key
            == after[i].key by {
            assert(start[i].key == before[i].key);
            assert(before[i].key == after[i].key);
        }
    }
}

/// The mail that opened the series at an index: none of the series before it was
/// opened later.
proof fn lemma_opened_later(mails: Seq<MailView>, n: int, b: int) -> (m: int)
    requires
        0 <= n <= mails.len(),
        0 <= b < grouped(mails, n).len(),
    ensures
        0 <= m < n,
        grouped(mails, m).len() == b,
        opens_series(mails, m, grouped(mails, n)[b].key),
    decreases n,
{
    let before = grouped(mails, n - 1);
    let mail = mails[n - 1];
    if b < before.len() {
        let m = lemma_opened_later(mails, n - 1, b);
        lemma_groups_stay(mails, n - 1, n);
        m
    } else {
        let parsed = catalog_subject(mail.subject).0;
        let key = series_key(mails, mail, parsed.title);
        lemma_grouped(mails, n - 1);
        lemma_group_index(before, key, 0);
        assert(patch_subject(mail.subject) is Some);
        assert(grouped(mails, n)[b].key == key);
        assert(in_series(mails, n - 1, key));
        assert forall|j: int| 0 <= j < n - 1 implies !#[trigger] in_series(mails, j, key) by {
            if in_series(mails, j, key) {
                let said = catalog_subject(mails[j].subject).0;
                assert(filed(before, key, mails[j], said));
            }
        }
        n - 1
    }
}

/// A plan writes the series in their order, the revisions of each in ascending
/// order, and so the members and the replies of each revision.
pub proof fn law_plans_write_in_order(
    plan: RefreshPlan,
    mails: Seq<MailView>,
    existing: Seq<Seq<char>>,
    g: int,
    r: int,
)
    requires
        plans_refresh(plan, mails, existing),
        0 <= g < plan.changes@.len(),
        0 <= r < plan.changes@[g].revisions@.len(),
    ensures
        plan.changes@.len() == series_of(mails).len(),
        plan.changes@[g].change_key@ == series_of(mails)[g].change_key,
        plan.changes@[g].subject@ == series_of(mails)[g].subject,
        plan.changes@[g].author@ == series_of(mails)[g].author,
        text::opt_text(plan.changes@[g].change_id) == series_of(mails)[g].change_id,
        text::opt_text(plan.changes@[g].thread_key) == series_of(mails)[g].thread_key,
        forall|i: int, j: int|
            0 <= i < j < plan.changes@[g].revisions@.len()
                ==> plan.changes@[g].revisions@[i].revision
                < plan.changes@[g].revisions@[j].revision,
        forall|i: int, j: int|
            0 <= i < j < plan.changes@[g].revisions@[r].members@.len()
                ==> plan.changes@[g].revisions@[r].members@[i].seq
                < plan.changes@[g].revisions@[r].members@[j].seq,
        forall|i: int, j: int|
            0 <= i < j < plan.changes@[g].revisions@[r].followups@.len()
                ==> plan.changes@[g].revisions@[r].followups@[i].mail_id
                < plan.changes@[g].revisions@[r].followups@[j].mail_id,
{
    assert(records_change(plan.changes@[g], series_of(mails)[g]));
    let row = plan.changes@[g].revisions@[r];
    let group = series_of(mails)[g];
    assert(records_revision(row, group.change_key, group.revisions[row.revision]));
}

/// Without spaces and brackets, an author is told by all of their letters, in
/// lower case.
pub proof fn law_authors_are_told_by_all_letters(author: Seq<char>)
    requires
        forall|i: int|
            0 <= i < author.len() ==> #[trigger] author[i] != ' ' && author[i] != '<' && author[i]
                != '>',
    ensures
        author_key(author) == text::lowered(author),
{
    let low = text::lowered(author);
    assert forall|i: int| 0 <= i < low.len() implies !CharClass::AuthorNoise.has(
        #[trigger] low[i],
    ) by {
        assert(low[i] == text::lower_char(author[i]));
    }
    lemma_without_nothing(low, CharClass::AuthorNoise);
}

/// Where nothing is of the class, nothing is dropped.
proof fn lemma_without_nothing(s: Seq<char>, class: CharClass)
    requires
        forall|i: int| 0 <= i < s.len() ==> !class.has(#[trigger] s[i]),
    ensures
        text::without(s, class) == s,
    decreases s.len(),
{
    if s.len() > 0 {
        let init = s.drop_last();
        assert forall|i: int| 0 <= i < init.len() implies !class.has(#[trigger] init[i]) by {
            assert(init[i] == s[i]);
        }
        lemma_without_nothing(init, class);
        assert(!class.has(s[s.len() - 1]));
        assert(init.push(s.last()) == s);
    }
}

/// A word that states a revision opens with a small `v` and goes on with a number;
/// a word that states a place is two numbers with a stroke between them.
pub proof fn law_numbers_of_a_tag_have_their_forms(word: Seq<char>)
    ensures
        tag_version(word) matches Some(version) ==> word.len() > 1 && word[0] == 'v'
            && text::number(word.skip(1)) == Some(version),
        word.len() > 0 && word[0] == 'v' && text::number(word.skip(1)) is Some ==> tag_version(
            word,
        ) is Some,
        tag_position(word) matches Some((seq, total)) ==> text::has_any(
            word,
            CharClass::One('/'),
        ),
        tag_version(word) is Some ==> tag_position(word) is None,
{
    text::lemma_find_from(word, CharClass::One('/'), 0);
    if tag_version(word) is Some {
        text::law_numbers_are_made_of_digits(word.skip(1));
        if tag_position(word) is Some {
            let at = text::find(word, CharClass::One('/'))->0;
            text::law_numbers_are_made_of_digits(word.take(at));
            assert(at > 0);
            assert(word.take(at)[0] == word[0]);
        }
    }
}

} // verus!
