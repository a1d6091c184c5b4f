//! Completing patch series that a synchronisation saw only in part.
//!
//! A partial fetch can bring the middle of a series, or only a reply to it.
//! This module finds out which series are incomplete and which mails or threads
//! have to be fetched so that they become whole.

use crate::imap;
use crate::imap::EnvelopeView;
use crate::imap::RemoteMail;
use crate::imap::RemoteMailEnvelope;
use crate::imap::RemoteView;
use crate::mail_parser;
use crate::mail_parser::HeadersView;
use crate::mail_parser::ParsedMailHeaders;
use crate::patch;
use crate::series_store;
use crate::text;
use crate::text::CharClass;
use std::collections::HashSet;
use vstd::prelude::*;

verus! {

// ---------------------------------------------------------------------------
// Where a mail stands
// ---------------------------------------------------------------------------

/// Whether a subject opens with a reply or forward marker.
pub open spec fn marked(subject: Seq<char>) -> bool {
    let value = text::lowered(text::trimmed_start(subject));
    text::opens_with(value, "re:"@) || text::opens_with(value, "fwd:"@) || text::opens_with(value, "fw:"@)
}

/// The first plain word of a title, which all patches of a series are taken to
/// share.
pub open spec fn family_word(title: Seq<char>) -> Seq<char> {
    let plain = series_store::plain_words(text::words(title));
    if plain.len() > 0 {
        plain[0]
    } else {
        seq![]
    }
}

/// What tells one series from another while mails come in.
#[derive(Debug)]
pub struct SeriesKey {
    pub version: u32,
    pub total: u32,
    pub author: String,
    pub list: String,
    pub family: String,
}

/// The texts of a series key.
#[verifier::ext_equal]
pub struct KeyView {
    pub version: u32,
    pub total: u32,
    pub author: Seq<char>,
    pub list: Seq<char>,
    pub family: Seq<char>,
}

impl View for SeriesKey {
    type V = KeyView;

    open spec fn view(&self) -> KeyView {
        KeyView {
            version: self.version,
            total: self.total,
            author: self.author@,
            list: self.list@,
            family: self.family@,
        }
    }
}

/// The key without author and list: the family of a series.
pub open spec fn family_of(key: KeyView) -> KeyView {
    KeyView { author: seq![], list: seq![], ..key }
}

/// The key of the series of a patch mail, and its sequence number. Replies and
/// other mails stand nowhere.
pub open spec fn placed(mail: HeadersView) -> Option<(KeyView, u32)> {
    if marked(mail.subject) {
        None
    } else {
        match patch::signature(mail.subject) {
            Some(parsed) => Some(
                (
                    KeyView {
                        version: parsed.version,
                        total: parsed.total,
                        author: mail_parser::or_empty(mail_parser::mailbox_of(mail.from_addr)),
                        list: mail_parser::or_empty(mail.list_id),
                        family: family_word(parsed.title),
                    },
                    parsed.seq,
                ),
            ),
            None => None,
        }
    }
}

/// The key that a place counts under: of its series, or of its family.
pub open spec fn counted_key(key: KeyView, by_family: bool) -> KeyView {
    if by_family {
        family_of(key)
    } else {
        key
    }
}

/// The sequence numbers that are there under a key.
pub open spec fn present(mails: Seq<EnvelopeView>, key: KeyView, by_family: bool) -> Set<u32>
    decreases mails.len(),
{
    if mails.len() == 0 {
        Set::empty()
    } else {
        let before = present(mails.drop_last(), key, by_family);
        match placed(mails.last().parsed) {
            Some((stands, seq)) => if counted_key(stands, by_family) == key {
                before.insert(seq)
            } else {
                before
            },
            None => before,
        }
    }
}

/// Whether some patch of a series is there, but not as many as it has.
pub open spec fn incomplete(mails: Seq<EnvelopeView>, key: KeyView) -> bool {
    &&& present(mails, key, false).len() > 0
    &&& present(mails, key, false).len() < key.total
}

/// Whether some series is incomplete.
pub open spec fn any_incomplete(mails: Seq<EnvelopeView>) -> bool {
    exists|i: int|
        0 <= i < mails.len() && (placed((#[trigger] mails[i]).parsed) matches Some((key, _))
            && incomplete(mails, key))
}

/// Whether some series of a family is incomplete.
pub open spec fn family_incomplete(mails: Seq<EnvelopeView>, family: KeyView) -> bool {
    exists|i: int|
        0 <= i < mails.len() && (placed((#[trigger] mails[i]).parsed) matches Some((key, _))
            && incomplete(mails, key) && family_of(key) == family)
}

/// Decides whether a subject opens with a reply or forward marker.
pub fn is_reply_or_forward_subject(subject: &str) -> (r: bool)
    ensures
        r == marked(subject@),
{
    let all = text::chars_of(subject);
    let value = text::lower(text::trim_start(all.as_slice()));
    let re = text::chars_of("re:");
    let fwd = text::chars_of("fwd:");
    let fw = text::chars_of("fw:");
    text::starts_with(value.as_slice(), re.as_slice()) || text::starts_with(value.as_slice(), fwd.as_slice())
        || text::starts_with(value.as_slice(), fw.as_slice())
}

/// Finds the first plain word of a title.
pub fn series_family_key(title: &str) -> (r: String)
    ensures
        r@ == family_word(title@),
{
    let all = text::chars_of(title);
    let parts = text::split_words(all.as_slice());
    let ghost views = text::slices(parts@);
    let mut i: usize = 0;
    assert(series_store::plain_words(views.take(0)) == Seq::<Seq<char>>::empty());
    while i < parts.len()
        invariant
            i <= parts.len(),
            views == text::slices(parts@),
            views == text::words(title@),
            series_store::plain_words(views.take(i as int)).len() == 0,
        decreases parts.len() - i,
    {
        assert(views.take(i + 1).drop_last() == views.take(i as int));
        assert(views.take(i + 1).last() == parts@[i as int]@);
        let low = text::lower(text::strip(parts[i], &CharClass::Symbol));
        if low.len() > 0 {
            proof {
                assert(series_store::plain_words(views.take(i + 1)) == seq![low@]);
                lemma_plain_prefix(views, i + 1);
            }
            return text::string_of(low.as_slice());
        }
        i += 1;
    }
    assert(views.take(i as int) == views);
    String::new()
}

/// The first plain word stays the first when more words follow.
proof fn lemma_plain_prefix(parts: Seq<Seq<char>>, n: int)
    requires
        0 <= n <= parts.len(),
        series_store::plain_words(parts.take(n)).len() > 0,
    ensures
        series_store::plain_words(parts).len() > 0,
        series_store::plain_words(parts)[0] == series_store::plain_words(parts.take(n))[0],
    decreases parts.len() - n,
{
    if n < parts.len() {
        assert(parts.take(n + 1).drop_last() == parts.take(n));
        lemma_plain_prefix(parts, n + 1);
    } else {
        assert(parts.take(n) == parts);
    }
}

/// Finds out where a mail stands.
fn place_of(mail: &ParsedMailHeaders, by_family: bool) -> (r: Option<(SeriesKey, u32)>)
    ensures
        match r {
            Some((key, seq)) => placed(mail@) matches Some((stands, at)) && seq == at && key@
                == counted_key(stands, by_family),
            None => placed(mail@) is None,
        },
{
    if is_reply_or_forward_subject(mail.subject.as_str()) {
        return None;
    }
    match patch::patch_series_signature(mail.subject.as_str()) {
        Some((version, seq, total, title)) => {
            let family = series_family_key(title.as_str());
            if by_family {
                let key = SeriesKey {
                    version,
                    total,
                    author: String::new(),
                    list: String::new(),
                    family,
                };
                assert(key@.author == Seq::<char>::empty() && key@.list == Seq::<char>::empty());
                return Some((key, seq));
            }
            let author = match mail_parser::normalize_email_address(mail.from_addr.as_str()) {
                Some(author) => author,
                None => String::new(),
            };
            let list = match &mail.list_id {
                Some(list) => list.clone(),
                None => String::new(),
            };
            let key = SeriesKey { version, total, author, list, family };
            assert(placed(mail@) matches Some((stands, at)) && key@ == stands && at == seq);
            Some((key, seq))
        },
        None => None,
    }
}

// ---------------------------------------------------------------------------
// Counting what is there
// ---------------------------------------------------------------------------

/// The sequence numbers that are there under one key.
struct Presence {
    key: SeriesKey,
    seqs: HashSet<u32>,
}

/// Whether a table counts the mails: one row for each key under which some mail
/// stands.
spec fn counts(table: Seq<Presence>, mails: Seq<EnvelopeView>, by_family: bool) -> bool {
    &&& forall|t: int|
        0 <= t < table.len() ==> (#[trigger] table[t]).seqs@ == present(
            mails,
            table[t].key@,
            by_family,
        )
    &&& forall|t: int, u: int|
        0 <= t < u < table.len() ==> (#[trigger] table[t]).key@ != (#[trigger] table[u]).key@
    &&& forall|i: int|
        0 <= i < mails.len() ==> (placed((#[trigger] mails[i]).parsed) matches Some((key, _))
            ==> has_row(table, counted_key(key, by_family)))
    &&& forall|t: int|
        0 <= t < table.len() ==> present(mails, (#[trigger] table[t]).key@, by_family).len() > 0
}

/// Whether a table has a row for a key.
spec fn has_row(table: Seq<Presence>, key: KeyView) -> bool {
    exists|t: int| 0 <= t < table.len() && (#[trigger] table[t]).key@ == key
}

/// Decides whether two keys are the same.
fn same_key(a: &SeriesKey, b: &SeriesKey) -> (r: bool)
    ensures
        r == (a@ == b@),
{
    a.version == b.version && a.total == b.total && a.author == b.author && a.list == b.list
        && a.family == b.family
}

/// Finds the row of a key.
fn find_row(table: &Vec<Presence>, key: &SeriesKey) -> (r: Option<usize>)
    ensures
        match r {
            Some(t) => t < table@.len() && table@[t as int].key@ == key@,
            None => !has_row(table@, key@),
        },
{
    let mut t: usize = 0;
    while t < table.len()
        invariant
            t <= table.len(),
            forall|u: int| 0 <= u < t ==> (#[trigger] table@[u]).key@ != key@,
        decreases table.len() - t,
    {
        if same_key(&table[t].key, key) {
            return Some(t);
        }
        t += 1;
    }
    None
}

/// Under a key without mails nothing is there, and what is there is finite.
proof fn lemma_present(mails: Seq<EnvelopeView>, key: KeyView, by_family: bool)
    ensures
        present(mails, key, by_family).finite(),
        present(mails, key, by_family).len() > 0 <==> exists|i: int|
            0 <= i < mails.len() && (placed((#[trigger] mails[i]).parsed) matches Some((stands, _))
                && counted_key(stands, by_family) == key),
        forall|seq: u32|
            #![trigger present(mails, key, by_family).contains(seq)]
            present(mails, key, by_family).contains(seq) <==> exists|i: int|
                0 <= i < mails.len() && (placed((#[trigger] mails[i]).parsed) matches Some(
                    (stands, at),
                ) && at == seq && counted_key(stands, by_family) == key),
    decreases mails.len(),
{
    if mails.len() == 0 {
        assert(present(mails, key, by_family) == Set::<u32>::empty());
    } else {
        let init = mails.drop_last();
        lemma_present(init, key, by_family);
        let was = present(init, key, by_family);
        let now = present(mails, key, by_family);
        let n = mails.len() - 1;
        assert forall|seq: u32| #![trigger now.contains(seq)]
            now.contains(seq) <==> exists|i: int|
                0 <= i < mails.len() && (placed((#[trigger] mails[i]).parsed) matches Some(
                    (stands, at),
                ) && at == seq && counted_key(stands, by_family) == key) by {
            if was.contains(seq) {
                let i = choose|i: int|
                    0 <= i < init.len() && (placed((#[trigger] init[i]).parsed) matches Some(
                        (stands, at),
                    ) && at == seq && counted_key(stands, by_family) == key);
                assert(mails[i] == init[i]);
            }
            if now.contains(seq) && !was.contains(seq) {
                assert(mails[n] == mails.last());
            }
            if exists|i: int|
                0 <= i < mails.len() && (placed((#[trigger] mails[i]).parsed) matches Some(
                    (stands, at),
                ) && at == seq && counted_key(stands, by_family) == key) {
                let i = choose|i: int|
                    0 <= i < mails.len() && (placed((#[trigger] mails[i]).parsed) matches Some(
                        (stands, at),
                    ) && at == seq && counted_key(stands, by_family) == key);
                if i < n {
                    assert(init[i] == mails[i]);
                    assert(was.contains(seq));
                }
            }
        }
        if now.len() > 0 {
            let seq = now.choose();
            assert(now.contains(seq));
        }
        if exists|i: int|
            0 <= i < mails.len() && (placed((#[trigger] mails[i]).parsed) matches Some((stands, _))
                && counted_key(stands, by_family) == key) {
            let i = choose|i: int|
                0 <= i < mails.len() && (placed((#[trigger] mails[i]).parsed) matches Some(
                    (stands, _),
                ) && counted_key(stands, by_family) == key);
            let seq = placed(mails[i].parsed)->0;
            assert(now.contains(seq.1));
            if now.len() == 0 {
                assert(now == Set::<u32>::empty());
            }
        }
    }
}

/// Counts the mails under their keys.
fn count_places(mails: &Vec<RemoteMailEnvelope>, by_family: bool) -> (r: Vec<Presence>)
    ensures
        counts(r@, imap::envelope_views(mails@), by_family),
{
    broadcast use vstd::std_specs::hash::group_hash_axioms;

    let ghost views = imap::envelope_views(mails@);
    let mut table: Vec<Presence> = Vec::new();
    let mut i: usize = 0;
    assert(counts(table@, views.take(0), by_family));
    while i < mails.len()
        invariant
            i <= mails.len(),
            views == imap::envelope_views(mails@),
            counts(table@, views.take(i as int), by_family),
        decreases mails.len() - i,
    {
        let ghost front = views.take(i as int);
        let ghost next = views.take(i + 1);
        let ghost before = table@;
        assert(next.drop_last() == front);
        assert(next.last() == mails@[i as int]@);
        match place_of(&mails[i].parsed, by_family) {
            Some((key, seq)) => {
                let ghost stands = key@;
                match find_row(&table, &key) {
                    Some(t) => {
                        table[t].seqs.insert(seq);
                        proof {
                            lemma_row_counted(before, table@, front, next, by_family, t as int);
                        }
                    },
                    None => {
                        let mut seqs: HashSet<u32> = HashSet::new();
                        seqs.insert(seq);
                        proof {
                            lemma_present(front, stands, by_family);
                            lemma_unseen(before, front, stands, by_family);
                        }
                        let row = Presence { key, seqs };
                        table.push(row);
                        assert(row.seqs@ == Set::<u32>::empty().insert(seq));
                        assert(table@.drop_last() == before);
                        proof {
                            lemma_row_opened(before, table@, front, next, by_family);
                        }
                    },
                }
            },
            None => {
                proof {
                    lemma_not_counted(before, front, next, by_family);
                }
            },
        }
        i += 1;
    }
    assert(views.take(i as int) == views);
    table
}

/// A key without a row has nothing under it.
proof fn lemma_unseen(
    table: Seq<Presence>,
    mails: Seq<EnvelopeView>,
    key: KeyView,
    by_family: bool,
)
    requires
        counts(table, mails, by_family),
        !has_row(table, key),
    ensures
        present(mails, key, by_family) == Set::<u32>::empty(),
{
    lemma_present(mails, key, by_family);
    if present(mails, key, by_family).len() > 0 {
        let i = choose|i: int|
            0 <= i < mails.len() && (placed((#[trigger] mails[i]).parsed) matches Some((stands, _))
                && counted_key(stands, by_family) == key);
        assert(has_row(table, key));
    }
    assert(present(mails, key, by_family) =~= Set::<u32>::empty());
}

/// A mail that stands nowhere changes no count.
proof fn lemma_not_counted(
    table: Seq<Presence>,
    front: Seq<EnvelopeView>,
    next: Seq<EnvelopeView>,
    by_family: bool,
)
    requires
        counts(table, front, by_family),
        next.len() == front.len() + 1,
        next.drop_last() == front,
        placed(next.last().parsed) is None,
    ensures
        counts(table, next, by_family),
{
    assert forall|i: int| 0 <= i < next.len() implies (placed(
        (#[trigger] next[i]).parsed,
    ) matches Some((key, _)) ==> has_row(table, counted_key(key, by_family))) by {
        if i < front.len() {
            assert(next[i] == front[i]);
        }
    }
}

/// A mail under a known key changes that row alone.
proof fn lemma_row_counted(
    before: Seq<Presence>,
    table: Seq<Presence>,
    front: Seq<EnvelopeView>,
    next: Seq<EnvelopeView>,
    by_family: bool,
    t: int,
)
    requires
        counts(before, front, by_family),
        next.len() == front.len() + 1,
        next.drop_last() == front,
        0 <= t < before.len(),
        table.len() == before.len(),
        placed(next.last().parsed) matches Some((stands, seq)) && counted_key(stands, by_family)
            == before[t].key@ && table[t].seqs@ == before[t].seqs@.insert(seq),
        table[t].key == before[t].key,
        forall|u: int| 0 <= u < table.len() && u != t ==> #[trigger] table[u] == before[u],
    ensures
        counts(table, next, by_family),
{
    assert forall|u: int| 0 <= u < table.len() implies (#[trigger] table[u]).seqs@ == present(
        next,
        table[u].key@,
        by_family,
    ) by {
        if u != t {
            assert(table[u] == before[u]);
            if u < t {
                assert(before[u].key@ != before[t].key@);
            } else {
                assert(before[t].key@ != before[u].key@);
            }
        }
    }
    assert forall|a: int, b: int| 0 <= a < b < table.len() implies (#[trigger] table[a]).key@ != (
    #[trigger] table[b]).key@ by {
        assert(table[a].key == before[a].key);
        assert(table[b].key == before[b].key);
    }
    assert forall|i: int| 0 <= i < next.len() implies (placed(
        (#[trigger] next[i]).parsed,
    ) matches Some((key, _)) ==> has_row(table, counted_key(key, by_family))) by {
        if let Some((key, _)) = placed(next[i].parsed) {
            if i < front.len() {
                assert(next[i] == front[i]);
                assert(has_row(before, counted_key(key, by_family)));
                let u = choose|u: int|
                    0 <= u < before.len() && (#[trigger] before[u]).key@ == counted_key(
                        key,
                        by_family,
                    );
                assert(table[u].key@ == counted_key(key, by_family));
            } else {
                assert(next[i] == next.last());
                assert(table[t].key@ == counted_key(key, by_family));
            }
        }
    }
    assert forall|u: int| 0 <= u < table.len() implies present(
        next,
        (#[trigger] table[u]).key@,
        by_family,
    ).len() > 0 by {
        assert(table[u].key == before[u].key);
        assert(present(front, before[u].key@, by_family).len() > 0);
        lemma_present(front, before[u].key@, by_family);
    }
}

/// A mail under a new key opens a row.
proof fn lemma_row_opened(
    before: Seq<Presence>,
    table: Seq<Presence>,
    front: Seq<EnvelopeView>,
    next: Seq<EnvelopeView>,
    by_family: bool,
)
    requires
        counts(before, front, by_family),
        next.len() == front.len() + 1,
        next.drop_last() == front,
        table.len() == before.len() + 1,
        table.drop_last() == before,
        placed(next.last().parsed) matches Some((stands, seq)) && counted_key(stands, by_family)
            == table.last().key@ && table.last().seqs@ == Set::<u32>::empty().insert(seq),
        !has_row(before, table.last().key@),
        present(front, table.last().key@, by_family) == Set::<u32>::empty(),
    ensures
        counts(table, next, by_family),
{
    let n = before.len() as int;
    let fresh = table.last().key@;
    assert forall|u: int| 0 <= u < n implies #[trigger] table[u] == before[u] by {
        assert(table.drop_last()[u] == before[u]);
    }
    assert forall|u: int| 0 <= u < table.len() implies (#[trigger] table[u]).seqs@ == present(
        next,
        table[u].key@,
        by_family,
    ) by {
        if u < n {
            assert(table[u] == before[u]);
            assert(before[u].key@ != fresh);
        }
    }
    assert forall|a: int, b: int| 0 <= a < b < table.len() implies (#[trigger] table[a]).key@ != (
    #[trigger] table[b]).key@ by {
        assert(table[a] == before[a]);
        if b < n {
            assert(table[b] == before[b]);
        } else {
            assert(before[a].key@ != fresh);
        }
    }
    assert forall|i: int| 0 <= i < next.len() implies (placed(
        (#[trigger] next[i]).parsed,
    ) matches Some((key, _)) ==> has_row(table, counted_key(key, by_family))) by {
        if let Some((key, _)) = placed(next[i].parsed) {
            if i < front.len() {
                assert(next[i] == front[i]);
                assert(has_row(before, counted_key(key, by_family)));
                let u = choose|u: int|
                    0 <= u < before.len() && (#[trigger] before[u]).key@ == counted_key(
                        key,
                        by_family,
                    );
                assert(table[u].key@ == counted_key(key, by_family));
            } else {
                assert(next[i] == next.last());
                assert(table[n].key@ == counted_key(key, by_family));
            }
        }
    }
    assert forall|u: int| 0 <= u < table.len() implies present(
        next,
        (#[trigger] table[u]).key@,
        by_family,
    ).len() > 0 by {
        if u < n {
            assert(table[u] == before[u]);
            assert(present(front, before[u].key@, by_family).len() > 0);
            lemma_present(front, before[u].key@, by_family);
        }
    }
}

/// Decides whether the series of a row is incomplete.
fn row_incomplete(row: &Presence, mails: Ghost<Seq<EnvelopeView>>) -> (r: bool)
    requires
        row.seqs@ == present(mails@, row.key@, false),
        row.seqs@.len() > 0,
    ensures
        r == incomplete(mails@, row.key@),
{
    row.seqs.len() < row.key.total as usize
}

/// Decides whether some series is incomplete.
fn find_incomplete(table: &Vec<Presence>, mails: Ghost<Seq<EnvelopeView>>) -> (r: bool)
    requires
        counts(table@, mails@, false),
    ensures
        r == any_incomplete(mails@),
{
    let mut t: usize = 0;
    while t < table.len()
        invariant
            t <= table.len(),
            counts(table@, mails@, false),
            forall|u: int| 0 <= u < t ==> !incomplete(mails@, (#[trigger] table@[u]).key@),
        decreases table.len() - t,
    {
        if row_incomplete(&table[t], mails) {
            proof {
                let key = table@[t as int].key@;
                lemma_present(mails@, key, false);
                let i = choose|i: int|
                    0 <= i < mails@.len() && (placed((#[trigger] mails@[i]).parsed) matches Some(
                        (stands, _),
                    ) && counted_key(stands, false) == key);
                assert(placed(mails@[i].parsed) is Some);
            }
            return true;
        }
        t += 1;
    }
    proof {
        if any_incomplete(mails@) {
            let i = choose|i: int|
                0 <= i < mails@.len() && (placed((#[trigger] mails@[i]).parsed) matches Some(
                    (key, _),
                ) && incomplete(mails@, key));
            let (key, _) = placed(mails@[i].parsed)->0;
            assert(has_row(table@, counted_key(key, false)));
            let u = choose|u: int| 0 <= u < table@.len() && (#[trigger] table@[u]).key@ == key;
            assert(!incomplete(mails@, table@[u].key@));
        }
    }
    false
}

/// Decides whether some series of a family is incomplete.
fn find_incomplete_family(
    table: &Vec<Presence>,
    family: &SeriesKey,
    mails: Ghost<Seq<EnvelopeView>>,
) -> (r: bool)
    requires
        counts(table@, mails@, false),
        family@ == family_of(family@),
    ensures
        r == family_incomplete(mails@, family@),
{
    let mut t: usize = 0;
    while t < table.len()
        invariant
            t <= table.len(),
            counts(table@, mails@, false),
            family@ == family_of(family@),
            forall|u: int|
                0 <= u < t ==> !(incomplete(mails@, (#[trigger] table@[u]).key@) && family_of(
                    table@[u].key@,
                ) == family@),
        decreases table.len() - t,
    {
        let key = &table[t].key;
        if key.version == family.version && key.total == family.total && key.family
            == family.family {
            assert(family_of(key@) == family@);
            if row_incomplete(&table[t], mails) {
                proof {
                    lemma_present(mails@, key@, false);
                    let i = choose|i: int|
                        0 <= i < mails@.len() && (placed(
                            (#[trigger] mails@[i]).parsed,
                        ) matches Some((stands, _)) && counted_key(stands, false) == key@);
                    assert(placed(mails@[i].parsed) is Some);
                }
                return true;
            }
        } else {
            assert(family_of(key@) != family@);
        }
        t += 1;
    }
    proof {
        if family_incomplete(mails@, family@) {
            let i = choose|i: int|
                0 <= i < mails@.len() && (placed((#[trigger] mails@[i]).parsed) matches Some(
                    (key, _),
                ) && incomplete(mails@, key) && family_of(key) == family@);
            let (key, _) = placed(mails@[i].parsed)->0;
            assert(has_row(table@, counted_key(key, false)));
            let u = choose|u: int| 0 <= u < table@.len() && (#[trigger] table@[u]).key@ == key;
            assert(!(incomplete(mails@, table@[u].key@) && family_of(table@[u].key@) == family@));
        }
    }
    false
}

// ---------------------------------------------------------------------------
// Series on a mail server
// ---------------------------------------------------------------------------

/// The identifier of a fetched mail that has none.
pub open spec fn numbered_id(uid: u32) -> Seq<char> {
    "uid-"@ + text::decimal(uid as nat) + "@criew"@
}

/// A fetched mail with its headers.
pub open spec fn fetched_mail(mail: RemoteView) -> EnvelopeView {
    EnvelopeView { remote: mail, parsed: imap::headers_of(mail.raw, numbered_id(mail.uid)) }
}

/// Whether a mail is a patch that an incomplete series misses.
pub open spec fn fills_a_gap(mails: Seq<EnvelopeView>, candidate: HeadersView) -> bool {
    match placed(candidate) {
        Some((key, seq)) => incomplete(mails, key) && seq > 0 && !present(
            mails,
            key,
            false,
        ).contains(seq),
        None => false,
    }
}

/// The numbers of the candidates that fill a gap, each once.
pub open spec fn gap_numbers(
    mails: Seq<EnvelopeView>,
    candidates: Seq<EnvelopeView>,
) -> Seq<u32>
    decreases candidates.len(),
{
    if candidates.len() == 0 {
        seq![]
    } else {
        let before = gap_numbers(mails, candidates.drop_last());
        let candidate = candidates.last();
        if fills_a_gap(mails, candidate.parsed) && !before.contains(candidate.remote.uid) {
            before.push(candidate.remote.uid)
        } else {
            before
        }
    }
}

/// Fetched mails with their headers.
pub open spec fn fetched_mails(mails: Seq<RemoteView>) -> Seq<EnvelopeView> {
    Seq::new(mails.len(), |i: int| fetched_mail(mails[i]))
}

/// Whether some mail has an identifier.
pub open spec fn has_mail(mails: Seq<EnvelopeView>, id: Seq<char>) -> bool {
    exists|i: int| 0 <= i < mails.len() && (#[trigger] mails[i]).parsed.message_id == id
}

/// The fetched mails that are not among the mails.
pub open spec fn unknown_mails(
    mails: Seq<EnvelopeView>,
    fetched: Seq<EnvelopeView>,
) -> Seq<EnvelopeView>
    decreases fetched.len(),
{
    if fetched.len() == 0 {
        seq![]
    } else {
        let before = unknown_mails(mails, fetched.drop_last());
        if has_mail(mails, fetched.last().parsed.message_id) {
            before
        } else {
            before.push(fetched.last())
        }
    }
}

/// The mails with each fetched mail that is not yet among them.
pub open spec fn joined_mails(
    mails: Seq<EnvelopeView>,
    fetched: Seq<EnvelopeView>,
) -> Seq<EnvelopeView>
    decreases fetched.len(),
{
    if fetched.len() == 0 {
        mails
    } else {
        let before = joined_mails(mails, fetched.drop_last());
        if has_mail(before, fetched.last().parsed.message_id) {
            before
        } else {
            before.push(fetched.last())
        }
    }
}

/// Reads the headers of fetched mails.
pub fn open_fetched(fetched: Vec<RemoteMail>) -> (r: Vec<RemoteMailEnvelope>)
    ensures
        imap::envelope_views(r@) == fetched_mails(imap::remote_views(fetched@)),
{
    let ghost given = fetched@;
    let ghost mails = imap::remote_views(given);
    let ghost wanted = fetched_mails(mails);
    let mut out: Vec<RemoteMailEnvelope> = Vec::new();
    for remote in it: fetched
        invariant
            it.seq() == given,
            mails == imap::remote_views(given),
            wanted == fetched_mails(mails),
            imap::envelope_views(out@) == wanted.take(it.index()),
    {
        let ghost before = out@;
        let ghost at = it.index();
        let mut fallback = text::chars_of("uid-");
        text::append_number(&mut fallback, remote.uid as u64);
        text::append_str(&mut fallback, "@criew");
        let parsed = mail_parser::parse_headers(
            remote.raw.as_slice(),
            text::string_of(fallback.as_slice()),
        );
        assert(mails[at] == remote@);
        let envelope = RemoteMailEnvelope { remote, parsed };
        out.push(envelope);
        assert(imap::envelope_views(out@) == imap::envelope_views(before).push(envelope@));
        assert(wanted[at] == envelope@);
        assert(wanted.take(at + 1) == wanted.take(at).push(wanted[at]));
    }
    assert(wanted.take(wanted.len() as int) == wanted);
    out
}

/// Decides whether a number stands in a list.
fn has_number(numbers: &Vec<u32>, uid: u32) -> (r: bool)
    ensures
        r == numbers@.contains(uid),
{
    let mut i: usize = 0;
    while i < numbers.len()
        invariant
            i <= numbers.len(),
            forall|j: int| 0 <= j < i ==> numbers@[j] != uid,
        decreases numbers.len() - i,
    {
        if numbers[i] == uid {
            return true;
        }
        i += 1;
    }
    false
}

/// Decides whether a mail is a patch that an incomplete series misses.
fn is_gap(
    table: &Vec<Presence>,
    candidate: &ParsedMailHeaders,
    mails: Ghost<Seq<EnvelopeView>>,
) -> (r: bool)
    requires
        counts(table@, mails@, false),
    ensures
        r == fills_a_gap(mails@, candidate@),
{
    broadcast use vstd::std_specs::hash::group_hash_axioms;

    match place_of(candidate, false) {
        Some((key, seq)) => {
            match find_row(table, &key) {
                Some(t) => row_incomplete(&table[t], mails) && seq > 0
                    && !table[t].seqs.contains(&seq),
                None => {
                    proof {
                        lemma_unseen(table@, mails@, key@, false);
                    }
                    false
                },
            }
        },
        None => false,
    }
}

/// Finds the numbers of the candidates that fill a gap of some series.
pub fn find_gap_numbers(
    envelopes: &Vec<RemoteMailEnvelope>,
    candidates: &Vec<RemoteMailEnvelope>,
) -> (r: Vec<u32>)
    ensures
        r@ == gap_numbers(
            imap::envelope_views(envelopes@),
            imap::envelope_views(candidates@),
        ),
{
    let ghost mails = imap::envelope_views(envelopes@);
    let ghost views = imap::envelope_views(candidates@);
    let table = count_places(envelopes, false);
    let mut out: Vec<u32> = Vec::new();
    let mut i: usize = 0;
    assert(out@ == gap_numbers(mails, views.take(0)));
    while i < candidates.len()
        invariant
            i <= candidates.len(),
            views == imap::envelope_views(candidates@),
            counts(table@, mails, false),
            out@ == gap_numbers(mails, views.take(i as int)),
        decreases candidates.len() - i,
    {
        assert(views.take(i + 1).drop_last() == views.take(i as int));
        assert(views.take(i + 1).last() == candidates@[i as int]@);
        let candidate = &candidates[i];
        if is_gap(&table, &candidate.parsed, Ghost(mails)) && !has_number(
            &out,
            candidate.remote.uid,
        ) {
            out.push(candidate.remote.uid);
        }
        i += 1;
    }
    assert(views.take(i as int) == views);
    out
}

/// Decides whether some mail has an identifier.
pub fn knows_mail(envelopes: &Vec<RemoteMailEnvelope>, id: &String) -> (r: bool)
    ensures
        r == has_mail(imap::envelope_views(envelopes@), id@),
{
    let ghost mails = imap::envelope_views(envelopes@);
    let mut i: usize = 0;
    while i < envelopes.len()
        invariant
            i <= envelopes.len(),
            mails == imap::envelope_views(envelopes@),
            forall|j: int| 0 <= j < i ==> (#[trigger] mails[j]).parsed.message_id != id@,
        decreases envelopes.len() - i,
    {
        assert(mails[i as int] == envelopes@[i as int]@);
        if envelopes[i].parsed.message_id == *id {
            return true;
        }
        i += 1;
    }
    false
}

/// Adds the fetched mails that were not there before.
pub fn append_unknown(
    envelopes: Vec<RemoteMailEnvelope>,
    fetched: Vec<RemoteMailEnvelope>,
) -> (r: Vec<RemoteMailEnvelope>)
    ensures
        imap::envelope_views(r@) == imap::envelope_views(envelopes@) + unknown_mails(
            imap::envelope_views(envelopes@),
            imap::envelope_views(fetched@),
        ),
{
    let ghost mails = imap::envelope_views(envelopes@);
    let ghost given = fetched@;
    let ghost views = imap::envelope_views(given);
    let mut added: Vec<RemoteMailEnvelope> = Vec::new();
    assert(imap::envelope_views(added@) == unknown_mails(mails, views.take(0)));
    for envelope in it: fetched
        invariant
            it.seq() == given,
            mails == imap::envelope_views(envelopes@),
            views == imap::envelope_views(given),
            imap::envelope_views(added@) == unknown_mails(mails, views.take(it.index())),
    {
        let ghost before = added@;
        let ghost at = it.index();
        assert(views.take(at + 1).drop_last() == views.take(at));
        assert(views.take(at + 1).last() == envelope@);
        if !knows_mail(&envelopes, &envelope.parsed.message_id) {
            added.push(envelope);
            assert(imap::envelope_views(added@) == imap::envelope_views(before).push(envelope@));
        }
    }
    assert(views.take(views.len() as int) == views);
    let ghost new = added@;
    let ghost old_mails = envelopes@;
    let mut out = envelopes;
    out.append(&mut added);
    assert(out@ == old_mails + new);
    assert(imap::envelope_views(out@) == mails + imap::envelope_views(new));
    out
}

/// Adds each fetched mail that is not there yet.
pub fn append_thread(
    envelopes: Vec<RemoteMailEnvelope>,
    fetched: Vec<RemoteMailEnvelope>,
) -> (r: Vec<RemoteMailEnvelope>)
    ensures
        imap::envelope_views(r@) == joined_mails(
            imap::envelope_views(envelopes@),
            imap::envelope_views(fetched@),
        ),
{
    let ghost mails = imap::envelope_views(envelopes@);
    let ghost given = fetched@;
    let ghost views = imap::envelope_views(given);
    let mut out = envelopes;
    assert(imap::envelope_views(out@) == joined_mails(mails, views.take(0)));
    for envelope in it: fetched
        invariant
            it.seq() == given,
            views == imap::envelope_views(given),
            imap::envelope_views(out@) == joined_mails(mails, views.take(it.index())),
    {
        let ghost before = out@;
        let ghost at = it.index();
        assert(views.take(at + 1).drop_last() == views.take(at));
        assert(views.take(at + 1).last() == envelope@);
        if !knows_mail(&out, &envelope.parsed.message_id) {
            out.push(envelope);
            assert(imap::envelope_views(out@) == imap::envelope_views(before).push(envelope@));
        }
    }
    assert(views.take(views.len() as int) == views);
    out
}

// ---------------------------------------------------------------------------
// Series in a public archive
// ---------------------------------------------------------------------------

/// Whether some mail that is no reply has an identifier.
pub open spec fn known_opening(mails: Seq<EnvelopeView>, id: Seq<char>) -> bool {
    exists|i: int|
        0 <= i < mails.len() && (#[trigger] mails[i]).parsed.message_id == id && !marked(
            mails[i].parsed.subject,
        )
}

/// Whether a reply leads to some mail that is there and no reply itself.
pub open spec fn leads_to_opening(mails: Seq<EnvelopeView>, reply: HeadersView) -> bool {
    ||| exists|k: int|
        0 <= k < reply.references.len() && known_opening(mails, #[trigger] reply.references[k])
    ||| (reply.in_reply_to matches Some(id) && known_opening(mails, id))
}

/// The family of the series that a subject belongs to, replies included.
pub open spec fn subject_family(subject: Seq<char>) -> Option<KeyView> {
    match patch::signature(subject) {
        Some(parsed) => Some(
            KeyView {
                version: parsed.version,
                total: parsed.total,
                author: seq![],
                list: seq![],
                family: family_word(parsed.title),
            },
        ),
        None => None,
    }
}

/// Whether the thread of a mail has to be fetched: that of a reply whose series
/// or opening mail is not there, or of a patch of an incomplete series.
pub open spec fn needs_thread(mails: Seq<EnvelopeView>, mail: HeadersView) -> bool {
    match subject_family(mail.subject) {
        Some(family) => if marked(mail.subject) {
            !leads_to_opening(mails, mail) || present(mails, family, true).len() < family.total
        } else {
            family_incomplete(mails, family)
        },
        None => false,
    }
}

/// One thread to fetch: its family and the mail to ask for.
#[verifier::ext_equal]
pub struct SeedView {
    pub family: KeyView,
    pub message_id: Seq<char>,
}

/// Whether some seed stands for a family.
pub open spec fn has_seed(seeds: Seq<SeedView>, family: KeyView) -> bool {
    exists|i: int| 0 <= i < seeds.len() && (#[trigger] seeds[i]).family == family
}

/// The threads that the first `n` mails ask for, one for each family.
pub open spec fn seeds_of(mails: Seq<EnvelopeView>, n: int) -> Seq<SeedView>
    decreases n,
{
    if n <= 0 {
        seq![]
    } else {
        let before = seeds_of(mails, n - 1);
        let mail = mails[n - 1].parsed;
        match subject_family(mail.subject) {
            Some(family) => if needs_thread(mails, mail) && !has_seed(before, family) {
                before.push(SeedView { family, message_id: mail.message_id })
            } else {
                before
            },
            None => before,
        }
    }
}

/// The identifiers to ask for.
pub open spec fn thread_requests(mails: Seq<EnvelopeView>) -> Seq<Seq<char>> {
    let seeds = seeds_of(mails, mails.len() as int);
    Seq::new(seeds.len(), |i: int| seeds[i].message_id)
}

/// One thread to fetch.
struct Seed {
    family: SeriesKey,
    message_id: String,
}

impl View for Seed {
    type V = SeedView;

    closed spec fn view(&self) -> SeedView {
        SeedView { family: self.family@, message_id: self.message_id@ }
    }
}

/// The texts of a list of seeds.
spec fn seed_views(v: Seq<Seed>) -> Seq<SeedView> {
    Seq::new(v.len(), |i: int| v[i]@)
}

/// Decides whether some mail that is no reply has an identifier.
fn knows_opening(envelopes: &Vec<RemoteMailEnvelope>, id: &String) -> (r: bool)
    ensures
        r == known_opening(imap::envelope_views(envelopes@), id@),
{
    let ghost mails = imap::envelope_views(envelopes@);
    let mut i: usize = 0;
    while i < envelopes.len()
        invariant
            i <= envelopes.len(),
            mails == imap::envelope_views(envelopes@),
            forall|j: int|
                0 <= j < i ==> !((#[trigger] mails[j]).parsed.message_id == id@ && !marked(
                    mails[j].parsed.subject,
                )),
        decreases envelopes.len() - i,
    {
        assert(mails[i as int] == envelopes@[i as int]@);
        let mail = &envelopes[i].parsed;
        if mail.message_id == *id && !is_reply_or_forward_subject(mail.subject.as_str()) {
            return true;
        }
        i += 1;
    }
    false
}

/// Decides whether a reply leads to some mail that is there.
fn reaches_opening(envelopes: &Vec<RemoteMailEnvelope>, reply: &ParsedMailHeaders) -> (r: bool)
    ensures
        r == leads_to_opening(imap::envelope_views(envelopes@), reply@),
{
    let ghost mails = imap::envelope_views(envelopes@);
    let ghost references = text::texts(reply.references@);
    let mut k: usize = 0;
    while k < reply.references.len()
        invariant
            k <= reply.references.len(),
            mails == imap::envelope_views(envelopes@),
            references == text::texts(reply.references@),
            forall|j: int| 0 <= j < k ==> !known_opening(mails, #[trigger] references[j]),
        decreases reply.references.len() - k,
    {
        assert(references[k as int] == reply.references@[k as int]@);
        if knows_opening(envelopes, &reply.references[k]) {
            assert(known_opening(mails, reply@.references[k as int]));
            return true;
        }
        k += 1;
    }
    match &reply.in_reply_to {
        Some(id) => knows_opening(envelopes, id),
        None => false,
    }
}

/// Finds the family of the series that a subject belongs to.
fn find_family(subject: &str) -> (r: Option<SeriesKey>)
    ensures
        match r {
            Some(family) => subject_family(subject@) == Some(family@),
            None => subject_family(subject@) is None,
        },
{
    match patch::patch_series_signature(subject) {
        Some((version, _, total, title)) => {
            let family = SeriesKey {
                version,
                total,
                author: String::new(),
                list: String::new(),
                family: series_family_key(title.as_str()),
            };
            assert(family@.author == Seq::<char>::empty());
            assert(family@.list == Seq::<char>::empty());
            Some(family)
        },
        None => None,
    }
}

/// Counts the sequence numbers of a family.
fn family_count(
    table: &Vec<Presence>,
    family: &SeriesKey,
    mails: Ghost<Seq<EnvelopeView>>,
) -> (r: usize)
    requires
        counts(table@, mails@, true),
    ensures
        r == present(mails@, family@, true).len(),
{
    match find_row(table, family) {
        Some(t) => table[t].seqs.len(),
        None => {
            proof {
                lemma_unseen(table@, mails@, family@, true);
            }
            0
        },
    }
}

/// Decides whether some seed stands for a family.
fn is_seeded(seeds: &Vec<Seed>, family: &SeriesKey) -> (r: bool)
    ensures
        r == has_seed(seed_views(seeds@), family@),
{
    let ghost views = seed_views(seeds@);
    let mut i: usize = 0;
    while i < seeds.len()
        invariant
            i <= seeds.len(),
            views == seed_views(seeds@),
            forall|j: int| 0 <= j < i ==> (#[trigger] views[j]).family != family@,
        decreases seeds.len() - i,
    {
        assert(views[i as int] == seeds@[i as int]@);
        if same_key(&seeds[i].family, family) {
            return true;
        }
        i += 1;
    }
    false
}

/// Finds the threads that have to be fetched, one mail for each family.
pub fn find_thread_requests(envelopes: &Vec<RemoteMailEnvelope>) -> (r: Vec<String>)
    ensures
        text::texts(r@) == thread_requests(imap::envelope_views(envelopes@)),
{
    let ghost mails = imap::envelope_views(envelopes@);
    let by_series = count_places(envelopes, false);
    let by_family = count_places(envelopes, true);
    let mut seeds: Vec<Seed> = Vec::new();
    let mut i: usize = 0;
    assert(seed_views(seeds@) == seeds_of(mails, 0));
    while i < envelopes.len()
        invariant
            i <= envelopes.len(),
            mails == imap::envelope_views(envelopes@),
            counts(by_series@, mails, false),
            counts(by_family@, mails, true),
            seed_views(seeds@) == seeds_of(mails, i as int),
        decreases envelopes.len() - i,
    {
        let mail = &envelopes[i].parsed;
        assert(mails[i as int] == envelopes@[i as int]@);
        if let Some(family) = find_family(mail.subject.as_str()) {
            let needed = if is_reply_or_forward_subject(mail.subject.as_str()) {
                !reaches_opening(envelopes, mail) || family_count(
                    &by_family,
                    &family,
                    Ghost(mails),
                ) < family.total as usize
            } else {
                find_incomplete_family(&by_series, &family, Ghost(mails))
            };
            if needed && !is_seeded(&seeds, &family) {
                let ghost before = seeds@;
                let seed = Seed { family, message_id: mail.message_id.clone() };
                seeds.push(seed);
                assert(seed_views(seeds@) == seed_views(before).push(seed@));
            }
        }
        i += 1;
    }
    let ghost views = seed_views(seeds@);
    let ghost wanted = thread_requests(mails);
    let mut out: Vec<String> = Vec::new();
    let mut k: usize = 0;
    while k < seeds.len()
        invariant
            k <= seeds.len(),
            views == seed_views(seeds@),
            wanted == Seq::new(views.len(), |i: int| views[i].message_id),
            text::texts(out@) == wanted.take(k as int),
        decreases seeds.len() - k,
    {
        let ghost before = out@;
        assert(views[k as int] == seeds@[k as int]@);
        out.push(seeds[k].message_id.clone());
        assert(text::texts(out@) == text::texts(before).push(seeds@[k as int].message_id@));
        assert(wanted.take(k + 1) == wanted.take(k as int).push(wanted[k as int]));
        k += 1;
    }
    assert(wanted.take(k as int) == wanted);
    out
}

/// Decides whether some series is incomplete.
pub fn has_incomplete_series(envelopes: &Vec<RemoteMailEnvelope>) -> (r: bool)
    ensures
        r == any_incomplete(imap::envelope_views(envelopes@)),
{
    let table = count_places(envelopes, false);
    find_incomplete(&table, Ghost(imap::envelope_views(envelopes@)))
}

// ---------------------------------------------------------------------------
// Laws
// ---------------------------------------------------------------------------

/// Whether no two mails have one identifier.
pub open spec fn ids_differ(mails: Seq<EnvelopeView>) -> bool {
    forall|i: int, j: int|
        0 <= i < j < mails.len() ==> (#[trigger] mails[i]).parsed.message_id != (
        #[trigger] mails[j]).parsed.message_id
}

/// Joining a thread keeps every mail that was there, in place, adds nothing
/// twice, and leaves no fetched mail out.
pub proof fn law_joined_threads_add_each_mail_once(
    mails: Seq<EnvelopeView>,
    fetched: Seq<EnvelopeView>,
)
    ensures
        mails.len() <= joined_mails(mails, fetched).len() <= mails.len() + fetched.len(),
        joined_mails(mails, fetched).take(mails.len() as int) == mails,
        ids_differ(mails) ==> ids_differ(joined_mails(mails, fetched)),
        forall|k: int|
            0 <= k < fetched.len() ==> has_mail(
                joined_mails(mails, fetched),
                (#[trigger] fetched[k]).parsed.message_id,
            ),
    decreases fetched.len(),
{
    if fetched.len() == 0 {
        assert(mails.take(mails.len() as int) == mails);
    } else {
        let init = fetched.drop_last();
        law_joined_threads_add_each_mail_once(mails, init);
        let before = joined_mails(mails, init);
        let after = joined_mails(mails, fetched);
        let id = fetched.last().parsed.message_id;
        if !has_mail(before, id) {
            assert(after.take(mails.len() as int) == before.take(mails.len() as int));
            assert(after[before.len() as int] == fetched.last());
            assert(has_mail(after, id));
            if ids_differ(mails) {
                assert forall|i: int, j: int| 0 <= i < j < after.len() implies (
                #[trigger] after[i]).parsed.message_id != (#[trigger] after[j]).parsed.message_id by {
                    assert(after[i] == before[i]);
                    if j < before.len() {
                        assert(after[j] == before[j]);
                    }
                }
            }
        }
        assert forall|k: int| 0 <= k < fetched.len() implies has_mail(
            after,
            (#[trigger] fetched[k]).parsed.message_id,
        ) by {
            if k < init.len() {
                assert(init[k] == fetched[k]);
                assert(has_mail(before, init[k].parsed.message_id));
                let i = choose|i: int|
                    0 <= i < before.len() && (#[trigger] before[i]).parsed.message_id
                        == init[k].parsed.message_id;
                assert(after[i] == before[i]);
            }
        }
    }
}

/// Joining the same thread again changes nothing: fetching is idempotent.
pub proof fn law_joining_a_thread_twice_changes_nothing(
    mails: Seq<EnvelopeView>,
    fetched: Seq<EnvelopeView>,
)
    ensures
        joined_mails(joined_mails(mails, fetched), fetched) == joined_mails(mails, fetched),
{
    let once = joined_mails(mails, fetched);
    law_joined_threads_add_each_mail_once(mails, fetched);
    lemma_nothing_to_join(once, fetched);
}

/// Mails that are all there add nothing.
proof fn lemma_nothing_to_join(mails: Seq<EnvelopeView>, fetched: Seq<EnvelopeView>)
    requires
        forall|k: int|
            0 <= k < fetched.len() ==> has_mail(mails, (#[trigger] fetched[k]).parsed.message_id),
    ensures
        joined_mails(mails, fetched) == mails,
    decreases fetched.len(),
{
    if fetched.len() > 0 {
        let init = fetched.drop_last();
        assert forall|k: int| 0 <= k < init.len() implies has_mail(
            mails,
            (#[trigger] init[k]).parsed.message_id,
        ) by {
            assert(init[k] == fetched[k]);
        }
        lemma_nothing_to_join(mails, init);
        assert(has_mail(mails, fetched[fetched.len() - 1].parsed.message_id));
    }
}

/// At most one thread is fetched for each family, and every mail that needs its
/// thread has one fetched for its family.
pub proof fn law_one_thread_for_each_family(mails: Seq<EnvelopeView>)
    ensures
        ({
            let seeds = seeds_of(mails, mails.len() as int);
            &&& forall|i: int, j: int|
                0 <= i < j < seeds.len() ==> (#[trigger] seeds[i]).family != (
                #[trigger] seeds[j]).family
            &&& forall|i: int|
                0 <= i < mails.len() && needs_thread(mails, (#[trigger] mails[i]).parsed)
                    ==> has_seed(seeds, subject_family(mails[i].parsed.subject)->0)
        }),
{
    lemma_seeds(mails, mails.len() as int);
}

/// The seeds of the first mails.
proof fn lemma_seeds(mails: Seq<EnvelopeView>, n: int)
    requires
        0 <= n <= mails.len(),
    ensures
        forall|i: int, j: int|
            0 <= i < j < seeds_of(mails, n).len() ==> (#[trigger] seeds_of(mails, n)[i]).family != (
            #[trigger] seeds_of(mails, n)[j]).family,
        forall|i: int|
            0 <= i < n && needs_thread(mails, (#[trigger] mails[i]).parsed) ==> has_seed(
                seeds_of(mails, n),
                subject_family(mails[i].parsed.subject)->0,
            ),
    decreases n,
{
    if n > 0 {
        lemma_seeds(mails, n - 1);
        let before = seeds_of(mails, n - 1);
        let after = seeds_of(mails, n);
        assert forall|i: int, j: int| 0 <= i < j < after.len() implies (
        #[trigger] after[i]).family != (#[trigger] after[j]).family by {
            assert(after[i] == before[i]);
            if j < before.len() {
                assert(after[j] == before[j]);
            }
        }
        assert forall|i: int|
            0 <= i < n && needs_thread(mails, (#[trigger] mails[i]).parsed) implies has_seed(
            after,
            subject_family(mails[i].parsed.subject)->0,
        ) by {
            let family = subject_family(mails[i].parsed.subject)->0;
            if has_seed(before, family) {
                let k = choose|k: int| 0 <= k < before.len() && (#[trigger] before[k]).family == family;
                assert(after[k] == before[k]);
            } else {
                assert(i == n - 1);
                assert(after[before.len() as int].family == family);
            }
        }
    }
}

/// A candidate is asked for only if it brings its series a patch that was not
/// there: with it, more of the series is present.
pub proof fn law_gaps_bring_series_forward(
    mails: Seq<EnvelopeView>,
    candidate: EnvelopeView,
)
    requires
        fills_a_gap(mails, candidate.parsed),
    ensures
        placed(candidate.parsed) matches Some((key, seq)) && present(
            mails.push(candidate),
            key,
            false,
        ).len() == present(mails, key, false).len() + 1,
{
    assert(mails.push(candidate).drop_last() == mails);
    if let Some((key, _)) = placed(candidate.parsed) {
        lemma_present(mails, key, false);
    }
}

// ---------------------------------------------------------------------------
// Laws of places and gaps
// ---------------------------------------------------------------------------

/// Markers of replies and forwards are seen in any case and after any white space,
/// and a subject that is seen as marked opens with one.
pub proof fn law_markers_are_seen(gap: Seq<char>, marker: Seq<char>, rest: Seq<char>)
    requires
        forall|i: int| 0 <= i < gap.len() ==> text::white_space(#[trigger] gap[i]),
        text::same_letters(marker, "re:"@) || text::same_letters(marker, "fwd:"@)
            || text::same_letters(marker, "fw:"@),
    ensures
        marked(gap + marker + rest),
{
    reveal_strlit("re:");
    reveal_strlit("fwd:");
    reveal_strlit("fw:");
    assert(text::lowered("re:"@) == "re:"@);
    assert(text::lowered("fwd:"@) == "fwd:"@);
    assert(text::lowered("fw:"@) == "fw:"@);
    let all = gap + marker + rest;
    let n = gap.len() as int;
    let m = marker.len() as int;
    let low = text::lowered(marker);
    assert(low.len() == m);
    assert(low[0] == text::lower_char(marker[0]));
    assert forall|j: int| 0 <= j < n implies CharClass::Space.has(#[trigger] all[j]) by {
        assert(all[j] == gap[j]);
    }
    assert(all[n] == marker[0]);
    text::lemma_skip_leading_is(all, CharClass::Space, n);
    let value = text::lowered(text::trimmed_start(all));
    assert(value.subrange(0, m) == low) by {
        assert forall|j: int| 0 <= j < m implies value.subrange(0, m)[j] == low[j] by {
            assert(text::trimmed_start(all)[j] == marker[j]);
        }
    }
}

/// A subject that opens with another letter is not marked.
pub proof fn law_other_subjects_are_not_marked(subject: Seq<char>)
    requires
        text::trimmed_start(subject).len() > 0,
        text::lower_char(text::trimmed_start(subject)[0]) != 'r',
        text::lower_char(text::trimmed_start(subject)[0]) != 'f',
    ensures
        !marked(subject),
{
    reveal_strlit("re:");
    reveal_strlit("fwd:");
    reveal_strlit("fw:");
    let value = text::lowered(text::trimmed_start(subject));
    assert(value[0] == text::lower_char(text::trimmed_start(subject)[0]));
    if text::opens_with(value, "re:"@) {
        assert(value.subrange(0, 3)[0] == value[0]);
    }
    if text::opens_with(value, "fwd:"@) {
        assert(value.subrange(0, 4)[0] == value[0]);
    }
    if text::opens_with(value, "fw:"@) {
        assert(value.subrange(0, 3)[0] == value[0]);
    }
}

/// Whether a mail is the patch with a number of a series: no reply, with the
/// revision and total of the series, from its author, on its list, and with a
/// title that opens with the word of its family.
pub open spec fn stands_at(mail: HeadersView, key: KeyView, seq: u32) -> bool {
    &&& !marked(mail.subject)
    &&& series_store::patch_subject(mail.subject) matches Some((parsed, _)) && parsed.seq
        == seq && parsed.version == key.version && parsed.total == key.total && family_word(
        parsed.title,
    ) == key.family
    &&& key.author == (match mail_parser::mailbox_of(mail.from_addr) {
        Some(mailbox) => mailbox,
        None => seq![],
    })
    &&& key.list == (match mail.list_id {
        Some(list) => list,
        None => seq![],
    })
}

/// Whether a mail is the patch with a number of a family, from any author and on
/// any list.
pub open spec fn stands_in_family(mail: HeadersView, family: KeyView, seq: u32) -> bool {
    &&& !marked(mail.subject)
    &&& series_store::patch_subject(mail.subject) matches Some((parsed, _)) && parsed.seq
        == seq && parsed.version == family.version && parsed.total == family.total && family_word(
        parsed.title,
    ) == family.family
}

/// Whether some mail is the patch with a number of a series.
pub open spec fn someone_stands(mails: Seq<EnvelopeView>, key: KeyView, seq: u32) -> bool {
    exists|i: int| 0 <= i < mails.len() && stands_at((#[trigger] mails[i]).parsed, key, seq)
}

/// Whether some mail is the patch with a number of a family.
pub open spec fn someone_in_family(mails: Seq<EnvelopeView>, family: KeyView, seq: u32) -> bool {
    exists|i: int|
        0 <= i < mails.len() && stands_in_family((#[trigger] mails[i]).parsed, family, seq)
}

/// The numbers that are there of a series are those of its patches, and of a family
/// those of the patches of all its series. A series is incomplete when some of its
/// patches are there, but fewer different ones than it has.
pub proof fn law_numbers_are_those_of_the_patches(mails: Seq<EnvelopeView>, key: KeyView)
    ensures
        present(mails, key, false).finite(),
        forall|seq: u32|
            #![trigger present(mails, key, false).contains(seq)]
            #![trigger someone_stands(mails, key, seq)]
            present(mails, key, false).contains(seq) <==> someone_stands(mails, key, seq),
        forall|seq: u32|
            #![trigger present(mails, family_of(key), true).contains(seq)]
            #![trigger someone_in_family(mails, family_of(key), seq)]
            present(mails, family_of(key), true).contains(seq) <==> someone_in_family(
                mails,
                family_of(key),
                seq,
            ),
        incomplete(mails, key) <==> 0 < present(mails, key, false).len() < key.total,
{
    lemma_present(mails, key, false);
    let family = family_of(key);
    lemma_present(mails, family, true);
    assert forall|seq: u32|
        #![trigger present(mails, key, false).contains(seq)]
        #![trigger someone_stands(mails, key, seq)]
        present(mails, key, false).contains(seq) <==> someone_stands(mails, key, seq) by {
        if someone_stands(mails, key, seq) {
            let i = choose|i: int|
                0 <= i < mails.len() && stands_at((#[trigger] mails[i]).parsed, key, seq);
            assert(placed(mails[i].parsed) is Some);
            assert((placed(mails[i].parsed)->0).0 =~= key);
        }
        if present(mails, key, false).contains(seq) {
            let i = choose|i: int|
                0 <= i < mails.len() && (placed((#[trigger] mails[i]).parsed) matches Some(
                    (stands, at),
                ) && at == seq && counted_key(stands, false) == key);
            assert(stands_at(mails[i].parsed, key, seq));
        }
    }
    assert forall|seq: u32|
        #![trigger present(mails, family, true).contains(seq)]
        #![trigger someone_in_family(mails, family, seq)]
        present(mails, family, true).contains(seq) <==> someone_in_family(mails, family, seq) by {
        if someone_in_family(mails, family, seq) {
            let i = choose|i: int|
                0 <= i < mails.len() && stands_in_family((#[trigger] mails[i]).parsed, family, seq);
            assert(placed(mails[i].parsed) is Some);
            assert(counted_key((placed(mails[i].parsed)->0).0, true) =~= family);
        }
        if present(mails, family, true).contains(seq) {
            let i = choose|i: int|
                0 <= i < mails.len() && (placed((#[trigger] mails[i]).parsed) matches Some(
                    (stands, at),
                ) && at == seq && counted_key(stands, true) == family);
            assert(stands_in_family(mails[i].parsed, family, seq));
        }
    }
}

/// A candidate is wanted exactly when it is a patch of an incomplete series, no
/// cover letter, and no mail that is there has its number.
pub proof fn law_wanted_candidates_fill_gaps(
    mails: Seq<EnvelopeView>,
    candidate: HeadersView,
    key: KeyView,
    seq: u32,
)
    requires
        stands_at(candidate, key, seq),
    ensures
        fills_a_gap(mails, candidate) <==> {
            &&& 0 < present(mails, key, false).len() < key.total
            &&& seq > 0
            &&& !someone_stands(mails, key, seq)
        },
{
    law_numbers_are_those_of_the_patches(mails, key);
    assert(placed(candidate) is Some);
    assert((placed(candidate)->0).0 =~= key);
}

/// Replies and mails that state no patch fill no gap.
pub proof fn law_other_candidates_are_not_wanted(mails: Seq<EnvelopeView>, candidate: HeadersView)
    requires
        marked(candidate.subject) || series_store::patch_subject(candidate.subject) is None,
    ensures
        !fills_a_gap(mails, candidate),
{
}

/// Whether some wanted candidate has a number.
pub open spec fn wanted_number(
    mails: Seq<EnvelopeView>,
    candidates: Seq<EnvelopeView>,
    uid: u32,
) -> bool {
    exists|i: int|
        0 <= i < candidates.len() && (#[trigger] candidates[i]).remote.uid == uid && fills_a_gap(
            mails,
            candidates[i].parsed,
        )
}

/// The numbers that are asked for are those of the wanted candidates, each once.
pub proof fn law_wanted_numbers_are_asked_for(
    mails: Seq<EnvelopeView>,
    candidates: Seq<EnvelopeView>,
)
    ensures
        gap_numbers(mails, candidates).no_duplicates(),
        forall|uid: u32| #[trigger]
            gap_numbers(mails, candidates).contains(uid) <==> wanted_number(mails, candidates, uid),
    decreases candidates.len(),
{
    if candidates.len() > 0 {
        let init = candidates.drop_last();
        let last = candidates.last();
        assert(candidates[candidates.len() - 1] == last);
        law_wanted_numbers_are_asked_for(mails, init);
        let before = gap_numbers(mails, init);
        let all = gap_numbers(mails, candidates);
        assert forall|uid: u32| #[trigger] all.contains(uid) <==> wanted_number(
            mails,
            candidates,
            uid,
        ) by {
            if before.contains(uid) {
                let k = choose|k: int| 0 <= k < before.len() && before[k] == uid;
                assert(all[k] == uid);
                assert(wanted_number(mails, init, uid));
                let i = choose|i: int|
                    0 <= i < init.len() && (#[trigger] init[i]).remote.uid == uid && fills_a_gap(
                        mails,
                        init[i].parsed,
                    );
                assert(candidates[i] == init[i]);
            }
            if all.contains(uid) && !before.contains(uid) {
                let k = choose|k: int| 0 <= k < all.len() && all[k] == uid;
                if k < before.len() {
                    assert(before[k] == uid);
                }
            }
            if wanted_number(mails, candidates, uid) {
                let i = choose|i: int|
                    0 <= i < candidates.len() && (#[trigger] candidates[i]).remote.uid == uid
                        && fills_a_gap(mails, candidates[i].parsed);
                if i < init.len() {
                    assert(init[i] == candidates[i]);
                    assert(wanted_number(mails, init, uid));
                    assert(before.contains(uid));
                } else if !before.contains(uid) {
                    assert(all[before.len() as int] == uid);
                }
            }
        }
        assert forall|i: int, j: int| 0 <= i < j < all.len() implies all[i] != all[j] by {
            assert(all[i] == before[i]);
            if j < before.len() {
                assert(all[j] == before[j]);
            } else {
                assert(before.contains(before[i]));
            }
        }
    }
}

/// The mails that are added after a fetch by number are those fetched whose
/// identifier no mail had before, in their order.
pub proof fn law_unknown_mails_are_added(mails: Seq<EnvelopeView>, fetched: Seq<EnvelopeView>)
    ensures
        unknown_mails(mails, fetched) == fetched.filter(
            |mail: EnvelopeView| !has_mail(mails, mail.parsed.message_id),
        ),
    decreases fetched.len(),
{
    reveal(Seq::filter);
    if fetched.len() > 0 {
        law_unknown_mails_are_added(mails, fetched.drop_last());
    }
}

/// Which mails of an archive need their thread: replies to patches that lead to no
/// known opening, or of whose family fewer patches are there than it has; and
/// patches of a family with an incomplete series.
pub proof fn law_threads_are_needed_for_what_is_missing(
    mails: Seq<EnvelopeView>,
    mail: HeadersView,
    parsed: series_store::PatchSubject,
)
    requires
        series_store::patch_subject(mail.subject) matches Some((p, _)) && p == parsed,
    ensures
        ({
            let family = KeyView {
                version: parsed.version,
                total: parsed.total,
                author: seq![],
                list: seq![],
                family: family_word(parsed.title),
            };
            &&& marked(mail.subject) ==> (needs_thread(mails, mail) <==> !leads_to_opening(
                mails,
                mail,
            ) || present(mails, family, true).len() < parsed.total)
            &&& !marked(mail.subject) ==> (needs_thread(mails, mail) <==> family_incomplete(
                mails,
                family,
            ))
        }),
{
}

/// A mail that states no patch needs no thread.
pub proof fn law_other_mails_need_no_thread(mails: Seq<EnvelopeView>, mail: HeadersView)
    requires
        series_store::patch_subject(mail.subject) is None,
    ensures
        !needs_thread(mails, mail),
{
}

/// A reply leads to an opening exactly when any of its references, or the mail it
/// replies to, is a mail that is there and is no reply itself.
pub proof fn law_replies_lead_to_openings(
    mails: Seq<EnvelopeView>,
    reply: HeadersView,
    k: int,
    i: int,
)
    ensures
        0 <= k < reply.references.len() && 0 <= i < mails.len() && mails[i].parsed.message_id
            == reply.references[k] && !marked(mails[i].parsed.subject) ==> leads_to_opening(
            mails,
            reply,
        ),
        0 <= i < mails.len() && reply.in_reply_to == Some(mails[i].parsed.message_id) && !marked(
            mails[i].parsed.subject,
        ) ==> leads_to_opening(mails, reply),
        (forall|j: int| 0 <= j < mails.len() ==> marked((#[trigger] mails[j]).parsed.subject))
            ==> !leads_to_opening(mails, reply),
        reply.references.len() == 0 && reply.in_reply_to is None ==> !leads_to_opening(
            mails,
            reply,
        ),
{
    if 0 <= k < reply.references.len() && 0 <= i < mails.len() && mails[i].parsed.message_id
        == reply.references[k] && !marked(mails[i].parsed.subject) {
        assert(known_opening(mails, reply.references[k]));
    }
    if 0 <= i < mails.len() && reply.in_reply_to == Some(mails[i].parsed.message_id) && !marked(
        mails[i].parsed.subject,
    ) {
        assert(known_opening(mails, mails[i].parsed.message_id));
    }
}

/// Whether the mail at index `k` is the first of its family that needs its thread.
pub open spec fn first_in_need(mails: Seq<EnvelopeView>, k: int) -> bool {
    &&& needs_thread(mails, mails[k].parsed)
    &&& forall|j: int|
        0 <= j < k && needs_thread(mails, (#[trigger] mails[j]).parsed) ==> subject_family(
            mails[j].parsed.subject,
        ) != subject_family(mails[k].parsed.subject)
}

/// Whether a seed is that of the first mail of its family that needs its thread.
spec fn well_seeded(mails: Seq<EnvelopeView>, n: int, seed: SeedView) -> bool {
    exists|k: int|
        0 <= k < n && #[trigger] first_in_need(mails, k) && seed.message_id
            == mails[k].parsed.message_id && subject_family(mails[k].parsed.subject) == Some(
            seed.family,
        )
}

/// Whether a message is asked for on account of a mail.
pub open spec fn asked_for(mails: Seq<EnvelopeView>, id: Seq<char>) -> bool {
    exists|k: int|
        0 <= k < mails.len() && #[trigger] first_in_need(mails, k) && id
            == mails[k].parsed.message_id
}

/// Threads are asked for by the first mail of each family that needs one.
pub proof fn law_threads_are_asked_for_by_the_first_mail(mails: Seq<EnvelopeView>)
    ensures
        forall|i: int|
            0 <= i < thread_requests(mails).len() ==> asked_for(
                mails,
                #[trigger] thread_requests(mails)[i],
            ),
{
    lemma_well_seeded(mails, mails.len() as int);
    let seeds = seeds_of(mails, mails.len() as int);
    assert forall|i: int| 0 <= i < thread_requests(mails).len() implies asked_for(
        mails,
        #[trigger] thread_requests(mails)[i],
    ) by {
        assert(well_seeded(mails, mails.len() as int, seeds[i]));
    }
}

/// Seeds are those of first mails.
proof fn lemma_well_seeded(mails: Seq<EnvelopeView>, n: int)
    requires
        0 <= n <= mails.len(),
    ensures
        forall|i: int|
            0 <= i < seeds_of(mails, n).len() ==> well_seeded(
                mails,
                n,
                #[trigger] seeds_of(mails, n)[i],
            ),
    decreases n,
{
    if n > 0 {
        lemma_well_seeded(mails, n - 1);
        lemma_seeds(mails, n - 1);
        let before = seeds_of(mails, n - 1);
        let all = seeds_of(mails, n);
        let mail = mails[n - 1].parsed;
        assert forall|i: int| 0 <= i < all.len() implies well_seeded(
            mails,
            n,
            #[trigger] all[i],
        ) by {
            if i < before.len() {
                assert(all[i] == before[i]);
                assert(well_seeded(mails, n - 1, before[i]));
            } else {
                let family = subject_family(mail.subject)->0;
                assert forall|j: int|
                    0 <= j < n - 1 && needs_thread(mails, (#[trigger] mails[j]).parsed) implies
                    subject_family(mails[j].parsed.subject) != subject_family(mail.subject) by {
                    assert(has_seed(before, subject_family(mails[j].parsed.subject)->0));
                }
                assert(first_in_need(mails, n - 1));
            }
        }
    }
}

/// A mail that is fetched to complete a series keeps its bytes and number, and has
/// the headers of its own text, with an identifier from its number where it states
/// none.
pub proof fn law_fetched_mails_are_read_as_they_are(mails: Seq<RemoteView>, i: int)
    requires
        0 <= i < mails.len(),
    ensures
        fetched_mails(mails).len() == mails.len(),
        fetched_mails(mails)[i].remote == mails[i],
        fetched_mails(mails)[i].parsed == mail_parser::mail_headers(
            text::lossy_text(mails[i].raw),
            "uid-"@ + text::decimal(mails[i].uid as nat) + "@criew"@,
        ),
{
}

/// The family of a title is its first word that is not made of symbols alone,
/// without the symbols around it, in lower case.
pub proof fn law_families_are_the_first_plain_word(first: Seq<char>, rest: Seq<Seq<char>>)
    requires
        first.len() > 0 && !text::has_any(first, CharClass::Space),
        text::stripped(first, CharClass::Symbol).len() > 0,
        forall|k: int|
            0 <= k < rest.len() ==> (#[trigger] rest[k]).len() > 0 && !text::has_any(
                rest[k],
                CharClass::Space,
            ),
    ensures
        family_word(text::joined(seq![first] + rest, " "@)) == text::lowered(
            text::stripped(first, CharClass::Symbol),
        ),
{
    let parts = seq![first] + rest;
    assert forall|k: int| 0 <= k < parts.len() implies (#[trigger] parts[k]).len() > 0
        && !text::has_any(parts[k], CharClass::Space) by {
        if k > 0 {
            assert(parts[k] == rest[k - 1]);
        }
    }
    text::law_spaced_words_are_found(parts);
    let one = parts.take(1);
    assert(one == seq![first]);
    let none = Seq::<Seq<char>>::empty();
    assert(one.drop_last() == none);
    assert(series_store::plain_words(none) == none);
    assert(series_store::plain_words(one) == none.push(
        text::lowered(text::stripped(first, CharClass::Symbol)),
    ));
    lemma_plain_prefix(parts, 1);
}

/// Whether a series of a family is there in part.
pub open spec fn partly_there(mails: Seq<EnvelopeView>, family: KeyView, key: KeyView) -> bool {
    &&& key.version == family.version && key.total == family.total && key.family == family.family
    &&& 0 < present(mails, key, false).len() < key.total
}

/// A family is incomplete exactly when one of its series, by whichever author and
/// on whichever list, is there in part; and something is incomplete exactly when
/// some series is.
pub proof fn law_families_are_incomplete_with_a_series(mails: Seq<EnvelopeView>, family: KeyView)
    ensures
        family_incomplete(mails, family_of(family)) <==> exists|key: KeyView| #[trigger]
            partly_there(mails, family, key),
        any_incomplete(mails) <==> exists|key: KeyView| #[trigger] partly_there(mails, key, key),
{
    assert forall|key: KeyView| #[trigger] partly_there(mails, family, key) implies
        family_incomplete(mails, family_of(family)) by {
        lemma_present(mails, key, false);
        let i = choose|i: int|
            0 <= i < mails.len() && (placed((#[trigger] mails[i]).parsed) matches Some((stands, _))
                && counted_key(stands, false) == key);
        assert(placed(mails[i].parsed) is Some);
        assert(incomplete(mails, key));
        assert(family_of(key) =~= family_of(family));
    }
    if family_incomplete(mails, family_of(family)) {
        let i = choose|i: int|
            0 <= i < mails.len() && (placed((#[trigger] mails[i]).parsed) matches Some((key, _))
                && incomplete(mails, key) && family_of(key) == family_of(family));
        let key = (placed(mails[i].parsed)->0).0;
        assert(family_of(key).family == family.family);
        assert(family_of(key).version == family.version);
        assert(family_of(key).total == family.total);
        assert(partly_there(mails, family, key));
    }
    assert forall|key: KeyView| #[trigger] partly_there(mails, key, key) implies any_incomplete(
        mails,
    ) by {
        lemma_present(mails, key, false);
        let i = choose|i: int|
            0 <= i < mails.len() && (placed((#[trigger] mails[i]).parsed) matches Some((stands, _))
                && counted_key(stands, false) == key);
        assert(placed(mails[i].parsed) is Some);
        assert(incomplete(mails, key));
    }
    if any_incomplete(mails) {
        let i = choose|i: int|
            0 <= i < mails.len() && (placed((#[trigger] mails[i]).parsed) matches Some((key, _))
                && incomplete(mails, key));
        let key = (placed(mails[i].parsed)->0).0;
        assert(partly_there(mails, key, key));
    }
}

/// Mails of a thread are added in their order, after what was there: what the front
/// of a thread leaves stands at the front of what the whole leaves.
pub proof fn law_threads_are_added_in_order(
    mails: Seq<EnvelopeView>,
    fetched: Seq<EnvelopeView>,
    n: int,
)
    requires
        0 <= n <= fetched.len(),
    ensures
        joined_mails(mails, fetched.take(n)).len() <= joined_mails(mails, fetched).len(),
        joined_mails(mails, fetched).take(joined_mails(mails, fetched.take(n)).len() as int)
            == joined_mails(mails, fetched.take(n)),
    decreases fetched.len() - n,
{
    let all = joined_mails(mails, fetched);
    if n < fetched.len() {
        law_threads_are_added_in_order(mails, fetched, n + 1);
        assert(fetched.take(n + 1).drop_last() == fetched.take(n));
        let front = joined_mails(mails, fetched.take(n));
        let more = joined_mails(mails, fetched.take(n + 1));
        assert(more.take(front.len() as int) == front);
        assert(all.take(front.len() as int) == all.take(more.len() as int).take(
            front.len() as int,
        ));
    } else {
        assert(fetched.take(n) == fetched);
        assert(all.take(all.len() as int) == all);
    }
}

/// A mail is added exactly when no mail before it has its identifier.
pub proof fn law_new_identifiers_are_added(
    mails: Seq<EnvelopeView>,
    fetched: Seq<EnvelopeView>,
    mail: EnvelopeView,
)
    ensures
        has_mail(joined_mails(mails, fetched), mail.parsed.message_id) ==> joined_mails(
            mails,
            fetched.push(mail),
        ) == joined_mails(mails, fetched),
        !has_mail(joined_mails(mails, fetched), mail.parsed.message_id) ==> joined_mails(
            mails,
            fetched.push(mail),
        ) == joined_mails(mails, fetched).push(mail),
{
    assert(fetched.push(mail).drop_last() == fetched);
}

/// Numbers are asked for in the order of the candidates.
pub proof fn law_numbers_are_asked_for_in_order(
    mails: Seq<EnvelopeView>,
    candidates: Seq<EnvelopeView>,
    n: int,
)
    requires
        0 <= n <= candidates.len(),
    ensures
        gap_numbers(mails, candidates.take(n)).len() <= gap_numbers(mails, candidates).len(),
        gap_numbers(mails, candidates).take(gap_numbers(mails, candidates.take(n)).len() as int)
            == gap_numbers(mails, candidates.take(n)),
    decreases candidates.len() - n,
{
    let all = gap_numbers(mails, candidates);
    if n < candidates.len() {
        law_numbers_are_asked_for_in_order(mails, candidates, n + 1);
        assert(candidates.take(n + 1).drop_last() == candidates.take(n));
        let front = gap_numbers(mails, candidates.take(n));
        let more = gap_numbers(mails, candidates.take(n + 1));
        assert(more.take(front.len() as int) == front);
        assert(all.take(front.len() as int) == all.take(more.len() as int).take(
            front.len() as int,
        ));
    } else {
        assert(candidates.take(n) == candidates);
        assert(all.take(all.len() as int) == all);
    }
}

/// Threads are asked for in the order of the mails that need them.
pub proof fn law_threads_are_asked_for_in_order(mails: Seq<EnvelopeView>, m: int, n: int)
    requires
        0 <= m <= n,
    ensures
        seeds_of(mails, m).len() <= seeds_of(mails, n).len(),
        seeds_of(mails, n).take(seeds_of(mails, m).len() as int) == seeds_of(mails, m),
    decreases n - m,
{
    let all = seeds_of(mails, n);
    if m < n {
        law_threads_are_asked_for_in_order(mails, m, n - 1);
        let before = seeds_of(mails, n - 1);
        assert(all.take(before.len() as int) == before);
        let k = seeds_of(mails, m).len() as int;
        assert(all.take(k) == before.take(k));
    } else {
        assert(all.take(all.len() as int) == all);
    }
}

} // verus!
