//! Mail-header parsing for threading and reply generation.
//!
//! Only a narrow subset of mail syntax is read: the header fields that affect
//! visible behaviour, mailbox addresses for identity matching, and the review
//! trailers of a message body.

use crate::text;
use crate::text::CharClass;
use vstd::prelude::*;
use vstd::slice::slice_subrange;

verus! {

/// The header fields and trailers of one mail.
#[derive(Debug)]
pub struct ParsedMailHeaders {
    pub message_id: String,
    pub subject: String,
    pub from_addr: String,
    pub to_addresses: Vec<String>,
    pub cc_addresses: Vec<String>,
    pub date: Option<String>,
    pub in_reply_to: Option<String>,
    pub references: Vec<String>,
    pub list_id: Option<String>,
    pub change_id: Option<String>,
    pub trailers: Vec<ParsedTrailer>,
}

/// One trailer line, such as `Reviewed-by`, with its folded continuation.
#[derive(Debug, PartialEq, Eq)]
pub struct ParsedTrailer {
    pub kind: String,
    pub value: String,
}

/// The texts of a trailer.
pub struct TrailerView {
    pub kind: Seq<char>,
    pub value: Seq<char>,
}

impl View for ParsedTrailer {
    type V = TrailerView;

    open spec fn view(&self) -> TrailerView {
        TrailerView { kind: self.kind@, value: self.value@ }
    }
}

impl Clone for ParsedTrailer {
    fn clone(&self) -> (r: Self)
        ensures
            r == *self,
    {
        ParsedTrailer { kind: self.kind.clone(), value: self.value.clone() }
    }
}

/// The texts of a list of trailers.
pub open spec fn trailer_views(v: Seq<ParsedTrailer>) -> Seq<TrailerView> {
    Seq::new(v.len(), |i: int| v[i]@)
}

/// The texts of parsed headers.
#[verifier::ext_equal]
pub struct HeadersView {
    pub message_id: Seq<char>,
    pub subject: Seq<char>,
    pub from_addr: Seq<char>,
    pub to_addresses: Seq<Seq<char>>,
    pub cc_addresses: Seq<Seq<char>>,
    pub date: Option<Seq<char>>,
    pub in_reply_to: Option<Seq<char>>,
    pub references: Seq<Seq<char>>,
    pub list_id: Option<Seq<char>>,
    pub change_id: Option<Seq<char>>,
    pub trailers: Seq<TrailerView>,
}

impl View for ParsedMailHeaders {
    type V = HeadersView;

    open spec fn view(&self) -> HeadersView {
        HeadersView {
            message_id: self.message_id@,
            subject: self.subject@,
            from_addr: self.from_addr@,
            to_addresses: text::texts(self.to_addresses@),
            cc_addresses: text::texts(self.cc_addresses@),
            date: text::opt_text(self.date),
            in_reply_to: text::opt_text(self.in_reply_to),
            references: text::texts(self.references@),
            list_id: text::opt_text(self.list_id),
            change_id: text::opt_text(self.change_id),
            trailers: trailer_views(self.trailers@),
        }
    }
}

/// A copy of a list of trailers.
pub fn copy_trailers(items: &Vec<ParsedTrailer>) -> (r: Vec<ParsedTrailer>)
    ensures
        r@ == items@,
        trailer_views(r@) == trailer_views(items@),
{
    let mut out: Vec<ParsedTrailer> = Vec::new();
    let mut i: usize = 0;
    while i < items.len()
        invariant
            i <= items.len(),
            out@ == items@.take(i as int),
        decreases items.len() - i,
    {
        out.push(items[i].clone());
        i += 1;
    }
    assert(items@.take(i as int) == items@);
    out
}

impl Clone for ParsedMailHeaders {
    fn clone(&self) -> (r: Self)
        ensures
            r@ == self@,
    {
        ParsedMailHeaders {
            message_id: self.message_id.clone(),
            subject: self.subject.clone(),
            from_addr: self.from_addr.clone(),
            to_addresses: text::copy_texts(&self.to_addresses),
            cc_addresses: text::copy_texts(&self.cc_addresses),
            date: text::copy_opt(&self.date),
            in_reply_to: text::copy_opt(&self.in_reply_to),
            references: text::copy_texts(&self.references),
            list_id: text::copy_opt(&self.list_id),
            change_id: text::copy_opt(&self.change_id),
            trailers: copy_trailers(&self.trailers),
        }
    }
}

// ---------------------------------------------------------------------------
// Message identifiers
// ---------------------------------------------------------------------------

/// A message identifier without the punctuation that may surround it.
pub open spec fn clean_id(s: Seq<char>) -> Seq<char> {
    text::trimmed(
        text::stripped(
            text::stripped(
                text::stripped(text::stripped(text::trimmed(s), CharClass::One('<')), CharClass::One('>')),
                CharClass::One('"'),
            ),
            CharClass::One(','),
        ),
    )
}

/// The identifiers in angle brackets from index `i` on. `open` is where the
/// latest bracket that is still open begins its content.
pub open spec fn bracketed_ids(s: Seq<char>, i: int, open: Option<int>) -> Seq<Seq<char>>
    decreases s.len() - i,
{
    if i >= s.len() {
        seq![]
    } else if s[i] == '<' {
        bracketed_ids(s, i + 1, Some(i + 1))
    } else if s[i] == '>' {
        let rest = bracketed_ids(s, i + 1, None);
        match open {
            Some(start) => {
                let id = clean_id(s.subrange(start, i));
                if id.len() > 0 {
                    seq![id] + rest
                } else {
                    rest
                }
            },
            None => rest,
        }
    } else {
        bracketed_ids(s, i + 1, open)
    }
}

/// The identifiers among bare words.
pub open spec fn bare_ids(parts: Seq<Seq<char>>) -> Seq<Seq<char>>
    decreases parts.len(),
{
    if parts.len() == 0 {
        seq![]
    } else {
        let id = clean_id(parts.last());
        if id.len() > 0 {
            bare_ids(parts.drop_last()).push(id)
        } else {
            bare_ids(parts.drop_last())
        }
    }
}

/// The message identifiers of a header value: those in angle brackets, or the
/// words of the value where no bracketed one is found.
pub open spec fn message_ids(s: Seq<char>) -> Seq<Seq<char>> {
    let bracketed = bracketed_ids(s, 0, None);
    if bracketed.len() > 0 {
        bracketed
    } else {
        bare_ids(text::words(s))
    }
}

/// Removes the punctuation around a message identifier.
fn normalize_message_id(value: &[char]) -> (r: String)
    ensures
        r@ == clean_id(value@),
{
    let a = text::strip(text::trim(value), &CharClass::One('<'));
    let b = text::strip(a, &CharClass::One('>'));
    let c = text::strip(b, &CharClass::One('"'));
    let d = text::strip(c, &CharClass::One(','));
    text::string_of(text::trim(d))
}

/// Collects the message identifiers of a header value.
fn parse_message_ids(raw: &[char]) -> (r: Vec<String>)
    ensures
        text::texts(r@) == message_ids(raw@),
{
    let mut ids: Vec<String> = Vec::new();
    let mut open: Option<usize> = None;
    let n = raw.len();
    let ghost mut start: Option<int> = None;
    let mut i: usize = 0;
    assert(text::texts(ids@) + bracketed_ids(raw@, 0, start) == bracketed_ids(raw@, 0, None));
    while i < n
        invariant
            i <= n,
            n == raw@.len(),
            match open {
                Some(o) => start == Some(o as int) && o <= i,
                None => start is None,
            },
            text::texts(ids@) + bracketed_ids(raw@, i as int, start) == bracketed_ids(raw@, 0, None),
        decreases n - i,
    {
        let ghost before = ids@;
        let c = raw[i];
        if c == '<' {
            open = Some(i + 1);
            proof {
                start = Some(i + 1);
            }
        } else if c == '>' {
            if let Some(o) = open {
                let id = normalize_message_id(slice_subrange(raw, o, i));
                if id.as_str().is_empty() {
                } else {
                    ids.push(id);
                    assert(text::texts(ids@) == text::texts(before).push(id@));
                    assert(text::texts(before) + (seq![id@] + bracketed_ids(raw@, i + 1, None)) == text::texts(
                        ids@,
                    ) + bracketed_ids(raw@, i + 1, None));
                }
            }
            open = None;
            proof {
                start = None;
            }
        }
        i += 1;
    }
    assert(text::texts(ids@) == bracketed_ids(raw@, 0, None));
    if ids.len() == 0 {
        let parts = text::split_words(raw);
        let ghost all = text::slices(parts@);
        let mut k: usize = 0;
        assert(text::texts(ids@) == bare_ids(all.take(0)));
        while k < parts.len()
            invariant
                k <= parts.len(),
                all == text::slices(parts@),
                text::texts(ids@) == bare_ids(all.take(k as int)),
            decreases parts.len() - k,
        {
            let ghost before = ids@;
            let id = normalize_message_id(parts[k]);
            assert(all.take(k + 1).drop_last() == all.take(k as int));
            assert(all.take(k + 1).last() == parts@[k as int]@);
            if !id.as_str().is_empty() {
                ids.push(id);
                assert(text::texts(ids@) == text::texts(before).push(id@));
            }
            k += 1;
        }
        assert(all.take(k as int) == all);
    }
    ids
}

// ---------------------------------------------------------------------------
// Mailbox addresses
// ---------------------------------------------------------------------------

/// The content of the last angle bracket of `s`, or `s` where no such bracket
/// is closed.
pub open spec fn bracket_content(s: Seq<char>) -> Seq<char> {
    match text::find_last(s, CharClass::One('<')) {
        Some(open) => match text::find(s.skip(open + 1), CharClass::One('>')) {
            Some(len) => s.skip(open + 1).take(len),
            None => s,
        },
        None => s,
    }
}

/// The first part that holds an at sign, at or after index `from`.
pub open spec fn first_mailbox_word(parts: Seq<Seq<char>>, from: int) -> Option<Seq<char>>
    decreases parts.len() - from,
{
    if from >= parts.len() {
        None
    } else if text::has_any(parts[from], CharClass::One('@')) {
        Some(parts[from])
    } else {
        first_mailbox_word(parts, from + 1)
    }
}

/// The mailbox that a display-name or bare address names, in lower case.
pub open spec fn mailbox_of(raw: Seq<char>) -> Option<Seq<char>> {
    let candidate = text::stripped(
        text::trimmed(bracket_content(text::trimmed(raw))),
        CharClass::AddressEdge,
    );
    let word = match first_mailbox_word(text::words(candidate), 0) {
        Some(part) => part,
        None => candidate,
    };
    let mailbox = text::stripped(word, CharClass::AddressEdge);
    if mailbox.len() == 0 || !text::has_any(mailbox, CharClass::One('@')) || text::has_any(
        mailbox,
        CharClass::AddressUnsafe,
    ) {
        None
    } else {
        Some(text::lowered(mailbox))
    }
}

/// Normalizes one display-name or bare mailbox value for identity matching.
pub fn normalize_email_address(raw: &str) -> (r: Option<String>)
    ensures
        text::opt_text(r) == mailbox_of(raw@),
{
    let all = text::chars_of(raw);
    let inner = bracket_slice(text::trim(all.as_slice()));
    let candidate = text::strip(text::trim(inner), &CharClass::AddressEdge);
    let parts = text::split_words(candidate);
    let ghost views = text::slices(parts@);
    let mut word: &[char] = candidate;
    let mut found = false;
    let mut i: usize = 0;
    while i < parts.len() && !found
        invariant
            i <= parts.len(),
            views == text::slices(parts@),
            found ==> first_mailbox_word(views, 0) == Some(word@),
            !found ==> {
                &&& first_mailbox_word(views, 0) == first_mailbox_word(views, i as int)
                &&& word@ == candidate@
            },
        decreases parts.len() - i,
    {
        assert(views[i as int] == parts@[i as int]@);
        if text::contains_class(parts[i], &CharClass::One('@')) {
            word = parts[i];
            found = true;
        }
        i += 1;
    }
    let mailbox = text::strip(word, &CharClass::AddressEdge);
    if mailbox.len() == 0 || !text::contains_class(mailbox, &CharClass::One('@')) || text::contains_class(
        mailbox,
        &CharClass::AddressUnsafe,
    ) {
        return None;
    }
    let low = text::lower(mailbox);
    Some(text::string_of(low.as_slice()))
}

/// The content of the last angle bracket.
fn bracket_slice<'a>(s: &'a [char]) -> (r: &'a [char])
    ensures
        r@ == bracket_content(s@),
{
    let n = s.len();
    match text::find_last_class(s, &CharClass::One('<')) {
        Some(open) => {
            let tail = slice_subrange(s, open + 1, n);
            match text::find_class(tail, &CharClass::One('>')) {
                Some(len) => slice_subrange(tail, 0, len),
                None => s,
            }
        },
        None => s,
    }
}

/// Whether index `i` of `s` stands inside double quotes.
pub open spec fn quoted_at(s: Seq<char>, i: int) -> bool
    decreases i,
{
    if i <= 0 {
        false
    } else if s[i - 1] == '"' {
        !quoted_at(s, i - 1)
    } else {
        quoted_at(s, i - 1)
    }
}

/// How many unquoted angle brackets are open at index `i` of `s`.
pub open spec fn depth_at(s: Seq<char>, i: int) -> nat
    decreases i,
{
    if i <= 0 {
        0
    } else if quoted_at(s, i - 1) {
        depth_at(s, i - 1)
    } else if s[i - 1] == '<' {
        depth_at(s, i - 1) + 1
    } else if s[i - 1] == '>' && depth_at(s, i - 1) > 0 {
        (depth_at(s, i - 1) - 1) as nat
    } else {
        depth_at(s, i - 1)
    }
}

/// Whether the comma at index `i` separates two recipients.
pub open spec fn separates(s: Seq<char>, i: int) -> bool {
    s[i] == ',' && !quoted_at(s, i) && depth_at(s, i) == 0
}

/// The recipients of a list from index `i` on, where the current one begins
/// at `start`.
pub open spec fn recipients_from(s: Seq<char>, start: int, i: int) -> Seq<Seq<char>>
    decreases s.len() - i,
{
    if i >= s.len() {
        seq![s.subrange(start, s.len() as int)]
    } else if separates(s, i) {
        seq![s.subrange(start, i)] + recipients_from(s, i + 1, i + 1)
    } else {
        recipients_from(s, start, i + 1)
    }
}

/// The recipients of an address list, as they are written.
pub open spec fn recipients(s: Seq<char>) -> Seq<Seq<char>> {
    recipients_from(s, 0, 0)
}

/// The mailboxes that the parts name.
pub open spec fn mailboxes(parts: Seq<Seq<char>>) -> Seq<Seq<char>>
    decreases parts.len(),
{
    if parts.len() == 0 {
        seq![]
    } else {
        let init = mailboxes(parts.drop_last());
        match mailbox_of(parts.last()) {
            Some(mailbox) => init.push(mailbox),
            None => init,
        }
    }
}

/// The mailboxes of an address list, each once, in order of appearance.
pub open spec fn address_list(s: Seq<char>) -> Seq<Seq<char>> {
    text::distinct(mailboxes(recipients(s)))
}

/// Appends the mailbox that `raw` names, unless it is already there.
fn push_normalized_address(values: &mut Vec<String>, raw: &[char])
    ensures
        match mailbox_of(raw@) {
            Some(mailbox) => text::texts(final(values)@) == if text::texts(old(values)@).contains(mailbox) {
                text::texts(old(values)@)
            } else {
                text::texts(old(values)@).push(mailbox)
            },
            None => text::texts(final(values)@) == text::texts(old(values)@),
        },
{
    let text = text::string_of(raw);
    let ghost before = values@;
    match normalize_email_address(text.as_str()) {
        Some(address) => {
            if !text::holds(values, &address) {
                values.push(address);
                assert(text::texts(values@) == text::texts(before).push(address@));
            }
        },
        None => {},
    }
}

/// Parses display-name addresses into normalized mailbox values.
///
/// Quoted strings and angle brackets are tracked so that a display name or a
/// quoted comma does not split one recipient into several.
pub fn parse_address_list(raw: &str) -> (r: Vec<String>)
    ensures
        text::texts(r@) == address_list(raw@),
{
    let s = text::chars_of(raw);
    let n = s.len();
    let mut values: Vec<String> = Vec::new();
    let ghost mut parts: Seq<Seq<char>> = seq![];
    let mut in_quotes = false;
    let mut angle_depth: usize = 0;
    let mut start: usize = 0;
    let mut i: usize = 0;
    assert(parts + recipients_from(s@, 0, 0) == recipients(s@));
    assert(text::texts(values@) == text::distinct(mailboxes(parts)));
    while i < n
        invariant
            start <= i <= n,
            n == s@.len(),
            s@ == raw@,
            in_quotes == quoted_at(s@, i as int),
            angle_depth == depth_at(s@, i as int),
            angle_depth <= i,
            parts + recipients_from(s@, start as int, i as int) == recipients(s@),
            text::texts(values@) == text::distinct(mailboxes(parts)),
        decreases n - i,
    {
        let c = s[i];
        if c == '"' {
            in_quotes = !in_quotes;
        } else if c == '<' && !in_quotes {
            angle_depth = angle_depth + 1;
        } else if c == '>' && !in_quotes {
            if angle_depth > 0 {
                angle_depth = angle_depth - 1;
            }
        } else if c == ',' && !in_quotes && angle_depth == 0 {
            let part = slice_subrange(s.as_slice(), start, i);
            proof {
                let rest = recipients_from(s@, i + 1, i + 1);
                assert(parts + (seq![part@] + rest) == parts.push(part@) + rest);
                assert(parts.push(part@).drop_last() == parts);
                lemma_mailboxes_push(parts, part@);
                parts = parts.push(part@);
            }
            push_normalized_address(&mut values, part);
            start = i + 1;
        }
        i += 1;
    }
    let part = slice_subrange(s.as_slice(), start, n);
    proof {
        assert(parts.push(part@) == recipients(s@));
        lemma_mailboxes_push(parts, part@);
    }
    push_normalized_address(&mut values, part);
    values
}

/// One more part adds at most its own mailbox.
proof fn lemma_mailboxes_push(parts: Seq<Seq<char>>, part: Seq<char>)
    ensures
        match mailbox_of(part) {
            Some(mailbox) => {
                &&& mailboxes(parts.push(part)) == mailboxes(parts).push(mailbox)
                &&& text::distinct(mailboxes(parts.push(part))) == if text::distinct(
                    mailboxes(parts),
                ).contains(mailbox) {
                    text::distinct(mailboxes(parts))
                } else {
                    text::distinct(mailboxes(parts)).push(mailbox)
                }
            },
            None => mailboxes(parts.push(part)) == mailboxes(parts),
        },
{
    assert(parts.push(part).drop_last() == parts);
    match mailbox_of(part) {
        Some(mailbox) => {
            assert(mailboxes(parts).push(mailbox).drop_last() == mailboxes(parts));
        },
        None => {},
    }
}

// ---------------------------------------------------------------------------
// Review trailers
// ---------------------------------------------------------------------------

/// The trailer kind that `kind` spells up to ASCII case.
pub open spec fn canonical_kind(kind: Seq<char>) -> Option<Seq<char>> {
    if text::same_letters("Reviewed-by"@, kind) {
        Some("Reviewed-by"@)
    } else if text::same_letters("Acked-by"@, kind) {
        Some("Acked-by"@)
    } else if text::same_letters("Tested-by"@, kind) {
        Some("Tested-by"@)
    } else if text::same_letters("Reported-by"@, kind) {
        Some("Reported-by"@)
    } else if text::same_letters("Suggested-by"@, kind) {
        Some("Suggested-by"@)
    } else if text::same_letters("Co-developed-by"@, kind) {
        Some("Co-developed-by"@)
    } else if text::same_letters("Signed-off-by"@, kind) {
        Some("Signed-off-by"@)
    } else {
        None
    }
}

/// Decides whether `kind` spells `name` up to ASCII case.
fn is_kind(name: &str, kind: &[char]) -> (r: bool)
    ensures
        r == text::same_letters(name@, kind@),
{
    let wanted = text::chars_of(name);
    text::same_ignoring_case(wanted.as_slice(), kind)
}

/// The canonical spelling of a review trailer kind.
fn canonical_review_trailer_kind(kind: &[char]) -> (r: Option<&'static str>)
    ensures
        match r {
            Some(name) => canonical_kind(kind@) == Some(name@),
            None => canonical_kind(kind@) is None,
        },
{
    if is_kind("Reviewed-by", kind) {
        Some("Reviewed-by")
    } else if is_kind("Acked-by", kind) {
        Some("Acked-by")
    } else if is_kind("Tested-by", kind) {
        Some("Tested-by")
    } else if is_kind("Reported-by", kind) {
        Some("Reported-by")
    } else if is_kind("Suggested-by", kind) {
        Some("Suggested-by")
    } else if is_kind("Co-developed-by", kind) {
        Some("Co-developed-by")
    } else if is_kind("Signed-off-by", kind) {
        Some("Signed-off-by")
    } else {
        None
    }
}

/// Whether a line quotes an earlier mail.
pub open spec fn quoted_line(line: Seq<char>) -> bool {
    let t = text::trimmed_start(line);
    t.len() > 0 && t[0] == '>'
}

/// Whether a line continues the one before it.
pub open spec fn indented(line: Seq<char>) -> bool {
    line.len() > 0 && (line[0] == ' ' || line[0] == '\t')
}

/// The trailer that a line states.
pub open spec fn trailer_line(line: Seq<char>) -> Option<TrailerView> {
    if quoted_line(line) {
        None
    } else {
        match text::cut(line, CharClass::One(':')) {
            Some((kind, value)) => match canonical_kind(text::trimmed(kind)) {
                Some(name) => if text::trimmed(value).len() > 0 {
                    Some(TrailerView { kind: name, value: text::trimmed(value) })
                } else {
                    None
                },
                None => None,
            },
            None => None,
        }
    }
}

/// What `open` contributes once it is complete.
pub open spec fn closed_trailer(open: Option<TrailerView>) -> Seq<TrailerView> {
    match open {
        Some(trailer) => seq![trailer],
        None => seq![],
    }
}

/// The trailers of the lines from index `i` on. `open` is the trailer of the
/// line before, which an indented line may continue.
pub open spec fn trailers_from(
    all: Seq<Seq<char>>,
    i: int,
    open: Option<TrailerView>,
) -> Seq<TrailerView>
    decreases all.len() - i,
{
    if i >= all.len() {
        closed_trailer(open)
    } else {
        let line = text::skip_trailing(all[i], CharClass::One('\r'));
        if quoted_line(line) {
            closed_trailer(open) + trailers_from(all, i + 1, None)
        } else if open is Some && indented(line) && text::trimmed(line).len() > 0 {
            trailers_from(
                all,
                i + 1,
                Some(
                    TrailerView {
                        kind: open->0.kind,
                        value: open->0.value.push(' ') + text::trimmed(line),
                    },
                ),
            )
        } else {
            closed_trailer(open) + trailers_from(all, i + 1, trailer_line(line))
        }
    }
}

/// The body of a mail: what follows its first empty line.
pub open spec fn body_of(mail: Seq<char>) -> Option<Seq<char>> {
    match text::find_text(mail, "\r\n\r\n"@) {
        Some(i) => Some(mail.skip(i + 4)),
        None => match text::find_text(mail, "\n\n"@) {
            Some(i) => Some(mail.skip(i + 2)),
            None => None,
        },
    }
}

/// The review trailers of a mail.
pub open spec fn mail_trailers(mail: Seq<char>) -> Seq<TrailerView> {
    match body_of(mail) {
        Some(body) => trailers_from(text::lines(body), 0, None),
        None => seq![],
    }
}

/// Decides whether a line quotes an earlier mail.
fn is_quoted_line(line: &[char]) -> (r: bool)
    ensures
        r == quoted_line(line@),
{
    let t = text::trim_start(line);
    t.len() > 0 && t[0] == '>'
}

/// Decides whether a line continues the one before it.
fn is_indented(line: &[char]) -> (r: bool)
    ensures
        r == indented(line@),
{
    line.len() > 0 && (line[0] == ' ' || line[0] == '\t')
}

/// Reads one trailer line.
fn review_trailer_line(line: &[char]) -> (r: Option<ParsedTrailer>)
    ensures
        match r {
            Some(trailer) => trailer_line(line@) == Some(trailer@),
            None => trailer_line(line@) is None,
        },
{
    if is_quoted_line(line) {
        return None;
    }
    match text::split_once(line, &CharClass::One(':')) {
        Some((kind, value)) => match canonical_review_trailer_kind(text::trim(kind)) {
            Some(name) => {
                let value = text::trim(value);
                if value.len() == 0 {
                    return None;
                }
                let name_chars = text::chars_of(name);
                Some(
                    ParsedTrailer {
                        kind: text::string_of(name_chars.as_slice()),
                        value: text::string_of(value),
                    },
                )
            },
            None => None,
        },
        None => None,
    }
}

/// The body of a mail.
fn body_slice<'a>(mail: &'a [char]) -> (r: Option<&'a [char]>)
    ensures
        match r {
            Some(body) => body_of(mail@) == Some(body@),
            None => body_of(mail@) is None,
        },
{
    proof {
        reveal_strlit("\r\n\r\n");
        reveal_strlit("\n\n");
    }
    let n = mail.len();
    let long = text::chars_of("\r\n\r\n");
    match text::find_part(mail, long.as_slice()) {
        Some(i) => return Some(slice_subrange(mail, i + 4, n)),
        None => {},
    }
    let short = text::chars_of("\n\n");
    match text::find_part(mail, short.as_slice()) {
        Some(i) => Some(slice_subrange(mail, i + 2, n)),
        None => None,
    }
}

/// The view of a trailer that may be open.
spec fn open_view(open: Option<ParsedTrailer>) -> Option<TrailerView> {
    match open {
        Some(trailer) => Some(trailer@),
        None => None,
    }
}

/// Moves a complete trailer to the list.
fn close_trailer(out: &mut Vec<ParsedTrailer>, open: Option<ParsedTrailer>)
    ensures
        trailer_views(final(out)@) == trailer_views(old(out)@) + closed_trailer(open_view(open)),
{
    let ghost before = out@;
    match open {
        Some(trailer) => {
            out.push(trailer);
            assert(trailer_views(out@) == trailer_views(before) + seq![trailer@]);
        },
        None => {
            assert(trailer_views(out@) == trailer_views(before) + closed_trailer(open_view(open)));
        },
    }
}

/// Collects the review trailers of a mail.
fn parse_review_trailers(mail: &[char]) -> (r: Vec<ParsedTrailer>)
    ensures
        trailer_views(r@) == mail_trailers(mail@),
{
    let mut out: Vec<ParsedTrailer> = Vec::new();
    let body = match body_slice(mail) {
        Some(body) => body,
        None => {
            assert(trailer_views(out@) == mail_trailers(mail@));
            return out;
        },
    };
    let all = text::split_lines(body);
    let ghost views = text::slices(all@);
    let mut open: Option<ParsedTrailer> = None;
    let mut i: usize = 0;
    assert(trailer_views(out@) + trailers_from(views, 0, None) == trailers_from(views, 0, None));
    while i < all.len()
        invariant
            i <= all.len(),
            views == text::slices(all@),
            trailer_views(out@) + trailers_from(views, i as int, open_view(open)) == trailers_from(
                views,
                0,
                None,
            ),
        decreases all.len() - i,
    {
        assert(views[i as int] == all@[i as int]@);
        let line = text::strip_trailing(all[i], &CharClass::One('\r'));
        let ghost was = open_view(open);
        let ghost before = trailer_views(out@);
        if is_quoted_line(line) {
            close_trailer(&mut out, open);
            open = None;
            assert(before + (closed_trailer(was) + trailers_from(views, i + 1, None))
                == trailer_views(out@) + trailers_from(views, i + 1, None));
        } else {
            let extra = text::trim(line);
            match open {
                Some(trailer) if is_indented(line) && extra.len() > 0 => {
                    let mut value = text::chars_of(trailer.value.as_str());
                    value.push(' ');
                    text::append(&mut value, extra);
                    open = Some(
                        ParsedTrailer { kind: trailer.kind, value: text::string_of(value.as_slice()) },
                    );
                },
                previous => {
                    close_trailer(&mut out, previous);
                    open = review_trailer_line(line);
                    assert(open_view(open) == trailer_line(line@));
                    assert(before + (closed_trailer(was) + trailers_from(
                        views,
                        i + 1,
                        trailer_line(line@),
                    )) == trailer_views(out@) + trailers_from(views, i + 1, trailer_line(line@)));
                },
            }
        }
        i += 1;
    }
    close_trailer(&mut out, open);
    out
}

// ---------------------------------------------------------------------------
// Header fields
// ---------------------------------------------------------------------------

/// One header field: its name in lower case and its unfolded value.
struct HeaderField {
    name: String,
    value: String,
}

impl View for HeaderField {
    type V = (Seq<char>, Seq<char>);

    closed spec fn view(&self) -> (Seq<char>, Seq<char>) {
        (self.name@, self.value@)
    }
}

/// The field that a line opens.
pub open spec fn field_line(line: Seq<char>) -> Option<(Seq<char>, Seq<char>)> {
    match text::cut(line, CharClass::One(':')) {
        Some((name, value)) => Some((text::lowered(text::trimmed(name)), text::trimmed(value))),
        None => None,
    }
}

/// A field continued by an indented line.
pub open spec fn folded_field(
    open: Option<(Seq<char>, Seq<char>)>,
    line: Seq<char>,
) -> Option<(Seq<char>, Seq<char>)> {
    match open {
        Some((name, value)) => if text::trimmed(line).len() == 0 {
            Some((name, value))
        } else if value.len() == 0 {
            Some((name, text::trimmed(line)))
        } else {
            Some((name, value.push(' ') + text::trimmed(line)))
        },
        None => None,
    }
}

/// What `open` contributes once it is complete.
pub open spec fn closed_field(open: Option<(Seq<char>, Seq<char>)>) -> Seq<
    (Seq<char>, Seq<char>),
> {
    match open {
        Some((name, value)) => seq![(name, text::trimmed(value))],
        None => seq![],
    }
}

/// The header fields of the lines from index `i` on, up to the first empty
/// line. `open` is the field of the line before.
pub open spec fn fields_from(
    all: Seq<Seq<char>>,
    i: int,
    open: Option<(Seq<char>, Seq<char>)>,
) -> Seq<(Seq<char>, Seq<char>)>
    decreases all.len() - i,
{
    if i >= all.len() {
        closed_field(open)
    } else {
        let line = text::skip_trailing(all[i], CharClass::One('\r'));
        if line.len() == 0 {
            closed_field(open)
        } else if indented(line) {
            fields_from(all, i + 1, folded_field(open, line))
        } else {
            closed_field(open) + fields_from(all, i + 1, field_line(line))
        }
    }
}

/// The header fields of a mail, in order.
pub open spec fn header_fields(mail: Seq<char>) -> Seq<(Seq<char>, Seq<char>)> {
    fields_from(text::lines(mail), 0, None)
}

/// The value of the first field called `name`, at or after index `from`.
pub open spec fn field_value(
    fields: Seq<(Seq<char>, Seq<char>)>,
    name: Seq<char>,
    from: int,
) -> Option<Seq<char>>
    decreases fields.len() - from,
{
    if from >= fields.len() {
        None
    } else if fields[from].0 == name {
        Some(text::trimmed(fields[from].1))
    } else {
        field_value(fields, name, from + 1)
    }
}

/// The value of the header `name` of a mail.
pub open spec fn header(mail: Seq<char>, name: Seq<char>) -> Option<Seq<char>> {
    field_value(header_fields(mail), name, 0)
}

/// The views of a list of fields.
spec fn field_views(v: Seq<HeaderField>) -> Seq<(Seq<char>, Seq<char>)> {
    Seq::new(v.len(), |i: int| v[i]@)
}

/// The view of a field that may be open.
spec fn open_field(open: Option<HeaderField>) -> Option<(Seq<char>, Seq<char>)> {
    match open {
        Some(field) => Some(field@),
        None => None,
    }
}

/// Moves a complete field to the list.
fn close_field(out: &mut Vec<HeaderField>, open: Option<HeaderField>)
    ensures
        field_views(final(out)@) == field_views(old(out)@) + closed_field(open_field(open)),
{
    let ghost before = out@;
    match open {
        Some(field) => {
            let value = text::chars_of(field.value.as_str());
            out.push(HeaderField { name: field.name, value: text::string_of(text::trim(value.as_slice())) });
            assert(field_views(out@) == field_views(before) + seq![
                (field.name@, text::trimmed(field.value@)),
            ]);
        },
        None => {
            assert(field_views(out@) == field_views(before) + closed_field(open_field(open)));
        },
    }
}

/// Opens the field of a header line.
fn open_header(line: &[char]) -> (r: Option<HeaderField>)
    ensures
        open_field(r) == field_line(line@),
{
    match text::split_once(line, &CharClass::One(':')) {
        Some((name, value)) => {
            let low = text::lower(text::trim(name));
            Some(HeaderField { name: text::string_of(low.as_slice()), value: text::string_of(text::trim(value)) })
        },
        None => None,
    }
}

/// Continues a field with an indented line.
fn fold_header(open: Option<HeaderField>, line: &[char]) -> (r: Option<HeaderField>)
    ensures
        open_field(r) == folded_field(open_field(open), line@),
{
    match open {
        Some(field) => {
            let fragment = text::trim(line);
            if fragment.len() == 0 {
                return Some(field);
            }
            let mut value = text::chars_of(field.value.as_str());
            if value.len() > 0 {
                value.push(' ');
            }
            text::append(&mut value, fragment);
            let r = HeaderField { name: field.name, value: text::string_of(value.as_slice()) };
            assert(field.value@.len() == 0 ==> r.value@ == fragment@);
            Some(r)
        },
        None => None,
    }
}

/// Collects the header fields of a mail.
fn parse_header_block(mail: &[char]) -> (r: Vec<HeaderField>)
    ensures
        field_views(r@) == header_fields(mail@),
{
    let all = text::split_lines(mail);
    let ghost views = text::slices(all@);
    let mut out: Vec<HeaderField> = Vec::new();
    let mut open: Option<HeaderField> = None;
    let mut i: usize = 0;
    assert(field_views(out@) + fields_from(views, 0, None) == fields_from(views, 0, None));
    while i < all.len()
        invariant
            i <= all.len(),
            views == text::slices(all@),
            views == text::lines(mail@),
            field_views(out@) + fields_from(views, i as int, open_field(open)) == header_fields(
                mail@,
            ),
        decreases all.len() - i,
    {
        assert(views[i as int] == all@[i as int]@);
        let line = text::strip_trailing(all[i], &CharClass::One('\r'));
        if line.len() == 0 {
            close_field(&mut out, open);
            return out;
        }
        if is_indented(line) {
            open = fold_header(open, line);
        } else {
            let ghost was = open_field(open);
            let ghost before = field_views(out@);
            close_field(&mut out, open);
            open = open_header(line);
            assert(before + (closed_field(was) + fields_from(views, i + 1, field_line(line@)))
                == field_views(out@) + fields_from(views, i + 1, field_line(line@)));
        }
        i += 1;
    }
    close_field(&mut out, open);
    out
}

/// The value of the first field called `name`.
fn header_value(headers: &Vec<HeaderField>, name: &str) -> (r: Option<String>)
    ensures
        text::opt_text(r) == field_value(field_views(headers@), name@, 0),
{
    let wanted = text::chars_of(name);
    let ghost views = field_views(headers@);
    let mut i: usize = 0;
    while i < headers.len()
        invariant
            i <= headers.len(),
            wanted@ == name@,
            views == field_views(headers@),
            field_value(views, name@, 0) == field_value(views, name@, i as int),
        decreases headers.len() - i,
    {
        assert(views[i as int] == headers@[i as int]@);
        let candidate = text::chars_of(headers[i].name.as_str());
        if text::same_text(candidate.as_slice(), wanted.as_slice()) {
            let value = text::chars_of(headers[i].value.as_str());
            return Some(text::string_of(text::trim(value.as_slice())));
        }
        i += 1;
    }
    None
}

// ---------------------------------------------------------------------------
// Whole mails
// ---------------------------------------------------------------------------

/// The first message identifier of an optional header value.
pub open spec fn first_id(value: Option<Seq<char>>) -> Option<Seq<char>> {
    match value {
        Some(v) => if message_ids(v).len() > 0 {
            Some(message_ids(v)[0])
        } else {
            None
        },
        None => None,
    }
}

/// An optional text, empty where there is none.
pub open spec fn or_empty(value: Option<Seq<char>>) -> Seq<char> {
    match value {
        Some(v) => v,
        None => seq![],
    }
}

/// An optional text, absent where it is empty.
pub open spec fn non_empty(value: Option<Seq<char>>) -> Option<Seq<char>> {
    match value {
        Some(v) => if v.len() > 0 {
            Some(v)
        } else {
            None
        },
        None => None,
    }
}

/// The addresses of an optional header value.
pub open spec fn addresses_of(value: Option<Seq<char>>) -> Seq<Seq<char>> {
    match value {
        Some(v) => address_list(v),
        None => seq![],
    }
}

/// The reference chain of a mail: its `References`, or else the mail that it
/// replies to, each identifier once.
pub open spec fn reference_chain(mail: Seq<char>) -> Seq<Seq<char>> {
    let listed = match header(mail, "references"@) {
        Some(v) => message_ids(v),
        None => seq![],
    };
    let replied = first_id(header(mail, "in-reply-to"@));
    if listed.len() == 0 && replied is Some {
        text::distinct(seq![replied->0])
    } else {
        text::distinct(listed)
    }
}

/// The change identifier of a mail: the first of three headers that stands
/// there, unless it is blank.
pub open spec fn change_of(mail: Seq<char>) -> Option<Seq<char>> {
    let value = match header(mail, "change-id"@) {
        Some(v) => Some(v),
        None => match header(mail, "x-change-id"@) {
            Some(v) => Some(v),
            None => header(mail, "x-series-change-id"@),
        },
    };
    match value {
        Some(v) => non_empty(Some(text::trimmed(v))),
        None => None,
    }
}

/// The headers and trailers of a mail.
pub open spec fn mail_headers(mail: Seq<char>, fallback: Seq<char>) -> HeadersView {
    HeadersView {
        message_id: match first_id(header(mail, "message-id"@)) {
            Some(id) => id,
            None => fallback,
        },
        subject: or_empty(header(mail, "subject"@)),
        from_addr: or_empty(header(mail, "from"@)),
        to_addresses: addresses_of(header(mail, "to"@)),
        cc_addresses: addresses_of(header(mail, "cc"@)),
        date: non_empty(header(mail, "date"@)),
        in_reply_to: first_id(header(mail, "in-reply-to"@)),
        references: reference_chain(mail),
        list_id: non_empty(header(mail, "list-id"@)),
        change_id: change_of(mail),
        trailers: mail_trailers(mail),
    }
}

/// The first message identifier of an optional value.
fn first_message_id(value: Option<String>) -> (r: Option<String>)
    ensures
        text::opt_text(r) == first_id(text::opt_text(value)),
{
    match value {
        Some(v) => {
            let chars = text::chars_of(v.as_str());
            let ids = parse_message_ids(chars.as_slice());
            assert(text::texts(ids@) == message_ids(v@));
            if ids.len() > 0 {
                assert(text::texts(ids@)[0] == ids@[0]@);
                Some(ids[0].clone())
            } else {
                None
            }
        },
        None => None,
    }
}

/// An optional string, empty where there is none.
fn unwrap_or_empty(value: Option<String>) -> (r: String)
    ensures
        r@ == or_empty(text::opt_text(value)),
{
    match value {
        Some(v) => v,
        None => String::new(),
    }
}

/// Drops an empty string.
fn drop_empty(value: Option<String>) -> (r: Option<String>)
    ensures
        text::opt_text(r) == non_empty(text::opt_text(value)),
{
    match value {
        Some(v) => {
            if v.as_str().is_empty() {
                None
            } else {
                Some(v)
            }
        },
        None => None,
    }
}

/// The addresses of an optional header value.
fn address_values(value: Option<String>) -> (r: Vec<String>)
    ensures
        text::texts(r@) == addresses_of(text::opt_text(value)),
{
    match value {
        Some(v) => parse_address_list(v.as_str()),
        None => {
            let none: Vec<String> = Vec::new();
            assert(text::texts(none@) == addresses_of(None));
            none
        },
    }
}

/// The reference chain from the values of the two headers that make it.
fn reference_values(listed: Option<String>, replied: &Option<String>) -> (r: Vec<String>)
    ensures
        ({
            let ids = match text::opt_text(listed) {
                Some(v) => message_ids(v),
                None => seq![],
            };
            let reply = text::opt_text(*replied);
            text::texts(r@) == if ids.len() == 0 && reply is Some {
                text::distinct(seq![reply->0])
            } else {
                text::distinct(ids)
            }
        }),
{
    let mut ids: Vec<String> = match listed {
        Some(v) => {
            let chars = text::chars_of(v.as_str());
            parse_message_ids(chars.as_slice())
        },
        None => Vec::new(),
    };
    assert(listed is None ==> text::texts(ids@) == Seq::<Seq<char>>::empty());
    assert(text::texts(ids@).len() == ids@.len());
    if ids.len() == 0 {
        match replied {
            Some(id) => {
                ids.push(id.clone());
                assert(text::texts(ids@) == seq![id@]);
            },
            None => {},
        }
    }
    text::dedup(&ids)
}

/// Reads the headers and trailers of a mail that is already decoded. The
/// `fallback_message_id` stands in for a missing `Message-ID`.
pub fn parse_header_text(mail: &str, fallback_message_id: String) -> (r: ParsedMailHeaders)
    ensures
        r@ == mail_headers(mail@, fallback_message_id@),
{
    let text = text::chars_of(mail);
    let headers = parse_header_block(text.as_slice());
    let message_id = match first_message_id(header_value(&headers, "message-id")) {
        Some(id) => id,
        None => fallback_message_id,
    };
    let in_reply_to = first_message_id(header_value(&headers, "in-reply-to"));
    let references = reference_values(header_value(&headers, "references"), &in_reply_to);
    let to_addresses = address_values(header_value(&headers, "to"));
    let cc_addresses = address_values(header_value(&headers, "cc"));
    let change_value = match header_value(&headers, "change-id") {
        Some(v) => Some(v),
        None => match header_value(&headers, "x-change-id") {
            Some(v) => Some(v),
            None => header_value(&headers, "x-series-change-id"),
        },
    };
    let change_id = match change_value {
        Some(v) => {
            let chars = text::chars_of(v.as_str());
            drop_empty(Some(text::string_of(text::trim(chars.as_slice()))))
        },
        None => None,
    };
    let r = ParsedMailHeaders {
        message_id,
        subject: unwrap_or_empty(header_value(&headers, "subject")),
        from_addr: unwrap_or_empty(header_value(&headers, "from")),
        to_addresses,
        cc_addresses,
        date: drop_empty(header_value(&headers, "date")),
        in_reply_to,
        references,
        list_id: drop_empty(header_value(&headers, "list-id")),
        change_id,
        trailers: parse_review_trailers(text.as_slice()),
    };
    r
}

/// Reads the headers and trailers of a raw mail. Bytes that are not UTF-8 are
/// replaced before the mail is read.
pub fn parse_headers(raw: &[u8], fallback_message_id: String) -> (r: ParsedMailHeaders)
    ensures
        r@ == mail_headers(text::lossy_text(raw@), fallback_message_id@),
        vstd::utf8::valid_utf8(raw@) ==> r@ == mail_headers(
            vstd::utf8::decode_utf8(raw@),
            fallback_message_id@,
        ),
        forall|k: int, value: Seq<char>| #[trigger]
            states_field(text::lossy_text(raw@), k, "date"@, value) && value.len() > 0 ==> r@.date
                == Some(value),
        forall|k: int, value: Seq<char>| #[trigger]
            states_field(text::lossy_text(raw@), k, "subject"@, value) ==> r@.subject == value,
        forall|k: int, value: Seq<char>| #[trigger]
            states_field(text::lossy_text(raw@), k, "from"@, value) ==> r@.from_addr == value,
        forall|k: int, value: Seq<char>| #[trigger]
            states_field(text::lossy_text(raw@), k, "to"@, value) ==> r@.to_addresses
                == address_list(value),
        forall|k: int, value: Seq<char>| #[trigger]
            states_field(text::lossy_text(raw@), k, "cc"@, value) ==> r@.cc_addresses
                == address_list(value),
{
    proof {
        let mail = text::lossy_text(raw@);
        let fallback = fallback_message_id@;
        assert forall|k: int, value: Seq<char>| #[trigger]
            states_field(mail, k, "date"@, value) && value.len() > 0 implies mail_headers(
            mail,
            fallback,
        ).date == Some(value) by {
            law_headers_are_read_from_their_fields(mail, fallback, k, value);
        }
        assert forall|k: int, value: Seq<char>| #[trigger]
            states_field(mail, k, "subject"@, value) implies mail_headers(mail, fallback).subject
            == value by {
            law_headers_are_read_from_their_fields(mail, fallback, k, value);
        }
        assert forall|k: int, value: Seq<char>| #[trigger]
            states_field(mail, k, "from"@, value) implies mail_headers(mail, fallback).from_addr
            == value by {
            law_headers_are_read_from_their_fields(mail, fallback, k, value);
        }
        assert forall|k: int, value: Seq<char>| #[trigger]
            states_field(mail, k, "to"@, value) implies mail_headers(mail, fallback).to_addresses
            == address_list(value) by {
            law_headers_are_read_from_their_fields(mail, fallback, k, value);
        }
        assert forall|k: int, value: Seq<char>| #[trigger]
            states_field(mail, k, "cc"@, value) implies mail_headers(mail, fallback).cc_addresses
            == address_list(value) by {
            law_headers_are_read_from_their_fields(mail, fallback, k, value);
        }
    }
    let mail = text::decode_lossy(raw);
    parse_header_text(mail.as_str(), fallback_message_id)
}

// ---------------------------------------------------------------------------
// Subjects
// ---------------------------------------------------------------------------

/// A lower-case subject without the reply and forward markers in front of it.
pub open spec fn unmarked(s: Seq<char>) -> Seq<char>
    decreases s.len(),
{
    let t = text::trimmed_start(s);
    proof {
        text::lemma_skip_leading(s, CharClass::Space);
        reveal_strlit("re:");
        reveal_strlit("fwd:");
        text::lemma_skip_leading(t.skip(3), CharClass::Space);
        text::lemma_skip_leading(t.skip(4), CharClass::Space);
    }
    if text::opens_with(t, "re:"@) {
        unmarked(text::trimmed_start(t.skip(3)))
    } else if text::opens_with(t, "fwd:"@) {
        unmarked(text::trimmed_start(t.skip(4)))
    } else {
        s
    }
}

/// A subject without the bracketed tags in front of it.
pub open spec fn untagged(s: Seq<char>) -> Seq<char>
    decreases s.len(),
{
    let t = text::trimmed_start(s);
    proof {
        text::lemma_skip_leading(s, CharClass::Space);
        text::lemma_find_from(t, CharClass::One(']'), 0);
    }
    if t.len() > 0 && t[0] == '[' {
        match text::find(t, CharClass::One(']')) {
            Some(i) => {
                proof {
                    text::lemma_skip_leading(t.skip(i + 1), CharClass::Space);
                }
                untagged(text::trimmed_start(t.skip(i + 1)))
            },
            None => t,
        }
    } else {
        t
    }
}

/// The subject by which mails of one conversation are recognised.
pub open spec fn normalized_subject(subject: Seq<char>) -> Seq<char> {
    text::trimmed(untagged(unmarked(text::lowered(text::trimmed(subject)))))
}

/// Drops the reply and forward markers of a lower-case subject.
fn drop_markers<'a>(s: &'a [char]) -> (r: &'a [char])
    ensures
        r@ == unmarked(s@),
{
    let re = text::chars_of("re:");
    let fwd = text::chars_of("fwd:");
    let mut rest: &'a [char] = s;
    proof {
        reveal_strlit("re:");
        reveal_strlit("fwd:");
    }
    loop
        invariant
            re@ == "re:"@,
            fwd@ == "fwd:"@,
            re@.len() == 3,
            fwd@.len() == 4,
            unmarked(rest@) == unmarked(s@),
        decreases rest@.len(),
    {
        let t = text::trim_start(rest);
        let n = t.len();
        if text::starts_with(t, re.as_slice()) {
            rest = text::trim_start(slice_subrange(t, 3, n));
        } else if text::starts_with(t, fwd.as_slice()) {
            rest = text::trim_start(slice_subrange(t, 4, n));
        } else {
            return rest;
        }
    }
}

/// Drops the bracketed tags of a subject.
fn drop_tags<'a>(s: &'a [char]) -> (r: &'a [char])
    ensures
        r@ == untagged(s@),
{
    let mut rest: &'a [char] = s;
    loop
        invariant
            untagged(rest@) == untagged(s@),
        decreases rest@.len(),
    {
        let t = text::trim_start(rest);
        let n = t.len();
        if n == 0 || t[0] != '[' {
            return t;
        }
        match text::find_class(t, &CharClass::One(']')) {
            Some(i) => {
                rest = text::trim_start(slice_subrange(t, i + 1, n));
            },
            None => {
                return t;
            },
        }
    }
}

/// Normalizes a subject: lower case, without reply markers and tags.
pub fn normalize_subject(subject: &str) -> (r: String)
    ensures
        r@ == normalized_subject(subject@),
{
    let all = text::chars_of(subject);
    let low = text::lower(text::trim(all.as_slice()));
    text::string_of(text::trim(drop_tags(drop_markers(low.as_slice()))))
}

// ---------------------------------------------------------------------------
// Laws
// ---------------------------------------------------------------------------

/// A reply or forward marker in front of a subject, in any case, does not
/// change the subject that mails are grouped by.
pub proof fn law_markers_do_not_change_the_subject(marker: Seq<char>, subject: Seq<char>)
    requires
        text::same_letters(marker, "re:"@) || text::same_letters(marker, "fwd:"@),
    ensures
        normalized_subject(marker + subject) == normalized_subject(subject),
{
    reveal_strlit("re:");
    reveal_strlit("fwd:");
    let all = marker + subject;
    let low = text::lowered(marker);
    let n = marker.len() as int;
    assert(low == "re:"@ || low == "fwd:"@) by {
        lemma_literals_are_lower();
    }
    assert(low[0] == text::lower_char(marker[0]));
    assert(low[n - 1] == text::lower_char(marker[n - 1]));
    // The marker neither begins nor ends in white space.
    text::lemma_skip_leading_is(all, CharClass::Space, 0);
    assert(all.skip(0) == all);
    let tail = text::skip_trailing(subject, CharClass::Space);
    text::lemma_skip_trailing(subject, CharClass::Space);
    let m = tail.len() as int;
    assert forall|j: int| n + m <= j < all.len() implies CharClass::Space.has(#[trigger] all[j]) by {
        assert(all[j] == subject[j - n]);
        assert(CharClass::Space.has(subject[j - n]));
    }
    if m > 0 {
        assert(all[n + m - 1] == tail.last());
    } else {
        assert(all[n - 1] == marker[n - 1]);
    }
    text::lemma_skip_trailing_is(all, CharClass::Space, n + m);
    assert(text::trimmed(all) == marker + tail);
    let y = text::lowered(tail);
    let front = text::lowered(text::trimmed(all));
    assert(front == low + y);
    assert(front[0] == low[0]);
    text::lemma_skip_leading_is(front, CharClass::Space, 0);
    assert(front.skip(0) == front);
    assert(front.take(n) == low);
    assert(front.subrange(0, n) == low);
    assert(front.skip(n) == y);
    if low == "fwd:"@ {
        assert(front.subrange(0, 3)[0] == front[0]);
        assert(!text::opens_with(front, "re:"@));
    }
    assert(unmarked(front) == unmarked(text::trimmed_start(y)));
    text::lemma_lowered_trims(tail);
    text::lemma_stripped_either_order(subject, CharClass::Space);
    assert(text::trimmed_start(y) == text::lowered(text::trimmed(subject)));
}

/// The markers are written in lower case.
proof fn lemma_literals_are_lower()
    ensures
        text::lowered("re:"@) == "re:"@,
        text::lowered("fwd:"@) == "fwd:"@,
{
    reveal_strlit("re:");
    reveal_strlit("fwd:");
}

/// A normalized mailbox holds an at sign, no white space and no quoting, and
/// normalizing it again changes nothing.
pub proof fn law_normalized_mailboxes_are_stable(raw: Seq<char>)
    ensures
        mailbox_of(raw) matches Some(m) ==> {
            &&& mailbox_of(m) == Some(m)
            &&& text::lowered(m) == m
            &&& text::has_any(m, CharClass::One('@'))
            &&& !text::has_any(m, CharClass::AddressUnsafe)
            &&& !text::has_any(m, CharClass::Space)
        },
{
    let candidate = text::stripped(
        text::trimmed(bracket_content(text::trimmed(raw))),
        CharClass::AddressEdge,
    );
    let picked = first_mailbox_word(text::words(candidate), 0);
    let word = match picked {
        Some(part) => part,
        None => candidate,
    };
    let mailbox = text::stripped(word, CharClass::AddressEdge);
    if mailbox_of(raw) is Some {
        let m = text::lowered(mailbox);
        lemma_first_mailbox_word(text::words(candidate), 0);
        text::lemma_words(candidate);
        text::lemma_stripped(word, CharClass::AddressEdge);
        if picked is None {
            text::lemma_stripped_keeps(candidate, CharClass::AddressEdge, CharClass::One('@'));
            let i = choose|i: int|
                0 <= i < candidate.len() && CharClass::One('@').has(#[trigger] candidate[i]);
            text::lemma_words_cover(candidate, i);
            assert(false);
        }
        text::lemma_stripped_keeps(word, CharClass::AddressEdge, CharClass::Space);
        lemma_mailbox_fixed(m, mailbox);
    }
}

/// What is found among the words is one of them and holds an at sign.
proof fn lemma_first_mailbox_word(parts: Seq<Seq<char>>, from: int)
    requires
        0 <= from,
    ensures
        match first_mailbox_word(parts, from) {
            Some(part) => text::has_any(part, CharClass::One('@')) && exists|k: int|
                from <= k < parts.len() && #[trigger] parts[k] == part,
            None => forall|k: int|
                from <= k < parts.len() ==> !text::has_any(#[trigger] parts[k], CharClass::One('@')),
        },
    decreases parts.len() - from,
{
    if from < parts.len() && !text::has_any(parts[from], CharClass::One('@')) {
        lemma_first_mailbox_word(parts, from + 1);
    }
}

/// A clean mailbox in lower case is its own normal form.
proof fn lemma_mailbox_fixed(m: Seq<char>, mailbox: Seq<char>)
    requires
        m == text::lowered(mailbox),
        mailbox.len() > 0,
        !CharClass::AddressEdge.has(mailbox[0]),
        !CharClass::AddressEdge.has(mailbox.last()),
        text::has_any(mailbox, CharClass::One('@')),
        !text::has_any(mailbox, CharClass::AddressUnsafe),
        !text::has_any(mailbox, CharClass::Space),
    ensures
        mailbox_of(m) == Some(m),
        text::lowered(m) == m,
        text::has_any(m, CharClass::One('@')),
        !text::has_any(m, CharClass::AddressUnsafe),
        !text::has_any(m, CharClass::Space),
{
    let at = choose|i: int|
        0 <= i < mailbox.len() && CharClass::One('@').has(#[trigger] mailbox[i]);
    assert(m[at] == '@');
    assert(CharClass::One('@').has(m[at]));
    assert forall|j: int| 0 <= j < m.len() implies !CharClass::AddressUnsafe.has(#[trigger] m[j])
        && !CharClass::Space.has(m[j]) by {
        assert(!CharClass::AddressUnsafe.has(mailbox[j]));
        assert(!CharClass::Space.has(mailbox[j]));
        assert(m[j] == text::lower_char(mailbox[j]));
    }
    assert(m[0] == text::lower_char(mailbox[0]));
    assert(m.last() == text::lower_char(mailbox.last()));
    assert(!CharClass::Space.has(m[0]));
    assert(!CharClass::Space.has(m[m.len() - 1]));
    text::lemma_stripped_same(m, CharClass::Space);
    text::lemma_stripped_same(m, CharClass::AddressEdge);
    lemma_find_last_none(m, CharClass::One('<'), m.len() as int);
    text::lemma_single_word(m);
    assert(first_mailbox_word(seq![m], 0) == Some(m));
    assert(text::lowered(m) == m);
}

/// Nothing is found from the back where no character is of the class.
proof fn lemma_find_last_none(s: Seq<char>, class: CharClass, end: int)
    requires
        end <= s.len(),
        forall|j: int| 0 <= j < end ==> !class.has(#[trigger] s[j]),
    ensures
        text::find_back(s, class, end) is None,
    decreases end,
{
    if end > 0 {
        lemma_find_last_none(s, class, end - 1);
    }
}

/// An address list names no mailbox twice, and every entry is in normal form.
pub proof fn law_address_lists_hold_distinct_mailboxes(raw: Seq<char>)
    ensures
        address_list(raw).no_duplicates(),
        forall|i: int|
            0 <= i < address_list(raw).len() ==> mailbox_of(#[trigger] address_list(raw)[i])
                == Some(address_list(raw)[i]),
{
    let found = mailboxes(recipients(raw));
    text::lemma_distinct(found);
    lemma_mailboxes_are_normal(recipients(raw));
    assert forall|i: int| 0 <= i < address_list(raw).len() implies mailbox_of(
        #[trigger] address_list(raw)[i],
    ) == Some(address_list(raw)[i]) by {
        let m = address_list(raw)[i];
        assert(address_list(raw).contains(m));
        assert(found.contains(m));
        let k = choose|k: int| 0 <= k < found.len() && found[k] == m;
        assert(mailbox_of(found[k]) == Some(found[k]));
    }
}

/// Every collected mailbox is in normal form.
proof fn lemma_mailboxes_are_normal(parts: Seq<Seq<char>>)
    ensures
        forall|k: int|
            0 <= k < mailboxes(parts).len() ==> mailbox_of(#[trigger] mailboxes(parts)[k]) == Some(
                mailboxes(parts)[k],
            ),
    decreases parts.len(),
{
    if parts.len() > 0 {
        lemma_mailboxes_are_normal(parts.drop_last());
        law_normalized_mailboxes_are_stable(parts.last());
        let init = mailboxes(parts.drop_last());
        assert forall|k: int| 0 <= k < mailboxes(parts).len() implies mailbox_of(
            #[trigger] mailboxes(parts)[k],
        ) == Some(mailboxes(parts)[k]) by {
            if k < init.len() {
                assert(mailboxes(parts)[k] == init[k]);
            }
        }
    }
}

/// No message identifier is empty.
pub proof fn law_message_ids_are_not_empty(value: Seq<char>)
    ensures
        forall|i: int| 0 <= i < message_ids(value).len() ==> (#[trigger] message_ids(value)[i]).len() > 0,
{
    lemma_bracketed_ids(value, 0, None);
    lemma_bare_ids(text::words(value));
}

/// Bracketed identifiers are not empty.
proof fn lemma_bracketed_ids(s: Seq<char>, i: int, open: Option<int>)
    ensures
        forall|k: int|
            0 <= k < bracketed_ids(s, i, open).len() ==> (#[trigger] bracketed_ids(
                s,
                i,
                open,
            )[k]).len() > 0,
    decreases s.len() - i,
{
    if i < s.len() {
        if s[i] == '<' {
            lemma_bracketed_ids(s, i + 1, Some(i + 1));
            assert(bracketed_ids(s, i, open) == bracketed_ids(s, i + 1, Some(i + 1)));
        } else if s[i] == '>' {
            lemma_bracketed_ids(s, i + 1, None);
            let rest = bracketed_ids(s, i + 1, None);
            let all = bracketed_ids(s, i, open);
            assert forall|k: int| 0 <= k < all.len() implies (#[trigger] all[k]).len() > 0 by {
                if all.len() == rest.len() {
                    assert(all[k] == rest[k]);
                } else if k > 0 {
                    assert(all[k] == rest[k - 1]);
                }
            }
        } else {
            lemma_bracketed_ids(s, i + 1, open);
            assert(bracketed_ids(s, i, open) == bracketed_ids(s, i + 1, open));
        }
    }
}

/// Bare identifiers are not empty.
proof fn lemma_bare_ids(parts: Seq<Seq<char>>)
    ensures
        forall|k: int| 0 <= k < bare_ids(parts).len() ==> (#[trigger] bare_ids(parts)[k]).len() > 0,
    decreases parts.len(),
{
    if parts.len() > 0 {
        lemma_bare_ids(parts.drop_last());
        let init = bare_ids(parts.drop_last());
        assert forall|k: int| 0 <= k < bare_ids(parts).len() implies (#[trigger] bare_ids(
            parts,
        )[k]).len() > 0 by {
            if k < init.len() {
                assert(bare_ids(parts)[k] == init[k]);
            }
        }
    }
}

/// A reference chain names no mail twice. A mail that only says what it
/// replies to has that one reference, and a mail that replies to something
/// always has a reference.
pub proof fn law_reference_chains(mail: Seq<char>)
    ensures
        reference_chain(mail).no_duplicates(),
        header(mail, "references"@) is None ==> match first_id(header(mail, "in-reply-to"@)) {
            Some(id) => reference_chain(mail) == seq![id],
            None => reference_chain(mail).len() == 0,
        },
        first_id(header(mail, "in-reply-to"@)) is Some ==> reference_chain(mail).len() > 0,
{
    let listed = match header(mail, "references"@) {
        Some(v) => message_ids(v),
        None => seq![],
    };
    text::lemma_distinct(listed);
    match first_id(header(mail, "in-reply-to"@)) {
        Some(id) => {
            let only = seq![id];
            text::lemma_distinct(only);
            assert(only.drop_last() == Seq::<Seq<char>>::empty());
            assert(text::distinct(Seq::<Seq<char>>::empty()) == Seq::<Seq<char>>::empty());
            assert(text::distinct(only) == only);
            if listed.len() > 0 {
                assert(listed.contains(listed[0]));
                assert(text::distinct(listed).contains(listed[0]));
            }
        },
        None => {},
    }
}

/// Every trailer has one of the canonical kinds and says something.
pub proof fn law_trailers_are_canonical(mail: Seq<char>)
    ensures
        forall|i: int|
            0 <= i < mail_trailers(mail).len() ==> canonical_trailer(
                #[trigger] mail_trailers(mail)[i],
            ),
{
    match body_of(mail) {
        Some(body) => lemma_trailers_from(text::lines(body), 0, None),
        None => {},
    }
}

/// A trailer of a canonical kind with a value.
pub open spec fn canonical_trailer(trailer: TrailerView) -> bool {
    canonical_kind(trailer.kind) == Some(trailer.kind) && trailer.value.len() > 0
}

/// The trailers of a list of lines are canonical.
proof fn lemma_trailers_from(all: Seq<Seq<char>>, i: int, open: Option<TrailerView>)
    requires
        open is Some ==> canonical_trailer(open->0),
    ensures
        forall|k: int|
            0 <= k < trailers_from(all, i, open).len() ==> canonical_trailer(
                #[trigger] trailers_from(all, i, open)[k],
            ),
    decreases all.len() - i,
{
    if i < all.len() {
        let line = text::skip_trailing(all[i], CharClass::One('\r'));
        let whole = trailers_from(all, i, open);
        if quoted_line(line) {
            let rest = trailers_from(all, i + 1, None);
            lemma_trailers_from(all, i + 1, None);
            lemma_trailers_step(open, rest);
            assert(whole == closed_trailer(open) + rest);
        } else if open is Some && indented(line) && text::trimmed(line).len() > 0 {
            let longer = Some(
                TrailerView {
                    kind: open->0.kind,
                    value: open->0.value.push(' ') + text::trimmed(line),
                },
            );
            lemma_trailers_from(all, i + 1, longer);
            assert(whole == trailers_from(all, i + 1, longer));
        } else {
            lemma_trailer_line(line);
            let rest = trailers_from(all, i + 1, trailer_line(line));
            lemma_trailers_from(all, i + 1, trailer_line(line));
            lemma_trailers_step(open, rest);
            assert(whole == closed_trailer(open) + rest);
        }
    }
}

/// A closed trailer in front keeps a list canonical.
proof fn lemma_trailers_step(open: Option<TrailerView>, rest: Seq<TrailerView>)
    requires
        open is Some ==> canonical_trailer(open->0),
        forall|k: int| 0 <= k < rest.len() ==> canonical_trailer(#[trigger] rest[k]),
    ensures
        forall|k: int|
            0 <= k < (closed_trailer(open) + rest).len() ==> canonical_trailer(
                #[trigger] (closed_trailer(open) + rest)[k],
            ),
{
    let whole = closed_trailer(open) + rest;
    let n = closed_trailer(open).len();
    assert forall|k: int| 0 <= k < whole.len() implies canonical_trailer(#[trigger] whole[k]) by {
        if k >= n {
            assert(whole[k] == rest[k - n]);
        }
    }
}

/// A trailer line states a canonical trailer.
proof fn lemma_trailer_line(line: Seq<char>)
    ensures
        trailer_line(line) matches Some(trailer) ==> canonical_trailer(trailer),
{
    reveal_strlit("Reviewed-by");
    reveal_strlit("Acked-by");
    reveal_strlit("Tested-by");
    reveal_strlit("Reported-by");
    reveal_strlit("Suggested-by");
    reveal_strlit("Co-developed-by");
    reveal_strlit("Signed-off-by");
    assert(text::lowered("Reviewed-by"@)[0] == 'r');
    assert(text::lowered("Acked-by"@)[0] == 'a');
    assert(text::lowered("Tested-by"@)[0] == 't');
    assert(text::lowered("Reported-by"@)[2] == 'p');
    assert(text::lowered("Reviewed-by"@)[2] == 'v');
    assert(text::lowered("Suggested-by"@)[1] == 'u');
    assert(text::lowered("Suggested-by"@)[0] == 's');
    assert(text::lowered("Co-developed-by"@)[0] == 'c');
    assert(text::lowered("Signed-off-by"@)[1] == 'i');
    assert(text::lowered("Signed-off-by"@)[0] == 's');
    assert(text::lowered("Reported-by"@)[0] == 'r');
}

/// Quoted lines state no trailers: a body in which every line is quoted has none.
pub proof fn law_quoted_lines_state_nothing(mail: Seq<char>)
    requires
        body_of(mail) matches Some(body) ==> forall|i: int|
            0 <= i < text::lines(body).len() ==> quoted_line(
                text::skip_trailing(#[trigger] text::lines(body)[i], CharClass::One('\r')),
            ),
    ensures
        mail_trailers(mail).len() == 0,
{
    if let Some(body) = body_of(mail) {
        lemma_quoted_lines(text::lines(body), 0);
    }
}

/// Whether two bodies differ in quoted lines alone.
pub open spec fn differ_in_quotes(a: Seq<Seq<char>>, b: Seq<Seq<char>>) -> bool {
    &&& a.len() == b.len()
    &&& forall|i: int|
        0 <= i < a.len() ==> #[trigger] a[i] == #[trigger] b[i] || (quoted_line(
            text::skip_trailing(a[i], CharClass::One('\r')),
        ) && quoted_line(text::skip_trailing(b[i], CharClass::One('\r'))))
}

/// What a quoted line says does not matter: two mails whose bodies differ in
/// quoted lines alone have the same trailers.
pub proof fn law_quoted_text_does_not_matter(a: Seq<char>, b: Seq<char>)
    requires
        body_of(a) is Some,
        body_of(b) is Some,
        differ_in_quotes(text::lines(body_of(a)->0), text::lines(body_of(b)->0)),
    ensures
        mail_trailers(a) == mail_trailers(b),
{
    lemma_same_trailers(text::lines(body_of(a)->0), text::lines(body_of(b)->0), 0, None);
}

/// Bodies that differ in quoted lines alone go on with the same trailers.
proof fn lemma_same_trailers(
    a: Seq<Seq<char>>,
    b: Seq<Seq<char>>,
    i: int,
    open: Option<TrailerView>,
)
    requires
        0 <= i,
        differ_in_quotes(a, b),
    ensures
        trailers_from(a, i, open) == trailers_from(b, i, open),
    decreases a.len() - i,
{
    if i < a.len() {
        let line = text::skip_trailing(a[i], CharClass::One('\r'));
        assert(a[i] == b[i] || quoted_line(line));
        lemma_same_trailers(a, b, i + 1, None);
        lemma_same_trailers(a, b, i + 1, trailer_line(line));
        if let Some(trailer) = open {
            let longer = TrailerView {
                kind: trailer.kind,
                value: trailer.value.push(' ') + text::trimmed(line),
            };
            lemma_same_trailers(a, b, i + 1, Some(longer));
        }
    }
}

/// Quoted lines add nothing.
proof fn lemma_quoted_lines(all: Seq<Seq<char>>, i: int)
    requires
        0 <= i,
        forall|k: int|
            0 <= k < all.len() ==> quoted_line(
                text::skip_trailing(#[trigger] all[k], CharClass::One('\r')),
            ),
    ensures
        trailers_from(all, i, None).len() == 0,
    decreases all.len() - i,
{
    if i < all.len() {
        assert(quoted_line(text::skip_trailing(all[i], CharClass::One('\r'))));
        lemma_quoted_lines(all, i + 1);
    }
}

/// Whether some line is empty.
pub open spec fn has_empty_line(all: Seq<Seq<char>>) -> bool {
    exists|i: int|
        0 <= i < all.len() && text::skip_trailing(
            #[trigger] all[i],
            CharClass::One('\r'),
        ).len() == 0
}

/// What follows the first empty line changes no header: a mail that goes on
/// after it has the headers that it has up to there. Only the trailers are read
/// from the body.
pub proof fn law_bodies_do_not_change_headers(
    head: Seq<char>,
    body: Seq<char>,
    fallback: Seq<char>,
)
    requires
        head.len() > 0,
        head.last() == '\n',
        has_empty_line(text::lines(head)),
    ensures
        header_fields(head + body) == header_fields(head),
        mail_headers(head + body, fallback) == (HeadersView {
            trailers: mail_trailers(head + body),
            ..mail_headers(head, fallback)
        }),
{
    text::lemma_lines_append(head, body);
    let all = text::lines(head);
    let at = choose|i: int|
        0 <= i < all.len() && text::skip_trailing(
            #[trigger] all[i],
            CharClass::One('\r'),
        ).len() == 0;
    lemma_fields_end(all, text::lines(body), 0, at, None);
}

/// Header fields end at an empty line.
proof fn lemma_fields_end(
    all: Seq<Seq<char>>,
    more: Seq<Seq<char>>,
    i: int,
    at: int,
    open: Option<(Seq<char>, Seq<char>)>,
)
    requires
        0 <= i <= at < all.len(),
        text::skip_trailing(all[at], CharClass::One('\r')).len() == 0,
    ensures
        fields_from(all + more, i, open) == fields_from(all, i, open),
    decreases at - i,
{
    let line = text::skip_trailing(all[i], CharClass::One('\r'));
    assert((all + more)[i] == all[i]);
    if line.len() > 0 {
        lemma_fields_end(all, more, i + 1, at, folded_field(open, line));
        lemma_fields_end(all, more, i + 1, at, field_line(line));
    }
}

// ---------------------------------------------------------------------------
// Laws of header lines
// ---------------------------------------------------------------------------

/// A line without the carriage returns at its end.
pub open spec fn bare_line(line: Seq<char>) -> Seq<char> {
    text::skip_trailing(line, CharClass::One('\r'))
}

/// Whether a line goes on with the line before it: it opens with a space or a tab.
pub open spec fn goes_on(line: Seq<char>) -> bool {
    bare_line(line).len() > 0 && (bare_line(line)[0] == ' ' || bare_line(line)[0] == '\t')
}

/// Whether a line opens a field: what stands before its first colon spells the
/// name, in any case.
pub open spec fn names_field(line: Seq<char>, name: Seq<char>) -> bool {
    &&& bare_line(line).len() > 0
    &&& !goes_on(line)
    &&& text::cut(bare_line(line), CharClass::One(':')) matches Some((spelled, _))
        && text::lowered(text::trimmed(spelled)) == name
}

/// What a line says, where it says anything: its text without white space around.
pub open spec fn shown_part(s: Seq<char>) -> Seq<Seq<char>> {
    if text::trimmed(s).len() > 0 {
        seq![text::trimmed(s)]
    } else {
        seq![]
    }
}

/// What the lines say that go on with the one before index `i`.
pub open spec fn further_parts(all: Seq<Seq<char>>, i: int) -> Seq<Seq<char>>
    decreases all.len() - i,
{
    if i >= all.len() || !goes_on(all[i]) {
        seq![]
    } else {
        shown_part(bare_line(all[i])) + further_parts(all, i + 1)
    }
}

/// Whether the mail states a field with a value: in its header block, line `k` is
/// the first that names the field, and the value is what that line and those that
/// go on with it say, with single spaces between.
pub open spec fn states_field(mail: Seq<char>, k: int, name: Seq<char>, value: Seq<char>) -> bool {
    let all = text::lines(mail);
    &&& 0 <= k < all.len()
    &&& forall|j: int| 0 <= j <= k ==> bare_line(#[trigger] all[j]).len() > 0
    &&& forall|j: int| 0 <= j < k ==> !names_field(#[trigger] all[j], name)
    &&& names_field(all[k], name)
    &&& value == text::joined(
        shown_part((text::cut(bare_line(all[k]), CharClass::One(':'))->0).1) + further_parts(
            all,
            k + 1,
        ),
        " "@,
    )
}

/// Whether no line of the header block names a field.
pub open spec fn lacks_field(mail: Seq<char>, name: Seq<char>) -> bool {
    let all = text::lines(mail);
    forall|j: int|
        0 <= j < all.len() && (forall|i: int| 0 <= i <= j ==> bare_line(#[trigger] all[i]).len() > 0)
            ==> !names_field(#[trigger] all[j], name)
}

/// Looking past a part of the fields.
proof fn lemma_field_value_past(
    a: Seq<(Seq<char>, Seq<char>)>,
    b: Seq<(Seq<char>, Seq<char>)>,
    name: Seq<char>,
    i: int,
)
    requires
        0 <= i,
    ensures
        field_value(a + b, name, a.len() + i) == field_value(b, name, i),
    decreases b.len() - i,
{
    if i < b.len() {
        assert((a + b)[a.len() + i] == b[i]);
        lemma_field_value_past(a, b, name, i + 1);
    }
}

/// A complete field is found if it has the name, and is passed over if not.
proof fn lemma_closed_field(
    open: Option<(Seq<char>, Seq<char>)>,
    rest: Seq<(Seq<char>, Seq<char>)>,
    name: Seq<char>,
)
    ensures
        open matches Some((n, v)) ==> n == name ==> field_value(
            closed_field(open) + rest,
            name,
            0,
        ) == Some(text::trimmed(v)),
        !(open matches Some((n, _)) && n == name) ==> field_value(
            closed_field(open) + rest,
            name,
            0,
        ) == field_value(rest, name, 0),
{
    let all = closed_field(open) + rest;
    lemma_field_value_past(closed_field(open), rest, name, 0);
    if let Some((n, v)) = open {
        assert(all[0] == (n, text::trimmed(v)));
        text::lemma_stripped(v, CharClass::Space);
        text::lemma_stripped_same(text::trimmed(v), CharClass::Space);
        if n != name {
            assert(field_value(all, name, 0) == field_value(all, name, 1));
        }
    } else {
        assert(all == rest);
    }
}

/// Lines that do not name a field are passed over until one does.
proof fn lemma_fields_before(
    all: Seq<Seq<char>>,
    i: int,
    k: int,
    open: Option<(Seq<char>, Seq<char>)>,
    name: Seq<char>,
)
    requires
        0 <= i <= k < all.len(),
        forall|j: int| i <= j <= k ==> bare_line(#[trigger] all[j]).len() > 0,
        forall|j: int| i <= j < k ==> !names_field(#[trigger] all[j], name),
        names_field(all[k], name),
        !(open matches Some((n, _)) && n == name),
    ensures
        field_value(fields_from(all, i, open), name, 0) == field_value(
            fields_from(all, k + 1, field_line(bare_line(all[k]))),
            name,
            0,
        ),
    decreases k - i,
{
    let line = bare_line(all[i]);
    assert(line.len() > 0);
    if i < k {
        assert(!names_field(all[i], name));
        if indented(line) {
            lemma_fields_before(all, i + 1, k, folded_field(open, line), name);
        } else {
            lemma_fields_before(all, i + 1, k, field_line(line), name);
            lemma_closed_field(open, fields_from(all, i + 1, field_line(line)), name);
        }
    } else {
        lemma_closed_field(open, fields_from(all, i + 1, field_line(line)), name);
    }
}

/// Whether parts say something each, without white space around.
spec fn plain_parts(parts: Seq<Seq<char>>) -> bool {
    forall|i: int|
        0 <= i < parts.len() ==> (#[trigger] parts[i]).len() > 0 && !text::white_space(parts[i][0])
            && !text::white_space(parts[i].last())
}

/// Plain parts joined open and end like the first and the last of them.
proof fn lemma_plain_joined(parts: Seq<Seq<char>>)
    requires
        plain_parts(parts),
        parts.len() > 0,
    ensures
        text::joined(parts, " "@).len() > 0,
        !text::white_space(text::joined(parts, " "@)[0]),
        !text::white_space(text::joined(parts, " "@).last()),
        text::trimmed(text::joined(parts, " "@)) == text::joined(parts, " "@),
    decreases parts.len(),
{
    let whole = text::joined(parts, " "@);
    assert(parts[0].len() > 0);
    if parts.len() > 1 {
        let init = parts.drop_last();
        assert forall|i: int| 0 <= i < init.len() implies (#[trigger] init[i]).len() > 0
            && !text::white_space(init[i][0]) && !text::white_space(init[i].last()) by {
            assert(init[i] == parts[i]);
        }
        lemma_plain_joined(init);
        let last = parts[parts.len() - 1];
        assert(whole == text::joined(init, " "@) + " "@ + last);
        assert(last.len() > 0);
        assert(whole[0] == text::joined(init, " "@)[0]);
        assert(whole.last() == last.last());
    }
    text::lemma_stripped_same(whole, CharClass::Space);
}

/// A field takes in the lines that go on with it.
proof fn lemma_fields_fold(
    all: Seq<Seq<char>>,
    i: int,
    name: Seq<char>,
    parts: Seq<Seq<char>>,
)
    requires
        0 <= i <= all.len(),
        plain_parts(parts),
    ensures
        field_value(fields_from(all, i, Some((name, text::joined(parts, " "@)))), name, 0) == Some(
            text::joined(parts + further_parts(all, i), " "@),
        ),
    decreases all.len() - i,
{
    reveal_strlit(" ");
    let value = text::joined(parts, " "@);
    let open = Some((name, value));
    if parts.len() > 0 {
        lemma_plain_joined(parts);
    } else {
        assert(value == Seq::<char>::empty());
        text::lemma_stripped_same(value, CharClass::Space);
    }
    let none = Seq::<(Seq<char>, Seq<char>)>::empty();
    if i < all.len() && goes_on(all[i]) {
        let line = bare_line(all[i]);
        assert(indented(line));
        let said = text::trimmed(line);
        let more = parts + shown_part(line);
        text::lemma_stripped(line, CharClass::Space);
        assert(plain_parts(more)) by {
            assert forall|j: int| 0 <= j < more.len() implies (#[trigger] more[j]).len() > 0
                && !text::white_space(more[j][0]) && !text::white_space(more[j].last()) by {
                if j < parts.len() {
                    assert(more[j] == parts[j]);
                } else {
                    assert(more[j] == said);
                }
            }
        }
        if said.len() > 0 {
            assert(more.drop_last() == parts);
            if parts.len() > 0 {
                assert(value + " "@ + said == value.push(' ') + said);
            }
            assert(text::joined(more, " "@) == (folded_field(open, line)->0).1);
        } else {
            assert(more == parts);
        }
        lemma_fields_fold(all, i + 1, name, more);
        assert(more + further_parts(all, i + 1) == parts + further_parts(all, i));
    } else {
        assert(parts + further_parts(all, i) == parts);
        lemma_closed_field(open, none, name);
        assert(closed_field(open) + none == closed_field(open));
        if i < all.len() {
            let line = bare_line(all[i]);
            if line.len() > 0 {
                lemma_closed_field(open, fields_from(all, i + 1, field_line(line)), name);
            }
        }
    }
}

/// No field has a name that no line has.
proof fn lemma_fields_absent(
    all: Seq<Seq<char>>,
    i: int,
    open: Option<(Seq<char>, Seq<char>)>,
    name: Seq<char>,
)
    requires
        0 <= i <= all.len(),
        forall|j: int| 0 <= j < i ==> bare_line(#[trigger] all[j]).len() > 0,
        forall|j: int|
            0 <= j < all.len() && (forall|l: int|
                0 <= l <= j ==> bare_line(#[trigger] all[l]).len() > 0) ==> !names_field(
                #[trigger] all[j],
                name,
            ),
        !(open matches Some((n, _)) && n == name),
    ensures
        field_value(fields_from(all, i, open), name, 0) is None,
    decreases all.len() - i,
{
    let none = Seq::<(Seq<char>, Seq<char>)>::empty();
    lemma_closed_field(open, none, name);
    assert(closed_field(open) + none == closed_field(open));
    if i < all.len() {
        let line = bare_line(all[i]);
        if line.len() > 0 {
            assert(!names_field(all[i], name)) by {
                assert forall|l: int| 0 <= l <= i implies bare_line(#[trigger] all[l]).len() > 0 by {}
            }
            if indented(line) {
                lemma_fields_absent(all, i + 1, folded_field(open, line), name);
            } else {
                lemma_fields_absent(all, i + 1, field_line(line), name);
                lemma_closed_field(open, fields_from(all, i + 1, field_line(line)), name);
            }
        }
    }
}

/// The value of a stated header is what its lines say; a header that no line
/// names has none.
proof fn lemma_stated(mail: Seq<char>, k: int, name: Seq<char>, value: Seq<char>)
    ensures
        states_field(mail, k, name, value) ==> header(mail, name) == Some(value)
            && text::trimmed(value) == value,
        lacks_field(mail, name) ==> header(mail, name) is None,
{
    let all = text::lines(mail);
    if states_field(mail, k, name, value) {
        lemma_fields_before(all, 0, k, None, name);
        let said = (text::cut(bare_line(all[k]), CharClass::One(':'))->0).1;
        let parts = shown_part(said);
        text::lemma_stripped(said, CharClass::Space);
        assert(plain_parts(parts)) by {
            assert forall|j: int| 0 <= j < parts.len() implies (#[trigger] parts[j]).len() > 0
                && !text::white_space(parts[j][0]) && !text::white_space(parts[j].last()) by {
                assert(parts[j] == text::trimmed(said));
            }
        }
        if text::trimmed(said).len() == 0 {
            assert(text::joined(parts, " "@) == text::trimmed(said));
        }
        lemma_fields_fold(all, k + 1, name, parts);
        lemma_further_parts(all, k + 1);
        let whole = parts + further_parts(all, k + 1);
        assert(plain_parts(whole)) by {
            assert forall|j: int| 0 <= j < whole.len() implies (#[trigger] whole[j]).len() > 0
                && !text::white_space(whole[j][0]) && !text::white_space(whole[j].last()) by {
                if j < parts.len() {
                    assert(whole[j] == parts[j]);
                } else {
                    assert(whole[j] == further_parts(all, k + 1)[j - parts.len()]);
                }
            }
        }
        if whole.len() > 0 {
            lemma_plain_joined(whole);
        } else {
            text::lemma_stripped_same(value, CharClass::Space);
        }
    }
    if lacks_field(mail, name) {
        lemma_fields_absent(all, 0, None, name);
    }
}

/// What further lines say is plain.
proof fn lemma_further_parts(all: Seq<Seq<char>>, i: int)
    ensures
        plain_parts(further_parts(all, i)),
    decreases all.len() - i,
{
    if i < all.len() && goes_on(all[i]) {
        let line = bare_line(all[i]);
        lemma_further_parts(all, i + 1);
        text::lemma_stripped(line, CharClass::Space);
        let rest = further_parts(all, i + 1);
        let whole = further_parts(all, i);
        assert forall|j: int| 0 <= j < whole.len() implies (#[trigger] whole[j]).len() > 0
            && !text::white_space(whole[j][0]) && !text::white_space(whole[j].last()) by {
            if j < shown_part(line).len() {
                assert(whole[j] == text::trimmed(line));
            } else {
                assert(whole[j] == rest[j - shown_part(line).len()]);
            }
        }
    }
}

/// A line of the header block that spells a name, a colon and a value states the
/// field, unless an earlier line does or the next line goes on with it.
pub proof fn law_header_lines_state_fields(
    mail: Seq<char>,
    k: int,
    spelled: Seq<char>,
    value: Seq<char>,
)
    requires
        0 <= k < text::lines(mail).len(),
        forall|j: int| 0 <= j <= k ==> bare_line(#[trigger] text::lines(mail)[j]).len() > 0,
        bare_line(text::lines(mail)[k]) == spelled.push(':') + value,
        forall|i: int| 0 <= i < spelled.len() ==> #[trigger] spelled[i] != ':',
        spelled.len() > 0 ==> spelled[0] != ' ' && spelled[0] != '\t',
        forall|j: int|
            0 <= j < k ==> !names_field(
                #[trigger] text::lines(mail)[j],
                text::lowered(text::trimmed(spelled)),
            ),
        k + 1 < text::lines(mail).len() ==> !goes_on(text::lines(mail)[k + 1]),
    ensures
        states_field(mail, k, text::lowered(text::trimmed(spelled)), text::trimmed(value)),
{
    let all = text::lines(mail);
    let line = bare_line(all[k]);
    let n = spelled.len() as int;
    assert forall|j: int| 0 <= j < n implies !CharClass::One(':').has(#[trigger] line[j]) by {
        assert(line[j] == spelled[j]);
    }
    assert(line[n] == ':');
    text::lemma_find_is(line, CharClass::One(':'), n);
    assert(line.take(n) == spelled);
    assert(line.skip(n + 1) == value);
    if n > 0 {
        assert(line[0] == spelled[0]);
    }
    assert(further_parts(all, k + 1) == Seq::<Seq<char>>::empty());
    assert(shown_part(value) + further_parts(all, k + 1) == shown_part(value));
    if text::trimmed(value).len() == 0 {
        assert(text::joined(shown_part(value), " "@) == text::trimmed(value));
    }
    assert(!goes_on(all[k]));
    assert(names_field(all[k], text::lowered(text::trimmed(spelled))));
}

/// Each header is read from the field of its own name, and from no other: the
/// date from `Date`, the subject from `Subject`, the sender from `From`, the
/// recipients from `To` and `Cc`, the list from `List-Id`. Where the field is not
/// there, neither is the header.
pub proof fn law_headers_are_read_from_their_fields(
    mail: Seq<char>,
    fallback: Seq<char>,
    k: int,
    value: Seq<char>,
)
    ensures
        states_field(mail, k, "date"@, value) && value.len() > 0 ==> mail_headers(
            mail,
            fallback,
        ).date == Some(value),
        states_field(mail, k, "date"@, value) && value.len() == 0 ==> mail_headers(
            mail,
            fallback,
        ).date is None,
        lacks_field(mail, "date"@) ==> mail_headers(mail, fallback).date is None,
        states_field(mail, k, "subject"@, value) ==> mail_headers(mail, fallback).subject == value,
        lacks_field(mail, "subject"@) ==> mail_headers(mail, fallback).subject.len() == 0,
        states_field(mail, k, "from"@, value) ==> mail_headers(mail, fallback).from_addr == value,
        lacks_field(mail, "from"@) ==> mail_headers(mail, fallback).from_addr.len() == 0,
        states_field(mail, k, "to"@, value) ==> mail_headers(mail, fallback).to_addresses
            == address_list(value),
        lacks_field(mail, "to"@) ==> mail_headers(mail, fallback).to_addresses.len() == 0,
        states_field(mail, k, "cc"@, value) ==> mail_headers(mail, fallback).cc_addresses
            == address_list(value),
        lacks_field(mail, "cc"@) ==> mail_headers(mail, fallback).cc_addresses.len() == 0,
        states_field(mail, k, "list-id"@, value) && value.len() > 0 ==> mail_headers(
            mail,
            fallback,
        ).list_id == Some(value),
        states_field(mail, k, "list-id"@, value) && value.len() == 0 ==> mail_headers(
            mail,
            fallback,
        ).list_id is None,
        lacks_field(mail, "list-id"@) ==> mail_headers(mail, fallback).list_id is None,
{
    lemma_stated(mail, k, "date"@, value);
    lemma_stated(mail, k, "subject"@, value);
    lemma_stated(mail, k, "from"@, value);
    lemma_stated(mail, k, "to"@, value);
    lemma_stated(mail, k, "cc"@, value);
    lemma_stated(mail, k, "list-id"@, value);
}

/// A mail whose header block holds a line `Date: v` with `v` not blank, and no
/// earlier `Date` field, has the date `v`, without the white space around it.
pub proof fn law_date_lines_are_read(
    mail: Seq<char>,
    fallback: Seq<char>,
    k: int,
    spelled: Seq<char>,
    v: Seq<char>,
)
    requires
        0 <= k < text::lines(mail).len(),
        forall|j: int| 0 <= j <= k ==> bare_line(#[trigger] text::lines(mail)[j]).len() > 0,
        bare_line(text::lines(mail)[k]) == spelled.push(':') + v,
        text::same_letters(spelled, "Date"@),
        text::trimmed(v).len() > 0,
        forall|j: int| 0 <= j < k ==> !names_field(#[trigger] text::lines(mail)[j], "date"@),
        k + 1 < text::lines(mail).len() ==> !goes_on(text::lines(mail)[k + 1]),
    ensures
        mail_headers(mail, fallback).date == Some(text::trimmed(v)),
{
    reveal_strlit("Date");
    reveal_strlit("date");
    assert(text::lowered("Date"@) =~= "date"@);
    assert(text::lowered(spelled).len() == spelled.len());
    assert forall|i: int| 0 <= i < spelled.len() implies #[trigger] spelled[i] != ':'
        && !text::white_space(spelled[i]) by {
        assert(text::lowered(spelled)[i] == "date"@[i]);
    }
    text::lemma_stripped_same(spelled, CharClass::Space);
    law_header_lines_state_fields(mail, k, spelled, v);
    law_headers_are_read_from_their_fields(mail, fallback, k, text::trimmed(v));
}

/// The identifiers of a mail: its own is the first of `Message-ID`, or the
/// fallback where there is none; the mail it replies to is the first of
/// `In-Reply-To`; its references are those of `References`, or else the mail it
/// replies to.
pub proof fn law_identifiers_are_read_from_their_fields(
    mail: Seq<char>,
    fallback: Seq<char>,
    k: int,
    value: Seq<char>,
    l: int,
    other: Seq<char>,
)
    ensures
        states_field(mail, k, "message-id"@, value) && message_ids(value).len() > 0
            ==> mail_headers(mail, fallback).message_id == message_ids(value)[0],
        states_field(mail, k, "message-id"@, value) && message_ids(value).len() == 0
            ==> mail_headers(mail, fallback).message_id == fallback,
        lacks_field(mail, "message-id"@) ==> mail_headers(mail, fallback).message_id == fallback,
        states_field(mail, k, "in-reply-to"@, value) && message_ids(value).len() > 0
            ==> mail_headers(mail, fallback).in_reply_to == Some(message_ids(value)[0]),
        states_field(mail, k, "in-reply-to"@, value) && message_ids(value).len() == 0
            ==> mail_headers(mail, fallback).in_reply_to is None,
        lacks_field(mail, "in-reply-to"@) ==> mail_headers(mail, fallback).in_reply_to is None,
        states_field(mail, k, "references"@, value) && message_ids(value).len() > 0
            ==> mail_headers(mail, fallback).references == text::distinct(message_ids(value)),
        lacks_field(mail, "references"@) && states_field(mail, l, "in-reply-to"@, other)
            && message_ids(other).len() > 0 ==> mail_headers(mail, fallback).references == seq![
            message_ids(other)[0],
        ],
        lacks_field(mail, "references"@) && lacks_field(mail, "in-reply-to"@) ==> mail_headers(
            mail,
            fallback,
        ).references.len() == 0,
{
    lemma_stated(mail, k, "message-id"@, value);
    lemma_stated(mail, k, "in-reply-to"@, value);
    lemma_stated(mail, k, "references"@, value);
    lemma_stated(mail, l, "in-reply-to"@, other);
    if message_ids(other).len() > 0 {
        let one = seq![message_ids(other)[0]];
        assert(one.drop_last() == Seq::<Seq<char>>::empty());
        assert(text::distinct(one.drop_last()) == Seq::<Seq<char>>::empty());
        assert(text::distinct(one) == one);
    }
    assert(text::distinct(Seq::<Seq<char>>::empty()) == Seq::<Seq<char>>::empty());
}

/// The change identifier is that of `Change-Id`; without that field, of
/// `X-Change-Id`; without that one too, of `X-Series-Change-Id`. A blank one is
/// none, and stands in the way of the others.
pub proof fn law_change_identifiers_are_read_in_turn(
    mail: Seq<char>,
    fallback: Seq<char>,
    k: int,
    value: Seq<char>,
)
    ensures
        states_field(mail, k, "change-id"@, value) ==> mail_headers(mail, fallback).change_id
            == (if value.len() > 0 {
            Some(value)
        } else {
            None
        }),
        lacks_field(mail, "change-id"@) && states_field(mail, k, "x-change-id"@, value)
            ==> mail_headers(mail, fallback).change_id == (if value.len() > 0 {
            Some(value)
        } else {
            None
        }),
        lacks_field(mail, "change-id"@) && lacks_field(mail, "x-change-id"@) && states_field(
            mail,
            k,
            "x-series-change-id"@,
            value,
        ) ==> mail_headers(mail, fallback).change_id == (if value.len() > 0 {
            Some(value)
        } else {
            None
        }),
        lacks_field(mail, "change-id"@) && lacks_field(mail, "x-change-id"@) && lacks_field(
            mail,
            "x-series-change-id"@,
        ) ==> mail_headers(mail, fallback).change_id is None,
{
    lemma_stated(mail, k, "change-id"@, value);
    lemma_stated(mail, k, "x-change-id"@, value);
    lemma_stated(mail, k, "x-series-change-id"@, value);
}

// ---------------------------------------------------------------------------
// Laws of addresses and identifiers
// ---------------------------------------------------------------------------

/// A bare address: one word with an at sign and without quotes, brackets or the
/// punctuation of lists.
pub open spec fn plain_address(s: Seq<char>) -> bool {
    &&& text::has_any(s, CharClass::One('@'))
    &&& forall|i: int|
        0 <= i < s.len() ==> {
            let c = #[trigger] s[i];
            &&& !text::white_space(c)
            &&& c != '<' && c != '>' && c != '"' && c != '\'' && c != ',' && c != ';'
        }
}

/// What is left of a bare address.
proof fn lemma_plain_address(s: Seq<char>)
    requires
        plain_address(s),
    ensures
        s.len() > 0,
        text::trimmed(s) == s,
        text::stripped(s, CharClass::AddressEdge) == s,
        text::words(s) == seq![s],
        !text::has_any(s, CharClass::AddressUnsafe),
        first_mailbox_word(seq![s], 0) == Some(s),
{
    assert forall|i: int| 0 <= i < s.len() implies !CharClass::AddressUnsafe.has(#[trigger] s[i])
        && !CharClass::Space.has(s[i]) && !CharClass::AddressEdge.has(s[i]) by {
        assert(!text::white_space(s[i]));
    }
    text::lemma_stripped_same(s, CharClass::Space);
    text::lemma_stripped_same(s, CharClass::AddressEdge);
    text::lemma_single_word(s);
}

/// A bare address names itself, in lower case, whatever white space stands around
/// it.
pub proof fn law_bare_addresses_name_themselves(
    before: Seq<char>,
    address: Seq<char>,
    after: Seq<char>,
)
    requires
        plain_address(address),
        forall|i: int| 0 <= i < before.len() ==> text::white_space(#[trigger] before[i]),
        forall|i: int| 0 <= i < after.len() ==> text::white_space(#[trigger] after[i]),
    ensures
        mailbox_of(before + address + after) == Some(text::lowered(address)),
{
    lemma_plain_address(address);
    text::law_white_space_around_is_trimmed(before, address, after);
    lemma_find_last_none(address, CharClass::One('<'), address.len() as int);
}

/// An address in angle brackets is what counts, whatever name stands before it and
/// whatever white space follows.
pub proof fn law_bracketed_addresses_count(
    name: Seq<char>,
    address: Seq<char>,
    after: Seq<char>,
)
    requires
        plain_address(address),
        forall|i: int| 0 <= i < after.len() ==> text::white_space(#[trigger] after[i]),
    ensures
        mailbox_of(name + seq!['<'] + address + seq!['>'] + after) == Some(
            text::lowered(address),
        ),
{
    lemma_plain_address(address);
    let raw = name + seq!['<'] + address + seq!['>'] + after;
    text::lemma_skip_leading(name, CharClass::Space);
    let front = text::trimmed_start(name);
    let gap = name.len() - front.len();
    let before = name.take(gap);
    let core = front + seq!['<'] + address + seq!['>'];
    assert(raw == before + core + after) by {
        assert(name == before + front);
    }
    assert forall|i: int| 0 <= i < before.len() implies text::white_space(#[trigger] before[i]) by {
        assert(CharClass::Space.has(name[i]));
    }
    if front.len() > 0 {
        assert(core[0] == front[0]);
    } else {
        assert(core[0] == '<');
    }
    assert(core.last() == '>');
    text::law_white_space_around_is_trimmed(before, core, after);
    let open = front.len() as int;
    text::law_last_is_found(core, CharClass::One('<'));
    assert(core[open] == '<');
    let last = text::find_last(core, CharClass::One('<'));
    assert(last == Some(open)) by {
        let at = last->0;
        if at > open {
            if at < core.len() - 1 {
                assert(core[at] == address[at - open - 1]);
            }
        }
        if at < open {
            assert(CharClass::One('<').has(core[open]));
        }
    }
    let rest = core.skip(open + 1);
    assert(rest == address + seq!['>']);
    let n = address.len() as int;
    assert forall|j: int| 0 <= j < n implies !CharClass::One('>').has(#[trigger] rest[j]) by {
        assert(rest[j] == address[j]);
    }
    assert(rest[n] == '>');
    text::lemma_find_is(rest, CharClass::One('>'), n);
    assert(rest.take(n) == address);
}

/// A text without an at sign names no mailbox.
pub proof fn law_mailboxes_have_an_at_sign(raw: Seq<char>)
    ensures
        mailbox_of(raw) matches Some(mailbox) ==> text::has_any(mailbox, CharClass::One('@'))
            && text::lowered(mailbox) == mailbox,
{
    law_normalized_mailboxes_are_stable(raw);
    if let Some(mailbox) = mailbox_of(raw) {
        let candidate = text::stripped(
            text::trimmed(bracket_content(text::trimmed(raw))),
            CharClass::AddressEdge,
        );
        let word = match first_mailbox_word(text::words(candidate), 0) {
            Some(part) => part,
            None => candidate,
        };
        let found = text::stripped(word, CharClass::AddressEdge);
        let i = choose|i: int| 0 <= i < found.len() && CharClass::One('@').has(#[trigger] found[i]);
        assert(mailbox[i] == '@');
        text::lemma_lowered_twice(found);
    }
}

/// Whether a text is one recipient of a list: no comma of it separates, and quotes
/// and brackets that it opens it closes.
pub open spec fn one_recipient(s: Seq<char>) -> bool {
    &&& forall|i: int| 0 <= i < s.len() ==> !#[trigger] separates(s, i)
    &&& !quoted_at(s, s.len() as int)
    &&& depth_at(s, s.len() as int) == 0
}

/// Quotes and brackets of what follows a closed text are its own.
proof fn lemma_after_closed(a: Seq<char>, b: Seq<char>, i: int)
    requires
        !quoted_at(a, a.len() as int),
        depth_at(a, a.len() as int) == 0,
        0 <= i <= b.len(),
    ensures
        quoted_at(a + b, a.len() + i) == quoted_at(b, i),
        depth_at(a + b, a.len() + i) == depth_at(b, i),
    decreases i,
{
    if i > 0 {
        lemma_after_closed(a, b, i - 1);
        assert((a + b)[a.len() + i - 1] == b[i - 1]);
    } else {
        lemma_front(a, b, a.len() as int);
    }
}

/// What stands at the front is not changed by what follows.
proof fn lemma_front(a: Seq<char>, b: Seq<char>, i: int)
    requires
        0 <= i <= a.len(),
    ensures
        quoted_at(a + b, i) == quoted_at(a, i),
        depth_at(a + b, i) == depth_at(a, i),
    decreases i,
{
    if i > 0 {
        lemma_front(a, b, i - 1);
        assert((a + b)[i - 1] == a[i - 1]);
    }
}

/// Recipients with commas between any two are found again.
pub proof fn law_recipients_are_what_commas_separate(parts: Seq<Seq<char>>)
    requires
        parts.len() > 0,
        forall|k: int| 0 <= k < parts.len() ==> one_recipient(#[trigger] parts[k]),
    ensures
        recipients(text::joined(parts, seq![','])) == parts,
{
    let whole = text::joined(parts, seq![',']);
    let none = Seq::<char>::empty();
    assert(none + whole == whole);
    lemma_recipients(none, parts);
}

/// Recipients after a closed text.
proof fn lemma_recipients(front: Seq<char>, parts: Seq<Seq<char>>)
    requires
        parts.len() > 0,
        !quoted_at(front, front.len() as int),
        depth_at(front, front.len() as int) == 0,
        forall|k: int| 0 <= k < parts.len() ==> one_recipient(#[trigger] parts[k]),
    ensures
        recipients_from(
            front + text::joined(parts, seq![',']),
            front.len() as int,
            front.len() as int,
        ) == parts,
    decreases parts.len(),
{
    let first = parts[0];
    let n = front.len() as int;
    let m = first.len() as int;
    assert(one_recipient(first));
    if parts.len() == 1 {
        let all = front + first;
        assert(text::joined(parts, seq![',']) == first);
        lemma_recipient_runs(front, first, none_of(), 0);
        assert(front + first + none_of() == all);
        assert(all.subrange(n, all.len() as int) == first);
        assert(parts == seq![first]);
    } else {
        let others = parts.drop_first();
        assert forall|k: int| 0 <= k < others.len() implies one_recipient(#[trigger] others[k]) by {
            assert(others[k] == parts[k + 1]);
        }
        text::lemma_joined_front(parts, seq![',']);
        let rest = text::joined(others, seq![',']);
        let tail = seq![','] + rest;
        let all = front + first + tail;
        assert(front + text::joined(parts, seq![',']) == all);
        lemma_recipient_runs(front, first, tail, 0);
        assert(all[n + m] == ',');
        lemma_after_closed(front, first, m);
        lemma_front(front + first, tail, n + m);
        assert(separates(all, n + m));
        assert(all.subrange(n, n + m) == first);
        let next = front + first + seq![','];
        assert(next[n + m] == ',');
        lemma_front(front + first, seq![','], n + m);
        assert(!quoted_at(next, n + m + 1));
        assert(depth_at(next, n + m + 1) == 0);
        assert(next + rest == all);
        lemma_recipients(next, others);
        assert(seq![first] + others == parts);
    }
}

/// No characters.
spec fn none_of() -> Seq<char> {
    seq![]
}

/// Within one recipient nothing separates.
proof fn lemma_recipient_runs(front: Seq<char>, first: Seq<char>, tail: Seq<char>, i: int)
    requires
        !quoted_at(front, front.len() as int),
        depth_at(front, front.len() as int) == 0,
        one_recipient(first),
        0 <= i <= first.len(),
    ensures
        recipients_from(front + first + tail, front.len() as int, front.len() + i)
            == recipients_from(
            front + first + tail,
            front.len() as int,
            (front.len() + first.len()) as int,
        ),
    decreases first.len() - i,
{
    if i < first.len() {
        let all = front + first + tail;
        lemma_recipient_runs(front, first, tail, i + 1);
        lemma_after_closed(front, first, i);
        lemma_front(front + first, tail, front.len() + i);
        assert(all[front.len() + i] == first[i]);
        assert(!separates(first, i));
        assert(!separates(all, front.len() + i));
    }
}

/// A text without commas, quotes and brackets is one recipient.
pub proof fn law_plain_texts_are_one_recipient(s: Seq<char>)
    requires
        forall|i: int|
            0 <= i < s.len() ==> #[trigger] s[i] != ',' && s[i] != '"' && s[i] != '<' && s[i] != '>',
    ensures
        one_recipient(s),
{
    lemma_plain_depth(s, s.len() as int);
}

/// A text without quotes and brackets opens none.
proof fn lemma_plain_depth(s: Seq<char>, i: int)
    requires
        0 <= i <= s.len(),
        forall|j: int| 0 <= j < i ==> #[trigger] s[j] != '"' && s[j] != '<' && s[j] != '>',
    ensures
        !quoted_at(s, i),
        depth_at(s, i) == 0,
    decreases i,
{
    if i > 0 {
        assert(s[i - 1] != '"');
        lemma_plain_depth(s, i - 1);
    }
}

/// A name in double quotes, whatever stands in it, and an address in brackets are
/// one recipient: a comma in the name separates nothing.
pub proof fn law_quoted_names_are_one_recipient(name: Seq<char>, address: Seq<char>)
    requires
        forall|i: int| 0 <= i < name.len() ==> #[trigger] name[i] != '"',
        forall|i: int|
            0 <= i < address.len() ==> #[trigger] address[i] != '"' && address[i] != '<'
                && address[i] != '>' && address[i] != ',',
    ensures
        one_recipient(seq!['"'] + name + seq!['"', ' ', '<'] + address + seq!['>']),
{
    let s = seq!['"'] + name + seq!['"', ' ', '<'] + address + seq!['>'];
    let n = name.len() as int;
    let m = address.len() as int;
    assert(s[0] == '"');
    assert(!quoted_at(s, 0));
    assert(depth_at(s, 0) == 0);
    lemma_inside_name(s, name, n);
    assert(s[n + 1] == '"' && s[n + 2] == ' ' && s[n + 3] == '<');
    assert(quoted_at(s, n + 1) && depth_at(s, n + 1) == 0);
    assert(!quoted_at(s, n + 2) && depth_at(s, n + 2) == 0);
    assert(!quoted_at(s, n + 3) && depth_at(s, n + 3) == 0);
    assert(!quoted_at(s, n + 4) && depth_at(s, n + 4) == 1);
    lemma_inside_brackets(s, n + 4, m);
    assert(s[n + 4 + m] == '>');
    assert(s.len() == n + 5 + m);
    assert(!quoted_at(s, n + 5 + m) && depth_at(s, n + 5 + m) == 0);
    assert forall|i: int| 0 <= i < s.len() implies !#[trigger] separates(s, i) by {
        if 1 <= i <= n {
            lemma_inside_name(s, name, i - 1);
        } else if n + 4 <= i < n + 4 + m {
            assert(s[i] == address[i - n - 4]);
        }
    }
}

/// Inside a quoted name everything is quoted.
proof fn lemma_inside_name(s: Seq<char>, name: Seq<char>, k: int)
    requires
        0 <= k <= name.len(),
        name.len() + 1 <= s.len(),
        s[0] == '"',
        forall|i: int| 0 <= i < name.len() ==> #[trigger] name[i] != '"',
        forall|i: int| 0 <= i < name.len() ==> s[i + 1] == #[trigger] name[i],
    ensures
        quoted_at(s, k + 1),
        depth_at(s, k + 1) == 0,
    decreases k,
{
    if k > 0 {
        lemma_inside_name(s, name, k - 1);
        assert(s[k] == name[k - 1]);
    } else {
        assert(!quoted_at(s, 0));
        assert(depth_at(s, 0) == 0);
    }
}

/// Inside brackets without quotes the depth stays.
proof fn lemma_inside_brackets(s: Seq<char>, from: int, k: int)
    requires
        0 <= from,
        0 <= k,
        from + k <= s.len(),
        !quoted_at(s, from),
        forall|i: int|
            from <= i < from + k ==> #[trigger] s[i] != '"' && s[i] != '<' && s[i] != '>',
    ensures
        !quoted_at(s, from + k),
        depth_at(s, from + k) == depth_at(s, from),
    decreases k,
{
    if k > 0 {
        lemma_inside_brackets(s, from, k - 1);
        assert(s[from + k - 1] != '"');
    }
}

/// Each text in lower case.
pub open spec fn lowered_each(parts: Seq<Seq<char>>) -> Seq<Seq<char>> {
    Seq::new(parts.len(), |k: int| text::lowered(parts[k]))
}

/// A list of bare addresses with commas and white space between any two holds
/// each of them, in lower case and order, once.
pub proof fn law_lists_of_addresses_hold_each(addresses: Seq<Seq<char>>)
    requires
        addresses.len() > 0,
        forall|k: int| 0 <= k < addresses.len() ==> plain_address(#[trigger] addresses[k]),
    ensures
        address_list(text::joined(addresses, seq![','])) == text::distinct(
            lowered_each(addresses),
        ),
        address_list(text::joined(addresses, ", "@)) == text::distinct(
            lowered_each(addresses),
        ),
{
    reveal_strlit(", ");
    assert forall|k: int| 0 <= k < addresses.len() implies one_recipient(#[trigger] addresses[k]) by {
        let s = addresses[k];
        assert(plain_address(s));
        law_plain_texts_are_one_recipient(s);
    }
    law_recipients_are_what_commas_separate(addresses);
    lemma_plain_mailboxes(addresses, addresses.len() as int, false);
    let wanted = lowered_each(addresses);
    assert(wanted.take(wanted.len() as int) == wanted);
    assert(addresses.take(addresses.len() as int) == addresses);
    let spaced = spaced_out(addresses);
    lemma_spaced_joined(addresses);
    assert forall|k: int| 0 <= k < spaced.len() implies one_recipient(#[trigger] spaced[k]) by {
        let s = spaced[k];
        let address = addresses[k];
        assert(plain_address(address));
        assert forall|i: int| 0 <= i < s.len() implies #[trigger] s[i] != ',' && s[i] != '"'
            && s[i] != '<' && s[i] != '>' by {
            if k > 0 && i > 0 {
                assert(s[i] == address[i - 1]);
            } else if k == 0 {
                assert(s[i] == address[i]);
            }
        }
        law_plain_texts_are_one_recipient(s);
    }
    law_recipients_are_what_commas_separate(spaced);
    lemma_plain_mailboxes(addresses, addresses.len() as int, true);
    assert(spaced.take(spaced.len() as int) == spaced);
}

/// The addresses with a space before all but the first.
spec fn spaced_out(addresses: Seq<Seq<char>>) -> Seq<Seq<char>> {
    Seq::new(
        addresses.len(),
        |k: int|
            if k > 0 {
                seq![' '] + addresses[k]
            } else {
                addresses[k]
            },
    )
}

/// Joining by a comma and a space is joining what has a space before it by a
/// comma.
proof fn lemma_spaced_joined(addresses: Seq<Seq<char>>)
    ensures
        text::joined(addresses, ", "@) == text::joined(spaced_out(addresses), seq![',']),
    decreases addresses.len(),
{
    reveal_strlit(", ");
    let spaced = spaced_out(addresses);
    if addresses.len() > 1 {
        lemma_spaced_joined(addresses.drop_last());
        assert(spaced.drop_last() == spaced_out(addresses.drop_last()));
        assert(", "@ == seq![','] + seq![' ']);
        let front = text::joined(addresses.drop_last(), ", "@);
        assert(front + ", "@ + addresses.last() == front + seq![','] + (seq![' ']
            + addresses.last()));
    }
}

/// The mailboxes of bare addresses, with or without a space before them.
proof fn lemma_plain_mailboxes(addresses: Seq<Seq<char>>, n: int, with_space: bool)
    requires
        0 <= n <= addresses.len(),
        forall|k: int| 0 <= k < addresses.len() ==> plain_address(#[trigger] addresses[k]),
    ensures
        mailboxes(
            (if with_space {
                spaced_out(addresses)
            } else {
                addresses
            }).take(n),
        ) == lowered_each(addresses).take(n),
    decreases n,
{
    let parts = if with_space {
        spaced_out(addresses)
    } else {
        addresses
    };
    let wanted = lowered_each(addresses);
    if n > 0 {
        lemma_plain_mailboxes(addresses, n - 1, with_space);
        assert(parts.take(n).drop_last() == parts.take(n - 1));
        let address = addresses[n - 1];
        assert(plain_address(address));
        let none = Seq::<char>::empty();
        law_bare_addresses_name_themselves(none, address, none);
        law_bare_addresses_name_themselves(seq![' '], address, none);
        assert(none + address + none == address);
        assert(seq![' '] + address + none == seq![' '] + address);
        assert(wanted.take(n) == wanted.take(n - 1).push(text::lowered(address)));
    }
}

/// An identifier as it is written between brackets: no brackets in it, and no white
/// space, quotes or commas around it.
pub open spec fn plain_id(s: Seq<char>) -> bool {
    &&& s.len() > 0
    &&& forall|i: int| 0 <= i < s.len() ==> #[trigger] s[i] != '<' && s[i] != '>'
    &&& !text::white_space(s[0]) && s[0] != '"' && s[0] != ','
    &&& !text::white_space(s.last()) && s.last() != '"' && s.last() != ','
}

/// A plain identifier is clean.
proof fn lemma_plain_id(s: Seq<char>)
    requires
        plain_id(s),
    ensures
        clean_id(s) == s,
{
    assert(s.last() != '<' && s.last() != '>');
    text::lemma_stripped_same(s, CharClass::Space);
    text::lemma_stripped_same(s, CharClass::One('<'));
    text::lemma_stripped_same(s, CharClass::One('>'));
    text::lemma_stripped_same(s, CharClass::One('"'));
    text::lemma_stripped_same(s, CharClass::One(','));
}

/// Identifiers in angle brackets with white space between any two are found again,
/// in order.
pub proof fn law_bracketed_identifiers_are_found(ids: Seq<Seq<char>>)
    requires
        ids.len() > 0,
        forall|k: int| 0 <= k < ids.len() ==> plain_id(#[trigger] ids[k]),
    ensures
        message_ids(
            text::joined(Seq::new(ids.len(), |k: int| seq!['<'] + ids[k] + seq!['>']), " "@),
        ) == ids,
{
    let parts = Seq::new(ids.len(), |k: int| seq!['<'] + ids[k] + seq!['>']);
    let whole = text::joined(parts, " "@);
    let none = Seq::<char>::empty();
    assert(none + whole == whole);
    lemma_bracketed_from(none, ids);
}

/// Bracketed identifiers after some text.
proof fn lemma_bracketed_from(front: Seq<char>, ids: Seq<Seq<char>>)
    requires
        ids.len() > 0,
        forall|k: int| 0 <= k < ids.len() ==> plain_id(#[trigger] ids[k]),
    ensures
        bracketed_ids(
            front + text::joined(
                Seq::new(ids.len(), |k: int| seq!['<'] + ids[k] + seq!['>']),
                " "@,
            ),
            front.len() as int,
            None,
        ) == ids,
    decreases ids.len(),
{
    reveal_strlit(" ");
    let parts = Seq::new(ids.len(), |k: int| seq!['<'] + ids[k] + seq!['>']);
    let id = ids[0];
    let n = front.len() as int;
    let m = id.len() as int;
    assert(plain_id(id));
    lemma_plain_id(id);
    let others = ids.drop_first();
    let rest = if ids.len() == 1 {
        Seq::<char>::empty()
    } else {
        " "@ + text::joined(parts.drop_first(), " "@)
    };
    let all = front + seq!['<'] + id + seq!['>'] + rest;
    if ids.len() > 1 {
        text::lemma_joined_front(parts, " "@);
        assert(front + text::joined(parts, " "@) == all);
    } else {
        assert(text::joined(parts, " "@) == parts[0]);
        assert(front + text::joined(parts, " "@) == all);
    }
    assert(all[n] == '<');
    lemma_bracket_runs(all, n + 1, n + 1 + m);
    assert(all[n + 1 + m] == '>');
    assert(all.subrange(n + 1, n + 1 + m) == id);
    let after = bracketed_ids(all, n + 2 + m, None);
    assert(bracketed_ids(all, n, None) == bracketed_ids(all, n + 1, Some(n + 1)));
    assert(bracketed_ids(all, n + 1 + m, Some(n + 1)) == seq![id] + after);
    assert(bracketed_ids(all, n, None) == seq![id] + after);
    if ids.len() > 1 {
        assert(all[n + 2 + m] == ' ');
        let next = front + seq!['<'] + id + seq!['>'] + " "@;
        assert forall|k: int| 0 <= k < others.len() implies plain_id(#[trigger] others[k]) by {
            assert(others[k] == ids[k + 1]);
        }
        lemma_bracketed_from(next, others);
        assert(parts.drop_first() == Seq::new(
            others.len(),
            |k: int| seq!['<'] + others[k] + seq!['>'],
        ));
        assert(next + text::joined(parts.drop_first(), " "@) == all);
        assert(seq![id] + others == ids);
    } else {
        assert(ids == seq![id]);
    }
}

/// Between brackets without brackets nothing is found.
proof fn lemma_bracket_runs(s: Seq<char>, from: int, to: int)
    requires
        0 <= from <= to <= s.len(),
        forall|i: int| from <= i < to ==> #[trigger] s[i] != '<' && s[i] != '>',
    ensures
        forall|open: Option<int>| #[trigger]
            bracketed_ids(s, from, open) == bracketed_ids(s, to, open),
    decreases to - from,
{
    if from < to {
        lemma_bracket_runs(s, from + 1, to);
        assert(s[from] != '<');
        assert forall|open: Option<int>| #[trigger]
            bracketed_ids(s, from, open) == bracketed_ids(s, to, open) by {
            assert(bracketed_ids(s, from, open) == bracketed_ids(s, from + 1, open));
        }
    }
}

/// A value without brackets that is one plain word is one identifier.
pub proof fn law_bare_identifiers_are_found(id: Seq<char>)
    requires
        plain_id(id),
        !text::has_any(id, CharClass::Space),
    ensures
        message_ids(id) == seq![id],
{
    lemma_plain_id(id);
    text::lemma_single_word(id);
    lemma_bracket_runs(id, 0, id.len() as int);
    assert(bracketed_ids(id, 0, None) == Seq::<Seq<char>>::empty());
    assert(seq![id].drop_last() == Seq::<Seq<char>>::empty());
    assert(bare_ids(Seq::<Seq<char>>::empty()) == Seq::<Seq<char>>::empty());
    assert(bare_ids(seq![id]) == seq![id]);
}

// ---------------------------------------------------------------------------
// Laws of trailers and subjects
// ---------------------------------------------------------------------------

/// Seven kinds of trailers are known, in any case, and each under its one
/// spelling; no other kind is.
pub proof fn law_seven_kinds_are_known(kind: Seq<char>)
    ensures
        text::same_letters(kind, "Reviewed-by"@) ==> canonical_kind(kind) == Some("Reviewed-by"@),
        text::same_letters(kind, "Acked-by"@) ==> canonical_kind(kind) == Some("Acked-by"@),
        text::same_letters(kind, "Tested-by"@) ==> canonical_kind(kind) == Some("Tested-by"@),
        text::same_letters(kind, "Reported-by"@) ==> canonical_kind(kind) == Some("Reported-by"@),
        text::same_letters(kind, "Suggested-by"@) ==> canonical_kind(kind) == Some(
            "Suggested-by"@,
        ),
        text::same_letters(kind, "Co-developed-by"@) ==> canonical_kind(kind) == Some(
            "Co-developed-by"@,
        ),
        text::same_letters(kind, "Signed-off-by"@) ==> canonical_kind(kind) == Some(
            "Signed-off-by"@,
        ),
        canonical_kind(kind) is Some ==> text::same_letters(kind, canonical_kind(kind)->0) && (
        canonical_kind(kind)->0 == "Reviewed-by"@ || canonical_kind(kind)->0 == "Acked-by"@
            || canonical_kind(kind)->0 == "Tested-by"@ || canonical_kind(kind)->0
            == "Reported-by"@ || canonical_kind(kind)->0 == "Suggested-by"@ || canonical_kind(
            kind,
        )->0 == "Co-developed-by"@ || canonical_kind(kind)->0 == "Signed-off-by"@),
{
    reveal_strlit("Reviewed-by");
    reveal_strlit("Acked-by");
    reveal_strlit("Tested-by");
    reveal_strlit("Reported-by");
    reveal_strlit("Suggested-by");
    reveal_strlit("Co-developed-by");
    reveal_strlit("Signed-off-by");
    assert(text::lowered("Reviewed-by"@).len() == 11 && text::lowered("Reviewed-by"@)[2] == 'v');
    assert(text::lowered("Acked-by"@).len() == 8);
    assert(text::lowered("Tested-by"@).len() == 9);
    assert(text::lowered("Reported-by"@).len() == 11 && text::lowered("Reported-by"@)[2] == 'p');
    assert(text::lowered("Suggested-by"@).len() == 12);
    assert(text::lowered("Co-developed-by"@).len() == 15);
    assert(text::lowered("Signed-off-by"@).len() == 13);
}

/// A line that spells a known kind, a colon and a value states that trailer,
/// unless it quotes another mail. A line with another word before its colon, or
/// without a value, states none.
pub proof fn law_trailer_lines_are_read(spelled: Seq<char>, value: Seq<char>)
    requires
        forall|i: int| 0 <= i < spelled.len() ==> #[trigger] spelled[i] != ':',
    ensures
        canonical_kind(text::trimmed(spelled)) is Some && text::trimmed(value).len() > 0
            ==> trailer_line(spelled.push(':') + value) == Some(
            TrailerView {
                kind: canonical_kind(text::trimmed(spelled))->0,
                value: text::trimmed(value),
            },
        ),
        canonical_kind(text::trimmed(spelled)) is None ==> trailer_line(
            spelled.push(':') + value,
        ) is None,
        text::trimmed(value).len() == 0 ==> trailer_line(spelled.push(':') + value) is None,
{
    let line = spelled.push(':') + value;
    let n = spelled.len() as int;
    assert forall|j: int| 0 <= j < n implies !CharClass::One(':').has(#[trigger] line[j]) by {
        assert(line[j] == spelled[j]);
    }
    assert(line[n] == ':');
    text::lemma_find_is(line, CharClass::One(':'), n);
    assert(line.take(n) == spelled);
    assert(line.skip(n + 1) == value);
    if canonical_kind(text::trimmed(spelled)) is Some && quoted_line(line) {
        lemma_kinds_open_with_letters(text::trimmed(spelled));
        text::lemma_skip_leading(spelled, CharClass::Space);
        let front = text::trimmed_start(spelled);
        text::lemma_skip_trailing(front, CharClass::Space);
        assert(front.len() > 0);
        let k = n - front.len();
        assert(spelled[k] == front[0]);
        assert(front[0] == text::trimmed(spelled)[0]);
        assert forall|j: int| 0 <= j < k implies CharClass::Space.has(#[trigger] line[j]) by {
            assert(line[j] == spelled[j]);
            assert(CharClass::Space.has(spelled[j]));
        }
        assert(line[k] == spelled[k]);
        text::lemma_skip_leading_is(line, CharClass::Space, k);
        assert(text::trimmed_start(line)[0] == line[k]);
    }
}

/// A known kind opens with a letter.
proof fn lemma_kinds_open_with_letters(kind: Seq<char>)
    requires
        canonical_kind(kind) is Some,
    ensures
        kind.len() > 0,
        kind[0] != '>',
{
    reveal_strlit("Reviewed-by");
    reveal_strlit("Acked-by");
    reveal_strlit("Tested-by");
    reveal_strlit("Reported-by");
    reveal_strlit("Suggested-by");
    reveal_strlit("Co-developed-by");
    reveal_strlit("Signed-off-by");
    let name = canonical_kind(kind)->0;
    law_seven_kinds_are_known(kind);
    assert(text::lowered(kind).len() == text::lowered(name).len());
    assert(text::lowered(kind)[0] == text::lowered(name)[0]);
}

/// Whether a line can go on with a trailer: it is indented, not blank and quotes
/// nothing.
pub open spec fn extends_trailer(line: Seq<char>) -> bool {
    goes_on(line) && text::trimmed(bare_line(line)).len() > 0 && !quoted_line(bare_line(line))
}

/// The trailers of lines that begin anew are their own: those of two blocks are
/// those of the one and those of the other, unless the second goes on with the
/// first.
pub proof fn law_trailers_add_up(a: Seq<Seq<char>>, b: Seq<Seq<char>>)
    requires
        b.len() > 0 ==> !extends_trailer(b[0]),
    ensures
        trailers_from(a + b, 0, None) == trailers_from(a, 0, None) + trailers_from(b, 0, None),
{
    lemma_trailers_split(a, b, 0, None);
}

/// Trailers of two blocks.
proof fn lemma_trailers_split(
    a: Seq<Seq<char>>,
    b: Seq<Seq<char>>,
    i: int,
    open: Option<TrailerView>,
)
    requires
        0 <= i <= a.len(),
        b.len() > 0 ==> !extends_trailer(b[0]),
    ensures
        trailers_from(a + b, i, open) == trailers_from(a, i, open) + trailers_from(b, 0, None),
    decreases a.len() - i,
{
    let all = a + b;
    if i < a.len() {
        assert(all[i] == a[i]);
        let line = text::skip_trailing(a[i], CharClass::One('\r'));
        if quoted_line(line) {
            lemma_trailers_split(a, b, i + 1, None);
        } else if open is Some && indented(line) && text::trimmed(line).len() > 0 {
            lemma_trailers_split(
                a,
                b,
                i + 1,
                Some(
                    TrailerView {
                        kind: open->0.kind,
                        value: open->0.value.push(' ') + text::trimmed(line),
                    },
                ),
            );
        } else {
            lemma_trailers_split(a, b, i + 1, trailer_line(line));
        }
    } else {
        lemma_trailers_later(a, b, 0, None);
        if b.len() > 0 {
            assert(all[i] == b[0]);
            let line = text::skip_trailing(b[0], CharClass::One('\r'));
            if quoted_line(line) {
                lemma_trailers_later(a, b, 1, None);
            } else {
                lemma_trailers_later(a, b, 1, trailer_line(line));
            }
        } else {
            assert(trailers_from(b, 0, None) == Seq::<TrailerView>::empty());
        }
    }
}

/// The trailers of later lines do not depend on earlier ones.
proof fn lemma_trailers_later(
    a: Seq<Seq<char>>,
    b: Seq<Seq<char>>,
    i: int,
    open: Option<TrailerView>,
)
    requires
        0 <= i <= b.len(),
    ensures
        trailers_from(a + b, a.len() + i, open) == trailers_from(b, i, open),
    decreases b.len() - i,
{
    if i < b.len() {
        assert((a + b)[a.len() + i] == b[i]);
        let line = text::skip_trailing(b[i], CharClass::One('\r'));
        lemma_trailers_later(a, b, i + 1, None);
        lemma_trailers_later(a, b, i + 1, trailer_line(line));
        if open is Some {
            lemma_trailers_later(
                a,
                b,
                i + 1,
                Some(
                    TrailerView {
                        kind: open->0.kind,
                        value: open->0.value.push(' ') + text::trimmed(line),
                    },
                ),
            );
        }
    }
}

/// One line states its trailer or nothing, and a line that goes on with a trailer
/// adds a space and its text to the value.
pub proof fn law_trailers_go_on_over_lines(line: Seq<char>, next: Seq<char>)
    ensures
        trailer_line(bare_line(line)) matches Some(trailer) ==> trailers_from(seq![line], 0, None)
            == seq![trailer],
        trailer_line(bare_line(line)) is None ==> trailers_from(seq![line], 0, None) == Seq::<
            TrailerView,
        >::empty(),
        trailer_line(bare_line(line)) is Some && extends_trailer(next) ==> trailers_from(
            seq![line, next],
            0,
            None,
        ) == seq![
            TrailerView {
                kind: trailer_line(bare_line(line))->0.kind,
                value: trailer_line(bare_line(line))->0.value.push(' ') + text::trimmed(
                    bare_line(next),
                ),
            },
        ],
{
    let one = seq![line];
    let first = trailer_line(bare_line(line));
    assert(trailers_from(one, 1, first) == closed_trailer(first));
    assert(trailers_from(one, 1, None) == Seq::<TrailerView>::empty());
    if first is Some && extends_trailer(next) {
        let two = seq![line, next];
        assert(two[0] == line && two[1] == next);
        let more = Some(
            TrailerView {
                kind: first->0.kind,
                value: first->0.value.push(' ') + text::trimmed(bare_line(next)),
            },
        );
        assert(trailers_from(two, 2, more) == closed_trailer(more));
        assert(trailers_from(two, 1, first) == trailers_from(two, 2, more));
    }
}

/// The trailers of a mail are those of the lines after its first empty line. A mail
/// without an empty line has none.
pub proof fn law_trailers_are_read_from_the_body(
    mail: Seq<char>,
    fallback: Seq<char>,
    at: int,
)
    ensures
        !text::occurs_in(mail, "\r\n\r\n"@) && text::occurs_at(mail, "\n\n"@, at) && (forall|j: int|
            0 <= j < at ==> !#[trigger] text::occurs_at(mail, "\n\n"@, j)) ==> mail_headers(
            mail,
            fallback,
        ).trailers == trailers_from(text::lines(mail.skip(at + 2)), 0, None),
        text::occurs_at(mail, "\r\n\r\n"@, at) && (forall|j: int|
            0 <= j < at ==> !#[trigger] text::occurs_at(mail, "\r\n\r\n"@, j)) ==> mail_headers(
            mail,
            fallback,
        ).trailers == trailers_from(text::lines(mail.skip(at + 4)), 0, None),
        !text::occurs_in(mail, "\r\n\r\n"@) && !text::occurs_in(mail, "\n\n"@) ==> mail_headers(
            mail,
            fallback,
        ).trailers.len() == 0,
{
    let crlf = "\r\n\r\n"@;
    let lf = "\n\n"@;
    text::lemma_find_text_from(mail, crlf, 0);
    text::lemma_find_text_from(mail, lf, 0);
    if let Some(i) = text::find_text(mail, crlf) {
        assert(text::occurs_at(mail, crlf, i));
        if text::occurs_at(mail, crlf, at) && i != at {
            assert(at >= 0);
            if at < i {
                assert(!text::occurs_at(mail, crlf, at));
            }
        }
    } else {
        if text::occurs_at(mail, crlf, at) {
            assert(at >= 0);
        }
    }
    if let Some(i) = text::find_text(mail, lf) {
        assert(text::occurs_at(mail, lf, i));
        if text::occurs_at(mail, lf, at) && i != at {
            assert(at >= 0);
            if at < i {
                assert(!text::occurs_at(mail, lf, at));
            }
        }
    } else {
        if text::occurs_at(mail, lf, at) {
            assert(at >= 0);
        }
    }
}


/// A bracketed tag in front of a subject does not count, whatever it says.
pub proof fn law_tags_do_not_change_the_subject(tag: Seq<char>, rest: Seq<char>)
    requires
        forall|i: int| 0 <= i < tag.len() ==> #[trigger] tag[i] != ']',
        !text::opens_with(text::lowered(text::trimmed(rest)), "re:"@),
        !text::opens_with(text::lowered(text::trimmed(rest)), "fwd:"@),
    ensures
        normalized_subject(seq!['['] + tag + seq![']'] + rest) == normalized_subject(rest),
{
    reveal_strlit("re:");
    reveal_strlit("fwd:");
    let subject = seq!['['] + tag + seq![']'] + rest;
    let n = tag.len() as int;
    let tail = text::skip_trailing(rest, CharClass::Space);
    text::lemma_skip_trailing(rest, CharClass::Space);
    let m = tail.len() as int;
    text::lemma_skip_leading_is(subject, CharClass::Space, 0);
    assert(subject.skip(0) == subject);
    assert forall|j: int| n + 2 + m <= j < subject.len() implies CharClass::Space.has(
        #[trigger] subject[j],
    ) by {
        assert(subject[j] == rest[j - n - 2]);
        assert(CharClass::Space.has(rest[j - n - 2]));
    }
    if m > 0 {
        assert(subject[n + 2 + m - 1] == tail.last());
    } else {
        assert(subject[n + 1] == ']');
    }
    text::lemma_skip_trailing_is(subject, CharClass::Space, n + 2 + m);
    let short = text::trimmed(subject);
    assert(short == seq!['['] + tag + seq![']'] + tail);
    let low = text::lowered(short);
    assert(low[0] == '[');
    text::lemma_skip_leading_is(low, CharClass::Space, 0);
    assert(low.skip(0) == low);
    assert(!text::opens_with(low, "re:"@)) by {
        if text::opens_with(low, "re:"@) {
            assert(low.subrange(0, 3)[0] == 'r');
            assert(low.subrange(0, 3)[0] == low[0]);
        }
    }
    assert(!text::opens_with(low, "fwd:"@)) by {
        if text::opens_with(low, "fwd:"@) {
            assert(low.subrange(0, 4)[0] == 'f');
            assert(low.subrange(0, 4)[0] == low[0]);
        }
    }
    assert(unmarked(low) == low);
    assert forall|j: int| 0 <= j < n + 1 implies !CharClass::One(']').has(#[trigger] low[j]) by {
        if j > 0 {
            assert(short[j] == tag[j - 1]);
        }
    }
    assert(short[n + 1] == ']');
    assert(low[n + 1] == ']');
    text::lemma_find_is(low, CharClass::One(']'), n + 1);
    assert(low.skip(n + 2) == text::lowered(tail));
    text::lemma_lowered_trims(tail);
    text::lemma_stripped_either_order(rest, CharClass::Space);
    let plain = text::lowered(text::trimmed(rest));
    assert(text::trimmed_start(text::lowered(tail)) == plain);
    text::lemma_stripped(rest, CharClass::Space);
    if plain.len() > 0 {
        assert(!text::white_space(text::trimmed(rest)[0]));
        assert(plain[0] == text::lower_char(text::trimmed(rest)[0]));
    }
    text::lemma_skip_leading_is(plain, CharClass::Space, 0);
    assert(plain.skip(0) == plain);
    assert(unmarked(plain) == plain);
}

/// A subject without tags and markers counts as it stands, but for case and the
/// white space around it.
pub proof fn law_plain_subjects_count_as_they_stand(subject: Seq<char>)
    requires
        !text::opens_with(text::trimmed(subject), seq!['[']),
        !text::opens_with(text::lowered(text::trimmed(subject)), "re:"@),
        !text::opens_with(text::lowered(text::trimmed(subject)), "fwd:"@),
    ensures
        normalized_subject(subject) == text::lowered(text::trimmed(subject)),
{
    let short = text::trimmed(subject);
    let plain = text::lowered(short);
    text::lemma_stripped(subject, CharClass::Space);
    if plain.len() > 0 {
        assert(!text::white_space(short[0]) && !text::white_space(short.last()));
        assert(plain[0] == text::lower_char(short[0]));
        assert(plain.last() == text::lower_char(short.last()));
        if short[0] == '[' {
            assert(short.subrange(0, 1) == seq!['[']);
        }
        assert(plain[0] != '[');
    }
    text::lemma_skip_leading_is(plain, CharClass::Space, 0);
    assert(plain.skip(0) == plain);
    text::lemma_stripped_same(plain, CharClass::Space);
    assert(unmarked(plain) == plain);
    assert(untagged(plain) == plain);
}

/// Parsed headers are seen as they are, field by field.
pub proof fn law_headers_are_seen_as_parsed(mail: ParsedMailHeaders)
    ensures
        mail@.message_id == mail.message_id@,
        mail@.subject == mail.subject@,
        mail@.from_addr == mail.from_addr@,
        mail@.to_addresses == text::texts(mail.to_addresses@),
        mail@.cc_addresses == text::texts(mail.cc_addresses@),
        mail@.date == text::opt_text(mail.date),
        mail@.in_reply_to == text::opt_text(mail.in_reply_to),
        mail@.references == text::texts(mail.references@),
        mail@.list_id == text::opt_text(mail.list_id),
        mail@.change_id == text::opt_text(mail.change_id),
        mail@.trailers.len() == mail.trailers@.len(),
        forall|i: int|
            0 <= i < mail.trailers@.len() ==> (#[trigger] mail@.trailers[i]).kind
                == mail.trailers@[i].kind@ && mail@.trailers[i].value == mail.trailers@[i].value@,
{
}

/// An identifier loses the white space, brackets, quotes and commas around it.
pub proof fn law_identifiers_lose_what_surrounds_them(
    before: Seq<char>,
    id: Seq<char>,
    after: Seq<char>,
)
    requires
        plain_id(id),
        forall|i: int| 0 <= i < before.len() ==> text::white_space(#[trigger] before[i]),
        forall|i: int| 0 <= i < after.len() ==> text::white_space(#[trigger] after[i]),
    ensures
        clean_id(before + id + after) == id,
        clean_id(before + (seq!['<'] + id + seq!['>']) + after) == id,
        clean_id(before + (seq!['"'] + id + seq!['"']) + after) == id,
        clean_id(before + (id + seq![',']) + after) == id,
{
    lemma_plain_id(id);
    text::law_white_space_around_is_trimmed(before, id, after);
    let angled = seq!['<'] + id + seq!['>'];
    let quoted = seq!['"'] + id + seq!['"'];
    let listed = id + seq![','];
    text::law_white_space_around_is_trimmed(before, angled, after);
    text::law_white_space_around_is_trimmed(before, quoted, after);
    text::law_white_space_around_is_trimmed(before, listed, after);
    text::lemma_stripped_same(id, CharClass::Space);
    text::lemma_stripped_same(id, CharClass::One('<'));
    text::lemma_stripped_same(id, CharClass::One('>'));
    text::lemma_stripped_same(id, CharClass::One('"'));
    text::lemma_stripped_same(id, CharClass::One(','));
    let n = id.len() as int;
    assert(id.last() != '<' && id.last() != '>');
    assert(angled[1] == id[0]);
    text::lemma_skip_leading_is(angled, CharClass::One('<'), 1);
    let opened = id + seq!['>'];
    assert(angled.skip(1) == opened);
    text::lemma_skip_trailing_is(opened, CharClass::One('<'), opened.len() as int);
    assert(opened.take(opened.len() as int) == opened);
    assert(opened[0] == id[0]);
    text::lemma_skip_leading_is(opened, CharClass::One('>'), 0);
    assert(opened.skip(0) == opened);
    assert(opened[n - 1] == id.last());
    text::lemma_skip_trailing_is(opened, CharClass::One('>'), n);
    assert(opened.take(n) == id);
    text::lemma_stripped_same(quoted, CharClass::One('<'));
    text::lemma_stripped_same(quoted, CharClass::One('>'));
    assert(quoted[1] == id[0]);
    text::lemma_skip_leading_is(quoted, CharClass::One('"'), 1);
    let closing = id + seq!['"'];
    assert(quoted.skip(1) == closing);
    assert(closing[n - 1] == id.last());
    text::lemma_skip_trailing_is(closing, CharClass::One('"'), n);
    assert(closing.take(n) == id);
    assert(listed[0] == id[0]);
    text::lemma_stripped_same(listed, CharClass::One('<'));
    text::lemma_stripped_same(listed, CharClass::One('>'));
    text::lemma_stripped_same(listed, CharClass::One('"'));
    text::lemma_skip_leading_is(listed, CharClass::One(','), 0);
    assert(listed.skip(0) == listed);
    assert(listed[n - 1] == id.last());
    text::lemma_skip_trailing_is(listed, CharClass::One(','), n);
    assert(listed.take(n) == id);
}

/// What stands before a bracket does not count, and of several open brackets the
/// latest one does.
pub proof fn law_the_latest_bracket_counts(junk: Seq<char>, id: Seq<char>, rest: Seq<char>)
    requires
        plain_id(id),
        !text::has_any(junk, CharClass::One('>')),
        !text::has_any(rest, CharClass::One('>')),
    ensures
        message_ids(junk + seq!['<'] + id + seq!['>'] + rest) == seq![id],
{
    let all = junk + seq!['<'] + id + seq!['>'] + rest;
    let n = junk.len() as int;
    let m = id.len() as int;
    lemma_plain_id(id);
    assert forall|j: int| 0 <= j < n implies #[trigger] all[j] != '>' by {
        assert(all[j] == junk[j]);
        if junk[j] == '>' {
            assert(CharClass::One('>').has(junk[j]));
        }
    }
    assert(all[n] == '<');
    lemma_no_closing(all, 0, n, None);
    let open = choose|open: Option<int>| #[trigger]
        bracketed_ids(all, n, open) == bracketed_ids(all, 0, None);
    assert(bracketed_ids(all, n, open) == bracketed_ids(all, n + 1, Some(n + 1)));
    assert forall|i: int| n + 1 <= i < n + 1 + m implies #[trigger] all[i] != '<' && all[i]
        != '>' by {
        assert(all[i] == id[i - n - 1]);
    }
    lemma_bracket_runs(all, n + 1, n + 1 + m);
    assert(all[n + 1 + m] == '>');
    assert(all.subrange(n + 1, n + 1 + m) == id);
    let after = bracketed_ids(all, n + 2 + m, None);
    assert(bracketed_ids(all, n + 1 + m, Some(n + 1)) == seq![id] + after);
    assert forall|j: int| n + 2 + m <= j < all.len() implies #[trigger] all[j] != '>' by {
        assert(all[j] == rest[j - n - 2 - m]);
        if rest[j - n - 2 - m] == '>' {
            assert(CharClass::One('>').has(rest[j - n - 2 - m]));
        }
    }
    lemma_no_closing(all, n + 2 + m, all.len() as int, None);
    let end = choose|end: Option<int>| #[trigger]
        bracketed_ids(all, all.len() as int, end) == bracketed_ids(all, n + 2 + m, None);
    assert(after == Seq::<Seq<char>>::empty());
    assert(seq![id] + after == seq![id]);
}

/// Without a closing bracket nothing is found.
proof fn lemma_no_closing(s: Seq<char>, from: int, to: int, open: Option<int>)
    requires
        0 <= from <= to <= s.len(),
        forall|i: int| from <= i < to ==> #[trigger] s[i] != '>',
    ensures
        exists|then: Option<int>| #[trigger]
            bracketed_ids(s, to, then) == bracketed_ids(s, from, open),
    decreases to - from,
{
    if from < to {
        assert(s[from] != '>');
        let next = if s[from] == '<' {
            Some(from + 1)
        } else {
            open
        };
        lemma_no_closing(s, from + 1, to, next);
        let then = choose|then: Option<int>| #[trigger]
            bracketed_ids(s, to, then) == bracketed_ids(s, from + 1, next);
        assert(bracketed_ids(s, to, then) == bracketed_ids(s, from, open));
    } else {
        assert(bracketed_ids(s, to, open) == bracketed_ids(s, from, open));
    }
}

/// Without brackets, each word is an identifier.
pub proof fn law_bare_words_are_identifiers(ids: Seq<Seq<char>>)
    requires
        forall|k: int|
            0 <= k < ids.len() ==> plain_id(#[trigger] ids[k]) && !text::has_any(
                ids[k],
                CharClass::Space,
            ),
    ensures
        message_ids(text::joined(ids, " "@)) == ids,
{
    let whole = text::joined(ids, " "@);
    assert forall|k: int| 0 <= k < ids.len() implies (#[trigger] ids[k]).len() > 0
        && !text::has_any(ids[k], CharClass::Space) by {
        assert(plain_id(ids[k]));
    }
    text::law_spaced_words_are_found(ids);
    lemma_clean_words(ids);
    lemma_joined_unbracketed(ids);
    lemma_bracket_runs(whole, 0, whole.len() as int);
    assert(bracketed_ids(whole, 0, None) == Seq::<Seq<char>>::empty());
}

/// Plain words stay as they are.
proof fn lemma_clean_words(ids: Seq<Seq<char>>)
    requires
        forall|k: int| 0 <= k < ids.len() ==> plain_id(#[trigger] ids[k]),
    ensures
        bare_ids(ids) == ids,
    decreases ids.len(),
{
    if ids.len() > 0 {
        let init = ids.drop_last();
        assert forall|k: int| 0 <= k < init.len() implies plain_id(#[trigger] init[k]) by {
            assert(init[k] == ids[k]);
        }
        lemma_clean_words(init);
        assert(plain_id(ids[ids.len() - 1]));
        lemma_plain_id(ids.last());
        assert(init.push(ids.last()) == ids);
    }
}

/// Plain words joined hold no brackets.
proof fn lemma_joined_unbracketed(ids: Seq<Seq<char>>)
    requires
        forall|k: int| 0 <= k < ids.len() ==> plain_id(#[trigger] ids[k]),
    ensures
        forall|i: int|
            0 <= i < text::joined(ids, " "@).len() ==> #[trigger] text::joined(ids, " "@)[i] != '<'
                && text::joined(ids, " "@)[i] != '>',
    decreases ids.len(),
{
    reveal_strlit(" ");
    let whole = text::joined(ids, " "@);
    if ids.len() == 1 {
        assert(plain_id(ids[0]));
    } else if ids.len() > 1 {
        let init = ids.drop_last();
        assert forall|k: int| 0 <= k < init.len() implies plain_id(#[trigger] init[k]) by {
            assert(init[k] == ids[k]);
        }
        lemma_joined_unbracketed(init);
        let front = text::joined(init, " "@);
        let last = ids[ids.len() - 1];
        assert(plain_id(last));
        assert forall|i: int| 0 <= i < whole.len() implies #[trigger] whole[i] != '<' && whole[i]
            != '>' by {
            if i < front.len() {
                assert(whole[i] == front[i]);
            } else if i > front.len() {
                assert(whole[i] == last[i - front.len() - 1]);
            }
        }
    }
}

/// Without brackets, the first word with an at sign is the address, whatever words
/// stand before and after it.
pub proof fn law_the_first_word_with_an_at_sign_counts(
    before: Seq<Seq<char>>,
    address: Seq<char>,
    after: Seq<Seq<char>>,
)
    requires
        plain_address(address),
        forall|k: int| 0 <= k < before.len() ==> plain_word(#[trigger] before[k]),
        forall|k: int|
            0 <= k < before.len() ==> !text::has_any(#[trigger] before[k], CharClass::One('@')),
        forall|k: int| 0 <= k < after.len() ==> plain_word(#[trigger] after[k]),
    ensures
        mailbox_of(text::joined(before + seq![address] + after, " "@)) == Some(
            text::lowered(address),
        ),
{
    lemma_plain_address(address);
    let parts = before + seq![address] + after;
    let whole = text::joined(parts, " "@);
    assert forall|k: int| 0 <= k < parts.len() implies plain_word(#[trigger] parts[k]) by {
        if k < before.len() {
            assert(parts[k] == before[k]);
        } else if k > before.len() {
            assert(parts[k] == after[k - before.len() - 1]);
        }
    }
    lemma_plain_words_joined(parts);
    assert forall|k: int| 0 <= k < parts.len() implies (#[trigger] parts[k]).len() > 0
        && !text::has_any(parts[k], CharClass::Space) by {
        assert(plain_word(parts[k]));
        if text::has_any(parts[k], CharClass::Space) {
            let i = choose|i: int|
                0 <= i < parts[k].len() && CharClass::Space.has(#[trigger] parts[k][i]);
            assert(!text::white_space(parts[k][i]));
        }
    }
    text::law_spaced_words_are_found(parts);
    text::lemma_stripped_same(whole, CharClass::Space);
    text::lemma_stripped_same(whole, CharClass::AddressEdge);
    lemma_find_last_none(whole, CharClass::One('<'), whole.len() as int);
    lemma_first_word_at(parts, 0, before.len() as int);
}

/// A word without quotes, brackets and the punctuation of lists.
pub open spec fn plain_word(s: Seq<char>) -> bool {
    &&& s.len() > 0
    &&& forall|i: int|
        0 <= i < s.len() ==> {
            let c = #[trigger] s[i];
            &&& !text::white_space(c)
            &&& c != '<' && c != '>' && c != '"' && c != '\'' && c != ',' && c != ';'
        }
}

/// The first word with an at sign is found.
proof fn lemma_first_word_at(parts: Seq<Seq<char>>, from: int, k: int)
    requires
        0 <= from <= k < parts.len(),
        text::has_any(parts[k], CharClass::One('@')),
        forall|j: int| from <= j < k ==> !text::has_any(#[trigger] parts[j], CharClass::One('@')),
    ensures
        first_mailbox_word(parts, from) == Some(parts[k]),
    decreases k - from,
{
    if from < k {
        assert(!text::has_any(parts[from], CharClass::One('@')));
        lemma_first_word_at(parts, from + 1, k);
    }
}

/// Plain words joined hold no quotes, brackets or list punctuation.
proof fn lemma_plain_words_joined(parts: Seq<Seq<char>>)
    requires
        parts.len() > 0,
        forall|k: int| 0 <= k < parts.len() ==> plain_word(#[trigger] parts[k]),
    ensures
        ({
            let whole = text::joined(parts, " "@);
            &&& whole.len() > 0
            &&& !text::white_space(whole[0])
            &&& !text::white_space(whole.last())
            &&& forall|i: int|
                0 <= i < whole.len() ==> #[trigger] whole[i] != '<' && whole[i] != '>' && whole[i]
                    != '"' && whole[i] != '\'' && whole[i] != ',' && whole[i] != ';'
        }),
    decreases parts.len(),
{
    reveal_strlit(" ");
    let whole = text::joined(parts, " "@);
    assert(plain_word(parts[0]));
    if parts.len() > 1 {
        let init = parts.drop_last();
        assert forall|k: int| 0 <= k < init.len() implies plain_word(#[trigger] init[k]) by {
            assert(init[k] == parts[k]);
        }
        lemma_plain_words_joined(init);
        let front = text::joined(init, " "@);
        let last = parts[parts.len() - 1];
        assert(plain_word(last));
        assert(whole[0] == front[0]);
        assert(whole.last() == last[last.len() - 1]);
        assert forall|i: int| 0 <= i < whole.len() implies #[trigger] whole[i] != '<' && whole[i]
            != '>' && whole[i] != '"' && whole[i] != '\'' && whole[i] != ',' && whole[i] != ';' by {
            if i < front.len() {
                assert(whole[i] == front[i]);
            } else if i > front.len() {
                assert(whole[i] == last[i - front.len() - 1]);
            }
        }
    } else {
        assert(whole == parts[0]);
        assert(!text::white_space(whole[0]));
        assert(!text::white_space(whole[whole.len() - 1]));
    }
}

/// Quotes, commas and semicolons around an address do not count.
pub proof fn law_punctuation_around_an_address_does_not_count(
    before: Seq<char>,
    address: Seq<char>,
    after: Seq<char>,
)
    requires
        plain_address(address),
        forall|i: int|
            0 <= i < before.len() ==> #[trigger] before[i] == '"' || before[i] == '\'' || before[i]
                == ',' || before[i] == ';',
        forall|i: int|
            0 <= i < after.len() ==> #[trigger] after[i] == '"' || after[i] == '\'' || after[i]
                == ',' || after[i] == ';',
    ensures
        mailbox_of(before + address + after) == Some(text::lowered(address)),
{
    lemma_plain_address(address);
    let all = before + address + after;
    let n = before.len() as int;
    let m = address.len() as int;
    assert forall|i: int| 0 <= i < all.len() implies #[trigger] all[i] != '<'
        && !text::white_space(all[i]) by {
        if i < n {
            assert(all[i] == before[i]);
        } else if i < n + m {
            assert(all[i] == address[i - n]);
        } else {
            assert(all[i] == after[i - n - m]);
        }
    }
    text::lemma_stripped_same(all, CharClass::Space);
    lemma_find_last_none(all, CharClass::One('<'), all.len() as int);
    assert forall|j: int| 0 <= j < n implies CharClass::AddressEdge.has(#[trigger] all[j]) by {
        assert(all[j] == before[j]);
    }
    assert(all[n] == address[0]);
    assert(!CharClass::AddressEdge.has(address[0]));
    text::lemma_skip_leading_is(all, CharClass::AddressEdge, n);
    let rest = all.skip(n);
    assert forall|j: int| m <= j < rest.len() implies CharClass::AddressEdge.has(
        #[trigger] rest[j],
    ) by {
        assert(rest[j] == after[j - m]);
    }
    assert(rest[m - 1] == address[m - 1]);
    assert(!CharClass::AddressEdge.has(address[m - 1]));
    text::lemma_skip_trailing_is(rest, CharClass::AddressEdge, m);
    assert(rest.take(m) == address);
}

/// A line quotes another mail exactly when its first character after white space is
/// an angle bracket.
pub proof fn law_quoted_lines_open_with_a_bracket(
    gap: Seq<char>,
    c: char,
    rest: Seq<char>,
)
    requires
        forall|i: int| 0 <= i < gap.len() ==> text::white_space(#[trigger] gap[i]),
        !text::white_space(c),
    ensures
        quoted_line(gap + seq![c] + rest) <==> c == '>',
        !quoted_line(gap),
{
    let line = gap + seq![c] + rest;
    let n = gap.len() as int;
    assert forall|j: int| 0 <= j < n implies CharClass::Space.has(#[trigger] line[j]) by {
        assert(line[j] == gap[j]);
    }
    assert(line[n] == c);
    text::lemma_skip_leading_is(line, CharClass::Space, n);
    assert(line.skip(n)[0] == c);
    assert forall|j: int| 0 <= j < n implies CharClass::Space.has(#[trigger] gap[j]) by {}
    text::lemma_skip_leading_is(gap, CharClass::Space, n);
}

} // verus!
