//! Review trailers and the review inbox.
//!
//! Mails carry individual trailers. This module turns them, together with the
//! patch series of the threads, into a queue of what still needs review. The
//! command-line report and the thread filter use the same index, so that both
//! agree.

use crate::cli::ReviewInboxMode;
use crate::mail_parser;
use crate::mail_parser::ParsedTrailer;
use crate::mail_parser::TrailerView;
use crate::mail_store::ThreadRow;
use crate::patch::SeriesIntegrity;
use crate::patch::SeriesSummary;
use crate::text;
use std::collections::HashMap;
use std::collections::HashSet;
use vstd::prelude::*;

verus! {

/// How many rows of the store the review inbox looks at.
pub const REVIEW_INBOX_ROW_LIMIT: usize = 50_000;

/// One patch series with the trailers of its thread.
#[derive(Debug)]
pub struct ReviewInboxEntry {
    pub thread_id: i64,
    pub subject: String,
    pub anchor_message_id: String,
    pub version: u32,
    pub present_count: usize,
    pub expected_total: u32,
    pub integrity: SeriesIntegrity,
    pub trailers: Vec<ParsedTrailer>,
}

/// The texts of an entry.
#[verifier::ext_equal]
pub struct EntryView {
    pub thread_id: i64,
    pub subject: Seq<char>,
    pub anchor_message_id: Seq<char>,
    pub version: u32,
    pub present_count: usize,
    pub expected_total: u32,
    pub integrity: SeriesIntegrity,
    pub trailers: Seq<TrailerView>,
}

impl View for ReviewInboxEntry {
    type V = EntryView;

    open spec fn view(&self) -> EntryView {
        EntryView {
            thread_id: self.thread_id,
            subject: self.subject@,
            anchor_message_id: self.anchor_message_id@,
            version: self.version,
            present_count: self.present_count,
            expected_total: self.expected_total,
            integrity: self.integrity,
            trailers: mail_parser::trailer_views(self.trailers@),
        }
    }
}

impl Clone for ReviewInboxEntry {
    fn clone(&self) -> (r: Self)
        ensures
            r@ == self@,
    {
        ReviewInboxEntry {
            thread_id: self.thread_id,
            subject: self.subject.clone(),
            anchor_message_id: self.anchor_message_id.clone(),
            version: self.version,
            present_count: self.present_count,
            expected_total: self.expected_total,
            integrity: self.integrity,
            trailers: mail_parser::copy_trailers(&self.trailers),
        }
    }
}

/// The texts of a list of entries.
pub open spec fn entry_views(v: Seq<ReviewInboxEntry>) -> Seq<EntryView> {
    Seq::new(v.len(), |i: int| v[i]@)
}

// ---------------------------------------------------------------------------
// Review status
// ---------------------------------------------------------------------------

/// Whether a trailer kind counts as review.
pub open spec fn review_kind(kind: Seq<char>) -> bool {
    text::same_letters("Reviewed-by"@, kind) || text::same_letters("Acked-by"@, kind) || text::same_letters(
        "Tested-by"@,
        kind,
    )
}

/// Whether some trailer says that the series was reviewed.
pub open spec fn reviewed(trailers: Seq<TrailerView>) -> bool {
    exists|i: int|
        0 <= i < trailers.len() && text::same_letters((#[trigger] trailers[i]).kind, "Reviewed-by"@)
}

/// The trailers that count as review.
pub open spec fn reviews(trailers: Seq<TrailerView>) -> Seq<TrailerView>
    decreases trailers.len(),
{
    if trailers.len() == 0 {
        seq![]
    } else if review_kind(trailers.last().kind) {
        reviews(trailers.drop_last()).push(trailers.last())
    } else {
        reviews(trailers.drop_last())
    }
}

/// Whether an entry belongs into a view of the inbox.
pub open spec fn shown_in(trailers: Seq<TrailerView>, mode: ReviewInboxMode) -> bool {
    match mode {
        ReviewInboxMode::NeedsReview => !reviewed(trailers),
        ReviewInboxMode::Reviewed => reviewed(trailers),
        ReviewInboxMode::All => true,
    }
}

/// The word for the status of an entry.
pub open spec fn status_word(trailers: Seq<TrailerView>) -> Seq<char> {
    if reviewed(trailers) {
        "reviewed"@
    } else {
        "needs-review"@
    }
}

/// The word for a view of the inbox.
pub open spec fn mode_word(mode: ReviewInboxMode) -> Seq<char> {
    match mode {
        ReviewInboxMode::NeedsReview => "needs-review"@,
        ReviewInboxMode::Reviewed => "reviewed"@,
        ReviewInboxMode::All => "all"@,
    }
}

/// The values of one kind of trailer.
#[derive(Debug)]
pub struct TrailerGroup {
    pub kind: String,
    pub values: Vec<String>,
}

/// The texts of a trailer group.
#[verifier::ext_equal]
pub struct GroupText {
    pub kind: Seq<char>,
    pub values: Seq<Seq<char>>,
}

impl View for TrailerGroup {
    type V = GroupText;

    open spec fn view(&self) -> GroupText {
        GroupText { kind: self.kind@, values: text::texts(self.values@) }
    }
}

/// The texts of a list of trailer groups.
pub open spec fn group_texts(v: Seq<TrailerGroup>) -> Seq<GroupText> {
    Seq::new(v.len(), |i: int| v[i]@)
}

/// A value added to a list, unless it stands there.
pub open spec fn value_added(values: Seq<Seq<char>>, value: Seq<char>) -> Seq<Seq<char>> {
    if values.contains(value) {
        values
    } else {
        values.push(value)
    }
}

/// Groups in dictionary order of their kinds, with one more trailer.
pub open spec fn trailer_added(
    groups: Seq<GroupText>,
    kind: Seq<char>,
    value: Seq<char>,
) -> Seq<GroupText>
    decreases groups.len(),
{
    if groups.len() == 0 {
        seq![GroupText { kind, values: seq![value] }]
    } else {
        let last = groups.last();
        if last.kind == kind {
            groups.drop_last().push(GroupText { kind, values: value_added(last.values, value) })
        } else if text::precedes(last.kind, kind) {
            groups.push(GroupText { kind, values: seq![value] })
        } else {
            trailer_added(groups.drop_last(), kind, value).push(last)
        }
    }
}

/// The review trailers by kind: kinds in dictionary order, the values of each
/// in the order of their first appearance.
pub open spec fn grouped_reviews(trailers: Seq<TrailerView>) -> Seq<GroupText>
    decreases trailers.len(),
{
    if trailers.len() == 0 {
        seq![]
    } else {
        let before = grouped_reviews(trailers.drop_last());
        let trailer = trailers.last();
        if review_kind(trailer.kind) {
            trailer_added(before, trailer.kind, trailer.value)
        } else {
            before
        }
    }
}

/// Decides whether a trailer kind counts as review.
pub fn is_review_trailer_kind(kind: &str) -> (r: bool)
    ensures
        r == review_kind(kind@),
{
    text::same_str_ignoring_case("Reviewed-by", kind) || text::same_str_ignoring_case("Acked-by", kind)
        || text::same_str_ignoring_case("Tested-by", kind)
}

/// The word for a view of the inbox.
pub fn mode_label(mode: ReviewInboxMode) -> (r: &'static str)
    ensures
        r@ == mode_word(mode),
{
    match mode {
        ReviewInboxMode::NeedsReview => "needs-review",
        ReviewInboxMode::Reviewed => "reviewed",
        ReviewInboxMode::All => "all",
    }
}

/// Adds one trailer to groups in dictionary order.
fn add_trailer(groups: &mut Vec<TrailerGroup>, kind: &String, value: &String)
    ensures
        group_texts(final(groups)@) == trailer_added(group_texts(old(groups)@), kind@, value@),
{
    let ghost all = group_texts(groups@);
    let ghost concrete = groups@;
    let wanted = text::chars_of(kind.as_str());
    let mut i: usize = groups.len();
    assert(all.take(i as int) == all);
    assert(all.skip(i as int) == Seq::<GroupText>::empty());
    assert(trailer_added(all, kind@, value@) == trailer_added(all.take(i as int), kind@, value@)
        + all.skip(i as int));
    let mut placed = false;
    while i > 0 && !placed
        invariant
            i <= groups.len(),
            groups@ == concrete,
            all == group_texts(concrete),
            all == group_texts(old(groups)@),
            placed ==> i > 0 && all[i - 1].kind != kind@ && text::precedes(all[i - 1].kind, kind@),
            wanted@ == kind@,
            trailer_added(all, kind@, value@) == trailer_added(
                all.take(i as int),
                kind@,
                value@,
            ) + all.skip(i as int),
        decreases
                i + if placed {
                    0int
                } else {
                    1int
                },
    {
        let ghost front = all.take(i as int);
        assert(front.last() == concrete[i - 1]@);
        assert(front.drop_last() == all.take(i - 1));
        if groups[i - 1].kind == *kind {
            if !text::holds(&groups[i - 1].values, value) {
                let ghost was = groups@[i - 1].values@;
                groups[i - 1].values.push(value.clone());
                assert(text::texts(groups@[i - 1].values@) == text::texts(was).push(value@));
            }
            assert(groups@[i - 1]@.values == value_added(front.last().values, value@));
            assert(group_texts(groups@) == trailer_added(front, kind@, value@) + all.skip(
                i as int,
            ));
            return ;
        }
        let present = text::chars_of(groups[i - 1].kind.as_str());
        if text::comes_before(present.as_slice(), wanted.as_slice()) {
            placed = true;
        } else {
            assert(trailer_added(front, kind@, value@) == trailer_added(
                front.drop_last(),
                kind@,
                value@,
            ).push(front.last()));
            assert(trailer_added(front, kind@, value@) + all.skip(i as int) == trailer_added(
                all.take(i - 1),
                kind@,
                value@,
            ) + all.skip(i - 1));
            i -= 1;
        }
    }
    let mut values: Vec<String> = Vec::new();
    values.push(value.clone());
    assert(text::texts(values@) == seq![value@]);
    let group = TrailerGroup { kind: kind.clone(), values };
    groups.insert(i, group);
    proof {
        let front = all.take(i as int);
        if i > 0 {
            assert(front.last() == all[i - 1]);
        }
        assert(trailer_added(front, kind@, value@) == front.push(group@));
    }
    assert(group_texts(groups@) == all.take(i as int).push(group@) + all.skip(i as int));
}

impl ReviewInboxEntry {
    /// Whether some mail of the thread says that the series was reviewed.
    pub fn has_reviewed_by(&self) -> (r: bool)
        ensures
            r == reviewed(self@.trailers),
            r <==> exists|i: int|
                0 <= i < self.trailers@.len() && text::same_letters(
                    (#[trigger] self.trailers@[i]).kind@,
                    "Reviewed-by"@,
                ),
    {
        let ghost views = self@.trailers;
        let mut i: usize = 0;
        while i < self.trailers.len()
            invariant
                i <= self.trailers.len(),
                views == self@.trailers,
                forall|j: int|
                    0 <= j < i ==> !text::same_letters((#[trigger] views[j]).kind, "Reviewed-by"@),
                forall|j: int|
                    0 <= j < i ==> !text::same_letters(
                        (#[trigger] self.trailers@[j]).kind@,
                        "Reviewed-by"@,
                    ),
            decreases self.trailers.len() - i,
        {
            assert(views[i as int] == self.trailers@[i as int]@);
            if text::same_str_ignoring_case(self.trailers[i].kind.as_str(), "Reviewed-by") {
                return true;
            }
            i += 1;
        }
        false
    }

    /// How many trailers count as review.
    pub fn review_count(&self) -> (r: usize)
        ensures
            r == reviews(self@.trailers).len(),
    {
        let ghost views = self@.trailers;
        let mut count: usize = 0;
        let mut i: usize = 0;
        assert(reviews(views.take(0)).len() == 0);
        while i < self.trailers.len()
            invariant
                i <= self.trailers.len(),
                views == self@.trailers,
                count == reviews(views.take(i as int)).len(),
                count <= i,
            decreases self.trailers.len() - i,
        {
            assert(views.take(i + 1).drop_last() == views.take(i as int));
            assert(views.take(i + 1).last() == self.trailers@[i as int]@);
            if is_review_trailer_kind(self.trailers[i].kind.as_str()) {
                count += 1;
            }
            i += 1;
        }
        assert(views.take(i as int) == views);
        count
    }

    /// The word for the status of the entry.
    pub fn status_label(&self) -> (r: &'static str)
        ensures
            r@ == status_word(self@.trailers),
    {
        if self.has_reviewed_by() {
            "reviewed"
        } else {
            "needs-review"
        }
    }

    /// Whether the entry belongs into a view of the inbox.
    pub fn matches_mode(&self, mode: ReviewInboxMode) -> (r: bool)
        ensures
            r == shown_in(self@.trailers, mode),
    {
        match mode {
            ReviewInboxMode::NeedsReview => !self.has_reviewed_by(),
            ReviewInboxMode::Reviewed => self.has_reviewed_by(),
            ReviewInboxMode::All => true,
        }
    }

    /// The review trailers by kind, each value once.
    pub fn trailer_groups(&self) -> (r: Vec<TrailerGroup>)
        ensures
            group_texts(r@) == grouped_reviews(self@.trailers),
    {
        let ghost views = self@.trailers;
        let mut groups: Vec<TrailerGroup> = Vec::new();
        let mut i: usize = 0;
        assert(group_texts(groups@) == grouped_reviews(views.take(0)));
        while i < self.trailers.len()
            invariant
                i <= self.trailers.len(),
                views == self@.trailers,
                group_texts(groups@) == grouped_reviews(views.take(i as int)),
            decreases self.trailers.len() - i,
        {
            assert(views.take(i + 1).drop_last() == views.take(i as int));
            assert(views.take(i + 1).last() == self.trailers@[i as int]@);
            let trailer = &self.trailers[i];
            if is_review_trailer_kind(trailer.kind.as_str()) {
                add_trailer(&mut groups, &trailer.kind, &trailer.value);
            }
            i += 1;
        }
        assert(views.take(i as int) == views);
        groups
    }
}

// ---------------------------------------------------------------------------
// The index and the inbox
// ---------------------------------------------------------------------------

/// The entry of a thread: its series with its trailers.
pub open spec fn entry_of(
    thread_id: i64,
    series: SeriesSummary,
    trailers: Map<i64, Vec<ParsedTrailer>>,
) -> EntryView {
    EntryView {
        thread_id,
        subject: series.subject@,
        anchor_message_id: series.anchor_message_id@,
        version: series.version,
        present_count: series.present_count,
        expected_total: series.expected_total,
        integrity: series.integrity,
        trailers: if trailers.contains_key(thread_id) {
            mail_parser::trailer_views(trailers[thread_id]@)
        } else {
            seq![]
        },
    }
}

/// The texts of an index of entries.
pub open spec fn index_view(index: Map<i64, ReviewInboxEntry>) -> Map<i64, EntryView> {
    index.map_values(|entry: ReviewInboxEntry| entry@)
}

/// The threads of a list of rows.
pub open spec fn thread_ids(rows: Seq<ThreadRow>) -> Seq<i64> {
    Seq::new(rows.len(), |i: int| rows[i].thread_id)
}

/// The entries of the inbox: the threads in the order of their first row, as
/// far as they hold a series that belongs into the view.
pub open spec fn inbox_of(
    ids: Seq<i64>,
    index: Map<i64, EntryView>,
    mode: ReviewInboxMode,
) -> Seq<EntryView>
    decreases ids.len(),
{
    if ids.len() == 0 {
        seq![]
    } else {
        let before = inbox_of(ids.drop_last(), index, mode);
        let id = ids.last();
        if !ids.drop_last().contains(id) && index.contains_key(id) && shown_in(
            index[id].trailers,
            mode,
        ) {
            before.push(index[id])
        } else {
            before
        }
    }
}

/// Builds the entry of a thread.
fn build_entry(
    thread_id: i64,
    series: &SeriesSummary,
    trailers: &HashMap<i64, Vec<ParsedTrailer>>,
) -> (r: ReviewInboxEntry)
    ensures
        r@ == entry_of(thread_id, *series, trailers@),
{
    broadcast use vstd::std_specs::hash::group_hash_axioms;

    let found = match trailers.get(&thread_id) {
        Some(found) => mail_parser::copy_trailers(found),
        None => {
            let none: Vec<ParsedTrailer> = Vec::new();
            assert(mail_parser::trailer_views(none@) == Seq::<TrailerView>::empty());
            none
        },
    };
    ReviewInboxEntry {
        thread_id,
        subject: series.subject.clone(),
        anchor_message_id: series.anchor_message_id.clone(),
        version: series.version,
        present_count: series.present_count,
        expected_total: series.expected_total,
        integrity: series.integrity,
        trailers: found,
    }
}

/// Joins the patch series of the threads with their trailers.
pub fn build_review_index(
    series_by_thread: HashMap<i64, SeriesSummary>,
    trailers_by_thread: HashMap<i64, Vec<ParsedTrailer>>,
) -> (r: HashMap<i64, ReviewInboxEntry>)
    ensures
        index_view(r@) == Map::new(
            |id: i64| series_by_thread@.contains_key(id),
            |id: i64| entry_of(id, series_by_thread@[id], trailers_by_thread@),
        ),
{
    broadcast use vstd::std_specs::hash::group_hash_axioms;

    let entries = series_by_thread.iter();
    let ghost items = vstd::std_specs::iter::IteratorSpec::remaining(&entries);
    let mut out: HashMap<i64, ReviewInboxEntry> = HashMap::new();
    for entry in it: entries
        invariant
            it.seq() == items,
            forall|i: int|
                0 <= i < items.len() ==> series_by_thread@.contains_key(*(#[trigger] items[i]).0)
                    && series_by_thread@[*items[i].0] == *items[i].1,
            forall|id: i64| #[trigger]
                out@.contains_key(id) ==> series_by_thread@.contains_key(id) && out@[id]@
                    == entry_of(id, series_by_thread@[id], trailers_by_thread@),
            forall|i: int|
                0 <= i < it.index() ==> out@.contains_key(*(#[trigger] items[i]).0),
    {
        let built = build_entry(*entry.0, entry.1, &trailers_by_thread);
        out.insert(*entry.0, built);
    }
    proof {
        let wanted = Map::new(
            |id: i64| series_by_thread@.contains_key(id),
            |id: i64| entry_of(id, series_by_thread@[id], trailers_by_thread@),
        );
        assert forall|id: i64| series_by_thread@.contains_key(id) implies out@.contains_key(id) by {
            assert(items.contains((&id, &series_by_thread@[id])));
            let i = choose|i: int|
                0 <= i < items.len() && items[i] == (&id, &series_by_thread@[id]);
            assert(*items[i].0 == id);
        }
        assert(index_view(out@) == wanted);
    }
    out
}

/// Lists the entries of the inbox that belong into a view.
pub fn load_review_inbox(
    threads: Vec<ThreadRow>,
    index: HashMap<i64, ReviewInboxEntry>,
    mode: ReviewInboxMode,
) -> (r: Vec<ReviewInboxEntry>)
    ensures
        entry_views(r@) == inbox_of(thread_ids(threads@), index_view(index@), mode),
{
    broadcast use vstd::std_specs::hash::group_hash_axioms;

    let ghost ids = thread_ids(threads@);
    let ghost view = index_view(index@);
    let mut seen: HashSet<i64> = HashSet::new();
    let mut out: Vec<ReviewInboxEntry> = Vec::new();
    let mut i: usize = 0;
    assert(entry_views(out@) == inbox_of(ids.take(0), view, mode));
    while i < threads.len()
        invariant
            i <= threads.len(),
            ids == thread_ids(threads@),
            view == index_view(index@),
            forall|id: i64| seen@.contains(id) <==> ids.take(i as int).contains(id),
            entry_views(out@) == inbox_of(ids.take(i as int), view, mode),
        decreases threads.len() - i,
    {
        let ghost before = out@;
        let ghost front = ids.take(i as int);
        let id = threads[i].thread_id;
        assert(ids.take(i + 1).drop_last() == front);
        assert(ids.take(i + 1).last() == id);
        let fresh = seen.insert(id);
        if fresh {
            if let Some(entry) = index.get(&id) {
                assert(view[id] == entry@);
                if entry.matches_mode(mode) {
                    let copy = entry.clone();
                    out.push(copy);
                    assert(entry_views(out@) == entry_views(before).push(entry@));
                }
            }
        }
        assert forall|k: i64| seen@.contains(k) <==> ids.take(i + 1).contains(k) by {
            let next = ids.take(i + 1);
            if front.contains(k) {
                let j = choose|j: int| 0 <= j < front.len() && front[j] == k;
                assert(next[j] == k);
            }
            if k == id {
                assert(next[i as int] == k);
            }
            if next.contains(k) {
                let j = choose|j: int| 0 <= j < next.len() && next[j] == k;
                if j < i {
                    assert(front[j] == k);
                }
            }
        }
        i += 1;
    }
    assert(ids.take(i as int) == ids);
    out
}

// ---------------------------------------------------------------------------
// The report
// ---------------------------------------------------------------------------

/// The first line of the report.
pub open spec fn report_header(mailbox: Seq<char>, mode: ReviewInboxMode, count: nat) -> Seq<char> {
    "Review Inbox: mailbox="@ + mailbox + " mode="@ + mode_word(mode) + " entries="@ + text::decimal(
        count,
    )
}

/// The line that sums an entry up.
pub open spec fn entry_line(entry: EntryView) -> Seq<char> {
    "thread="@ + text::decimal_int(entry.thread_id as int) + " status="@ + status_word(entry.trailers)
        + " patch=v"@ + text::decimal(entry.version as nat) + " "@ + text::decimal(entry.present_count as nat)
        + "/"@ + text::decimal(entry.expected_total as nat) + " integrity="@ + entry.integrity.word()
        + " reviews="@ + text::decimal(reviews(entry.trailers).len()) + " anchor=<"@
        + entry.anchor_message_id + "> subject="@ + entry.subject
}

/// The line of one kind of trailer.
pub open spec fn group_line(group: GroupText) -> Seq<char> {
    "  "@ + group.kind + ": "@ + text::joined(group.values, ", "@)
}

/// The lines of an entry.
pub open spec fn entry_lines(entry: EntryView) -> Seq<Seq<char>> {
    let groups = grouped_reviews(entry.trailers);
    seq![entry_line(entry)] + Seq::new(groups.len(), |i: int| group_line(groups[i]))
}

/// The lines of a list of entries.
pub open spec fn entries_lines(entries: Seq<EntryView>) -> Seq<Seq<char>>
    decreases entries.len(),
{
    if entries.len() == 0 {
        seq![]
    } else {
        entries_lines(entries.drop_last()) + entry_lines(entries.last())
    }
}

/// The lines of the report.
pub open spec fn report_lines(
    mailbox: Seq<char>,
    mode: ReviewInboxMode,
    entries: Seq<EntryView>,
) -> Seq<Seq<char>> {
    seq![report_header(mailbox, mode, entries.len())] + if entries.len() == 0 {
        seq!["(no matching patch series)"@]
    } else {
        entries_lines(entries)
    }
}

/// The report on the review inbox.
pub open spec fn report(
    mailbox: Seq<char>,
    mode: ReviewInboxMode,
    entries: Seq<EntryView>,
) -> Seq<char> {
    text::joined(report_lines(mailbox, mode, entries), "\n"@)
}

/// Writes the first line of the report.
fn write_header(mailbox: &str, mode: ReviewInboxMode, count: usize) -> (r: String)
    ensures
        r@ == report_header(mailbox@, mode, count as nat),
{
    let mut out = text::chars_of("Review Inbox: mailbox=");
    text::append_str(&mut out, mailbox);
    text::append_str(&mut out, " mode=");
    text::append_str(&mut out, mode_label(mode));
    text::append_str(&mut out, " entries=");
    text::append_number(&mut out, count as u64);
    text::string_of(out.as_slice())
}

/// Writes the line that sums an entry up.
fn write_entry(entry: &ReviewInboxEntry) -> (r: String)
    ensures
        r@ == entry_line(entry@),
{
    let mut out = text::chars_of("thread=");
    let id = text::decimal_signed_chars(entry.thread_id);
    text::append(&mut out, id.as_slice());
    text::append_str(&mut out, " status=");
    text::append_str(&mut out, entry.status_label());
    text::append_str(&mut out, " patch=v");
    text::append_number(&mut out, entry.version as u64);
    text::append_str(&mut out, " ");
    text::append_number(&mut out, entry.present_count as u64);
    text::append_str(&mut out, "/");
    text::append_number(&mut out, entry.expected_total as u64);
    text::append_str(&mut out, " integrity=");
    text::append_str(&mut out, entry.integrity.short_label());
    text::append_str(&mut out, " reviews=");
    text::append_number(&mut out, entry.review_count() as u64);
    text::append_str(&mut out, " anchor=<");
    text::append_str(&mut out, entry.anchor_message_id.as_str());
    text::append_str(&mut out, "> subject=");
    text::append_str(&mut out, entry.subject.as_str());
    text::string_of(out.as_slice())
}

/// Writes the line of one kind of trailer.
fn write_group(group: &TrailerGroup) -> (r: String)
    ensures
        r@ == group_line(group@),
{
    let mut out = text::chars_of("  ");
    text::append_str(&mut out, group.kind.as_str());
    text::append_str(&mut out, ": ");
    let comma = text::chars_of(", ");
    let values = text::join_strings(&group.values, comma.as_slice());
    text::append(&mut out, values.as_slice());
    text::string_of(out.as_slice())
}

/// Appends the lines of an entry.
fn append_entry(lines: &mut Vec<String>, entry: &ReviewInboxEntry)
    ensures
        text::texts(final(lines)@) == text::texts(old(lines)@) + entry_lines(entry@),
{
    let ghost before = lines@;
    let first = write_entry(entry);
    lines.push(first);
    let groups = entry.trailer_groups();
    let ghost views = group_texts(groups@);
    let ghost all = Seq::new(views.len(), |i: int| group_line(views[i]));
    let mut i: usize = 0;
    assert(text::texts(lines@) == text::texts(before) + (seq![first@] + all.take(0)));
    while i < groups.len()
        invariant
            i <= groups.len(),
            views == group_texts(groups@),
            all == Seq::new(views.len(), |i: int| group_line(views[i])),
            text::texts(lines@) == text::texts(before) + (seq![first@] + all.take(i as int)),
        decreases groups.len() - i,
    {
        let ghost so_far = lines@;
        assert(views[i as int] == groups@[i as int]@);
        let line = write_group(&groups[i]);
        lines.push(line);
        assert(text::texts(lines@) == text::texts(so_far).push(line@));
        assert(all.take(i + 1) == all.take(i as int).push(all[i as int]));
        assert(text::texts(lines@) == text::texts(before) + (seq![first@] + all.take(i + 1)));
        i += 1;
    }
    assert(all.take(i as int) == all);
}

/// Writes the report on the review inbox.
pub fn format_review_inbox(
    mailbox: &str,
    mode: ReviewInboxMode,
    entries: &[ReviewInboxEntry],
) -> (r: String)
    ensures
        r@ == report(mailbox@, mode, entry_views(entries@)),
{
    let ghost views = entry_views(entries@);
    let mut lines: Vec<String> = Vec::new();
    let header = write_header(mailbox, mode, entries.len());
    lines.push(header);
    assert(text::texts(lines@) == seq![header@]);
    let feed = text::chars_of("\n");
    if entries.len() == 0 {
        let none = "(no matching patch series)".to_string();
        lines.push(none);
        assert(text::texts(lines@) == report_lines(mailbox@, mode, views));
        let all = text::join_strings(&lines, feed.as_slice());
        return text::string_of(all.as_slice());
    }
    let mut i: usize = 0;
    assert(text::texts(lines@) == seq![header@] + entries_lines(views.take(0)));
    while i < entries.len()
        invariant
            i <= entries.len(),
            views == entry_views(entries@),
            text::texts(lines@) == seq![header@] + entries_lines(views.take(i as int)),
        decreases entries.len() - i,
    {
        assert(views.take(i + 1).drop_last() == views.take(i as int));
        assert(views.take(i + 1).last() == entries@[i as int]@);
        append_entry(&mut lines, &entries[i]);
        assert(text::texts(lines@) == seq![header@] + entries_lines(views.take(i + 1)));
        i += 1;
    }
    assert(views.take(i as int) == views);
    let all = text::join_strings(&lines, feed.as_slice());
    text::string_of(all.as_slice())
}

// ---------------------------------------------------------------------------
// Laws
// ---------------------------------------------------------------------------

/// Every entry is shown in exactly one of the two queues, and always among all
/// entries. An entry in the reviewed queue has at least one review.
pub proof fn law_queues_divide_the_inbox(trailers: Seq<TrailerView>)
    ensures
        shown_in(trailers, ReviewInboxMode::NeedsReview) != shown_in(
            trailers,
            ReviewInboxMode::Reviewed,
        ),
        shown_in(trailers, ReviewInboxMode::All),
        shown_in(trailers, ReviewInboxMode::Reviewed) ==> reviews(trailers).len() > 0,
        reviews(trailers).len() <= trailers.len(),
{
    lemma_reviews(trailers);
}

/// A reviewed thread has a trailer that counts.
proof fn lemma_reviews(trailers: Seq<TrailerView>)
    ensures
        reviewed(trailers) ==> reviews(trailers).len() > 0,
        reviews(trailers).len() <= trailers.len(),
    decreases trailers.len(),
{
    if trailers.len() > 0 {
        let init = trailers.drop_last();
        lemma_reviews(init);
        if reviewed(trailers) && !review_kind(trailers.last().kind) {
            let i = choose|i: int|
                0 <= i < trailers.len() && text::same_letters(
                    (#[trigger] trailers[i]).kind,
                    "Reviewed-by"@,
                );
            assert(i < init.len());
            assert(init[i] == trailers[i]);
        }
    }
}

/// Whether kinds stand in dictionary order, each once, and no value of a kind
/// stands twice.
pub open spec fn well_grouped(groups: Seq<GroupText>) -> bool {
    &&& forall|i: int, j: int|
        0 <= i < j < groups.len() ==> text::precedes(
            (#[trigger] groups[i]).kind,
            (#[trigger] groups[j]).kind,
        )
    &&& forall|i: int|
        0 <= i < groups.len() ==> (#[trigger] groups[i]).values.no_duplicates()
            && groups[i].values.len() > 0 && review_kind(groups[i].kind)
}

/// Whether a value of a kind stands in the groups.
pub open spec fn grouped_under(
    groups: Seq<GroupText>,
    kind: Seq<char>,
    value: Seq<char>,
) -> bool {
    exists|i: int|
        0 <= i < groups.len() && (#[trigger] groups[i]).kind == kind && groups[i].values.contains(
            value,
        )
}

/// The groups hold the review trailers and nothing else: kinds in dictionary
/// order, each once, and every value once.
pub proof fn law_groups_hold_the_reviews(trailers: Seq<TrailerView>)
    ensures
        well_grouped(grouped_reviews(trailers)),
        forall|kind: Seq<char>, value: Seq<char>|
            #![trigger grouped_under(grouped_reviews(trailers), kind, value)]
            grouped_under(grouped_reviews(trailers), kind, value) <==> reviews(trailers).contains(
                TrailerView { kind, value },
            ),
    decreases trailers.len(),
{
    if trailers.len() > 0 {
        let init = trailers.drop_last();
        let trailer = trailers.last();
        law_groups_hold_the_reviews(init);
        let before = grouped_reviews(init);
        let after = grouped_reviews(trailers);
        let was = reviews(init);
        let now = reviews(trailers);
        if review_kind(trailer.kind) {
            lemma_trailer_added(before, trailer.kind, trailer.value);
            assert forall|kind: Seq<char>, value: Seq<char>|
                #![trigger grouped_under(after, kind, value)]
                grouped_under(after, kind, value) <==> now.contains(TrailerView { kind, value }) by {
                let t = TrailerView { kind, value };
                assert(grouped_under(after, kind, value) <==> (grouped_under(before, kind, value)
                    || (kind == trailer.kind && value == trailer.value)));
                if was.contains(t) {
                    let i = choose|i: int| 0 <= i < was.len() && was[i] == t;
                    assert(now[i] == t);
                }
                if t == trailer {
                    assert(now[was.len() as int] == t);
                }
                if now.contains(t) {
                    let i = choose|i: int| 0 <= i < now.len() && now[i] == t;
                    if i < was.len() {
                        assert(was[i] == t);
                    }
                }
            }
        }
    }
}

/// Adding a trailer keeps the groups in order and adds just that trailer.
proof fn lemma_trailer_added(groups: Seq<GroupText>, kind: Seq<char>, value: Seq<char>)
    requires
        well_grouped(groups),
        review_kind(kind),
    ensures
        well_grouped(trailer_added(groups, kind, value)),
        forall|k: Seq<char>, v: Seq<char>|
            #![trigger grouped_under(trailer_added(groups, kind, value), k, v)]
            grouped_under(trailer_added(groups, kind, value), k, v) <==> grouped_under(groups, k, v)
                || (k == kind && v == value),
        forall|i: int|
            0 <= i < trailer_added(groups, kind, value).len() ==> (#[trigger] trailer_added(
                groups,
                kind,
                value,
            )[i]).kind == kind || exists|j: int|
                0 <= j < groups.len() && (#[trigger] groups[j]).kind == trailer_added(
                    groups,
                    kind,
                    value,
                )[i].kind,
    decreases groups.len(),
{
    let after = trailer_added(groups, kind, value);
    let fresh = GroupText { kind, values: seq![value] };
    if groups.len() == 0 {
        assert(after == seq![fresh]);
        assert forall|k: Seq<char>, v: Seq<char>|
            #![trigger grouped_under(after, k, v)]
            grouped_under(after, k, v) <==> grouped_under(groups, k, v) || (k == kind && v
                == value) by {
            if k == kind && v == value {
                assert(after[0].values[0] == value);
                assert(after[0].kind == kind);
            }
        }
    } else {
        let init = groups.drop_last();
        let last = groups.last();
        let n = init.len() as int;
        assert forall|i: int| 0 <= i < n implies #[trigger] init[i] == groups[i] by {}
        assert(well_grouped(init));
        if last.kind == kind {
            let merged = GroupText { kind, values: value_added(last.values, value) };
            assert(after == init.push(merged));
            assert forall|i: int, j: int| 0 <= i < j < after.len() implies text::precedes(
                (#[trigger] after[i]).kind,
                (#[trigger] after[j]).kind,
            ) by {
                assert(after[i].kind == groups[i].kind);
                assert(after[j].kind == groups[j].kind);
            }
            assert forall|i: int| 0 <= i < after.len() implies (
            #[trigger] after[i]).values.no_duplicates() && after[i].values.len() > 0
                && review_kind(after[i].kind) by {
                if i < n {
                    assert(after[i] == groups[i]);
                } else {
                    assert(groups[n].values.no_duplicates());
                }
            }
            assert forall|k: Seq<char>, v: Seq<char>|
                #![trigger grouped_under(after, k, v)]
                grouped_under(after, k, v) <==> grouped_under(groups, k, v) || (k == kind && v
                    == value) by {
                lemma_value_added(last.values, value, v);
                if grouped_under(groups, k, v) {
                    let i = choose|i: int|
                        0 <= i < groups.len() && (#[trigger] groups[i]).kind == k
                            && groups[i].values.contains(v);
                    assert(after[i].kind == k && after[i].values.contains(v));
                }
                if k == kind && v == value {
                    assert(after[n].kind == k && after[n].values.contains(v));
                }
                if grouped_under(after, k, v) {
                    let i = choose|i: int|
                        0 <= i < after.len() && (#[trigger] after[i]).kind == k
                            && after[i].values.contains(v);
                    if i < n {
                        assert(groups[i].kind == k && groups[i].values.contains(v));
                    } else {
                        assert(groups[n].kind == k);
                    }
                }
            }
        } else if text::precedes(last.kind, kind) {
            assert(after == groups.push(fresh));
            assert forall|i: int, j: int| 0 <= i < j < after.len() implies text::precedes(
                (#[trigger] after[i]).kind,
                (#[trigger] after[j]).kind,
            ) by {
                assert(after[i] == groups[i]);
                if j < groups.len() {
                    assert(after[j] == groups[j]);
                } else if i < n {
                    assert(text::precedes(groups[i].kind, groups[n].kind));
                    text::lemma_precedes_transitive(groups[i].kind, last.kind, kind);
                }
            }
            assert forall|k: Seq<char>, v: Seq<char>|
                #![trigger grouped_under(after, k, v)]
                grouped_under(after, k, v) <==> grouped_under(groups, k, v) || (k == kind && v
                    == value) by {
                if grouped_under(groups, k, v) {
                    let i = choose|i: int|
                        0 <= i < groups.len() && (#[trigger] groups[i]).kind == k
                            && groups[i].values.contains(v);
                    assert(after[i].kind == k && after[i].values.contains(v));
                }
                if k == kind && v == value {
                    assert(after[n + 1].kind == k && after[n + 1].values[0] == v);
                }
                if grouped_under(after, k, v) {
                    let i = choose|i: int|
                        0 <= i < after.len() && (#[trigger] after[i]).kind == k
                            && after[i].values.contains(v);
                    if i <= n {
                        assert(groups[i].kind == k && groups[i].values.contains(v));
                    }
                }
            }
        } else {
            text::lemma_precedes_total(last.kind, kind);
            lemma_trailer_added(init, kind, value);
            let inner = trailer_added(init, kind, value);
            assert(after == inner.push(last));
            let m = inner.len() as int;
            assert forall|i: int, j: int| 0 <= i < j < after.len() implies text::precedes(
                (#[trigger] after[i]).kind,
                (#[trigger] after[j]).kind,
            ) by {
                assert(after[i] == inner[i]);
                if j < m {
                    assert(after[j] == inner[j]);
                } else if inner[i].kind != kind {
                    let k = choose|k: int|
                        0 <= k < init.len() && (#[trigger] init[k]).kind == inner[i].kind;
                    assert(text::precedes(groups[k].kind, groups[n].kind));
                }
            }
            assert forall|i: int| 0 <= i < after.len() implies (
            #[trigger] after[i]).values.no_duplicates() && after[i].values.len() > 0
                && review_kind(after[i].kind) by {
                if i < m {
                    assert(after[i] == inner[i]);
                } else {
                    assert(after[i] == groups[n]);
                }
            }
            assert forall|i: int| 0 <= i < after.len() implies (#[trigger] after[i]).kind == kind
                || exists|j: int| 0 <= j < groups.len() && (#[trigger] groups[j]).kind
                == after[i].kind by {
                if i < m {
                    assert(after[i] == inner[i]);
                    if inner[i].kind != kind {
                        let k = choose|k: int|
                            0 <= k < init.len() && (#[trigger] init[k]).kind == inner[i].kind;
                        assert(groups[k].kind == after[i].kind);
                    }
                } else {
                    assert(groups[n].kind == after[i].kind);
                }
            }
            assert forall|k: Seq<char>, v: Seq<char>|
                #![trigger grouped_under(after, k, v)]
                grouped_under(after, k, v) <==> grouped_under(groups, k, v) || (k == kind && v
                    == value) by {
                assert(grouped_under(inner, k, v) <==> grouped_under(init, k, v) || (k == kind && v
                    == value));
                if grouped_under(groups, k, v) {
                    let i = choose|i: int|
                        0 <= i < groups.len() && (#[trigger] groups[i]).kind == k
                            && groups[i].values.contains(v);
                    if i < n {
                        assert(init[i].kind == k && init[i].values.contains(v));
                        assert(grouped_under(init, k, v));
                    } else {
                        assert(after[m].kind == k && after[m].values.contains(v));
                    }
                }
                if grouped_under(inner, k, v) {
                    let i = choose|i: int|
                        0 <= i < inner.len() && (#[trigger] inner[i]).kind == k
                            && inner[i].values.contains(v);
                    assert(after[i].kind == k && after[i].values.contains(v));
                }
                if grouped_under(after, k, v) {
                    let i = choose|i: int|
                        0 <= i < after.len() && (#[trigger] after[i]).kind == k
                            && after[i].values.contains(v);
                    if i < m {
                        assert(inner[i].kind == k && inner[i].values.contains(v));
                        assert(grouped_under(inner, k, v));
                        if grouped_under(init, k, v) {
                            let j = choose|j: int|
                                0 <= j < init.len() && (#[trigger] init[j]).kind == k
                                    && init[j].values.contains(v);
                            assert(groups[j].kind == k && groups[j].values.contains(v));
                        }
                    } else {
                        assert(groups[n].kind == k && groups[n].values.contains(v));
                    }
                }
            }
        }
    }
}

/// What stands in a list after a value was added.
proof fn lemma_value_added(values: Seq<Seq<char>>, value: Seq<char>, v: Seq<char>)
    ensures
        value_added(values, value).contains(v) <==> values.contains(v) || v == value,
        values.no_duplicates() ==> value_added(values, value).no_duplicates(),
{
    let after = value_added(values, value);
    if values.contains(v) {
        let i = choose|i: int| 0 <= i < values.len() && values[i] == v;
        assert(after[i] == v);
    }
    if v == value && !values.contains(value) {
        assert(after[values.len() as int] == v);
    }
    if after.contains(v) {
        let i = choose|i: int| 0 <= i < after.len() && after[i] == v;
        if i < values.len() {
            assert(values[i] == v);
        }
    }
}

/// The inbox shows no thread twice, and every entry that it shows belongs into
/// the view.
pub proof fn law_inbox_shows_each_thread_once(
    ids: Seq<i64>,
    index: Map<i64, EntryView>,
    mode: ReviewInboxMode,
)
    requires
        forall|id: i64| #[trigger] index.contains_key(id) ==> index[id].thread_id == id,
    ensures
        forall|i: int, j: int|
            0 <= i < j < inbox_of(ids, index, mode).len() ==> (#[trigger] inbox_of(
                ids,
                index,
                mode,
            )[i]).thread_id != (#[trigger] inbox_of(ids, index, mode)[j]).thread_id,
        forall|i: int|
            0 <= i < inbox_of(ids, index, mode).len() ==> {
                let entry = #[trigger] inbox_of(ids, index, mode)[i];
                &&& shown_in(entry.trailers, mode)
                &&& ids.contains(entry.thread_id)
                &&& index.contains_key(entry.thread_id)
                &&& index[entry.thread_id] == entry
            },
    decreases ids.len(),
{
    if ids.len() > 0 {
        let init = ids.drop_last();
        law_inbox_shows_each_thread_once(init, index, mode);
        let before = inbox_of(init, index, mode);
        let after = inbox_of(ids, index, mode);
        let id = ids.last();
        assert(ids[ids.len() - 1] == id);
        assert forall|i: int| 0 <= i < after.len() implies {
            let entry = #[trigger] after[i];
            &&& shown_in(entry.trailers, mode)
            &&& ids.contains(entry.thread_id)
            &&& index.contains_key(entry.thread_id)
            &&& index[entry.thread_id] == entry
        } by {
            if i < before.len() {
                assert(after[i] == before[i]);
                let k = choose|k: int| 0 <= k < init.len() && init[k] == before[i].thread_id;
                assert(ids[k] == before[i].thread_id);
            }
        }
        assert forall|i: int, j: int| 0 <= i < j < after.len() implies (
        #[trigger] after[i]).thread_id != (#[trigger] after[j]).thread_id by {
            assert(after[i] == before[i]);
            if j < before.len() {
                assert(after[j] == before[j]);
            } else {
                assert(init.contains(before[i].thread_id));
            }
        }
    }
}

/// The inbox leaves no thread out: every listed thread whose series belongs into
/// the view is shown.
pub proof fn law_inbox_leaves_no_thread_out(
    ids: Seq<i64>,
    index: Map<i64, EntryView>,
    mode: ReviewInboxMode,
    id: i64,
)
    requires
        ids.contains(id),
        index.contains_key(id),
        shown_in(index[id].trailers, mode),
    ensures
        inbox_of(ids, index, mode).contains(index[id]),
    decreases ids.len(),
{
    let init = ids.drop_last();
    let before = inbox_of(init, index, mode);
    let after = inbox_of(ids, index, mode);
    if init.contains(id) {
        law_inbox_leaves_no_thread_out(init, index, mode, id);
        let k = choose|k: int| 0 <= k < before.len() && before[k] == index[id];
        assert(after[k] == index[id]);
    } else {
        let i = choose|i: int| 0 <= i < ids.len() && ids[i] == id;
        if i < init.len() {
            assert(init[i] == id);
        }
        assert(after[before.len() as int] == index[id]);
    }
}

/// A series stays in the queue until a trailer spells `Reviewed-by`, in any case:
/// no other kind takes it out, be it as telling as `Acked-by` or `Tested-by`.
pub proof fn law_only_reviewed_by_ends_the_wait(trailers: Seq<TrailerView>)
    ensures
        (forall|i: int|
            0 <= i < trailers.len() ==> text::lowered((#[trigger] trailers[i]).kind)
                != "reviewed-by"@) ==> shown_in(trailers, ReviewInboxMode::NeedsReview)
            && !shown_in(trailers, ReviewInboxMode::Reviewed) && status_word(trailers)
            == "needs-review"@,
        (forall|i: int|
            0 <= i < trailers.len() ==> (#[trigger] trailers[i]).kind == "Acked-by"@
                || trailers[i].kind == "Tested-by"@) ==> shown_in(
            trailers,
            ReviewInboxMode::NeedsReview,
        ) && !shown_in(trailers, ReviewInboxMode::Reviewed) && status_word(trailers)
            == "needs-review"@,
        forall|i: int|
            0 <= i < trailers.len() && text::lowered((#[trigger] trailers[i]).kind)
                == "reviewed-by"@ ==> shown_in(trailers, ReviewInboxMode::Reviewed) && !shown_in(
                trailers,
                ReviewInboxMode::NeedsReview,
            ) && status_word(trailers) == "reviewed"@,
        shown_in(trailers, ReviewInboxMode::All),
{
    reveal_strlit("Reviewed-by");
    reveal_strlit("reviewed-by");
    reveal_strlit("Acked-by");
    reveal_strlit("Tested-by");
    assert(text::lowered("Reviewed-by"@) =~= "reviewed-by"@);
    if forall|i: int|
        0 <= i < trailers.len() ==> (#[trigger] trailers[i]).kind == "Acked-by"@
            || trailers[i].kind == "Tested-by"@ {
        assert forall|i: int| 0 <= i < trailers.len() implies text::lowered(
            (#[trigger] trailers[i]).kind,
        ) != "reviewed-by"@ by {
            assert(text::lowered(trailers[i].kind).len() == trailers[i].kind.len());
        }
    }
}

/// A trailer of another kind changes no status.
pub proof fn law_other_trailers_change_no_status(
    trailers: Seq<TrailerView>,
    trailer: TrailerView,
    mode: ReviewInboxMode,
)
    requires
        !text::same_letters(trailer.kind, "Reviewed-by"@),
    ensures
        shown_in(trailers.push(trailer), mode) == shown_in(trailers, mode),
        status_word(trailers.push(trailer)) == status_word(trailers),
{
    let more = trailers.push(trailer);
    if reviewed(trailers) {
        let i = choose|i: int|
            0 <= i < trailers.len() && text::same_letters(
                (#[trigger] trailers[i]).kind,
                "Reviewed-by"@,
            );
        assert(more[i] == trailers[i]);
    }
    if reviewed(more) {
        let i = choose|i: int|
            0 <= i < more.len() && text::same_letters((#[trigger] more[i]).kind, "Reviewed-by"@);
        assert(more[i] == trailers[i]);
    }
}

/// Three kinds count as review, in any case, and no others.
pub proof fn law_three_kinds_count_as_review(kind: Seq<char>)
    ensures
        review_kind(kind) <==> text::lowered(kind) == "reviewed-by"@ || text::lowered(kind)
            == "acked-by"@ || text::lowered(kind) == "tested-by"@,
{
    reveal_strlit("Reviewed-by");
    reveal_strlit("reviewed-by");
    reveal_strlit("Acked-by");
    reveal_strlit("acked-by");
    reveal_strlit("Tested-by");
    reveal_strlit("tested-by");
    assert(text::lowered("Reviewed-by"@) =~= "reviewed-by"@);
    assert(text::lowered("Acked-by"@) =~= "acked-by"@);
    assert(text::lowered("Tested-by"@) =~= "tested-by"@);
}

/// Reviews are counted trailer by trailer: those of two lists together are those
/// of the one and those of the other, and a single trailer counts as one exactly
/// when it spells a kind that counts as review.
pub proof fn law_reviews_add_up(a: Seq<TrailerView>, b: Seq<TrailerView>, trailer: TrailerView)
    ensures
        reviews(a + b) == reviews(a) + reviews(b),
        text::same_letters(trailer.kind, "Reviewed-by"@) || text::same_letters(
            trailer.kind,
            "Acked-by"@,
        ) || text::same_letters(trailer.kind, "Tested-by"@) ==> reviews(seq![trailer]) == seq![
            trailer,
        ],
        !text::same_letters(trailer.kind, "Reviewed-by"@) && !text::same_letters(
            trailer.kind,
            "Acked-by"@,
        ) && !text::same_letters(trailer.kind, "Tested-by"@) ==> reviews(seq![trailer]) == Seq::<
            TrailerView,
        >::empty(),
    decreases b.len(),
{
    assert(seq![trailer].drop_last() == Seq::<TrailerView>::empty());
    assert(reviews(Seq::<TrailerView>::empty()) == Seq::<TrailerView>::empty());
    if b.len() == 0 {
        assert(a + b == a);
    } else {
        law_reviews_add_up(a, b.drop_last(), trailer);
        assert((a + b).drop_last() == a + b.drop_last());
    }
}

/// The words for the views of the inbox.
pub proof fn law_views_have_words()
    ensures
        mode_word(ReviewInboxMode::NeedsReview) == "needs-review"@,
        mode_word(ReviewInboxMode::Reviewed) == "reviewed"@,
        mode_word(ReviewInboxMode::All) == "all"@,
{
}

/// The values of the trailers of one kind, in order.
pub open spec fn values_of(trailers: Seq<TrailerView>, kind: Seq<char>) -> Seq<Seq<char>>
    decreases trailers.len(),
{
    if trailers.len() == 0 {
        seq![]
    } else if trailers.last().kind == kind {
        values_of(trailers.drop_last(), kind).push(trailers.last().value)
    } else {
        values_of(trailers.drop_last(), kind)
    }
}

/// The values of a group are those of the trailers of its kind, in the order of
/// their first appearance.
pub proof fn law_groups_keep_the_order_of_values(trailers: Seq<TrailerView>)
    ensures
        forall|i: int|
            0 <= i < grouped_reviews(trailers).len() ==> (#[trigger] grouped_reviews(
                trailers,
            )[i]).values == text::distinct(values_of(trailers, grouped_reviews(trailers)[i].kind)),
    decreases trailers.len(),
{
    if trailers.len() > 0 {
        let init = trailers.drop_last();
        let trailer = trailers.last();
        law_groups_keep_the_order_of_values(init);
        law_groups_hold_the_reviews(init);
        let before = grouped_reviews(init);
        let after = grouped_reviews(trailers);
        if review_kind(trailer.kind) {
            lemma_added_values(before, trailer.kind, trailer.value);
            assert forall|i: int| 0 <= i < after.len() implies (#[trigger] after[i]).values
                == text::distinct(values_of(trailers, after[i].kind)) by {
                let kind = after[i].kind;
                if kind != trailer.kind {
                    let j = choose|j: int| 0 <= j < before.len() && #[trigger] before[j] == after[i];
                    assert(before[j].values == text::distinct(values_of(init, kind)));
                } else {
                    let was = values_of(init, kind);
                    assert(values_of(trailers, kind).drop_last() == was);
                    if forall|j: int| 0 <= j < before.len() ==> (#[trigger] before[j]).kind != kind {
                        lemma_no_values(init, kind);
                        assert(was == Seq::<Seq<char>>::empty());
                        assert(text::distinct(was) == Seq::<Seq<char>>::empty());
                        assert(Seq::<Seq<char>>::empty().push(trailer.value) == seq![trailer.value]);
                    } else {
                        let j = choose|j: int|
                            0 <= j < before.len() && (#[trigger] before[j]).kind == kind
                                && after[i].values == value_added(before[j].values, trailer.value);
                        assert(before[j].values == text::distinct(was));
                    }
                }
            }
        } else {
            assert forall|i: int| 0 <= i < after.len() implies (#[trigger] after[i]).values
                == text::distinct(values_of(trailers, after[i].kind)) by {
                assert(before[i].values == text::distinct(values_of(init, before[i].kind)));
                assert(review_kind(before[i].kind));
            }
        }
    }
}

/// Without a group of a review kind there is no trailer of that kind.
proof fn lemma_no_values(trailers: Seq<TrailerView>, kind: Seq<char>)
    requires
        review_kind(kind),
        forall|j: int|
            0 <= j < grouped_reviews(trailers).len() ==> (#[trigger] grouped_reviews(
                trailers,
            )[j]).kind != kind,
    ensures
        values_of(trailers, kind) == Seq::<Seq<char>>::empty(),
    decreases trailers.len(),
{
    if trailers.len() > 0 {
        let init = trailers.drop_last();
        let trailer = trailers.last();
        let before = grouped_reviews(init);
        let after = grouped_reviews(trailers);
        law_groups_hold_the_reviews(trailers);
        law_groups_hold_the_reviews(init);
        if trailer.kind == kind {
            let now = reviews(trailers);
            assert(now[now.len() - 1] == trailer);
            assert(now.contains(TrailerView { kind, value: trailer.value }));
            assert(grouped_under(after, kind, trailer.value));
        }
        assert forall|j: int| 0 <= j < before.len() implies (#[trigger] before[j]).kind != kind by {
            if before[j].kind == kind {
                let value = before[j].values[0];
                assert(before[j].values.contains(value));
                assert(grouped_under(before, kind, value));
                let was = reviews(init);
                let t = TrailerView { kind, value };
                assert(was.contains(t));
                let k = choose|k: int| 0 <= k < was.len() && was[k] == t;
                assert(reviews(trailers)[k] == t);
                assert(grouped_under(after, kind, value));
            }
        }
        lemma_no_values(init, kind);
    }
}

/// Adding a trailer changes the group of its kind alone.
proof fn lemma_added_values(groups: Seq<GroupText>, kind: Seq<char>, value: Seq<char>)
    requires
        well_grouped(groups),
    ensures
        forall|i: int|
            0 <= i < trailer_added(groups, kind, value).len() ==> {
                let group = #[trigger] trailer_added(groups, kind, value)[i];
                if group.kind != kind {
                    exists|j: int| 0 <= j < groups.len() && #[trigger] groups[j] == group
                } else {
                    ||| exists|j: int|
                        0 <= j < groups.len() && (#[trigger] groups[j]).kind == kind && group.values
                            == value_added(groups[j].values, value)
                    ||| group.values == seq![value] && forall|j: int|
                        0 <= j < groups.len() ==> (#[trigger] groups[j]).kind != kind
                }
            },
    decreases groups.len(),
{
    let after = trailer_added(groups, kind, value);
    if groups.len() == 0 {
        assert(after[0].kind == kind);
    } else {
        let init = groups.drop_last();
        let last = groups.last();
        assert(groups[groups.len() - 1] == last);
        if last.kind == kind {
            assert forall|i: int| 0 <= i < after.len() implies {
                let group = #[trigger] after[i];
                if group.kind != kind {
                    exists|j: int| 0 <= j < groups.len() && #[trigger] groups[j] == group
                } else {
                    ||| exists|j: int|
                        0 <= j < groups.len() && (#[trigger] groups[j]).kind == kind && group.values
                            == value_added(groups[j].values, value)
                    ||| group.values == seq![value] && forall|j: int|
                        0 <= j < groups.len() ==> (#[trigger] groups[j]).kind != kind
                }
            } by {
                if i < init.len() {
                    assert(after[i] == groups[i]);
                    text::lemma_precedes_total(groups[i].kind, last.kind);
                }
            }
        } else if text::precedes(last.kind, kind) {
            assert forall|j: int| 0 <= j < groups.len() implies (#[trigger] groups[j]).kind != kind by {
                if j < init.len() {
                    text::lemma_precedes_transitive(groups[j].kind, last.kind, kind);
                    text::lemma_precedes_total(groups[j].kind, kind);
                }
            }
            assert forall|i: int| 0 <= i < after.len() - 1 implies #[trigger] after[i] == groups[i] by {}
        } else {
            assert(well_grouped(init)) by {
                assert forall|i: int, j: int| 0 <= i < j < init.len() implies text::precedes(
                    (#[trigger] init[i]).kind,
                    (#[trigger] init[j]).kind,
                ) by {
                    assert(init[i] == groups[i] && init[j] == groups[j]);
                }
                assert forall|i: int| 0 <= i < init.len() implies (
                #[trigger] init[i]).values.no_duplicates() && init[i].values.len() > 0
                    && review_kind(init[i].kind) by {
                    assert(init[i] == groups[i]);
                }
            }
            lemma_added_values(init, kind, value);
            let part = trailer_added(init, kind, value);
            assert forall|i: int| 0 <= i < after.len() implies {
                let group = #[trigger] after[i];
                if group.kind != kind {
                    exists|j: int| 0 <= j < groups.len() && #[trigger] groups[j] == group
                } else {
                    ||| exists|j: int|
                        0 <= j < groups.len() && (#[trigger] groups[j]).kind == kind && group.values
                            == value_added(groups[j].values, value)
                    ||| group.values == seq![value] && forall|j: int|
                        0 <= j < groups.len() ==> (#[trigger] groups[j]).kind != kind
                }
            } by {
                if i < part.len() {
                    let group = part[i];
                    assert(after[i] == group);
                    if group.kind != kind {
                        let j = choose|j: int| 0 <= j < init.len() && #[trigger] init[j] == group;
                        assert(groups[j] == group);
                    } else if forall|j: int| 0 <= j < init.len() ==> (#[trigger] init[j]).kind != kind {
                        assert forall|j: int| 0 <= j < groups.len() implies (
                        #[trigger] groups[j]).kind != kind by {
                            if j < init.len() {
                                assert(init[j] == groups[j]);
                            }
                        }
                    } else {
                        let j = choose|j: int|
                            0 <= j < init.len() && (#[trigger] init[j]).kind == kind && group.values
                                == value_added(init[j].values, value);
                        assert(groups[j] == init[j]);
                    }
                } else {
                    assert(after[i] == last);
                }
            }
        }
    }
}

/// The inbox stands in the order of the rows: what the first rows show stands in
/// front of what all rows show.
pub proof fn law_inbox_keeps_the_order_of_rows(
    ids: Seq<i64>,
    index: Map<i64, EntryView>,
    mode: ReviewInboxMode,
    n: int,
)
    requires
        0 <= n <= ids.len(),
    ensures
        inbox_of(ids.take(n), index, mode).len() <= inbox_of(ids, index, mode).len(),
        inbox_of(ids, index, mode).take(inbox_of(ids.take(n), index, mode).len() as int)
            == inbox_of(ids.take(n), index, mode),
    decreases ids.len() - n,
{
    if n < ids.len() {
        law_inbox_keeps_the_order_of_rows(ids, index, mode, n + 1);
        assert(ids.take(n + 1).drop_last() == ids.take(n));
        let front = inbox_of(ids.take(n), index, mode);
        let more = inbox_of(ids.take(n + 1), index, mode);
        let all = inbox_of(ids, index, mode);
        assert(more.take(front.len() as int) == front);
        assert(all.take(front.len() as int) == all.take(more.len() as int).take(
            front.len() as int,
        ));
    } else {
        assert(ids.take(n) == ids);
    }
}

/// An entry tells what the series of its thread tells, with the trailers of that
/// thread and of no other.
pub proof fn law_entries_tell_of_their_thread(
    thread_id: i64,
    series: SeriesSummary,
    trailers: Map<i64, Vec<ParsedTrailer>>,
)
    ensures
        ({
            let entry = entry_of(thread_id, series, trailers);
            &&& entry.thread_id == thread_id
            &&& entry.subject == series.subject@
            &&& entry.anchor_message_id == series.anchor_message_id@
            &&& entry.version == series.version
            &&& entry.present_count == series.present_count
            &&& entry.expected_total == series.expected_total
            &&& entry.integrity == series.integrity
            &&& !trailers.contains_key(thread_id) ==> entry.trailers.len() == 0
            &&& trailers.contains_key(thread_id) ==> entry.trailers.len()
                == trailers[thread_id]@.len()
            &&& trailers.contains_key(thread_id) ==> forall|i: int|
                0 <= i < entry.trailers.len() ==> (#[trigger] entry.trailers[i]).kind
                    == trailers[thread_id]@[i].kind@ && entry.trailers[i].value
                    == trailers[thread_id]@[i].value@
        }),
{
}

/// How many lines the report has: one at the top, then for each entry one and one
/// for each kind of review trailer; or one that says that there is nothing.
pub proof fn law_reports_have_a_line_for_each_kind(
    mailbox: Seq<char>,
    mode: ReviewInboxMode,
    entries: Seq<EntryView>,
    entry: EntryView,
)
    ensures
        report_lines(mailbox, mode, seq![]).len() == 2,
        report_lines(mailbox, mode, seq![entry]).len() == 2 + grouped_reviews(
            entry.trailers,
        ).len(),
        entries.len() > 0 ==> report_lines(mailbox, mode, entries.push(entry)).skip(1)
            == report_lines(mailbox, mode, entries).skip(1) + report_lines(
            mailbox,
            mode,
            seq![entry],
        ).skip(1),
        text::opens_with(
            report_lines(mailbox, mode, entries)[0],
            "Review Inbox: mailbox="@ + mailbox,
        ),
{
    assert(seq![entry].drop_last() == Seq::<EntryView>::empty());
    assert(entries_lines(Seq::<EntryView>::empty()) == Seq::<Seq<char>>::empty());
    assert(entries_lines(seq![entry]) == entry_lines(entry));
    assert(entries.push(entry).drop_last() == entries);
    let front = "Review Inbox: mailbox="@ + mailbox;
    let header = report_header(mailbox, mode, entries.len());
    assert(header.subrange(0, front.len() as int) == front);
    let one = report_lines(mailbox, mode, seq![entry]).skip(1);
    assert(one == entries_lines(seq![entry]));
    if entries.len() > 0 {
        assert(report_lines(mailbox, mode, entries).skip(1) == entries_lines(entries));
        assert(report_lines(mailbox, mode, entries.push(entry)).skip(1) == entries_lines(
            entries.push(entry),
        ));
    }
}

/// An entry is seen as it is, field by field.
pub proof fn law_entries_are_seen_as_they_are(entry: ReviewInboxEntry)
    ensures
        entry@.thread_id == entry.thread_id,
        entry@.subject == entry.subject@,
        entry@.anchor_message_id == entry.anchor_message_id@,
        entry@.version == entry.version,
        entry@.present_count == entry.present_count,
        entry@.expected_total == entry.expected_total,
        entry@.integrity == entry.integrity,
        entry@.trailers.len() == entry.trailers@.len(),
        forall|i: int|
            0 <= i < entry.trailers@.len() ==> (#[trigger] entry@.trailers[i]).kind
                == entry.trailers@[i].kind@ && entry@.trailers[i].value == entry.trailers@[i].value@,
{
}

/// What the line of an entry says, in this order: the thread, the status, the
/// revision, how many patches are there of how many, the integrity, how many
/// reviews there are, the message it hangs on and the subject.
pub proof fn law_entry_lines_tell_of_the_series(entry: EntryView)
    ensures
        entry_line(entry) == "thread="@ + text::decimal_int(entry.thread_id as int) + " status="@
            + status_word(entry.trailers) + " patch=v"@ + text::decimal(entry.version as nat)
            + " "@ + text::decimal(entry.present_count as nat) + "/"@ + text::decimal(
            entry.expected_total as nat,
        ) + " integrity="@ + entry.integrity.word() + " reviews="@ + text::decimal(
            reviews(entry.trailers).len(),
        ) + " anchor=<"@ + entry.anchor_message_id + "> subject="@ + entry.subject,
        entry_lines(entry)[0] == entry_line(entry),
        entry_lines(entry).len() == 1 + grouped_reviews(entry.trailers).len(),
        forall|i: int|
            0 <= i < grouped_reviews(entry.trailers).len() ==> #[trigger] entry_lines(entry)[i + 1]
                == "  "@ + grouped_reviews(entry.trailers)[i].kind + ": "@ + text::joined(
                grouped_reviews(entry.trailers)[i].values,
                ", "@,
            ),
{
}

/// The first line of the report names the mailbox, the view and the number of
/// entries.
pub proof fn law_reports_open_with_a_summary(
    mailbox: Seq<char>,
    mode: ReviewInboxMode,
    entries: Seq<EntryView>,
)
    ensures
        report_lines(mailbox, mode, entries)[0] == "Review Inbox: mailbox="@ + mailbox + " mode="@
            + mode_word(mode) + " entries="@ + text::decimal(entries.len()),
        report_lines(mailbox, mode, seq![])[1] == "(no matching patch series)"@,
        report(mailbox, mode, entries) == text::joined(
            report_lines(mailbox, mode, entries),
            "\n"@,
        ),
{
}

} // verus!
