//! What the first synchronisation of an inbox fetches.
//!
//! An inbox can hold a large amount of unrelated mail. Before anything is
//! stored, the headers are looked at and only patch mail is fetched in full.

use crate::imap;
use crate::imap::EnvelopeView;
use crate::imap::RemoteMail;
use crate::imap::RemoteMailEnvelope;
use crate::patch;
use crate::text;
use vstd::prelude::*;

verus! {

/// What the header scan of an inbox found.
#[derive(Debug, Clone)]
pub struct InitialInboxSelection {
    pub scanned: usize,
    pub patch_related: usize,
    pub selected_threads: usize,
    pub selected_uids: Vec<u32>,
}

// ---------------------------------------------------------------------------
// Threads
// ---------------------------------------------------------------------------

/// The index of the last mail with an identifier, before index `end`.
pub open spec fn mail_before(mails: Seq<EnvelopeView>, id: Seq<char>, end: int) -> Option<int>
    decreases end,
{
    if end <= 0 {
        None
    } else if mails[end - 1].parsed.message_id == id {
        Some(end - 1)
    } else {
        mail_before(mails, id, end - 1)
    }
}

/// The index of the mail with an identifier. Of several, the last counts.
pub open spec fn mail_with(mails: Seq<EnvelopeView>, id: Seq<char>) -> Option<int> {
    mail_before(mails, id, mails.len() as int)
}

/// The nearest of the first `n` references that is among the mails.
pub open spec fn nearest_reference(
    mails: Seq<EnvelopeView>,
    references: Seq<Seq<char>>,
    n: int,
) -> Option<int>
    decreases n,
{
    if n <= 0 {
        None
    } else {
        match mail_with(mails, references[n - 1]) {
            Some(found) => Some(found),
            None => nearest_reference(mails, references, n - 1),
        }
    }
}

/// Whether a found mail is another one than the mail at index `i`.
pub open spec fn is_other(mails: Seq<EnvelopeView>, i: int, found: Option<int>) -> bool {
    found is Some && mails[found->0].parsed.message_id != mails[i].parsed.message_id
}

/// The mail that the mail at index `i` answers: its nearest known reference,
/// or else the mail that it replies to.
pub open spec fn parent_of(mails: Seq<EnvelopeView>, i: int) -> Option<int> {
    let references = mails[i].parsed.references;
    let referred = nearest_reference(mails, references, references.len() as int);
    let replied = match mails[i].parsed.in_reply_to {
        Some(id) => mail_with(mails, id),
        None => None,
    };
    if is_other(mails, i, referred) {
        referred
    } else if is_other(mails, i, replied) {
        replied
    } else {
        None
    }
}

/// The mail without a parent that is reached from index `i` in at most `steps`
/// steps.
pub open spec fn ancestor(mails: Seq<EnvelopeView>, i: int, steps: nat) -> Option<int>
    decreases steps,
{
    match parent_of(mails, i) {
        Some(parent) => if steps == 0 {
            None
        } else {
            ancestor(mails, parent, (steps - 1) as nat)
        },
        None => Some(i),
    }
}

/// The identifier of the thread of the mail at index `i`: that of its topmost
/// ancestor, or the first reference of that mail, which names the missing root.
/// A mail whose ancestry runs in a circle stands for itself.
pub open spec fn thread_root(mails: Seq<EnvelopeView>, i: int) -> Seq<char> {
    match ancestor(mails, i, mails.len()) {
        Some(top) => {
            let references = mails[top].parsed.references;
            if references.len() > 0 && references[0].len() > 0 {
                references[0]
            } else {
                mails[top].parsed.message_id
            }
        },
        None => mails[i].parsed.message_id,
    }
}

/// The threads of the mails.
pub open spec fn thread_roots(mails: Seq<EnvelopeView>) -> Seq<Seq<char>> {
    Seq::new(mails.len(), |i: int| thread_root(mails, i))
}

/// A found mail is one of the mails and has the identifier.
proof fn lemma_mail_before(mails: Seq<EnvelopeView>, id: Seq<char>, end: int)
    requires
        end <= mails.len(),
    ensures
        mail_before(mails, id, end) matches Some(i) ==> 0 <= i < end
            && mails[i].parsed.message_id == id,
    decreases end,
{
    if end > 0 && mails[end - 1].parsed.message_id != id {
        lemma_mail_before(mails, id, end - 1);
    }
}

/// A found reference is one of the mails.
proof fn lemma_nearest_reference(
    mails: Seq<EnvelopeView>,
    references: Seq<Seq<char>>,
    n: int,
)
    ensures
        nearest_reference(mails, references, n) matches Some(i) ==> 0 <= i < mails.len(),
    decreases n,
{
    if n > 0 {
        lemma_mail_before(mails, references[n - 1], mails.len() as int);
        lemma_nearest_reference(mails, references, n - 1);
    }
}

/// A parent is one of the mails.
proof fn lemma_parent_of(mails: Seq<EnvelopeView>, i: int)
    ensures
        parent_of(mails, i) matches Some(p) ==> 0 <= p < mails.len(),
{
    let references = mails[i].parsed.references;
    lemma_nearest_reference(mails, references, references.len() as int);
    if let Some(id) = mails[i].parsed.in_reply_to {
        lemma_mail_before(mails, id, mails.len() as int);
    }
}

/// Finds the mail with an identifier.
fn find_mail(messages: &Vec<RemoteMailEnvelope>, id: &String) -> (r: Option<usize>)
    ensures
        match r {
            Some(i) => i < messages@.len() && mail_with(imap::envelope_views(messages@), id@)
                == Some(i as int),
            None => mail_with(imap::envelope_views(messages@), id@) is None,
        },
{
    let ghost mails = imap::envelope_views(messages@);
    let mut end: usize = messages.len();
    while end > 0
        invariant
            end <= messages.len(),
            mails == imap::envelope_views(messages@),
            mail_with(mails, id@) == mail_before(mails, id@, end as int),
        decreases end,
    {
        assert(mails[end - 1] == messages@[end - 1]@);
        if messages[end - 1].parsed.message_id == *id {
            return Some(end - 1);
        }
        end -= 1;
    }
    None
}

/// Finds the mail that the mail at index `i` answers.
fn parent_index(index: usize, messages: &Vec<RemoteMailEnvelope>) -> (r: Option<usize>)
    requires
        index < messages@.len(),
    ensures
        match r {
            Some(p) => p < messages@.len() && parent_of(
                imap::envelope_views(messages@),
                index as int,
            ) == Some(p as int),
            None => parent_of(imap::envelope_views(messages@), index as int) is None,
        },
{
    let ghost mails = imap::envelope_views(messages@);
    let message = &messages[index];
    assert(mails[index as int] == message@);
    let ghost references = mails[index as int].parsed.references;
    let mut n: usize = message.parsed.references.len();
    let mut referred: Option<usize> = None;
    assert(references.len() == n);
    while n > 0 && referred.is_none()
        invariant
            n <= message.parsed.references.len(),
            mails == imap::envelope_views(messages@),
            references == text::texts(message.parsed.references@),
            match referred {
                Some(p) => p < messages@.len() && nearest_reference(
                    mails,
                    references,
                    references.len() as int,
                ) == Some(p as int),
                None => nearest_reference(mails, references, references.len() as int)
                    == nearest_reference(mails, references, n as int),
            },
        decreases n,
    {
        assert(references[n - 1] == message.parsed.references@[n - 1]@);
        referred = find_mail(messages, &message.parsed.references[n - 1]);
        n -= 1;
    }
    if let Some(p) = referred {
        assert(mails[p as int] == messages@[p as int]@);
        if messages[p].parsed.message_id != message.parsed.message_id {
            return Some(p);
        }
    }
    match &message.parsed.in_reply_to {
        Some(id) => match find_mail(messages, id) {
            Some(p) => {
                assert(mails[p as int] == messages@[p as int]@);
                if messages[p].parsed.message_id != message.parsed.message_id {
                    Some(p)
                } else {
                    None
                }
            },
            None => None,
        },
        None => None,
    }
}

/// Finds the thread of the mail at index `i`.
pub fn thread_root_key(index: usize, messages: &Vec<RemoteMailEnvelope>) -> (r: String)
    requires
        index < messages@.len(),
    ensures
        r@ == thread_root(imap::envelope_views(messages@), index as int),
{
    let ghost mails = imap::envelope_views(messages@);
    let mut current: usize = index;
    let mut steps: usize = messages.len();
    loop
        invariant
            index < messages@.len(),
            current < messages@.len(),
            mails == imap::envelope_views(messages@),
            steps <= messages@.len(),
            ancestor(mails, index as int, mails.len()) == ancestor(
                mails,
                current as int,
                steps as nat,
            ),
        decreases steps,
    {
        match parent_index(current, messages) {
            Some(parent) => {
                if steps == 0 {
                    assert(mails[index as int] == messages@[index as int]@);
                    return messages[index].parsed.message_id.clone();
                }
                current = parent;
                steps -= 1;
            },
            None => {
                let top = &messages[current];
                assert(mails[current as int] == top@);
                if top.parsed.references.len() > 0 {
                    assert(mails[current as int].parsed.references[0]
                        == top.parsed.references@[0]@);
                    if !top.parsed.references[0].as_str().is_empty() {
                        return top.parsed.references[0].clone();
                    }
                }
                return top.parsed.message_id.clone();
            },
        }
    }
}

// ---------------------------------------------------------------------------
// The selection
// ---------------------------------------------------------------------------

/// The mails whose subject belongs to a patch or its discussion.
pub open spec fn patch_mails(mails: Seq<EnvelopeView>) -> Seq<EnvelopeView>
    decreases mails.len(),
{
    if mails.len() == 0 {
        seq![]
    } else if patch::signature(mails.last().parsed.subject) is Some {
        patch_mails(mails.drop_last()).push(mails.last())
    } else {
        patch_mails(mails.drop_last())
    }
}

/// The numbers of the mails that have one.
pub open spec fn numbers_of(mails: Seq<EnvelopeView>) -> Seq<u32>
    decreases mails.len(),
{
    if mails.len() == 0 {
        seq![]
    } else if mails.last().remote.uid > 0 {
        numbers_of(mails.drop_last()).push(mails.last().remote.uid)
    } else {
        numbers_of(mails.drop_last())
    }
}

/// Keeps the mails whose subject belongs to a patch or its discussion.
pub fn keep_patch_mails(envelopes: Vec<RemoteMailEnvelope>) -> (r: Vec<RemoteMailEnvelope>)
    ensures
        imap::envelope_views(r@) == patch_mails(imap::envelope_views(envelopes@)),
{
    let ghost given = envelopes@;
    let ghost mails = imap::envelope_views(given);
    let mut out: Vec<RemoteMailEnvelope> = Vec::new();
    assert(imap::envelope_views(out@) == patch_mails(mails.take(0)));
    for envelope in it: envelopes
        invariant
            it.seq() == given,
            mails == imap::envelope_views(given),
            imap::envelope_views(out@) == patch_mails(mails.take(it.index())),
    {
        let ghost before = out@;
        let ghost at = it.index();
        assert(mails.take(at + 1).drop_last() == mails.take(at));
        assert(mails.take(at + 1).last() == envelope@);
        if patch::subject_is_patch_related(envelope.parsed.subject.as_str()) {
            out.push(envelope);
            assert(imap::envelope_views(out@) == imap::envelope_views(before).push(envelope@));
        }
    }
    assert(mails.take(mails.len() as int) == mails);
    out
}

/// Counts the threads of the mails.
fn count_threads(messages: &Vec<RemoteMailEnvelope>) -> (r: usize)
    ensures
        r == text::distinct(thread_roots(imap::envelope_views(messages@))).len(),
{
    let ghost mails = imap::envelope_views(messages@);
    let ghost roots = thread_roots(mails);
    let mut keys: Vec<String> = Vec::new();
    let mut i: usize = 0;
    while i < messages.len()
        invariant
            i <= messages.len(),
            mails == imap::envelope_views(messages@),
            roots == thread_roots(mails),
            text::texts(keys@) == roots.take(i as int),
        decreases messages.len() - i,
    {
        let ghost before = keys@;
        let key = thread_root_key(i, messages);
        keys.push(key);
        assert(text::texts(keys@) == text::texts(before).push(key@));
        assert(roots.take(i + 1) == roots.take(i as int).push(roots[i as int]));
        i += 1;
    }
    assert(roots.take(i as int) == roots);
    let unique = text::dedup(&keys);
    assert(text::texts(unique@).len() == unique@.len());
    unique.len()
}

/// Collects the numbers of the mails that have one.
fn collect_numbers(messages: &Vec<RemoteMailEnvelope>) -> (r: Vec<u32>)
    ensures
        r@ == numbers_of(imap::envelope_views(messages@)),
{
    let ghost mails = imap::envelope_views(messages@);
    let mut out: Vec<u32> = Vec::new();
    let mut i: usize = 0;
    assert(out@ == numbers_of(mails.take(0)));
    while i < messages.len()
        invariant
            i <= messages.len(),
            mails == imap::envelope_views(messages@),
            out@ == numbers_of(mails.take(i as int)),
        decreases messages.len() - i,
    {
        assert(mails.take(i + 1).drop_last() == mails.take(i as int));
        assert(mails.take(i + 1).last() == messages@[i as int]@);
        if messages[i].remote.uid > 0 {
            out.push(messages[i].remote.uid);
        }
        i += 1;
    }
    assert(mails.take(i as int) == mails);
    out
}

/// Whether a selection is made of the patch mails among some mails.
pub open spec fn selects(selection: InitialInboxSelection, mails: Seq<EnvelopeView>) -> bool {
    let kept = patch_mails(mails);
    &&& selection.scanned == mails.len()
    &&& selection.patch_related == kept.len()
    &&& selection.selected_threads == text::distinct(thread_roots(kept)).len()
    &&& selection.selected_uids@ == numbers_of(kept)
}

/// Selects the patch mails among opened mails.
pub fn select_patch_mails(envelopes: Vec<RemoteMailEnvelope>) -> (r: InitialInboxSelection)
    ensures
        selects(r, imap::envelope_views(envelopes@)),
{
    let scanned = envelopes.len();
    let selected = keep_patch_mails(envelopes);
    assert(imap::envelope_views(selected@).len() == selected@.len());
    InitialInboxSelection {
        scanned,
        patch_related: selected.len(),
        selected_threads: count_threads(&selected),
        selected_uids: collect_numbers(&selected),
    }
}

/// Selects what the first synchronisation of an inbox fetches in full: every
/// patch mail, so that no large series is cut short.
pub fn select_initial_inbox_messages(
    mailbox: &str,
    remote_messages: Vec<RemoteMail>,
) -> (r: InitialInboxSelection)
    ensures
        selects(r, imap::opened(mailbox@, imap::remote_views(remote_messages@))),
{
    select_patch_mails(imap::parse_remote_messages(mailbox, remote_messages))
}

// ---------------------------------------------------------------------------
// Laws
// ---------------------------------------------------------------------------

/// Every patch mail that has a number is selected, and nothing else is.
pub proof fn law_selection_keeps_every_patch_mail(mails: Seq<EnvelopeView>)
    ensures
        forall|uid: u32|
            #![trigger numbers_of(patch_mails(mails)).contains(uid)]
            numbers_of(patch_mails(mails)).contains(uid) <==> uid > 0 && exists|i: int|
                0 <= i < mails.len() && (#[trigger] mails[i]).remote.uid == uid && patch::signature(
                    mails[i].parsed.subject,
                ) is Some,
    decreases mails.len(),
{
    if mails.len() > 0 {
        let init = mails.drop_last();
        let last = mails.last();
        law_selection_keeps_every_patch_mail(init);
        let was = numbers_of(patch_mails(init));
        let now = numbers_of(patch_mails(mails));
        let kept = patch::signature(last.parsed.subject) is Some;
        if kept {
            assert(patch_mails(mails).drop_last() == patch_mails(init));
        }
        assert forall|uid: u32| #![trigger now.contains(uid)]
            now.contains(uid) <==> uid > 0 && exists|i: int|
                0 <= i < mails.len() && (#[trigger] mails[i]).remote.uid == uid && patch::signature(
                    mails[i].parsed.subject,
                ) is Some by {
            if was.contains(uid) {
                let k = choose|k: int| 0 <= k < was.len() && was[k] == uid;
                assert(now[k] == uid);
                let i = choose|i: int|
                    0 <= i < init.len() && (#[trigger] init[i]).remote.uid == uid
                        && patch::signature(init[i].parsed.subject) is Some;
                assert(mails[i].remote.uid == uid);
            }
            if kept && last.remote.uid > 0 && last.remote.uid == uid {
                assert(now[was.len() as int] == uid);
                assert(mails[mails.len() - 1].remote.uid == uid);
            }
            if now.contains(uid) {
                let k = choose|k: int| 0 <= k < now.len() && now[k] == uid;
                if k < was.len() {
                    assert(was[k] == uid);
                    assert(was.contains(uid));
                }
            }
            if uid > 0 && exists|i: int|
                0 <= i < mails.len() && (#[trigger] mails[i]).remote.uid == uid && patch::signature(
                    mails[i].parsed.subject,
                ) is Some {
                let i = choose|i: int|
                    0 <= i < mails.len() && (#[trigger] mails[i]).remote.uid == uid
                        && patch::signature(mails[i].parsed.subject) is Some;
                if i < init.len() {
                    assert(init[i] == mails[i]);
                    assert(was.contains(uid));
                }
            }
        }
    }
}

/// The mail that is reached from index `i` after `k` steps.
spec fn walked(mails: Seq<EnvelopeView>, i: int, k: nat) -> int
    decreases k,
{
    if k == 0 {
        i
    } else {
        parent_of(mails, walked(mails, i, (k - 1) as nat))->0
    }
}

/// A search that ends nowhere goes through mails with parents only.
proof fn lemma_walk(mails: Seq<EnvelopeView>, i: int, steps: nat, k: nat)
    requires
        0 <= i < mails.len(),
        ancestor(mails, i, steps) is None,
        k <= steps,
    ensures
        0 <= walked(mails, i, k) < mails.len(),
        parent_of(mails, walked(mails, i, k)) is Some,
        ancestor(mails, i, steps) == ancestor(mails, walked(mails, i, k), (steps - k) as nat),
    decreases k,
{
    if k > 0 {
        lemma_walk(mails, i, steps, (k - 1) as nat);
        lemma_parent_of(mails, walked(mails, i, (k - 1) as nat));
    }
}

/// A walk can be continued from where it stands.
proof fn lemma_walk_on(mails: Seq<EnvelopeView>, i: int, a: nat, b: nat)
    ensures
        walked(mails, walked(mails, i, a), b) == walked(mails, i, a + b),
    decreases b,
{
    if b > 0 {
        lemma_walk_on(mails, i, a, (b - 1) as nat);
    }
}

/// A walk that comes back to where it began never ends.
proof fn lemma_circle(mails: Seq<EnvelopeView>, i: int, round: nat, steps: nat)
    requires
        round > 0,
        walked(mails, i, round) == i,
        forall|k: nat| k < round ==> parent_of(mails, #[trigger] walked(mails, i, k)) is Some,
    ensures
        ancestor(mails, i, steps) is None,
    decreases steps,
{
    lemma_circle_steps(mails, i, round, steps, 0);
}

/// The same, from any place in the circle.
proof fn lemma_circle_steps(
    mails: Seq<EnvelopeView>,
    i: int,
    round: nat,
    steps: nat,
    k: nat,
)
    requires
        round > 0,
        k < round,
        walked(mails, i, round) == i,
        forall|j: nat| j < round ==> parent_of(mails, #[trigger] walked(mails, i, j)) is Some,
    ensures
        ancestor(mails, walked(mails, i, k), steps) is None,
    decreases steps,
{
    assert(parent_of(mails, walked(mails, i, k)) is Some);
    if steps > 0 {
        let next = (k + 1) as nat;
        assert(walked(mails, i, next) == parent_of(mails, walked(mails, i, k))->0);
        if next < round {
            lemma_circle_steps(mails, i, round, (steps - 1) as nat, next);
        } else {
            assert(walked(mails, i, 0) == i);
            lemma_circle_steps(mails, i, round, (steps - 1) as nat, 0);
        }
    }
}

/// As many steps as there are mails find the topmost ancestor, if there is one:
/// where they do not, the ancestry runs in a circle, and no number of steps
/// leads out of it.
pub proof fn law_ancestry_is_found_or_circular(mails: Seq<EnvelopeView>, i: int, steps: nat)
    requires
        0 <= i < mails.len(),
        steps >= mails.len(),
    ensures
        ancestor(mails, i, steps) == ancestor(mails, i, mails.len()),
{
    let n = mails.len();
    if ancestor(mails, i, n) is None {
        let path = Seq::new(n + 1, |k: int| walked(mails, i, k as nat));
        assert forall|k: int| 0 <= k < path.len() implies 0 <= #[trigger] path[k] < n by {
            lemma_walk(mails, i, n, k as nat);
        }
        lemma_repeats(path, n as int);
        let (a, b) = choose|a: int, b: int|
            0 <= a < b < path.len() && #[trigger] path[a] == #[trigger] path[b];
        let start = path[a];
        let round = (b - a) as nat;
        lemma_walk_on(mails, i, a as nat, round);
        assert(walked(mails, start, round) == start);
        assert forall|k: nat| k < round implies parent_of(
            mails,
            #[trigger] walked(mails, start, k),
        ) is Some by {
            lemma_walk_on(mails, i, a as nat, k);
            lemma_walk(mails, i, n, (a + k) as nat);
        }
        lemma_circle(mails, start, round, (steps - a) as nat);
        lemma_prefix(mails, i, n, steps, a as nat);
    } else {
        lemma_found_stays(mails, i, n, steps);
    }
}

/// A longer search begins as a shorter one does.
proof fn lemma_prefix(mails: Seq<EnvelopeView>, i: int, few: nat, steps: nat, a: nat)
    requires
        0 <= i < mails.len(),
        ancestor(mails, i, few) is None,
        a <= few <= steps,
    ensures
        ancestor(mails, i, steps) == ancestor(mails, walked(mails, i, a), (steps - a) as nat),
    decreases a,
{
    if a > 0 {
        lemma_prefix(mails, i, few, steps, (a - 1) as nat);
        lemma_walk(mails, i, few, (a - 1) as nat);
    }
}

/// What a search finds, a longer one finds too.
proof fn lemma_found_stays(mails: Seq<EnvelopeView>, i: int, few: nat, steps: nat)
    requires
        ancestor(mails, i, few) is Some,
        few <= steps,
    ensures
        ancestor(mails, i, steps) == ancestor(mails, i, few),
    decreases few,
{
    if let Some(parent) = parent_of(mails, i) {
        lemma_found_stays(mails, parent, (few - 1) as nat, (steps - 1) as nat);
    }
}

/// More places than values have some value twice.
proof fn lemma_repeats(path: Seq<int>, n: int)
    requires
        0 <= n < path.len(),
        forall|k: int| 0 <= k < path.len() ==> 0 <= #[trigger] path[k] < n,
    ensures
        exists|a: int, b: int| 0 <= a < b < path.len() && #[trigger] path[a] == #[trigger] path[b],
{
    if forall|a: int, b: int|
        0 <= a < b < path.len() ==> #[trigger] path[a] != #[trigger] path[b] {
        assert(path.no_duplicates()) by {
            assert forall|a: int, b: int|
                (0 <= a < path.len() && 0 <= b < path.len() && a != b) implies path[a]
                != path[b] by {
                if a < b {
                    assert(path[a] != path[b]);
                } else {
                    assert(path[b] != path[a]);
                }
            }
        }
        path.unique_seq_to_set();
        let range = vstd::set_lib::set_int_range(0, n);
        vstd::set_lib::lemma_int_range(0, n);
        assert(path.to_set().subset_of(range)) by {
            assert forall|x: int| path.to_set().contains(x) implies range.contains(x) by {
                let k = choose|k: int| 0 <= k < path.len() && path[k] == x;
                assert(0 <= path[k] < n);
            }
        }
        vstd::set_lib::lemma_len_subset(path.to_set(), range);
    }
}

// ---------------------------------------------------------------------------
// Laws of parents and roots
// ---------------------------------------------------------------------------

/// A mail is found by its identifier; of several, the last one counts.
pub proof fn law_mails_are_found_by_identifier(mails: Seq<EnvelopeView>, id: Seq<char>, i: int)
    ensures
        0 <= i < mails.len() && mails[i].parsed.message_id == id && (forall|j: int|
            i < j < mails.len() ==> (#[trigger] mails[j]).parsed.message_id != id) ==> mail_with(
            mails,
            id,
        ) == Some(i),
        (forall|j: int| 0 <= j < mails.len() ==> (#[trigger] mails[j]).parsed.message_id != id)
            ==> mail_with(mails, id) is None,
{
    lemma_mail_last(mails, id, mails.len() as int, i);
}

/// The last mail with an identifier before an index.
proof fn lemma_mail_last(mails: Seq<EnvelopeView>, id: Seq<char>, end: int, i: int)
    requires
        end <= mails.len(),
    ensures
        0 <= i < end && mails[i].parsed.message_id == id && (forall|j: int|
            i < j < end ==> (#[trigger] mails[j]).parsed.message_id != id) ==> mail_before(
            mails,
            id,
            end,
        ) == Some(i),
        (forall|j: int| 0 <= j < end ==> (#[trigger] mails[j]).parsed.message_id != id)
            ==> mail_before(mails, id, end) is None,
    decreases end,
{
    if end > 0 {
        lemma_mail_last(mails, id, end - 1, i);
        let last = mails[end - 1];
        assert(last == mails[end - 1]);
    }
}

/// The parent of a mail is the last of its references that is there, whatever it
/// says it replies to.
pub proof fn law_the_nearest_reference_is_the_parent(
    mails: Seq<EnvelopeView>,
    i: int,
    r: int,
    p: int,
)
    requires
        0 <= i < mails.len(),
        0 <= r < mails[i].parsed.references.len(),
        mail_with(mails, mails[i].parsed.references[r]) == Some(p),
        forall|s: int|
            r < s < mails[i].parsed.references.len() ==> mail_with(
                mails,
                #[trigger] mails[i].parsed.references[s],
            ) is None,
        mails[p].parsed.message_id != mails[i].parsed.message_id,
    ensures
        parent_of(mails, i) == Some(p),
{
    let references = mails[i].parsed.references;
    lemma_nearest_is(mails, references, references.len() as int, r);
}

/// The nearest reference that is there.
proof fn lemma_nearest_is(
    mails: Seq<EnvelopeView>,
    references: Seq<Seq<char>>,
    n: int,
    r: int,
)
    requires
        0 <= r < n <= references.len(),
        mail_with(mails, references[r]) is Some,
        forall|s: int| r < s < n ==> mail_with(mails, #[trigger] references[s]) is None,
    ensures
        nearest_reference(mails, references, n) == mail_with(mails, references[r]),
    decreases n,
{
    if r < n - 1 {
        assert(mail_with(mails, references[n - 1]) is None);
        lemma_nearest_is(mails, references, n - 1, r);
    }
}

/// Where no reference is there, the parent is the mail that it replies to; where
/// that is not there either, there is none.
pub proof fn law_without_references_the_reply_counts(mails: Seq<EnvelopeView>, i: int, p: int)
    requires
        0 <= i < mails.len(),
        forall|s: int|
            0 <= s < mails[i].parsed.references.len() ==> mail_with(
                mails,
                #[trigger] mails[i].parsed.references[s],
            ) is None,
    ensures
        mails[i].parsed.in_reply_to is Some && mail_with(mails, mails[i].parsed.in_reply_to->0)
            == Some(p) && mails[p].parsed.message_id != mails[i].parsed.message_id ==> parent_of(
            mails,
            i,
        ) == Some(p),
        mails[i].parsed.in_reply_to is Some && mail_with(
            mails,
            mails[i].parsed.in_reply_to->0,
        ) is None ==> parent_of(mails, i) is None,
        mails[i].parsed.in_reply_to is None ==> parent_of(mails, i) is None,
{
    let references = mails[i].parsed.references;
    lemma_nearest_none(mails, references, references.len() as int);
}

/// No reference is there.
proof fn lemma_nearest_none(mails: Seq<EnvelopeView>, references: Seq<Seq<char>>, n: int)
    requires
        0 <= n <= references.len(),
        forall|s: int| 0 <= s < n ==> mail_with(mails, #[trigger] references[s]) is None,
    ensures
        nearest_reference(mails, references, n) is None,
    decreases n,
{
    if n > 0 {
        assert(mail_with(mails, references[n - 1]) is None);
        lemma_nearest_none(mails, references, n - 1);
    }
}

/// A mail without a parent roots its thread under its first reference, or under
/// its own identifier where it has none. A mail with a parent has the root of its
/// parent, unless the parents go round in a circle: it is then its own root.
pub proof fn law_mails_share_the_root_of_their_parent(mails: Seq<EnvelopeView>, i: int)
    requires
        0 <= i < mails.len(),
    ensures
        parent_of(mails, i) is None && mails[i].parsed.references.len() > 0
            && mails[i].parsed.references[0].len() > 0 ==> thread_root(mails, i)
            == mails[i].parsed.references[0],
        parent_of(mails, i) is None && mails[i].parsed.references.len() == 0 ==> thread_root(
            mails,
            i,
        ) == mails[i].parsed.message_id,
        parent_of(mails, i) matches Some(p) ==> (ancestor(mails, i, mails.len()) is Some
            ==> thread_root(mails, i) == thread_root(mails, p)),
        ancestor(mails, i, mails.len()) is None ==> thread_root(mails, i)
            == mails[i].parsed.message_id,
{
    if let Some(p) = parent_of(mails, i) {
        if ancestor(mails, i, mails.len()) is Some {
            let fewer = (mails.len() - 1) as nat;
            assert(ancestor(mails, i, mails.len()) == ancestor(mails, p, fewer));
            lemma_found_stays(mails, p, fewer, mails.len());
        }
    }
}

/// What a selection reports: how many mails were looked at, which of them state a
/// patch, in their order, and how many threads these belong to.
pub proof fn law_selections_report_patch_mail(
    selection: InitialInboxSelection,
    mails: Seq<EnvelopeView>,
)
    requires
        selects(selection, mails),
    ensures
        selection.scanned == mails.len(),
        patch_mails(mails) == mails.filter(
            |mail: EnvelopeView|
                crate::series_store::patch_subject(mail.parsed.subject) is Some,
        ),
        selection.patch_related == patch_mails(mails).len(),
        selection.selected_threads == text::distinct(thread_roots(patch_mails(mails))).len(),
{
    lemma_patch_mails(mails);
}

/// The patch mails are those that state a patch.
proof fn lemma_patch_mails(mails: Seq<EnvelopeView>)
    ensures
        patch_mails(mails) == mails.filter(
            |mail: EnvelopeView|
                crate::series_store::patch_subject(mail.parsed.subject) is Some,
        ),
    decreases mails.len(),
{
    reveal(Seq::filter);
    if mails.len() > 0 {
        lemma_patch_mails(mails.drop_last());
    }
}

/// The numbers of mails are those of the mails that have one, in their order.
pub proof fn law_numbers_stand_in_the_order_of_mails(mails: Seq<EnvelopeView>, mail: EnvelopeView)
    ensures
        mail.remote.uid > 0 ==> numbers_of(mails.push(mail)) == numbers_of(mails).push(
            mail.remote.uid,
        ),
        mail.remote.uid == 0 ==> numbers_of(mails.push(mail)) == numbers_of(mails),
        numbers_of(seq![]) == Seq::<u32>::empty(),
{
    assert(mails.push(mail).drop_last() == mails);
}

/// A mail that is its own nearest reference has the mail for its parent that it
/// replies to.
pub proof fn law_a_mail_is_not_its_own_parent(mails: Seq<EnvelopeView>, i: int, r: int, p: int)
    requires
        0 <= i < mails.len(),
        0 <= r < mails[i].parsed.references.len(),
        mails[i].parsed.references[r] == mails[i].parsed.message_id,
        forall|s: int|
            r < s < mails[i].parsed.references.len() ==> mail_with(
                mails,
                #[trigger] mails[i].parsed.references[s],
            ) is None,
    ensures
        parent_of(mails, i) matches Some(parent) ==> mails[parent].parsed.message_id
            != mails[i].parsed.message_id,
        mails[i].parsed.in_reply_to is Some && mail_with(mails, mails[i].parsed.in_reply_to->0)
            == Some(p) && mails[p].parsed.message_id != mails[i].parsed.message_id ==> parent_of(
            mails,
            i,
        ) == Some(p),
        mails[i].parsed.in_reply_to is None ==> parent_of(mails, i) is None,
{
    let references = mails[i].parsed.references;
    let id = mails[i].parsed.message_id;
    lemma_mail_before(mails, id, mails.len() as int);
    lemma_mail_there(mails, id, mails.len() as int, i);
    assert(mail_with(mails, references[r]) is Some);
    lemma_nearest_is(mails, references, references.len() as int, r);
}

/// A mail that is there is found.
proof fn lemma_mail_there(mails: Seq<EnvelopeView>, id: Seq<char>, end: int, i: int)
    requires
        0 <= i < end <= mails.len(),
        mails[i].parsed.message_id == id,
    ensures
        mail_before(mails, id, end) is Some,
    decreases end,
{
    if i < end - 1 {
        lemma_mail_there(mails, id, end - 1, i);
    }
}

} // verus!
