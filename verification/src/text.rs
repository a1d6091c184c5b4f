//! Text as sequences of characters.
//!
//! Every parser of this library works on slices of `char`. This module holds
//! the vocabulary they share: what trimming, splitting, searching and case
//! folding mean, together with executable functions that are proved to
//! compute exactly that.

use vstd::prelude::*;
use vstd::slice::slice_subrange;
use vstd::utf8::decode_utf8;
use vstd::utf8::valid_utf8;

verus! {

/// `String::push` of the standard library appends one character.
pub assume_specification[ String::push ](s: &mut String, c: char)
    ensures
        final(s)@ == old(s)@.push(c),
;

/// Whether `char::is_alphanumeric` holds of a character. The property follows
/// the Unicode tables of the standard library and is left abstract here.
pub uninterp spec fn alphanumeric(c: char) -> bool;

/// `char::is_alphanumeric` of the standard library. On ASCII characters it
/// holds of the letters and digits alone; elsewhere it is the property that
/// `alphanumeric` names.
pub assume_specification[ char::is_alphanumeric ](c: char) -> (r: bool)
    ensures
        r == alphanumeric(c),
        c <= '\x7f' ==> r == ('0' <= c <= '9' || 'a' <= c <= 'z' || 'A' <= c <= 'Z'),
;

/// The text that `String::from_utf8_lossy` reads from bytes.
pub uninterp spec fn lossy_text(raw: Seq<u8>) -> Seq<char>;

/// `String::from_utf8_lossy` of the standard library. Valid UTF-8 is decoded
/// as it stands; how ill-formed bytes are replaced is left to `lossy_text`.
#[verifier::external_body]
pub(crate) fn decode_lossy(raw: &[u8]) -> (r: String)
    ensures
        r@ == lossy_text(raw@),
        valid_utf8(raw@) ==> r@ == decode_utf8(raw@),
{
    String::from_utf8_lossy(raw).into_owned()
}

/// The Unicode `White_Space` property.
pub open spec fn white_space(c: char) -> bool {
    ||| '\t' <= c <= '\r'
    ||| c == ' '
    ||| c == '\u{85}'
    ||| c == '\u{a0}'
    ||| c == '\u{1680}'
    ||| '\u{2000}' <= c <= '\u{200a}'
    ||| c == '\u{2028}'
    ||| c == '\u{2029}'
    ||| c == '\u{202f}'
    ||| c == '\u{205f}'
    ||| c == '\u{3000}'
}

/// A set of characters that the parsers look for or strip away.
pub enum CharClass {
    /// White space.
    Space,
    /// One given character.
    One(char),
    /// Whatever is neither a letter nor a digit.
    Symbol,
    /// Quotes, brackets and list punctuation around a mailbox.
    AddressEdge,
    /// Characters that no normalized mailbox may hold.
    AddressUnsafe,
    /// Characters left out of an author key.
    AuthorNoise,
    /// Punctuation between the words of a patch tag.
    TagMark,
}

impl CharClass {
    /// Membership of the class.
    pub open spec fn has(self, c: char) -> bool {
        match self {
            CharClass::Space => white_space(c),
            CharClass::One(x) => c == x,
            CharClass::Symbol => !alphanumeric(c),
            CharClass::AddressEdge => c == '"' || c == '\'' || c == '<' || c == '>' || c == ','
                || c == ';',
            CharClass::AddressUnsafe => c == '<' || c == '>' || c == '"' || c == '\'' || c == '\n'
                || c == '\r',
            CharClass::AuthorNoise => c == '<' || c == '>' || c == ' ',
            CharClass::TagMark => c == ',' || c == ';',
        }
    }

    /// Decides membership.
    pub fn test(&self, c: char) -> (r: bool)
        ensures
            r == self.has(c),
    {
        match self {
            CharClass::Space => ('\t' <= c && c <= '\r') || c == ' ' || c == '\u{85}' || c
                == '\u{a0}' || c == '\u{1680}' || ('\u{2000}' <= c && c <= '\u{200a}') || c
                == '\u{2028}' || c == '\u{2029}' || c == '\u{202f}' || c == '\u{205f}' || c
                == '\u{3000}',
            CharClass::One(x) => c == *x,
            CharClass::Symbol => !c.is_alphanumeric(),
            CharClass::AddressEdge => c == '"' || c == '\'' || c == '<' || c == '>' || c == ','
                || c == ';',
            CharClass::AddressUnsafe => c == '<' || c == '>' || c == '"' || c == '\'' || c == '\n'
                || c == '\r',
            CharClass::AuthorNoise => c == '<' || c == '>' || c == ' ',
            CharClass::TagMark => c == ',' || c == ';',
        }
    }
}

/// The characters of `s` as a vector.
pub fn chars_of(s: &str) -> (r: Vec<char>)
    ensures
        r@ == s@,
{
    let mut out: Vec<char> = Vec::new();
    for c in it: s.chars()
        invariant
            it.seq() == s@,
            out@ == s@.take(it.index()),
    {
        out.push(c);
    }
    out
}

/// A string that holds exactly `s`.
pub fn string_of(s: &[char]) -> (r: String)
    ensures
        r@ == s@,
{
    let mut out = String::new();
    let mut i: usize = 0;
    while i < s.len()
        invariant
            i <= s.len(),
            out@ == s@.take(i as int),
        decreases s.len() - i,
    {
        out.push(s[i]);
        i += 1;
        assert(s@.take(i as int) == s@.take(i - 1).push(s@[i - 1]));
    }
    assert(s@.take(i as int) == s@);
    out
}

/// ASCII lower case of one character.
pub open spec fn lower_char(c: char) -> char {
    if 'A' <= c <= 'Z' {
        ((c as u8) + 32) as char
    } else {
        c
    }
}

/// ASCII lower case of a text.
pub open spec fn lowered(s: Seq<char>) -> Seq<char> {
    Seq::new(s.len(), |i: int| lower_char(s[i]))
}

/// Lower-cases an ASCII letter.
pub fn lower_one(c: char) -> (r: char)
    ensures
        r == lower_char(c),
{
    if 'A' <= c && c <= 'Z' {
        (c as u8 + 32) as char
    } else {
        c
    }
}

/// Lower-cases the ASCII letters of `s`.
pub fn lower(s: &[char]) -> (r: Vec<char>)
    ensures
        r@ == lowered(s@),
{
    let mut out: Vec<char> = Vec::new();
    let mut i: usize = 0;
    while i < s.len()
        invariant
            i <= s.len(),
            out@ == lowered(s@).take(i as int),
        decreases s.len() - i,
    {
        out.push(lower_one(s[i]));
        i += 1;
    }
    out
}

/// Equality up to ASCII case.
pub open spec fn same_letters(a: Seq<char>, b: Seq<char>) -> bool {
    lowered(a) == lowered(b)
}

/// Decides equality of two texts.
pub fn same_text(a: &[char], b: &[char]) -> (r: bool)
    ensures
        r == (a@ == b@),
{
    if a.len() != b.len() {
        return false;
    }
    let mut i: usize = 0;
    while i < a.len()
        invariant
            i <= a.len(),
            a.len() == b.len(),
            a@.take(i as int) == b@.take(i as int),
        decreases a.len() - i,
    {
        if a[i] != b[i] {
            assert(a@[i as int] != b@[i as int]);
            return false;
        }
        i += 1;
        assert(a@.take(i as int) == a@.take(i - 1).push(a@[i - 1]));
        assert(b@.take(i as int) == b@.take(i - 1).push(b@[i - 1]));
    }
    assert(a@.take(i as int) == a@);
    assert(b@.take(i as int) == b@);
    true
}

/// Decides equality up to ASCII case.
pub fn same_ignoring_case(a: &[char], b: &[char]) -> (r: bool)
    ensures
        r == same_letters(a@, b@),
{
    let x = lower(a);
    let y = lower(b);
    same_text(x.as_slice(), y.as_slice())
}

/// `s` without its leading characters of `class`.
pub open spec fn skip_leading(s: Seq<char>, class: CharClass) -> Seq<char>
    decreases s.len(),
{
    if s.len() > 0 && class.has(s[0]) {
        skip_leading(s.drop_first(), class)
    } else {
        s
    }
}

/// `s` without its trailing characters of `class`.
pub open spec fn skip_trailing(s: Seq<char>, class: CharClass) -> Seq<char>
    decreases s.len(),
{
    if s.len() > 0 && class.has(s.last()) {
        skip_trailing(s.drop_last(), class)
    } else {
        s
    }
}

/// `s` without the characters of `class` at either end.
pub open spec fn stripped(s: Seq<char>, class: CharClass) -> Seq<char> {
    skip_trailing(skip_leading(s, class), class)
}

/// `s` without the white space at either end.
pub open spec fn trimmed(s: Seq<char>) -> Seq<char> {
    stripped(s, CharClass::Space)
}

/// `s` without leading white space.
pub open spec fn trimmed_start(s: Seq<char>) -> Seq<char> {
    skip_leading(s, CharClass::Space)
}

/// Drops the leading characters of `class`.
pub fn strip_leading<'a>(s: &'a [char], class: &CharClass) -> (r: &'a [char])
    ensures
        r@ == skip_leading(s@, *class),
        r@.len() <= s@.len(),
{
    let mut i: usize = 0;
    assert(s@.skip(0) == s@);
    while i < s.len() && class.test(s[i])
        invariant
            i <= s.len(),
            skip_leading(s@, *class) == skip_leading(s@.skip(i as int), *class),
        decreases s.len() - i,
    {
        assert(s@.skip(i as int).drop_first() == s@.skip(i + 1));
        i += 1;
    }
    slice_subrange(s, i, s.len())
}

/// Drops the trailing characters of `class`.
pub fn strip_trailing<'a>(s: &'a [char], class: &CharClass) -> (r: &'a [char])
    ensures
        r@ == skip_trailing(s@, *class),
        r@.len() <= s@.len(),
{
    let mut n: usize = s.len();
    assert(s@.take(n as int) == s@);
    while n > 0 && class.test(s[n - 1])
        invariant
            n <= s.len(),
            skip_trailing(s@, *class) == skip_trailing(s@.take(n as int), *class),
        decreases n,
    {
        assert(s@.take(n as int).drop_last() == s@.take(n - 1));
        n -= 1;
    }
    slice_subrange(s, 0, n)
}

/// Drops the characters of `class` at either end.
pub fn strip<'a>(s: &'a [char], class: &CharClass) -> (r: &'a [char])
    ensures
        r@ == stripped(s@, *class),
        r@.len() <= s@.len(),
{
    strip_trailing(strip_leading(s, class), class)
}

/// Drops the white space at either end.
pub fn trim<'a>(s: &'a [char]) -> (r: &'a [char])
    ensures
        r@ == trimmed(s@),
        r@.len() <= s@.len(),
{
    strip(s, &CharClass::Space)
}

/// Drops leading white space.
pub fn trim_start<'a>(s: &'a [char]) -> (r: &'a [char])
    ensures
        r@ == trimmed_start(s@),
        r@.len() <= s@.len(),
{
    strip_leading(s, &CharClass::Space)
}

/// The index of the first character of `class` at or after `from`.
pub open spec fn find_from(s: Seq<char>, class: CharClass, from: int) -> Option<int>
    decreases s.len() - from,
{
    if from >= s.len() {
        None
    } else if class.has(s[from]) {
        Some(from)
    } else {
        find_from(s, class, from + 1)
    }
}

/// The index of the first character of `class`.
pub open spec fn find(s: Seq<char>, class: CharClass) -> Option<int> {
    find_from(s, class, 0)
}

/// A found index lies in the text, holds a character of the class, and no
/// earlier one does.
pub proof fn lemma_find_from(s: Seq<char>, class: CharClass, from: int)
    requires
        0 <= from,
    ensures
        match find_from(s, class, from) {
            Some(i) => {
                &&& from <= i < s.len()
                &&& class.has(s[i])
                &&& forall|j: int| from <= j < i ==> !class.has(#[trigger] s[j])
            },
            None => forall|j: int| from <= j < s.len() ==> !class.has(#[trigger] s[j]),
        },
    decreases s.len() - from,
{
    if from < s.len() && !class.has(s[from]) {
        lemma_find_from(s, class, from + 1);
    }
}

/// The first index that holds a character of the class is the one found.
pub proof fn lemma_find_is(s: Seq<char>, class: CharClass, at: int)
    requires
        0 <= at < s.len(),
        class.has(s[at]),
        forall|j: int| 0 <= j < at ==> !class.has(#[trigger] s[j]),
    ensures
        find(s, class) == Some(at),
{
    lemma_find_from(s, class, 0);
}

/// Nothing is found where no character is of the class.
pub proof fn lemma_find_none(s: Seq<char>, class: CharClass)
    requires
        forall|j: int| 0 <= j < s.len() ==> !class.has(#[trigger] s[j]),
    ensures
        find(s, class) is None,
{
    lemma_find_from(s, class, 0);
}

/// Whether some character of `s` is of `class`.
pub open spec fn has_any(s: Seq<char>, class: CharClass) -> bool {
    exists|i: int| 0 <= i < s.len() && class.has(#[trigger] s[i])
}

/// Finds the first character of `class`.
pub fn find_class(s: &[char], class: &CharClass) -> (r: Option<usize>)
    ensures
        match r {
            Some(i) => find(s@, *class) == Some(i as int) && i < s@.len(),
            None => find(s@, *class) is None,
        },
{
    let mut i: usize = 0;
    while i < s.len()
        invariant
            i <= s.len(),
            find(s@, *class) == find_from(s@, *class, i as int),
        decreases s.len() - i,
    {
        if class.test(s[i]) {
            return Some(i);
        }
        i += 1;
    }
    None
}

/// Decides whether some character is of `class`.
pub fn contains_class(s: &[char], class: &CharClass) -> (r: bool)
    ensures
        r == has_any(s@, *class),
{
    let found = find_class(s, class);
    proof {
        lemma_find_from(s@, *class, 0);
    }
    found.is_some()
}

/// The index of the last occurrence of `class` before `end`.
pub open spec fn find_back(s: Seq<char>, class: CharClass, end: int) -> Option<int>
    decreases end,
{
    if end <= 0 {
        None
    } else if class.has(s[end - 1]) {
        Some(end - 1)
    } else {
        find_back(s, class, end - 1)
    }
}

/// The index of the last character of `class`.
pub open spec fn find_last(s: Seq<char>, class: CharClass) -> Option<int> {
    find_back(s, class, s.len() as int)
}

/// Finds the last character of `class`.
pub fn find_last_class(s: &[char], class: &CharClass) -> (r: Option<usize>)
    ensures
        match r {
            Some(i) => find_last(s@, *class) == Some(i as int) && i < s@.len(),
            None => find_last(s@, *class) is None,
        },
{
    let mut n: usize = s.len();
    while n > 0
        invariant
            n <= s.len(),
            find_last(s@, *class) == find_back(s@, *class, n as int),
        decreases n,
    {
        if class.test(s[n - 1]) {
            return Some(n - 1);
        }
        n -= 1;
    }
    None
}

/// Whether `s` holds `part` starting at index `at`.
pub open spec fn occurs_at(s: Seq<char>, part: Seq<char>, at: int) -> bool {
    0 <= at && at + part.len() <= s.len() && s.subrange(at, at + part.len()) == part
}

/// Whether `s` opens with `part`.
pub open spec fn opens_with(s: Seq<char>, part: Seq<char>) -> bool {
    occurs_at(s, part, 0)
}

/// Whether `part` occurs somewhere in `s`.
pub open spec fn occurs_in(s: Seq<char>, part: Seq<char>) -> bool {
    exists|at: int| occurs_at(s, part, at)
}

/// Decides whether `part` stands at `at`.
pub fn stands_at(s: &[char], part: &[char], at: usize) -> (r: bool)
    ensures
        r == occurs_at(s@, part@, at as int),
{
    if at > s.len() || part.len() > s.len() - at {
        return false;
    }
    same_text(slice_subrange(s, at, at + part.len()), part)
}

/// Decides whether `s` opens with `part`.
pub fn starts_with(s: &[char], part: &[char]) -> (r: bool)
    ensures
        r == opens_with(s@, part@),
{
    stands_at(s, part, 0)
}

/// The first index at or after `from` where `part` occurs.
pub open spec fn find_text_from(s: Seq<char>, part: Seq<char>, from: int) -> Option<int>
    decreases s.len() - from + 1,
{
    if from > s.len() {
        None
    } else if occurs_at(s, part, from) {
        Some(from)
    } else {
        find_text_from(s, part, from + 1)
    }
}

/// The first index where `part` occurs.
pub open spec fn find_text(s: Seq<char>, part: Seq<char>) -> Option<int> {
    find_text_from(s, part, 0)
}

/// A found occurrence is one, and is the first.
pub proof fn lemma_find_text_from(s: Seq<char>, part: Seq<char>, from: int)
    requires
        0 <= from,
    ensures
        match find_text_from(s, part, from) {
            Some(i) => {
                &&& from <= i
                &&& occurs_at(s, part, i)
                &&& forall|j: int| from <= j < i ==> !#[trigger] occurs_at(s, part, j)
            },
            None => forall|j: int| from <= j ==> !#[trigger] occurs_at(s, part, j),
        },
    decreases s.len() - from + 1,
{
    if from <= s.len() && !occurs_at(s, part, from) {
        lemma_find_text_from(s, part, from + 1);
    }
}

/// Finds the first occurrence of `part`.
pub fn find_part(s: &[char], part: &[char]) -> (r: Option<usize>)
    ensures
        match r {
            Some(i) => find_text(s@, part@) == Some(i as int) && i + part@.len() <= s@.len(),
            None => find_text(s@, part@) is None,
        },
{
    let mut i: usize = 0;
    loop
        invariant
            i <= s.len(),
            find_text(s@, part@) == find_text_from(s@, part@, i as int),
        decreases s.len() - i,
    {
        if stands_at(s, part, i) {
            return Some(i);
        }
        if i == s.len() {
            assert(find_text_from(s@, part@, i + 1) is None);
            return None;
        }
        i += 1;
    }
}

/// Decides whether `part` occurs in `s`.
pub fn contains(s: &[char], part: &[char]) -> (r: bool)
    ensures
        r == occurs_in(s@, part@),
{
    let found = find_part(s, part);
    proof {
        lemma_find_text_from(s@, part@, 0);
    }
    found.is_some()
}

/// The texts that a sequence of slices shows.
pub open spec fn slices(v: Seq<&[char]>) -> Seq<Seq<char>> {
    Seq::new(v.len(), |i: int| v[i]@)
}

/// The texts that a sequence of strings holds.
pub open spec fn texts(v: Seq<String>) -> Seq<Seq<char>> {
    Seq::new(v.len(), |i: int| v[i]@)
}

/// The text that an optional string holds.
pub open spec fn opt_text(v: Option<String>) -> Option<Seq<char>> {
    match v {
        Some(s) => Some(s@),
        None => None,
    }
}

/// `s` cut at its first character of `class`: what stands before and after.
pub open spec fn cut(s: Seq<char>, class: CharClass) -> Option<(Seq<char>, Seq<char>)> {
    match find(s, class) {
        Some(i) => Some((s.take(i), s.skip(i + 1))),
        None => None,
    }
}

/// Cuts `s` at its first character of `class`.
pub fn split_once<'a>(s: &'a [char], class: &CharClass) -> (r: Option<(&'a [char], &'a [char])>)
    ensures
        match r {
            Some((a, b)) => cut(s@, *class) == Some((a@, b@)) && a@.len() + 1 + b@.len()
                == s@.len(),
            None => cut(s@, *class) is None,
        },
{
    let n = s.len();
    match find_class(s, class) {
        Some(i) => Some((slice_subrange(s, 0, i), slice_subrange(s, i + 1, n))),
        None => None,
    }
}

/// The pieces of `s` between its characters of `class`, empty ones included.
pub open spec fn pieces(s: Seq<char>, class: CharClass) -> Seq<Seq<char>>
    decreases s.len(),
{
    match find(s, class) {
        Some(i) => {
            proof {
                lemma_find_from(s, class, 0);
            }
            seq![s.take(i)] + pieces(s.skip(i + 1), class)
        },
        None => seq![s],
    }
}

/// Splits `s` at every character of `class`.
pub fn split<'a>(s: &'a [char], class: &CharClass) -> (r: Vec<&'a [char]>)
    ensures
        slices(r@) == pieces(s@, *class),
{
    let mut out: Vec<&'a [char]> = Vec::new();
    let mut rest: &'a [char] = s;
    assert(slices(out@) + pieces(rest@, *class) == pieces(s@, *class));
    loop
        invariant
            slices(out@) + pieces(rest@, *class) == pieces(s@, *class),
        decreases rest@.len(),
    {
        let ghost before = out@;
        match split_once(rest, class) {
            Some((head, tail)) => {
                out.push(head);
                assert(slices(out@) == slices(before).push(head@));
                assert(slices(before) + pieces(rest@, *class) == slices(out@) + pieces(
                    tail@,
                    *class,
                ));
                rest = tail;
            },
            None => {
                out.push(rest);
                assert(slices(out@) == slices(before) + pieces(rest@, *class));
                return out;
            },
        }
    }
}

/// The words of `s`: its longest runs without white space.
pub open spec fn words(s: Seq<char>) -> Seq<Seq<char>>
    decreases s.len(),
{
    let t = trimmed_start(s);
    if t.len() == 0 {
        seq![]
    } else {
        match find(t, CharClass::Space) {
            Some(i) => {
                proof {
                    lemma_skip_leading(s, CharClass::Space);
                    lemma_find_from(t, CharClass::Space, 0);
                }
                seq![t.take(i)] + words(t.skip(i))
            },
            None => seq![t],
        }
    }
}

/// Stripping the front leaves a suffix that does not open with the class.
pub proof fn lemma_skip_leading(s: Seq<char>, class: CharClass)
    ensures
        skip_leading(s, class).len() <= s.len(),
        skip_leading(s, class) == s.skip(s.len() - skip_leading(s, class).len()),
        skip_leading(s, class).len() > 0 ==> !class.has(skip_leading(s, class)[0]),
        forall|j: int|
            0 <= j < s.len() - skip_leading(s, class).len() ==> class.has(#[trigger] s[j]),
    decreases s.len(),
{
    if s.len() > 0 && class.has(s[0]) {
        let t = s.drop_first();
        lemma_skip_leading(t, class);
        let n = s.len() - skip_leading(s, class).len();
        assert(t.skip(n - 1) == s.skip(n));
        assert forall|j: int| 0 <= j < n implies class.has(#[trigger] s[j]) by {
            if j > 0 {
                assert(t[j - 1] == s[j]);
            }
        }
    } else {
        assert(s.skip(0) == s);
    }
}

/// Stripping the back leaves a prefix that does not end in the class.
pub proof fn lemma_skip_trailing(s: Seq<char>, class: CharClass)
    ensures
        skip_trailing(s, class).len() <= s.len(),
        skip_trailing(s, class) == s.take(skip_trailing(s, class).len() as int),
        skip_trailing(s, class).len() > 0 ==> !class.has(skip_trailing(s, class).last()),
        forall|j: int|
            skip_trailing(s, class).len() <= j < s.len() ==> class.has(#[trigger] s[j]),
    decreases s.len(),
{
    if s.len() > 0 && class.has(s.last()) {
        let t = s.drop_last();
        lemma_skip_trailing(t, class);
        let n = skip_trailing(s, class).len() as int;
        assert(t.take(n) == s.take(n));
        assert forall|j: int| n <= j < s.len() implies class.has(#[trigger] s[j]) by {
            if j < s.len() - 1 {
                assert(t[j] == s[j]);
            }
        }
    } else {
        assert(s.take(s.len() as int) == s);
    }
}

/// The front that is stripped ends at the first character outside the class.
pub proof fn lemma_skip_leading_is(s: Seq<char>, class: CharClass, k: int)
    requires
        0 <= k <= s.len(),
        forall|j: int| 0 <= j < k ==> class.has(#[trigger] s[j]),
        k < s.len() ==> !class.has(s[k]),
    ensures
        skip_leading(s, class) == s.skip(k),
{
    lemma_skip_leading(s, class);
    let n = s.len() - skip_leading(s, class).len();
    if n < k {
        assert(skip_leading(s, class)[0] == s[n]);
    } else if k < n {
        assert(class.has(s[k]));
    }
}

/// The back that is stripped begins after the last character outside the
/// class.
pub proof fn lemma_skip_trailing_is(s: Seq<char>, class: CharClass, k: int)
    requires
        0 <= k <= s.len(),
        forall|j: int| k <= j < s.len() ==> class.has(#[trigger] s[j]),
        k > 0 ==> !class.has(s[k - 1]),
    ensures
        skip_trailing(s, class) == s.take(k),
{
    lemma_skip_trailing(s, class);
    let n = skip_trailing(s, class).len() as int;
    if n > k {
        assert(skip_trailing(s, class).last() == s[n - 1]);
    } else if n < k {
        assert(class.has(s[k - 1]));
    }
}

/// The two ends may be stripped in either order.
pub proof fn lemma_stripped_either_order(s: Seq<char>, class: CharClass)
    ensures
        stripped(s, class) == skip_leading(skip_trailing(s, class), class),
{
    lemma_skip_leading(s, class);
    lemma_skip_trailing(s, class);
    let n = s.len() - skip_leading(s, class).len();
    let m = skip_trailing(s, class).len() as int;
    if n >= m {
        // Every character is of the class.
        assert(n == s.len()) by {
            if n < s.len() {
                assert(skip_leading(s, class)[0] == s[n]);
                assert(class.has(s[n]));
            }
        }
        assert(m == 0) by {
            if m > 0 {
                assert(class.has(s[m - 1]));
            }
        }
        assert(stripped(s, class) == Seq::<char>::empty());
        assert(skip_leading(skip_trailing(s, class), class) == Seq::<char>::empty());
    } else {
        let a = s.skip(n);
        let b = s.take(m);
        assert forall|j: int| m - n <= j < a.len() implies class.has(#[trigger] a[j]) by {
            assert(a[j] == s[j + n]);
        }
        assert(a[m - n - 1] == s[m - 1]);
        lemma_skip_trailing_is(a, class, m - n);
        assert(b[n] == s[n]);
        assert forall|j: int| 0 <= j < n implies class.has(#[trigger] b[j]) by {
            assert(b[j] == s[j]);
        }
        lemma_skip_leading_is(b, class, n);
        assert(a.take(m - n) == b.skip(n));
    }
}

/// A text whose ends are outside the class has nothing to strip.
pub proof fn lemma_stripped_same(s: Seq<char>, class: CharClass)
    requires
        s.len() > 0 ==> !class.has(s[0]) && !class.has(s.last()),
    ensures
        stripped(s, class) == s,
{
    lemma_skip_leading_is(s, class, 0);
    assert(s.skip(0) == s);
    lemma_skip_trailing_is(s, class, s.len() as int);
    assert(s.take(s.len() as int) == s);
}

/// A stripped text is a part of the text, and its ends are outside the class.
pub proof fn lemma_stripped(s: Seq<char>, class: CharClass)
    ensures
        stripped(s, class).len() <= s.len(),
        stripped(s, class).len() > 0 ==> !class.has(stripped(s, class)[0]) && !class.has(
            stripped(s, class).last(),
        ),
        exists|k: int|
            0 <= k <= s.len() - stripped(s, class).len() && #[trigger] s.subrange(
                k,
                k + stripped(s, class).len(),
            ) == stripped(s, class),
{
    lemma_skip_leading(s, class);
    let a = skip_leading(s, class);
    lemma_skip_trailing(a, class);
    let r = stripped(s, class);
    let n = s.len() - a.len();
    assert(r.len() > 0 ==> r[0] == a[0]);
    assert(s.subrange(n, n + r.len()) == r);
}

/// Stripping leaves every character of another kind in place.
pub proof fn lemma_stripped_keeps(s: Seq<char>, class: CharClass, other: CharClass)
    ensures
        has_any(stripped(s, class), other) ==> has_any(s, other),
{
    lemma_stripped(s, class);
    let r = stripped(s, class);
    let k = choose|k: int|
        0 <= k <= s.len() - r.len() && #[trigger] s.subrange(k, k + r.len()) == r;
    if has_any(r, other) {
        let i = choose|i: int| 0 <= i < r.len() && other.has(#[trigger] r[i]);
        assert(r[i] == s[k + i]);
    }
}

/// Lower case changes neither white space nor its place.
pub proof fn lemma_lowered_trims(s: Seq<char>)
    ensures
        trimmed_start(lowered(s)) == lowered(trimmed_start(s)),
        skip_trailing(lowered(s), CharClass::Space) == lowered(
            skip_trailing(s, CharClass::Space),
        ),
{
    let low = lowered(s);
    lemma_skip_leading(s, CharClass::Space);
    let n = s.len() - trimmed_start(s).len();
    assert forall|j: int| 0 <= j < n implies CharClass::Space.has(#[trigger] low[j]) by {
        assert(CharClass::Space.has(s[j]));
    }
    if n < s.len() {
        assert(trimmed_start(s)[0] == s[n]);
    }
    lemma_skip_leading_is(low, CharClass::Space, n);
    assert(low.skip(n) == lowered(s.skip(n)));
    lemma_skip_trailing(s, CharClass::Space);
    let m = skip_trailing(s, CharClass::Space).len() as int;
    assert forall|j: int| m <= j < s.len() implies CharClass::Space.has(#[trigger] low[j]) by {
        assert(CharClass::Space.has(s[j]));
    }
    if m > 0 {
        assert(skip_trailing(s, CharClass::Space).last() == s[m - 1]);
    }
    lemma_skip_trailing_is(low, CharClass::Space, m);
    assert(low.take(m) == lowered(s.take(m)));
}

/// Words are not empty and hold no white space.
pub proof fn lemma_words(s: Seq<char>)
    ensures
        forall|k: int|
            0 <= k < words(s).len() ==> (#[trigger] words(s)[k]).len() > 0 && !has_any(
                words(s)[k],
                CharClass::Space,
            ),
    decreases s.len(),
{
    let t = trimmed_start(s);
    lemma_skip_leading(s, CharClass::Space);
    lemma_find_from(t, CharClass::Space, 0);
    if t.len() > 0 {
        match find(t, CharClass::Space) {
            Some(i) => {
                lemma_words(t.skip(i));
                let rest = words(t.skip(i));
                assert(words(s) == seq![t.take(i)] + rest);
                assert forall|k: int| 0 <= k < words(s).len() implies (#[trigger] words(s)[k]).len()
                    > 0 && !has_any(words(s)[k], CharClass::Space) by {
                    if k > 0 {
                        assert(words(s)[k] == rest[k - 1]);
                    }
                }
            },
            None => {},
        }
    }
}

/// Whatever is not white space stands in some word.
pub proof fn lemma_words_cover(s: Seq<char>, i: int)
    requires
        0 <= i < s.len(),
        !white_space(s[i]),
    ensures
        exists|k: int|
            0 <= k < words(s).len() && has_any(#[trigger] words(s)[k], CharClass::One(s[i])),
    decreases s.len(),
{
    let t = trimmed_start(s);
    lemma_skip_leading(s, CharClass::Space);
    lemma_find_from(t, CharClass::Space, 0);
    let n = s.len() - t.len();
    assert(i >= n) by {
        if i < n {
            assert(CharClass::Space.has(s[i]));
        }
    }
    assert(t[i - n] == s[i]);
    match find(t, CharClass::Space) {
        Some(f) => {
            let rest = words(t.skip(f));
            assert(words(s) == seq![t.take(f)] + rest);
            if i - n < f {
                assert(t.take(f)[i - n] == s[i]);
                assert(has_any(words(s)[0], CharClass::One(s[i])));
            } else {
                assert(t.skip(f)[i - n - f] == s[i]);
                lemma_words_cover(t.skip(f), i - n - f);
                let k = choose|k: int|
                    0 <= k < rest.len() && has_any(#[trigger] rest[k], CharClass::One(s[i]));
                assert(words(s)[k + 1] == rest[k]);
            }
        },
        None => {
            assert(words(s)[0] == t);
            assert(has_any(words(s)[0], CharClass::One(s[i])));
        },
    }
}

/// A text without white space is its own only word.
pub proof fn lemma_single_word(s: Seq<char>)
    requires
        s.len() > 0,
        !has_any(s, CharClass::Space),
    ensures
        words(s) == seq![s],
{
    lemma_skip_leading_is(s, CharClass::Space, 0);
    assert(s.skip(0) == s);
    lemma_find_none(s, CharClass::Space);
}

/// Lower case is stable.
pub proof fn lemma_lowered_twice(s: Seq<char>)
    ensures
        lowered(lowered(s)) == lowered(s),
{
}

/// Splits `s` into its words.
pub fn split_words<'a>(s: &'a [char]) -> (r: Vec<&'a [char]>)
    ensures
        slices(r@) == words(s@),
{
    let mut out: Vec<&'a [char]> = Vec::new();
    let mut rest: &'a [char] = s;
    assert(slices(out@) + words(rest@) == words(s@));
    loop
        invariant
            slices(out@) + words(rest@) == words(s@),
        decreases rest@.len(),
    {
        let ghost before = out@;
        let t = trim_start(rest);
        proof {
            lemma_skip_leading(rest@, CharClass::Space);
            lemma_find_from(t@, CharClass::Space, 0);
        }
        if t.len() == 0 {
            assert(slices(out@) == words(s@));
            return out;
        }
        match find_class(t, &CharClass::Space) {
            Some(i) => {
                let head = slice_subrange(t, 0, i);
                let tail = slice_subrange(t, i, t.len());
                out.push(head);
                assert(slices(out@) == slices(before).push(head@));
                assert(slices(before) + words(rest@) == slices(out@) + words(tail@));
                rest = tail;
            },
            None => {
                out.push(t);
                assert(slices(out@) == slices(before) + words(rest@));
                return out;
            },
        }
    }
}

/// `s` without one carriage return at its end.
pub open spec fn chomped(s: Seq<char>) -> Seq<char> {
    if s.len() > 0 && s.last() == '\r' {
        s.drop_last()
    } else {
        s
    }
}

/// The lines of `s`. A line ends in a line feed, optionally after a carriage
/// return; the last line need not end.
pub open spec fn lines(s: Seq<char>) -> Seq<Seq<char>>
    decreases s.len(),
{
    if s.len() == 0 {
        seq![]
    } else {
        match find(s, CharClass::One('\n')) {
            Some(i) => {
                proof {
                    lemma_find_from(s, CharClass::One('\n'), 0);
                }
                seq![chomped(s.take(i))] + lines(s.skip(i + 1))
            },
            None => seq![s],
        }
    }
}

/// Splits `s` into its lines.
pub fn split_lines<'a>(s: &'a [char]) -> (r: Vec<&'a [char]>)
    ensures
        slices(r@) == lines(s@),
{
    let mut out: Vec<&'a [char]> = Vec::new();
    let mut rest: &'a [char] = s;
    assert(slices(out@) + lines(rest@) == lines(s@));
    while rest.len() > 0
        invariant
            slices(out@) + lines(rest@) == lines(s@),
        decreases rest@.len(),
    {
        let ghost before = out@;
        match split_once(rest, &CharClass::One('\n')) {
            Some((head, tail)) => {
                let line = if head.len() > 0 && head[head.len() - 1] == '\r' {
                    slice_subrange(head, 0, head.len() - 1)
                } else {
                    head
                };
                assert(line@ == chomped(head@));
                out.push(line);
                assert(slices(out@) == slices(before).push(line@));
                assert(slices(before) + lines(rest@) == slices(out@) + lines(tail@));
                rest = tail;
            },
            None => {
                out.push(rest);
                assert(slices(out@) == slices(before) + lines(rest@));
                return out;
            },
        }
    }
    assert(slices(out@) == lines(s@));
    out
}

/// The parts in order with `separator` between any two.
pub open spec fn joined(parts: Seq<Seq<char>>, separator: Seq<char>) -> Seq<char>
    decreases parts.len(),
{
    if parts.len() == 0 {
        seq![]
    } else if parts.len() == 1 {
        parts[0]
    } else {
        joined(parts.drop_last(), separator) + separator + parts.last()
    }
}

/// Appends `part` to `out`.
pub fn append(out: &mut Vec<char>, part: &[char])
    ensures
        final(out)@ == old(out)@ + part@,
{
    let mut i: usize = 0;
    while i < part.len()
        invariant
            i <= part.len(),
            out@ == old(out)@ + part@.take(i as int),
        decreases part.len() - i,
    {
        out.push(part[i]);
        i += 1;
    }
    assert(part@.take(i as int) == part@);
}

/// Joins slices with `separator` between any two.
pub fn join(parts: &Vec<&[char]>, separator: &[char]) -> (r: Vec<char>)
    ensures
        r@ == joined(slices(parts@), separator@),
{
    let mut out: Vec<char> = Vec::new();
    let ghost all = slices(parts@);
    let mut i: usize = 0;
    while i < parts.len()
        invariant
            i <= parts.len(),
            all == slices(parts@),
            out@ == joined(all.take(i as int), separator@),
        decreases parts.len() - i,
    {
        if i > 0 {
            append(&mut out, separator);
        }
        append(&mut out, parts[i]);
        assert(all.take(i + 1).drop_last() == all.take(i as int));
        i += 1;
    }
    assert(all.take(i as int) == all);
    out
}

/// Joins strings with `separator` between any two.
pub fn join_strings(parts: &Vec<String>, separator: &[char]) -> (r: Vec<char>)
    ensures
        r@ == joined(texts(parts@), separator@),
{
    let mut out: Vec<char> = Vec::new();
    let ghost all = texts(parts@);
    let mut i: usize = 0;
    while i < parts.len()
        invariant
            i <= parts.len(),
            all == texts(parts@),
            out@ == joined(all.take(i as int), separator@),
        decreases parts.len() - i,
    {
        if i > 0 {
            append(&mut out, separator);
        }
        let part = chars_of(parts[i].as_str());
        append(&mut out, part.as_slice());
        assert(all.take(i + 1).drop_last() == all.take(i as int));
        i += 1;
    }
    assert(all.take(i as int) == all);
    out
}

/// The character of a decimal digit.
pub open spec fn digit_char(d: nat) -> char {
    (48 + d) as char
}

/// The decimal notation of a natural number, without leading zeros.
pub open spec fn decimal(n: nat) -> Seq<char>
    decreases n,
{
    if n < 10 {
        seq![digit_char(n)]
    } else {
        decimal(n / 10).push(digit_char(n % 10))
    }
}

/// The decimal notation of an integer.
pub open spec fn decimal_int(n: int) -> Seq<char> {
    if n < 0 {
        seq!['-'] + decimal((-n) as nat)
    } else {
        decimal(n as nat)
    }
}

/// Writes a number in decimal.
pub fn decimal_chars(n: u64) -> (r: Vec<char>)
    ensures
        r@ == decimal(n as nat),
    decreases n,
{
    if n < 10 {
        let mut out: Vec<char> = Vec::new();
        out.push((48u8 + n as u8) as char);
        out
    } else {
        let mut out = decimal_chars(n / 10);
        out.push((48u8 + (n % 10) as u8) as char);
        out
    }
}

/// Writes a signed number in decimal.
pub fn decimal_signed_chars(n: i64) -> (r: Vec<char>)
    ensures
        r@ == decimal_int(n as int),
{
    if n < 0 {
        let mut out: Vec<char> = Vec::new();
        out.push('-');
        let digits = decimal_chars((-(n as i128)) as u64);
        append(&mut out, digits.as_slice());
        out
    } else {
        decimal_chars(n as u64)
    }
}

/// `n` in decimal, filled up with leading zeros to at least `width` digits.
pub open spec fn padded(n: nat, width: nat) -> Seq<char> {
    let digits = decimal(n);
    if digits.len() < width {
        Seq::new((width - digits.len()) as nat, |i: int| '0') + digits
    } else {
        digits
    }
}

/// Writes a number in decimal with at least `width` digits.
pub fn padded_chars(n: u64, width: usize) -> (r: Vec<char>)
    ensures
        r@ == padded(n as nat, width as nat),
{
    let digits = decimal_chars(n);
    let mut out: Vec<char> = Vec::new();
    if digits.len() < width {
        let gap: usize = width - digits.len();
        let mut i: usize = 0;
        while i < gap
            invariant
                i <= gap,
                out@ == Seq::new(i as nat, |j: int| '0'),
            decreases gap - i,
        {
            out.push('0');
            i += 1;
        }
    }
    append(&mut out, digits.as_slice());
    out
}

/// The character of a hexadecimal digit.
pub open spec fn hex_char(d: u64) -> char {
    if d < 10 {
        (48 + d) as char
    } else {
        (87 + d) as char
    }
}

/// The sixteen hexadecimal digits of a 64-bit word.
pub open spec fn hex_word(h: u64) -> Seq<char> {
    Seq::new(16, |i: int| hex_char((h >> ((60 - 4 * i) as u64)) & 0xf))
}

/// Writes a 64-bit word as sixteen hexadecimal digits.
pub fn hex_chars(h: u64) -> (r: Vec<char>)
    ensures
        r@ == hex_word(h),
{
    let mut out: Vec<char> = Vec::new();
    let mut i: u64 = 0;
    while i < 16
        invariant
            i <= 16,
            out@ == hex_word(h).take(i as int),
        decreases 16 - i,
    {
        let shift: u64 = 60 - 4 * i;
        let d: u64 = (h >> shift) & 0xf;
        assert((h >> shift) & 0xf <= 15) by (bit_vector);
        if d < 10 {
            out.push((48u8 + d as u8) as char);
        } else {
            out.push((87u8 + d as u8) as char);
        }
        i += 1;
    }
    out
}

/// The value of a run of decimal digits.
pub open spec fn digits_value(s: Seq<char>) -> nat
    decreases s.len(),
{
    if s.len() == 0 {
        0
    } else {
        digits_value(s.drop_last()) * 10 + (s.last() as nat - 48) as nat
    }
}

/// Whether every character is a decimal digit.
pub open spec fn all_digits(s: Seq<char>) -> bool {
    forall|i: int| 0 <= i < s.len() ==> '0' <= #[trigger] s[i] <= '9'
}

/// The number that `s` spells: decimal digits after an optional plus sign,
/// at least one of them, with a value of at most 32 bits.
pub open spec fn number(s: Seq<char>) -> Option<u32> {
    let digits = if s.len() > 0 && s[0] == '+' {
        s.drop_first()
    } else {
        s
    };
    if digits.len() > 0 && all_digits(digits) && digits_value(digits) <= u32::MAX {
        Some(digits_value(digits) as u32)
    } else {
        None
    }
}

/// More digits never make a number smaller.
proof fn lemma_digits_value_grows(s: Seq<char>, n: int)
    requires
        0 <= n <= s.len(),
    ensures
        digits_value(s.take(n)) <= digits_value(s),
    decreases s.len(),
{
    if n == s.len() {
        assert(s.take(n) == s);
    } else {
        lemma_digits_value_grows(s.drop_last(), n);
        assert(s.drop_last().take(n) == s.take(n));
    }
}

/// Reads a number of at most 32 bits.
pub fn parse_number(s: &[char]) -> (r: Option<u32>)
    ensures
        r == number(s@),
{
    let n = s.len();
    let digits = if n > 0 && s[0] == '+' {
        slice_subrange(s, 1, n)
    } else {
        s
    };
    assert(n > 0 ==> s@.subrange(1, n as int) == s@.drop_first());
    if digits.len() == 0 {
        return None;
    }
    let mut value: u64 = 0;
    let mut i: usize = 0;
    while i < digits.len()
        invariant
            i <= digits.len(),
            forall|j: int| 0 <= j < i ==> '0' <= #[trigger] digits@[j] <= '9',
            value == digits_value(digits@.take(i as int)),
            value <= u32::MAX,
            digits@.len() > 0,
            number(s@) == (if all_digits(digits@) && digits_value(digits@) <= u32::MAX {
                Some(digits_value(digits@) as u32)
            } else {
                None
            }),
        decreases digits.len() - i,
    {
        let c = digits[i];
        if c < '0' || '9' < c {
            assert(!all_digits(digits@));
            return None;
        }
        assert(digits@.take(i + 1).drop_last() == digits@.take(i as int));
        value = value * 10 + (c as u32 - 48) as u64;
        i += 1;
        if value > u32::MAX as u64 {
            proof {
                lemma_digits_value_grows(digits@, i as int);
            }
            return None;
        }
    }
    assert(digits@.take(i as int) == digits@);
    Some(value as u32)
}

/// The items in the order of their first appearance, each once.
pub open spec fn distinct(items: Seq<Seq<char>>) -> Seq<Seq<char>>
    decreases items.len(),
{
    if items.len() == 0 {
        seq![]
    } else {
        let seen = distinct(items.drop_last());
        if seen.contains(items.last()) {
            seen
        } else {
            seen.push(items.last())
        }
    }
}

/// No item of `distinct` stands in it twice, and it holds the same items.
pub proof fn lemma_distinct(items: Seq<Seq<char>>)
    ensures
        distinct(items).no_duplicates(),
        forall|x: Seq<char>| distinct(items).contains(x) <==> items.contains(x),
    decreases items.len(),
{
    if items.len() > 0 {
        let init = items.drop_last();
        lemma_distinct(init);
        let seen = distinct(init);
        let all = distinct(items);
        assert forall|x: Seq<char>| all.contains(x) <==> items.contains(x) by {
            if items.contains(x) {
                let i = choose|i: int| 0 <= i < items.len() && items[i] == x;
                if i < init.len() {
                    assert(init[i] == x);
                    assert(init.contains(x));
                    assert(seen.contains(x));
                    let k = choose|k: int| 0 <= k < seen.len() && seen[k] == x;
                    assert(all[k] == x);
                } else if !seen.contains(x) {
                    assert(all[all.len() - 1] == x);
                }
            }
            if all.contains(x) {
                let k = choose|k: int| 0 <= k < all.len() && all[k] == x;
                if k < seen.len() {
                    assert(seen[k] == x);
                    assert(init.contains(x));
                    let i = choose|i: int| 0 <= i < init.len() && init[i] == x;
                    assert(items[i] == x);
                } else {
                    assert(items[items.len() - 1] == x);
                }
            }
        }
    }
}

/// The position of `wanted` among `items`, if it stands there.
pub fn position(items: &Vec<String>, wanted: &String) -> (r: Option<usize>)
    ensures
        match r {
            Some(i) => {
                &&& i < items@.len()
                &&& items@[i as int]@ == wanted@
                &&& forall|j: int| 0 <= j < i ==> (#[trigger] items@[j])@ != wanted@
            },
            None => forall|j: int| 0 <= j < items@.len() ==> (#[trigger] items@[j])@ != wanted@,
        },
{
    let mut i: usize = 0;
    while i < items.len()
        invariant
            i <= items.len(),
            forall|j: int| 0 <= j < i ==> (#[trigger] items@[j])@ != wanted@,
        decreases items.len() - i,
    {
        if items[i] == *wanted {
            return Some(i);
        }
        i += 1;
    }
    None
}

/// Decides whether `wanted` stands among `items`.
pub fn holds(items: &Vec<String>, wanted: &String) -> (r: bool)
    ensures
        r == texts(items@).contains(wanted@),
{
    match position(items, wanted) {
        Some(i) => {
            assert(texts(items@)[i as int] == wanted@);
            true
        },
        None => {
            assert forall|j: int| 0 <= j < items@.len() implies #[trigger] texts(items@)[j]
                != wanted@ by {
                assert(items@[j]@ != wanted@);
            }
            false
        },
    }
}

/// Keeps the first appearance of every item.
pub fn dedup(items: &Vec<String>) -> (r: Vec<String>)
    ensures
        texts(r@) == distinct(texts(items@)),
{
    let mut out: Vec<String> = Vec::new();
    let ghost all = texts(items@);
    let mut i: usize = 0;
    assert(texts(out@) == distinct(all.take(0)));
    while i < items.len()
        invariant
            i <= items.len(),
            all == texts(items@),
            texts(out@) == distinct(all.take(i as int)),
        decreases items.len() - i,
    {
        assert(all.take(i + 1).drop_last() == all.take(i as int));
        if !holds(&out, &items[i]) {
            let ghost before = out@;
            out.push(items[i].clone());
            assert(texts(out@) == texts(before).push(items@[i as int]@));
        }
        i += 1;
    }
    assert(all.take(i as int) == all);
    out
}

/// `s` without its characters of `class`.
pub open spec fn without(s: Seq<char>, class: CharClass) -> Seq<char>
    decreases s.len(),
{
    if s.len() == 0 {
        seq![]
    } else if class.has(s.last()) {
        without(s.drop_last(), class)
    } else {
        without(s.drop_last(), class).push(s.last())
    }
}

/// Drops every character of `class`.
pub fn remove_class(s: &[char], class: &CharClass) -> (r: Vec<char>)
    ensures
        r@ == without(s@, *class),
{
    let mut out: Vec<char> = Vec::new();
    let mut i: usize = 0;
    while i < s.len()
        invariant
            i <= s.len(),
            out@ == without(s@.take(i as int), *class),
        decreases s.len() - i,
    {
        assert(s@.take(i + 1).drop_last() == s@.take(i as int));
        if !class.test(s[i]) {
            out.push(s[i]);
        }
        i += 1;
    }
    assert(s@.take(i as int) == s@);
    out
}

/// A copy of an optional string.
pub fn copy_opt(s: &Option<String>) -> (r: Option<String>)
    ensures
        r == *s,
{
    match s {
        Some(s) => Some(s.clone()),
        None => None,
    }
}

/// Decides whether two optional strings hold the same text.
pub fn same_opt(a: &Option<String>, b: &Option<String>) -> (r: bool)
    ensures
        r == (opt_text(*a) == opt_text(*b)),
{
    match (a, b) {
        (Some(a), Some(b)) => *a == *b,
        (None, None) => true,
        _ => false,
    }
}

/// A literal followed by a text, as a string.
pub fn labelled(label: &str, s: &[char]) -> (r: String)
    ensures
        r@ == label@ + s@,
{
    let mut out = chars_of(label);
    append(&mut out, s);
    string_of(out.as_slice())
}

/// Decides whether two strings hold the same text.
pub fn same_str(a: &str, b: &str) -> (r: bool)
    ensures
        r == (a@ == b@),
{
    let x = chars_of(a);
    let y = chars_of(b);
    same_text(x.as_slice(), y.as_slice())
}

/// Decides whether two strings hold the same text up to ASCII case.
pub fn same_str_ignoring_case(a: &str, b: &str) -> (r: bool)
    ensures
        r == same_letters(a@, b@),
{
    let x = chars_of(a);
    let y = chars_of(b);
    same_ignoring_case(x.as_slice(), y.as_slice())
}

/// A copy of a list of strings.
pub fn copy_texts(items: &Vec<String>) -> (r: Vec<String>)
    ensures
        r@ == items@,
        texts(r@) == texts(items@),
{
    let mut out: Vec<String> = Vec::new();
    let mut i: usize = 0;
    while i < items.len()
        invariant
            i <= items.len(),
            out@ == items@.take(i as int),
        decreases items.len() - i,
    {
        out.push(items[i].clone());
        i += 1;
    }
    assert(items@.take(i as int) == items@);
    out
}

/// A joined list begins with its first part.
pub proof fn lemma_joined_front(parts: Seq<Seq<char>>, separator: Seq<char>)
    requires
        parts.len() > 1,
    ensures
        joined(parts, separator) == parts[0] + separator + joined(parts.drop_first(), separator),
    decreases parts.len(),
{
    let rest = parts.drop_first();
    let init = parts.drop_last();
    if parts.len() == 2 {
        assert(joined(init, separator) == parts[0]);
        assert(joined(rest, separator) == parts[1]);
    } else {
        lemma_joined_front(init, separator);
        assert(init.drop_first() == rest.drop_last());
        assert(joined(rest, separator) == joined(rest.drop_last(), separator) + separator
            + rest.last());
        assert(joined(parts, separator) == parts[0] + separator + joined(rest, separator));
    }
}

/// Splitting a joined list at the separator gives the list back, where no part
/// holds the separator.
pub proof fn lemma_pieces_of_joined(parts: Seq<Seq<char>>, separator: char)
    requires
        parts.len() > 0,
        forall|i: int|
            0 <= i < parts.len() ==> !has_any(#[trigger] parts[i], CharClass::One(separator)),
    ensures
        pieces(joined(parts, seq![separator]), CharClass::One(separator)) == parts,
    decreases parts.len(),
{
    let class = CharClass::One(separator);
    let whole = joined(parts, seq![separator]);
    assert(!has_any(parts[0], class));
    if parts.len() == 1 {
        assert forall|j: int| 0 <= j < whole.len() implies !class.has(#[trigger] whole[j]) by {
            assert(whole[j] == parts[0][j]);
        }
        lemma_find_none(whole, class);
        assert(pieces(whole, class) == seq![whole]);
        assert(seq![whole] == parts);
    } else {
        let rest = parts.drop_first();
        lemma_joined_front(parts, seq![separator]);
        let n = parts[0].len() as int;
        assert(whole[n] == separator);
        assert forall|j: int| 0 <= j < n implies !class.has(#[trigger] whole[j]) by {
            assert(whole[j] == parts[0][j]);
        }
        lemma_find_is(whole, class, n);
        assert(whole.take(n) == parts[0]);
        assert(whole.skip(n + 1) == joined(rest, seq![separator]));
        assert forall|i: int| 0 <= i < rest.len() implies !has_any(#[trigger] rest[i], class) by {
            assert(rest[i] == parts[i + 1]);
        }
        lemma_pieces_of_joined(rest, separator);
        assert(pieces(whole, class) == seq![parts[0]] + rest);
        assert(seq![parts[0]] + rest == parts);
    }
}

/// The lines of a list that was joined by line feeds are the list, where no
/// part is empty or holds a line feed, and none but the last ends in a carriage
/// return.
pub proof fn lemma_lines_of_joined(parts: Seq<Seq<char>>)
    requires
        forall|i: int|
            0 <= i < parts.len() ==> (#[trigger] parts[i]).len() > 0 && !has_any(
                parts[i],
                CharClass::One('\n'),
            ) && (i < parts.len() - 1 ==> parts[i].last() != '\r'),
    ensures
        lines(joined(parts, seq!['\n'])) == parts,
    decreases parts.len(),
{
    let class = CharClass::One('\n');
    let whole = joined(parts, seq!['\n']);
    if parts.len() == 1 {
        assert(!has_any(parts[0], class));
        assert forall|j: int| 0 <= j < whole.len() implies !class.has(#[trigger] whole[j]) by {
            assert(whole[j] == parts[0][j]);
        }
        lemma_find_none(whole, class);
        assert(seq![whole] == parts);
    } else if parts.len() > 1 {
        let rest = parts.drop_first();
        lemma_joined_front(parts, seq!['\n']);
        let n = parts[0].len() as int;
        assert(!has_any(parts[0], class));
        assert(whole[n] == '\n');
        assert forall|j: int| 0 <= j < n implies !class.has(#[trigger] whole[j]) by {
            assert(whole[j] == parts[0][j]);
        }
        lemma_find_is(whole, class, n);
        assert(whole.take(n) == parts[0]);
        assert(whole.skip(n + 1) == joined(rest, seq!['\n']));
        assert forall|i: int| 0 <= i < rest.len() implies (#[trigger] rest[i]).len() > 0
            && !has_any(rest[i], class) && (i < rest.len() - 1 ==> rest[i].last() != '\r') by {
            assert(rest[i] == parts[i + 1]);
        }
        lemma_lines_of_joined(rest);
        assert(chomped(parts[0]) == parts[0]);
        assert(seq![parts[0]] + rest == parts);
    }
}

/// Lines that are complete are not changed by what follows them.
pub proof fn lemma_lines_append(front: Seq<char>, rest: Seq<char>)
    requires
        front.len() > 0,
        front.last() == '\n',
    ensures
        lines(front + rest) == lines(front) + lines(rest),
    decreases front.len(),
{
    let class = CharClass::One('\n');
    let all = front + rest;
    lemma_find_from(front, class, 0);
    match find(front, class) {
        Some(i) => {
            assert forall|j: int| 0 <= j < i implies !class.has(#[trigger] all[j]) by {
                assert(all[j] == front[j]);
            }
            assert(all[i] == front[i]);
            lemma_find_is(all, class, i);
            let tail = front.skip(i + 1);
            assert(all.take(i) == front.take(i));
            assert(all.skip(i + 1) == tail + rest);
            if tail.len() > 0 {
                lemma_lines_append(tail, rest);
            } else {
                assert(tail + rest == rest);
            }
            let first = seq![chomped(front.take(i))];
            assert(first + (lines(tail) + lines(rest)) == (first + lines(tail)) + lines(rest));
        },
        None => {
            assert(class.has(front[front.len() - 1]));
        },
    }
}

/// Appends a string to `out`.
pub fn append_str(out: &mut Vec<char>, s: &str)
    ensures
        final(out)@ == old(out)@ + s@,
{
    let part = chars_of(s);
    append(out, part.as_slice());
}

/// Appends a number to `out`.
pub fn append_number(out: &mut Vec<char>, n: u64)
    ensures
        final(out)@ == old(out)@ + decimal(n as nat),
{
    let digits = decimal_chars(n);
    append(out, digits.as_slice());
}

/// Whether `a` comes before `b` in dictionary order by code point.
pub open spec fn precedes(a: Seq<char>, b: Seq<char>) -> bool
    decreases a.len(),
{
    if b.len() == 0 {
        false
    } else if a.len() == 0 {
        true
    } else if a[0] == b[0] {
        precedes(a.drop_first(), b.drop_first())
    } else {
        a[0] < b[0]
    }
}

/// Decides dictionary order.
pub fn comes_before(a: &[char], b: &[char]) -> (r: bool)
    ensures
        r == precedes(a@, b@),
{
    let mut i: usize = 0;
    assert(a@.skip(0) == a@);
    assert(b@.skip(0) == b@);
    while i < a.len() && i < b.len()
        invariant
            i <= a.len(),
            i <= b.len(),
            precedes(a@, b@) == precedes(a@.skip(i as int), b@.skip(i as int)),
        decreases a.len() - i,
    {
        let ghost x = a@.skip(i as int);
        let ghost y = b@.skip(i as int);
        if a[i] != b[i] {
            return a[i] < b[i];
        }
        assert(x.drop_first() == a@.skip(i + 1));
        assert(y.drop_first() == b@.skip(i + 1));
        i += 1;
    }
    b.len() > i
}

/// Dictionary order is transitive.
pub proof fn lemma_precedes_transitive(a: Seq<char>, b: Seq<char>, c: Seq<char>)
    requires
        precedes(a, b),
        precedes(b, c),
    ensures
        precedes(a, c),
    decreases a.len(),
{
    if a.len() > 0 && a[0] == b[0] && b[0] == c[0] {
        lemma_precedes_transitive(a.drop_first(), b.drop_first(), c.drop_first());
    }
}

/// Of two different texts one comes before the other, and no text comes before
/// itself.
pub proof fn lemma_precedes_total(a: Seq<char>, b: Seq<char>)
    ensures
        a == b ==> !precedes(a, b),
        a != b ==> precedes(a, b) != precedes(b, a),
    decreases a.len(),
{
    if a.len() > 0 && b.len() > 0 && a[0] == b[0] {
        lemma_precedes_total(a.drop_first(), b.drop_first());
        if a.drop_first() == b.drop_first() {
            assert(a == seq![a[0]] + a.drop_first());
            assert(b == seq![b[0]] + b.drop_first());
        }
    }
    if a.len() == 0 && b.len() == 0 {
        assert(a == b);
    }
}

/// Ten to the power of `width`.
pub open spec fn ten_to(width: nat) -> nat
    decreases width,
{
    if width == 0 {
        1
    } else {
        10 * ten_to((width - 1) as nat)
    }
}

/// A number with fewer digits than asked for has exactly as many as asked for
/// once it is filled up, and its last digit can be split off.
pub proof fn lemma_padded(n: nat, width: nat)
    requires
        width > 0,
        n < ten_to(width),
    ensures
        padded(n, width).len() == width,
        width > 1 ==> padded(n, width) == padded(n / 10, (width - 1) as nat).push(
            digit_char(n % 10),
        ),
        width > 1 ==> n / 10 < ten_to((width - 1) as nat),
    decreases width,
{
    if width == 1 {
        assert(ten_to(0) == 1);
        assert(ten_to(1) == 10);
        assert(decimal(n) == seq![digit_char(n)]);
    } else {
        let less = (width - 1) as nat;
        assert(ten_to(width) == 10 * ten_to(less));
        lemma_padded(n / 10, less);
        if n < 10 {
            assert(n / 10 == 0 && n % 10 == n);
            assert(decimal(n) == seq![digit_char(n)]);
            assert(decimal(0) == seq![digit_char(0)]);
            assert(padded(0, less) == Seq::new(less, |i: int| '0'));
            assert(padded(n, width) == padded(0, less).push(digit_char(n)));
        } else {
            assert(decimal(n) == decimal(n / 10).push(digit_char(n % 10)));
            assert(padded(n, width) == padded(n / 10, less).push(digit_char(n % 10)));
        }
    }
}

/// Of two texts of one length, what is appended decides only where they are the
/// same.
pub proof fn lemma_precedes_append(a: Seq<char>, b: Seq<char>, x: Seq<char>, y: Seq<char>)
    requires
        a.len() == b.len(),
        precedes(a, b) || (a == b && precedes(x, y)),
    ensures
        precedes(a + x, b + y),
    decreases a.len(),
{
    if a.len() == 0 {
        assert(a + x == x);
        assert(b + y == y);
    } else {
        assert((a + x)[0] == a[0]);
        assert((b + y)[0] == b[0]);
        assert((a + x).drop_first() == a.drop_first() + x);
        assert((b + y).drop_first() == b.drop_first() + y);
        if a[0] == b[0] {
            lemma_precedes_append(a.drop_first(), b.drop_first(), x, y);
        }
    }
}

/// Numbers of one width sort as texts as they do as numbers.
pub proof fn lemma_padded_order(m: nat, n: nat, width: nat)
    requires
        width > 0,
        m < n,
        n < ten_to(width),
    ensures
        precedes(padded(m, width), padded(n, width)),
    decreases width,
{
    lemma_padded(m, width);
    lemma_padded(n, width);
    if width == 1 {
        assert(ten_to(0) == 1);
        assert(ten_to(1) == 10);
        assert(decimal(m) == seq![digit_char(m)]);
        assert(decimal(n) == seq![digit_char(n)]);
        assert(digit_char(m) < digit_char(n));
    } else {
        let less = (width - 1) as nat;
        let a = padded(m / 10, less);
        let b = padded(n / 10, less);
        let x = seq![digit_char(m % 10)];
        let y = seq![digit_char(n % 10)];
        lemma_padded(m / 10, less);
        lemma_padded(n / 10, less);
        if m / 10 < n / 10 {
            lemma_padded_order(m / 10, n / 10, less);
        } else {
            assert(m / 10 == n / 10);
            assert(m % 10 < n % 10);
            assert(precedes(x, y));
        }
        lemma_precedes_append(a, b, x, y);
        assert(a + x == a.push(digit_char(m % 10)));
        assert(b + y == b.push(digit_char(n % 10)));
    }
}

// ---------------------------------------------------------------------------
// Laws
// ---------------------------------------------------------------------------

/// Folding case turns `A` to `Z` into `a` to `z`, in order, and leaves every
/// other character alone.
pub proof fn law_case_folding_is_ascii(c: char)
    ensures
        'A' <= c <= 'Z' ==> lower_char(c) as int == c as int + 32,
        'A' <= c <= 'Z' ==> 'a' <= lower_char(c) <= 'z',
        !('A' <= c <= 'Z') ==> lower_char(c) == c,
{
}

/// Texts that differ in the case of ASCII letters alone count as the same
/// letters, character by character.
pub proof fn law_same_letters_differ_in_case_alone(a: Seq<char>, b: Seq<char>)
    ensures
        same_letters(a, b) <==> a.len() == b.len() && forall|i: int|
            0 <= i < a.len() ==> (#[trigger] a[i] == b[i] || ('A' <= a[i] <= 'Z' && b[i] as int
                == a[i] as int + 32) || ('A' <= b[i] <= 'Z' && a[i] as int == b[i] as int + 32)),
{
    if same_letters(a, b) {
        assert(lowered(a).len() == lowered(b).len());
        assert forall|i: int| 0 <= i < a.len() implies (#[trigger] a[i] == b[i] || ('A' <= a[i]
            <= 'Z' && b[i] as int == a[i] as int + 32) || ('A' <= b[i] <= 'Z' && a[i] as int
            == b[i] as int + 32)) by {
            assert(lowered(a)[i] == lowered(b)[i]);
        }
    }
    if a.len() == b.len() && forall|i: int|
        0 <= i < a.len() ==> (#[trigger] a[i] == b[i] || ('A' <= a[i] <= 'Z' && b[i] as int
            == a[i] as int + 32) || ('A' <= b[i] <= 'Z' && a[i] as int == b[i] as int + 32)) {
        assert forall|i: int| 0 <= i < a.len() implies lowered(a)[i] == lowered(b)[i] by {
            assert(a[i] == b[i] || ('A' <= a[i] <= 'Z' && b[i] as int == a[i] as int + 32) || ('A'
                <= b[i] <= 'Z' && a[i] as int == b[i] as int + 32));
        }
        assert(lowered(a) =~= lowered(b));
    }
}

/// Which characters each class has: the punctuation around a mailbox, what no
/// mailbox holds, what spellings of an author differ in, and what stands between
/// the words of a patch tag. Of ASCII, white space is the space and the five
/// control characters from the tab to the carriage return.
pub proof fn law_classes_have_their_characters(c: char)
    ensures
        CharClass::AddressEdge.has(c) <==> seq!['"', '\'', '<', '>', ',', ';'].contains(c),
        CharClass::AddressUnsafe.has(c) <==> seq!['"', '\'', '<', '>', '\n', '\r'].contains(c),
        CharClass::AuthorNoise.has(c) <==> seq!['<', '>', ' '].contains(c),
        CharClass::TagMark.has(c) <==> seq![',', ';'].contains(c),
        CharClass::Symbol.has(c) <==> !alphanumeric(c),
        c <= '\x7f' ==> (CharClass::Space.has(c) <==> seq![
            ' ',
            '\t',
            '\n',
            '\x0b',
            '\x0c',
            '\r',
        ].contains(c)),
{
    let edge = seq!['"', '\'', '<', '>', ',', ';'];
    let bad = seq!['"', '\'', '<', '>', '\n', '\r'];
    let noise = seq!['<', '>', ' '];
    let mark = seq![',', ';'];
    let space = seq![' ', '\t', '\n', '\x0b', '\x0c', '\r'];
    assert(edge[0] == '"' && edge[1] == '\'' && edge[2] == '<' && edge[3] == '>' && edge[4] == ','
        && edge[5] == ';');
    assert(bad[0] == '"' && bad[1] == '\'' && bad[2] == '<' && bad[3] == '>' && bad[4] == '\n'
        && bad[5] == '\r');
    assert(noise[0] == '<' && noise[1] == '>' && noise[2] == ' ');
    assert(mark[0] == ',' && mark[1] == ';');
    assert(space[0] == ' ' && space[1] == '\t' && space[2] == '\n' && space[3] == '\x0b'
        && space[4] == '\x0c' && space[5] == '\r');
}

/// A number is read back from its decimal notation, with or without a plus sign
/// in front. No text with another character is a number.
pub proof fn law_numbers_are_read_back(n: u32)
    ensures
        number(decimal(n as nat)) == Some(n),
        number(seq!['+'] + decimal(n as nat)) == Some(n),
{
    lemma_decimal(n as nat);
    let plain = decimal(n as nat);
    let signed = seq!['+'] + plain;
    assert(plain[0] != '+');
    assert(signed.drop_first() == plain);
}

/// A text with a character that is no digit states no number, but for a plus
/// sign in front; nor does the empty text.
pub proof fn law_numbers_are_made_of_digits(s: Seq<char>)
    ensures
        number(s) is Some ==> s.len() > 0 && ('0' <= s[0] <= '9' || (s[0] == '+' && s.len() > 1)),
        number(s) is Some ==> forall|i: int| 1 <= i < s.len() ==> '0' <= #[trigger] s[i] <= '9',
{
    if number(s) is Some && s[0] == '+' {
        assert forall|i: int| 1 <= i < s.len() implies '0' <= #[trigger] s[i] <= '9' by {
            assert(s.drop_first()[i - 1] == s[i]);
        }
    }
}

/// Decimal notation is made of digits, at least one, and has the value of the
/// number.
pub proof fn lemma_decimal(n: nat)
    ensures
        decimal(n).len() > 0,
        all_digits(decimal(n)),
        digits_value(decimal(n)) == n,
    decreases n,
{
    if n >= 10 {
        lemma_decimal(n / 10);
        assert(decimal(n).drop_last() == decimal(n / 10));
    } else {
        assert(decimal(n).drop_last() == Seq::<char>::empty());
        assert(digits_value(Seq::<char>::empty()) == 0);
    }
}

/// The first word of a text is its first run without white space; the other words
/// are those of what follows.
pub proof fn law_words_are_runs_without_white_space(
    gap: Seq<char>,
    word: Seq<char>,
    rest: Seq<char>,
)
    requires
        forall|i: int| 0 <= i < gap.len() ==> white_space(#[trigger] gap[i]),
        word.len() > 0,
        forall|i: int| 0 <= i < word.len() ==> !white_space(#[trigger] word[i]),
        rest.len() > 0 ==> white_space(rest[0]),
    ensures
        words(gap + word + rest) == seq![word] + words(rest),
        words(gap) == Seq::<Seq<char>>::empty(),
{
    let all = gap + word + rest;
    let n = gap.len() as int;
    let m = word.len() as int;
    assert forall|j: int| 0 <= j < n implies CharClass::Space.has(#[trigger] all[j]) by {
        assert(all[j] == gap[j]);
    }
    assert(all[n] == word[0]);
    lemma_skip_leading_is(all, CharClass::Space, n);
    let t = trimmed_start(all);
    assert(t == word + rest);
    assert forall|j: int| 0 <= j < m implies !CharClass::Space.has(#[trigger] t[j]) by {
        assert(t[j] == word[j]);
    }
    if rest.len() > 0 {
        assert(t[m] == rest[0]);
        lemma_find_is(t, CharClass::Space, m);
        assert(t.take(m) == word);
        assert(t.skip(m) == rest);
    } else {
        assert(t == word);
        lemma_find_none(t, CharClass::Space);
        assert(words(rest) == Seq::<Seq<char>>::empty()) by {
            assert(rest == Seq::<char>::empty());
            lemma_skip_leading(rest, CharClass::Space);
        }
        assert(words(all) == seq![word]);
    }
    assert forall|j: int| 0 <= j < gap.len() implies CharClass::Space.has(#[trigger] gap[j]) by {}
    lemma_skip_leading_is(gap, CharClass::Space, n);
}

/// Words with a space between any two are found again.
pub proof fn law_spaced_words_are_found(parts: Seq<Seq<char>>)
    requires
        forall|k: int|
            0 <= k < parts.len() ==> (#[trigger] parts[k]).len() > 0 && !has_any(
                parts[k],
                CharClass::Space,
            ),
    ensures
        words(joined(parts, " "@)) == parts,
    decreases parts.len(),
{
    reveal_strlit(" ");
    if parts.len() == 0 {
        lemma_skip_leading(Seq::<char>::empty(), CharClass::Space);
    } else {
        let word = parts[0];
        assert forall|i: int| 0 <= i < word.len() implies !white_space(#[trigger] word[i]) by {
            if white_space(word[i]) {
                assert(CharClass::Space.has(word[i]));
            }
        }
        let none = Seq::<char>::empty();
        if parts.len() == 1 {
            law_words_are_runs_without_white_space(none, word, none);
            assert(none + word + none == word);
            assert(parts == seq![word]);
            lemma_skip_leading(none, CharClass::Space);
        } else {
            let others = parts.drop_first();
            assert forall|k: int| 0 <= k < others.len() implies (#[trigger] others[k]).len() > 0
                && !has_any(others[k], CharClass::Space) by {
                assert(others[k] == parts[k + 1]);
            }
            law_spaced_words_are_found(others);
            lemma_joined_front(parts, " "@);
            let tail = joined(others, " "@);
            let rest = " "@ + tail;
            assert(none + word + rest == word + " "@ + tail);
            law_words_are_runs_without_white_space(none, word, rest);
            lemma_space_in_front(tail);
            assert(seq![word] + others == parts);
        }
    }
}

/// White space in front of a text leaves its words.
pub proof fn lemma_space_in_front(s: Seq<char>)
    ensures
        words(" "@ + s) == words(s),
{
    reveal_strlit(" ");
    let all = " "@ + s;
    lemma_skip_leading(s, CharClass::Space);
    let k = s.len() - trimmed_start(s).len();
    assert forall|j: int| 0 <= j < k + 1 implies CharClass::Space.has(#[trigger] all[j]) by {
        if j > 0 {
            assert(all[j] == s[j - 1]);
            assert(CharClass::Space.has(s[j - 1]));
        }
    }
    if k < s.len() {
        assert(all[k + 1] == s[k]);
        assert(s[k] == trimmed_start(s)[0]);
    }
    lemma_skip_leading_is(all, CharClass::Space, k + 1);
    assert(all.skip(k + 1) == s.skip(k));
}

/// The last character of a class is found: it has the class and none after it has.
pub proof fn law_last_is_found(s: Seq<char>, class: CharClass)
    ensures
        match find_last(s, class) {
            Some(i) => {
                &&& 0 <= i < s.len()
                &&& class.has(s[i])
                &&& forall|j: int| i < j < s.len() ==> !class.has(#[trigger] s[j])
            },
            None => forall|j: int| 0 <= j < s.len() ==> !class.has(#[trigger] s[j]),
        },
{
    lemma_find_back(s, class, s.len() as int);
}

/// What is found going back from an index.
proof fn lemma_find_back(s: Seq<char>, class: CharClass, end: int)
    requires
        0 <= end <= s.len(),
    ensures
        match find_back(s, class, end) {
            Some(i) => {
                &&& 0 <= i < end
                &&& class.has(s[i])
                &&& forall|j: int| i < j < end ==> !class.has(#[trigger] s[j])
            },
            None => forall|j: int| 0 <= j < end ==> !class.has(#[trigger] s[j]),
        },
    decreases end,
{
    if end > 0 && !class.has(s[end - 1]) {
        lemma_find_back(s, class, end - 1);
    }
}

/// Dropping repetitions keeps the order of first appearance: what is kept of the
/// front of a list stands at the front of what is kept of the list.
pub proof fn law_repetitions_leave_the_order(items: Seq<Seq<char>>, n: int)
    requires
        0 <= n <= items.len(),
    ensures
        distinct(items.take(n)).len() <= distinct(items).len(),
        distinct(items).take(distinct(items.take(n)).len() as int) == distinct(items.take(n)),
    decreases items.len() - n,
{
    if n < items.len() {
        law_repetitions_leave_the_order(items, n + 1);
        assert(items.take(n + 1).drop_last() == items.take(n));
        let front = distinct(items.take(n));
        let more = distinct(items.take(n + 1));
        let all = distinct(items);
        assert(more.take(front.len() as int) == front);
        assert(all.take(front.len() as int) == all.take(more.len() as int).take(
            front.len() as int,
        ));
    } else {
        assert(items.take(n) == items);
        assert(distinct(items).take(distinct(items).len() as int) == distinct(items));
    }
}

/// Dropping a class of characters drops those and no others, wherever they stand.
pub proof fn law_dropped_characters_are_those_of_the_class(
    a: Seq<char>,
    c: char,
    b: Seq<char>,
    class: CharClass,
)
    ensures
        without(a + b, class) == without(a, class) + without(b, class),
        class.has(c) ==> without(seq![c], class) == Seq::<char>::empty(),
        !class.has(c) ==> without(seq![c], class) == seq![c],
    decreases b.len(),
{
    assert(seq![c].drop_last() == Seq::<char>::empty());
    assert(without(Seq::<char>::empty(), class) == Seq::<char>::empty());
    if b.len() == 0 {
        assert(a + b == a);
    } else {
        law_dropped_characters_are_those_of_the_class(a, c, b.drop_last(), class);
        assert((a + b).drop_last() == a + b.drop_last());
    }
}

/// Joining puts the separator between any two parts and nowhere else.
pub proof fn law_joined_parts_stand_in_order(
    a: Seq<Seq<char>>,
    b: Seq<Seq<char>>,
    separator: Seq<char>,
)
    requires
        a.len() > 0,
        b.len() > 0,
    ensures
        joined(a + b, separator) == joined(a, separator) + separator + joined(b, separator),
        joined(seq![a[0]], separator) == a[0],
    decreases b.len(),
{
    let all = a + b;
    assert(all.drop_last() == a + b.drop_last());
    assert(all.last() == b.last());
    if b.len() == 1 {
        assert(a + b.drop_last() == a);
    } else {
        law_joined_parts_stand_in_order(a, b.drop_last(), separator);
        assert(joined(a, separator) + separator + joined(b.drop_last(), separator) + separator
            + b.last() == joined(a, separator) + separator + joined(b, separator));
    }
}

/// White space around a text is trimmed away, and nothing else is.
pub proof fn law_white_space_around_is_trimmed(before: Seq<char>, s: Seq<char>, after: Seq<char>)
    requires
        s.len() > 0,
        !white_space(s[0]),
        !white_space(s.last()),
        forall|i: int| 0 <= i < before.len() ==> white_space(#[trigger] before[i]),
        forall|i: int| 0 <= i < after.len() ==> white_space(#[trigger] after[i]),
    ensures
        trimmed(before + s + after) == s,
        trimmed_start(before + s + after) == s + after,
        trimmed(before) == Seq::<char>::empty(),
{
    let all = before + s + after;
    let n = before.len() as int;
    let m = s.len() as int;
    assert forall|j: int| 0 <= j < n implies CharClass::Space.has(#[trigger] all[j]) by {
        assert(all[j] == before[j]);
    }
    assert(all[n] == s[0]);
    lemma_skip_leading_is(all, CharClass::Space, n);
    let rest = all.skip(n);
    assert(rest == s + after);
    assert forall|j: int| m <= j < rest.len() implies CharClass::Space.has(#[trigger] rest[j]) by {
        assert(rest[j] == after[j - m]);
    }
    assert(rest[m - 1] == s.last());
    lemma_skip_trailing_is(rest, CharClass::Space, m);
    assert(rest.take(m) == s);
    assert forall|j: int| 0 <= j < n implies CharClass::Space.has(#[trigger] before[j]) by {}
    lemma_skip_leading_is(before, CharClass::Space, n);
    let none = before.skip(n);
    lemma_skip_trailing_is(none, CharClass::Space, 0);
    assert(trimmed(before) == Seq::<char>::empty());
}

/// A part occurs wherever it stands, and opens a text that it stands in front of.
pub proof fn law_parts_occur_where_they_stand(a: Seq<char>, part: Seq<char>, b: Seq<char>)
    ensures
        occurs_in(a + part + b, part),
        occurs_at(a + part + b, part, a.len() as int),
        opens_with(part + b, part),
        part.len() > a.len() ==> !occurs_in(a, part),
{
    let all = a + part + b;
    let n = a.len() as int;
    assert(all.subrange(n, n + part.len()) == part);
    assert(occurs_at(all, part, n));
    assert((part + b).subrange(0, part.len() as int) == part);
}

/// A text is cut at the first character of a class: what stands before has none.
pub proof fn law_texts_are_cut_at_the_first(a: Seq<char>, c: char, b: Seq<char>)
    requires
        !has_any(a, CharClass::One(c)),
    ensures
        cut(a + seq![c] + b, CharClass::One(c)) == Some((a, b)),
        cut(a, CharClass::One(c)) is None,
{
    let all = a + seq![c] + b;
    let n = a.len() as int;
    let class = CharClass::One(c);
    assert forall|j: int| 0 <= j < n implies !class.has(#[trigger] a[j]) by {
        if class.has(a[j]) {
            assert(has_any(a, class));
        }
    }
    assert forall|j: int| 0 <= j < n implies !class.has(#[trigger] all[j]) by {
        assert(all[j] == a[j]);
    }
    assert(all[n] == c);
    lemma_find_is(all, class, n);
    lemma_find_none(a, class);
    assert(all.take(n) == a);
    assert(all.skip(n + 1) == b);
}

/// A line ends in a line feed, with or without a carriage return before it; what
/// follows are further lines, and the last line need not end.
pub proof fn law_lines_end_in_line_feeds(line: Seq<char>, rest: Seq<char>)
    requires
        !has_any(line, CharClass::One('\n')),
    ensures
        lines(line + seq!['\r', '\n'] + rest) == seq![line] + lines(rest),
        line.len() == 0 || line.last() != '\r' ==> lines(line + seq!['\n'] + rest) == seq![line]
            + lines(rest),
        line.len() > 0 ==> lines(line) == seq![line],
{
    let class = CharClass::One('\n');
    let n = line.len() as int;
    assert forall|j: int| 0 <= j < n implies !class.has(#[trigger] line[j]) by {
        if class.has(line[j]) {
            assert(has_any(line, class));
        }
    }
    lemma_find_none(line, class);
    let long = line + seq!['\r', '\n'] + rest;
    assert forall|j: int| 0 <= j < n + 1 implies !class.has(#[trigger] long[j]) by {
        if j < n {
            assert(long[j] == line[j]);
        } else {
            assert(long[j] == '\r');
        }
    }
    assert(long[n + 1] == '\n');
    lemma_find_is(long, class, n + 1);
    let front = long.take(n + 1);
    assert(front == line.push('\r'));
    assert(chomped(front) == line) by {
        assert(front.drop_last() == line);
    }
    assert(long.skip(n + 2) == rest);
    let short = line + seq!['\n'] + rest;
    assert forall|j: int| 0 <= j < n implies !class.has(#[trigger] short[j]) by {
        assert(short[j] == line[j]);
    }
    assert(short[n] == '\n');
    lemma_find_is(short, class, n);
    assert(short.take(n) == line);
    assert(short.skip(n + 1) == rest);
}

/// A negative number is written with a minus sign in front.
pub proof fn law_negative_numbers_have_a_minus_sign(n: nat)
    ensures
        decimal_int(n as int) == decimal(n),
        n > 0 ==> decimal_int(-(n as int)) == seq!['-'] + decimal(n),
{
}

/// Texts are put in order by their first difference, and a text comes before what
/// goes on with it.
pub proof fn law_texts_are_in_dictionary_order(
    front: Seq<char>,
    a: char,
    b: char,
    x: Seq<char>,
    y: Seq<char>,
)
    ensures
        a < b ==> precedes(front + seq![a] + x, front + seq![b] + y),
        precedes(front, front + seq![a] + x),
        !precedes(front, front),
    decreases front.len(),
{
    let left = front + seq![a] + x;
    let right = front + seq![b] + y;
    if front.len() > 0 {
        law_texts_are_in_dictionary_order(front.drop_first(), a, b, x, y);
        assert(left.drop_first() == front.drop_first() + seq![a] + x);
        assert(right.drop_first() == front.drop_first() + seq![b] + y);
        assert(left[0] == front[0] && right[0] == front[0]);
    } else {
        assert(left[0] == a && right[0] == b);
    }
}

} // verus!
