//! Structured thread queries.
//!
//! The language is small: terms are combined with AND, a leading `-` negates a
//! term, and a term without a field looks at subject, sender and message
//! identifier.

use crate::dates;
use crate::mail_store::RowView;
use crate::mail_store::ThreadRow;
use crate::text;
use crate::text::CharClass;
use vstd::prelude::*;
use vstd::slice::slice_subrange;

verus! {

/// What a query term looks at.
#[derive(Debug, Clone, Copy, PartialEq, Eq, Structural)]
pub enum QueryField {
    Any,
    Subject,
    From,
    MessageId,
    After,
    Before,
    Review,
    Patch,
}

/// One term of a query.
#[derive(Debug, Clone, PartialEq, Eq)]
pub struct QueryTerm {
    pub field: QueryField,
    pub value: String,
    pub negated: bool,
}

/// A query: all of its terms have to hold.
#[derive(Debug, Clone, PartialEq, Eq)]
pub struct ThreadQuery {
    pub terms: Vec<QueryTerm>,
}

/// A term with its value as text.
pub struct TermView {
    pub field: QueryField,
    pub value: Seq<char>,
    pub negated: bool,
}

impl View for QueryTerm {
    type V = TermView;

    open spec fn view(&self) -> TermView {
        TermView { field: self.field, value: self.value@, negated: self.negated }
    }
}

/// The texts of a list of terms.
pub open spec fn term_views(v: Seq<QueryTerm>) -> Seq<TermView> {
    Seq::new(v.len(), |i: int| v[i]@)
}

impl View for ThreadQuery {
    type V = Seq<TermView>;

    open spec fn view(&self) -> Seq<TermView> {
        term_views(self.terms@)
    }
}

// ---------------------------------------------------------------------------
// Tokens
// ---------------------------------------------------------------------------

/// How far a query has been read.
#[verifier::ext_equal]
pub struct Scan {
    pub tokens: Seq<Seq<char>>,
    pub current: Seq<char>,
    pub quote: Option<char>,
    pub escaped: bool,
}

/// Reads one more character. A backslash keeps the next character as it is;
/// quotes keep white space inside a token.
pub open spec fn scan_step(scan: Scan, c: char) -> Scan {
    if scan.escaped {
        Scan { current: scan.current.push(c), escaped: false, ..scan }
    } else if c == '\\' {
        Scan { escaped: true, ..scan }
    } else if scan.quote is Some {
        if scan.quote == Some(c) {
            Scan { quote: None, ..scan }
        } else {
            Scan { current: scan.current.push(c), ..scan }
        }
    } else if c == '\'' || c == '"' {
        Scan { quote: Some(c), ..scan }
    } else if text::white_space(c) {
        if scan.current.len() > 0 {
            Scan { tokens: scan.tokens.push(scan.current), current: seq![], ..scan }
        } else {
            scan
        }
    } else {
        Scan { current: scan.current.push(c), ..scan }
    }
}

/// The state after the first `n` characters.
pub open spec fn scanned(input: Seq<char>, n: int) -> Scan
    decreases n,
{
    if n <= 0 {
        Scan { tokens: seq![], current: seq![], quote: None, escaped: false }
    } else {
        scan_step(scanned(input, n - 1), input[n - 1])
    }
}

/// The tokens of a query, or the complaint about a quote that stays open. A
/// backslash at the very end stands for itself.
pub open spec fn tokens_of(input: Seq<char>) -> Result<Seq<Seq<char>>, Seq<char>> {
    let scan = scanned(input, input.len() as int);
    let current = if scan.escaped {
        scan.current.push('\\')
    } else {
        scan.current
    };
    match scan.quote {
        Some(quote) => Err("unterminated query quote "@.push(quote)),
        None => if current.len() > 0 {
            Ok(scan.tokens.push(current))
        } else {
            Ok(scan.tokens)
        },
    }
}

/// Splits a query into its tokens.
pub fn tokenize(input: &str) -> (r: Result<Vec<String>, String>)
    ensures
        match r {
            Ok(tokens) => tokens_of(input@) == Ok::<Seq<Seq<char>>, Seq<char>>(text::texts(tokens@)),
            Err(message) => tokens_of(input@) == Err::<Seq<Seq<char>>, Seq<char>>(message@),
        },
{
    let s = text::chars_of(input);
    let mut tokens: Vec<String> = Vec::new();
    let mut current: Vec<char> = Vec::new();
    let mut quote: Option<char> = None;
    let mut escaped = false;
    let mut i: usize = 0;
    assert(text::texts(tokens@) == scanned(s@, 0).tokens);
    while i < s.len()
        invariant
            i <= s.len(),
            s@ == input@,
            (Scan { tokens: text::texts(tokens@), current: current@, quote, escaped }) == scanned(
                s@,
                i as int,
            ),
        decreases s.len() - i,
    {
        let c = s[i];
        let ghost before = tokens@;
        let ghost was = scanned(s@, i as int);
        if escaped {
            current.push(c);
            escaped = false;
        } else if c == '\\' {
            escaped = true;
        } else if let Some(expected) = quote {
            if c == expected {
                quote = None;
            } else {
                current.push(c);
            }
        } else if c == '\'' || c == '"' {
            quote = Some(c);
        } else if CharClass::Space.test(c) {
            if current.len() > 0 {
                let token = text::string_of(current.as_slice());
                tokens.push(token);
                assert(text::texts(tokens@) == text::texts(before).push(token@));
                current = Vec::new();
            }
        } else {
            current.push(c);
        }
        i += 1;
        assert((Scan { tokens: text::texts(tokens@), current: current@, quote, escaped }) == scan_step(
            was,
            c,
        ));
    }
    if escaped {
        current.push('\\');
    }
    if let Some(open) = quote {
        let mut message = text::chars_of("unterminated query quote ");
        message.push(open);
        return Err(text::string_of(message.as_slice()));
    }
    if current.len() > 0 {
        let ghost before = tokens@;
        let token = text::string_of(current.as_slice());
        tokens.push(token);
        assert(text::texts(tokens@) == text::texts(before).push(token@));
    }
    Ok(tokens)
}

// ---------------------------------------------------------------------------
// Terms
// ---------------------------------------------------------------------------

/// The field that a lower-case name stands for.
pub open spec fn field_named(name: Seq<char>) -> Option<QueryField> {
    if name == "subject"@ || name == "subj"@ {
        Some(QueryField::Subject)
    } else if name == "from"@ || name == "sender"@ {
        Some(QueryField::From)
    } else if name == "id"@ || name == "message"@ || name == "message-id"@ {
        Some(QueryField::MessageId)
    } else if name == "after"@ {
        Some(QueryField::After)
    } else if name == "before"@ {
        Some(QueryField::Before)
    } else if name == "review"@ {
        Some(QueryField::Review)
    } else if name == "is"@ {
        Some(QueryField::Patch)
    } else {
        None
    }
}

/// A term with a value in normal form, or the complaint about a missing value.
pub open spec fn term_with(
    field: QueryField,
    value: Seq<char>,
    negated: bool,
    body: Seq<char>,
) -> Result<TermView, Seq<char>> {
    let value = text::lowered(text::trimmed(value));
    if value.len() == 0 {
        Err("query term '"@ + body + "' is missing a value"@)
    } else {
        Ok(TermView { field, value, negated })
    }
}

/// What a token says, before its value is looked at.
pub open spec fn token_term(token: Seq<char>) -> Result<TermView, Seq<char>> {
    let negated = token.len() > 0 && token[0] == '-';
    let body = if negated {
        token.skip(1)
    } else {
        token
    };
    if body.len() == 0 {
        Err("query term '-' is missing a value"@)
    } else {
        match text::cut(body, CharClass::One(':')) {
            Some((name, value)) => match field_named(text::lowered(name)) {
                Some(field) => term_with(field, value, negated, body),
                None => Err(
                    "unknown query field '"@ + name
                        + "'; use subject:, from:, id:, after:, before:, review:, or is:patch"@,
                ),
            },
            None => term_with(QueryField::Any, body, negated, body),
        }
    }
}

/// Whether a value names a review status.
pub open spec fn review_value(value: Seq<char>) -> bool {
    value == "needs-review"@ || value == "reviewed"@ || value == "all"@ || value == "none"@
}

/// A term whose value suits its field, or the complaint. `day` is the day that
/// the value names as a date.
pub open spec fn checked_term(term: TermView, day: Option<i32>) -> Result<TermView, Seq<char>> {
    if (term.field == QueryField::After || term.field == QueryField::Before) && day is None {
        Err("invalid date '"@ + term.value + "'; use YYYY-MM-DD"@)
    } else if term.field == QueryField::Review && !review_value(term.value) {
        Err(
            "invalid review status '"@ + term.value
                + "'; use needs-review, reviewed, all, or none"@,
        )
    } else if term.field == QueryField::Patch && term.value != "patch"@ {
        Err("invalid is: value '"@ + term.value + "'; only is:patch is supported"@)
    } else {
        Ok(term)
    }
}

/// The term that a token states.
pub open spec fn term_of(token: Seq<char>) -> Result<TermView, Seq<char>> {
    match token_term(token) {
        Ok(term) => checked_term(term, dates::query_day(term.value)),
        Err(message) => Err(message),
    }
}

/// The terms of the first `n` tokens, or the first complaint.
pub open spec fn terms_of(tokens: Seq<Seq<char>>, n: int) -> Result<Seq<TermView>, Seq<char>>
    decreases n,
{
    if n <= 0 {
        Ok(seq![])
    } else {
        match terms_of(tokens, n - 1) {
            Ok(terms) => match term_of(tokens[n - 1]) {
                Ok(term) => Ok(terms.push(term)),
                Err(message) => Err(message),
            },
            Err(message) => Err(message),
        }
    }
}

/// The terms of a query, or the first complaint about it.
pub open spec fn query_of(input: Seq<char>) -> Result<Seq<TermView>, Seq<char>> {
    match tokens_of(input) {
        Ok(tokens) => terms_of(tokens, tokens.len() as int),
        Err(message) => Err(message),
    }
}

/// A complaint around a piece of the query.
fn complaint(prefix: &str, piece: &[char], suffix: &str) -> (r: String)
    ensures
        r@ == prefix@ + piece@ + suffix@,
{
    let mut out = text::chars_of(prefix);
    text::append(&mut out, piece);
    let tail = text::chars_of(suffix);
    text::append(&mut out, tail.as_slice());
    text::string_of(out.as_slice())
}

/// Decides whether a text is a literal.
fn is_literal(s: &[char], literal: &str) -> (r: bool)
    ensures
        r == (s@ == literal@),
{
    let wanted = text::chars_of(literal);
    text::same_text(s, wanted.as_slice())
}

/// Finds the field that a lower-case name stands for.
fn find_field(name: &[char]) -> (r: Option<QueryField>)
    ensures
        r == field_named(name@),
{
    if is_literal(name, "subject") || is_literal(name, "subj") {
        Some(QueryField::Subject)
    } else if is_literal(name, "from") || is_literal(name, "sender") {
        Some(QueryField::From)
    } else if is_literal(name, "id") || is_literal(name, "message") || is_literal(
        name,
        "message-id",
    ) {
        Some(QueryField::MessageId)
    } else if is_literal(name, "after") {
        Some(QueryField::After)
    } else if is_literal(name, "before") {
        Some(QueryField::Before)
    } else if is_literal(name, "review") {
        Some(QueryField::Review)
    } else if is_literal(name, "is") {
        Some(QueryField::Patch)
    } else {
        None
    }
}

/// Brings the value of a term into normal form.
fn finish_value(field: QueryField, value: &[char], negated: bool, body: &[char]) -> (r: Result<
    QueryTerm,
    String,
>)
    ensures
        match r {
            Ok(term) => term_with(field, value@, negated, body@) == Ok::<TermView, Seq<char>>(
                term@,
            ),
            Err(message) => term_with(field, value@, negated, body@) == Err::<TermView, Seq<char>>(
                message@,
            ),
        },
{
    let low = text::lower(text::trim(value));
    if low.len() == 0 {
        return Err(complaint("query term '", body, "' is missing a value"));
    }
    Ok(QueryTerm { field, value: text::string_of(low.as_slice()), negated })
}

/// Reads what a token says, before its value is looked at.
pub fn read_token(token: &str) -> (r: Result<QueryTerm, String>)
    ensures
        match r {
            Ok(term) => token_term(token@) == Ok::<TermView, Seq<char>>(term@),
            Err(message) => token_term(token@) == Err::<TermView, Seq<char>>(message@),
        },
{
    let s = text::chars_of(token);
    let n = s.len();
    let negated = n > 0 && s[0] == '-';
    let body = if negated {
        slice_subrange(s.as_slice(), 1, n)
    } else {
        s.as_slice()
    };
    if body.len() == 0 {
        return Err("query term '-' is missing a value".to_string());
    }
    match text::split_once(body, &CharClass::One(':')) {
        Some((name, value)) => {
            let low = text::lower(name);
            match find_field(low.as_slice()) {
                Some(field) => finish_value(field, value, negated, body),
                None => Err(
                    complaint(
                        "unknown query field '",
                        name,
                        "'; use subject:, from:, id:, after:, before:, review:, or is:patch",
                    ),
                ),
            }
        },
        None => finish_value(QueryField::Any, body, negated, body),
    }
}

/// Checks the value of a term, given the day that it names as a date.
pub fn check_term(term: QueryTerm, day: Option<i32>) -> (r: Result<QueryTerm, String>)
    ensures
        match r {
            Ok(checked) => checked_term(term@, day) == Ok::<TermView, Seq<char>>(checked@),
            Err(message) => checked_term(term@, day) == Err::<TermView, Seq<char>>(message@),
        },
{
    let value = text::chars_of(term.value.as_str());
    let v = value.as_slice();
    if (term.field == QueryField::After || term.field == QueryField::Before) && day.is_none() {
        return Err(complaint("invalid date '", v, "'; use YYYY-MM-DD"));
    }
    if term.field == QueryField::Review && !(is_literal(v, "needs-review") || is_literal(
        v,
        "reviewed",
    ) || is_literal(v, "all") || is_literal(v, "none")) {
        return Err(
            complaint(
                "invalid review status '",
                v,
                "'; use needs-review, reviewed, all, or none",
            ),
        );
    }
    if term.field == QueryField::Patch && !is_literal(v, "patch") {
        return Err(complaint("invalid is: value '", v, "'; only is:patch is supported"));
    }
    Ok(term)
}

/// Parses a query, or explains what is wrong with it.
pub fn parse_query(input: &str) -> (r: Result<ThreadQuery, String>)
    ensures
        match r {
            Ok(query) => query_of(input@) == Ok::<Seq<TermView>, Seq<char>>(query@),
            Err(message) => query_of(input@) == Err::<Seq<TermView>, Seq<char>>(message@),
        },
{
    let tokens = match tokenize(input) {
        Ok(tokens) => tokens,
        Err(message) => {
            return Err(message);
        },
    };
    let ghost views = text::texts(tokens@);
    let mut terms: Vec<QueryTerm> = Vec::new();
    let mut i: usize = 0;
    assert(term_views(terms@) == Seq::<TermView>::empty());
    while i < tokens.len()
        invariant
            i <= tokens.len(),
            views == text::texts(tokens@),
            tokens_of(input@) == Ok::<Seq<Seq<char>>, Seq<char>>(views),
            terms_of(views, i as int) == Ok::<Seq<TermView>, Seq<char>>(term_views(terms@)),
        decreases tokens.len() - i,
    {
        let ghost before = terms@;
        assert(views[i as int] == tokens@[i as int]@);
        let term = match read_token(tokens[i].as_str()) {
            Ok(term) => term,
            Err(message) => {
                proof {
                    lemma_complaint_stays(views, i + 1);
                }
                return Err(message);
            },
        };
        let day = if term.field == QueryField::After || term.field == QueryField::Before {
            dates::parse_query_date(term.value.as_str())
        } else {
            None
        };
        let ghost said = term@;
        assert(checked_term(said, day) == checked_term(said, dates::query_day(said.value)));
        match check_term(term, day) {
            Ok(term) => {
                terms.push(term);
                assert(term_views(terms@) == term_views(before).push(term@));
            },
            Err(message) => {
                proof {
                    lemma_complaint_stays(views, i + 1);
                }
                return Err(message);
            },
        }
        i += 1;
    }
    Ok(ThreadQuery { terms })
}

/// The first complaint is the one that counts.
proof fn lemma_complaint_stays(tokens: Seq<Seq<char>>, n: int)
    requires
        0 <= n <= tokens.len(),
        terms_of(tokens, n) is Err,
    ensures
        terms_of(tokens, tokens.len() as int) == terms_of(tokens, n),
    decreases tokens.len() - n,
{
    if n < tokens.len() {
        assert(terms_of(tokens, n + 1) == terms_of(tokens, n));
        lemma_complaint_stays(tokens, n + 1);
    }
}

// ---------------------------------------------------------------------------
// Matching
// ---------------------------------------------------------------------------

/// Whether a text holds a lower-case part, whatever its own case.
pub open spec fn mentions(haystack: Seq<char>, needle: Seq<char>) -> bool {
    text::occurs_in(text::lowered(haystack), needle)
}

/// Whether a subject opens with a patch tag.
pub open spec fn patch_tagged(subject: Seq<char>) -> bool {
    ||| text::words(subject).len() > 0 && text::same_letters(text::words(subject)[0], "[patch]"@)
    ||| text::opens_with(text::lowered(subject), "[patch "@)
}

/// Whether a review status is the one that a term asks for.
pub open spec fn status_matches(status: Option<Seq<char>>, value: Seq<char>) -> bool {
    match status {
        Some(status) => text::same_letters(status, value) || (value == "all"@ && status != "none"@),
        None => false,
    }
}

/// Whether a row passes a term, given the day of the row and the day that the
/// term names.
pub open spec fn term_holds(
    term: TermView,
    row: RowView,
    status: Option<Seq<char>>,
    row_day: Option<i32>,
    term_day: Option<i32>,
) -> bool {
    let found = match term.field {
        QueryField::Any => mentions(row.subject, term.value) || mentions(row.from_addr, term.value)
            || mentions(row.message_id, term.value),
        QueryField::Subject => mentions(row.subject, term.value),
        QueryField::From => mentions(row.from_addr, term.value),
        QueryField::MessageId => mentions(row.message_id, term.value),
        QueryField::After => dates::days_match(row_day, term_day, true),
        QueryField::Before => dates::days_match(row_day, term_day, false),
        QueryField::Review => status_matches(status, term.value),
        QueryField::Patch => patch_tagged(row.subject),
    };
    found != term.negated
}

/// The day of a row.
pub open spec fn row_day(row: RowView) -> Option<i32> {
    match row.date {
        Some(date) => dates::message_day(date),
        None => None,
    }
}

/// Whether a row passes every term.
pub open spec fn passes(terms: Seq<TermView>, row: RowView, status: Option<Seq<char>>) -> bool {
    forall|i: int|
        0 <= i < terms.len() ==> term_holds(
            #[trigger] terms[i],
            row,
            status,
            row_day(row),
            dates::query_day(terms[i].value),
        )
}

/// The text of an optional borrowed string.
pub open spec fn opt_str(v: Option<&str>) -> Option<Seq<char>> {
    match v {
        Some(s) => Some(s@),
        None => None,
    }
}

/// Decides whether a text holds a lower-case part, whatever its own case.
pub fn contains_case_insensitive(haystack: &str, needle: &str) -> (r: bool)
    ensures
        r == mentions(haystack@, needle@),
{
    let all = text::chars_of(haystack);
    let low = text::lower(all.as_slice());
    let part = text::chars_of(needle);
    text::contains(low.as_slice(), part.as_slice())
}

/// Decides whether subject, sender or message identifier holds a part.
pub fn contains_any(row: &ThreadRow, value: &str) -> (r: bool)
    ensures
        r == (mentions(row@.subject, value@) || mentions(row@.from_addr, value@) || mentions(
            row@.message_id,
            value@,
        )),
{
    contains_case_insensitive(row.subject.as_str(), value) || contains_case_insensitive(
        row.from_addr.as_str(),
        value,
    ) || contains_case_insensitive(row.message_id.as_str(), value)
}

/// Decides whether a subject opens with a patch tag.
pub fn is_patch_subject(subject: &str) -> (r: bool)
    ensures
        r == patch_tagged(subject@),
{
    let all = text::chars_of(subject);
    let parts = text::split_words(all.as_slice());
    if parts.len() > 0 {
        assert(text::slices(parts@)[0] == parts@[0]@);
        let tag = text::chars_of("[patch]");
        if text::same_ignoring_case(parts[0], tag.as_slice()) {
            return true;
        }
    }
    let low = text::lower(all.as_slice());
    let opening = text::chars_of("[patch ");
    text::starts_with(low.as_slice(), opening.as_slice())
}

/// Decides whether a review status is the one that a term asks for.
fn status_is(status: Option<&str>, value: &str) -> (r: bool)
    ensures
        r == status_matches(opt_str(status), value@),
{
    match status {
        Some(status) => {
            let s = text::chars_of(status);
            let v = text::chars_of(value);
            text::same_ignoring_case(s.as_slice(), v.as_slice()) || (is_literal(v.as_slice(), "all")
                && !is_literal(s.as_slice(), "none"))
        },
        None => false,
    }
}

/// Decides whether a row passes a term, given the day of the row and the day
/// that the term names.
pub fn term_matches(
    term: &QueryTerm,
    row: &ThreadRow,
    review_status: Option<&str>,
    row_day: Option<i32>,
    term_day: Option<i32>,
) -> (r: bool)
    ensures
        r == term_holds(term@, row@, opt_str(review_status), row_day, term_day),
        term.field == QueryField::Subject ==> (r != term.negated) == text::occurs_in(
            text::lowered(row.subject@),
            term.value@,
        ),
        term.field == QueryField::From ==> (r != term.negated) == text::occurs_in(
            text::lowered(row.from_addr@),
            term.value@,
        ),
        term.field == QueryField::MessageId ==> (r != term.negated) == text::occurs_in(
            text::lowered(row.message_id@),
            term.value@,
        ),
{
    let value = term.value.as_str();
    let found = match term.field {
        QueryField::Any => contains_any(row, value),
        QueryField::Subject => contains_case_insensitive(row.subject.as_str(), value),
        QueryField::From => contains_case_insensitive(row.from_addr.as_str(), value),
        QueryField::MessageId => contains_case_insensitive(row.message_id.as_str(), value),
        QueryField::After => dates::compare_days(row_day, term_day, true),
        QueryField::Before => dates::compare_days(row_day, term_day, false),
        QueryField::Review => status_is(review_status, value),
        QueryField::Patch => is_patch_subject(row.subject.as_str()),
    };
    found != term.negated
}

impl ThreadQuery {
    /// Whether the query has no terms.
    pub fn is_empty(&self) -> (r: bool)
        ensures
            r == (self@.len() == 0),
    {
        self.terms.len() == 0
    }

    /// Decides whether a row passes every term of the query.
    pub fn matches(&self, row: &ThreadRow, review_status: Option<&str>) -> (r: bool)
        ensures
            r == passes(self@, row@, opt_str(review_status)),
    {
        let ghost terms = self@;
        let ghost status = opt_str(review_status);
        let mut i: usize = 0;
        while i < self.terms.len()
            invariant
                i <= self.terms.len(),
                terms == self@,
                status == opt_str(review_status),
                forall|j: int|
                    0 <= j < i ==> term_holds(
                        #[trigger] terms[j],
                        row@,
                        status,
                        row_day(row@),
                        dates::query_day(terms[j].value),
                    ),
            decreases self.terms.len() - i,
        {
            let term = &self.terms[i];
            assert(terms[i as int] == term@);
            let mut of_row: Option<i32> = None;
            let mut of_term: Option<i32> = None;
            if term.field == QueryField::After || term.field == QueryField::Before {
                of_term = dates::parse_query_date(term.value.as_str());
                if let Some(date) = &row.date {
                    of_row = dates::parse_message_date(date.as_str());
                }
            }
            let holds = term_matches(term, row, review_status, of_row, of_term);
            assert(holds == term_holds(
                terms[i as int],
                row@,
                status,
                row_day(row@),
                dates::query_day(terms[i as int].value),
            ));
            if !holds {
                return false;
            }
            i += 1;
        }
        true
    }
}

// ---------------------------------------------------------------------------
// Laws
// ---------------------------------------------------------------------------

/// No token is empty.
pub proof fn law_tokens_are_not_empty(input: Seq<char>)
    ensures
        tokens_of(input) matches Ok(tokens) ==> forall|i: int|
            0 <= i < tokens.len() ==> (#[trigger] tokens[i]).len() > 0,
{
    lemma_scanned_tokens(input, input.len() as int);
}

/// No token is empty that was read so far.
proof fn lemma_scanned_tokens(input: Seq<char>, n: int)
    ensures
        forall|i: int|
            0 <= i < scanned(input, n).tokens.len() ==> (#[trigger] scanned(
                input,
                n,
            ).tokens[i]).len() > 0,
    decreases n,
{
    if n > 0 {
        lemma_scanned_tokens(input, n - 1);
        let before = scanned(input, n - 1);
        let after = scanned(input, n);
        assert forall|i: int| 0 <= i < after.tokens.len() implies (
        #[trigger] after.tokens[i]).len() > 0 by {
            if i < before.tokens.len() {
                assert(after.tokens[i] == before.tokens[i]);
            }
        }
    }
}

/// Text without quotes, backslashes and white space is one token.
pub proof fn law_plain_text_is_one_token(input: Seq<char>)
    requires
        input.len() > 0,
        forall|i: int|
            0 <= i < input.len() ==> !text::white_space(#[trigger] input[i]) && input[i] != '\''
                && input[i] != '"' && input[i] != '\\',
    ensures
        tokens_of(input) == Ok::<Seq<Seq<char>>, Seq<char>>(seq![input]),
{
    lemma_plain_scan(input, input.len() as int);
    assert(input.take(input.len() as int) == input);
    assert(Seq::<Seq<char>>::empty().push(input) == seq![input]);
}

/// Plain text is kept as it stands.
proof fn lemma_plain_scan(input: Seq<char>, n: int)
    requires
        0 <= n <= input.len(),
        forall|i: int|
            0 <= i < input.len() ==> !text::white_space(#[trigger] input[i]) && input[i] != '\''
                && input[i] != '"' && input[i] != '\\',
    ensures
        scanned(input, n) == (Scan {
            tokens: seq![],
            current: input.take(n),
            quote: None,
            escaped: false,
        }),
    decreases n,
{
    if n > 0 {
        lemma_plain_scan(input, n - 1);
        assert(!text::white_space(input[n - 1]));
        assert(input.take(n) == input.take(n - 1).push(input[n - 1]));
    }
}

/// A row passes two lists of terms together exactly when it passes each: terms
/// are combined with AND. No terms at all are passed by every row.
pub proof fn law_terms_combine_with_and(
    left: Seq<TermView>,
    right: Seq<TermView>,
    row: RowView,
    status: Option<Seq<char>>,
)
    ensures
        passes(left + right, row, status) <==> passes(left, row, status) && passes(
            right,
            row,
            status,
        ),
        passes(seq![], row, status),
{
    let both = left + right;
    if passes(left, row, status) && passes(right, row, status) {
        assert forall|i: int| 0 <= i < both.len() implies term_holds(
            #[trigger] both[i],
            row,
            status,
            row_day(row),
            dates::query_day(both[i].value),
        ) by {
            if i < left.len() {
                assert(both[i] == left[i]);
            } else {
                assert(both[i] == right[i - left.len()]);
            }
        }
    }
    if passes(both, row, status) {
        assert forall|i: int| 0 <= i < left.len() implies term_holds(
            #[trigger] left[i],
            row,
            status,
            row_day(row),
            dates::query_day(left[i].value),
        ) by {
            assert(both[i] == left[i]);
        }
        assert forall|i: int| 0 <= i < right.len() implies term_holds(
            #[trigger] right[i],
            row,
            status,
            row_day(row),
            dates::query_day(right[i].value),
        ) by {
            assert(both[i + left.len()] == right[i]);
        }
    }
}

/// A leading `-` negates a term: it fails for the same reason as the term, or
/// it holds of exactly the rows of which the term does not.
pub proof fn law_dash_negates_a_term(
    token: Seq<char>,
    row: RowView,
    status: Option<Seq<char>>,
    row_day: Option<i32>,
    term_day: Option<i32>,
)
    requires
        token.len() > 0,
        token[0] != '-',
    ensures
        match term_of(token) {
            Ok(term) => {
                &&& term_of(seq!['-'] + token) == Ok::<TermView, Seq<char>>(
                    TermView { negated: true, ..term },
                )
                &&& !term.negated
                &&& term_holds(TermView { negated: true, ..term }, row, status, row_day, term_day)
                    == !term_holds(term, row, status, row_day, term_day)
            },
            Err(message) => term_of(seq!['-'] + token) == Err::<TermView, Seq<char>>(message),
        },
{
    let negated = seq!['-'] + token;
    assert(negated.skip(1) == token);
}

/// Every term of a query that parses has a value in lower case without white
/// space around it, and a value that suits its field: a date filter names a
/// day, a review filter a status.
pub proof fn law_parsed_terms_are_checked(input: Seq<char>)
    ensures
        query_of(input) matches Ok(terms) ==> forall|i: int|
            0 <= i < terms.len() ==> sound_term(#[trigger] terms[i]),
{
    if let Ok(tokens) = tokens_of(input) {
        lemma_terms_are_sound(tokens, tokens.len() as int);
    }
}

/// A term whose value is in normal form and suits its field.
pub open spec fn sound_term(term: TermView) -> bool {
    &&& term.value.len() > 0
    &&& text::lowered(term.value) == term.value
    &&& !text::white_space(term.value[0]) && !text::white_space(term.value.last())
    &&& term.field == QueryField::After || term.field == QueryField::Before
        ==> dates::query_day(term.value) is Some
    &&& term.field == QueryField::Review ==> review_value(term.value)
    &&& term.field == QueryField::Patch ==> term.value == "patch"@
}

/// The terms of the first tokens are sound.
proof fn lemma_terms_are_sound(tokens: Seq<Seq<char>>, n: int)
    ensures
        terms_of(tokens, n) matches Ok(terms) ==> forall|i: int|
            0 <= i < terms.len() ==> sound_term(#[trigger] terms[i]),
    decreases n,
{
    if n > 0 {
        lemma_terms_are_sound(tokens, n - 1);
        if let Ok(terms) = terms_of(tokens, n) {
            let before = terms_of(tokens, n - 1)->Ok_0;
            let token = tokens[n - 1];
            lemma_token_term(token);
            assert forall|i: int| 0 <= i < terms.len() implies sound_term(#[trigger] terms[i]) by {
                if i < before.len() {
                    assert(terms[i] == before[i]);
                }
            }
        }
    }
}

/// The value of a token is in normal form.
proof fn lemma_token_term(token: Seq<char>)
    ensures
        token_term(token) matches Ok(term) ==> {
            &&& term.value.len() > 0
            &&& text::lowered(term.value) == term.value
            &&& !text::white_space(term.value[0]) && !text::white_space(term.value.last())
        },
{
    if token_term(token) is Ok {
        let body = if token.len() > 0 && token[0] == '-' {
            token.skip(1)
        } else {
            token
        };
        let raw = match text::cut(body, CharClass::One(':')) {
            Some((name, value)) => value,
            None => body,
        };
        let value = text::lowered(text::trimmed(raw));
        text::lemma_stripped(raw, CharClass::Space);
        text::lemma_lowered_twice(text::trimmed(raw));
        assert(value[0] == text::lower_char(text::trimmed(raw)[0]));
        assert(value.last() == text::lower_char(text::trimmed(raw).last()));
    }
}

/// Two query texts, joined by a space.
pub open spec fn joined_queries(left: Seq<char>, right: Seq<char>) -> Seq<char> {
    left.push(' ') + right
}

/// Two query texts joined by a space ask for what both ask for: the terms of the
/// one come before those of the other, a row passes the whole exactly when it
/// passes each, and a complaint about the second is the complaint about the
/// whole. The first text must not end in a backslash that would keep the space.
pub proof fn law_joined_queries_ask_for_both(
    left: Seq<char>,
    right: Seq<char>,
    row: RowView,
    status: Option<Seq<char>>,
)
    requires
        !scanned(left, left.len() as int).escaped,
        query_of(left) is Ok,
    ensures
        match (query_of(left), query_of(right)) {
            (Ok(first), Ok(second)) => {
                &&& query_of(joined_queries(left, right)) == Ok::<Seq<TermView>, Seq<char>>(
                    first + second,
                )
                &&& passes(first + second, row, status) == (passes(first, row, status) && passes(
                    second,
                    row,
                    status,
                ))
            },
            (_, Err(message)) => query_of(joined_queries(left, right)) == Err::<
                Seq<TermView>,
                Seq<char>,
            >(message),
            _ => true,
        },
{
    let whole = joined_queries(left, right);
    let n = left.len() as int;
    let m = right.len() as int;
    assert(whole.take(n) == left);
    lemma_scanned_front(left, whole, n);
    assert(whole[n] == ' ');
    let first = tokens_of(left)->Ok_0;
    let middle = scanned(whole, n + 1);
    assert(middle == scan_step(scanned(left, n), ' '));
    assert(middle.tokens == first);
    assert(middle.current == Seq::<char>::empty());
    assert(whole.skip(n + 1) == right);
    lemma_scanned_back(whole, right, n + 1, m);
    match tokens_of(right) {
        Ok(second) => {
            assert(tokens_of(whole)->Ok_0 == first + second);
            lemma_terms_joined(first, second, second.len() as int);
            match terms_of(second, second.len() as int) {
                Ok(_) => {
                    law_terms_combine_with_and(
                        query_of(left)->Ok_0,
                        query_of(right)->Ok_0,
                        row,
                        status,
                    );
                },
                Err(_) => {},
            }
        },
        Err(_) => {},
    }
}

/// The front of a text is read as it is read alone.
proof fn lemma_scanned_front(front: Seq<char>, whole: Seq<char>, n: int)
    requires
        0 <= n <= front.len() <= whole.len(),
        whole.take(front.len() as int) == front,
    ensures
        scanned(whole, n) == scanned(front, n),
    decreases n,
{
    if n > 0 {
        lemma_scanned_front(front, whole, n - 1);
        assert(whole[n - 1] == whole.take(front.len() as int)[n - 1]);
    }
}

/// After a complete token, the rest of a text is read as it is read alone.
proof fn lemma_scanned_back(whole: Seq<char>, back: Seq<char>, start: int, n: int)
    requires
        0 <= start,
        0 <= n <= back.len(),
        whole.len() == start + back.len(),
        whole.skip(start) == back,
        scanned(whole, start).current.len() == 0,
        scanned(whole, start).quote is None,
        !scanned(whole, start).escaped,
    ensures
        scanned(whole, start + n) == (Scan {
            tokens: scanned(whole, start).tokens + scanned(back, n).tokens,
            ..scanned(back, n)
        }),
    decreases n,
{
    let before = scanned(whole, start).tokens;
    if n > 0 {
        lemma_scanned_back(whole, back, start, n - 1);
        assert(whole[start + n - 1] == whole.skip(start)[n - 1]);
        let was = scanned(back, n - 1);
        assert(before + was.tokens.push(was.current) == (before + was.tokens).push(was.current));
    } else {
        assert(before + Seq::<Seq<char>>::empty() == before);
        assert(scanned(whole, start).current == Seq::<char>::empty());
    }
}

/// Terms are read token by token.
proof fn lemma_terms_joined(first: Seq<Seq<char>>, second: Seq<Seq<char>>, n: int)
    requires
        0 <= n <= second.len(),
        terms_of(first, first.len() as int) is Ok,
    ensures
        match terms_of(second, n) {
            Ok(terms) => terms_of(first + second, first.len() + n) == Ok::<
                Seq<TermView>,
                Seq<char>,
            >(terms_of(first, first.len() as int)->Ok_0 + terms),
            Err(message) => terms_of(first + second, first.len() + n) == Err::<
                Seq<TermView>,
                Seq<char>,
            >(message),
        },
    decreases n,
{
    if n > 0 {
        lemma_terms_joined(first, second, n - 1);
        assert((first + second)[first.len() + n - 1] == second[n - 1]);
        if let Ok(terms) = terms_of(second, n - 1) {
            if let Ok(term) = term_of(second[n - 1]) {
                let before = terms_of(first, first.len() as int)->Ok_0;
                assert(before + terms.push(term) == (before + terms).push(term));
            }
        }
    } else {
        assert((first + second).take(first.len() as int) == first);
        lemma_terms_front(first, first + second, first.len() as int);
        let before = terms_of(first, first.len() as int)->Ok_0;
        assert(before + Seq::<TermView>::empty() == before);
    }
}

/// The terms of the first tokens do not depend on the others.
proof fn lemma_terms_front(first: Seq<Seq<char>>, all: Seq<Seq<char>>, n: int)
    requires
        0 <= n <= first.len() <= all.len(),
        all.take(first.len() as int) == first,
    ensures
        terms_of(all, n) == terms_of(first, n),
    decreases n,
{
    if n > 0 {
        lemma_terms_front(first, all, n - 1);
        assert(all[n - 1] == all.take(first.len() as int)[n - 1]);
    }
}

/// Each field looks where its name says: `subject:`, `from:` and `id:` at the
/// subject, the sender and the message identifier alone, a term without a field
/// at any of the three, `after:` and `before:` at the day, `review:` at the
/// status and `is:patch` at how the subject opens. Case does not matter in the
/// texts of a row.
pub proof fn law_fields_look_where_they_say(
    value: Seq<char>,
    row: RowView,
    status: Option<Seq<char>>,
    row_day: Option<i32>,
    term_day: Option<i32>,
)
    ensures
        term_holds(
            (TermView { field: QueryField::Subject, value, negated: false }),
            row,
            status,
            row_day,
            term_day,
        ) <==> text::occurs_in(text::lowered(row.subject), value),
        term_holds(
            (TermView { field: QueryField::From, value, negated: false }),
            row,
            status,
            row_day,
            term_day,
        ) <==> text::occurs_in(text::lowered(row.from_addr), value),
        term_holds(
            (TermView { field: QueryField::MessageId, value, negated: false }),
            row,
            status,
            row_day,
            term_day,
        ) <==> text::occurs_in(text::lowered(row.message_id), value),
        term_holds(
            (TermView { field: QueryField::Any, value, negated: false }),
            row,
            status,
            row_day,
            term_day,
        ) <==> text::occurs_in(text::lowered(row.subject), value) || text::occurs_in(
            text::lowered(row.from_addr),
            value,
        ) || text::occurs_in(text::lowered(row.message_id), value),
        term_holds(
            (TermView { field: QueryField::After, value, negated: false }),
            row,
            status,
            row_day,
            term_day,
        ) <==> row_day is Some && term_day is Some && row_day->0 >= term_day->0,
        term_holds(
            (TermView { field: QueryField::Before, value, negated: false }),
            row,
            status,
            row_day,
            term_day,
        ) <==> row_day is Some && term_day is Some && row_day->0 <= term_day->0,
        term_holds(
            (TermView { field: QueryField::Review, value, negated: false }),
            row,
            status,
            row_day,
            term_day,
        ) <==> status is Some && (text::lowered(status->0) == text::lowered(value) || (value
            == "all"@ && status->0 != "none"@)),
        term_holds(
            (TermView { field: QueryField::Patch, value, negated: false }),
            row,
            status,
            row_day,
            term_day,
        ) <==> patch_tagged(row.subject),
{
}

/// A negated term holds of exactly the rows of which the term does not, whatever
/// it looks at.
pub proof fn law_negated_terms_hold_of_the_others(
    term: TermView,
    row: RowView,
    status: Option<Seq<char>>,
    row_day: Option<i32>,
    term_day: Option<i32>,
)
    ensures
        term_holds((TermView { negated: true, ..term }), row, status, row_day, term_day)
            == !term_holds((TermView { negated: false, ..term }), row, status, row_day, term_day),
{
}

/// A query looks at the day of a row and at the day that each term names, and a
/// row passes it exactly when it passes each term.
pub proof fn law_queries_hold_of_rows_that_pass_each_term(
    terms: Seq<TermView>,
    row: RowView,
    status: Option<Seq<char>>,
)
    ensures
        passes(terms, row, status) <==> forall|i: int|
            0 <= i < terms.len() ==> term_holds(
                #[trigger] terms[i],
                row,
                status,
                match row.date {
                    Some(date) => dates::message_day(date),
                    None => None,
                },
                dates::calendar_day(terms[i].value, "%Y-%m-%d"@),
            ),
{
}

/// A subject is that of a patch exactly when it opens with a tag that says so:
/// with `[patch` and a space, or with the word `[patch]`, in any case.
pub proof fn law_patch_subjects_open_with_the_tag(tag: Seq<char>, rest: Seq<char>, subject: Seq<char>)
    ensures
        text::same_letters(tag, "[patch "@) ==> patch_tagged(tag + rest),
        text::same_letters(tag, "[patch]"@) && (rest.len() > 0 ==> text::white_space(rest[0]))
            ==> patch_tagged(tag + rest),
        patch_tagged(subject) ==> text::opens_with(
            text::lowered(text::trimmed_start(subject)),
            "[patch"@,
        ),
{
    reveal_strlit("[patch ");
    reveal_strlit("[patch]");
    reveal_strlit("[patch");
    let all = tag + rest;
    if text::same_letters(tag, "[patch "@) {
        assert(text::lowered("[patch "@) == "[patch "@);
        assert forall|i: int| 0 <= i < 7 implies text::lowered(all)[i] == "[patch "@[i] by {
            assert(text::lowered(tag)[i] == text::lower_char(tag[i]));
            assert(all[i] == tag[i]);
        }
        assert(text::lowered(all).subrange(0, 7) == "[patch "@);
    }
    if text::same_letters(tag, "[patch]"@) && (rest.len() > 0 ==> text::white_space(rest[0])) {
        assert(text::lowered("[patch]"@) == "[patch]"@);
        assert forall|i: int| 0 <= i < 7 implies !text::white_space(#[trigger] tag[i])
            && text::lower_char(tag[i]) == "[patch]"@[i] by {
            assert(text::lowered(tag)[i] == text::lower_char(tag[i]));
        }
        assert(tag.len() == 7) by {
            assert(text::lowered(tag).len() == 7);
        }
        assert forall|j: int| 0 <= j < 7 implies !CharClass::Space.has(#[trigger] all[j]) by {
            assert(all[j] == tag[j]);
        }
        text::lemma_skip_leading_is(all, CharClass::Space, 0);
        assert(all.skip(0) == all);
        if rest.len() > 0 {
            assert(all[7] == rest[0]);
            text::lemma_find_is(all, CharClass::Space, 7);
            assert(all.take(7) == tag);
        } else {
            assert(all == tag);
            text::lemma_find_none(all, CharClass::Space);
        }
        assert(text::words(all)[0] == tag);
    }
    if patch_tagged(subject) {
        let front = text::trimmed_start(subject);
        text::lemma_skip_leading(subject, CharClass::Space);
        if text::opens_with(text::lowered(subject), "[patch "@) {
            let low = text::lowered(subject);
            assert(low.subrange(0, 7)[0] == '[');
            assert(text::lower_char(subject[0]) == '[');
            text::lemma_skip_leading_is(subject, CharClass::Space, 0);
            assert(front == subject);
            assert forall|i: int| 0 <= i < 6 implies low[i] == "[patch"@[i] by {
                assert(low.subrange(0, 7)[i] == low[i]);
            }
            assert(low.subrange(0, 6) == "[patch"@);
        } else {
            let word = text::words(subject)[0];
            text::lemma_find_from(front, CharClass::Space, 0);
            assert(word == front.take(word.len() as int));
            assert(text::lowered("[patch]"@) == "[patch]"@);
            assert forall|i: int| 0 <= i < 6 implies text::lowered(front)[i] == "[patch"@[i] by {
                assert(text::lowered(word)[i] == text::lower_char(word[i]));
                assert(word[i] == front[i]);
            }
            assert(text::lowered(word).len() == 7);
            assert(text::lowered(front).subrange(0, 6) == "[patch"@);
        }
    }
}

/// A lower-case name without a colon that does not open with a dash.
spec fn plain_name(name: Seq<char>) -> bool {
    &&& name.len() > 0
    &&& name[0] != '-'
    &&& text::lowered(name) == name
    &&& forall|i: int| 0 <= i < name.len() ==> #[trigger] name[i] != ':'
}

/// A token with a name and a value is cut at the colon between them.
proof fn lemma_named_token(spelled: Seq<char>, name: Seq<char>, value: Seq<char>)
    requires
        plain_name(name),
        text::same_letters(spelled, name),
    ensures
        text::cut(spelled.push(':') + value, CharClass::One(':')) == Some((spelled, value)),
        spelled.push(':') + value != Seq::<char>::empty(),
        (spelled.push(':') + value)[0] != '-',
{
    let token = spelled.push(':') + value;
    let n = spelled.len() as int;
    assert(text::lowered(spelled).len() == name.len());
    assert forall|j: int| 0 <= j < n implies !CharClass::One(':').has(#[trigger] token[j]) by {
        assert(token[j] == spelled[j]);
        assert(text::lowered(spelled)[j] == name[j]);
    }
    assert(text::lowered(spelled)[0] == name[0]);
    assert(token[0] == spelled[0]);
    assert(token[n] == ':');
    text::lemma_find_is(token, CharClass::One(':'), n);
    assert(token.take(n) == spelled);
    assert(token.skip(n + 1) == value);
}


/// The names of the fields, in any case: `subject:` and `subj:`, `from:` and
/// `sender:`, `id:`, `message:` and `message-id:`, `after:`, `before:`, `review:`
/// and `is:`. What follows the name is the value.
pub proof fn law_field_names(spelled: Seq<char>, value: Seq<char>)
    requires
        text::trimmed(value).len() > 0,
    ensures
        ({
            let token = spelled.push(':') + value;
            let normal = text::lowered(text::trimmed(value));
            &&& text::same_letters(spelled, "subject"@) || text::same_letters(spelled, "subj"@)
                ==> token_term(token) == Ok::<TermView, Seq<char>>(
                TermView { field: QueryField::Subject, value: normal, negated: false },
            )
            &&& text::same_letters(spelled, "from"@) || text::same_letters(spelled, "sender"@)
                ==> token_term(token) == Ok::<TermView, Seq<char>>(
                TermView { field: QueryField::From, value: normal, negated: false },
            )
            &&& text::same_letters(spelled, "id"@) || text::same_letters(spelled, "message"@)
                || text::same_letters(spelled, "message-id"@) ==> token_term(token) == Ok::<
                TermView,
                Seq<char>,
            >(TermView { field: QueryField::MessageId, value: normal, negated: false })
            &&& text::same_letters(spelled, "after"@) ==> token_term(token) == Ok::<
                TermView,
                Seq<char>,
            >(TermView { field: QueryField::After, value: normal, negated: false })
            &&& text::same_letters(spelled, "before"@) ==> token_term(token) == Ok::<
                TermView,
                Seq<char>,
            >(TermView { field: QueryField::Before, value: normal, negated: false })
            &&& text::same_letters(spelled, "review"@) ==> token_term(token) == Ok::<
                TermView,
                Seq<char>,
            >(TermView { field: QueryField::Review, value: normal, negated: false })
            &&& text::same_letters(spelled, "is"@) ==> token_term(token) == Ok::<
                TermView,
                Seq<char>,
            >(TermView { field: QueryField::Patch, value: normal, negated: false })
        }),
{
    reveal_strlit("subject");
    reveal_strlit("subj");
    reveal_strlit("from");
    reveal_strlit("sender");
    reveal_strlit("id");
    reveal_strlit("message");
    reveal_strlit("message-id");
    reveal_strlit("after");
    reveal_strlit("before");
    reveal_strlit("review");
    reveal_strlit("is");
    if text::same_letters(spelled, "subject"@) {
        assert(text::lowered("subject"@) == "subject"@);
        lemma_named_token(spelled, "subject"@, value);
    }
    if text::same_letters(spelled, "subj"@) {
        assert(text::lowered("subj"@) == "subj"@);
        lemma_named_token(spelled, "subj"@, value);
    }
    if text::same_letters(spelled, "from"@) {
        assert(text::lowered("from"@) == "from"@);
        lemma_named_token(spelled, "from"@, value);
        assert("from"@[0] != "subject"@[0]);
    }
    if text::same_letters(spelled, "sender"@) {
        assert(text::lowered("sender"@) == "sender"@);
        lemma_named_token(spelled, "sender"@, value);
        assert("sender"@.len() != "subject"@.len());
    }
    if text::same_letters(spelled, "id"@) {
        assert(text::lowered("id"@) == "id"@);
        lemma_named_token(spelled, "id"@, value);
    }
    if text::same_letters(spelled, "message"@) {
        assert(text::lowered("message"@) == "message"@);
        lemma_named_token(spelled, "message"@, value);
        assert("message"@[0] != "subject"@[0]);
    }
    if text::same_letters(spelled, "message-id"@) {
        assert(text::lowered("message-id"@) == "message-id"@);
        lemma_named_token(spelled, "message-id"@, value);
    }
    if text::same_letters(spelled, "after"@) {
        assert(text::lowered("after"@) == "after"@);
        lemma_named_token(spelled, "after"@, value);
    }
    if text::same_letters(spelled, "before"@) {
        assert(text::lowered("before"@) == "before"@);
        lemma_named_token(spelled, "before"@, value);
        assert("before"@[0] != "sender"@[0]);
    }
    if text::same_letters(spelled, "review"@) {
        assert(text::lowered("review"@) == "review"@);
        lemma_named_token(spelled, "review"@, value);
        assert("review"@[0] != "sender"@[0]);
        assert("review"@[0] != "before"@[0]);
    }
    if text::same_letters(spelled, "is"@) {
        assert(text::lowered("is"@) == "is"@);
        lemma_named_token(spelled, "is"@, value);
        assert("is"@[1] != "id"@[1]);
    }
}

/// A token without a colon and without a leading dash looks anywhere.
pub proof fn law_tokens_without_a_field_look_anywhere(token: Seq<char>)
    requires
        text::trimmed(token).len() > 0,
        token[0] != '-',
        forall|i: int| 0 <= i < token.len() ==> #[trigger] token[i] != ':',
    ensures
        token_term(token) == Ok::<TermView, Seq<char>>(
            TermView {
                field: QueryField::Any,
                value: text::lowered(text::trimmed(token)),
                negated: false,
            },
        ),
{
    text::lemma_find_none(token, CharClass::One(':'));
    if token.len() == 0 {
        text::lemma_stripped(token, CharClass::Space);
    }
}

/// The value of a term has to suit its field, and nothing else is asked: a date
/// filter needs a day, a review filter one of four words, and `is:` the word
/// `patch`. What suits is kept as it is.
pub proof fn law_values_suit_their_fields(term: TermView, day: Option<i32>)
    ensures
        checked_term(term, day) is Ok <==> {
            &&& term.field == QueryField::After || term.field == QueryField::Before ==> day is Some
            &&& term.field == QueryField::Review ==> term.value == "needs-review"@ || term.value
                == "reviewed"@ || term.value == "all"@ || term.value == "none"@
            &&& term.field == QueryField::Patch ==> term.value == "patch"@
        },
        checked_term(term, day) matches Ok(kept) ==> kept == term,
{
}

/// Text in quotes of either kind is one token, white space and all.
pub proof fn law_quoted_text_is_one_token(content: Seq<char>, quote: char)
    requires
        quote == '"' || quote == '\'',
        content.len() > 0,
        forall|i: int| 0 <= i < content.len() ==> #[trigger] content[i] != quote && content[i] != '\\',
    ensures
        tokens_of(seq![quote] + content + seq![quote]) == Ok::<Seq<Seq<char>>, Seq<char>>(
            seq![content],
        ),
{
    let input = seq![quote] + content + seq![quote];
    let n = content.len() as int;
    assert(scanned(input, 0) == (Scan {
        tokens: seq![],
        current: seq![],
        quote: None,
        escaped: false,
    }));
    lemma_inside_quotes(input, content, quote, n);
    assert(input[n + 1] == quote);
    assert(content.take(n) == content);
    assert(scanned(input, n + 2) == scan_step(scanned(input, n + 1), quote));
}

/// Inside quotes every character is kept.
proof fn lemma_inside_quotes(input: Seq<char>, content: Seq<char>, quote: char, k: int)
    requires
        quote == '"' || quote == '\'',
        0 <= k <= content.len(),
        input == seq![quote] + content + seq![quote],
        forall|i: int| 0 <= i < content.len() ==> #[trigger] content[i] != quote && content[i] != '\\',
    ensures
        scanned(input, k + 1) == (Scan {
            tokens: seq![],
            current: content.take(k),
            quote: Some(quote),
            escaped: false,
        }),
    decreases k,
{
    if k == 0 {
        assert(input[0] == quote);
        assert(scanned(input, 1) == scan_step(scanned(input, 0), input[0]));
        assert(content.take(0) == Seq::<char>::empty());
    } else {
        lemma_inside_quotes(input, content, quote, k - 1);
        assert(input[k] == content[k - 1]);
        assert(content.take(k) == content.take(k - 1).push(content[k - 1]));
    }
}

/// A backslash keeps the character after it, whatever it is: white space, a quote
/// or another backslash.
pub proof fn law_backslashes_keep_the_next_character(scan: Scan, c: char)
    requires
        !scan.escaped,
    ensures
        scan_step(scan_step(scan, '\\'), c) == (Scan { current: scan.current.push(c), ..scan }),
{
}

/// Whether a text needs no quotes in a query: no white space, quotes or
/// backslashes.
pub open spec fn bare_text(s: Seq<char>) -> bool {
    forall|i: int|
        0 <= i < s.len() ==> !text::white_space(#[trigger] s[i]) && s[i] != '\'' && s[i] != '"'
            && s[i] != '\\'
}

/// A query of one bare token is the one term of that token.
proof fn lemma_single_query(token: Seq<char>)
    requires
        token.len() > 0,
        bare_text(token),
    ensures
        term_of(token) matches Ok(term) ==> query_of(token) == Ok::<Seq<TermView>, Seq<char>>(
            seq![term],
        ),
        term_of(token) matches Err(message) ==> query_of(token) == Err::<Seq<TermView>, Seq<char>>(
            message,
        ),
{
    law_plain_text_is_one_token(token);
    let tokens = seq![token];
    assert(terms_of(tokens, 0) == Ok::<Seq<TermView>, Seq<char>>(seq![]));
    if let Ok(term) = term_of(token) {
        assert(Seq::<TermView>::empty().push(term) == seq![term]);
        assert(terms_of(tokens, 1) == Ok::<Seq<TermView>, Seq<char>>(seq![term]));
    }
}

/// What a whole query of one term finds: `id:` the rows in whose identifier the
/// value occurs, `subject:` those in whose subject, `from:` those in whose sender,
/// in any case; a bare word the rows in any of whose three it occurs.
pub proof fn law_queries_find_rows(
    spelled: Seq<char>,
    value: Seq<char>,
    row: RowView,
    status: Option<Seq<char>>,
)
    requires
        value.len() > 0,
        bare_text(value),
    ensures
        text::same_letters(spelled, "id"@) ==> (query_of(spelled.push(':') + value) matches Ok(terms)
            && (passes(terms, row, status) <==> text::occurs_in(
            text::lowered(row.message_id),
            text::lowered(value),
        ))),
        text::same_letters(spelled, "subject"@) ==> (query_of(
            spelled.push(':') + value,
        ) matches Ok(terms) && (passes(terms, row, status) <==> text::occurs_in(
            text::lowered(row.subject),
            text::lowered(value),
        ))),
        text::same_letters(spelled, "from"@) ==> (query_of(
            spelled.push(':') + value,
        ) matches Ok(terms) && (passes(terms, row, status) <==> text::occurs_in(
            text::lowered(row.from_addr),
            text::lowered(value),
        ))),
        value[0] != '-' && !text::has_any(value, CharClass::One(':')) ==> (query_of(
            value,
        ) matches Ok(terms) && (passes(terms, row, status) <==> text::occurs_in(
            text::lowered(row.message_id),
            text::lowered(value),
        ) || text::occurs_in(text::lowered(row.subject), text::lowered(value)) || text::occurs_in(
            text::lowered(row.from_addr),
            text::lowered(value),
        ))),
{
    reveal_strlit("id");
    reveal_strlit("subject");
    reveal_strlit("from");
    assert(!text::white_space(value[0]));
    assert(!text::white_space(value[value.len() - 1]));
    text::lemma_stripped_same(value, CharClass::Space);
    let token = spelled.push(':') + value;
    law_field_names(spelled, value);
    if text::same_letters(spelled, "id"@) {
        assert(text::lowered("id"@) =~= "id"@);
        lemma_bare_token(spelled, "id"@, value);
        lemma_single_query(token);
        lemma_one_term(QueryField::MessageId, text::lowered(value), row, status);
    }
    if text::same_letters(spelled, "subject"@) {
        assert(text::lowered("subject"@) =~= "subject"@);
        lemma_bare_token(spelled, "subject"@, value);
        lemma_single_query(token);
        lemma_one_term(QueryField::Subject, text::lowered(value), row, status);
    }
    if text::same_letters(spelled, "from"@) {
        assert(text::lowered("from"@) =~= "from"@);
        lemma_bare_token(spelled, "from"@, value);
        lemma_single_query(token);
        lemma_one_term(QueryField::From, text::lowered(value), row, status);
    }
    if value[0] != '-' && !text::has_any(value, CharClass::One(':')) {
        assert forall|i: int| 0 <= i < value.len() implies #[trigger] value[i] != ':' by {
            if value[i] == ':' {
                assert(CharClass::One(':').has(value[i]));
            }
        }
        law_tokens_without_a_field_look_anywhere(value);
        lemma_single_query(value);
        lemma_one_term(QueryField::Any, text::lowered(value), row, status);
    }
}

/// A query of one term asks for just that term.
proof fn lemma_one_term(
    field: QueryField,
    value: Seq<char>,
    row: RowView,
    status: Option<Seq<char>>,
)
    ensures
        passes(seq![TermView { field, value, negated: false }], row, status) == term_holds(
            TermView { field, value, negated: false },
            row,
            status,
            row_day(row),
            dates::query_day(value),
        ),
{
    let terms = seq![TermView { field, value, negated: false }];
    assert(terms[0] == (TermView { field, value, negated: false }));
}

/// A name without quotes and a value without quotes make a token without quotes.
proof fn lemma_bare_token(spelled: Seq<char>, name: Seq<char>, value: Seq<char>)
    requires
        text::same_letters(spelled, name),
        text::lowered(name) == name,
        forall|i: int| 0 <= i < name.len() ==> 'a' <= #[trigger] name[i] <= 'z',
        bare_text(value),
    ensures
        bare_text(spelled.push(':') + value),
{
    let token = spelled.push(':') + value;
    assert(text::lowered(spelled).len() == name.len());
    assert forall|i: int| 0 <= i < token.len() implies !text::white_space(#[trigger] token[i])
        && token[i] != '\'' && token[i] != '"' && token[i] != '\\' by {
        if i < spelled.len() {
            assert(token[i] == spelled[i]);
            assert(text::lowered(spelled)[i] == name[i]);
        } else if i > spelled.len() {
            assert(token[i] == value[i - spelled.len() - 1]);
        }
    }
}

/// A field without a value is refused, and so is a name that no field has.
pub proof fn law_incomplete_terms_are_refused(spelled: Seq<char>, value: Seq<char>)
    requires
        !text::has_any(spelled, CharClass::One(':')),
        spelled.len() > 0 ==> spelled[0] != '-',
    ensures
        text::trimmed(value).len() == 0 ==> token_term(spelled.push(':') + value) is Err,
        field_named(text::lowered(spelled)) is None ==> token_term(
            spelled.push(':') + value,
        ) is Err,
        token_term(seq!['-']) is Err,
{
    let token = spelled.push(':') + value;
    text::law_texts_are_cut_at_the_first(spelled, ':', value);
    assert(spelled + seq![':'] + value == token);
    if spelled.len() > 0 {
        assert(token[0] == spelled[0]);
    } else {
        assert(token[0] == ':');
    }
    text::lemma_stripped(value, CharClass::Space);
}

/// A quote that is not closed is refused.
pub proof fn law_open_quotes_are_refused(content: Seq<char>, quote: char)
    requires
        quote == '"' || quote == '\'',
        forall|i: int| 0 <= i < content.len() ==> #[trigger] content[i] != quote && content[i] != '\\',
    ensures
        tokens_of(seq![quote] + content) is Err,
{
    let input = seq![quote] + content;
    let whole = seq![quote] + content + seq![quote];
    lemma_inside_quotes(whole, content, quote, content.len() as int);
    assert(whole.take(input.len() as int) == input);
    lemma_scanned_front(input, whole, input.len() as int);
}

/// Outside quotes any white space ends a token, and none begins one.
pub proof fn law_white_space_ends_tokens(scan: Scan, c: char)
    requires
        text::white_space(c),
        !scan.escaped,
        scan.quote is None,
    ensures
        scan.current.len() > 0 ==> scan_step(scan, c).tokens == scan.tokens.push(scan.current)
            && scan_step(scan, c).current.len() == 0,
        scan.current.len() == 0 ==> scan_step(scan, c) == scan,
{
}

/// A backslash at the end of a query stands for itself.
pub proof fn law_final_backslashes_stand_for_themselves(input: Seq<char>)
    requires
        bare_text(input),
    ensures
        tokens_of(input.push('\\')) == Ok::<Seq<Seq<char>>, Seq<char>>(seq![input.push('\\')]),
{
    let whole = input.push('\\');
    let n = input.len() as int;
    lemma_plain_scan(input, n);
    assert(whole.take(n) == input);
    assert(input.take(n) == input);
    lemma_scanned_front(input, whole, n);
    assert(scanned(whole, n + 1) == scan_step(scanned(whole, n), '\\'));
    assert(Seq::<Seq<char>>::empty().push(whole) == seq![whole]);
}

/// What is said of a term that cannot be used: that its field is not known, that
/// its value is missing, or that its value does not suit the field.
pub proof fn law_complaints_say_what_is_wrong(
    spelled: Seq<char>,
    value: Seq<char>,
    term: TermView,
)
    requires
        !text::has_any(spelled, CharClass::One(':')),
        spelled.len() > 0 ==> spelled[0] != '-',
    ensures
        field_named(text::lowered(spelled)) is None ==> token_term(spelled.push(':') + value)
            == Err::<TermView, Seq<char>>(
            "unknown query field '"@ + spelled
                + "'; use subject:, from:, id:, after:, before:, review:, or is:patch"@,
        ),
        field_named(text::lowered(spelled)) is Some && text::trimmed(value).len() == 0
            ==> token_term(spelled.push(':') + value) == Err::<TermView, Seq<char>>(
            "query term '"@ + (spelled.push(':') + value) + "' is missing a value"@,
        ),
        term.field == QueryField::After || term.field == QueryField::Before ==> checked_term(
            term,
            None,
        ) == Err::<TermView, Seq<char>>(
            "invalid date '"@ + term.value + "'; use YYYY-MM-DD"@,
        ),
        term.field == QueryField::Review && term.value != "needs-review"@ && term.value
            != "reviewed"@ && term.value != "all"@ && term.value != "none"@ ==> checked_term(
            term,
            None,
        ) == Err::<TermView, Seq<char>>(
            "invalid review status '"@ + term.value
                + "'; use needs-review, reviewed, all, or none"@,
        ),
        term.field == QueryField::Patch && term.value != "patch"@ ==> checked_term(term, None)
            == Err::<TermView, Seq<char>>(
            "invalid is: value '"@ + term.value + "'; only is:patch is supported"@,
        ),
{
    let token = spelled.push(':') + value;
    text::law_texts_are_cut_at_the_first(spelled, ':', value);
    assert(spelled + seq![':'] + value == token);
    if spelled.len() > 0 {
        assert(token[0] == spelled[0]);
    } else {
        assert(token[0] == ':');
    }
}

/// No other names are fields.
pub proof fn law_no_other_names_are_fields(name: Seq<char>)
    ensures
        field_named(name) is Some <==> name == "subject"@ || name == "subj"@ || name == "from"@
            || name == "sender"@ || name == "id"@ || name == "message"@ || name == "message-id"@
            || name == "after"@ || name == "before"@ || name == "review"@ || name == "is"@,
{
}

} // verus!
