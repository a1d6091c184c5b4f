//! Calendar days of mails and queries.
//!
//! Dates are read by the `chrono` crate. The library handles them as day
//! numbers: how many days lie between a date and the first day of the common
//! era. Day numbers are ordered as the dates are.

use chrono::Datelike;
use vstd::prelude::*;

verus! {

/// The day that `chrono::NaiveDate::parse_from_str` reads from a text in a
/// format, as a day number, or nothing where the text does not fit.
pub uninterp spec fn calendar_day(value: Seq<char>, format: Seq<char>) -> Option<i32>;

/// The day that `chrono::NaiveDateTime::parse_from_str` reads from a text in a
/// format, as a day number, or nothing where the text does not fit.
pub uninterp spec fn clock_day(value: Seq<char>, format: Seq<char>) -> Option<i32>;

/// The UTC day that `chrono::DateTime::parse_from_rfc2822` reads from a text,
/// as a day number, or nothing where the text is no such date.
pub uninterp spec fn rfc2822_day(value: Seq<char>) -> Option<i32>;

/// The UTC day that `chrono::DateTime::parse_from_rfc3339` reads from a text,
/// as a day number, or nothing where the text is no such date.
pub uninterp spec fn rfc3339_day(value: Seq<char>) -> Option<i32>;

/// `chrono::NaiveDate::parse_from_str`. Its result depends on the text and the
/// format alone and is named, not described; a date becomes the number of days
/// since the common era began.
#[verifier::external_body]
fn read_calendar_day(value: &str, format: &str) -> (r: Option<i32>)
    ensures
        r == calendar_day(value@, format@),
{
    match chrono::NaiveDate::parse_from_str(value, format) {
        Ok(date) => Some(date.num_days_from_ce()),
        Err(_) => None,
    }
}

/// `chrono::NaiveDateTime::parse_from_str`. Its result depends on the text and
/// the format alone and is named, not described; a date with a time becomes the
/// number of days since the common era began.
#[verifier::external_body]
fn read_clock_day(value: &str, format: &str) -> (r: Option<i32>)
    ensures
        r == clock_day(value@, format@),
{
    match chrono::NaiveDateTime::parse_from_str(value, format) {
        Ok(time) => Some(time.date().num_days_from_ce()),
        Err(_) => None,
    }
}

/// `chrono::DateTime::parse_from_rfc2822`. Its result depends on the text alone
/// and is named, not described; a time becomes its UTC day, as the number of
/// days since the common era began.
#[verifier::external_body]
fn read_rfc2822_day(value: &str) -> (r: Option<i32>)
    ensures
        r == rfc2822_day(value@),
{
    match chrono::DateTime::parse_from_rfc2822(value) {
        Ok(time) => Some(time.with_timezone(&chrono::Utc).date_naive().num_days_from_ce()),
        Err(_) => None,
    }
}

/// `chrono::DateTime::parse_from_rfc3339`. Its result depends on the text alone
/// and is named, not described; a time becomes its UTC day, as the number of
/// days since the common era began.
#[verifier::external_body]
fn read_rfc3339_day(value: &str) -> (r: Option<i32>)
    ensures
        r == rfc3339_day(value@),
{
    match chrono::DateTime::parse_from_rfc3339(value) {
        Ok(time) => Some(time.with_timezone(&chrono::Utc).date_naive().num_days_from_ce()),
        Err(_) => None,
    }
}

/// The day that a query date names.
pub open spec fn query_day(value: Seq<char>) -> Option<i32> {
    calendar_day(value, "%Y-%m-%d"@)
}

/// The first of four readings that succeeded.
pub open spec fn first_reading(
    rfc2822: Option<i32>,
    rfc3339: Option<i32>,
    clock: Option<i32>,
    calendar: Option<i32>,
) -> Option<i32> {
    if rfc2822 is Some {
        rfc2822
    } else if rfc3339 is Some {
        rfc3339
    } else if clock is Some {
        clock
    } else {
        calendar
    }
}

/// The day of a mail, from the text of its date.
pub open spec fn message_day(value: Seq<char>) -> Option<i32> {
    first_reading(
        rfc2822_day(value),
        rfc3339_day(value),
        clock_day(value, "%Y-%m-%d %H:%M:%S"@),
        query_day(value),
    )
}

/// Whether a mail of a day passes a date filter. An unknown day passes none.
pub open spec fn days_match(message: Option<i32>, query: Option<i32>, after: bool) -> bool {
    match (message, query) {
        (Some(message), Some(query)) => if after {
            message >= query
        } else {
            message <= query
        },
        _ => false,
    }
}

/// Chooses the first reading that succeeded.
pub fn choose_reading(
    rfc2822: Option<i32>,
    rfc3339: Option<i32>,
    clock: Option<i32>,
    calendar: Option<i32>,
) -> (r: Option<i32>)
    ensures
        r == first_reading(rfc2822, rfc3339, clock, calendar),
{
    if rfc2822.is_some() {
        rfc2822
    } else if rfc3339.is_some() {
        rfc3339
    } else if clock.is_some() {
        clock
    } else {
        calendar
    }
}

/// Decides whether a mail of a day passes a date filter.
pub fn compare_days(message: Option<i32>, query: Option<i32>, after: bool) -> (r: bool)
    ensures
        r == days_match(message, query, after),
{
    match (message, query) {
        (Some(message), Some(query)) => if after {
            message >= query
        } else {
            message <= query
        },
        _ => false,
    }
}

/// Reads the date of a query, such as `2026-03-01`.
pub fn parse_query_date(value: &str) -> (r: Option<i32>)
    ensures
        r == query_day(value@),
{
    read_calendar_day(value, "%Y-%m-%d")
}

/// Reads the date of a mail in any of the forms that mails and stores use.
pub fn parse_message_date(value: &str) -> (r: Option<i32>)
    ensures
        r == message_day(value@),
{
    let mail_form = read_rfc2822_day(value);
    if mail_form.is_some() {
        return mail_form;
    }
    let stamp_form = read_rfc3339_day(value);
    if stamp_form.is_some() {
        return stamp_form;
    }
    choose_reading(
        None,
        None,
        read_clock_day(value, "%Y-%m-%d %H:%M:%S"),
        read_calendar_day(value, "%Y-%m-%d"),
    )
}

/// Decides whether a mail with a date passes a date filter.
pub fn date_matches(value: Option<&str>, query_date: &str, after: bool) -> (r: bool)
    ensures
        r == match value {
            Some(value) => days_match(message_day(value@), query_day(query_date@), after),
            None => false,
        },
{
    match value {
        Some(value) => {
            let message = parse_message_date(value);
            let query = parse_query_date(query_date);
            compare_days(message, query, after)
        },
        None => false,
    }
}

/// A mail of the day that a query names passes both date filters, and a mail
/// with a known day passes at least one of them.
pub proof fn law_date_filters_meet_on_the_day(message: i32, query: i32)
    ensures
        days_match(Some(message), Some(query), true) && days_match(
            Some(message),
            Some(query),
            false,
        ) <==> message == query,
        days_match(Some(message), Some(query), true) || days_match(
            Some(message),
            Some(query),
            false,
        ),
{
}

/// `after:` lets the day itself and later days pass, `before:` the day itself and
/// earlier ones. A day that is not known passes neither.
pub proof fn law_date_filters_compare_days(message: Option<i32>, query: Option<i32>)
    ensures
        days_match(message, query, true) <==> message is Some && query is Some && message->0
            >= query->0,
        days_match(message, query, false) <==> message is Some && query is Some && message->0
            <= query->0,
{
}

/// The forms of a date are tried in turn: that of mails, that of time stamps, a
/// day with a time, a day alone. The first that reads the text decides.
pub proof fn law_date_forms_are_tried_in_turn(value: Seq<char>)
    ensures
        rfc2822_day(value) is Some ==> message_day(value) == rfc2822_day(value),
        rfc2822_day(value) is None && rfc3339_day(value) is Some ==> message_day(value)
            == rfc3339_day(value),
        rfc2822_day(value) is None && rfc3339_day(value) is None ==> message_day(value) == (if clock_day(
            value,
            "%Y-%m-%d %H:%M:%S"@,
        ) is Some {
            clock_day(value, "%Y-%m-%d %H:%M:%S"@)
        } else {
            calendar_day(value, "%Y-%m-%d"@)
        }),
        query_day(value) == calendar_day(value, "%Y-%m-%d"@),
{
}

} // verus!
