//! The stored form of an event: three texts, the instant among them in the
//! notation of RFC 3339.

use crate::event::{AccessEvent, EventView};
use vstd::prelude::*;

verus! {

/// The first instant that has a stored form, in microseconds since the Unix
/// epoch.
pub const FIRST_STORABLE: i64 = -377_705_023_201_000_000;

/// The last instant that has a stored form.
pub const LAST_STORABLE: i64 = 253_402_207_200_000_000;

/// An event as it is stored.
#[derive(Debug)]
pub struct Row {
    pub repository: String,
    pub path: String,
    pub time: String,
}

/// The instant has a stored form.
pub open spec fn storable(instant: int) -> bool {
    FIRST_STORABLE <= instant <= LAST_STORABLE
}

/// The text that `jiff::Timestamp` prints for the instant that lies
/// `instant` microseconds after the Unix epoch.
pub uninterp spec fn instant_text(instant: int) -> Seq<char>;

/// The instant, in whole microseconds since the Unix epoch, that
/// `jiff::Timestamp` reads from a text, where it reads one.
pub uninterp spec fn text_instant(text: Seq<char>) -> Option<int>;

/// Makes a `jiff::Timestamp` with `from_microsecond` and prints it with
/// `to_string`.
///
/// Not proved: that jiff makes a timestamp exactly of the instants from
/// `FIRST_STORABLE` to `LAST_STORABLE`, and that the text is what
/// `instant_text` names, which is to say that it depends on the instant
/// alone.
#[verifier::external_body]
fn print_instant(instant: i64) -> (text: Option<String>)
    ensures
        text is Some <==> storable(instant as int),
        text matches Some(printed) ==> printed@ == instant_text(instant as int),
{
    match jiff::Timestamp::from_microsecond(instant) {
        Ok(timestamp) => Some(timestamp.to_string()),
        Err(_) => None,
    }
}

/// Reads a `jiff::Timestamp` from a text with `str::parse` and gives it in
/// whole microseconds with `as_microsecond`.
///
/// Not proved: that the result is what `text_instant` names, which is to
/// say that it depends on the text alone.
#[verifier::external_body]
fn read_instant(text: &str) -> (instant: Option<i64>)
    ensures
        match instant {
            Some(at) => text_instant(text@) == Some(at as int),
            None => text_instant(text@) is None,
        },
{
    match text.parse::<jiff::Timestamp>() {
        Ok(timestamp) => Some(timestamp.as_microsecond()),
        Err(_) => None,
    }
}

/// The row to store for an event, where its instant has a stored form.
pub fn to_row(event: &AccessEvent) -> (row: Option<Row>)
    ensures
        row is Some <==> storable(event@.timestamp),
        row matches Some(stored) ==> {
            &&& stored.repository@ == event@.repository
            &&& stored.path@ == event@.path
            &&& stored.time@ == instant_text(event@.timestamp)
        },
{
    match print_instant(event.timestamp) {
        Some(time) => Some(
            Row { repository: event.repository.clone(), path: event.path.clone(), time },
        ),
        None => None,
    }
}

/// The event that three stored texts stand for, where the third reads as an
/// instant.
pub fn from_row(repository: &str, path: &str, time: &str) -> (event: Option<AccessEvent>)
    ensures
        match event {
            Some(read) => text_instant(time@) == Some(read@.timestamp) && read@ == (EventView {
                repository: repository@,
                path: path@,
                timestamp: read@.timestamp,
            }),
            None => text_instant(time@) is None,
        },
{
    match read_instant(time) {
        Some(at) => Some(AccessEvent::new(repository, path, at)),
        None => None,
    }
}

} // verus!
