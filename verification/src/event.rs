//! The access event: one path of one repository, touched at one instant.

use crate::text::same_text;
use vstd::prelude::*;

verus! {

/// One recorded access. Instants are microseconds since the Unix epoch.
#[derive(Debug)]
pub struct AccessEvent {
    pub repository: String,
    pub path: String,
    pub timestamp: i64,
}

/// What an access event stands for.
pub struct EventView {
    pub repository: Seq<char>,
    pub path: Seq<char>,
    pub timestamp: int,
}

impl View for AccessEvent {
    type V = EventView;

    open spec fn view(&self) -> EventView {
        EventView {
            repository: self.repository@,
            path: self.path@,
            timestamp: self.timestamp as int,
        }
    }
}

/// The event is an access to `path` within `repository`.
pub open spec fn concerns(event: EventView, repository: Seq<char>, path: Seq<char>) -> bool {
    event.repository == repository && event.path == path
}

/// The events behind a sequence of stored ones.
pub open spec fn views_of(events: Seq<AccessEvent>) -> Seq<EventView> {
    Seq::new(events.len(), |i: int| events[i]@)
}

impl AccessEvent {
    /// The access to `path` within `repository` at `timestamp`.
    pub fn new(repository: &str, path: &str, timestamp: i64) -> (event: AccessEvent)
        ensures
            event@ == (EventView {
                repository: repository@,
                path: path@,
                timestamp: timestamp as int,
            }),
    {
        AccessEvent { repository: repository.to_owned(), path: path.to_owned(), timestamp }
    }

    /// Whether this is an access within `repository`.
    pub fn is_within(&self, repository: &str) -> (within: bool)
        ensures
            within == (self@.repository == repository@),
    {
        same_text(self.repository.as_str(), repository)
    }

    /// Whether this is an access to `path` within `repository`.
    pub fn is_access_to(&self, repository: &str, path: &str) -> (hit: bool)
        ensures
            hit == concerns(self@, repository@, path@),
    {
        same_text(self.repository.as_str(), repository) && same_text(self.path.as_str(), path)
    }

    /// Whether this is the access to `path` within `repository` at
    /// `timestamp`.
    pub fn is_access_at(&self, repository: &str, path: &str, timestamp: i64) -> (hit: bool)
        ensures
            hit == (self@ == (EventView {
                repository: repository@,
                path: path@,
                timestamp: timestamp as int,
            })),
    {
        self.timestamp == timestamp && self.is_access_to(repository, path)
    }
}

} // verus!
