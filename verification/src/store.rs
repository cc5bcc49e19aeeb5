//! The event store: a log of access events in which no event occurs twice.

use crate::clock::{read_clock, EARLIEST, LATEST};
use crate::event::{concerns, views_of, AccessEvent, EventView};
use vstd::prelude::*;

verus! {

/// The log after recording `event`: unchanged where it holds the event
/// already, else with the event at its end.
pub open spec fn record_event(log: Seq<EventView>, event: EventView) -> Seq<EventView> {
    if log.contains(event) {
        log
    } else {
        log.push(event)
    }
}

/// The events that stay when `path` is forgotten within `repository`.
pub open spec fn survives(repository: Seq<char>, path: Seq<char>) -> spec_fn(EventView) -> bool {
    |event: EventView| !concerns(event, repository, path)
}

/// The log after forgetting `path` within `repository`: what is left of it,
/// in the same order, without the accesses to that path.
pub open spec fn forget_path(
    log: Seq<EventView>,
    repository: Seq<char>,
    path: Seq<char>,
) -> Seq<EventView> {
    log.filter(survives(repository, path))
}

/// The event store.
pub struct EventStore {
    events: Vec<AccessEvent>,
}

impl View for EventStore {
    type V = Seq<EventView>;

    closed spec fn view(&self) -> Seq<EventView> {
        views_of(self.events@)
    }
}

impl EventStore {
    #[verifier::type_invariant]
    spec fn distinct(self) -> bool {
        views_of(self.events@).no_duplicates()
    }

    /// A store that holds no event.
    pub fn new() -> (store: EventStore)
        ensures
            store@ == Seq::<EventView>::empty(),
    {
        let store = EventStore { events: Vec::new() };
        assert(store@ =~= Seq::<EventView>::empty());
        store
    }

    /// The stored events, oldest record first. No two of them are the same.
    pub fn events(&self) -> (events: &Vec<AccessEvent>)
        ensures
            views_of(events@) == self@,
            self@.no_duplicates(),
    {
        proof {
            use_type_invariant(self);
        }
        &self.events
    }

    /// The number of stored events.
    pub fn len(&self) -> (len: usize)
        ensures
            len == self@.len(),
    {
        self.events.len()
    }

    /// Whether the store holds the access to `path` within `repository` at
    /// `timestamp`.
    pub fn holds(&self, repository: &str, path: &str, timestamp: i64) -> (held: bool)
        ensures
            held == self@.contains(
                EventView { repository: repository@, path: path@, timestamp: timestamp as int },
            ),
    {
        let ghost event = EventView {
            repository: repository@,
            path: path@,
            timestamp: timestamp as int,
        };
        let mut i: usize = 0;
        while i < self.events.len()
            invariant
                i <= self.events.len(),
                forall|j: int| 0 <= j < i ==> self@[j] != event,
                self@ == views_of(self.events@),
                event == (EventView {
                    repository: repository@,
                    path: path@,
                    timestamp: timestamp as int,
                }),
            decreases self.events.len() - i,
        {
            if self.events[i].is_access_at(repository, path, timestamp) {
                assert(self@[i as int] == event);
                return true;
            }
            i = i + 1;
        }
        false
    }

    /// Records the access to `path` within `repository` at `timestamp`, and
    /// says whether the store did not hold it before.
    pub fn record_at(&mut self, repository: &str, path: &str, timestamp: i64) -> (added: bool)
        ensures
            final(self)@ == record_event(
                old(self)@,
                EventView { repository: repository@, path: path@, timestamp: timestamp as int },
            ),
            added == !old(self)@.contains(
                EventView { repository: repository@, path: path@, timestamp: timestamp as int },
            ),
    {
        proof {
            use_type_invariant(&*self);
        }
        if self.holds(repository, path, timestamp) {
            return false;
        }
        let event = AccessEvent::new(repository, path, timestamp);
        let mut events = self.take_events();
        events.push(event);
        assert(views_of(events@) =~= old(self)@.push(event@));
        self.events = events;
        true
    }

    /// Records an access to `path` within `repository`: at the instant
    /// `time` where one is given, else at the instant that the clock shows.
    /// Gives the instant of the recorded event. Where no instant is given
    /// and the clock cannot be read, nothing is recorded.
    pub fn record(
        &mut self,
        repository: &str,
        path: &str,
        time: Option<i64>,
    ) -> (recorded: Option<i64>)
        ensures
            time is Some ==> recorded == time,
            time is None ==> (recorded matches Some(at) ==> EARLIEST <= at <= LATEST),
            match recorded {
                Some(at) => final(self)@ == record_event(
                    old(self)@,
                    EventView { repository: repository@, path: path@, timestamp: at as int },
                ),
                None => final(self)@ == old(self)@,
            },
    {
        let instant = match time {
            Some(at) => Some(at),
            None => read_clock(),
        };
        match instant {
            Some(at) => {
                self.record_at(repository, path, at);
                Some(at)
            },
            None => None,
        }
    }

    /// Moves the events out of the store, which is left empty.
    fn take_events(&mut self) -> (events: Vec<AccessEvent>)
        ensures
            views_of(events@) == old(self)@,
            final(self)@ == Seq::<EventView>::empty(),
    {
        let mut events: Vec<AccessEvent> = Vec::new();
        core::mem::swap(&mut self.events, &mut events);
        assert(self@ =~= Seq::<EventView>::empty());
        events
    }

    /// Forgets `path` within `repository`: removes every access to it, and
    /// says how many there were.
    pub fn forget(&mut self, repository: &str, path: &str) -> (removed: usize)
        ensures
            final(self)@ == forget_path(old(self)@, repository@, path@),
            removed == old(self)@.len() - final(self)@.len(),
    {
        proof {
            use_type_invariant(&*self);
        }
        let mut events = self.take_events();
        let ghost log = views_of(events@);
        let ghost keep = survives(repository@, path@);
        let mut removed: usize = 0;
        let mut i: usize = 0;
        proof {
            reveal(Seq::filter);
            assert(log.len() == events.len());
            assert(log.take(0).filter(keep) =~= views_of(events@).take(0));
        }
        while i < events.len()
            invariant
                i <= events.len(),
                i + removed <= log.len() <= usize::MAX,
                events.len() + removed == log.len(),
                keep == survives(repository@, path@),
                views_of(events@).take(i as int) == log.take(i + removed).filter(keep),
                views_of(events@).skip(i as int) == log.skip(i + removed),
            decreases events.len() - i,
        {
            let ghost before = views_of(events@);
            let ghost j = i + removed;
            assert(before[i as int] == before.skip(i as int)[0]);
            assert(log.take(j + 1).drop_last() =~= log.take(j));
            proof {
                reveal(Seq::filter);
            }
            if events[i].is_access_to(repository, path) {
                events.remove(i);
                removed = removed + 1;
                assert(views_of(events@) =~= before.remove(i as int));
                assert(views_of(events@).take(i as int) =~= before.take(i as int));
                assert(views_of(events@).skip(i as int) =~= before.skip(i as int).skip(1));
                assert(log.skip(j).skip(1) =~= log.skip(j + 1));
            } else {
                i = i + 1;
                assert(before.take(i as int) =~= before.take(i - 1).push(before[i - 1]));
                assert(before.skip(i - 1).skip(1) =~= before.skip(i as int));
                assert(log.skip(j).skip(1) =~= log.skip(j + 1));
            }
        }
        proof {
            assert(views_of(events@).take(i as int) =~= views_of(events@));
            assert(log.take(i + removed) =~= log);
            lemma_forget_keeps_distinct(log, repository@, path@);
        }
        self.events = events;
        removed
    }
}

/// Forgetting a path leaves a log that held no event twice without one still.
pub proof fn lemma_forget_keeps_distinct(
    log: Seq<EventView>,
    repository: Seq<char>,
    path: Seq<char>,
)
    requires
        log.no_duplicates(),
    ensures
        forget_path(log, repository, path).no_duplicates(),
    decreases log.len(),
{
    reveal(Seq::filter);
    let keep = survives(repository, path);
    if log.len() > 0 {
        let rest = log.drop_last();
        lemma_forget_keeps_distinct(rest, repository, path);
        if keep(log.last()) {
            if rest.filter(keep).contains(log.last()) {
                rest.lemma_filter_contains_rev(keep, log.last());
                let k = choose|k: int| 0 <= k < rest.len() && rest[k] == log.last();
                assert(log[k] == log[log.len() - 1]);
            }
        }
    }
}

} // verus!
