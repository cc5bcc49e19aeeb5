//! Sequences of operations on the store, and what replaying one gives.

use crate::event::EventView;
use crate::laws::lemma_ranking_unique;
use crate::ranking::{is_ranking, Measure};
use crate::store::{forget_path, record_event, EventStore};
use vstd::prelude::*;

verus! {

/// One change to the store.
#[derive(Debug)]
pub enum Operation {
    /// Record the access to `path` within `repository` at `timestamp`.
    Record { repository: String, path: String, timestamp: i64 },
    /// Forget `path` within `repository`.
    Forget { repository: String, path: String },
}

/// What an operation stands for.
pub enum OperationView {
    Record { event: EventView },
    Forget { repository: Seq<char>, path: Seq<char> },
}

impl View for Operation {
    type V = OperationView;

    open spec fn view(&self) -> OperationView {
        match self {
            Operation::Record { repository, path, timestamp } => OperationView::Record {
                event: EventView {
                    repository: repository@,
                    path: path@,
                    timestamp: *timestamp as int,
                },
            },
            Operation::Forget { repository, path } => OperationView::Forget {
                repository: repository@,
                path: path@,
            },
        }
    }
}

/// What a sequence of operations stands for.
pub open spec fn operations_of(operations: Seq<Operation>) -> Seq<OperationView> {
    Seq::new(operations.len(), |i: int| operations[i]@)
}

/// The log after one operation.
pub open spec fn apply_operation(log: Seq<EventView>, operation: OperationView) -> Seq<EventView> {
    match operation {
        OperationView::Record { event } => record_event(log, event),
        OperationView::Forget { repository, path } => forget_path(log, repository, path),
    }
}

/// The log that a store holds after the operations, one after the other,
/// when it held nothing before.
pub open spec fn replayed(operations: Seq<OperationView>) -> Seq<EventView>
    decreases operations.len(),
{
    if operations.len() == 0 {
        Seq::empty()
    } else {
        apply_operation(replayed(operations.drop_last()), operations.last())
    }
}

impl EventStore {
    /// Carries out one operation.
    pub fn apply(&mut self, operation: &Operation)
        ensures
            final(self)@ == apply_operation(old(self)@, operation@),
    {
        match operation {
            Operation::Record { repository, path, timestamp } => {
                self.record_at(repository.as_str(), path.as_str(), *timestamp);
            },
            Operation::Forget { repository, path } => {
                self.forget(repository.as_str(), path.as_str());
            },
        }
    }

    /// The store that the operations leave, carried out in their order on a
    /// store that holds nothing.
    pub fn replay(operations: &Vec<Operation>) -> (store: EventStore)
        ensures
            store@ == replayed(operations_of(operations@)),
    {
        let mut store = EventStore::new();
        let ghost all = operations_of(operations@);
        let mut i: usize = 0;
        while i < operations.len()
            invariant
                i <= operations.len(),
                all == operations_of(operations@),
                store@ == replayed(all.take(i as int)),
            decreases operations.len() - i,
        {
            store.apply(&operations[i]);
            assert(all.take(i + 1).drop_last() =~= all.take(i as int));
            i = i + 1;
        }
        assert(all.take(i as int) =~= all);
        store
    }
}

/// Replaying is deterministic: two stores that the same operations were
/// replayed on hold the same log, and so every ranking of the one is the
/// ranking of the other.
pub proof fn lemma_replay_deterministic(
    operations: Seq<OperationView>,
    first: Seq<EventView>,
    second: Seq<EventView>,
    first_order: Seq<Seq<char>>,
    second_order: Seq<Seq<char>>,
    repository: Seq<char>,
    measure: Measure,
)
    requires
        first == replayed(operations),
        second == replayed(operations),
        is_ranking(first_order, first, repository, measure),
        is_ranking(second_order, second, repository, measure),
    ensures
        first == second,
        first_order == second_order,
{
    lemma_ranking_unique(first_order, second_order, first, repository, measure);
}

/// A replayed log holds no event twice.
pub proof fn lemma_replayed_distinct(operations: Seq<OperationView>)
    ensures
        replayed(operations).no_duplicates(),
    decreases operations.len(),
{
    if operations.len() > 0 {
        let before = replayed(operations.drop_last());
        lemma_replayed_distinct(operations.drop_last());
        match operations.last() {
            OperationView::Record { event } => {},
            OperationView::Forget { repository, path } => {
                crate::store::lemma_forget_keeps_distinct(before, repository, path);
            },
        }
    }
}

} // verus!
