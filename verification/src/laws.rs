//! What holds of the store and its rankings together.

use crate::event::{concerns, EventView};
use crate::ranking::{
    accessed_paths, instants_of, is_keyed_ranking, is_ranking, key_of, last_access,
    lemma_accessed_paths,
    lemma_ranks_before_total, lemma_score_step, lemma_touched_step, merged, ranks_before, score,
    touched, Measure,
};
use crate::store::{forget_path, record_event, survives};
use vstd::prelude::*;

verus! {

/// Each path of `order` ranks before those that follow it, by the scores
/// that `value` gives.
pub open spec fn is_ordered(order: Seq<Seq<char>>, value: spec_fn(Seq<char>) -> int) -> bool {
    forall|i: int, j: int|
        0 <= i < j < order.len() ==> ranks_before(
            value(#[trigger] order[i]),
            order[i],
            value(#[trigger] order[j]),
            order[j],
        )
}

/// Two ordered sequences that hold the same paths are the same sequence.
pub proof fn lemma_ordered_unique(
    a: Seq<Seq<char>>,
    b: Seq<Seq<char>>,
    value: spec_fn(Seq<char>) -> int,
)
    requires
        is_ordered(a, value),
        is_ordered(b, value),
        forall|path: Seq<char>|
            #![trigger a.contains(path)]
            #![trigger b.contains(path)]
            a.contains(path) <==> b.contains(path),
    ensures
        a == b,
    decreases a.len(),
{
    if a.len() == 0 {
        if b.len() > 0 {
            assert(b.contains(b[0]));
        }
        assert(a =~= b);
    } else if b.len() == 0 {
        assert(a.contains(a[0]));
    } else {
        assert(a.contains(a[0]));
        assert(b.contains(b[0]));
        let j = choose|j: int| 0 <= j < b.len() && b[j] == a[0];
        let i = choose|i: int| 0 <= i < a.len() && a[i] == b[0];
        lemma_ranks_before_total(value(a[0]), a[0], value(b[0]), b[0]);
        assert(a[0] == b[0]);
        let rest_a = a.skip(1);
        let rest_b = b.skip(1);
        assert forall|path: Seq<char>|
            #![trigger rest_a.contains(path)]
            #![trigger rest_b.contains(path)]
            rest_a.contains(path) <==> rest_b.contains(path) by {
            lemma_ranks_before_total(value(a[0]), a[0], value(path), path);
            if rest_a.contains(path) {
                let k = choose|k: int| 0 <= k < rest_a.len() && rest_a[k] == path;
                assert(a[k + 1] == path);
                assert(a.contains(path));
                let m = choose|m: int| 0 <= m < b.len() && b[m] == path;
                assert(rest_b[m - 1] == path);
            }
            if rest_b.contains(path) {
                let k = choose|k: int| 0 <= k < rest_b.len() && rest_b[k] == path;
                assert(b[k + 1] == path);
                assert(b.contains(path));
                let m = choose|m: int| 0 <= m < a.len() && a[m] == path;
                assert(rest_a[m - 1] == path);
            }
        }
        assert(is_ordered(rest_a, value)) by {
            assert forall|i: int, j: int| 0 <= i < j < rest_a.len() implies ranks_before(
                value(#[trigger] rest_a[i]),
                rest_a[i],
                value(#[trigger] rest_a[j]),
                rest_a[j],
            ) by {
                assert(rest_a[i] == a[i + 1] && rest_a[j] == a[j + 1]);
            }
        }
        assert(is_ordered(rest_b, value)) by {
            assert forall|i: int, j: int| 0 <= i < j < rest_b.len() implies ranks_before(
                value(#[trigger] rest_b[i]),
                rest_b[i],
                value(#[trigger] rest_b[j]),
                rest_b[j],
            ) by {
                assert(rest_b[i] == b[i + 1] && rest_b[j] == b[j + 1]);
            }
        }
        lemma_ordered_unique(rest_a, rest_b, value);
        assert(a =~= seq![a[0]] + rest_a);
        assert(b =~= seq![b[0]] + rest_b);
    }
}

/// A repository has one ranking under a measure: a query gives the same
/// answer whenever the store holds the same events.
pub proof fn lemma_ranking_unique(
    a: Seq<Seq<char>>,
    b: Seq<Seq<char>>,
    log: Seq<EventView>,
    repository: Seq<char>,
    measure: Measure,
)
    requires
        is_ranking(a, log, repository, measure),
        is_ranking(b, log, repository, measure),
    ensures
        a == b,
{
    let value = |path: Seq<char>| score(log, repository, path, measure);
    assert(is_ordered(a, value));
    assert(is_ordered(b, value));
    lemma_ordered_unique(a, b, value);
}

/// No path occurs twice in a ranking.
pub proof fn lemma_ranking_distinct(
    order: Seq<Seq<char>>,
    log: Seq<EventView>,
    repository: Seq<char>,
    measure: Measure,
)
    requires
        is_ranking(order, log, repository, measure),
    ensures
        order.no_duplicates(),
{
    assert forall|i: int, j: int|
        0 <= i < order.len() && 0 <= j < order.len() && i != j implies order[i] != order[j] by {
        lemma_ranks_before_total(
            score(log, repository, order[i], measure),
            order[i],
            score(log, repository, order[j], measure),
            order[j],
        );
    }
}

/// Recording an event a second time changes nothing: the log holds it once,
/// and every ranking is what it was after the first time.
pub proof fn lemma_record_idempotent(log: Seq<EventView>, event: EventView)
    requires
        log.no_duplicates(),
    ensures
        record_event(record_event(log, event), event) == record_event(log, event),
        record_event(log, event).no_duplicates(),
        record_event(log, event).filter(|other: EventView| other == event).len() == 1,
        forall|order: Seq<Seq<char>>, repository: Seq<char>, measure: Measure|
            is_ranking(order, record_event(record_event(log, event), event), repository, measure)
                == #[trigger] is_ranking(order, record_event(log, event), repository, measure),
{
    let once = record_event(log, event);
    if !log.contains(event) {
        assert(once[once.len() - 1] == event);
    }
    assert(once.contains(event));
    lemma_occurs_once(once, event);
}

/// An event that a log without repeats holds occurs in it once.
proof fn lemma_occurs_once(log: Seq<EventView>, event: EventView)
    requires
        log.no_duplicates(),
    ensures
        log.filter(|other: EventView| other == event).len() == (if log.contains(event) {
            1nat
        } else {
            0nat
        }),
    decreases log.len(),
{
    reveal(Seq::filter);
    if log.len() > 0 {
        let rest = log.drop_last();
        lemma_occurs_once(rest, event);
        if log.last() == event {
            if rest.contains(event) {
                let k = choose|k: int| 0 <= k < rest.len() && rest[k] == event;
                assert(log[k] == log[log.len() - 1]);
            }
            assert(log[log.len() - 1] == event);
        } else if log.contains(event) {
            let k = choose|k: int| 0 <= k < log.len() && log[k] == event;
            assert(rest[k] == event);
        } else if rest.contains(event) {
            let k = choose|k: int| 0 <= k < rest.len() && rest[k] == event;
            assert(log[k] == event);
        }
    }
}

/// What forgetting a path does to the accesses that a log holds: none is
/// left to the path, and those to any other path of any repository are
/// all there, with the scores they had.
pub proof fn lemma_forget_effect(
    log: Seq<EventView>,
    repository: Seq<char>,
    path: Seq<char>,
    other_repository: Seq<char>,
    other_path: Seq<char>,
    measure: Measure,
)
    ensures
        !touched(forget_path(log, repository, path), repository, path),
        other_repository != repository || other_path != path ==> touched(
            forget_path(log, repository, path),
            other_repository,
            other_path,
        ) == touched(log, other_repository, other_path),
        other_repository != repository || other_path != path ==> score(
            forget_path(log, repository, path),
            other_repository,
            other_path,
            measure,
        ) == score(log, other_repository, other_path, measure),
    decreases log.len(),
{
    reveal(Seq::filter);
    let keep = survives(repository, path);
    let after = forget_path(log, repository, path);
    if log.len() > 0 {
        let rest = log.drop_last();
        let rest_after = forget_path(rest, repository, path);
        lemma_forget_effect(rest, repository, path, other_repository, other_path, measure);
        lemma_touched_step(log, other_repository, other_path);
        lemma_score_step(log, other_repository, other_path, measure);
        if keep(log.last()) {
            assert(after == rest_after.push(log.last()));
            assert(after.drop_last() =~= rest_after);
            lemma_touched_step(after, repository, path);
            lemma_touched_step(after, other_repository, other_path);
            lemma_score_step(after, other_repository, other_path, measure);
        }
    }
}

/// After a path is forgotten, no ranking of its repository holds it, however
/// often it had been recorded.
pub proof fn lemma_forgotten_path_is_unranked(
    log: Seq<EventView>,
    repository: Seq<char>,
    path: Seq<char>,
    order: Seq<Seq<char>>,
    measure: Measure,
)
    requires
        is_ranking(order, forget_path(log, repository, path), repository, measure),
    ensures
        !order.contains(path),
{
    lemma_forget_effect(log, repository, path, repository, path, measure);
}

/// Forgetting a path that was never recorded leaves the log as it is.
pub proof fn lemma_forget_unrecorded(log: Seq<EventView>, repository: Seq<char>, path: Seq<char>)
    requires
        !touched(log, repository, path),
    ensures
        forget_path(log, repository, path) == log,
    decreases log.len(),
{
    reveal(Seq::filter);
    if log.len() > 0 {
        lemma_touched_step(log, repository, path);
        lemma_forget_unrecorded(log.drop_last(), repository, path);
        assert(log.drop_last().push(log.last()) =~= log);
    }
}

/// An event recorded under one repository changes nothing for another: the
/// same paths are accessed there, with the same scores.
pub proof fn lemma_record_elsewhere(
    log: Seq<EventView>,
    event: EventView,
    repository: Seq<char>,
    path: Seq<char>,
    measure: Measure,
)
    requires
        event.repository != repository,
    ensures
        touched(record_event(log, event), repository, path) == touched(log, repository, path),
        score(record_event(log, event), repository, path, measure) == score(
            log,
            repository,
            path,
            measure,
        ),
{
    let after = record_event(log, event);
    if !log.contains(event) {
        assert(after.drop_last() =~= log);
        lemma_touched_step(after, repository, path);
        lemma_score_step(after, repository, path, measure);
    }
}

/// The rankings of a repository go by its own events alone: every path of a
/// ranking was accessed within that repository, and an event recorded under
/// another repository leaves the ranking as it was.
pub proof fn lemma_repositories_isolated(
    log: Seq<EventView>,
    event: EventView,
    repository: Seq<char>,
    order: Seq<Seq<char>>,
    measure: Measure,
)
    requires
        event.repository != repository,
    ensures
        is_ranking(order, log, repository, measure) ==> forall|path: Seq<char>| #[trigger]
            order.contains(path) ==> exists|i: int|
                0 <= i < log.len() && (#[trigger] log[i]).repository == repository && log[i].path
                    == path,
        is_ranking(order, record_event(log, event), repository, measure) == is_ranking(
            order,
            log,
            repository,
            measure,
        ),
{
    let after = record_event(log, event);
    assert forall|path: Seq<char>|
        #![trigger touched(after, repository, path)]
        #![trigger touched(log, repository, path)]
        #![trigger score(after, repository, path, measure)]
        #![trigger score(log, repository, path, measure)]
        touched(after, repository, path) == touched(log, repository, path) && score(
            after,
            repository,
            path,
            measure,
        ) == score(log, repository, path, measure) by {
        lemma_record_elsewhere(log, event, repository, path, measure);
    }
    if is_ranking(order, log, repository, measure) {
        assert forall|path: Seq<char>| #[trigger] order.contains(path) implies exists|i: int|
            0 <= i < log.len() && (#[trigger] log[i]).repository == repository && log[i].path
                == path by {
            assert(touched(log, repository, path));
            let i = choose|i: int|
                0 <= i < log.len() && concerns(#[trigger] log[i], repository, path);
            assert(log[i].repository == repository && log[i].path == path);
        }
    }
}

/// The latest access is an access, and none is later.
pub proof fn lemma_last_access_is_latest(
    log: Seq<EventView>,
    repository: Seq<char>,
    path: Seq<char>,
)
    requires
        touched(log, repository, path),
    ensures
        exists|i: int|
            0 <= i < log.len() && concerns(#[trigger] log[i], repository, path) && log[i].timestamp
                == last_access(log, repository, path),
        forall|i: int|
            0 <= i < log.len() && concerns(#[trigger] log[i], repository, path)
                ==> log[i].timestamp <= last_access(log, repository, path),
    decreases log.len(),
{
    let rest = log.drop_last();
    let latest = last_access(log, repository, path);
    lemma_touched_step(log, repository, path);
    if touched(rest, repository, path) {
        lemma_last_access_is_latest(rest, repository, path);
        let k = choose|k: int|
            0 <= k < rest.len() && concerns(#[trigger] rest[k], repository, path)
                && rest[k].timestamp == last_access(rest, repository, path);
        assert(concerns(log[k], repository, path));
        if latest == last_access(rest, repository, path) {
            assert(log[k].timestamp == latest);
        } else {
            assert(concerns(log[log.len() - 1], repository, path) && log[log.len() - 1].timestamp
                == latest);
        }
        assert forall|i: int|
            0 <= i < log.len() && concerns(
                #[trigger] log[i],
                repository,
                path,
            ) implies log[i].timestamp <= latest by {
            if i < rest.len() {
                assert(concerns(rest[i], repository, path));
            }
        }
    } else {
        assert(concerns(log[log.len() - 1], repository, path) && log[log.len() - 1].timestamp
            == latest);
        assert forall|i: int|
            0 <= i < log.len() && concerns(
                #[trigger] log[i],
                repository,
                path,
            ) implies log[i].timestamp <= latest by {
            if i < rest.len() {
                assert(concerns(rest[i], repository, path));
            }
        }
    }
}

/// In a ranking the path of the higher score stands first.
pub proof fn lemma_higher_score_ranks_first(
    order: Seq<Seq<char>>,
    log: Seq<EventView>,
    repository: Seq<char>,
    measure: Measure,
    i: int,
    j: int,
)
    requires
        is_ranking(order, log, repository, measure),
        0 <= i < order.len(),
        0 <= j < order.len(),
        score(log, repository, order[i], measure) > score(log, repository, order[j], measure),
    ensures
        i < j,
{
    if j < i {
        assert(ranks_before(
            score(log, repository, order[j], measure),
            order[j],
            score(log, repository, order[i], measure),
            order[i],
        ));
    }
}

/// The count of the accesses to a path does not depend on their instants:
/// two logs that hold accesses to the same paths of the same repositories,
/// one for one, give every path the same count.
pub proof fn lemma_count_ignores_instants(
    log: Seq<EventView>,
    other: Seq<EventView>,
    repository: Seq<char>,
    path: Seq<char>,
)
    requires
        log.len() == other.len(),
        forall|i: int|
            0 <= i < log.len() ==> (#[trigger] log[i]).repository == other[i].repository
                && log[i].path == other[i].path,
    ensures
        score(log, repository, path, Measure::Frequency) == score(
            other,
            repository,
            path,
            Measure::Frequency,
        ),
    decreases log.len(),
{
    reveal(Seq::filter);
    if log.len() > 0 {
        let rest = log.drop_last();
        let other_rest = other.drop_last();
        assert(log[log.len() - 1].repository == other[log.len() - 1].repository);
        assert forall|i: int| 0 <= i < rest.len() implies (#[trigger] rest[i]).repository
            == other_rest[i].repository && rest[i].path == other_rest[i].path by {
            assert(log[i].repository == other[i].repository);
        }
        lemma_count_ignores_instants(rest, other_rest, repository, path);
    }
}

/// Forgetting a path a second time changes nothing.
pub proof fn lemma_forget_idempotent(log: Seq<EventView>, repository: Seq<char>, path: Seq<char>)
    ensures
        forget_path(forget_path(log, repository, path), repository, path) == forget_path(
            log,
            repository,
            path,
        ),
{
    lemma_forget_effect(log, repository, path, repository, path, Measure::Recency);
    lemma_forget_unrecorded(forget_path(log, repository, path), repository, path);
}

/// How the score of a path stands to the score that it has without one of
/// the events, wherever in the log that event is: as if the event had been
/// the last.
pub proof fn lemma_score_without(
    log: Seq<EventView>,
    k: int,
    repository: Seq<char>,
    path: Seq<char>,
    measure: Measure,
)
    requires
        0 <= k < log.len(),
    ensures
        touched(log, repository, path) == (touched(log.remove(k), repository, path) || concerns(
            log[k],
            repository,
            path,
        )),
        !concerns(log[k], repository, path) ==> score(log, repository, path, measure) == score(
            log.remove(k),
            repository,
            path,
            measure,
        ),
        concerns(log[k], repository, path) ==> score(log, repository, path, measure) == merged(
            measure,
            touched(log.remove(k), repository, path),
            score(log.remove(k), repository, path, measure),
            log[k].timestamp,
        ),
    decreases log.len(),
{
    let without = log.remove(k);
    lemma_touched_step(log, repository, path);
    lemma_score_step(log, repository, path, measure);
    if k == log.len() - 1 {
        assert(without =~= log.drop_last());
    } else {
        let rest = log.drop_last();
        assert(without.drop_last() =~= rest.remove(k));
        assert(without.last() == log.last());
        assert(rest[k] == log[k]);
        lemma_score_without(rest, k, repository, path, measure);
        lemma_touched_step(without, repository, path);
        lemma_score_step(without, repository, path, measure);
    }
}

/// The order in which the events were recorded does not count: two logs
/// that hold the same events, each as often as the other, give every path
/// the same score.
pub proof fn lemma_scores_ignore_order(
    log: Seq<EventView>,
    other: Seq<EventView>,
    repository: Seq<char>,
    path: Seq<char>,
    measure: Measure,
)
    requires
        log.to_multiset() == other.to_multiset(),
    ensures
        touched(log, repository, path) == touched(other, repository, path),
        score(log, repository, path, measure) == score(other, repository, path, measure),
    decreases log.len(),
{
    log.to_multiset_ensures();
    other.to_multiset_ensures();
    if log.len() == 0 {
        assert(other.len() == 0);
        assert(log =~= other);
    } else {
        let event = log.last();
        let rest = log.drop_last();
        assert(log[log.len() - 1] == event);
        assert(log.contains(event));
        assert(other.to_multiset().count(event) > 0);
        assert(other.contains(event));
        let k = choose|k: int| 0 <= k < other.len() && other[k] == event;
        let other_rest = other.remove(k);
        rest.to_multiset_ensures();
        assert(rest.push(event) =~= log);
        assert(rest.to_multiset() =~= log.to_multiset().remove(event));
        assert(other_rest.to_multiset() =~= other.to_multiset().remove(event));
        lemma_scores_ignore_order(rest, other_rest, repository, path, measure);
        lemma_touched_step(log, repository, path);
        lemma_score_step(log, repository, path, measure);
        lemma_score_without(other, k, repository, path, measure);
    }
}

/// The ranking of a repository does not depend on the order in which the
/// events were recorded.
pub proof fn lemma_ranking_ignores_order(
    log: Seq<EventView>,
    other: Seq<EventView>,
    order: Seq<Seq<char>>,
    repository: Seq<char>,
    measure: Measure,
)
    requires
        log.to_multiset() == other.to_multiset(),
    ensures
        is_ranking(order, log, repository, measure) == is_ranking(
            order,
            other,
            repository,
            measure,
        ),
{
    assert forall|path: Seq<char>|
        #![trigger touched(log, repository, path)]
        #![trigger touched(other, repository, path)]
        #![trigger score(log, repository, path, measure)]
        #![trigger score(other, repository, path, measure)]
        touched(log, repository, path) == touched(other, repository, path) && score(
            log,
            repository,
            path,
            measure,
        ) == score(other, repository, path, measure) by {
        lemma_scores_ignore_order(log, other, repository, path, measure);
    }
}

/// Paths have one ranking by given keys: the frecency query gives the same
/// answer whenever it is given the same paths and the same keys.
pub proof fn lemma_keyed_ranking_unique(
    a: Seq<Seq<char>>,
    b: Seq<Seq<char>>,
    paths: Seq<Seq<char>>,
    keys: Seq<u64>,
)
    requires
        is_keyed_ranking(a, paths, keys),
        is_keyed_ranking(b, paths, keys),
    ensures
        a == b,
{
    let value = |path: Seq<char>| key_of(paths, keys, path);
    assert(is_ordered(a, value));
    assert(is_ordered(b, value));
    assert forall|path: Seq<char>|
        #![trigger a.contains(path)]
        #![trigger b.contains(path)]
        a.contains(path) <==> b.contains(path) by {
        assert(a.contains(path) <==> paths.contains(path));
        assert(b.contains(path) <==> paths.contains(path));
    }
    lemma_ordered_unique(a, b, value);
}

/// In a ranking by keys the path of the greater key stands first.
pub proof fn lemma_greater_key_ranks_first(
    order: Seq<Seq<char>>,
    paths: Seq<Seq<char>>,
    keys: Seq<u64>,
    i: int,
    j: int,
)
    requires
        is_keyed_ranking(order, paths, keys),
        0 <= i < order.len(),
        0 <= j < order.len(),
        key_of(paths, keys, order[i]) > key_of(paths, keys, order[j]),
    ensures
        i < j,
{
    if j < i {
        assert(ranks_before(
            key_of(paths, keys, order[j]),
            order[j],
            key_of(paths, keys, order[i]),
            order[i],
        ));
    }
}

/// Whatever the keys, the frecency ranking of a repository holds the paths
/// that were accessed within it and no other, each once: a forgotten path
/// is not in it, nor a path that was accessed within another repository
/// only.
pub proof fn lemma_frecent_holds_accessed(
    order: Seq<Seq<char>>,
    log: Seq<EventView>,
    repository: Seq<char>,
    keys: Seq<u64>,
)
    requires
        is_keyed_ranking(order, accessed_paths(log, repository), keys),
    ensures
        order.no_duplicates(),
        forall|path: Seq<char>|
            #![trigger order.contains(path)]
            #![trigger touched(log, repository, path)]
            order.contains(path) <==> touched(log, repository, path),
        forall|path: Seq<char>, forgotten: Seq<EventView>|
            log == #[trigger] forget_path(forgotten, repository, path) ==> !order.contains(path),
{
    let paths = accessed_paths(log, repository);
    lemma_accessed_paths(log, repository);
    assert forall|path: Seq<char>|
        #![trigger order.contains(path)]
        #![trigger touched(log, repository, path)]
        order.contains(path) <==> touched(log, repository, path) by {
        assert(order.contains(path) <==> paths.contains(path));
    }
    assert forall|i: int, j: int|
        0 <= i < order.len() && 0 <= j < order.len() && i != j implies order[i] != order[j] by {
        lemma_ranks_before_total(
            key_of(paths, keys, order[i]),
            order[i],
            key_of(paths, keys, order[j]),
            order[j],
        );
    }
    assert forall|path: Seq<char>, forgotten: Seq<EventView>|
        log == #[trigger] forget_path(forgotten, repository, path) implies !order.contains(
        path,
    ) by {
        lemma_forget_effect(forgotten, repository, path, repository, path, Measure::Recency);
    }
}

/// What an event does to the accessed paths of a repository: one recorded
/// under another repository, or a second time, leaves them as they were.
pub proof fn lemma_accessed_paths_elsewhere(
    log: Seq<EventView>,
    event: EventView,
    repository: Seq<char>,
)
    requires
        event.repository != repository || log.contains(event),
    ensures
        accessed_paths(record_event(log, event), repository) == accessed_paths(log, repository),
{
    let after = record_event(log, event);
    if !log.contains(event) {
        assert(after.drop_last() =~= log);
    }
}

/// An access within a repository that is later than all the accesses
/// within it puts its path first in the ranking by recency, and leaves the
/// paths other than its own in the order that they had.
pub proof fn lemma_latest_access_leads(
    log: Seq<EventView>,
    event: EventView,
    before: Seq<Seq<char>>,
    after: Seq<Seq<char>>,
)
    requires
        forall|i: int|
            0 <= i < log.len() && (#[trigger] log[i]).repository == event.repository
                ==> log[i].timestamp < event.timestamp,
        is_ranking(before, log, event.repository, Measure::Recency),
        is_ranking(after, record_event(log, event), event.repository, Measure::Recency),
    ensures
        after.len() > 0,
        after[0] == event.path,
        forall|i: int, j: int, a: int, b: int|
            0 <= i < j < before.len() && 0 <= a < after.len() && 0 <= b < after.len()
                && #[trigger] after[a] == #[trigger] before[i] && #[trigger] after[b]
                == #[trigger] before[j] && before[i] != event.path && before[j] != event.path
                ==> a < b,
{
    let repository = event.repository;
    let measure = Measure::Recency;
    let later = record_event(log, event);
    if log.contains(event) {
        let k = choose|k: int| 0 <= k < log.len() && log[k] == event;
        assert(log[k].timestamp < event.timestamp);
    }
    assert(later.drop_last() =~= log);
    assert(later.last() == event);
    lemma_touched_step(later, repository, event.path);
    lemma_score_step(later, repository, event.path, measure);
    if touched(log, repository, event.path) {
        lemma_last_access_is_latest(log, repository, event.path);
    }
    assert(score(later, repository, event.path, measure) == event.timestamp);
    assert(after.contains(event.path));
    let first = choose|k: int| 0 <= k < after.len() && after[k] == event.path;
    assert forall|k: int| 0 <= k < after.len() && k != first implies score(
        later,
        repository,
        #[trigger] after[k],
        measure,
    ) < event.timestamp by {
        let other = after[k];
        assert(after.contains(other));
        lemma_ranks_before_total(
            score(later, repository, after[k], measure),
            after[k],
            score(later, repository, after[first], measure),
            after[first],
        );
        lemma_touched_step(later, repository, other);
        lemma_score_step(later, repository, other, measure);
        lemma_last_access_is_latest(log, repository, other);
    }
    if first != 0 {
        lemma_higher_score_ranks_first(after, later, repository, measure, first, 0);
    }
    assert forall|i: int, j: int, a: int, b: int|
        0 <= i < j < before.len() && 0 <= a < after.len() && 0 <= b < after.len()
            && #[trigger] after[a] == #[trigger] before[i] && #[trigger] after[b]
            == #[trigger] before[j] && before[i] != event.path && before[j]
            != event.path implies a < b by {
        let p = before[i];
        let q = before[j];
        lemma_ranks_before_total(
            score(log, repository, p, measure),
            p,
            score(log, repository, q, measure),
            q,
        );
        lemma_score_step(later, repository, p, measure);
        lemma_score_step(later, repository, q, measure);
        if b < a {
            assert(ranks_before(
                score(later, repository, after[b], measure),
                after[b],
                score(later, repository, after[a], measure),
                after[a],
            ));
        }
    }
}

/// One more access never moves a path back in the ranking by frequency.
pub proof fn lemma_access_never_moves_back(
    log: Seq<EventView>,
    event: EventView,
    before: Seq<Seq<char>>,
    after: Seq<Seq<char>>,
    i: int,
    j: int,
)
    requires
        !log.contains(event),
        is_ranking(before, log, event.repository, Measure::Frequency),
        is_ranking(after, log.push(event), event.repository, Measure::Frequency),
        0 <= i < before.len(),
        0 <= j < after.len(),
        before[i] == event.path,
        after[j] == event.path,
    ensures
        j <= i,
{
    let repository = event.repository;
    let measure = Measure::Frequency;
    let later = log.push(event);
    assert(later.drop_last() =~= log);
    assert(later.last() == event);
    lemma_ranking_distinct(before, log, repository, measure);
    lemma_ranking_distinct(after, later, repository, measure);
    lemma_score_step(later, repository, event.path, measure);
    assert(before.contains(event.path));
    let ahead = after.take(j);
    let ahead_before = before.take(i);
    let placed = ahead.to_set();
    let placed_before = ahead_before.to_set();
    assert forall|path: Seq<char>| placed.contains(path) implies placed_before.contains(path) by {
        let k = choose|k: int| 0 <= k < ahead.len() && ahead[k] == path;
        assert(after[k] == path);
        assert(after.contains(path));
        lemma_touched_step(later, repository, path);
        lemma_score_step(later, repository, path, measure);
        assert(path != event.path);
        assert(before.contains(path));
        let m = choose|m: int| 0 <= m < before.len() && before[m] == path;
        lemma_ranks_before_total(
            score(log, repository, path, measure),
            path,
            score(log, repository, event.path, measure),
            event.path,
        );
        if m > i {
            assert(ranks_before(
                score(log, repository, before[i], measure),
                before[i],
                score(log, repository, before[m], measure),
                before[m],
            ));
        }
        assert(ahead_before[m] == path);
    }
    ahead.unique_seq_to_set();
    ahead_before.unique_seq_to_set();
    vstd::set_lib::lemma_len_subset(ahead.to_set(), ahead_before.to_set());
}

/// A path has as many instants as it has accesses.
pub proof fn lemma_instants_count(log: Seq<EventView>, repository: Seq<char>, path: Seq<char>)
    ensures
        instants_of(log, repository, path).len() == score(
            log,
            repository,
            path,
            Measure::Frequency,
        ),
    decreases log.len(),
{
    reveal(Seq::filter);
    if log.len() > 0 {
        lemma_instants_count(log.drop_last(), repository, path);
    }
}

} // verus!
