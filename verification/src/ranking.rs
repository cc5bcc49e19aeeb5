//! The rankings of the paths of one repository, each a sequence of distinct
//! paths, best first.
//!
//! The rankings by recency and by frequency go by scores that the library
//! computes. The ranking by frecency goes by scores that are real numbers:
//! the library hands out the accesses to each path, takes back one key for
//! each path, a whole number that stands for its score, and puts the paths
//! in the order of their keys.

use crate::event::{concerns, views_of, AccessEvent, EventView};
use crate::store::EventStore;
use crate::text::{comes_before, same_text, text_before};
use vstd::prelude::*;

verus! {

/// What a ranking goes by.
#[derive(Clone, Copy, Debug)]
pub enum Measure {
    /// The instant of the latest access.
    Recency,
    /// The number of accesses.
    Frequency,
}

/// The log holds an access to `path` within `repository`.
pub open spec fn touched(log: Seq<EventView>, repository: Seq<char>, path: Seq<char>) -> bool {
    exists|i: int| 0 <= i < log.len() && concerns(#[trigger] log[i], repository, path)
}

/// The instant of the latest access to `path` within `repository`; zero
/// where there is none.
pub open spec fn last_access(log: Seq<EventView>, repository: Seq<char>, path: Seq<char>) -> int
    decreases log.len(),
{
    if log.len() == 0 {
        0
    } else {
        let earlier = last_access(log.drop_last(), repository, path);
        let event = log.last();
        if concerns(event, repository, path) && (!touched(log.drop_last(), repository, path)
            || earlier < event.timestamp) {
            event.timestamp
        } else {
            earlier
        }
    }
}

/// The accesses to `path` within `repository`.
pub open spec fn accesses_to(repository: Seq<char>, path: Seq<char>) -> spec_fn(EventView) -> bool {
    |event: EventView| concerns(event, repository, path)
}

/// The number of accesses to `path` within `repository`.
pub open spec fn access_count(log: Seq<EventView>, repository: Seq<char>, path: Seq<char>) -> nat {
    log.filter(accesses_to(repository, path)).len()
}

/// The score of `path` within `repository` under a measure.
pub open spec fn score(
    log: Seq<EventView>,
    repository: Seq<char>,
    path: Seq<char>,
    measure: Measure,
) -> int {
    match measure {
        Measure::Recency => last_access(log, repository, path),
        Measure::Frequency => access_count(log, repository, path) as int,
    }
}

/// A path with its score ranks before another: its score is higher, or the
/// scores are equal and its text comes first.
pub open spec fn ranks_before(score_a: int, a: Seq<char>, score_b: int, b: Seq<char>) -> bool {
    score_a > score_b || (score_a == score_b && text_before(a, b))
}

/// `order` is the ranking of `repository` under `measure`: it holds the paths
/// accessed within the repository and no other, and each of its paths ranks
/// before those that follow it.
pub open spec fn is_ranking(
    order: Seq<Seq<char>>,
    log: Seq<EventView>,
    repository: Seq<char>,
    measure: Measure,
) -> bool {
    &&& forall|path: Seq<char>|
        #![trigger order.contains(path)]
        #![trigger touched(log, repository, path)]
        order.contains(path) <==> touched(log, repository, path)
    &&& forall|i: int, j: int|
        0 <= i < j < order.len() ==> ranks_before(
            score(log, repository, #[trigger] order[i], measure),
            order[i],
            score(log, repository, #[trigger] order[j], measure),
            order[j],
        )
}

/// The texts of a sequence of strings.
pub open spec fn texts_of(strings: Seq<String>) -> Seq<Seq<char>> {
    Seq::new(strings.len(), |i: int| strings[i]@)
}

/// The score of a path after one more access to it at `timestamp`, where
/// `seen` says whether it had been accessed before and `prior` is the score it
/// then had.
pub open spec fn merged(measure: Measure, seen: bool, prior: int, timestamp: int) -> int {
    match measure {
        Measure::Recency => if seen && prior >= timestamp {
            prior
        } else {
            timestamp
        },
        Measure::Frequency => (if seen {
            prior
        } else {
            0
        }) + 1,
    }
}

/// A log holds an access to a path exactly if its last event is one or the
/// events before it hold one.
pub proof fn lemma_touched_step(log: Seq<EventView>, repository: Seq<char>, path: Seq<char>)
    requires
        log.len() > 0,
    ensures
        touched(log, repository, path) == (touched(log.drop_last(), repository, path) || concerns(
            log.last(),
            repository,
            path,
        )),
{
    let rest = log.drop_last();
    if touched(log, repository, path) {
        let i = choose|i: int| 0 <= i < log.len() && concerns(#[trigger] log[i], repository, path);
        if i < log.len() - 1 {
            assert(concerns(rest[i], repository, path));
        }
    }
    if touched(rest, repository, path) {
        let i = choose|i: int|
            0 <= i < rest.len() && concerns(#[trigger] rest[i], repository, path);
        assert(concerns(log[i], repository, path));
    }
    if concerns(log.last(), repository, path) {
        assert(concerns(log[log.len() - 1], repository, path));
    }
}

/// A path that was never accessed has no accesses to count.
pub proof fn lemma_untouched_scores_nothing(
    log: Seq<EventView>,
    repository: Seq<char>,
    path: Seq<char>,
)
    requires
        !touched(log, repository, path),
    ensures
        access_count(log, repository, path) == 0,
    decreases log.len(),
{
    reveal(Seq::filter);
    if log.len() > 0 {
        lemma_touched_step(log, repository, path);
        lemma_untouched_scores_nothing(log.drop_last(), repository, path);
    }
}

/// How the score of a path changes with the last event of a log: not at all
/// where the event is no access to the path, else as `merged` says.
pub proof fn lemma_score_step(
    log: Seq<EventView>,
    repository: Seq<char>,
    path: Seq<char>,
    measure: Measure,
)
    requires
        log.len() > 0,
    ensures
        !concerns(log.last(), repository, path) ==> score(log, repository, path, measure) == score(
            log.drop_last(),
            repository,
            path,
            measure,
        ),
        concerns(log.last(), repository, path) ==> score(log, repository, path, measure) == merged(
            measure,
            touched(log.drop_last(), repository, path),
            score(log.drop_last(), repository, path, measure),
            log.last().timestamp,
        ),
{
    reveal(Seq::filter);
    let rest = log.drop_last();
    if !touched(rest, repository, path) {
        lemma_untouched_scores_nothing(rest, repository, path);
    }
}

/// A count is at most the number of events.
pub proof fn lemma_score_bounds(log: Seq<EventView>, repository: Seq<char>, path: Seq<char>)
    ensures
        access_count(log, repository, path) <= log.len(),
    decreases log.len(),
{
    reveal(Seq::filter);
    if log.len() > 0 {
        lemma_score_bounds(log.drop_last(), repository, path);
    }
}

/// Between two distinct paths one ranks before the other, and never both.
pub proof fn lemma_ranks_before_total(score_a: int, a: Seq<char>, score_b: int, b: Seq<char>)
    ensures
        !(ranks_before(score_a, a, score_b, b) && ranks_before(score_b, b, score_a, a)),
        a != b ==> ranks_before(score_a, a, score_b, b) || ranks_before(score_b, b, score_a, a),
        a == b && score_a == score_b ==> !ranks_before(score_a, a, score_b, b),
{
    crate::text::lemma_text_before_strict_total(a, b);
}

/// Ranking before is transitive.
pub proof fn lemma_ranks_before_transitive(
    score_a: int,
    a: Seq<char>,
    score_b: int,
    b: Seq<char>,
    score_c: int,
    c: Seq<char>,
)
    requires
        ranks_before(score_a, a, score_b, b),
        ranks_before(score_b, b, score_c, c),
    ensures
        ranks_before(score_a, a, score_c, c),
{
    if score_a == score_b && score_b == score_c {
        crate::text::lemma_text_before_transitive(a, b, c);
    }
}

/// The paths accessed within `repository`, each once, in the order in which
/// they were first accessed.
pub open spec fn accessed_paths(log: Seq<EventView>, repository: Seq<char>) -> Seq<Seq<char>>
    decreases log.len(),
{
    if log.len() == 0 {
        Seq::empty()
    } else {
        let earlier = accessed_paths(log.drop_last(), repository);
        let event = log.last();
        if event.repository == repository && !earlier.contains(event.path) {
            earlier.push(event.path)
        } else {
            earlier
        }
    }
}

/// The instants of the accesses to `path` within `repository`, in the order
/// of the log.
pub open spec fn instants_of(
    log: Seq<EventView>,
    repository: Seq<char>,
    path: Seq<char>,
) -> Seq<int>
    decreases log.len(),
{
    if log.len() == 0 {
        Seq::empty()
    } else {
        let earlier = instants_of(log.drop_last(), repository, path);
        if concerns(log.last(), repository, path) {
            earlier.push(log.last().timestamp)
        } else {
            earlier
        }
    }
}

/// The instants that a sequence of stored ones stands for.
pub open spec fn whole(instants: Seq<i64>) -> Seq<int> {
    Seq::new(instants.len(), |k: int| instants[k] as int)
}

/// The accesses within one repository, path by path: `instants[j]` holds the
/// instants of the accesses to `paths[j]`.
#[derive(Debug)]
pub struct Histories {
    pub paths: Vec<String>,
    pub instants: Vec<Vec<i64>>,
}

/// The histories are those of `repository`: its accessed paths, in the order
/// of their first access, and beside each the instants of the accesses to it,
/// in the order of the log.
pub open spec fn is_histories(
    histories: Histories,
    log: Seq<EventView>,
    repository: Seq<char>,
) -> bool {
    &&& texts_of(histories.paths@) == accessed_paths(log, repository)
    &&& histories.instants.len() == histories.paths.len()
    &&& forall|j: int|
        0 <= j < histories.paths.len() ==> whole(#[trigger] histories.instants[j]@) == instants_of(
            log,
            repository,
            histories.paths[j]@,
        )
}

/// The key of `path`, where `keys` holds one key for each of `paths`, in
/// their order; zero for a path that is not among them.
pub open spec fn key_of(paths: Seq<Seq<char>>, keys: Seq<u64>, path: Seq<char>) -> int
    decreases paths.len(),
{
    if paths.len() == 0 {
        0
    } else if paths.last() == path {
        keys[paths.len() - 1] as int
    } else {
        key_of(paths.drop_last(), keys, path)
    }
}

/// `order` is the ranking of `paths` by `keys`: it holds those paths and no
/// other, and each of its paths ranks before those that follow it, the
/// greater key first and, between equal keys, the path whose text comes
/// first.
pub open spec fn is_keyed_ranking(
    order: Seq<Seq<char>>,
    paths: Seq<Seq<char>>,
    keys: Seq<u64>,
) -> bool {
    &&& forall|path: Seq<char>|
        #![trigger order.contains(path)]
        #![trigger paths.contains(path)]
        order.contains(path) <==> paths.contains(path)
    &&& forall|i: int, j: int|
        0 <= i < j < order.len() ==> ranks_before(
            key_of(paths, keys, #[trigger] order[i]),
            order[i],
            key_of(paths, keys, #[trigger] order[j]),
            order[j],
        )
}

/// The accessed paths of a repository are those that the log holds an access
/// to, each once.
pub proof fn lemma_accessed_paths(log: Seq<EventView>, repository: Seq<char>)
    ensures
        accessed_paths(log, repository).no_duplicates(),
        forall|path: Seq<char>|
            #![trigger accessed_paths(log, repository).contains(path)]
            #![trigger touched(log, repository, path)]
            accessed_paths(log, repository).contains(path) <==> touched(log, repository, path),
    decreases log.len(),
{
    let paths = accessed_paths(log, repository);
    if log.len() > 0 {
        let rest = log.drop_last();
        let earlier = accessed_paths(rest, repository);
        let event = log.last();
        lemma_accessed_paths(rest, repository);
        assert forall|path: Seq<char>|
            #![trigger paths.contains(path)]
            #![trigger touched(log, repository, path)]
            paths.contains(path) <==> touched(log, repository, path) by {
            lemma_touched_step(log, repository, path);
            if paths.contains(path) {
                let k = choose|k: int| 0 <= k < paths.len() && paths[k] == path;
                if k < earlier.len() {
                    assert(earlier[k] == path);
                    assert(earlier.contains(path));
                }
            }
            if earlier.contains(path) {
                let k = choose|k: int| 0 <= k < earlier.len() && earlier[k] == path;
                assert(paths[k] == path);
            }
            if concerns(event, repository, path) && !earlier.contains(path) {
                assert(paths[paths.len() - 1] == path);
            }
        }
    } else {
        assert forall|path: Seq<char>| !touched(log, repository, path) by {}
    }
}

/// Among paths that are distinct, the key of the path at a place is the key
/// at that place.
pub proof fn lemma_key_of(paths: Seq<Seq<char>>, keys: Seq<u64>, j: int)
    requires
        paths.no_duplicates(),
        0 <= j < paths.len() <= keys.len(),
    ensures
        key_of(paths, keys, paths[j]) == keys[j],
    decreases paths.len(),
{
    if j < paths.len() - 1 {
        assert(paths[paths.len() - 1] != paths[j]);
        assert(paths.drop_last()[j] == paths[j]);
        lemma_key_of(paths.drop_last(), keys, j);
    }
}

/// The paths and their scores are the tally of the log for `repository`:
/// each accessed path once, beside its score.
spec fn is_tally(
    paths: Seq<Seq<char>>,
    scores: Seq<i128>,
    log: Seq<EventView>,
    repository: Seq<char>,
    measure: Measure,
) -> bool {
    &&& paths.len() == scores.len()
    &&& paths.no_duplicates()
    &&& forall|path: Seq<char>| #[trigger] paths.contains(path) <==> touched(log, repository, path)
    &&& forall|j: int|
        0 <= j < paths.len() ==> scores[j] == score(log, repository, #[trigger] paths[j], measure)
}

/// Where `path` stands among `paths`, if it does.
fn position(paths: &Vec<String>, path: &str) -> (found: Option<usize>)
    ensures
        match found {
            Some(j) => j < paths.len() && paths[j as int]@ == path@,
            None => !texts_of(paths@).contains(path@),
        },
{
    let mut j: usize = 0;
    while j < paths.len()
        invariant
            j <= paths.len(),
            forall|k: int| 0 <= k < j ==> texts_of(paths@)[k] != path@,
        decreases paths.len() - j,
    {
        if same_text(paths[j].as_str(), path) {
            return Some(j);
        }
        j = j + 1;
    }
    None
}

/// The score of a path after its first access.
fn first_score(measure: Measure, timestamp: i64) -> (value: i128)
    ensures
        value == merged(measure, false, 0, timestamp as int),
{
    match measure {
        Measure::Recency => timestamp as i128,
        Measure::Frequency => 1,
    }
}

/// The score of a path after one more access.
fn next_score(
    measure: Measure,
    prior: i128,
    timestamp: i64,
    Ghost(events): Ghost<nat>,
) -> (value: i128)
    requires
        events <= usize::MAX,
        measure is Frequency ==> 0 <= prior <= events,
    ensures
        value == merged(measure, true, prior as int, timestamp as int),
{
    match measure {
        Measure::Recency => if prior >= timestamp as i128 {
            prior
        } else {
            timestamp as i128
        },
        Measure::Frequency => prior + 1,
    }
}

/// Tallies the events of `repository`: the paths accessed within it, each
/// once and in the order of their first access, and beside each its score.
fn tally(
    events: &Vec<AccessEvent>,
    repository: &str,
    measure: Measure,
) -> (found: (Vec<String>, Vec<i128>))
    ensures
        is_tally(texts_of(found.0@), found.1@, views_of(events@), repository@, measure),
{
    let ghost log = views_of(events@);
    let mut paths: Vec<String> = Vec::new();
    let mut scores: Vec<i128> = Vec::new();
    let mut i: usize = 0;
    proof {
        assert forall|path: Seq<char>| !touched(log.take(0), repository@, path) by {}
    }
    while i < events.len()
        invariant
            i <= events.len(),
            log == views_of(events@),
            is_tally(texts_of(paths@), scores@, log.take(i as int), repository@, measure),
        decreases events.len() - i,
    {
        let event = &events[i];
        let ghost before = log.take(i as int);
        let ghost after = log.take(i + 1);
        let ghost old_paths = texts_of(paths@);
        let ghost old_scores = scores@;
        proof {
            assert(after.drop_last() =~= before);
            assert(after.last() == event@);
            assert forall|path: Seq<char>|
                touched(after, repository@, path) == (touched(before, repository@, path)
                    || concerns(event@, repository@, path)) by {
                lemma_touched_step(after, repository@, path);
            }
            assert forall|j: int| 0 <= j < old_paths.len() implies score(
                after,
                repository@,
                #[trigger] old_paths[j],
                measure,
            ) == (if concerns(event@, repository@, old_paths[j]) {
                merged(measure, true, old_scores[j] as int, event.timestamp as int)
            } else {
                old_scores[j] as int
            }) by {
                lemma_score_step(after, repository@, old_paths[j], measure);
                assert(old_paths.contains(old_paths[j]));
            }
        }
        if event.is_within(repository) {
            match position(&paths, event.path.as_str()) {
                Some(j) => {
                    proof {
                        assert(old_paths[j as int] == event@.path);
                        lemma_score_bounds(before, repository@, event@.path);
                    }
                    let value: i128 = next_score(
                        measure,
                        scores[j],
                        event.timestamp,
                        Ghost(i as nat),
                    );
                    scores.set(j, value);
                    proof {
                        assert forall|path: Seq<char>| #[trigger]
                            old_paths.contains(path) <==> touched(after, repository@, path) by {
                            if concerns(event@, repository@, path) {
                                assert(path == old_paths[j as int]);
                            }
                        }
                    }
                },
                None => {
                    proof {
                        lemma_score_step(after, repository@, event@.path, measure);
                    }
                    let value: i128 = first_score(measure, event.timestamp);
                    paths.push(event.path.clone());
                    scores.push(value);
                    proof {
                        let new_paths = texts_of(paths@);
                        assert(new_paths =~= old_paths.push(event@.path));
                        assert forall|path: Seq<char>| #[trigger]
                            new_paths.contains(path) <==> touched(after, repository@, path) by {
                            if new_paths.contains(path) {
                                let k = choose|k: int|
                                    0 <= k < new_paths.len() && new_paths[k] == path;
                                if k < old_paths.len() {
                                    assert(old_paths.contains(path));
                                }
                            }
                            if touched(before, repository@, path) {
                                assert(old_paths.contains(path));
                                let k = choose|k: int|
                                    0 <= k < old_paths.len() && old_paths[k] == path;
                                assert(new_paths[k] == path);
                            }
                            if concerns(event@, repository@, path) {
                                assert(new_paths[new_paths.len() - 1] == path);
                            }
                        }
                    }
                },
            }
        }
        i = i + 1;
    }
    assert(log.take(i as int) =~= log);
    (paths, scores)
}

/// Gathers the accesses within `repository`, path by path.
fn gather(events: &Vec<AccessEvent>, repository: &str) -> (histories: Histories)
    ensures
        is_histories(histories, views_of(events@), repository@),
{
    let ghost log = views_of(events@);
    let mut paths: Vec<String> = Vec::new();
    let mut instants: Vec<Vec<i64>> = Vec::new();
    let mut i: usize = 0;
    proof {
        assert(texts_of(paths@) =~= accessed_paths(log.take(0), repository@));
    }
    while i < events.len()
        invariant
            i <= events.len(),
            log == views_of(events@),
            texts_of(paths@) == accessed_paths(log.take(i as int), repository@),
            instants.len() == paths.len(),
            forall|j: int|
                0 <= j < paths.len() ==> whole(#[trigger] instants[j]@) == instants_of(
                    log.take(i as int),
                    repository@,
                    paths[j]@,
                ),
        decreases events.len() - i,
    {
        let event = &events[i];
        let ghost before = log.take(i as int);
        let ghost after = log.take(i + 1);
        let ghost old_paths = texts_of(paths@);
        let ghost old_instants = instants@;
        proof {
            assert(after.drop_last() =~= before);
            assert(after.last() == event@);
            lemma_accessed_paths(before, repository@);
        }
        if event.is_within(repository) {
            match position(&paths, event.path.as_str()) {
                Some(j) => {
                    assert(old_paths[j as int] == event@.path);
                    assert(old_paths.contains(event@.path));
                    let mut list: Vec<i64> = instants.remove(j);
                    list.push(event.timestamp);
                    instants.insert(j, list);
                    proof {
                        assert(instants@ =~= old_instants.update(j as int, list));
                        assert(whole(list@) =~= whole(old_instants[j as int]@).push(
                            event.timestamp as int,
                        ));
                        assert forall|k: int| 0 <= k < paths.len() implies whole(
                            #[trigger] instants[k]@,
                        ) == instants_of(after, repository@, paths[k]@) by {
                            assert(old_paths[k] == paths[k]@);
                            if k != j {
                                assert(old_paths[k] != old_paths[j as int]);
                                assert(instants[k] == old_instants[k]);
                            }
                        }
                    }
                },
                None => {
                    let mut list: Vec<i64> = Vec::new();
                    list.push(event.timestamp);
                    paths.push(event.path.clone());
                    instants.push(list);
                    proof {
                        assert(texts_of(paths@) =~= old_paths.push(event@.path));
                        lemma_instants_of_untouched(before, repository@, event@.path);
                        assert(whole(list@) =~= Seq::<int>::empty().push(event.timestamp as int));
                        assert forall|k: int| 0 <= k < paths.len() implies whole(
                            #[trigger] instants[k]@,
                        ) == instants_of(after, repository@, paths[k]@) by {
                            if k < old_paths.len() {
                                assert(old_paths[k] == paths[k]@);
                                assert(old_paths.contains(old_paths[k]));
                                assert(instants[k] == old_instants[k]);
                            }
                        }
                    }
                },
            }
        } else {
            proof {
                assert forall|k: int| 0 <= k < paths.len() implies whole(
                    #[trigger] instants[k]@,
                ) == instants_of(after, repository@, paths[k]@) by {}
            }
        }
        i = i + 1;
    }
    assert(log.take(i as int) =~= log);
    Histories { paths, instants }
}

/// A path that was never accessed has no instants.
pub proof fn lemma_instants_of_untouched(
    log: Seq<EventView>,
    repository: Seq<char>,
    path: Seq<char>,
)
    requires
        !touched(log, repository, path),
    ensures
        instants_of(log, repository, path) == Seq::<int>::empty(),
    decreases log.len(),
{
    if log.len() > 0 {
        lemma_touched_step(log, repository, path);
        lemma_instants_of_untouched(log.drop_last(), repository, path);
    }
}

/// Whether the path `a` with its score ranks before the path `b` with its.
fn outranks(score_a: i128, a: &str, score_b: i128, b: &str) -> (before: bool)
    ensures
        before == ranks_before(score_a as int, a@, score_b as int, b@),
{
    score_a > score_b || (score_a == score_b && comes_before(a, b))
}

/// Puts paths in ranking order. `value` is the score that goes with each
/// path.
fn arrange(
    paths: Vec<String>,
    scores: Vec<i128>,
    Ghost(value): Ghost<spec_fn(Seq<char>) -> int>,
) -> (order: Vec<String>)
    requires
        paths.len() == scores.len(),
        texts_of(paths@).no_duplicates(),
        forall|j: int| 0 <= j < paths.len() ==> scores[j] == value(#[trigger] texts_of(paths@)[j]),
    ensures
        forall|path: Seq<char>| #[trigger]
            texts_of(order@).contains(path) <==> texts_of(paths@).contains(path),
        forall|i: int, j: int|
            0 <= i < j < order.len() ==> ranks_before(
                value(#[trigger] texts_of(order@)[i]),
                texts_of(order@)[i],
                value(#[trigger] texts_of(order@)[j]),
                texts_of(order@)[j],
            ),
{
    let ghost all = texts_of(paths@);
    let mut paths = paths;
    let mut scores = scores;
    let mut order: Vec<String> = Vec::new();
    let mut keys: Vec<i128> = Vec::new();
    while paths.len() > 0
        invariant
            paths.len() == scores.len(),
            paths.len() <= all.len(),
            texts_of(paths@) == all.take(paths.len() as int),
            all.no_duplicates(),
            forall|j: int| 0 <= j < paths.len() ==> scores[j] == value(#[trigger] all[j]),
            order.len() == keys.len(),
            forall|k: int|
                0 <= k < order.len() ==> keys[k] == value(#[trigger] texts_of(order@)[k]),
            forall|path: Seq<char>| #[trigger]
                texts_of(order@).contains(path) <==> all.skip(paths.len() as int).contains(path),
            forall|i: int, j: int|
                0 <= i < j < order.len() ==> ranks_before(
                    value(#[trigger] texts_of(order@)[i]),
                    texts_of(order@)[i],
                    value(#[trigger] texts_of(order@)[j]),
                    texts_of(order@)[j],
                ),
        decreases paths.len(),
    {
        let ghost left = paths.len() - 1;
        let ghost placed = texts_of(order@);
        let ghost tail = all.skip(left + 1);
        let ghost more = all.skip(left);
        assert(texts_of(paths@)[left] == all[left]);
        let path = paths.pop().unwrap();
        let key: i128 = scores.pop().unwrap();
        assert(texts_of(paths@) =~= all.take(left));
        assert(key == value(path@));
        assert(!placed.contains(path@)) by {
            if placed.contains(path@) {
                let k = choose|k: int| 0 <= k < tail.len() && tail[k] == path@;
                assert(all[left + 1 + k] == all[left]);
            }
        }
        let mut at: usize = 0;
        while at < order.len() && outranks(keys[at], order[at].as_str(), key, path.as_str())
            invariant
                at <= order.len(),
                order.len() == keys.len(),
                placed == texts_of(order@),
                forall|k: int| 0 <= k < order.len() ==> keys[k] == value(#[trigger] placed[k]),
                forall|k: int|
                    0 <= k < at ==> ranks_before(
                        value(#[trigger] placed[k]),
                        placed[k],
                        key as int,
                        path@,
                    ),
            decreases order.len() - at,
        {
            at = at + 1;
        }
        proof {
            assert forall|k: int| at <= k < placed.len() implies ranks_before(
                key as int,
                path@,
                value(#[trigger] placed[k]),
                placed[k],
            ) by {
                assert(placed.contains(placed[k]));
                assert(placed.contains(placed[at as int]));
                lemma_ranks_before_total(
                    value(placed[at as int]),
                    placed[at as int],
                    key as int,
                    path@,
                );
                if at < k {
                    lemma_ranks_before_transitive(
                        key as int,
                        path@,
                        value(placed[at as int]),
                        placed[at as int],
                        value(placed[k]),
                        placed[k],
                    );
                }
            }
        }
        order.insert(at, path);
        keys.insert(at, key);
        proof {
            let now_placed = texts_of(order@);
            assert(now_placed =~= placed.insert(at as int, path@));
            assert forall|p: Seq<char>| #[trigger]
                now_placed.contains(p) <==> more.contains(p) by {
                if now_placed.contains(p) {
                    let k = choose|k: int| 0 <= k < now_placed.len() && now_placed[k] == p;
                    if k < at {
                        assert(placed[k] == p);
                    } else if k > at {
                        assert(placed[k - 1] == p);
                    }
                    if k != at {
                        assert(placed.contains(p));
                        let m = choose|m: int| 0 <= m < tail.len() && tail[m] == p;
                        assert(more[m + 1] == p);
                    } else {
                        assert(more[0] == p);
                    }
                }
                if more.contains(p) {
                    let m = choose|m: int| 0 <= m < more.len() && more[m] == p;
                    if m == 0 {
                        assert(now_placed[at as int] == p);
                    } else {
                        assert(tail[m - 1] == p);
                        assert(placed.contains(p));
                        let k = choose|k: int| 0 <= k < placed.len() && placed[k] == p;
                        if k < at {
                            assert(now_placed[k] == p);
                        } else {
                            assert(now_placed[k + 1] == p);
                        }
                    }
                }
            }
            assert forall|i: int, j: int| 0 <= i < j < now_placed.len() implies ranks_before(
                value(#[trigger] now_placed[i]),
                now_placed[i],
                value(#[trigger] now_placed[j]),
                now_placed[j],
            ) by {
                if i < at && j > at {
                    assert(now_placed[i] == placed[i] && now_placed[j] == placed[j - 1]);
                } else if i > at {
                    assert(now_placed[i] == placed[i - 1] && now_placed[j] == placed[j - 1]);
                } else if j < at {
                    assert(now_placed[i] == placed[i] && now_placed[j] == placed[j]);
                } else if i == at {
                    assert(now_placed[j] == placed[j - 1]);
                } else {
                    assert(now_placed[i] == placed[i]);
                }
            }
        }
    }
    proof {
        assert(all.skip(0) =~= all);
    }
    order
}

impl EventStore {
    /// The ranking of the paths of `repository` under `measure`.
    pub fn rank(&self, repository: &str, measure: Measure) -> (order: Vec<String>)
        ensures
            is_ranking(texts_of(order@), self@, repository@, measure),
    {
        let events = self.events();
        let (paths, scores) = tally(events, repository, measure);
        let ghost log = self@;
        let ghost value = |path: Seq<char>| score(log, repository@, path, measure);
        arrange(paths, scores, Ghost(value))
    }

    /// The paths of `repository`, the one accessed last first.
    pub fn recent(&self, repository: &str) -> (order: Vec<String>)
        ensures
            is_ranking(texts_of(order@), self@, repository@, Measure::Recency),
    {
        self.rank(repository, Measure::Recency)
    }

    /// The paths of `repository`, the one accessed most often first.
    pub fn frequent(&self, repository: &str) -> (order: Vec<String>)
        ensures
            is_ranking(texts_of(order@), self@, repository@, Measure::Frequency),
    {
        self.rank(repository, Measure::Frequency)
    }

    /// The accesses within `repository`, path by path: the accessed paths
    /// in the order of their first access, and beside each the instants of
    /// the accesses to it.
    pub fn histories(&self, repository: &str) -> (histories: Histories)
        ensures
            is_histories(histories, self@, repository@),
    {
        gather(self.events(), repository)
    }

    /// The paths of `repository`, the one of the greatest frecency first.
    ///
    /// The frecency of a path is a real number. The caller computes it from
    /// the instants that `histories` gives for the path, and hands in a key
    /// that stands for it: `keys` holds one key for each path, in the order
    /// of `histories`, and a greater key stands for a greater frecency.
    /// There is no ranking where the number of keys is not that of the
    /// paths.
    pub fn frecent(&self, repository: &str, keys: &Vec<u64>) -> (ranking: Option<Vec<String>>)
        ensures
            ranking is Some <==> keys.len() == accessed_paths(self@, repository@).len(),
            ranking matches Some(order) ==> is_keyed_ranking(
                texts_of(order@),
                accessed_paths(self@, repository@),
                keys@,
            ),
    {
        let histories = self.histories(repository);
        if keys.len() != histories.paths.len() {
            return None;
        }
        let ghost paths = accessed_paths(self@, repository@);
        let mut scores: Vec<i128> = Vec::new();
        let mut i: usize = 0;
        while i < keys.len()
            invariant
                i <= keys.len(),
                scores.len() == i,
                forall|k: int| 0 <= k < i ==> scores[k] == keys[k],
            decreases keys.len() - i,
        {
            scores.push(keys[i] as i128);
            i = i + 1;
        }
        let ghost value = |path: Seq<char>| key_of(paths, keys@, path);
        proof {
            lemma_accessed_paths(self@, repository@);
            assert forall|j: int| 0 <= j < paths.len() implies scores[j] == value(
                #[trigger] paths[j],
            ) by {
                lemma_key_of(paths, keys@, j);
            }
        }
        Some(arrange(histories.paths, scores, Ghost(value)))
    }

    /// The score of `path` within `repository` under `measure`, where the
    /// path was accessed there.
    pub fn score_of(&self, repository: &str, path: &str, measure: Measure) -> (value: Option<i128>)
        ensures
            match value {
                Some(v) => touched(self@, repository@, path@) && v == score(
                    self@,
                    repository@,
                    path@,
                    measure,
                ),
                None => !touched(self@, repository@, path@),
            },
    {
        let (paths, scores) = tally(self.events(), repository, measure);
        match position(&paths, path) {
            Some(j) => {
                assert(texts_of(paths@)[j as int] == path@);
                assert(texts_of(paths@).contains(path@));
                Some(scores[j])
            },
            None => None,
        }
    }
}

} // verus!
