use empath::clock::{EARLIEST, LATEST};
use empath::ranking::Measure;
use empath::store::EventStore;

const DAY: i64 = 86_400_000_000;

/// The frecency ranking at `now`, with the keys that stand for the scores.
fn ranked_by_frecency(store: &EventStore, repository: &str, now: i64) -> Vec<String> {
    let histories = store.histories(repository);
    let keys: Vec<u64> = histories
        .instants
        .iter()
        .map(|instants| {
            let score: f64 = instants
                .iter()
                .map(|at| (-((now - at) as f64) / (30.0 * 86_400_000_000.0)).exp2())
                .sum();
            score.to_bits()
        })
        .collect();
    store.frecent(repository, &keys).expect("one key for each path")
}

#[test]
fn new_store_holds_nothing() {
    let store = EventStore::new();
    assert_eq!(store.len(), 0);
    assert!(store.events().is_empty());
    assert!(store.recent("/repo").is_empty());
    assert!(store.frequent("/repo").is_empty());
    assert!(ranked_by_frecency(&store, "/repo", 0).is_empty());
}

#[test]
fn record_at_stores_the_triple() {
    let mut store = EventStore::new();
    assert!(store.record_at("/repo", "/repo/a", 42));
    assert_eq!(store.len(), 1);
    let event = &store.events()[0];
    assert_eq!(event.repository, "/repo");
    assert_eq!(event.path, "/repo/a");
    assert_eq!(event.timestamp, 42);
    assert!(store.holds("/repo", "/repo/a", 42));
    assert!(!store.holds("/repo", "/repo/a", 43));
    assert!(!store.holds("/repo", "/repo/b", 42));
    assert!(!store.holds("/other", "/repo/a", 42));
}

#[test]
fn recording_the_same_triple_twice_stores_it_once() {
    let mut once = EventStore::new();
    once.record_at("/repo", "/repo/a", 7);
    once.record_at("/repo", "/repo/b", 9);

    let mut twice = EventStore::new();
    assert!(twice.record_at("/repo", "/repo/a", 7));
    assert!(twice.record_at("/repo", "/repo/b", 9));
    assert!(!twice.record_at("/repo", "/repo/a", 7));
    assert!(!twice.record_at("/repo", "/repo/b", 9));

    assert_eq!(twice.len(), 2);
    assert_eq!(twice.recent("/repo"), once.recent("/repo"));
    assert_eq!(twice.frequent("/repo"), once.frequent("/repo"));
    assert_eq!(
        ranked_by_frecency(&twice, "/repo", 10),
        ranked_by_frecency(&once, "/repo", 10)
    );
    assert_eq!(twice.score_of("/repo", "/repo/a", Measure::Frequency), Some(1));
}

#[test]
fn the_same_path_at_another_instant_is_another_event() {
    let mut store = EventStore::new();
    assert!(store.record_at("/repo", "/repo/a", 7));
    assert!(store.record_at("/repo", "/repo/a", 8));
    assert_eq!(store.len(), 2);
    assert_eq!(store.score_of("/repo", "/repo/a", Measure::Frequency), Some(2));
}

#[test]
fn events_keep_the_order_of_their_recording() {
    let mut store = EventStore::new();
    store.record_at("/repo", "/repo/b", 30);
    store.record_at("/repo", "/repo/a", 10);
    store.record_at("/repo", "/repo/c", 20);
    let stamps: Vec<i64> = store.events().iter().map(|event| event.timestamp).collect();
    assert_eq!(stamps, vec![30, 10, 20]);
}

#[test]
fn record_with_an_instant_uses_it() {
    let mut store = EventStore::new();
    assert_eq!(store.record("/repo", "/repo/a", Some(5 * DAY)), Some(5 * DAY));
    assert!(store.holds("/repo", "/repo/a", 5 * DAY));
    assert_eq!(store.len(), 1);
}

#[test]
fn record_without_an_instant_reads_the_clock() {
    let mut store = EventStore::new();
    let at = store.record("/repo", "/repo/a", None).expect("the clock is set");
    assert!(EARLIEST <= at && at <= LATEST);
    // Later than the first day of 2020.
    assert!(at > 1_577_836_800_000_000);
    assert!(store.holds("/repo", "/repo/a", at));
    assert_eq!(store.len(), 1);
}

#[test]
fn forget_removes_every_access_to_the_path() {
    let mut store = EventStore::new();
    for day in 0..5 {
        store.record_at("/repo", "/repo/a", day * DAY);
    }
    store.record_at("/repo", "/repo/b", 0);
    assert_eq!(store.forget("/repo", "/repo/a"), 5);
    assert_eq!(store.len(), 1);
    assert_eq!(store.recent("/repo"), vec!["/repo/b".to_string()]);
    assert_eq!(store.frequent("/repo"), vec!["/repo/b".to_string()]);
    assert_eq!(ranked_by_frecency(&store, "/repo", 5 * DAY), vec!["/repo/b".to_string()]);
    assert_eq!(store.score_of("/repo", "/repo/a", Measure::Frequency), None);
}

#[test]
fn forgetting_what_was_never_recorded_changes_nothing() {
    let mut store = EventStore::new();
    assert_eq!(store.forget("/repo", "/repo/a"), 0);
    assert_eq!(store.len(), 0);
    store.record_at("/repo", "/repo/b", 1);
    assert_eq!(store.forget("/repo", "/repo/a"), 0);
    assert_eq!(store.forget("/repo", "/repo/a"), 0);
    assert_eq!(store.len(), 1);
    assert!(store.holds("/repo", "/repo/b", 1));
}

#[test]
fn forget_spares_other_paths_and_other_repositories() {
    let mut store = EventStore::new();
    store.record_at("/one", "/shared/a", 1);
    store.record_at("/two", "/shared/a", 2);
    store.record_at("/one", "/shared/b", 3);
    store.record_at("/one", "/shared/a", 4);
    assert_eq!(store.forget("/one", "/shared/a"), 2);
    let left: Vec<(String, String, i64)> = store
        .events()
        .iter()
        .map(|event| (event.repository.clone(), event.path.clone(), event.timestamp))
        .collect();
    assert_eq!(
        left,
        vec![
            ("/two".to_string(), "/shared/a".to_string(), 2),
            ("/one".to_string(), "/shared/b".to_string(), 3),
        ]
    );
    assert_eq!(store.recent("/two"), vec!["/shared/a".to_string()]);
}

#[test]
fn a_forgotten_path_can_be_recorded_again() {
    let mut store = EventStore::new();
    store.record_at("/repo", "/repo/a", 1);
    store.forget("/repo", "/repo/a");
    assert!(store.record_at("/repo", "/repo/a", 1));
    assert_eq!(store.recent("/repo"), vec!["/repo/a".to_string()]);
}
