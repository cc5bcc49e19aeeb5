use empath::journal::Operation;
use empath::store::EventStore;

fn record(repository: &str, path: &str, timestamp: i64) -> Operation {
    Operation::Record { repository: repository.to_string(), path: path.to_string(), timestamp }
}

fn forget(repository: &str, path: &str) -> Operation {
    Operation::Forget { repository: repository.to_string(), path: path.to_string() }
}

fn sample() -> Vec<Operation> {
    vec![
        record("/repo", "/repo/a", 10),
        record("/repo", "/repo/b", 20),
        record("/repo", "/repo/a", 30),
        record("/else", "/repo/a", 40),
        forget("/repo", "/repo/b"),
        record("/repo", "/repo/c", 50),
        record("/repo", "/repo/a", 10),
        forget("/repo", "/repo/never"),
        record("/repo", "/repo/b", 60),
    ]
}

fn triples(store: &EventStore) -> Vec<(String, String, i64)> {
    store
        .events()
        .iter()
        .map(|event| (event.repository.clone(), event.path.clone(), event.timestamp))
        .collect()
}

/// The frecency ranking at `now`, with the keys that stand for the scores.
fn frecency_ranking(store: &EventStore, repository: &str, now: i64) -> Vec<String> {
    let histories = store.histories(repository);
    let keys: Vec<u64> = histories
        .instants
        .iter()
        .map(|instants| {
            let score: f64 = instants
                .iter()
                .map(|at| (-((now - at) as f64) / (30.0 * 86_400_000_000.0)).exp2())
                .sum();
            score.to_bits()
        })
        .collect();
    store.frecent(repository, &keys).expect("one key for each path")
}

#[test]
fn replay_carries_out_the_operations_in_order() {
    let store = EventStore::replay(&sample());
    assert_eq!(
        triples(&store),
        vec![
            ("/repo".to_string(), "/repo/a".to_string(), 10),
            ("/repo".to_string(), "/repo/a".to_string(), 30),
            ("/else".to_string(), "/repo/a".to_string(), 40),
            ("/repo".to_string(), "/repo/c".to_string(), 50),
            ("/repo".to_string(), "/repo/b".to_string(), 60),
        ]
    );
}

#[test]
fn replaying_gives_the_rankings_of_the_store_that_was_changed_directly() {
    let mut direct = EventStore::new();
    direct.record_at("/repo", "/repo/a", 10);
    direct.record_at("/repo", "/repo/b", 20);
    direct.record_at("/repo", "/repo/a", 30);
    direct.record_at("/else", "/repo/a", 40);
    direct.forget("/repo", "/repo/b");
    direct.record_at("/repo", "/repo/c", 50);
    direct.record_at("/repo", "/repo/a", 10);
    direct.forget("/repo", "/repo/never");
    direct.record_at("/repo", "/repo/b", 60);

    let replayed = EventStore::replay(&sample());
    assert_eq!(triples(&replayed), triples(&direct));
    for repository in ["/repo", "/else", "/none"] {
        assert_eq!(replayed.recent(repository), direct.recent(repository));
        assert_eq!(replayed.frequent(repository), direct.frequent(repository));
        assert_eq!(
            frecency_ranking(&replayed, repository, 100),
            frecency_ranking(&direct, repository, 100)
        );
    }
    assert_eq!(
        replayed.recent("/repo"),
        vec!["/repo/b".to_string(), "/repo/c".to_string(), "/repo/a".to_string()]
    );
    assert_eq!(
        replayed.frequent("/repo"),
        vec!["/repo/a".to_string(), "/repo/b".to_string(), "/repo/c".to_string()]
    );
}

#[test]
fn replaying_twice_gives_the_same_store() {
    let first = EventStore::replay(&sample());
    let second = EventStore::replay(&sample());
    assert_eq!(triples(&first), triples(&second));
    assert_eq!(
        frecency_ranking(&first, "/repo", 1_000_000),
        frecency_ranking(&second, "/repo", 1_000_000)
    );
}

#[test]
fn replaying_nothing_gives_an_empty_store() {
    let store = EventStore::replay(&Vec::new());
    assert_eq!(store.len(), 0);
}

#[test]
fn apply_carries_out_one_operation() {
    let mut store = EventStore::new();
    store.apply(&record("/repo", "/repo/a", 1));
    store.apply(&record("/repo", "/repo/a", 1));
    store.apply(&record("/repo", "/repo/b", 2));
    assert_eq!(store.len(), 2);
    store.apply(&forget("/repo", "/repo/a"));
    assert_eq!(triples(&store), vec![("/repo".to_string(), "/repo/b".to_string(), 2)]);
}
