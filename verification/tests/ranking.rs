use empath::ranking::Measure;
use empath::store::EventStore;

const DAY: i64 = 86_400_000_000;
const HALF_LIFE: i64 = 30 * DAY;

fn paths(names: &[&str]) -> Vec<String> {
    names.iter().map(|name| name.to_string()).collect()
}

/// The score of a path at `now`: the sum over its accesses of two to the
/// power of minus the age in half-lives.
fn frecency(instants: &[i64], now: i64) -> f64 {
    instants
        .iter()
        .map(|at| (-((now as i128 - *at as i128) as f64) / HALF_LIFE as f64).exp2())
        .sum()
}

/// The frecency ranking at `now`, with the keys that stand for the scores.
fn frecent_at(store: &EventStore, repository: &str, now: i64) -> Vec<String> {
    let histories = store.histories(repository);
    let keys: Vec<u64> =
        histories.instants.iter().map(|instants| frecency(instants, now).to_bits()).collect();
    store.frecent(repository, &keys).expect("one key for each path")
}

#[test]
fn recent_puts_the_later_access_first() {
    let mut store = EventStore::new();
    store.record_at("/repo", "/repo/a", 0);
    store.record_at("/repo", "/repo/b", DAY);
    assert_eq!(store.recent("/repo"), paths(&["/repo/b", "/repo/a"]));
}

#[test]
fn recent_goes_by_the_latest_access_of_each_path() {
    let mut store = EventStore::new();
    store.record_at("/repo", "/repo/a", 5 * DAY);
    store.record_at("/repo", "/repo/b", 3 * DAY);
    store.record_at("/repo", "/repo/a", DAY);
    store.record_at("/repo", "/repo/c", 4 * DAY);
    store.record_at("/repo", "/repo/b", 6 * DAY);
    assert_eq!(store.recent("/repo"), paths(&["/repo/b", "/repo/a", "/repo/c"]));
    assert_eq!(store.score_of("/repo", "/repo/a", Measure::Recency), Some((5 * DAY) as i128));
    assert_eq!(store.score_of("/repo", "/repo/b", Measure::Recency), Some((6 * DAY) as i128));
}

#[test]
fn recent_handles_instants_before_the_epoch() {
    let mut store = EventStore::new();
    store.record_at("/repo", "/repo/old", -2 * DAY);
    store.record_at("/repo", "/repo/older", -3 * DAY);
    assert_eq!(store.recent("/repo"), paths(&["/repo/old", "/repo/older"]));
    assert_eq!(store.score_of("/repo", "/repo/older", Measure::Recency), Some((-3 * DAY) as i128));
}

#[test]
fn an_access_one_half_life_old_scores_half_of_a_fresh_one() {
    let now = 1_000 * DAY;
    let mut store = EventStore::new();
    store.record_at("/repo", "/repo/a", now);
    store.record_at("/repo", "/repo/b", now - HALF_LIFE);
    let histories = store.histories("/repo");
    assert_eq!(histories.paths, paths(&["/repo/a", "/repo/b"]));
    let fresh = frecency(&histories.instants[0], now);
    let aged = frecency(&histories.instants[1], now);
    assert!((fresh - 2.0 * aged).abs() < 1e-12);
    assert_eq!(frecent_at(&store, "/repo", now), paths(&["/repo/a", "/repo/b"]));
}

#[test]
fn histories_hold_the_accesses_to_each_path() {
    let mut store = EventStore::new();
    store.record_at("/repo", "/repo/b", 30);
    store.record_at("/else", "/repo/a", 5);
    store.record_at("/repo", "/repo/a", 10);
    store.record_at("/repo", "/repo/b", 20);
    store.record_at("/repo", "/repo/b", 30);
    store.record_at("/repo", "/repo/c", -7);
    let histories = store.histories("/repo");
    assert_eq!(histories.paths, paths(&["/repo/b", "/repo/a", "/repo/c"]));
    assert_eq!(histories.instants, vec![vec![30, 20], vec![10], vec![-7]]);
    let other = store.histories("/else");
    assert_eq!(other.paths, paths(&["/repo/a"]));
    assert_eq!(other.instants, vec![vec![5]]);
    let none = store.histories("/none");
    assert!(none.paths.is_empty());
    assert!(none.instants.is_empty());
}

#[test]
fn frecent_orders_the_paths_by_their_keys() {
    let mut store = EventStore::new();
    store.record_at("/repo", "/repo/a", 1);
    store.record_at("/repo", "/repo/b", 2);
    store.record_at("/repo", "/repo/c", 3);
    store.record_at("/repo", "/repo/a", 4);
    let ranking = store.frecent("/repo", &vec![5, 9, 7]);
    assert_eq!(ranking, Some(paths(&["/repo/b", "/repo/c", "/repo/a"])));
    let ranking = store.frecent("/repo", &vec![u64::MAX, 0, 1]);
    assert_eq!(ranking, Some(paths(&["/repo/a", "/repo/c", "/repo/b"])));
    let ranking = store.frecent("/repo", &vec![4, 4, 4]);
    assert_eq!(ranking, Some(paths(&["/repo/a", "/repo/b", "/repo/c"])));
    let ranking = store.frecent("/repo", &vec![4, 8, 4]);
    assert_eq!(ranking, Some(paths(&["/repo/b", "/repo/a", "/repo/c"])));
}

#[test]
fn frecent_wants_one_key_for_each_path() {
    let mut store = EventStore::new();
    store.record_at("/repo", "/repo/a", 1);
    store.record_at("/repo", "/repo/b", 2);
    assert_eq!(store.frecent("/repo", &vec![1]), None);
    assert_eq!(store.frecent("/repo", &vec![1, 2, 3]), None);
    assert_eq!(store.frecent("/repo", &Vec::new()), None);
    assert_eq!(store.frecent("/none", &vec![1]), None);
    assert_eq!(store.frecent("/none", &Vec::new()), Some(Vec::new()));
}

#[test]
fn frecent_weighs_a_part_of_a_day_by_the_power_of_two() {
    // a: half a day old. b: one day, 218 days and 230 days old.
    let now = 19_905 * DAY;
    let mut store = EventStore::new();
    store.record_at("/repo", "/repo/a", now - DAY / 2);
    store.record_at("/repo", "/repo/b", now - DAY);
    store.record_at("/repo", "/repo/b", now - 218 * DAY);
    store.record_at("/repo", "/repo/b", now - 230 * DAY);
    let histories = store.histories("/repo");
    assert!((frecency(&histories.instants[0], now) - 0.988514).abs() < 1e-6);
    assert!((frecency(&histories.instants[1], now) - 0.988576).abs() < 1e-6);
    assert_eq!(frecent_at(&store, "/repo", now), paths(&["/repo/b", "/repo/a"]));
    // The passing of time alone does not change the order.
    assert_eq!(frecent_at(&store, "/repo", now + DAY / 2), paths(&["/repo/b", "/repo/a"]));
    assert_eq!(frecent_at(&store, "/repo", now + 400 * DAY), paths(&["/repo/b", "/repo/a"]));
}

#[test]
fn frecent_weighs_an_access_stamped_after_the_query_above_one() {
    let now = 1_000 * DAY;
    let mut store = EventStore::new();
    store.record_at("/repo", "/repo/a", now + 60 * DAY);
    store.record_at("/repo", "/repo/b", now);
    store.record_at("/repo", "/repo/b", now - DAY);
    store.record_at("/repo", "/repo/b", now - 2 * DAY);
    let histories = store.histories("/repo");
    assert!((frecency(&histories.instants[0], now) - 4.0).abs() < 1e-9);
    assert_eq!(frecent_at(&store, "/repo", now), paths(&["/repo/a", "/repo/b"]));
}

#[test]
fn frecent_tells_old_accesses_apart() {
    let now = 100 * HALF_LIFE;
    let mut store = EventStore::new();
    store.record_at("/repo", "/repo/a", now - 70 * HALF_LIFE);
    store.record_at("/repo", "/repo/b", now - 63 * HALF_LIFE);
    assert_eq!(frecent_at(&store, "/repo", now), paths(&["/repo/b", "/repo/a"]));
    let mut store = EventStore::new();
    store.record_at("/repo", "/repo/a", now - 63 * HALF_LIFE);
    store.record_at("/repo", "/repo/b", now - 70 * HALF_LIFE);
    assert_eq!(frecent_at(&store, "/repo", now), paths(&["/repo/a", "/repo/b"]));
}

#[test]
fn frecent_does_not_rank_a_forgotten_path() {
    let mut store = EventStore::new();
    store.record_at("/repo", "/repo/a", 1);
    store.record_at("/repo", "/repo/b", 2);
    store.record_at("/repo", "/repo/a", 3);
    store.forget("/repo", "/repo/a");
    assert_eq!(frecent_at(&store, "/repo", 3), paths(&["/repo/b"]));
    assert_eq!(store.histories("/repo").instants, vec![vec![2]]);
}

#[test]
fn rank_is_what_the_two_queries_give() {
    let mut store = EventStore::new();
    store.record_at("/repo", "/repo/a", 0);
    store.record_at("/repo", "/repo/a", DAY);
    store.record_at("/repo", "/repo/b", 2 * DAY);
    assert_eq!(store.rank("/repo", Measure::Recency), store.recent("/repo"));
    assert_eq!(store.rank("/repo", Measure::Frequency), store.frequent("/repo"));
}

#[test]
fn frequent_puts_the_path_with_more_accesses_first() {
    let mut store = EventStore::new();
    // The two accesses to b are the latest ones: the instants do not count.
    for day in 0..5 {
        store.record_at("/repo", "/repo/a", day * DAY);
    }
    store.record_at("/repo", "/repo/b", 100 * DAY);
    store.record_at("/repo", "/repo/b", 101 * DAY);
    assert_eq!(store.frequent("/repo"), paths(&["/repo/a", "/repo/b"]));
    assert_eq!(store.score_of("/repo", "/repo/a", Measure::Frequency), Some(5));
    assert_eq!(store.score_of("/repo", "/repo/b", Measure::Frequency), Some(2));
}

#[test]
fn frequent_is_the_same_when_the_frequent_path_is_the_later_one() {
    let mut store = EventStore::new();
    store.record_at("/repo", "/repo/b", 0);
    store.record_at("/repo", "/repo/b", 1);
    for day in 10..15 {
        store.record_at("/repo", "/repo/a", day * DAY);
    }
    assert_eq!(store.frequent("/repo"), paths(&["/repo/a", "/repo/b"]));
}

#[test]
fn frecent_lets_many_old_accesses_outweigh_one_fresh() {
    let now = 90 * DAY;
    let mut store = EventStore::new();
    store.record_at("/repo", "/repo/fresh", now);
    for hour in 0..3 {
        store.record_at("/repo", "/repo/often", now - HALF_LIFE + hour * 3_600_000_000);
    }
    // Three accesses of a weight near one half against one of weight one.
    assert_eq!(frecent_at(&store, "/repo", now), paths(&["/repo/often", "/repo/fresh"]));
    // By recency alone the fresh one leads.
    assert_eq!(store.recent("/repo"), paths(&["/repo/fresh", "/repo/often"]));
}

#[test]
fn frecent_lets_recency_decide_between_equal_counts() {
    let now = 90 * DAY;
    let mut store = EventStore::new();
    store.record_at("/repo", "/repo/a", now - 60 * DAY);
    store.record_at("/repo", "/repo/b", now - 30 * DAY);
    store.record_at("/repo", "/repo/c", now - 45 * DAY);
    assert_eq!(frecent_at(&store, "/repo", now), paths(&["/repo/b", "/repo/c", "/repo/a"]));
}

#[test]
fn equal_scores_are_ranked_by_path() {
    let mut store = EventStore::new();
    store.record_at("/repo", "/repo/b", 5);
    store.record_at("/repo", "/repo/c", 5);
    store.record_at("/repo", "/repo/a", 5);
    store.record_at("/repo", "/repo/ab", 5);
    store.record_at("/repo", "/repo/B", 5);
    let by_path = paths(&["/repo/B", "/repo/a", "/repo/ab", "/repo/b", "/repo/c"]);
    assert_eq!(store.recent("/repo"), by_path);
    assert_eq!(store.frequent("/repo"), by_path);
    assert_eq!(frecent_at(&store, "/repo", 5), by_path);
}

#[test]
fn rankings_hold_each_path_once() {
    let mut store = EventStore::new();
    for step in 0..20 {
        store.record_at("/repo", if step % 3 == 0 { "/repo/a" } else { "/repo/b" }, step);
    }
    assert_eq!(store.recent("/repo"), paths(&["/repo/b", "/repo/a"]));
    assert_eq!(store.frequent("/repo"), paths(&["/repo/b", "/repo/a"]));
    assert_eq!(frecent_at(&store, "/repo", 20), paths(&["/repo/b", "/repo/a"]));
}

#[test]
fn repositories_do_not_see_each_other() {
    let mut store = EventStore::new();
    store.record_at("/one", "/one/a", 1);
    store.record_at("/two", "/two/b", 2);
    store.record_at("/two", "/one/a", 3);
    store.record_at("/one", "/one/c", 4);
    assert_eq!(store.recent("/one"), paths(&["/one/c", "/one/a"]));
    assert_eq!(store.recent("/two"), paths(&["/one/a", "/two/b"]));
    assert_eq!(store.frequent("/one"), paths(&["/one/a", "/one/c"]));
    assert_eq!(frecent_at(&store, "/two", 4), paths(&["/one/a", "/two/b"]));
    assert!(store.recent("/three").is_empty());
    assert_eq!(store.score_of("/one", "/two/b", Measure::Frequency), None);
    assert_eq!(store.score_of("/two", "/one/a", Measure::Recency), Some(3));
}

#[test]
fn recording_elsewhere_leaves_a_ranking_alone() {
    let mut store = EventStore::new();
    store.record_at("/one", "/one/a", 1);
    store.record_at("/one", "/one/b", 2);
    let before = (store.recent("/one"), store.frequent("/one"), frecent_at(&store, "/one", 9));
    for step in 0..10 {
        store.record_at("/two", "/one/a", step);
    }
    let after = (store.recent("/one"), store.frequent("/one"), frecent_at(&store, "/one", 9));
    assert_eq!(before, after);
}

#[test]
fn a_query_asked_twice_gives_the_same_answer() {
    let mut store = EventStore::new();
    for step in 0..12 {
        let path = format!("/repo/{}", step % 5);
        store.record_at("/repo", &path, step * DAY);
    }
    assert_eq!(store.recent("/repo"), store.recent("/repo"));
    assert_eq!(store.frequent("/repo"), store.frequent("/repo"));
    assert_eq!(frecent_at(&store, "/repo", 12 * DAY), frecent_at(&store, "/repo", 12 * DAY));
}

#[test]
fn rankings_do_not_look_at_the_file_system() {
    let mut store = EventStore::new();
    store.record_at("/no/such/repository", "/no/such/repository/file", 1);
    assert_eq!(store.recent("/no/such/repository"), paths(&["/no/such/repository/file"]));
}
