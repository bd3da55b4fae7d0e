use fre::args::SortMethod;
use fre::decay::{decay_score, exp2_units, round_units_exec, SCALE};
use fre::keys::cmp_keys;
use fre::serialize::FrecencyStoreSerializer;
use fre::stats::ItemStats;
use fre::store::{FrecencyStore, DEFAULT_HALF_LIFE};
use std::cmp::Ordering;

const T: i64 = 1_600_000_000;
const UNIT: i64 = SCALE as i64;

fn item(key: &str, frecency: i64, last_accessed: i64, num_accesses: i32) -> ItemStats {
    ItemStats {
        item: key.to_string(),
        half_life: DEFAULT_HALF_LIFE,
        reference_time: T,
        last_accessed,
        frecency,
        num_accesses,
    }
}

/// The store of the reference scenario: three items sharing the default
/// three-day half-life, in key-sorted storage order.
fn scenario_store() -> FrecencyStore {
    FrecencyStore {
        reference_time: T,
        half_life: DEFAULT_HALF_LIFE,
        items: vec![
            item("/", UNIT, 0, 3),
            item("/home", 3 * UNIT, -100, 2),
            item("/home/x", 2 * UNIT, 1, 1),
        ],
    }
}

#[test]
fn scenario_ranked_frequent() {
    let store = scenario_store();
    let ranked = store.sorted(SortMethod::Frequent);
    assert_eq!(ranked[0].item, "/");
    assert_eq!(ranked[1].item, "/home");
    assert_eq!(ranked[2].item, "/home/x");
    assert_eq!(ranked[0].num_accesses, 3);
    assert_eq!(ranked[1].num_accesses, 2);
    assert_eq!(ranked[2].num_accesses, 1);
}

#[test]
fn scenario_ranked_recent() {
    let store = scenario_store();
    let ranked = store.sorted(SortMethod::Recent);
    assert_eq!(ranked[0].item, "/home/x");
    assert_eq!(ranked[1].item, "/");
    assert_eq!(ranked[2].item, "/home");
}

#[test]
fn scenario_ranked_frecent() {
    let store = scenario_store();
    let ranked = store.sorted(SortMethod::Frecent);
    assert_eq!(ranked[0].item, "/home");
    assert_eq!(ranked[1].item, "/home/x");
    assert_eq!(ranked[2].item, "/");
}

#[test]
fn scenario_truncate_keeps_frecent_best() {
    let mut store = scenario_store();
    store.truncate(1, SortMethod::Frecent);
    assert_eq!(store.items.len(), 1);
    assert_eq!(store.items[0].item, "/home");
}

#[test]
fn decay_law_whole_half_lives() {
    let mut stats = ItemStats::new("/x".to_string(), T, DEFAULT_HALF_LIFE);
    stats.frecency = UNIT;
    // One half-life halves the score exactly, two quarter it.
    assert_eq!(stats.get_frecency(T), UNIT);
    assert_eq!(stats.get_frecency(T + DEFAULT_HALF_LIFE), UNIT / 2);
    assert_eq!(stats.get_frecency(T + 2 * DEFAULT_HALF_LIFE), UNIT / 4);
    let one = stats.get_frecency(T + DEFAULT_HALF_LIFE) as f64 / SCALE as f64;
    assert!((one - 0.5).abs() < 0.005);
}

#[test]
fn half_life_change_preserves_score() {
    // Item-level: the observable score moves by at most one fixed-point
    // unit, for a spread of new half-lives.
    for new_h in [1i64, 7, 100, 259200, 1_000_000] {
        let mut stats = ItemStats::new("/x".to_string(), T - 20, 100);
        stats.frecency = 3 * UNIT + 12345;
        let before = stats.get_frecency(T);
        stats.set_half_life(new_h, T);
        let after = stats.get_frecency(T);
        assert!((after - before).abs() <= 1, "half-life {}", new_h);
    }
}

#[test]
fn store_half_life_change_is_exact() {
    let mut store = scenario_store();
    let before: Vec<i64> = store.items.iter().map(|it| it.get_frecency(T)).collect();
    store.set_half_life(1000, T);
    let after: Vec<i64> = store.items.iter().map(|it| it.get_frecency(T)).collect();
    assert_eq!(before, after);
    assert_eq!(store.half_life, 1000);
}

#[test]
fn rebase_preserves_score() {
    let mut stats = ItemStats::new("/x".to_string(), T - 1000, 300);
    stats.frecency = 5 * UNIT;
    let t2 = T;
    let before = stats.get_frecency(t2);
    stats.reset_ref_time(t2);
    assert_eq!(stats.get_frecency(t2), before);
    assert_eq!(stats.reference_time, t2);
}

#[test]
fn store_rebase_preserves_scores() {
    let mut store = scenario_store();
    let before: Vec<i64> = store.items.iter().map(|it| it.get_frecency(T + 50)).collect();
    store.reset_time(T + 50);
    let after: Vec<i64> = store.items.iter().map(|it| it.get_frecency(T + 50)).collect();
    assert_eq!(before, after);
    assert_eq!(store.reference_time, T + 50);
}

#[test]
fn delete_absent_is_noop() {
    let store = scenario_store();
    let before = FrecencyStoreSerializer::from_store(scenario_store());
    let mut mutated = store;
    mutated.delete("/no/such/key");
    let after = FrecencyStoreSerializer::from_store(mutated);
    assert_eq!(before.reference_time, after.reference_time);
    assert_eq!(before.half_life, after.half_life);
    assert_eq!(before.items.len(), after.items.len());
    for (a, b) in before.items.iter().zip(after.items.iter()) {
        assert_eq!(a.item, b.item);
        assert_eq!(a.frecency, b.frecency);
        assert_eq!(a.last_accessed, b.last_accessed);
        assert_eq!(a.num_accesses, b.num_accesses);
    }
}

#[test]
fn purge_matching_nothing_is_noop() {
    let mut store = scenario_store();
    store.purge(&vec![]);
    assert_eq!(store.items.len(), 3);
    store.purge(&vec!["/absent".to_string()]);
    assert_eq!(store.items.len(), 3);
    assert_eq!(store.items[0].item, "/");
    assert_eq!(store.items[1].item, "/home");
    assert_eq!(store.items[2].item, "/home/x");
}

#[test]
fn purge_removes_listed_keys() {
    let mut store = scenario_store();
    store.purge(&vec!["/home".to_string()]);
    assert_eq!(store.items.len(), 2);
    assert_eq!(store.items[0].item, "/");
    assert_eq!(store.items[1].item, "/home/x");
}

#[test]
fn wire_round_trip() {
    let wire = FrecencyStoreSerializer::from_store(scenario_store());
    let rebuilt = wire.into_store();
    let again = FrecencyStoreSerializer::from_store(rebuilt);
    let wire2 = FrecencyStoreSerializer::from_store(scenario_store());
    assert_eq!(again.reference_time, wire2.reference_time);
    assert_eq!(again.half_life, wire2.half_life);
    assert_eq!(again.items.len(), wire2.items.len());
    for (a, b) in again.items.iter().zip(wire2.items.iter()) {
        assert_eq!(a.item, b.item);
        assert_eq!(a.frecency, b.frecency);
        assert_eq!(a.last_accessed, b.last_accessed);
        assert_eq!(a.num_accesses, b.num_accesses);
    }
}

#[test]
fn load_threads_shared_values_into_items() {
    let wire = FrecencyStoreSerializer::from_store(scenario_store());
    let rebuilt = wire.into_store();
    for it in rebuilt.items.iter() {
        assert_eq!(it.half_life, DEFAULT_HALF_LIFE);
        assert_eq!(it.reference_time, T);
    }
}

#[test]
fn exp2_exact_values() {
    assert_eq!(exp2_units(0), SCALE);
    assert_eq!(exp2_units(SCALE), 2 * SCALE);
    assert_eq!(exp2_units(2 * SCALE), 4 * SCALE);
    // Between whole powers the curve is interpolated and monotone.
    let half_step = exp2_units(SCALE / 2);
    assert!(SCALE < half_step && half_step < 2 * SCALE);
}

#[test]
fn decay_score_exact_values() {
    assert_eq!(decay_score(UNIT, 0), UNIT);
    assert_eq!(decay_score(UNIT, SCALE), UNIT / 2);
    assert_eq!(decay_score(-UNIT, SCALE), -UNIT / 2);
    assert_eq!(decay_score(0, 3 * SCALE), 0);
}

#[test]
fn round_units_values() {
    assert_eq!(round_units_exec(UNIT), 1);
    assert_eq!(round_units_exec(3 * UNIT), 3);
    assert_eq!(round_units_exec(UNIT / 2), 1);
    assert_eq!(round_units_exec(UNIT / 2 - 1), 0);
    assert_eq!(round_units_exec(-2 * UNIT), -2);
    assert_eq!(round_units_exec(0), 0);
}

#[test]
fn key_order_is_lexicographic() {
    assert_eq!(cmp_keys("", "a"), Ordering::Less);
    assert_eq!(cmp_keys("a", "a"), Ordering::Equal);
    assert_eq!(cmp_keys("a", "ab"), Ordering::Less);
    assert_eq!(cmp_keys("ab", "b"), Ordering::Less);
    assert_eq!(cmp_keys("b", "ab"), Ordering::Greater);
    assert_eq!(cmp_keys("/home", "/home/x"), Ordering::Less);
}

#[test]
fn storage_stays_key_sorted() {
    let mut store = FrecencyStore::new(T, DEFAULT_HALF_LIFE);
    for key in ["/b", "/a", "/c", "/a/x", "/"] {
        store.add(key, T);
    }
    let keys: Vec<&str> = store.items.iter().map(|it| it.item.as_str()).collect();
    assert_eq!(keys, vec!["/", "/a", "/a/x", "/b", "/c"]);
}

#[test]
fn adjust_can_lower_scores_below_zero() {
    let mut store = FrecencyStore::new(T, DEFAULT_HALF_LIFE);
    store.add("/a", T);
    store.adjust("/a", -3 * UNIT, T);
    let idx = store.get("/a");
    assert!(store.items[idx].get_frecency(T) < 0);
    assert_eq!(store.items[idx].num_accesses, -2);
}

#[test]
fn half_lives_passed_counts_units() {
    let store = FrecencyStore::new(T - 5, 1);
    assert_eq!(store.half_lives_passed(T), 5 * UNIT);
}

#[test]
fn empty_store_operations() {
    let mut store = FrecencyStore::new(T, DEFAULT_HALF_LIFE);
    assert_eq!(store.sorted(SortMethod::Frecent).len(), 0);
    store.delete("/a");
    assert_eq!(store.items.len(), 0);
    store.truncate(5, SortMethod::Frequent);
    assert_eq!(store.items.len(), 0);
    store.purge(&vec!["/a".to_string()]);
    assert_eq!(store.items.len(), 0);
    store.reset_time(T + 10);
    assert_eq!(store.reference_time, T + 10);
}

#[test]
fn rank_ties_keep_every_item() {
    let mut store = FrecencyStore::new(T, DEFAULT_HALF_LIFE);
    store.add("/a", T);
    store.add("/b", T);
    store.add("/c", T);
    // All three scores are equal; the listing promises no order among
    // ties, but it must still hold exactly the three items.
    let ranked = store.sorted(SortMethod::Frecent);
    assert_eq!(ranked.len(), 3);
    let mut keys: Vec<&str> = ranked.iter().map(|it| it.item.as_str()).collect();
    keys.sort();
    assert_eq!(keys, vec!["/a", "/b", "/c"]);
}

#[test]
fn truncate_to_zero_empties_the_store() {
    let mut store = scenario_store();
    store.truncate(0, SortMethod::Frecent);
    assert_eq!(store.items.len(), 0);
}

#[test]
fn well_formed_accepts_and_rejects() {
    assert!(scenario_store().well_formed());

    let mut unsorted = scenario_store();
    unsorted.items.swap(0, 1);
    assert!(!unsorted.well_formed());

    let mut skewed = scenario_store();
    skewed.items[1].half_life = 7;
    assert!(!skewed.well_formed());

    let mut negative = scenario_store();
    negative.half_life = 0;
    assert!(!negative.well_formed());
}
