use fre::args::SortMethod;
use fre::decay::SCALE;
use fre::stats::ItemStats;
use std::cmp::Ordering;

const T: i64 = 1_600_000_000;
const UNIT: i64 = SCALE as i64;

fn create_item() -> ItemStats {
    ItemStats {
        half_life: 100,
        reference_time: T,
        item: "/test/item".to_string(),
        frecency: 0,
        last_accessed: 0,
        num_accesses: 0,
    }
}

fn as_score(fixed: i64) -> f64 {
    fixed as f64 / SCALE as f64
}

#[test]
fn new_item_stats() {
    let test_item = "/test/item";
    let ref_time = T;

    let new_item_stats = ItemStats::new(test_item.to_string(), ref_time, 10);

    assert_eq!(new_item_stats.frecency, 0);
    assert_eq!(new_item_stats.num_accesses, 0);
    assert_eq!(new_item_stats.frecency, 0);
}

#[test]
fn compare_with_func() {
    let low_item_stats = create_item();
    let mut high_item_stats = create_item();

    high_item_stats.frecency = UNIT;
    high_item_stats.last_accessed = 1;
    high_item_stats.num_accesses = 1;

    assert_eq!(Ordering::Less, low_item_stats.cmp_frecent(&high_item_stats));
    assert_eq!(Ordering::Less, low_item_stats.cmp_recent(&high_item_stats));
    assert_eq!(Ordering::Less, low_item_stats.cmp_frequent(&high_item_stats));
}

#[test]
fn compare_with_enum() {
    let low_item_stats = create_item();
    let mut high_item_stats = create_item();

    high_item_stats.frecency = UNIT;
    high_item_stats.last_accessed = 1;
    high_item_stats.num_accesses = 1;

    assert_eq!(
        Ordering::Less,
        low_item_stats.cmp_score(&high_item_stats, SortMethod::Frecent)
    );
    assert_eq!(
        Ordering::Less,
        low_item_stats.cmp_score(&high_item_stats, SortMethod::Recent)
    );
    assert_eq!(
        Ordering::Less,
        low_item_stats.cmp_score(&high_item_stats, SortMethod::Frequent)
    );
}

#[test]
fn update_score() {
    let mut stats = create_item();

    stats.update_frecency(UNIT, T);

    assert!((as_score(stats.frecency) - 1.0).abs() < 0.01);
    assert_eq!(stats.num_accesses, 0);
}

#[test]
fn update_num_accesses() {
    let mut stats = create_item();

    stats.update_num_accesses(1);

    assert_eq!(stats.num_accesses, 1);
    assert!(as_score(stats.frecency).abs() < 0.01);
}

#[test]
fn get_frecency_one_half_life() {
    let mut stats = create_item();
    stats.reference_time = T - stats.half_life;
    stats.frecency = UNIT;

    assert!((as_score(stats.get_frecency(T)) - 0.5).abs() < 0.01);
}

#[test]
fn get_frecency_two_half_lives() {
    let mut stats = create_item();
    stats.reference_time = T - 2 * stats.half_life;
    stats.frecency = UNIT;

    assert!((as_score(stats.get_frecency(T)) - 0.25).abs() < 0.01);
}

#[test]
fn reset_time() {
    let mut low_item_stats = create_item();
    let current_time = T;
    low_item_stats.reference_time = current_time - 5;
    low_item_stats.last_accessed = 10;

    low_item_stats.reset_ref_time(current_time);

    assert_eq!(low_item_stats.reference_time, current_time);
    assert_eq!(low_item_stats.last_accessed, 5);
}

#[test]
fn set_half_life() {
    let mut low_item_stats = create_item();
    let current_time = T;
    low_item_stats.reference_time = current_time - 2;
    low_item_stats.last_accessed = 1;
    low_item_stats.frecency = UNIT;
    let original_frecency = low_item_stats.get_frecency(current_time);

    low_item_stats.set_half_life(2, current_time);

    assert_eq!(low_item_stats.half_life, 2);
    assert!((as_score(low_item_stats.get_frecency(current_time)) - as_score(original_frecency)).abs() < 0.01);
}

#[test]
fn update_last_access() {
    let mut stats = create_item();

    stats.update_last_access(T + 100);

    assert_eq!(stats.last_accessed, 100);
}
