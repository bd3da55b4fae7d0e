use fre::args::SortMethod;
use fre::decay::SCALE;
use fre::store::FrecencyStore;

const T: i64 = 1_600_000_000;
const UNIT: i64 = SCALE as i64;

fn create_usage() -> FrecencyStore {
    FrecencyStore::new(T, 1)
}

fn as_score(fixed: i64) -> f64 {
    fixed as f64 / SCALE as f64
}

#[test]
fn add_new() {
    let mut usage = create_usage();

    usage.add("test", T);

    assert_eq!(1, usage.items.len());
}

#[test]
fn add_existing() {
    let mut usage = create_usage();

    usage.add("test", T);
    usage.add("test", T);

    assert_eq!(1, usage.items.len());
}

#[test]
fn delete_existing() {
    let mut usage = create_usage();
    usage.add("test", T);
    assert_eq!(usage.items.len(), 1);
    usage.delete("test");
    assert_eq!(usage.items.len(), 0);
}

#[test]
fn delete_nonexisting() {
    let mut usage = create_usage();
    usage.delete("test");
    assert_eq!(usage.items.len(), 0);
}

#[test]
fn adjust_existing() {
    let mut usage = create_usage();

    usage.add("test", T);
    usage.adjust("test", 3 * UNIT, T);

    assert_eq!(usage.items.len(), 1);
}

#[test]
fn adjust_new() {
    let mut usage = create_usage();

    usage.adjust("test", 3 * UNIT, T);

    assert_eq!(usage.items.len(), 1);
}

#[test]
fn truncate_greater() {
    let mut usage = create_usage();
    usage.add("dir1", T);
    usage.add("dir2", T);

    usage.truncate(1, SortMethod::Recent);

    assert_eq!(usage.items.len(), 1);
}

#[test]
fn truncate_less() {
    let mut usage = create_usage();
    usage.add("dir1", T);
    usage.add("dir2", T);

    usage.truncate(3, SortMethod::Recent);

    assert_eq!(usage.items.len(), 2);
}

#[test]
fn sorted_frecent() {
    let mut usage = create_usage();
    usage.add("dir1", T);
    usage.add("dir2", T);
    let idx = usage.get("dir2");
    usage.items[idx].update_frecency(1000 * UNIT, T);

    let sorted = usage.sorted(SortMethod::Frecent);

    assert_eq!(sorted.len(), 2);
    assert_eq!(sorted[0].item, "dir2".to_string());
}

#[test]
fn sorted_frecent2() {
    let mut usage = create_usage();
    usage.add("dir1", T);
    usage.add("dir2", T);
    let idx = usage.get("dir1");
    usage.items[idx].update_frecency(1000 * UNIT, T);

    let sorted = usage.sorted(SortMethod::Frecent);

    assert_eq!(sorted.len(), 2);
    assert_eq!(sorted[0].item, "dir1".to_string());
}

#[test]
fn sorted_recent() {
    let mut usage = create_usage();
    usage.add("dir1", T);
    usage.add("dir2", T);
    let idx = usage.get("dir2");
    usage.items[idx].update_last_access(T + 100);

    let sorted = usage.sorted(SortMethod::Recent);

    assert_eq!(sorted.len(), 2);
    assert_eq!(sorted[0].item, "dir2".to_string());
}

#[test]
fn sorted_frequent() {
    let mut usage = create_usage();
    usage.add("dir1", T);
    usage.add("dir2", T);
    let idx = usage.get("dir2");
    usage.items[idx].update_num_accesses(100);

    let sorted = usage.sorted(SortMethod::Frequent);

    assert_eq!(sorted.len(), 2);
    assert_eq!(sorted[0].item, "dir2".to_string());
}

#[test]
fn get_exists() {
    let mut usage = create_usage();
    usage.add("dir1", T);

    let _stats = usage.get("dir1");

    assert_eq!(usage.items.len(), 1);
}

#[test]
fn get_not_exists() {
    let mut usage = create_usage();
    usage.add("dir1", T);

    usage.get("dir2");

    assert_eq!(usage.items.len(), 2);
}

#[test]
fn mod_reset_time() {
    let mut usage = FrecencyStore::new(T - 10, 1);
    let current_time = T;
    usage.add("test", current_time);
    let idx = usage.get("test");
    let original_frecency = usage.items[idx].get_frecency(current_time);

    usage.reset_time(current_time);

    assert_eq!(usage.reference_time, current_time);
    let idx = usage.get("test");
    let new_frecency = usage.items[idx].get_frecency(current_time);
    assert!((as_score(new_frecency) - as_score(original_frecency)).abs() < 0.01);
}

#[test]
fn set_halflife() {
    let mut usage = FrecencyStore::new(T - 10, 1);
    let current_time = T;
    usage.add("dir1", current_time);
    let idx = usage.get("dir1");
    let original_frecency = usage.items[idx].get_frecency(current_time);
    usage.set_half_life(10, current_time);

    let idx = usage.get("dir1");
    let new_frecency = usage.items[idx].get_frecency(current_time);

    assert_eq!(usage.half_life, 10);
    assert!((as_score(new_frecency) - as_score(original_frecency)).abs() < 0.01);
}
