use xon::usage::{record_launch, UsageEntry, UsageStore, MAX_ENTRIES};

fn known(paths: &[&str]) -> Vec<String> {
    paths.iter().map(|s| s.to_string()).collect()
}

#[test]
fn prune_drops_entries_no_longer_in_index() {
    let mut store = UsageStore::default();
    store.entries.insert("a", UsageEntry { count: 3, last_used: 1 });
    store.entries.insert("gone", UsageEntry { count: 9, last_used: 2 });

    store.entries.retain_known(&known(&["a"]));

    assert!(store.entries.contains_key("a"));
    assert!(!store.entries.contains_key("gone"));
}

#[test]
fn a_launch_is_counted_and_dated() {
    let mut store = UsageStore::default();
    let k = known(&["a", "b"]);
    record_launch(&mut store, "a", 10, &k);
    assert_eq!(store.entries.get("a"), Some(&UsageEntry { count: 1, last_used: 10 }));
    record_launch(&mut store, "b", 11, &k);
    record_launch(&mut store, "a", 12, &k);
    assert_eq!(store.entries.get("a"), Some(&UsageEntry { count: 2, last_used: 12 }));
    assert_eq!(store.entries.get("b"), Some(&UsageEntry { count: 1, last_used: 11 }));
    assert_eq!(store.entries.len(), 2);
}

#[test]
fn a_count_saturates() {
    let mut store = UsageStore::default();
    store.entries.insert("a", UsageEntry { count: u32::MAX, last_used: 1 });
    record_launch(&mut store, "a", 2, &known(&["a"]));
    assert_eq!(store.entries.get("a"), Some(&UsageEntry { count: u32::MAX, last_used: 2 }));
}

#[test]
fn a_launch_drops_what_the_index_no_longer_holds() {
    let mut store = UsageStore::default();
    store.entries.insert("gone", UsageEntry { count: 9, last_used: 2 });
    record_launch(&mut store, "a", 3, &known(&["a"]));
    assert!(!store.entries.contains_key("gone"));
    assert!(store.entries.contains_key("a"));
    // The launched path itself is not spared.
    record_launch(&mut store, "x", 4, &known(&["a"]));
    assert!(!store.entries.contains_key("x"));
}

#[test]
fn the_least_valuable_records_go_first() {
    let mut store = UsageStore::default();
    let mut k: Vec<String> = Vec::new();
    for i in 0..MAX_ENTRIES {
        let path = format!("p{i}");
        store.entries.insert(&path, UsageEntry { count: 2, last_used: 1000 + i as i64 });
        k.push(path);
    }
    k.push("new".to_string());
    // A single launch is worth less than two, so the new record goes.
    record_launch(&mut store, "new", 5000, &k);
    assert_eq!(store.entries.len(), MAX_ENTRIES);
    assert!(!store.entries.contains_key("new"));
    // With the same count the older goes.
    store.entries.insert("new", UsageEntry { count: 1, last_used: 1 });
    record_launch(&mut store, "new", 5000, &k);
    assert_eq!(store.entries.len(), MAX_ENTRIES);
    assert!(store.entries.contains_key("new"));
    assert!(!store.entries.contains_key("p0"));
    assert!(store.entries.contains_key("p1"));
}
