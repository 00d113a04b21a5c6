use git_credential_helper::cache::CacheFile;

const NOW: u64 = 1_725_000_000;

fn far_future() -> u64 {
    NOW + 3600
}

fn near_past() -> u64 {
    NOW.saturating_sub(60)
}

fn expiring_soon() -> u64 {
    NOW + 60
}

#[test]
fn expired_token_is_not_returned() {
    let mut cache = CacheFile::new();
    cache.store(1234, "org/repo", "old_token".into(), near_past(), NOW);
    assert!(cache.lookup(1234, "org/repo", NOW).is_none());
}

#[test]
fn token_expiring_within_buffer_is_not_returned() {
    let mut cache = CacheFile::new();
    cache.store(1234, "org/repo", "soon_token".into(), expiring_soon(), NOW);
    assert!(cache.lookup(1234, "org/repo", NOW).is_none());
}

#[test]
fn overwrite_updates_token() {
    let mut cache = CacheFile::new();
    cache.store(1234, "org/repo", "old".into(), far_future(), NOW);
    cache.store(1234, "org/repo", "new".into(), far_future(), NOW);
    assert_eq!(cache.lookup(1234, "org/repo", NOW).unwrap(), "new");
}

#[test]
fn expired_entries_pruned_on_store() {
    let mut cache = CacheFile::new();
    cache.store(1234, "org/stale", "stale".into(), near_past(), NOW);
    cache.store(1234, "org/fresh", "fresh".into(), far_future(), NOW);
    assert!(cache.lookup(1234, "org/stale", NOW).is_none());
    assert_eq!(cache.lookup(1234, "org/fresh", NOW).unwrap(), "fresh");
}

#[test]
fn buffer_boundary_is_exclusive() {
    let mut cache = CacheFile::new();
    cache.store(1, "r", "t".into(), NOW + 300, NOW);
    assert!(cache.lookup(1, "r", NOW).is_none());
    cache.store(1, "r", "t".into(), NOW + 301, NOW);
    assert_eq!(cache.lookup(1, "r", NOW).unwrap(), "t");
    // Later, the same token falls inside the buffer.
    assert!(cache.lookup(1, "r", NOW + 1).is_none());
}

#[test]
fn store_keeps_unexpired_other_entries() {
    let mut cache = CacheFile::new();
    cache.store(1, "a", "ta".into(), NOW + 1000, NOW);
    cache.store(1, "b", "tb".into(), NOW + 2000, NOW + 500);
    assert_eq!(cache.lookup(1, "a", NOW + 500).unwrap(), "ta");
    // Stored at a time after "a" expired: "a" is dropped.
    cache.store(1, "c", "tc".into(), NOW + 3000, NOW + 1000);
    assert!(cache.entries().iter().all(|(k, _)| k != "1:a"));
    assert_eq!(cache.lookup(1, "b", NOW + 1000).unwrap(), "tb");
}

#[test]
fn freshly_stored_expired_token_is_kept_but_not_returned() {
    let mut cache = CacheFile::new();
    cache.store(9, "x", "gone".into(), NOW - 10, NOW);
    assert_eq!(cache.entries().len(), 1);
    assert!(cache.lookup(9, "x", NOW).is_none());
}
