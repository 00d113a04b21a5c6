use git_credential_helper::cache::{cache_key, CacheEntry, CacheFile, TokenCache};

const NOW: u64 = 1_725_000_000;

fn far_future() -> u64 {
    NOW + 3600
}

#[test]
fn miss_on_empty_cache() {
    let cache = CacheFile::new();
    assert!(cache.lookup(1234, "org/repo", NOW).is_none());
}

#[test]
fn stores_and_retrieves_token() {
    let mut cache = CacheFile::new();
    cache.store(1234, "org/repo", "ghs_token".into(), far_future(), NOW);
    assert_eq!(cache.lookup(1234, "org/repo", NOW).unwrap(), "ghs_token");
}

#[test]
fn different_app_ids_are_independent() {
    let mut cache = CacheFile::new();
    cache.store(1111, "org/repo", "token_a".into(), far_future(), NOW);
    cache.store(2222, "org/repo", "token_b".into(), far_future(), NOW);
    assert_eq!(cache.lookup(1111, "org/repo", NOW).unwrap(), "token_a");
    assert_eq!(cache.lookup(2222, "org/repo", NOW).unwrap(), "token_b");
}

#[test]
fn different_repos_are_independent() {
    let mut cache = CacheFile::new();
    cache.store(1234, "org/repo-a", "token_a".into(), far_future(), NOW);
    cache.store(1234, "org/repo-b", "token_b".into(), far_future(), NOW);
    assert_eq!(cache.lookup(1234, "org/repo-a", NOW).unwrap(), "token_a");
    assert_eq!(cache.lookup(1234, "org/repo-b", NOW).unwrap(), "token_b");
}

#[test]
fn cache_key_is_decimal_id_colon_repo() {
    assert_eq!(cache_key(1234, "org/repo"), "1234:org/repo");
    assert_eq!(cache_key(0, ""), "0:");
    assert_eq!(cache_key(u64::MAX, "x"), "18446744073709551615:x");
}

#[test]
fn ids_whose_keys_look_alike_stay_apart() {
    // "1:2:x" could be read as id 1 with repo "2:x"; the decimal id holds no colon,
    // so id 12 with repo ":x" gives a different key.
    let mut cache = CacheFile::new();
    cache.store(1, "2:x", "one".into(), far_future(), NOW);
    cache.store(12, ":x", "twelve".into(), far_future(), NOW);
    assert_eq!(cache.lookup(1, "2:x", NOW).unwrap(), "one");
    assert_eq!(cache.lookup(12, ":x", NOW).unwrap(), "twelve");
}

#[test]
fn token_cache_paths() {
    let cache = TokenCache::new("/tmp/somewhere");
    assert_eq!(cache.dir(), "/tmp/somewhere");
    assert_eq!(cache.path(), "/tmp/somewhere/cache.json");
    let default = TokenCache::default();
    assert_eq!(default.dir(), "/run/git-credential-helper");
    assert_eq!(default.path(), "/run/git-credential-helper/cache.json");
}

#[test]
fn insert_and_entries_round_trip() {
    let mut cache = CacheFile::new();
    cache.insert("5:a".to_string(), CacheEntry { token: "t1".into(), expires_at: NOW + 1000 });
    cache.insert("5:a".to_string(), CacheEntry { token: "t2".into(), expires_at: NOW + 2000 });
    cache.insert("6:b".to_string(), CacheEntry { token: "t3".into(), expires_at: 1 });
    assert_eq!(cache.entries().len(), 2);
    assert_eq!(cache.lookup(5, "a", NOW).unwrap(), "t2");
    // An entry that expired long ago stays until the next store.
    assert!(cache.lookup(6, "b", NOW).is_none());
    assert_eq!(cache.entries().len(), 2);
    cache.store(7, "c", "t4".into(), NOW + 5000, NOW);
    assert_eq!(cache.entries().len(), 2);
    assert!(cache.entries().iter().all(|(k, _)| k != "6:b"));
}
