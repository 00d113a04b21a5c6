//! The token cache: installation tokens kept per application and repository
//! until shortly before they expire.
//!
//! The file handling (where the cache lives, reading and writing it) is done
//! by the caller; this module decides what is in the cache and what a lookup
//! gives back.
use vstd::prelude::*;

use crate::keyed::keys_distinct;
use crate::text::{decimal, push_decimal};

verus! {

/// A lookup only returns a token that stays valid for at least this many more seconds.
pub const EXPIRY_BUFFER_SECS: u64 = 300;

/// Where the cache lives unless another directory is chosen.
pub open spec fn default_cache_dir() -> Seq<char> {
    "/run/git-credential-helper"@
}

/// The key under which the token of `application_id` for `repo` is cached:
/// the application id in decimal, a colon, and the repository.
pub open spec fn cache_key_spec(application_id: u64, repo: Seq<char>) -> Seq<char> {
    decimal(application_id as nat) + seq![':'] + repo
}

/// The cache key of an application and a repository.
pub fn cache_key(application_id: u64, repo: &str) -> (res: String)
    ensures
        res@ == cache_key_spec(application_id, repo@),
{
    let mut res = String::new();
    push_decimal(&mut res, application_id);
    crate::text::push_char(&mut res, ':');
    res.append(repo);
    assert(res@ =~= cache_key_spec(application_id, repo@));
    res
}

/// Where the cache of a directory is kept.
pub struct TokenCache {
    dir: String,
    path: String,
}

impl TokenCache {
    pub closed spec fn spec_dir(&self) -> Seq<char> {
        self.dir@
    }

    pub closed spec fn spec_path(&self) -> Seq<char> {
        self.path@
    }

    /// A cache kept in `dir`, in the file `cache.json` there.
    pub fn new(dir: &str) -> (res: Self)
        ensures
            res.spec_dir() == dir@,
            res.spec_path() == dir@ + "/cache.json"@,
    {
        let d = dir.to_owned();
        let mut path = dir.to_owned();
        path.append("/cache.json");
        TokenCache { dir: d, path }
    }

    /// The directory that holds the cache.
    pub fn dir(&self) -> (res: &str)
        ensures
            res@ == self.spec_dir(),
    {
        self.dir.as_str()
    }

    /// The file that holds the cache.
    pub fn path(&self) -> (res: &str)
        ensures
            res@ == self.spec_path(),
    {
        self.path.as_str()
    }
}

impl Default for TokenCache {
    /// The cache in the default directory.
    fn default() -> (res: Self)
        ensures
            res.spec_dir() == default_cache_dir(),
            res.spec_path() == default_cache_dir() + "/cache.json"@,
    {
        TokenCache::new("/run/git-credential-helper")
    }
}

/// A cached token and the time (seconds since the Unix epoch) at which it expires.
pub struct CacheEntry {
    pub token: String,
    pub expires_at: u64,
}

impl View for CacheEntry {
    type V = (Seq<char>, u64);

    open spec fn view(&self) -> (Seq<char>, u64) {
        (self.token@, self.expires_at)
    }
}

/// The contents of the cache: at most one entry per key.
pub struct CacheFile {
    entries: Vec<(String, CacheEntry)>,
}

/// The map that a list of keyed entries stands for; a later entry wins over an
/// earlier one with the same key.
pub open spec fn entry_map(s: Seq<(String, CacheEntry)>) -> Map<Seq<char>, (Seq<char>, u64)>
    decreases s.len(),
{
    if s.len() == 0 {
        Map::empty()
    } else {
        entry_map(s.drop_last()).insert(s.last().0@, s.last().1@)
    }
}


/// The token that a lookup of `key` at time `now` gives: the cached one, if it
/// is still valid `EXPIRY_BUFFER_SECS` seconds after `now`.
pub open spec fn lookup_spec(m: Map<Seq<char>, (Seq<char>, u64)>, key: Seq<char>, now: u64) -> Option<
    Seq<char>,
> {
    if m.contains_key(key) && now + EXPIRY_BUFFER_SECS < m[key].1 {
        Some(m[key].0)
    } else {
        None
    }
}

/// The entries of `m` that have not expired at `now`.
pub open spec fn unexpired(m: Map<Seq<char>, (Seq<char>, u64)>, now: u64) -> Map<
    Seq<char>,
    (Seq<char>, u64),
> {
    Map::new(|k: Seq<char>| m.contains_key(k) && m[k].1 > now, |k: Seq<char>| m[k])
}

/// The cache after storing `entry` under `key` at time `now`: the entries that
/// expired by `now` are dropped, and `entry` is stored.
pub open spec fn store_spec(
    m: Map<Seq<char>, (Seq<char>, u64)>,
    key: Seq<char>,
    entry: (Seq<char>, u64),
    now: u64,
) -> Map<Seq<char>, (Seq<char>, u64)> {
    unexpired(m, now).insert(key, entry)
}

/// Which entries survive a rebuild: those under another key and, when a
/// time is given, not expired by then.
pub open spec fn survives(k: Seq<char>, v: (Seq<char>, u64), key: Seq<char>, cutoff: Option<u64>) -> bool {
    k != key && match cutoff {
        Some(now) => v.1 > now,
        None => true,
    }
}

pub open spec fn surviving(
    m: Map<Seq<char>, (Seq<char>, u64)>,
    key: Seq<char>,
    cutoff: Option<u64>,
) -> Map<Seq<char>, (Seq<char>, u64)> {
    Map::new(|k: Seq<char>| m.contains_key(k) && survives(k, m[k], key, cutoff), |k: Seq<char>| m[k])
}

/// The keys of `entry_map(s)` are the keys of the entries of `s`.
pub proof fn lemma_entry_map_dom(s: Seq<(String, CacheEntry)>, k: Seq<char>)
    ensures
        entry_map(s).contains_key(k) <==> exists|i: int| 0 <= i < s.len() && #[trigger] s[i].0@ == k,
    decreases s.len(),
{
    if s.len() > 0 {
        lemma_entry_map_dom(s.drop_last(), k);
        if entry_map(s.drop_last()).contains_key(k) {
            let i = choose|i: int| 0 <= i < s.drop_last().len() && #[trigger] s.drop_last()[i].0@ == k;
            assert(s[i].0@ == k);
        }
        if exists|i: int| 0 <= i < s.len() && #[trigger] s[i].0@ == k {
            let i = choose|i: int| 0 <= i < s.len() && #[trigger] s[i].0@ == k;
            if i < s.len() - 1 {
                assert(s.drop_last()[i].0@ == k);
            }
        }
    }
}

/// With distinct keys, the map holds each entry under its key.
pub proof fn lemma_entry_map_value(s: Seq<(String, CacheEntry)>, i: int)
    requires
        keys_distinct(s),
        0 <= i < s.len(),
    ensures
        entry_map(s).contains_key(s[i].0@),
        entry_map(s)[s[i].0@] == s[i].1@,
    decreases s.len(),
{
    if i < s.len() - 1 {
        let t = s.drop_last();
        assert(t[i] == s[i]);
        assert(keys_distinct(t)) by {
            assert forall|a: int, b: int| 0 <= a < t.len() && 0 <= b < t.len() && a != b implies t[a].0@ != t[b].0@ by {
                assert(t[a] == s[a] && t[b] == s[b]);
            }
        }
        lemma_entry_map_value(t, i);
        assert(s.last().0@ != s[i].0@);
    }
}

impl View for CacheFile {
    type V = Map<Seq<char>, (Seq<char>, u64)>;

    closed spec fn view(&self) -> Map<Seq<char>, (Seq<char>, u64)> {
        entry_map(self.entries@)
    }
}

impl CacheFile {
    #[verifier::type_invariant]
    spec fn inv(self) -> bool {
        keys_distinct(self.entries@)
    }

    /// An empty cache.
    pub fn new() -> (res: Self)
        ensures
            res@ == Map::<Seq<char>, (Seq<char>, u64)>::empty(),
    {
        CacheFile { entries: Vec::new() }
    }

    /// The entries of the cache, each key once.
    pub fn entries(&self) -> (res: &Vec<(String, CacheEntry)>)
        ensures
            entry_map(res@) == self@,
            keys_distinct(res@),
    {
        proof {
            use_type_invariant(self);
        }
        &self.entries
    }

    /// The entry stored under `key`, if any.
    fn find_entry(&self, key: &String) -> (res: Option<usize>)
        ensures
            match res {
                Some(i) => i < self.entries@.len() && self.entries@[i as int].0@ == key@,
                None => !self@.contains_key(key@),
            },
    {
        proof {
            use_type_invariant(self);
        }
        let mut i: usize = 0;
        while i < self.entries.len()
            invariant
                i <= self.entries@.len(),
                forall|j: int| 0 <= j < i ==> #[trigger] self.entries@[j].0@ != key@,
            decreases self.entries.len() - i,
        {
            if self.entries[i].0 == *key {
                return Some(i);
            }
            i = i + 1;
        }
        proof {
            lemma_entry_map_dom(self.entries@, key@);
        }
        None
    }

    /// The token cached for `application_id` and `repo`, if it is still valid
    /// `EXPIRY_BUFFER_SECS` seconds after `now`.
    pub fn lookup(&self, application_id: u64, repo: &str, now: u64) -> (res: Option<String>)
        requires
            now + EXPIRY_BUFFER_SECS <= u64::MAX,
        ensures
            match res {
                Some(t) => lookup_spec(self@, cache_key_spec(application_id, repo@), now) == Some(t@),
                None => lookup_spec(self@, cache_key_spec(application_id, repo@), now) is None,
            },
    {
        proof {
            use_type_invariant(self);
        }
        let key = cache_key(application_id, repo);
        match self.find_entry(&key) {
            None => None,
            Some(i) => {
                proof {
                    lemma_entry_map_value(self.entries@, i as int);
                }
                let entry = &self.entries[i].1;
                if now + EXPIRY_BUFFER_SECS < entry.expires_at {
                    Some(entry.token.clone())
                } else {
                    None
                }
            },
        }
    }

    /// Rebuilds the entries: keeps those that survive and puts `entry` under `key`.
    fn rebuild(&mut self, key: String, entry: CacheEntry, cutoff: Option<u64>)
        ensures
            final(self)@ == surviving(old(self)@, key@, cutoff).insert(key@, entry@),
    {
        proof {
            use_type_invariant(&*self);
        }
        let ghost entries = self.entries@;
        let mut kept: Vec<(String, CacheEntry)> = Vec::new();
        let mut i: usize = 0;
        while i < self.entries.len()
            invariant
                self.entries@ == entries,
                keys_distinct(entries),
                i <= entries.len(),
                keys_distinct(kept@),
                forall|j: int| 0 <= j < kept@.len() ==> #[trigger] kept@[j].0@ != key@,
                forall|j: int|
                    0 <= j < kept@.len() ==> entry_map(entries.take(i as int)).contains_key(
                        #[trigger] kept@[j].0@,
                    ),
                entry_map(kept@) == surviving(entry_map(entries.take(i as int)), key@, cutoff),
            decreases self.entries.len() - i,
        {
            let ghost before = entries.take(i as int);
            let ghost x = entries[i as int];
            assert(entries.take(i + 1).drop_last() =~= before);
            assert(entries.take(i + 1).last() == x);
            proof {
                lemma_entry_map_dom(before, x.0@);
                if entry_map(before).contains_key(x.0@) {
                    let j = choose|j: int| 0 <= j < before.len() && #[trigger] before[j].0@ == x.0@;
                    assert(entries[j].0@ == entries[i as int].0@);
                }
            }
            let k = &self.entries[i].0;
            let e = &self.entries[i].1;
            let keep = if *k == key {
                false
            } else {
                match cutoff {
                    Some(now) => e.expires_at > now,
                    None => true,
                }
            };
            let ghost old_kept = kept@;
            if keep {
                let copy = (k.clone(), CacheEntry { token: e.token.clone(), expires_at: e.expires_at });
                kept.push(copy);
                assert(kept@.drop_last() =~= old_kept);
            }
            i = i + 1;
            proof {
                let m = entry_map(before);
                let m2 = entry_map(entries.take(i as int));
                assert(m2 == m.insert(x.0@, x.1@));
                assert(!m.contains_key(x.0@));
                if keep {
                    assert(entry_map(kept@) == entry_map(old_kept).insert(x.0@, x.1@));
                    assert(surviving(m2, key@, cutoff) =~= surviving(m, key@, cutoff).insert(x.0@, x.1@));
                } else {
                    assert(surviving(m2, key@, cutoff) =~= surviving(m, key@, cutoff));
                }
                assert forall|j: int| 0 <= j < kept@.len() implies m2.contains_key(#[trigger] kept@[j].0@) by {
                    if j < old_kept.len() {
                        assert(kept@[j] == old_kept[j]);
                    }
                }
                assert forall|a: int, b: int|
                    0 <= a < kept@.len() && 0 <= b < kept@.len() && a != b implies kept@[a].0@
                    != kept@[b].0@ by {
                    if a < old_kept.len() && b < old_kept.len() {
                        assert(kept@[a] == old_kept[a] && kept@[b] == old_kept[b]);
                    } else if a < old_kept.len() {
                        assert(kept@[a] == old_kept[a]);
                        assert(m.contains_key(old_kept[a].0@));
                    } else if b < old_kept.len() {
                        assert(kept@[b] == old_kept[b]);
                        assert(m.contains_key(old_kept[b].0@));
                    }
                }
            }
        }
        assert(entries.take(entries.len() as int) =~= entries);
        let ghost old_kept = kept@;
        kept.push((key, entry));
        proof {
            assert(kept@.drop_last() =~= old_kept);
            assert forall|a: int, b: int|
                0 <= a < kept@.len() && 0 <= b < kept@.len() && a != b implies kept@[a].0@
                != kept@[b].0@ by {
                if a < old_kept.len() && b < old_kept.len() {
                    assert(kept@[a] == old_kept[a] && kept@[b] == old_kept[b]);
                } else if a < old_kept.len() {
                    assert(kept@[a] == old_kept[a]);
                } else if b < old_kept.len() {
                    assert(kept@[b] == old_kept[b]);
                }
            }
        }
        self.entries = kept;
    }

    /// Stores `entry` under `key`, replacing what was stored there.
    pub fn insert(&mut self, key: String, entry: CacheEntry)
        ensures
            final(self)@ == old(self)@.insert(key@, entry@),
    {
        let ghost k = key@;
        let ghost v = entry@;
        self.rebuild(key, entry, None);
        assert(surviving(old(self)@, k, None).insert(k, v) =~= old(self)@.insert(k, v));
    }

    /// Stores `token`, valid until `expires_at`, for `application_id` and
    /// `repo`, and drops the entries that expired by `now`.
    pub fn store(&mut self, application_id: u64, repo: &str, token: String, expires_at: u64, now: u64)
        ensures
            final(self)@ == store_spec(
                old(self)@,
                cache_key_spec(application_id, repo@),
                (token@, expires_at),
                now,
            ),
    {
        let key = cache_key(application_id, repo);
        let ghost k = key@;
        let entry = CacheEntry { token, expires_at };
        let ghost v = entry@;
        self.rebuild(key, entry, Some(now));
        assert(surviving(old(self)@, k, Some(now)).insert(k, v) =~= store_spec(old(self)@, k, v, now));
    }
}

/// Distinct applications or repositories never share a cache key: the key
/// determines both the application id and the repository.
pub proof fn law_cache_key_injective(a1: u64, r1: Seq<char>, a2: u64, r2: Seq<char>)
    requires
        cache_key_spec(a1, r1) == cache_key_spec(a2, r2),
    ensures
        a1 == a2,
        r1 == r2,
{
    let d1 = decimal(a1 as nat);
    let d2 = decimal(a2 as nat);
    let s = cache_key_spec(a1, r1);
    crate::text::lemma_decimal_digits(a1 as nat);
    crate::text::lemma_decimal_digits(a2 as nat);
    assert(s[d1.len() as int] == ':');
    assert(s[d2.len() as int] == ':');
    if d1.len() < d2.len() {
        assert(s[d1.len() as int] == d2[d1.len() as int]);
        assert(crate::text::is_digit(d2[d1.len() as int]));
    } else if d2.len() < d1.len() {
        assert(s[d2.len() as int] == d1[d2.len() as int]);
        assert(crate::text::is_digit(d1[d2.len() as int]));
    }
    assert(d1.len() == d2.len());
    assert(d1 =~= s.take(d1.len() as int));
    assert(d2 =~= s.take(d2.len() as int));
    crate::text::lemma_decimal_injective(a1 as nat, a2 as nat);
    assert(r1 =~= s.skip(d1.len() + 1int));
    assert(r2 =~= s.skip(d2.len() + 1int));
}

/// A lookup after a store gives back the stored token for as long as it stays
/// valid beyond the expiry buffer, and nothing afterwards.
pub proof fn law_lookup_after_store(
    m: Map<Seq<char>, (Seq<char>, u64)>,
    key: Seq<char>,
    token: Seq<char>,
    expires_at: u64,
    now: u64,
    later: u64,
)
    ensures
        lookup_spec(store_spec(m, key, (token, expires_at), now), key, later) == if later
            + EXPIRY_BUFFER_SECS < expires_at {
            Some(token)
        } else {
            None
        },
{
}

/// Storing under one key leaves the lookup of every other key as it was,
/// except that entries which had expired at the time of the store are gone.
pub proof fn law_store_keeps_other_keys(
    m: Map<Seq<char>, (Seq<char>, u64)>,
    key: Seq<char>,
    other: Seq<char>,
    entry: (Seq<char>, u64),
    now: u64,
    later: u64,
)
    requires
        other != key,
    ensures
        lookup_spec(store_spec(m, key, entry, now), other, later) == if m.contains_key(other)
            && m[other].1 > now {
            lookup_spec(m, other, later)
        } else {
            None
        },
{
}

/// After a store at `now`, every entry but the one just stored expires after `now`.
pub proof fn law_store_prunes_expired(
    m: Map<Seq<char>, (Seq<char>, u64)>,
    key: Seq<char>,
    entry: (Seq<char>, u64),
    now: u64,
)
    ensures
        forall|k: Seq<char>|
            #[trigger] store_spec(m, key, entry, now).contains_key(k) && k != key ==> store_spec(
                m,
                key,
                entry,
                now,
            )[k].1 > now,
{
}

/// Tokens of different applications, or of different repositories, are kept
/// apart: storing one never changes what a lookup of the other gives, beyond
/// dropping what had expired.
pub proof fn law_tokens_independent(
    m: Map<Seq<char>, (Seq<char>, u64)>,
    a1: u64,
    r1: Seq<char>,
    a2: u64,
    r2: Seq<char>,
    entry: (Seq<char>, u64),
    now: u64,
    later: u64,
)
    requires
        a1 != a2 || r1 != r2,
    ensures
        lookup_spec(store_spec(m, cache_key_spec(a1, r1), entry, now), cache_key_spec(a2, r2), later)
            == if m.contains_key(cache_key_spec(a2, r2)) && m[cache_key_spec(a2, r2)].1 > now {
            lookup_spec(m, cache_key_spec(a2, r2), later)
        } else {
            None
        },
{
    if cache_key_spec(a1, r1) == cache_key_spec(a2, r2) {
        law_cache_key_injective(a1, r1, a2, r2);
    }
    law_store_keeps_other_keys(m, cache_key_spec(a1, r1), cache_key_spec(a2, r2), entry, now, later);
}

} // verus!
