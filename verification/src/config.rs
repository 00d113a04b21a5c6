//! The configuration: which provider hands out credentials for which host,
//! repository and user.
use vstd::prelude::*;

use crate::keyed::{key_index, keys_distinct, replace_keyed};
use crate::text::{
    ascii_lowercase, before_first, chars_of, find, is_ascii_text, lowercase, occurs_at, slash,
    slice_chars, str_eq, string_from_chars, to_lowercase, trim, trim_by, Trimmed,
};

verus! {

#[verifier::external_type_specification]
#[verifier::external_body]
pub struct ExYamlValue(serde_yaml::Value);

/// `serde_yaml::Value::clone` (derived): a copy of the value. Nothing is stated
/// of it, since the value is opaque here; entries are cloned for the caller.
pub assume_specification[ <serde_yaml::Value as Clone>::clone ](v: &serde_yaml::Value) -> serde_yaml::Value;

/// One configured credential source.
#[derive(Debug, Clone)]
pub struct ProviderEntry {
    /// The provider's name, such as `github-application` or `static`.
    pub provider: String,
    /// The provider's own settings, read by the provider.
    pub provider_config: serde_yaml::Value,
    /// The users that may use this entry; every user when absent.
    pub users: Option<Vec<String>>,
}

/// The settings of the `github-application` provider.
#[derive(Debug)]
pub struct GithubAppConfig {
    pub application_id: u64,
    pub key: String,
}

/// The settings of the `static` provider.
#[derive(Debug)]
pub struct StaticCredsConfig {
    pub username: String,
    pub password: String,
}

/// The patterns of one list item of a host, each with its entry; each
/// pattern occurs once.
#[derive(Debug)]
pub struct PatternMap {
    pairs: Vec<(String, ProviderEntry)>,
}

impl PatternMap {
    #[verifier::type_invariant]
    spec fn inv(self) -> bool {
        keys_distinct(self.pairs@)
    }

    /// The patterns with their entries, in the order they were inserted.
    pub closed spec fn spec_pairs(&self) -> Seq<(String, ProviderEntry)> {
        self.pairs@
    }

    /// A map without patterns.
    pub fn new() -> (res: Self)
        ensures
            res.spec_pairs() == Seq::<(String, ProviderEntry)>::empty(),
    {
        PatternMap { pairs: Vec::new() }
    }

    /// Puts `entry` under `pattern`, in place of what was under it.
    pub fn insert(&mut self, pattern: String, entry: ProviderEntry)
        ensures
            match key_index(old(self).spec_pairs(), pattern@) {
                Some(i) => final(self).spec_pairs() == old(self).spec_pairs().remove(i).push((pattern, entry)),
                None => final(self).spec_pairs() == old(self).spec_pairs().push((pattern, entry)),
            },
            keys_distinct(final(self).spec_pairs()),
    {
        proof {
            use_type_invariant(&*self);
        }
        let mut list = Vec::new();
        std::mem::swap(&mut list, &mut self.pairs);
        self.pairs = replace_keyed(list, pattern, entry);
    }

    /// The patterns with their entries.
    pub fn pairs(&self) -> (res: &Vec<(String, ProviderEntry)>)
        ensures
            res@ == self.spec_pairs(),
            keys_distinct(res@),
    {
        proof {
            use_type_invariant(self);
        }
        &self.pairs
    }
}

/// The configuration: for each host, its list of pattern maps, in order; each
/// host occurs once.
#[derive(Debug)]
pub struct Config {
    credentials: Vec<(String, Vec<PatternMap>)>,
}

// ---------------------------------------------------------------------------
// Specification
// ---------------------------------------------------------------------------

/// What `normalize_path` makes of a path: the part before the first `.git`,
/// without leading and trailing slashes, in lower case.
pub open spec fn normalize_spec(path: Seq<char>) -> Seq<char> {
    lowercase(trim_by(before_first(path, ".git"@), slash()))
}

/// The wildcard pattern, which matches every path.
pub open spec fn wildcard() -> Seq<char> {
    "*"@
}

/// Whether `username` may use `entry`: `root` always may; otherwise the user
/// must be listed, when the entry lists users.
pub open spec fn allowed(entry: ProviderEntry, username: Seq<char>) -> bool {
    username == "root"@ || match entry.users {
        None => true,
        Some(users) => exists|i: int| 0 <= i < users@.len() && #[trigger] users@[i]@ == username,
    }
}

/// Whether a pattern with its entry is what a search looks for: for
/// `Some(path)`, a specific pattern equal to the path; for `None`, the
/// wildcard. Either way the user must be allowed.
pub open spec fn pair_matches(pair: (String, ProviderEntry), want: Option<Seq<char>>, username: Seq<char>) -> bool {
    &&& match want {
        Some(path) => pair.0@ != wildcard() && pair.0@ == path,
        None => pair.0@ == wildcard(),
    }
    &&& allowed(pair.1, username)
}

/// All patterns of a host's pattern maps, in order.
pub open spec fn flat(maps: Seq<PatternMap>) -> Seq<(String, ProviderEntry)>
    decreases maps.len(),
{
    if maps.len() == 0 {
        Seq::empty()
    } else {
        flat(maps.drop_last()) + maps.last().spec_pairs()
    }
}

/// `i` is the first position of `s` that matches.
pub open spec fn is_first_match(
    s: Seq<(String, ProviderEntry)>,
    want: Option<Seq<char>>,
    username: Seq<char>,
    i: int,
) -> bool {
    &&& 0 <= i < s.len()
    &&& pair_matches(s[i], want, username)
    &&& forall|j: int| 0 <= j < i ==> !pair_matches(#[trigger] s[j], want, username)
}

pub open spec fn has_match(s: Seq<(String, ProviderEntry)>, want: Option<Seq<char>>, username: Seq<char>) -> bool {
    exists|i: int| 0 <= i < s.len() && pair_matches(#[trigger] s[i], want, username)
}

/// The entry of the first match, if any.
pub open spec fn first_match(s: Seq<(String, ProviderEntry)>, want: Option<Seq<char>>, username: Seq<char>) -> Option<
    ProviderEntry,
> {
    if has_match(s, want, username) {
        Some(s[choose|i: int| is_first_match(s, want, username, i)].1)
    } else {
        None
    }
}

/// The position of the first entry for `host`, if any.
pub open spec fn host_index(creds: Seq<(String, Vec<PatternMap>)>, host: Seq<char>) -> Option<int> {
    if exists|i: int| 0 <= i < creds.len() && #[trigger] creds[i].0@ == host {
        Some(
            choose|i: int|
                0 <= i < creds.len() && #[trigger] creds[i].0@ == host && forall|j: int|
                    0 <= j < i ==> #[trigger] creds[j].0@ != host,
        )
    } else {
        None
    }
}

/// Which entry serves `host`, `path` and `username`: a specific pattern equal
/// to the normalized path takes priority over the wildcard; within each kind,
/// the first in order wins; entries the user may not use are passed over.
pub open spec fn find_provider_spec(
    creds: Seq<(String, Vec<PatternMap>)>,
    host: Seq<char>,
    path: Option<Seq<char>>,
    username: Seq<char>,
) -> Option<ProviderEntry> {
    match host_index(creds, host) {
        None => None,
        Some(h) => select_in(flat(creds[h].1@), path, username),
    }
}

/// The entry that a host's patterns give for `path` and `username`.
pub open spec fn select_in(s: Seq<(String, ProviderEntry)>, path: Option<Seq<char>>, username: Seq<char>) -> Option<
    ProviderEntry,
> {
    match path {
        Some(p) if has_match(s, Some(normalize_spec(p)), username) => first_match(
            s,
            Some(normalize_spec(p)),
            username,
        ),
        _ => first_match(s, None, username),
    }
}

/// The patterns whose entries `username` may use.
pub open spec fn usable_by(username: Seq<char>) -> spec_fn((String, ProviderEntry)) -> bool {
    |pair: (String, ProviderEntry)| allowed(pair.1, username)
}

// ---------------------------------------------------------------------------
// Lemmas
// ---------------------------------------------------------------------------

proof fn lemma_flat_take_succ(maps: Seq<PatternMap>, i: int)
    requires
        0 <= i < maps.len(),
    ensures
        flat(maps.take(i + 1)) == flat(maps.take(i)) + maps[i].spec_pairs(),
{
    assert(maps.take(i + 1).drop_last() =~= maps.take(i));
}

proof fn lemma_first_match_unique(
    s: Seq<(String, ProviderEntry)>,
    want: Option<Seq<char>>,
    username: Seq<char>,
    i: int,
)
    requires
        is_first_match(s, want, username, i),
    ensures
        has_match(s, want, username),
        first_match(s, want, username) == Some(s[i].1),
{
    let k = choose|k: int| is_first_match(s, want, username, k);
    assert(is_first_match(s, want, username, k));
    if k < i {
        assert(!pair_matches(s[k], want, username));
    } else if i < k {
        assert(!pair_matches(s[i], want, username));
    }
}

// ---------------------------------------------------------------------------
// Executable code
// ---------------------------------------------------------------------------

/// Normalizes a repository path: keeps the part before the first `.git`,
/// strips leading and trailing slashes, and lowercases it.
pub fn normalize_path(path: &str) -> (res: String)
    ensures
        res@ == normalize_spec(path@),
        is_ascii_text(path@) ==> res@ == trim_by(before_first(path@, ".git"@), slash()).map_values(
            |c: char| ascii_lowercase(c),
        ),
        is_ascii_text(path@) ==> forall|i: int| 0 <= i < res@.len() ==> !('A' <= #[trigger] res@[i] <= 'Z'),
{
    let cs = chars_of(path);
    let mut pat: Vec<char> = Vec::new();
    pat.push('.');
    pat.push('g');
    pat.push('i');
    pat.push('t');
    proof {
        reveal_strlit(".git");
        assert(pat@ =~= ".git"@);
    }
    let end = find(&cs, &pat);
    proof {
        crate::text::lemma_first_occurrence_from_bounds(cs@, pat@, 0);
    }
    let head = slice_chars(&cs, 0, end);
    assert(head@ =~= before_first(path@, ".git"@));
    assert(is_ascii_text(path@) ==> is_ascii_text(head@)) by {
        if is_ascii_text(path@) {
            assert forall|i: int| 0 <= i < head@.len() implies (#[trigger] head@[i] as u32) < 128 by {
                assert(head@[i] == path@[i]);
            }
        }
    }
    let trimmed = trim(&head, Trimmed::Slashes);
    let s = string_from_chars(&trimmed);
    to_lowercase(s.as_str())
}

/// Whether `username` may use `entry`.
fn is_allowed(entry: &ProviderEntry, username: &str) -> (res: bool)
    ensures
        res == allowed(*entry, username@),
{
    if str_eq(username, "root") {
        return true;
    }
    match &entry.users {
        None => true,
        Some(users) => {
            let mut i: usize = 0;
            while i < users.len()
                invariant
                    i <= users@.len(),
                    entry.users == Some(*users),
                    forall|j: int| 0 <= j < i ==> #[trigger] users@[j]@ != username@,
                decreases users.len() - i,
            {
                if str_eq(users[i].as_str(), username) {
                    assert(users@[i as int]@ == username@);
                    assert(entry.users->0@[i as int]@ == username@);
                    assert(allowed(*entry, username@));
                    return true;
                }
                i = i + 1;
            }
            false
        },
    }
}

/// Whether a pattern with its entry is what the search looks for.
fn matches(pair: &(String, ProviderEntry), want: Option<&str>, username: &str) -> (res: bool)
    ensures
        res == pair_matches(*pair, match want {
            Some(w) => Some(w@),
            None => None,
        }, username@),
{
    let is_wildcard = str_eq(pair.0.as_str(), "*");
    let pattern_ok = match want {
        Some(w) => !is_wildcard && str_eq(pair.0.as_str(), w),
        None => is_wildcard,
    };
    pattern_ok && is_allowed(&pair.1, username)
}

/// The first pattern of `maps`, in order, that the search looks for.
fn search<'a>(maps: &'a Vec<PatternMap>, want: Option<&str>, username: &str) -> (res: Option<
    &'a ProviderEntry,
>)
    ensures
        ({
            let w = match want {
                Some(w) => Some(w@),
                None => None,
            };
            &&& (res is Some) == has_match(flat(maps@), w, username@)
            &&& res is Some ==> Some(*res->0) == first_match(flat(maps@), w, username@)
        }),
{
    let ghost w = match want {
        Some(w) => Some(w@),
        None => None,
    };
    let mut i: usize = 0;
    while i < maps.len()
        invariant
            i <= maps@.len(),
            w == match want {
                Some(w) => Some(w@),
                None => None,
            },
            forall|k: int|
                0 <= k < flat(maps@.take(i as int)).len() ==> !pair_matches(
                    #[trigger] flat(maps@.take(i as int))[k],
                    w,
                    username@,
                ),
        decreases maps.len() - i,
    {
        let map = maps[i].pairs();
        proof {
            lemma_flat_take_succ(maps@, i as int);
        }
        let ghost prefix = flat(maps@.take(i as int));
        let mut j: usize = 0;
        while j < map.len()
            invariant
                j <= map@.len(),
                map@ == maps@[i as int].spec_pairs(),
                i < maps@.len(),
                prefix == flat(maps@.take(i as int)),
                flat(maps@.take(i + 1)) == prefix + map@,
                w == match want {
                    Some(w) => Some(w@),
                    None => None,
                },
                forall|k: int| 0 <= k < prefix.len() ==> !pair_matches(#[trigger] prefix[k], w, username@),
                forall|k: int| 0 <= k < j ==> !pair_matches(#[trigger] map@[k], w, username@),
            decreases map.len() - j,
        {
            if matches(&map[j], want, username) {
                proof {
                    let t = flat(maps@.take(i + 1));
                    let idx = prefix.len() + j;
                    assert(t[idx] == map@[j as int]);
                    assert forall|k: int| 0 <= k < idx implies !pair_matches(#[trigger] t[k], w, username@) by {
                        if k < prefix.len() {
                            assert(t[k] == prefix[k]);
                        } else {
                            assert(t[k] == map@[k - prefix.len()]);
                        }
                    }
                    lemma_flat_prefix(maps@, i + 1);
                    let full = flat(maps@);
                    assert(full[idx] == t[idx]);
                    assert forall|k: int| 0 <= k < idx implies !pair_matches(#[trigger] full[k], w, username@) by {
                        assert(full[k] == t[k]);
                        assert(!pair_matches(t[k], w, username@));
                    }
                    assert(is_first_match(full, w, username@, idx));
                    lemma_first_match_unique(full, w, username@, idx);
                }
                return Some(&map[j].1);
            }
            j = j + 1;
        }
        i = i + 1;
        proof {
            let t = flat(maps@.take(i as int));
            assert forall|k: int| 0 <= k < t.len() implies !pair_matches(#[trigger] t[k], w, username@) by {
                if k < prefix.len() {
                    assert(t[k] == prefix[k]);
                } else {
                    assert(t[k] == map@[k - prefix.len()]);
                }
            }
        }
    }
    assert(maps@.take(maps@.len() as int) =~= maps@);
    None
}

/// The pattern maps of `flat(maps.take(i))` are a prefix of those of `flat(maps)`.
proof fn lemma_flat_prefix(maps: Seq<PatternMap>, i: int)
    requires
        0 <= i <= maps.len(),
    ensures
        flat(maps.take(i)).len() <= flat(maps).len(),
        forall|k: int| 0 <= k < flat(maps.take(i)).len() ==> #[trigger] flat(maps)[k] == flat(maps.take(i))[k],
    decreases maps.len() - i,
{
    if i == maps.len() {
        assert(maps.take(i) =~= maps);
    } else {
        lemma_flat_take_succ(maps, i);
        lemma_flat_prefix(maps, i + 1);
        let a = flat(maps.take(i));
        let b = flat(maps.take(i + 1));
        assert forall|k: int| 0 <= k < a.len() implies #[trigger] flat(maps)[k] == a[k] by {
            assert(b[k] == a[k]);
        }
    }
}

impl Config {
    #[verifier::type_invariant]
    spec fn inv(self) -> bool {
        keys_distinct(self.credentials@)
    }

    /// The hosts with their pattern maps, in the order they were inserted.
    pub closed spec fn spec_credentials(&self) -> Seq<(String, Vec<PatternMap>)> {
        self.credentials@
    }

    /// A configuration without hosts.
    pub fn new() -> (res: Self)
        ensures
            res.spec_credentials() == Seq::<(String, Vec<PatternMap>)>::empty(),
    {
        Config { credentials: Vec::new() }
    }

    /// Configures `host` with `maps`, in place of what it had.
    pub fn insert_host(&mut self, host: String, maps: Vec<PatternMap>)
        ensures
            match key_index(old(self).spec_credentials(), host@) {
                Some(i) => final(self).spec_credentials() == old(self).spec_credentials().remove(i).push(
                    (host, maps),
                ),
                None => final(self).spec_credentials() == old(self).spec_credentials().push((host, maps)),
            },
            keys_distinct(final(self).spec_credentials()),
    {
        proof {
            use_type_invariant(&*self);
        }
        let mut list = Vec::new();
        std::mem::swap(&mut list, &mut self.credentials);
        self.credentials = replace_keyed(list, host, maps);
    }

    /// The hosts with their pattern maps.
    pub fn credentials(&self) -> (res: &Vec<(String, Vec<PatternMap>)>)
        ensures
            res@ == self.spec_credentials(),
            keys_distinct(res@),
    {
        proof {
            use_type_invariant(self);
        }
        &self.credentials
    }

    /// The pattern maps of `host`, if it is configured.
    fn host_entries(&self, host: &str) -> (res: Option<&Vec<PatternMap>>)
        ensures
            match host_index(self.spec_credentials(), host@) {
                Some(h) => res == Some(&self.spec_credentials()[h].1),
                None => res is None,
            },
    {
        let mut i: usize = 0;
        while i < self.credentials.len()
            invariant
                i <= self.credentials@.len(),
                forall|j: int| 0 <= j < i ==> #[trigger] self.credentials@[j].0@ != host@,
            decreases self.credentials.len() - i,
        {
            if str_eq(self.credentials[i].0.as_str(), host) {
                proof {
                    let creds = self.credentials@;
                    assert(0 <= i < creds.len() && creds[i as int].0@ == host@);
                    let h = choose|h: int|
                        0 <= h < creds.len() && #[trigger] creds[h].0@ == host@ && forall|j: int|
                            0 <= j < h ==> #[trigger] creds[j].0@ != host@;
                    if h < i {
                        assert(creds[h].0@ != host@);
                    } else if h > i {
                        assert(creds[i as int].0@ != host@);
                    }
                }
                return Some(&self.credentials[i].1);
            }
            i = i + 1;
        }
        None
    }

    /// The entry that serves `host` for `path` and `username`: the first
    /// specific pattern equal to the normalized path that the user may use,
    /// else the first wildcard the user may use, else none.
    pub fn find_provider(&self, host: &str, path: Option<&str>, username: &str) -> (res: Option<
        &ProviderEntry,
    >)
        ensures
            match res {
                Some(e) => find_provider_spec(
                    self.spec_credentials(),
                    host@,
                    match path {
                        Some(p) => Some(p@),
                        None => None,
                    },
                    username@,
                ) == Some(*e),
                None => find_provider_spec(
                    self.spec_credentials(),
                    host@,
                    match path {
                        Some(p) => Some(p@),
                        None => None,
                    },
                    username@,
                ) is None,
            },
    {
        let entries = match self.host_entries(host) {
            Some(e) => e,
            None => return None,
        };
        if let Some(p) = path {
            let normalized = normalize_path(p);
            if let Some(entry) = search(entries, Some(normalized.as_str()), username) {
                return Some(entry);
            }
        }
        search(entries, None, username)
    }
}

// ---------------------------------------------------------------------------
// Laws
// ---------------------------------------------------------------------------

/// A sequence with a match has a first match.
proof fn lemma_has_first_match(s: Seq<(String, ProviderEntry)>, want: Option<Seq<char>>, username: Seq<char>)
    requires
        has_match(s, want, username),
    ensures
        exists|i: int| is_first_match(s, want, username, i),
    decreases s.len(),
{
    let t = s.drop_last();
    if has_match(t, want, username) {
        lemma_has_first_match(t, want, username);
        let i = choose|i: int| is_first_match(t, want, username, i);
        assert forall|j: int| 0 <= j < i implies !pair_matches(#[trigger] s[j], want, username) by {
            assert(s[j] == t[j]);
        }
        assert(s[i] == t[i]);
        assert(is_first_match(s, want, username, i));
    } else {
        let k = choose|k: int| 0 <= k < s.len() && pair_matches(#[trigger] s[k], want, username);
        if k < s.len() - 1 {
            assert(t[k] == s[k]);
        }
        assert forall|j: int| 0 <= j < s.len() - 1 implies !pair_matches(#[trigger] s[j], want, username) by {
            assert(s[j] == t[j]);
        }
        assert(is_first_match(s, want, username, s.len() - 1));
    }
}

/// Appending a pattern keeps an earlier match first; otherwise the new pattern
/// is the match, if it matches.
proof fn lemma_first_match_push(
    u: Seq<(String, ProviderEntry)>,
    x: (String, ProviderEntry),
    want: Option<Seq<char>>,
    username: Seq<char>,
)
    ensures
        has_match(u.push(x), want, username) == (has_match(u, want, username) || pair_matches(
            x,
            want,
            username,
        )),
        first_match(u.push(x), want, username) == if has_match(u, want, username) {
            first_match(u, want, username)
        } else if pair_matches(x, want, username) {
            Some(x.1)
        } else {
            None
        },
{
    let s = u.push(x);
    if has_match(u, want, username) {
        lemma_has_first_match(u, want, username);
        let i = choose|i: int| is_first_match(u, want, username, i);
        assert(s[i] == u[i]);
        assert forall|j: int| 0 <= j < i implies !pair_matches(#[trigger] s[j], want, username) by {
            assert(s[j] == u[j]);
        }
        lemma_first_match_unique(u, want, username, i);
        lemma_first_match_unique(s, want, username, i);
    } else {
        assert forall|j: int| 0 <= j < u.len() implies !pair_matches(#[trigger] s[j], want, username) by {
            assert(s[j] == u[j]);
        }
        if pair_matches(x, want, username) {
            assert(s[u.len() as int] == x);
            lemma_first_match_unique(s, want, username, u.len() as int);
        } else {
            assert(!has_match(s, want, username)) by {
                if has_match(s, want, username) {
                    let k = choose|k: int| 0 <= k < s.len() && pair_matches(#[trigger] s[k], want, username);
                    if k < u.len() {
                        assert(s[k] == u[k]);
                    }
                }
            }
        }
    }
}

/// Dropping the patterns that `username` may not use changes no search of theirs.
proof fn lemma_search_ignores_unusable(
    s: Seq<(String, ProviderEntry)>,
    want: Option<Seq<char>>,
    username: Seq<char>,
)
    ensures
        has_match(s.filter(usable_by(username)), want, username) == has_match(s, want, username),
        first_match(s.filter(usable_by(username)), want, username) == first_match(s, want, username),
    decreases s.len(),
{
    let v = usable_by(username);
    if s.len() == 0 {
        assert(s.filter(v) =~= s) by {
            reveal(Seq::filter);
        }
    } else {
        let t = s.drop_last();
        let x = s.last();
        assert(s =~= t.push(x));
        lemma_search_ignores_unusable(t, want, username);
        t.lemma_filter_push(x, v);
        lemma_first_match_push(t, x, want, username);
        if v(x) {
            lemma_first_match_push(t.filter(v), x, want, username);
        } else {
            assert(!pair_matches(x, want, username));
        }
    }
}

/// An entry is only ever handed to a user it allows: root, a listed user, or
/// anyone when the entry lists no users.
pub proof fn law_result_allows_user(
    creds: Seq<(String, Vec<PatternMap>)>,
    host: Seq<char>,
    path: Option<Seq<char>>,
    username: Seq<char>,
)
    requires
        find_provider_spec(creds, host, path, username) is Some,
    ensures
        allowed(find_provider_spec(creds, host, path, username)->0, username),
{
    let h = host_index(creds, host)->0;
    let s = flat(creds[h].1@);
    let want = match path {
        Some(p) if has_match(s, Some(normalize_spec(p)), username) => Some(normalize_spec(p)),
        _ => None,
    };
    lemma_has_first_match(s, want, username);
    let i = choose|i: int| is_first_match(s, want, username, i);
    lemma_first_match_unique(s, want, username, i);
}

/// `root` may use every entry.
pub proof fn law_root_always_allowed(entry: ProviderEntry)
    ensures
        allowed(entry, "root"@),
{
}

/// An entry that does not allow the user is as good as absent: the result is
/// the same as if only the entries the user may use were configured.
pub proof fn law_unusable_entries_are_ignored(
    s: Seq<(String, ProviderEntry)>,
    path: Option<Seq<char>>,
    username: Seq<char>,
)
    ensures
        select_in(s.filter(usable_by(username)), path, username) == select_in(s, path, username),
{
    lemma_search_ignores_unusable(s, None, username);
    if let Some(p) = path {
        lemma_search_ignores_unusable(s, Some(normalize_spec(p)), username);
    }
}

/// A specific pattern equal to the normalized path, that the user may use,
/// takes priority over every wildcard: the result is the first such pattern's
/// entry.
pub proof fn law_specific_pattern_first(s: Seq<(String, ProviderEntry)>, p: Seq<char>, username: Seq<char>, i: int)
    requires
        0 <= i < s.len(),
        s[i].0@ == normalize_spec(p),
        s[i].0@ != wildcard(),
        allowed(s[i].1, username),
    ensures
        exists|k: int|
            0 <= k <= i && #[trigger] s[k].0@ == normalize_spec(p) && s[k].0@ != wildcard()
                && allowed(s[k].1, username) && select_in(s, Some(p), username) == Some(s[k].1),
{
    assert(pair_matches(s[i], Some(normalize_spec(p)), username));
    lemma_has_first_match(s, Some(normalize_spec(p)), username);
    let k = choose|k: int| is_first_match(s, Some(normalize_spec(p)), username, k);
    if k > i {
        assert(!pair_matches(s[i], Some(normalize_spec(p)), username));
    }
    lemma_first_match_unique(s, Some(normalize_spec(p)), username, k);
}

/// Without a specific pattern for the path that the user may use, the result
/// is the first wildcard the user may use, or none.
pub proof fn law_wildcard_fallback(s: Seq<(String, ProviderEntry)>, path: Option<Seq<char>>, username: Seq<char>)
    requires
        forall|i: int|
            0 <= i < s.len() ==> match path {
                Some(p) => !pair_matches(#[trigger] s[i], Some(normalize_spec(p)), username),
                None => true,
            },
    ensures
        select_in(s, path, username) == first_match(s, None, username),
{
}

/// Leading slashes do not change the normalized path.
pub proof fn law_normalize_ignores_leading_slash(p: Seq<char>)
    ensures
        normalize_spec(seq!['/'] + p) == normalize_spec(p),
{
    let pat = ".git"@;
    let q = seq!['/'] + p;
    reveal_strlit(".git");
    assert(pat.len() == 4 && pat[0] == '.');
    assert forall|i: int| 0 <= i implies #[trigger] occurs_at(q, pat, i + 1) == occurs_at(p, pat, i) by {
        if i + 1 + pat.len() <= q.len() {
            assert(q.subrange(i + 1, i + 1 + pat.len()) =~= p.subrange(i, i + pat.len()));
        }
    }
    assert(!occurs_at(q, pat, 0)) by {
        if occurs_at(q, pat, 0) {
            assert(q.subrange(0, 4)[0] == q[0]);
        }
    }
    let f = crate::text::first_occurrence(p, pat);
    crate::text::lemma_first_occurrence_from_bounds(p, pat, 0);
    if f < p.len() {
        assert(occurs_at(q, pat, f + 1));
        assert forall|k: int| 0 <= k < f + 1 implies !occurs_at(q, pat, k) by {
            if k > 0 {
                assert(occurs_at(q, pat, (k - 1) + 1) == occurs_at(p, pat, k - 1));
            }
        }
        crate::text::lemma_first_occurrence_at(q, pat, 0, f + 1);
    } else {
        assert forall|k: int| 0 <= k implies !occurs_at(q, pat, k) by {
            if k > 0 {
                assert(occurs_at(q, pat, (k - 1) + 1) == occurs_at(p, pat, k - 1));
                if k - 1 < f {
                } else if occurs_at(p, pat, k - 1) {
                    assert(k - 1 + 4 <= p.len());
                }
            }
        }
        crate::text::lemma_first_occurrence_none(q, pat, 0);
    }
    let head = before_first(q, pat);
    assert(head =~= seq!['/'] + before_first(p, pat));
    assert(head.drop_first() =~= before_first(p, pat));
    assert(crate::text::trim_start_by(head, slash()) == crate::text::trim_start_by(before_first(p, pat), slash()));
}

/// A `.git` suffix does not change the normalized path of a path without `.git`.
pub proof fn law_normalize_ignores_git_suffix(p: Seq<char>)
    requires
        forall|i: int| !occurs_at(p, ".git"@, i),
    ensures
        normalize_spec(p + ".git"@) == normalize_spec(p),
{
    let pat = ".git"@;
    let q = p + pat;
    reveal_strlit(".git");
    assert(pat =~= seq!['.', 'g', 'i', 't']);
    assert(occurs_at(q, pat, p.len() as int)) by {
        assert(q.subrange(p.len() as int, p.len() + 4int) =~= pat);
    }
    assert forall|k: int| 0 <= k < p.len() implies !occurs_at(q, pat, k) by {
        if occurs_at(q, pat, k) {
            if k + 4 <= p.len() {
                assert(q.subrange(k, k + 4) =~= p.subrange(k, k + 4));
                assert(occurs_at(p, pat, k));
            } else {
                let d = p.len() - k;
                assert(1 <= d <= 3);
                assert(q.subrange(k, k + 4)[d] == q[p.len() as int]);
                assert(q[p.len() as int] == '.');
            }
        }
    }
    crate::text::lemma_first_occurrence_at(q, pat, 0, p.len() as int);
    crate::text::lemma_first_occurrence_none(p, pat, 0);
    assert(before_first(q, pat) =~= p);
    assert(before_first(p, pat) =~= p);
}

/// Within one list item each pattern occurs once, so a search matches at most
/// one of its patterns: the order of the patterns within an item never matters.
pub proof fn law_one_match_per_item(
    pairs: Seq<(String, ProviderEntry)>,
    want: Option<Seq<char>>,
    username: Seq<char>,
    i: int,
    j: int,
)
    requires
        keys_distinct(pairs),
        0 <= i < pairs.len(),
        0 <= j < pairs.len(),
        pair_matches(pairs[i], want, username),
        pair_matches(pairs[j], want, username),
    ensures
        i == j,
{
    if i != j {
        assert(pairs[i].0@ != pairs[j].0@);
    }
}

/// A user listed anywhere in an entry's `users` may use that entry.
pub proof fn law_listed_user_allowed(entry: ProviderEntry, username: Seq<char>, i: int)
    requires
        entry.users is Some,
        0 <= i < entry.users->0@.len(),
        entry.users->0@[i]@ == username,
    ensures
        allowed(entry, username),
{
}

/// A user other than `root` who is not listed in an entry's `users` may not
/// use that entry.
pub proof fn law_unlisted_user_refused(entry: ProviderEntry, username: Seq<char>)
    requires
        username != "root"@,
        entry.users is Some,
        forall|i: int| 0 <= i < entry.users->0@.len() ==> #[trigger] entry.users->0@[i]@ != username,
    ensures
        !allowed(entry, username),
{
}

/// An entry without a `users` list may be used by everyone.
pub proof fn law_no_users_list_allows_all(entry: ProviderEntry, username: Seq<char>)
    requires
        entry.users is None,
    ensures
        allowed(entry, username),
{
}

/// If a specific pattern equal to the normalized path lists the user anywhere
/// in its `users`, the result is a specific pattern for that path at or before
/// it, never a wildcard.
pub proof fn law_listed_user_gets_specific_entry(
    s: Seq<(String, ProviderEntry)>,
    p: Seq<char>,
    username: Seq<char>,
    i: int,
    j: int,
)
    requires
        0 <= i < s.len(),
        s[i].0@ == normalize_spec(p),
        s[i].0@ != wildcard(),
        s[i].1.users is Some,
        0 <= j < s[i].1.users->0@.len(),
        s[i].1.users->0@[j]@ == username,
    ensures
        exists|k: int|
            0 <= k <= i && #[trigger] s[k].0@ == normalize_spec(p) && s[k].0@ != wildcard()
                && select_in(s, Some(p), username) == Some(s[k].1),
{
    law_listed_user_allowed(s[i].1, username, j);
    law_specific_pattern_first(s, p, username, i);
}

} // verus!
