//! The git credential helper protocol: the request git writes, and what the
//! helper does with it.
use vstd::prelude::*;

use crate::config::{find_provider_spec, Config, ProviderEntry};
use crate::providers::Credential;
use crate::text::{
    chars_of, split_once, split_once_exec, str_eq, string_from_chars, trim, trim_by, white_space, Trimmed,
};

verus! {


/// The map that a list of key/value pairs stands for; a later pair wins over
/// an earlier one with the same key.
pub open spec fn pairs_map(s: Seq<(String, String)>) -> Map<Seq<char>, Seq<char>>
    decreases s.len(),
{
    if s.len() == 0 {
        Map::empty()
    } else {
        pairs_map(s.drop_last()).insert(s.last().0@, s.last().1@)
    }
}

/// How a request line changes the request: `None` when it ends the request
/// (it is blank); otherwise the key and value it sets, if it has a `=`.
pub open spec fn line_effect(line: Seq<char>) -> Option<Option<(Seq<char>, Seq<char>)>> {
    let t = trim_by(line, white_space());
    if t.len() == 0 {
        None
    } else {
        Some(split_once(t, '='))
    }
}

/// The attributes of a credential request (`host`, `path`, ...).
pub struct CredentialInput {
    pairs: Vec<(String, String)>,
}

impl View for CredentialInput {
    type V = Map<Seq<char>, Seq<char>>;

    closed spec fn view(&self) -> Map<Seq<char>, Seq<char>> {
        pairs_map(self.pairs@)
    }
}

proof fn lemma_pairs_map_last(s: Seq<(String, String)>, k: Seq<char>, i: int)
    requires
        0 <= i < s.len(),
        s[i].0@ == k,
        forall|j: int| i < j < s.len() ==> #[trigger] s[j].0@ != k,
    ensures
        pairs_map(s).contains_key(k),
        pairs_map(s)[k] == s[i].1@,
    decreases s.len(),
{
    if i < s.len() - 1 {
        let t = s.drop_last();
        assert(t[i] == s[i]);
        assert forall|j: int| i < j < t.len() implies #[trigger] t[j].0@ != k by {
            assert(t[j] == s[j]);
        }
        lemma_pairs_map_last(t, k, i);
    }
}

proof fn lemma_pairs_map_absent(s: Seq<(String, String)>, k: Seq<char>)
    requires
        forall|j: int| 0 <= j < s.len() ==> #[trigger] s[j].0@ != k,
    ensures
        !pairs_map(s).contains_key(k),
    decreases s.len(),
{
    if s.len() > 0 {
        let t = s.drop_last();
        assert forall|j: int| 0 <= j < t.len() implies #[trigger] t[j].0@ != k by {
            assert(t[j] == s[j]);
        }
        lemma_pairs_map_absent(t, k);
    }
}

impl CredentialInput {
    /// An empty request.
    pub fn new() -> (res: Self)
        ensures
            res@ == Map::<Seq<char>, Seq<char>>::empty(),
    {
        CredentialInput { pairs: Vec::new() }
    }

    /// Takes in one line of the request. Returns false when the line ends the
    /// request (it is blank once trimmed); otherwise a line `key=value` sets
    /// `key` to `value` (split at the first `=`), and a line without `=` is ignored.
    pub fn add_line(&mut self, line: &str) -> (more: bool)
        ensures
            match line_effect(line@) {
                None => !more && final(self)@ == old(self)@,
                Some(None) => more && final(self)@ == old(self)@,
                Some(Some((k, v))) => more && final(self)@ == old(self)@.insert(k, v),
            },
    {
        let cs = chars_of(line);
        let t = trim(&cs, Trimmed::WhiteSpace);
        if t.len() == 0 {
            return false;
        }
        match split_once_exec(&t, '=') {
            None => true,
            Some((k, v)) => {
                let ghost old_pairs = self.pairs@;
                self.pairs.push((string_from_chars(&k), string_from_chars(&v)));
                assert(self.pairs@.drop_last() =~= old_pairs);
                true
            },
        }
    }

    /// The key/value pairs as they were read; a later pair wins over an earlier one.
    pub fn pairs(&self) -> (res: &Vec<(String, String)>)
        ensures
            pairs_map(res@) == self@,
    {
        &self.pairs
    }

    /// The value of `key`, if the request sets it.
    pub fn get(&self, key: &str) -> (res: Option<&String>)
        ensures
            match res {
                Some(v) => self@.contains_key(key@) && self@[key@] == v@,
                None => !self@.contains_key(key@),
            },
    {
        let mut i: usize = self.pairs.len();
        while i > 0
            invariant
                i <= self.pairs@.len(),
                forall|j: int| i <= j < self.pairs@.len() ==> #[trigger] self.pairs@[j].0@ != key@,
            decreases i,
        {
            if str_eq(self.pairs[i - 1].0.as_str(), key) {
                proof {
                    lemma_pairs_map_last(self.pairs@, key@, i - 1);
                }
                return Some(&self.pairs[i - 1].1);
            }
            i = i - 1;
        }
        proof {
            lemma_pairs_map_absent(self.pairs@, key@);
        }
        None
    }
}

/// Whether the helper was asked to `get` a credential (it ignores every other operation).
pub fn is_get_operation(operation: Option<&str>) -> (res: bool)
    ensures
        res == (operation is Some && operation->0@ == "get"@),
{
    match operation {
        Some(op) => str_eq(op, "get"),
        None => false,
    }
}

/// Why a request cannot be served.
pub enum RequestError {
    /// The request names no host.
    MissingHost,
    /// The entry's provider needs a repository path, and the request names none.
    MissingPath,
    /// The entry names a provider that does not exist.
    UnknownProvider(String),
}

/// The providers that exist.
pub open spec fn github_application_name() -> Seq<char> {
    "github-application"@
}

pub open spec fn static_name() -> Seq<char> {
    "static"@
}

/// What serves a request.
pub enum Resolution<'a> {
    /// No entry serves it: the helper answers nothing.
    NoCredential,
    /// A GitHub App installation token for the repository at `path`.
    GithubApp { entry: &'a ProviderEntry, path: String },
    /// The credential written in the entry.
    Static { entry: &'a ProviderEntry },
}

/// Decides what serves the request `input` of `username`: the entry that the
/// configuration gives for the request's host and path, and its provider.
pub fn resolve<'a>(config: &'a Config, input: &CredentialInput, username: &str) -> (res: Result<
    Resolution<'a>,
    RequestError,
>)
    ensures
        !input@.contains_key("host"@) ==> res matches Err(RequestError::MissingHost),
        input@.contains_key("host"@) ==> {
            let path = if input@.contains_key("path"@) {
                Some(input@["path"@])
            } else {
                None
            };
            match find_provider_spec(config.spec_credentials(), input@["host"@], path, username@) {
                None => res matches Ok(Resolution::NoCredential),
                Some(e) => if e.provider@ == github_application_name() {
                    match path {
                        Some(p) => res matches Ok(Resolution::GithubApp { entry, path: q }) && *entry
                            == e && q@ == p,
                        None => res matches Err(RequestError::MissingPath),
                    }
                } else if e.provider@ == static_name() {
                    res matches Ok(Resolution::Static { entry }) && *entry == e
                } else {
                    res matches Err(RequestError::UnknownProvider(name)) && name@ == e.provider@
                },
            }
        },
{
    let host = match input.get("host") {
        Some(h) => h,
        None => return Err(RequestError::MissingHost),
    };
    let path = input.get("path");
    let entry = match path {
        Some(p) => config.find_provider(host.as_str(), Some(p.as_str()), username),
        None => config.find_provider(host.as_str(), None, username),
    };
    let entry = match entry {
        Some(e) => e,
        None => return Ok(Resolution::NoCredential),
    };
    if str_eq(entry.provider.as_str(), "github-application") {
        match path {
            Some(p) => Ok(Resolution::GithubApp { entry, path: p.clone() }),
            None => Err(RequestError::MissingPath),
        }
    } else if str_eq(entry.provider.as_str(), "static") {
        Ok(Resolution::Static { entry })
    } else {
        Err(RequestError::UnknownProvider(entry.provider.clone()))
    }
}

/// The helper's answer for a credential: `username=...` and `password=...`, one line each.
pub open spec fn credential_output_spec(c: Credential) -> Seq<char> {
    "username="@ + c.username@ + seq!['\n'] + "password="@ + c.password@ + seq!['\n']
}

/// The helper's answer for a credential.
pub fn credential_output(c: &Credential) -> (res: String)
    ensures
        res@ == credential_output_spec(*c),
{
    let mut out = String::new();
    out.append("username=");
    out.append(c.username.as_str());
    crate::text::push_char(&mut out, '\n');
    out.append("password=");
    out.append(c.password.as_str());
    crate::text::push_char(&mut out, '\n');
    assert(out@ =~= credential_output_spec(*c));
    out
}

/// The name under which the caller is served: the user that `sudo` names
/// (`SUDO_USER`) when it is set and not empty, else the account name of the
/// process's user id, else `unknown`.
pub fn choose_username(sudo_user: Option<String>, uid_user: Option<String>) -> (res: String)
    ensures
        sudo_user is Some && sudo_user->0@.len() > 0 ==> res@ == sudo_user->0@,
        !(sudo_user is Some && sudo_user->0@.len() > 0) ==> res@ == if uid_user is Some {
            uid_user->0@
        } else {
            "unknown"@
        },
{
    if let Some(name) = sudo_user {
        if name.as_str().unicode_len() > 0 {
            return name;
        }
    }
    match uid_user {
        Some(name) => name,
        None => "unknown".to_owned(),
    }
}

/// A request line `key=value` sets `key` to all of `value`, spaces and further
/// `=` included: the line splits at its first `=`. (The key holds no `=`; the
/// line does not start or end with white space, which trimming would remove.)
pub proof fn law_line_sets_key_to_rest(k: Seq<char>, v: Seq<char>)
    requires
        forall|i: int| 0 <= i < k.len() ==> k[i] != '=',
        k.len() == 0 || !crate::text::is_white_space(k[0]),
        v.len() == 0 || !crate::text::is_white_space(v.last()),
    ensures
        line_effect(k + seq!['='] + v) == Some(Some((k, v))),
{
    let line = k + seq!['='] + v;
    let ws = white_space();
    assert(!ws(line[0])) by {
        if k.len() > 0 {
            assert(line[0] == k[0]);
        } else {
            assert(line[0] == '=');
        }
    }
    assert(crate::text::trim_start_by(line, ws) == line);
    assert(!ws(line.last())) by {
        if v.len() > 0 {
            assert(line.last() == v.last());
        } else {
            assert(line.last() == '=');
        }
    }
    assert(crate::text::trim_end_by(line, ws) == line);
    crate::text::lemma_split_once_after(k, '=', v);
}

/// A line of white space only (or an empty line) ends the request.
pub proof fn law_blank_line_ends_request(line: Seq<char>)
    requires
        forall|i: int| 0 <= i < line.len() ==> crate::text::is_white_space(#[trigger] line[i]),
    ensures
        line_effect(line) is None,
{
    lemma_trim_start_all_white(line);
}

proof fn lemma_trim_start_all_white(line: Seq<char>)
    requires
        forall|i: int| 0 <= i < line.len() ==> crate::text::is_white_space(#[trigger] line[i]),
    ensures
        crate::text::trim_start_by(line, white_space()).len() == 0,
    decreases line.len(),
{
    if line.len() > 0 {
        let t = line.drop_first();
        assert forall|i: int| 0 <= i < t.len() implies crate::text::is_white_space(#[trigger] t[i]) by {
            assert(t[i] == line[i + 1]);
        }
        assert(crate::text::is_white_space(line[0]));
        lemma_trim_start_all_white(t);
    }
}

/// A nonblank line without `=` (and without white space at its ends) sets nothing.
pub proof fn law_line_without_equals_ignored(line: Seq<char>)
    requires
        line.len() > 0,
        forall|i: int| 0 <= i < line.len() ==> line[i] != '=',
        !crate::text::is_white_space(line[0]),
        !crate::text::is_white_space(line.last()),
    ensures
        line_effect(line) == Some(None::<(Seq<char>, Seq<char>)>),
{
    let ws = white_space();
    assert(crate::text::trim_start_by(line, ws) == line);
    assert(crate::text::trim_end_by(line, ws) == line);
    let pat = seq!['='];
    assert forall|k: int| 0 <= k implies !crate::text::occurs_at(line, pat, k) by {
        if crate::text::occurs_at(line, pat, k) {
            assert(line.subrange(k, k + 1)[0] == line[k]);
        }
    }
    crate::text::lemma_first_occurrence_none(line, pat, 0);
}

} // verus!
