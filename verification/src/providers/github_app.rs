//! The `github-application` provider: short-lived installation tokens of a
//! GitHub App, cached until shortly before they expire.
//!
//! The network requests and the cache file are handled by the caller; this
//! module holds the decisions between them as a state machine, the JWT
//! claims, the signing key, and the reading of the expiry time.
use vstd::prelude::*;

use super::Credential;
use crate::config::{normalize_path, normalize_spec, GithubAppConfig};
use crate::text::{decimal, push_decimal};
use crate::timestamp::{parse_rfc3339, parse_rfc3339_spec, timestamp_fits, timestamp_fits_exec};

verus! {

// ---------------------------------------------------------------------------
// Outside items
// ---------------------------------------------------------------------------

#[verifier::external_type_specification]
#[verifier::external_body]
pub struct ExEncodingKey(jsonwebtoken::EncodingKey);

#[verifier::external_type_specification]
#[verifier::external_body]
pub struct ExJwtError(jsonwebtoken::errors::Error);

/// Whether `jsonwebtoken::EncodingKey::from_rsa_pem` accepts the bytes: a PEM
/// document whose DER content holds an RSA key (PKCS#1 `RSA PRIVATE KEY` or
/// `RSA PUBLIC KEY`, or a PKCS#8 `PRIVATE KEY`, `PUBLIC KEY` or `CERTIFICATE`
/// classified as RSA).
pub uninterp spec fn rsa_pem_accepted(pem: Seq<u8>) -> bool;

/// Calls `jsonwebtoken::EncodingKey::from_rsa_pem`, which parses a PEM
/// document and takes the RSA key material in it. Stated: whether it succeeds
/// depends on the bytes alone. The key itself is opaque here, and nothing is
/// said of it.
#[verifier::external_body]
fn from_rsa_pem(pem: &[u8]) -> (res: Result<jsonwebtoken::EncodingKey, jsonwebtoken::errors::Error>)
    ensures
        res is Ok == rsa_pem_accepted(pem@),
{
    jsonwebtoken::EncodingKey::from_rsa_pem(pem)
}

/// The current time in seconds since the Unix epoch (0 if the clock is set
/// before it). Calls `SystemTime::now`; nothing is stated of the result.
#[verifier::external_body]
pub(crate) fn now_secs() -> u64 {
    std::time::SystemTime::now().duration_since(std::time::UNIX_EPOCH).unwrap_or_default().as_secs()
}

// ---------------------------------------------------------------------------
// Signing key and claims
// ---------------------------------------------------------------------------

/// Why no signing key could be made.
pub enum KeyError {
    /// The key file holds no RSA key in PEM form.
    InvalidRsaPem,
}

/// The RSA signing key held in a PEM document.
pub fn signing_key(pem: &[u8]) -> (res: Result<jsonwebtoken::EncodingKey, KeyError>)
    ensures
        res is Ok == rsa_pem_accepted(pem@),
{
    match from_rsa_pem(pem) {
        Ok(k) => Ok(k),
        Err(_) => Err(KeyError::InvalidRsaPem),
    }
}

/// The claims of the JWT that authenticates as the app: issued a minute
/// before `now`, expiring ten minutes after it, issued by the app.
pub struct JwtClaims {
    pub iat: i64,
    pub exp: i64,
    pub iss: u64,
}

/// The claims for `application_id` at time `now`.
pub fn jwt_claims(application_id: u64, now: i64) -> (res: JwtClaims)
    requires
        i64::MIN + 60 <= now <= i64::MAX - 600,
    ensures
        res.iat == now - 60,
        res.exp == now + 600,
        res.iss == application_id,
{
    JwtClaims { iat: now - 60, exp: now + 600, iss: application_id }
}

// ---------------------------------------------------------------------------
// Expiry times
// ---------------------------------------------------------------------------

/// How long a token is taken to be valid when GitHub does not say.
pub const DEFAULT_TOKEN_LIFETIME_SECS: u64 = 3600;

/// The expiry assumed at time `now` when none is known: an hour later
/// (the largest time, where that would not fit).
pub open spec fn fallback_expiry_spec(now: u64) -> u64 {
    if now <= u64::MAX - DEFAULT_TOKEN_LIFETIME_SECS {
        (now + DEFAULT_TOKEN_LIFETIME_SECS) as u64
    } else {
        u64::MAX
    }
}

/// The expiry assumed at time `now` when none is known.
pub fn fallback_expiry(now: u64) -> (res: u64)
    ensures
        res == fallback_expiry_spec(now),
{
    if now <= u64::MAX - DEFAULT_TOKEN_LIFETIME_SECS {
        now + DEFAULT_TOKEN_LIFETIME_SECS
    } else {
        u64::MAX
    }
}

/// The expiry that a token response gives, read at time `now`: the parsed
/// timestamp when there is one, else the fallback.
pub open spec fn token_expiry_spec(expires_at: Option<Seq<char>>, now: u64) -> u64 {
    match expires_at {
        Some(s) => match parse_rfc3339_spec(s) {
            Some(t) => t,
            None => fallback_expiry_spec(now),
        },
        None => fallback_expiry_spec(now),
    }
}

/// The expiry time written in `s`, or an hour after the current time when `s`
/// is no timestamp of the Unix era.
pub fn parse_expires_at(s: &str) -> (res: u64)
    requires
        timestamp_fits(s@),
    ensures
        parse_rfc3339_spec(s@) is Some ==> res == parse_rfc3339_spec(s@)->0,
        parse_rfc3339_spec(s@) is None ==> exists|now: u64| #[trigger] fallback_expiry_spec(now) == res,
{
    match parse_rfc3339(s) {
        Some(t) => t,
        None => {
            let now = now_secs();
            let res = fallback_expiry(now);
            assert(fallback_expiry_spec(now) == res);
            res
        },
    }
}

/// The expiry of a token response read at time `now`; `None` when the
/// timestamp is too large to convert.
pub fn token_expiry(expires_at: Option<&str>, now: u64) -> (res: Option<u64>)
    ensures
        match expires_at {
            Some(s) => if timestamp_fits(s@) {
                res == Some(token_expiry_spec(Some(s@), now))
            } else {
                res is None
            },
            None => res == Some(fallback_expiry_spec(now)),
        },
{
    match expires_at {
        Some(s) => {
            if !timestamp_fits_exec(s) {
                return None;
            }
            match parse_rfc3339(s) {
                Some(t) => Some(t),
                None => Some(fallback_expiry(now)),
            }
        },
        None => Some(fallback_expiry(now)),
    }
}

// ---------------------------------------------------------------------------
// Responses of the GitHub API
// ---------------------------------------------------------------------------

/// What the installation lookup's HTTP status says.
pub enum InstallationStatus {
    /// The app is installed on the repository; its id is in the body.
    Found,
    /// The app is not installed on the repository.
    NotInstalled,
    /// The request failed.
    Failed,
}

pub open spec fn is_success(status: u16) -> bool {
    200 <= status <= 299
}

/// What the installation lookup's HTTP status says: 404 means not installed,
/// any other status outside 2xx is an error.
pub fn installation_status(status: u16) -> (res: InstallationStatus)
    ensures
        status == 404 ==> res is NotInstalled,
        status != 404 && is_success(status) ==> res is Found,
        status != 404 && !is_success(status) ==> res is Failed,
{
    if status == 404 {
        InstallationStatus::NotInstalled
    } else if 200 <= status && status <= 299 {
        InstallationStatus::Found
    } else {
        InstallationStatus::Failed
    }
}

/// The API address that gives the app's installation on a repository.
pub open spec fn installation_url_spec(repository: Seq<char>) -> Seq<char> {
    "https://api.github.com/repos/"@ + repository + "/installation"@
}

/// The API address that issues an access token of an installation.
pub open spec fn access_tokens_url_spec(installation_id: u64) -> Seq<char> {
    "https://api.github.com/app/installations/"@ + decimal(installation_id as nat) + "/access_tokens"@
}

/// The API address that gives the app's installation on `repository`.
pub fn installation_url(repository: &str) -> (res: String)
    ensures
        res@ == installation_url_spec(repository@),
{
    let mut url = "https://api.github.com/repos/".to_owned();
    url.append(repository);
    url.append("/installation");
    assert(url@ =~= installation_url_spec(repository@));
    url
}

/// The API address that issues an access token of installation `installation_id`.
pub fn access_tokens_url(installation_id: u64) -> (res: String)
    ensures
        res@ == access_tokens_url_spec(installation_id),
{
    let mut url = "https://api.github.com/app/installations/".to_owned();
    push_decimal(&mut url, installation_id);
    url.append("/access_tokens");
    assert(url@ =~= access_tokens_url_spec(installation_id));
    url
}

/// Whether the access token request succeeded (a 2xx status).
pub fn token_request_succeeded(status: u16) -> (res: bool)
    ensures
        res == is_success(status),
{
    200 <= status && status <= 299
}

// ---------------------------------------------------------------------------
// Fetching a credential
// ---------------------------------------------------------------------------

/// The username under which an installation token is used.
pub open spec fn oauth_username() -> Seq<char> {
    "oauth2"@
}

/// The credential for an installation token.
pub fn oauth_credential(token: String) -> (res: Credential)
    ensures
        res.username@ == oauth_username(),
        res.password@ == token@,
{
    Credential { username: "oauth2".to_owned(), password: token }
}

/// Where a credential fetch stands.
pub enum Stage {
    /// Waiting for the token cache.
    CacheLookup,
    /// Waiting for the app's installation on the repository.
    InstallationLookup,
    /// Waiting for a new installation token.
    TokenRequest,
    /// Done.
    Finished,
}

/// What the caller found out.
pub enum FetchEvent {
    /// The token cache gave this (a token still valid beyond the expiry buffer, or none).
    Cached(Option<String>),
    /// The installation lookup gave this id, or found the app not installed.
    Installation(Option<u64>),
    /// GitHub issued `token`, with the expiry it gave, read at time `now`.
    Token { token: String, expires_at: Option<String>, now: u64 },
}

/// What the caller is to do next.
pub enum FetchAction {
    /// Look up the token of the application for the repository in the cache.
    LookupCache { application_id: u64, repo: String },
    /// Authenticate as the app and look up its installation on the repository.
    FindInstallation { repo: String },
    /// Request an access token of the installation.
    RequestToken { installation_id: u64 },
    /// Store the token in the cache (a failure to store does not matter),
    /// then hand out the credential.
    StoreAndReturn { application_id: u64, repo: String, token: String, expires_at: u64, credential: Credential },
    /// Hand out this result.
    Finish(Option<Credential>),
    /// The event does not fit the stage, or the expiry time is too large to convert.
    Fail,
}

/// A credential fetch for one application and repository.
pub struct CredentialFetch {
    application_id: u64,
    repo: String,
    stage: Stage,
}

impl CredentialFetch {
    pub closed spec fn spec_application_id(&self) -> u64 {
        self.application_id
    }

    /// The normalized repository path.
    pub closed spec fn spec_repo(&self) -> Seq<char> {
        self.repo@
    }

    pub closed spec fn spec_stage(&self) -> Stage {
        self.stage
    }

    /// Starts fetching the credential of the app configured by `config` for
    /// the repository at `path`: first the cache is asked.
    pub fn start(config: &GithubAppConfig, path: &str) -> (res: (CredentialFetch, FetchAction))
        ensures
            res.0.spec_application_id() == config.application_id,
            res.0.spec_repo() == normalize_spec(path@),
            res.0.spec_stage() is CacheLookup,
            res.1 matches FetchAction::LookupCache { application_id, repo } && application_id
                == config.application_id && repo@ == normalize_spec(path@),
    {
        let repo = normalize_path(path);
        let action = FetchAction::LookupCache { application_id: config.application_id, repo: repo.clone() };
        (CredentialFetch { application_id: config.application_id, repo, stage: Stage::CacheLookup }, action)
    }

    /// Takes in what the caller found out and says what to do next.
    pub fn step(&mut self, event: FetchEvent) -> (res: FetchAction)
        ensures
            final(self).spec_application_id() == old(self).spec_application_id(),
            final(self).spec_repo() == old(self).spec_repo(),
            match (old(self).spec_stage(), event) {
                (Stage::CacheLookup, FetchEvent::Cached(Some(token))) => {
                    &&& final(self).spec_stage() is Finished
                    &&& res matches FetchAction::Finish(Some(c)) && c.username@ == oauth_username()
                        && c.password@ == token@
                },
                (Stage::CacheLookup, FetchEvent::Cached(None)) => {
                    &&& final(self).spec_stage() is InstallationLookup
                    &&& res matches FetchAction::FindInstallation { repo } && repo@ == old(
                        self,
                    ).spec_repo()
                },
                (Stage::InstallationLookup, FetchEvent::Installation(None)) => {
                    &&& final(self).spec_stage() is Finished
                    &&& res matches FetchAction::Finish(None)
                },
                (Stage::InstallationLookup, FetchEvent::Installation(Some(id))) => {
                    &&& final(self).spec_stage() is TokenRequest
                    &&& res matches FetchAction::RequestToken { installation_id } && installation_id == id
                },
                (Stage::TokenRequest, FetchEvent::Token { token, expires_at, now }) => {
                    let e = match expires_at {
                        Some(s) => Some(s@),
                        None => None,
                    };
                    &&& final(self).spec_stage() is Finished
                    &&& if e is Some && !timestamp_fits(e->0) {
                        res is Fail
                    } else {
                        res matches FetchAction::StoreAndReturn {
                            application_id,
                            repo,
                            token: t,
                            expires_at: x,
                            credential,
                        } && application_id == old(self).spec_application_id() && repo@ == old(
                            self,
                        ).spec_repo() && t@ == token@ && x == token_expiry_spec(e, now)
                            && credential.username@ == oauth_username() && credential.password@
                            == token@
                    }
                },
                _ => final(self).spec_stage() == old(self).spec_stage() && res is Fail,
            },
    {
        match (&self.stage, event) {
            (Stage::CacheLookup, FetchEvent::Cached(Some(token))) => {
                self.stage = Stage::Finished;
                FetchAction::Finish(Some(oauth_credential(token)))
            },
            (Stage::CacheLookup, FetchEvent::Cached(None)) => {
                self.stage = Stage::InstallationLookup;
                FetchAction::FindInstallation { repo: self.repo.clone() }
            },
            (Stage::InstallationLookup, FetchEvent::Installation(None)) => {
                self.stage = Stage::Finished;
                FetchAction::Finish(None)
            },
            (Stage::InstallationLookup, FetchEvent::Installation(Some(id))) => {
                self.stage = Stage::TokenRequest;
                FetchAction::RequestToken { installation_id: id }
            },
            (Stage::TokenRequest, FetchEvent::Token { token, expires_at, now }) => {
                self.stage = Stage::Finished;
                let expiry = match &expires_at {
                    Some(s) => token_expiry(Some(s.as_str()), now),
                    None => token_expiry(None, now),
                };
                match expiry {
                    None => FetchAction::Fail,
                    Some(x) => {
                        let credential = oauth_credential(token.clone());
                        FetchAction::StoreAndReturn {
                            application_id: self.application_id,
                            repo: self.repo.clone(),
                            token,
                            expires_at: x,
                            credential,
                        }
                    },
                }
            },
            _ => FetchAction::Fail,
        }
    }
}

} // verus!
