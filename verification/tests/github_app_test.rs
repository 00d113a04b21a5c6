use git_credential_helper::config::{GithubAppConfig, ProviderEntry};
use git_credential_helper::providers::github_app::{
    access_tokens_url, installation_url,
    installation_status, jwt_claims, oauth_credential, signing_key, token_request_succeeded,
    CredentialFetch, FetchAction, FetchEvent, InstallationStatus, KeyError,
};

fn config() -> GithubAppConfig {
    GithubAppConfig { application_id: 4567, key: "/keys/repo.key".to_string() }
}

#[test]
fn fetch_starts_with_cache_lookup_of_normalized_repo() {
    let (_fetch, action) = CredentialFetch::start(&config(), "/Org/Repo.git");
    match action {
        FetchAction::LookupCache { application_id, repo } => {
            assert_eq!(application_id, 4567);
            assert_eq!(repo, "org/repo");
        }
        _ => panic!("expected a cache lookup"),
    }
}

#[test]
fn cached_token_is_handed_out() {
    let (mut fetch, _) = CredentialFetch::start(&config(), "org/repo");
    match fetch.step(FetchEvent::Cached(Some("ghs_cached".to_string()))) {
        FetchAction::Finish(Some(c)) => {
            assert_eq!(c.username, "oauth2");
            assert_eq!(c.password, "ghs_cached");
        }
        _ => panic!("expected the cached credential"),
    }
    // Nothing more is expected after the fetch finished.
    assert!(matches!(fetch.step(FetchEvent::Installation(Some(1))), FetchAction::Fail));
}

#[test]
fn not_installed_gives_no_credential() {
    let (mut fetch, _) = CredentialFetch::start(&config(), "org/repo");
    match fetch.step(FetchEvent::Cached(None)) {
        FetchAction::FindInstallation { repo } => assert_eq!(repo, "org/repo"),
        _ => panic!("expected an installation lookup"),
    }
    assert!(matches!(fetch.step(FetchEvent::Installation(None)), FetchAction::Finish(None)));
}

#[test]
fn new_token_is_stored_and_handed_out() {
    let (mut fetch, _) = CredentialFetch::start(&config(), "org/repo");
    fetch.step(FetchEvent::Cached(None));
    match fetch.step(FetchEvent::Installation(Some(77))) {
        FetchAction::RequestToken { installation_id } => assert_eq!(installation_id, 77),
        _ => panic!("expected a token request"),
    }
    let action = fetch.step(FetchEvent::Token {
        token: "ghs_new".to_string(),
        expires_at: Some("2024-01-15T10:30:00Z".to_string()),
        now: 1_700_000_000,
    });
    match action {
        FetchAction::StoreAndReturn { application_id, repo, token, expires_at, credential } => {
            assert_eq!(application_id, 4567);
            assert_eq!(repo, "org/repo");
            assert_eq!(token, "ghs_new");
            assert_eq!(expires_at, 1705314600);
            assert_eq!(credential.username, "oauth2");
            assert_eq!(credential.password, "ghs_new");
        }
        _ => panic!("expected store and return"),
    }
}

#[test]
fn token_without_expiry_lasts_an_hour() {
    let (mut fetch, _) = CredentialFetch::start(&config(), "org/repo");
    fetch.step(FetchEvent::Cached(None));
    fetch.step(FetchEvent::Installation(Some(1)));
    match fetch.step(FetchEvent::Token { token: "t".to_string(), expires_at: None, now: 1000 }) {
        FetchAction::StoreAndReturn { expires_at, .. } => assert_eq!(expires_at, 4600),
        _ => panic!("expected store and return"),
    }
}

#[test]
fn events_out_of_order_fail() {
    let (mut fetch, _) = CredentialFetch::start(&config(), "org/repo");
    assert!(matches!(fetch.step(FetchEvent::Installation(Some(1))), FetchAction::Fail));
    assert!(matches!(
        fetch.step(FetchEvent::Token { token: "t".into(), expires_at: None, now: 0 }),
        FetchAction::Fail
    ));
    // The fetch is still waiting for the cache.
    assert!(matches!(fetch.step(FetchEvent::Cached(None)), FetchAction::FindInstallation { .. }));
}

#[test]
fn oversized_expiry_fails() {
    let (mut fetch, _) = CredentialFetch::start(&config(), "org/repo");
    fetch.step(FetchEvent::Cached(None));
    fetch.step(FetchEvent::Installation(Some(1)));
    let action = fetch.step(FetchEvent::Token {
        token: "t".into(),
        expires_at: Some("0000-02-01T00:00:00Z".into()),
        now: 0,
    });
    assert!(matches!(action, FetchAction::Fail));
}

#[test]
fn oauth_credential_uses_oauth2_username() {
    let c = oauth_credential("tok".to_string());
    assert_eq!(c.username, "oauth2");
    assert_eq!(c.password, "tok");
}

#[test]
fn claims_cover_eleven_minutes_around_now() {
    let c = jwt_claims(1234, 1_700_000_000);
    assert_eq!(c.iat, 1_699_999_940);
    assert_eq!(c.exp, 1_700_000_600);
    assert_eq!(c.iss, 1234);
}

#[test]
fn status_codes() {
    assert!(matches!(installation_status(404), InstallationStatus::NotInstalled));
    assert!(matches!(installation_status(200), InstallationStatus::Found));
    assert!(matches!(installation_status(299), InstallationStatus::Found));
    assert!(matches!(installation_status(401), InstallationStatus::Failed));
    assert!(matches!(installation_status(500), InstallationStatus::Failed));
    assert!(matches!(installation_status(199), InstallationStatus::Failed));
    assert!(token_request_succeeded(201));
    assert!(!token_request_succeeded(404));
    assert!(!token_request_succeeded(300));
}

#[test]
fn garbage_is_no_signing_key() {
    assert!(matches!(signing_key(b"not a pem document"), Err(KeyError::InvalidRsaPem)));
    assert!(matches!(
        signing_key(b"-----BEGIN PUBLIC KEY-----\nAAAA\n-----END PUBLIC KEY-----\n"),
        Err(KeyError::InvalidRsaPem)
    ));
}

#[test]
fn api_addresses() {
    assert_eq!(installation_url("org/repo"), "https://api.github.com/repos/org/repo/installation");
    assert_eq!(
        access_tokens_url(4567),
        "https://api.github.com/app/installations/4567/access_tokens"
    );
}

#[test]
fn provider_entries_clone() {
    let e = ProviderEntry {
        provider: "static".to_string(),
        provider_config: serde_yaml::from_str("username: u").unwrap(),
        users: Some(vec!["alice".to_string()]),
    };
    let c = e.clone();
    assert_eq!(c.provider, "static");
    assert_eq!(c.provider_config, e.provider_config);
    assert_eq!(c.users, e.users);
    assert!(format!("{:?}", c).contains("static"));
}
