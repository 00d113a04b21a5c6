use git_credential_helper::config::{Config, PatternMap, ProviderEntry};
use git_credential_helper::providers::Credential;
use git_credential_helper::request::{
    choose_username,
    credential_output, is_get_operation, resolve, CredentialInput, RequestError, Resolution,
};

fn input(lines: &[&str]) -> CredentialInput {
    let mut input = CredentialInput::new();
    for line in lines {
        if !input.add_line(line) {
            break;
        }
    }
    input
}

fn entry(provider: &str, users: Option<&[&str]>) -> ProviderEntry {
    ProviderEntry {
        provider: provider.to_string(),
        provider_config: serde_yaml::from_str("application-id: 1\nkey: /k").unwrap(),
        users: users.map(|u| u.iter().map(|s| s.to_string()).collect()),
    }
}

fn wildcard_item(provider: &str) -> Vec<PatternMap> {
    let mut item = PatternMap::new();
    item.insert("*".to_string(), entry(provider, None));
    vec![item]
}

fn config() -> Config {
    let mut config = Config::new();
    config.insert_host("github.com".to_string(), wildcard_item("github-application"));
    config.insert_host("lfs.example.com".to_string(), wildcard_item("static"));
    config.insert_host("odd.example.com".to_string(), wildcard_item("ftp"));
    config
}

#[test]
fn inserting_replaces_host_and_pattern() {
    let mut config = config();
    config.insert_host("github.com".to_string(), wildcard_item("static"));
    assert_eq!(config.credentials().len(), 3);
    assert!(matches!(
        resolve(&config, &input(&["host=github.com"]), "alice"),
        Ok(Resolution::Static { .. })
    ));
    let mut item = PatternMap::new();
    item.insert("a".to_string(), entry("one", None));
    item.insert("b".to_string(), entry("two", None));
    item.insert("a".to_string(), entry("three", None));
    assert_eq!(item.pairs().len(), 2);
    assert_eq!(item.pairs()[0].0, "b");
    assert_eq!(item.pairs()[1].1.provider, "three");
}

#[test]
fn request_lines_are_read_until_blank_line() {
    let i = input(&["protocol=https", "host=github.com", "  path=org/repo.git \r", "", "host=evil"]);
    assert_eq!(i.get("host").unwrap(), "github.com");
    assert_eq!(i.get("path").unwrap(), "org/repo.git");
    assert_eq!(i.get("protocol").unwrap(), "https");
    assert!(i.get("username").is_none());
}

#[test]
fn whitespace_only_line_ends_request() {
    let mut i = CredentialInput::new();
    assert!(i.add_line("host=a"));
    assert!(!i.add_line(" \t "));
    assert_eq!(i.get("host").unwrap(), "a");
}

#[test]
fn value_may_hold_equals_and_later_line_wins() {
    let i = input(&["password=a=b", "password=c=d", "noequals", "=empty"]);
    assert_eq!(i.get("password").unwrap(), "c=d");
    assert_eq!(i.get("").unwrap(), "empty");
    assert!(i.get("noequals").is_none());
}

#[test]
fn only_get_is_served() {
    assert!(is_get_operation(Some("get")));
    assert!(!is_get_operation(Some("store")));
    assert!(!is_get_operation(Some("erase")));
    assert!(!is_get_operation(None));
}

#[test]
fn missing_host_is_an_error() {
    let cfg = config();
    assert!(matches!(resolve(&cfg, &input(&["path=x"]), "alice"), Err(RequestError::MissingHost)));
}

#[test]
fn github_application_needs_a_path() {
    let cfg = config();
    assert!(matches!(
        resolve(&cfg, &input(&["host=github.com"]), "alice"),
        Err(RequestError::MissingPath)
    ));
    match resolve(&cfg, &input(&["host=github.com", "path=Org/Repo.git"]), "alice") {
        Ok(Resolution::GithubApp { entry, path }) => {
            assert_eq!(entry.provider, "github-application");
            assert_eq!(path, "Org/Repo.git");
        }
        _ => panic!("expected the github application"),
    }
}

#[test]
fn static_and_unknown_providers() {
    let cfg = config();
    assert!(matches!(
        resolve(&cfg, &input(&["host=lfs.example.com"]), "alice"),
        Ok(Resolution::Static { .. })
    ));
    match resolve(&cfg, &input(&["host=odd.example.com"]), "alice") {
        Err(RequestError::UnknownProvider(name)) => assert_eq!(name, "ftp"),
        _ => panic!("expected an unknown provider"),
    }
    assert!(matches!(
        resolve(&cfg, &input(&["host=unknown.example.com"]), "alice"),
        Ok(Resolution::NoCredential)
    ));
}

#[test]
fn output_has_one_line_per_field() {
    let c = Credential { username: "oauth2".into(), password: "p@ss=word".into() };
    assert_eq!(credential_output(&c), "username=oauth2\npassword=p@ss=word\n");
}

#[test]
fn unicode_white_space_is_trimmed() {
    let i = input(&["\u{3000}host=example.com\u{a0}\u{85}", "\u{2028}"]);
    assert_eq!(i.get("host").unwrap(), "example.com");
    assert_eq!(i.pairs().len(), 1);
    // A zero-width space is no white space.
    let j = input(&["\u{200b}host=x"]);
    assert!(j.get("host").is_none());
    assert_eq!(j.get("\u{200b}host").unwrap(), "x");
}

#[test]
fn sudo_user_wins_when_set() {
    assert_eq!(choose_username(Some("alice".into()), Some("root".into())), "alice");
    assert_eq!(choose_username(Some("".into()), Some("root".into())), "root");
    assert_eq!(choose_username(None, Some("bob".into())), "bob");
    assert_eq!(choose_username(Some("".into()), None), "unknown");
    assert_eq!(choose_username(None, None), "unknown");
}
