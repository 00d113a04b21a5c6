use git_credential_helper::config::{Config, PatternMap, ProviderEntry};

/// Reads the YAML configuration into a `Config`, keeping the order in which
/// the hosts, list items and patterns are written.
fn parse(yaml: &str) -> Config {
    let v: serde_yaml::Value = serde_yaml::from_str(yaml).expect("valid yaml");
    let creds = v["credentials"].as_mapping().expect("credentials mapping");
    let mut config = Config::new();
    for (host, list) in creds {
        let mut maps = Vec::new();
        for item in list.as_sequence().expect("list of pattern maps") {
            let mut pairs = PatternMap::new();
            for (pattern, e) in item.as_mapping().expect("pattern map") {
                let users = e.get("users").map(|u| {
                    u.as_sequence()
                        .expect("users list")
                        .iter()
                        .map(|x| x.as_str().expect("user name").to_string())
                        .collect::<Vec<String>>()
                });
                pairs.insert(
                    pattern.as_str().expect("pattern").to_string(),
                    ProviderEntry {
                        provider: e["provider"].as_str().expect("provider").to_string(),
                        provider_config: e["provider-config"].clone(),
                        users,
                    },
                );
            }
            maps.push(pairs);
        }
        config.insert_host(host.as_str().expect("host").to_string(), maps);
    }
    config
}

const BASIC_CONFIG: &str = r#"
credentials:
  github.com:
    - 'org/repo':
        provider: github-application
        provider-config:
          application-id: 4567
          key: /keys/repo.key
    - '*':
        provider: github-application
        provider-config:
          application-id: 1234
          key: /keys/fallback.key
  lfs.example.com:
    - '*':
        provider: static
        provider-config:
          username: user
          password: pass
"#;

#[test]
fn unknown_host_returns_none() {
    let cfg = parse(BASIC_CONFIG);
    assert!(cfg.find_provider("unknown.host", None, "alice").is_none());
}

#[test]
fn wildcard_matches_when_no_path() {
    let cfg = parse(BASIC_CONFIG);
    let entry = cfg.find_provider("github.com", None, "alice").unwrap();
    let gc: serde_yaml::Value = entry.provider_config.clone();
    assert_eq!(gc["application-id"].as_u64().unwrap(), 1234);
}

#[test]
fn specific_pattern_takes_priority_over_wildcard() {
    let cfg = parse(BASIC_CONFIG);
    let entry = cfg.find_provider("github.com", Some("org/repo"), "alice").unwrap();
    let gc: serde_yaml::Value = entry.provider_config.clone();
    assert_eq!(gc["application-id"].as_u64().unwrap(), 4567);
}

#[test]
fn unmatched_path_falls_back_to_wildcard() {
    let cfg = parse(BASIC_CONFIG);
    let entry = cfg.find_provider("github.com", Some("other/repo"), "alice").unwrap();
    let gc: serde_yaml::Value = entry.provider_config.clone();
    assert_eq!(gc["application-id"].as_u64().unwrap(), 1234);
}

#[test]
fn git_suffix_path_matches_specific_pattern() {
    let cfg = parse(BASIC_CONFIG);
    let entry = cfg.find_provider("github.com", Some("org/repo.git"), "alice").unwrap();
    let gc: serde_yaml::Value = entry.provider_config.clone();
    assert_eq!(gc["application-id"].as_u64().unwrap(), 4567);
}

#[test]
fn static_provider_matched_by_host() {
    let cfg = parse(BASIC_CONFIG);
    let entry = cfg.find_provider("lfs.example.com", None, "alice").unwrap();
    assert_eq!(entry.provider, "static");
}

#[test]
fn specific_pattern_listed_after_wildcard_still_wins() {
    let cfg = parse(
        r#"
credentials:
  github.com:
    - '*':
        provider: static
        provider-config:
          username: u
          password: p
    - 'org/repo':
        provider: github-application
        provider-config:
          application-id: 9
          key: /k
"#,
    );
    let entry = cfg.find_provider("github.com", Some("/Org/Repo.git"), "alice").unwrap();
    assert_eq!(entry.provider, "github-application");
    let entry = cfg.find_provider("github.com", Some("org/other"), "alice").unwrap();
    assert_eq!(entry.provider, "static");
}

#[test]
fn first_matching_entry_in_order_wins() {
    let cfg = parse(
        r#"
credentials:
  h:
    - '*':
        provider: first
        provider-config: {}
    - '*':
        provider: second
        provider-config: {}
"#,
    );
    assert_eq!(cfg.find_provider("h", None, "x").unwrap().provider, "first");
}

#[test]
fn wildcard_pattern_never_matches_as_specific_path() {
    let cfg = parse(
        r#"
credentials:
  h:
    - '*':
        provider: wild
        users: [bob]
        provider-config: {}
"#,
    );
    // The path "*" is no specific pattern: the wildcard is only used as a fallback,
    // and it does not allow this user.
    assert!(cfg.find_provider("h", Some("*"), "alice").is_none());
    assert_eq!(cfg.find_provider("h", Some("*"), "bob").unwrap().provider, "wild");
}

#[test]
fn host_without_wildcard_and_unmatched_path_gives_none() {
    let cfg = parse(BASIC_CONFIG);
    let only_specific = parse(
        r#"
credentials:
  h:
    - 'org/repo':
        provider: p
        provider-config: {}
"#,
    );
    assert!(only_specific.find_provider("h", Some("org/other"), "a").is_none());
    assert!(only_specific.find_provider("h", None, "a").is_none());
    assert!(cfg.find_provider("GitHub.com", None, "alice").is_none());
}
