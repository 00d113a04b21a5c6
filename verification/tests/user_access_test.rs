use git_credential_helper::config::{Config, PatternMap, ProviderEntry};

/// Reads the YAML configuration into a `Config`, keeping the order in which
/// the hosts, list items and patterns are written.
fn parse(yaml: &str) -> Config {
    let v: serde_yaml::Value = serde_yaml::from_str(yaml).expect("valid yaml");
    let creds = v["credentials"].as_mapping().expect("credentials mapping");
    let mut config = Config::new();
    for (host, list) in creds {
        let mut maps = Vec::new();
        for item in list.as_sequence().expect("list of pattern maps") {
            let mut pairs = PatternMap::new();
            for (pattern, e) in item.as_mapping().expect("pattern map") {
                let users = e.get("users").map(|u| {
                    u.as_sequence()
                        .expect("users list")
                        .iter()
                        .map(|x| x.as_str().expect("user name").to_string())
                        .collect::<Vec<String>>()
                });
                pairs.insert(
                    pattern.as_str().expect("pattern").to_string(),
                    ProviderEntry {
                        provider: e["provider"].as_str().expect("provider").to_string(),
                        provider_config: e["provider-config"].clone(),
                        users,
                    },
                );
            }
            maps.push(pairs);
        }
        config.insert_host(host.as_str().expect("host").to_string(), maps);
    }
    config
}

const BASIC_CONFIG: &str = r#"
credentials:
  github.com:
    - 'org/repo':
        provider: github-application
        provider-config:
          application-id: 4567
          key: /keys/repo.key
    - '*':
        provider: github-application
        provider-config:
          application-id: 1234
          key: /keys/fallback.key
"#;

const USERS_CONFIG: &str = r#"
credentials:
  github.com:
    - 'org/restricted':
        provider: github-application
        users:
          - alice
        provider-config:
          application-id: 111
          key: /keys/restricted.key
    - '*':
        provider: github-application
        provider-config:
          application-id: 222
          key: /keys/open.key
  lfs.example.com:
    - '*':
        provider: static
        users:
          - alice
          - bob
        provider-config:
          username: user
          password: pass
"#;

#[test]
fn listed_user_can_access_restricted_entry() {
    let cfg = parse(USERS_CONFIG);
    let entry = cfg.find_provider("github.com", Some("org/restricted"), "alice").unwrap();
    let gc: serde_yaml::Value = entry.provider_config.clone();
    assert_eq!(gc["application-id"].as_u64().unwrap(), 111);
}

#[test]
fn unlisted_user_skips_restricted_entry_falls_back_to_wildcard() {
    let cfg = parse(USERS_CONFIG);
    let entry = cfg.find_provider("github.com", Some("org/restricted"), "charlie").unwrap();
    let gc: serde_yaml::Value = entry.provider_config.clone();
    assert_eq!(gc["application-id"].as_u64().unwrap(), 222);
}

#[test]
fn root_bypasses_user_restriction() {
    let cfg = parse(USERS_CONFIG);
    let entry = cfg.find_provider("github.com", Some("org/restricted"), "root").unwrap();
    let gc: serde_yaml::Value = entry.provider_config.clone();
    assert_eq!(gc["application-id"].as_u64().unwrap(), 111);
}

#[test]
fn unlisted_user_gets_none_when_only_restricted_wildcard() {
    let cfg = parse(USERS_CONFIG);
    assert!(cfg.find_provider("lfs.example.com", None, "charlie").is_none());
}

#[test]
fn listed_user_gets_static_wildcard() {
    let cfg = parse(USERS_CONFIG);
    let entry = cfg.find_provider("lfs.example.com", None, "bob").unwrap();
    assert_eq!(entry.provider, "static");
}

#[test]
fn no_users_field_allows_any_user() {
    let cfg = parse(BASIC_CONFIG);
    let entry = cfg.find_provider("github.com", Some("other/repo"), "anyone").unwrap();
    let gc: serde_yaml::Value = entry.provider_config.clone();
    assert_eq!(gc["application-id"].as_u64().unwrap(), 1234);
}

#[test]
fn root_gets_restricted_wildcard() {
    let cfg = parse(USERS_CONFIG);
    let entry = cfg.find_provider("lfs.example.com", None, "root").unwrap();
    assert_eq!(entry.provider, "static");
}

#[test]
fn empty_users_list_allows_only_root() {
    let cfg = parse(
        r#"
credentials:
  h:
    - '*':
        provider: p
        users: []
        provider-config: {}
"#,
    );
    assert!(cfg.find_provider("h", None, "alice").is_none());
    assert!(cfg.find_provider("h", None, "root").is_some());
}
