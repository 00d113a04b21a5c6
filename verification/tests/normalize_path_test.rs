use git_credential_helper::config::normalize_path;

#[test]
fn normalize_strips_git_suffix() {
    assert_eq!(normalize_path("org/repo.git"), "org/repo");
}

#[test]
fn normalize_lowercases() {
    assert_eq!(normalize_path("Org/Repo"), "org/repo");
}

#[test]
fn normalize_strips_leading_slash() {
    assert_eq!(normalize_path("/org/repo"), "org/repo");
}

#[test]
fn normalize_strips_git_then_lowercases() {
    assert_eq!(normalize_path("/Org/Repo.git"), "org/repo");
}

#[test]
fn normalize_plain_path_unchanged() {
    assert_eq!(normalize_path("org/repo"), "org/repo");
}

#[test]
fn normalize_strips_trailing_slashes() {
    assert_eq!(normalize_path("//org/repo//"), "org/repo");
}

#[test]
fn normalize_keeps_only_part_before_first_git() {
    assert_eq!(normalize_path("org/a.github.io.git"), "org/a");
}

#[test]
fn normalize_does_not_match_uppercase_git() {
    assert_eq!(normalize_path("org/Repo.GIT"), "org/repo.git");
}

#[test]
fn normalize_only_slashes_is_empty() {
    assert_eq!(normalize_path("///"), "");
    assert_eq!(normalize_path(""), "");
}

#[test]
fn normalize_lowercases_non_ascii() {
    assert_eq!(normalize_path("Org/ÄÖÜ"), "org/äöü");
}
