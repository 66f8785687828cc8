use lucus::files::{
    env_destination, env_sources, gitignore_entry, gitignore_update, has_gitignore_entry,
    normalize_gitignore_entry, normalize_path, path_to_unix,
};

fn strings(v: &[&str]) -> Vec<String> {
    v.iter().map(|s| s.to_string()).collect()
}

#[test]
fn env_sources_discovers_root_env_files() {
    let sources = env_sources(
        "/tmp/repo",
        &Vec::new(),
        &strings(&[".env.local", "README.md", ".env"]),
    );
    assert_eq!(sources, strings(&["/tmp/repo/.env", "/tmp/repo/.env.local"]));
    assert!(!sources.iter().any(|s| s.ends_with("README.md")));
}

#[test]
fn env_sources_pattern_mode_keeps_listed_files() {
    let patterns = strings(&[".env", ".env.missing"]);
    let sources = env_sources("/tmp/repo-pattern", &patterns, &strings(&[".env"]));
    assert_eq!(
        sources,
        strings(&["/tmp/repo-pattern/.env", "/tmp/repo-pattern/.env.missing"])
    );
    assert_eq!(
        env_destination("/tmp/repo-pattern/.env", "/tmp/repo-pattern/worktree"),
        Some("/tmp/repo-pattern/worktree/.env".to_string())
    );
}

#[test]
fn gitignore_parent_entry_added_once() {
    let root = "/tmp/repo-gitignore";
    let target = "/tmp/repo-gitignore/worktrees/feat-abc";
    let entry = gitignore_entry(root, target, Some(target)).expect("entry inside repo");
    assert_eq!(entry, "worktrees/");
    let first = gitignore_update("", &entry).expect("first update adds the entry");
    assert_eq!(first, "worktrees/\n");
    assert_eq!(gitignore_update(&first, &entry), None);
    assert_eq!(first.lines().filter(|line| *line == "worktrees/").count(), 1);
}

#[test]
fn gitignore_entry_listed_once_after_existing_lines() {
    let first = gitignore_update("target\r\n/build\r", "worktrees/").expect("entry is new");
    assert_eq!(first, "target\r\n/build\r\nworktrees/\n");
    assert_eq!(first.lines().filter(|line| *line == "worktrees/").count(), 1);
    assert_eq!(gitignore_update(&first, "worktrees/"), None);
    assert_eq!(gitignore_update("./worktrees\n", "worktrees/"), None);
}

#[test]
fn gitignore_no_entry_when_target_outside_repo() {
    let target = "/tmp/outside/worktrees/feat-xyz";
    assert_eq!(gitignore_entry("/tmp/repo-outside", target, Some(target)), None);
}

#[test]
fn gitignore_entry_for_missing_target_is_normalized_from_root() {
    assert_eq!(
        gitignore_entry("/r", "wt/./a/../b/feat", None),
        Some("wt/b/".to_string())
    );
    assert_eq!(gitignore_entry("/r", "/r/feat", None), None);
    assert_eq!(gitignore_entry("/r", "../elsewhere/feat", None), None);
}

#[test]
fn gitignore_update_appends_newline_first() {
    assert_eq!(
        gitignore_update("target", "wt/"),
        Some("target\nwt/\n".to_string())
    );
    assert_eq!(
        gitignore_update("target\n", "wt/"),
        Some("target\nwt/\n".to_string())
    );
    assert_eq!(gitignore_update("/wt\n", "wt/"), None);
    assert_eq!(gitignore_update("  ./wt//  \r\n", "wt/"), None);
}

#[test]
fn gitignore_entry_matching_is_normalized() {
    assert!(has_gitignore_entry("a\n./worktrees/\nb", "worktrees/"));
    assert!(has_gitignore_entry("x\r\n/worktrees\r\n", "worktrees/"));
    assert!(!has_gitignore_entry("worktrees-old/\n", "worktrees/"));
    assert!(!has_gitignore_entry("", "worktrees/"));
    assert_eq!(normalize_gitignore_entry(" ././//a/b/// "), "a/b");
}

#[test]
fn normalize_path_resolves_dots() {
    assert_eq!(normalize_path("a/./b/../c", "/base"), "/base/a/c");
    assert_eq!(normalize_path("/x/../../y", "/base"), "/y");
    assert_eq!(normalize_path("rel", ""), "rel");
    assert_eq!(normalize_path("/", "/base"), "/");
}

#[test]
fn path_to_unix_keeps_names() {
    assert_eq!(path_to_unix("/a//b/./c/"), "a/b/c");
    assert_eq!(path_to_unix("./x/../y"), "x/y");
    assert_eq!(path_to_unix(""), "");
}

#[test]
fn env_destination_needs_a_file_name() {
    assert_eq!(env_destination("/repo/..", "/wt"), None);
    assert_eq!(env_destination("/", "/wt"), None);
    assert_eq!(
        env_destination("/repo/sub/.env.x", "/wt/"),
        Some("/wt/.env.x".to_string())
    );
}
