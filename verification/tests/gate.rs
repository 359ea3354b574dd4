//! The staged-file gate end to end: status parsing, pattern matching, and
//! the blocked-file reports.

use xg::git::{get_staged_files, is_https_remote};
use xg::rules::{
    default_blocked_patterns, get_blocked_files, get_blocked_files_with_patterns, is_file_blocked,
    matches_pattern,
};

fn strings(v: &[&str]) -> Vec<String> {
    v.iter().map(|s| s.to_string()).collect()
}

#[test]
fn staged_and_blocked_from_status_text() {
    let staged = get_staged_files("M  src/main.rs\n?? .env\n");
    assert_eq!(staged, strings(&["src/main.rs", ".env"]));
    let blocked = get_blocked_files(&staged);
    assert_eq!(blocked, strings(&[".env"]));
    let detailed = get_blocked_files_with_patterns(&staged);
    assert_eq!(detailed, vec![(".env".to_string(), ".env".to_string())]);
}

#[test]
fn worktree_only_change_is_not_staged() {
    let staged = get_staged_files(" M src/main.rs\n");
    assert_eq!(staged, Vec::<String>::new());
    assert_eq!(get_blocked_files(&staged), Vec::<String>::new());
}

#[test]
fn directory_pattern_matches_mid_path() {
    assert!(matches_pattern(
        "frontend/node_modules/react/index.js",
        "node_modules/"
    ));
    assert!(is_file_blocked("frontend/node_modules/react/index.js"));
}

#[test]
fn hidden_pattern_needs_exact_basename() {
    assert!(!matches_pattern("myenvfile.txt", ".env"));
    assert!(!is_file_blocked("myenvfile.txt"));
    assert!(matches_pattern("a/.env", ".env"));
    assert!(!matches_pattern("a/.environment", ".env"));
    assert!(matches_pattern(".env", ".env"));
}

#[test]
fn empty_status_text_blocks_nothing() {
    let staged = get_staged_files("");
    assert_eq!(staged, Vec::<String>::new());
    assert_eq!(get_blocked_files(&staged), Vec::<String>::new());
    assert_eq!(get_blocked_files_with_patterns(&staged), Vec::new());
}

#[test]
fn directory_pattern_at_start_and_end() {
    assert!(matches_pattern("node_modules/x.js", "node_modules/"));
    assert!(matches_pattern("a/b/node_modules", "node_modules/"));
    assert!(!matches_pattern("fake_node_modules/x.js", "node_modules/"));
    assert!(!matches_pattern("node_modules_backup/x.js", "node_modules/"));
}

#[test]
fn directory_pattern_with_inner_slash_never_matches() {
    assert!(!matches_pattern("a/b/c", "a/b/"));
}

#[test]
fn substring_pattern_matches_anywhere() {
    assert!(matches_pattern("a/secretfile.txt", "secret"));
    assert!(matches_pattern("secret", "secret"));
    assert!(!matches_pattern("a/sec_ret.txt", "secret"));
}

#[test]
fn empty_pattern_is_a_substring_of_anything() {
    assert!(matches_pattern("a/b.txt", ""));
    assert!(matches_pattern("", ""));
}

#[test]
fn hidden_directory_segment_is_not_a_basename_match() {
    // `.env` as a directory: the hidden-file rule looks at the basename only.
    assert!(!matches_pattern(".env/config.json", ".env"));
}

#[test]
fn default_table_contents_and_order() {
    let pats = default_blocked_patterns();
    assert_eq!(
        pats,
        strings(&[
            ".idea/",
            "node_modules/",
            "target/",
            ".env",
            ".DS_Store",
            ".vscode/"
        ])
    );
}

#[test]
fn default_table_blocks_the_usual_suspects() {
    assert!(is_file_blocked("x/.idea/workspace.xml"));
    assert!(is_file_blocked("target/debug/app"));
    assert!(is_file_blocked("src/target/app"));
    assert!(is_file_blocked("a/b/.DS_Store"));
    assert!(is_file_blocked(".vscode/settings.json"));
    assert!(!is_file_blocked("src/main.rs"));
    assert!(!is_file_blocked("docs/targeting.md"));
}

#[test]
fn first_matching_pattern_wins_in_the_report() {
    // `.idea/` precedes `.env` in the table; a path under `.idea/` whose
    // basename is `.env` is reported with the directory pattern.
    let staged = strings(&[".idea/.env"]);
    let detailed = get_blocked_files_with_patterns(&staged);
    assert_eq!(detailed, vec![(".idea/.env".to_string(), ".idea/".to_string())]);
}

#[test]
fn blocking_preserves_order_and_duplicates() {
    let staged = strings(&[".env", "src/a.rs", "target/x", ".env"]);
    let blocked = get_blocked_files(&staged);
    assert_eq!(blocked, strings(&[".env", "target/x", ".env"]));
}

#[test]
fn blocking_twice_gives_the_same_set() {
    let staged = strings(&["a/.env", "b.rs", "node_modules/c.js"]);
    let once = get_blocked_files(&staged);
    let twice = get_blocked_files(&once);
    assert_eq!(once, twice);
}

#[test]
fn short_and_malformed_lines_are_skipped() {
    let staged = get_staged_files("M\n\nab\nM  ok.rs\n");
    assert_eq!(staged, strings(&["ok.rs"]));
}

#[test]
fn carriage_returns_are_chomped() {
    let staged = get_staged_files("M  a.rs\r\nA  b.rs\r\n");
    assert_eq!(staged, strings(&["a.rs", "b.rs"]));
}

#[test]
fn missing_final_newline_still_counts() {
    let staged = get_staged_files("A  last.rs");
    assert_eq!(staged, strings(&["last.rs"]));
}

#[test]
fn duplicate_status_lines_are_kept() {
    let staged = get_staged_files("M  a.rs\nM  a.rs\n");
    assert_eq!(staged, strings(&["a.rs", "a.rs"]));
}

#[test]
fn any_nonspace_index_status_counts_as_staged() {
    let staged = get_staged_files("A  new.rs\nD  gone.rs\nR  moved.rs\n?? untracked\n");
    assert_eq!(staged, strings(&["new.rs", "gone.rs", "moved.rs", "untracked"]));
}

#[test]
fn empty_path_after_status_columns_is_kept() {
    let staged = get_staged_files("M  \n");
    assert_eq!(staged, strings(&[""]));
}

#[test]
fn https_remote_detection() {
    assert!(is_https_remote("https://github.com/acme/widget.git"));
    assert!(!is_https_remote("git@github.com:acme/widget.git"));
    assert!(!is_https_remote("http://github.com/acme/widget.git"));
    assert!(!is_https_remote("https:/"));
    assert!(!is_https_remote(""));
}
