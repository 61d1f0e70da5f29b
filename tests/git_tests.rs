use fast_format::git::prepend_prefix;

#[test]
fn test_prepend_prefix_empty() {
    let files = vec!["file.txt".to_string(), "dir/other.txt".to_string()];
    let result = prepend_prefix(files.clone(), "");
    assert_eq!(result, files);
}

#[test]
fn test_prepend_prefix_with_subdir() {
    let files = vec!["file.txt".to_string(), "sub/other.txt".to_string()];
    let result = prepend_prefix(files, "src/");
    assert_eq!(result, vec!["src/file.txt".to_string(), "src/sub/other.txt".to_string()]);
}

#[test]
fn prefix_without_trailing_separator_gets_one() {
    let files = vec!["a.txt".to_string()];
    let result = prepend_prefix(files, "src/utils");
    assert_eq!(result, vec!["src/utils/a.txt".to_string()]);
}

#[test]
fn absolute_path_is_kept() {
    let files = vec!["/etc/x".to_string()];
    let result = prepend_prefix(files, "src/");
    assert_eq!(result, vec!["/etc/x".to_string()]);
}

use fast_format::git::{listed_paths, status_paths};

#[test]
fn listed_paths_skip_blank_lines() {
    assert_eq!(listed_paths("a.txt\n\nsub/b.rs\n"), vec!["a.txt", "sub/b.rs"]);
    assert_eq!(listed_paths("one"), vec!["one"]);
    assert!(listed_paths("").is_empty());
    assert!(listed_paths("\n\n").is_empty());
}

#[test]
fn listed_paths_drop_carriage_return_before_line_feed() {
    assert_eq!(listed_paths("a.txt\r\nb.txt\r"), vec!["a.txt", "b.txt\r"]);
}

#[test]
fn status_paths_keep_changed_and_untracked() {
    let out = " M src/main.rs\n?? notes.txt\nA  new.rs\n";
    assert_eq!(status_paths(out), vec!["new.rs", "notes.txt", "src/main.rs"]);
}

#[test]
fn status_paths_skip_deleted_entries() {
    let out = " D gone.rs\nD  staged_gone.rs\nM  kept.rs\n";
    assert_eq!(status_paths(out), vec!["kept.rs"]);
}

#[test]
fn status_paths_take_new_path_of_rename() {
    let out = "R  old name.rs -> new name.rs\n";
    assert_eq!(status_paths(out), vec!["new name.rs"]);
}

#[test]
fn status_paths_dedup_and_order_by_component() {
    let out = "?? a-b\n M a/b\n M a/b\n";
    assert_eq!(status_paths(out), vec!["a/b", "a-b"]);
}

#[test]
fn status_paths_skip_short_lines_and_trim() {
    let out = "M\n\n M   spaced.rs  \n";
    assert_eq!(status_paths(out), vec!["spaced.rs"]);
}
