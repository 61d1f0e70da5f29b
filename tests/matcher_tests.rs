use fast_format::config::Tool;
use fast_format::matcher::{match_files, PatternError};

fn make_tool(name: &str, globs: &[&str], exclude: &[&str]) -> Tool {
    Tool {
        name: name.to_string(),
        includes: globs.iter().map(|s| s.to_string()).collect(),
        exclude: exclude.iter().map(|s| s.to_string()).collect(),
        cmd: "echo".to_string(),
        args: vec![],
        check_args: None,
    }
}

fn paths(list: &[&str]) -> Vec<String> {
    list.iter().map(|s| s.to_string()).collect()
}

#[test]
fn test_basic_matching() {
    let tools = vec![
        make_tool("rust", &["**/*.rs"], &[]),
        make_tool("markdown", &["**/*.md"], &[]),
    ];
    let files = paths(&["src/main.rs", "src/lib.rs", "README.md", "docs/guide.md"]);

    let results = match_files(&files, &tools).ok().unwrap();

    assert_eq!(results.len(), 2);
    assert_eq!(results[0].tool.name, "rust");
    assert_eq!(results[0].files.len(), 2);
    assert_eq!(results[1].tool.name, "markdown");
    assert_eq!(results[1].files.len(), 2);
}

#[test]
fn test_exclude_patterns() {
    let tools = vec![make_tool("rust", &["**/*.rs"], &["target/**"])];
    let files = paths(&["src/main.rs", "target/debug/build.rs"]);

    let results = match_files(&files, &tools).ok().unwrap();

    assert_eq!(results.len(), 1);
    assert_eq!(results[0].files.len(), 1);
    assert_eq!(results[0].files[0], "src/main.rs");
}

#[test]
fn test_first_match_wins() {
    let tools = vec![
        make_tool("first", &["**/*.rs"], &[]),
        make_tool("second", &["**/*.rs"], &[]),
    ];
    let files = paths(&["src/main.rs"]);

    let results = match_files(&files, &tools).ok().unwrap();

    assert_eq!(results.len(), 1);
    assert_eq!(results[0].tool.name, "first");
}

#[test]
fn test_no_matches() {
    let tools = vec![make_tool("rust", &["**/*.rs"], &[])];
    let files = paths(&["README.md"]);

    let results = match_files(&files, &tools).ok().unwrap();

    assert!(results.is_empty());
}

#[test]
fn overlapping_tools_route_to_first_declared() {
    let tools = vec![
        make_tool("a", &["**/*.rs"], &[]),
        make_tool("b", &["**/*.rs"], &[]),
    ];
    let files = paths(&["x.rs"]);

    let results = match_files(&files, &tools).ok().unwrap();

    assert_eq!(results.len(), 1);
    assert_eq!(results[0].tool.name, "a");
    assert_eq!(results[0].files, vec!["x.rs"]);
}

#[test]
fn reversing_tool_order_changes_the_claiming_tool() {
    let tools = vec![
        make_tool("b", &["**/*.rs"], &[]),
        make_tool("a", &["**/*.rs"], &[]),
    ];
    let files = paths(&["x.rs"]);

    let results = match_files(&files, &tools).ok().unwrap();

    assert_eq!(results.len(), 1);
    assert_eq!(results[0].tool.name, "b");
}

#[test]
fn exclude_keeps_only_sources_outside_target() {
    let tools = vec![make_tool("t", &["**/*.rs"], &["target/**"])];
    let files = paths(&["src/main.rs", "target/debug/build.rs"]);

    let results = match_files(&files, &tools).ok().unwrap();

    assert_eq!(results.len(), 1);
    assert_eq!(results[0].files, vec!["src/main.rs"]);
}

#[test]
fn routes_partition_the_files() {
    let tools = vec![
        make_tool("rust", &["**/*.rs"], &["vendor/**"]),
        make_tool("all", &["**/*"], &[]),
        make_tool("md", &["**/*.md"], &[]),
    ];
    let files = paths(&["a.rs", "vendor/b.rs", "c.md", "d.rs"]);

    let results = match_files(&files, &tools).ok().unwrap();

    assert_eq!(results.len(), 2);
    assert_eq!(results[0].tool.name, "rust");
    assert_eq!(results[0].files, vec!["a.rs", "d.rs"]);
    assert_eq!(results[1].tool.name, "all");
    assert_eq!(results[1].files, vec!["vendor/b.rs", "c.md"]);
    let total: usize = results.iter().map(|r| r.files.len()).sum();
    assert_eq!(total, files.len());
}

#[test]
fn unmatched_files_are_in_no_route() {
    let tools = vec![make_tool("rust", &["**/*.rs"], &[])];
    let files = paths(&["a.rs", "b.txt", "c.rs"]);

    let results = match_files(&files, &tools).ok().unwrap();

    assert_eq!(results.len(), 1);
    assert_eq!(results[0].files, vec!["a.rs", "c.rs"]);
}

#[test]
fn empty_file_list_gives_no_routes() {
    let tools = vec![make_tool("rust", &["**/*.rs"], &[])];
    let files: Vec<String> = vec![];

    let results = match_files(&files, &tools).ok().unwrap();

    assert!(results.is_empty());
}

#[test]
fn invalid_include_pattern_names_tool_and_pattern() {
    let tools = vec![
        make_tool("good", &["**/*.rs"], &[]),
        make_tool("bad", &["a[b"], &[]),
    ];
    let files = paths(&["x.rs"]);

    match match_files(&files, &tools) {
        Err(PatternError::InvalidGlob { tool, pattern }) => {
            assert_eq!(tool, "bad");
            assert_eq!(pattern, "a[b");
        }
        _ => panic!("expected an invalid glob error"),
    }
}

#[test]
fn invalid_exclude_pattern_is_reported() {
    let tools = vec![make_tool("t", &["**/*.rs"], &["{a,b"])];
    let files = paths(&["x.rs"]);

    match match_files(&files, &tools) {
        Err(PatternError::InvalidGlob { tool, pattern }) => {
            assert_eq!(tool, "t");
            assert_eq!(pattern, "{a,b");
        }
        _ => panic!("expected an invalid glob error"),
    }
}
