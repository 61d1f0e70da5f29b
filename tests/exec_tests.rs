use fast_format::exec::{
    collect_tool_result, create_batches, launch_failure, verbose_command, BatchResult, ExecError,
    MAX_BATCH_BYTES,
};

fn batch(success: bool) -> BatchResult {
    BatchResult {
        success,
        stdout: String::new(),
        stderr: String::new(),
        command: String::new(),
    }
}

#[test]
fn test_batching_by_bytes() {
    let files: Vec<String> = (0..450).map(|i| format!("file{}.txt", i)).collect();
    let file_refs: Vec<&str> = files.iter().map(|p| p.as_str()).collect();

    let batches = create_batches("echo", &[], &file_refs, MAX_BATCH_BYTES);

    assert_eq!(batches.len(), 1);
    assert_eq!(batches[0], file_refs);
}

#[test]
fn test_batching_splits_on_byte_limit() {
    let long_dir = "a".repeat(180);
    let files: Vec<String> = (0..1000).map(|i| format!("{}/file{}.txt", long_dir, i)).collect();
    let file_refs: Vec<&str> = files.iter().map(|p| p.as_str()).collect();

    let batches = create_batches("echo", &[], &file_refs, MAX_BATCH_BYTES);

    assert!(
        batches.len() > 1,
        "Expected multiple batches for long paths, got {}",
        batches.len()
    );
    let joined: Vec<&str> = batches.concat();
    assert_eq!(joined, file_refs);
}

#[test]
fn test_batching_includes_oversized_file() {
    let huge_path = "x".repeat(200_000);
    let file_refs: Vec<&str> = vec![huge_path.as_str()];

    let batches = create_batches("echo", &[], &file_refs, MAX_BATCH_BYTES);

    assert_eq!(batches.len(), 1);
    assert_eq!(batches[0], vec![huge_path.as_str()]);
}

#[test]
fn batches_stay_within_the_ceiling() {
    // "cmd" takes 4 bytes, "-x" 3: a base of 7. Each file "fN" takes 3.
    let files = ["f1", "f2", "f3", "f4", "f5"];
    let batches = create_batches("cmd", &["-x".to_string()], &files, 13);
    assert_eq!(batches, vec![vec!["f1", "f2"], vec!["f3", "f4"], vec!["f5"]]);
}

#[test]
fn exact_fit_stays_in_one_batch() {
    let files = ["f1", "f2"];
    let batches = create_batches("cmd", &["-x".to_string()], &files, 13);
    assert_eq!(batches, vec![vec!["f1", "f2"]]);
}

#[test]
fn oversized_file_between_small_ones_sits_alone() {
    let big = "b".repeat(50);
    let files = ["a", big.as_str(), "c"];
    let batches = create_batches("cmd", &[], &files, 20);
    assert_eq!(batches, vec![vec!["a"], vec![big.as_str()], vec!["c"]]);
}

#[test]
fn ceiling_of_one_byte_gives_one_file_per_batch() {
    let files = ["a", "b", "c"];
    let batches = create_batches("cmd", &[], &files, 1);
    assert_eq!(batches, vec![vec!["a"], vec!["b"], vec!["c"]]);
}

#[test]
fn multibyte_characters_count_as_their_utf8_length() {
    // "é" is two bytes: "é" takes 3, "cmd" 4; ceiling 10 fits two of them.
    let files = ["é", "é", "é"];
    let batches = create_batches("cmd", &[], &files, 10);
    assert_eq!(batches, vec![vec!["é", "é"], vec!["é"]]);
}

#[test]
fn no_files_give_no_batches() {
    let files: [&str; 0] = [];
    let batches = create_batches("cmd", &[], &files, MAX_BATCH_BYTES);
    assert!(batches.is_empty());
}

#[test]
fn test_batch_result_contains_command_when_verbose() {
    let args = vec!["--flag".to_string()];
    let cmd = verbose_command(true, "echo", &args, &["myfile.rs"]);
    assert!(cmd.contains("echo"));
    assert!(cmd.contains("--flag"));
    assert!(cmd.contains("myfile.rs"));
}

#[test]
fn test_batch_result_empty_command_when_not_verbose() {
    let args = vec!["--flag".to_string()];
    let cmd = verbose_command(false, "echo", &args, &["myfile.rs"]);
    assert!(cmd.is_empty());
}

#[test]
fn verbose_command_joins_with_spaces() {
    let args = vec!["-a".to_string(), "-b".to_string()];
    let cmd = verbose_command(true, "fmt", &args, &["x.rs", "y.rs"]);
    assert_eq!(cmd, "fmt -a -b x.rs y.rs");
}

#[test]
fn verbose_command_without_args_keeps_both_separators() {
    let cmd = verbose_command(true, "echo", &[], &["hello"]);
    assert_eq!(cmd, "echo  hello");
}

#[test]
fn tool_succeeds_when_all_batches_succeed() {
    let r = collect_tool_result(vec![Ok(batch(true)), Ok(batch(true))]);
    let t = r.ok().unwrap();
    assert!(t.success);
    assert_eq!(t.batches.len(), 2);
}

#[test]
fn one_failed_batch_fails_the_tool() {
    let r = collect_tool_result(vec![Ok(batch(true)), Ok(batch(false)), Ok(batch(true))]);
    let t = r.ok().unwrap();
    assert!(!t.success);
    assert_eq!(t.batches.len(), 3);
    assert!(!t.batches[1].success);
}

#[test]
fn tool_with_no_batches_succeeds() {
    let t = collect_tool_result(vec![]).ok().unwrap();
    assert!(t.success);
    assert!(t.batches.is_empty());
}

#[test]
fn first_hard_error_is_returned() {
    let e1 = ExecError { command: "a".to_string(), message: "first".to_string() };
    let e2 = ExecError { command: "b".to_string(), message: "second".to_string() };
    let r = collect_tool_result(vec![Ok(batch(false)), Err(e1), Err(e2)]);
    match r {
        Err(e) => assert_eq!(e.message, "first"),
        Ok(_) => panic!("expected the first error"),
    }
}

#[test]
fn argument_list_too_long_is_a_soft_failure() {
    let r = launch_failure(
        false,
        "Argument list too long (os error 7)".to_string(),
        "echo",
        "echo x".to_string(),
    );
    let b = r.ok().unwrap();
    assert!(!b.success);
    assert!(b.stdout.is_empty());
    assert_eq!(b.stderr, "Argument list too long (os error 7)");
    assert_eq!(b.command, "echo x");
}

#[test]
fn invalid_input_is_a_soft_failure() {
    let r = launch_failure(true, "nul byte found".to_string(), "echo", String::new());
    assert!(r.is_ok());
}

#[test]
fn other_launch_failures_are_hard_errors() {
    let r = launch_failure(
        false,
        "No such file or directory (os error 2)".to_string(),
        "nonexistent_command_xyz",
        String::new(),
    );
    match r {
        Err(e) => {
            assert_eq!(e.command, "nonexistent_command_xyz");
            assert_eq!(e.message, "No such file or directory (os error 2)");
        }
        Ok(_) => panic!("expected a hard error"),
    }
}
