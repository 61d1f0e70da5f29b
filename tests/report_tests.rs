use fast_format::exec::{BatchResult, ExecError, ToolResult};
use fast_format::report::{
    cursor_movements, exit_code_from_outcome, has_details, missing_command, overall_success,
    pluralize_files, requests_stop, run_outcome, should_skip, shown_streams, sort_by_name,
    total_files, RunOutcome, ToolReport,
};

fn report(name: &str, count: usize, success: bool) -> ToolReport {
    ToolReport {
        name: name.to_string(),
        file_count: count,
        result: Ok(ToolResult {
            success,
            batches: vec![BatchResult {
                success,
                stdout: String::new(),
                stderr: String::new(),
                command: String::new(),
            }],
        }),
    }
}

fn names(v: &[ToolReport]) -> Vec<String> {
    v.iter().map(|r| r.name.clone()).collect()
}

#[test]
fn cursor_movement_counts_account_for_position() {
    assert_eq!(cursor_movements(0, 3), (3, 2));
    assert_eq!(cursor_movements(1, 3), (2, 1));
    assert_eq!(cursor_movements(2, 3), (1, 0));
    assert_eq!(cursor_movements(2, 2), (0, 0));
}

#[test]
fn exit_code_success_when_all_pass() {
    let outcome = RunOutcome { success: true, missing_executable: false };
    assert_eq!(exit_code_from_outcome(&outcome), 0);
}

#[test]
fn exit_code_missing_executable_uses_code_three() {
    let outcome = RunOutcome { success: false, missing_executable: true };
    assert_eq!(exit_code_from_outcome(&outcome), 3);
}

#[test]
fn exit_code_failure_without_missing_executable_uses_one() {
    let outcome = RunOutcome { success: false, missing_executable: false };
    assert_eq!(exit_code_from_outcome(&outcome), 1);
}

#[test]
fn run_outcome_convenience_builders_set_flags() {
    assert!(RunOutcome::success().success);
    assert!(RunOutcome::missing_executable().missing_executable);
    assert!(!RunOutcome::from_success(false).success);
}

#[test]
fn missing_command_reports_first_missing_route() {
    assert_eq!(missing_command(&[true, false, false]), Some(1));
    assert_eq!(missing_command(&[true, true]), None);
    assert_eq!(missing_command(&[]), None);
}

#[test]
fn missing_executable_outcome_fails_with_code_three() {
    let found = [false];
    assert_eq!(missing_command(&found), Some(0));
    let outcome = RunOutcome::missing_executable();
    assert!(!outcome.success);
    assert!(outcome.missing_executable);
    assert_eq!(exit_code_from_outcome(&outcome), 3);
}

#[test]
fn pluralize_files_by_count() {
    assert_eq!(pluralize_files(0), "files");
    assert_eq!(pluralize_files(1), "file");
    assert_eq!(pluralize_files(2), "files");
}

#[test]
fn failing_tool_fails_the_run_but_not_other_tools() {
    let reports = vec![report("fmt", 2, true), report("lint", 1, false)];
    assert!(!overall_success(&reports));
    assert!(matches!(&reports[0].result, Ok(t) if t.success));
    let outcome = RunOutcome::from_success(overall_success(&reports));
    assert_eq!(exit_code_from_outcome(&outcome), 1);
}

#[test]
fn all_tools_passing_make_a_successful_run() {
    let reports = vec![report("fmt", 2, true), report("lint", 1, true)];
    assert!(overall_success(&reports));
    assert!(overall_success(&[]));
}

#[test]
fn hard_error_fails_the_run() {
    let reports = vec![
        report("fmt", 2, true),
        ToolReport {
            name: "gone".to_string(),
            file_count: 1,
            result: Err(ExecError { command: "gone".to_string(), message: "x".to_string() }),
        },
    ];
    assert!(!overall_success(&reports));
}

#[test]
fn total_files_sums_counts() {
    let reports = vec![report("a", 2, true), report("b", 5, false)];
    assert_eq!(total_files(&reports), 7);
    assert_eq!(total_files(&[]), 0);
}

#[test]
fn reports_sort_by_name() {
    let sorted = sort_by_name(vec![
        report("prettier", 1, true),
        report("eslint", 1, true),
        report("rustfmt", 1, true),
        report("black", 1, true),
    ]);
    assert_eq!(names(&sorted), vec!["black", "eslint", "prettier", "rustfmt"]);
}

#[test]
fn completion_order_does_not_change_report_order() {
    let a = sort_by_name(vec![report("b", 1, true), report("a", 2, false), report("c", 3, true)]);
    let b = sort_by_name(vec![report("c", 3, true), report("b", 1, true), report("a", 2, false)]);
    assert_eq!(names(&a), names(&b));
    assert_eq!(names(&a), vec!["a", "b", "c"]);
    assert_eq!(a[0].file_count, 2);
}

#[test]
fn sort_orders_by_bytes_and_keeps_equal_names_in_order() {
    let sorted = sort_by_name(vec![
        report("b", 1, true),
        report("B", 2, true),
        report("b", 3, true),
        report("ab", 4, true),
        report("a", 5, true),
    ]);
    assert_eq!(names(&sorted), vec!["B", "a", "ab", "b", "b"]);
    assert_eq!(sorted[3].file_count, 1);
    assert_eq!(sorted[4].file_count, 3);
}

#[test]
fn ensure_required_commands_reports_missing_executables() {
    // One route whose command lookup failed.
    let found = vec![false];
    let missing = missing_command(&found);
    assert!(missing.is_some());
    let outcome = RunOutcome::missing_executable();
    assert!(outcome.missing_executable);
}

#[test]
fn run_outcome_is_the_and_of_tool_successes() {
    let ok = run_outcome(&[report("a", 1, true), report("b", 1, true)]);
    assert!(ok.success && !ok.missing_executable);
    let failed = run_outcome(&[report("a", 1, true), report("b", 1, false)]);
    assert!(!failed.success && !failed.missing_executable);
    assert_eq!(exit_code_from_outcome(&failed), 1);
}

#[test]
fn fail_fast_skips_only_after_a_stop_request() {
    assert!(should_skip(true, true));
    assert!(!should_skip(true, false));
    assert!(!should_skip(false, true));
    assert!(requests_stop(&report("a", 1, false).result));
    assert!(!requests_stop(&report("a", 1, true).result));
    let hard: Result<ToolResult, ExecError> =
        Err(ExecError { command: "x".to_string(), message: "y".to_string() });
    assert!(!requests_stop(&hard));
}

fn batch_of(success: bool, stdout: &str, stderr: &str) -> BatchResult {
    BatchResult {
        success,
        stdout: stdout.to_string(),
        stderr: stderr.to_string(),
        command: String::new(),
    }
}

#[test]
fn stderr_shown_on_failure_stdout_only_when_verbose() {
    let failed = batch_of(false, "out", "err");
    assert_eq!(shown_streams(false, &failed), (false, true));
    assert_eq!(shown_streams(true, &failed), (true, true));
    let passed = batch_of(true, "out", "err");
    assert_eq!(shown_streams(false, &passed), (false, false));
    assert_eq!(shown_streams(true, &passed), (true, true));
    let quiet = batch_of(false, "", "");
    assert_eq!(shown_streams(true, &quiet), (false, false));
}

#[test]
fn details_hold_failed_or_talkative_batches() {
    assert!(has_details(&batch_of(false, "", "")));
    assert!(has_details(&batch_of(true, "x", "")));
    assert!(has_details(&batch_of(true, "", "y")));
    assert!(!has_details(&batch_of(true, "", "")));
}

#[test]
fn sort_keeps_input_order_of_equal_names() {
    let sorted = sort_by_name(vec![report("x", 1, true), report("a", 9, true), report("x", 2, true)]);
    assert_eq!(names(&sorted), vec!["a", "x", "x"]);
    assert_eq!(sorted[1].file_count, 1);
    assert_eq!(sorted[2].file_count, 2);
}
