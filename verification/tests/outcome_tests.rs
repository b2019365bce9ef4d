//! Tests of status and output evaluation, including the end-to-end scenario.

use lang_tester::outcome::{check_group, check_output};
use lang_tester::parser::parse;
use lang_tester::pattern::Pattern;
use lang_tester::status::{check_status, Status};

#[test]
fn status_success_checks_the_success_flag() {
    assert!(check_status(&Status::Success, true, Some(0)));
    assert!(!check_status(&Status::Success, false, Some(1)));
    assert!(check_status(&Status::Failure, false, Some(1)));
    assert!(!check_status(&Status::Failure, true, Some(0)));
}

#[test]
fn status_code_checks_the_exit_code_exactly() {
    assert!(check_status(&Status::Code(3), false, Some(3)));
    assert!(!check_status(&Status::Code(3), false, Some(4)));
    assert!(!check_status(&Status::Code(3), false, None));
    assert!(check_status(&Status::Code(-1), false, Some(-1)));
}

#[test]
fn empty_pattern_demands_empty_output() {
    let p = Pattern::from_text("").unwrap();
    assert_eq!(p.lines.len(), 0);
    assert!(check_output(&p, ""));
    assert!(check_output(&p, "   \n \t\n"));
    assert!(!check_output(&p, "anything"));
}

#[test]
fn nonempty_pattern_goes_through_the_matcher() {
    let p = Pattern::from_text("a\n...\nd").unwrap();
    assert!(check_output(&p, "a\nb\nd"));
    assert!(!check_output(&p, "a\nb"));
}

#[test]
fn command_without_a_group_is_unchecked() {
    let ts = parse("Compiler:\n  status: success\n").unwrap();
    assert_eq!(ts.find_group("Run-time"), None);
}

#[test]
fn bare_stdout_fails_a_command_that_prints() {
    let ts = parse("A:\n  stdout:\n").unwrap();
    let g = &ts.groups[0];
    let bad = check_group(g, true, Some(0), "spurious output\n", "");
    assert_eq!(bad.stdout_pass, Some(false));
    assert!(!bad.passed());
    let good = check_group(g, true, Some(0), "  \n", "");
    assert_eq!(good.stdout_pass, Some(true));
    assert!(good.passed());
}

#[test]
fn end_to_end_compiler_and_runtime_scenario() {
    let text = "Compiler:\n  status: success\n  stderr:\n    warning: unused variable: `x`\n    ...unused_var.rs:12:9\n    ...\n\nRun-time:\n  status: success\n  stdout: Hello world\n";
    let ts = parse(text).unwrap();
    assert_eq!(ts.groups.len(), 2);

    // The compiler exits 0 and warns on stderr, with the location indented
    // somewhere after the warning and more diagnostics following.
    let compiler_stderr = "warning: unused variable: `x`\n --> unused_var.rs:12:9\n  |\n12 |     let x = 0;\n";
    let ci = ts.find_group("Compiler").unwrap();
    let c = check_group(&ts.groups[ci], true, Some(0), "", compiler_stderr);
    assert_eq!(c.status_pass, Some(true));
    assert_eq!(c.stderr_pass, Some(true));
    assert_eq!(c.stdout_pass, None);

    // The compiled program exits 0 and greets on stdout.
    let ri = ts.find_group("Run-time").unwrap();
    let r = check_group(&ts.groups[ri], true, Some(0), "Hello world\n", "");
    assert_eq!(r.status_pass, Some(true));
    assert_eq!(r.stdout_pass, Some(true));
    assert_eq!(r.stderr_pass, None);

    // Four passing sub-tests in all.
    let verdicts = [c.status_pass, c.stderr_pass, r.status_pass, r.stdout_pass];
    assert_eq!(verdicts.iter().filter(|v| **v == Some(true)).count(), 4);
}
