//! Tests of the specification parser.

use lang_tester::parser::{parse, SpecError, TestGroup, TestSpecification};
use lang_tester::status::{parse_status, render_status, Status};

fn name_of(g: &TestGroup) -> String {
    g.name.iter().collect()
}

fn pattern_lines(p: &lang_tester::pattern::Pattern) -> Vec<String> {
    p.lines.iter().map(|l| l.iter().collect::<String>()).collect()
}

#[test]
fn empty_text_parses_to_zero_groups() {
    let ts = parse("").unwrap();
    assert_eq!(ts.groups.len(), 0);
    let ts = parse("   \n\t\n  ").unwrap();
    assert_eq!(ts.groups.len(), 0);
}

#[test]
fn one_group_with_all_subtests() {
    let ts = parse("Compiler:\n  status: success\n  stdout: Hello\n  stderr:\n    oops\n")
        .unwrap();
    assert_eq!(ts.groups.len(), 1);
    let g = &ts.groups[0];
    assert_eq!(name_of(g), "Compiler");
    assert_eq!(g.status, Some(Status::Success));
    assert_eq!(pattern_lines(g.stdout.as_ref().unwrap()), vec!["Hello"]);
    assert_eq!(pattern_lines(g.stderr.as_ref().unwrap()), vec!["oops"]);
}

#[test]
fn group_header_can_name_several_groups() {
    let ts = parse("A, B:\n  status: failure\n").unwrap();
    assert_eq!(ts.groups.len(), 2);
    assert_eq!(name_of(&ts.groups[0]), "A");
    assert_eq!(name_of(&ts.groups[1]), "B");
    assert_eq!(ts.groups[0].status, Some(Status::Failure));
    assert_eq!(ts.groups[1].status, Some(Status::Failure));
}

#[test]
fn absent_subtests_stay_unchecked() {
    let ts = parse("A:\n  status: success\n").unwrap();
    let g = &ts.groups[0];
    assert!(g.stdout.is_none());
    assert!(g.stderr.is_none());
}

#[test]
fn status_accepts_signed_exit_codes() {
    let ts = parse("A:\n  status: 42\n").unwrap();
    assert_eq!(ts.groups[0].status, Some(Status::Code(42)));
    let ts = parse("A:\n  status: -13\n").unwrap();
    assert_eq!(ts.groups[0].status, Some(Status::Code(-13)));
    let ts = parse("A:\n  status: +7\n").unwrap();
    assert_eq!(ts.groups[0].status, Some(Status::Code(7)));
    let ts = parse("A:\n  status: 9223372036854775807\n").unwrap();
    assert_eq!(ts.groups[0].status, Some(Status::Code(i64::MAX)));
    let ts = parse("A:\n  status: -9223372036854775808\n").unwrap();
    assert_eq!(ts.groups[0].status, Some(Status::Code(i64::MIN)));
}

#[test]
fn status_rejects_codes_out_of_range() {
    assert_eq!(
        parse("A:\n  status: 9223372036854775808\n").unwrap_err(),
        SpecError::BadStatusValue { line: 1 }
    );
    assert_eq!(
        parse("A:\n  status: -9223372036854775809\n").unwrap_err(),
        SpecError::BadStatusValue { line: 1 }
    );
    assert_eq!(
        parse("A:\n  status: 99999999999999999999\n").unwrap_err(),
        SpecError::BadStatusValue { line: 1 }
    );
}

#[test]
fn bad_status_value_is_fatal() {
    assert_eq!(
        parse("A:\n  status: maybe\n").unwrap_err(),
        SpecError::BadStatusValue { line: 1 }
    );
    assert_eq!(
        parse("A:\n  status:\n").unwrap_err(),
        SpecError::BadStatusValue { line: 1 }
    );
    assert_eq!(
        parse("A:\n  status: 1 2\n").unwrap_err(),
        SpecError::BadStatusValue { line: 1 }
    );
}

#[test]
fn stdout_takes_inline_value_and_block() {
    let ts = parse("A:\n  stdout: x\n    y\n    z\n").unwrap();
    assert_eq!(
        pattern_lines(ts.groups[0].stdout.as_ref().unwrap()),
        vec!["x", "y", "z"]
    );
}

#[test]
fn stdout_block_keeps_interior_blank_lines() {
    let ts = parse("A:\n  stderr:\n    x\n\n    y\n").unwrap();
    assert_eq!(
        pattern_lines(ts.groups[0].stderr.as_ref().unwrap()),
        vec!["x", "", "y"]
    );
}

#[test]
fn bare_stdout_expects_empty_output() {
    let ts = parse("A:\n  stdout:\n").unwrap();
    let p = ts.groups[0].stdout.as_ref().unwrap();
    assert_eq!(p.lines.len(), 0);
}

#[test]
fn unknown_key_is_fatal() {
    assert_eq!(
        parse("A:\n  stdin: x\n").unwrap_err(),
        SpecError::UnknownKey { line: 1 }
    );
}

#[test]
fn missing_colon_on_subtest_is_fatal() {
    assert_eq!(
        parse("A:\n  status success\n").unwrap_err(),
        SpecError::MalformedSubTest { line: 1 }
    );
}

#[test]
fn header_without_colon_is_fatal() {
    assert_eq!(
        parse("Compiler\n").unwrap_err(),
        SpecError::MalformedGroup { line: 0 }
    );
}

#[test]
fn blank_group_name_is_fatal() {
    assert_eq!(parse(":\n").unwrap_err(), SpecError::MalformedGroup { line: 0 });
    assert_eq!(
        parse("A, :\n").unwrap_err(),
        SpecError::MalformedGroup { line: 0 }
    );
}

#[test]
fn duplicate_key_is_fatal() {
    assert_eq!(
        parse("A:\n  status: success\n  status: failure\n").unwrap_err(),
        SpecError::DuplicateKey { line: 2 }
    );
    assert_eq!(
        parse("A:\n  stdout: x\n  stdout: y\n").unwrap_err(),
        SpecError::DuplicateKey { line: 2 }
    );
}

#[test]
fn duplicate_group_name_is_fatal() {
    assert_eq!(
        parse("A:\n  status: success\nA:\n  status: failure\n").unwrap_err(),
        SpecError::DuplicateGroup { line: 2 }
    );
    assert_eq!(
        parse("A, A:\n").unwrap_err(),
        SpecError::DuplicateGroup { line: 0 }
    );
}

#[test]
fn inconsistent_indentation_is_fatal() {
    // The unit is two spaces; three spaces fit no level.
    assert_eq!(
        parse("A:\n  status: success\n   stderr:\n").unwrap_err(),
        SpecError::Indentation { line: 2 }
    );
    // A header line indented between levels.
    assert_eq!(
        parse("A:\n  status: success\n B:\n").unwrap_err(),
        SpecError::Indentation { line: 2 }
    );
}

#[test]
fn consecutive_wildcards_in_block_are_fatal() {
    assert_eq!(
        parse("A:\n  stdout:\n    ...\n    ...\n").unwrap_err(),
        SpecError::ConsecutiveWildcards { line: 1 }
    );
}

#[test]
fn blank_lines_between_groups_are_ignored() {
    let ts = parse("A:\n  status: success\n\n\nB:\n  status: failure\n").unwrap();
    assert_eq!(ts.groups.len(), 2);
    assert_eq!(name_of(&ts.groups[0]), "A");
    assert_eq!(name_of(&ts.groups[1]), "B");
}

#[test]
fn find_group_by_label() {
    let ts = parse("A:\n  status: success\nB:\n  status: failure\n").unwrap();
    assert_eq!(ts.len(), 2);
    assert_eq!(ts.find_group("A"), Some(0));
    assert_eq!(ts.find_group("B"), Some(1));
    assert_eq!(ts.find_group("C"), None);
}

fn render(ts: &TestSpecification) -> String {
    let mut out = String::new();
    for g in &ts.groups {
        out.push_str(&name_of(g));
        out.push_str(":\n");
        if let Some(st) = &g.status {
            out.push_str("  status: ");
            out.push_str(&render_status(st).iter().collect::<String>());
            out.push('\n');
        }
        if let Some(p) = &g.stdout {
            out.push_str("  stdout:\n");
            for l in pattern_lines(p) {
                out.push_str("    ");
                out.push_str(&l);
                out.push('\n');
            }
        }
        if let Some(p) = &g.stderr {
            out.push_str("  stderr:\n");
            for l in pattern_lines(p) {
                out.push_str("    ");
                out.push_str(&l);
                out.push('\n');
            }
        }
    }
    out
}

fn equivalent(a: &TestSpecification, b: &TestSpecification) -> bool {
    a.groups.len() == b.groups.len()
        && a.groups.iter().zip(b.groups.iter()).all(|(x, y)| {
            x.name == y.name
                && x.status == y.status
                && x.stdout.as_ref().map(|p| p.lines.clone())
                    == y.stdout.as_ref().map(|p| p.lines.clone())
                && x.stderr.as_ref().map(|p| p.lines.clone())
                    == y.stderr.as_ref().map(|p| p.lines.clone())
        })
}

#[test]
fn status_render_then_parse_is_identity() {
    let cases = [
        Status::Success,
        Status::Failure,
        Status::Code(0),
        Status::Code(42),
        Status::Code(-1),
        Status::Code(i64::MAX),
        Status::Code(i64::MIN),
    ];
    for st in cases {
        let rendered = render_status(&st);
        assert_eq!(parse_status(&rendered), Some(st));
    }
    assert_eq!(
        render_status(&Status::Code(-42)).iter().collect::<String>(),
        "-42"
    );
    assert_eq!(
        render_status(&Status::Success).iter().collect::<String>(),
        "success"
    );
}

#[test]
fn reparsing_a_rendered_specification_is_stable() {
    let texts = [
        "Compiler:\n  status: success\n  stderr:\n    warning: unused\n    ...\nRun-time:\n  status: 3\n  stdout: Hello\n",
        "A:\n  stdout:\n",
        "A, B:\n  status: failure\n  stderr:\n    x\n\n    ...y\n",
        "",
    ];
    for t in texts {
        let once = parse(t).unwrap();
        let rendered = render(&once);
        let twice = parse(&rendered).unwrap();
        assert!(equivalent(&once, &twice), "not stable for {:?}", t);
        // And rendering again is a fixed point outright.
        assert_eq!(rendered, render(&twice));
    }
}
