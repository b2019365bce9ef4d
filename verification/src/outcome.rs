//! Evaluation of captured command results against a test group: the pure
//! core of the orchestrator. The embedding application runs the commands and
//! captures exit status, stdout and stderr; this module decides pass or fail
//! for each sub-test that is present.

use vstd::prelude::*;

use crate::fuzzy::{fuzzy_matches, normalized_lines};
use crate::parser::TestGroup;
use crate::pattern::Pattern;
use crate::status::{status_meets, check_status};
use crate::text::views;

verus! {

/// Whether captured text meets an output expectation: a pattern with no
/// lines demands exactly empty output (text that trims to nothing), and any
/// other pattern is handed to the fuzzy matcher.
pub open spec fn output_meets(p: Seq<Seq<char>>, t: Seq<char>) -> bool {
    if p.len() == 0 {
        normalized_lines(t).len() == 0
    } else {
        fuzzy_matches(p, t)
    }
}

/// The verdicts for one group against one command's captured results. A
/// `None` verdict means the sub-test was absent and so not checked; absent
/// is distinct from present-and-expecting-empty.
#[derive(Clone, Copy, Debug, PartialEq, Eq, Structural)]
pub struct GroupOutcome {
    /// Verdict of the `status` sub-test, if present.
    pub status_pass: Option<bool>,
    /// Verdict of the `stdout` sub-test, if present.
    pub stdout_pass: Option<bool>,
    /// Verdict of the `stderr` sub-test, if present.
    pub stderr_pass: Option<bool>,
}

impl GroupOutcome {
    /// Whether every present sub-test passed.
    pub open spec fn all_passed(&self) -> bool {
        self.status_pass != Some(false) && self.stdout_pass != Some(false) && self.stderr_pass
            != Some(false)
    }

    /// Whether every present sub-test passed.
    pub fn passed(&self) -> (r: bool)
        ensures
            r == self.all_passed(),
    {
        (match self.status_pass {
            Option::Some(b) => b,
            Option::None => true,
        }) && (match self.stdout_pass {
            Option::Some(b) => b,
            Option::None => true,
        }) && (match self.stderr_pass {
            Option::Some(b) => b,
            Option::None => true,
        })
    }
}

/// Whether the captured text meets the pattern.
pub fn check_output(p: &Pattern, actual: &str) -> (r: bool)
    requires
        p.wf(),
    ensures
        r == output_meets(p@, actual@),
{
    if p.len() == 0 {
        let lines = crate::fuzzy::normalize_text(actual);
        proof {
            assert(lines@.len() == views(lines@).len());
        }
        lines.len() == 0
    } else {
        p.matches_text(actual)
    }
}

/// Evaluates one group against the captured results of its command:
/// `success` is the platform's notion of the command having succeeded,
/// `code` its exit code where the platform reports one, and `stdout` and
/// `stderr` the captured streams. Each present sub-test gets a verdict;
/// absent sub-tests stay unchecked.
pub fn check_group(
    group: &TestGroup,
    success: bool,
    code: Option<i64>,
    stdout: &str,
    stderr: &str,
) -> (r: GroupOutcome)
    requires
        group.wf(),
    ensures
        r.status_pass == (match group@.status {
            Option::Some(st) => Some(status_meets(st, success, code)),
            Option::None => None::<bool>,
        }),
        r.stdout_pass == (match group@.stdout {
            Option::Some(p) => Some(output_meets(p, stdout@)),
            Option::None => None::<bool>,
        }),
        r.stderr_pass == (match group@.stderr {
            Option::Some(p) => Some(output_meets(p, stderr@)),
            Option::None => None::<bool>,
        }),
{
    let status_pass = match &group.status {
        Option::Some(st) => Some(check_status(st, success, code)),
        Option::None => None,
    };
    let stdout_pass = match &group.stdout {
        Option::Some(p) => Some(check_output(p, stdout)),
        Option::None => None,
    };
    let stderr_pass = match &group.stderr {
        Option::Some(p) => Some(check_output(p, stderr)),
        Option::None => None,
    };
    GroupOutcome { status_pass, stdout_pass, stderr_pass }
}

} // verus!
