//! The verdict on a run of the inline filter tests.

use vstd::prelude::*;
use crate::text::{dec, push_dec, push_str, string_of};

verus! {

/// Why a run of inline tests failed.
#[derive(Debug, Clone, Copy, PartialEq, Eq, Structural)]
pub enum VerifyFailure {
    /// Tests were required for every filter, and this many filters have none.
    MissingTests { filters: usize },
    /// This many tests failed.
    TestsFailed { failed: usize },
}

/// How many of the outcomes passed.
pub open spec fn count_passed(ps: Seq<bool>) -> nat
    decreases ps.len(),
{
    if ps.len() == 0 {
        0
    } else {
        count_passed(ps.drop_last()) + if ps.last() {
            1nat
        } else {
            0nat
        }
    }
}

/// The line that sums up a run.
pub open spec fn summary_line(passed: nat, total: nat) -> Seq<char> {
    if total == 0 {
        "No inline tests found."@
    } else {
        dec(passed) + "/"@ + dec(total) + " tests passed"@
    }
}

/// Whether a run passes: it fails when some filter lacks tests while every
/// filter must have them, or else when some test failed.
pub open spec fn verdict(passed: nat, total: nat, missing: nat, require_all: bool) -> Result<(), VerifyFailure> {
    if require_all && missing > 0 {
        Err(VerifyFailure::MissingTests { filters: missing as usize })
    } else if total > passed {
        Err(VerifyFailure::TestsFailed { failed: (total - passed) as usize })
    } else {
        Ok(())
    }
}

/// The message of a failed run.
pub open spec fn failure_text(f: VerifyFailure) -> Seq<char> {
    match f {
        VerifyFailure::MissingTests { filters } => dec(filters as nat)
            + " filter(s) have no inline tests (use --require-all in CI)"@,
        VerifyFailure::TestsFailed { failed } => dec(failed as nat) + " test(s) failed"@,
    }
}

/// Passing outcomes are never more than the outcomes.
pub proof fn lemma_count_passed_bound(ps: Seq<bool>)
    ensures
        count_passed(ps) <= ps.len(),
    decreases ps.len(),
{
    if ps.len() > 0 {
        lemma_count_passed_bound(ps.drop_last());
    }
}

/// How many of the outcomes passed.
fn passed_count(ps: &Vec<bool>) -> (n: usize)
    ensures
        n == count_passed(ps@),
{
    let mut n: usize = 0;
    let mut i: usize = 0;
    while i < ps.len()
        invariant
            0 <= i <= ps.len(),
            n == count_passed(ps@.take(i as int)),
            n <= i,
        decreases ps.len() - i,
    {
        assert(ps@.take(i + 1).drop_last() =~= ps@.take(i as int));
        if ps[i] {
            n += 1;
        }
        i += 1;
    }
    assert(ps@.take(ps.len() as int) =~= ps@);
    n
}

/// The line that sums up a run whose outcomes are `passed`.
pub fn inline_test_summary(passed: &Vec<bool>) -> (s: String)
    ensures
        s@ == summary_line(count_passed(passed@), passed.len() as nat),
{
    let mut out: Vec<char> = Vec::new();
    if passed.len() == 0 {
        push_str(&mut out, "No inline tests found.");
    } else {
        let p = passed_count(passed);
        push_dec(&mut out, p);
        push_str(&mut out, "/");
        push_dec(&mut out, passed.len());
        push_str(&mut out, " tests passed");
    }
    string_of(&out)
}

/// The verdict on a run whose outcomes are `passed`, with `missing` filters
/// that have no tests.
pub fn inline_test_verdict(passed: &Vec<bool>, missing: usize, require_all: bool) -> (r: Result<(), VerifyFailure>)
    ensures
        r == verdict(count_passed(passed@), passed.len() as nat, missing as nat, require_all),
{
    if require_all && missing > 0 {
        return Err(VerifyFailure::MissingTests { filters: missing });
    }
    let p = passed_count(passed);
    proof {
        lemma_count_passed_bound(passed@);
    }
    if passed.len() > p {
        Err(VerifyFailure::TestsFailed { failed: passed.len() - p })
    } else {
        Ok(())
    }
}

/// The message of a failed run.
pub fn failure_message(f: VerifyFailure) -> (s: String)
    ensures
        s@ == failure_text(f),
{
    let mut out: Vec<char> = Vec::new();
    match f {
        VerifyFailure::MissingTests { filters } => {
            push_dec(&mut out, filters);
            push_str(&mut out, " filter(s) have no inline tests (use --require-all in CI)");
        },
        VerifyFailure::TestsFailed { failed } => {
            push_dec(&mut out, failed);
            push_str(&mut out, " test(s) failed");
        },
    }
    string_of(&out)
}

/// The line that names a filter without tests.
pub fn missing_tests_line(name: &str) -> (s: String)
    ensures
        s@ == "MISSING tests for filter: "@ + name@,
{
    let mut out: Vec<char> = Vec::new();
    push_str(&mut out, "MISSING tests for filter: ");
    push_str(&mut out, name);
    string_of(&out)
}

/// Law: a run passes exactly when every test passed and, where tests are
/// required for every filter, none lacks them.
pub proof fn law_verdict_passes_iff(ps: Seq<bool>, missing: nat, require_all: bool)
    ensures
        verdict(count_passed(ps), ps.len(), missing, require_all) is Ok <==> (count_passed(ps)
            == ps.len() && (!require_all || missing == 0)),
{
    lemma_count_passed_bound(ps);
}

} // verus!
