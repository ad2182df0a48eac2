use contextzip::verify_cmd::{
    failure_message, inline_test_summary, inline_test_verdict, missing_tests_line, VerifyFailure,
};

#[test]
fn summary_lines() {
    assert_eq!(inline_test_summary(&vec![]), "No inline tests found.");
    assert_eq!(inline_test_summary(&vec![true, false, true]), "2/3 tests passed");
}

#[test]
fn verdict_variants() {
    assert_eq!(inline_test_verdict(&vec![true], 0, true), Ok(()));
    assert_eq!(inline_test_verdict(&vec![true], 2, false), Ok(()));
    assert_eq!(inline_test_verdict(&vec![true], 2, true), Err(VerifyFailure::MissingTests { filters: 2 }));
    assert_eq!(inline_test_verdict(&vec![true, false, false], 0, true), Err(VerifyFailure::TestsFailed { failed: 2 }));
    assert_eq!(inline_test_verdict(&vec![], 0, false), Ok(()));
}

#[test]
fn failure_messages() {
    assert_eq!(
        failure_message(VerifyFailure::MissingTests { filters: 3 }),
        "3 filter(s) have no inline tests (use --require-all in CI)"
    );
    assert_eq!(failure_message(VerifyFailure::TestsFailed { failed: 1 }), "1 test(s) failed");
    assert_eq!(missing_tests_line("git"), "MISSING tests for filter: git");
}

// A filter name that matches nothing yields no outcomes and no filter without
// tests; the verdict on such a run is a pass.
#[test]
fn run_with_filter_targeting_no_filters_succeeds() {
    let r = inline_test_verdict(&vec![], 0, false);
    assert!(r.is_ok(), "expected Ok for missing filter, got: {:?}", r);
}

#[test]
fn run_with_filter_and_require_all_does_not_panic_on_unknown_filter() {
    let r = inline_test_verdict(&vec![], 0, true);
    assert!(r.is_ok());
}

// Without `require_all`, the only failure a run can end in is failed tests.
#[test]
fn run_default_invocation_returns_ok_or_test_failure_only() {
    for outcomes in [vec![], vec![true], vec![false, true], vec![false, false]] {
        for missing in [0usize, 4] {
            let r = inline_test_verdict(&outcomes, missing, false);
            assert!(matches!(r, Ok(()) | Err(VerifyFailure::TestsFailed { .. })));
        }
    }
}
