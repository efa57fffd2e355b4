//! How findings are merged into a verdict.
use hazard_scan::aggregate::{aggregate, ranks_before, same_site, Verdict};
use hazard_scan::rules::{Finding, RuleId, Severity};
use hazard_scan::syntax::Span;

fn finding(rule: RuleId, severity: Severity, start: u32, end: u32, block: usize) -> Finding {
    Finding {
        rule,
        severity,
        location: Span::new(start, end),
        message: rule.message(),
        evidence: vec![0, block],
    }
}

#[test]
fn no_finding_is_clean() {
    assert_eq!(aggregate(vec![]), Verdict::Clean);
}

#[test]
fn one_finding_is_buggy() {
    let verdict = aggregate(vec![finding(RuleId::TaskLeak, Severity::Medium, 3, 9, 1)]);
    assert_eq!(verdict, Verdict::Buggy(vec![finding(RuleId::TaskLeak, Severity::Medium, 3, 9, 1)]));
}

#[test]
fn repeated_findings_are_dropped_and_the_rest_ordered() {
    let a = || finding(RuleId::TaskLeak, Severity::Medium, 300, 380, 1);
    let b = || finding(RuleId::LockPoisoning, Severity::High, 500, 580, 2);
    // The rule and the place of `a` again, with other evidence.
    let c = || finding(RuleId::TaskLeak, Severity::Medium, 300, 380, 3);
    // The place and the weight of `a`, but another rule.
    let d = || finding(RuleId::UncheckedUnwrap, Severity::Medium, 300, 380, 4);
    let e = || finding(RuleId::LockPoisoning, Severity::High, 200, 280, 5);
    let f = || finding(RuleId::UncheckedUnwrap, Severity::Low, 100, 180, 6);
    let g = || finding(RuleId::TaskLeak, Severity::Medium, 300, 340, 7);
    let verdict = aggregate(vec![a(), b(), c(), d(), e(), f(), g(), b()]);
    assert_eq!(verdict, Verdict::Buggy(vec![e(), b(), g(), a(), d(), f()]));
}

#[test]
fn findings_that_weigh_the_same_at_one_place_keep_their_order() {
    let leak = || finding(RuleId::TaskLeak, Severity::Medium, 7, 9, 1);
    let unwrap = || finding(RuleId::UncheckedUnwrap, Severity::Medium, 7, 9, 1);
    assert_eq!(aggregate(vec![leak(), unwrap()]), Verdict::Buggy(vec![leak(), unwrap()]));
    assert_eq!(aggregate(vec![unwrap(), leak()]), Verdict::Buggy(vec![unwrap(), leak()]));
}

#[test]
fn the_order_of_two_findings() {
    let high_late = finding(RuleId::LockPoisoning, Severity::High, 9, 10, 1);
    let medium_early = finding(RuleId::TaskLeak, Severity::Medium, 1, 2, 1);
    let medium_late = finding(RuleId::TaskLeak, Severity::Medium, 1, 3, 1);
    assert!(ranks_before(&high_late, &medium_early));
    assert!(!ranks_before(&medium_early, &high_late));
    assert!(ranks_before(&medium_early, &medium_late));
    assert!(!ranks_before(&medium_late, &medium_early));
    assert!(!ranks_before(&medium_early, &medium_early));
    assert!(same_site(&medium_early, &medium_early));
    assert!(!same_site(&medium_early, &medium_late));
    assert!(!same_site(&medium_early, &finding(RuleId::UncheckedUnwrap, Severity::Medium, 1, 2, 1)));
    assert!(same_site(&medium_early, &finding(RuleId::TaskLeak, Severity::High, 1, 2, 8)));
}

#[test]
fn spans_are_ordered_by_start_and_then_by_end() {
    assert!(Span::new(1, 9).before(Span::new(2, 3)));
    assert!(Span::new(2, 3).before(Span::new(2, 4)));
    assert!(!Span::new(2, 4).before(Span::new(2, 4)));
    assert!(!Span::new(2, 4).before(Span::new(2, 3)));
    assert!(!Span::new(3, 0).before(Span::new(2, 9)));
}
