use headwater_check::change::Prior;
use headwater_check::finding::Severity;
use headwater_check::instance::Outcome;
use headwater_check::promotion::{Promoted, RULE};

#[test]
fn a_warrant_moved_from_asserted_to_accepted_is_one_info_finding_at_the_warrant() {
    let facets = Vec::new();
    let prior = Prior::Committed { digest: "abc", facets: &facets };
    let outcome = Promoted.evaluate("docs/a.md", Some(&prior), Some("asserted"), Some("accepted"), 7, 5);
    let Outcome::Failed(findings) = outcome else { panic!("a finding") };
    assert_eq!(findings.len(), 1);
    let f = &findings[0];
    assert_eq!((f.rule, f.severity, f.line, f.column), (RULE, Severity::Info, 7, 5));
    assert_eq!(f.message, "the warrant moved from `asserted` to `accepted` in this change, which is a promotion");
    assert!(f.remediation.starts_with("nothing, for one."));
    assert!(f.patch.is_none());
}

#[test]
fn an_added_document_or_any_other_movement_is_no_promotion() {
    let facets = Vec::new();
    let prior = Prior::Committed { digest: "abc", facets: &facets };
    assert!(Promoted.instantiates("anything"));
    assert!(matches!(Promoted.evaluate("a.md", Some(&Prior::Added), Some("asserted"), Some("accepted"), 1, 1), Outcome::Passed));
    assert!(matches!(Promoted.evaluate("a.md", None, Some("asserted"), Some("accepted"), 1, 1), Outcome::Passed));
    assert!(matches!(Promoted.evaluate("a.md", Some(&prior), Some("accepted"), Some("accepted"), 1, 1), Outcome::Passed));
    assert!(matches!(Promoted.evaluate("a.md", Some(&prior), Some("asserted"), Some("asserted"), 1, 1), Outcome::Passed));
    assert!(matches!(Promoted.evaluate("a.md", Some(&prior), None, Some("accepted"), 1, 1), Outcome::Passed));
}
