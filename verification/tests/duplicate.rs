use headwater_check::duplicate::{Duplicate, NO_REPORT, RULE};
use headwater_check::finding::Severity;
use headwater_check::index::{Defect, Reported};
use headwater_check::instance::Outcome;

fn collision() -> Reported {
    Reported {
        path: "docs/spec/04-twin.md".to_string(),
        line: 2,
        column: 1,
        defect: Defect::Duplicate {
            id: "SPEC-FIX-first".to_string(),
            other: "docs/spec/00-first.md".to_string(),
            other_line: 3,
            other_column: 1,
        },
        said: String::new(),
    }
}

#[test]
fn one_collision_reports_in_both_files_and_names_both() {
    let found = Duplicate::over("id").findings(&collision());
    assert_eq!(found.len(), 2, "{found:#?}");

    let paths: Vec<&str> = found.iter().map(|f| f.path.as_str()).collect();
    assert_eq!(paths, vec!["docs/spec/04-twin.md", "docs/spec/00-first.md"]);
    assert_eq!(found[0].line, 2, "{found:#?}");
    assert_eq!(found[1].line, 3, "{found:#?}");

    for finding in &found {
        assert_eq!(finding.severity, Severity::Error, "{finding:#?}");
        assert!(!finding.fixable(), "{finding:#?}");
        assert!(finding.message.contains("docs/spec/00-first.md"));
        assert!(finding.message.contains("docs/spec/04-twin.md"));
        assert!(finding.message.contains("`SPEC-FIX-first`"));
    }
    assert_eq!(found[0].message, found[1].message);
}

#[test]
fn duplicate_the_repair_names_the_configured_identifier_key() {
    let found = Duplicate::over("identifier").findings(&collision());
    assert!(found[0].remediation.contains("change the `identifier` of"), "{:#?}", found[0]);
}

#[test]
fn a_defect_of_one_document_is_not_this_rule() {
    for defect in [Defect::NoIdentifier { kind: "design_spec".to_string() }, Defect::NotAScalar] {
        let reported = Reported { path: "docs/spec/03-anonymous.md".to_string(), line: 2, column: 1, defect, said: String::new() };
        assert!(Duplicate::over("id").findings(&reported).is_empty());
    }
}

#[test]
fn a_corpus_with_no_report_skips_and_one_with_no_collision_passes() {
    assert!(matches!(Duplicate::over("id").evaluate(None), Outcome::Skipped(r) if r == NO_REPORT));
    let quiet = vec![Reported { path: "docs/a.md".to_string(), line: 0, column: 0, defect: Defect::NotAScalar, said: String::new() }];
    assert!(matches!(Duplicate::over("id").evaluate(Some(&quiet)), Outcome::Passed));
}

#[test]
fn every_collision_of_the_report_is_two_findings_in_order() {
    let report = vec![collision(), Reported { path: "docs/b.md".to_string(), line: 1, column: 1, defect: Defect::NotAScalar, said: String::new() }, collision()];
    let Outcome::Failed(found) = Duplicate::over("id").evaluate(Some(&report)) else {
        panic!("findings");
    };
    assert_eq!(found.len(), 4);
    assert!(found.iter().all(|f| f.rule == RULE));
    assert_eq!(
        found[0].message,
        "`SPEC-FIX-first` is claimed by docs/spec/00-first.md and by docs/spec/04-twin.md, and an identifier \
         names one document. A target that names it resolves to two, so neither document is reachable by it"
    );
    assert_eq!(
        found[0].remediation,
        "change the `id` of one of the two documents, and repoint every relation that names `SPEC-FIX-first` at the document it meant"
    );
}
