use headwater_check::declaration::{self, PhaseA, Problem, Unusable, NO_REPORT};
use headwater_check::facets::Entry;
use headwater_check::finding::Severity;
use headwater_check::identifier::{Identifier, NOT_A_WORD, NO_FACET, UNREADABLE_SCHEME};
use headwater_check::identity::{self, Identity};
use headwater_check::index::{Defect, Reported};
use headwater_check::instance::Outcome;
use headwater_check::scope::Relation;

fn reported(defect: Defect) -> Reported {
    Reported {
        path: "docs/spec/03-anonymous.md".to_string(),
        line: 2,
        column: 1,
        said: "this document declares no usable identifier".to_string(),
        defect,
    }
}

#[test]
fn a_document_that_cannot_be_named_is_one_finding_that_states_what_it_costs() {
    for defect in [Defect::NoIdentifier { kind: "design_spec".to_string() }, Defect::NotAScalar] {
        let bare = identity::finding(&reported(defect.clone()), false, "id").expect("a finding");
        assert_eq!(bare.severity, Severity::Error, "{bare:#?}");
        assert!(bare.patch.is_none(), "{bare:#?}");
        assert_eq!(bare.line, 2, "{bare:#?}");
        assert!(bare.remediation.contains("`id` key"), "{bare:#?}");
        assert!(!bare.message.contains("relations"), "{bare:#?}");

        let laden = identity::finding(&reported(defect), true, "id").expect("a finding");
        assert!(
            laden.message.contains("every entry of its `relations:` block is lost"),
            "{laden:#?}"
        );
        assert_eq!(laden.remediation, bare.remediation);
    }

    assert!(identity::finding(
        &reported(Defect::Duplicate {
            id: "SPEC-FIX-first".to_string(),
            other: "docs/spec/00-first.md".to_string(),
            other_line: 0,
            other_column: 0,
        }),
        false,
        "id"
    )
    .is_none());
}

#[test]
fn identity_the_repair_names_the_configured_identifier_key() {
    let found = identity::finding(&reported(Defect::NotAScalar), false, "identifier").expect("a finding");
    assert!(found.remediation.contains("`identifier` key"), "{found:#?}");
}

fn block(problem: Problem, said: &str) -> declaration::Reported {
    declaration::Reported {
        path: "docs/spec/00-first.md".to_string(),
        line: 7,
        column: 3,
        problem,
        said: said.to_string(),
    }
}

#[test]
fn each_way_a_relations_block_fails_sends_its_author_to_a_different_line() {
    let cases = [
        (Problem::BlockNotAMapping("a sequence".to_string()), "write `relations:` as a mapping"),
        (
            Problem::UnknownRelation { name: "invented_relation".to_string() },
            "in place of `invented_relation`",
        ),
        (
            Problem::EntryNotUsable { relation: "traces_to".to_string(), found: "a sequence".to_string() },
            "write each entry of `traces_to`",
        ),
        (
            Problem::NoTarget { relation: "cites_evidence".to_string() },
            "give this entry of `cites_evidence` a `to:`",
        ),
        (
            Problem::RepeatedTriple {
                relation: "governs".to_string(),
                target: "docs/spec/01-second.md".to_string(),
            },
            "delete one of the two entries of `governs`",
        ),
    ];

    let mut seen: Vec<String> = Vec::new();
    for (problem, expected) in cases {
        let found = declaration::finding(&block(problem, "the build's sentence")).expect("a finding");
        assert!(found.remediation.contains(expected), "{found:#?}");
        assert_eq!(found.severity, Severity::Error, "{found:#?}");
        assert!(found.patch.is_none(), "{found:#?}");
        assert_eq!(found.line, 7, "{found:#?}");
        assert!(!seen.contains(&found.remediation), "two variants share one repair: {}", found.remediation);
        seen.push(found.remediation);
    }

    assert!(declaration::finding(&block(Problem::SourceHasNoIdentifier, "no source")).is_none());
}

#[test]
fn the_message_is_the_sentence_the_graph_build_already_wrote() {
    let text = "`invented_relation` is not a relation this taxonomy declares";
    let found = declaration::finding(&block(
        Problem::UnknownRelation { name: "invented_relation".to_string() },
        text,
    ))
    .expect("a finding");
    assert_eq!(found.message, text);
}

fn relations() -> Vec<Relation> {
    vec![Relation {
        name: "governs".to_string(),
        from: vec!["decision".to_string()],
        to: vec!["spec".to_string()],
        family: None,
        lifecycle_sensitive: false,
        sets_target_state: None,
    }]
}

fn lineage() -> Vec<(String, Vec<String>)> {
    vec![("adr".to_string(), vec!["decision".to_string()])]
}

#[test]
fn a_kind_at_no_end_of_any_relation_generates_neither_instance() {
    let unusable = Unusable::over(relations(), lineage());
    assert!(unusable.instantiates("decision"));
    assert!(unusable.instantiates("adr"));
    assert!(unusable.instantiates("spec"));
    assert!(!unusable.instantiates("note"));
    let identity = Identity::over(relations(), lineage(), "id");
    assert!(identity.instantiates("adr"));
    assert!(!identity.instantiates("note"));
}

#[test]
fn every_problem_of_a_block_but_the_lost_source_is_one_finding_in_order() {
    let trouble = PhaseA {
        relations: vec![
            block(Problem::NoTarget { relation: "governs".to_string() }, "first"),
            block(Problem::SourceHasNoIdentifier, "lost"),
            block(Problem::UnknownRelation { name: "x".to_string() }, "second"),
        ],
        identity: Vec::new(),
    };
    let unusable = Unusable::over(relations(), lineage());
    let Outcome::Failed(findings) = unusable.evaluate(Some(&trouble)) else { panic!("a failure") };
    let said: Vec<&str> = findings.iter().map(|f| f.message.as_str()).collect();
    assert_eq!(said, vec!["first", "second"]);
    assert!(matches!(unusable.evaluate(None), Outcome::Skipped(r) if r == NO_REPORT));
    let clean = PhaseA { relations: Vec::new(), identity: Vec::new() };
    assert!(matches!(unusable.evaluate(Some(&clean)), Outcome::Passed));
}

#[test]
fn a_lost_source_with_no_defect_reported_beside_it_is_reported_on_its_own() {
    let identity = Identity::over(relations(), lineage(), "id");
    let lone = PhaseA { relations: vec![block(Problem::SourceHasNoIdentifier, "no source")], identity: Vec::new() };
    let Outcome::Failed(findings) = identity.evaluate("docs/x.md", Some(&lone)) else { panic!("a failure") };
    assert_eq!(findings.len(), 1);
    assert_eq!((findings[0].line, findings[0].column), (0, 0));
    assert_eq!(findings[0].path, "docs/x.md");
    assert_eq!(findings[0].message, "no source");

    let both = PhaseA {
        relations: vec![block(Problem::SourceHasNoIdentifier, "no source")],
        identity: vec![reported(Defect::NotAScalar)],
    };
    let Outcome::Failed(findings) = identity.evaluate("docs/x.md", Some(&both)) else { panic!("a failure") };
    assert_eq!(findings.len(), 1);
    assert_eq!(
        findings[0].message,
        "this document declares no usable identifier, and every entry of its `relations:` block \
         is lost with it, because an edge is identified by its source"
    );
    let quiet = PhaseA { relations: Vec::new(), identity: Vec::new() };
    assert!(matches!(identity.evaluate("docs/x.md", Some(&quiet)), Outcome::Passed));
}

fn schemes() -> Identifier {
    Identifier::over(
        vec![
            ("decision".to_string(), "decision_id".to_string(), Ok("{namespace}-DR-{seq:04d}".to_string())),
            ("broken".to_string(), "bad".to_string(), Err("an unclosed placeholder".to_string())),
        ],
        "id",
    )
}

fn id_entry(text: Option<&str>) -> Vec<Entry> {
    vec![Entry {
        key: "id".to_string(),
        key_line: 2,
        key_column: 1,
        value_line: 2,
        value_column: 5,
        scalar: text.map(str::to_string),
        null: false,
        kind_name: "scalar".to_string(),
    }]
}

#[test]
fn an_identifier_is_read_trimmed_from_the_configured_key() {
    let s = schemes();
    assert!(s.instantiates("decision"));
    assert!(!s.instantiates("note"));
    let pending = s.read("decision", &id_entry(Some(" HW-DR-12 "))).expect("a reading").expect("an identifier");
    assert_eq!(pending.identifier, "HW-DR-12");
    assert_eq!(pending.scheme, "decision_id");
    assert_eq!((pending.line, pending.column), (2, 1));
    assert!(matches!(s.read("note", &id_entry(Some("x"))), Ok(None)));
    assert_eq!(s.read("broken", &id_entry(Some("x"))).err(), Some(UNREADABLE_SCHEME));
    assert_eq!(s.read("decision", &[]).err(), Some(NO_FACET));
    assert_eq!(s.read("decision", &id_entry(None)).err(), Some(NOT_A_WORD));
}

#[test]
fn a_refused_identifier_is_one_error_that_names_the_form() {
    let s = schemes();
    let pending = s.read("decision", &id_entry(Some("HW-DR-12"))).unwrap().unwrap();
    assert!(matches!(s.evaluate("docs/d.md", &pending, None), Outcome::Passed));
    let Outcome::Failed(findings) = s.evaluate("docs/d.md", &pending, Some("`seq` wants four digits")) else {
        panic!("a failure")
    };
    assert_eq!(findings.len(), 1);
    assert_eq!(
        findings[0].message,
        "`HW-DR-12` does not match `{namespace}-DR-{seq:04d}`, which scheme `decision_id` declares: `seq` wants four digits"
    );
    assert_eq!(findings[0].remediation, "write the identifier of docs/d.md in the form `{namespace}-DR-{seq:04d}`");
    assert_eq!((findings[0].line, findings[0].column), (2, 1));
}
