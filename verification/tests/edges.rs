use headwater_check::basis::{Basis, NO_WARRANT, RULE as BASIS};
use headwater_check::context::Date;
use headwater_check::dependency::{
    Dependency, NOT_ADMITTED, NO_DOCUMENT, RULE as DEPENDENCY, SOURCE_UNDECLARED,
    TARGET_NOT_A_STATE,
};
use headwater_check::endpoint::{Endpoints, NO_HALF, NO_RELATION, RULE as ENDPOINT};
use headwater_check::facets::Entry;
use headwater_check::finding::Severity;
use headwater_check::initial_dependency::{InitialDependency, RULE as INITIAL};
use headwater_check::instance::Outcome;
use headwater_check::lifecycle::{Facet, FacetValue, LifecycleRegime};
use headwater_check::participation::{
    Expectation, Participation, NO_CLOCK, NO_ORIGIN_DATE, NO_RELATION as UNNAMED,
    RULE as PARTICIPATION,
};
use headwater_check::scope::{
    descends_from, Direction, Document, EdgeView, End, EndView, Half, Neighbour,
    NeighbourhoodView, Relation, Target,
};

fn strings(v: &[&str]) -> Vec<String> {
    v.iter().map(|s| s.to_string()).collect()
}

fn lineage() -> Vec<(String, Vec<String>)> {
    vec![
        ("decision".to_string(), Vec::new()),
        ("adr".to_string(), strings(&["decision"])),
        ("change".to_string(), Vec::new()),
        ("note".to_string(), Vec::new()),
    ]
}

fn relation(name: &str, from: &[&str], to: &[&str], sensitive: bool, sets: Option<&str>) -> Relation {
    Relation {
        name: name.to_string(),
        from: strings(from),
        to: strings(to),
        family: None,
        lifecycle_sensitive: sensitive,
        sets_target_state: sets.map(str::to_string),
    }
}

fn document(id: &str, path: &str, kind: &str) -> Document {
    Document { id: id.to_string(), path: path.to_string(), kind: kind.to_string() }
}

fn half(name: &str, declared: &str, source: Document, target: Target, direction: Direction) -> Half {
    Half {
        name: name.to_string(),
        declared: declared.to_string(),
        source,
        target,
        direction,
        line: 6,
        column: 3,
    }
}

#[test]
fn a_kind_descends_from_itself_and_from_what_it_extends() {
    let l = lineage();
    assert!(descends_from(&l, "adr", "adr"));
    assert!(descends_from(&l, "adr", "decision"));
    assert!(!descends_from(&l, "decision", "adr"));
    assert!(!descends_from(&l, "note", "decision"));
}

fn endpoints() -> Endpoints {
    Endpoints::over(
        vec![
            relation("supersedes", &["decision"], &["decision"], false, None),
            relation("cites", &["decision"], &[], false, None),
        ],
        lineage(),
    )
}

#[test]
fn a_relation_that_names_one_end_generates_no_endpoint_instance() {
    assert!(endpoints().instantiates("supersedes"));
    assert!(!endpoints().instantiates("cites"));
}

#[test]
fn an_end_whose_kind_descends_from_a_permitted_one_passes() {
    let view = EdgeView {
        declared: Some(half(
            "supersedes",
            "supersedes",
            document("D-2", "docs/d2.md", "decision"),
            Target::Document(document("A-1", "docs/a1.md", "adr")),
            Direction::AsDeclared,
        )),
        inverse: None,
        ends: None,
    };
    assert!(matches!(endpoints().evaluate(&view), Outcome::Passed));
}

#[test]
fn an_end_the_relation_does_not_permit_is_one_error_at_the_half() {
    let view = EdgeView {
        declared: Some(half(
            "supersedes",
            "supersedes",
            document("D-2", "docs/d2.md", "decision"),
            Target::Document(document("N-1", "docs/n1.md", "note")),
            Direction::AsDeclared,
        )),
        inverse: None,
        ends: None,
    };
    let Outcome::Failed(findings) = endpoints().evaluate(&view) else { panic!("a failure") };
    assert_eq!(findings.len(), 1);
    let f = &findings[0];
    assert_eq!((f.rule, f.severity, f.line, f.column), (ENDPOINT, Severity::Error, 6, 3));
    assert_eq!(f.path, "docs/d2.md");
    assert_eq!(
        f.message,
        "`supersedes` declares `to: [decision]`, and `N-1` at that end has the kind `note`"
    );
    assert_eq!(
        f.remediation,
        "declare this relation between kinds `supersedes` permits, or widen its `to` in the \
         taxonomy; the document at that end is docs/n1.md"
    );
}

#[test]
fn an_inverse_half_puts_its_writer_at_the_target_end() {
    let view = EdgeView {
        declared: None,
        inverse: Some(half(
            "superseded_by",
            "supersedes",
            document("N-1", "docs/n1.md", "note"),
            Target::Document(document("C-1", "docs/c1.md", "change")),
            Direction::Inverse,
        )),
        ends: None,
    };
    let Outcome::Failed(findings) = endpoints().evaluate(&view) else { panic!("a failure") };
    assert_eq!(findings.len(), 2);
    assert_eq!(
        findings[0].message,
        "`supersedes` declares `from: [decision]`, and `C-1` at that end has the kind `change`"
    );
    assert_eq!(
        findings[1].message,
        "`supersedes` declares `to: [decision]`, and `N-1` at that end has the kind `note`"
    );
    assert!(findings.iter().all(|f| f.path == "docs/n1.md"));
}

#[test]
fn a_pair_that_is_not_one_is_a_visible_skip() {
    let none = EdgeView { declared: None, inverse: None, ends: None };
    assert!(matches!(endpoints().evaluate(&none), Outcome::Skipped(r) if r == NO_HALF));
    let anchor = EdgeView {
        declared: Some(half(
            "supersedes",
            "supersedes",
            document("D-2", "docs/d2.md", "decision"),
            Target::Elsewhere,
            Direction::AsDeclared,
        )),
        inverse: None,
        ends: None,
    };
    assert!(matches!(endpoints().evaluate(&anchor), Outcome::Skipped(r) if r == NO_RELATION));
    let unknown = EdgeView {
        declared: Some(half(
            "mentions",
            "mentions",
            document("D-2", "docs/d2.md", "decision"),
            Target::Document(document("N-1", "docs/n1.md", "note")),
            Direction::AsDeclared,
        )),
        inverse: None,
        ends: None,
    };
    assert!(matches!(endpoints().evaluate(&unknown), Outcome::Skipped(r) if r == NO_RELATION));
}

fn value(value: &str, role: &str) -> FacetValue {
    FacetValue { value: value.to_string(), role: Some(role.to_string()) }
}

fn vocabulary() -> Vec<Facet> {
    vec![Facet {
        name: "status".to_string(),
        role: Some("state".to_string()),
        values: vec![
            value("draft", "initial"),
            value("current", "live"),
            value("superseded", "terminal-retained"),
            value("deprecated", "terminal-retained"),
            value("discharged", "terminal-retained"),
        ],
    }]
}

fn narrow() -> LifecycleRegime {
    LifecycleRegime {
        name: "narrow".to_string(),
        initial: "draft".to_string(),
        transitions: vec![
            ("draft".to_string(), strings(&["current", "deprecated"])),
            ("current".to_string(), strings(&["superseded", "deprecated"])),
        ],
    }
}

fn dependency() -> Dependency {
    Dependency::over(
        vec![
            relation("depends_on", &[], &[], true, None),
            relation("supersedes", &[], &[], true, Some("superseded")),
            relation("cites", &[], &[], false, None),
        ],
        vocabulary(),
        vec![("decision".to_string(), Some(narrow())), ("note".to_string(), None)],
    )
}

fn status(text: &str) -> Vec<Entry> {
    vec![Entry {
        key: "status".to_string(),
        key_line: 2,
        key_column: 1,
        value_line: 2,
        value_column: 9,
        scalar: Some(text.to_string()),
        null: false,
        kind_name: "scalar".to_string(),
    }]
}

fn end(id: &str, path: &str, kind: &str, facets: Option<Vec<Entry>>) -> EndView {
    EndView { id: id.to_string(), path: path.to_string(), kind: kind.to_string(), facets }
}

fn edge(name: &str, source: Option<&str>, target_kind: &str, target: Option<&str>) -> EdgeView {
    EdgeView {
        declared: Some(half(
            name,
            name,
            document("D-1", "docs/d1.md", "decision"),
            Target::Document(document("D-9", "docs/d9.md", target_kind)),
            Direction::AsDeclared,
        )),
        inverse: None,
        ends: Some((
            end("D-1", "docs/d1.md", "decision", source.map(status)),
            end("D-9", "docs/d9.md", target_kind, target.map(status)),
        )),
    }
}

#[test]
fn a_relation_nobody_marked_generates_no_dependency_instance() {
    assert!(dependency().instantiates("depends_on"));
    assert!(!dependency().instantiates("cites"));
    let bare = Dependency::over(vec![relation("depends_on", &[], &[], true, None)], Vec::new(), Vec::new());
    assert!(!bare.instantiates("depends_on"));
}

#[test]
fn a_live_document_resting_on_a_retired_one_is_one_warning() {
    let outcome = dependency().evaluate(&edge("depends_on", Some("current"), "decision", Some("deprecated")));
    let Outcome::Failed(findings) = outcome else { panic!("a failure") };
    assert_eq!(findings.len(), 1);
    let f = &findings[0];
    assert_eq!((f.rule, f.severity, f.line, f.column), (DEPENDENCY, Severity::Warn, 6, 3));
    assert_eq!(
        f.message,
        "`D-1` stands at `current` and declares `depends_on` to `D-9`, which stands at the \
         terminal state `deprecated`: the taxonomy declares this relation lifecycle-sensitive, \
         so a live document does not rest on a retired one through it"
    );
    assert_eq!(
        f.remediation,
        "point `depends_on` in docs/d1.md at the document that replaced docs/d9.md, or retire \
         docs/d1.md on its own terms if it still means what the retired one said"
    );
}

#[test]
fn what_is_not_a_live_document_on_a_retired_one_passes() {
    let d = dependency();
    assert!(matches!(d.evaluate(&edge("depends_on", Some("draft"), "decision", Some("deprecated"))), Outcome::Passed));
    assert!(matches!(d.evaluate(&edge("depends_on", Some("current"), "decision", Some("current"))), Outcome::Passed));
    // The edge that put the target where it stands records the retirement.
    assert!(matches!(d.evaluate(&edge("supersedes", Some("current"), "decision", Some("superseded"))), Outcome::Passed));
}

#[test]
fn the_readings_another_rule_owns_are_skips() {
    let d = dependency();
    assert!(matches!(
        d.evaluate(&edge("depends_on", Some("current"), "decision", Some("discharged"))),
        Outcome::Skipped(r) if r == NOT_ADMITTED
    ));
    // A kind that binds no regime admits whatever the vocabulary holds.
    assert!(matches!(
        d.evaluate(&edge("depends_on", Some("current"), "note", Some("discharged"))),
        Outcome::Failed(_)
    ));
    assert!(matches!(
        d.evaluate(&edge("depends_on", Some("current"), "decision", Some("retired"))),
        Outcome::Skipped(r) if r == TARGET_NOT_A_STATE
    ));
    let mut undeclared = edge("depends_on", Some("current"), "decision", Some("deprecated"));
    if let Some((source, _)) = undeclared.ends.as_mut() {
        source.facets = Some(Vec::new());
    }
    assert!(matches!(d.evaluate(&undeclared), Outcome::Skipped(r) if r == SOURCE_UNDECLARED));
    assert!(matches!(
        d.evaluate(&edge("depends_on", None, "decision", Some("deprecated"))),
        Outcome::Skipped(r) if r == NO_DOCUMENT
    ));
}

fn expectation(relation: &str) -> Expectation {
    Expectation {
        id: "EXP-1".to_string(),
        relation: relation.to_string(),
        to_kind: Some("change".to_string()),
        since_role: "created".to_string(),
        within_days: Some(30),
        severity: Some(Severity::Warn),
        when: vec![("status".to_string(), "current".to_string())],
        rationale: Some("a decision nobody implements is a wish".to_string()),
    }
}

fn participation(relation: &str) -> Participation {
    Participation::over(
        vec![("decision".to_string(), vec![expectation(relation)]), ("note".to_string(), Vec::new())],
        &[
            ("implements".to_string(), "implements".to_string(), Direction::AsDeclared),
            ("implemented_by".to_string(), "implements".to_string(), Direction::Inverse),
        ],
        &[Facet { name: "created".to_string(), role: Some("created".to_string()), values: Vec::new() }],
        lineage(),
    )
}

fn front(status: &str, created: Option<&str>) -> Vec<Entry> {
    let mut v = vec![Entry {
        key: "status".to_string(),
        key_line: 2,
        key_column: 1,
        value_line: 2,
        value_column: 9,
        scalar: Some(status.to_string()),
        null: false,
        kind_name: "scalar".to_string(),
    }];
    if let Some(date) = created {
        v.push(Entry {
            key: "created".to_string(),
            key_line: 4,
            key_column: 1,
            value_line: 4,
            value_column: 10,
            scalar: Some(date.to_string()),
            null: false,
            kind_name: "scalar".to_string(),
        });
    }
    v
}

fn neighbourhood(facets: Vec<Entry>, neighbours: Vec<Neighbour>, now: Option<&str>) -> NeighbourhoodView {
    NeighbourhoodView {
        kind: "decision".to_string(),
        path: "docs/d.md".to_string(),
        facets,
        neighbours,
        now: now.map(|d| Date::parse(d).expect("a date")),
    }
}

#[test]
fn a_kind_with_no_expectation_generates_no_participation_instance() {
    assert!(participation("implemented_by").instantiates("decision"));
    assert!(!participation("implemented_by").instantiates("note"));
}

#[test]
fn a_window_that_closed_with_the_relation_undeclared_is_one_finding_at_the_origin() {
    let view = neighbourhood(front("current", Some("2026-01-01")), Vec::new(), Some("2026-03-01"));
    let Outcome::Failed(findings) = participation("implemented_by").evaluate(&view) else {
        panic!("a failure")
    };
    assert_eq!(findings.len(), 1);
    let f = &findings[0];
    assert_eq!((f.rule, f.severity, f.line, f.column), (PARTICIPATION, Severity::Warn, 4, 1));
    assert_eq!(f.path, "docs/d.md");
    assert_eq!(
        f.message,
        "`EXP-1`: 59 days since `created`, and this `decision` reaches no `implements` to a \
         `change` inside the 30 days the taxonomy allows"
    );
    assert_eq!(
        f.remediation,
        "declare `implements` to a `change` under `relations:` in docs/d.md, or record why it \
         is not owed: a decision nobody implements is a wish"
    );
}

#[test]
fn a_neighbour_of_the_right_relation_end_and_kind_meets_the_expectation() {
    let met = vec![Neighbour { relation: "implements".to_string(), end: End::Target, kind: "change".to_string() }];
    let view = neighbourhood(front("current", Some("2026-01-01")), met, Some("2026-03-01"));
    assert!(matches!(participation("implemented_by").evaluate(&view), Outcome::Passed));
    let wrong_end = vec![Neighbour { relation: "implements".to_string(), end: End::Source, kind: "change".to_string() }];
    let view = neighbourhood(front("current", Some("2026-01-01")), wrong_end, Some("2026-03-01"));
    assert!(matches!(participation("implemented_by").evaluate(&view), Outcome::Failed(_)));
}

#[test]
fn an_open_window_or_a_document_it_does_not_apply_to_owes_nothing() {
    let open = neighbourhood(front("current", Some("2026-01-01")), Vec::new(), Some("2026-01-31"));
    assert!(matches!(participation("implemented_by").evaluate(&open), Outcome::Passed));
    let draft = neighbourhood(front("draft", Some("2026-01-01")), Vec::new(), Some("2026-03-01"));
    assert!(matches!(participation("implemented_by").evaluate(&draft), Outcome::Passed));
}

#[test]
fn a_declaration_that_does_not_read_is_a_skip_with_its_reason() {
    let view = neighbourhood(front("current", Some("2026-01-01")), Vec::new(), None);
    assert!(matches!(participation("implemented_by").evaluate(&view), Outcome::Skipped(r) if r == NO_CLOCK));
    let view = neighbourhood(front("current", Some("2026-01-01")), Vec::new(), Some("2026-03-01"));
    assert!(matches!(participation("realised_by").evaluate(&view), Outcome::Skipped(r) if r == UNNAMED));
    let view = neighbourhood(front("current", Some("soon")), Vec::new(), Some("2026-03-01"));
    assert!(matches!(participation("implemented_by").evaluate(&view), Outcome::Skipped(r) if r == NO_ORIGIN_DATE));
}

fn initial() -> InitialDependency {
    InitialDependency::over(
        vec![
            relation("depends_on", &[], &[], false, None),
            relation("supersedes", &[], &[], true, Some("superseded")),
        ],
        vocabulary(),
        vec![("decision".to_string(), Some(narrow()))],
    )
}

#[test]
fn every_declared_relation_generates_an_initial_instance_where_a_state_facet_is_declared() {
    assert!(initial().instantiates("depends_on"));
    assert!(initial().instantiates("supersedes"));
    assert!(!initial().instantiates("cites"));
}

#[test]
fn a_live_document_resting_on_a_draft_is_one_warning_at_the_half() {
    let outcome = initial().evaluate(&edge("depends_on", Some("current"), "decision", Some("draft")));
    let Outcome::Failed(findings) = outcome else { panic!("a failure") };
    assert_eq!(findings.len(), 1);
    let f = &findings[0];
    assert_eq!((f.rule, f.severity, f.line, f.column), (INITIAL, Severity::Warn, 6, 3));
    assert_eq!(
        f.message,
        "`D-1` stands at `current` and writes `depends_on` to `D-9`, which stands at the initial \
         state `draft`: nothing has promoted that document, so a live document does not rest on it"
    );
    assert_eq!(
        f.remediation,
        "promote docs/d9.md once it is settled, point `depends_on` in docs/d1.md at a document \
         that stands, or move docs/d1.md back to its initial state until the target is settled"
    );
}

#[test]
fn a_half_written_from_each_end_is_read_from_each_writer() {
    let mut view = edge("depends_on", Some("draft"), "decision", Some("current"));
    view.inverse = Some(half(
        "required_by",
        "depends_on",
        document("D-9", "docs/d9.md", "decision"),
        Target::Document(document("D-1", "docs/d1.md", "decision")),
        Direction::Inverse,
    ));
    let Outcome::Failed(findings) = initial().evaluate(&view) else { panic!("a failure") };
    assert_eq!(findings.len(), 1);
    assert_eq!(findings[0].path, "docs/d9.md");
    assert!(findings[0].message.starts_with("`D-9` stands at `current` and writes `required_by` to `D-1`"));
}

#[test]
fn a_relation_that_writes_a_state_onto_its_target_relies_on_nothing() {
    assert!(matches!(
        initial().evaluate(&edge("supersedes", Some("current"), "decision", Some("draft"))),
        Outcome::Passed
    ));
    assert!(matches!(
        initial().evaluate(&edge("depends_on", Some("current"), "decision", Some("current"))),
        Outcome::Passed
    ));
    assert!(matches!(
        initial().evaluate(&edge("depends_on", Some("current"), "decision", None)),
        Outcome::Skipped(r) if r == NO_DOCUMENT
    ));
}

fn basis() -> Basis {
    let mut cites = relation("cites", &[], &[], false, None);
    cites.family = Some("evidence".to_string());
    let mut depends = relation("depends_on", &[], &[], false, None);
    depends.family = Some("structure".to_string());
    Basis::over(vec![cites, depends, relation("mentions", &[], &[], false, None)])
}

fn cited() -> EdgeView {
    edge("cites", Some("current"), "decision", Some("current"))
}

#[test]
fn only_a_relation_of_the_evidence_family_generates_a_basis_instance() {
    assert!(basis().instantiates("cites"));
    assert!(!basis().instantiates("depends_on"));
    assert!(!basis().instantiates("mentions"));
}

#[test]
fn an_evidenced_claim_pointing_at_an_asserted_document_is_one_warning() {
    let Outcome::Failed(findings) = basis().evaluate(&cited(), Some("evidenced"), Some("asserted")) else {
        panic!("a failure")
    };
    assert_eq!(findings.len(), 1);
    let f = &findings[0];
    assert_eq!((f.rule, f.severity, f.line, f.column), (BASIS, Severity::Warn, 6, 3));
    assert_eq!(
        f.message,
        "`D-1` claims `evidenced` and declares `cites` to `D-9`, whose warrant is `asserted`: a \
         document nobody has read is neither external nor auditable, so a pointer at it does not \
         support the claim"
    );
    assert_eq!(
        f.remediation,
        "point `cites` in docs/d1.md at an artifact somebody can audit, have a person read \
         docs/d9.md and set its warrant, or write `evidence_basis: reconstructed` in docs/d1.md \
         and say what it was reconstructed from"
    );
}

#[test]
fn an_absent_warrant_is_not_read_as_supporting() {
    assert!(matches!(
        basis().evaluate(&cited(), Some("evidenced"), None),
        Outcome::Skipped(r) if r == NO_WARRANT
    ));
    assert!(matches!(basis().evaluate(&cited(), Some("evidenced"), Some("accepted")), Outcome::Passed));
    assert!(matches!(basis().evaluate(&cited(), Some("reconstructed"), Some("asserted")), Outcome::Passed));
    assert!(matches!(basis().evaluate(&cited(), None, Some("asserted")), Outcome::Passed));
}
