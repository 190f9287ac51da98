use headwater_check::facets::Entry;
use headwater_check::instance::Outcome;
use headwater_check::lifecycle::{
    Facet, FacetValue, LifecycleRegime, StateAdmitted, StateFacet, Standing, Stood, NOT_A_STATE,
    NO_STATE, RULE, UNDECLARED,
};

fn value(value: &str, role: Option<&str>) -> FacetValue {
    FacetValue { value: value.to_string(), role: role.map(str::to_string) }
}

fn facet(name: &str, role: Option<&str>, values: Vec<FacetValue>) -> Facet {
    Facet { name: name.to_string(), role: role.map(str::to_string), values }
}

fn regime(name: &str, initial: &str, transitions: &[(&str, &[&str])]) -> LifecycleRegime {
    LifecycleRegime {
        name: name.to_string(),
        initial: initial.to_string(),
        transitions: transitions
            .iter()
            .map(|(from, to)| (from.to_string(), to.iter().map(|s| s.to_string()).collect()))
            .collect(),
    }
}

/// The vocabulary of five states, in the `state` role.
fn vocabulary() -> Vec<Facet> {
    vec![facet(
        "status",
        Some("state"),
        vec![
            value("draft", Some("initial")),
            value("current", Some("live")),
            value("superseded", Some("terminal-retained")),
            value("deprecated", Some("terminal-retained")),
            value("discharged", Some("terminal-retained")),
        ],
    )]
}

/// `narrow` names four of the five states and `wide` names all five.
fn narrow() -> LifecycleRegime {
    regime(
        "narrow",
        "draft",
        &[("draft", &["current", "deprecated"]), ("current", &["superseded", "deprecated"])],
    )
}

fn wide() -> LifecycleRegime {
    regime("wide", "draft", &[("draft", &["current"]), ("current", &["discharged"])])
}

fn empty() -> LifecycleRegime {
    regime("empty", "", &[])
}

fn kinds() -> Vec<(String, Option<LifecycleRegime>)> {
    vec![
        ("decision".to_string(), Some(narrow())),
        ("obligation_record".to_string(), Some(wide())),
        ("broken".to_string(), Some(empty())),
        ("note".to_string(), None),
    ]
}

fn check() -> StateAdmitted {
    StateAdmitted::over(vocabulary(), kinds())
}

fn status(text: &str) -> Vec<Entry> {
    vec![Entry {
        key: "status".to_string(),
        key_line: 3,
        key_column: 1,
        value_line: 3,
        value_column: 9,
        scalar: Some(text.to_string()),
        null: false,
        kind_name: "scalar".to_string(),
    }]
}

#[test]
fn a_regime_names_the_states_its_kind_admits() {
    let check = check();
    let narrow = check.lifecycle_of("decision").expect("a regime");
    assert_eq!(narrow.states(), vec!["draft", "current", "deprecated", "superseded"]);
    assert!(!narrow.states().contains(&"discharged"));
    let wide = check.lifecycle_of("obligation_record").expect("a regime");
    assert_eq!(wide.states(), vec!["draft", "current", "discharged"]);
}

#[test]
fn a_regime_that_declares_no_state_names_none() {
    let check = check();
    let empty = check.lifecycle_of("broken").expect("a regime");
    assert!(empty.states().is_empty());
}

#[test]
fn a_kind_that_binds_no_lifecycle_generates_no_instance() {
    let check = check();
    assert!(check.instantiates("decision"));
    assert!(check.instantiates("obligation_record"));
    assert!(!check.instantiates("note"));
}

#[test]
fn a_role_says_whether_a_state_is_live_terminal_or_the_one_a_document_opens_at() {
    let facet = StateFacet::of(vocabulary());
    assert_eq!(facet.standing("current"), Standing::Live);
    assert_eq!(facet.standing("superseded"), Standing::Terminal);
    assert_eq!(facet.standing("deprecated"), Standing::Terminal);
    assert_eq!(facet.standing("discharged"), Standing::Terminal);
    assert_eq!(facet.standing("draft"), Standing::Initial);
    assert_eq!(facet.standing("retired"), Standing::Neither);
}

#[test]
fn a_renamed_vocabulary_that_keeps_its_roles_reads_the_same() {
    let facet = StateFacet::of(vec![facet(
        "phase",
        Some("state"),
        vec![
            value("opened", Some("initial")),
            value("ratified", Some("live")),
            value("withdrawn", Some("terminal-retained")),
        ],
    )]);
    assert_eq!(facet.standing("ratified"), Standing::Live);
    assert_eq!(facet.standing("withdrawn"), Standing::Terminal);
    assert_eq!(facet.standing("opened"), Standing::Initial);
    assert_eq!(facet.standing("current"), Standing::Neither);
}

#[test]
fn a_shape_built_by_hand_still_holds_two_readings_that_differ() {
    let facet = StateFacet::of(vec![facet(
        "status",
        Some("state"),
        vec![
            value("draft", Some("initial")),
            value("current", Some("live")),
            value("leaves", Some("terminal-retained")),
            value("sealed", None),
        ],
    )]);
    let regime = regime(
        "standard",
        "draft",
        &[("draft", &["current"]), ("current", &["leaves", "sealed"]), ("leaves", &["sealed"])],
    );
    assert_eq!(facet.standing("leaves"), Standing::Terminal);
    assert!(!regime.terminal("leaves"));
    assert!(regime.terminal("sealed"));
    assert_eq!(facet.standing("sealed"), Standing::Neither);
}

#[test]
fn a_state_a_document_does_not_declare_is_not_the_state_it_declares_wrongly() {
    let facet = StateFacet::of(vocabulary());
    assert_eq!(facet.stood(&status("draft")), Stood::At("draft".to_string()));
    let other = vec![Entry { key: "id".to_string(), ..status("A").remove(0) }];
    assert_eq!(facet.stood(&other), Stood::Undeclared);
    assert_eq!(facet.stood(&status("retired")), Stood::NotAState("retired".to_string()));
}

#[test]
fn a_vocabulary_with_no_state_facet_reads_every_document_as_undeclared() {
    let facet = StateFacet::of(vec![facet("status", None, vec![value("draft", Some("initial"))])]);
    assert_eq!(facet.stood(&status("draft")), Stood::Undeclared);
    let check = StateAdmitted::over(Vec::new(), kinds());
    assert!(!check.instantiates("decision"));
}

#[test]
fn a_state_the_regime_names_passes() {
    assert!(matches!(check().evaluate("decision", "docs/a.md", &status("current")), Outcome::Passed));
    assert!(matches!(
        check().evaluate("obligation_record", "docs/b.md", &status("discharged")),
        Outcome::Passed
    ));
}

#[test]
fn a_state_the_vocabulary_holds_and_the_regime_does_not_name_is_one_error_at_the_key() {
    let outcome = check().evaluate("decision", "docs/a.md", &status("discharged"));
    let Outcome::Failed(findings) = outcome else { panic!("a failure") };
    assert_eq!(findings.len(), 1);
    let f = &findings[0];
    assert_eq!(f.rule, RULE);
    assert_eq!((f.line, f.column), (3, 1));
    assert_eq!(f.path, "docs/a.md");
    assert_eq!(
        f.message,
        "a `decision` stands at `discharged`, and the lifecycle regime `narrow` that this kind \
         binds names no such state: a `decision` stands at one of `draft`, `current`, \
         `deprecated`, `superseded`"
    );
    assert_eq!(
        f.remediation,
        "change `status` in docs/a.md to one of: draft, current, deprecated, superseded, or bind \
         `decision` to a lifecycle regime that names `discharged`"
    );
    assert!(f.patch.is_none());
}

#[test]
fn the_readings_this_rule_declines_are_skips_with_their_reasons() {
    let check = check();
    assert!(matches!(check.evaluate("decision", "a.md", &[]), Outcome::Skipped(r) if r == UNDECLARED));
    assert!(matches!(
        check.evaluate("decision", "a.md", &status("retired")),
        Outcome::Skipped(r) if r == NOT_A_STATE
    ));
    assert!(matches!(
        check.evaluate("broken", "a.md", &status("draft")),
        Outcome::Skipped(r) if r == NO_STATE
    ));
    assert!(matches!(check.evaluate("note", "a.md", &status("retired")), Outcome::Passed));
}
