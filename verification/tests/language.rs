use headwater_check::finding::Severity;
use headwater_check::instance::Outcome;
use headwater_check::language::{
    contraction, is_a_citation_line, is_running_prose, runs_on, same_ignoring_case, spelling,
    BlockKind, Language, Regime, Sentence, NO_PROFILE, RULE,
};

fn regime(name: &str, controlled: Option<&str>, profile: Option<&str>, tag: &str) -> Regime {
    Regime {
        name: name.to_string(),
        controlled: controlled.map(str::to_string),
        profile: profile.map(str::to_string),
        tag: tag.to_string(),
    }
}

fn language() -> Language {
    Language::over(&[
        ("decision".to_string(), Some(regime("prose", Some("ASD-STE100"), Some("house"), "en-US"))),
        ("guide".to_string(), Some(regime("british", Some("ste-house"), None, "en-GB"))),
        ("note".to_string(), Some(regime("free", None, None, "en-US"))),
        ("memo".to_string(), Some(regime("loose", Some("NONE"), None, "en-US"))),
        ("spec".to_string(), Some(regime("other", Some("Simplified"), Some("v2"), "en-US"))),
        ("index".to_string(), None),
    ])
}

fn sentence(line: usize, column: usize, words: usize, text: &str, kind: BlockKind) -> Sentence {
    Sentence {
        line,
        column,
        words,
        text: text.to_string(),
        authored: text.to_string(),
        kind,
    }
}

#[test]
fn a_possessive_is_not_a_contraction() {
    assert_eq!(contraction("Headwater's own corpus and the engine's lock"), None);
    assert_eq!(contraction("the adopter's overlay"), None);
    assert_eq!(contraction("it does not hold"), None);
}

#[test]
fn a_contraction_is_found_whatever_its_ending() {
    assert_eq!(contraction("it doesn't hold").as_deref(), Some("doesn't"));
    assert_eq!(contraction("they're here").as_deref(), Some("they're"));
    assert_eq!(contraction("it's here").as_deref(), Some("it's"));
    assert_eq!(contraction("we'll read it").as_deref(), Some("we'll"));
}

#[test]
fn a_semicolon_inside_a_parenthesis_is_not_a_run_on() {
    assert!(runs_on("The resolver reads one profile; the rest are the adopter's"));
    assert!(!runs_on("The two sources agree (Smith, 2004; Jones, 2007) on the shape"));
    assert!(!runs_on("No semicolon at all"));
}

#[test]
fn a_british_spelling_is_found_with_its_american_form() {
    assert_eq!(spelling("the behaviour of a check"), Some(("behaviour".to_string(), "behavior")));
    assert_eq!(spelling("the behavior of a check"), None);
    assert_eq!(spelling("an enterprise that is precise"), None);
}

#[test]
fn a_semicolon_is_a_run_on_only_in_running_prose() {
    assert!(is_running_prose(BlockKind::Paragraph));
    assert!(is_running_prose(BlockKind::Item));
    assert!(!is_running_prose(BlockKind::Heading(2)));
    assert!(!is_running_prose(BlockKind::TableCell));
}

#[test]
fn a_contraction_keeps_its_case_and_drops_its_punctuation() {
    assert_eq!(contraction("\"Don't\" do it").as_deref(), Some("Don't"));
    assert_eq!(contraction("We\u{2019}ve read it").as_deref(), Some("We\u{2019}ve"));
    assert_eq!(contraction("rock 'n' roll"), None);
}

#[test]
fn a_stray_closing_parenthesis_does_not_hide_a_semicolon() {
    assert!(runs_on("a) one; two"));
    assert!(!runs_on("(a; (b) c;)"));
}

#[test]
fn a_citation_line_holds_two_separators() {
    assert!(is_a_citation_line("Smith · 2004 · Press"));
    assert!(!is_a_citation_line("Smith · 2004"));
    assert!(!is_a_citation_line(" · · "));
}

#[test]
fn a_british_spelling_is_found_in_any_case() {
    assert_eq!(spelling("Organisation, first."), Some(("Organisation".to_string(), "organization")));
}

#[test]
fn ascii_case_is_ignored_and_nothing_else_is() {
    assert!(same_ignoring_case("en-us", "EN-US"));
    assert!(same_ignoring_case("ASD-STE100", "asd-ste100"));
    assert!(!same_ignoring_case("en-US", "en-GB"));
    assert!(!same_ignoring_case("none", "non"));
}

#[test]
fn a_regime_that_holds_prose_to_nothing_generates_no_instance() {
    let l = language();
    assert!(l.instantiates("decision"));
    assert!(l.instantiates("guide"));
    assert!(l.instantiates("spec"));
    assert!(!l.instantiates("note"));
    assert!(!l.instantiates("memo"));
    assert!(!l.instantiates("index"));
    assert!(!l.instantiates("unknown"));
}

#[test]
fn a_pair_this_engine_has_no_rules_for_is_a_visible_skip() {
    let body = [sentence(1, 1, 3, "It is here.", BlockKind::Paragraph)];
    assert!(matches!(
        language().evaluate("spec", "docs/a.md", Some(&body)),
        Outcome::Skipped(r) if r == NO_PROFILE
    ));
    assert!(matches!(language().evaluate("note", "docs/a.md", Some(&body)), Outcome::Passed));
    assert!(matches!(language().evaluate("decision", "docs/a.md", None), Outcome::Passed));
}

#[test]
fn each_rule_reports_at_its_sentence_and_the_findings_come_in_place_order() {
    let body = [
        sentence(7, 3, 4, "It doesn't hold; the behaviour is wrong.", BlockKind::Paragraph),
        sentence(2, 1, 30, "A long sentence.", BlockKind::Heading(2)),
    ];
    let Outcome::Failed(findings) = language().evaluate("decision", "docs/a.md", Some(&body))
    else {
        panic!("a failure")
    };
    let got: Vec<(usize, usize, Severity, &str, &str)> = findings
        .iter()
        .map(|f| (f.line, f.column, f.severity, f.message.as_str(), f.remediation.as_str()))
        .collect();
    assert_eq!(
        got,
        vec![
            (
                2,
                1,
                Severity::Warn,
                "`prose` holds prose to 25 words a sentence, and this one has 30",
                "split the sentence, or move a clause into its own sentence",
            ),
            (
                7,
                3,
                Severity::Warn,
                "`prose` admits no semicolon in running prose, and this sentence writes one",
                "split the sentence in two, and let each half state one thing",
            ),
            (
                7,
                3,
                Severity::Error,
                "`prose` admits no contraction, and this sentence writes `doesn't`",
                "write `doesn't` out in full",
            ),
            (
                7,
                3,
                Severity::Error,
                "`prose` declares the tag `en-US`, and this sentence writes `behaviour`",
                "write `behavior`",
            ),
        ]
    );
    assert!(findings.iter().all(|f| f.rule == RULE && f.path == "docs/a.md" && f.patch.is_none()));
}

#[test]
fn a_british_tag_holds_no_spelling_and_a_citation_line_no_length() {
    let long = "Smith, 2004 \u{b7} Jones, 2007 \u{b7} Brown, 2010";
    let body = [
        sentence(1, 1, 3, "The behaviour holds.", BlockKind::Paragraph),
        sentence(2, 1, 40, long, BlockKind::Paragraph),
    ];
    assert!(matches!(language().evaluate("guide", "docs/b.md", Some(&body)), Outcome::Passed));
}
