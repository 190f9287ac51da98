use headwater_check::fragment::slug;
use headwater_check::finding::Severity;
use headwater_check::fragment::{anchors, finding, Anchors, Fragments, NO_ANCHORS, NO_LINKS, RULE};
use headwater_check::instance::Outcome;
use headwater_check::links::{Binding, Link};

#[test]
fn an_em_dash_leaves_the_spaces_around_it() {
    assert_eq!(slug("Q5 — Voice checking depth"), "q5--voice-checking-depth");
    assert_eq!(slug("`$package.optional`"), "packageoptional");
    assert_eq!(slug("Two phases, and why the order matters"), "two-phases-and-why-the-order-matters");
}

#[test]
fn a_slug_drops_underscores_and_surrounding_space() {
    assert_eq!(slug("  snake_case Heading  "), "snakecase-heading");
    assert_eq!(slug("_"), "");
    assert_eq!(slug("Ünïcode Wörds"), "ünïcode-wörds");
}


fn headings(texts: &[&str]) -> Vec<String> {
    texts.iter().map(|t| t.to_string()).collect()
}

#[test]
fn a_repeated_heading_takes_a_numeric_suffix() {
    assert_eq!(anchors(&headings(&["One", "One", "One"])), ["one", "one-1", "one-2"]);
}

#[test]
fn a_longer_heading_is_not_a_repeat_of_the_one_it_extends() {
    assert_eq!(
        anchors(&headings(&["Edit sites, as spec 2 stands", "Edit sites", "Edit sites"])),
        ["edit-sites-as-spec-2-stands", "edit-sites", "edit-sites-1"]
    );
}

#[test]
fn a_suffix_an_earlier_heading_took_is_stepped_past() {
    assert_eq!(
        anchors(&headings(&["One", "One", "One-1", "One"])),
        ["one", "one-1", "one-1-1", "one-2"]
    );
}

#[test]
fn two_headings_that_differ_never_share_an_anchor() {
    let anchors = anchors(&headings(&["One-1", "One", "One"]));
    assert_eq!(anchors, ["one-1", "one", "one-2"]);
    let issued: std::collections::HashSet<&String> = anchors.iter().collect();
    assert_eq!(issued.len(), anchors.len(), "an anchor is issued once");
}

const CITER: &str = "docs/spec/01-conceptual-model.md";
const TARGET: &str = "docs/spec/glossary.md";

fn link(destination: &str, fragment: Option<&str>, binding: Binding) -> Link {
    Link {
        source_path: CITER.to_string(),
        destination: destination.to_string(),
        fragment: fragment.map(str::to_string),
        line: 30,
        column: 5,
        binding,
    }
}

fn corpus(path: &str) -> Binding {
    Binding::Corpus { path: path.to_string() }
}

fn index() -> Anchors {
    Anchors::of_pairs(&[(CITER, &["a-heading-of-the-citer"]), (TARGET, &["projection"])])
}

#[test]
fn a_fragment_that_names_no_heading_of_the_target_is_an_error_at_the_citing_line() {
    let found = finding(&link("glossary.md#projections", Some("projections"), corpus(TARGET)), &index())
        .expect("a finding");
    assert_eq!(found.rule, RULE);
    assert_eq!(found.severity, Severity::Error);
    assert_eq!(found.path, CITER);
    assert_eq!(found.line, 30);
    assert_eq!(found.column, 5);
    assert!(found.message.contains(TARGET), "{found:#?}");
    assert!(!found.message.contains("this document"), "{found:#?}");
    assert!(!found.fixable(), "{found:#?}");
}

#[test]
fn the_near_arm_says_this_document_and_the_far_arm_names_the_file() {
    let near = finding(&link("#no-such-heading", Some("no-such-heading"), Binding::SameDocument), &index())
        .expect("a finding");
    assert!(near.message.contains("this document"), "{near:#?}");
    assert!(!near.message.contains(TARGET), "{near:#?}");
    assert_eq!(near.path, CITER);
}

#[test]
fn a_fragment_that_resolves_is_not_a_finding_on_either_arm() {
    assert!(finding(&link("glossary.md#projection", Some("projection"), corpus(TARGET)), &index()).is_none());
    assert!(finding(
        &link("#a-heading-of-the-citer", Some("a-heading-of-the-citer"), Binding::SameDocument),
        &index()
    )
    .is_none());
}

#[test]
fn a_fragment_resolves_whatever_case_the_author_wrote_it_in() {
    assert!(finding(&link("glossary.md#Projection", Some("Projection"), corpus(TARGET)), &index()).is_none());
}

#[test]
fn every_binding_that_is_not_this_rule_produces_nothing() {
    for binding in [
        Binding::Missing { path: "docs/spec/gone.md".to_string() },
        Binding::Unnormalizable { why: "climbs above the repository root".to_string() },
        Binding::Repository { path: "README.md".to_string() },
        Binding::External,
    ] {
        assert!(finding(&link("x#y", Some("y"), binding), &index()).is_none());
    }
}

#[test]
fn a_link_carrying_no_fragment_is_not_this_rules_business() {
    assert!(finding(&link("glossary.md", None, corpus(TARGET)), &index()).is_none());
    assert!(finding(&link("glossary.md#", Some(""), corpus(TARGET)), &index()).is_none());
}

#[test]
fn a_corpus_path_with_no_parsed_document_gets_no_verdict_rather_than_a_guess() {
    let untyped = "docs/spec/notes.txt";
    assert_eq!(index().resolves(untyped, "anything"), None);
    assert!(finding(&link("notes.txt#anything", Some("anything"), corpus(untyped)), &index()).is_none());
}

#[test]
fn fragment_a_view_with_no_links_skips_rather_than_passes() {
    assert!(matches!(Fragments.evaluate(None, None), Outcome::Skipped(why) if why == NO_LINKS));
}

#[test]
fn a_view_with_links_and_no_anchors_skips_with_the_other_reason() {
    let links = vec![link("glossary.md#projection", Some("projection"), corpus(TARGET))];
    assert!(matches!(Fragments.evaluate(Some(&links), None), Outcome::Skipped(why) if why == NO_ANCHORS));
}

#[test]
fn the_unresolved_fragments_of_the_view_become_the_findings() {
    let anchors = index();
    let broken = vec![
        link("glossary.md#projections", Some("projections"), corpus(TARGET)),
        link("#nope", Some("nope"), Binding::SameDocument),
        link("glossary.md#projection", Some("projection"), corpus(TARGET)),
        link("https://example.com", None, Binding::External),
    ];
    let Outcome::Failed(found) = Fragments.evaluate(Some(&broken), Some(&anchors)) else {
        panic!("two unresolved fragments are two findings");
    };
    assert_eq!(found.len(), 2, "{found:#?}");

    let clean = vec![link("glossary.md#projection", Some("projection"), corpus(TARGET))];
    assert!(matches!(Fragments.evaluate(Some(&clean), Some(&anchors)), Outcome::Passed));
}

#[test]
fn an_index_from_census_rows_keeps_the_rows_that_carry_a_document() {
    let rows = vec![
        ("docs/a.md".to_string(), Some(headings(&["Intro", "Intro"]))),
        ("docs/notes.txt".to_string(), None),
    ];
    let index = Anchors::of(&rows);
    assert_eq!(index.resolves("docs/a.md", "intro-1"), Some(true));
    assert_eq!(index.resolves("docs/a.md", "INTRO"), Some(true));
    assert_eq!(index.resolves("docs/a.md", "intro-2"), Some(false));
    assert_eq!(index.resolves("docs/notes.txt", "intro"), None);
}

#[test]
fn each_arm_writes_its_own_sentence_and_remedy() {
    let far = finding(&link("glossary.md#nope", Some("nope"), corpus(TARGET)), &index()).expect("a finding");
    assert_eq!(far.message, "`glossary.md#nope` names no heading of `docs/spec/glossary.md`");
    assert_eq!(
        far.remediation,
        "point it at a heading that `docs/spec/glossary.md` has, or write the heading it names there"
    );
    let near = finding(&link("#nope", Some("nope"), Binding::SameDocument), &index()).expect("a finding");
    assert_eq!(near.message, "`#nope` names no heading of this document");
    assert_eq!(
        near.remediation,
        "point it at a heading of docs/spec/01-conceptual-model.md, or write the heading it names"
    );
}
