use headwater_check::finding::Severity;
use headwater_check::instance::Outcome;
use headwater_check::link_path::{finding, Paths, NO_LINKS, RULE};
use headwater_check::links::{Binding, Link};

fn link(destination: &str, binding: Binding) -> Link {
    Link {
        source_path: "docs/spec/01-conceptual-model.md".to_string(),
        destination: destination.to_string(),
        fragment: None,
        line: 30,
        column: 5,
        binding,
    }
}

#[test]
fn a_missing_target_is_an_error_at_the_citing_line() {
    let found = finding(&link(
        "glossary-moved.md",
        Binding::Missing { path: "docs/spec/glossary-moved.md".to_string() },
    ))
    .expect("a finding");
    assert_eq!(found.rule, RULE);
    assert_eq!(found.severity, Severity::Error);
    assert_eq!(found.path, "docs/spec/01-conceptual-model.md");
    assert_eq!(found.line, 30);
    assert_eq!(found.column, 5);
    assert!(found.message.contains("glossary-moved.md"), "{found:#?}");
    assert!(found.message.contains("docs/spec/glossary-moved.md"), "{found:#?}");
    assert!(!found.fixable(), "{found:#?}");
}

#[test]
fn an_unnormalizable_destination_says_something_else() {
    let found = finding(&link(
        "../../../../outside.md",
        Binding::Unnormalizable { why: "climbs above the repository root".to_string() },
    ))
    .expect("a finding");
    assert_eq!(found.severity, Severity::Error);
    assert!(found.message.contains("climbs above the repository root"), "{found:#?}");
    assert!(!found.remediation.contains("restore"), "{found:#?}");
}

#[test]
fn a_link_that_resolved_is_not_this_rule() {
    for binding in [
        Binding::Corpus { path: "docs/spec/glossary.md".to_string() },
        Binding::Repository { path: "README.md".to_string() },
        Binding::SameDocument,
        Binding::External,
    ] {
        assert!(finding(&link("x", binding)).is_none());
    }
}

#[test]
fn link_path_a_view_with_no_links_skips_rather_than_passes() {
    assert!(matches!(Paths.evaluate(None), Outcome::Skipped(why) if why == NO_LINKS));
}

#[test]
fn the_broken_links_of_the_view_become_the_findings() {
    let links = vec![
        link("glossary-moved.md", Binding::Missing { path: "docs/spec/glossary-moved.md".to_string() }),
        link("https://example.com", Binding::External),
        link(
            "../../../../outside.md",
            Binding::Unnormalizable { why: "climbs above the repository root".to_string() },
        ),
    ];
    let Outcome::Failed(found) = Paths.evaluate(Some(&links)) else {
        panic!("two broken links are two findings");
    };
    assert_eq!(found.len(), 2, "{found:#?}");
}

#[test]
fn a_corpus_with_no_broken_link_passes() {
    let links = vec![link("https://example.com", Binding::External)];
    assert!(matches!(Paths.evaluate(Some(&links)), Outcome::Passed));
}

#[test]
fn each_broken_link_says_what_to_do() {
    let missing = finding(&link("a.md", Binding::Missing { path: "docs/a.md".to_string() })).expect("a finding");
    assert_eq!(missing.message, "`a.md` names no file of this repository: nothing stands at `docs/a.md`");
    assert_eq!(
        missing.remediation,
        "point it at a file that exists, or restore `docs/a.md`. A document that moved keeps its identifier, so `headwater explain` finds where it went"
    );
    let odd = finding(&link("x", Binding::Unnormalizable { why: "why".to_string() })).expect("a finding");
    assert_eq!(odd.message, "`x` does not name a path of this repository at all: why");
    assert_eq!(
        odd.remediation,
        "rewrite the destination as a path relative to the document that writes it, or as an absolute address with a scheme"
    );
}
