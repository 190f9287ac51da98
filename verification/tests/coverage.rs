use headwater_check::coverage::{Coverage, Row};
use headwater_check::instance::{Grain, Input, Instance, Outcome};

fn row(path: &str) -> Row {
    Row { path: path.to_string(), class: "not a document" }
}

fn typed(path: &str) -> Row {
    Row { path: path.to_string(), class: "typed" }
}

fn input(path: &str) -> Input {
    Input { path: path.to_string(), digest: None }
}

fn over(rows: Vec<Row>, instances: Vec<Instance>) -> Coverage {
    Coverage::of(&rows, &instances)
}

#[test]
fn an_edge_scoped_skip_is_one_instance_and_two_routed_documents() {
    let coverage = over(
        vec![row("source.md"), row("target.md")],
        vec![Instance::skipped(
            "dependency.terminal",
            Grain::Edge,
            vec![input("source.md"), input("target.md")],
            "no state to read at the target end",
        )],
    );
    assert_eq!(coverage.instances, 1);
    assert_eq!(coverage.skipped(), 1, "one instance reached no verdict");
    assert_eq!(coverage.skips(), &[("no state to read at the target end".to_string(), 1)]);
    let routed: usize = coverage.documents.iter().map(|document| document.skipped.len()).sum();
    assert_eq!(routed, 2, "and the routing accounts for it at both ends");
}

#[test]
fn a_skip_routed_to_no_document_is_still_a_skip() {
    let coverage = over(
        vec![row("source.md")],
        vec![Instance::skipped(
            "coverage.document_unchecked",
            Grain::Corpus,
            vec![input("source.md")],
            "the census carries no row this rule can read",
        )],
    );
    assert_eq!(coverage.skipped(), 1);
    let routed: usize = coverage.documents.iter().map(|document| document.skipped.len()).sum();
    assert_eq!(routed, 0, "and the routing sees none of it");
}

#[test]
fn a_run_that_skipped_nothing_has_a_number_for_it() {
    let coverage = over(
        vec![row("source.md")],
        vec![Instance::of("facet.required.missing", Grain::Document, vec![input("source.md")], Outcome::Passed)],
    );
    assert_eq!(coverage.skipped(), 0);
    assert!(coverage.skips().is_empty());
}

#[test]
fn a_classified_document_no_instance_ran_on_is_a_finding() {
    let coverage = over(
        vec![typed("a.md"), typed("b.md"), typed("c.md"), Row { path: "g.md".to_string(), class: "generated" }],
        vec![
            Instance::of("r", Grain::Document, vec![input("a.md")], Outcome::Passed),
            Instance::skipped("r", Grain::Document, vec![input("b.md")], "why"),
            Instance::skipped("s", Grain::Document, vec![input("b.md"), input("elsewhere.md")], "why"),
        ],
    );
    assert_eq!(coverage.seen(), 4);
    assert_eq!(coverage.classified(), 3);
    assert_eq!(coverage.checked(), 1);
    assert_eq!(coverage.generated(), 1);
    assert_eq!(coverage.unaccounted, vec!["elsewhere.md".to_string()]);
    let findings = coverage.findings();
    assert_eq!(findings.len(), 2);
    assert_eq!(findings[0].path, "b.md");
    assert_eq!(findings[0].message, "this document is classified and all 2 of its check instances were skipped");
    assert_eq!(findings[1].path, "c.md");
    assert_eq!(findings[1].message, "this document is classified and no check instance was created for it");
    assert_eq!(
        coverage.render(),
        "4 seen, 3 classified, 1 checked, 3 check instances\n      1 generated, held to regeneration by `headwater generate --check`\n      2 skipped: why\n  a check read elsewhere.md, which the census never walked\n"
    );
}
