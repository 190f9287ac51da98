use headwater_check::finding::Severity;
use headwater_check::instance::Outcome;
use headwater_check::outside_root::{findings, Listed, RULE as OUTSIDE};
use headwater_check::facets::Entry;
use headwater_check::placement::{Placement, HETEROGENEOUS, RULE};

fn entry(key: &str, line: usize, value: &str) -> Entry {
    Entry {
        key: key.to_string(),
        key_line: line,
        key_column: 1,
        value_line: line,
        value_column: key.len() + 3,
        scalar: Some(value.to_string()),
        null: false,
        kind_name: "scalar".to_string(),
    }
}

fn mapping(key: &str, line: usize) -> Entry {
    Entry { scalar: None, kind_name: "mapping".to_string(), ..entry(key, line, "") }
}

fn rule() -> Placement {
    Placement::over(&["type".to_string(), "class".to_string(), "type".to_string()])
}

#[test]
fn a_heterogeneous_shelf_skips_with_its_reason() {
    assert!(matches!(rule().evaluate(None, "decision", "docs/a.md", &[]), Outcome::Skipped(r) if r == HETEROGENEOUS));
}

#[test]
fn a_document_that_restates_nothing_passes() {
    let facets = vec![entry("id", 2, "DR-1"), entry("title", 3, "A")];
    assert!(matches!(rule().evaluate(Some("decisions"), "decision", "docs/a.md", &facets), Outcome::Passed));
}

#[test]
fn kind_is_read_before_any_discriminator() {
    let facets = vec![entry("class", 2, "note"), entry("kind", 4, "decision")];
    let Outcome::Failed(found) = rule().evaluate(Some("decisions"), "decision", "docs/a.md", &facets) else {
        panic!("a finding");
    };
    assert_eq!(found.len(), 1);
    let f = &found[0];
    assert_eq!(f.rule, RULE);
    assert_eq!(f.severity, Severity::Error);
    assert_eq!((f.path.as_str(), f.line, f.column), ("docs/a.md", 4, 1));
    assert_eq!(
        f.message,
        "`decisions` is homogeneous and carries the kind `decision`, and this document restates it as `kind: decision`"
    );
    assert_eq!(f.remediation, "remove `kind` from the front matter of docs/a.md");
    assert!(f.patch.is_none());
}

#[test]
fn discriminators_are_read_in_declaration_order() {
    let facets = vec![entry("class", 2, "note"), mapping("type", 3)];
    let Outcome::Failed(found) = rule().evaluate(Some("notes"), "note", "docs/n.md", &facets) else {
        panic!("a finding");
    };
    assert_eq!(found[0].line, 3);
    assert!(found[0].message.ends_with("restates it as `type: mapping`"));
}

#[test]
fn a_listed_pattern_that_reads_nothing_is_an_error_at_the_taxonomy() {
    let listed = |pattern: &str| Listed {
        regime: "prose".to_string(),
        pattern: pattern.to_string(),
        reason: "why".to_string(),
    };
    let found = findings(&[listed("a.md")], &[listed("../b.md")], "taxonomy.yaml");
    assert_eq!(found.len(), 2);
    assert!(found.iter().all(|f| f.rule == OUTSIDE && f.path == "taxonomy.yaml" && f.line == 0));
    assert_eq!(
        found[0].message,
        "`regimes.language.prose.outside_root` lists `a.md`, and it matches no file: why"
    );
    assert_eq!(found[0].remediation, "correct the pattern, or take it off the list if the file is gone");
    assert_eq!(
        found[1].message,
        "`regimes.language.prose.outside_root` lists `../b.md`, and HW-DR-0084 refuses it: why"
    );
    assert_eq!(
        found[1].remediation,
        "take the pattern off the list, or list the real file outside the corpus root"
    );
}
