use headwater_check::facet_required::{Required, RULE as REQUIRED};
use headwater_check::facet_value::{Values, RULE as VALUE};
use headwater_check::facets::Entry;
use headwater_check::instance::Outcome;
use headwater_check::facet_blank::{Blank, RULE as BLANK};

fn scalar(key: &str, line: usize, text: &str) -> Entry {
    Entry {
        key: key.to_string(),
        key_line: line,
        key_column: 1,
        value_line: line,
        value_column: key.len() + 3,
        scalar: Some(text.to_string()),
        null: false,
        kind_name: "scalar".to_string(),
    }
}

fn strings(v: &[&str]) -> Vec<String> {
    v.iter().map(|s| s.to_string()).collect()
}

fn required() -> Required {
    Required::over(vec![
        ("note".to_string(), Vec::new()),
        ("decision".to_string(), strings(&["id", "status", "title"])),
    ])
}

#[test]
fn a_kind_that_owes_nothing_generates_no_instance() {
    assert!(!required().instantiates("note"));
    assert!(!required().instantiates("unknown"));
    assert!(required().instantiates("decision"));
    assert_eq!(required().owed_by("decision"), strings(&["id", "status", "title"]).as_slice());
}

#[test]
fn every_owed_facet_that_is_absent_is_one_finding_at_no_line() {
    let facets = vec![scalar("status", 2, "open")];
    let Outcome::Failed(found) = required().evaluate("decision", "docs/d.md", &facets) else {
        panic!("findings");
    };
    assert_eq!(found.len(), 2);
    assert!(found.iter().all(|f| f.rule == REQUIRED && f.line == 0 && f.column == 0 && f.path == "docs/d.md"));
    assert_eq!(found[0].message, "`decision` requires the facet `id`, and it is not declared");
    assert_eq!(found[1].message, "`decision` requires the facet `title`, and it is not declared");
    assert_eq!(found[0].remediation, "add `id:` to the front matter of docs/d.md, with the value this document has");
    let whole = vec![scalar("id", 1, "DR-1"), scalar("status", 2, "open"), scalar("title", 3, "T")];
    assert!(matches!(required().evaluate("decision", "docs/d.md", &whole), Outcome::Passed));
}

fn values() -> Values {
    Values::over(
        &[
            ("status".to_string(), strings(&["open", "accepted"])),
            ("title".to_string(), Vec::new()),
            ("tier".to_string(), strings(&["1"])),
        ],
        &[
            ("note".to_string(), strings(&["status", "tier"])),
            ("decision".to_string(), strings(&["owner"])),
        ],
    )
}

#[test]
fn a_kind_whose_ancestry_forbids_every_enumerated_facet_generates_no_instance() {
    let v = values();
    assert!(!v.instantiates("note"));
    assert!(v.instantiates("decision"));
    assert_eq!(
        v.admitted_by("decision"),
        &[("status".to_string(), strings(&["open", "accepted"])), ("tier".to_string(), strings(&["1"]))]
    );
}

#[test]
fn a_value_the_declaration_does_not_admit_is_reported_at_the_value() {
    let facets = vec![scalar("status", 4, "closed"), scalar("tier", 5, "1")];
    let Outcome::Failed(found) = values().evaluate("decision", "docs/d.md", &facets) else {
        panic!("a finding");
    };
    assert_eq!(found.len(), 1);
    let f = &found[0];
    assert_eq!(f.rule, VALUE);
    assert_eq!((f.line, f.column), (4, 9));
    assert_eq!(f.message, "`status` admits open, accepted, and this document declares `closed`");
    assert_eq!(f.remediation, "change `status` in docs/d.md to one of: open, accepted");
}

#[test]
fn an_absent_facet_and_a_value_that_is_no_scalar_are_not_this_rule() {
    let mapping = Entry { scalar: None, kind_name: "mapping".to_string(), ..scalar("status", 4, "") };
    assert!(matches!(values().evaluate("decision", "docs/d.md", &[mapping]), Outcome::Passed));
    assert!(matches!(values().evaluate("decision", "docs/d.md", &[]), Outcome::Passed));
    assert!(!values().instantiates("note"));
    assert!(values().instantiates("decision"));
}


fn blank() -> Blank {
    Blank::over(vec![
        ("note".to_string(), Vec::new()),
        ("decision".to_string(), vec![("title".to_string(), true), ("summary".to_string(), false)]),
    ])
}

#[test]
fn each_way_a_string_goes_blank_is_its_own_sentence() {
    let null = Entry { null: true, ..scalar("title", 2, "") };
    let spaces = scalar("summary", 3, "   ");
    let Outcome::Failed(found) = blank().evaluate("decision", "docs/d.md", &[null, spaces]) else {
        panic!("findings");
    };
    assert_eq!(found.len(), 2);
    assert!(found.iter().all(|f| f.rule == BLANK));
    assert_eq!(found[0].message, "`title` is declared with no value");
    assert_eq!(found[0].remediation, "write the value of `title` into docs/d.md, which this kind requires");
    assert_eq!(found[1].message, "`summary` is declared as empty text");
    assert_eq!(found[1].remediation, "write the value of `summary` into docs/d.md, or remove the key");

    let list = Entry { scalar: None, kind_name: "sequence".to_string(), ..scalar("title", 2, "") };
    let Outcome::Failed(found) = blank().evaluate("decision", "docs/d.md", &[list]) else {
        panic!("a finding");
    };
    assert_eq!(found[0].message, "`title` is declared as sequence, and its declaration says `string`");
}

#[test]
fn text_and_an_absent_key_are_not_this_rule() {
    let facets = vec![scalar("title", 2, "A title")];
    assert!(matches!(blank().evaluate("decision", "docs/d.md", &facets), Outcome::Passed));
    assert!(!blank().instantiates("note"));
}
