use headwater_check::facets::Entry;
use headwater_check::frontmatter::{scent_facet, Scent, SCENT};
use headwater_check::language::{BlockKind, Sentence};
use headwater_check::lifecycle::Facet;

fn facet(name: &str, role: Option<&str>) -> Facet {
    Facet { name: name.to_string(), role: role.map(str::to_string), values: Vec::new() }
}

#[test]
fn the_scent_role_names_the_facet_and_the_name_role_does_not() {
    let facets = vec![facet("title", Some("name")), facet("summary", Some(SCENT))];
    assert_eq!(scent_facet(&facets).as_deref(), Some("summary"));
}

#[test]
fn a_shape_with_no_scent_facet_names_nothing() {
    let facets = vec![facet("title", Some("name")), facet("owner", None)];
    assert_eq!(scent_facet(&facets), None);
}

fn summary(scalar: Option<&str>) -> Vec<Entry> {
    vec![Entry {
        key: "summary".to_string(),
        key_line: 3,
        key_column: 1,
        value_line: 3,
        value_column: 10,
        scalar: scalar.map(str::to_string),
        null: false,
        kind_name: if scalar.is_some() { "scalar" } else { "sequence" }.to_string(),
    }]
}

#[test]
fn a_scent_anchors_at_its_value_and_a_blank_or_absent_one_is_none() {
    let sentences = vec![Sentence {
        line: 1,
        column: 1,
        words: 3,
        text: "It reads well.".to_string(),
        authored: "It reads well.".to_string(),
        kind: BlockKind::Paragraph,
    }];
    let scent = Scent::of(&summary(Some("It reads well.")), "summary", sentences).expect("a scent");
    assert_eq!((scent.facet.as_str(), scent.line, scent.column), ("summary", 3, 10));
    assert_eq!(scent.sentences.len(), 1);
    assert!(Scent::of(&summary(Some("  \n ")), "summary", Vec::new()).is_none());
    assert!(Scent::of(&summary(None), "summary", Vec::new()).is_none());
    assert!(Scent::of(&summary(Some("text")), "title", Vec::new()).is_none());
    assert!(Scent::entry(&summary(Some("text")), "summary").is_some());
}
