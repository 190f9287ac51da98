use headwater_check::{partition, registry, RULES};

#[test]
fn every_rule_lands_in_exactly_one_half_in_registry_order() {
    let split = partition("jsonschema");
    assert_eq!(split.target, "jsonschema");
    assert_eq!(split.exported, vec!["facet.required.missing"]);
    assert_eq!(split.unexported.len() + split.exported.len(), RULES.len());
    assert_eq!(split.unexported[0], "facet.value.not_permitted");
    assert_eq!(*split.unexported.last().unwrap(), "coverage.document_unchecked");

    let none = partition("sarif");
    assert!(none.exported.is_empty());
    assert_eq!(none.unexported, RULES.to_vec());
}

#[test]
fn the_registry_lists_every_rule_once_with_its_edition() {
    let r = registry();
    assert_eq!(r.len(), RULES.len());
    for (i, (rule, _, _)) in r.iter().enumerate() {
        assert_eq!(*rule, RULES[i]);
    }
    let mut names: Vec<&str> = RULES.to_vec();
    names.sort();
    names.dedup();
    assert_eq!(names.len(), RULES.len());
    assert_eq!(r[3].1, 2);
    assert_eq!(r[11].1, 3);
}
