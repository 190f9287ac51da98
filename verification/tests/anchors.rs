use headwater_check::anchors::{Binding, Rules, RESOLVER};

const STATED: [&str; 2] = ["section.required.missing", "language.retired_term.used"];

fn over() -> Rules {
    Rules::over(&STATED)
}

#[test]
fn a_rule_this_engine_ships_binds_to_the_string_it_ships() {
    assert_eq!(
        over().resolve("section.required.missing"),
        Binding::Resolved {
            normalized: "section.required.missing".to_string(),
            excluded_by: None,
            revision: None,
        }
    );
}

#[test]
fn it_trims_and_normalizes_nothing_else() {
    assert_eq!(
        over().resolve("  language.retired_term.used\n"),
        Binding::Resolved {
            normalized: "language.retired_term.used".to_string(),
            excluded_by: None,
            revision: None,
        }
    );
    for spelling in [
        "Section.Required.Missing",
        "section_required_missing",
        "check:section.required.missing",
        "section.required",
    ] {
        assert!(
            matches!(over().resolve(spelling), Binding::Unresolved(_)),
            "`{spelling}` is not the string this engine ships"
        );
    }
}

#[test]
fn a_refusal_names_the_identifier_and_says_how_many_rules_there_are() {
    let Binding::Unresolved(why) = over().resolve("no.such.rule") else {
        panic!("a rule this engine does not ship binds to nothing");
    };
    assert_eq!(why, "this engine implements no rule `no.such.rule`, and it ships 2 rules");
}

#[test]
fn an_empty_anchor_is_refused_on_its_own_terms() {
    assert_eq!(
        over().resolve("   "),
        Binding::Unresolved("an empty anchor names nothing".to_string())
    );
}

#[test]
fn a_list_of_one_says_one_rule_and_the_name_is_the_namespace() {
    const ONE: [&str; 1] = ["section.required.missing"];
    let one = Rules::over(&ONE);
    assert_eq!(one.held(), 1);
    assert_eq!(one.name(), RESOLVER);
    assert_eq!(one.name(), "check-rule");
    assert_eq!(
        one.resolve("x"),
        Binding::Unresolved("this engine implements no rule `x`, and it ships 1 rule".to_string())
    );
}

#[test]
fn it_answers_to_the_namespace_the_taxonomy_names() {
    assert_eq!(over().name(), "check-rule");
    assert_eq!(Rules::shipped().held(), headwater_check::RULES.len());
}

#[test]
fn the_resolver_binds_exactly_what_the_engine_ships() {
    let resolver = Rules::shipped();
    for rule in headwater_check::RULES {
        assert!(matches!(resolver.resolve(rule), Binding::Resolved { .. }), "{rule}");
    }
    assert!(matches!(resolver.resolve("no.such.rule"), Binding::Unresolved(_)));
}
