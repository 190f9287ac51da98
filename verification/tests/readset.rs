use headwater_check::context::Date;
use headwater_check::instance::{Grain, Input, Instance, Outcome, CHANGE_SCOPED_ONLY};
use headwater_check::readset::{ReadSet, Rule};

fn date() -> Date {
    Date::parse("2026-08-12").expect("a date")
}

fn rule(name: &'static str, needs_clock: bool) -> Rule {
    Rule {
        name,
        version: 1,
        needs_clock,
        needs_prior: false,
    }
}

fn prior_reading(name: &'static str) -> Rule {
    Rule {
        name,
        version: 1,
        needs_clock: false,
        needs_prior: true,
    }
}

fn skipped(rule: &'static str, reads: Vec<Input>) -> Instance {
    Instance::skipped(rule, Grain::Document, reads, CHANGE_SCOPED_ONLY)
}

fn instance(rule: &'static str, reads: Vec<Input>) -> Instance {
    Instance::of(rule, Grain::Document, reads, Outcome::Passed)
}

fn over_the_corpus(rule: &'static str) -> Instance {
    Instance::of(
        rule,
        Grain::Corpus,
        vec![Input::new("a.md", Some("sha256:a"))],
        Outcome::Passed,
    )
}

#[test]
fn the_union_holds_each_document_once_in_path_order() {
    let set = ReadSet::of(
        "sha256:lock",
        date(),
        &[rule("r", false)],
        &[
            instance("r", vec![Input::new("b.md", Some("sha256:b"))]),
            instance(
                "s",
                vec![
                    Input::new("b.md", Some("sha256:b")),
                    Input::new("a.md", Some("sha256:a")),
                ],
            ),
        ],
    );
    let paths: Vec<&str> = set.inputs.iter().map(|i| i.path.as_str()).collect();
    assert_eq!(paths, vec!["a.md", "b.md"]);
}

#[test]
fn an_input_with_no_digest_is_published_and_counted() {
    let set = ReadSet::of(
        "sha256:lock",
        date(),
        &[],
        &[instance("r", vec![Input::new("a.md", None)])],
    );
    assert_eq!(set.unhashed(), 1);
    assert!(set.render().contains("input a.md -"));
    assert!(set.summary().contains("1 of them with no content hash"));
}

#[test]
fn the_artifact_carries_the_lock_the_clock_and_the_versions() {
    let text = ReadSet::of(
        "sha256:lock",
        date(),
        &[rule("first.rule", false), rule("second.rule", false)],
        &[instance("first.rule", vec![Input::new("a.md", Some("d"))])],
    )
    .render();
    assert_eq!(
        text,
        "lock sha256:lock\nclock 2026-08-12\nversion first.rule 1\nversion second.rule 1\ninput a.md d\n"
    );
}

#[test]
fn a_corpus_grained_instance_writes_a_barrier_line() {
    let set = ReadSet::of(
        "sha256:lock",
        date(),
        &[rule("wide.rule", false)],
        &[over_the_corpus("wide.rule")],
    );
    assert_eq!(set.barriers, vec!["wide.rule"]);
    assert!(set.render().contains("\nbarrier wide.rule\n"));
    assert!(set.summary().contains("1 barrier that no gate carries"));
}

#[test]
fn windowed_names_the_rules_that_read_the_clock_and_ran() {
    let set = ReadSet::of(
        "sha256:lock",
        date(),
        &[rule("dated.rule", true), rule("absent.rule", true)],
        &[instance("dated.rule", vec![Input::new("a.md", Some("d"))])],
    );
    assert_eq!(set.windowed, vec!["dated.rule"]);
    assert!(!set.render().contains("windowed absent.rule"));
}

#[test]
fn a_document_grained_rule_is_no_barrier() {
    let set = ReadSet::of(
        "sha256:lock",
        date(),
        &[rule("narrow.rule", false)],
        &[instance("narrow.rule", vec![Input::new("a.md", Some("d"))])],
    );
    assert!(set.barriers.is_empty());
    assert!(!set.render().contains("barrier"));
    assert_eq!(set.summary(), "1 documents in the read set");
}

#[test]
fn a_verdict_that_rests_on_a_change_is_named_and_a_skipped_one_is_not() {
    let inputs = vec![Input::new("a.md", Some("sha256:one"))];
    let decided = ReadSet::of(
        "sha256:lock",
        date(),
        &[prior_reading("warrant.promoted")],
        &[instance("warrant.promoted", inputs.clone())],
    );
    assert_eq!(decided.scoped, vec!["warrant.promoted"]);
    assert!(decided.render().contains("change-scoped warrant.promoted\n"));

    let skipped_only = ReadSet::of(
        "sha256:lock",
        date(),
        &[prior_reading("warrant.promoted")],
        &[skipped("warrant.promoted", inputs)],
    );
    assert!(skipped_only.scoped.is_empty());
    assert!(!skipped_only.render().contains("change-scoped"));
}

#[test]
fn the_first_read_of_a_path_is_the_one_the_union_keeps() {
    let set = ReadSet::of(
        "l",
        date(),
        &[],
        &[
            instance("r", vec![Input::new("b.md", None), Input::new("a.md", Some("one"))]),
            instance("s", vec![Input::new("a.md", Some("two")), Input::new("b.md", Some("x"))]),
        ],
    );
    assert_eq!(
        set.inputs,
        vec![Input::new("a.md", Some("one")), Input::new("b.md", None)]
    );
    assert_eq!(
        set.summary(),
        "2 documents in the read set, 1 of them with no content hash"
    );
}

#[test]
fn two_barriers_are_counted_in_the_plural() {
    let set = ReadSet::of(
        "l",
        date(),
        &[rule("one", false), rule("two", false)],
        &[over_the_corpus("one"), over_the_corpus("two")],
    );
    assert_eq!(
        set.summary(),
        "1 documents in the read set, and 2 barriers that no gate carries across a merge"
    );
}
