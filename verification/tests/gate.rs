use headwater_check::context::Date;
use headwater_check::gate::{decide, verdict_of, Recorded, Reason};
use headwater_check::instance::{Grain, Input, Instance, Outcome};
use headwater_check::readset::{ReadSet, Rule};

fn day(text: &str) -> Date {
    Date::parse(text).expect("a date")
}

fn recorded(text: &str) -> Recorded {
    Recorded::parse(text).expect("an artifact this module wrote")
}

fn plain() -> Recorded {
    recorded("lock sha256:lock\nclock 2026-08-13\nversion a.rule 1\ninput docs/a.md sha256:a\n")
}

fn tree<'a>(pairs: &'a [(&'a str, &'a str)]) -> impl Fn(&str) -> Option<String> + 'a {
    move |path: &str| {
        pairs
            .iter()
            .find(|(known, _)| *known == path)
            .map(|(_, digest)| (*digest).to_string())
    }
}

#[test]
fn what_a_run_renders_is_what_a_gate_parses() {
    let set = ReadSet::of(
        "sha256:lock",
        day("2026-08-13"),
        &[
            Rule {
                name: "wide.rule",
                version: 2,
                needs_clock: false,
                needs_prior: false,
            },
            Rule {
                name: "dated.rule",
                version: 1,
                needs_clock: true,
                needs_prior: false,
            },
        ],
        &[
            Instance::of(
                "wide.rule",
                Grain::Corpus,
                vec![Input::new("docs/a.md", Some("sha256:a"))],
                Outcome::Passed,
            ),
            Instance::of(
                "dated.rule",
                Grain::Document,
                vec![Input::new("docs/b.md", None)],
                Outcome::Passed,
            ),
        ],
    );
    let read = Recorded::parse(&set.render()).expect("the artifact this run wrote");
    assert_eq!(read.lock, "sha256:lock");
    assert_eq!(read.clock, day("2026-08-13"));
    assert_eq!(read.barriers, vec!["wide.rule".to_string()]);
    assert_eq!(read.windowed, vec!["dated.rule".to_string()]);
    assert_eq!(
        read.versions,
        vec![("wide.rule".to_string(), 2), ("dated.rule".to_string(), 1)]
    );
    assert_eq!(
        read.inputs,
        vec![
            Input::new("docs/a.md", Some("sha256:a")),
            Input::new("docs/b.md", None),
        ]
    );
}

#[test]
fn an_unchanged_tree_carries_the_verdict() {
    let verdict = decide(
        &plain(),
        "sha256:lock",
        day("2026-08-13"),
        tree(&[("docs/a.md", "sha256:a")]),
    );
    assert!(verdict.carries());
    assert!(verdict.render().contains("carry to this tree"));
    assert!(verdict
        .render()
        .contains("nothing about a document this tree gained"));
}

#[test]
fn a_moved_hash_voids_the_verdict() {
    let verdict = decide(
        &plain(),
        "sha256:lock",
        day("2026-08-13"),
        tree(&[("docs/a.md", "sha256:other")]),
    );
    assert!(!verdict.carries());
    assert_eq!(
        verdict.reasons,
        vec![Reason::Moved {
            path: "docs/a.md".to_string(),
            recorded: "sha256:a".to_string(),
            found: "sha256:other".to_string(),
        }]
    );
}

#[test]
fn a_deleted_input_voids_the_verdict() {
    let verdict = decide(&plain(), "sha256:lock", day("2026-08-13"), tree(&[]));
    assert_eq!(
        verdict.reasons,
        vec![Reason::Gone {
            path: "docs/a.md".to_string()
        }]
    );
}

#[test]
fn a_moved_lock_voids_the_verdict() {
    let verdict = decide(
        &plain(),
        "sha256:other",
        day("2026-08-13"),
        tree(&[("docs/a.md", "sha256:a")]),
    );
    assert!(!verdict.carries());
    assert!(matches!(verdict.reasons[0], Reason::LockMoved { .. }));
}

#[test]
fn a_barrier_never_carries_even_when_every_listed_hash_stands() {
    let held = recorded(
        "lock sha256:lock\nclock 2026-08-13\nbarrier identifier.claimed_twice\n\
         version identifier.claimed_twice 1\ninput docs/a.md sha256:a\n",
    );
    let verdict = decide(
        &held,
        "sha256:lock",
        day("2026-08-13"),
        tree(&[("docs/a.md", "sha256:a")]),
    );
    assert!(!verdict.carries());
    assert_eq!(
        verdict.reasons,
        vec![Reason::Barrier {
            rule: "identifier.claimed_twice".to_string()
        }]
    );
    assert!(verdict
        .render()
        .contains("a list of members states no extent"));
}

#[test]
fn a_later_day_voids_a_windowed_rule() {
    let held = recorded(
        "lock sha256:lock\nclock 2026-08-13\nwindowed relation.participation.overdue\n\
         version relation.participation.overdue 1\ninput docs/a.md sha256:a\n",
    );
    let standing = tree(&[("docs/a.md", "sha256:a")]);
    assert!(decide(&held, "sha256:lock", day("2026-08-13"), &standing).carries());
    let later = decide(&held, "sha256:lock", day("2026-09-13"), &standing);
    assert_eq!(
        later.reasons,
        vec![Reason::DayMoved {
            rule: "relation.participation.overdue".to_string(),
            recorded: day("2026-08-13"),
            asked: day("2026-09-13"),
        }]
    );
}

#[test]
fn a_later_day_carries_a_run_that_read_no_clock() {
    let verdict = decide(
        &plain(),
        "sha256:lock",
        day("2027-01-01"),
        tree(&[("docs/a.md", "sha256:a")]),
    );
    assert!(verdict.carries());
}

#[test]
fn an_input_with_no_hash_stops_the_gate() {
    let held = recorded("lock sha256:lock\nclock 2026-08-13\ninput docs/a.md -\n");
    let verdict = decide(
        &held,
        "sha256:lock",
        day("2026-08-13"),
        tree(&[("docs/a.md", "sha256:a")]),
    );
    assert_eq!(
        verdict.reasons,
        vec![Reason::Unhashed {
            path: "docs/a.md".to_string()
        }]
    );
}

#[test]
fn an_unknown_keyword_is_refused() {
    let refusal = Recorded::parse("lock sha256:l\nclock 2026-08-13\nrumour docs/a.md\n")
        .expect_err("a line no keyword opens");
    assert_eq!(refusal.line, 3);
    assert!(refusal.render().contains("no keyword of a read set"));
}

#[test]
fn an_artifact_with_no_lock_is_refused() {
    let refusal = Recorded::parse("clock 2026-08-13\n").expect_err("no lock");
    assert!(refusal.render().contains("states no lock"));
}

#[test]
fn a_change_scoped_verdict_never_carries_even_when_every_listed_hash_stands() {
    let held = recorded(
        "lock sha256:lock\nclock 2026-08-13\nchange-scoped warrant.promoted\n\
         version warrant.promoted 1\ninput docs/a.md sha256:a\n",
    );
    assert_eq!(held.scoped, vec!["warrant.promoted".to_string()]);

    let verdict = decide(
        &held,
        "sha256:lock",
        day("2026-08-13"),
        tree(&[("docs/a.md", "sha256:a")]),
    );
    assert!(!verdict.carries(), "{:?}", verdict.reasons);
    assert!(matches!(
        verdict.reasons.first(),
        Some(Reason::ChangeScoped { .. })
    ));
    assert!(verdict
        .render()
        .contains("lists corpus paths rather than changes"));
}

#[test]
fn a_clock_that_is_not_a_date_and_an_edition_that_is_not_a_number_are_refused() {
    let clock = Recorded::parse("lock l\nclock yesterday\n").expect_err("no date");
    assert_eq!(clock.render(), "line 2: the clock is not a date of the form YYYY-MM-DD");
    let edition = Recorded::parse("lock l\nclock 2026-08-13\nversion r 4294967296\n")
        .expect_err("too large");
    assert_eq!(edition.line, 3);
    assert!(edition.reason.contains("not a whole number"));
    let fits = Recorded::parse("lock l\nclock 2026-08-13\nversion r +4294967295\n")
        .expect("the largest edition");
    assert_eq!(fits.versions, vec![("r".to_string(), u32::MAX)]);
    let no_clock = Recorded::parse("lock l\n\n   \n").expect_err("no clock");
    assert_eq!(no_clock.line, 0);
    assert!(no_clock.render().contains("states no clock"));
}

#[test]
fn the_reasons_come_in_their_fixed_order_and_each_has_a_token() {
    let held = recorded(
        "lock old\r\nclock 2026-08-13\nwindowed w\nbarrier b\nchange-scoped c\n\
         input x.md -\ninput y.md sha256:y\ninput z.md sha256:z",
    );
    let found = vec![Some("sha256:x".to_string()), None, Some("sha256:z".to_string())];
    let verdict = verdict_of(&held, "new", day("2026-08-14"), &found);
    let tokens: Vec<&str> = verdict.reasons.iter().map(|r| r.token()).collect();
    assert_eq!(
        tokens,
        vec!["lock_moved", "barrier", "change_scoped", "day_moved", "unhashed", "gone"]
    );
    assert_eq!(verdict.listed, 3);
    assert_eq!(
        verdict.reasons[3].render(),
        "w read the clock on 2026-08-13, and this gate is asked about 2026-08-14"
    );
    assert!(verdict.render().starts_with(
        "the verdicts this run reached do not carry to this tree\n  the taxonomy lock reads new and this verdict rests on old\n"
    ));
}

#[test]
fn a_reason_carries_its_values_as_members_beside_its_sentence() {
    let moved = Reason::Moved {
        path: "docs/a.md".to_string(),
        recorded: "aaa".to_string(),
        found: "bbb".to_string(),
    };
    let members = moved.members();
    let names: Vec<&str> = members.iter().map(|(name, _)| *name).collect();
    assert_eq!(names, vec!["reason", "says", "path", "recorded", "found"]);
    assert_eq!(members[0].1, "moved");
    assert_eq!(members[1].1, moved.render());
    assert_eq!(members[2].1, "docs/a.md");
    assert_eq!(members[3].1, "aaa");
    assert_eq!(members[4].1, "bbb");

    let day = Reason::DayMoved {
        rule: "lifecycle.state".to_string(),
        recorded: Date::parse("2026-08-12").expect("a date"),
        asked: Date::parse("2026-08-13").expect("a date"),
    };
    let members = day.members();
    assert_eq!(members.len(), 5);
    assert_eq!(members[0].1, "day_moved");
    assert_eq!((members[3].0, members[3].1.as_str()), ("recorded", "2026-08-12"));
    assert_eq!((members[4].0, members[4].1.as_str()), ("asked", "2026-08-13"));

    let gone = Reason::Gone { path: "docs/b.md".to_string() };
    assert_eq!(gone.members().len(), 3);
    assert_eq!(gone.members()[2], ("path", "docs/b.md".to_string()));
}
