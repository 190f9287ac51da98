use headwater_check::adoption::{Declared, Pair, State, Task};
use headwater_check::context::{Context, Date};
use headwater_check::coverage::Row;
use headwater_check::finding::{Finding, Severity};
use headwater_check::instance::{Grain, Input, Instance, Outcome};
use headwater_check::readset::Rule;
use headwater_check::{run, Detail, RULES};

fn finding(path: &str, line: usize, rule: &'static str, severity: Severity) -> Finding {
    Finding {
        rule,
        severity,
        obligation: None,
        path: path.to_string(),
        line,
        column: 1,
        message: "m".to_string(),
        remediation: "r".to_string(),
        patch: None,
    }
}

fn input(path: &str) -> Input {
    Input { path: path.to_string(), digest: None }
}

#[test]
fn a_run_collects_stamps_and_sorts_every_finding_and_counts_what_it_ran() {
    let rows = vec![
        Row { path: "docs/a.md".to_string(), class: "typed" },
        Row { path: "docs/b.md".to_string(), class: "typed" },
        Row { path: "docs/c.md".to_string(), class: "typed" },
    ];
    let instances = vec![
        Instance::of(
            "facet.required.missing",
            Grain::Document,
            vec![input("docs/b.md")],
            Outcome::Failed(vec![finding("docs/b.md", 4, "facet.required.missing", Severity::Error)]),
        ),
        Instance::of(
            "warrant.promoted",
            Grain::Document,
            vec![input("docs/a.md")],
            Outcome::Failed(vec![finding("docs/a.md", 2, "warrant.promoted", Severity::Info)]),
        ),
        Instance::of("facet.required.missing", Grain::Document, vec![input("docs/a.md")], Outcome::Passed),
    ];
    let bound = [("facet.required.missing", Some("HW-OBL-0001".to_string()))];
    let rules = [Rule { name: "facet.required.missing", version: 1, needs_clock: false, needs_prior: false }];
    let declared = Declared { tasks: Vec::new(), refused: Vec::new(), unread: Vec::new() };
    let ctx = Context::at(Date::parse("2026-08-12").expect("a date"));
    let r = run(&rows, instances, &bound, &rules, declared, "sha256:lock", &ctx);

    let order: Vec<(&str, usize, &str)> = r.findings.iter().map(|f| (f.path.as_str(), f.line, f.rule)).collect();
    assert_eq!(
        order,
        vec![
            ("docs/a.md", 2, "warrant.promoted"),
            ("docs/b.md", 4, "facet.required.missing"),
            ("docs/c.md", 0, "coverage.document_unchecked"),
        ]
    );
    assert_eq!(r.findings[1].obligation.as_deref(), Some("HW-OBL-0001"));
    assert_eq!(r.findings[0].obligation, None);
    assert!(r.has_errors());
    assert_eq!(r.counts(), vec![(Severity::Error, 1), (Severity::Warn, 1), (Severity::Info, 1)]);
    assert_eq!(r.promotions, 1);
    let per = r.per_rule();
    assert_eq!(per.len(), RULES.len());
    assert_eq!(per[0], ("facet.required.missing", 2));
    assert_eq!(r.served.len(), RULES.len());
    assert_eq!(r.served[0].obligation.as_deref(), Some("HW-OBL-0001"));
    assert_eq!(r.served[0].exportable_as, vec!["jsonschema"]);
    assert_eq!(r.read_set.lock, "sha256:lock");
    assert_eq!(r.read_set.versions, vec![("facet.required.missing", 1)]);
    assert_eq!(r.instances.len(), 3);

    let totals = r.render(Detail::Totals);
    assert!(totals.contains("      2 instances of facet.required.missing\n"), "{totals}");
    assert!(totals.contains("      1 instances of warrant.promoted\n"), "{totals}");
    assert!(!totals.contains("findings"), "{totals}");
    let findings = r.render(Detail::Findings);
    assert!(findings.contains("3 findings\n      1 ✗ error\n      1 ▲ warn\n      1 · info\n"), "{findings}");
    assert!(findings.ends_with(&r.findings[2].render()), "{findings}");
    assert!(!findings.contains("\ninstances\n"));
    let every = r.render(Detail::EveryInstance);
    assert!(every.contains("\ninstances\n  facet.required.missing docs/b.md\n    failed\n"), "{every}");
    assert!(every.starts_with(&r.coverage.render()));
}

#[test]
fn a_run_hands_its_sorted_findings_to_the_adoption_tasks_and_reports_the_ledger() {
    let rows = vec![Row { path: "docs/a.md".to_string(), class: "typed" }];
    let instances = vec![
        Instance::of(
            "facet.required.missing",
            Grain::Document,
            vec![input("docs/a.md")],
            Outcome::Failed(vec![finding("docs/a.md", 3, "facet.required.missing", Severity::Error)]),
        ),
        Instance::of(
            "facet.value.not_permitted",
            Grain::Document,
            vec![input("docs/a.md")],
            Outcome::Failed(vec![finding("docs/a.md", 1, "facet.value.not_permitted", Severity::Warn)]),
        ),
    ];
    let task = Task {
        id: "AD-1".to_string(),
        statement: "the corpus adopts required facets".to_string(),
        owner: "the docs guild".to_string(),
        until: Date::parse("2027-01-01").expect("a date"),
        pairs: vec![
            Pair { path: "docs/a.md".to_string(), rule: "facet.required.missing".to_string() },
            Pair { path: "docs/z.md".to_string(), rule: "facet.required.missing".to_string() },
        ],
        state: State::Open,
        held: 0,
        closed: Vec::new(),
    };
    let declared = Declared { tasks: vec![task], refused: Vec::new(), unread: Vec::new() };
    let ctx = Context::at(Date::parse("2026-08-12").expect("a date"));
    let r = run(&rows, instances, &[], &[], declared, "sha256:lock", &ctx);

    assert_eq!(r.findings.len(), 1);
    assert_eq!(r.findings[0].rule, "facet.value.not_permitted");
    assert_eq!(r.adoption.pending.len(), 1);
    assert_eq!(r.adoption.pending[0].rule, "facet.required.missing");
    assert_eq!(r.adoption.tasks.len(), 1);
    assert_eq!(r.adoption.tasks[0].held, 1);
    assert_eq!(r.adoption.tasks[0].state, State::Open);
    assert_eq!(r.adoption.tasks[0].closed.len(), 1);
    assert_eq!(r.adoption.tasks[0].closed[0].path, "docs/z.md");
    assert!(r.render(Detail::Totals).contains("adoption\n"));
}
