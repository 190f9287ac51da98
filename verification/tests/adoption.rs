use headwater_check::adoption::{apply, Declared, Ledger, Pair, Refused, State, Task, Unread};
use headwater_check::context::Date;
use headwater_check::finding::{Finding, Severity};

fn finding(path: &str, rule: &'static str) -> Finding {
    Finding {
        rule,
        severity: Severity::Warn,
        obligation: None,
        path: path.to_string(),
        line: 1,
        column: 1,
        message: "a message".to_string(),
        remediation: "a remediation".to_string(),
        patch: None,
    }
}

fn day(text: &str) -> Date {
    Date::parse(text).expect("a date")
}

fn pair(path: &str, rule: &str) -> Pair {
    Pair { path: path.to_string(), rule: rule.to_string() }
}

fn task(id: &str, pairs: Vec<Pair>) -> Task {
    Task {
        id: id.to_string(),
        statement: "the corpus states no summary".to_string(),
        owner: "the docs guild".to_string(),
        until: day("2027-01-01"),
        pairs,
        state: State::Open,
        held: 0,
        closed: Vec::new(),
    }
}

fn declared(tasks: Vec<Task>) -> Declared {
    Declared { tasks, refused: Vec::new(), unread: Vec::new() }
}

#[test]
fn a_task_built_by_hand_holds_one_pair_and_not_its_neighbors() {
    let d = declared(vec![task("AD-1", vec![pair("docs/a.md", "facet.required.missing")])]);
    let findings = vec![
        finding("docs/a.md", "facet.required.missing"),
        finding("docs/a.md", "voice.forbidden_construction"),
        finding("docs/b.md", "facet.required.missing"),
    ];
    let (kept, ledger) = apply(findings, d, day("2026-08-13"));
    assert_eq!(ledger.pending.len(), 1);
    assert_eq!(ledger.pending[0].path, "docs/a.md");
    assert_eq!(ledger.pending[0].rule, "facet.required.missing");
    assert_eq!(kept.len(), 2, "the two neighbors stayed loud");
    assert_eq!(ledger.open(), 1);
}

#[test]
fn a_declared_pair_that_stopped_failing_is_closed() {
    let d = declared(vec![task(
        "AD-1",
        vec![pair("docs/a.md", "facet.required.missing"), pair("docs/b.md", "facet.required.missing")],
    )]);
    let (kept, ledger) = apply(vec![finding("docs/a.md", "facet.required.missing")], d, day("2026-08-13"));
    assert!(kept.is_empty());
    assert_eq!(ledger.open(), 1);
    assert_eq!(ledger.closed(), 1);
    assert_eq!(ledger.tasks[0].closed[0].path, "docs/b.md");
}

#[test]
fn a_lapsed_task_holds_nothing_and_until_is_its_last_day() {
    let one = || declared(vec![task("AD-1", vec![pair("docs/a.md", "facet.required.missing")])]);
    let (kept, ledger) = apply(vec![finding("docs/a.md", "facet.required.missing")], one(), day("2027-01-02"));
    assert_eq!(kept.len(), 1, "the finding is reported");
    assert!(ledger.pending.is_empty());
    assert_eq!(ledger.tasks[0].state, State::Expired);
    assert_eq!(ledger.open(), 0);
    let (kept, _) = apply(vec![finding("docs/a.md", "facet.required.missing")], one(), day("2027-01-01"));
    assert!(kept.is_empty(), "`until` is inclusive");
}

#[test]
fn a_pair_declared_by_two_tasks_is_held_once() {
    let d = declared(vec![
        task("AD-1", vec![pair("docs/a.md", "facet.required.missing")]),
        task("AD-2", vec![pair("docs/a.md", "facet.required.missing")]),
    ]);
    let (kept, ledger) = apply(vec![finding("docs/a.md", "facet.required.missing")], d, day("2026-08-13"));
    assert!(kept.is_empty());
    assert_eq!(ledger.pending.len(), 1);
    assert_eq!(ledger.open(), 1);
    assert_eq!(ledger.tasks[0].held, 1);
    assert_eq!(ledger.tasks[1].held, 0);
    assert_eq!(ledger.tasks[1].closed.len(), 1);
    assert_eq!(ledger.held(), 1);
}

#[test]
fn pending_findings_are_counted_by_rule_most_first() {
    let d = declared(vec![task(
        "AD-1",
        vec![pair("a.md", "b.rule"), pair("b.md", "b.rule"), pair("a.md", "a.rule"), pair("c.md", "c.rule")],
    )]);
    let (_, ledger) = apply(
        vec![finding("a.md", "a.rule"), finding("a.md", "b.rule"), finding("b.md", "b.rule"), finding("c.md", "c.rule")],
        d,
        day("2026-08-13"),
    );
    assert_eq!(ledger.by_rule(), vec![("b.rule", 2), ("a.rule", 1), ("c.rule", 1)]);
}

#[test]
fn the_ledger_renders_its_counts_and_each_task() {
    let empty = Ledger { tasks: Vec::new(), refused: Vec::new(), unread: Vec::new(), pending: Vec::new() };
    assert!(empty.is_empty());
    assert_eq!(empty.render(), "");

    let d = Declared {
        tasks: vec![task("AD-1", vec![pair("docs/a.md", "facet.required.missing")])],
        refused: vec![Refused { task: "task 2".to_string(), why: "it is not a mapping".to_string() }],
        unread: vec![Unread { key: "from".to_string(), why: "it names a migration state".to_string() }],
    };
    let (_, ledger) = apply(vec![finding("docs/a.md", "facet.required.missing")], d, day("2026-08-13"));
    let text = ledger.render();
    assert!(text.starts_with(
        "adoption\n  1 pairs open, 0 closed, holding 1 finding, in 1 task\n  AD-1 1 open, 0 closed, holding 1 finding, owner the docs guild, until 2027-01-01\n"
    ), "{text}");
    assert!(text.contains("`from`"), "{text}");
    assert!(text.contains("task 2 holds nothing: it is not a mapping"), "{text}");
}
