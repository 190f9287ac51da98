use headwater_check::adoption::{apply, read, State};
use headwater_check::node::Node;
use headwater_check::context::Date;
use headwater_check::finding::{Finding, Severity};

const RULES: [&str; 2] = ["facet.required.missing", "voice.forbidden_construction"];

fn s(text: &str) -> Node {
    Node::Scalar(text.to_string())
}

fn map(entries: Vec<(&str, Node)>) -> Node {
    Node::Mapping(entries.into_iter().map(|(k, v)| (k.to_string(), v)).collect())
}

fn block(entries: Vec<(&str, Node)>) -> Vec<(String, Node)> {
    entries.into_iter().map(|(k, v)| (k.to_string(), v)).collect()
}

fn pair(path: &str, rule: &str) -> Node {
    map(vec![("path", s(path)), ("rule", s(rule))])
}

fn task_node(id: &str, statement: &str, owner: &str, until: &str, pairs: Vec<Node>) -> Node {
    map(vec![
        ("id", s(id)),
        ("statement", s(statement)),
        ("owner", s(owner)),
        ("until", s(until)),
        ("pairs", Node::List(pairs)),
    ])
}

fn one_task(pairs: Vec<Node>) -> Vec<(String, Node)> {
    block(vec![(
        "tasks",
        Node::List(vec![task_node("AD-1", "the corpus states no summary", "the docs guild", "2027-01-01", pairs)]),
    )])
}

fn finding(path: &str, rule: &'static str) -> Finding {
    Finding {
        rule,
        severity: Severity::Warn,
        obligation: None,
        path: path.to_string(),
        line: 1,
        column: 1,
        message: "a message".to_string(),
        remediation: "a remediation".to_string(),
        patch: None,
    }
}

fn day(text: &str) -> Date {
    Date::parse(text).expect("a date")
}

#[test]
fn a_task_holds_one_pair_and_not_the_document_or_the_rule_around_it() {
    let declared = read(&one_task(vec![pair("docs/a.md", "facet.required.missing")]), &RULES);
    assert!(declared.refused.is_empty(), "{:?}", declared.refused);
    let findings = vec![
        finding("docs/a.md", "facet.required.missing"),
        finding("docs/a.md", "voice.forbidden_construction"),
        finding("docs/b.md", "facet.required.missing"),
    ];
    let (kept, ledger) = apply(findings, declared, day("2026-08-13"));
    assert_eq!(ledger.pending.len(), 1);
    assert_eq!(ledger.pending[0].path, "docs/a.md");
    assert_eq!(ledger.pending[0].rule, "facet.required.missing");
    assert_eq!(kept.len(), 2, "the two neighbors stayed loud");
    assert_eq!(ledger.open(), 1);
}

#[test]
fn a_pair_that_stopped_failing_is_reported_closed() {
    let b = one_task(vec![pair("docs/a.md", "facet.required.missing"), pair("docs/b.md", "facet.required.missing")]);
    let (kept, ledger) =
        apply(vec![finding("docs/a.md", "facet.required.missing")], read(&b, &RULES), day("2026-08-13"));
    assert!(kept.is_empty());
    assert_eq!(ledger.open(), 1);
    assert_eq!(ledger.closed(), 1);
    assert_eq!(ledger.tasks[0].closed[0].path, "docs/b.md");
}

#[test]
fn an_expired_task_holds_nothing_and_the_findings_come_back() {
    let b = one_task(vec![pair("docs/a.md", "facet.required.missing")]);
    let (kept, ledger) =
        apply(vec![finding("docs/a.md", "facet.required.missing")], read(&b, &RULES), day("2027-01-02"));
    assert_eq!(kept.len(), 1, "the finding is reported");
    assert!(ledger.pending.is_empty());
    assert_eq!(ledger.tasks[0].state, State::Expired);
    assert_eq!(ledger.open(), 0);
    let (kept, _) = apply(vec![finding("docs/a.md", "facet.required.missing")], read(&b, &RULES), day("2027-01-01"));
    assert!(kept.is_empty(), "`until` is inclusive");
}

#[test]
fn a_pattern_is_refused_because_it_would_blanket_a_document_nothing_has_seen() {
    let declared = read(&one_task(vec![pair("docs/*.md", "facet.required.missing")]), &RULES);
    assert!(declared.tasks.is_empty());
    assert_eq!(declared.refused.len(), 1);
    assert!(declared.refused[0].why.contains("one document at a time"), "{:?}", declared.refused);
}

#[test]
fn a_task_with_no_owner_is_refused() {
    let b = block(vec![(
        "tasks",
        Node::List(vec![map(vec![
            ("id", s("AD-1")),
            ("statement", s("the corpus states no summary")),
            ("until", s("2027-01-01")),
            ("pairs", Node::List(vec![pair("docs/a.md", "facet.required.missing")])),
        ])]),
    )]);
    let declared = read(&b, &RULES);
    assert!(declared.tasks.is_empty());
    assert!(declared.refused[0].why.contains("`owner`"), "{:?}", declared.refused);
    let (kept, ledger) = apply(vec![finding("docs/a.md", "facet.required.missing")], declared, day("2026-08-13"));
    assert_eq!(kept.len(), 1);
    assert_eq!(ledger.refused.len(), 1);
}

#[test]
fn a_task_with_no_expiry_or_an_unreadable_one_is_refused() {
    for until in [None, Some("soon")] {
        let mut entries = vec![("id", s("AD-1")), ("statement", s("a statement")), ("owner", s("an owner"))];
        if let Some(u) = until {
            entries.push(("until", s(u)));
        }
        entries.push(("pairs", Node::List(vec![pair("docs/a.md", "facet.required.missing")])));
        let declared = read(&block(vec![("tasks", Node::List(vec![map(entries)]))]), &RULES);
        assert!(declared.tasks.is_empty(), "accepted `{until:?}`");
        assert_eq!(declared.refused.len(), 1);
    }
}

#[test]
fn a_pair_naming_a_rule_this_engine_does_not_carry_is_refused() {
    let declared = read(&one_task(vec![pair("docs/a.md", "voice.no_such_rule")]), &RULES);
    assert!(declared.tasks.is_empty());
    assert!(declared.refused[0].why.contains("voice.no_such_rule"), "{:?}", declared.refused);
}

#[test]
fn a_block_level_key_this_engine_does_not_read_is_named_and_holds_nothing() {
    let b = block(vec![
        ("from", s("99.0.0")),
        ("severity", s("quiet")),
        (
            "tasks",
            Node::List(vec![task_node(
                "AD-1",
                "a statement",
                "an owner",
                "2027-01-01",
                vec![pair("docs/a.md", "facet.required.missing")],
            )]),
        ),
    ]);
    let declared = read(&b, &RULES);
    assert!(declared.refused.is_empty(), "{:?}", declared.refused);
    assert_eq!(declared.tasks.len(), 1, "the task beside it is still read");
    assert_eq!(declared.unread.len(), 2);
    assert_eq!(declared.unread[0].key, "from");
    assert!(declared.unread[0].why.contains("migration state"), "{:?}", declared.unread);
    assert_eq!(declared.unread[1].key, "severity");
    assert!(declared.unread[1].why.contains("no place to write one"), "{:?}", declared.unread);
    let (kept, ledger) = apply(vec![finding("docs/a.md", "facet.required.missing")], declared, day("2026-08-13"));
    assert!(kept.is_empty());
    assert_eq!(ledger.unread.len(), 2);
    assert!(ledger.render().contains("`from`"), "{}", ledger.render());
}

#[test]
fn a_task_level_key_this_engine_does_not_read_refuses_the_task() {
    let b = block(vec![(
        "tasks",
        Node::List(vec![map(vec![
            ("id", s("AD-1")),
            ("statement", s("a statement")),
            ("owner", s("an owner")),
            ("until", s("2027-01-01")),
            ("to", s("4.0.0")),
            ("pairs", Node::List(vec![pair("docs/a.md", "facet.required.missing")])),
        ])]),
    )]);
    let declared = read(&b, &RULES);
    assert!(declared.unread.is_empty(), "{:?}", declared.unread);
    assert!(declared.tasks.is_empty());
    assert_eq!(declared.refused.len(), 1);
    assert_eq!(declared.refused[0].task, "AD-1");
    assert!(declared.refused[0].why.contains("`to`"), "{:?}", declared.refused);
    let (kept, _) = apply(vec![finding("docs/a.md", "facet.required.missing")], declared, day("2026-08-13"));
    assert_eq!(kept.len(), 1);
}

#[test]
fn a_pair_key_this_engine_does_not_read_refuses_the_task() {
    let p = map(vec![("path", s("docs/a.md")), ("rule", s("facet.required.missing")), ("note", s("soon"))]);
    let declared = read(&one_task(vec![p]), &RULES);
    assert!(declared.tasks.is_empty());
    assert!(declared.refused[0].why.contains("a pair declares `note`"), "{:?}", declared.refused);
}

#[test]
fn a_block_with_no_tasks_is_refused_rather_than_read_as_no_debt() {
    let declared = read(&block(vec![("to", s("acme/x"))]), &RULES);
    assert!(declared.tasks.is_empty());
    assert_eq!(declared.refused.len(), 1);
    assert_eq!(declared.unread.len(), 1);
    assert_eq!(declared.unread[0].key, "to");
}

#[test]
fn a_task_with_an_empty_pair_list_is_refused() {
    let declared = read(
        &block(vec![("tasks", Node::List(vec![task_node("AD-1", "a statement", "an owner", "2027-01-01", vec![])]))]),
        &RULES,
    );
    assert!(declared.tasks.is_empty());
    assert!(declared.refused[0].why.contains("accounts for nothing"), "{:?}", declared.refused);
}

#[test]
fn a_pair_named_by_two_tasks_is_held_once() {
    let b = block(vec![(
        "tasks",
        Node::List(vec![
            task_node("AD-1", "first", "an owner", "2027-01-01", vec![pair("docs/a.md", "facet.required.missing")]),
            task_node("AD-2", "second", "another owner", "2027-01-01", vec![pair("docs/a.md", "facet.required.missing")]),
        ]),
    )]);
    let (kept, ledger) = apply(vec![finding("docs/a.md", "facet.required.missing")], read(&b, &RULES), day("2026-08-13"));
    assert!(kept.is_empty());
    assert_eq!(ledger.pending.len(), 1);
    assert_eq!(ledger.open(), 1);
    assert_eq!(ledger.tasks[0].held, 1);
    assert_eq!(ledger.tasks[1].held, 0);
    assert_eq!(ledger.tasks[1].closed.len(), 1);
}

#[test]
fn a_task_that_is_no_mapping_is_refused_by_its_place() {
    let declared = read(&block(vec![("tasks", Node::List(vec![s("just text")]))]), &RULES);
    assert_eq!(declared.refused[0].task, "task 1");
    assert_eq!(declared.refused[0].why, "it is not a mapping");
}
