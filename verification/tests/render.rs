use headwater_check::finding::{Finding, Severity};

fn finding(path: &str, line: usize, rule: &'static str) -> Finding {
    Finding {
        rule,
        severity: Severity::Error,
        obligation: None,
        path: path.to_string(),
        line,
        column: 1,
        message: "m".to_string(),
        remediation: "x".to_string(),
        patch: None,
    }
}

#[test]
fn a_finding_with_no_line_prints_the_path_alone() {
    assert!(finding("a.md", 0, "r").render().starts_with("a.md ✗ error\n"));
}

#[test]
fn a_rendered_finding_names_its_place_its_rule_its_obligation_and_its_fix() {
    let mut one = finding("a.md", 3, "r");
    one.obligation = Some("OB-001".to_string());
    assert_eq!(one.render(), "a.md:3:1 ✗ error\n  r (OB-001): m\n  fix: x\n");
    let two = Finding { severity: Severity::Warn, ..finding("b.md", 2, "q") };
    assert_eq!(two.render(), "b.md:2:1 ▲ warn\n  q: m\n  fix: x\n");
}
