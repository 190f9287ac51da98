use headwater_check::claim::{
    contents_for, path_of, takes_a_claim, Claim, Claims, KindScheme, Missing, Scheme, Stale, Typed, MISSING, NO_REPORT,
    NO_STORE, RECONCILE_FIRST, STALE,
};
use headwater_check::index::{Defect, Reported};
use headwater_check::instance::Outcome;
use headwater_check::patch::Patch;
use headwater_check::finding::{sorted, Finding, Severity};
use headwater_check::paint::glyph;
use headwater_check::patch::matching_case;

fn claim(scheme: &str, id: &str, claimant: &str) -> Claim {
    Claim { scheme: scheme.to_string(), id: id.to_string(), claimant: claimant.to_string() }
}

#[test]
fn a_store_is_ordered_by_scheme_then_identifier() {
    let store = Claims::of(vec![
        claim("spec", "HW-SPEC-2", "docs/b.md"),
        claim("dr", "DR-9", "docs/c.md"),
        claim("spec", "HW-SPEC-1", "docs/a.md"),
    ]);
    let ids: Vec<&str> = store.entries().iter().map(|c| c.id.as_str()).collect();
    assert_eq!(ids, ["DR-9", "HW-SPEC-1", "HW-SPEC-2"]);
    assert_eq!(store.claimant("spec", "HW-SPEC-1"), Some("docs/a.md"));
    assert_eq!(store.claimant("spec", "HW-SPEC-3"), None);
    assert_eq!(store.ids_of("spec"), ["HW-SPEC-1", "HW-SPEC-2"]);
    assert!(!store.is_empty());
    assert!(Claims::empty().is_empty());
}

#[test]
fn the_rendering_is_length_prefixed_in_bytes() {
    let store = Claims::of(vec![claim("s", "X-1", "docs/é.md")]);
    assert_eq!(store.render(), "s/X-1 10 docs/é.md\n");
    assert_eq!(Claims::empty().render(), "");
}

#[test]
fn a_claim_lives_under_the_store_and_is_never_empty() {
    assert_eq!(path_of("spec", "HW-SPEC-1"), ".headwater/ids/spec/HW-SPEC-1");
    assert_eq!(contents_for("docs/a.md"), "docs/a.md\n");
    assert_eq!(contents_for(""), "\n");
}

fn finding(path: &str, line: usize, rule: &'static str) -> Finding {
    Finding {
        rule,
        severity: Severity::Error,
        obligation: None,
        path: path.to_string(),
        line,
        column: 1,
        message: "m".into(),
        remediation: "r".into(),
        patch: None,
    }
}

#[test]
fn findings_sort_by_path_then_line_then_rule() {
    let sorted = sorted(vec![
        finding("b.md", 1, "z.rule"),
        finding("a.md", 9, "a.rule"),
        finding("a.md", 2, "z.rule"),
        finding("a.md", 2, "a.rule"),
    ]);
    let order: Vec<(&str, usize, &str)> =
        sorted.iter().map(|f| (f.path.as_str(), f.line, f.rule)).collect();
    assert_eq!(
        order,
        [("a.md", 2, "a.rule"), ("a.md", 2, "z.rule"), ("a.md", 9, "a.rule"), ("b.md", 1, "z.rule")]
    );
}

#[test]
fn every_severity_has_its_own_glyph() {
    let glyphs = [glyph(Severity::Error), glyph(Severity::Warn), glyph(Severity::Info)];
    assert_eq!(glyphs, ["✗", "▲", "·"]);
}

#[test]
fn a_replacement_takes_the_case_of_the_word_it_replaces() {
    assert_eq!(matching_case("Colour", "color"), "Color");
    assert_eq!(matching_case("colour", "color"), "color");
    assert_eq!(matching_case("Colour", "Color"), "Color");
    assert_eq!(matching_case("Ärger", "ärger"), "Ärger");
    assert_eq!(matching_case("Word", ""), "");
}

fn typed(path: &str, kind: Option<&str>, id: &str) -> Typed {
    Typed { path: path.to_string(), kind: kind.map(|k| k.to_string()), id: id.to_string(), line: 2, column: 5 }
}

fn missing_rule() -> Missing {
    Missing::over(
        &[
            KindScheme {
                kind: "decision".to_string(),
                scheme: Some(Scheme { name: "dr".to_string(), allocation: Some(RECONCILE_FIRST.to_string()) }),
                layouts: Vec::new(),
            },
            KindScheme {
                kind: "note".to_string(),
                scheme: Some(Scheme { name: "n".to_string(), allocation: None }),
                layouts: vec![None],
            },
        ],
        vec![
            typed("docs/d1.md", Some("decision"), "DR-1"),
            typed("docs/d2.md", Some("decision"), "DR-2"),
            typed("docs/d3.md", Some("decision"), "DR-3"),
            typed("docs/n.md", Some("note"), "N-1"),
            typed("docs/u.md", None, "U-1"),
        ],
    )
}

#[test]
fn a_missing_claim_needs_the_report_and_the_store() {
    let store = Claims::of(Vec::new());
    assert!(matches!(missing_rule().evaluate(None, Some(&store)), Outcome::Skipped(r) if r == NO_REPORT));
    assert!(matches!(missing_rule().evaluate(Some(&[]), None), Outcome::Skipped(r) if r == NO_STORE));
}

#[test]
fn an_unclaimed_identifier_is_an_error_with_a_claim_to_write() {
    let store = Claims::of(vec![claim("dr", "DR-2", "docs/d2.md")]);
    let duplicated = vec![
        Reported {
            path: "docs/d3.md".to_string(),
            line: 2,
            column: 5,
            defect: Defect::Duplicate {
                id: "DR-3".to_string(),
                other: "docs/d9.md".to_string(),
                other_line: 2,
                other_column: 5,
            },
            said: String::new(),
        },
        Reported { path: "docs/d1.md".to_string(), line: 0, column: 0, defect: Defect::NotAScalar, said: String::new() },
    ];
    let Outcome::Failed(findings) = missing_rule().evaluate(Some(&duplicated), Some(&store)) else {
        panic!("a finding");
    };
    assert_eq!(findings.len(), 1);
    let f = &findings[0];
    assert_eq!(f.rule, MISSING);
    assert_eq!(f.severity, Severity::Error);
    assert_eq!((f.path.as_str(), f.line, f.column), ("docs/d1.md", 2, 5));
    assert_eq!(
        f.message,
        "`DR-1` is spent by docs/d1.md and no file of `.headwater/ids` claims it, so this identifier \
         is invisible to the allocator of every other branch and a second document can be minted onto it"
    );
    assert_eq!(
        f.remediation,
        "run `headwater check --fix`, which writes `.headwater/ids/dr/DR-1` holding `docs/d1.md`"
    );
    assert_eq!(
        f.patch,
        Some(Patch::Create { path: ".headwater/ids/dr/DR-1".to_string(), contents: "docs/d1.md\n".to_string() })
    );
}

#[test]
fn every_identifier_claimed_passes() {
    let store = Claims::of(vec![
        claim("dr", "DR-1", "docs/d1.md"),
        claim("dr", "DR-2", "docs/d2.md"),
        claim("dr", "DR-3", "docs/d3.md"),
    ]);
    assert!(matches!(missing_rule().evaluate(Some(&[]), Some(&store)), Outcome::Passed));
}

fn stale_rule() -> Stale {
    Stale::over(
        "id",
        vec![
            ("docs/a.md".to_string(), Some("DR-1".to_string())),
            ("docs/b.md".to_string(), None),
            ("docs/c.md".to_string(), Some("DR-9".to_string())),
        ],
    )
}

#[test]
fn a_stale_claim_needs_the_store() {
    assert!(matches!(stale_rule().evaluate(None), Outcome::Skipped(r) if r == NO_STORE));
}

#[test]
fn each_way_a_claim_goes_stale_is_one_advisory_finding() {
    let store = Claims::of(vec![
        claim("dr", "DR-1", "docs/a.md"),
        claim("dr", "DR-2", "docs/b.md"),
        claim("dr", "DR-3", "docs/c.md"),
        claim("dr", "DR-4", ""),
        claim("dr", "DR-5", "docs/gone.md"),
    ]);
    let Outcome::Failed(findings) = stale_rule().evaluate(Some(&store)) else {
        panic!("findings");
    };
    let seen: Vec<(&str, &str)> = findings.iter().map(|f| (f.path.as_str(), f.message.as_str())).collect();
    assert_eq!(
        seen,
        [
            (
                "docs/b.md",
                "`.headwater/ids/dr/DR-2` names docs/b.md and that document declares no identifier, so the \
                 claim records a mint that no document carries"
            ),
            (
                "docs/c.md",
                "`.headwater/ids/dr/DR-3` names docs/c.md and that document declares `DR-9`, so one of the \
                 two records a mint that did not happen"
            ),
            (
                ".headwater/ids/dr/DR-4",
                "`.headwater/ids/dr/DR-4` names no document, so `DR-4` is claimed by nobody and two branches \
                 adding this claim would merge without a word"
            ),
        ]
    );
    assert!(findings.iter().all(|f| f.rule == STALE && f.severity == Severity::Warn && f.patch.is_none()));
    assert_eq!(
        findings[1].remediation,
        "decide which of the two moved. Repoint `.headwater/ids/dr/DR-3` at the document whose `id` is `DR-3`, or correct the document"
    );
    assert_eq!(
        findings[2].remediation,
        "write the path of the document whose `id` is `DR-4` into `.headwater/ids/dr/DR-4`, or delete the file if the identifier was never spent"
    );
}

#[test]
fn a_severity_is_written_as_its_word() {
    assert_eq!(Severity::Error.to_string(), "error");
    assert_eq!(Severity::Warn.to_string(), "warn");
    assert_eq!(Severity::Info.to_string(), "info");
}

#[test]
fn a_layout_or_a_reconciling_allocation_takes_a_claim() {
    assert!(takes_a_claim(Some("{sequence:02d}-{slug}.md"), None));
    assert!(takes_a_claim(None, Some("reconcile-first")));
    assert!(!takes_a_claim(None, Some("sequence")));
    assert!(!takes_a_claim(None, None));
}

#[test]
fn a_kind_on_a_shelf_with_a_layout_takes_claims_and_one_on_a_plain_shelf_does_not() {
    let kinds = [
        KindScheme {
            kind: "spec".to_string(),
            scheme: Some(Scheme { name: "spec".to_string(), allocation: None }),
            layouts: vec![None, Some("{sequence:02d}-{slug}.md".to_string())],
        },
        KindScheme {
            kind: "note".to_string(),
            scheme: Some(Scheme { name: "note".to_string(), allocation: None }),
            layouts: vec![None],
        },
        KindScheme { kind: "free".to_string(), scheme: None, layouts: Vec::new() },
    ];
    let rule = Missing::over(&kinds, vec![typed("docs/s.md", Some("spec"), "HW-SPEC-1"), typed("docs/n.md", Some("note"), "N-1")]);
    let store = Claims::of(Vec::new());
    let Outcome::Failed(found) = rule.evaluate(Some(&[]), Some(&store)) else {
        panic!("a finding");
    };
    assert_eq!(found.len(), 1);
    assert_eq!(found[0].path, "docs/s.md");
}
