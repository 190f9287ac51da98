use headwater_check::cache::{decode, encode, read, Cache, Report, FORMAT};
use headwater_check::finding::{Finding, Severity};
use headwater_check::instance::{Grain, Input, Outcome};

fn finding() -> Finding {
    Finding {
        rule: "test.rule",
        severity: Severity::Warn,
        obligation: None,
        path: "docs/spec/12-check-layer.md".to_string(),
        line: 12,
        column: 3,
        message: "a message with a\ttab and a\nnewline and a \\ in it".to_string(),
        remediation: "do the thing".to_string(),
        patch: None,
    }
}

#[test]
fn a_passed_outcome_round_trips_and_a_skip_is_never_stored() {
    assert!(matches!(
        decode("r", &encode(&Outcome::Passed).expect("stored")),
        Some(Outcome::Passed)
    ));
    assert_eq!(encode(&Outcome::Skipped("a reason")), None);
}

#[test]
fn a_record_this_engine_cannot_read_is_a_miss() {
    for record in [
        "failed\tcritical\t1\t1\ttrue\tp\tm\tr",
        "failed\terror\tnot-a-line\t1\ttrue\tp\tm\tr",
        "failed\terror\t1\t1\tmaybe\tp\tm\tr",
        "failed\terror\t1\t1\ttrue\tp\tm",
        "failed\terror\t1\t1\ttrue\tp\tm\tr\tone-more",
        "passed\tand-something-else",
        "reused",
        "",
    ] {
        assert!(decode("r", record).is_none(), "{record} read as an outcome");
    }
}

#[test]
fn a_file_this_engine_did_not_write_reads_as_an_empty_cache() {
    assert!(read("headwater check cache 2\nk\tpassed\n").is_empty());
    assert!(read("").is_empty());
    assert_eq!(read(&format!("{FORMAT}\nk\tpassed\nno-tab-here\n")).len(), 1);
}

#[test]
fn a_failed_outcome_round_trips_through_a_record() {
    let record = encode(&Outcome::Failed(vec![finding()])).expect("a verdict is stored");
    assert!(!record.contains('\n'), "a record is one line: {record}");
    assert_eq!(
        record,
        "failed\twarn\t12\t3\tfalse\tdocs/spec/12-check-layer.md\ta message with a\\ttab and a\\nnewline and a \\\\ in it\tdo the thing"
    );
    let Some(Outcome::Failed(back)) = decode("test.rule", &record) else {
        panic!("the record did not read back");
    };
    assert_eq!(back, vec![finding()]);
}

#[test]
fn a_finding_with_a_patch_is_not_stored() {
    let mut one = finding();
    one.patch = Some(headwater_check::patch::Patch::Create {
        path: "a.md".to_string(),
        contents: "x".to_string(),
    });
    assert_eq!(encode(&Outcome::Failed(vec![one])), None);
    assert_eq!(encode(&Outcome::Failed(Vec::new())), None);
}

#[test]
fn two_findings_read_back_in_order() {
    let mut second = finding();
    second.line = 0;
    second.severity = Severity::Info;
    let record = encode(&Outcome::Failed(vec![finding(), second.clone()])).expect("stored");
    let Some(Outcome::Failed(back)) = decode("test.rule", &record) else {
        panic!("the record did not read back");
    };
    assert_eq!(back, vec![finding(), second]);
    assert!(decode("r", "failed\terror\t+7\t1\tfalse\tp\tm\tr").is_some());
    assert!(decode("r", "failed\terror\t-7\t1\tfalse\tp\tm\tr").is_none());
}

#[test]
fn the_last_line_for_a_key_wins_and_keys_come_out_in_order() {
    let entries = read(&format!("{FORMAT}\nb\tpassed\na\tfailed\nb\tx\ty\r\n"));
    assert_eq!(
        entries,
        vec![
            ("a".to_string(), "failed".to_string()),
            ("b".to_string(), "x\ty".to_string())
        ]
    );
}

#[test]
fn a_disabled_cache_keys_nothing_and_writes_nothing() {
    let off = Cache::disabled();
    assert_eq!(
        off.key("r", 1, Grain::Document, false, "a.md", &[Input::new("a.md", Some("d"))]),
        None
    );
    assert_eq!(off.text(), None);
    assert_eq!(off.report(), Report { hits: 0, misses: 0, unkeyed: 0 });
}

#[test]
fn an_input_with_no_digest_is_not_keyed() {
    let cache = Cache::keyed("sha256:lock", None);
    assert_eq!(
        cache.key("r", 1, Grain::Document, false, "a.md", &[Input::new("a.md", None)]),
        None
    );
}

#[test]
fn every_component_of_the_key_moves_it() {
    let cache = Cache::keyed("sha256:lock", None);
    let one = [Input::new("a.md", Some("sha256:one"))];
    let base = cache.key("r", 1, Grain::Document, false, "a.md", &one).expect("a key");
    assert!(!base.contains('\n') && !base.contains('\t'));
    let others = [
        cache.key("other", 1, Grain::Document, false, "a.md", &one),
        cache.key("r", 2, Grain::Document, false, "a.md", &one),
        cache.key("r", 1, Grain::Document, true, "a.md", &one),
        cache.key("r", 1, Grain::Edge, false, "a.md", &one),
        cache.key("r", 1, Grain::Document, false, "b.md", &one),
        cache.key("r", 1, Grain::Document, false, "a.md", &[Input::new("a.md", Some("sha256:two"))]),
        cache.key("r", 1, Grain::Document, false, "a.md", &[Input::new("b.md", Some("sha256:one"))]),
        Cache::keyed("sha256:other", None).key("r", 1, Grain::Document, false, "a.md", &one),
    ];
    for (index, other) in others.iter().enumerate() {
        assert_ne!(Some(&base), other.as_ref(), "component {index} is not keyed");
    }
}

#[test]
fn a_stored_outcome_is_served_on_the_next_run() {
    let mut first = Cache::keyed("sha256:lock", None);
    let one = [Input::new("a.md", Some("sha256:one"))];
    let key = first.key("r", 1, Grain::Document, false, "a.md", &one);
    let o = first.outcome("r", key.clone(), || Outcome::Failed(vec![finding()]));
    assert!(matches!(o, Outcome::Failed(_)));
    assert_eq!(first.report(), Report { hits: 0, misses: 1, unkeyed: 0 });
    let text = first.text().expect("a cache that is on writes");
    assert!(text.starts_with(&format!("{FORMAT}\n")));

    let mut second = Cache::keyed("sha256:lock", Some(&text));
    let o = second.outcome("test.rule", key, || panic!("a hit never evaluates"));
    let Outcome::Failed(back) = o else { panic!("not served") };
    assert_eq!(back, vec![finding()]);
    assert_eq!(second.report(), Report { hits: 1, misses: 0, unkeyed: 0 });
    assert_eq!(second.text(), Some(text));

    let s = second.outcome("r", None, || Outcome::Skipped("why"));
    assert!(matches!(s, Outcome::Skipped("why")));
    assert_eq!(second.report().unkeyed, 1);
    assert_eq!(Report { hits: 2, misses: 3, unkeyed: 4 }.render(), "2 served from cache, 3 evaluated, 4 not keyed\n");
}

#[test]
fn a_disabled_cache_keys_nothing() {
    assert_eq!(
        Cache::disabled().key("r", 1, Grain::Document, false, "a.md", &[Input::new("a.md", Some("d"))]),
        None
    );
}
