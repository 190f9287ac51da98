use headwater_check::context::Date;
use headwater_check::fill::{filled, fold};
use headwater_check::gate::Recorded;
use headwater_check::instance::{Grain, Input, Instance, Outcome};
use headwater_check::readset::{ReadSet, Rule};

#[test]
fn a_rendered_date_reads_back_as_itself() {
    for text in ["1970-01-01", "2000-02-29", "2026-08-13", "1900-03-01", "0001-01-01", "9999-12-31", "2024-12-31"] {
        let d = Date::parse(text).expect("a date");
        assert_eq!(d.render(), text);
        assert_eq!(Date::parse(&d.render()), Some(d));
    }
    for days in [-719_468i64, -1, 0, 59, 11_016, 19_723, 2_932_896] {
        let d = Date::from_days(days);
        assert_eq!(Date::parse(&d.render()).map(|p| p.days_since(Date::from_days(0))), Some(days));
    }
}

#[test]
fn what_a_read_set_writes_a_gate_reads_back() {
    let clock = Date::parse("2026-08-12").expect("a date");
    let rules = [
        Rule { name: "a.rule", version: 3, needs_clock: true, needs_prior: false },
        Rule { name: "b.rule", version: 1, needs_clock: false, needs_prior: false },
    ];
    let set = ReadSet::of(
        "sha256:lock",
        clock,
        &rules,
        &[
            Instance::of("a.rule", Grain::Document, vec![Input::new("docs/b.md", Some("sha256:b"))], Outcome::Passed),
            Instance::of(
                "b.rule",
                Grain::Corpus,
                vec![Input::new("docs/a.md", None), Input::new("docs/b.md", Some("sha256:b"))],
                Outcome::Passed,
            ),
        ],
    );
    let back = Recorded::parse(&set.render()).expect("an artifact the read set wrote");
    assert_eq!(back.lock, "sha256:lock");
    assert_eq!(back.clock, clock);
    assert_eq!(back.barriers, vec!["b.rule".to_string()]);
    assert_eq!(back.windowed, vec!["a.rule".to_string()]);
    assert_eq!(back.versions, vec![("a.rule".to_string(), 3), ("b.rule".to_string(), 1)]);
    assert_eq!(back.inputs, vec![Input::new("docs/a.md", None), Input::new("docs/b.md", Some("sha256:b"))]);
}

#[test]
fn a_field_holding_a_tab_reads_back_as_written() {
    let clock = Date::parse("0999-01-31").expect("a date");
    let set = ReadSet::of(
        "sha256:\tlock",
        clock,
        &[],
        &[Instance::of("a.rule", Grain::Document, vec![Input::new("docs/a\tb.md", Some("d\tx"))], Outcome::Passed)],
    );
    let back = Recorded::parse(&set.render()).expect("an artifact the read set wrote");
    assert_eq!(back.lock, "sha256:\tlock");
    assert_eq!(back.clock, clock);
    assert_eq!(back.inputs, vec![Input::new("docs/a\tb.md", Some("d\tx"))]);
}

fn words(text: &str) -> Vec<&str> {
    text.split_whitespace().collect()
}

#[test]
fn a_fold_moves_only_white_space() {
    let text = "a digest sha256:0123456789abcdef0123456789abcdef stays whole\nand a second paragraph of ordinary words follows it";
    for width in [1, 10, 20, 80] {
        assert_eq!(words(&fold(text, width)), words(text));
    }
}

#[test]
fn a_report_whose_lines_fit_comes_back_unchanged() {
    let report = "a short line\n  an indented one\n\nand a last line\n";
    assert_eq!(filled(report, 80), report);
    assert_eq!(filled("", 10), "");
}

#[test]
fn every_line_of_a_fold_keeps_to_the_width_or_is_one_long_word() {
    let text = "one two three four five six seven eight nine ten a-very-long-identifier-indeed x";
    for width in [5usize, 10, 17, 80] {
        let folded = fold(text, width);
        for line in folded.split('\n') {
            assert!(line.chars().count() <= width || !line.contains(' '), "{line:?} at {width}");
        }
    }
    assert_eq!(fold("aaa bbb ccc", 7), "aaa bbb\nccc");
}

#[test]
fn a_filled_report_keeps_its_words_whatever_the_width() {
    let report = "a heading line that runs well past a narrow width\n  an indented line of several ordinary words\n\nlast\n";
    for width in [4usize, 12, 30, 80] {
        assert_eq!(words(&filled(report, width)), words(report), "at {width}");
    }
}
