use headwater_check::fill::{block, filled, fold, fold_at, unfoldable, WIDEST, WIDTH};

#[test]
fn a_folded_line_is_never_wider_than_the_width() {
    let text = "the manifest of the change this run is scoped to, and every line of it \
                names one document the change carries";
    for width in [20, 40, 70, 80] {
        for line in fold(text, width).lines() {
            assert!(
                line.chars().count() <= width,
                "{width}: {line:?} is {} columns",
                line.chars().count()
            );
        }
    }
    assert_eq!(fold(text, 200), text);
}

/// A word wider than the fold is written past it rather than cut in half.
#[test]
fn a_word_longer_than_the_width_is_never_broken() {
    let text = "see docs/spec/06-engine-architecture.md#the-command-line for it";
    let folded = fold(text, 20);
    assert!(folded.contains("docs/spec/06-engine-architecture.md#the-command-line"));
    assert_eq!(folded.split('\n').next(), Some("see"));
}

#[test]
fn a_break_the_author_wrote_survives_the_fold() {
    assert_eq!(fold("one two\nthree four", 40), "one two\nthree four");
}

/// The last word and the suffix `clap` appends are on one line or on none.
#[test]
fn the_suffix_that_follows_the_text_is_left_room_for() {
    let width = 30;
    let tail = "[default: 0]".chars().count();
    let text = "the rotation seed, which is a member of the run identity";
    let folded = fold_at(text, width, tail);
    let last = folded.lines().last().expect("the fold wrote a line");
    assert!(
        last.chars().count() + 1 + tail <= width,
        "{last:?} plus the suffix is past {width}"
    );
    // The same text with no suffix fills the line the suffix vacated.
    assert_ne!(fold(text, width), folded);
}

/// The label hangs the text under itself, at the label's own width.
#[test]
fn a_block_hangs_its_text_under_its_label() {
    let mut out = String::new();
    block(
        &mut out,
        2,
        "fix: ",
        "rewrite the sentence so that it states one claim and no more",
        40,
    );
    let lines: Vec<&str> = out.trim_end().lines().collect();
    assert_eq!(lines[0], "  fix: rewrite the sentence so that it");
    for line in &lines[1..] {
        assert!(line.starts_with(&" ".repeat(7)), "{line:?}");
    }
    for line in &lines {
        assert!(line.chars().count() <= 40, "{line:?}");
    }
    assert!(out.ends_with('\n'));
}

/// A report whose every line already fits is returned byte for byte.
#[test]
fn a_report_that_already_fits_comes_back_unchanged() {
    let report = "census\n  36 documents\n\n  4 excluded\nchecks\n  0 findings\n";
    assert_eq!(filled(report, WIDTH), report);
}

/// The indent a line arrived with is the indent it keeps, and a wrapped
/// line sits two columns further in.
#[test]
fn a_wrapped_line_keeps_its_indent_and_hangs_two_columns_in() {
    let line = format!("    {}", "word ".repeat(30).trim_end());
    let out = filled(&line, 40);
    let lines: Vec<&str> = out.lines().collect();
    assert!(lines.len() > 1, "the line wrapped");
    assert!(lines[0].starts_with("    w"), "{:?}", lines[0]);
    for one in &lines[1..] {
        assert!(one.starts_with("      w"), "{one:?}");
    }
    for one in &lines {
        assert!(one.chars().count() <= 40, "{one:?}");
    }
}

/// A blank line stays blank, and a trailing newline survives.
#[test]
fn a_blank_line_stays_blank_and_the_closing_newline_survives() {
    let text = "one\n\ntwo\n";
    assert_eq!(filled(text, 10), text);
    assert_eq!(filled("one\n\ntwo", 10), "one\n\ntwo");
    assert_eq!(filled("", 10), "");
}

/// A word past the room is written past it, whole, and says so.
///
/// The line itself opens with `fix:`, which leaves room for the word after
/// it, so the fill does narrow this line. What it cannot narrow is the
/// continuation the path lands on, and that is the line [`unfoldable`]
/// names — the predicate is about a line the fill emitted, not about the
/// line it was handed.
#[test]
fn a_line_whose_one_word_is_past_the_room_is_left_whole() {
    let path = "docs/obligations/0146-the-stop-hook-reads-its-re-entry-guard.md";
    let line = format!("  fix: add a heading to {path}");
    let out = filled(&line, 40);
    assert!(out.contains(path), "the path arrived intact: {out}");
    let carrier = out
        .lines()
        .find(|one| one.contains(path))
        .expect("a line carries the path");
    assert_eq!(carrier.trim(), path, "the path is alone on its line");
    assert!(unfoldable(carrier, 40), "that line names its own reason");
    assert!(!unfoldable("  a short line", 40));
}

/// A line whose *first* word is past the room is left exactly as it came.
///
/// `<path> <severity>` is the shape of every finding's location line, and
/// `<path> <digest>` is the shape of every read-set input. Wrapping the
/// second word of one of those detaches an identity from the thing it
/// identifies, and narrows nothing: the line was already over the width
/// when the first word landed.
#[test]
fn a_line_that_opens_past_the_room_is_not_wrapped_after_it() {
    let path = "docs/obligations/0146-the-stop-hook-reads-its-re-entry-guard.md";
    let line = format!("  {path}:12:3 error");
    assert_eq!(filled(&line, 40), line);
    assert_eq!(filled(&format!("  {path}"), 40), format!("  {path}"));
}

/// **The boundary, walked one column at a time.**
///
/// A guard written as "the first word alone is past the width" is aimed one
/// column short: a first word that *reaches* the width leaves the opening
/// line full, so the second word wraps alone. This walks the opening width
/// from well inside the room to well past it and asserts that a two-word
/// line is either laid out with both words on the first line, or handed back
/// whole — and never split one-and-one.
#[test]
fn a_two_word_line_is_never_split_one_word_to_a_line() {
    let width = 40;
    for opening in 20..=48 {
        // Two spaces of indent, a first word of `opening - 2`, then `warn`.
        let first = "p".repeat(opening - 2);
        let line = format!("  {first} warn");
        let out = filled(&line, width);
        let lines: Vec<&str> = out.lines().collect();
        assert!(
            lines.len() == 1,
            "at an opening of {opening} the line was split into {} lines:\n{out}",
            lines.len()
        );
        assert!(
            lines[0].ends_with(" warn"),
            "at an opening of {opening} the severity left its line: {out:?}"
        );
        // And the predicate the width tests read agrees with what happened.
        assert_eq!(
            unfoldable(&line, width),
            line.chars().count() > width && out == line,
            "at an opening of {opening} the predicate and the fill disagree"
        );
    }
}

/// The exact shape that broke `.githooks/pre-commit`, at 80 columns.
///
/// `docs/decisions/0041-q41-whether-vale-becomes-a-declared-regime-backend.md`
/// with a `:32:1` suffix is 79 columns at indent 2. Its severity used to
/// wrap onto a line of its own, and the commit hook then read that bare
/// `error` as the header of a new finding and dropped the real message.
#[test]
fn a_finding_location_at_the_width_keeps_its_severity() {
    let path = "docs/decisions/0041-q41-whether-vale-becomes-a-declared-regime-backend.md";
    // The opening word reaches the width exactly, which is the boundary the
    // old guard sat one column short of.
    let opening = 2 + path.chars().count() + ":32:1".chars().count();
    assert_eq!(opening, WIDTH, "this case is at the boundary it claims");
    let line = format!("  {path}:32:1 error");
    let out = filled(&line, WIDTH);
    assert_eq!(out, line, "the severity left its location line:\n{out}");
    assert_eq!(out.lines().count(), 1);
}

/// The same guard against a severity marker of two tokens.
///
/// `crate::paint::severity_word` writes `warn` under `ColorMode::Ansi` and
/// `▲ warn` under `ColorMode::Plain`, so a finding's location line
/// holds three words in every recorded fixture and every piped run. The
/// band where the glyph fits and the word does not is one column wide per
/// opening, so a case that reads the corpus as it stands meets it only when
/// a path happens to land there. This walks the opening instead.
#[test]
fn a_glyph_never_rides_alone_when_its_severity_word_wraps() {
    let width = 40;
    for opening in 20..=48 {
        let first = "p".repeat(opening - 2);
        let line = format!("  {first} ▲ warn");
        let out = filled(&line, width);
        let lines: Vec<&str> = out.lines().collect();
        assert!(
            !lines.iter().any(|line| line.trim() == "warn"),
            "at an opening of {opening} the severity word landed alone:\n{out}"
        );
        assert!(
            !lines.iter().any(|line| line.trim() == "▲"),
            "at an opening of {opening} the glyph landed alone:\n{out}"
        );
        assert_eq!(
            unfoldable(&line, width),
            line.chars().count() > width && out == line,
            "at an opening of {opening} the predicate and the fill disagree"
        );
    }
}

/// Every wide line the fill emits is one the predicate names.
///
/// This is the equivalence `crates/cli/tests/width.rs` relies on to assert
/// that the avoidable count is zero without re-implementing the fill.
#[test]
fn every_wide_line_the_fill_emits_names_itself() {
    let report = "  a short line\n  \
         docs/decisions/0041-q41-whether-vale-becomes-a-declared-regime-backend.md:32:1 error\n  \
         fix (mechanical): write `behavior` into \
         docs/obligations/0146-the-stop-hook-reads-its-re-entry-guard-with-an-interpreter.md\n  \
         a much longer line of ordinary prose that will certainly need to be laid out at eighty columns\n";
    for width in [40, WIDTH, WIDEST] {
        let out = filled(report, width);
        for line in out.lines() {
            if line.chars().count() > width {
                assert!(
                    unfoldable(line, width),
                    "at {width} the fill emitted a wide line it could have narrowed: {line:?}"
                );
            }
        }
        // And no emitted line is a bare severity word.
        for line in out.lines() {
            assert!(
                !matches!(line.trim(), "error" | "warn" | "info"),
                "at {width} a severity reached a line of its own:\n{out}"
            );
        }
    }
}

/// The fill is idempotent: laying out a laid-out report changes nothing.
#[test]
fn laying_out_a_laid_out_report_changes_nothing() {
    let report = "checks\n  a very long sentence that will certainly need to wrap at forty \
                  columns and then some more\n  docs/one.md:1:1 warn\n";
    let once = filled(report, 40);
    assert_eq!(filled(&once, 40), once);
}
