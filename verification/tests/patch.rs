use headwater_check::patch::{substitution, Patch, Span, TextBlock, TextRun};

fn run(text: &str, start: usize, end: usize, authored: bool) -> TextRun {
    TextRun { text: text.to_string(), span: Span { start, end }, authored }
}

fn block(quote_depth: usize, runs: Vec<TextRun>) -> TextBlock {
    TextBlock { quote_depth, runs }
}

fn whole(source: &str) -> Span {
    Span { start: 0, end: source.trim_end().len() }
}

fn offsets(p: Option<Patch>) -> (usize, usize) {
    match p {
        Some(Patch::Text { start, end, .. }) => (start, end),
        other => panic!("no text patch: {:?}", other),
    }
}

#[test]
fn a_word_in_authored_prose_gets_the_offset_it_occupies() {
    let source = "The behaviour of a check.\n";
    let body = vec![block(0, vec![run("The behaviour of a check.", 0, 25, true)])];
    let Some(Patch::Text { start, end, expect, replacement, .. }) =
        substitution("d.md", &body, &whole(source), "behaviour", "behavior")
    else {
        panic!("no patch");
    };
    assert_eq!(&source[start..end], "behaviour");
    assert_eq!(expect, "behaviour");
    assert_eq!(replacement, "behavior");
}

#[test]
fn a_word_inside_a_code_span_gets_no_patch() {
    let source = "The `behaviour` flag.\n";
    let body = vec![block(
        0,
        vec![run("The ", 0, 4, true), run("behaviour", 4, 15, false), run(" flag.", 15, 21, true)],
    )];
    assert_eq!(substitution("d.md", &body, &whole(source), "behaviour", "behavior"), None);
}

#[test]
fn a_word_inside_a_block_quote_gets_no_patch() {
    let source = "> The behaviour they describe.\n";
    let body = vec![block(1, vec![run("The behaviour they describe.", 2, 30, true)])];
    assert_eq!(substitution("d.md", &body, &whole(source), "behaviour", "behavior"), None);
}

#[test]
fn a_word_inside_a_links_text_gets_the_offset_of_the_text() {
    let source = "Read [the behaviour note](x.md) first.\n";
    let body = vec![block(
        0,
        vec![
            run("Read ", 0, 5, true),
            run("the behaviour note", 6, 24, true),
            run(" first.", 31, 38, true),
        ],
    )];
    let (start, end) =
        offsets(substitution("d.md", &body, &whole(source), "behaviour", "behavior"));
    assert_eq!(&source[start..end], "behaviour");
    assert_eq!(start, source.find("behaviour").unwrap());
}

#[test]
fn a_sentence_is_a_window_on_the_run_that_holds_it() {
    let source = "First is fine. The behaviour follows.\n";
    let body = vec![block(0, vec![run("First is fine. The behaviour follows.", 0, 37, true)])];
    let first = Span { start: 0, end: 14 };
    let second = Span { start: 15, end: 37 };
    assert_eq!(substitution("d.md", &body, &first, "behaviour", "behavior"), None);
    let (start, _) = offsets(substitution("d.md", &body, &second, "behaviour", "behavior"));
    assert_eq!(start, source.find("behaviour").unwrap());
}

#[test]
fn a_word_that_is_only_part_of_a_longer_word_gets_no_patch() {
    let source = "Two licences here.\n";
    let body = vec![block(0, vec![run("Two licences here.", 0, 18, true)])];
    assert_eq!(substitution("d.md", &body, &whole(source), "licence", "license"), None);
}

#[test]
fn an_entity_beside_a_word_does_not_move_the_words_offset() {
    let source = "Ampersand &amp; behaviour together.\n";
    let body = vec![block(
        0,
        vec![
            run("Ampersand ", 0, 10, true),
            run("&", 10, 15, true),
            run(" behaviour together.", 15, 35, true),
        ],
    )];
    let (start, end) =
        offsets(substitution("d.md", &body, &whole(source), "behaviour", "behavior"));
    assert_eq!(&source[start..end], "behaviour");
}

#[test]
fn a_run_that_reads_fewer_bytes_than_it_spans_gets_no_patch() {
    let body = vec![block(0, vec![run("the behaviour of it", 0, 21, true)])];
    let sentence = Span { start: 0, end: 21 };
    assert_eq!(substitution("d.md", &body, &sentence, "behaviour", "behavior"), None);
}

#[test]
fn an_offset_counts_the_bytes_a_wide_character_spends() {
    let source = "A naïve behaviour, and a café.";
    let body = vec![block(0, vec![run(source, 0, source.len(), true)])];
    let (start, end) = offsets(substitution(
        "d.md",
        &body,
        &Span { start: 0, end: source.len() },
        "behaviour",
        "behavior",
    ));
    assert_eq!(start, source.find("behaviour").unwrap());
    assert_eq!(&source[start..end], "behaviour");
    let (start, end) = offsets(substitution(
        "d.md",
        &body,
        &Span { start: 0, end: source.len() },
        "café",
        "cafe",
    ));
    assert_eq!(&source[start..end], "café");
}

#[test]
fn a_sentence_that_cuts_a_character_gets_no_patch() {
    let source = "naïve behaviour";
    let body = vec![block(0, vec![run(source, 0, source.len(), true)])];
    let inside = Span { start: 3, end: source.len() };
    assert_eq!(substitution("d.md", &body, &inside, "behaviour", "behavior"), None);
}

#[test]
fn a_word_after_an_apostrophe_or_inside_a_longer_word_is_passed_over_for_the_next() {
    let source = "O'colour, colours and colour.";
    let body = vec![block(0, vec![run(source, 0, source.len(), true)])];
    let (start, end) = offsets(substitution(
        "d.md",
        &body,
        &Span { start: 0, end: source.len() },
        "colour",
        "color",
    ));
    assert_eq!(start, source.rfind("colour").unwrap());
    assert_eq!(end, start + 6);
}

#[test]
fn an_empty_word_or_one_equal_to_its_replacement_gets_no_patch() {
    let body = vec![block(0, vec![run("the color", 0, 9, true)])];
    let all = Span { start: 0, end: 9 };
    assert_eq!(substitution("d.md", &body, &all, "", "x"), None);
    assert_eq!(substitution("d.md", &body, &all, "color", "color"), None);
}

#[test]
fn the_first_run_that_places_the_word_wins_and_names_the_path() {
    let body = vec![
        block(1, vec![run("behaviour", 0, 9, true)]),
        block(0, vec![run("x", 10, 11, true), run("behaviour", 20, 29, true)]),
        block(0, vec![run("behaviour", 40, 49, true)]),
    ];
    let all = Span { start: 0, end: 100 };
    match substitution("notes/d.md", &body, &all, "behaviour", "behavior") {
        Some(Patch::Text { path, start, end, .. }) => {
            assert_eq!(path, "notes/d.md");
            assert_eq!((start, end), (20, 29));
        }
        other => panic!("unexpected {:?}", other),
    }
}
