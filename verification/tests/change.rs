use headwater_check::change::{Change, Held, Named, Prior, Unbound, FORMAT};
use headwater_check::node::Node;

/// The front matter of the one prior version these manifests name.
fn asserted() -> Vec<(String, Node)> {
    vec![
        ("id".to_string(), Node::Scalar("A".to_string())),
        (
            "provenance".to_string(),
            Node::Mapping(vec![("warrant".to_string(), Node::Scalar("asserted".to_string()))]),
        ),
    ]
}

/// A tree of prior versions: a file it holds reads as its digest and front
/// matter, and a file it does not hold is a prior version that did not open.
fn tree<'a>(files: &'a [&'a str]) -> impl Fn(&str) -> Held + 'a {
    move |source: &str| {
        if files.contains(&source) {
            Held::Committed {
                digest: format!("sha256:{source}"),
                facets: asserted(),
            }
        } else {
            Held::Unreadable {
                why: format!("the prior version at `{source}` did not open: no such file"),
            }
        }
    }
}

fn every(_: &str) -> bool {
    true
}

fn manifest() -> String {
    format!("{FORMAT}\nadded\tdocs/b.md\nprior\tdocs/a.md\tprior/a.md\n")
}

#[test]
fn a_change_holds_three_states_and_refuses_to_hand_over_the_fourth() {
    let change = Unbound::read(&manifest(), tree(&["prior/a.md"]))
        .expect("a change")
        .bind(every);
    assert!(matches!(
        change.prior_of("docs/a.md"),
        Ok(Prior::Committed { .. })
    ));
    assert_eq!(change.prior_of("docs/b.md"), Ok(Prior::Added));
    assert_eq!(change.prior_of("docs/c.md"), Ok(Prior::Unchanged));

    let missing = Unbound::read(&manifest(), tree(&[]))
        .expect("a change")
        .bind(every);
    let why = missing.prior_of("docs/a.md").expect_err("a reason");
    assert!(why.contains("prior/a.md"), "{why}");
}

#[test]
fn every_state_of_a_prior_version_keys_apart() {
    let facets: Vec<(String, Node)> = Vec::new();
    let keys = [
        Prior::Unchanged.key(),
        Prior::Added.key(),
        Prior::Committed {
            digest: "sha256:one",
            facets: &facets,
        }
        .key(),
        Prior::Committed {
            digest: "sha256:two",
            facets: &facets,
        }
        .key(),
    ];
    for (index, key) in keys.iter().enumerate() {
        for other in &keys[index + 1..] {
            assert_ne!(key, other, "two states of the prior version share a key");
        }
    }
}

#[test]
fn a_manifest_this_reader_cannot_parse_is_refused() {
    for manifest in [
        "",
        "headwater change 2\nadded\tdocs/a.md\n",
        &format!("{FORMAT}\nremoved\tdocs/a.md\n"),
        &format!("{FORMAT}\nadded\n"),
        &format!("{FORMAT}\nadded\tdocs/a.md\textra\n"),
        &format!("{FORMAT}\nprior\tdocs/a.md\n"),
        &format!("{FORMAT}\nprior\tdocs/a.md\tprior/a.md\textra\n"),
        &format!("{FORMAT}\nadded\tdocs/a.md\nadded\tdocs/a.md\n"),
    ] {
        assert!(
            Unbound::read(manifest, tree(&["prior/a.md"])).is_err(),
            "read as a change: {manifest:?}"
        );
    }
}

#[test]
fn a_change_states_what_it_named() {
    let manifest = format!(
        "{FORMAT}\nadded\tdocs/b.md\nprior\tdocs/a.md\tprior/a.md\nprior\tdocs/c.md\tgone.md\n"
    );
    let change = Unbound::read(&manifest, tree(&["prior/a.md"]))
        .expect("a change")
        .bind(every);
    assert_eq!(
        change.named(),
        Named {
            documents: 3,
            added: 1,
            carried: 1,
            unreadable: 1,
            unmatched: 0,
        }
    );
}

#[test]
fn a_path_no_row_holds_binds_to_nothing_and_says_so() {
    let unbound = || Unbound::read(&manifest(), tree(&["prior/a.md"])).expect("a change");
    assert_eq!(unbound().paths(), vec!["docs/a.md", "docs/b.md"]);

    let bound = unbound().bind(|path| path == "docs/b.md");
    assert_eq!(
        bound.named(),
        Named {
            documents: 2,
            added: 1,
            carried: 0,
            unreadable: 0,
            unmatched: 1,
        }
    );
    assert_eq!(bound.unmatched(), vec!["docs/a.md"]);
    assert!(bound.prior_of("docs/a.md").is_err());
    assert_eq!(bound.prior_of("docs/b.md"), Ok(Prior::Added));
}

#[test]
fn each_refusal_says_which_line_and_why() {
    assert_eq!(
        Unbound::read("", tree(&[])).unwrap_err(),
        "a change manifest opens with `headwater change 1`, and this one is empty"
    );
    assert_eq!(
        Unbound::read("headwater change 2\n", tree(&[])).unwrap_err(),
        "a change manifest opens with `headwater change 1`, and this one opens with `headwater change 2`"
    );
    assert_eq!(
        Unbound::read(&format!("{FORMAT}\n\nremoved\tdocs/a.md\n"), tree(&[])).unwrap_err(),
        "line 3 of the change manifest is neither `added\\t<path>` nor `prior\\t<path>\\t<file>`: `removed\tdocs/a.md`"
    );
    assert_eq!(
        Unbound::read(&format!("{FORMAT}\nadded\tdocs/a.md\nprior\tdocs/a.md\tp.md\n"), tree(&[])).unwrap_err(),
        "the change manifest names `docs/a.md` twice, and a document has one prior version"
    );
}

#[test]
fn blank_lines_name_nothing_and_paths_come_out_in_order() {
    let manifest = format!("{FORMAT}\n\nadded\tdocs/c.md\n   \nadded\tdocs/a.md\r\nadded\tdocs/b.md");
    let unbound = Unbound::read(&manifest, tree(&[])).expect("a change");
    assert_eq!(unbound.paths(), vec!["docs/a.md", "docs/b.md", "docs/c.md"]);
}

#[test]
fn a_departed_document_keeps_the_version_that_stood_there() {
    let change = Unbound::read(&manifest(), tree(&["prior/a.md"]))
        .expect("a change")
        .bind(|_| false);
    let departed = change.departed();
    assert_eq!(departed.len(), 1);
    assert_eq!(departed[0].path, "docs/a.md");
    assert_eq!(departed[0].digest, "sha256:prior/a.md");
    assert_eq!(departed[0].facets, &asserted());
    assert_eq!(change.unmatched(), vec!["docs/a.md", "docs/b.md"]);
    assert_eq!(
        change.prior_of("docs/b.md"),
        Err("the change manifest names this path and this corpus holds no row at it")
    );
}

#[test]
fn the_key_of_each_state_is_spelled_out() {
    let facets: Vec<(String, Node)> = Vec::new();
    assert_eq!(Prior::Unchanged.key(), "unchanged");
    assert_eq!(Prior::Added.key(), "added");
    assert_eq!(
        Prior::Committed { digest: "sha256:one", facets: &facets }.key(),
        "committed sha256:one"
    );
}

#[test]
fn a_change_that_carries_nothing_leaves_every_document_unchanged() {
    let change = Change::default();
    assert_eq!(change.prior_of("docs/a.md"), Ok(Prior::Unchanged));
    assert_eq!(
        change.named(),
        Named { documents: 0, added: 0, carried: 0, unreadable: 0, unmatched: 0 }
    );
}
