use headwater_check::change::Named;
use headwater_check::Scoped;

#[test]
fn a_scoped_run_states_what_the_change_named() {
    let scoped = Scoped {
        named: Named { documents: 3, added: 1, carried: 2, unreadable: 1, unmatched: 1 },
        unmatched: vec!["docs/gone.md".to_string()],
        promotions: 12,
    };
    assert_eq!(
        scoped.render(),
        "scoped to a change: 3 documents named, 1 added, 2 with a prior version this run read\n\
         \x20     1 prior versions did not read, and every instance over one is skipped with its reason rather than passed\n\
         \x20     1 named no row of this corpus, so nothing was checked over them:\n\
         \x20       docs/gone.md\n\
         \x20    12 promoted from `asserted` to `accepted`. Nothing declares how many promotions in one change is too many\n"
    );
}

#[test]
fn a_change_with_nothing_unread_states_only_its_counts() {
    let scoped = Scoped {
        named: Named { documents: 0, added: 0, carried: 0, unreadable: 0, unmatched: 0 },
        unmatched: Vec::new(),
        promotions: 0,
    };
    assert_eq!(
        scoped.render(),
        "scoped to a change: 0 documents named, 0 added, 0 with a prior version this run read\n      0 promoted from `asserted` to `accepted`. Nothing declares how many promotions in one change is too many\n"
    );
}
