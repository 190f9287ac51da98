use headwater_check::node::Node;
use headwater_check::observation::{
    duplicate_ids, plausible_commit, Observation, Observations, Presence, Problem, Recorded,
};

#[test]
fn a_control_the_snapshot_names_is_observed() {
    let observations = Observations::of(vec![Observation::Control {
        control: "CT-EXT-1".to_string(),
        commit: "788885a9".to_string(),
    }]);
    assert!(observations.observed("CT-EXT-1"));
    assert!(!observations.observed("CT-EXT-2"));
}

#[test]
fn a_constructed_snapshot_reads_as_absent_for_the_read_set() {
    let observations = Observations::of(vec![]);
    assert_eq!(observations.read_set_digest(), None);
    assert_eq!(Observations::empty().read_set_digest(), None);
}

#[test]
fn plausible_commit_accepts_hex_and_refuses_everything_else() {
    assert!(plausible_commit("788885a9"));
    assert!(plausible_commit(
        "788885a9788885a9788885a9788885a9788885a9"[..40].as_ref()
    ));
    assert!(!plausible_commit(""));
    assert!(!plausible_commit("nonexistent-commit"));
    assert!(!plausible_commit("abc"));
    assert!(!plausible_commit(&"a".repeat(41)));
}

#[test]
fn duplicate_ids_reads_within_one_population_and_not_across_two() {
    let entries = vec![
        Observation::Control {
            control: "SAME-ID".to_string(),
            commit: "aaa1".to_string(),
        },
        Observation::Verification {
            verification: "SAME-ID".to_string(),
            commit: "bbb2".to_string(),
            criterion_digest: "digest".to_string(),
        },
        Observation::Control {
            control: "SAME-ID".to_string(),
            commit: "ccc3".to_string(),
        },
    ];
    assert_eq!(duplicate_ids(&entries), vec!["SAME-ID".to_string()]);
}

#[test]
fn a_verification_is_read_apart_from_a_control_and_a_problem_is_not_an_absence() {
    let entries = vec![
        Observation::Control {
            control: "V-1".to_string(),
            commit: "aaaa".to_string(),
        },
        Observation::Verification {
            verification: "V-1".to_string(),
            commit: "bbbb".to_string(),
            criterion_digest: "sha256:c".to_string(),
        },
    ];
    let snapshot = Observations::read(
        entries,
        vec![Problem::Entry {
            id: "V-2".to_string(),
            reason: "it names no `commit`".to_string(),
        }],
        Presence::Read("sha256:file".to_string()),
    );
    assert_eq!(snapshot.verification("V-1"), Some(("bbbb", "sha256:c")));
    assert_eq!(
        snapshot.recorded("V-1"),
        Recorded::Entry {
            commit: "bbbb",
            criterion_digest: "sha256:c"
        }
    );
    assert_eq!(snapshot.recorded("V-2"), Recorded::Unread("it names no `commit`"));
    assert_eq!(snapshot.recorded("V-3"), Recorded::Absent);
    assert_eq!(snapshot.read_set_digest(), Some(Some("sha256:file")));
    assert_eq!(snapshot.unread(), None);
    assert_eq!(snapshot.entries()[0].id(), "V-1");
    assert_eq!(snapshot.entries()[1].commit(), "bbbb");

    let broken = Observations::malformed_for_test("the file did not parse".to_string());
    assert_eq!(broken.recorded("V-1"), Recorded::Unread("the file did not parse"));
    assert_eq!(broken.read_set_digest(), Some(None));
    assert_eq!(broken.problems().len(), 1);
}

fn file_problem_of(o: &Observations) -> String {
    assert!(o.entries().is_empty());
    assert_eq!(o.problems().len(), 1);
    match &o.problems()[0] {
        Problem::File(m) => m.clone(),
        other => panic!("not a whole-file problem: {other:?}"),
    }
}

#[test]
fn nothing_at_the_path_is_no_observation() {
    let o = Observations::of_load(Err("missing".to_string()), Presence::Absent);
    assert!(o.entries().is_empty());
    assert!(o.problems().is_empty());
    assert_eq!(o.read_set_digest(), None);
}

#[test]
fn bytes_that_could_not_be_had_are_one_whole_file_problem() {
    let o = Observations::of_load(Err("permission denied".to_string()), Presence::Unreadable);
    assert_eq!(
        file_problem_of(&o),
        "`.headwater/observations.yml` exists and could not be read: permission denied. Every \
         control or verification it would have named reads unobserved rather than verified."
    );
}

#[test]
fn a_load_error_is_one_whole_file_problem_on_one_line() {
    let o = Observations::of_load(
        Err("line 1: bad indent\nline 2: unclosed\n".to_string()),
        Presence::Read("sha256:aa".to_string()),
    );
    assert_eq!(
        file_problem_of(&o),
        "`.headwater/observations.yml` did not parse as YAML: line 1: bad indent; line 2: \
         unclosed. Every control or verification it would have named reads unobserved rather \
         than verified."
    );
    assert!(!o.observed("CT-EXT-1"));
}

#[test]
fn a_top_level_that_is_not_a_mapping_is_one_whole_file_problem() {
    let o = Observations::of_load(
        Ok(Node::List(vec![Node::Scalar("x".to_string())])),
        Presence::Read("sha256:aa".to_string()),
    );
    assert_eq!(
        file_problem_of(&o),
        "`.headwater/observations.yml`'s top level is not a mapping of an identifier to an entry. \
         Every control or verification it would have named reads unobserved rather than verified."
    );
}

#[test]
fn a_loaded_mapping_reads_entry_by_entry() {
    let entry = Node::Mapping(vec![("commit".to_string(), Node::Scalar("788885a9".to_string()))]);
    let o = Observations::of_load(
        Ok(Node::Mapping(vec![("CT-EXT-1".to_string(), entry)])),
        Presence::Read("sha256:aa".to_string()),
    );
    assert!(o.problems().is_empty());
    assert!(o.observed("CT-EXT-1"));
}
