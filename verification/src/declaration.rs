//! A `relations:` block that the graph build could not turn into edges.
//!
//! The build reports each way a block fails, with its own sentence, and this
//! rule carries that sentence as the message so that a reader of the build's
//! report and a reader of the finding read one statement. What differs per
//! way of failing is the repair, and each sends an author to a different line.
//! A source with no identifier is the identity rule's, because its repair is
//! the document's identity rather than the block.
use vstd::prelude::*;
use crate::endpoint::admitted;
use crate::finding::{Finding, Severity};
use crate::index;
use crate::index::error_at;
use crate::instance::Outcome;
use crate::scope::{descends_from, Relation};
use crate::text::{chars_of, extend_str, owned, string_of};

verus! {

pub const RULE: &'static str = "relation.declaration.unusable";

/// An instance built with no report from the graph build for its document.
pub const NO_REPORT: &'static str = "the view carries no phase-A report for this document";

/// How a `relations:` block fails, as the graph build reports it.
#[derive(Clone, Debug, PartialEq, Eq)]
pub enum Problem {
    /// The block is not a mapping; the kind of value it is instead.
    BlockNotAMapping(String),
    /// A key that names no declared relation and no inverse of one.
    UnknownRelation { name: String },
    /// An entry that is neither a target reference nor a mapping with one.
    EntryNotUsable { relation: String, found: String },
    /// A mapping entry with no `to:`.
    NoTarget { relation: String },
    /// A second entry naming a target the relation already names.
    RepeatedTriple { relation: String, target: String },
    /// The document declares edges and no identifier to be their source.
    SourceHasNoIdentifier,
}

/// One problem the build reported: the document, the position of the entry
/// (zeros where the parser kept none), the problem, and the sentence the
/// build writes about it.
#[derive(Clone, Debug, PartialEq, Eq)]
pub struct Reported {
    pub path: String,
    pub line: usize,
    pub column: usize,
    pub problem: Problem,
    pub said: String,
}

/// What the graph build reported about one document: its `relations:` block,
/// and its identifier.
#[derive(Clone, Debug)]
pub struct PhaseA {
    pub relations: Vec<Reported>,
    pub identity: Vec<index::Reported>,
}

/// The repair for one way a block fails, and none for the one another rule
/// answers.
pub open spec fn repair(p: Problem) -> Option<Seq<char>> {
    match p {
        Problem::BlockNotAMapping(_) => Some(
            "write `relations:` as a mapping whose keys are relation names, because Q4 puts every relation instance under one key and the relation is that key"@,
        ),
        Problem::UnknownRelation { name } => Some(
            "write a relation this taxonomy declares, or the inverse of one, in place of `"@ + name@
                + "`, or declare `"@ + name@ + "` in the taxonomy"@,
        ),
        Problem::EntryNotUsable { relation, .. } => Some(
            "write each entry of `"@ + relation@
                + "` as a target reference, or as a mapping with `to:` and the instance attributes beside it"@,
        ),
        Problem::NoTarget { relation } => Some(
            "give this entry of `"@ + relation@
                + "` a `to:`, or delete it, because an entry that names no target declares no edge and the attributes on it reach nothing"@,
        ),
        Problem::RepeatedTriple { relation, target } => Some(
            "delete one of the two entries of `"@ + relation@ + "` that name "@ + target@
                + ". Q4 identifies an edge by its source, its relation and its normalized target, so the second declares no second edge, and the instance attributes on it are lost with it"@,
        ),
        Problem::SourceHasNoIdentifier => None,
    }
}

/// The finding for one reported problem, at its entry, in the build's words.
pub open spec fn block_finding(f: Finding, r: Reported) -> bool {
    error_at(f, RULE, r.path@, r.line, r.column, r.said@, repair(r.problem)->0)
}

/// The problems of a report this rule answers, in order.
pub open spec fn answered(rs: Seq<Reported>) -> Seq<Reported>
    decreases rs.len(),
{
    if rs.len() == 0 {
        Seq::empty()
    } else if repair(rs.last().problem) is Some {
        answered(rs.drop_last()).push(rs.last())
    } else {
        answered(rs.drop_last())
    }
}

/// One reported problem as a finding, or nothing where another rule answers.
pub fn finding(reported: &Reported) -> (f: Option<Finding>)
    ensures
        match repair(reported.problem) {
            None => f is None,
            Some(_) => f matches Some(x) && block_finding(x, *reported),
        },
{
    let remediation: Vec<char> = match &reported.problem {
        Problem::BlockNotAMapping(_) => chars_of(
            "write `relations:` as a mapping whose keys are relation names, because Q4 puts every relation instance under one key and the relation is that key",
        ),
        Problem::UnknownRelation { name } => {
            let mut r = chars_of(
                "write a relation this taxonomy declares, or the inverse of one, in place of `",
            );
            extend_str(&mut r, name.as_str());
            extend_str(&mut r, "`, or declare `");
            extend_str(&mut r, name.as_str());
            extend_str(&mut r, "` in the taxonomy");
            r
        },
        Problem::EntryNotUsable { relation, .. } => {
            let mut r = chars_of("write each entry of `");
            extend_str(&mut r, relation.as_str());
            extend_str(
                &mut r,
                "` as a target reference, or as a mapping with `to:` and the instance attributes beside it",
            );
            r
        },
        Problem::NoTarget { relation } => {
            let mut r = chars_of("give this entry of `");
            extend_str(&mut r, relation.as_str());
            extend_str(
                &mut r,
                "` a `to:`, or delete it, because an entry that names no target declares no edge and the attributes on it reach nothing",
            );
            r
        },
        Problem::RepeatedTriple { relation, target } => {
            let mut r = chars_of("delete one of the two entries of `");
            extend_str(&mut r, relation.as_str());
            extend_str(&mut r, "` that name ");
            extend_str(&mut r, target.as_str());
            extend_str(
                &mut r,
                ". Q4 identifies an edge by its source, its relation and its normalized target, so the second declares no second edge, and the instance attributes on it are lost with it",
            );
            r
        },
        Problem::SourceHasNoIdentifier => return None,
    };
    Some(
        Finding {
            rule: RULE,
            severity: Severity::Error,
            obligation: None,
            path: owned(reported.path.as_str()),
            line: reported.line,
            column: reported.column,
            message: owned(reported.said.as_str()),
            remediation: string_of(remediation.as_slice()),
            patch: None,
        },
    )
}

/// Whether a kind may stand at either end of some declared relation.
pub open spec fn at_some_end(rs: Seq<Relation>, lineage: Seq<(String, Vec<String>)>, kind: Seq<char>) -> bool {
    exists|i: int|
        0 <= i < rs.len() && (admitted(lineage, (#[trigger] rs[i]).from@, kind) || admitted(
            lineage,
            rs[i].to@,
            kind,
        ))
}

/// The kinds that some declared relation admits at either end: the
/// generation step of this rule and of the identity rule, written once, so
/// that the two halves of one question are asked of the same documents.
pub struct EndpointKinds {
    declared: Vec<Relation>,
    lineage: Vec<(String, Vec<String>)>,
}

impl EndpointKinds {
    pub closed spec fn relations(&self) -> Seq<Relation> {
        self.declared@
    }

    pub closed spec fn kinds(&self) -> Seq<(String, Vec<String>)> {
        self.lineage@
    }

    pub fn of(relations: Vec<Relation>, lineage: Vec<(String, Vec<String>)>) -> (e: Self)
        ensures
            e.relations() == relations@,
            e.kinds() == lineage@,
    {
        EndpointKinds { declared: relations, lineage }
    }

    /// Whether some kind of an endpoint set admits a kind.
    fn admits(&self, permitted: &[String], kind: &str) -> (r: bool)
        ensures
            r == admitted(self.kinds(), permitted@, kind@),
    {
        let mut i: usize = 0;
        while i < permitted.len()
            invariant
                i <= permitted@.len(),
                forall|k: int|
                    0 <= k < i ==> !crate::scope::descends(
                        self.lineage@,
                        kind@,
                        (#[trigger] permitted@[k])@,
                    ),
            decreases permitted@.len() - i,
        {
            if descends_from(self.lineage.as_slice(), kind, permitted[i].as_str()) {
                return true;
            }
            i = i + 1;
        }
        false
    }

    /// Whether a document of this kind may stand at either end of any
    /// declared relation, read through the kinds it descends from.
    pub fn admits_kind(&self, kind: &str) -> (r: bool)
        ensures
            r == at_some_end(self.relations(), self.kinds(), kind@),
    {
        let mut i: usize = 0;
        while i < self.declared.len()
            invariant
                i <= self.declared@.len(),
                forall|k: int|
                    0 <= k < i ==> !(admitted(self.lineage@, (#[trigger] self.declared@[k]).from@, kind@)
                        || admitted(self.lineage@, self.declared@[k].to@, kind@)),
            decreases self.declared@.len() - i,
        {
            if self.admits(self.declared[i].from.as_slice(), kind) || self.admits(
                self.declared[i].to.as_slice(),
                kind,
            ) {
                return true;
            }
            i = i + 1;
        }
        false
    }
}

/// The check, generated from the relation declarations and the kind
/// hierarchy.
pub struct Unusable {
    kinds: EndpointKinds,
}

impl Unusable {
    pub closed spec fn endpoints(&self) -> EndpointKinds {
        self.kinds
    }

    pub fn over(relations: Vec<Relation>, lineage: Vec<(String, Vec<String>)>) -> (u: Self)
        ensures
            u.endpoints().relations() == relations@,
            u.endpoints().kinds() == lineage@,
    {
        Unusable { kinds: EndpointKinds::of(relations, lineage) }
    }

    /// A kind that may stand at an end of some declared relation.
    pub fn instantiates(&self, kind: &str) -> (r: bool)
        ensures
            r == at_some_end(self.endpoints().relations(), self.endpoints().kinds(), kind@),
    {
        self.kinds.admits_kind(kind)
    }

    /// One document, with what the graph build reported about it. Each
    /// problem of its block this rule answers is one finding, in the order
    /// the build reported them.
    pub fn evaluate(&self, phase_a: Option<&PhaseA>) -> (o: Outcome)
        ensures
            match phase_a {
                None => o == Outcome::Skipped(NO_REPORT),
                Some(t) => {
                    let w = answered(t.relations@);
                    &&& w.len() == 0 ==> o is Passed
                    &&& w.len() > 0 ==> (o matches Outcome::Failed(v) && v@.len() == w.len()
                        && forall|k: int| 0 <= k < w.len() ==> block_finding(#[trigger] v@[k], w[k]))
                },
            },
    {
        let trouble = match phase_a {
            Some(t) => t,
            None => return Outcome::Skipped(NO_REPORT),
        };
        let rs = &trouble.relations;
        let mut findings: Vec<Finding> = Vec::new();
        let mut i: usize = 0;
        while i < rs.len()
            invariant
                i <= rs@.len(),
                findings@.len() == answered(rs@.take(i as int)).len(),
                forall|k: int|
                    0 <= k < findings@.len() ==> block_finding(
                        #[trigger] findings@[k],
                        answered(rs@.take(i as int))[k],
                    ),
            decreases rs@.len() - i,
        {
            let ghost before = answered(rs@.take(i as int));
            assert(rs@.take(i + 1).drop_last() =~= rs@.take(i as int));
            assert(rs@.take(i + 1).last() == rs@[i as int]);
            if let Some(f) = finding(&rs[i]) {
                findings.push(f);
            }
            proof {
                let after = answered(rs@.take(i + 1));
                assert forall|k: int| 0 <= k < findings@.len() implies block_finding(
                    #[trigger] findings@[k],
                    after[k],
                ) by {
                    if k < before.len() {
                        assert(after[k] == before[k]);
                    }
                }
            }
            i = i + 1;
        }
        assert(rs@.take(i as int) =~= rs@);
        Outcome::failed(findings)
    }
}

} // verus!
