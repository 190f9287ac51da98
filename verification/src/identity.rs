//! A document that cannot be named: no identifier where its kind stands at an
//! end of a declared relation, or one that is not a scalar.
//!
//! A relation names a document by its identifier, so such a document can
//! stand at neither end of one. Where the document also declares edges, their
//! loss is the cost of the same defect rather than a second one: it changes
//! the sentence and never the number of findings. A duplicate identifier is a
//! fact about two documents, and the duplicate rule reads both.
use vstd::prelude::*;
use crate::declaration::{at_some_end, EndpointKinds, PhaseA, Problem, NO_REPORT};
use crate::declaration;
use crate::finding::{Finding, Severity};
use crate::index::{error_at, Defect, Reported};
use crate::instance::Outcome;
use crate::scope::Relation;
use crate::text::{chars_of, extend_str, owned, string_of};

verus! {

pub const RULE: &'static str = "identifier.unusable";

/// What a document that declared edges loses with its name.
pub const COST: &'static str =
    ", and every entry of its `relations:` block is lost with it, because an edge is identified by its source";

/// Whether the document's own `relations:` block lost its source.
pub open spec fn sourceless(rs: Seq<declaration::Reported>) -> bool {
    exists|i: int| 0 <= i < rs.len() && (#[trigger] rs[i]).problem == Problem::SourceHasNoIdentifier
}

/// The first report of a block that lost its source.
pub open spec fn first_sourceless(rs: Seq<declaration::Reported>) -> Option<declaration::Reported>
    decreases rs.len(),
{
    if rs.len() == 0 {
        None
    } else if rs[0].problem == Problem::SourceHasNoIdentifier {
        Some(rs[0])
    } else {
        first_sourceless(rs.skip(1))
    }
}

/// What to do, which is one sentence for every defect because it is one edit.
pub open spec fn mint(facet: Seq<char>) -> Seq<char> {
    "write one identifier of this document under the `"@ + facet
        + "` key, because a relation names a document by its identifier and a document with none can stand at neither end of one"@
}

/// The finding for one defect this rule owns, at the identifier.
pub open spec fn identity_finding(f: Finding, r: Reported, lost: bool, facet: Seq<char>) -> bool {
    error_at(
        f,
        RULE,
        r.path@,
        r.line,
        r.column,
        r.said@ + if lost {
            COST@
        } else {
            Seq::<char>::empty()
        },
        mint(facet),
    )
}

/// The defects of a report this rule owns, in order.
pub open spec fn owned_defects(rs: Seq<Reported>) -> Seq<Reported>
    decreases rs.len(),
{
    if rs.len() == 0 {
        Seq::empty()
    } else if rs.last().defect is Duplicate {
        owned_defects(rs.drop_last())
    } else {
        owned_defects(rs.drop_last()).push(rs.last())
    }
}

/// Whether a problem is a block that lost its source.
fn loses_source(p: &Problem) -> (r: bool)
    ensures
        r == (*p == Problem::SourceHasNoIdentifier),
{
    match p {
        Problem::SourceHasNoIdentifier => true,
        _ => false,
    }
}

/// The repair, naming the key an identifier is read from.
fn mint_text(facet: &str) -> (s: Vec<char>)
    ensures
        s@ == mint(facet@),
{
    let mut r = chars_of("write one identifier of this document under the `");
    extend_str(&mut r, facet);
    extend_str(
        &mut r,
        "` key, because a relation names a document by its identifier and a document with none can stand at neither end of one",
    );
    r
}

/// One reported defect as a finding, or nothing for the one this rule does
/// not own.
pub fn finding(reported: &Reported, lost: bool, facet: &str) -> (f: Option<Finding>)
    ensures
        reported.defect is Duplicate ==> f is None,
        !(reported.defect is Duplicate) ==> (f matches Some(x) && identity_finding(
            x,
            *reported,
            lost,
            facet@,
        )),
{
    if let Defect::Duplicate { .. } = &reported.defect {
        return None;
    }
    let mut m = chars_of(reported.said.as_str());
    if lost {
        extend_str(&mut m, COST);
    } else {
        assert(m@ =~= reported.said@ + Seq::<char>::empty());
    }
    let r = mint_text(facet);
    Some(
        Finding {
            rule: RULE,
            severity: Severity::Error,
            obligation: None,
            path: owned(reported.path.as_str()),
            line: reported.line,
            column: reported.column,
            message: string_of(m.as_slice()),
            remediation: string_of(r.as_slice()),
            patch: None,
        },
    )
}

/// The check, generated from the relation declarations and the kind
/// hierarchy, with the front-matter key an identifier is read from.
pub struct Identity {
    kinds: EndpointKinds,
    facet: String,
}

impl Identity {
    pub closed spec fn endpoints(&self) -> EndpointKinds {
        self.kinds
    }

    pub closed spec fn key(&self) -> Seq<char> {
        self.facet@
    }

    pub fn over(relations: Vec<Relation>, lineage: Vec<(String, Vec<String>)>, facet: &str) -> (c: Self)
        ensures
            c.endpoints().relations() == relations@,
            c.endpoints().kinds() == lineage@,
            c.key() == facet@,
    {
        Identity { kinds: EndpointKinds::of(relations, lineage), facet: owned(facet) }
    }

    /// A kind that may stand at an end of some declared relation.
    pub fn instantiates(&self, kind: &str) -> (r: bool)
        ensures
            r == at_some_end(self.endpoints().relations(), self.endpoints().kinds(), kind@),
    {
        self.kinds.admits_kind(kind)
    }

    /// One document at `path`, with what the graph build reported about it.
    /// Each defect of its identifier this rule owns is one finding; where the
    /// build reported a block that lost its source and none of them, the loss
    /// is reported on its own rather than dropped.
    pub fn evaluate(&self, path: &str, phase_a: Option<&PhaseA>) -> (o: Outcome)
        ensures
            match phase_a {
                None => o == Outcome::Skipped(NO_REPORT),
                Some(t) => {
                    let w = owned_defects(t.identity@);
                    let lost = sourceless(t.relations@);
                    if w.len() > 0 {
                        o matches Outcome::Failed(v) && v@.len() == w.len() && forall|k: int|
                            0 <= k < w.len() ==> identity_finding(#[trigger] v@[k], w[k], lost, self.key())
                    } else if lost {
                        o matches Outcome::Failed(v) && v@.len() == 1 && error_at(
                            v@[0],
                            RULE,
                            path@,
                            0,
                            0,
                            first_sourceless(t.relations@)->0.said@,
                            mint(self.key()),
                        )
                    } else {
                        o is Passed
                    }
                },
            },
    {
        let trouble = match phase_a {
            Some(t) => t,
            None => return Outcome::Skipped(NO_REPORT),
        };
        let rs = &trouble.relations;
        let mut i: usize = 0;
        assert(rs@.skip(0) =~= rs@);
        while i < rs.len() && !loses_source(&rs[i].problem)
            invariant
                i <= rs@.len(),
                first_sourceless(rs@) == first_sourceless(rs@.skip(i as int)),
                forall|k: int| 0 <= k < i ==> (#[trigger] rs@[k]).problem != Problem::SourceHasNoIdentifier,
            decreases rs@.len() - i,
        {
            assert(rs@.skip(i as int)[0] == rs@[i as int]);
            assert(rs@.skip(i as int).skip(1) =~= rs@.skip(i + 1));
            i = i + 1;
        }
        let lost = i < rs.len();
        proof {
            if lost {
                assert(rs@.skip(i as int)[0] == rs@[i as int]);
                assert(rs@[i as int].problem == Problem::SourceHasNoIdentifier);
                assert(first_sourceless(rs@) == Some(rs@[i as int]));
            }
        }
        assert(lost == sourceless(rs@));
        let ids = &trouble.identity;
        let mut findings: Vec<Finding> = Vec::new();
        let mut j: usize = 0;
        while j < ids.len()
            invariant
                j <= ids@.len(),
                findings@.len() == owned_defects(ids@.take(j as int)).len(),
                forall|k: int|
                    0 <= k < findings@.len() ==> identity_finding(
                        #[trigger] findings@[k],
                        owned_defects(ids@.take(j as int))[k],
                        lost,
                        self.facet@,
                    ),
            decreases ids@.len() - j,
        {
            let ghost before = owned_defects(ids@.take(j as int));
            assert(ids@.take(j + 1).drop_last() =~= ids@.take(j as int));
            assert(ids@.take(j + 1).last() == ids@[j as int]);
            if let Some(f) = finding(&ids[j], lost, self.facet.as_str()) {
                findings.push(f);
            }
            proof {
                let after = owned_defects(ids@.take(j + 1));
                assert forall|k: int| 0 <= k < findings@.len() implies identity_finding(
                    #[trigger] findings@[k],
                    after[k],
                    lost,
                    self.facet@,
                ) by {
                    if k < before.len() {
                        assert(after[k] == before[k]);
                    }
                }
            }
            j = j + 1;
        }
        assert(ids@.take(j as int) =~= ids@);
        if findings.len() == 0 && lost {
            let d = mint_text(self.facet.as_str());
            return Outcome::failed_with(
                Finding {
                    rule: RULE,
                    severity: Severity::Error,
                    obligation: None,
                    path: owned(path),
                    line: 0,
                    column: 0,
                    message: owned(rs[i].said.as_str()),
                    remediation: string_of(d.as_slice()),
                    patch: None,
                },
            );
        }
        Outcome::failed(findings)
    }
}

} // verus!
