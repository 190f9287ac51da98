//! A document that claims `evidenced` and points, through a relation of the
//! evidence family, at a document whose warrant is `asserted`.
//!
//! A document nobody has read is neither external nor auditable, so a pointer
//! at it does not support the claim. An absent warrant is not a warrant read
//! as supporting: a rule that collapsed the two would pass a corpus that lost
//! every warrant. The two provenance members this rule reads are what the
//! document reader makes of each end's front matter, handed in as values.
use vstd::prelude::*;
use crate::finding::{Finding, Severity};
use crate::instance::Outcome;
use crate::scope::{find_relation, half_of, relation_in, EdgeView, EndView, Half, Relation};
use crate::text::{chars_of, extend_str, owned, str_eq, string_of};

verus! {

pub const RULE: &'static str = "warrant.evidence.unsupported";

/// The relation family whose pointers carry evidential weight.
pub const FAMILY: &'static str = "evidence";

/// The claim on the source side this rule is about.
pub const CLAIMED: &'static str = "evidenced";

/// The warrant on the target side that does not support it.
pub const UNSUPPORTING: &'static str = "asserted";

/// The edge carried no half at all, which grouping never produces.
pub const NO_HALF: &'static str = "the entry carries no declared half";

/// The far end is not a document, or the relation is not of the family.
pub const NO_PAIR: &'static str = "this edge has no second document to read";

pub const NO_DOCUMENT: &'static str =
    "the census parsed no document at one end of this edge, so there is no provenance to read there";

pub const NO_WARRANT: &'static str =
    "the document at the target end declares no warrant, so there is nothing there to say whether it supports an evidenced claim";

/// The relations of the evidence family, in order.
pub open spec fn evidential_of(rs: Seq<Relation>) -> Seq<Relation>
    decreases rs.len(),
{
    if rs.len() == 0 {
        Seq::empty()
    } else if rs.last().family is Some && rs.last().family->0@ == FAMILY@ {
        evidential_of(rs.drop_last()).push(rs.last())
    } else {
        evidential_of(rs.drop_last())
    }
}

/// The finding for an evidenced claim resting on an asserted document.
pub open spec fn basis_finding(f: Finding, h: Half, r: Relation, source: EndView, target: EndView) -> bool {
    &&& f.rule == RULE
    &&& f.severity == Severity::Warn
    &&& f.obligation is None
    &&& f.path@ == h.source.path@
    &&& f.line == h.line
    &&& f.column == h.column
    &&& f.message@ == "`"@ + source.id@ + "` claims `"@ + CLAIMED@ + "` and declares `"@ + r.name@
        + "` to `"@ + target.id@ + "`, whose warrant is `"@ + UNSUPPORTING@
        + "`: a document nobody has read is neither external nor auditable, so a pointer at it does not support the claim"@
    &&& f.remediation@ == "point `"@ + h.name@ + "` in "@ + h.source.path@
        + " at an artifact somebody can audit, have a person read "@ + target.path@
        + " and set its warrant, or write `evidence_basis: reconstructed` in "@ + source.path@
        + " and say what it was reconstructed from"@
    &&& f.patch is None
}

/// The check. It carries the relations of the evidence family, which the
/// taxonomy declares and this rule does not name one by one.
pub struct Basis {
    evidential: Vec<Relation>,
}

impl Basis {
    pub closed spec fn relations(&self) -> Seq<Relation> {
        self.evidential@
    }

    /// The generation step: the relations of the evidence family.
    pub fn over(relations: Vec<Relation>) -> (b: Self)
        ensures
            b.relations() == evidential_of(relations@),
    {
        let mut kept: Vec<Relation> = Vec::new();
        let mut rest = relations;
        let ghost all = rest@;
        let n = rest.len();
        let mut taken: usize = 0;
        while rest.len() > 0
            invariant
                n == all.len(),
                all == relations@,
                taken + rest@.len() == all.len(),
                rest@ == all.skip(taken as int),
                kept@ == evidential_of(all.take(taken as int)),
            decreases rest@.len(),
        {
            assert(all.take(taken + 1).drop_last() =~= all.take(taken as int));
            assert(rest@[0] == all[taken as int]);
            let r = rest.remove(0);
            let keep = match &r.family {
                Some(f) => str_eq(f.as_str(), FAMILY),
                None => false,
            };
            if keep {
                kept.push(r);
            }
            taken = taken + 1;
            assert(rest@ =~= all.skip(taken as int));
        }
        assert(all.take(taken as int) =~= all);
        Basis { evidential: kept }
    }

    /// A relation of the evidence family, and no other.
    pub fn instantiates(&self, relation: &str) -> (r: bool)
        ensures
            r == relation_in(self.relations(), relation@) is Some,
    {
        find_relation(self.evidential.as_slice(), relation).is_some()
    }

    /// One edge between two documents, with the evidence basis the source
    /// document's provenance declares and the warrant the target's declares,
    /// each where the front matter holds one.
    pub fn evaluate(&self, view: &EdgeView, basis: Option<&str>, warrant: Option<&str>) -> (o: Outcome)
        ensures
            match half_of(*view) {
                None => o == Outcome::Skipped(NO_HALF),
                Some(h) => match relation_in(self.relations(), h.declared@) {
                    None => o == Outcome::Skipped(NO_PAIR),
                    Some(r) => match view.ends {
                        None => o == Outcome::Skipped(NO_PAIR),
                        Some((s, t)) => if s.facets is None || t.facets is None {
                            o == Outcome::Skipped(NO_DOCUMENT)
                        } else if !(basis is Some && basis->0@ == CLAIMED@) {
                            o is Passed
                        } else {
                            match warrant {
                                None => o == Outcome::Skipped(NO_WARRANT),
                                Some(w) => if w@ != UNSUPPORTING@ {
                                    o is Passed
                                } else {
                                    o matches Outcome::Failed(v) && v@.len() == 1 && basis_finding(
                                        v@[0],
                                        h,
                                        r,
                                        s,
                                        t,
                                    )
                                },
                            }
                        },
                    },
                },
            },
    {
        let h = match view.half() {
            Some(h) => h,
            None => return Outcome::Skipped(NO_HALF),
        };
        let r = match find_relation(self.evidential.as_slice(), h.declared.as_str()) {
            Some(r) => r,
            None => return Outcome::Skipped(NO_PAIR),
        };
        let (source, target) = match &view.ends {
            Some((s, t)) => (s, t),
            None => return Outcome::Skipped(NO_PAIR),
        };
        if source.facets.is_none() || target.facets.is_none() {
            return Outcome::Skipped(NO_DOCUMENT);
        }
        let claims = match basis {
            Some(b) => str_eq(b, CLAIMED),
            None => false,
        };
        if !claims {
            return Outcome::Passed;
        }
        let w = match warrant {
            Some(w) => w,
            None => return Outcome::Skipped(NO_WARRANT),
        };
        if !str_eq(w, UNSUPPORTING) {
            return Outcome::Passed;
        }
        let mut m: Vec<char> = chars_of("`");
        extend_str(&mut m, source.id.as_str());
        extend_str(&mut m, "` claims `");
        extend_str(&mut m, CLAIMED);
        extend_str(&mut m, "` and declares `");
        extend_str(&mut m, r.name.as_str());
        extend_str(&mut m, "` to `");
        extend_str(&mut m, target.id.as_str());
        extend_str(&mut m, "`, whose warrant is `");
        extend_str(&mut m, UNSUPPORTING);
        extend_str(
            &mut m,
            "`: a document nobody has read is neither external nor auditable, so a pointer at it does not support the claim",
        );
        let mut d: Vec<char> = chars_of("point `");
        extend_str(&mut d, h.name.as_str());
        extend_str(&mut d, "` in ");
        extend_str(&mut d, h.source.path.as_str());
        extend_str(&mut d, " at an artifact somebody can audit, have a person read ");
        extend_str(&mut d, target.path.as_str());
        extend_str(&mut d, " and set its warrant, or write `evidence_basis: reconstructed` in ");
        extend_str(&mut d, source.path.as_str());
        extend_str(&mut d, " and say what it was reconstructed from");
        Outcome::failed_with(
            Finding {
                rule: RULE,
                severity: Severity::Warn,
                obligation: None,
                path: owned(h.source.path.as_str()),
                line: h.line,
                column: h.column,
                message: string_of(m.as_slice()),
                remediation: string_of(d.as_slice()),
                patch: None,
            },
        )
    }
}

} // verus!
