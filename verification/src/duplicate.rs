//! An identifier two documents claim.
//!
//! One collision is two findings, one in each file, at the line each author
//! wrote, with one sentence that names both documents and accuses neither,
//! because the pair is what is wrong. The two defects of one document are the
//! identity rule's, and this rule returns nothing for either.
use vstd::prelude::*;
use crate::finding::{Finding, Severity};
use crate::index::{error_at, Defect, Reported};
use crate::instance::Outcome;
use crate::text::{chars_of, extend_str, string_of};

verus! {

pub const RULE: &'static str = "identifier.claimed_twice";

/// A run that produced no phase-A report for this corpus has nothing to read,
/// and it says so rather than passing.
pub const NO_REPORT: &'static str = "the view carries no phase-A report for this corpus";

/// The sentence both findings of a collision carry.
pub open spec fn collision_message(id: Seq<char>, other: Seq<char>, path: Seq<char>) -> Seq<char> {
    "`"@ + id + "` is claimed by "@ + other + " and by "@ + path
        + ", and an identifier names one document. A target that names it resolves to two, so neither document is reachable by it"@
}

/// What to do about a collision, naming the key identifiers are read from.
pub open spec fn collision_remedy(facet: Seq<char>, id: Seq<char>) -> Seq<char> {
    "change the `"@ + facet + "` of one of the two documents, and repoint every relation that names `"@ + id
        + "` at the document it meant"@
}

/// Where the findings of one reported defect stand, with their message and
/// remedy: one in each file of a collision, and none for anything else.
pub open spec fn places(r: Reported, facet: Seq<char>) -> Seq<(Seq<char>, usize, usize, Seq<char>, Seq<char>)> {
    match r.defect {
        Defect::Duplicate { id, other, other_line, other_column } => {
            let m = collision_message(id@, other@, r.path@);
            let rem = collision_remedy(facet, id@);
            seq![(r.path@, r.line, r.column, m, rem), (other@, other_line, other_column, m, rem)]
        },
        _ => Seq::empty(),
    }
}

/// The places of every reported defect, in order.
pub open spec fn all_places(rs: Seq<Reported>, facet: Seq<char>) -> Seq<(Seq<char>, usize, usize, Seq<char>, Seq<char>)>
    decreases rs.len(),
{
    if rs.len() == 0 {
        Seq::empty()
    } else {
        all_places(rs.drop_last(), facet) + places(rs.last(), facet)
    }
}

/// Whether a finding is this rule's at one place.
pub open spec fn at_place(f: Finding, p: (Seq<char>, usize, usize, Seq<char>, Seq<char>)) -> bool {
    error_at(f, RULE, p.0, p.1, p.2, p.3, p.4)
}

/// The rule, reading identifiers from one front-matter key.
pub struct Duplicate {
    facet: String,
}

impl Duplicate {
    pub closed spec fn facet_view(&self) -> Seq<char> {
        self.facet@
    }

    /// The rule, naming `facet` in its repairs.
    pub fn over(facet: &str) -> (d: Self)
        ensures
            d.facet_view() == facet@,
    {
        Duplicate { facet: crate::text::owned(facet) }
    }

    /// One collision as two findings, and nothing for a defect of one
    /// document.
    pub fn findings(&self, reported: &Reported) -> (v: Vec<Finding>)
        ensures
            v@.len() == places(*reported, self.facet_view()).len(),
            forall|k: int| 0 <= k < v@.len() ==> at_place(#[trigger] v@[k], places(*reported, self.facet_view())[k]),
    {
        let mut v: Vec<Finding> = Vec::new();
        if let Defect::Duplicate { id, other, other_line, other_column } = &reported.defect {
            let mut m: Vec<char> = chars_of("`");
            extend_str(&mut m, id.as_str());
            extend_str(&mut m, "` is claimed by ");
            extend_str(&mut m, other.as_str());
            extend_str(&mut m, " and by ");
            extend_str(&mut m, reported.path.as_str());
            extend_str(
                &mut m,
                ", and an identifier names one document. A target that names it resolves to two, so neither document is reachable by it",
            );
            let mut r: Vec<char> = chars_of("change the `");
            extend_str(&mut r, self.facet.as_str());
            extend_str(&mut r, "` of one of the two documents, and repoint every relation that names `");
            extend_str(&mut r, id.as_str());
            extend_str(&mut r, "` at the document it meant");
            let message = string_of(m.as_slice());
            let remediation = string_of(r.as_slice());
            v.push(
                Finding {
                    rule: RULE,
                    severity: Severity::Error,
                    obligation: None,
                    path: reported.path.clone(),
                    line: reported.line,
                    column: reported.column,
                    message: string_of(m.as_slice()),
                    remediation: string_of(r.as_slice()),
                    patch: None,
                },
            );
            v.push(
                Finding {
                    rule: RULE,
                    severity: Severity::Error,
                    obligation: None,
                    path: other.clone(),
                    line: *other_line,
                    column: *other_column,
                    message,
                    remediation,
                    patch: None,
                },
            );
        }
        v
    }

    /// Every collision of the corpus, two findings each, in the order the
    /// build reported them.
    pub fn evaluate(&self, identity: Option<&[Reported]>) -> (o: Outcome)
        ensures
            match identity {
                None => o == Outcome::Skipped(NO_REPORT),
                Some(rs) => {
                    let w = all_places(rs@, self.facet_view());
                    &&& w.len() == 0 ==> o is Passed
                    &&& w.len() > 0 ==> (o matches Outcome::Failed(v) && v@.len() == w.len() && forall|k: int|
                        0 <= k < w.len() ==> at_place(#[trigger] v@[k], w[k]))
                },
            },
    {
        let identity = match identity {
            Some(rs) => rs,
            None => return Outcome::Skipped(NO_REPORT),
        };
        let mut found: Vec<Finding> = Vec::new();
        let mut i: usize = 0;
        while i < identity.len()
            invariant
                i <= identity@.len(),
                found@.len() == all_places(identity@.take(i as int), self.facet@).len(),
                forall|k: int|
                    0 <= k < found@.len() ==> at_place(
                        #[trigger] found@[k],
                        all_places(identity@.take(i as int), self.facet@)[k],
                    ),
            decreases identity@.len() - i,
        {
            let ghost before = all_places(identity@.take(i as int), self.facet@);
            assert(identity@.take(i + 1).drop_last() =~= identity@.take(i as int));
            assert(identity@.take(i + 1).last() == identity@[i as int]);
            let mut more = self.findings(&identity[i]);
            let ghost added = more@;
            let ghost start = found@;
            found.append(&mut more);
            proof {
                let after = all_places(identity@.take(i + 1), self.facet@);
                assert(found@ =~= start + added);
                assert forall|k: int| 0 <= k < found@.len() implies at_place(#[trigger] found@[k], after[k]) by {
                    if k < start.len() {
                        assert(found@[k] == start[k]);
                        assert(after[k] == before[k]);
                    } else {
                        assert(found@[k] == added[k - start.len()]);
                        assert(after[k] == places(identity@[i as int], self.facet@)[k - start.len()]);
                    }
                }
            }
            i = i + 1;
        }
        assert(identity@.take(i as int) =~= identity@);
        Outcome::failed(found)
    }
}

} // verus!
