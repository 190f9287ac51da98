//! Whether the documents at the two ends of a declared relation have kinds
//! the relation permits there.
//!
//! A relation declares the kinds its source may have (`from`) and the kinds
//! its target may have (`to`), and a kind is admitted where it descends from
//! one of them. The rule reads one pair at a time and reports each end it does
//! not admit, at the entry the writing document holds.
use vstd::prelude::*;
use crate::facets::{joined, names_of};
use crate::finding::{Finding, Severity};
use crate::index::error_at;
use crate::instance::Outcome;
use crate::scope::{
    descends, descends_from, find_relation, half_of, relation_in, Direction, Document, EdgeView,
    Half, Relation, Target,
};
use crate::text::{chars_of, extend, extend_str, join, owned, str_eq, string_of};

verus! {

pub const RULE: &'static str = "relation.endpoint.not_permitted";

/// A pair that carries no half at all, which grouping never produces.
pub const NO_HALF: &'static str = "the pair carries no declared half";

/// A pair of a relation the declarations no longer hold, or one whose half
/// points at no document. Neither is a document pair.
pub const NO_RELATION: &'static str = "no declaration holds the relation this pair declares";

/// The word a message uses for the source end, and for the target end.
pub const FROM: &'static str = "from";

pub const TO: &'static str = "to";

/// The relations that declare both endpoint sets, in order. A relation that
/// names one end and not the other states nothing this rule can test.
pub open spec fn declaring(rs: Seq<Relation>) -> Seq<Relation>
    decreases rs.len(),
{
    if rs.len() == 0 {
        Seq::empty()
    } else if rs.last().from@.len() > 0 && rs.last().to@.len() > 0 {
        declaring(rs.drop_last()).push(rs.last())
    } else {
        declaring(rs.drop_last())
    }
}

/// Whether a kind descends from some kind of an endpoint set.
pub open spec fn admitted(lineage: Seq<(String, Vec<String>)>, permitted: Seq<String>, kind: Seq<char>) -> bool {
    exists|i: int| 0 <= i < permitted.len() && descends(lineage, kind, (#[trigger] permitted[i])@)
}

/// The documents at the source end and at the target end of a half, and none
/// where it points at no document. The writer of an inverse half sits at the
/// target end.
pub open spec fn ends_of(h: Half) -> Option<(Document, Document)> {
    match h.target {
        Target::Document(other) => match h.direction {
            Direction::AsDeclared => Some((h.source, other)),
            Direction::Inverse => Some((other, h.source)),
        },
        Target::Elsewhere => None,
    }
}

/// The ends a relation does not admit, the source first: the word for the
/// end, the document there, and the set it was held to.
pub open spec fn refused(lineage: Seq<(String, Vec<String>)>, r: Relation, ends: (Document, Document)) -> Seq<
    (Seq<char>, Document, Seq<String>),
> {
    (if !admitted(lineage, r.from@, ends.0.kind@) {
        seq![(FROM@, ends.0, r.from@)]
    } else {
        Seq::empty()
    }) + (if !admitted(lineage, r.to@, ends.1.kind@) {
        seq![(TO@, ends.1, r.to@)]
    } else {
        Seq::empty()
    })
}

/// The finding for one end a relation does not admit, at the half.
pub open spec fn endpoint_finding(f: Finding, h: Half, r: Relation, x: (Seq<char>, Document, Seq<String>)) -> bool {
    error_at(
        f,
        RULE,
        h.source.path@,
        h.line,
        h.column,
        "`"@ + r.name@ + "` declares `"@ + x.0 + ": ["@ + join(names_of(x.2), ", "@) + "]`, and `"@
            + x.1.id@ + "` at that end has the kind `"@ + x.1.kind@ + "`"@,
        "declare this relation between kinds `"@ + r.name@ + "` permits, or widen its `"@ + x.0
            + "` in the taxonomy; the document at that end is "@ + x.1.path@,
    )
}

/// The check, generated from the relation declarations and the kind
/// hierarchy.
pub struct Endpoints {
    declared: Vec<Relation>,
    /// Each kind with the kinds it descends from.
    lineage: Vec<(String, Vec<String>)>,
}

impl Endpoints {
    pub closed spec fn relations(&self) -> Seq<Relation> {
        self.declared@
    }

    pub closed spec fn kinds(&self) -> Seq<(String, Vec<String>)> {
        self.lineage@
    }

    /// The generation step: the relations that declare both endpoint sets.
    pub fn over(relations: Vec<Relation>, lineage: Vec<(String, Vec<String>)>) -> (e: Self)
        ensures
            e.relations() == declaring(relations@),
            e.kinds() == lineage@,
    {
        let mut kept: Vec<Relation> = Vec::new();
        let mut rest = relations;
        let ghost all = rest@;
        let n = rest.len();
        let mut taken: usize = 0;
        while rest.len() > 0
            invariant
                n == all.len(),
                all == relations@,
                taken + rest@.len() == all.len(),
                rest@ == all.skip(taken as int),
                kept@ == declaring(all.take(taken as int)),
            decreases rest@.len(),
        {
            assert(all.take(taken + 1).drop_last() =~= all.take(taken as int));
            assert(rest@[0] == all[taken as int]);
            let r = rest.remove(0);
            if r.from.len() > 0 && r.to.len() > 0 {
                kept.push(r);
            }
            taken = taken + 1;
            assert(rest@ =~= all.skip(taken as int));
        }
        assert(all.take(taken as int) =~= all);
        Endpoints { declared: kept, lineage }
    }

    /// A relation that declares both endpoint sets generates an instance.
    pub fn instantiates(&self, relation: &str) -> (r: bool)
        ensures
            r == relation_in(self.relations(), relation@) is Some,
    {
        find_relation(self.declared.as_slice(), relation).is_some()
    }

    /// Whether a kind descends from some kind of an endpoint set.
    fn admits(&self, permitted: &[String], kind: &str) -> (r: bool)
        ensures
            r == admitted(self.kinds(), permitted@, kind@),
    {
        let mut i: usize = 0;
        while i < permitted.len()
            invariant
                i <= permitted@.len(),
                forall|k: int|
                    0 <= k < i ==> !descends(self.lineage@, kind@, (#[trigger] permitted@[k])@),
            decreases permitted@.len() - i,
        {
            if descends_from(self.lineage.as_slice(), kind, permitted[i].as_str()) {
                return true;
            }
            i = i + 1;
        }
        false
    }

    /// The finding for one end the relation does not admit.
    fn refusal(h: &Half, r: &Relation, key: &str, end: &Document, permitted: &[String]) -> (f: Finding)
        ensures
            endpoint_finding(f, *h, *r, (key@, *end, permitted@)),
    {
        let listed = joined(permitted);
        let mut m: Vec<char> = chars_of("`");
        extend_str(&mut m, r.name.as_str());
        extend_str(&mut m, "` declares `");
        extend_str(&mut m, key);
        extend_str(&mut m, ": [");
        extend(&mut m, listed.as_slice());
        extend_str(&mut m, "]`, and `");
        extend_str(&mut m, end.id.as_str());
        extend_str(&mut m, "` at that end has the kind `");
        extend_str(&mut m, end.kind.as_str());
        extend_str(&mut m, "`");
        let mut d: Vec<char> = chars_of("declare this relation between kinds `");
        extend_str(&mut d, r.name.as_str());
        extend_str(&mut d, "` permits, or widen its `");
        extend_str(&mut d, key);
        extend_str(&mut d, "` in the taxonomy; the document at that end is ");
        extend_str(&mut d, end.path.as_str());
        Finding {
            rule: RULE,
            severity: Severity::Error,
            obligation: None,
            path: owned(h.source.path.as_str()),
            line: h.line,
            column: h.column,
            message: string_of(m.as_slice()),
            remediation: string_of(d.as_slice()),
            patch: None,
        }
    }

    /// One pair: each end whose kind the relation does not permit there is
    /// one error, the source end first.
    pub fn evaluate(&self, view: &EdgeView) -> (o: Outcome)
        ensures
            match half_of(*view) {
                None => o == Outcome::Skipped(NO_HALF),
                Some(h) => match relation_in(self.relations(), h.declared@) {
                    None => o == Outcome::Skipped(NO_RELATION),
                    Some(r) => match ends_of(h) {
                        None => o == Outcome::Skipped(NO_RELATION),
                        Some(ends) => {
                            let w = refused(self.kinds(), r, ends);
                            &&& w.len() == 0 ==> o is Passed
                            &&& w.len() > 0 ==> (o matches Outcome::Failed(v) && v@.len() == w.len()
                                && forall|k: int|
                                0 <= k < w.len() ==> endpoint_finding(#[trigger] v@[k], h, r, w[k]))
                        },
                    },
                },
            },
    {
        let h = match view.half() {
            Some(h) => h,
            None => return Outcome::Skipped(NO_HALF),
        };
        let r = match find_relation(self.declared.as_slice(), h.declared.as_str()) {
            Some(r) => r,
            None => return Outcome::Skipped(NO_RELATION),
        };
        let other = match &h.target {
            Target::Document(d) => d,
            Target::Elsewhere => return Outcome::Skipped(NO_RELATION),
        };
        let (source, target) = match h.direction {
            Direction::AsDeclared => (&h.source, other),
            Direction::Inverse => (other, &h.source),
        };
        let ghost ends = (*source, *target);
        assert(ends_of(*h) == Some(ends));
        let ghost w = refused(self.lineage@, *r, ends);
        let mut findings: Vec<Finding> = Vec::new();
        if !self.admits(r.from.as_slice(), source.kind.as_str()) {
            findings.push(Endpoints::refusal(h, r, FROM, source, r.from.as_slice()));
        }
        if !self.admits(r.to.as_slice(), target.kind.as_str()) {
            findings.push(Endpoints::refusal(h, r, TO, target, r.to.as_slice()));
        }
        proof {
            assert(findings@.len() == w.len());
            assert forall|k: int| 0 <= k < w.len() implies endpoint_finding(
                #[trigger] findings@[k],
                *h,
                *r,
                w[k],
            ) by {}
        }
        Outcome::failed(findings)
    }
}

} // verus!
