//! A live document that rests on a retired one through a relation the
//! taxonomy declares lifecycle-sensitive.
//!
//! The reading of a state is the role its value carries, never a list of
//! state names, so a taxonomy that renames its states keeps the rule. Both
//! ends are documents, because the rule reads a state at each of them. Three
//! readings at each end are kept apart: a document the census parsed nothing
//! for, one that declares no state, and one whose state the vocabulary does
//! not hold. The last two are other rules' findings, so this rule skips them
//! with a reason that names where the defect is reported.
use vstd::prelude::*;
use crate::finding::{Finding, Severity};
use crate::instance::Outcome;
use crate::lifecycle::{
    reading, regime_in, regime_of, standing_of, states_of, Facet, LifecycleRegime, Standing,
    StateFacet, Stood, in_role, STATE,
};
use crate::scope::{half_of, find_relation, relation_in, EdgeView, EndView, Half, Relation};
use crate::text::{chars_of, extend_str, owned, str_eq, string_of};

verus! {

pub const RULE: &'static str = "lifecycle.dependency.on_terminal";

/// The edge carried no half at all, which grouping never produces.
pub const NO_HALF: &'static str = "the entry carries no declared half";

/// The far end is not a document, or the relation is not one this rule reads.
pub const NO_PAIR: &'static str = "this edge has no second document to read";

pub const NO_DOCUMENT: &'static str =
    "the census parsed no document at one end of this edge, so there is no state to read there";

pub const SOURCE_UNDECLARED: &'static str =
    "the document at the source end declares no value for the state facet, so there is no state to read there";

pub const TARGET_UNDECLARED: &'static str =
    "the document at the target end declares no value for the state facet, so there is no state to read there";

pub const SOURCE_NOT_A_STATE: &'static str =
    "the document at the source end writes a value the state facet does not admit, and `facet.value.not_permitted` reports that";

pub const TARGET_NOT_A_STATE: &'static str =
    "the document at the target end writes a value the state facet does not admit, and `facet.value.not_permitted` reports that";

/// The target stands at a state its own regime does not name: a defect of
/// that document, which the admitted-state rule reports.
pub const NOT_ADMITTED: &'static str =
    "the document at the target end stands at a state the lifecycle regime of its kind does not name, and `lifecycle.state.not_admitted` reports that";

/// The relations whose family is lifecycle-sensitive, in order.
pub open spec fn sensitive_of(rs: Seq<Relation>) -> Seq<Relation>
    decreases rs.len(),
{
    if rs.len() == 0 {
        Seq::empty()
    } else if rs.last().lifecycle_sensitive {
        sensitive_of(rs.drop_last()).push(rs.last())
    } else {
        sensitive_of(rs.drop_last())
    }
}

/// Whether a kind's own regime names a state, and `true` for a kind that
/// binds no regime: with no declared machine there is no admitted set to hold
/// a value against.
pub open spec fn regime_names(kinds: Seq<(String, Option<LifecycleRegime>)>, kind: Seq<char>, state: Seq<char>) -> bool {
    match regime_in(kinds, kind) {
        Some(r) => states_of(r).contains(state),
        None => true,
    }
}

/// The finding for a live source resting on a terminal target, at the half.
pub open spec fn dependency_finding(
    f: Finding,
    h: Half,
    r: Relation,
    source: EndView,
    target: EndView,
    at: Seq<char>,
    retired: Seq<char>,
) -> bool {
    &&& f.rule == RULE
    &&& f.severity == Severity::Warn
    &&& f.obligation is None
    &&& f.path@ == h.source.path@
    &&& f.line == h.line
    &&& f.column == h.column
    &&& f.message@ == "`"@ + source.id@ + "` stands at `"@ + at + "` and declares `"@ + r.name@
        + "` to `"@ + target.id@ + "`, which stands at the terminal state `"@ + retired
        + "`: the taxonomy declares this relation lifecycle-sensitive, so a live document does not rest on a retired one through it"@
    &&& f.remediation@ == "point `"@ + h.name@ + "` in "@ + h.source.path@
        + " at the document that replaced "@ + target.path@ + ", or retire "@ + source.path@
        + " on its own terms if it still means what the retired one said"@
    &&& f.patch is None
}

/// The check. It carries the relations the taxonomy marked, the reading of
/// the state facet, and each kind's lifecycle regime, all of which are
/// declared rather than known.
pub struct Dependency {
    sensitive: Vec<Relation>,
    facet: StateFacet,
    kinds: Vec<(String, Option<LifecycleRegime>)>,
}

impl Dependency {
    pub closed spec fn relations(&self) -> Seq<Relation> {
        self.sensitive@
    }

    pub closed spec fn facet_name(&self) -> Option<String> {
        self.facet.facet_name()
    }

    pub closed spec fn held(&self) -> Seq<crate::lifecycle::FacetValue> {
        self.facet.held()
    }

    pub closed spec fn bindings(&self) -> Seq<(String, Option<LifecycleRegime>)> {
        self.kinds@
    }

    /// The generation step: the relations marked lifecycle-sensitive, the
    /// facet in the `state` role, and the regime each kind binds.
    pub fn over(relations: Vec<Relation>, facets: Vec<Facet>, kinds: Vec<(String, Option<LifecycleRegime>)>) -> (d: Self)
        ensures
            d.relations() == sensitive_of(relations@),
            match in_role(facets@, STATE@) {
                Some(x) => d.facet_name() == Some(x.name) && d.held() == x.values@,
                None => d.facet_name() is None && d.held().len() == 0,
            },
            d.bindings() == kinds@,
    {
        let mut kept: Vec<Relation> = Vec::new();
        let mut rest = relations;
        let ghost all = rest@;
        let n = rest.len();
        let mut taken: usize = 0;
        while rest.len() > 0
            invariant
                n == all.len(),
                all == relations@,
                taken + rest@.len() == all.len(),
                rest@ == all.skip(taken as int),
                kept@ == sensitive_of(all.take(taken as int)),
            decreases rest@.len(),
        {
            assert(all.take(taken + 1).drop_last() =~= all.take(taken as int));
            assert(rest@[0] == all[taken as int]);
            let r = rest.remove(0);
            if r.lifecycle_sensitive {
                kept.push(r);
            }
            taken = taken + 1;
            assert(rest@ =~= all.skip(taken as int));
        }
        assert(all.take(taken as int) =~= all);
        Dependency { sensitive: kept, facet: StateFacet::of(facets), kinds }
    }

    /// A relation the taxonomy marked, where a facet plays the `state` role.
    pub fn instantiates(&self, relation: &str) -> (r: bool)
        ensures
            r == (self.facet_name() is Some && relation_in(self.relations(), relation@) is Some),
    {
        self.facet.declared() && find_relation(self.sensitive.as_slice(), relation).is_some()
    }

    /// One edge between two documents.
    pub fn evaluate(&self, view: &EdgeView) -> (o: Outcome)
        ensures
            match half_of(*view) {
                None => o == Outcome::Skipped(NO_HALF),
                Some(h) => match relation_in(self.relations(), h.declared@) {
                    None => o == Outcome::Skipped(NO_PAIR),
                    Some(r) => match view.ends {
                        None => o == Outcome::Skipped(NO_PAIR),
                        Some((s, t)) => if s.facets is None || t.facets is None {
                            o == Outcome::Skipped(NO_DOCUMENT)
                        } else {
                            match reading(self.facet_name(), self.held(), s.facets->0@) {
                                None => o == Outcome::Skipped(SOURCE_UNDECLARED),
                                Some((_, at, held_at)) => if !held_at {
                                    o == Outcome::Skipped(SOURCE_NOT_A_STATE)
                                } else {
                                    match reading(self.facet_name(), self.held(), t.facets->0@) {
                                        None => o == Outcome::Skipped(TARGET_UNDECLARED),
                                        Some((_, retired, held_retired)) => if !held_retired {
                                            o == Outcome::Skipped(TARGET_NOT_A_STATE)
                                        } else if standing_of(self.held(), at) != Standing::Live {
                                            o is Passed
                                        } else if standing_of(self.held(), retired)
                                            != Standing::Terminal {
                                            o is Passed
                                        } else if r.sets_target_state is Some
                                            && r.sets_target_state->0@ == retired {
                                            o is Passed
                                        } else if !regime_names(self.bindings(), t.kind@, retired) {
                                            o == Outcome::Skipped(NOT_ADMITTED)
                                        } else {
                                            o matches Outcome::Failed(v) && v@.len() == 1
                                                && dependency_finding(v@[0], h, r, s, t, at, retired)
                                        },
                                    }
                                },
                            }
                        },
                    },
                },
            },
    {
        let h = match view.half() {
            Some(h) => h,
            None => return Outcome::Skipped(NO_HALF),
        };
        let r = match find_relation(self.sensitive.as_slice(), h.declared.as_str()) {
            Some(r) => r,
            None => return Outcome::Skipped(NO_PAIR),
        };
        let (source, target) = match &view.ends {
            Some((s, t)) => (s, t),
            None => return Outcome::Skipped(NO_PAIR),
        };
        let (source_facets, target_facets) = match (&source.facets, &target.facets) {
            (Some(s), Some(t)) => (s, t),
            _ => return Outcome::Skipped(NO_DOCUMENT),
        };
        let at = match self.facet.stood(source_facets.as_slice()) {
            Stood::At(state) => state,
            Stood::Undeclared => return Outcome::Skipped(SOURCE_UNDECLARED),
            Stood::NotAState(_) => return Outcome::Skipped(SOURCE_NOT_A_STATE),
        };
        let retired = match self.facet.stood(target_facets.as_slice()) {
            Stood::At(state) => state,
            Stood::Undeclared => return Outcome::Skipped(TARGET_UNDECLARED),
            Stood::NotAState(_) => return Outcome::Skipped(TARGET_NOT_A_STATE),
        };
        if self.facet.standing(at.as_str()) != Standing::Live {
            return Outcome::Passed;
        }
        if self.facet.standing(retired.as_str()) != Standing::Terminal {
            return Outcome::Passed;
        }
        if let Some(sets) = &r.sets_target_state {
            if str_eq(sets.as_str(), retired.as_str()) {
                return Outcome::Passed;
            }
        }
        let names = match regime_of(self.kinds.as_slice(), target.kind.as_str()) {
            Some(regime) => regime.names(retired.as_str()),
            None => true,
        };
        if !names {
            return Outcome::Skipped(NOT_ADMITTED);
        }
        let mut m: Vec<char> = chars_of("`");
        extend_str(&mut m, source.id.as_str());
        extend_str(&mut m, "` stands at `");
        extend_str(&mut m, at.as_str());
        extend_str(&mut m, "` and declares `");
        extend_str(&mut m, r.name.as_str());
        extend_str(&mut m, "` to `");
        extend_str(&mut m, target.id.as_str());
        extend_str(&mut m, "`, which stands at the terminal state `");
        extend_str(&mut m, retired.as_str());
        extend_str(
            &mut m,
            "`: the taxonomy declares this relation lifecycle-sensitive, so a live document does not rest on a retired one through it",
        );
        let mut d: Vec<char> = chars_of("point `");
        extend_str(&mut d, h.name.as_str());
        extend_str(&mut d, "` in ");
        extend_str(&mut d, h.source.path.as_str());
        extend_str(&mut d, " at the document that replaced ");
        extend_str(&mut d, target.path.as_str());
        extend_str(&mut d, ", or retire ");
        extend_str(&mut d, source.path.as_str());
        extend_str(&mut d, " on its own terms if it still means what the retired one said");
        Outcome::failed_with(
            Finding {
                rule: RULE,
                severity: Severity::Warn,
                obligation: None,
                path: owned(h.source.path.as_str()),
                line: h.line,
                column: h.column,
                message: string_of(m.as_slice()),
                remediation: string_of(d.as_slice()),
                patch: None,
            },
        )
    }
}

} // verus!
