//! A live document that rests on one nothing has promoted: a relation whose
//! writer stands at a live state and whose other end stands at the initial
//! state its vocabulary names.
//!
//! Every declared relation is read, except one that writes a state onto its
//! target, which is a statement about the target and never a reliance on it.
//! Each half an author wrote is judged from the document that wrote it, so an
//! edge written from both ends is read in both directions.
use vstd::prelude::*;
use crate::dependency::{
    regime_names, NOT_ADMITTED, NO_DOCUMENT, NO_HALF, NO_PAIR, SOURCE_NOT_A_STATE,
    SOURCE_UNDECLARED, TARGET_NOT_A_STATE, TARGET_UNDECLARED,
};
use crate::finding::{Finding, Severity};
use crate::instance::Outcome;
use crate::lifecycle::{
    in_role, reading, regime_of, standing_of, Facet, FacetValue, LifecycleRegime, Standing,
    StateFacet, Stood, STATE,
};
use crate::scope::{find_relation, half_of, relation_in, EdgeView, EndView, Half, Relation};
use crate::text::{chars_of, extend_str, owned, string_of};

verus! {

pub const RULE: &'static str = "lifecycle.dependency.on_initial";

/// What one written half comes to, read from the document that wrote it to
/// the document it names: nothing where it passes, the reason where it
/// skips, and the two states where a live writer rests on a document at its
/// initial state.
pub open spec fn verdict(
    name: Option<String>,
    held: Seq<FacetValue>,
    kinds: Seq<(String, Option<LifecycleRegime>)>,
    writer: EndView,
    cited: EndView,
) -> Option<Result<(Seq<char>, Seq<char>), &'static str>> {
    if writer.facets is None || cited.facets is None {
        Some(Err(NO_DOCUMENT))
    } else {
        match reading(name, held, writer.facets->0@) {
            None => Some(Err(SOURCE_UNDECLARED)),
            Some((_, at, held_at)) => if !held_at {
                Some(Err(SOURCE_NOT_A_STATE))
            } else {
                match reading(name, held, cited.facets->0@) {
                    None => Some(Err(TARGET_UNDECLARED)),
                    Some((_, opened, held_opened)) => if !held_opened {
                        Some(Err(TARGET_NOT_A_STATE))
                    } else if standing_of(held, at) != Standing::Live {
                        None
                    } else if standing_of(held, opened) != Standing::Initial {
                        None
                    } else if !regime_names(kinds, cited.kind@, opened) {
                        Some(Err(NOT_ADMITTED))
                    } else {
                        Some(Ok((at, opened)))
                    },
                }
            },
        }
    }
}

/// Each half an author wrote, with the document that wrote it and the
/// document it names: the declared half from the source, then the inverse
/// half from the target.
pub open spec fn written(view: EdgeView, source: EndView, target: EndView) -> Seq<(Half, EndView, EndView)> {
    (match view.declared {
        Some(h) => seq![(h, source, target)],
        None => Seq::empty(),
    }) + (match view.inverse {
        Some(h) => seq![(h, target, source)],
        None => Seq::empty(),
    })
}

/// The halves that rest a live document on an initial one, with the two
/// states, in order.
pub open spec fn failures(
    name: Option<String>,
    held: Seq<FacetValue>,
    kinds: Seq<(String, Option<LifecycleRegime>)>,
    xs: Seq<(Half, EndView, EndView)>,
) -> Seq<(Half, EndView, EndView, Seq<char>, Seq<char>)>
    decreases xs.len(),
{
    if xs.len() == 0 {
        Seq::empty()
    } else {
        let rest = failures(name, held, kinds, xs.drop_last());
        let x = xs.last();
        match verdict(name, held, kinds, x.1, x.2) {
            Some(Ok((at, opened))) => rest.push((x.0, x.1, x.2, at, opened)),
            _ => rest,
        }
    }
}

/// The first reason a half was skipped.
pub open spec fn first_skip(
    name: Option<String>,
    held: Seq<FacetValue>,
    kinds: Seq<(String, Option<LifecycleRegime>)>,
    xs: Seq<(Half, EndView, EndView)>,
) -> Option<&'static str>
    decreases xs.len(),
{
    if xs.len() == 0 {
        None
    } else {
        match first_skip(name, held, kinds, xs.drop_last()) {
            Some(r) => Some(r),
            None => match verdict(name, held, kinds, xs.last().1, xs.last().2) {
                Some(Err(r)) => Some(r),
                _ => None,
            },
        }
    }
}

/// The finding for one half that rests a live document on an initial one.
pub open spec fn initial_finding(f: Finding, x: (Half, EndView, EndView, Seq<char>, Seq<char>)) -> bool {
    let h = x.0;
    &&& f.rule == RULE
    &&& f.severity == Severity::Warn
    &&& f.obligation is None
    &&& f.path@ == h.source.path@
    &&& f.line == h.line
    &&& f.column == h.column
    &&& f.message@ == "`"@ + x.1.id@ + "` stands at `"@ + x.3 + "` and writes `"@ + h.name@
        + "` to `"@ + x.2.id@ + "`, which stands at the initial state `"@ + x.4
        + "`: nothing has promoted that document, so a live document does not rest on it"@
    &&& f.remediation@ == "promote "@ + x.2.path@ + " once it is settled, point `"@ + h.name@
        + "` in "@ + h.source.path@ + " at a document that stands, or move "@ + x.1.path@
        + " back to its initial state until the target is settled"@
    &&& f.patch is None
}

/// The check. It carries every declared relation, the reading of the state
/// facet, and each kind's lifecycle regime.
pub struct InitialDependency {
    relations: Vec<Relation>,
    facet: StateFacet,
    kinds: Vec<(String, Option<LifecycleRegime>)>,
}

impl InitialDependency {
    pub closed spec fn declared(&self) -> Seq<Relation> {
        self.relations@
    }

    pub closed spec fn facet_name(&self) -> Option<String> {
        self.facet.facet_name()
    }

    pub closed spec fn held(&self) -> Seq<FacetValue> {
        self.facet.held()
    }

    pub closed spec fn bindings(&self) -> Seq<(String, Option<LifecycleRegime>)> {
        self.kinds@
    }

    /// The generation step: every declared relation, the facet in the
    /// `state` role, and the regime each kind binds.
    pub fn over(relations: Vec<Relation>, facets: Vec<Facet>, kinds: Vec<(String, Option<LifecycleRegime>)>) -> (d: Self)
        ensures
            d.declared() == relations@,
            match in_role(facets@, STATE@) {
                Some(x) => d.facet_name() == Some(x.name) && d.held() == x.values@,
                None => d.facet_name() is None && d.held().len() == 0,
            },
            d.bindings() == kinds@,
    {
        InitialDependency { relations, facet: StateFacet::of(facets), kinds }
    }

    /// Every declared relation, where a facet plays the `state` role.
    pub fn instantiates(&self, relation: &str) -> (r: bool)
        ensures
            r == (self.facet_name() is Some && relation_in(self.declared(), relation@) is Some),
    {
        self.facet.declared() && find_relation(self.relations.as_slice(), relation).is_some()
    }

    /// One half, from the document that wrote it to the document it names.
    fn judge(&self, half: &Half, writer: &EndView, cited: &EndView) -> (r: Result<Option<Finding>, &'static str>)
        ensures
            match verdict(self.facet_name(), self.held(), self.bindings(), *writer, *cited) {
                None => r == Ok::<Option<Finding>, &'static str>(None),
                Some(Err(why)) => r == Err::<Option<Finding>, &'static str>(why),
                Some(Ok((at, opened))) => r matches Ok(Some(f)) && initial_finding(
                    f,
                    (*half, *writer, *cited, at, opened),
                ),
            },
    {
        let (writer_facets, cited_facets) = match (&writer.facets, &cited.facets) {
            (Some(w), Some(c)) => (w, c),
            _ => return Err(NO_DOCUMENT),
        };
        let at = match self.facet.stood(writer_facets.as_slice()) {
            Stood::At(state) => state,
            Stood::Undeclared => return Err(SOURCE_UNDECLARED),
            Stood::NotAState(_) => return Err(SOURCE_NOT_A_STATE),
        };
        let opened = match self.facet.stood(cited_facets.as_slice()) {
            Stood::At(state) => state,
            Stood::Undeclared => return Err(TARGET_UNDECLARED),
            Stood::NotAState(_) => return Err(TARGET_NOT_A_STATE),
        };
        if self.facet.standing(at.as_str()) != Standing::Live {
            return Ok(None);
        }
        if self.facet.standing(opened.as_str()) != Standing::Initial {
            return Ok(None);
        }
        let names = match regime_of(self.kinds.as_slice(), cited.kind.as_str()) {
            Some(regime) => regime.names(opened.as_str()),
            None => true,
        };
        if !names {
            return Err(NOT_ADMITTED);
        }
        let mut m: Vec<char> = chars_of("`");
        extend_str(&mut m, writer.id.as_str());
        extend_str(&mut m, "` stands at `");
        extend_str(&mut m, at.as_str());
        extend_str(&mut m, "` and writes `");
        extend_str(&mut m, half.name.as_str());
        extend_str(&mut m, "` to `");
        extend_str(&mut m, cited.id.as_str());
        extend_str(&mut m, "`, which stands at the initial state `");
        extend_str(&mut m, opened.as_str());
        extend_str(
            &mut m,
            "`: nothing has promoted that document, so a live document does not rest on it",
        );
        let mut d: Vec<char> = chars_of("promote ");
        extend_str(&mut d, cited.path.as_str());
        extend_str(&mut d, " once it is settled, point `");
        extend_str(&mut d, half.name.as_str());
        extend_str(&mut d, "` in ");
        extend_str(&mut d, half.source.path.as_str());
        extend_str(&mut d, " at a document that stands, or move ");
        extend_str(&mut d, writer.path.as_str());
        extend_str(&mut d, " back to its initial state until the target is settled");
        Ok(
            Some(
                Finding {
                    rule: RULE,
                    severity: Severity::Warn,
                    obligation: None,
                    path: owned(half.source.path.as_str()),
                    line: half.line,
                    column: half.column,
                    message: string_of(m.as_slice()),
                    remediation: string_of(d.as_slice()),
                    patch: None,
                },
            ),
        )
    }

    /// One edge between two documents. Each half that rests a live writer on
    /// a document at its initial state is one finding, the declared half
    /// first; with none, the first half that was skipped gives the reason.
    pub fn evaluate(&self, view: &EdgeView) -> (o: Outcome)
        ensures
            match half_of(*view) {
                None => o == Outcome::Skipped(NO_HALF),
                Some(h) => match relation_in(self.declared(), h.declared@) {
                    None => o == Outcome::Skipped(NO_PAIR),
                    Some(r) => match view.ends {
                        None => o == Outcome::Skipped(NO_PAIR),
                        Some((s, t)) => if r.sets_target_state is Some {
                            o is Passed
                        } else {
                            let xs = written(*view, s, t);
                            let w = failures(self.facet_name(), self.held(), self.bindings(), xs);
                            if w.len() > 0 {
                                o matches Outcome::Failed(v) && v@.len() == w.len() && forall|k: int|
                                    0 <= k < w.len() ==> initial_finding(#[trigger] v@[k], w[k])
                            } else {
                                match first_skip(self.facet_name(), self.held(), self.bindings(), xs) {
                                    Some(why) => o == Outcome::Skipped(why),
                                    None => o is Passed,
                                }
                            }
                        },
                    },
                },
            },
    {
        let first = match view.half() {
            Some(h) => h,
            None => return Outcome::Skipped(NO_HALF),
        };
        let relation = match find_relation(self.relations.as_slice(), first.declared.as_str()) {
            Some(r) => r,
            None => return Outcome::Skipped(NO_PAIR),
        };
        let (source, target) = match &view.ends {
            Some((s, t)) => (s, t),
            None => return Outcome::Skipped(NO_PAIR),
        };
        if relation.sets_target_state.is_some() {
            return Outcome::Passed;
        }
        let ghost xs = written(*view, *source, *target);
        let ghost name = self.facet_name();
        let ghost held = self.held();
        let ghost kinds = self.bindings();
        let mut findings: Vec<Finding> = Vec::new();
        let mut skipped: Option<&'static str> = None;
        let ghost mut done: Seq<(Half, EndView, EndView)> = Seq::empty();
        assert(failures(name, held, kinds, done) =~= Seq::empty());
        if let Some(h) = &view.declared {
            match self.judge(h, source, target) {
                Ok(None) => {},
                Err(why) => {
                    skipped = Some(why);
                },
                Ok(Some(f)) => {
                    findings.push(f);
                },
            }
            proof {
                done = seq![(*h, *source, *target)];
                let none = Seq::<(Half, EndView, EndView)>::empty();
                assert(done.drop_last() =~= none);
                assert(done.last() == (*h, *source, *target));
                assert(failures(name, held, kinds, none) =~= Seq::empty());
                assert(first_skip(name, held, kinds, none) is None);
            }
        }
        assert(findings@.len() == failures(name, held, kinds, done).len());
        assert(skipped == first_skip(name, held, kinds, done));
        if let Some(h) = &view.inverse {
            let ghost before = done;
            let ghost prior = failures(name, held, kinds, before);
            match self.judge(h, target, source) {
                Ok(None) => {},
                Err(why) => {
                    if skipped.is_none() {
                        skipped = Some(why);
                    }
                },
                Ok(Some(f)) => {
                    findings.push(f);
                },
            }
            proof {
                done = before.push((*h, *target, *source));
                assert(done.drop_last() =~= before);
                let after = failures(name, held, kinds, done);
                assert forall|k: int| 0 <= k < findings@.len() implies initial_finding(
                    #[trigger] findings@[k],
                    after[k],
                ) by {
                    if k < prior.len() {
                        assert(after[k] == prior[k]);
                    }
                }
            }
        }
        assert(done =~= xs);
        if findings.len() > 0 {
            return Outcome::Failed(findings);
        }
        match skipped {
            Some(why) => Outcome::Skipped(why),
            None => Outcome::Passed,
        }
    }
}

} // verus!
