//! Promotion: a warrant moving from the state that claims it to the state
//! that accepts it.
//!
//! The rule reports an act rather than a defect. The reading is the count of
//! this rule over a change, so every promotion is one info finding at the
//! warrant, and a document added by the change, or not carried by it, made no
//! movement. The warrants compared are what the document reader makes of the
//! prior front matter and of the current one, handed in as values.
use vstd::prelude::*;
use crate::change::Prior;
use crate::finding::{Finding, Severity};
use crate::instance::Outcome;
use crate::text::{chars_of, extend_str, owned, str_eq, string_of};

verus! {

pub const RULE: &'static str = "warrant.promoted";

/// The state a warrant starts in.
pub const FROM: &'static str = "asserted";

/// The state it is accepted in.
pub const TO: &'static str = "accepted";

/// What a promotion asks of a reader.
pub const NOTHING: &'static str =
    "nothing, for one. Promotion is one human, one document, one diff, and the reading is the count of this rule over the change rather than any one line of it. Nothing declares how many promotions in one change is too many, which HW-OBL-0119 holds";

/// Whether a warrant reads as one state.
pub open spec fn reads_as(w: Option<&str>, state: &str) -> bool {
    w is Some && w->0@ == state@
}

/// The check. It carries no state: the transition it reads is fixed, and
/// nothing in a taxonomy parameterizes it.
pub struct Promoted;

impl Promoted {
    /// Every kind: a warrant is engine-owned rather than declared, so a kind
    /// left out would be a kind whose promotions nothing counts.
    pub fn instantiates(&self, kind: &str) -> (r: bool)
        ensures
            r,
    {
        true
    }

    /// One document of a change at `path`, with the version that stood before
    /// the change, the warrant that version declared, the warrant the document
    /// declares now, and where that warrant is written.
    pub fn evaluate(
        &self,
        path: &str,
        prior: Option<&Prior>,
        prior_warrant: Option<&str>,
        warrant: Option<&str>,
        line: usize,
        column: usize,
    ) -> (o: Outcome)
        ensures
            (prior matches Some(p) && p is Committed && reads_as(prior_warrant, FROM) && reads_as(
                warrant,
                TO,
            )) ==> (o matches Outcome::Failed(v) && v@.len() == 1 && v@[0].rule == RULE
                && v@[0].severity == Severity::Info && v@[0].obligation is None && v@[0].path@
                == path@ && v@[0].line == line && v@[0].column == column && v@[0].message@
                == "the warrant moved from `"@ + FROM@ + "` to `"@ + TO@
                + "` in this change, which is a promotion"@ && v@[0].remediation@ == NOTHING@
                && v@[0].patch is None),
            !(prior matches Some(p) && p is Committed && reads_as(prior_warrant, FROM) && reads_as(
                warrant,
                TO,
            )) ==> o is Passed,
    {
        let committed = match prior {
            Some(Prior::Committed { .. }) => true,
            _ => false,
        };
        if !committed {
            return Outcome::Passed;
        }
        let from = match prior_warrant {
            Some(w) => str_eq(w, FROM),
            None => false,
        };
        if !from {
            return Outcome::Passed;
        }
        let to = match warrant {
            Some(w) => str_eq(w, TO),
            None => false,
        };
        if !to {
            return Outcome::Passed;
        }
        let mut m: Vec<char> = chars_of("the warrant moved from `");
        extend_str(&mut m, FROM);
        extend_str(&mut m, "` to `");
        extend_str(&mut m, TO);
        extend_str(&mut m, "` in this change, which is a promotion");
        Outcome::failed_with(
            Finding {
                rule: RULE,
                severity: Severity::Info,
                obligation: None,
                path: owned(path),
                line,
                column,
                message: string_of(m.as_slice()),
                remediation: owned(NOTHING),
                patch: None,
            },
        )
    }
}

} // verus!
