//! A file a language regime lists outside the corpus root that reads nothing:
//! a pattern that matches no file, or one the tree refuses.
//!
//! It is a fact about the taxonomy read against the tree, so it creates no
//! instance and is reported against the taxonomy's source.
use vstd::prelude::*;
use crate::finding::Finding;
use crate::index::error_at;
use crate::text::{chars_of, extend_str, owned, string_of};

verus! {

pub const RULE: &'static str = "language.outside_root.refused";

/// Which edition of [`findings`] reached a verdict.
pub const VERSION: u32 = 1;

/// One pattern a language regime lists outside the corpus root, and why it
/// reads nothing.
#[derive(Clone, Debug, PartialEq, Eq)]
pub struct Listed {
    pub regime: String,
    pub pattern: String,
    pub reason: String,
}

/// The sentence for a pattern that matches no file.
pub open spec fn unmatched_message(e: Listed) -> Seq<char> {
    "`regimes.language."@ + e.regime@ + ".outside_root` lists `"@ + e.pattern@ + "`, and it matches no file: "@
        + e.reason@
}

/// The sentence for a pattern the tree refuses.
pub open spec fn refused_message(e: Listed) -> Seq<char> {
    "`regimes.language."@ + e.regime@ + ".outside_root` lists `"@ + e.pattern@ + "`, and HW-DR-0084 refuses it: "@
        + e.reason@
}

pub open spec fn unmatched_remedy() -> Seq<char> {
    "correct the pattern, or take it off the list if the file is gone"@
}

pub open spec fn refused_remedy() -> Seq<char> {
    "take the pattern off the list, or list the real file outside the corpus root"@
}

/// One listed pattern as the error it is, at the taxonomy's source.
fn listed_finding(e: &Listed, refused: bool, source: &str) -> (f: Finding)
    ensures
        error_at(
            f,
            RULE,
            source@,
            0,
            0,
            if refused {
                refused_message(*e)
            } else {
                unmatched_message(*e)
            },
            if refused {
                refused_remedy()
            } else {
                unmatched_remedy()
            },
        ),
{
    let mut m: Vec<char> = chars_of("`regimes.language.");
    extend_str(&mut m, e.regime.as_str());
    extend_str(&mut m, ".outside_root` lists `");
    extend_str(&mut m, e.pattern.as_str());
    if refused {
        extend_str(&mut m, "`, and HW-DR-0084 refuses it: ");
    } else {
        extend_str(&mut m, "`, and it matches no file: ");
    }
    extend_str(&mut m, e.reason.as_str());
    let remediation = if refused {
        owned("take the pattern off the list, or list the real file outside the corpus root")
    } else {
        owned("correct the pattern, or take it off the list if the file is gone")
    };
    Finding {
        rule: RULE,
        severity: crate::finding::Severity::Error,
        obligation: None,
        path: owned(source),
        line: 0,
        column: 0,
        message: string_of(m.as_slice()),
        remediation,
        patch: None,
    }
}

/// One error for each listed pattern that reads nothing: the unmatched ones
/// first, then the refused ones, each in the order the census listed it.
pub fn findings(unmatched: &[Listed], refused: &[Listed], source: &str) -> (v: Vec<Finding>)
    ensures
        v@.len() == unmatched@.len() + refused@.len(),
        forall|k: int|
            0 <= k < unmatched@.len() ==> error_at(
                #[trigger] v@[k],
                RULE,
                source@,
                0,
                0,
                unmatched_message(unmatched@[k]),
                unmatched_remedy(),
            ),
        forall|k: int|
            0 <= k < refused@.len() ==> error_at(
                #[trigger] v@[unmatched@.len() + k],
                RULE,
                source@,
                0,
                0,
                refused_message(refused@[k]),
                refused_remedy(),
            ),
{
    let mut v: Vec<Finding> = Vec::new();
    let mut i: usize = 0;
    while i < unmatched.len()
        invariant
            i <= unmatched@.len(),
            v@.len() == i,
            forall|k: int|
                0 <= k < i ==> error_at(
                    #[trigger] v@[k],
                    RULE,
                    source@,
                    0,
                    0,
                    unmatched_message(unmatched@[k]),
                    unmatched_remedy(),
                ),
        decreases unmatched@.len() - i,
    {
        v.push(listed_finding(&unmatched[i], false, source));
        i = i + 1;
    }
    let mut j: usize = 0;
    while j < refused.len()
        invariant
            j <= refused@.len(),
            v@.len() == unmatched@.len() + j,
            forall|k: int|
                0 <= k < unmatched@.len() ==> error_at(
                    #[trigger] v@[k],
                    RULE,
                    source@,
                    0,
                    0,
                    unmatched_message(unmatched@[k]),
                    unmatched_remedy(),
                ),
            forall|k: int|
                0 <= k < j ==> error_at(
                    #[trigger] v@[unmatched@.len() + k],
                    RULE,
                    source@,
                    0,
                    0,
                    refused_message(refused@[k]),
                    refused_remedy(),
                ),
        decreases refused@.len() - j,
    {
        v.push(listed_finding(&refused[j], true, source));
        j = j + 1;
    }
    v
}

} // verus!
