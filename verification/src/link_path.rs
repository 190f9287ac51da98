//! A prose link whose path names nothing: a file that is not there, or a
//! destination that is no repository path at all.
//!
//! A link that resolved is nothing to this rule, whatever it resolved to.
use vstd::prelude::*;
use crate::finding::{Finding, Severity};
use crate::instance::Outcome;
use crate::links::{reported_at, Binding, Link};
use crate::text::{chars_of, extend_str, string_of};

verus! {

pub const RULE: &'static str = "link.path.unresolved";

/// A run whose scope did not admit the links has nothing to read, and it says
/// so rather than passing.
pub const NO_LINKS: &'static str = "the view carries no bound prose links for this corpus";

/// The message and the remedy of a broken link, and nothing for one that
/// resolved.
pub open spec fn path_report(link: Link) -> Option<(Seq<char>, Seq<char>)> {
    match link.binding {
        Binding::Missing { path } => Some(
            (
                "`"@ + link.destination@ + "` names no file of this repository: nothing stands at `"@ + path@
                    + "`"@,
                "point it at a file that exists, or restore `"@ + path@
                    + "`. A document that moved keeps its identifier, so `headwater explain` finds where it went"@,
            ),
        ),
        Binding::Unnormalizable { why } => Some(
            (
                "`"@ + link.destination@ + "` does not name a path of this repository at all: "@ + why@,
                "rewrite the destination as a path relative to the document that writes it, or as an absolute address with a scheme"@,
            ),
        ),
        _ => None,
    }
}

/// The broken links of a list, each with its report, in order.
pub open spec fn path_reports(links: Seq<Link>) -> Seq<(Link, (Seq<char>, Seq<char>))>
    decreases links.len(),
{
    if links.len() == 0 {
        Seq::empty()
    } else {
        let rest = path_reports(links.drop_last());
        match path_report(links.last()) {
            Some(r) => rest.push((links.last(), r)),
            None => rest,
        }
    }
}

/// One finding per broken link, and nothing for a link that resolved. The
/// finding is written at the link, in the document that wrote it.
pub fn finding(link: &Link) -> (r: Option<Finding>)
    ensures
        match path_report(*link) {
            None => r is None,
            Some((m, rem)) => r matches Some(f) && reported_at(f, RULE, *link, m, rem),
        },
{
    let (message, remediation) = match &link.binding {
        Binding::Missing { path } => {
            let mut m: Vec<char> = chars_of("`");
            extend_str(&mut m, link.destination.as_str());
            extend_str(&mut m, "` names no file of this repository: nothing stands at `");
            extend_str(&mut m, path.as_str());
            extend_str(&mut m, "`");
            let mut r: Vec<char> = chars_of("point it at a file that exists, or restore `");
            extend_str(&mut r, path.as_str());
            extend_str(
                &mut r,
                "`. A document that moved keeps its identifier, so `headwater explain` finds where it went",
            );
            (string_of(m.as_slice()), string_of(r.as_slice()))
        },
        Binding::Unnormalizable { why } => {
            let mut m: Vec<char> = chars_of("`");
            extend_str(&mut m, link.destination.as_str());
            extend_str(&mut m, "` does not name a path of this repository at all: ");
            extend_str(&mut m, why.as_str());
            (
                string_of(m.as_slice()),
                crate::text::owned(
                    "rewrite the destination as a path relative to the document that writes it, or as an absolute address with a scheme",
                ),
            )
        },
        _ => return None,
    };
    Some(
        Finding {
            rule: RULE,
            severity: Severity::Error,
            obligation: None,
            path: link.source_path.clone(),
            line: link.line,
            column: link.column,
            message,
            remediation,
            patch: None,
        },
    )
}

/// The rule over the bound prose links of a corpus.
pub struct Paths;

impl Paths {
    /// One finding per broken link of the corpus, in the order of the links,
    /// and a skip with its reason where the run admitted no links.
    pub fn evaluate(&self, links: Option<&[Link]>) -> (o: Outcome)
        ensures
            match links {
                None => o == Outcome::Skipped(NO_LINKS),
                Some(l) => {
                    let w = path_reports(l@);
                    &&& w.len() == 0 ==> o is Passed
                    &&& w.len() > 0 ==> (o matches Outcome::Failed(v) && v@.len() == w.len() && forall|k: int|
                        0 <= k < w.len() ==> reported_at(#[trigger] v@[k], RULE, w[k].0, w[k].1.0, w[k].1.1))
                },
            },
    {
        let links = match links {
            Some(l) => l,
            None => return Outcome::Skipped(NO_LINKS),
        };
        let mut findings: Vec<Finding> = Vec::new();
        let mut i: usize = 0;
        while i < links.len()
            invariant
                i <= links@.len(),
                findings@.len() == path_reports(links@.take(i as int)).len(),
                forall|k: int|
                    0 <= k < findings@.len() ==> reported_at(
                        #[trigger] findings@[k],
                        RULE,
                        path_reports(links@.take(i as int))[k].0,
                        path_reports(links@.take(i as int))[k].1.0,
                        path_reports(links@.take(i as int))[k].1.1,
                    ),
            decreases links@.len() - i,
        {
            let ghost before = path_reports(links@.take(i as int));
            assert(links@.take(i + 1).drop_last() =~= links@.take(i as int));
            assert(links@.take(i + 1).last() == links@[i as int]);
            match finding(&links[i]) {
                Some(f) => findings.push(f),
                None => {},
            }
            proof {
                let after = path_reports(links@.take(i + 1));
                assert forall|k: int| 0 <= k < findings@.len() implies reported_at(
                    #[trigger] findings@[k],
                    RULE,
                    after[k].0,
                    after[k].1.0,
                    after[k].1.1,
                ) by {
                    if k < before.len() {
                        assert(after[k] == before[k]);
                    }
                }
            }
            i = i + 1;
        }
        assert(links@.take(i as int) =~= links@);
        Outcome::failed(findings)
    }
}

} // verus!
