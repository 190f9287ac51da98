//! A facet a document's kind requires and the document does not declare.
use vstd::prelude::*;
use crate::facets::{entry, entry_under, Entry};
use crate::finding::{Finding, Severity};
use crate::index::error_at;
use crate::instance::Outcome;
use crate::text::{chars_of, extend_str, owned, str_eq, string_of};

verus! {

pub const RULE: &'static str = "facet.required.missing";

/// The facets a kind owes, at the first entry the table holds for it, and
/// none for a kind it does not hold.
pub open spec fn owed_in(table: Seq<(String, Vec<String>)>, kind: Seq<char>) -> Seq<String>
    decreases table.len(),
{
    if table.len() == 0 {
        Seq::empty()
    } else if table[0].0@ == kind {
        table[0].1@
    } else {
        owed_in(table.skip(1), kind)
    }
}

/// The kinds of a table that owe at least one facet, in order.
pub open spec fn owing(table: Seq<(String, Vec<String>)>) -> Seq<(String, Vec<String>)>
    decreases table.len(),
{
    if table.len() == 0 {
        Seq::empty()
    } else if table.last().1@.len() > 0 {
        owing(table.drop_last()).push(table.last())
    } else {
        owing(table.drop_last())
    }
}

/// The facets a document of a kind owes and does not declare, in the order
/// the kind owes them.
pub open spec fn missing_facets(owed: Seq<String>, facets: Seq<Entry>) -> Seq<Seq<char>>
    decreases owed.len(),
{
    if owed.len() == 0 {
        Seq::empty()
    } else if entry_under(facets, owed.last()@) is None {
        missing_facets(owed.drop_last(), facets).push(owed.last()@)
    } else {
        missing_facets(owed.drop_last(), facets)
    }
}

/// The finding for one facet a document owes and does not declare: about a
/// key that is absent, so at no line.
pub open spec fn missing_finding(f: Finding, kind: Seq<char>, path: Seq<char>, facet: Seq<char>) -> bool {
    error_at(
        f,
        RULE,
        path,
        0,
        0,
        "`"@ + kind + "` requires the facet `"@ + facet + "`, and it is not declared"@,
        "add `"@ + facet + ":` to the front matter of "@ + path + ", with the value this document has"@,
    )
}

/// The check, generated from the facet and kind declarations.
pub struct Required {
    /// Each kind, and every facet a document of it owes.
    owed: Vec<(String, Vec<String>)>,
}

impl Required {
    pub closed spec fn view(&self) -> Seq<(String, Vec<String>)> {
        self.owed@
    }

    /// The generation step: each kind with the facets it requires, keeping
    /// the kinds that require any.
    pub fn over(required: Vec<(String, Vec<String>)>) -> (r: Self)
        ensures
            r.view() == owing(required@),
    {
        let mut owed: Vec<(String, Vec<String>)> = Vec::new();
        let mut rest = required;
        let ghost all = rest@;
        let n = rest.len();
        let mut taken: usize = 0;
        while rest.len() > 0
            invariant
                n == all.len(),
                taken + rest@.len() == all.len(),
                rest@ == all.skip(taken as int),
                owed@ == owing(all.take(taken as int)),
            decreases rest@.len(),
        {
            assert(all.take(taken + 1).drop_last() =~= all.take(taken as int));
            assert(rest@[0] == all[taken as int]);
            let row = rest.remove(0);
            if row.1.len() > 0 {
                owed.push(row);
            }
            taken = taken + 1;
            assert(rest@ =~= all.skip(taken as int));
        }
        assert(all.take(taken as int) =~= all);
        Required { owed }
    }

    /// The facets a document of `kind` owes.
    pub fn owed_by(&self, kind: &str) -> (r: &[String])
        ensures
            r@ == owed_in(self.view(), kind@),
    {
        let mut i: usize = 0;
        assert(self.owed@.skip(0) =~= self.owed@);
        while i < self.owed.len()
            invariant
                i <= self.owed@.len(),
                owed_in(self.owed@, kind@) == owed_in(self.owed@.skip(i as int), kind@),
            decreases self.owed@.len() - i,
        {
            assert(self.owed@.skip(i as int)[0] == self.owed@[i as int]);
            assert(self.owed@.skip(i as int).skip(1) =~= self.owed@.skip(i + 1));
            if str_eq(self.owed[i].0.as_str(), kind) {
                return self.owed[i].1.as_slice();
            }
            i = i + 1;
        }
        &[]
    }

    /// A kind that owes no facet generates no instance: one that could only
    /// ever pass would count a document as checked by a rule that had nothing
    /// to check.
    pub fn instantiates(&self, kind: &str) -> (r: bool)
        ensures
            r == (owed_in(self.view(), kind@).len() > 0),
    {
        self.owed_by(kind).len() > 0
    }

    /// One finding for each facet the document's kind owes and its front
    /// matter does not declare, in the order the kind owes them.
    pub fn evaluate(&self, kind: &str, path: &str, facets: &[Entry]) -> (o: Outcome)
        ensures
            ({
                let w = missing_facets(owed_in(self.view(), kind@), facets@);
                &&& w.len() == 0 ==> o is Passed
                &&& w.len() > 0 ==> (o matches Outcome::Failed(v) && v@.len() == w.len() && forall|k: int|
                    0 <= k < w.len() ==> missing_finding(#[trigger] v@[k], kind@, path@, w[k]))
            }),
    {
        let owed = self.owed_by(kind);
        let mut findings: Vec<Finding> = Vec::new();
        let mut i: usize = 0;
        while i < owed.len()
            invariant
                i <= owed@.len(),
                findings@.len() == missing_facets(owed@.take(i as int), facets@).len(),
                forall|k: int|
                    0 <= k < findings@.len() ==> missing_finding(
                        #[trigger] findings@[k],
                        kind@,
                        path@,
                        missing_facets(owed@.take(i as int), facets@)[k],
                    ),
            decreases owed@.len() - i,
        {
            let ghost before = missing_facets(owed@.take(i as int), facets@);
            assert(owed@.take(i + 1).drop_last() =~= owed@.take(i as int));
            assert(owed@.take(i + 1).last() == owed@[i as int]);
            let facet = owed[i].as_str();
            if entry(facets, facet).is_none() {
                let mut m: Vec<char> = chars_of("`");
                extend_str(&mut m, kind);
                extend_str(&mut m, "` requires the facet `");
                extend_str(&mut m, facet);
                extend_str(&mut m, "`, and it is not declared");
                let mut r: Vec<char> = chars_of("add `");
                extend_str(&mut r, facet);
                extend_str(&mut r, ":` to the front matter of ");
                extend_str(&mut r, path);
                extend_str(&mut r, ", with the value this document has");
                findings.push(
                    Finding {
                        rule: RULE,
                        severity: Severity::Error,
                        obligation: None,
                        path: owned(path),
                        line: 0,
                        column: 0,
                        message: string_of(m.as_slice()),
                        remediation: string_of(r.as_slice()),
                        patch: None,
                    },
                );
            }
            proof {
                let after = missing_facets(owed@.take(i + 1), facets@);
                assert forall|k: int| 0 <= k < findings@.len() implies missing_finding(
                    #[trigger] findings@[k],
                    kind@,
                    path@,
                    after[k],
                ) by {
                    if k < before.len() {
                        assert(after[k] == before[k]);
                    }
                }
            }
            i = i + 1;
        }
        assert(owed@.take(i as int) =~= owed@);
        Outcome::failed(findings)
    }
}

} // verus!
