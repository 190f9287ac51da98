//! A string-typed facet declared with no text: a value that is no scalar, a
//! scalar the loader reads as null, or text that is all white space.
//!
//! An absent key is the required-facet rule's finding; this rule reads the
//! keys an author wrote.
use vstd::prelude::*;
use crate::context::trimmed;
use crate::facets::{entry, entry_under, Entry};
use crate::finding::{Finding, Severity};
use crate::index::error_at;
use crate::instance::Outcome;
use crate::text::{chars_of, extend_str, owned, str_eq, string_of, trim};

verus! {

pub const RULE: &'static str = "facet.value.blank";

/// The string-typed facets a kind may carry, each with whether the kind owes
/// it, at the first entry the table holds for it.
pub open spec fn declared_in(table: Seq<(String, Vec<(String, bool)>)>, kind: Seq<char>) -> Seq<(String, bool)>
    decreases table.len(),
{
    if table.len() == 0 {
        Seq::empty()
    } else if table[0].0@ == kind {
        table[0].1@
    } else {
        declared_in(table.skip(1), kind)
    }
}

/// The kinds of a table that may carry at least one string-typed facet.
pub open spec fn carrying(table: Seq<(String, Vec<(String, bool)>)>) -> Seq<(String, Vec<(String, bool)>)>
    decreases table.len(),
{
    if table.len() == 0 {
        Seq::empty()
    } else if table.last().1@.len() > 0 {
        carrying(table.drop_last()).push(table.last())
    } else {
        carrying(table.drop_last())
    }
}

/// What is wrong with the value of one string-typed facet a front matter
/// declares, with the entry, and nothing where the facet is absent or holds
/// text.
pub open spec fn complaint(facet: Seq<char>, facets: Seq<Entry>) -> Option<(Entry, Seq<char>)> {
    match entry_under(facets, facet) {
        None => None,
        Some(e) => match e.scalar {
            None => Some(
                (e, "`"@ + facet + "` is declared as "@ + e.kind_name@ + ", and its declaration says `string`"@),
            ),
            Some(text) => if e.null {
                Some((e, "`"@ + facet + "` is declared with no value"@))
            } else if trim(text@).len() == 0 {
                Some((e, "`"@ + facet + "` is declared as empty text"@))
            } else {
                None
            },
        },
    }
}

/// The complaints of a list of string-typed facets, each with its facet, in
/// order.
pub open spec fn complaints(declared: Seq<(String, bool)>, facets: Seq<Entry>) -> Seq<
    ((String, bool), (Entry, Seq<char>)),
>
    decreases declared.len(),
{
    if declared.len() == 0 {
        Seq::empty()
    } else {
        let rest = complaints(declared.drop_last(), facets);
        match complaint(declared.last().0@, facets) {
            Some(c) => rest.push((declared.last(), c)),
            None => rest,
        }
    }
}

/// The finding for one blank facet, at its value, with the remedy a required
/// facet has and the two an optional one has.
pub open spec fn blank_finding(f: Finding, path: Seq<char>, x: ((String, bool), (Entry, Seq<char>))) -> bool {
    error_at(
        f,
        RULE,
        path,
        x.1.0.value_line,
        x.1.0.value_column,
        x.1.1,
        if x.0.1 {
            "write the value of `"@ + x.0.0@ + "` into "@ + path + ", which this kind requires"@
        } else {
            "write the value of `"@ + x.0.0@ + "` into "@ + path + ", or remove the key"@
        },
    )
}

/// The check, generated from the facet declarations.
pub struct Blank {
    /// Each kind, and every string-typed facet it may carry with whether it
    /// owes it, in facet declaration order.
    declared: Vec<(String, Vec<(String, bool)>)>,
}

impl Blank {
    pub closed spec fn view(&self) -> Seq<(String, Vec<(String, bool)>)> {
        self.declared@
    }

    /// The generation step: each kind with the string-typed facets it may
    /// carry, keeping the kinds that may carry any.
    pub fn over(declared: Vec<(String, Vec<(String, bool)>)>) -> (b: Self)
        ensures
            b.view() == carrying(declared@),
    {
        let mut kept: Vec<(String, Vec<(String, bool)>)> = Vec::new();
        let mut rest = declared;
        let ghost all = rest@;
        let n = rest.len();
        let mut taken: usize = 0;
        while rest.len() > 0
            invariant
                n == all.len(),
                taken + rest@.len() == all.len(),
                rest@ == all.skip(taken as int),
                kept@ == carrying(all.take(taken as int)),
            decreases rest@.len(),
        {
            assert(all.take(taken + 1).drop_last() =~= all.take(taken as int));
            assert(rest@[0] == all[taken as int]);
            let row = rest.remove(0);
            if row.1.len() > 0 {
                kept.push(row);
            }
            taken = taken + 1;
            assert(rest@ =~= all.skip(taken as int));
        }
        assert(all.take(taken as int) =~= all);
        Blank { declared: kept }
    }

    /// The string-typed facets a document of `kind` may carry.
    pub fn declared_by(&self, kind: &str) -> (r: &[(String, bool)])
        ensures
            r@ == declared_in(self.view(), kind@),
    {
        let mut i: usize = 0;
        assert(self.declared@.skip(0) =~= self.declared@);
        while i < self.declared.len()
            invariant
                i <= self.declared@.len(),
                declared_in(self.declared@, kind@) == declared_in(self.declared@.skip(i as int), kind@),
            decreases self.declared@.len() - i,
        {
            assert(self.declared@.skip(i as int)[0] == self.declared@[i as int]);
            assert(self.declared@.skip(i as int).skip(1) =~= self.declared@.skip(i + 1));
            if str_eq(self.declared[i].0.as_str(), kind) {
                return self.declared[i].1.as_slice();
            }
            i = i + 1;
        }
        &[]
    }

    /// A kind that may carry no string-typed facet generates no instance.
    pub fn instantiates(&self, kind: &str) -> (r: bool)
        ensures
            r == (declared_in(self.view(), kind@).len() > 0),
    {
        self.declared_by(kind).len() > 0
    }

    /// One finding for each string-typed facet the document declares with no
    /// text, in facet declaration order.
    pub fn evaluate(&self, kind: &str, path: &str, facets: &[Entry]) -> (o: Outcome)
        ensures
            ({
                let w = complaints(declared_in(self.view(), kind@), facets@);
                &&& w.len() == 0 ==> o is Passed
                &&& w.len() > 0 ==> (o matches Outcome::Failed(v) && v@.len() == w.len() && forall|k: int|
                    0 <= k < w.len() ==> blank_finding(#[trigger] v@[k], path@, w[k]))
            }),
    {
        let declared = self.declared_by(kind);
        let mut findings: Vec<Finding> = Vec::new();
        let mut i: usize = 0;
        while i < declared.len()
            invariant
                i <= declared@.len(),
                findings@.len() == complaints(declared@.take(i as int), facets@).len(),
                forall|k: int|
                    0 <= k < findings@.len() ==> blank_finding(
                        #[trigger] findings@[k],
                        path@,
                        complaints(declared@.take(i as int), facets@)[k],
                    ),
            decreases declared@.len() - i,
        {
            let ghost before = complaints(declared@.take(i as int), facets@);
            assert(declared@.take(i + 1).drop_last() =~= declared@.take(i as int));
            assert(declared@.take(i + 1).last() == declared@[i as int]);
            let (facet, required) = (&declared[i].0, declared[i].1);
            if let Some(e) = entry(facets, facet.as_str()) {
                let mut m: Vec<char> = chars_of("`");
                extend_str(&mut m, facet.as_str());
                let blank = match &e.scalar {
                    None => {
                        extend_str(&mut m, "` is declared as ");
                        extend_str(&mut m, e.kind_name.as_str());
                        extend_str(&mut m, ", and its declaration says `string`");
                        true
                    },
                    Some(text) => if e.null {
                        extend_str(&mut m, "` is declared with no value");
                        true
                    } else if trimmed(chars_of(text.as_str()).as_slice()).len() == 0 {
                        extend_str(&mut m, "` is declared as empty text");
                        true
                    } else {
                        false
                    },
                };
                if blank {
                    let mut r: Vec<char> = chars_of("write the value of `");
                    extend_str(&mut r, facet.as_str());
                    extend_str(&mut r, "` into ");
                    extend_str(&mut r, path);
                    if required {
                        extend_str(&mut r, ", which this kind requires");
                    } else {
                        extend_str(&mut r, ", or remove the key");
                    }
                    findings.push(
                        Finding {
                            rule: RULE,
                            severity: Severity::Error,
                            obligation: None,
                            path: owned(path),
                            line: e.value_line,
                            column: e.value_column,
                            message: string_of(m.as_slice()),
                            remediation: string_of(r.as_slice()),
                            patch: None,
                        },
                    );
                }
            }
            proof {
                let after = complaints(declared@.take(i + 1), facets@);
                assert forall|k: int| 0 <= k < findings@.len() implies blank_finding(
                    #[trigger] findings@[k],
                    path@,
                    after[k],
                ) by {
                    if k < before.len() {
                        assert(after[k] == before[k]);
                    }
                }
            }
            i = i + 1;
        }
        assert(declared@.take(i as int) =~= declared@);
        Outcome::failed(findings)
    }
}

} // verus!
