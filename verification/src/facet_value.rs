//! A facet whose declaration enumerates its values, declared with a value it
//! does not admit.
//!
//! An absent facet is the required-facet rule's business, and a value that is
//! not a scalar is the meta-schema's; this rule reads scalars alone.
use vstd::prelude::*;
use crate::facets::{entry, entry_under, joined, names_of, Entry};
use crate::finding::{Finding, Severity};
use crate::index::error_at;
use crate::instance::Outcome;
use crate::text::{chars_of, extend, extend_str, join, owned, str_eq, string_of};

verus! {

pub const RULE: &'static str = "facet.value.not_permitted";

/// The enumerated facets a kind may carry, with the values each admits, at
/// the first entry the table holds for it, and none for a kind it does not
/// hold.
pub open spec fn admitted_in(table: Seq<(String, Vec<(String, Vec<String>)>)>, kind: Seq<char>) -> Seq<
    (String, Vec<String>),
>
    decreases table.len(),
{
    if table.len() == 0 {
        Seq::empty()
    } else if table[0].0@ == kind {
        table[0].1@
    } else {
        admitted_in(table.skip(1), kind)
    }
}

/// The kinds of a table that may carry at least one enumerated facet, in
/// order.
pub open spec fn enumerating(table: Seq<(String, Vec<(String, Vec<String>)>)>) -> Seq<
    (String, Vec<(String, Vec<String>)>),
>
    decreases table.len(),
{
    if table.len() == 0 {
        Seq::empty()
    } else if table.last().1@.len() > 0 {
        enumerating(table.drop_last()).push(table.last())
    } else {
        enumerating(table.drop_last())
    }
}

/// Whether a list of values holds one.
pub open spec fn admits(values: Seq<String>, text: Seq<char>) -> bool {
    exists|i: int| 0 <= i < values.len() && (#[trigger] values[i])@ == text
}

/// What a front matter declares for one enumerated facet that it does not
/// admit: the entry and the scalar text, and nothing where the facet is
/// absent, its value is no scalar, or the value is admitted.
pub open spec fn violation(facet: (String, Vec<String>), facets: Seq<Entry>) -> Option<(Entry, Seq<char>)> {
    match entry_under(facets, facet.0@) {
        None => None,
        Some(e) => match e.scalar {
            None => None,
            Some(text) => if admits(facet.1@, text@) {
                None
            } else {
                Some((e, text@))
            },
        },
    }
}

/// The violations of a list of enumerated facets, each with its facet, in
/// order.
pub open spec fn violations(admitted: Seq<(String, Vec<String>)>, facets: Seq<Entry>) -> Seq<
    ((String, Vec<String>), (Entry, Seq<char>)),
>
    decreases admitted.len(),
{
    if admitted.len() == 0 {
        Seq::empty()
    } else {
        let rest = violations(admitted.drop_last(), facets);
        match violation(admitted.last(), facets) {
            Some(v) => rest.push((admitted.last(), v)),
            None => rest,
        }
    }
}

/// The finding for one value a facet does not admit, at the value.
pub open spec fn value_finding(f: Finding, path: Seq<char>, x: ((String, Vec<String>), (Entry, Seq<char>))) -> bool {
    let values = join(names_of(x.0.1@), ", "@);
    error_at(
        f,
        RULE,
        path,
        x.1.0.value_line,
        x.1.0.value_column,
        "`"@ + x.0.0@ + "` admits "@ + values + ", and this document declares `"@ + x.1.1 + "`"@,
        "change `"@ + x.0.0@ + "` in "@ + path + " to one of: "@ + values,
    )
}


/// A list of facets with their values, as texts and values.
pub open spec fn row_view(r: Seq<(String, Vec<String>)>) -> Seq<(Seq<char>, Seq<String>)> {
    r.map_values(|x: (String, Vec<String>)| (x.0@, x.1@))
}

/// A table of kinds, as texts and values.
pub open spec fn table_view(t: Seq<(String, Vec<(String, Vec<String>)>)>) -> Seq<(Seq<char>, Seq<(Seq<char>, Seq<String>)>)> {
    t.map_values(|x: (String, Vec<(String, Vec<String>)>)| (x.0@, row_view(x.1@)))
}

/// The enumerated facets of a declaration list that a forbid list leaves, in
/// declaration order.
pub open spec fn allowed_view(facets: Seq<(String, Vec<String>)>, forbid: Seq<String>) -> Seq<(Seq<char>, Seq<String>)>
    decreases facets.len(),
{
    if facets.len() == 0 {
        Seq::empty()
    } else {
        let rest = allowed_view(facets.drop_last(), forbid);
        if facets.last().1@.len() > 0 && !names_of(forbid).contains(facets.last().0@) {
            rest.push((facets.last().0@, facets.last().1@))
        } else {
            rest
        }
    }
}

/// Each kind with the enumerated facets it may carry.
pub open spec fn per_kind(facets: Seq<(String, Vec<String>)>, kinds: Seq<(String, Vec<String>)>) -> Seq<(Seq<char>, Seq<(Seq<char>, Seq<String>)>)> {
    kinds.map_values(|k: (String, Vec<String>)| (k.0@, allowed_view(facets, k.1@)))
}

/// The table the generation step makes: each kind that may carry an
/// enumerated facet, with those facets, in kind order.
pub open spec fn generated(facets: Seq<(String, Vec<String>)>, kinds: Seq<(String, Vec<String>)>) -> Seq<(Seq<char>, Seq<(Seq<char>, Seq<String>)>)>
    decreases kinds.len(),
{
    if kinds.len() == 0 {
        Seq::empty()
    } else {
        let rest = generated(facets, kinds.drop_last());
        let a = allowed_view(facets, kinds.last().1@);
        if a.len() > 0 {
            rest.push((kinds.last().0@, a))
        } else {
            rest
        }
    }
}

proof fn lemma_enumerating_view(t: Seq<(String, Vec<(String, Vec<String>)>)>)
    ensures
        table_view(enumerating(t)) == keep_nonempty(table_view(t)),
    decreases t.len(),
{
    if t.len() > 0 {
        lemma_enumerating_view(t.drop_last());
        assert(table_view(t).drop_last() =~= table_view(t.drop_last()));
        if t.last().1@.len() > 0 {
            assert(table_view(enumerating(t.drop_last()).push(t.last())) =~= table_view(enumerating(t.drop_last())).push(
                (t.last().0@, row_view(t.last().1@)),
            ));
        }
    }
}

/// The entries of a table whose list is not empty.
pub open spec fn keep_nonempty(t: Seq<(Seq<char>, Seq<(Seq<char>, Seq<String>)>)>) -> Seq<(Seq<char>, Seq<(Seq<char>, Seq<String>)>)>
    decreases t.len(),
{
    if t.len() == 0 {
        Seq::empty()
    } else if t.last().1.len() > 0 {
        keep_nonempty(t.drop_last()).push(t.last())
    } else {
        keep_nonempty(t.drop_last())
    }
}

proof fn lemma_generated(facets: Seq<(String, Vec<String>)>, kinds: Seq<(String, Vec<String>)>)
    ensures
        keep_nonempty(per_kind(facets, kinds)) == generated(facets, kinds),
    decreases kinds.len(),
{
    if kinds.len() > 0 {
        lemma_generated(facets, kinds.drop_last());
        assert(per_kind(facets, kinds).drop_last() =~= per_kind(facets, kinds.drop_last()));
    }
}

/// A list of texts, copied.
fn copy_strings(v: &Vec<String>) -> (r: Vec<String>)
    ensures
        r@ == v@,
{
    let mut r: Vec<String> = Vec::new();
    let mut i: usize = 0;
    while i < v.len()
        invariant
            i <= v@.len(),
            r@ == v@.take(i as int),
        decreases v@.len() - i,
    {
        r.push(v[i].clone());
        assert(r@ =~= v@.take(i + 1));
        i = i + 1;
    }
    assert(v@.take(i as int) =~= v@);
    r
}

/// Whether a forbid list names a facet.
fn holds_name(forbid: &[String], name: &str) -> (r: bool)
    ensures
        r == names_of(forbid@).contains(name@),
{
    let mut i: usize = 0;
    while i < forbid.len()
        invariant
            i <= forbid@.len(),
            forall|k: int| 0 <= k < i ==> (#[trigger] forbid@[k])@ != name@,
        decreases forbid@.len() - i,
    {
        if str_eq(forbid[i].as_str(), name) {
            assert(names_of(forbid@)[i as int] == name@);
            return true;
        }
        i = i + 1;
    }
    assert(!names_of(forbid@).contains(name@)) by {
        if names_of(forbid@).contains(name@) {
            let k = choose|k: int| 0 <= k < names_of(forbid@).len() && names_of(forbid@)[k] == name@;
            assert(forbid@[k]@ == name@);
        }
    }
    false
}

/// The check, generated from the facet declarations.
pub struct Values {
    /// Each kind, and every enumerated facet a document of it may carry, with
    /// the set, in facet declaration order.
    by_kind: Vec<(String, Vec<(String, Vec<String>)>)>,
}

impl Values {
    pub closed spec fn view(&self) -> Seq<(String, Vec<(String, Vec<String>)>)> {
        self.by_kind@
    }

    /// The generation step, in full: each facet declaration with the values
    /// it enumerates, and each kind with the facet names some step of its
    /// ancestry forbids. A kind may carry every enumerated facet its ancestry
    /// does not forbid, in facet declaration order, and a kind that may carry
    /// none generates no instance.
    pub fn over(facets: &[(String, Vec<String>)], kinds: &[(String, Vec<String>)]) -> (v: Self)
        ensures
            table_view(v.view()) == generated(facets@, kinds@),
    {
        let mut table: Vec<(String, Vec<(String, Vec<String>)>)> = Vec::new();
        let mut k: usize = 0;
        while k < kinds.len()
            invariant
                k <= kinds@.len(),
                table_view(table@) == per_kind(facets@, kinds@.take(k as int)),
            decreases kinds@.len() - k,
        {
            assert(kinds@.take(k + 1).drop_last() =~= kinds@.take(k as int));
            assert(kinds@.take(k + 1).last() == kinds@[k as int]);
            let forbid = &kinds[k].1;
            let mut row: Vec<(String, Vec<String>)> = Vec::new();
            let mut f: usize = 0;
            while f < facets.len()
                invariant
                    f <= facets@.len(),
                    forbid@ == kinds@[k as int].1@,
                    row_view(row@) == allowed_view(facets@.take(f as int), forbid@),
                decreases facets@.len() - f,
            {
                assert(facets@.take(f + 1).drop_last() =~= facets@.take(f as int));
                assert(facets@.take(f + 1).last() == facets@[f as int]);
                if facets[f].1.len() > 0 && !holds_name(forbid.as_slice(), facets[f].0.as_str()) {
                    let ghost before = row@;
                    row.push((facets[f].0.clone(), copy_strings(&facets[f].1)));
                    assert(row_view(row@) =~= row_view(before).push((facets@[f as int].0@, facets@[f as int].1@)));
                }
                f = f + 1;
            }
            assert(facets@.take(f as int) =~= facets@);
            let ghost before = table@;
            table.push((kinds[k].0.clone(), row));
            assert(table_view(table@) =~= table_view(before).push(
                (kinds@[k as int].0@, allowed_view(facets@, kinds@[k as int].1@)),
            ));
            k = k + 1;
        }
        assert(kinds@.take(k as int) =~= kinds@);
        let ghost t = table@;
        let v = Values::of_table(table);
        proof {
            lemma_enumerating_view(t);
            lemma_generated(facets@, kinds@);
        }
        v
    }

    /// A table of kinds, keeping the kinds that may carry an enumerated facet.
    fn of_table(by_kind: Vec<(String, Vec<(String, Vec<String>)>)>) -> (v: Self)
        ensures
            v.view() == enumerating(by_kind@),
    {
        let mut kept: Vec<(String, Vec<(String, Vec<String>)>)> = Vec::new();
        let mut rest = by_kind;
        let ghost all = rest@;
        let n = rest.len();
        let mut taken: usize = 0;
        while rest.len() > 0
            invariant
                n == all.len(),
                taken + rest@.len() == all.len(),
                rest@ == all.skip(taken as int),
                kept@ == enumerating(all.take(taken as int)),
            decreases rest@.len(),
        {
            assert(all.take(taken + 1).drop_last() =~= all.take(taken as int));
            assert(rest@[0] == all[taken as int]);
            let row = rest.remove(0);
            if row.1.len() > 0 {
                kept.push(row);
            }
            taken = taken + 1;
            assert(rest@ =~= all.skip(taken as int));
        }
        assert(all.take(taken as int) =~= all);
        Values { by_kind: kept }
    }

    /// The enumerated facets a document of `kind` may carry.
    pub fn admitted_by(&self, kind: &str) -> (r: &[(String, Vec<String>)])
        ensures
            r@ == admitted_in(self.view(), kind@),
    {
        let mut i: usize = 0;
        assert(self.by_kind@.skip(0) =~= self.by_kind@);
        while i < self.by_kind.len()
            invariant
                i <= self.by_kind@.len(),
                admitted_in(self.by_kind@, kind@) == admitted_in(self.by_kind@.skip(i as int), kind@),
            decreases self.by_kind@.len() - i,
        {
            assert(self.by_kind@.skip(i as int)[0] == self.by_kind@[i as int]);
            assert(self.by_kind@.skip(i as int).skip(1) =~= self.by_kind@.skip(i + 1));
            if str_eq(self.by_kind[i].0.as_str(), kind) {
                return self.by_kind[i].1.as_slice();
            }
            i = i + 1;
        }
        &[]
    }

    /// A kind that may carry no enumerated facet generates no instance.
    pub fn instantiates(&self, kind: &str) -> (r: bool)
        ensures
            r == (admitted_in(self.view(), kind@).len() > 0),
    {
        self.admitted_by(kind).len() > 0
    }

    /// Whether a list of values holds a text.
    fn admitted(values: &[String], text: &str) -> (r: bool)
        ensures
            r == admits(values@, text@),
    {
        let mut i: usize = 0;
        while i < values.len()
            invariant
                i <= values@.len(),
                forall|k: int| 0 <= k < i ==> (#[trigger] values@[k])@ != text@,
            decreases values@.len() - i,
        {
            if str_eq(values[i].as_str(), text) {
                return true;
            }
            i = i + 1;
        }
        false
    }

    /// One finding for each enumerated facet the document declares with a
    /// value its declaration does not admit, in facet declaration order.
    pub fn evaluate(&self, kind: &str, path: &str, facets: &[Entry]) -> (o: Outcome)
        ensures
            ({
                let w = violations(admitted_in(self.view(), kind@), facets@);
                &&& w.len() == 0 ==> o is Passed
                &&& w.len() > 0 ==> (o matches Outcome::Failed(v) && v@.len() == w.len() && forall|k: int|
                    0 <= k < w.len() ==> value_finding(#[trigger] v@[k], path@, w[k]))
            }),
    {
        let admitted = self.admitted_by(kind);
        let mut findings: Vec<Finding> = Vec::new();
        let mut i: usize = 0;
        while i < admitted.len()
            invariant
                i <= admitted@.len(),
                findings@.len() == violations(admitted@.take(i as int), facets@).len(),
                forall|k: int|
                    0 <= k < findings@.len() ==> value_finding(
                        #[trigger] findings@[k],
                        path@,
                        violations(admitted@.take(i as int), facets@)[k],
                    ),
            decreases admitted@.len() - i,
        {
            let ghost before = violations(admitted@.take(i as int), facets@);
            assert(admitted@.take(i + 1).drop_last() =~= admitted@.take(i as int));
            assert(admitted@.take(i + 1).last() == admitted@[i as int]);
            let (facet, values) = (&admitted[i].0, &admitted[i].1);
            if let Some(e) = entry(facets, facet.as_str()) {
                if let Some(text) = &e.scalar {
                    if !Values::admitted(values.as_slice(), text.as_str()) {
                        let listed = joined(values.as_slice());
                        let mut m: Vec<char> = chars_of("`");
                        extend_str(&mut m, facet.as_str());
                        extend_str(&mut m, "` admits ");
                        extend(&mut m, listed.as_slice());
                        extend_str(&mut m, ", and this document declares `");
                        extend_str(&mut m, text.as_str());
                        extend_str(&mut m, "`");
                        let mut r: Vec<char> = chars_of("change `");
                        extend_str(&mut r, facet.as_str());
                        extend_str(&mut r, "` in ");
                        extend_str(&mut r, path);
                        extend_str(&mut r, " to one of: ");
                        extend(&mut r, listed.as_slice());
                        findings.push(
                            Finding {
                                rule: RULE,
                                severity: Severity::Error,
                                obligation: None,
                                path: owned(path),
                                line: e.value_line,
                                column: e.value_column,
                                message: string_of(m.as_slice()),
                                remediation: string_of(r.as_slice()),
                                patch: None,
                            },
                        );
                    }
                }
            }
            proof {
                let after = violations(admitted@.take(i + 1), facets@);
                assert forall|k: int| 0 <= k < findings@.len() implies value_finding(
                    #[trigger] findings@[k],
                    path@,
                    after[k],
                ) by {
                    if k < before.len() {
                        assert(after[k] == before[k]);
                    }
                }
            }
            i = i + 1;
        }
        assert(admitted@.take(i as int) =~= admitted@);
        Outcome::failed(findings)
    }
}

} // verus!
