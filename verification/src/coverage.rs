//! Coverage: what a run looked at, computed against the census.
//!
//! The census is the denominator and is never rebuilt here. Every instance's
//! reads are routed to the documents they name, and a classified document that
//! no instance reached a verdict on is a finding: it means a shelf pattern is
//! wrong or a file is misplaced. A read of a path the census never walked is
//! reported rather than dropped.
use vstd::prelude::*;
use crate::finding::{Finding, Severity};
use crate::instance::{Grain, Instance, Outcome};
use crate::text::{
    chars_of, decimal, extend_decimal, extend_right5, extend_str, owned, right5, same, str_eq, string_of,
};

verus! {

/// The rule this module reports under.
pub const RULE: &'static str = "coverage.document_unchecked";

/// The edition of the rule.
pub const VERSION: u32 = 1;

/// What the census says of one file: its path, and the class of what the walk
/// found there (`typed`, `generated`, and the others).
#[derive(Clone, Debug, PartialEq, Eq)]
pub struct Row {
    pub path: String,
    pub class: &'static str,
}

/// One file of the census, and what the run's instances did with it.
#[derive(Clone, Debug)]
pub struct Document {
    pub path: String,
    pub class: &'static str,
    /// Instances routed to this document.
    pub created: usize,
    /// Of those, the ones that reached a verdict.
    pub ran: usize,
    /// Of those, the ones that skipped: the rule and the reason.
    pub skipped: Vec<(&'static str, String)>,
}

/// What a run looked at.
#[derive(Clone, Debug)]
pub struct Coverage {
    pub documents: Vec<Document>,
    /// Every instance the run created.
    pub instances: usize,
    /// Paths a check read that the census never walked.
    pub unaccounted: Vec<String>,
    skips: Vec<(String, usize)>,
}

/// Whether an instance of a grain is counted against each document it read.
/// A corpus-grained or taxonomy-grained instance covers no one document.
pub open spec fn routes(g: Grain) -> bool {
    g == Grain::Document || g == Grain::Edge || g == Grain::Neighbourhood
}

fn routes_exec(g: Grain) -> (r: bool)
    ensures
        r == routes(g),
{
    match g {
        Grain::Document | Grain::Edge | Grain::Neighbourhood => true,
        _ => false,
    }
}

/// Every read of every instance, in order: the instance and the path.
pub open spec fn reads_of(insts: Seq<Instance>) -> Seq<(Instance, Seq<char>)>
    decreases insts.len(),
{
    if insts.len() == 0 {
        Seq::<(Instance, Seq<char>)>::empty()
    } else {
        let last = insts.last();
        reads_of(insts.drop_last()) + last.reads@.map_values(|r: crate::instance::Input| (last, r.path@))
    }
}

/// The first row of the census at a path.
pub open spec fn row_at(rows: Seq<Row>, p: Seq<char>) -> Option<int>
    decreases rows.len(),
{
    if rows.len() == 0 {
        None
    } else {
        match row_at(rows.drop_last(), p) {
            Some(i) => Some(i),
            None => if rows.last().path@ == p {
                Some(rows.len() - 1)
            } else {
                None
            },
        }
    }
}

/// Whether a read counts against document `i`.
pub open spec fn routed_to(rows: Seq<Row>, e: (Instance, Seq<char>), i: int) -> bool {
    row_at(rows, e.1) == Some(i) && routes(e.0.grain)
}

/// Instances routed to document `i`.
pub open spec fn created_of(rows: Seq<Row>, es: Seq<(Instance, Seq<char>)>, i: int) -> nat
    decreases es.len(),
{
    if es.len() == 0 {
        0
    } else {
        created_of(rows, es.drop_last(), i) + if routed_to(rows, es.last(), i) {
            1nat
        } else {
            0nat
        }
    }
}

/// Of those, the ones that reached a verdict.
pub open spec fn ran_of(rows: Seq<Row>, es: Seq<(Instance, Seq<char>)>, i: int) -> nat
    decreases es.len(),
{
    if es.len() == 0 {
        0
    } else {
        ran_of(rows, es.drop_last(), i) + if routed_to(rows, es.last(), i) && !(es.last().0.outcome is Skipped) {
            1nat
        } else {
            0nat
        }
    }
}

/// Of those, the ones that skipped: the rule and the reason, in order.
pub open spec fn skipped_of(rows: Seq<Row>, es: Seq<(Instance, Seq<char>)>, i: int) -> Seq<(Seq<char>, Seq<char>)>
    decreases es.len(),
{
    if es.len() == 0 {
        Seq::<(Seq<char>, Seq<char>)>::empty()
    } else {
        let e = es.last();
        let before = skipped_of(rows, es.drop_last(), i);
        match e.0.outcome {
            Outcome::Skipped(reason) => if routed_to(rows, e, i) {
                before.push((e.0.rule@, reason@))
            } else {
                before
            },
            _ => before,
        }
    }
}

/// The paths read that no row holds, in order.
pub open spec fn unaccounted_of(rows: Seq<Row>, es: Seq<(Instance, Seq<char>)>) -> Seq<Seq<char>>
    decreases es.len(),
{
    if es.len() == 0 {
        Seq::<Seq<char>>::empty()
    } else if row_at(rows, es.last().1) is None {
        unaccounted_of(rows, es.drop_last()).push(es.last().1)
    } else {
        unaccounted_of(rows, es.drop_last())
    }
}

/// Whether `d` is what the run made of row `i`.
pub open spec fn document_of(rows: Seq<Row>, insts: Seq<Instance>, i: int, d: Document) -> bool {
    let es = reads_of(insts);
    &&& d.path@ == rows[i].path@
    &&& d.class == rows[i].class
    &&& d.created == created_of(rows, es, i)
    &&& d.ran == ran_of(rows, es, i)
    &&& d.skipped@.map_values(|s: (&'static str, String)| (s.0@, s.1@)) == skipped_of(rows, es, i)
}

/// How many instances skipped with a reason.
pub open spec fn skip_count(insts: Seq<Instance>, reason: Seq<char>) -> nat
    decreases insts.len(),
{
    if insts.len() == 0 {
        0
    } else {
        skip_count(insts.drop_last(), reason) + match insts.last().outcome {
            Outcome::Skipped(r) => if r@ == reason {
                1nat
            } else {
                0nat
            },
            _ => 0nat,
        }
    }
}

/// Where the first instance that skipped with a reason stands.
pub open spec fn first_skip(insts: Seq<Instance>, reason: Seq<char>) -> Option<int>
    decreases insts.len(),
{
    if insts.len() == 0 {
        None
    } else {
        match first_skip(insts.drop_last(), reason) {
            Some(k) => Some(k),
            None => match insts.last().outcome {
                Outcome::Skipped(r) => if r@ == reason {
                    Some(insts.len() - 1)
                } else {
                    None
                },
                _ => None,
            },
        }
    }
}

/// The reasons instances skipped with, each once, in the order each first
/// appeared, with how many instances gave it.
pub open spec fn skips_in_order(insts: Seq<Instance>, v: Seq<(Seq<char>, int)>) -> bool {
    &&& forall|i: int| 0 <= i < v.len() ==> (#[trigger] v[i]).1 == skip_count(insts, v[i].0) && v[i].1 > 0
    &&& forall|i: int, j: int|
        0 <= i < j < v.len() ==> first_skip(insts, #[trigger] v[i].0).unwrap() < first_skip(
            insts,
            #[trigger] v[j].0,
        ).unwrap()
    &&& forall|k: int|
        0 <= k < insts.len() ==> ((#[trigger] insts[k]).outcome matches Outcome::Skipped(r) ==> exists|i: int|
            0 <= i < v.len() && v[i].0 == r@)
}

impl Coverage {
    /// Each row's document.
    pub closed spec fn documents_view(&self) -> Seq<Document> {
        self.documents@
    }

    /// How many instances the run created.
    pub closed spec fn instances_view(&self) -> nat {
        self.instances as nat
    }

    /// The paths read that no row holds.
    pub closed spec fn unaccounted_view(&self) -> Seq<Seq<char>> {
        self.unaccounted@.map_values(|s: String| s@)
    }

    /// The reasons instances skipped with, as characters and counts.
    pub closed spec fn skips_view(&self) -> Seq<(Seq<char>, int)> {
        self.skips@.map_values(|s: (String, usize)| (s.0@, s.1 as int))
    }
}

} // verus!

verus! {

/// The reads of one instance, each with the instance.
pub open spec fn reads_one(inst: Instance) -> Seq<(Instance, Seq<char>)> {
    inst.reads@.map_values(|r: crate::instance::Input| (inst, r.path@))
}

/// The reads of a prefix of the instances stand at the front of all reads.
proof fn lemma_reads_prefix(insts: Seq<Instance>, k: int)
    requires
        0 <= k <= insts.len(),
    ensures
        reads_of(insts.take(k)).len() <= reads_of(insts).len(),
    decreases insts.len() - k,
{
    if k < insts.len() {
        lemma_reads_prefix(insts, k + 1);
        assert(insts.take(k + 1).drop_last() =~= insts.take(k));
    } else {
        assert(insts.take(k) =~= insts);
    }
}

/// A count over reads is no more than the reads.
proof fn lemma_counts_bounded(rows: Seq<Row>, es: Seq<(Instance, Seq<char>)>, i: int)
    ensures
        created_of(rows, es, i) <= es.len(),
        ran_of(rows, es, i) <= created_of(rows, es, i),
    decreases es.len(),
{
    if es.len() > 0 {
        lemma_counts_bounded(rows, es.drop_last(), i);
    }
}

/// The first row at a path is the first whose path it is.
proof fn lemma_row_at(rows: Seq<Row>, p: Seq<char>, n: int)
    requires
        0 <= n <= rows.len(),
        forall|m: int| 0 <= m < n ==> (#[trigger] rows[m]).path@ != p,
    ensures
        n < rows.len() && rows[n].path@ == p ==> row_at(rows, p) == Some(n),
        n == rows.len() ==> row_at(rows, p) is None,
    decreases rows.len() - n,
{
    if n < rows.len() && rows[n].path@ == p {
        lemma_row_at_prefix(rows, p, n);
    } else if n == rows.len() {
        lemma_row_at_none(rows, p);
    }
}

proof fn lemma_row_at_none(rows: Seq<Row>, p: Seq<char>)
    requires
        forall|m: int| 0 <= m < rows.len() ==> (#[trigger] rows[m]).path@ != p,
    ensures
        row_at(rows, p) is None,
    decreases rows.len(),
{
    if rows.len() > 0 {
        assert(rows.last() == rows[rows.len() - 1]);
        lemma_row_at_none(rows.drop_last(), p);
    }
}

proof fn lemma_row_at_prefix(rows: Seq<Row>, p: Seq<char>, n: int)
    requires
        0 <= n < rows.len(),
        rows[n].path@ == p,
        forall|m: int| 0 <= m < n ==> (#[trigger] rows[m]).path@ != p,
    ensures
        row_at(rows, p) == Some(n),
    decreases rows.len(),
{
    if n < rows.len() - 1 {
        lemma_row_at_prefix(rows.drop_last(), p, n);
    } else {
        lemma_row_at_none(rows.drop_last(), p);
    }
}

/// The skip reasons of a prefix, extended by one more instance.
proof fn lemma_first_skip_step(insts: Seq<Instance>, k: int, r: Seq<char>)
    requires
        0 <= k < insts.len(),
    ensures
        insts.take(k + 1).drop_last() == insts.take(k),
        insts.take(k + 1).last() == insts[k],
        first_skip(insts.take(k), r) is Some ==> first_skip(insts.take(k + 1), r) == first_skip(insts.take(k), r),
        first_skip(insts.take(k), r) matches Some(j) ==> 0 <= j < k,
{
    assert(insts.take(k + 1).drop_last() =~= insts.take(k));
    lemma_first_skip_range(insts.take(k), r);
}

proof fn lemma_first_skip_range(insts: Seq<Instance>, r: Seq<char>)
    ensures
        first_skip(insts, r) matches Some(j) ==> 0 <= j < insts.len(),
        first_skip(insts, r) is None ==> skip_count(insts, r) == 0,
        first_skip(insts, r) is Some ==> skip_count(insts, r) > 0,
    decreases insts.len(),
{
    if insts.len() > 0 {
        lemma_first_skip_range(insts.drop_last(), r);
    }
}

/// Whether an instance skipped with a reason.
pub open spec fn skipped_with(i: Instance, r: Seq<char>) -> bool {
    match i.outcome {
        Outcome::Skipped(x) => x@ == r,
        _ => false,
    }
}

/// A reason some instance skipped with is one a given instance skipped with.
proof fn lemma_skipped_somewhere(insts: Seq<Instance>, r: Seq<char>)
    requires
        skip_count(insts, r) > 0,
    ensures
        exists|m: int| 0 <= m < insts.len() && skipped_with(#[trigger] insts[m], r),
    decreases insts.len(),
{
    if insts.len() > 0 {
        if skip_count(insts.drop_last(), r) > 0 {
            lemma_skipped_somewhere(insts.drop_last(), r);
            let m = choose|m: int| 0 <= m < insts.drop_last().len() && skipped_with(#[trigger] insts.drop_last()[m], r);
            assert(insts[m] == insts.drop_last()[m]);
        } else {
            assert(insts[insts.len() - 1] == insts.last());
        }
    }
}

/// A reason no instance skipped with has no first instance.
proof fn lemma_first_skip_none(insts: Seq<Instance>, r: Seq<char>)
    requires
        skip_count(insts, r) == 0,
    ensures
        first_skip(insts, r) is None,
{
    lemma_first_skip_range(insts, r);
}

impl Coverage {
    /// Coverage of one run against the census it walked: each row's
    /// document, what the instances routed to it did, the reasons instances
    /// skipped with, and the paths read that no row holds.
    pub fn of(rows: &[Row], instances: &[Instance]) -> (c: Self)
        requires
            reads_of(instances@).len() <= usize::MAX,
        ensures
            c.documents_view().len() == rows@.len(),
            forall|i: int| 0 <= i < rows@.len() ==> document_of(rows@, instances@, i, #[trigger] c.documents_view()[i]),
            c.instances_view() == instances@.len(),
            c.unaccounted_view() == unaccounted_of(rows@, reads_of(instances@)),
            skips_in_order(instances@, c.skips_view()),
    {
        let mut documents: Vec<Document> = Vec::new();
        let mut m: usize = 0;
        while m < rows.len()
            invariant
                m <= rows@.len(),
                documents@.len() == m,
                forall|i: int| 0 <= i < m ==> {
                    &&& (#[trigger] documents@[i]).path@ == rows@[i].path@
                    &&& documents@[i].class == rows@[i].class
                    &&& documents@[i].created == 0
                    &&& documents@[i].ran == 0
                    &&& documents@[i].skipped@.len() == 0
                },
            decreases rows@.len() - m,
        {
            documents.push(Document {
                path: rows[m].path.clone(),
                class: rows[m].class,
                created: 0,
                ran: 0,
                skipped: Vec::new(),
            });
            m = m + 1;
        }
        let mut unaccounted: Vec<String> = Vec::new();
        let mut skips: Vec<(String, usize)> = Vec::new();
        let ghost insts = instances@;
        let ghost rs = rows@;
        proof {
            assert(insts.take(0) =~= Seq::<Instance>::empty());
            assert forall|i: int| 0 <= i < rs.len() implies (#[trigger] documents@[i]).skipped@.map_values(
                |s: (&'static str, String)| (s.0@, s.1@),
            ) =~= skipped_of(rs, reads_of(insts.take(0)), i) by {}
            assert(unaccounted@.map_values(|s: String| s@) =~= Seq::<Seq<char>>::empty());
            assert(skips@.map_values(|s: (String, usize)| (s.0@, s.1 as int)) =~= Seq::<(Seq<char>, int)>::empty());
        }
        let mut k: usize = 0;
        while k < instances.len()
            invariant
                k <= insts.len(),
                insts == instances@,
                rs == rows@,
                reads_of(insts).len() <= usize::MAX,
                documents@.len() == rs.len(),
                forall|i: int| 0 <= i < rs.len() ==> {
                    &&& (#[trigger] documents@[i]).path@ == rs[i].path@
                    &&& documents@[i].class == rs[i].class
                    &&& documents@[i].created == created_of(rs, reads_of(insts.take(k as int)), i)
                    &&& documents@[i].ran == ran_of(rs, reads_of(insts.take(k as int)), i)
                    &&& documents@[i].skipped@.map_values(|s: (&'static str, String)| (s.0@, s.1@))
                        == skipped_of(rs, reads_of(insts.take(k as int)), i)
                },
                unaccounted@.map_values(|s: String| s@) == unaccounted_of(rs, reads_of(insts.take(k as int))),
                skips_in_order(insts.take(k as int), skips@.map_values(|s: (String, usize)| (s.0@, s.1 as int))),
                forall|i: int| 0 <= i < skips@.len() ==> (#[trigger] skips@[i]).1 <= k,
            decreases insts.len() - k,
        {
            let inst = &instances[k];
            let ghost before = insts.take(k as int);
            let ghost after = insts.take(k + 1);
            proof {
                assert(after.drop_last() =~= before);
                assert(after.last() == insts[k as int]);
                assert(reads_of(after) == reads_of(before) + reads_one(insts[k as int]));
                lemma_reads_prefix(insts, k + 1);
            }
            // The reason this instance skipped with, counted once.
            let ghost old_skips = skips@.map_values(|s: (String, usize)| (s.0@, s.1 as int));
            proof {
                assert forall|i: int| 0 <= i < old_skips.len() implies #[trigger] first_skip(after, old_skips[i].0)
                    == first_skip(before, old_skips[i].0) by {
                    lemma_first_skip_step(insts, k as int, old_skips[i].0);
                    lemma_first_skip_range(before, old_skips[i].0);
                }
            }
            match &inst.outcome {
                Outcome::Skipped(reason) => {
                    let rc = chars_of(reason);
                    let mut s: usize = 0;
                    while s < skips.len() && !same(chars_of(skips[s].0.as_str()).as_slice(), rc.as_slice())
                        invariant
                            s <= skips@.len(),
                            rc@ == reason@,
                            forall|m: int| 0 <= m < s ==> (#[trigger] skips@[m]).0@ != reason@,
                        decreases skips@.len() - s,
                    {
                        s = s + 1;
                    }
                    if s < skips.len() {
                        let (r, c) = skips.remove(s);
                        skips.insert(s, (r, c + 1));
                        proof {
                            let v = skips@.map_values(|s: (String, usize)| (s.0@, s.1 as int));
                            assert(v =~= old_skips.update(s as int, (reason@, c + 1)));
                            assert forall|i: int| 0 <= i < v.len() implies (#[trigger] v[i]).1 == skip_count(after, v[i].0) && v[i].1 > 0 by {
                                if i != s {
                                    if old_skips[i].0 == reason@ {
                                        assert(first_skip(before, old_skips[i].0) == first_skip(before, old_skips[s as int].0));
                                        if i < s {
                                            assert(first_skip(before, old_skips[i].0).unwrap() < first_skip(before, old_skips[s as int].0).unwrap());
                                        } else {
                                            assert(first_skip(before, old_skips[s as int].0).unwrap() < first_skip(before, old_skips[i].0).unwrap());
                                        }
                                    }
                                }
                            }
                            assert forall|i: int, j: int| 0 <= i < j < v.len() implies first_skip(after, #[trigger] v[i].0).unwrap()
                                < first_skip(after, #[trigger] v[j].0).unwrap() by {
                                assert(v[i].0 == old_skips[i].0);
                                assert(v[j].0 == old_skips[j].0);
                            }
                            assert forall|m: int| 0 <= m < after.len() implies ((#[trigger] after[m]).outcome matches Outcome::Skipped(r)
                                ==> exists|i: int| 0 <= i < v.len() && v[i].0 == r@) by {
                                if m < k {
                                    assert(after[m] == before[m]);
                                    match before[m].outcome {
                                        Outcome::Skipped(r) => {
                                            let i = choose|i: int| 0 <= i < old_skips.len() && old_skips[i].0 == r@;
                                            assert(v[i].0 == old_skips[i].0);
                                        },
                                        _ => {},
                                    }
                                } else {
                                    assert(v[s as int].0 == reason@);
                                }
                            }
                        }
                    } else {
                        proof {
                            assert(skip_count(before, reason@) == 0) by {
                                if skip_count(before, reason@) > 0 {
                                    lemma_skipped_somewhere(before, reason@);
                                    let m = choose|m: int| 0 <= m < before.len() && skipped_with(#[trigger] before[m], reason@);
                                    match before[m].outcome {
                                        Outcome::Skipped(x) => {
                                            let i = choose|i: int| 0 <= i < old_skips.len() && old_skips[i].0 == x@;
                                            assert(skips@[i].0@ == reason@);
                                        },
                                        _ => {},
                                    }
                                }
                            }
                            lemma_first_skip_none(before, reason@);
                        }
                        skips.push((owned(reason), 1));
                        proof {
                            let v = skips@.map_values(|s: (String, usize)| (s.0@, s.1 as int));
                            assert(v =~= old_skips.push((reason@, 1)));
                            assert(first_skip(after, reason@) == Some(k as int));
                            assert forall|i: int| 0 <= i < v.len() implies (#[trigger] v[i]).1 == skip_count(after, v[i].0) && v[i].1 > 0 by {
                                if i < old_skips.len() {
                                    assert(v[i] == old_skips[i]);
                                    assert(old_skips[i].0 != reason@) by {
                                        assert(skips@[i].0@ == old_skips[i].0);
                                    }
                                }
                            }
                            assert forall|i: int, j: int| 0 <= i < j < v.len() implies first_skip(after, #[trigger] v[i].0).unwrap()
                                < first_skip(after, #[trigger] v[j].0).unwrap() by {
                                assert(v[i].0 == old_skips[i].0);
                                lemma_first_skip_step(insts, k as int, old_skips[i].0);
                                lemma_first_skip_range(before, old_skips[i].0);
                                if j < old_skips.len() {
                                    assert(v[j].0 == old_skips[j].0);
                                }
                            }
                            assert forall|m: int| 0 <= m < after.len() implies ((#[trigger] after[m]).outcome matches Outcome::Skipped(r)
                                ==> exists|i: int| 0 <= i < v.len() && v[i].0 == r@) by {
                                if m < k {
                                    assert(after[m] == before[m]);
                                    match before[m].outcome {
                                        Outcome::Skipped(r) => {
                                            let i = choose|i: int| 0 <= i < old_skips.len() && old_skips[i].0 == r@;
                                            assert(v[i].0 == old_skips[i].0);
                                        },
                                        _ => {},
                                    }
                                } else {
                                    assert(v[old_skips.len() as int].0 == reason@);
                                }
                            }
                        }
                    }
                },
                _ => {
                    proof {
                        let v = old_skips;
                        assert forall|i: int| 0 <= i < v.len() implies (#[trigger] v[i]).1 == skip_count(after, v[i].0) && v[i].1 > 0 by {}
                        assert forall|m: int| 0 <= m < after.len() implies ((#[trigger] after[m]).outcome matches Outcome::Skipped(r)
                            ==> exists|i: int| 0 <= i < v.len() && v[i].0 == r@) by {
                            if m < k {
                                assert(after[m] == before[m]);
                            }
                        }
                    }
                },
            }
            // Each read routed to the document it names.
            let ghost base = reads_of(before);
            let ghost one = reads_one(insts[k as int]);
            proof {
                assert(one.take(0) =~= Seq::<(Instance, Seq<char>)>::empty());
                assert(base + one.take(0) =~= base);
            }
            let mut j: usize = 0;
            while j < inst.reads.len()
                invariant
                    j <= inst.reads@.len(),
                    *inst == insts[k as int],
                    one == reads_one(insts[k as int]),
                    rs == rows@,
                    reads_of(insts.take(k + 1)) == base + one,
                    reads_of(insts.take(k + 1)).len() <= reads_of(insts).len(),
                    reads_of(insts).len() <= usize::MAX,
                    documents@.len() == rs.len(),
                    forall|i: int| 0 <= i < rs.len() ==> {
                        &&& (#[trigger] documents@[i]).path@ == rs[i].path@
                        &&& documents@[i].class == rs[i].class
                        &&& documents@[i].created == created_of(rs, base + one.take(j as int), i)
                        &&& documents@[i].ran == ran_of(rs, base + one.take(j as int), i)
                        &&& documents@[i].skipped@.map_values(|s: (&'static str, String)| (s.0@, s.1@))
                            == skipped_of(rs, base + one.take(j as int), i)
                    },
                    unaccounted@.map_values(|s: String| s@) == unaccounted_of(rs, base + one.take(j as int)),
                decreases inst.reads@.len() - j,
            {
                let ghost done = base + one.take(j as int);
                let ghost e = (insts[k as int], inst.reads@[j as int].path@);
                proof {
                    assert(one[j as int] == e);
                    assert(base + one.take(j + 1) =~= done.push(e));
                    assert(done.push(e).drop_last() =~= done);
                    assert((base + one).len() >= done.len() + 1);
                }
                let path = &inst.reads[j].path;
                let pc = chars_of(path.as_str());
                let mut d: usize = 0;
                while d < documents.len() && !same(chars_of(documents[d].path.as_str()).as_slice(), pc.as_slice())
                    invariant
                        d <= documents@.len(),
                        documents@.len() == rs.len(),
                        pc@ == path@,
                        forall|i: int| 0 <= i < rs.len() ==> (#[trigger] documents@[i]).path@ == rs[i].path@,
                        forall|m: int| 0 <= m < d ==> (#[trigger] rs[m]).path@ != path@,
                    decreases documents@.len() - d,
                {
                    assert(documents@[d as int].path@ == rs[d as int].path@);
                    d = d + 1;
                }
                proof {
                    lemma_row_at(rs, path@, d as int);
                }
                if d == documents.len() {
                    let ghost old_un = unaccounted@.map_values(|s: String| s@);
                    unaccounted.push(path.clone());
                    assert(unaccounted@.map_values(|s: String| s@) =~= old_un.push(path@));
                } else if routes_exec(inst.grain) {
                    proof {
                        lemma_counts_bounded(rs, done, d as int);
                    }
                    let mut doc = documents.remove(d);
                    let ghost old_skipped = doc.skipped@.map_values(|s: (&'static str, String)| (s.0@, s.1@));
                    doc.created = doc.created + 1;
                    match &inst.outcome {
                        Outcome::Skipped(reason) => {
                            doc.skipped.push((inst.rule, owned(reason)));
                            assert(doc.skipped@.map_values(|s: (&'static str, String)| (s.0@, s.1@)) =~= old_skipped.push(
                                (inst.rule@, reason@),
                            ));
                        },
                        _ => {
                            doc.ran = doc.ran + 1;
                        },
                    }
                    documents.insert(d, doc);
                }
                proof {
                    assert forall|i: int| 0 <= i < rs.len() implies {
                        &&& (#[trigger] documents@[i]).path@ == rs[i].path@
                        &&& documents@[i].class == rs[i].class
                        &&& documents@[i].created == created_of(rs, done.push(e), i)
                        &&& documents@[i].ran == ran_of(rs, done.push(e), i)
                        &&& documents@[i].skipped@.map_values(|s: (&'static str, String)| (s.0@, s.1@))
                            == skipped_of(rs, done.push(e), i)
                    } by {
                        assert(done.push(e).last() == e);
                    }
                }
                j = j + 1;
            }
            proof {
                assert(one.take(j as int) =~= one);
            }
            k = k + 1;
        }
        proof {
            assert(insts.take(k as int) =~= insts);
        }
        Coverage { documents, instances: instances.len(), unaccounted, skips }
    }
}

} // verus!

verus! {

/// How many documents of a list are of a class, and, with `ran`, how many of
/// those reached a verdict.
pub open spec fn class_count(ds: Seq<Document>, class: Seq<char>, need_ran: bool) -> nat
    decreases ds.len(),
{
    if ds.len() == 0 {
        0
    } else {
        class_count(ds.drop_last(), class, need_ran) + if ds.last().class@ == class && (!need_ran
            || ds.last().ran > 0) {
            1nat
        } else {
            0nat
        }
    }
}

/// The instances that skipped, across every reason.
pub open spec fn skip_total(v: Seq<(Seq<char>, int)>) -> int
    decreases v.len(),
{
    if v.len() == 0 {
        0
    } else {
        skip_total(v.drop_last()) + v.last().1
    }
}

/// The message of a classified document no instance reached a verdict on.
pub open spec fn unchecked_message(created: usize) -> Seq<char> {
    if created == 0 {
        "this document is classified and no check instance was created for it"@
    } else {
        "this document is classified and all "@ + decimal(created as nat)
            + " of its check instances were skipped"@
    }
}

/// What to do about one.
pub open spec fn unchecked_remedy() -> Seq<char> {
    "check that the shelf pattern claims the right files, and that the kind declares something a check reads"@
}

/// Whether `f` is the finding coverage reports of document `d`.
pub open spec fn unchecked_finding(d: Document, f: Finding) -> bool {
    &&& f.rule == RULE
    &&& f.severity == Severity::Warn
    &&& f.obligation is None
    &&& f.path@ == d.path@
    &&& f.line == 0
    &&& f.column == 0
    &&& f.message@ == unchecked_message(d.created)
    &&& f.remediation@ == unchecked_remedy()
    &&& f.patch is None
}

/// The classified documents no instance reached a verdict on, in order.
pub open spec fn unchecked(ds: Seq<Document>) -> Seq<Document>
    decreases ds.len(),
{
    if ds.len() == 0 {
        Seq::<Document>::empty()
    } else if ds.last().class@ == "typed"@ && ds.last().ran == 0 {
        unchecked(ds.drop_last()).push(ds.last())
    } else {
        unchecked(ds.drop_last())
    }
}

/// The lines the report opens with.
pub open spec fn coverage_text(
    ds: Seq<Document>,
    instances: nat,
    skips: Seq<(Seq<char>, int)>,
    unaccounted: Seq<Seq<char>>,
) -> Seq<char> {
    let generated = class_count(ds, "generated"@, false);
    decimal(ds.len()) + " seen, "@ + decimal(class_count(ds, "typed"@, false)) + " classified, "@
        + decimal(class_count(ds, "typed"@, true)) + " checked, "@ + decimal(instances)
        + " check instances\n"@ + (if generated > 0 {
        "  "@ + right5(generated) + " generated, held to regeneration by `headwater generate --check`\n"@
    } else {
        Seq::<char>::empty()
    }) + skip_lines(skips) + unaccounted_lines(unaccounted)
}

pub open spec fn skip_lines(v: Seq<(Seq<char>, int)>) -> Seq<char>
    decreases v.len(),
{
    if v.len() == 0 {
        Seq::<char>::empty()
    } else {
        skip_lines(v.drop_last()) + "  "@ + right5(v.last().1 as nat) + " skipped: "@ + v.last().0 + "\n"@
    }
}

pub open spec fn unaccounted_lines(v: Seq<Seq<char>>) -> Seq<char>
    decreases v.len(),
{
    if v.len() == 0 {
        Seq::<char>::empty()
    } else {
        unaccounted_lines(v.drop_last()) + "  a check read "@ + v.last()
            + ", which the census never walked\n"@
    }
}

/// How many documents are of a class.
fn count_class(ds: &Vec<Document>, class: &str, need_ran: bool) -> (n: usize)
    ensures
        n == class_count(ds@, class@, need_ran),
{
    let mut n: usize = 0;
    let mut i: usize = 0;
    assert(ds@.take(0) =~= Seq::<Document>::empty());
    while i < ds.len()
        invariant
            i <= ds@.len(),
            n <= i,
            n == class_count(ds@.take(i as int), class@, need_ran),
        decreases ds@.len() - i,
    {
        assert(ds@.take(i + 1).drop_last() =~= ds@.take(i as int));
        let d = &ds[i];
        if str_eq(d.class, class) && (!need_ran || d.ran > 0) {
            n = n + 1;
        }
        i = i + 1;
    }
    assert(ds@.take(i as int) =~= ds@);
    n
}

impl Coverage {
    /// Documents the census walked.
    pub fn seen(&self) -> (n: usize)
        ensures
            n == self.documents_view().len(),
    {
        self.documents.len()
    }

    /// Documents the census classified.
    pub fn classified(&self) -> (n: usize)
        ensures
            n == class_count(self.documents_view(), "typed"@, false),
    {
        count_class(&self.documents, "typed", false)
    }

    /// Documents another program generates.
    pub fn generated(&self) -> (n: usize)
        ensures
            n == class_count(self.documents_view(), "generated"@, false),
    {
        count_class(&self.documents, "generated", false)
    }

    /// Classified documents some instance reached a verdict on.
    pub fn checked(&self) -> (n: usize)
        ensures
            n == class_count(self.documents_view(), "typed"@, true),
    {
        count_class(&self.documents, "typed", true)
    }

    /// The reasons instances skipped with, each with its count.
    pub fn skips(&self) -> (s: &[(String, usize)])
        ensures
            s@.map_values(|e: (String, usize)| (e.0@, e.1 as int)) == self.skips_view(),
    {
        self.skips.as_slice()
    }

    /// Instances that reached no verdict.
    pub fn skipped(&self) -> (n: usize)
        requires
            forall|k: int| 0 <= k <= self.skips_view().len() ==> skip_total(#[trigger] self.skips_view().take(k)) <= usize::MAX,
        ensures
            n == skip_total(self.skips_view()),
    {
        let ghost v = self.skips_view();
        let mut n: usize = 0;
        let mut i: usize = 0;
        assert(v.take(0) =~= Seq::<(Seq<char>, int)>::empty());
        while i < self.skips.len()
            invariant
                v == self.skips_view(),
                i <= v.len(),
                forall|k: int| 0 <= k <= v.len() ==> skip_total(#[trigger] v.take(k)) <= usize::MAX,
                n == skip_total(v.take(i as int)),
            decreases v.len() - i,
        {
            assert(v.take(i + 1).drop_last() =~= v.take(i as int));
            assert(skip_total(v.take(i + 1)) <= usize::MAX);
            n = n + self.skips[i].1;
            i = i + 1;
        }
        assert(v.take(i as int) =~= v);
        n
    }

    /// A finding for each classified document no instance reached a verdict
    /// on: a document with no instance at all, or one whose every instance
    /// skipped.
    pub fn findings(&self) -> (fs: Vec<Finding>)
        ensures
            fs@.len() == unchecked(self.documents_view()).len(),
            forall|i: int| 0 <= i < fs@.len() ==> unchecked_finding(unchecked(self.documents_view())[i], #[trigger] fs@[i]),
    {
        let ghost ds = self.documents_view();
        let mut out: Vec<Finding> = Vec::new();
        let mut i: usize = 0;
        assert(ds.take(0) =~= Seq::<Document>::empty());
        while i < self.documents.len()
            invariant
                ds == self.documents_view(),
                i <= ds.len(),
                out@.len() == unchecked(ds.take(i as int)).len(),
                forall|k: int| 0 <= k < out@.len() ==> unchecked_finding(unchecked(ds.take(i as int))[k], #[trigger] out@[k]),
            decreases ds.len() - i,
        {
            assert(ds.take(i + 1).drop_last() =~= ds.take(i as int));
            let d = &self.documents[i];
            assert(ds[i as int] == *d);
            if str_eq(d.class, "typed") && d.ran == 0 {
                let message = if d.created == 0 {
                    owned("this document is classified and no check instance was created for it")
                } else {
                    let mut m: Vec<char> = chars_of("this document is classified and all ");
                    extend_decimal(&mut m, d.created as u64);
                    extend_str(&mut m, " of its check instances were skipped");
                    string_of(m.as_slice())
                };
                out.push(Finding {
                    rule: RULE,
                    severity: Severity::Warn,
                    obligation: None,
                    path: d.path.clone(),
                    line: 0,
                    column: 0,
                    message,
                    remediation: owned(
                        "check that the shelf pattern claims the right files, and that the kind declares something a check reads",
                    ),
                    patch: None,
                });
            }
            i = i + 1;
        }
        assert(ds.take(i as int) =~= ds);
        out
    }

    /// The lines the report opens with: how much of the census was seen,
    /// classified and checked, what is generated, every reason an instance
    /// skipped with, and every read of a path the census never walked.
    pub fn render(&self) -> (s: String)
        ensures
            s@ == coverage_text(self.documents_view(), self.instances_view(), self.skips_view(), self.unaccounted_view()),
    {
        let mut out: Vec<char> = Vec::new();
        extend_decimal(&mut out, self.seen() as u64);
        extend_str(&mut out, " seen, ");
        extend_decimal(&mut out, self.classified() as u64);
        extend_str(&mut out, " classified, ");
        extend_decimal(&mut out, self.checked() as u64);
        extend_str(&mut out, " checked, ");
        extend_decimal(&mut out, self.instances as u64);
        extend_str(&mut out, " check instances\n");
        let generated = self.generated();
        if generated > 0 {
            extend_str(&mut out, "  ");
            extend_right5(&mut out, generated as u64);
            extend_str(&mut out, " generated, held to regeneration by `headwater generate --check`\n");
        }
        let ghost head = out@;
        let ghost v = self.skips_view();
        let mut i: usize = 0;
        assert(v.take(0) =~= Seq::<(Seq<char>, int)>::empty());
        while i < self.skips.len()
            invariant
                v == self.skips_view(),
                i <= v.len(),
                out@ == head + skip_lines(v.take(i as int)),
            decreases v.len() - i,
        {
            assert(v.take(i + 1).drop_last() =~= v.take(i as int));
            assert(v[i as int] == (self.skips@[i as int].0@, self.skips@[i as int].1 as int));
            extend_str(&mut out, "  ");
            extend_right5(&mut out, self.skips[i].1 as u64);
            extend_str(&mut out, " skipped: ");
            extend_str(&mut out, self.skips[i].0.as_str());
            extend_str(&mut out, "\n");
            i = i + 1;
        }
        assert(v.take(i as int) =~= v);
        let ghost mid = out@;
        let ghost u = self.unaccounted_view();
        let mut j: usize = 0;
        assert(u.take(0) =~= Seq::<Seq<char>>::empty());
        while j < self.unaccounted.len()
            invariant
                u == self.unaccounted_view(),
                j <= u.len(),
                out@ == mid + unaccounted_lines(u.take(j as int)),
            decreases u.len() - j,
        {
            assert(u.take(j + 1).drop_last() =~= u.take(j as int));
            extend_str(&mut out, "  a check read ");
            extend_str(&mut out, self.unaccounted[j].as_str());
            extend_str(&mut out, ", which the census never walked\n");
            j = j + 1;
        }
        assert(u.take(j as int) =~= u);
        string_of(out.as_slice())
    }
}

} // verus!

verus! {

/// How many instances of a list reached no verdict.
pub open spec fn skipped_instances(insts: Seq<Instance>) -> nat
    decreases insts.len(),
{
    if insts.len() == 0 {
        0
    } else {
        skipped_instances(insts.drop_last()) + if insts.last().outcome is Skipped {
            1nat
        } else {
            0nat
        }
    }
}

/// The skips a list of reasons accounts for.
pub open spec fn counted(insts: Seq<Instance>, v: Seq<(Seq<char>, int)>) -> int
    decreases v.len(),
{
    if v.len() == 0 {
        0
    } else {
        counted(insts, v.drop_last()) + skip_count(insts, v.last().0)
    }
}

/// How many entries of a list of reasons spell one reason.
pub open spec fn spelled(v: Seq<(Seq<char>, int)>, r: Seq<char>) -> nat
    decreases v.len(),
{
    if v.len() == 0 {
        0
    } else {
        spelled(v.drop_last(), r) + if v.last().0 == r {
            1nat
        } else {
            0nat
        }
    }
}

proof fn lemma_counted_step(insts: Seq<Instance>, v: Seq<(Seq<char>, int)>)
    requires
        insts.len() > 0,
    ensures
        counted(insts, v) == counted(insts.drop_last(), v) + match insts.last().outcome {
            Outcome::Skipped(r) => spelled(v, r@) as int,
            _ => 0int,
        },
    decreases v.len(),
{
    if v.len() > 0 {
        lemma_counted_step(insts, v.drop_last());
    }
}

proof fn lemma_spelled_once(v: Seq<(Seq<char>, int)>, r: Seq<char>)
    requires
        forall|i: int, j: int| 0 <= i < j < v.len() ==> (#[trigger] v[i]).0 != (#[trigger] v[j]).0,
        exists|i: int| 0 <= i < v.len() && (#[trigger] v[i]).0 == r,
    ensures
        spelled(v, r) == 1,
    decreases v.len(),
{
    let init = v.drop_last();
    assert forall|i: int, j: int| 0 <= i < j < init.len() implies (#[trigger] init[i]).0 != (#[trigger] init[j]).0 by {
        assert(init[i] == v[i] && init[j] == v[j]);
    }
    if v.last().0 == r {
        lemma_spelled_none(init, r);
    } else {
        let i = choose|i: int| 0 <= i < v.len() && (#[trigger] v[i]).0 == r;
        assert(init[i] == v[i]);
        lemma_spelled_once(init, r);
    }
}

proof fn lemma_spelled_none(v: Seq<(Seq<char>, int)>, r: Seq<char>)
    requires
        forall|i: int| 0 <= i < v.len() ==> (#[trigger] v[i]).0 != r,
    ensures
        spelled(v, r) == 0,
    decreases v.len(),
{
    if v.len() > 0 {
        let init = v.drop_last();
        assert forall|i: int| 0 <= i < init.len() implies (#[trigger] init[i]).0 != r by {
            assert(init[i] == v[i]);
        }
        lemma_spelled_none(init, r);
    }
}

proof fn lemma_counted_all(insts: Seq<Instance>, v: Seq<(Seq<char>, int)>)
    requires
        forall|i: int, j: int| 0 <= i < j < v.len() ==> (#[trigger] v[i]).0 != (#[trigger] v[j]).0,
        forall|k: int|
            0 <= k < insts.len() ==> ((#[trigger] insts[k]).outcome matches Outcome::Skipped(r) ==> exists|i: int|
                0 <= i < v.len() && v[i].0 == r@),
    ensures
        counted(insts, v) == skipped_instances(insts),
    decreases insts.len(),
{
    if insts.len() == 0 {
        lemma_counted_empty(insts, v);
    } else {
        let init = insts.drop_last();
        assert forall|k: int| 0 <= k < init.len() implies ((#[trigger] init[k]).outcome matches Outcome::Skipped(r)
            ==> exists|i: int| 0 <= i < v.len() && v[i].0 == r@) by {
            assert(init[k] == insts[k]);
        }
        lemma_counted_all(init, v);
        lemma_counted_step(insts, v);
        if let Outcome::Skipped(r) = insts.last().outcome {
            assert(insts[insts.len() - 1] == insts.last());
            let i = choose|i: int| 0 <= i < v.len() && v[i].0 == r@;
            assert(v[i].0 == r@);
            lemma_spelled_once(v, r@);
        }
    }
}

proof fn lemma_counted_empty(insts: Seq<Instance>, v: Seq<(Seq<char>, int)>)
    requires
        insts.len() == 0,
    ensures
        counted(insts, v) == 0,
    decreases v.len(),
{
    if v.len() > 0 {
        lemma_counted_empty(insts, v.drop_last());
    }
}

proof fn lemma_total_counted(insts: Seq<Instance>, v: Seq<(Seq<char>, int)>)
    requires
        forall|i: int| 0 <= i < v.len() ==> (#[trigger] v[i]).1 == skip_count(insts, v[i].0),
    ensures
        skip_total(v) == counted(insts, v),
    decreases v.len(),
{
    if v.len() > 0 {
        let init = v.drop_last();
        assert forall|i: int| 0 <= i < init.len() implies (#[trigger] init[i]).1 == skip_count(insts, init[i].0) by {
            assert(init[i] == v[i]);
        }
        lemma_total_counted(insts, init);
        assert(v[v.len() - 1] == v.last());
    }
}

/// The skips a coverage report lists, one line per reason, add up to the
/// number of instances that reached no verdict, whatever each one's grain:
/// an edge-scoped skip over two documents is one instance and counts once.
pub proof fn law_skips_count_instances(insts: Seq<Instance>, v: Seq<(Seq<char>, int)>)
    requires
        skips_in_order(insts, v),
    ensures
        skip_total(v) == skipped_instances(insts),
{
    assert forall|i: int, j: int| 0 <= i < j < v.len() implies (#[trigger] v[i]).0 != (#[trigger] v[j]).0 by {
        if v[i].0 == v[j].0 {
            assert(first_skip(insts, v[i].0).unwrap() < first_skip(insts, v[j].0).unwrap());
        }
    }
    lemma_total_counted(insts, v);
    lemma_counted_all(insts, v);
}

} // verus!
