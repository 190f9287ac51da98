//! The anchor a renderer derives from a heading, which a link's fragment
//! names.
use vstd::prelude::*;
use crate::text::{
    alphanumeric, chars_of, decimal, extend, extend_decimal, extend_str, is_alphanumeric, lowercase, lowered,
    owned, str_eq, string_of, trim, lemma_decimal_digits,
};
use crate::context::trimmed;
use crate::finding::{Finding, Severity};
use crate::instance::Outcome;
use crate::links::{reported_at, Binding, Link};

verus! {

/// Whether a character survives into an anchor: a letter, a digit, a space
/// or a hyphen.
pub open spec fn anchor_char(c: char) -> bool {
    alphanumeric(c) || c == ' ' || c == '-'
}

/// The characters of a lower-case heading that survive, each space written
/// as a hyphen.
pub open spec fn slugged(s: Seq<char>) -> Seq<char>
    decreases s.len(),
{
    if s.len() == 0 {
        Seq::<char>::empty()
    } else if !anchor_char(s.last()) {
        slugged(s.drop_last())
    } else if s.last() == ' ' {
        slugged(s.drop_last()).push('-')
    } else {
        slugged(s.drop_last()).push(s.last())
    }
}

/// The anchor of a heading: trimmed, in lower case, every character that is
/// not a letter, a digit, a space or a hyphen removed, and
/// each space a hyphen. An em dash therefore leaves the two spaces around it.
pub open spec fn slug_of(text: Seq<char>) -> Seq<char> {
    slugged(lowered(trim(text)))
}

/// The anchor a renderer derives from a heading.
pub fn slug(text: &str) -> (s: String)
    ensures
        s@ == slug_of(text@),
{
    let chars = chars_of(text);
    let t = trimmed(chars.as_slice());
    let t_text = string_of(t.as_slice());
    let lower = lowercase(t_text.as_str());
    let l = chars_of(lower.as_str());
    let mut out: Vec<char> = Vec::new();
    let mut i: usize = 0;
    while i < l.len()
        invariant
            i <= l@.len(),
            out@ == slugged(l@.take(i as int)),
        decreases l@.len() - i,
    {
        let c = l[i];
        assert(l@.take(i + 1).drop_last() =~= l@.take(i as int));
        if is_alphanumeric(c) || c == ' ' || c == '-' {
            if c == ' ' {
                out.push('-');
            } else {
                out.push(c);
            }
        }
        i = i + 1;
    }
    assert(l@.take(i as int) =~= l@);
    string_of(out.as_slice())
}

/// The anchor a heading takes on a try: the slug itself first, then the slug,
/// a hyphen and the count of the try.
pub open spec fn candidate(slug: Seq<char>, n: nat) -> Seq<char> {
    if n == 0 {
        slug
    } else {
        slug + seq!['-'] + decimal(n)
    }
}

/// Two tries of one slug never give one candidate.
pub proof fn lemma_candidate_injective(slug: Seq<char>, a: nat, b: nat)
    requires
        candidate(slug, a) == candidate(slug, b),
    ensures
        a == b,
{
    lemma_decimal_digits(a);
    lemma_decimal_digits(b);
    if a > 0 && b > 0 {
        assert(decimal(a) =~= candidate(slug, a).skip(slug.len() + 1int));
        assert(decimal(b) =~= candidate(slug, b).skip(slug.len() + 1int));
    } else if a > 0 || b > 0 {
        assert(candidate(slug, a).len() != candidate(slug, b).len());
    }
}

/// The candidates of a slug from one try up to another.
pub open spec fn candidates(slug: Seq<char>, lo: nat, hi: nat) -> Set<Seq<char>> {
    Set::new(|a: Seq<char>| exists|j: nat| lo <= j < hi && a == candidate(slug, j))
}

proof fn lemma_candidates(slug: Seq<char>, lo: nat, hi: nat)
    requires
        lo <= hi,
    ensures
        candidates(slug, lo, hi).finite(),
        candidates(slug, lo, hi).len() == hi - lo,
    decreases hi - lo,
{
    if lo == hi {
        assert(candidates(slug, lo, hi) =~= Set::<Seq<char>>::empty());
    } else {
        let top = (hi - 1) as nat;
        lemma_candidates(slug, lo, top);
        assert(candidates(slug, lo, hi) =~= candidates(slug, lo, top).insert(candidate(slug, top))) by {
            assert forall|a: Seq<char>| #[trigger] candidates(slug, lo, hi).contains(a) implies candidates(
                slug,
                lo,
                top,
            ).insert(candidate(slug, top)).contains(a) by {
                let j = choose|j: nat| lo <= j < hi && a == candidate(slug, j);
                if j < top {
                    assert(candidates(slug, lo, top).contains(a));
                }
            }
        }
        if candidates(slug, lo, top).contains(candidate(slug, top)) {
            let j = choose|j: nat| lo <= j < top && candidate(slug, top) == candidate(slug, j);
            lemma_candidate_injective(slug, top, j);
        }
    }
}

/// A slug whose first `n` tries are all taken has at most as many tries as
/// there are anchors issued.
pub proof fn lemma_taken_bound(slug: Seq<char>, n: nat, issued: Seq<Seq<char>>)
    requires
        forall|j: nat| j < n ==> issued.contains(#[trigger] candidate(slug, j)),
    ensures
        n <= issued.len(),
{
    lemma_candidates(slug, 0, n);
    assert(candidates(slug, 0, n).subset_of(issued.to_set())) by {
        assert forall|a: Seq<char>| #[trigger] candidates(slug, 0, n).contains(a) implies issued.to_set().contains(a) by {
            let j = choose|j: nat| 0 <= j < n && a == candidate(slug, j);
            assert(issued.contains(candidate(slug, j)));
        }
    }
    vstd::set_lib::lemma_len_subset(candidates(slug, 0, n), issued.to_set());
    issued.lemma_cardinality_of_set();
}

/// Whether `k` is the first try from `n0` on whose candidate is not issued.
pub open spec fn first_free(slug: Seq<char>, n0: nat, issued: Seq<Seq<char>>, k: nat) -> bool {
    &&& n0 <= k
    &&& !issued.contains(candidate(slug, k))
    &&& forall|j: nat| n0 <= j < k ==> issued.contains(#[trigger] candidate(slug, j))
}

/// The first try from `n0` on whose candidate is not issued.
pub open spec fn free_from(slug: Seq<char>, n0: nat, issued: Seq<Seq<char>>) -> nat {
    choose|k: nat| first_free(slug, n0, issued, k)
}

/// There is one first free try, and only one.
pub proof fn lemma_free_from(slug: Seq<char>, n0: nat, issued: Seq<Seq<char>>, k: nat)
    ensures
        first_free(slug, n0, issued, free_from(slug, n0, issued)),
        first_free(slug, n0, issued, k) ==> k == free_from(slug, n0, issued),
{
    lemma_some_free(slug, n0, n0, issued);
    let f = free_from(slug, n0, issued);
    if first_free(slug, n0, issued, k) && k != f {
        if k < f {
            assert(issued.contains(candidate(slug, k)));
        } else {
            assert(issued.contains(candidate(slug, f)));
        }
    }
}

proof fn lemma_some_free(slug: Seq<char>, n0: nat, m: nat, issued: Seq<Seq<char>>)
    requires
        n0 <= m,
        forall|j: nat| n0 <= j < m ==> issued.contains(#[trigger] candidate(slug, j)),
    ensures
        exists|k: nat| first_free(slug, n0, issued, k),
    decreases n0 + issued.len() + 1 - m,
{
    if !issued.contains(candidate(slug, m)) {
        assert(first_free(slug, n0, issued, m));
    } else {
        assert forall|j: nat| n0 <= j < m + 1 implies issued.contains(#[trigger] candidate(slug, j)) by {}
        lemma_candidates(slug, n0, m + 1);
        assert(candidates(slug, n0, m + 1).subset_of(issued.to_set())) by {
            assert forall|a: Seq<char>| #[trigger] candidates(slug, n0, m + 1).contains(a) implies issued.to_set().contains(
                a,
            ) by {
                let j = choose|j: nat| n0 <= j < m + 1 && a == candidate(slug, j);
                assert(issued.contains(candidate(slug, j)));
            }
        }
        vstd::set_lib::lemma_len_subset(candidates(slug, n0, m + 1), issued.to_set());
        issued.lemma_cardinality_of_set();
        lemma_some_free(slug, n0, m + 1, issued);
    }
}

/// The anchors issued for headings in order, and for each slug the try its
/// next repeat starts from.
pub open spec fn issue(headings: Seq<Seq<char>>) -> (Seq<Seq<char>>, Map<Seq<char>, nat>)
    decreases headings.len(),
{
    if headings.len() == 0 {
        (Seq::empty(), Map::empty())
    } else {
        let (issued, repeats) = issue(headings.drop_last());
        let s = slug_of(headings.last());
        let n0 = if repeats.contains_key(s) {
            repeats[s]
        } else {
            0
        };
        let k = free_from(s, n0, issued);
        (issued.push(candidate(s, k)), repeats.insert(s, k + 1))
    }
}

/// Every anchor a renderer gives a document, in heading order: a repeated
/// heading takes a numeric suffix, first occurrence bare, counted per exact
/// slug, and a candidate an earlier heading already took is stepped past.
pub open spec fn anchors_of(headings: Seq<Seq<char>>) -> Seq<Seq<char>> {
    issue(headings).0
}

/// The characters of each text of a list.
pub open spec fn texts(v: Seq<String>) -> Seq<Seq<char>> {
    v.map_values(|a: String| a@)
}

/// Two headings that differ never receive one anchor, and neither do two that
/// agree: an anchor is issued once.
pub proof fn law_an_anchor_is_issued_once(headings: Seq<Seq<char>>)
    ensures
        anchors_of(headings).len() == headings.len(),
        forall|a: int, b: int|
            0 <= a < b < headings.len() ==> #[trigger] anchors_of(headings)[a] != #[trigger] anchors_of(headings)[b],
    decreases headings.len(),
{
    if headings.len() > 0 {
        let init = headings.drop_last();
        law_an_anchor_is_issued_once(init);
        let (issued, repeats) = issue(init);
        let s = slug_of(headings.last());
        let n0 = if repeats.contains_key(s) {
            repeats[s]
        } else {
            0
        };
        lemma_free_from(s, n0, issued, 0);
        let k = free_from(s, n0, issued);
        let all = anchors_of(headings);
        assert(all == issued.push(candidate(s, k)));
        assert forall|a: int, b: int| 0 <= a < b < headings.len() implies #[trigger] all[a] != #[trigger] all[b] by {
            if b == headings.len() - 1 {
                assert(all[a] == issued[a]);
                assert(issued.contains(issued[a]));
            } else {
                assert(all[a] == issued[a] && all[b] == issued[b]);
            }
        }
    }
}

/// Whether an anchor is already issued.
fn is_issued(out: &Vec<String>, candidate: &str) -> (r: bool)
    ensures
        r == texts(out@).contains(candidate@),
{
    let mut i: usize = 0;
    while i < out.len()
        invariant
            i <= out@.len(),
            forall|k: int| 0 <= k < i ==> (#[trigger] out@[k])@ != candidate@,
        decreases out@.len() - i,
    {
        if str_eq(out[i].as_str(), candidate) {
            assert(texts(out@)[i as int] == candidate@);
            return true;
        }
        i = i + 1;
    }
    proof {
        if texts(out@).contains(candidate@) {
            let k = choose|k: int| 0 <= k < texts(out@).len() && texts(out@)[k] == candidate@;
            assert(out@[k]@ == candidate@);
        }
    }
    false
}

/// The candidate a slug gives on one try.
fn candidate_of(slug: &Vec<char>, n: usize) -> (c: String)
    ensures
        c@ == candidate(slug@, n as nat),
{
    let mut out: Vec<char> = Vec::new();
    extend(&mut out, slug.as_slice());
    if n > 0 {
        out.push('-');
        extend_decimal(&mut out, n as u64);
    }
    string_of(out.as_slice())
}

/// Every anchor a renderer gives a document whose headings read these texts,
/// in heading order.
pub fn anchors(headings: &[String]) -> (out: Vec<String>)
    ensures
        texts(out@) == anchors_of(texts(headings@)),
{
    let mut out: Vec<String> = Vec::new();
    let mut repeats: Vec<(String, usize)> = Vec::new();
    let ghost mut reps: Map<Seq<char>, nat> = Map::empty();
    let mut i: usize = 0;
    assert(texts(headings@).take(0) =~= Seq::<Seq<char>>::empty());
    assert(texts(out@) =~= Seq::<Seq<char>>::empty());
    while i < headings.len()
        invariant
            i <= headings@.len(),
            out@.len() == i,
            (texts(out@), reps) == issue(texts(headings@).take(i as int)),
            forall|a: int, b: int| 0 <= a < b < repeats@.len() ==> (#[trigger] repeats@[a]).0@ != (#[trigger] repeats@[b]).0@,
            forall|k: int|
                0 <= k < repeats@.len() ==> reps.contains_key((#[trigger] repeats@[k]).0@) && reps[repeats@[k].0@]
                    == repeats@[k].1,
            forall|t: Seq<char>| #[trigger] reps.contains_key(t) ==> exists|k: int| 0 <= k < repeats@.len() && repeats@[k].0@ == t,
            forall|t: Seq<char>, j: nat|
                reps.contains_key(t) && j < reps[t] ==> texts(out@).contains(#[trigger] candidate(t, j)),
        decreases headings@.len() - i,
    {
        let ghost hs = texts(headings@).take(i + 1);
        assert(hs.drop_last() =~= texts(headings@).take(i as int));
        assert(hs.last() == headings@[i as int]@);
        let ghost issued = texts(out@);
        let sl = slug(headings[i].as_str());
        let sc = chars_of(sl.as_str());
        let mut at: usize = 0;
        let mut found = false;
        while at < repeats.len() && !found
            invariant
                at <= repeats@.len(),
                sc@ == sl@,
                found ==> at < repeats@.len() && repeats@[at as int].0@ == sc@,
                !found ==> forall|k: int| 0 <= k < at ==> (#[trigger] repeats@[k]).0@ != sc@,
            decreases repeats@.len() - at + (if found { 0int } else { 1int }),
        {
            if str_eq(repeats[at].0.as_str(), sl.as_str()) {
                found = true;
            } else {
                at = at + 1;
            }
        }
        let n0: usize = if found {
            repeats[at].1
        } else {
            0
        };
        proof {
            if !found && reps.contains_key(sc@) {
                let k = choose|k: int| 0 <= k < repeats@.len() && repeats@[k].0@ == sc@;
                assert(repeats@[k].0@ != sc@);
            }
            assert(n0 == (if reps.contains_key(sc@) { reps[sc@] } else { 0 }));
            assert forall|j: nat| j < n0 implies issued.contains(#[trigger] candidate(sc@, j)) by {}
            lemma_taken_bound(sc@, n0 as nat, issued);
        }
        let mut n: usize = n0;
        let mut cand = candidate_of(&sc, n);
        while is_issued(&out, cand.as_str())
            invariant
                issued == texts(out@),
                issued.len() == out@.len(),
                out@.len() == i,
                cand@ == candidate(sc@, n as nat),
                n0 <= n <= out@.len(),
                forall|j: nat| j < n ==> issued.contains(#[trigger] candidate(sc@, j)),
            decreases out@.len() - n,
        {
            proof {
                assert forall|j: nat| j < n + 1 implies issued.contains(#[trigger] candidate(sc@, j)) by {}
                lemma_taken_bound(sc@, (n + 1) as nat, issued);
            }
            n = n + 1;
            cand = candidate_of(&sc, n);
        }
        proof {
            assert(first_free(sc@, n0 as nat, issued, n as nat));
            lemma_free_from(sc@, n0 as nat, issued, n as nat);
        }
        let ghost old_repeats = repeats@;
        if found {
            repeats.set(at, (sl, n + 1));
        } else {
            repeats.push((sl, n + 1));
        }
        proof {
            let old_reps = reps;
            reps = reps.insert(sc@, (n + 1) as nat);
            assert forall|a: int, b: int| 0 <= a < b < repeats@.len() implies (#[trigger] repeats@[a]).0@
                != (#[trigger] repeats@[b]).0@ by {
                if found {
                    if a != at && b != at {
                        assert(repeats@[a] == old_repeats[a] && repeats@[b] == old_repeats[b]);
                    } else if a == at {
                        assert(repeats@[b] == old_repeats[b]);
                        assert(old_repeats[at as int].0@ == sc@);
                    } else {
                        assert(repeats@[a] == old_repeats[a]);
                        assert(old_repeats[at as int].0@ == sc@);
                    }
                } else {
                    if b < old_repeats.len() {
                        assert(repeats@[a] == old_repeats[a] && repeats@[b] == old_repeats[b]);
                    } else {
                        assert(repeats@[a] == old_repeats[a]);
                    }
                }
            }
            assert forall|k: int| 0 <= k < repeats@.len() implies reps.contains_key((#[trigger] repeats@[k]).0@)
                && reps[repeats@[k].0@] == repeats@[k].1 by {
                if (found && k != at) || (!found && k < old_repeats.len()) {
                    assert(repeats@[k] == old_repeats[k]);
                    if found {
                        assert(old_repeats[k].0@ != old_repeats[at as int].0@);
                    } else {
                        assert(old_repeats[k].0@ != sc@);
                    }
                }
            }
            assert forall|t: Seq<char>| #[trigger] reps.contains_key(t) implies exists|k: int|
                0 <= k < repeats@.len() && repeats@[k].0@ == t by {
                if t == sc@ {
                    if found {
                        assert(repeats@[at as int].0@ == t);
                    } else {
                        assert(repeats@[old_repeats.len() as int].0@ == t);
                    }
                } else {
                    assert(old_reps.contains_key(t));
                    let k = choose|k: int| 0 <= k < old_repeats.len() && old_repeats[k].0@ == t;
                    if found {
                        assert(k != at);
                    }
                    assert(repeats@[k] == old_repeats[k]);
                }
            }
        }
        let ghost cand_view = cand@;
        out.push(cand);
        proof {
            assert(texts(out@) =~= issued.push(cand_view));
            assert forall|t: Seq<char>, j: nat| reps.contains_key(t) && j < reps[t] implies texts(out@).contains(
                #[trigger] candidate(t, j),
            ) by {
                if t == sc@ {
                    if j < n {
                        assert(issued.contains(candidate(sc@, j)));
                        let q = choose|q: int| 0 <= q < issued.len() && issued[q] == candidate(sc@, j);
                        assert(texts(out@)[q] == issued[q]);
                    } else {
                        assert(texts(out@)[issued.len() as int] == cand_view);
                    }
                } else {
                    let q = choose|q: int| 0 <= q < issued.len() && issued[q] == candidate(t, j);
                    assert(texts(out@)[q] == issued[q]);
                }
            }
        }
        i = i + 1;
    }
    assert(texts(headings@).take(i as int) =~= texts(headings@));
    out
}

/// The rule that reports a fragment naming no heading of its target.
pub const RULE: &'static str = "link.fragment.unresolved";

/// A run whose scope did not admit the links has nothing to read.
pub const NO_LINKS: &'static str = "the view carries no bound prose links for this corpus";

/// A run that reached no document body cannot derive an anchor, so it has no
/// second half to compare a fragment against.
pub const NO_ANCHORS: &'static str = "the view carries no document headings for this corpus";

/// The anchors of the first document a list holds at a path.
pub open spec fn anchors_at(v: Seq<(String, Vec<String>)>, path: Seq<char>) -> Option<Seq<Seq<char>>>
    decreases v.len(),
{
    if v.len() == 0 {
        None
    } else if v[0].0@ == path {
        Some(texts(v[0].1@))
    } else {
        anchors_at(v.skip(1), path)
    }
}

/// Whether a fragment names a heading of a path: nothing where the index holds
/// no heading list for it, and otherwise whether its lower-case form is one
/// of the anchors.
pub open spec fn resolution(v: Seq<(String, Vec<String>)>, path: Seq<char>, fragment: Seq<char>) -> Option<bool> {
    match anchors_at(v, path) {
        None => None,
        Some(a) => Some(a.contains(lowered(fragment))),
    }
}

/// Every anchor of every document of a corpus, by path.
pub struct Anchors {
    by_path: Vec<(String, Vec<String>)>,
}

/// The index a list of census rows gives: each row that carries a document,
/// with the anchors of its headings, in row order.
pub open spec fn index_of(rows: Seq<(String, Option<Vec<String>>)>) -> Seq<(Seq<char>, Seq<Seq<char>>)>
    decreases rows.len(),
{
    if rows.len() == 0 {
        Seq::empty()
    } else {
        let rest = index_of(rows.drop_last());
        match rows.last().1 {
            Some(h) => rest.push((rows.last().0@, anchors_of(texts(h@)))),
            None => rest,
        }
    }
}

/// The paths and anchors of an index.
pub open spec fn index_view(v: Seq<(String, Vec<String>)>) -> Seq<(Seq<char>, Seq<Seq<char>>)> {
    v.map_values(|e: (String, Vec<String>)| (e.0@, texts(e.1@)))
}

impl Anchors {
    pub closed spec fn view(&self) -> Seq<(String, Vec<String>)> {
        self.by_path@
    }

    /// Derived from the rows of a census: a path, and the heading texts of
    /// the document the row carries. A row that carries none contributes
    /// nothing, so a link into that path has no answer here rather than a
    /// false one.
    pub fn of(rows: &[(String, Option<Vec<String>>)]) -> (a: Self)
        ensures
            index_view(a.view()) == index_of(rows@),
    {
        let mut by_path: Vec<(String, Vec<String>)> = Vec::new();
        let mut i: usize = 0;
        while i < rows.len()
            invariant
                i <= rows@.len(),
                index_view(by_path@) == index_of(rows@.take(i as int)),
            decreases rows@.len() - i,
        {
            assert(rows@.take(i + 1).drop_last() =~= rows@.take(i as int));
            assert(rows@.take(i + 1).last() == rows@[i as int]);
            if let Some(headings) = &rows[i].1 {
                let a = anchors(headings.as_slice());
                let ghost before = by_path@;
                by_path.push((rows[i].0.clone(), a));
                assert(index_view(by_path@) =~= index_view(before).push((rows@[i as int].0@, texts(a@))));
            }
            i = i + 1;
        }
        assert(rows@.take(i as int) =~= rows@);
        Anchors { by_path }
    }

    /// An index built from a list of paths and their anchors, as stated.
    pub fn of_pairs(pairs: &[(&str, &[&str])]) -> (a: Self)
        ensures
            a.view().len() == pairs@.len(),
            forall|k: int|
                0 <= k < pairs@.len() ==> (#[trigger] a.view()[k]).0@ == pairs@[k].0@ && a.view()[k].1@.len()
                    == pairs@[k].1@.len() && forall|j: int|
                    0 <= j < pairs@[k].1@.len() ==> (#[trigger] a.view()[k].1@[j])@ == pairs@[k].1@[j]@,
    {
        let mut by_path: Vec<(String, Vec<String>)> = Vec::new();
        let mut i: usize = 0;
        while i < pairs.len()
            invariant
                i <= pairs@.len(),
                by_path@.len() == i,
                forall|k: int|
                    0 <= k < i ==> (#[trigger] by_path@[k]).0@ == pairs@[k].0@ && by_path@[k].1@.len()
                        == pairs@[k].1@.len() && forall|j: int|
                        0 <= j < pairs@[k].1@.len() ==> (#[trigger] by_path@[k].1@[j])@ == pairs@[k].1@[j]@,
            decreases pairs@.len() - i,
        {
            let (path, list) = pairs[i];
            let mut held: Vec<String> = Vec::new();
            let mut j: usize = 0;
            while j < list.len()
                invariant
                    j <= list@.len(),
                    held@.len() == j,
                    forall|t: int| 0 <= t < j ==> (#[trigger] held@[t])@ == list@[t]@,
                decreases list@.len() - j,
            {
                held.push(owned(list[j]));
                j = j + 1;
            }
            by_path.push((owned(path), held));
            i = i + 1;
        }
        Anchors { by_path }
    }

    /// Whether `fragment` names a heading of `path`, compared in lower case,
    /// which is what a renderer does. Nothing where this index holds no
    /// heading list for `path` at all: that is the absence of a verdict
    /// rather than a passing one.
    pub fn resolves(&self, path: &str, fragment: &str) -> (r: Option<bool>)
        ensures
            r == resolution(self.view(), path@, fragment@),
    {
        let mut i: usize = 0;
        assert(self.by_path@.skip(0) =~= self.by_path@);
        while i < self.by_path.len()
            invariant
                i <= self.by_path@.len(),
                anchors_at(self.by_path@, path@) == anchors_at(self.by_path@.skip(i as int), path@),
            decreases self.by_path@.len() - i,
        {
            assert(self.by_path@.skip(i as int)[0] == self.by_path@[i as int]);
            assert(self.by_path@.skip(i as int).skip(1) =~= self.by_path@.skip(i + 1));
            if str_eq(self.by_path[i].0.as_str(), path) {
                let wanted = lowercase(fragment);
                let held = &self.by_path[i].1;
                assert(anchors_at(self.by_path@, path@) == Some(texts(held@)));
                let mut j: usize = 0;
                while j < held.len()
                    invariant
                        j <= held@.len(),
                        anchors_at(self.by_path@, path@) == Some(texts(held@)),
                        wanted@ == lowered(fragment@),
                        forall|t: int| 0 <= t < j ==> (#[trigger] held@[t])@ != wanted@,
                    decreases held@.len() - j,
                {
                    if str_eq(held[j].as_str(), wanted.as_str()) {
                        assert(texts(held@)[j as int] == wanted@);
                        return Some(true);
                    }
                    j = j + 1;
                }
                proof {
                    if texts(held@).contains(wanted@) {
                        let q = choose|q: int| 0 <= q < texts(held@).len() && texts(held@)[q] == wanted@;
                        assert(held@[q]@ == wanted@);
                    }
                }
                return Some(false);
            }
            i = i + 1;
        }
        None
    }
}

/// The message and the remedy of a fragment that names no heading of the
/// document it points at, and nothing for every other link: one with no
/// fragment or an empty one, one bound to anything but this document or a
/// corpus document, one into a path with no heading list, and one that
/// resolves.
pub open spec fn fragment_report(link: Link, index: Seq<(String, Vec<String>)>) -> Option<(Seq<char>, Seq<char>)> {
    match link.fragment {
        None => None,
        Some(fragment) => if fragment@.len() == 0 {
            None
        } else {
            let target: Option<Seq<char>> = match link.binding {
                Binding::SameDocument => Some(link.source_path@),
                Binding::Corpus { path } => Some(path@),
                _ => None,
            };
            match target {
                None => None,
                Some(t) => match resolution(index, t, fragment@) {
                    None => None,
                    Some(true) => None,
                    Some(false) => Some(
                        if link.binding is SameDocument {
                            (
                                "`"@ + link.destination@ + "` names no heading of this document"@,
                                "point it at a heading of "@ + t + ", or write the heading it names"@,
                            )
                        } else {
                            (
                                "`"@ + link.destination@ + "` names no heading of `"@ + t + "`"@,
                                "point it at a heading that `"@ + t + "` has, or write the heading it names there"@,
                            )
                        },
                    ),
                },
            }
        },
    }
}

/// The unresolved fragments of a list of links, each with its report, in
/// order.
pub open spec fn fragment_reports(links: Seq<Link>, index: Seq<(String, Vec<String>)>) -> Seq<
    (Link, (Seq<char>, Seq<char>)),
>
    decreases links.len(),
{
    if links.len() == 0 {
        Seq::empty()
    } else {
        let rest = fragment_reports(links.drop_last(), index);
        match fragment_report(links.last(), index) {
            Some(r) => rest.push((links.last(), r)),
            None => rest,
        }
    }
}

/// One finding per fragment that names no heading of the document it points
/// at, written at the citing document and line, and nothing for every other
/// link. The heading an author meant is a guess, so no patch rides with it.
pub fn finding(link: &Link, anchors: &Anchors) -> (r: Option<Finding>)
    ensures
        match fragment_report(*link, anchors.view()) {
            None => r is None,
            Some((m, rem)) => r matches Some(f) && reported_at(f, RULE, *link, m, rem),
        },
{
    let fragment = match &link.fragment {
        Some(f) => f,
        None => return None,
    };
    if chars_of(fragment.as_str()).len() == 0 {
        return None;
    }
    let target: &str = match &link.binding {
        Binding::SameDocument => link.source_path.as_str(),
        Binding::Corpus { path } => path.as_str(),
        _ => return None,
    };
    match anchors.resolves(target, fragment.as_str()) {
        None => return None,
        Some(true) => return None,
        Some(false) => {},
    }
    let mut m: Vec<char> = chars_of("`");
    extend_str(&mut m, link.destination.as_str());
    let mut r: Vec<char> = Vec::new();
    match &link.binding {
        Binding::SameDocument => {
            extend_str(&mut m, "` names no heading of this document");
            extend_str(&mut r, "point it at a heading of ");
            extend_str(&mut r, target);
            extend_str(&mut r, ", or write the heading it names");
        },
        _ => {
            extend_str(&mut m, "` names no heading of `");
            extend_str(&mut m, target);
            extend_str(&mut m, "`");
            extend_str(&mut r, "point it at a heading that `");
            extend_str(&mut r, target);
            extend_str(&mut r, "` has, or write the heading it names there");
        },
    }
    Some(
        Finding {
            rule: RULE,
            severity: Severity::Error,
            obligation: None,
            path: link.source_path.clone(),
            line: link.line,
            column: link.column,
            message: string_of(m.as_slice()),
            remediation: string_of(r.as_slice()),
            patch: None,
        },
    )
}

/// The rule over the prose links and the headings of a corpus.
pub struct Fragments;

impl Fragments {
    /// One finding per unresolved fragment of the corpus, in the order of the
    /// links. A run that admitted no links, or reached the links and no
    /// headings, skips with the reason for the half it lacks.
    pub fn evaluate(&self, links: Option<&[Link]>, anchors: Option<&Anchors>) -> (o: Outcome)
        ensures
            links is None ==> o == Outcome::Skipped(NO_LINKS),
            links is Some && anchors is None ==> o == Outcome::Skipped(NO_ANCHORS),
            match (links, anchors) {
                (Some(l), Some(a)) => {
                    let w = fragment_reports(l@, a.view());
                    &&& w.len() == 0 ==> o is Passed
                    &&& w.len() > 0 ==> (o matches Outcome::Failed(v) && v@.len() == w.len() && forall|k: int|
                        0 <= k < w.len() ==> reported_at(#[trigger] v@[k], RULE, w[k].0, w[k].1.0, w[k].1.1))
                },
                _ => true,
            },
    {
        let links = match links {
            Some(l) => l,
            None => return Outcome::Skipped(NO_LINKS),
        };
        let anchors = match anchors {
            Some(a) => a,
            None => return Outcome::Skipped(NO_ANCHORS),
        };
        let mut findings: Vec<Finding> = Vec::new();
        let mut i: usize = 0;
        while i < links.len()
            invariant
                i <= links@.len(),
                findings@.len() == fragment_reports(links@.take(i as int), anchors.view()).len(),
                forall|k: int|
                    0 <= k < findings@.len() ==> reported_at(
                        #[trigger] findings@[k],
                        RULE,
                        fragment_reports(links@.take(i as int), anchors.view())[k].0,
                        fragment_reports(links@.take(i as int), anchors.view())[k].1.0,
                        fragment_reports(links@.take(i as int), anchors.view())[k].1.1,
                    ),
            decreases links@.len() - i,
        {
            let ghost before = fragment_reports(links@.take(i as int), anchors.view());
            assert(links@.take(i + 1).drop_last() =~= links@.take(i as int));
            assert(links@.take(i + 1).last() == links@[i as int]);
            match finding(&links[i], anchors) {
                Some(f) => findings.push(f),
                None => {},
            }
            proof {
                let after = fragment_reports(links@.take(i + 1), anchors.view());
                assert forall|k: int| 0 <= k < findings@.len() implies reported_at(
                    #[trigger] findings@[k],
                    RULE,
                    after[k].0,
                    after[k].1.0,
                    after[k].1.1,
                ) by {
                    if k < before.len() {
                        assert(after[k] == before[k]);
                    }
                }
            }
            i = i + 1;
        }
        assert(links@.take(i as int) =~= links@);
        Outcome::failed(findings)
    }
}

} // verus!
