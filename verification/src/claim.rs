//! The identifier claim store.
//!
//! One file per identifier, at `.headwater/ids/<scheme>/<identifier>`,
//! holding the path of the document that minted it. It is written once and
//! never modified. The store does not detect a collision; it forces two
//! branches that claim one value to meet, because they add one path with
//! different bytes. The claimant path inside the file is what makes the two
//! sides differ, so a claim file is never empty.
use vstd::prelude::*;
use crate::finding::{Finding, Severity};
use crate::index::{Defect, Reported};
use crate::instance::Outcome;
use crate::patch::Patch;
use crate::text::{
    chars_of, decimal, extend_decimal, extend_str, lex_less, lex_lt, same, str_eq, string_of, lemma_lex_irreflexive, lemma_lex_transitive,
};

verus! {

/// The store, relative to the repository root.
pub const STORE: &'static str = ".headwater/ids";

/// One claim: the scheme it was minted under, the identifier, and the
/// document that minted it.
#[derive(Clone, Debug, PartialEq, Eq)]
pub struct Claim {
    pub scheme: String,
    pub id: String,
    /// One path relative to the repository root, and empty where the file
    /// holds no line at all.
    pub claimant: String,
}

/// Every claim the store holds, in `(scheme, identifier)` order, so anything
/// made of it is a function of the store's content and never of the order a
/// directory was walked in.
#[derive(Clone, Debug)]
pub struct Claims {
    entries: Vec<Claim>,
}

/// Whether `a` sorts strictly before `b` by scheme, then identifier.
pub open spec fn claim_lt(a: Claim, b: Claim) -> bool {
    lex_lt(a.scheme@, b.scheme@) || (a.scheme@ == b.scheme@ && lex_lt(a.id@, b.id@))
}

/// Claims in `(scheme, identifier)` order.
pub open spec fn claims_in_order(v: Seq<Claim>) -> bool {
    forall|i: int, j: int| 0 <= i < j < v.len() ==> !claim_lt(#[trigger] v[j], #[trigger] v[i])
}

/// The order is strict and transitive.
pub proof fn lemma_claim_order(a: Claim, b: Claim, c: Claim)
    ensures
        !claim_lt(a, a),
        claim_lt(a, b) && claim_lt(b, c) ==> claim_lt(a, c),
{
    lemma_lex_irreflexive(a.scheme@);
    lemma_lex_irreflexive(a.id@);
    if claim_lt(a, b) && claim_lt(b, c) {
        if lex_lt(a.scheme@, b.scheme@) && lex_lt(b.scheme@, c.scheme@) {
            lemma_lex_transitive(a.scheme@, b.scheme@, c.scheme@);
        }
        if lex_lt(a.id@, b.id@) && lex_lt(b.id@, c.id@) {
            lemma_lex_transitive(a.id@, b.id@, c.id@);
        }
    }
}

fn claim_less(a: &Claim, b: &Claim) -> (r: bool)
    ensures
        r == claim_lt(*a, *b),
{
    let x = chars_of(a.scheme.as_str());
    let y = chars_of(b.scheme.as_str());
    if lex_less(x.as_slice(), y.as_slice()) {
        return true;
    }
    if !same(x.as_slice(), y.as_slice()) {
        return false;
    }
    let p = chars_of(a.id.as_str());
    let q = chars_of(b.id.as_str());
    lex_less(p.as_slice(), q.as_slice())
}

/// The number of bytes UTF-8 spends on one character.
pub open spec fn utf8_width(c: char) -> nat {
    if (c as u32) < 0x80 {
        1
    } else if (c as u32) < 0x800 {
        2
    } else if (c as u32) < 0x10000 {
        3
    } else {
        4
    }
}

/// The number of bytes UTF-8 spends on a text, which is `str::len`.
pub open spec fn utf8_len(s: Seq<char>) -> nat
    decreases s.len(),
{
    if s.len() == 0 {
        0
    } else {
        utf8_len(s.drop_last()) + utf8_width(s.last())
    }
}

/// `str::len`: the length of a text in bytes.
pub fn byte_len(text: &str) -> (n: usize)
    requires
        4 * text@.len() <= usize::MAX,
    ensures
        n == utf8_len(text@),
{
    let chars = chars_of(text);
    let mut n: usize = 0;
    let mut i: usize = 0;
    while i < chars.len()
        invariant
            chars@ == text@,
            4 * text@.len() <= usize::MAX,
            i <= chars@.len(),
            n == utf8_len(chars@.take(i as int)),
            n <= 4 * i,
        decreases chars@.len() - i,
    {
        assert(chars@.take(i + 1).drop_last() =~= chars@.take(i as int));
        let c = chars[i];
        let w: usize = if (c as u32) < 0x80 {
            1
        } else if (c as u32) < 0x800 {
            2
        } else if (c as u32) < 0x10000 {
            3
        } else {
            4
        };
        n = n + w;
        i = i + 1;
    }
    assert(chars@.take(i as int) =~= chars@);
    n
}

/// One claim as the store's rendering writes it: `scheme/id`, the byte length
/// of the claimant, and the claimant, so no claimant can write the separator
/// of the next entry.
pub open spec fn claim_line(c: Claim) -> Seq<char> {
    c.scheme@ + "/"@ + c.id@ + " "@ + decimal(utf8_len(c.claimant@)) + " "@ + c.claimant@ + "\n"@
}

/// Every claim's line, in order.
pub open spec fn claims_text(v: Seq<Claim>) -> Seq<char>
    decreases v.len(),
{
    if v.len() == 0 {
        Seq::<char>::empty()
    } else {
        claims_text(v.drop_last()) + claim_line(v.last())
    }
}

/// Where one claim lives, relative to the repository root.
pub open spec fn claim_path(scheme: Seq<char>, id: Seq<char>) -> Seq<char> {
    STORE@ + "/"@ + scheme + "/"@ + id
}

/// The identifiers of one scheme's claims, in order.
pub open spec fn ids_in(v: Seq<Claim>, scheme: Seq<char>) -> Seq<Seq<char>>
    decreases v.len(),
{
    if v.len() == 0 {
        Seq::<Seq<char>>::empty()
    } else if v.last().scheme@ == scheme {
        ids_in(v.drop_last(), scheme).push(v.last().id@)
    } else {
        ids_in(v.drop_last(), scheme)
    }
}

impl Claims {
    /// The claims, in `(scheme, identifier)` order.
    pub closed spec fn view(&self) -> Seq<Claim> {
        self.entries@
    }

    /// No store.
    pub fn empty() -> (c: Self)
        ensures
            c.view().len() == 0,
    {
        Claims { entries: Vec::new() }
    }

    /// A store built from claims. The order is imposed here rather than
    /// assumed of the caller, and claims of one pair keep the order they came
    /// in.
    pub fn of(entries: Vec<Claim>) -> (c: Self)
        ensures
            claims_in_order(c.view()),
            c.view().to_multiset() == entries@.to_multiset(),
    {
        let mut out: Vec<Claim> = Vec::new();
        let mut rest = entries;
        proof {
            broadcast use vstd::multiset::group_multiset_axioms;
            out@.to_multiset_ensures();
            vstd::multiset::lemma_multiset_empty_len(out@.to_multiset());
            assert(out@.to_multiset().add(rest@.to_multiset()) =~= rest@.to_multiset());
        }
        while rest.len() > 0
            invariant
                claims_in_order(out@),
                out@.to_multiset().add(rest@.to_multiset()) == entries@.to_multiset(),
            decreases rest@.len(),
        {
            let ghost before = rest@;
            let x = rest.remove(0);
            let mut p: usize = 0;
            while p < out.len() && !claim_less(&x, &out[p])
                invariant
                    p <= out@.len(),
                    forall|k: int| 0 <= k < p ==> !claim_lt(x, #[trigger] out@[k]),
                decreases out@.len() - p,
            {
                p = p + 1;
            }
            let ghost old_out = out@;
            out.insert(p, x);
            proof {
                broadcast use vstd::multiset::group_multiset_axioms;
                let w = out@;
                assert(w =~= old_out.insert(p as int, x));
                assert forall|a: int, b: int| 0 <= a < b < w.len() implies !claim_lt(
                    #[trigger] w[b],
                    #[trigger] w[a],
                ) by {
                    if b < p {
                        assert(w[a] == old_out[a] && w[b] == old_out[b]);
                    } else if b == p {
                        assert(w[a] == old_out[a]);
                    } else if a == p {
                        let y = old_out[b - 1];
                        assert(w[b] == y);
                        lemma_claim_order(y, x, old_out[p as int]);
                        lemma_claim_order(y, y, y);
                        if b - 1 > p {
                            assert(!claim_lt(old_out[b - 1], old_out[p as int]));
                        }
                    } else if a < p {
                        assert(w[a] == old_out[a] && w[b] == old_out[b - 1]);
                    } else {
                        assert(w[a] == old_out[a - 1] && w[b] == old_out[b - 1]);
                    }
                }
                vstd::seq_lib::to_multiset_insert(old_out, p as int, x);
                before.to_multiset_ensures();
                assert(before.remove(0) == rest@);
                assert(before.to_multiset().count(x) > 0);
                assert(out@.to_multiset().add(rest@.to_multiset()) =~= old_out.to_multiset().add(
                    before.to_multiset(),
                ));
            }
        }
        proof {
            broadcast use vstd::multiset::group_multiset_axioms;
            rest@.to_multiset_ensures();
            vstd::multiset::lemma_multiset_empty_len(rest@.to_multiset());
            assert(out@.to_multiset().add(rest@.to_multiset()) =~= out@.to_multiset());
        }
        Claims { entries: out }
    }

    pub fn entries(&self) -> (e: &[Claim])
        ensures
            e@ == self.view(),
    {
        self.entries.as_slice()
    }

    pub fn is_empty(&self) -> (r: bool)
        ensures
            r == (self.view().len() == 0),
    {
        self.entries.len() == 0
    }

    /// The document claiming one identifier, and nothing where no file does.
    /// Where two claims hold one pair, it is the claimant of one of them.
    pub fn claimant(&self, scheme: &str, id: &str) -> (r: Option<&str>)
        ensures
            match r {
                Some(c) => exists|i: int|
                    0 <= i < self.view().len() && (#[trigger] self.view()[i]).scheme@ == scheme@
                        && self.view()[i].id@ == id@ && self.view()[i].claimant@ == c@,
                None => forall|i: int|
                    0 <= i < self.view().len() ==> !((#[trigger] self.view()[i]).scheme@ == scheme@
                        && self.view()[i].id@ == id@),
            },
    {
        let s = chars_of(scheme);
        let d = chars_of(id);
        let mut i: usize = 0;
        while i < self.entries.len()
            invariant
                s@ == scheme@,
                d@ == id@,
                i <= self.entries@.len(),
                forall|k: int|
                    0 <= k < i ==> !((#[trigger] self.entries@[k]).scheme@ == scheme@
                        && self.entries@[k].id@ == id@),
            decreases self.entries@.len() - i,
        {
            let e = &self.entries[i];
            let es = chars_of(e.scheme.as_str());
            let ed = chars_of(e.id.as_str());
            if same(es.as_slice(), s.as_slice()) && same(ed.as_slice(), d.as_slice()) {
                assert(self.view()[i as int] == *e);
                return Some(e.claimant.as_str());
            }
            i = i + 1;
        }
        None
    }

    /// Every identifier one scheme has claimed, in order. The allocator takes
    /// the maximum of these and of the corpus, which is the whole of what the
    /// store is for.
    pub fn ids_of(&self, scheme: &str) -> (ids: Vec<&str>)
        ensures
            ids@.map_values(|x: &str| x@) == ids_in(self.view(), scheme@),
    {
        let s = chars_of(scheme);
        let mut out: Vec<&str> = Vec::new();
        let mut i: usize = 0;
        proof {
            assert(self.entries@.take(0) =~= Seq::<Claim>::empty());
        }
        while i < self.entries.len()
            invariant
                s@ == scheme@,
                i <= self.entries@.len(),
                out@.map_values(|x: &str| x@) == ids_in(self.entries@.take(i as int), scheme@),
            decreases self.entries@.len() - i,
        {
            let e = &self.entries[i];
            let es = chars_of(e.scheme.as_str());
            assert(self.entries@.take(i + 1).drop_last() =~= self.entries@.take(i as int));
            if same(es.as_slice(), s.as_slice()) {
                out.push(e.id.as_str());
            }
            i = i + 1;
            assert(out@.map_values(|x: &str| x@) =~= ids_in(self.entries@.take(i as int), scheme@));
        }
        assert(self.entries@.take(i as int) =~= self.entries@);
        out
    }

    /// The store as one string, in canonical order, length-prefixed so that
    /// no claimant can write the separator of the next entry.
    pub fn render(&self) -> (s: String)
        requires
            forall|i: int|
                0 <= i < self.view().len() ==> 4 * (#[trigger] self.view()[i]).claimant@.len()
                    <= usize::MAX,
        ensures
            s@ == claims_text(self.view()),
    {
        let mut out: Vec<char> = Vec::new();
        let mut i: usize = 0;
        proof {
            assert(self.entries@.take(0) =~= Seq::<Claim>::empty());
            assert(self.view() == self.entries@);
        }
        while i < self.entries.len()
            invariant
                i <= self.entries@.len(),
                out@ == claims_text(self.entries@.take(i as int)),
                forall|k: int|
                    0 <= k < self.entries@.len() ==> 4 * (#[trigger] self.entries@[k]).claimant@.len()
                        <= usize::MAX,
            decreases self.entries@.len() - i,
        {
            let e = &self.entries[i];
            extend_str(&mut out, e.scheme.as_str());
            extend_str(&mut out, "/");
            extend_str(&mut out, e.id.as_str());
            extend_str(&mut out, " ");
            let n = byte_len(e.claimant.as_str());
            extend_decimal(&mut out, n as u64);
            extend_str(&mut out, " ");
            extend_str(&mut out, e.claimant.as_str());
            extend_str(&mut out, "\n");
            assert(self.entries@.take(i + 1).drop_last() =~= self.entries@.take(i as int));
            i = i + 1;
            assert(out@ =~= claims_text(self.entries@.take(i as int)));
        }
        assert(self.entries@.take(i as int) =~= self.entries@);
        string_of(out.as_slice())
    }
}

/// Where one claim lives, relative to the repository root.
pub fn path_of(scheme: &str, id: &str) -> (p: String)
    ensures
        p@ == claim_path(scheme@, id@),
{
    let mut out: Vec<char> = chars_of(STORE);
    extend_str(&mut out, "/");
    extend_str(&mut out, scheme);
    extend_str(&mut out, "/");
    extend_str(&mut out, id);
    string_of(out.as_slice())
}

/// What one claim file holds: one line, and never zero bytes.
pub fn contents_for(claimant: &str) -> (c: String)
    ensures
        c@ == claimant@ + "\n"@,
        c@.len() > 0,
{
    let mut out: Vec<char> = chars_of(claimant);
    extend_str(&mut out, "\n");
    proof {
        reveal_strlit("\n");
    }
    string_of(out.as_slice())
}

} // verus!

verus! {

/// The rule that reports an identifier the store covers and no file claims.
pub const MISSING: &'static str = "identifier.claim.missing";

/// The rule that reports a claim naming a document that does not hold its
/// identifier.
pub const STALE: &'static str = "identifier.claim.stale";

/// A run with no phase-A report has nothing to hold the duplicate guard
/// against, and it says so rather than passing.
pub const NO_REPORT: &'static str = "the view carries no phase-A report for this corpus";

/// As above, for a run whose scope did not admit the store.
pub const NO_STORE: &'static str = "the view carries no claim store for this corpus";

/// Whether an identifier is among the ones the build reported as spent twice.
pub open spec fn among(ids: Seq<String>, id: Seq<char>) -> bool {
    exists|j: int| 0 <= j < ids.len() && (#[trigger] ids[j])@ == id
}

/// The identifier a defect reports as claimed twice, and nothing for any
/// other defect.
pub open spec fn duplicate_id(d: Defect) -> Option<Seq<char>> {
    match d {
        Defect::Duplicate { id, .. } => Some(id@),
        _ => None,
    }
}

/// Whether the build reported an identifier as claimed by two documents.
pub open spec fn duplicated_in(identity: Seq<Reported>, id: Seq<char>) -> bool {
    exists|j: int| 0 <= j < identity.len() && duplicate_id((#[trigger] identity[j]).defect) == Some(id)
}

/// The identifiers the build reported as claimed by two documents, each once
/// and in order. The rule leaves them to the duplicate rule, which reports the
/// pair.
fn contended(identity: &[Reported]) -> (out: Vec<String>)
    ensures
        forall|a: int, b: int| 0 <= a < b < out@.len() ==> lex_lt(#[trigger] out@[a]@, #[trigger] out@[b]@),
        forall|k: int| 0 <= k < out@.len() ==> duplicated_in(identity@, (#[trigger] out@[k])@),
        forall|t: Seq<char>| duplicated_in(identity@, t) ==> #[trigger] among(out@, t),
{
    let mut out: Vec<String> = Vec::new();
    let mut i: usize = 0;
    while i < identity.len()
        invariant
            i <= identity@.len(),
            forall|a: int, b: int| 0 <= a < b < out@.len() ==> lex_lt(#[trigger] out@[a]@, #[trigger] out@[b]@),
            forall|k: int| 0 <= k < out@.len() ==> duplicated_in(identity@, (#[trigger] out@[k])@),
            forall|j: int|
                0 <= j < i && duplicate_id((#[trigger] identity@[j]).defect) is Some ==> among(
                    out@,
                    duplicate_id(identity@[j].defect).unwrap(),
                ),
        decreases identity@.len() - i,
    {
        if let Defect::Duplicate { id: dup, .. } = &identity[i].defect {
            let id = chars_of(dup.as_str());
            let mut p: usize = 0;
            while p < out.len() && lex_less(chars_of(out[p].as_str()).as_slice(), id.as_slice())
                invariant
                    p <= out@.len(),
                    forall|t: int| 0 <= t < p ==> lex_lt(#[trigger] out@[t]@, id@),
                decreases out@.len() - p,
            {
                p = p + 1;
            }
            let ghost v = out@;
            proof {
                assert(duplicate_id(identity@[i as int].defect) == Some(id@));
                assert(duplicated_in(identity@, id@));
            }
            if p < out.len() && same(chars_of(out[p].as_str()).as_slice(), id.as_slice()) {
                assert(out@[p as int]@ == id@);
            } else {
                let x = string_of(id.as_slice());
                out.insert(p, x);
                proof {
                    let w = out@;
                    assert(w =~= v.insert(p as int, x));
                    if p < v.len() {
                        assert(!lex_lt(v[p as int]@, id@));
                        assert(v[p as int]@ != id@);
                        crate::text::lemma_lex_total(v[p as int]@, id@);
                    }
                    assert forall|a: int, b: int| 0 <= a < b < w.len() implies lex_lt(
                        #[trigger] w[a]@,
                        #[trigger] w[b]@,
                    ) by {
                        if b < p {
                            assert(w[a] == v[a] && w[b] == v[b]);
                        } else if b == p {
                            assert(w[a] == v[a]);
                        } else if a == p {
                            assert(w[b] == v[b - 1]);
                            if b - 1 > p {
                                lemma_lex_transitive(id@, v[p as int]@, v[b - 1]@);
                            }
                        } else if a < p {
                            assert(w[a] == v[a] && w[b] == v[b - 1]);
                        } else {
                            assert(w[a] == v[a - 1] && w[b] == v[b - 1]);
                        }
                    }
                    assert forall|k: int| 0 <= k < w.len() implies duplicated_in(identity@, (#[trigger] w[k])@) by {
                        if k < p {
                            assert(w[k] == v[k]);
                        } else if k > p {
                            assert(w[k] == v[k - 1]);
                        }
                    }
                    assert forall|t: Seq<char>| among(v, t) implies among(w, t) by {
                        let q = choose|q: int| 0 <= q < v.len() && (#[trigger] v[q])@ == t;
                        if q < p {
                            assert(w[q] == v[q]);
                        } else {
                            assert(w[q + 1] == v[q]);
                        }
                    }
                    assert(w[p as int]@ == id@);
                }
            }
        }
        i = i + 1;
    }
    proof {
        assert forall|t: Seq<char>| duplicated_in(identity@, t) implies #[trigger] among(out@, t) by {
            let j = choose|j: int| 0 <= j < identity@.len() && duplicate_id((#[trigger] identity@[j]).defect) == Some(t);
        }
    }
    out
}

/// The allocation a scheme declares that the store covers whatever its shelf
/// says.
pub const RECONCILE_FIRST: &'static str = "reconcile-first";

/// Whether an identifier minted onto a shelf under a scheme takes a claim
/// file: the store has a job wherever the file name does not determine the
/// identifier, which is a shelf that declares a `layout`, or a scheme that
/// allocates `reconcile-first` and so mints one value on every branch cut from
/// one `main`.
pub fn takes_a_claim(layout: Option<&str>, allocation: Option<&str>) -> (r: bool)
    ensures
        r == (layout is Some || (allocation matches Some(a) && a@ == RECONCILE_FIRST@)),
{
    layout.is_some() || match allocation {
        Some(a) => str_eq(a, RECONCILE_FIRST),
        None => false,
    }
}

/// The identifier scheme a kind mints under, as the claim rule reads it.
#[derive(Clone, Debug, PartialEq, Eq)]
pub struct Scheme {
    pub name: String,
    pub allocation: Option<String>,
}

/// One kind as the claim rule reads it: its name, the scheme it mints under,
/// and the layout each shelf that carries it declares.
#[derive(Clone, Debug, PartialEq, Eq)]
pub struct KindScheme {
    pub kind: String,
    pub scheme: Option<Scheme>,
    pub layouts: Vec<Option<String>>,
}

/// Whether a scheme allocates `reconcile-first`.
pub open spec fn reconciles(s: Scheme) -> bool {
    s.allocation matches Some(a) && a@ == RECONCILE_FIRST@
}

/// Whether a kind takes claims: where a shelf carries it, any one of them
/// admits it; where none does, the allocation half alone decides, because a
/// scheme that reconciles over a tree collides wherever its documents stand.
pub open spec fn kind_claims(k: KindScheme) -> bool {
    match k.scheme {
        None => false,
        Some(s) => if k.layouts@.len() == 0 {
            reconciles(s)
        } else {
            exists|i: int| 0 <= i < k.layouts@.len() && ((#[trigger] k.layouts@[i]) is Some || reconciles(s))
        },
    }
}

/// The kinds that take claims, each with the name of its scheme, in the
/// order the kinds come.
pub open spec fn claiming_kinds(kinds: Seq<KindScheme>) -> Seq<(String, String)>
    decreases kinds.len(),
{
    if kinds.len() == 0 {
        Seq::empty()
    } else {
        let rest = claiming_kinds(kinds.drop_last());
        if kind_claims(kinds.last()) {
            rest.push((kinds.last().kind, kinds.last().scheme.unwrap().name))
        } else {
            rest
        }
    }
}

/// Whether `a` sorts strictly before `b` by kind, then scheme.
pub open spec fn pair_lt(a: (String, String), b: (String, String)) -> bool {
    lex_lt(a.0@, b.0@) || (a.0@ == b.0@ && lex_lt(a.1@, b.1@))
}

/// Pairs in `(kind, scheme)` order.
pub open spec fn pairs_in_order(v: Seq<(String, String)>) -> bool {
    forall|i: int, j: int| 0 <= i < j < v.len() ==> !pair_lt(#[trigger] v[j], #[trigger] v[i])
}

fn pair_less(a: &(String, String), b: &(String, String)) -> (r: bool)
    ensures
        r == pair_lt(*a, *b),
{
    let x = chars_of(a.0.as_str());
    let y = chars_of(b.0.as_str());
    if lex_less(x.as_slice(), y.as_slice()) {
        return true;
    }
    if !same(x.as_slice(), y.as_slice()) {
        return false;
    }
    lex_less(chars_of(a.1.as_str()).as_slice(), chars_of(b.1.as_str()).as_slice())
}

proof fn lemma_pair_order(a: (String, String), b: (String, String), c: (String, String))
    ensures
        !pair_lt(a, a),
        pair_lt(a, b) && pair_lt(b, c) ==> pair_lt(a, c),
{
    lemma_lex_irreflexive(a.0@);
    lemma_lex_irreflexive(a.1@);
    if pair_lt(a, b) && pair_lt(b, c) {
        if lex_lt(a.0@, b.0@) && lex_lt(b.0@, c.0@) {
            lemma_lex_transitive(a.0@, b.0@, c.0@);
        }
        if lex_lt(a.1@, b.1@) && lex_lt(b.1@, c.1@) {
            lemma_lex_transitive(a.1@, b.1@, c.1@);
        }
    }
}

/// Each kind that takes claims, with the name of the scheme it mints under,
/// in `(kind, scheme)` order.
fn claiming(kinds: &[KindScheme]) -> (out: Vec<(String, String)>)
    ensures
        pairs_in_order(out@),
        out@.to_multiset() == claiming_kinds(kinds@).to_multiset(),
{
    let mut out: Vec<(String, String)> = Vec::new();
    let mut i: usize = 0;
    proof {
        broadcast use vstd::multiset::group_multiset_axioms;
        out@.to_multiset_ensures();
        assert(kinds@.take(0) =~= Seq::<KindScheme>::empty());
        assert(out@.to_multiset() =~= claiming_kinds(kinds@.take(0)).to_multiset());
    }
    while i < kinds.len()
        invariant
            i <= kinds@.len(),
            pairs_in_order(out@),
            out@.to_multiset() == claiming_kinds(kinds@.take(i as int)).to_multiset(),
        decreases kinds@.len() - i,
    {
        assert(kinds@.take(i + 1).drop_last() =~= kinds@.take(i as int));
        assert(kinds@.take(i + 1).last() == kinds@[i as int]);
        let k = &kinds[i];
        let mut claims = false;
        if let Some(s) = &k.scheme {
            let reconcile = match &s.allocation {
                Some(a) => str_eq(a.as_str(), RECONCILE_FIRST),
                None => false,
            };
            if k.layouts.len() == 0 {
                claims = reconcile;
            } else {
                let mut j: usize = 0;
                while j < k.layouts.len() && !claims
                    invariant
                        j <= k.layouts@.len(),
                        claims ==> exists|t: int| 0 <= t < k.layouts@.len() && ((#[trigger] k.layouts@[t]) is Some || reconciles(*s)),
                        !claims ==> forall|t: int| 0 <= t < j ==> !((#[trigger] k.layouts@[t]) is Some || reconciles(*s)),
                        reconcile == reconciles(*s),
                    decreases k.layouts@.len() - j + (if claims { 0int } else { 1int }),
                {
                    let layout = match &k.layouts[j] {
                        Some(l) => Some(l.as_str()),
                        None => None,
                    };
                    let allocation = match &s.allocation {
                        Some(a) => Some(a.as_str()),
                        None => None,
                    };
                    if takes_a_claim(layout, allocation) {
                        claims = true;
                    } else {
                        j = j + 1;
                    }
                }
            }
        }
        assert(claims == kind_claims(*k));
        if claims {
            let x = (k.kind.clone(), k.scheme.as_ref().unwrap().name.clone());
            let mut p: usize = 0;
            while p < out.len() && !pair_less(&x, &out[p])
                invariant
                    p <= out@.len(),
                    forall|t: int| 0 <= t < p ==> !pair_lt(x, #[trigger] out@[t]),
                decreases out@.len() - p,
            {
                p = p + 1;
            }
            let ghost old_out = out@;
            out.insert(p, x);
            proof {
                broadcast use vstd::multiset::group_multiset_axioms;
                let w = out@;
                assert(w =~= old_out.insert(p as int, x));
                assert forall|a: int, b: int| 0 <= a < b < w.len() implies !pair_lt(
                    #[trigger] w[b],
                    #[trigger] w[a],
                ) by {
                    if b < p {
                        assert(w[a] == old_out[a] && w[b] == old_out[b]);
                    } else if b == p {
                        assert(w[a] == old_out[a]);
                    } else if a == p {
                        let y = old_out[b - 1];
                        assert(w[b] == y);
                        lemma_pair_order(y, x, old_out[p as int]);
                        lemma_pair_order(y, y, y);
                        if b - 1 > p {
                            assert(!pair_lt(old_out[b - 1], old_out[p as int]));
                        }
                    } else if a < p {
                        assert(w[a] == old_out[a] && w[b] == old_out[b - 1]);
                    } else {
                        assert(w[a] == old_out[a - 1] && w[b] == old_out[b - 1]);
                    }
                }
                vstd::seq_lib::to_multiset_insert(old_out, p as int, x);
                let before = claiming_kinds(kinds@.take(i as int));
                before.to_multiset_ensures();
                assert(claiming_kinds(kinds@.take(i + 1)) == before.push(x));
                assert(before.push(x).to_multiset() =~= before.to_multiset().insert(x));
            }
        }
        i = i + 1;
    }
    assert(kinds@.take(i as int) =~= kinds@);
    out
}

/// One typed document of the corpus index, as the rule reads it: where it
/// stands, its kind, the identifier it spends, and where that identifier is
/// declared (zeros where the parser kept no position).
#[derive(Clone, Debug)]
pub struct Typed {
    pub path: String,
    pub kind: Option<String>,
    pub id: String,
    pub line: usize,
    pub column: usize,
}

/// The scheme a kind mints under, at its first entry.
pub open spec fn scheme_in(schemes: Seq<(String, String)>, kind: Seq<char>) -> Option<Seq<char>>
    decreases schemes.len(),
{
    if schemes.len() == 0 {
        None
    } else if schemes[0].0@ == kind {
        Some(schemes[0].1@)
    } else {
        scheme_in(schemes.skip(1), kind)
    }
}

/// Whether the store holds a claim on one identifier of one scheme.
pub open spec fn claimed(claims: Seq<Claim>, scheme: Seq<char>, id: Seq<char>) -> bool {
    exists|i: int| 0 <= i < claims.len() && (#[trigger] claims[i]).scheme@ == scheme && claims[i].id@ == id
}

/// The scheme a document owes a claim under: its kind takes claims, the build
/// did not report its identifier as spent twice, and no file claims it.
pub open spec fn owed_scheme(
    node: Typed,
    schemes: Seq<(String, String)>,
    identity: Seq<Reported>,
    claims: Seq<Claim>,
) -> Option<Seq<char>> {
    match node.kind {
        None => None,
        Some(k) => match scheme_in(schemes, k@) {
            None => None,
            Some(s) => if !duplicated_in(identity, node.id@) && !claimed(claims, s, node.id@) {
                Some(s)
            } else {
                None
            },
        },
    }
}

/// The documents that owe a claim, in index order, each with its scheme.
pub open spec fn owed(
    typed: Seq<Typed>,
    schemes: Seq<(String, String)>,
    identity: Seq<Reported>,
    claims: Seq<Claim>,
) -> Seq<(Typed, Seq<char>)>
    decreases typed.len(),
{
    if typed.len() == 0 {
        Seq::empty()
    } else {
        let rest = owed(typed.drop_last(), schemes, identity, claims);
        match owed_scheme(typed.last(), schemes, identity, claims) {
            Some(s) => rest.push((typed.last(), s)),
            None => rest,
        }
    }
}

/// The finding for one document that owes a claim, and the patch that
/// writes the claim.
pub open spec fn missing_finding(f: Finding, node: Typed, scheme: Seq<char>) -> bool {
    &&& f.rule == MISSING
    &&& f.severity == Severity::Error
    &&& f.obligation is None
    &&& f.path@ == node.path@
    &&& f.line == node.line
    &&& f.column == node.column
    &&& f.message@ == "`"@ + node.id@ + "` is spent by "@ + node.path@ + " and no file of `"@ + STORE@
        + "` claims it, so this identifier is invisible to the allocator of every other branch and a second document can be minted onto it"@
    &&& f.remediation@ == "run `headwater check --fix`, which writes `"@ + claim_path(scheme, node.id@)
        + "` holding `"@ + node.path@ + "`"@
    &&& f.patch matches Some(Patch::Create { path, contents }) && path@ == claim_path(scheme, node.id@)
        && contents@ == node.path@ + "\n"@
}

/// An identifier the corpus spends on a shelf the store covers that no file
/// of the store claims.
pub struct Missing {
    /// Every typed document of the corpus index, in index order.
    typed: Vec<Typed>,
    /// Each kind whose shelf takes claims, and the name of the scheme it
    /// mints under.
    schemes: Vec<(String, String)>,
}

impl Missing {
    pub closed spec fn typed_view(&self) -> Seq<Typed> {
        self.typed@
    }

    pub closed spec fn schemes_view(&self) -> Seq<(String, String)> {
        self.schemes@
    }

    /// The rule over one corpus: each kind with the scheme it mints under
    /// and the shelves that carry it, and the typed documents of its index.
    /// The kinds that take claims are computed once, in `(kind, scheme)`
    /// order.
    pub fn over(kinds: &[KindScheme], typed: Vec<Typed>) -> (m: Self)
        ensures
            m.typed_view() == typed@,
            pairs_in_order(m.schemes_view()),
            m.schemes_view().to_multiset() == claiming_kinds(kinds@).to_multiset(),
    {
        Missing { typed, schemes: claiming(kinds) }
    }

    /// The scheme a kind mints under, where it takes claims.
    fn scheme_of(&self, kind: &str) -> (r: Option<&str>)
        ensures
            match r {
                Some(s) => scheme_in(self.schemes@, kind@) == Some(s@),
                None => scheme_in(self.schemes@, kind@) is None,
            },
    {
        let mut i: usize = 0;
        assert(self.schemes@.skip(0) =~= self.schemes@);
        while i < self.schemes.len()
            invariant
                i <= self.schemes@.len(),
                scheme_in(self.schemes@, kind@) == scheme_in(self.schemes@.skip(i as int), kind@),
            decreases self.schemes@.len() - i,
        {
            assert(self.schemes@.skip(i as int)[0] == self.schemes@[i as int]);
            assert(self.schemes@.skip(i as int).skip(1) =~= self.schemes@.skip(i + 1));
            if str_eq(self.schemes[i].0.as_str(), kind) {
                return Some(self.schemes[i].1.as_str());
            }
            i = i + 1;
        }
        None
    }

    /// The finding for one document that owes a claim.
    fn finding_for(node: &Typed, scheme: &str) -> (f: Finding)
        ensures
            missing_finding(f, *node, scheme@),
    {
        let claim = path_of(scheme, node.id.as_str());
        let mut m: Vec<char> = chars_of("`");
        extend_str(&mut m, node.id.as_str());
        extend_str(&mut m, "` is spent by ");
        extend_str(&mut m, node.path.as_str());
        extend_str(&mut m, " and no file of `");
        extend_str(&mut m, STORE);
        extend_str(
            &mut m,
            "` claims it, so this identifier is invisible to the allocator of every other branch and a second document can be minted onto it",
        );
        let mut r: Vec<char> = chars_of("run `headwater check --fix`, which writes `");
        extend_str(&mut r, claim.as_str());
        extend_str(&mut r, "` holding `");
        extend_str(&mut r, node.path.as_str());
        extend_str(&mut r, "`");
        let contents = contents_for(node.path.as_str());
        Finding {
            rule: MISSING,
            severity: Severity::Error,
            obligation: None,
            path: node.path.clone(),
            line: node.line,
            column: node.column,
            message: string_of(m.as_slice()),
            remediation: string_of(r.as_slice()),
            patch: Some(Patch::Create { path: claim, contents }),
        }
    }

    /// Every identifier a shelf the store covers spends with no file claiming
    /// it, in index order. An identifier the build reported as spent twice is
    /// the duplicate rule's, and a claim for it would settle a collision by
    /// whichever document wrote first.
    pub fn evaluate(&self, identity: Option<&[Reported]>, claims: Option<&Claims>) -> (o: Outcome)
        ensures
            identity is None ==> o == Outcome::Skipped(NO_REPORT),
            identity is Some && claims is None ==> o == Outcome::Skipped(NO_STORE),
            match (identity, claims) {
                (Some(d), Some(c)) => {
                    let w = owed(self.typed_view(), self.schemes_view(), d@, c.view());
                    &&& w.len() == 0 ==> o is Passed
                    &&& w.len() > 0 ==> (o matches Outcome::Failed(v) && v@.len() == w.len() && forall|k: int|
                        0 <= k < w.len() ==> missing_finding(#[trigger] v@[k], w[k].0, w[k].1))
                },
                _ => true,
            },
    {
        let identity = match identity {
            Some(d) => d,
            None => return Outcome::Skipped(NO_REPORT),
        };
        let claims = match claims {
            Some(c) => c,
            None => return Outcome::Skipped(NO_STORE),
        };
        let contended = contended(identity);
        let mut findings: Vec<Finding> = Vec::new();
        let mut i: usize = 0;
        while i < self.typed.len()
            invariant
                i <= self.typed@.len(),
                forall|k: int| 0 <= k < contended@.len() ==> duplicated_in(identity@, (#[trigger] contended@[k])@),
                forall|t: Seq<char>| duplicated_in(identity@, t) ==> #[trigger] among(contended@, t),
                findings@.len() == owed(self.typed@.take(i as int), self.schemes@, identity@, claims.view()).len(),
                forall|k: int|
                    0 <= k < findings@.len() ==> missing_finding(
                        #[trigger] findings@[k],
                        owed(self.typed@.take(i as int), self.schemes@, identity@, claims.view())[k].0,
                        owed(self.typed@.take(i as int), self.schemes@, identity@, claims.view())[k].1,
                    ),
            decreases self.typed@.len() - i,
        {
            let ghost before = owed(self.typed@.take(i as int), self.schemes@, identity@, claims.view());
            assert(self.typed@.take(i + 1).drop_last() =~= self.typed@.take(i as int));
            let node = &self.typed[i];
            if let Some(kind) = &node.kind {
                if let Some(scheme) = self.scheme_of(kind.as_str()) {
                    let mut spent_twice = false;
                    let mut k: usize = 0;
                    while k < contended.len() && !spent_twice
                        invariant
                            k <= contended@.len(),
                            spent_twice ==> among(contended@, node.id@),
                            !spent_twice ==> forall|t: int| 0 <= t < k ==> (#[trigger] contended@[t])@ != node.id@,
                        decreases contended@.len() - k + (if spent_twice { 0int } else { 1int }),
                    {
                        if str_eq(contended[k].as_str(), node.id.as_str()) {
                            spent_twice = true;
                        } else {
                            k = k + 1;
                        }
                    }
                    assert(spent_twice == duplicated_in(identity@, node.id@)) by {
                        if spent_twice {
                            let t = choose|t: int| 0 <= t < contended@.len() && (#[trigger] contended@[t])@ == node.id@;
                            assert(duplicated_in(identity@, contended@[t]@));
                        } else if duplicated_in(identity@, node.id@) {
                            assert(among(contended@, node.id@));
                            let t = choose|t: int| 0 <= t < contended@.len() && (#[trigger] contended@[t])@ == node.id@;
                        }
                    }
                    if !spent_twice {
                        let held = claims.claimant(scheme, node.id.as_str());
                        if held.is_none() {
                            let f = Missing::finding_for(node, scheme);
                            findings.push(f);
                        }
                    }
                }
            }
            proof {
                let after = owed(self.typed@.take(i + 1), self.schemes@, identity@, claims.view());
                assert(self.typed@.take(i + 1).last() == self.typed@[i as int]);
                assert forall|k: int| 0 <= k < findings@.len() implies missing_finding(
                    #[trigger] findings@[k],
                    after[k].0,
                    after[k].1,
                ) by {
                    if k < before.len() {
                        assert(after[k] == before[k]);
                    }
                }
            }
            i = i + 1;
        }
        assert(self.typed@.take(i as int) =~= self.typed@);
        Outcome::failed(findings)
    }
}

/// What the corpus index says of one path: nothing where no document stands
/// there, and otherwise the identifier that document declares, if any. The
/// first document at a path answers.
pub open spec fn held_at(documents: Seq<(String, Option<String>)>, path: Seq<char>) -> Option<Option<Seq<char>>>
    decreases documents.len(),
{
    if documents.len() == 0 {
        None
    } else if documents[0].0@ == path {
        Some(
            match documents[0].1 {
                Some(id) => Some(id@),
                None => None,
            },
        )
    } else {
        held_at(documents.skip(1), path)
    }
}

/// What a stale claim is reported as: the path the finding stands at, its
/// message and its remedy, and nothing for a claim that is not stale.
pub open spec fn stale_report(c: Claim, documents: Seq<(String, Option<String>)>, facet: Seq<char>) -> Option<
    (Seq<char>, Seq<char>, Seq<char>),
> {
    let at_path = claim_path(c.scheme@, c.id@);
    if c.claimant@.len() == 0 {
        Some(
            (
                at_path,
                "`"@ + at_path + "` names no document, so `"@ + c.id@
                    + "` is claimed by nobody and two branches adding this claim would merge without a word"@,
                "write the path of the document whose `"@ + facet + "` is `"@ + c.id@ + "` into `"@ + at_path
                    + "`, or delete the file if the identifier was never spent"@,
            ),
        )
    } else {
        match held_at(documents, c.claimant@) {
            None => None,
            Some(declared) => {
                let held = match declared {
                    Some(h) => h,
                    None => Seq::<char>::empty(),
                };
                if held == c.id@ {
                    None
                } else {
                    Some(
                        (
                            c.claimant@,
                            if held.len() == 0 {
                                "`"@ + at_path + "` names "@ + c.claimant@
                                    + " and that document declares no identifier, so the claim records a mint that no document carries"@
                            } else {
                                "`"@ + at_path + "` names "@ + c.claimant@ + " and that document declares `"@ + held
                                    + "`, so one of the two records a mint that did not happen"@
                            },
                            "decide which of the two moved. Repoint `"@ + at_path + "` at the document whose `"@
                                + facet + "` is `"@ + c.id@ + "`, or correct the document"@,
                        ),
                    )
                }
            },
        }
    }
}

/// The reports of every stale claim, in store order.
pub open spec fn stale_reports(
    claims: Seq<Claim>,
    documents: Seq<(String, Option<String>)>,
    facet: Seq<char>,
) -> Seq<(Seq<char>, Seq<char>, Seq<char>)>
    decreases claims.len(),
{
    if claims.len() == 0 {
        Seq::empty()
    } else {
        let rest = stale_reports(claims.drop_last(), documents, facet);
        match stale_report(claims.last(), documents, facet) {
            Some(r) => rest.push(r),
            None => rest,
        }
    }
}

/// Whether a finding is the advisory one report of a stale claim stands for.
pub open spec fn stale_finding(f: Finding, r: (Seq<char>, Seq<char>, Seq<char>)) -> bool {
    &&& f.rule == STALE
    &&& f.severity == Severity::Warn
    &&& f.obligation is None
    &&& f.path@ == r.0
    &&& f.line == 0
    &&& f.column == 0
    &&& f.message@ == r.1
    &&& f.remediation@ == r.2
    &&& f.patch is None
}

/// A claim that does not name the document holding its identifier. A claim
/// naming a document the corpus no longer holds is correct: an identifier is
/// never reused, so a deleted document leaves its claim standing.
pub struct Stale {
    /// Every document of the corpus index: its path and the identifier it
    /// declares.
    documents: Vec<(String, Option<String>)>,
    /// The front-matter key an identifier is read from, so that a remedy
    /// names the key this engine actually read.
    facet: String,
}

impl Stale {
    pub closed spec fn documents_view(&self) -> Seq<(String, Option<String>)> {
        self.documents@
    }

    pub closed spec fn facet_view(&self) -> Seq<char> {
        self.facet@
    }

    /// The rule over one corpus index, reading identifiers from `facet`.
    pub fn over(facet: &str, documents: Vec<(String, Option<String>)>) -> (s: Self)
        ensures
            s.documents_view() == documents@,
            s.facet_view() == facet@,
    {
        Stale { documents, facet: crate::text::owned(facet) }
    }

    /// The document at a path, and the identifier it declares.
    fn by_path(&self, path: &str) -> (r: Option<Option<&str>>)
        ensures
            match r {
                None => held_at(self.documents@, path@) is None,
                Some(None) => held_at(self.documents@, path@) == Some(None::<Seq<char>>),
                Some(Some(id)) => held_at(self.documents@, path@) == Some(Some(id@)),
            },
    {
        let mut i: usize = 0;
        assert(self.documents@.skip(0) =~= self.documents@);
        while i < self.documents.len()
            invariant
                i <= self.documents@.len(),
                held_at(self.documents@, path@) == held_at(self.documents@.skip(i as int), path@),
            decreases self.documents@.len() - i,
        {
            assert(self.documents@.skip(i as int)[0] == self.documents@[i as int]);
            assert(self.documents@.skip(i as int).skip(1) =~= self.documents@.skip(i + 1));
            if str_eq(self.documents[i].0.as_str(), path) {
                return match &self.documents[i].1 {
                    Some(id) => Some(Some(id.as_str())),
                    None => Some(None),
                };
            }
            i = i + 1;
        }
        None
    }

    /// The report of one claim, where it is stale.
    fn report(&self, c: &Claim) -> (r: Option<Finding>)
        ensures
            match stale_report(*c, self.documents@, self.facet@) {
                None => r is None,
                Some(x) => r matches Some(f) && stale_finding(f, x),
            },
    {
        let at_path = path_of(c.scheme.as_str(), c.id.as_str());
        if chars_of(c.claimant.as_str()).len() == 0 {
            proof {
                assert(c.claimant@.len() == 0);
            }
            let mut m: Vec<char> = chars_of("`");
            extend_str(&mut m, at_path.as_str());
            extend_str(&mut m, "` names no document, so `");
            extend_str(&mut m, c.id.as_str());
            extend_str(&mut m, "` is claimed by nobody and two branches adding this claim would merge without a word");
            let mut r: Vec<char> = chars_of("write the path of the document whose `");
            extend_str(&mut r, self.facet.as_str());
            extend_str(&mut r, "` is `");
            extend_str(&mut r, c.id.as_str());
            extend_str(&mut r, "` into `");
            extend_str(&mut r, at_path.as_str());
            extend_str(&mut r, "`, or delete the file if the identifier was never spent");
            return Some(
                Finding {
                    rule: STALE,
                    severity: Severity::Warn,
                    obligation: None,
                    path: at_path,
                    line: 0,
                    column: 0,
                    message: string_of(m.as_slice()),
                    remediation: string_of(r.as_slice()),
                    patch: None,
                },
            );
        }
        let declared = match self.by_path(c.claimant.as_str()) {
            Some(d) => d,
            None => return None,
        };
        let held: &str = match declared {
            Some(h) => h,
            None => {
                proof {
                    reveal_strlit("");
                    assert(""@ =~= Seq::<char>::empty());
                }
                ""
            },
        };
        let ghost spec_held = match held_at(self.documents@, c.claimant@) {
            Some(Some(h)) => h,
            _ => Seq::<char>::empty(),
        };
        assert(held@ == spec_held);
        assert(c.claimant@.len() != 0);
        if str_eq(held, c.id.as_str()) {
            return None;
        }
        let mut m: Vec<char> = chars_of("`");
        extend_str(&mut m, at_path.as_str());
        extend_str(&mut m, "` names ");
        extend_str(&mut m, c.claimant.as_str());
        if chars_of(held).len() == 0 {
            extend_str(&mut m, " and that document declares no identifier, so the claim records a mint that no document carries");
        } else {
            extend_str(&mut m, " and that document declares `");
            extend_str(&mut m, held);
            extend_str(&mut m, "`, so one of the two records a mint that did not happen");
        }
        let mut r: Vec<char> = chars_of("decide which of the two moved. Repoint `");
        extend_str(&mut r, at_path.as_str());
        extend_str(&mut r, "` at the document whose `");
        extend_str(&mut r, self.facet.as_str());
        extend_str(&mut r, "` is `");
        extend_str(&mut r, c.id.as_str());
        extend_str(&mut r, "`, or correct the document");
        Some(
            Finding {
                rule: STALE,
                severity: Severity::Warn,
                obligation: None,
                path: c.claimant.clone(),
                line: 0,
                column: 0,
                message: string_of(m.as_slice()),
                remediation: string_of(r.as_slice()),
                patch: None,
            },
        )
    }

    /// Every claim of the store that does not name the document holding its
    /// identifier, in store order. Advisory, and with no patch: choosing
    /// whether the store or the document moved is a rewrite.
    pub fn evaluate(&self, claims: Option<&Claims>) -> (o: Outcome)
        ensures
            claims is None ==> o == Outcome::Skipped(NO_STORE),
            match claims {
                Some(c) => {
                    let w = stale_reports(c.view(), self.documents_view(), self.facet_view());
                    &&& w.len() == 0 ==> o is Passed
                    &&& w.len() > 0 ==> (o matches Outcome::Failed(v) && v@.len() == w.len() && forall|k: int|
                        0 <= k < w.len() ==> stale_finding(#[trigger] v@[k], w[k]))
                },
                None => true,
            },
    {
        let claims = match claims {
            Some(c) => c,
            None => return Outcome::Skipped(NO_STORE),
        };
        let entries = claims.entries();
        let mut findings: Vec<Finding> = Vec::new();
        let mut i: usize = 0;
        while i < entries.len()
            invariant
                i <= entries@.len(),
                entries@ == claims.view(),
                findings@.len() == stale_reports(entries@.take(i as int), self.documents@, self.facet@).len(),
                forall|k: int|
                    0 <= k < findings@.len() ==> stale_finding(
                        #[trigger] findings@[k],
                        stale_reports(entries@.take(i as int), self.documents@, self.facet@)[k],
                    ),
            decreases entries@.len() - i,
        {
            let ghost before = stale_reports(entries@.take(i as int), self.documents@, self.facet@);
            assert(entries@.take(i + 1).drop_last() =~= entries@.take(i as int));
            assert(entries@.take(i + 1).last() == entries@[i as int]);
            match self.report(&entries[i]) {
                Some(f) => findings.push(f),
                None => {},
            }
            proof {
                let after = stale_reports(entries@.take(i + 1), self.documents@, self.facet@);
                assert forall|k: int| 0 <= k < findings@.len() implies stale_finding(
                    #[trigger] findings@[k],
                    after[k],
                ) by {
                    if k < before.len() {
                        assert(after[k] == before[k]);
                    }
                }
            }
            i = i + 1;
        }
        assert(entries@.take(i as int) =~= entries@);
        Outcome::failed(findings)
    }
}

} // verus!
