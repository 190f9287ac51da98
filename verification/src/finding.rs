//! The finding, and the one order it is ever written in.
//!
//! A rule, a severity, an obligation, a path, a line, a message, a
//! remediation, and the patch the engine will write for it, if any.
use vstd::prelude::*;
use crate::patch::Patch;
use crate::text::{
    chars_of, lex_less, lex_lt, lemma_lex_asymmetric, lemma_lex_irreflexive, lemma_lex_total,
    lemma_lex_transitive,
};

verus! {

/// What a check says about a finding. Whether it blocks is the control's
/// business.
#[derive(Clone, Copy, Debug, PartialEq, Eq, PartialOrd, Ord, Structural)]
pub enum Severity {
    Error,
    Warn,
    Info,
}

/// One finding, from any origin.
#[derive(Clone, Debug, PartialEq, Eq)]
pub struct Finding {
    /// The rule that produced it, in dotted form.
    pub rule: &'static str,
    pub severity: Severity,
    /// The obligation this rule serves, and `None` when no control names it.
    pub obligation: Option<String>,
    /// Relative to the repository root, with `/` separators.
    pub path: String,
    /// One-based, and 0 where the finding is about a file rather than a line.
    pub line: usize,
    pub column: usize,
    pub message: String,
    /// What to do. Never empty.
    pub remediation: String,
    /// The correction this engine will write under `check --fix`.
    pub patch: Option<Patch>,
}

impl Severity {
    /// The word a severity is written as: `error`, `warn` or `info`.
    pub fn to_string(&self) -> (w: String)
        ensures
            w@ == crate::cache::severity_word(*self),
    {
        match self {
            Severity::Error => crate::text::owned("error"),
            Severity::Warn => crate::text::owned("warn"),
            Severity::Info => crate::text::owned("info"),
        }
    }
}

/// Where a finding is: its path alone for a finding about a whole file, and
/// `path:line:column` otherwise.
pub open spec fn location_text(f: Finding) -> Seq<char> {
    if f.line == 0 {
        f.path@
    } else {
        f.path@ + seq![':'] + crate::text::decimal(f.line as nat) + seq![':'] + crate::text::decimal(
            f.column as nat,
        )
    }
}

/// A severity word as plain output prints it: the glyph, a space, the word.
pub open spec fn severity_plain(s: Severity) -> Seq<char> {
    crate::paint::glyph_of(s) + seq![' '] + crate::cache::severity_word(s)
}

/// The first line of a finding: where, and how severe.
pub open spec fn head_line(f: Finding) -> Seq<char> {
    location_text(f) + seq![' '] + severity_plain(f.severity) + seq!['\n']
}

/// The second line: the rule, the obligation it serves where there is one,
/// and the message.
pub open spec fn rule_line(f: Finding) -> Seq<char> {
    seq![' ', ' '] + f.rule@ + match f.obligation {
        Some(o) => seq![' ', '('] + o@ + seq![')', ':', ' '],
        None => seq![':', ' '],
    } + f.message@ + seq!['\n']
}

/// The third line: what to do, marked mechanical where a patch rides with it.
pub open spec fn fix_line(f: Finding) -> Seq<char> {
    "  fix"@ + (if f.patch is Some {
        " (mechanical)"@
    } else {
        Seq::<char>::empty()
    }) + seq![':', ' '] + f.remediation@ + seq!['\n']
}

/// One finding as a person reads it where no colour is shown.
pub open spec fn finding_text(f: Finding) -> Seq<char> {
    head_line(f) + rule_line(f) + fix_line(f)
}

impl Finding {
    fn head(&self) -> (out: Vec<char>)
        ensures
            out@ == head_line(*self),
    {
        let mut out: Vec<char> = chars_of(self.path.as_str());
        if self.line != 0 {
            out.push(':');
            crate::text::extend_decimal(&mut out, self.line as u64);
            out.push(':');
            crate::text::extend_decimal(&mut out, self.column as u64);
        }
        assert(out@ =~= location_text(*self));
        out.push(' ');
        crate::text::extend_str(&mut out, crate::paint::glyph(self.severity));
        out.push(' ');
        let word = self.severity.to_string();
        crate::text::extend_str(&mut out, word.as_str());
        out.push('\n');
        assert(out@ =~= head_line(*self));
        out
    }

    fn rule_part(&self) -> (out: Vec<char>)
        ensures
            out@ == rule_line(*self),
    {
        let mut out: Vec<char> = Vec::new();
        out.push(' ');
        out.push(' ');
        crate::text::extend_str(&mut out, self.rule);
        match &self.obligation {
            Some(o) => {
                out.push(' ');
                out.push('(');
                crate::text::extend_str(&mut out, o.as_str());
                out.push(')');
                out.push(':');
                out.push(' ');
            },
            None => {
                out.push(':');
                out.push(' ');
            },
        }
        crate::text::extend_str(&mut out, self.message.as_str());
        out.push('\n');
        assert(out@ =~= rule_line(*self));
        out
    }

    fn fix_part(&self) -> (out: Vec<char>)
        ensures
            out@ == fix_line(*self),
    {
        let mut out: Vec<char> = chars_of("  fix");
        if self.patch.is_some() {
            crate::text::extend_str(&mut out, " (mechanical)");
        } else {
            assert(out@ =~= out@ + Seq::<char>::empty());
        }
        out.push(':');
        out.push(' ');
        crate::text::extend_str(&mut out, self.remediation.as_str());
        out.push('\n');
        assert(out@ =~= fix_line(*self));
        out
    }

    /// One finding as text, in the form a person reads in a terminal where
    /// no colour is shown.
    pub fn render(&self) -> (s: String)
        ensures
            s@ == finding_text(*self),
    {
        let mut out = self.head();
        let r = self.rule_part();
        let x = self.fix_part();
        crate::text::extend(&mut out, r.as_slice());
        crate::text::extend(&mut out, x.as_slice());
        crate::text::string_of(out.as_slice())
    }

    /// Whether a patch rides with this finding.
    pub fn fixable(&self) -> (r: bool)
        ensures
            r == self.patch is Some,
    {
        self.patch.is_some()
    }

    /// The sort key: path, line, column, check id, message.
    pub fn order(&self) -> (k: (&str, usize, usize, &str, &str))
        ensures
            k.0@ == self.path@,
            k.1 == self.line,
            k.2 == self.column,
            k.3 == self.rule,
            k.4@ == self.message@,
    {
        (self.path.as_str(), self.line, self.column, self.rule, self.message.as_str())
    }
}

/// Whether `a` sorts strictly before `b` by path, line, column, rule and
/// message, each compared as `str` and `usize` compare.
pub open spec fn order_lt(a: Finding, b: Finding) -> bool {
    ||| lex_lt(a.path@, b.path@)
    ||| a.path@ == b.path@ && a.line < b.line
    ||| a.path@ == b.path@ && a.line == b.line && a.column < b.column
    ||| a.path@ == b.path@ && a.line == b.line && a.column == b.column && lex_lt(a.rule@, b.rule@)
    ||| a.path@ == b.path@ && a.line == b.line && a.column == b.column && a.rule@ == b.rule@
        && lex_lt(a.message@, b.message@)
}

/// Findings in the one order they are ever written in.
pub open spec fn in_order(v: Seq<Finding>) -> bool {
    forall|i: int, j: int| 0 <= i < j < v.len() ==> !order_lt(#[trigger] v[j], #[trigger] v[i])
}

/// The order is strict and transitive.
pub proof fn lemma_order(a: Finding, b: Finding, c: Finding)
    ensures
        !order_lt(a, a),
        order_lt(a, b) && order_lt(b, c) ==> order_lt(a, c),
{
    lemma_lex_irreflexive(a.path@);
    lemma_lex_irreflexive(a.rule@);
    lemma_lex_irreflexive(a.message@);
    if order_lt(a, b) && order_lt(b, c) {
        if lex_lt(a.path@, b.path@) && lex_lt(b.path@, c.path@) {
            lemma_lex_transitive(a.path@, b.path@, c.path@);
        }
        if lex_lt(a.rule@, b.rule@) && lex_lt(b.rule@, c.rule@) {
            lemma_lex_transitive(a.rule@, b.rule@, c.rule@);
        }
        if lex_lt(a.message@, b.message@) && lex_lt(b.message@, c.message@) {
            lemma_lex_transitive(a.message@, b.message@, c.message@);
        }
    }
}

/// Whether `a` sorts strictly before `b`.
fn order_less(a: &Finding, b: &Finding) -> (r: bool)
    ensures
        r == order_lt(*a, *b),
{
    let ap = chars_of(a.path.as_str());
    let bp = chars_of(b.path.as_str());
    if lex_less(ap.as_slice(), bp.as_slice()) {
        return true;
    }
    if lex_less(bp.as_slice(), ap.as_slice()) {
        proof {
            lemma_lex_asymmetric(b.path@, a.path@);
        }
        return false;
    }
    proof {
        lemma_lex_total(a.path@, b.path@);
    }
    if a.line != b.line {
        return a.line < b.line;
    }
    if a.column != b.column {
        return a.column < b.column;
    }
    let ar = chars_of(a.rule);
    let br = chars_of(b.rule);
    if lex_less(ar.as_slice(), br.as_slice()) {
        return true;
    }
    if lex_less(br.as_slice(), ar.as_slice()) {
        proof {
            lemma_lex_asymmetric(b.rule@, a.rule@);
        }
        return false;
    }
    proof {
        lemma_lex_total(a.rule@, b.rule@);
    }
    let am = chars_of(a.message.as_str());
    let bm = chars_of(b.message.as_str());
    lex_less(am.as_slice(), bm.as_slice())
}

/// Whether two findings agree on every key of the order.
pub open spec fn same_keys(a: Finding, b: Finding) -> bool {
    a.path@ == b.path@ && a.line == b.line && a.column == b.column && a.rule@ == b.rule@
        && a.message@ == b.message@
}

/// Two findings neither of which sorts before the other agree on every key.
pub proof fn lemma_order_total(a: Finding, b: Finding)
    ensures
        order_lt(a, b) || order_lt(b, a) || same_keys(a, b),
{
    lemma_lex_total(a.path@, b.path@);
    lemma_lex_total(a.rule@, b.rule@);
    lemma_lex_total(a.message@, b.message@);
}

/// `v` with `x` after every finding that does not sort after it.
pub open spec fn insert_sorted(v: Seq<Finding>, x: Finding) -> Seq<Finding>
    decreases v.len(),
{
    if v.len() == 0 || !order_lt(x, v.last()) {
        v.push(x)
    } else {
        insert_sorted(v.drop_last(), x).push(v.last())
    }
}

/// The stable sort of a list of findings: each inserted, in the order they
/// came, after every finding that does not sort after it, so findings whose
/// keys tie keep their input order.
pub open spec fn sort_spec(v: Seq<Finding>) -> Seq<Finding>
    decreases v.len(),
{
    if v.len() == 0 {
        Seq::empty()
    } else {
        insert_sorted(sort_spec(v.drop_last()), v.last())
    }
}

proof fn lemma_insert_sorted_at(v: Seq<Finding>, x: Finding, p: int)
    requires
        0 <= p <= v.len(),
        forall|j: int| p <= j < v.len() ==> order_lt(x, #[trigger] v[j]),
        p == 0 || !order_lt(x, v[p - 1]),
    ensures
        insert_sorted(v, x) == v.insert(p, x),
    decreases v.len() - p,
{
    if p == v.len() {
        assert(v.push(x) =~= v.insert(p, x));
    } else {
        let init = v.drop_last();
        assert forall|j: int| p <= j < init.len() implies order_lt(x, #[trigger] init[j]) by {
            assert(init[j] == v[j]);
        }
        if p > 0 {
            assert(init[p - 1] == v[p - 1]);
        }
        lemma_insert_sorted_at(init, x, p);
        assert(init.insert(p, x).push(v.last()) =~= v.insert(p, x));
    }
}

/// Findings that tie on every key come out of the sort in the order they went
/// in: a list whose findings all agree on path, line, column, rule and message
/// is its own sort.
pub proof fn law_ties_keep_their_order(v: Seq<Finding>)
    requires
        forall|i: int, j: int| 0 <= i < v.len() && 0 <= j < v.len() ==> same_keys(#[trigger] v[i], #[trigger] v[j]),
    ensures
        sort_spec(v) == v,
    decreases v.len(),
{
    if v.len() > 0 {
        let init = v.drop_last();
        assert forall|i: int, j: int| 0 <= i < init.len() && 0 <= j < init.len() implies same_keys(
            #[trigger] init[i],
            #[trigger] init[j],
        ) by {
            assert(init[i] == v[i] && init[j] == v[j]);
        }
        law_ties_keep_their_order(init);
        if init.len() > 0 {
            assert(same_keys(v.last(), v[v.len() - 2]));
            lemma_lex_irreflexive(v.last().path@);
            lemma_lex_irreflexive(v.last().rule@);
            lemma_lex_irreflexive(v.last().message@);
            assert(!order_lt(v.last(), init.last()));
        }
        assert(init.push(v.last()) =~= v);
    }
}

/// Findings in the one order they are ever written in: by path, line,
/// column, rule and message. The sort is stable, so findings that agree on all
/// five keep the order they came in.
pub fn sorted(findings: Vec<Finding>) -> (out: Vec<Finding>)
    ensures
        in_order(out@),
        out@.to_multiset() == findings@.to_multiset(),
        out@ == sort_spec(findings@),
{
    let mut out: Vec<Finding> = Vec::new();
    let ghost all = findings@;
    let ghost mut k: int = 0;
    let mut rest = findings;
    assert(all.skip(0) =~= all);
    assert(all.take(0) =~= Seq::<Finding>::empty());
    proof {
        broadcast use vstd::multiset::group_multiset_axioms;
        out@.to_multiset_ensures();
        vstd::multiset::lemma_multiset_empty_len(out@.to_multiset());
        assert(out@.to_multiset() =~= vstd::multiset::Multiset::<Finding>::empty());
        assert(out@.to_multiset().add(rest@.to_multiset()) =~= rest@.to_multiset());
    }
    while rest.len() > 0
        invariant
            in_order(out@),
            out@.to_multiset().add(rest@.to_multiset()) == findings@.to_multiset(),
            all == findings@,
            0 <= k <= all.len(),
            rest@ == all.skip(k),
            out@ == sort_spec(all.take(k)),
        decreases rest@.len(),
    {
        let ghost before = rest@;
        let x = rest.remove(0);
        assert(x == all[k]);
        let mut p: usize = 0;
        while p < out.len() && !order_less(&x, &out[p])
            invariant
                p <= out@.len(),
                forall|k: int| 0 <= k < p ==> !order_lt(x, #[trigger] out@[k]),
            decreases out@.len() - p,
        {
            p = p + 1;
        }
        let ghost old_out = out@;
        proof {
            if p < old_out.len() {
                assert(order_lt(x, old_out[p as int]));
            }
            assert forall|j: int| p <= j < old_out.len() implies order_lt(x, #[trigger] old_out[j]) by {
                if j > p {
                    assert(!order_lt(old_out[j], old_out[p as int]));
                    lemma_order_total(old_out[p as int], old_out[j]);
                    if order_lt(old_out[p as int], old_out[j]) {
                        lemma_order(x, old_out[p as int], old_out[j]);
                    }
                }
            }
            if p > 0 {
                assert(!order_lt(x, old_out[p - 1]));
            }
            lemma_insert_sorted_at(old_out, x, p as int);
            assert(all.take(k + 1).drop_last() =~= all.take(k));
            assert(all.take(k + 1).last() == x);
        }
        out.insert(p, x);
        proof {
            k = k + 1;
            assert(rest@ =~= all.skip(k));
            broadcast use vstd::multiset::group_multiset_axioms;
            let w = out@;
            assert(w =~= old_out.insert(p as int, x));
            assert forall|a: int, b: int| 0 <= a < b < w.len() implies !order_lt(
                #[trigger] w[b],
                #[trigger] w[a],
            ) by {
                if b < p {
                    assert(w[a] == old_out[a] && w[b] == old_out[b]);
                } else if b == p {
                    assert(w[a] == old_out[a]);
                } else if a == p {
                    let y = old_out[b - 1];
                    assert(w[b] == y);
                    lemma_order(y, x, old_out[p as int]);
                    lemma_order(y, y, y);
                    if b - 1 > p {
                        assert(!order_lt(old_out[b - 1], old_out[p as int]));
                    }
                } else if a < p {
                    assert(w[a] == old_out[a] && w[b] == old_out[b - 1]);
                } else {
                    assert(w[a] == old_out[a - 1] && w[b] == old_out[b - 1]);
                }
            }
            vstd::seq_lib::to_multiset_insert(old_out, p as int, x);
            before.to_multiset_ensures();
            assert(before.remove(0) == rest@);
            assert(before.to_multiset().remove(x) == rest@.to_multiset());
            assert(before.to_multiset().count(x) > 0);
            assert(out@.to_multiset().add(rest@.to_multiset()) =~= old_out.to_multiset().add(
                before.to_multiset(),
            ));
        }
    }
    proof {
        broadcast use vstd::multiset::group_multiset_axioms;
        assert(rest@ =~= Seq::<Finding>::empty());
        rest@.to_multiset_ensures();
        vstd::multiset::lemma_multiset_empty_len(rest@.to_multiset());
        assert(rest@.to_multiset() =~= vstd::multiset::Multiset::<Finding>::empty());
        assert(out@.to_multiset().add(rest@.to_multiset()) =~= out@.to_multiset());
        assert(k == all.len());
        assert(all.take(k) =~= all);
    }
    out
}

} // verus!
