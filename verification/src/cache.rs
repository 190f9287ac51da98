//! The content-addressed cache, and the key that makes it sound.
//!
//! The key of an instance covers the content hashes of its inputs, the
//! taxonomy lock, the check version and the injected values, and a key that
//! omits an input is a correctness bug. Every doubtful case fails toward
//! re-running: an input with no digest is not keyed, a record this engine
//! cannot read is a miss, and a cache file that will not parse is an empty
//! cache. A skipped outcome is never stored, because a cache holds verdicts.
use vstd::prelude::*;
use crate::finding::{Finding, Severity};
use crate::instance::{Grain, Input, Outcome, grain_name, input_view};
use crate::gate::{flat, lemma_flat_add, lemma_flat_join};
use crate::context::{all_digits, digits_value};
use crate::text::{
    chars_of, decimal, extend, extend_decimal, extend_str, lex_less, lex_lt, lines_of, pieces,
    same, spells, split_char, string_of, text_lines, views, lemma_lex_asymmetric, join, owned,
    lemma_pieces_nonempty, lemma_pieces_join, lemma_decimal_digits,
    lemma_lex_total, lemma_lex_transitive,
};

verus! {

/// Where a repository keeps the cache, beside the lock that keys it.
pub const CACHE: &'static str = ".headwater/cache/checks";

/// The format of the cache file.
pub const FORMAT: &'static str = "headwater check cache 1";

/// What a run did with its cache. It is a fact about a disk rather than about
/// a corpus, so no report of a verdict carries it.
#[derive(Clone, Copy, Debug, Default, PartialEq, Eq, Structural)]
pub struct Report {
    /// Instances whose outcome came from the cache.
    pub hits: usize,
    /// Instances that were keyed and evaluated.
    pub misses: usize,
    /// Instances that no key covers, so they are evaluated on every run.
    pub unkeyed: usize,
}

/// The one line a caller writes to standard error.
pub open spec fn report_text(r: Report) -> Seq<char> {
    decimal(r.hits as nat) + " served from cache, "@ + decimal(r.misses as nat) + " evaluated, "@
        + decimal(r.unkeyed as nat) + " not keyed\n"@
}

impl Report {
    pub fn render(&self) -> (s: String)
        ensures
            s@ == report_text(*self),
    {
        let mut out: Vec<char> = Vec::new();
        extend_decimal(&mut out, self.hits as u64);
        extend_str(&mut out, " served from cache, ");
        extend_decimal(&mut out, self.misses as u64);
        extend_str(&mut out, " evaluated, ");
        extend_decimal(&mut out, self.unkeyed as u64);
        extend_str(&mut out, " not keyed\n");
        assert(out@ =~= report_text(*self));
        string_of(out.as_slice())
    }
}

/// One character of a field as a record writes it.
pub open spec fn escaped_char(c: char) -> Seq<char> {
    if c == '\\' {
        seq!['\\', '\\']
    } else if c == '\t' {
        seq!['\\', 't']
    } else if c == '\n' {
        seq!['\\', 'n']
    } else {
        seq![c]
    }
}

/// A field with the three characters the record format spends made writable.
pub open spec fn escaped(s: Seq<char>) -> Seq<char>
    decreases s.len(),
{
    if s.len() == 0 {
        Seq::<char>::empty()
    } else {
        escaped_char(s[0]) + escaped(s.skip(1))
    }
}

/// A field read back: `\t`, `\n` and `\\` are the characters they stand for,
/// and any other backslash is kept as written.
pub open spec fn unescaped(s: Seq<char>) -> Seq<char>
    decreases s.len(),
{
    if s.len() == 0 {
        Seq::<char>::empty()
    } else if s[0] != '\\' {
        seq![s[0]] + unescaped(s.skip(1))
    } else if s.len() == 1 {
        seq!['\\']
    } else if s[1] == 't' {
        seq!['\t'] + unescaped(s.skip(2))
    } else if s[1] == 'n' {
        seq!['\n'] + unescaped(s.skip(2))
    } else if s[1] == '\\' {
        seq!['\\'] + unescaped(s.skip(2))
    } else {
        seq!['\\', s[1]] + unescaped(s.skip(2))
    }
}

/// An escaped field reads back as the field it was.
pub proof fn lemma_unescape_escape(s: Seq<char>)
    ensures
        unescaped(escaped(s)) == s,
    decreases s.len(),
{
    if s.len() > 0 {
        lemma_unescape_escape(s.skip(1));
        let e = escaped(s);
        let rest = escaped(s.skip(1));
        assert(e == escaped_char(s[0]) + rest);
        if s[0] == '\\' || s[0] == '\t' || s[0] == '\n' {
            assert(e.skip(2) =~= rest);
        } else {
            assert(e.skip(1) =~= rest);
        }
        assert(s =~= seq![s[0]] + s.skip(1));
    }
}

/// An escaped field holds no tab and no newline.
pub proof fn lemma_escaped_plain(s: Seq<char>)
    ensures
        !escaped(s).contains('\t'),
        !escaped(s).contains('\n'),
    decreases s.len(),
{
    if s.len() > 0 {
        lemma_escaped_plain(s.skip(1));
        let e = escaped(s);
        let head = escaped_char(s[0]);
        let rest = escaped(s.skip(1));
        assert forall|i: int| 0 <= i < e.len() implies e[i] != '\t' && e[i] != '\n' by {
            if i < head.len() {
                assert(e[i] == head[i]);
            } else {
                assert(e[i] == rest[i - head.len()]);
            }
        }
    }
}

/// A field, with the characters the record format spends made writable.
pub fn escape(text: &str) -> (s: String)
    ensures
        s@ == escaped(text@),
{
    let chars = chars_of(text);
    let mut out: Vec<char> = Vec::new();
    let mut i: usize = 0;
    proof {
        assert(chars@.skip(0) =~= chars@);
    }
    while i < chars.len()
        invariant
            i <= chars@.len(),
            chars@ == text@,
            out@ + escaped(chars@.skip(i as int)) == escaped(text@),
        decreases chars@.len() - i,
    {
        let c = chars[i];
        let ghost rest = chars@.skip(i as int);
        assert(rest.skip(1) =~= chars@.skip(i + 1));
        if c == '\\' {
            out.push('\\');
            out.push('\\');
        } else if c == '\t' {
            out.push('\\');
            out.push('t');
        } else if c == '\n' {
            out.push('\\');
            out.push('n');
        } else {
            out.push(c);
        }
        i = i + 1;
        assert(out@ + escaped(chars@.skip(i as int)) =~= escaped(text@));
    }
    assert(chars@.skip(i as int) =~= Seq::<char>::empty());
    assert(out@ =~= escaped(text@));
    string_of(out.as_slice())
}

/// A field read back.
pub fn unescape(text: &str) -> (s: String)
    ensures
        s@ == unescaped(text@),
{
    let chars = chars_of(text);
    unescape_chars(chars.as_slice())
}

/// A field read back, from its characters.
fn unescape_chars(chars: &[char]) -> (s: String)
    ensures
        s@ == unescaped(chars@),
{
    let mut out: Vec<char> = Vec::new();
    let mut i: usize = 0;
    proof {
        assert(chars@.skip(0) =~= chars@);
    }
    while i < chars.len()
        invariant
            i <= chars@.len(),
            out@ + unescaped(chars@.skip(i as int)) == unescaped(chars@),
        decreases chars@.len() - i,
    {
        let c = chars[i];
        let ghost rest = chars@.skip(i as int);
        if c != '\\' {
            out.push(c);
            assert(rest.skip(1) =~= chars@.skip(i + 1));
            i = i + 1;
        } else if i + 1 == chars.len() {
            out.push('\\');
            i = i + 1;
            assert(chars@.skip(i as int) =~= Seq::<char>::empty());
        } else {
            let next = chars[i + 1];
            assert(rest.skip(2) =~= chars@.skip(i + 2));
            if next == 't' {
                out.push('\t');
            } else if next == 'n' {
                out.push('\n');
            } else if next == '\\' {
                out.push('\\');
            } else {
                out.push('\\');
                out.push(next);
            }
            i = i + 2;
        }
        assert(out@ + unescaped(chars@.skip(i as int)) =~= unescaped(chars@));
    }
    assert(chars@.skip(i as int) =~= Seq::<char>::empty());
    assert(out@ =~= unescaped(chars@));
    string_of(out.as_slice())
}

} // verus!

verus! {

/// The word a severity is written as.
pub open spec fn severity_word(s: Severity) -> Seq<char> {
    match s {
        Severity::Error => "error"@,
        Severity::Warn => "warn"@,
        Severity::Info => "info"@,
    }
}

/// The severity a word names, and nothing for any other word.
pub open spec fn severity_named(w: Seq<char>) -> Option<Severity> {
    if w == "error"@ {
        Some(Severity::Error)
    } else if w == "warn"@ {
        Some(Severity::Warn)
    } else if w == "info"@ {
        Some(Severity::Info)
    } else {
        None
    }
}

/// What `usize::from_str` reads a field as: an optional `+`, then digits
/// whose value fits.
pub open spec fn usize_field(s: Seq<char>) -> Option<int> {
    let body = if s.len() > 0 && s[0] == '+' {
        s.skip(1)
    } else {
        s
    };
    if all_digits(body) && digits_value(body) <= usize::MAX {
        Some(digits_value(body))
    } else {
        None
    }
}

fn severity_text(s: Severity) -> (w: &'static str)
    ensures
        w@ == severity_word(s),
{
    match s {
        Severity::Error => "error",
        Severity::Warn => "warn",
        Severity::Info => "info",
    }
}

fn severity_from(w: &[char]) -> (s: Option<Severity>)
    ensures
        s == severity_named(w@),
{
    if spells(w, "error") {
        Some(Severity::Error)
    } else if spells(w, "warn") {
        Some(Severity::Warn)
    } else if spells(w, "info") {
        Some(Severity::Info)
    } else {
        None
    }
}

/// `usize::from_str`.
pub fn parse_usize(s: &[char]) -> (v: Option<usize>)
    ensures
        v matches Some(v) ==> usize_field(s@) == Some(v as int),
        v is None ==> usize_field(s@) is None,
{
    let start: usize = if s.len() > 0 && s[0] == '+' {
        1
    } else {
        0
    };
    let body = &s[start..s.len()];
    let ghost sb = if s@.len() > 0 && s@[0] == '+' {
        s@.skip(1)
    } else {
        s@
    };
    proof {
        if start == 1 {
            assert(body@ =~= s@.skip(1));
        } else {
            assert(body@ =~= s@);
        }
    }
    if body.len() == 0 {
        return None;
    }
    let cap: u128 = (usize::MAX as u128) + 1;
    let mut value: u128 = 0;
    let mut i: usize = 0;
    while i < body.len()
        invariant
            cap == usize::MAX + 1,
            body@ == sb,
            sb == if s@.len() > 0 && s@[0] == '+' {
                s@.skip(1)
            } else {
                s@
            },
            i <= body@.len(),
            forall|k: int| 0 <= k < i ==> '0' <= #[trigger] body@[k] <= '9',
            value <= cap,
            value == if digits_value(body@.take(i as int)) < cap {
                digits_value(body@.take(i as int))
            } else {
                cap as int
            },
            digits_value(body@.take(i as int)) >= 0,
        decreases body@.len() - i,
    {
        let c = body[i];
        if c < '0' || c > '9' {
            proof {
                assert(!('0' <= sb[i as int] <= '9'));
                assert(!all_digits(sb));
                assert(usize_field(s@) is None);
            }
            return None;
        }
        assert(body@.take(i + 1).drop_last() =~= body@.take(i as int));
        let d = (c as u128) - ('0' as u128);
        if value >= cap {
            value = cap;
        } else {
            value = value * 10 + d;
            if value > cap {
                value = cap;
            }
        }
        i = i + 1;
    }
    assert(body@.take(i as int) =~= body@);
    if value < cap {
        Some(value as usize)
    } else {
        None
    }
}

} // verus!

verus! {

/// The seven fields one finding is written as. The rule is not written,
/// because the key already fixes it, and neither is the obligation, which the
/// runner stamps from the control that names the rule.
pub open spec fn finding_fields(f: Finding) -> Seq<Seq<char>> {
    seq![
        severity_word(f.severity),
        decimal(f.line as nat),
        decimal(f.column as nat),
        "false"@,
        escaped(f.path@),
        escaped(f.message@),
        escaped(f.remediation@),
    ]
}

/// The fields of each finding in turn.
pub open spec fn findings_fields(v: Seq<Finding>) -> Seq<Seq<char>>
    decreases v.len(),
{
    if v.len() == 0 {
        Seq::<Seq<char>>::empty()
    } else {
        findings_fields(v.drop_last()) + finding_fields(v.last())
    }
}

/// Findings a record can hold: at least one, and none carrying a patch, which
/// no record has a field for.
pub open spec fn storable(v: Seq<Finding>) -> bool {
    v.len() > 0 && forall|i: int| 0 <= i < v.len() ==> (#[trigger] v[i]).patch is None
}

/// The fields of the record an outcome is stored as, and nothing for an
/// outcome a cache does not hold.
pub open spec fn record_fields(o: Outcome) -> Option<Seq<Seq<char>>> {
    match o {
        Outcome::Passed => Some(seq!["passed"@]),
        Outcome::Skipped(_) => None,
        Outcome::Failed(v) => if storable(v@) {
            Some(seq!["failed"@] + findings_fields(v@))
        } else {
            None
        },
    }
}

/// The record an outcome is stored as: its fields, one tab between each two.
pub open spec fn record_of(o: Outcome) -> Option<Seq<char>> {
    match record_fields(o) {
        Some(f) => Some(join(f, seq!['\t'])),
        None => None,
    }
}

/// The `k`th run of seven fields after the first.
pub open spec fn group(f: Seq<Seq<char>>, k: int) -> Seq<Seq<char>> {
    f.subrange(1 + 7 * k, 8 + 7 * k)
}

/// Seven fields this engine can read a finding from.
pub open spec fn group_readable(g: Seq<Seq<char>>) -> bool {
    &&& severity_named(g[0]) is Some
    &&& usize_field(g[1]) is Some
    &&& usize_field(g[2]) is Some
    &&& g[3] == "false"@
}

/// The fields of a record this engine can read: `passed` alone, or `failed`
/// and one or more runs of seven fields, each readable.
pub open spec fn readable(f: Seq<Seq<char>>) -> bool {
    ||| f.len() == 1 && f[0] == "passed"@
    ||| f.len() > 1 && f[0] == "failed"@ && (f.len() - 1) % 7 == 0 && forall|k: int|
        0 <= k < (f.len() - 1) / 7 ==> group_readable(#[trigger] group(f, k))
}

/// The finding a run of seven fields reads as, under the rule the key fixed.
pub open spec fn read_as(rule: &'static str, g: Seq<Seq<char>>, x: Finding) -> bool {
    &&& x.rule == rule
    &&& severity_named(g[0]) == Some(x.severity)
    &&& usize_field(g[1]) == Some(x.line as int)
    &&& usize_field(g[2]) == Some(x.column as int)
    &&& x.path@ == unescaped(g[4])
    &&& x.message@ == unescaped(g[5])
    &&& x.remediation@ == unescaped(g[6])
    &&& x.obligation is None
    &&& x.patch is None
}

/// A longer list joins as the shorter one, a separator, and the new part.
pub proof fn lemma_join_push(parts: Seq<Seq<char>>, x: Seq<char>, sep: Seq<char>)
    requires
        parts.len() >= 1,
    ensures
        join(parts.push(x), sep) == join(parts, sep) + sep + x,
{
    assert(parts.push(x).drop_last() =~= parts);
}

/// `out` with a tab and `field` after it.
fn push_field(out: &mut Vec<char>, field: &[char], Ghost(parts): Ghost<Seq<Seq<char>>>)
    requires
        parts.len() >= 1,
        old(out)@ == join(parts, seq!['\t']),
    ensures
        final(out)@ == join(parts.push(field@), seq!['\t']),
{
    proof {
        lemma_join_push(parts, field@, seq!['\t']);
    }
    out.push('\t');
    extend(out, field);
    assert(out@ =~= join(parts, seq!['\t']) + seq!['\t'] + field@);
}

/// `out` with the seven fields of one finding after it.
fn push_finding(out: &mut Vec<char>, f: &Finding, Ghost(parts): Ghost<Seq<Seq<char>>>)
    requires
        parts.len() >= 1,
        old(out)@ == join(parts, seq!['\t']),
    ensures
        final(out)@ == join(parts + finding_fields(*f), seq!['\t']),
{
    let ghost ff = finding_fields(*f);
    let w = chars_of(severity_text(f.severity));
    push_field(out, w.as_slice(), Ghost(parts));
    let ghost p1 = parts.push(ff[0]);
    let mut n: Vec<char> = Vec::new();
    extend_decimal(&mut n, f.line as u64);
    push_field(out, n.as_slice(), Ghost(p1));
    let ghost p2 = p1.push(ff[1]);
    let mut c: Vec<char> = Vec::new();
    extend_decimal(&mut c, f.column as u64);
    push_field(out, c.as_slice(), Ghost(p2));
    let ghost p3 = p2.push(ff[2]);
    let no = chars_of("false");
    push_field(out, no.as_slice(), Ghost(p3));
    let ghost p4 = p3.push(ff[3]);
    let path = escape(f.path.as_str());
    let path_chars = chars_of(path.as_str());
    push_field(out, path_chars.as_slice(), Ghost(p4));
    let ghost p5 = p4.push(ff[4]);
    let message = escape(f.message.as_str());
    let message_chars = chars_of(message.as_str());
    push_field(out, message_chars.as_slice(), Ghost(p5));
    let ghost p6 = p5.push(ff[5]);
    let remediation = escape(f.remediation.as_str());
    let remediation_chars = chars_of(remediation.as_str());
    push_field(out, remediation_chars.as_slice(), Ghost(p6));
    assert(p6.push(ff[6]) =~= parts + ff);
}

/// One outcome as a record, and nothing for an outcome a cache does not
/// hold: a skip, which is decided again on every run, and a finding whose
/// patch no record can carry.
pub fn encode(outcome: &Outcome) -> (r: Option<String>)
    ensures
        match r {
            Some(s) => record_of(*outcome) == Some(s@),
            None => record_of(*outcome) is None,
        },
{
    match outcome {
        Outcome::Passed => {
            let s = owned("passed");
            proof {
                assert(join(seq!["passed"@], seq!['\t']) == "passed"@);
            }
            Some(s)
        },
        Outcome::Skipped(_) => None,
        Outcome::Failed(findings) => {
            if findings.len() == 0 {
                return None;
            }
            let mut k: usize = 0;
            while k < findings.len()
                invariant
                    *outcome == Outcome::Failed(*findings),
                    k <= findings@.len(),
                    forall|i: int| 0 <= i < k ==> (#[trigger] findings@[i]).patch is None,
                decreases findings@.len() - k,
            {
                if findings[k].patch.is_some() {
                    assert(findings@[k as int].patch is Some);
                    return None;
                }
                k = k + 1;
            }
            let mut out: Vec<char> = chars_of("failed");
            proof {
                assert(findings@.take(0) =~= Seq::<Finding>::empty());
                assert(seq!["failed"@] + findings_fields(findings@.take(0)) =~= seq!["failed"@]);
            }
            let mut i: usize = 0;
            while i < findings.len()
                invariant
                    i <= findings@.len(),
                    out@ == join(seq!["failed"@] + findings_fields(findings@.take(i as int)), seq!['\t']),
                decreases findings@.len() - i,
            {
                let ghost parts = seq!["failed"@] + findings_fields(findings@.take(i as int));
                push_finding(&mut out, &findings[i], Ghost(parts));
                proof {
                    assert(findings@.take(i + 1).drop_last() =~= findings@.take(i as int));
                    assert(parts + finding_fields(findings@[i as int]) =~= seq!["failed"@]
                        + findings_fields(findings@.take(i + 1)));
                }
                i = i + 1;
            }
            assert(findings@.take(i as int) =~= findings@);
            Some(string_of(out.as_slice()))
        },
    }
}

} // verus!

verus! {

/// What a record reads back as under a rule: nothing for fields this engine
/// cannot read, a pass for `passed` alone, and otherwise the findings of each
/// run of seven fields in turn.
pub open spec fn decoded(rule: &'static str, record: Seq<char>, r: Option<Outcome>) -> bool {
    let f = pieces(record, '\t');
    match r {
        None => !readable(f),
        Some(Outcome::Passed) => f.len() == 1 && f[0] == "passed"@,
        Some(Outcome::Failed(v)) => {
            &&& readable(f)
            &&& f[0] == "failed"@
            &&& v@.len() == (f.len() - 1) / 7
            &&& forall|k: int| 0 <= k < v@.len() ==> read_as(rule, group(f, k), #[trigger] v@[k])
        },
        Some(Outcome::Skipped(_)) => false,
    }
}

/// One record as an outcome, and nothing for a record this engine cannot
/// read: a later format, a truncated record, a corrupted field, or one field
/// too many are each a miss rather than a wrong answer.
pub fn decode(rule: &'static str, record: &str) -> (r: Option<Outcome>)
    ensures
        decoded(rule, record@, r),
{
    let chars = chars_of(record);
    let fields = split_char(chars.as_slice(), '\t');
    let ghost f = pieces(record@, '\t');
    proof {
        lemma_pieces_nonempty(record@, '\t');
        reveal_strlit("passed");
        reveal_strlit("failed");
        assert(views(fields@)[0] == fields@[0]@);
        assert("passed"@[0] != "failed"@[0]);
    }
    if spells(fields[0].as_slice(), "passed") {
        if fields.len() == 1 {
            return Some(Outcome::Passed);
        } else {
            return None;
        }
    }
    if !spells(fields[0].as_slice(), "failed") {
        return None;
    }
    if fields.len() == 1 || (fields.len() - 1) % 7 != 0 {
        return None;
    }
    let n: usize = (fields.len() - 1) / 7;
    let mut out: Vec<Finding> = Vec::new();
    let mut j: usize = 1;
    while j < fields.len()
        invariant
            views(fields@) == f,
            f == pieces(record@, '\t'),
            f.len() > 1,
            f[0] == "failed"@,
            n == (f.len() - 1) / 7,
            f.len() == 1 + 7 * n,
            j == 1 + 7 * out@.len(),
            j <= f.len(),
            forall|k: int| 0 <= k < out@.len() ==> group_readable(#[trigger] group(f, k)),
            forall|k: int| 0 <= k < out@.len() ==> read_as(rule, group(f, k), #[trigger] out@[k]),
        decreases f.len() - j,
    {
        let ghost k = out@.len() as int;
        let ghost g = group(f, k);
        assert(j + 7 <= f.len());
        assert(g[0] == fields@[j as int]@);
        assert(g[1] == fields@[j + 1]@);
        assert(g[2] == fields@[j + 2]@);
        assert(g[3] == fields@[j + 3]@);
        assert(g[4] == fields@[j + 4]@);
        assert(g[5] == fields@[j + 5]@);
        assert(g[6] == fields@[j + 6]@);
        let severity = match severity_from(fields[j].as_slice()) {
            Some(s) => s,
            None => {
                assert(!readable(f));
                return None;
            },
        };
        let line = match parse_usize(fields[j + 1].as_slice()) {
            Some(v) => v,
            None => {
                assert(!readable(f));
                return None;
            },
        };
        let column = match parse_usize(fields[j + 2].as_slice()) {
            Some(v) => v,
            None => {
                assert(!readable(f));
                return None;
            },
        };
        if !spells(fields[j + 3].as_slice(), "false") {
            assert(!readable(f));
            return None;
        }
        let finding = Finding {
            rule,
            severity,
            obligation: None,
            path: unescape_chars(fields[j + 4].as_slice()),
            line,
            column,
            message: unescape_chars(fields[j + 5].as_slice()),
            remediation: unescape_chars(fields[j + 6].as_slice()),
            patch: None,
        };
        assert(group_readable(g));
        assert(read_as(rule, g, finding));
        out.push(finding);
        j = j + 7;
    }
    assert(out@.len() == n);
    Some(Outcome::Failed(out))
}

} // verus!

verus! {

/// A stored entry as characters: a key and the record under it.
pub open spec fn entries_view(v: Seq<(String, String)>) -> Seq<(Seq<char>, Seq<char>)> {
    v.map_values(|e: (String, String)| (e.0@, e.1@))
}

/// Entries held in strictly ascending key order, so no key is held twice.
pub open spec fn keys_sorted(v: Seq<(Seq<char>, Seq<char>)>) -> bool {
    forall|i: int, j: int| 0 <= i < j < v.len() ==> lex_lt(#[trigger] v[i].0, #[trigger] v[j].0)
}

/// The record a list of entries holds under a key: the last entry with that
/// key wins, as it does when entries are collected into a map in order.
pub open spec fn lookup(v: Seq<(Seq<char>, Seq<char>)>, k: Seq<char>) -> Option<Seq<char>>
    decreases v.len(),
{
    if v.len() == 0 {
        None
    } else if v.last().0 == k {
        Some(v.last().1)
    } else {
        lookup(v.drop_last(), k)
    }
}

/// A key no entry holds looks up nothing.
pub proof fn lemma_lookup_absent(v: Seq<(Seq<char>, Seq<char>)>, k: Seq<char>)
    requires
        forall|i: int| 0 <= i < v.len() ==> (#[trigger] v[i]).0 != k,
    ensures
        lookup(v, k) is None,
    decreases v.len(),
{
    if v.len() > 0 {
        assert(v[v.len() - 1].0 != k);
        lemma_lookup_absent(v.drop_last(), k);
    }
}

/// A key held at one place and at none after it looks up the record there.
pub proof fn lemma_lookup_at(v: Seq<(Seq<char>, Seq<char>)>, k: Seq<char>, i: int)
    requires
        0 <= i < v.len(),
        v[i].0 == k,
        forall|j: int| i < j < v.len() ==> (#[trigger] v[j]).0 != k,
    ensures
        lookup(v, k) == Some(v[i].1),
    decreases v.len(),
{
    if i < v.len() - 1 {
        assert(v[v.len() - 1].0 != k);
        lemma_lookup_at(v.drop_last(), k, i);
    }
}

/// In sorted entries a key looks up the one record it is held with, and
/// nothing when no entry holds it.
pub proof fn lemma_lookup_sorted(v: Seq<(Seq<char>, Seq<char>)>, k: Seq<char>)
    requires
        keys_sorted(v),
    ensures
        forall|i: int| 0 <= i < v.len() && (#[trigger] v[i]).0 == k ==> lookup(v, k) == Some(v[i].1),
        (forall|i: int| 0 <= i < v.len() ==> (#[trigger] v[i]).0 != k) ==> lookup(v, k) is None,
{
    assert forall|i: int| 0 <= i < v.len() && (#[trigger] v[i]).0 == k implies lookup(v, k) == Some(
        v[i].1,
    ) by {
        assert forall|j: int| i < j < v.len() implies (#[trigger] v[j]).0 != k by {
            assert(lex_lt(v[i].0, v[j].0));
            lemma_lex_asymmetric(v[i].0, v[j].0);
        }
        lemma_lookup_at(v, k, i);
    }
    if forall|i: int| 0 <= i < v.len() ==> (#[trigger] v[i]).0 != k {
        lemma_lookup_absent(v, k);
    }
}

/// The record stored under a key, found from the end so that the last entry
/// with the key wins.
fn find<'a>(entries: &'a Vec<(String, String)>, key: &[char]) -> (r: Option<&'a String>)
    ensures
        match r {
            Some(s) => lookup(entries_view(entries@), key@) == Some(s@),
            None => lookup(entries_view(entries@), key@) is None,
        },
{
    let ghost v = entries_view(entries@);
    let mut i: usize = entries.len();
    assert(v.take(i as int) =~= v);
    while i > 0
        invariant
            v == entries_view(entries@),
            i <= entries@.len(),
            lookup(v, key@) == lookup(v.take(i as int), key@),
        decreases i,
    {
        let k = chars_of(entries[i - 1].0.as_str());
        assert(v.take(i as int).drop_last() =~= v.take(i - 1));
        if same(k.as_slice(), key) {
            return Some(&entries[i - 1].1);
        }
        i = i - 1;
    }
    None
}

/// `entries` with `record` under `key`: the entry with that key replaced, or
/// a new one where the order puts it.
fn put(entries: &mut Vec<(String, String)>, key: String, record: String)
    requires
        keys_sorted(entries_view(old(entries)@)),
    ensures
        keys_sorted(entries_view(final(entries)@)),
        forall|k: Seq<char>|
            #[trigger] lookup(entries_view(final(entries)@), k) == if k == key@ {
                Some(record@)
            } else {
                lookup(entries_view(old(entries)@), k)
            },
{
    let ghost v = entries_view(entries@);
    let key_chars = chars_of(key.as_str());
    let mut p: usize = 0;
    while p < entries.len() && lex_less(chars_of(entries[p].0.as_str()).as_slice(), key_chars.as_slice())
        invariant
            v == entries_view(entries@),
            key_chars@ == key@,
            p <= entries@.len(),
            forall|i: int| 0 <= i < p ==> lex_lt(#[trigger] v[i].0, key@),
        decreases entries@.len() - p,
    {
        p = p + 1;
    }
    let ghost (nk, nr) = (key@, record@);
    if p < entries.len() && same(chars_of(entries[p].0.as_str()).as_slice(), key_chars.as_slice()) {
        entries.set(p, (key, record));
        let ghost w = entries_view(entries@);
        assert(w =~= v.update(p as int, (nk, nr)));
        assert forall|i: int, j: int| 0 <= i < j < w.len() implies lex_lt(#[trigger] w[i].0, #[trigger] w[j].0) by {
            assert(w[i].0 == v[i].0);
            assert(w[j].0 == v[j].0);
        }
        assert forall|k: Seq<char>| #[trigger] lookup(w, k) == if k == nk {
            Some(nr)
        } else {
            lookup(v, k)
        } by {
            lemma_lookup_sorted(v, k);
            lemma_lookup_sorted(w, k);
            if k != nk {
                if exists|i: int| 0 <= i < v.len() && v[i].0 == k {
                    let i = choose|i: int| 0 <= i < v.len() && v[i].0 == k;
                    assert(w[i] == v[i]);
                } else {
                    assert forall|i: int| 0 <= i < w.len() implies (#[trigger] w[i]).0 != k by {
                        assert(v[i].0 != k);
                    }
                }
            } else {
                assert(w[p as int].0 == k);
            }
        }
    } else {
        proof {
            if p < v.len() {
                lemma_lex_total(v[p as int].0, nk);
            }
        }
        entries.insert(p, (key, record));
        let ghost w = entries_view(entries@);
        assert(w =~= v.insert(p as int, (nk, nr)));
        assert forall|j: int| p < j < w.len() implies lex_lt(nk, #[trigger] w[j].0) by {
            assert(w[j] == v[j - 1]);
            if j - 1 > p {
                assert(lex_lt(v[p as int].0, v[j - 1].0));
                lemma_lex_transitive(nk, v[p as int].0, v[j - 1].0);
            }
        }
        assert forall|i: int, j: int| 0 <= i < j < w.len() implies lex_lt(#[trigger] w[i].0, #[trigger] w[j].0) by {
            if j < p {
                assert(w[i] == v[i] && w[j] == v[j]);
            } else if j == p {
                assert(w[i] == v[i]);
            } else if i == p {
            } else if i < p {
                assert(w[i] == v[i]);
                assert(lex_lt(nk, w[j].0));
                lemma_lex_transitive(w[i].0, nk, w[j].0);
            } else {
                assert(w[i] == v[i - 1] && w[j] == v[j - 1]);
            }
        }
        assert forall|k: Seq<char>| #[trigger] lookup(w, k) == if k == nk {
            Some(nr)
        } else {
            lookup(v, k)
        } by {
            lemma_lookup_sorted(v, k);
            lemma_lookup_sorted(w, k);
            if k != nk {
                if exists|i: int| 0 <= i < v.len() && v[i].0 == k {
                    let i = choose|i: int| 0 <= i < v.len() && v[i].0 == k;
                    if i < p {
                        assert(w[i] == v[i]);
                    } else {
                        assert(w[i + 1] == v[i]);
                    }
                } else {
                    assert forall|i: int| 0 <= i < w.len() implies (#[trigger] w[i]).0 != k by {
                        if i < p {
                            assert(w[i] == v[i]);
                        } else if i > p {
                            assert(w[i] == v[i - 1]);
                        }
                    }
                }
            } else {
                assert(w[p as int].0 == k);
            }
        }
    }
}

} // verus!

verus! {

/// Whether `i` is where the first tab of a line stands.
pub open spec fn first_tab_at(line: Seq<char>, i: int) -> bool {
    &&& 0 <= i < line.len()
    &&& line[i] == '\t'
    &&& forall|m: int| 0 <= m < i ==> line[m] != '\t'
}

/// The entry one line of the file holds, which is `str::split_once('\t')`:
/// the key before the first tab and the record after it, and nothing for a
/// line with no tab.
pub open spec fn entry_of(line: Seq<char>) -> Option<(Seq<char>, Seq<char>)> {
    if exists|i: int| first_tab_at(line, i) {
        let i = choose|i: int| first_tab_at(line, i);
        Some((line.take(i), line.skip(i + 1)))
    } else {
        None
    }
}

/// The entries of the lines after the first, in order, each line this reader
/// cannot make sense of dropped.
pub open spec fn entries_in(lines: Seq<Seq<char>>) -> Seq<(Seq<char>, Seq<char>)>
    decreases lines.len(),
{
    if lines.len() == 0 {
        Seq::<(Seq<char>, Seq<char>)>::empty()
    } else {
        let before = entries_in(lines.drop_last());
        match entry_of(lines.last()) {
            Some(e) => before.push(e),
            None => before,
        }
    }
}

/// The entries a cache file holds: none unless its first line names this
/// format.
pub open spec fn file_entries(text: Seq<char>) -> Seq<(Seq<char>, Seq<char>)> {
    let ls = text_lines(text);
    if ls.len() > 0 && ls[0] == FORMAT@ {
        entries_in(ls.skip(1))
    } else {
        Seq::<(Seq<char>, Seq<char>)>::empty()
    }
}

/// The entry of one line, found by a scan for its first tab.
fn split_entry(line: &[char]) -> (r: Option<(String, String)>)
    ensures
        match r {
            Some(e) => entry_of(line@) == Some((e.0@, e.1@)),
            None => entry_of(line@) is None,
        },
{
    let mut i: usize = 0;
    while i < line.len() && line[i] != '\t'
        invariant
            i <= line@.len(),
            forall|m: int| 0 <= m < i ==> line@[m] != '\t',
        decreases line@.len() - i,
    {
        i = i + 1;
    }
    if i == line.len() {
        assert(!exists|t: int| first_tab_at(line@, t));
        return None;
    }
    assert(first_tab_at(line@, i as int));
    proof {
        let c = choose|t: int| first_tab_at(line@, t);
        if c < i {
            assert(line@[c] != '\t');
        }
        if c > i {
            assert(line@[i as int] != '\t');
        }
        assert(c == i);
    }
    let key = string_of(&line[0..i]);
    let record = string_of(&line[i + 1..line.len()]);
    assert(line@.subrange(0, i as int) =~= line@.take(i as int));
    assert(line@.subrange(i + 1, line@.len() as int) =~= line@.skip(i + 1));
    Some((key, record))
}

/// The file as entries, in key order: a file another engine wrote is no
/// entries, and a line with no tab is dropped, which costs one evaluation and
/// can never change a verdict.
pub fn read(text: &str) -> (r: Vec<(String, String)>)
    ensures
        keys_sorted(entries_view(r@)),
        forall|k: Seq<char>| #[trigger] lookup(entries_view(r@), k) == lookup(file_entries(text@), k),
{
    let chars = chars_of(text);
    let lines = lines_of(chars.as_slice());
    let mut out: Vec<(String, String)> = Vec::new();
    proof {
        assert(entries_view(out@) =~= Seq::<(Seq<char>, Seq<char>)>::empty());
    }
    if lines.len() == 0 || !spells(lines[0].as_slice(), FORMAT) {
        proof {
            if lines@.len() > 0 {
                assert(views(lines@)[0] == lines@[0]@);
            }
            assert(file_entries(text@) =~= Seq::<(Seq<char>, Seq<char>)>::empty());
        }
        return out;
    }
    let ghost ls = text_lines(text@);
    proof {
        assert(views(lines@)[0] == lines@[0]@);
        assert(ls.skip(1).take(0) =~= Seq::<Seq<char>>::empty());
    }
    let mut i: usize = 1;
    while i < lines.len()
        invariant
            views(lines@) == ls,
            ls == text_lines(text@),
            ls.len() > 0,
            ls[0] == FORMAT@,
            1 <= i <= ls.len(),
            keys_sorted(entries_view(out@)),
            forall|k: Seq<char>| #[trigger] lookup(entries_view(out@), k) == lookup(
                entries_in(ls.skip(1).take(i - 1)),
                k,
            ),
        decreases ls.len() - i,
    {
        let ghost before = entries_in(ls.skip(1).take(i - 1));
        let ghost prior = entries_view(out@);
        assert(ls.skip(1).take(i as int).drop_last() =~= ls.skip(1).take(i - 1));
        assert(ls.skip(1).take(i as int).last() == lines@[i as int]@);
        match split_entry(lines[i].as_slice()) {
            Some((key, record)) => {
                let ghost e = (key@, record@);
                put(&mut out, key, record);
                let ghost after = entries_in(ls.skip(1).take(i as int));
                assert(after == before.push(e));
                assert(after.drop_last() =~= before);
                assert forall|k: Seq<char>| #[trigger] lookup(entries_view(out@), k) == lookup(
                    after,
                    k,
                ) by {
                    assert(lookup(prior, k) == lookup(before, k));
                }
            },
            None => {
                assert(entries_in(ls.skip(1).take(i as int)) == before);
            },
        }
        i = i + 1;
    }
    assert(ls.skip(1).take(i - 1) =~= ls.skip(1));
    out
}

} // verus!

verus! {

/// The inputs of an instance as characters: each path, and its digest where
/// the walk read one.
pub open spec fn inputs_view(reads: Seq<Input>) -> Seq<(Seq<char>, Option<Seq<char>>)> {
    reads.map_values(|i: Input| input_view(i))
}

/// Whether every input carries a digest.
pub open spec fn all_digested(reads: Seq<(Seq<char>, Option<Seq<char>>)>) -> bool {
    forall|i: int| 0 <= i < reads.len() ==> (#[trigger] reads[i]).1 is Some
}

/// The input lines of a key, one per input, each path escaped.
pub open spec fn input_lines(reads: Seq<(Seq<char>, Option<Seq<char>>)>) -> Seq<char>
    decreases reads.len(),
{
    if reads.len() == 0 {
        Seq::<char>::empty()
    } else {
        input_lines(reads.drop_last()) + "input "@ + escaped(reads.last().0) + " "@
            + reads.last().1.unwrap() + "\n"@
    }
}

/// The text a key is made of: the lock, the rule, its version, the scope, the
/// target and every input with its digest, each on a line of its own. A target
/// or a path is corpus content, so it is escaped, and a newline inside one
/// cannot write a line of this text.
pub open spec fn key_text(
    lock: Seq<char>,
    rule: Seq<char>,
    version: u32,
    grain: Grain,
    body: bool,
    target: Seq<char>,
    reads: Seq<(Seq<char>, Option<Seq<char>>)>,
) -> Seq<char> {
    "headwater check key 1\n"@ + "lock "@ + lock + "\n"@ + "rule "@ + rule + "\n"@ + "version "@
        + decimal(version as nat) + "\n"@ + "scope "@ + grain_name(grain) + " body="@ + (if body {
        "true"@
    } else {
        "false"@
    }) + "\n"@ + "target "@ + escaped(target) + "\n"@ + input_lines(reads)
}

/// The cache of one run.
#[derive(Clone, Debug)]
pub struct Cache {
    /// The lock digest every key carries, and `None` when this cache is off.
    lock: Option<String>,
    /// What was on disk when the run started.
    found: Vec<(String, String)>,
    /// What this run keyed, and the only thing the file is written from.
    used: Vec<(String, String)>,
    report: Report,
}

impl Cache {
    /// The lock that keys this cache, and nothing for a cache that is off.
    pub closed spec fn lock_view(&self) -> Option<Seq<char>> {
        match self.lock {
            Some(l) => Some(l@),
            None => None,
        }
    }

    /// The entries the file held when the run started.
    pub closed spec fn found_view(&self) -> Seq<(Seq<char>, Seq<char>)> {
        entries_view(self.found@)
    }

    /// The entries this run keyed.
    pub closed spec fn used_view(&self) -> Seq<(Seq<char>, Seq<char>)> {
        entries_view(self.used@)
    }

    pub closed spec fn report_view(&self) -> Report {
        self.report
    }

    /// Both lists of entries held in key order.
    pub closed spec fn wf(&self) -> bool {
        keys_sorted(entries_view(self.found@)) && keys_sorted(entries_view(self.used@))
    }

    /// A cache that keys nothing and stores nothing.
    pub fn disabled() -> (c: Self)
        ensures
            c.wf(),
            c.lock_view() is None,
            c.found_view().len() == 0,
            c.used_view().len() == 0,
            c.report_view() == (Report { hits: 0, misses: 0, unkeyed: 0 }),
    {
        let c = Cache {
            lock: None,
            found: Vec::new(),
            used: Vec::new(),
            report: Report { hits: 0, misses: 0, unkeyed: 0 },
        };
        assert(entries_view(c.found@) =~= Seq::<(Seq<char>, Seq<char>)>::empty());
        assert(entries_view(c.used@) =~= Seq::<(Seq<char>, Seq<char>)>::empty());
        c
    }

    /// The cache of a repository, against the taxonomy lock that keys it, from
    /// the text of its file where there is one. A file that is absent or
    /// written by another engine is an empty cache.
    pub fn keyed(lock: &str, file: Option<&str>) -> (c: Self)
        ensures
            c.wf(),
            c.lock_view() == Some(lock@),
            forall|k: Seq<char>| #[trigger] lookup(c.found_view(), k) == match file {
                Some(t) => lookup(file_entries(t@), k),
                None => None,
            },
            c.used_view().len() == 0,
            c.report_view() == (Report { hits: 0, misses: 0, unkeyed: 0 }),
    {
        let found = match file {
            Some(t) => read(t),
            None => Vec::new(),
        };
        proof {
            if file is None {
                assert(entries_view(found@) =~= Seq::<(Seq<char>, Seq<char>)>::empty());
            }
        }
        let c = Cache {
            lock: Some(owned(lock)),
            found,
            used: Vec::new(),
            report: Report { hits: 0, misses: 0, unkeyed: 0 },
        };
        assert(entries_view(c.used@) =~= Seq::<(Seq<char>, Seq<char>)>::empty());
        c
    }

    /// What this run did with its cache so far.
    pub fn report(&self) -> (r: Report)
        ensures
            r == self.report_view(),
    {
        self.report
    }

    /// The key of one instance, and nothing when one cannot be computed: a
    /// cache that is off keys nothing, and an input with no digest is never
    /// keyed on a hash that does not exist. The key is the key text itself,
    /// escaped onto one line, so two instances share a key exactly when every
    /// component of their texts agrees.
    pub fn key(
        &self,
        rule: &str,
        version: u32,
        grain: Grain,
        needs_body: bool,
        target: &str,
        reads: &[Input],
    ) -> (k: Option<String>)
        ensures
            match k {
                Some(s) => {
                    &&& self.lock_view() is Some
                    &&& all_digested(inputs_view(reads@))
                    &&& s@ == escaped(
                        key_text(
                            self.lock_view().unwrap(),
                            rule@,
                            version,
                            grain,
                            needs_body,
                            target@,
                            inputs_view(reads@),
                        ),
                    )
                },
                None => self.lock_view() is None || !all_digested(inputs_view(reads@)),
            },
    {
        let lock = match &self.lock {
            Some(l) => l,
            None => return None,
        };
        let mut text: Vec<char> = chars_of("headwater check key 1\n");
        extend_str(&mut text, "lock ");
        extend_str(&mut text, lock.as_str());
        extend_str(&mut text, "\n");
        extend_str(&mut text, "rule ");
        extend_str(&mut text, rule);
        extend_str(&mut text, "\n");
        extend_str(&mut text, "version ");
        extend_decimal(&mut text, version as u64);
        extend_str(&mut text, "\n");
        extend_str(&mut text, "scope ");
        extend_str(&mut text, grain.name());
        extend_str(&mut text, " body=");
        if needs_body {
            extend_str(&mut text, "true");
        } else {
            extend_str(&mut text, "false");
        }
        extend_str(&mut text, "\n");
        extend_str(&mut text, "target ");
        let t = escape(target);
        extend_str(&mut text, t.as_str());
        extend_str(&mut text, "\n");
        let ghost head = text@;
        let ghost rv = inputs_view(reads@);
        proof {
            assert(rv.take(0) =~= Seq::<(Seq<char>, Option<Seq<char>>)>::empty());
            assert(text@ =~= head + input_lines(rv.take(0)));
        }
        let mut i: usize = 0;
        while i < reads.len()
            invariant
                rv == inputs_view(reads@),
                i <= reads@.len(),
                text@ == head + input_lines(rv.take(i as int)),
                forall|m: int| 0 <= m < i ==> (#[trigger] rv[m]).1 is Some,
            decreases reads@.len() - i,
        {
            let digest = match &reads[i].digest {
                Some(d) => d,
                None => {
                    assert(rv[i as int].1 is None);
                    return None;
                },
            };
            extend_str(&mut text, "input ");
            let p = escape(reads[i].path.as_str());
            extend_str(&mut text, p.as_str());
            extend_str(&mut text, " ");
            extend_str(&mut text, digest.as_str());
            extend_str(&mut text, "\n");
            proof {
                assert(rv.take(i + 1).drop_last() =~= rv.take(i as int));
                assert(rv[i as int] == input_view(reads@[i as int]));
            }
            i = i + 1;
            assert(text@ =~= head + input_lines(rv.take(i as int)));
        }
        assert(rv.take(i as int) =~= rv);
        let whole = string_of(text.as_slice());
        assert(whole@ =~= key_text(
            self.lock_view().unwrap(),
            rule@,
            version,
            grain,
            needs_body,
            target@,
            rv,
        ));
        Some(escape(whole.as_str()))
    }
}

} // verus!

verus! {

/// The lines of a cache file: the format, then each entry as its key, a tab
/// and its record.
pub open spec fn file_text(v: Seq<(Seq<char>, Seq<char>)>) -> Seq<char>
    decreases v.len(),
{
    if v.len() == 0 {
        FORMAT@ + "\n"@
    } else {
        file_text(v.drop_last()) + v.last().0 + "\t"@ + v.last().1 + "\n"@
    }
}

impl Cache {
    /// What the file should hold after this run, and nothing for a cache that
    /// is off. Only what this run used is written, in key order, so the file
    /// is a function of the corpus rather than a pile that grows.
    pub fn text(&self) -> (t: Option<String>)
        ensures
            match t {
                Some(s) => self.lock_view() is Some && s@ == file_text(self.used_view()),
                None => self.lock_view() is None,
            },
    {
        if self.lock.is_none() {
            return None;
        }
        let ghost v = self.used_view();
        let mut out: Vec<char> = chars_of(FORMAT);
        extend_str(&mut out, "\n");
        assert(v.take(0) =~= Seq::<(Seq<char>, Seq<char>)>::empty());
        let mut i: usize = 0;
        while i < self.used.len()
            invariant
                v == entries_view(self.used@),
                i <= self.used@.len(),
                out@ == file_text(v.take(i as int)),
            decreases self.used@.len() - i,
        {
            extend_str(&mut out, self.used[i].0.as_str());
            extend_str(&mut out, "\t");
            extend_str(&mut out, self.used[i].1.as_str());
            extend_str(&mut out, "\n");
            assert(v.take(i + 1).drop_last() =~= v.take(i as int));
            i = i + 1;
        }
        assert(v.take(i as int) =~= v);
        Some(string_of(out.as_slice()))
    }

    /// The outcome of one instance, from this cache or from the check. The
    /// closure is what runs when the cache cannot answer, and it is the only
    /// place a check is called, so the cached path and the fresh path give one
    /// value of one type. A record is served only when it reads back; a skip is
    /// never stored and counts as not keyed.
    pub fn outcome<F: FnOnce() -> Outcome>(
        &mut self,
        rule: &'static str,
        key: Option<String>,
        evaluate: F,
    ) -> (o: Outcome)
        requires
            old(self).wf(),
            evaluate.requires(()),
            old(self).report_view().hits < usize::MAX,
            old(self).report_view().misses < usize::MAX,
            old(self).report_view().unkeyed < usize::MAX,
        ensures
            final(self).wf(),
            final(self).lock_view() == old(self).lock_view(),
            final(self).found_view() == old(self).found_view(),
            match key {
                None => {
                    &&& evaluate.ensures((), o)
                    &&& final(self).report_view() == (Report {
                        unkeyed: (old(self).report_view().unkeyed + 1) as usize,
                        ..old(self).report_view()
                    })
                    &&& final(self).used_view() == old(self).used_view()
                },
                Some(k) => {
                    let held = lookup(old(self).found_view(), k@);
                    if held matches Some(r) && exists|d: Outcome| decoded(rule, r, Some(d)) {
                        &&& decoded(rule, held.unwrap(), Some(o))
                        &&& final(self).report_view() == (Report {
                            hits: (old(self).report_view().hits + 1) as usize,
                            ..old(self).report_view()
                        })
                        &&& forall|k2: Seq<char>| #[trigger] lookup(final(self).used_view(), k2) == if k2
                            == k@ {
                            held
                        } else {
                            lookup(old(self).used_view(), k2)
                        }
                    } else {
                        &&& evaluate.ensures((), o)
                        &&& match record_of(o) {
                            Some(r) => {
                                &&& final(self).report_view() == (Report {
                                    misses: (old(self).report_view().misses + 1) as usize,
                                    ..old(self).report_view()
                                })
                                &&& forall|k2: Seq<char>| #[trigger] lookup(final(self).used_view(), k2)
                                    == if k2 == k@ {
                                    Some(r)
                                } else {
                                    lookup(old(self).used_view(), k2)
                                }
                            },
                            None => {
                                &&& final(self).report_view() == (Report {
                                    unkeyed: (old(self).report_view().unkeyed + 1) as usize,
                                    ..old(self).report_view()
                                })
                                &&& final(self).used_view() == old(self).used_view()
                            },
                        }
                    }
                },
            },
    {
        let key = match key {
            Some(k) => k,
            None => {
                self.report.unkeyed = self.report.unkeyed + 1;
                return evaluate();
            },
        };
        let key_chars = chars_of(key.as_str());
        let held = match find(&self.found, key_chars.as_slice()) {
            Some(r) => Some(r.clone()),
            None => None,
        };
        if let Some(record) = held {
            let back = decode(rule, record.as_str());
            if let Some(outcome) = back {
                self.report.hits = self.report.hits + 1;
                put(&mut self.used, key, record);
                return outcome;
            }
            proof {
                assert forall|d: Outcome| !decoded(rule, record@, Some(d)) by {
                    if decoded(rule, record@, Some(d)) {
                        assert(readable(pieces(record@, '\t')));
                    }
                }
            }
        }
        let outcome = evaluate();
        match encode(&outcome) {
            Some(record) => {
                self.report.misses = self.report.misses + 1;
                put(&mut self.used, key, record);
            },
            None => {
                self.report.unkeyed = self.report.unkeyed + 1;
            },
        }
        outcome
    }
}

} // verus!

verus! {

/// Each finding's seven fields stand in their run, one run per finding.
proof fn lemma_findings_fields(v: Seq<Finding>)
    ensures
        findings_fields(v).len() == 7 * v.len(),
        forall|k: int, j: int|
            0 <= k < v.len() && 0 <= j < 7 ==> #[trigger] findings_fields(v)[7 * k + j]
                == finding_fields(v[k])[j],
    decreases v.len(),
{
    if v.len() > 0 {
        let init = v.drop_last();
        lemma_findings_fields(init);
        assert forall|k: int, j: int| 0 <= k < v.len() && 0 <= j < 7 implies #[trigger] findings_fields(
            v,
        )[7 * k + j] == finding_fields(v[k])[j] by {
            if k < v.len() - 1 {
                assert(findings_fields(v)[7 * k + j] == findings_fields(init)[7 * k + j]);
                assert(init[k] == v[k]);
            } else {
                assert(findings_fields(v)[7 * k + j] == finding_fields(v.last())[7 * k + j - 7
                    * init.len()]);
            }
        }
    }
}

/// The decimal form of a count reads back as the count.
proof fn lemma_usize_field_decimal(n: usize)
    ensures
        usize_field(decimal(n as nat)) == Some(n as int),
{
    lemma_decimal_digits(n as nat);
    let s = decimal(n as nat);
    assert(s[0] != '+') by {
        assert('0' <= s[0] <= '9');
    }
    assert(all_digits(s));
}

/// A severity's word names it.
proof fn lemma_severity_word(s: Severity)
    ensures
        severity_named(severity_word(s)) == Some(s),
        !severity_word(s).contains('\t'),
{
    reveal_strlit("error");
    reveal_strlit("warn");
    reveal_strlit("info");
    assert("error"@[0] != "warn"@[0]);
    assert("error"@[0] != "info"@[0]);
    assert("warn"@[0] != "info"@[0]);
    assert(!severity_word(s).contains('\t')) by {
        if severity_word(s).contains('\t') {
            let k = choose|k: int| 0 <= k < severity_word(s).len() && severity_word(s)[k] == '\t';
        }
    }
}

/// What a finding reads back as: the same severity, position, path, message
/// and remediation, under the rule the key fixed, with the obligation the
/// runner stamps left to it.
pub open spec fn kept_finding(rule: &'static str, x: Finding, y: Finding) -> bool {
    &&& y.rule == rule
    &&& y.severity == x.severity
    &&& y.line == x.line
    &&& y.column == x.column
    &&& y.path@ == x.path@
    &&& y.message@ == x.message@
    &&& y.remediation@ == x.remediation@
    &&& y.obligation is None
    &&& y.patch is None
}

/// A stored outcome reads back as itself: a pass as a pass, and a failure as
/// its findings, in order, each field intact. So a cache hit serves what the
/// check said, and cannot change a verdict.
pub proof fn law_stored_outcome_reads_back(rule: &'static str, o: Outcome, r: Option<Outcome>)
    requires
        record_of(o) is Some,
        decoded(rule, record_of(o).unwrap(), r),
    ensures
        o is Passed ==> r == Some(Outcome::Passed),
        o matches Outcome::Failed(v) ==> (r matches Some(Outcome::Failed(w)) && w@.len() == v@.len()
            && forall|k: int| 0 <= k < v@.len() ==> kept_finding(rule, v@[k], #[trigger] w@[k])),
{
    reveal_strlit("passed");
    reveal_strlit("failed");
    reveal_strlit("false");
    assert("passed"@[0] != "failed"@[0]);
    let parts = record_fields(o).unwrap();
    let f = pieces(record_of(o).unwrap(), '\t');
    assert forall|i: int| 0 <= i < parts.len() implies !(#[trigger] parts[i]).contains('\t') by {
        if parts[i].contains('\t') {
            let k = choose|k: int| 0 <= k < parts[i].len() && parts[i][k] == '\t';
            match o {
                Outcome::Failed(v) => {
                    if i > 0 {
                        lemma_findings_fields(v@);
                        let q = (i - 1) / 7;
                        let j = (i - 1) % 7;
                        assert(parts[i] == findings_fields(v@)[7 * q + j]);
                        let x = v@[q];
                        assert(parts[i] == finding_fields(x)[j]);
                        lemma_severity_word(x.severity);
                        lemma_decimal_digits(x.line as nat);
                        lemma_decimal_digits(x.column as nat);
                        lemma_escaped_plain(x.path@);
                        lemma_escaped_plain(x.message@);
                        lemma_escaped_plain(x.remediation@);
                        assert(finding_fields(x)[j][k] == '\t');
                    }
                },
                _ => {},
            }
        }
    }
    lemma_pieces_join(parts, '\t');
    assert(f == parts);
    match o {
        Outcome::Passed => {
            assert(readable(f));
        },
        Outcome::Failed(v) => {
            lemma_findings_fields(v@);
            let n = v@.len();
            assert(f.len() == 1 + 7 * n);
            assert((f.len() - 1) / 7 == n);
            assert forall|k: int| 0 <= k < n implies #[trigger] group(f, k) == finding_fields(v@[k]) by {
                assert forall|j: int| 0 <= j < 7 implies group(f, k)[j] == finding_fields(v@[k])[j] by {
                    assert(group(f, k)[j] == f[1 + 7 * k + j]);
                    assert(f[1 + 7 * k + j] == findings_fields(v@)[7 * k + j]);
                }
                assert(group(f, k) =~= finding_fields(v@[k]));
            }
            assert forall|k: int| 0 <= k < n implies group_readable(#[trigger] group(f, k)) by {
                let x = v@[k];
                assert(group(f, k) == finding_fields(x));
                lemma_severity_word(x.severity);
                lemma_usize_field_decimal(x.line);
                lemma_usize_field_decimal(x.column);
            }
            assert(readable(f));
            match r {
                Some(Outcome::Failed(w)) => {
                    assert forall|k: int| 0 <= k < n implies kept_finding(rule, v@[k], #[trigger] w@[k]) by {
                        let x = v@[k];
                        assert(group(f, k) == finding_fields(x));
                        assert(read_as(rule, group(f, k), w@[k]));
                        lemma_severity_word(x.severity);
                        lemma_usize_field_decimal(x.line);
                        lemma_usize_field_decimal(x.column);
                        lemma_unescape_escape(x.path@);
                        lemma_unescape_escape(x.message@);
                        lemma_unescape_escape(x.remediation@);
                    }
                },
                _ => {},
            }
        },
        Outcome::Skipped(_) => {},
    }
}

} // verus!

verus! {

/// `true` or `false`, as a key writes a flag.
pub open spec fn flag_text(b: bool) -> Seq<char> {
    if b {
        "true"@
    } else {
        "false"@
    }
}

/// The line a key writes for one input: its escaped path and its digest.
pub open spec fn input_key_line(r: (Seq<char>, Option<Seq<char>>)) -> Seq<char> {
    "input "@ + escaped(r.0) + " "@ + r.1.unwrap()
}

/// The lines a key writes for its inputs, one each, in order.
pub open spec fn input_key_lines(reads: Seq<(Seq<char>, Option<Seq<char>>)>) -> Seq<Seq<char>> {
    reads.map_values(|r: (Seq<char>, Option<Seq<char>>)| input_key_line(r))
}

/// The lines a key writes before its inputs.
pub open spec fn head_lines(
    lock: Seq<char>,
    rule: Seq<char>,
    version: u32,
    grain: Grain,
    body: bool,
    target: Seq<char>,
) -> Seq<Seq<char>> {
    seq![
        "headwater check key 1"@,
        "lock "@ + lock,
        "rule "@ + rule,
        "version "@ + decimal(version as nat),
        "scope "@ + grain_name(grain) + " body="@ + flag_text(body),
        "target "@ + escaped(target),
    ]
}

/// The lines of a key's text, in order.
pub open spec fn key_lines(
    lock: Seq<char>,
    rule: Seq<char>,
    version: u32,
    grain: Grain,
    body: bool,
    target: Seq<char>,
    reads: Seq<(Seq<char>, Option<Seq<char>>)>,
) -> Seq<Seq<char>> {
    head_lines(lock, rule, version, grain, body, target) + input_key_lines(reads)
}

/// Whether the components of a key keep to their lines: no newline in the
/// lock or the rule, and every input digested, with no newline or space in
/// its digest.
pub open spec fn keyable(lock: Seq<char>, rule: Seq<char>, reads: Seq<(Seq<char>, Option<Seq<char>>)>) -> bool {
    &&& !lock.contains('\n')
    &&& !rule.contains('\n')
    &&& forall|i: int|
        0 <= i < reads.len() ==> (#[trigger] reads[i]).1 is Some && !reads[i].1.unwrap().contains('\n')
            && !reads[i].1.unwrap().contains(' ')
}

proof fn lemma_flat_one(x: Seq<char>)
    ensures
        flat(seq![x]) == x + seq!['\n'],
{
    assert(flat(Seq::<Seq<char>>::empty()) == Seq::<char>::empty());
    assert(seq![x].drop_last() =~= Seq::<Seq<char>>::empty());
    assert(flat(seq![x]) =~= x + seq!['\n']);
}

/// The head of a key is its six lines, each ended by a newline.
proof fn lemma_head_flat(h: Seq<Seq<char>>)
    requires
        h.len() == 6,
    ensures
        flat(h) == h[0] + seq!['\n'] + h[1] + seq!['\n'] + h[2] + seq!['\n'] + h[3] + seq!['\n'] + h[4]
            + seq!['\n'] + h[5] + seq!['\n'],
{
    let a1 = seq![h[0]];
    let a2 = a1 + seq![h[1]];
    let a3 = a2 + seq![h[2]];
    let a4 = a3 + seq![h[3]];
    let a5 = a4 + seq![h[4]];
    let a6 = a5 + seq![h[5]];
    assert(a6 =~= h);
    lemma_flat_one(h[0]);
    lemma_flat_one(h[1]);
    lemma_flat_one(h[2]);
    lemma_flat_one(h[3]);
    lemma_flat_one(h[4]);
    lemma_flat_one(h[5]);
    lemma_flat_add(a1, seq![h[1]]);
    lemma_flat_add(a2, seq![h[2]]);
    lemma_flat_add(a3, seq![h[3]]);
    lemma_flat_add(a4, seq![h[4]]);
    lemma_flat_add(a5, seq![h[5]]);
    assert(flat(h) =~= h[0] + seq!['\n'] + h[1] + seq!['\n'] + h[2] + seq!['\n'] + h[3] + seq!['\n']
        + h[4] + seq!['\n'] + h[5] + seq!['\n']);
}

/// The input part of a key is its input lines, each ended by a newline.
proof fn lemma_input_key_lines(reads: Seq<(Seq<char>, Option<Seq<char>>)>)
    ensures
        input_lines(reads) == flat(input_key_lines(reads)),
    decreases reads.len(),
{
    reveal_strlit("\n");
    if reads.len() > 0 {
        lemma_input_key_lines(reads.drop_last());
        assert(input_key_lines(reads).drop_last() =~= input_key_lines(reads.drop_last()));
        assert("\n"@ =~= seq!['\n']);
        assert(input_lines(reads) =~= flat(input_key_lines(reads)));
    } else {
        assert(input_key_lines(reads) =~= Seq::<Seq<char>>::empty());
    }
}

/// The key text is its lines, each ended by a newline.
#[verifier::spinoff_prover]
#[verifier::rlimit(40)]
proof fn lemma_key_lines(
    lock: Seq<char>,
    rule: Seq<char>,
    version: u32,
    grain: Grain,
    body: bool,
    target: Seq<char>,
    reads: Seq<(Seq<char>, Option<Seq<char>>)>,
)
    ensures
        key_text(lock, rule, version, grain, body, target, reads) == flat(
            key_lines(lock, rule, version, grain, body, target, reads),
        ),
{
    let head = head_lines(lock, rule, version, grain, body, target);
    lemma_flat_add(head, input_key_lines(reads));
    lemma_input_key_lines(reads);
    lemma_head_flat(head);
    reveal_strlit("headwater check key 1\n");
    reveal_strlit("headwater check key 1");
    reveal_strlit("\n");
    assert("headwater check key 1\n"@ =~= "headwater check key 1"@ + seq!['\n']);
    assert("\n"@ =~= seq!['\n']);
    assert(key_text(lock, rule, version, grain, body, target, reads) =~= flat(head) + input_lines(reads));
}


/// Text free of a character stays free of it when joined to other such text.
proof fn lemma_concat_free(x: Seq<char>, y: Seq<char>, c: char)
    requires
        !x.contains(c),
        !y.contains(c),
    ensures
        !(x + y).contains(c),
{
    if (x + y).contains(c) {
        let k = choose|k: int| 0 <= k < (x + y).len() && (x + y)[k] == c;
        if k < x.len() {
            assert(x[k] == c);
        } else {
            assert(y[k - x.len()] == c);
        }
    }
}

/// Lines with no newline in them are told apart by their text.
proof fn lemma_flat_injective(a: Seq<Seq<char>>, b: Seq<Seq<char>>)
    requires
        forall|i: int| 0 <= i < a.len() ==> !(#[trigger] a[i]).contains('\n'),
        forall|i: int| 0 <= i < b.len() ==> !(#[trigger] b[i]).contains('\n'),
        flat(a) == flat(b),
    ensures
        a == b,
{
    lemma_flat_join(a);
    lemma_flat_join(b);
    let pa = a.push(Seq::<char>::empty());
    let pb = b.push(Seq::<char>::empty());
    assert forall|i: int| 0 <= i < pa.len() implies !(#[trigger] pa[i]).contains('\n') by {
        if i < a.len() {
            assert(pa[i] == a[i]);
        }
    }
    assert forall|i: int| 0 <= i < pb.len() implies !(#[trigger] pb[i]).contains('\n') by {
        if i < b.len() {
            assert(pb[i] == b[i]);
        }
    }
    lemma_pieces_join(pa, '\n');
    lemma_pieces_join(pb, '\n');
    assert(pa.drop_last() =~= a);
    assert(pb.drop_last() =~= b);
}

/// A common opening can be taken off both sides.
proof fn lemma_after_prefix(p: Seq<char>, x: Seq<char>, y: Seq<char>)
    requires
        p + x == p + y,
    ensures
        x == y,
{
    assert(x =~= (p + x).skip(p.len() as int));
    assert(y =~= (p + y).skip(p.len() as int));
}

/// Two words with no space in them, each followed by text that opens with a
/// space, split where their first space stands.
proof fn lemma_first_space(a1: Seq<char>, r1: Seq<char>, a2: Seq<char>, r2: Seq<char>)
    requires
        !a1.contains(' '),
        !a2.contains(' '),
        r1.len() > 0 && r1[0] == ' ',
        r2.len() > 0 && r2[0] == ' ',
        a1 + r1 == a2 + r2,
    ensures
        a1 == a2,
        r1 == r2,
{
    let t = a1 + r1;
    if a1.len() < a2.len() {
        assert(t[a1.len() as int] == ' ');
        assert((a2 + r2)[a1.len() as int] == a2[a1.len() as int]);
        assert(a2.contains(' '));
    }
    if a2.len() < a1.len() {
        assert((a2 + r2)[a2.len() as int] == ' ');
        assert(t[a2.len() as int] == a1[a2.len() as int]);
        assert(a1.contains(' '));
    }
    assert(a1 =~= t.take(a1.len() as int));
    assert(a2 =~= (a2 + r2).take(a2.len() as int));
    assert(r1 =~= t.skip(a1.len() as int));
    assert(r2 =~= (a2 + r2).skip(a2.len() as int));
}

/// Text, a space and a field with no space in it split where the last space
/// stands.
proof fn lemma_last_space(s1: Seq<char>, d1: Seq<char>, s2: Seq<char>, d2: Seq<char>)
    requires
        !d1.contains(' '),
        !d2.contains(' '),
        s1 + seq![' '] + d1 == s2 + seq![' '] + d2,
    ensures
        s1 == s2,
        d1 == d2,
{
    let t = s1 + seq![' '] + d1;
    let u = s2 + seq![' '] + d2;
    assert(t.len() == u.len());
    if d1.len() < d2.len() {
        let k = t.len() - 1 - d1.len();
        assert(t[k] == ' ');
        assert(u[k] == d2[k - s2.len() - 1]);
        assert(d2.contains(' '));
    }
    if d2.len() < d1.len() {
        let k = u.len() - 1 - d2.len();
        assert(u[k] == ' ');
        assert(t[k] == d1[k - s1.len() - 1]);
        assert(d1.contains(' '));
    }
    assert(s1 =~= t.take(s1.len() as int));
    assert(s2 =~= u.take(s2.len() as int));
    assert(d1 =~= t.skip(s1.len() + 1int));
    assert(d2 =~= u.skip(s2.len() + 1int));
}

/// The words of the grains are told apart, and hold no space or newline.
proof fn lemma_grain_names(g1: Grain, g2: Grain)
    ensures
        grain_name(g1) == grain_name(g2) ==> g1 == g2,
        !grain_name(g1).contains(' '),
        !grain_name(g1).contains('\n'),
{
    reveal_strlit("document");
    reveal_strlit("edge");
    reveal_strlit("neighbourhood");
    reveal_strlit("corpus");
    reveal_strlit("taxonomy");
    assert("document"@.len() == 8);
    assert("edge"@.len() == 4);
    assert("neighbourhood"@.len() == 13);
    assert("corpus"@.len() == 6);
    assert("taxonomy"@.len() == 8);
    assert("document"@[0] != "taxonomy"@[0]);
    if grain_name(g1) == grain_name(g2) {
        assert(grain_name(g1).len() == grain_name(g2).len());
        match g1 {
            Grain::Document => {
                if g2 == Grain::Taxonomy {
                    assert(grain_name(g1)[0] != grain_name(g2)[0]);
                }
            },
            Grain::Taxonomy => {
                if g2 == Grain::Document {
                    assert(grain_name(g1)[0] != grain_name(g2)[0]);
                }
            },
            _ => {},
        }
    }
}

/// Every line of a key is free of newlines.
proof fn lemma_key_lines_plain(
    lock: Seq<char>,
    rule: Seq<char>,
    version: u32,
    grain: Grain,
    body: bool,
    target: Seq<char>,
    reads: Seq<(Seq<char>, Option<Seq<char>>)>,
)
    requires
        keyable(lock, rule, reads),
    ensures
        forall|i: int|
            0 <= i < key_lines(lock, rule, version, grain, body, target, reads).len() ==> !(
            #[trigger] key_lines(lock, rule, version, grain, body, target, reads)[i]).contains('\n'),
{
    let ls = key_lines(lock, rule, version, grain, body, target, reads);
    let h = head_lines(lock, rule, version, grain, body, target);
    reveal_strlit("headwater check key 1");
    reveal_strlit("lock ");
    reveal_strlit("rule ");
    reveal_strlit("version ");
    reveal_strlit("scope ");
    reveal_strlit(" body=");
    reveal_strlit("true");
    reveal_strlit("false");
    reveal_strlit("target ");
    reveal_strlit("input ");
    reveal_strlit(" ");
    lemma_decimal_digits(version as nat);
    let v = decimal(version as nat);
    assert(!v.contains('\n')) by {
        if v.contains('\n') {
            let k = choose|k: int| 0 <= k < v.len() && v[k] == '\n';
            assert('0' <= v[k] <= '9');
        }
    }
    lemma_grain_names(grain, grain);
    lemma_escaped_plain(target);
    lemma_concat_free("lock "@, lock, '\n');
    lemma_concat_free("rule "@, rule, '\n');
    lemma_concat_free("version "@, v, '\n');
    lemma_concat_free("scope "@, grain_name(grain), '\n');
    lemma_concat_free("scope "@ + grain_name(grain), " body="@, '\n');
    lemma_concat_free("scope "@ + grain_name(grain) + " body="@, flag_text(body), '\n');
    lemma_concat_free("target "@, escaped(target), '\n');
    assert forall|i: int| 0 <= i < ls.len() implies !(#[trigger] ls[i]).contains('\n') by {
        if i >= 6 {
            let r = reads[i - 6];
            assert(ls[i] == input_key_line(r));
            assert(r == reads[i - 6]);
            lemma_escaped_plain(r.0);
            lemma_concat_free("input "@, escaped(r.0), '\n');
            lemma_concat_free("input "@ + escaped(r.0), " "@, '\n');
            lemma_concat_free("input "@ + escaped(r.0) + " "@, r.1.unwrap(), '\n');
        } else {
            assert(ls[i] == h[i]);
        }
    }
}

/// Two keys agree only where all they are made of agrees: the lock, the rule
/// and its version, the grain, whether the body is read, the target, and
/// every input with its digest, in order. So a change to any one of them
/// moves an instance to a key of its own, and no stale outcome can be served
/// for it.
pub proof fn law_key_moves_with_every_component(
    lock1: Seq<char>,
    rule1: Seq<char>,
    version1: u32,
    grain1: Grain,
    body1: bool,
    target1: Seq<char>,
    reads1: Seq<(Seq<char>, Option<Seq<char>>)>,
    lock2: Seq<char>,
    rule2: Seq<char>,
    version2: u32,
    grain2: Grain,
    body2: bool,
    target2: Seq<char>,
    reads2: Seq<(Seq<char>, Option<Seq<char>>)>,
)
    requires
        keyable(lock1, rule1, reads1),
        keyable(lock2, rule2, reads2),
        escaped(key_text(lock1, rule1, version1, grain1, body1, target1, reads1)) == escaped(
            key_text(lock2, rule2, version2, grain2, body2, target2, reads2),
        ),
    ensures
        lock1 == lock2,
        rule1 == rule2,
        version1 == version2,
        grain1 == grain2,
        body1 == body2,
        target1 == target2,
        reads1 == reads2,
{
    let t1 = key_text(lock1, rule1, version1, grain1, body1, target1, reads1);
    let t2 = key_text(lock2, rule2, version2, grain2, body2, target2, reads2);
    lemma_unescape_escape(t1);
    lemma_unescape_escape(t2);
    let l1 = key_lines(lock1, rule1, version1, grain1, body1, target1, reads1);
    let l2 = key_lines(lock2, rule2, version2, grain2, body2, target2, reads2);
    lemma_key_lines(lock1, rule1, version1, grain1, body1, target1, reads1);
    lemma_key_lines(lock2, rule2, version2, grain2, body2, target2, reads2);
    lemma_key_lines_plain(lock1, rule1, version1, grain1, body1, target1, reads1);
    lemma_key_lines_plain(lock2, rule2, version2, grain2, body2, target2, reads2);
    lemma_flat_injective(l1, l2);
    let h1 = head_lines(lock1, rule1, version1, grain1, body1, target1);
    let h2 = head_lines(lock2, rule2, version2, grain2, body2, target2);
    assert(h1 =~= l1.take(6));
    assert(h2 =~= l2.take(6));
    lemma_head_parts(lock1, rule1, version1, grain1, body1, target1, lock2, rule2, version2, grain2, body2, target2);
    assert forall|i: int| 0 <= i < reads1.len() implies l1[6 + i] == input_key_line(#[trigger] reads1[i]) by {
        assert(l1[6 + i] == input_key_lines(reads1)[i]);
    }
    assert forall|i: int| 0 <= i < reads2.len() implies l2[6 + i] == input_key_line(#[trigger] reads2[i]) by {
        assert(l2[6 + i] == input_key_lines(reads2)[i]);
    }
    lemma_read_parts(l1, l2, reads1, reads2);
}

/// Equal heads are made of equal parts.
proof fn lemma_head_parts(
    lock1: Seq<char>,
    rule1: Seq<char>,
    version1: u32,
    grain1: Grain,
    body1: bool,
    target1: Seq<char>,
    lock2: Seq<char>,
    rule2: Seq<char>,
    version2: u32,
    grain2: Grain,
    body2: bool,
    target2: Seq<char>,
)
    requires
        head_lines(lock1, rule1, version1, grain1, body1, target1) == head_lines(lock2, rule2, version2, grain2, body2, target2),
    ensures
        lock1 == lock2,
        rule1 == rule2,
        version1 == version2,
        grain1 == grain2,
        body1 == body2,
        target1 == target2,
{
    let l1 = head_lines(lock1, rule1, version1, grain1, body1, target1);
    let l2 = head_lines(lock2, rule2, version2, grain2, body2, target2);
    assert(l1[1] == l2[1]);
    lemma_after_prefix("lock "@, lock1, lock2);
    assert(l1[2] == l2[2]);
    lemma_after_prefix("rule "@, rule1, rule2);
    assert(l1[3] == l2[3]);
    lemma_after_prefix("version "@, decimal(version1 as nat), decimal(version2 as nat));
    lemma_decimal_digits(version1 as nat);
    lemma_decimal_digits(version2 as nat);
    assert(l1[4] == l2[4]);
    let rest1 = " body="@ + flag_text(body1);
    let rest2 = " body="@ + flag_text(body2);
    assert("scope "@ + grain_name(grain1) + " body="@ + flag_text(body1) =~= "scope "@ + (grain_name(grain1)
        + rest1));
    assert("scope "@ + grain_name(grain2) + " body="@ + flag_text(body2) =~= "scope "@ + (grain_name(grain2)
        + rest2));
    lemma_after_prefix("scope "@, grain_name(grain1) + rest1, grain_name(grain2) + rest2);
    reveal_strlit(" body=");
    reveal_strlit("true");
    reveal_strlit("false");
    lemma_grain_names(grain1, grain2);
    lemma_grain_names(grain2, grain1);
    lemma_first_space(grain_name(grain1), rest1, grain_name(grain2), rest2);
    lemma_after_prefix(" body="@, flag_text(body1), flag_text(body2));
    assert(l1[5] == l2[5]);
    lemma_after_prefix("target "@, escaped(target1), escaped(target2));
    lemma_unescape_escape(target1);
    lemma_unescape_escape(target2);
}

/// Equal input lines are made of equal inputs.
proof fn lemma_read_parts(
    l1: Seq<Seq<char>>,
    l2: Seq<Seq<char>>,
    reads1: Seq<(Seq<char>, Option<Seq<char>>)>,
    reads2: Seq<(Seq<char>, Option<Seq<char>>)>,
)
    requires
        l1 == l2,
        l1.len() == 6 + reads1.len(),
        l2.len() == 6 + reads2.len(),
        forall|i: int| 0 <= i < reads1.len() ==> l1[6 + i] == input_key_line(#[trigger] reads1[i]),
        forall|i: int| 0 <= i < reads2.len() ==> l2[6 + i] == input_key_line(#[trigger] reads2[i]),
        forall|i: int| 0 <= i < reads1.len() ==> (#[trigger] reads1[i]).1 is Some && !reads1[i].1.unwrap().contains(' '),
        forall|i: int| 0 <= i < reads2.len() ==> (#[trigger] reads2[i]).1 is Some && !reads2[i].1.unwrap().contains(' '),
    ensures
        reads1 == reads2,
{
    assert(reads1.len() == reads2.len());
    reveal_strlit(" ");
    assert forall|i: int| 0 <= i < reads1.len() implies #[trigger] reads1[i] == reads2[i] by {
        let a = reads1[i];
        let b = reads2[i];
        assert(l1[6 + i] == input_key_line(a));
        assert(l2[6 + i] == input_key_line(b));
        assert(l1[6 + i] == l2[6 + i]);
        assert(" "@ =~= seq![' ']);
        assert(input_key_line(a) =~= ("input "@ + escaped(a.0)) + seq![' '] + a.1.unwrap());
        assert(input_key_line(b) =~= ("input "@ + escaped(b.0)) + seq![' '] + b.1.unwrap());
        lemma_last_space("input "@ + escaped(a.0), a.1.unwrap(), "input "@ + escaped(b.0), b.1.unwrap());
        lemma_after_prefix("input "@, escaped(a.0), escaped(b.0));
        lemma_unescape_escape(a.0);
        lemma_unescape_escape(b.0);
    }
    assert(reads1 =~= reads2);
}

} // verus!

verus! {

proof fn lemma_join_no_newline(parts: Seq<Seq<char>>, sep: Seq<char>)
    requires
        forall|i: int| 0 <= i < parts.len() ==> !(#[trigger] parts[i]).contains('\n'),
        !sep.contains('\n'),
    ensures
        !join(parts, sep).contains('\n'),
    decreases parts.len(),
{
    if parts.len() > 1 {
        let init = parts.drop_last();
        assert forall|i: int| 0 <= i < init.len() implies !(#[trigger] init[i]).contains('\n') by {
            assert(init[i] == parts[i]);
        }
        lemma_join_no_newline(init, sep);
        let a = join(init, sep);
        let b = parts.last();
        assert(!b.contains('\n')) by {
            assert(parts[parts.len() - 1] == b);
        }
        let j = a + sep + b;
        assert forall|k: int| 0 <= k < j.len() implies j[k] != '\n' by {
            if k < a.len() {
                assert(j[k] == a[k]);
                assert(!a.contains('\n'));
            } else if k < a.len() + sep.len() {
                assert(j[k] == sep[k - a.len()]);
            } else {
                assert(j[k] == b[k - a.len() - sep.len()]);
            }
        }
    } else if parts.len() == 1 {
        assert(!parts[0].contains('\n'));
    }
}

proof fn lemma_finding_fields_no_newline(f: Finding, j: int)
    requires
        0 <= j < 7,
    ensures
        !finding_fields(f)[j].contains('\n'),
{
    reveal_strlit("error");
    reveal_strlit("warn");
    reveal_strlit("info");
    reveal_strlit("false");
    let x = finding_fields(f)[j];
    if j == 0 {
        assert(!x.contains('\n')) by {
            if x.contains('\n') {
                let k = choose|k: int| 0 <= k < x.len() && x[k] == '\n';
            }
        }
    } else if j == 1 || j == 2 {
        let n = if j == 1 { f.line as nat } else { f.column as nat };
        lemma_decimal_digits(n);
        assert(!x.contains('\n')) by {
            if x.contains('\n') {
                let k = choose|k: int| 0 <= k < x.len() && x[k] == '\n';
                assert('0' <= x[k] <= '9');
            }
        }
    } else if j == 3 {
        assert(!x.contains('\n')) by {
            if x.contains('\n') {
                let k = choose|k: int| 0 <= k < x.len() && x[k] == '\n';
            }
        }
    } else if j == 4 {
        lemma_escaped_plain(f.path@);
    } else if j == 5 {
        lemma_escaped_plain(f.message@);
    } else {
        lemma_escaped_plain(f.remediation@);
    }
}

/// A stored record is one line: whatever a finding's path, message and
/// remediation hold, newlines and tabs and backslashes included, the record
/// holds no newline.
pub proof fn law_record_holds_no_newline(o: Outcome)
    requires
        record_of(o) is Some,
    ensures
        !record_of(o).unwrap().contains('\n'),
{
    reveal_strlit("passed");
    reveal_strlit("failed");
    let f = record_fields(o).unwrap();
    assert forall|i: int| 0 <= i < f.len() implies !(#[trigger] f[i]).contains('\n') by {
        if i == 0 {
            if f[0].contains('\n') {
                let k = choose|k: int| 0 <= k < f[0].len() && f[0][k] == '\n';
            }
        } else {
            let v = o->Failed_0@;
            lemma_findings_fields(v);
            let k = (i - 1) / 7;
            let j = (i - 1) % 7;
            assert(i - 1 == 7 * k + j);
            assert(f[i] == findings_fields(v)[7 * k + j]);
            lemma_finding_fields_no_newline(v[k], j);
        }
    }
    assert(!seq!['\t'].contains('\n')) by {
        if seq!['\t'].contains('\n') {
            let k = choose|k: int| 0 <= k < 1 && seq!['\t'][k] == '\n';
        }
    }
    lemma_join_no_newline(f, seq!['\t']);
}

} // verus!
