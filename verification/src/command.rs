//! The programs a shell block runs.
//!
//! A block's text is read as a shell would split it: a line that ends in a
//! backslash continues on the next, a `<<` here-document's body is not a
//! program, and a pipeline or a list names one program per segment. A quoted
//! bar is not an operator, and `2>&1` is a redirection rather than a list.
use vstd::prelude::*;
use crate::text::{
    chars_of, is_space, is_whitespace, spells, string_of, trim, trim_start, words, words_of, views,
    leading_space, lemma_trim_start_is_skip, text_lines, lines_of, same, extend, extend_str, pieces,
    split_char, str_eq, owned,
};
use crate::context::trimmed;
use crate::finding::{Finding, Severity};
use crate::instance::Outcome;
use crate::language::BlockKind;

verus! {

/// The rule this module reports under.
pub const RULE: &'static str = "surface.command.undeclared";

/// A list or pipeline operator.
pub open spec fn is_op(c: char) -> bool {
    c == '|' || c == '&' || c == ';'
}

/// The segments of a command from `at` on, as `(start, end)` positions: the
/// scan's state is where the current segment starts, the quote it is inside,
/// whether the character before was a backslash, and whether it has just cut
/// at an operator, whose run of further operators belongs to no segment. An
/// `&` beside a `>` is a redirection and cuts nothing.
pub open spec fn seg_scan(
    s: Seq<char>,
    at: int,
    start: int,
    quote: Option<char>,
    escaped: bool,
    run: bool,
) -> Seq<(int, int)>
    decreases s.len() - at,
{
    if at < 0 || at >= s.len() {
        seq![(start, s.len() as int)]
    } else {
        let c = s[at];
        if run && is_op(c) {
            seg_scan(s, at + 1, at + 1, None, false, true)
        } else if escaped {
            seg_scan(s, at + 1, start, quote, false, false)
        } else {
            match quote {
                Some(q) => if c == q {
                    seg_scan(s, at + 1, start, None, false, false)
                } else if q == '"' && c == '\\' {
                    seg_scan(s, at + 1, start, quote, true, false)
                } else {
                    seg_scan(s, at + 1, start, quote, false, false)
                },
                None => if c == '\\' {
                    seg_scan(s, at + 1, start, None, true, false)
                } else if c == '\'' || c == '"' {
                    seg_scan(s, at + 1, start, Some(c), false, false)
                } else if is_op(c) && !(c == '&' && ((at > 0 && s[at - 1] == '>') || (at + 1 < s.len()
                    && s[at + 1] == '>'))) {
                    seq![(start, at)] + seg_scan(s, at + 1, at + 1, None, false, true)
                } else {
                    seg_scan(s, at + 1, start, None, false, false)
                },
            }
        }
    }
}

/// The segments of a command: where each starts, and where it ends.
pub open spec fn segment_spans(s: Seq<char>) -> Seq<(int, int)> {
    seg_scan(s, 0, 0, None, false, false)
}

/// The segments of a command, each a start and an end position.
fn segments(s: &[char]) -> (out: Vec<(usize, usize)>)
    ensures
        out@.map_values(|p: (usize, usize)| (p.0 as int, p.1 as int)) == segment_spans(s@),
        forall|k: int| 0 <= k < out@.len() ==> (#[trigger] out@[k]).0 <= out@[k].1 <= s@.len(),
{
    let mut out: Vec<(usize, usize)> = Vec::new();
    let mut start: usize = 0;
    let mut quote: Option<char> = None;
    let mut escaped = false;
    let mut run = false;
    let mut at: usize = 0;
    while at < s.len()
        invariant
            at <= s@.len(),
            start <= at,
            forall|k: int| 0 <= k < out@.len() ==> (#[trigger] out@[k]).0 <= out@[k].1 <= s@.len(),
            out@.map_values(|p: (usize, usize)| (p.0 as int, p.1 as int)) + seg_scan(
                s@,
                at as int,
                start as int,
                quote,
                escaped,
                run,
            ) == segment_spans(s@),
        decreases s@.len() - at,
    {
        let c = s[at];
        let ghost before = out@.map_values(|p: (usize, usize)| (p.0 as int, p.1 as int));
        if run && (c == '|' || c == '&' || c == ';') {
            start = at + 1;
            escaped = false;
            quote = None;
        } else if escaped {
            escaped = false;
            run = false;
        } else {
            run = false;
            match quote {
                Some(q) => {
                    if c == q {
                        quote = None;
                    } else if q == '"' && c == '\\' {
                        escaped = true;
                    }
                },
                None => {
                    if c == '\\' {
                        escaped = true;
                    } else if c == '\'' || c == '"' {
                        quote = Some(c);
                    } else if (c == '|' || c == '&' || c == ';') && !(c == '&' && ((at > 0 && s[at - 1]
                        == '>') || (at + 1 < s.len() && s[at + 1] == '>'))) {
                        out.push((start, at));
                        assert(out@.map_values(|p: (usize, usize)| (p.0 as int, p.1 as int)) =~= before
                            + seq![(start as int, at as int)]);
                        start = at + 1;
                        run = true;
                    }
                },
            }
        }
        at = at + 1;
    }
    out.push((start, s.len()));
    assert(out@.map_values(|p: (usize, usize)| (p.0 as int, p.1 as int)) =~= segment_spans(s@));
    out
}

} // verus!

verus! {

/// A word with its leading `(` and `{` dropped.
pub open spec fn drop_openers(w: Seq<char>) -> Seq<char>
    decreases w.len(),
{
    if w.len() > 0 && (w[0] == '(' || w[0] == '{') {
        drop_openers(w.skip(1))
    } else {
        w
    }
}

/// Whether a character is one `trim_matches` strips from a program name.
pub open spec fn is_wrapper(c: char) -> bool {
    c == '"' || c == '\'' || c == ')' || c == '}'
}

/// A word with quotes and closers stripped from both ends.
pub open spec fn strip_front(w: Seq<char>) -> Seq<char>
    decreases w.len(),
{
    if w.len() > 0 && is_wrapper(w[0]) {
        strip_front(w.skip(1))
    } else {
        w
    }
}

pub open spec fn strip_back(w: Seq<char>) -> Seq<char>
    decreases w.len(),
{
    if w.len() > 0 && is_wrapper(w.last()) {
        strip_back(w.drop_last())
    } else {
        w
    }
}

/// A word of shell grammar that comes before a program rather than being one.
pub open spec fn is_prefix_word(w: Seq<char>) -> bool {
    w == ""@ || w == "!"@ || w == "if"@ || w == "then"@ || w == "else"@ || w == "elif"@ || w
        == "while"@ || w == "until"@ || w == "do"@ || w == "time"@
}

/// A word of shell grammar that opens or closes a construct whose next word
/// is no program.
pub open spec fn is_closing_word(w: Seq<char>) -> bool {
    w == "for"@ || w == "case"@ || w == "select"@ || w == "fi"@ || w == "done"@ || w == "esac"@
        || w == "}"@ || w == ")"@ || w == "in"@
}

/// A character that may open a variable name.
pub open spec fn name_start(c: char) -> bool {
    ('a' <= c <= 'z') || ('A' <= c <= 'Z') || c == '_'
}

/// A character that may continue a variable name.
pub open spec fn name_char(c: char) -> bool {
    name_start(c) || ('0' <= c <= '9')
}

/// Whether `i` is where the first `=` of a word stands.
pub open spec fn first_eq_at(w: Seq<char>, i: int) -> bool {
    &&& 0 <= i < w.len()
    &&& w[i] == '='
    &&& forall|m: int| 0 <= m < i ==> w[m] != '='
}

/// Whether a word assigns a variable: a name before its first `=`.
pub open spec fn assigns(w: Seq<char>) -> bool {
    exists|i: int|
        first_eq_at(w, i) && i > 0 && name_start(w[0]) && forall|k: int|
            1 <= k < i ==> name_char(#[trigger] w[k])
}

/// The program the words of a segment run, from its `k`th word on.
pub open spec fn program_in(ws: Seq<Seq<char>>) -> Option<Seq<char>>
    decreases ws.len(),
{
    if ws.len() == 0 {
        None
    } else {
        let w = drop_openers(ws[0]);
        if is_prefix_word(w) {
            program_in(ws.skip(1))
        } else if is_closing_word(w) {
            None
        } else if assigns(w) {
            program_in(ws.skip(1))
        } else {
            let p = strip_back(strip_front(w));
            if p.len() == 0 || p[0] == '$' || p[0] == '<' || p[0] == '>' {
                None
            } else {
                Some(p)
            }
        }
    }
}

/// Whether a word assigns a variable.
fn is_assignment(w: &[char]) -> (r: bool)
    ensures
        r == assigns(w@),
{
    let mut i: usize = 0;
    while i < w.len() && w[i] != '='
        invariant
            i <= w@.len(),
            forall|m: int| 0 <= m < i ==> w@[m] != '=',
        decreases w@.len() - i,
    {
        i = i + 1;
    }
    if i == w.len() {
        assert(!exists|t: int| first_eq_at(w@, t));
        return false;
    }
    assert(first_eq_at(w@, i as int));
    assert forall|t: int| first_eq_at(w@, t) implies t == i by {
        if t < i {
            assert(w@[t] != '=');
        }
        if t > i {
            assert(w@[i as int] != '=');
        }
    }
    if i == 0 {
        return false;
    }
    let c = w[0];
    if !(('a' <= c && c <= 'z') || ('A' <= c && c <= 'Z') || c == '_') {
        return false;
    }
    let mut k: usize = 1;
    while k < i
        invariant
            1 <= k <= i,
            i < w@.len(),
            first_eq_at(w@, i as int),
            forall|t: int| first_eq_at(w@, t) ==> t == i,
            forall|m: int| 1 <= m < k ==> name_char(#[trigger] w@[m]),
        decreases i - k,
    {
        let d = w[k];
        if !(('a' <= d && d <= 'z') || ('A' <= d && d <= 'Z') || d == '_' || ('0' <= d && d <= '9')) {
            assert(!name_char(w@[k as int]));
            assert(!assigns(w@)) by {
                if assigns(w@) {
                    let t = choose|t: int|
                        first_eq_at(w@, t) && t > 0 && name_start(w@[0]) && forall|m: int|
                            1 <= m < t ==> name_char(#[trigger] w@[m]);
                    assert(t == i);
                    assert(name_char(w@[k as int]));
                }
            }
            return false;
        }
        k = k + 1;
    }
    true
}

/// The program a segment runs, and nothing for a segment whose first word of
/// substance is grammar, a redirection or a variable.
fn program_of(segment: &[char]) -> (r: Option<Vec<char>>)
    ensures
        match r {
            Some(p) => program_in(words(segment@)) == Some(p@),
            None => program_in(words(segment@)) is None,
        },
{
    let ws = words_of(segment);
    let ghost all = words(segment@);
    let mut i: usize = 0;
    proof {
        assert(all.skip(0) =~= all);
    }
    while i < ws.len()
        invariant
            views(ws@) == all,
            all == words(segment@),
            i <= ws@.len(),
            program_in(all) == program_in(all.skip(i as int)),
        decreases ws@.len() - i,
    {
        let ghost rest = all.skip(i as int);
        assert(rest[0] == ws@[i as int]@);
        assert(rest.skip(1) =~= all.skip(i + 1));
        let word = ws[i].as_slice();
        assert(word@.skip(0) =~= word@);
        let mut a: usize = 0;
        while a < word.len() && (word[a] == '(' || word[a] == '{')
            invariant
                a <= word@.len(),
                drop_openers(word@) == drop_openers(word@.skip(a as int)),
            decreases word@.len() - a,
        {
            assert(word@.skip(a as int).skip(1) =~= word@.skip(a + 1));
            a = a + 1;
        }
        let w = &word[a..word.len()];
        assert(w@ =~= word@.skip(a as int));
        assert(drop_openers(w@) == w@);
        if spells(w, "") || spells(w, "!") || spells(w, "if") || spells(w, "then") || spells(w, "else")
            || spells(w, "elif") || spells(w, "while") || spells(w, "until") || spells(w, "do") || spells(
            w,
            "time",
        ) {
            i = i + 1;
            continue;
        }
        if spells(w, "for") || spells(w, "case") || spells(w, "select") || spells(w, "fi") || spells(
            w,
            "done",
        ) || spells(w, "esac") || spells(w, "}") || spells(w, ")") || spells(w, "in") {
            return None;
        }
        if is_assignment(w) {
            i = i + 1;
            continue;
        }
        let mut f: usize = 0;
        assert(w@.skip(0) =~= w@);
        while f < w.len() && (w[f] == '"' || w[f] == '\'' || w[f] == ')' || w[f] == '}')
            invariant
                f <= w@.len(),
                strip_front(w@) == strip_front(w@.skip(f as int)),
            decreases w@.len() - f,
        {
            assert(w@.skip(f as int).skip(1) =~= w@.skip(f + 1));
            f = f + 1;
        }
        let front = &w[f..w.len()];
        assert(front@ =~= w@.skip(f as int));
        let mut e: usize = front.len();
        assert(front@.take(e as int) =~= front@);
        while e > 0 && (front[e - 1] == '"' || front[e - 1] == '\'' || front[e - 1] == ')' || front[e
            - 1] == '}')
            invariant
                e <= front@.len(),
                strip_back(front@) == strip_back(front@.take(e as int)),
            decreases e,
        {
            assert(front@.take(e as int).drop_last() =~= front@.take(e - 1));
            e = e - 1;
        }
        let p = &front[0..e];
        assert(p@ =~= front@.take(e as int));
        if p.len() == 0 || p[0] == '$' || p[0] == '<' || p[0] == '>' {
            return None;
        }
        let mut out: Vec<char> = Vec::new();
        let mut k: usize = 0;
        while k < p.len()
            invariant
                k <= p@.len(),
                out@ == p@.take(k as int),
            decreases p@.len() - k,
        {
            out.push(p[k]);
            k = k + 1;
            assert(out@ =~= p@.take(k as int));
        }
        assert(p@.take(k as int) =~= p@);
        return Some(out);
    }
    None
}

} // verus!

verus! {

/// Whether `<<` stands at `m`.
pub open spec fn opens_heredoc(s: Seq<char>, m: int) -> bool {
    s[m] == '<' && s[m + 1] == '<'
}

/// Whether `i` is where the first `<<` of a command stands.
pub open spec fn first_heredoc_at(s: Seq<char>, i: int) -> bool {
    &&& 0 <= i
    &&& i + 1 < s.len()
    &&& opens_heredoc(s, i)
    &&& forall|m: int| 0 <= m < i ==> !#[trigger] opens_heredoc(s, m)
}

/// Whether a character ends the word a here-document names as its end.
pub open spec fn ends_word(c: char) -> bool {
    is_space(c) || c == ';' || c == '|' || c == '&' || c == ')'
}

/// The characters of a text up to the first that ends a word.
pub open spec fn lead_word(s: Seq<char>) -> Seq<char>
    decreases s.len(),
{
    if s.len() == 0 || ends_word(s[0]) {
        Seq::<char>::empty()
    } else {
        seq![s[0]] + lead_word(s.skip(1))
    }
}

/// A text with its quotes dropped.
pub open spec fn unquoted(s: Seq<char>) -> Seq<char>
    decreases s.len(),
{
    if s.len() == 0 {
        Seq::<char>::empty()
    } else if s.last() == '\'' || s.last() == '"' {
        unquoted(s.drop_last())
    } else {
        unquoted(s.drop_last()).push(s.last())
    }
}

/// The word that ends the here-document a command opens, and nothing for a
/// command that opens none. `<<<` is a here-string and opens none, and the
/// word is read with its quotes dropped, after an optional `-`.
pub open spec fn heredoc_of(s: Seq<char>) -> Option<Seq<char>> {
    if exists|i: int| first_heredoc_at(s, i) {
        let i = choose|i: int| first_heredoc_at(s, i);
        let rest = s.skip(i + 2);
        if rest.len() > 0 && rest[0] == '<' {
            None
        } else {
            let rest = if rest.len() > 0 && rest[0] == '-' {
                rest.skip(1)
            } else {
                rest
            };
            let word = unquoted(lead_word(trim_start(rest)));
            if word.len() > 0 {
                Some(word)
            } else {
                None
            }
        }
    } else {
        None
    }
}

/// A text with its leading white space dropped, which is `str::trim_start`.
fn trimmed_start(s: &[char]) -> (t: &[char])
    ensures
        t@ == trim_start(s@),
{
    proof {
        lemma_trim_start_is_skip(s@);
    }
    let mut start: usize = 0;
    while start < s.len() && is_whitespace(s[start])
        invariant
            start <= leading_space(s@),
            leading_space(s@) <= s@.len(),
            forall|k: int| 0 <= k < leading_space(s@) ==> is_space(#[trigger] s@[k]),
            leading_space(s@) < s@.len() ==> !is_space(s@[leading_space(s@) as int]),
        decreases s@.len() - start,
    {
        start = start + 1;
    }
    assert(start == leading_space(s@));
    let t = &s[start..s.len()];
    assert(t@ =~= s@.skip(start as int));
    t
}

/// The word that ends the here-document a command opens.
fn heredoc_end(s: &[char]) -> (r: Option<Vec<char>>)
    ensures
        match r {
            Some(w) => heredoc_of(s@) == Some(w@),
            None => heredoc_of(s@) is None,
        },
{
    let mut i: usize = 0;
    while s.len() - i >= 2 && !(s[i] == '<' && s[i + 1] == '<')
        invariant
            i <= s@.len(),
            forall|m: int| 0 <= m < i ==> !#[trigger] opens_heredoc(s@, m),
        decreases s@.len() - i,
    {
        i = i + 1;
    }
    if s.len() - i < 2 {
        assert forall|t: int| !first_heredoc_at(s@, t) by {
            if first_heredoc_at(s@, t) && t < i {
                assert(!opens_heredoc(s@, t));
            }
        }
        return None;
    }
    assert(first_heredoc_at(s@, i as int));
    assert forall|t: int| first_heredoc_at(s@, t) implies t == i by {
        if t < i {
            assert(!opens_heredoc(s@, t));
        }
        if t > i {
            assert(opens_heredoc(s@, i as int));
        }
    }
    let rest = &s[i + 2..s.len()];
    assert(rest@ =~= s@.skip(i + 2));
    if rest.len() > 0 && rest[0] == '<' {
        return None;
    }
    let body: &[char] = if rest.len() > 0 && rest[0] == '-' {
        &rest[1..rest.len()]
    } else {
        rest
    };
    assert(body@ =~= if rest@.len() > 0 && rest@[0] == '-' {
        rest@.skip(1)
    } else {
        rest@
    });
    let t = trimmed_start(body);
    let mut n: usize = 0;
    while n < t.len() && !(is_whitespace(t[n]) || t[n] == ';' || t[n] == '|' || t[n] == '&' || t[n] == ')')
        invariant
            n <= t@.len(),
            forall|m: int| 0 <= m < n ==> !ends_word(#[trigger] t@[m]),
        decreases t@.len() - n,
    {
        n = n + 1;
    }
    let ghost lw = lead_word(t@);
    proof {
        lemma_lead_word(t@, n as int);
    }
    let mut word: Vec<char> = Vec::new();
    let mut k: usize = 0;
    assert(t@.take(0) =~= Seq::<char>::empty());
    while k < n
        invariant
            k <= n <= t@.len(),
            lw == t@.take(n as int),
            word@ == unquoted(t@.take(k as int)),
        decreases n - k,
    {
        let c = t[k];
        assert(t@.take(k + 1).drop_last() =~= t@.take(k as int));
        if c != '\'' && c != '"' {
            word.push(c);
        }
        k = k + 1;
    }
    if word.len() > 0 {
        Some(word)
    } else {
        None
    }
}

/// The lead word is the characters before the first that ends a word.
proof fn lemma_lead_word(s: Seq<char>, n: int)
    requires
        0 <= n <= s.len(),
        forall|m: int| 0 <= m < n ==> !ends_word(#[trigger] s[m]),
        n == s.len() || ends_word(s[n]),
    ensures
        lead_word(s) == s.take(n),
    decreases n,
{
    if n == 0 {
        assert(s.take(0) =~= Seq::<char>::empty());
    } else {
        lemma_lead_word(s.skip(1), n - 1);
        assert(!ends_word(s[0]));
        assert(seq![s[0]] + s.skip(1).take(n - 1) =~= s.take(n));
    }
}

} // verus!

verus! {

/// Where a read of a shell block stands after some of its lines: the programs
/// found so far with their lines, the command being continued, where each of
/// its lines started in it, and the word that ends a here-document being
/// skipped.
pub struct Reading {
    pub found: Seq<(int, Seq<char>)>,
    pub command: Seq<char>,
    pub starts: Seq<(int, int)>,
    pub heredoc: Option<Seq<char>>,
}

/// The line a position of a command came from: the last line that started at
/// or before it.
pub open spec fn line_of(starts: Seq<(int, int)>, offset: int, number: int) -> int
    decreases starts.len(),
{
    if starts.len() == 0 {
        number
    } else if starts.last().0 <= offset {
        starts.last().1
    } else {
        line_of(starts.drop_last(), offset, number)
    }
}

/// The programs of a command's segments, each with the line it stands on.
pub open spec fn emitted(
    spans: Seq<(int, int)>,
    command: Seq<char>,
    starts: Seq<(int, int)>,
    number: int,
) -> Seq<(int, Seq<char>)>
    decreases spans.len(),
{
    if spans.len() == 0 {
        Seq::<(int, Seq<char>)>::empty()
    } else {
        let (a, b) = spans.last();
        emitted(spans.drop_last(), command, starts, number) + match program_in(
            words(command.subrange(a, b)),
        ) {
            Some(p) => seq![(line_of(starts, a, number), p)],
            None => Seq::<(int, Seq<char>)>::empty(),
        }
    }
}

/// Whether a text opens with two given characters.
pub open spec fn opens_with(s: Seq<char>, a: char, b: char) -> bool {
    s.len() >= 2 && s[0] == a && s[1] == b
}

/// One line of a block read into the state before it. A here-document's body
/// is skipped to its end word. A line that opens a command drops a `$ `
/// prompt, and in a console block a line with no prompt is output rather than
/// a command; a continuation in a console block drops a `> ` prompt. A blank
/// line and a comment open no command. A line that ends in a backslash
/// continues on the next; any other ends the command, whose segments' programs
/// are found.
pub open spec fn read_line(r: Reading, number: int, raw: Seq<char>, console: bool) -> Reading {
    match r.heredoc {
        Some(end) => if trim(raw) == end {
            Reading { heredoc: None, ..r }
        } else {
            r
        },
        None => {
            let continuing = r.starts.len() > 0;
            let t = trim_start(raw);
            let skip = !continuing && !opens_with(t, '$', ' ') && console;
            let line = if continuing {
                if console && opens_with(t, '>', ' ') {
                    t.skip(2)
                } else {
                    raw
                }
            } else if opens_with(t, '$', ' ') {
                t.skip(2)
            } else {
                raw
            };
            let trimmed = trim(line);
            if skip || (!continuing && (trimmed.len() == 0 || trimmed[0] == '#')) {
                r
            } else {
                let starts = r.starts.push((r.command.len() as int, number));
                if trimmed.len() > 0 && trimmed.last() == '\\' {
                    Reading { command: r.command + trimmed.drop_last() + seq![' '], starts, ..r }
                } else {
                    let command = r.command + trimmed;
                    Reading {
                        found: r.found + emitted(segment_spans(command), command, starts, number),
                        command: Seq::<char>::empty(),
                        starts: Seq::<(int, int)>::empty(),
                        heredoc: heredoc_of(command),
                    }
                }
            }
        }
    }
}

/// A block's lines, read in order from the empty state.
pub open spec fn read_lines(lines: Seq<Seq<char>>, console: bool) -> Reading
    decreases lines.len(),
{
    if lines.len() == 0 {
        Reading {
            found: Seq::<(int, Seq<char>)>::empty(),
            command: Seq::<char>::empty(),
            starts: Seq::<(int, int)>::empty(),
            heredoc: None,
        }
    } else {
        read_line(
            read_lines(lines.drop_last(), console),
            lines.len() - 1,
            lines.last(),
            console,
        )
    }
}

/// Every program a block runs, with the line of the block it is written on.
pub open spec fn programs_in(text: Seq<char>, console: bool) -> Seq<(int, Seq<char>)> {
    read_lines(text_lines(text), console).found
}

/// The programs found so far, as numbers and characters.
pub open spec fn found_view(v: Seq<(usize, String)>) -> Seq<(int, Seq<char>)> {
    v.map_values(|p: (usize, String)| (p.0 as int, p.1@))
}

/// The line starts, as numbers.
pub open spec fn starts_view(v: Seq<(usize, usize)>) -> Seq<(int, int)> {
    v.map_values(|p: (usize, usize)| (p.0 as int, p.1 as int))
}

/// The line a position of the command came from.
fn line_at(starts: &Vec<(usize, usize)>, offset: usize, number: usize) -> (n: usize)
    ensures
        n == line_of(starts_view(starts@), offset as int, number as int),
{
    let ghost v = starts_view(starts@);
    let mut i: usize = starts.len();
    assert(v.take(i as int) =~= v);
    while i > 0
        invariant
            v == starts_view(starts@),
            i <= starts@.len(),
            line_of(v, offset as int, number as int) == line_of(v.take(i as int), offset as int, number as int),
        decreases i,
    {
        assert(v.take(i as int).drop_last() =~= v.take(i - 1));
        if starts[i - 1].0 <= offset {
            return starts[i - 1].1;
        }
        i = i - 1;
    }
    number
}

/// `found` with the programs of a finished command after it.
fn emit(
    found: &mut Vec<(usize, String)>,
    command: &[char],
    starts: &Vec<(usize, usize)>,
    number: usize,
)
    ensures
        found_view(final(found)@) == found_view(old(found)@) + emitted(
            segment_spans(command@),
            command@,
            starts_view(starts@),
            number as int,
        ),
{
    let spans = segments(command);
    let ghost sv = segment_spans(command@);
    let ghost base = found_view(found@);
    let mut i: usize = 0;
    assert(sv.take(0) =~= Seq::<(int, int)>::empty());
    assert(found_view(found@) =~= base + emitted(sv.take(0), command@, starts_view(starts@), number as int));
    while i < spans.len()
        invariant
            spans@.map_values(|p: (usize, usize)| (p.0 as int, p.1 as int)) == sv,
            sv == segment_spans(command@),
            forall|k: int| 0 <= k < spans@.len() ==> (#[trigger] spans@[k]).0 <= spans@[k].1 <= command@.len(),
            i <= spans@.len(),
            found_view(found@) == base + emitted(sv.take(i as int), command@, starts_view(starts@), number as int),
        decreases spans@.len() - i,
    {
        let (a, b) = spans[i];
        assert(sv[i as int] == (a as int, b as int));
        assert(sv.take(i + 1).drop_last() =~= sv.take(i as int));
        let seg = &command[a..b];
        assert(seg@ =~= command@.subrange(a as int, b as int));
        let ghost prior = found_view(found@);
        match program_of(seg) {
            Some(p) => {
                let line = line_at(starts, a, number);
                found.push((line, string_of(p.as_slice())));
                assert(found_view(found@) =~= prior + seq![(line as int, p@)]);
            },
            None => {
                assert(prior + Seq::<(int, Seq<char>)>::empty() =~= prior);
            },
        }
        i = i + 1;
    }
    assert(sv.take(i as int) =~= sv);
}

} // verus!

verus! {

/// The state of a read, as characters and numbers.
pub open spec fn reading_view(
    found: Seq<(usize, String)>,
    command: Seq<char>,
    starts: Seq<(usize, usize)>,
    heredoc: Option<Vec<char>>,
) -> Reading {
    Reading {
        found: found_view(found),
        command,
        starts: starts_view(starts),
        heredoc: match heredoc {
            Some(h) => Some(h@),
            None => None,
        },
    }
}

/// Every program a shell block runs, with the line of the block it is
/// written on, counting from 0. A console block is read for its prompted lines
/// alone.
pub fn programs(text: &str, console: bool) -> (out: Vec<(usize, String)>)
    ensures
        found_view(out@) == programs_in(text@, console),
{
    let chars = chars_of(text);
    let lines = lines_of(chars.as_slice());
    let ghost ls = text_lines(text@);
    let mut found: Vec<(usize, String)> = Vec::new();
    let mut command: Vec<char> = Vec::new();
    let mut starts: Vec<(usize, usize)> = Vec::new();
    let mut heredoc: Option<Vec<char>> = None;
    proof {
        assert(ls.take(0) =~= Seq::<Seq<char>>::empty());
        assert(found_view(found@) =~= Seq::<(int, Seq<char>)>::empty());
        assert(starts_view(starts@) =~= Seq::<(int, int)>::empty());
        assert(command@ =~= Seq::<char>::empty());
    }
    let mut i: usize = 0;
    while i < lines.len()
        invariant
            views(lines@) == ls,
            ls == text_lines(text@),
            i <= ls.len(),
            reading_view(found@, command@, starts@, heredoc) == read_lines(ls.take(i as int), console),
        decreases ls.len() - i,
    {
        let raw = lines[i].as_slice();
        let ghost prev = reading_view(found@, command@, starts@, heredoc);
        let ghost next = read_line(prev, i as int, raw@, console);
        proof {
            assert(ls[i as int] == raw@);
            assert(ls.take(i + 1).drop_last() =~= ls.take(i as int));
            assert(read_lines(ls.take(i + 1), console) == next);
        }
        let ended = match &heredoc {
            Some(end) => {
                let t = trimmed(raw);
                Some(same(t.as_slice(), end.as_slice()))
            },
            None => None,
        };
        match ended {
            Some(true) => {
                heredoc = None;
                i = i + 1;
                continue;
            },
            Some(false) => {
                i = i + 1;
                continue;
            },
            None => {},
        }
        let continuing = starts.len() > 0;
        let t = trimmed_start(raw);
        let prompted = t.len() >= 2 && t[0] == '$' && t[1] == ' ';
        if !continuing && !prompted && console {
            i = i + 1;
            continue;
        }
        let line: &[char] = if continuing {
            if console && t.len() >= 2 && t[0] == '>' && t[1] == ' ' {
                &t[2..t.len()]
            } else {
                raw
            }
        } else if prompted {
            &t[2..t.len()]
        } else {
            raw
        };
        proof {
            if t@.len() >= 2 {
                assert(t@.subrange(2, t@.len() as int) =~= t@.skip(2));
            }
        }
        let tr = trimmed(line);
        if !continuing && (tr.len() == 0 || tr[0] == '#') {
            i = i + 1;
            continue;
        }
        let ghost pushed = starts_view(starts@).push((command@.len() as int, i as int));
        starts.push((command.len(), i));
        assert(starts_view(starts@) =~= pushed);
        if tr.len() > 0 && tr[tr.len() - 1] == '\\' {
            extend(&mut command, &tr.as_slice()[0..tr.len() - 1]);
            command.push(' ');
            assert(tr@.subrange(0, tr@.len() - 1) =~= tr@.drop_last());
            assert(command@ =~= prev.command + tr@.drop_last() + seq![' ']);
        } else {
            extend(&mut command, tr.as_slice());
            emit(&mut found, command.as_slice(), &starts, i);
            heredoc = heredoc_end(command.as_slice());
            command = Vec::new();
            starts = Vec::new();
            assert(starts_view(starts@) =~= Seq::<(int, int)>::empty());
            assert(command@ =~= Seq::<char>::empty());
        }
        i = i + 1;
    }
    assert(ls.take(i as int) =~= ls);
    found
}

} // verus!

verus! {

/// One run of a block: its text, the line it starts on, and whether the parser
/// gave it to code.
#[derive(Clone, Debug, PartialEq, Eq)]
pub struct Run {
    pub text: String,
    pub line: usize,
    pub code: bool,
}

/// One block of a document's body: its kind, the info string of a fence, and
/// its runs.
#[derive(Clone, Debug, PartialEq, Eq)]
pub struct Block {
    pub kind: BlockKind,
    pub info: Option<String>,
    pub runs: Vec<Run>,
}

/// Whether an info string marks a block as commands to run: `sh`, `shell`,
/// `bash` or `console`, compared exactly.
pub open spec fn is_shell(info: Seq<char>) -> bool {
    info == "sh"@ || info == "shell"@ || info == "bash"@ || info == "console"@
}

/// The text of the code runs of a block, in order.
pub open spec fn code_text(runs: Seq<Run>) -> Seq<char>
    decreases runs.len(),
{
    if runs.len() == 0 {
        Seq::empty()
    } else if runs.last().code {
        code_text(runs.drop_last()) + runs.last().text@
    } else {
        code_text(runs.drop_last())
    }
}

/// A program compared by the last segment of its path.
pub open spec fn last_segment(program: Seq<char>) -> Seq<char> {
    pieces(program, '/').last()
}

/// Whether a list of commands declares a name.
pub open spec fn declares(commands: Seq<String>, name: Seq<char>) -> bool {
    exists|i: int| 0 <= i < commands.len() && (#[trigger] commands[i])@ == name
}

/// The shell block a block is, with the line of its first run and whether it
/// is a console block, and nothing for any other block.
pub open spec fn shell_block(b: Block) -> Option<(int, Seq<char>, bool)> {
    match b.info {
        None => None,
        Some(info) => if b.kind != BlockKind::Code || !is_shell(info@) || b.runs@.len() == 0 {
            None
        } else {
            Some((b.runs@[0].line as int, code_text(b.runs@), info@ == "console"@))
        },
    }
}

/// The programs a shell block runs that the commands do not declare: each
/// with the line it stands on and its name, in the order the block runs them.
pub open spec fn undeclared_in(found: Seq<(int, Seq<char>)>, first: int, commands: Seq<String>) -> Seq<
    (int, Seq<char>),
>
    decreases found.len(),
{
    if found.len() == 0 {
        Seq::empty()
    } else {
        let rest = undeclared_in(found.drop_last(), first, commands);
        let name = last_segment(found.last().1);
        if declares(commands, name) {
            rest
        } else {
            rest.push((first + found.last().0, name))
        }
    }
}

/// The undeclared programs of a body, block by block.
pub open spec fn undeclared_of(blocks: Seq<Block>, commands: Seq<String>) -> Seq<(int, Seq<char>)>
    decreases blocks.len(),
{
    if blocks.len() == 0 {
        Seq::empty()
    } else {
        undeclared_of(blocks.drop_last(), commands) + match shell_block(blocks.last()) {
            None => Seq::empty(),
            Some((first, text, console)) => undeclared_in(programs_in(text, console), first, commands),
        }
    }
}

/// One more entry put after every entry on its line or an earlier one.
pub open spec fn insert_by_line(v: Seq<(int, Seq<char>)>, x: (int, Seq<char>)) -> Seq<(int, Seq<char>)>
    decreases v.len(),
{
    if v.len() == 0 || v.last().0 <= x.0 {
        v.push(x)
    } else {
        insert_by_line(v.drop_last(), x).push(v.last())
    }
}

/// Entries in line order, those on one line in the order they came.
pub open spec fn by_line(v: Seq<(int, Seq<char>)>) -> Seq<(int, Seq<char>)>
    decreases v.len(),
{
    if v.len() == 0 {
        Seq::empty()
    } else {
        insert_by_line(by_line(v.drop_last()), v.last())
    }
}

/// Whether every program of every shell block, put at its line, fits a line
/// number.
pub open spec fn lines_fit(blocks: Seq<Block>) -> bool {
    forall|i: int, k: int|
        0 <= i < blocks.len() && (#[trigger] shell_block(blocks[i])) is Some && 0 <= k < programs_in(
            shell_block(blocks[i]).unwrap().1,
            shell_block(blocks[i]).unwrap().2,
        ).len() ==> shell_block(blocks[i]).unwrap().0 + #[trigger] programs_in(
            shell_block(blocks[i]).unwrap().1,
            shell_block(blocks[i]).unwrap().2,
        )[k].0 <= usize::MAX
}

/// The finding for one undeclared program, at its line.
pub open spec fn command_finding(f: Finding, path: Seq<char>, x: (int, Seq<char>)) -> bool {
    &&& f.rule == RULE
    &&& f.severity == Severity::Error
    &&& f.obligation is None
    &&& f.path@ == path
    &&& f.line == x.0
    &&& f.column == 1
    &&& f.message@ == "a shell block runs `"@ + x.1
        + "`, and `commands` of the consumer surface does not declare it (HW-DR-0077)"@
    &&& f.remediation@ == "add `"@ + x.1
        + "` to `surface.commands` if an adopter must have it installed, name a declared command that does this, or mark the step as a deliberate exception with `<!-- headwater allow="@
        + RULE@ + " scope=block reason=accepted_deviation ... -->`"@
    &&& f.patch is None
}

/// A shell block found, as numbers and characters.
pub open spec fn shell_view(s: Option<(usize, Vec<char>, bool)>) -> Option<(int, Seq<char>, bool)> {
    match s {
        Some((f, t, c)) => Some((f as int, t@, c)),
        None => None,
    }
}

/// Whether an info string marks a shell block.
fn shell_info(info: &str) -> (r: bool)
    ensures
        r == is_shell(info@),
{
    str_eq(info, "sh") || str_eq(info, "shell") || str_eq(info, "bash") || str_eq(info, "console")
}

/// The text of the code runs of a block, joined.
fn code_of(runs: &[Run]) -> (t: Vec<char>)
    ensures
        t@ == code_text(runs@),
{
    let mut out: Vec<char> = Vec::new();
    let mut i: usize = 0;
    while i < runs.len()
        invariant
            i <= runs@.len(),
            out@ == code_text(runs@.take(i as int)),
        decreases runs@.len() - i,
    {
        assert(runs@.take(i + 1).drop_last() =~= runs@.take(i as int));
        assert(runs@.take(i + 1).last() == runs@[i as int]);
        if runs[i].code {
            extend_str(&mut out, runs[i].text.as_str());
        }
        i = i + 1;
    }
    assert(runs@.take(i as int) =~= runs@);
    out
}

/// The last segment of a program's path.
fn last_segment_of(program: &str) -> (name: String)
    ensures
        name@ == last_segment(program@),
{
    let parts = split_char(chars_of(program).as_slice(), '/');
    proof {
        crate::text::lemma_pieces_nonempty(program@, '/');
    }
    let last = parts.len() - 1;
    assert(views(parts@)[last as int] == parts@[last as int]@);
    string_of(parts[last].as_slice())
}

/// Whether a list of commands declares a name.
fn declared_in(commands: &[String], name: &str) -> (r: bool)
    ensures
        r == declares(commands@, name@),
{
    let mut i: usize = 0;
    while i < commands.len()
        invariant
            i <= commands@.len(),
            forall|k: int| 0 <= k < i ==> (#[trigger] commands@[k])@ != name@,
        decreases commands@.len() - i,
    {
        if str_eq(commands[i].as_str(), name) {
            return true;
        }
        i = i + 1;
    }
    false
}

/// Putting an entry after every entry on its line or an earlier one is
/// inserting it where the later lines start.
proof fn lemma_insert_by_line(v: Seq<(int, Seq<char>)>, x: (int, Seq<char>), p: int)
    requires
        0 <= p <= v.len(),
        forall|j: int| p <= j < v.len() ==> (#[trigger] v[j]).0 > x.0,
        p == 0 || v[p - 1].0 <= x.0,
    ensures
        insert_by_line(v, x) == v.insert(p, x),
    decreases v.len() - p,
{
    if p == v.len() {
        assert(v.push(x) =~= v.insert(p, x));
    } else {
        let init = v.drop_last();
        assert forall|j: int| p <= j < init.len() implies (#[trigger] init[j]).0 > x.0 by {
            assert(init[j] == v[j]);
        }
        if p > 0 {
            assert(init[p - 1] == v[p - 1]);
        }
        lemma_insert_by_line(init, x, p);
        assert(init.insert(p, x).push(v.last()) =~= v.insert(p, x));
    }
}

/// Put one entry where its line puts it, after every entry on its line.
fn insert_at_line(v: &mut Vec<(usize, String)>, x: (usize, String))
    ensures
        found_view(final(v)@) == insert_by_line(found_view(old(v)@), (x.0 as int, x.1@)),
{
    let mut p: usize = v.len();
    while p > 0 && v[p - 1].0 > x.0
        invariant
            p <= v@.len(),
            forall|j: int| p <= j < v@.len() ==> (#[trigger] v@[j]).0 > x.0,
        decreases p,
    {
        p = p - 1;
    }
    proof {
        let w = found_view(v@);
        assert forall|j: int| p <= j < w.len() implies (#[trigger] w[j]).0 > x.0 by {
            assert(w[j].0 == v@[j].0);
        }
        if p > 0 {
            assert(w[p - 1].0 == v@[p - 1].0);
        }
        lemma_insert_by_line(w, (x.0 as int, x.1@), p as int);
    }
    let ghost before = v@;
    let ghost xv = x;
    v.insert(p, x);
    proof {
        assert(found_view(v@) =~= found_view(before).insert(p as int, (xv.0 as int, xv.1@)));
    }
}

/// The check, generated from the consumer surface: the pages an adopter
/// receives, and the commands an adopter must have installed.
pub struct Undeclared {
    adopter_documents: Vec<String>,
    commands: Vec<String>,
}

impl Undeclared {
    pub closed spec fn commands_view(&self) -> Seq<String> {
        self.commands@
    }

    pub closed spec fn declared_view(&self) -> bool {
        self.adopter_documents@.len() > 0 && self.commands@.len() > 0
    }

    /// The generation step. A surface that names no adopter document or no
    /// command generates no instance.
    pub fn over(adopter_documents: Vec<String>, commands: Vec<String>) -> (u: Self)
        ensures
            u.commands_view() == commands@,
            u.declared_view() == (adopter_documents@.len() > 0 && commands@.len() > 0),
    {
        Undeclared { adopter_documents, commands }
    }

    /// Whether the surface declares both halves the rule reads.
    pub fn instantiates(&self) -> (r: bool)
        ensures
            r == self.declared_view(),
    {
        self.adopter_documents.len() > 0 && self.commands.len() > 0
    }

    /// Every program the shell blocks of a page for an adopter run that the
    /// surface does not declare, at the line its command starts on, in line
    /// order. `for_an_adopter` is whether the page's path matches one of the
    /// surface's adopter documents; a page that is not one, or a surface that
    /// declares nothing, passes.
    pub fn evaluate(&self, for_an_adopter: bool, path: &str, body: Option<&[Block]>) -> (o: Outcome)
        requires
            match body {
                Some(b) => lines_fit(b@),
                None => true,
            },
        ensures
            ({
                let w = if !self.declared_view() || !for_an_adopter {
                    Seq::empty()
                } else {
                    match body {
                        Some(b) => by_line(undeclared_of(b@, self.commands_view())),
                        None => Seq::empty(),
                    }
                };
                &&& w.len() == 0 ==> o is Passed
                &&& w.len() > 0 ==> (o matches Outcome::Failed(v) && v@.len() == w.len() && forall|k: int|
                    0 <= k < w.len() ==> command_finding(#[trigger] v@[k], path@, w[k]))
            }),
    {
        if !self.instantiates() || !for_an_adopter {
            return Outcome::Passed;
        }
        let blocks: &[Block] = match body {
            Some(b) => b,
            None => &[],
        };
        let ghost all = match body {
            Some(b) => undeclared_of(b@, self.commands@),
            None => Seq::<(int, Seq<char>)>::empty(),
        };
        proof {
            if body is None {
                assert(blocks@ =~= Seq::<Block>::empty());
            }
            assert(undeclared_of(blocks@, self.commands@) == all);
        }
        let mut sorted: Vec<(usize, String)> = Vec::new();
        let mut i: usize = 0;
        assert(blocks@.take(0) =~= Seq::<Block>::empty());
        while i < blocks.len()
            invariant
                i <= blocks@.len(),
                lines_fit(blocks@),
                found_view(sorted@) == by_line(undeclared_of(blocks@.take(i as int), self.commands@)),
            decreases blocks@.len() - i,
        {
            let ghost done = undeclared_of(blocks@.take(i as int), self.commands@);
            assert(blocks@.take(i + 1).drop_last() =~= blocks@.take(i as int));
            assert(blocks@.take(i + 1).last() == blocks@[i as int]);
            let block = &blocks[i];
            let mut shell: Option<(usize, Vec<char>, bool)> = None;
            if let Some(info) = &block.info {
                if block.kind == BlockKind::Code && shell_info(info.as_str()) && block.runs.len() > 0 {
                    let console = str_eq(info.as_str(), "console");
                    shell = Some((block.runs[0].line, code_of(block.runs.as_slice()), console));
                }
            }
            assert(shell_block(*block) == shell_view(shell));
            match shell {
                None => {
                    assert(undeclared_of(blocks@.take(i + 1), self.commands@) =~= done);
                },
                Some((first, text, console)) => {
                    let found = programs(string_of(text.as_slice()).as_str(), console);
                    let ghost fv = found_view(found@);
                    assert(fv == programs_in(text@, console));
                    let mut j: usize = 0;
                    assert(fv.take(0) =~= Seq::<(int, Seq<char>)>::empty());
                    assert(done + undeclared_in(fv.take(0), first as int, self.commands@) =~= done);
                    while j < found.len()
                        invariant
                            j <= found@.len(),
                            fv == found_view(found@),
                            lines_fit(blocks@),
                            i < blocks@.len(),
                            shell_block(blocks@[i as int]) == Some((first as int, text@, console)),
                            fv == programs_in(text@, console),
                            found_view(sorted@) == by_line(
                                done + undeclared_in(fv.take(j as int), first as int, self.commands@),
                            ),
                        decreases found@.len() - j,
                    {
                        let ghost head = done + undeclared_in(fv.take(j as int), first as int, self.commands@);
                        assert(fv.take(j + 1).drop_last() =~= fv.take(j as int));
                        assert(fv.take(j + 1).last() == fv[j as int]);
                        assert(fv[j as int] == (found@[j as int].0 as int, found@[j as int].1@));
                        let name = last_segment_of(found[j].1.as_str());
                        if !declared_in(self.commands.as_slice(), name.as_str()) {
                            assert(first + fv[j as int].0 <= usize::MAX) by {
                                let sb = shell_block(blocks@[i as int]);
                                assert(sb is Some);
                                assert(programs_in(sb.unwrap().1, sb.unwrap().2)[j as int] == fv[j as int]);
                                assert(sb.unwrap().0 + programs_in(sb.unwrap().1, sb.unwrap().2)[j as int].0 <= usize::MAX);
                            }
                            let line = first + found[j].0;
                            let ghost x = (line as int, name@);
                            insert_at_line(&mut sorted, (line, name));
                            assert(done + undeclared_in(fv.take(j + 1), first as int, self.commands@) =~= head.push(x));
                            assert(by_line(head.push(x)) == insert_by_line(by_line(head), x)) by {
                                assert(head.push(x).drop_last() =~= head);
                            }
                        } else {
                            assert(done + undeclared_in(fv.take(j + 1), first as int, self.commands@) =~= head);
                        }
                        j = j + 1;
                    }
                    assert(fv.take(j as int) =~= fv);
                    assert(undeclared_of(blocks@.take(i + 1), self.commands@) =~= done + undeclared_in(
                        fv,
                        first as int,
                        self.commands@,
                    ));
                },
            }
            i = i + 1;
        }
        assert(blocks@.take(i as int) =~= blocks@);
        let ghost w = found_view(sorted@);
        let mut findings: Vec<Finding> = Vec::new();
        let mut k: usize = 0;
        while k < sorted.len()
            invariant
                k <= sorted@.len(),
                w == found_view(sorted@),
                findings@.len() == k,
                forall|t: int| 0 <= t < k ==> command_finding(#[trigger] findings@[t], path@, w[t]),
            decreases sorted@.len() - k,
        {
            let name = sorted[k].1.as_str();
            let mut m: Vec<char> = chars_of("a shell block runs `");
            extend_str(&mut m, name);
            extend_str(&mut m, "`, and `commands` of the consumer surface does not declare it (HW-DR-0077)");
            let mut r: Vec<char> = chars_of("add `");
            extend_str(&mut r, name);
            extend_str(
                &mut r,
                "` to `surface.commands` if an adopter must have it installed, name a declared command that does this, or mark the step as a deliberate exception with `<!-- headwater allow=",
            );
            extend_str(&mut r, RULE);
            extend_str(&mut r, " scope=block reason=accepted_deviation ... -->`");
            findings.push(
                Finding {
                    rule: RULE,
                    severity: Severity::Error,
                    obligation: None,
                    path: owned(path),
                    line: sorted[k].0,
                    column: 1,
                    message: string_of(m.as_slice()),
                    remediation: string_of(r.as_slice()),
                    patch: None,
                },
            );
            k = k + 1;
        }
        Outcome::failed(findings)
    }
}

} // verus!
