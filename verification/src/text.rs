//! Characters and strings: the reading and writing every report shares.
//!
//! Text is read as a sequence of `char`s and written back into a `String`.
//! The spec functions below say what `str::split`, `str::split_whitespace`,
//! `str::trim` and `str::join` compute, and the executable functions are
//! proved against them.
use vstd::prelude::*;
use crate::context::digits_value;
use vstd::string::*;

verus! {

broadcast use vstd::string::group_string_axioms;

/// Whether `c` carries the Unicode `White_Space` property, which is what
/// `char::is_whitespace` reads.
pub open spec fn is_space(c: char) -> bool {
    let u = c as u32;
    ||| 0x09 <= u <= 0x0D
    ||| u == 0x20
    ||| u == 0x85
    ||| u == 0xA0
    ||| u == 0x1680
    ||| 0x2000 <= u <= 0x200A
    ||| u == 0x2028
    ||| u == 0x2029
    ||| u == 0x202F
    ||| u == 0x205F
    ||| u == 0x3000
}

/// `char::is_whitespace`.
pub fn is_whitespace(c: char) -> (r: bool)
    ensures
        r == is_space(c),
{
    let u = c as u32;
    (0x09 <= u && u <= 0x0D) || u == 0x20 || u == 0x85 || u == 0xA0 || u == 0x1680 || (0x2000
        <= u && u <= 0x200A) || u == 0x2028 || u == 0x2029 || u == 0x202F || u == 0x205F || u
        == 0x3000
}

/// The pieces `str::split(sep)` yields: always at least one, and an empty
/// piece on either side of a separator at an end.
pub open spec fn pieces(s: Seq<char>, sep: char) -> Seq<Seq<char>>
    decreases s.len(),
{
    if s.len() == 0 {
        seq![Seq::<char>::empty()]
    } else {
        let before = pieces(s.drop_last(), sep);
        if s.last() == sep {
            before.push(Seq::<char>::empty())
        } else {
            before.update(before.len() - 1, before.last().push(s.last()))
        }
    }
}

pub proof fn lemma_pieces_nonempty(s: Seq<char>, sep: char)
    ensures
        pieces(s, sep).len() >= 1,
    decreases s.len(),
{
    if s.len() > 0 {
        lemma_pieces_nonempty(s.drop_last(), sep);
    }
}

/// The pieces joined with `sep` between each two, which is `[&str]::join`.
pub open spec fn join(parts: Seq<Seq<char>>, sep: Seq<char>) -> Seq<char>
    decreases parts.len(),
{
    if parts.len() == 0 {
        Seq::<char>::empty()
    } else if parts.len() == 1 {
        parts[0]
    } else {
        join(parts.drop_last(), sep) + sep + parts.last()
    }
}

/// Splitting on a character and joining on it gives the text back.
pub proof fn lemma_join_pieces(s: Seq<char>, sep: char)
    ensures
        join(pieces(s, sep), seq![sep]) == s,
    decreases s.len(),
{
    lemma_pieces_nonempty(s, sep);
    if s.len() > 0 {
        let p = s.drop_last();
        lemma_join_pieces(p, sep);
        lemma_pieces_nonempty(p, sep);
        let before = pieces(p, sep);
        if s.last() == sep {
            assert(pieces(s, sep).drop_last() =~= before);
            assert(s =~= p + seq![sep] + Seq::<char>::empty());
        } else {
            let after = pieces(s, sep);
            if before.len() == 1 {
                assert(after[0] =~= p.push(s.last()));
                assert(s =~= p.push(s.last()));
            } else {
                assert(after.drop_last() =~= before.drop_last());
                assert(join(before, seq![sep]) == join(before.drop_last(), seq![sep]) + seq![sep]
                    + before.last());
                assert(join(after, seq![sep]) == join(after.drop_last(), seq![sep]) + seq![sep]
                    + after.last());
                assert(s =~= p.push(s.last()));
                assert(join(after, seq![sep]) =~= join(before, seq![sep]).push(s.last()));
            }
        }
    }
}

/// No piece holds the separator.
pub proof fn lemma_pieces_free_of(s: Seq<char>, sep: char)
    ensures
        forall|i: int|
            0 <= i < pieces(s, sep).len() ==> !(#[trigger] pieces(s, sep)[i]).contains(sep),
    decreases s.len(),
{
    lemma_pieces_nonempty(s, sep);
    if s.len() > 0 {
        lemma_pieces_free_of(s.drop_last(), sep);
        lemma_pieces_nonempty(s.drop_last(), sep);
        let before = pieces(s.drop_last(), sep);
        if s.last() != sep {
            assert forall|i: int| 0 <= i < pieces(s, sep).len() implies !(#[trigger] pieces(
                s,
                sep,
            )[i]).contains(sep) by {
                if i == before.len() - 1 {
                    let p = before.last().push(s.last());
                    if p.contains(sep) {
                        let k = choose|k: int| 0 <= k < p.len() && p[k] == sep;
                        assert(before.last()[k] == sep);
                    }
                }
            }
        }
    }
}

/// A line as `str::lines` yields it: a line that ended in `\n` loses one
/// `\r` before it.
pub open spec fn without_cr(line: Seq<char>) -> Seq<char> {
    if line.len() > 0 && line.last() == '\r' {
        line.drop_last()
    } else {
        line
    }
}

/// The lines `str::lines` yields: split at `\n`, a `\r` before a `\n`
/// dropped, and no empty line after a final line ending.
pub open spec fn text_lines(s: Seq<char>) -> Seq<Seq<char>> {
    let parts = pieces(s, '\n');
    let ended = parts.drop_last().map_values(|l: Seq<char>| without_cr(l));
    if parts.last().len() == 0 {
        ended
    } else {
        ended.push(parts.last())
    }
}

/// The lines of a text, which is `str::lines`.
pub fn lines_of(s: &[char]) -> (out: Vec<Vec<char>>)
    ensures
        views(out@) == text_lines(s@),
{
    let parts = split_char(s, '\n');
    proof {
        lemma_pieces_nonempty(s@, '\n');
    }
    let mut out: Vec<Vec<char>> = Vec::new();
    let last = parts.len() - 1;
    let mut i: usize = 0;
    while i < last
        invariant
            last == parts@.len() - 1,
            views(parts@) == pieces(s@, '\n'),
            i <= last,
            views(out@) == views(parts@).take(i as int).map_values(|l: Seq<char>| without_cr(l)),
        decreases last - i,
    {
        let line = &parts[i];
        let mut kept: Vec<char> = Vec::new();
        if line.len() > 0 && line[line.len() - 1] == '\r' {
            extend(&mut kept, &line.as_slice()[0..line.len() - 1]);
            assert(kept@ =~= line@.drop_last());
        } else {
            extend(&mut kept, line.as_slice());
        }
        assert(views(parts@)[i as int] == line@);
        assert(kept@ == without_cr(line@));
        let ghost prior = views(out@);
        out.push(kept);
        assert(views(out@) =~= prior.push(without_cr(line@)));
        i = i + 1;
        assert(views(out@) =~= views(parts@).take(i as int).map_values(|l: Seq<char>| without_cr(l)));
    }
    assert(views(parts@).take(i as int) =~= views(parts@).drop_last());
    if parts[last].len() > 0 {
        let mut tail: Vec<char> = Vec::new();
        extend(&mut tail, parts[last].as_slice());
        out.push(tail);
        assert(views(out@) =~= text_lines(s@));
    } else {
        assert(views(out@) =~= text_lines(s@));
    }
    out
}

/// The words `str::split_whitespace` yields: the maximal runs of characters
/// that are not white space, in order.
pub open spec fn words(s: Seq<char>) -> Seq<Seq<char>>
    decreases s.len(),
{
    if s.len() == 0 {
        Seq::<Seq<char>>::empty()
    } else {
        let before = words(s.drop_last());
        let c = s.last();
        if is_space(c) {
            before
        } else if s.len() == 1 || is_space(s.drop_last().last()) {
            before.push(seq![c])
        } else {
            before.update(before.len() - 1, before.last().push(c))
        }
    }
}

/// Every word is non-empty and holds no white space, and a text that does
/// not end in white space ends in its last word.
pub proof fn lemma_words_shape(s: Seq<char>)
    ensures
        forall|i: int|
            0 <= i < words(s).len() ==> (#[trigger] words(s)[i]).len() > 0 && forall|k: int|
                0 <= k < words(s)[i].len() ==> !is_space(#[trigger] words(s)[i][k]),
        s.len() > 0 && !is_space(s.last()) ==> words(s).len() > 0,
    decreases s.len(),
{
    if s.len() > 0 {
        lemma_words_shape(s.drop_last());
        let before = words(s.drop_last());
        if !is_space(s.last()) && !(s.len() == 1 || is_space(s.drop_last().last())) {
            assert(before.len() > 0);
        }
        assert forall|i: int| 0 <= i < words(s).len() implies (#[trigger] words(s)[i]).len() > 0
            && forall|k: int| 0 <= k < words(s)[i].len() ==> !is_space(#[trigger] words(s)[i][k]) by {
            if i < before.len() && i != before.len() - 1 {
                assert(words(s)[i] == before[i]);
            }
        }
    }
}

/// The text with its leading white space dropped, which is `str::trim_start`.
pub open spec fn trim_start(s: Seq<char>) -> Seq<char>
    decreases s.len(),
{
    if s.len() > 0 && is_space(s[0]) {
        trim_start(s.skip(1))
    } else {
        s
    }
}

/// The text with its trailing white space dropped, which is `str::trim_end`.
pub open spec fn trim_end(s: Seq<char>) -> Seq<char>
    decreases s.len(),
{
    if s.len() > 0 && is_space(s.last()) {
        trim_end(s.drop_last())
    } else {
        s
    }
}

/// `str::trim`.
pub open spec fn trim(s: Seq<char>) -> Seq<char> {
    trim_end(trim_start(s))
}

/// How many leading characters of `s` are white space.
pub open spec fn leading_space(s: Seq<char>) -> nat
    decreases s.len(),
{
    if s.len() > 0 && is_space(s[0]) {
        1 + leading_space(s.skip(1))
    } else {
        0
    }
}

pub proof fn lemma_trim_start_is_skip(s: Seq<char>)
    ensures
        leading_space(s) <= s.len(),
        trim_start(s) == s.skip(leading_space(s) as int),
        forall|k: int| 0 <= k < leading_space(s) ==> is_space(#[trigger] s[k]),
        leading_space(s) < s.len() ==> !is_space(s[leading_space(s) as int]),
    decreases s.len(),
{
    if s.len() > 0 && is_space(s[0]) {
        lemma_trim_start_is_skip(s.skip(1));
        assert(s.skip(1).skip(leading_space(s.skip(1)) as int) =~= s.skip(
            leading_space(s) as int,
        ));
        assert forall|k: int| 0 <= k < leading_space(s) implies is_space(#[trigger] s[k]) by {
            if k > 0 {
                assert(s[k] == s.skip(1)[k - 1]);
            }
        }
    } else {
        assert(s.skip(0) =~= s);
    }
}

/// Whether `a` sorts strictly before `b`, comparing characters by their code
/// point, which is the order `str`'s `Ord` gives (UTF-8 keeps code point
/// order).
pub open spec fn lex_lt(a: Seq<char>, b: Seq<char>) -> bool
    decreases a.len(),
{
    if a.len() == 0 {
        b.len() > 0
    } else if b.len() == 0 {
        false
    } else if a[0] < b[0] {
        true
    } else if a[0] == b[0] {
        lex_lt(a.skip(1), b.skip(1))
    } else {
        false
    }
}

pub proof fn lemma_lex_irreflexive(a: Seq<char>)
    ensures
        !lex_lt(a, a),
    decreases a.len(),
{
    if a.len() > 0 {
        lemma_lex_irreflexive(a.skip(1));
    }
}

pub proof fn lemma_lex_transitive(a: Seq<char>, b: Seq<char>, c: Seq<char>)
    requires
        lex_lt(a, b),
        lex_lt(b, c),
    ensures
        lex_lt(a, c),
    decreases a.len(),
{
    if a.len() > 0 && b.len() > 0 && c.len() > 0 && a[0] == b[0] && b[0] == c[0] {
        lemma_lex_transitive(a.skip(1), b.skip(1), c.skip(1));
    }
}

pub proof fn lemma_lex_total(a: Seq<char>, b: Seq<char>)
    ensures
        a == b || lex_lt(a, b) || lex_lt(b, a),
    decreases a.len(),
{
    if a.len() > 0 && b.len() > 0 && a[0] == b[0] {
        lemma_lex_total(a.skip(1), b.skip(1));
        if a.skip(1) == b.skip(1) {
            assert(a =~= seq![a[0]] + a.skip(1));
            assert(b =~= seq![b[0]] + b.skip(1));
        }
    } else if a.len() > 0 && b.len() > 0 {
        assert(a[0] != b[0]);
    } else if a.len() == 0 && b.len() == 0 {
        assert(a =~= b);
    }
}

pub proof fn lemma_lex_asymmetric(a: Seq<char>, b: Seq<char>)
    requires
        lex_lt(a, b),
    ensures
        !lex_lt(b, a),
        a != b,
{
    if lex_lt(b, a) {
        lemma_lex_transitive(a, b, a);
        lemma_lex_irreflexive(a);
    }
    if a == b {
        lemma_lex_irreflexive(a);
    }
}

/// Whether `a` sorts strictly before `b`.
pub fn lex_less(a: &[char], b: &[char]) -> (r: bool)
    ensures
        r == lex_lt(a@, b@),
{
    let mut i: usize = 0;
    proof {
        assert(a@.skip(0) =~= a@);
        assert(b@.skip(0) =~= b@);
    }
    while i < a.len() && i < b.len() && a[i] == b[i]
        invariant
            i <= a@.len(),
            i <= b@.len(),
            a@.take(i as int) == b@.take(i as int),
            lex_lt(a@, b@) == lex_lt(a@.skip(i as int), b@.skip(i as int)),
        decreases a@.len() - i,
    {
        proof {
            let (x, y) = (a@.skip(i as int), b@.skip(i as int));
            assert(x.skip(1) =~= a@.skip(i + 1));
            assert(y.skip(1) =~= b@.skip(i + 1));
            assert(a@.take(i + 1) =~= a@.take(i as int).push(a@[i as int]));
            assert(b@.take(i + 1) =~= b@.take(i as int).push(b@[i as int]));
        }
        i = i + 1;
    }
    if i == a.len() {
        i < b.len()
    } else if i == b.len() {
        false
    } else {
        a[i] < b[i]
    }
}

/// The characters each run of a list holds.
pub open spec fn views(v: Seq<Vec<char>>) -> Seq<Seq<char>> {
    Seq::new(v.len(), |i: int| v[i]@)
}

/// The characters of a string, in order.
pub fn chars_of(text: &str) -> (out: Vec<char>)
    ensures
        out@ == text@,
{
    let mut out: Vec<char> = Vec::new();
    for c in it: text.chars()
        invariant
            out@ == it.seq().take(it.index() as int),
            it.seq() == text@,
    {
        out.push(c);
    }
    out
}

/// A string holding exactly these characters. `String::from_iter`.
#[verifier::external_body]
pub fn string_of(chars: &[char]) -> (out: String)
    ensures
        out@ == chars@,
{
    String::from_iter(chars.iter())
}

/// A string holding the characters of `text`.
pub fn owned(text: &str) -> (out: String)
    ensures
        out@ == text@,
{
    String::from_str(text)
}

/// `s` with `more` after it.
pub fn extend(out: &mut Vec<char>, more: &[char])
    ensures
        final(out)@ == old(out)@ + more@,
{
    let ghost start = out@;
    let mut i: usize = 0;
    while i < more.len()
        invariant
            i <= more@.len(),
            out@ == start + more@.take(i as int),
        decreases more@.len() - i,
    {
        out.push(more[i]);
        i = i + 1;
        assert(more@.take(i as int) =~= more@.take(i - 1) + seq![more@[i - 1]]);
    }
    assert(more@.take(i as int) =~= more@);
}

/// `s` with the characters of `text` after it.
pub fn extend_str(out: &mut Vec<char>, text: &str)
    ensures
        final(out)@ == old(out)@ + text@,
{
    let chars = chars_of(text);
    extend(out, chars.as_slice());
}

/// Whether two runs of characters are equal.
pub fn same(a: &[char], b: &[char]) -> (r: bool)
    ensures
        r == (a@ == b@),
{
    if a.len() != b.len() {
        return false;
    }
    let mut i: usize = 0;
    while i < a.len()
        invariant
            a@.len() == b@.len(),
            i <= a@.len(),
            forall|k: int| 0 <= k < i ==> a@[k] == b@[k],
        decreases a@.len() - i,
    {
        if a[i] != b[i] {
            return false;
        }
        i = i + 1;
    }
    assert(a@ =~= b@);
    true
}

/// Whether a run of characters spells `text`.
pub fn spells(a: &[char], text: &str) -> (r: bool)
    ensures
        r == (a@ == text@),
{
    let b = chars_of(text);
    same(a, b.as_slice())
}

/// Whether two strings hold the same characters.
pub fn str_eq(a: &str, b: &str) -> (r: bool)
    ensures
        r == (a@ == b@),
{
    let x = chars_of(a);
    let y = chars_of(b);
    same(x.as_slice(), y.as_slice())
}

/// Whether `text` opens with `head`, which is `str::starts_with`.
pub fn begins_with(text: &str, head: &str) -> (r: bool)
    ensures
        r == head@.is_prefix_of(text@),
{
    let t = chars_of(text);
    let h = chars_of(head);
    if h.len() > t.len() {
        return false;
    }
    let mut i: usize = 0;
    while i < h.len()
        invariant
            h@ == head@,
            t@ == text@,
            h@.len() <= t@.len(),
            i <= h@.len(),
            forall|k: int| 0 <= k < i ==> h@[k] == t@[k],
        decreases h@.len() - i,
    {
        if h[i] != t[i] {
            assert(!head@.is_prefix_of(text@)) by {
                if head@.is_prefix_of(text@) {
                    assert(head@ =~= text@.subrange(0, head@.len() as int));
                    assert(text@.subrange(0, head@.len() as int)[i as int] == text@[i as int]);
                }
            }
            return false;
        }
        i = i + 1;
    }
    assert(h@ =~= t@.subrange(0, h@.len() as int));
    true
}

/// The pieces of `s` between the occurrences of `sep`, which is `str::split`.
pub fn split_char(s: &[char], sep: char) -> (out: Vec<Vec<char>>)
    ensures
        views(out@) == pieces(s@, sep),
{
    let mut done: Vec<Vec<char>> = Vec::new();
    let mut current: Vec<char> = Vec::new();
    let mut i: usize = 0;
    while i < s.len()
        invariant
            i <= s@.len(),
            views(done@).push(current@) == pieces(s@.take(i as int), sep),
        decreases s@.len() - i,
    {
        let c = s[i];
        let ghost prefix = s@.take(i as int);
        assert(s@.take(i + 1).drop_last() =~= prefix);
        if c == sep {
            done.push(current);
            current = Vec::new();
            assert(views(done@).push(current@) =~= pieces(prefix, sep).push(
                Seq::<char>::empty(),
            ));
        } else {
            current.push(c);
            assert(views(done@).push(current@) =~= pieces(prefix, sep).update(
                pieces(prefix, sep).len() - 1,
                pieces(prefix, sep).last().push(c),
            ));
        }
        i = i + 1;
    }
    assert(s@.take(i as int) =~= s@);
    done.push(current);
    done
}

/// The words of `s`, which is `str::split_whitespace`.
pub fn words_of(s: &[char]) -> (out: Vec<Vec<char>>)
    ensures
        views(out@) == words(s@),
{
    let mut out: Vec<Vec<char>> = Vec::new();
    let mut i: usize = 0;
    while i < s.len()
        invariant
            i <= s@.len(),
            views(out@) == words(s@.take(i as int)),
        decreases s@.len() - i,
    {
        let c = s[i];
        let ghost prefix = s@.take(i as int);
        assert(s@.take(i + 1).drop_last() =~= prefix);
        if !is_whitespace(c) {
            let opens = i == 0 || is_whitespace(s[i - 1]);
            if opens {
                let mut w: Vec<char> = Vec::new();
                w.push(c);
                assert(w@ =~= seq![c]);
                out.push(w);
                assert(views(out@) =~= words(prefix).push(seq![c]));
            } else {
                assert(prefix.last() == s@[i - 1]);
                proof {
                    lemma_words_shape(prefix);
                }
                let last = out.len() - 1;
                let mut w = out.remove(last);
                w.push(c);
                out.push(w);
                assert(views(out@) =~= words(prefix).update(
                    words(prefix).len() - 1,
                    words(prefix).last().push(c),
                ));
            }
        }
        i = i + 1;
    }
    assert(s@.take(i as int) =~= s@);
    out
}

/// The decimal digits of a number, with no sign and no leading zero.
pub open spec fn decimal(n: nat) -> Seq<char>
    decreases n,
{
    if n < 10 {
        seq![digit(n)]
    } else {
        decimal(n / 10).push(digit(n % 10))
    }
}

/// The digit character of a number below ten.
pub open spec fn digit(n: nat) -> char {
    if n == 0 {
        '0'
    } else if n == 1 {
        '1'
    } else if n == 2 {
        '2'
    } else if n == 3 {
        '3'
    } else if n == 4 {
        '4'
    } else if n == 5 {
        '5'
    } else if n == 6 {
        '6'
    } else if n == 7 {
        '7'
    } else if n == 8 {
        '8'
    } else {
        '9'
    }
}

fn digit_char(n: u64) -> (c: char)
    requires
        n < 10,
    ensures
        c == digit(n as nat),
{
    if n == 0 {
        '0'
    } else if n == 1 {
        '1'
    } else if n == 2 {
        '2'
    } else if n == 3 {
        '3'
    } else if n == 4 {
        '4'
    } else if n == 5 {
        '5'
    } else if n == 6 {
        '6'
    } else if n == 7 {
        '7'
    } else if n == 8 {
        '8'
    } else {
        '9'
    }
}

/// `out` with the decimal form of `n` after it, which is `n`'s `Display`.
pub fn extend_decimal(out: &mut Vec<char>, n: u64)
    ensures
        final(out)@ == old(out)@ + decimal(n as nat),
    decreases n,
{
    if n < 10 {
        out.push(digit_char(n));
        assert(decimal(n as nat) =~= seq![digit(n as nat)]);
    } else {
        extend_decimal(out, n / 10);
        out.push(digit_char(n % 10));
    }
}

/// The decimal form of a whole number, with a minus sign in front of a
/// negative one, which is an integer's `Display`.
pub open spec fn signed_decimal(n: int) -> Seq<char> {
    if n < 0 {
        seq!['-'] + decimal((-n) as nat)
    } else {
        decimal(n as nat)
    }
}

/// `out` with the signed decimal form of `n` after it.
pub fn extend_signed(out: &mut Vec<char>, n: i128)
    requires
        -0xffff_ffff_ffff_ffff <= n <= 0xffff_ffff_ffff_ffff,
    ensures
        final(out)@ == old(out)@ + signed_decimal(n as int),
{
    if n < 0 {
        out.push('-');
        let m: u64 = (0 - n) as u64;
        extend_decimal(out, m);
    } else {
        extend_decimal(out, n as u64);
    }
}

} // verus!

verus! {

/// Whether a character has Unicode's `Uppercase` property, as the standard
/// library's tables give it.
pub uninterp spec fn upper_case(c: char) -> bool;

/// The characters Unicode maps a character to in upper case.
pub uninterp spec fn uppercase_of(c: char) -> Seq<char>;

/// Whether a character is alphabetic or numeric, as the standard library's
/// tables give it.
pub uninterp spec fn alphanumeric(c: char) -> bool;

/// A text in lower case, as the standard library's `str::to_lowercase` maps
/// it, final sigma included.
pub uninterp spec fn lowered(s: Seq<char>) -> Seq<char>;

/// `char::is_uppercase`. The claim is the standard library's: the answer
/// depends on the character alone, and an ASCII letter answers as ASCII does.
/// Which other characters are upper case is left to Unicode's tables.
#[verifier::external_body]
pub(crate) fn is_uppercase(c: char) -> (r: bool)
    ensures
        r == upper_case(c),
        'A' <= c <= 'Z' ==> r,
        ('a' <= c <= 'z') || ('0' <= c <= '9') ==> !r,
{
    c.is_uppercase()
}

/// `char::to_uppercase`, collected. The claim: one or more characters that
/// depend on the character alone, and for an ASCII lower-case letter its
/// upper-case letter. Other mappings are left to Unicode's tables.
#[verifier::external_body]
pub(crate) fn to_uppercase(c: char) -> (r: Vec<char>)
    ensures
        r@ == uppercase_of(c),
        r@.len() >= 1,
        'a' <= c <= 'z' ==> r@ == seq![((c as int) - 32) as char],
{
    c.to_uppercase().collect()
}

/// `char::is_alphanumeric`. The claim: the answer depends on the character
/// alone, and among ASCII characters exactly the letters and digits answer
/// yes. Which other characters do is left to Unicode's tables.
#[verifier::external_body]
pub(crate) fn is_alphanumeric(c: char) -> (r: bool)
    ensures
        r == alphanumeric(c),
        (c as int) < 128 ==> (r <==> ('a' <= c <= 'z') || ('A' <= c <= 'Z') || ('0' <= c <= '9')),
{
    c.is_alphanumeric()
}

/// `str::to_lowercase`. The claim: the result depends on the text alone, the
/// empty text stays empty, and a text of ASCII characters maps each upper-case
/// letter to its lower-case letter and keeps every other character. What other
/// characters map to is left to Unicode's tables.
#[verifier::external_body]
pub(crate) fn lowercase(s: &str) -> (r: String)
    ensures
        r@ == lowered(s@),
        (forall|i: int| 0 <= i < s@.len() ==> (#[trigger] s@[i] as int) < 128) ==> r@ == s@.map_values(
            |c: char|
                if 'A' <= c <= 'Z' {
                    ((c as int) + 32) as char
                } else {
                    c
                },
        ),
{
    s.to_lowercase()
}

} // verus!

verus! {

/// A text with no separator is one piece.
pub proof fn lemma_pieces_of_plain(s: Seq<char>, sep: char)
    requires
        !s.contains(sep),
    ensures
        pieces(s, sep) == seq![s],
    decreases s.len(),
{
    if s.len() > 0 {
        let p = s.drop_last();
        assert(!p.contains(sep)) by {
            if p.contains(sep) {
                let k = choose|k: int| 0 <= k < p.len() && p[k] == sep;
                assert(s[k] == sep);
            }
        }
        lemma_pieces_of_plain(p, sep);
        assert(s.last() != sep) by {
            assert(s[s.len() - 1] == s.last());
        }
        assert(s =~= p.push(s.last()));
        assert(s.drop_last() == p);
        assert(seq![p].update(0, p.push(s.last())) =~= seq![s]);
    } else {
        assert(s =~= Seq::<char>::empty());
    }
}

/// A separator and a text with none after it add that text as one more piece.
pub proof fn lemma_pieces_after_sep(a: Seq<char>, b: Seq<char>, sep: char)
    requires
        !b.contains(sep),
    ensures
        pieces(a.push(sep) + b, sep) == pieces(a, sep).push(b),
    decreases b.len(),
{
    if b.len() == 0 {
        assert(a.push(sep) + b =~= a.push(sep));
        assert(a.push(sep).drop_last() =~= a);
        assert(b =~= Seq::<char>::empty());
    } else {
        let b0 = b.drop_last();
        assert(!b0.contains(sep)) by {
            if b0.contains(sep) {
                let k = choose|k: int| 0 <= k < b0.len() && b0[k] == sep;
                assert(b[k] == sep);
            }
        }
        lemma_pieces_after_sep(a, b0, sep);
        assert(b.last() != sep) by {
            assert(b[b.len() - 1] == b.last());
        }
        let s = a.push(sep) + b;
        assert(s.drop_last() =~= a.push(sep) + b0);
        assert(s.last() == b.last());
        lemma_pieces_nonempty(a, sep);
        assert(b0.push(b.last()) =~= b);
        let before = pieces(a, sep).push(b0);
        assert(before.len() - 1 == pieces(a, sep).len());
        assert(before.last() == b0);
        assert(before.update(before.len() - 1, before.last().push(b.last())) =~= pieces(a, sep).push(b));
    }
}

/// Parts with no separator in them, joined by it, split back into themselves.
pub proof fn lemma_pieces_join(parts: Seq<Seq<char>>, sep: char)
    requires
        parts.len() >= 1,
        forall|i: int| 0 <= i < parts.len() ==> !(#[trigger] parts[i]).contains(sep),
    ensures
        pieces(join(parts, seq![sep]), sep) == parts,
    decreases parts.len(),
{
    if parts.len() == 1 {
        lemma_pieces_of_plain(parts[0], sep);
        assert(parts =~= seq![parts[0]]);
    } else {
        let init = parts.drop_last();
        lemma_pieces_join(init, sep);
        let a = join(init, seq![sep]);
        assert(join(parts, seq![sep]) =~= a.push(sep) + parts.last());
        assert(!parts.last().contains(sep)) by {
            assert(parts[parts.len() - 1] == parts.last());
        }
        lemma_pieces_after_sep(a, parts.last(), sep);
        assert(init.push(parts.last()) =~= parts);
    }
}

/// The decimal form of a number holds digits alone, and spells the number.
pub proof fn lemma_decimal_digits(n: nat)
    ensures
        decimal(n).len() > 0,
        forall|i: int| 0 <= i < decimal(n).len() ==> '0' <= #[trigger] decimal(n)[i] <= '9',
        digits_value(decimal(n)) == n,
    decreases n,
{
    lemma_digit_value((n % 10) as nat);
    if n >= 10 {
        lemma_decimal_digits(n / 10);
        let d = decimal(n / 10);
        assert(decimal(n) == d.push(digit(n % 10)));
        assert(decimal(n).drop_last() =~= d);
        assert(decimal(n).last() == digit(n % 10));
        assert((n / 10) * 10 + n % 10 == n);
        assert(digits_value(decimal(n)) == digits_value(d) * 10 + (digit(n % 10) as int - '0' as int));
    } else {
        assert(decimal(n) == seq![digit(n)]);
        assert(decimal(n).drop_last() =~= Seq::<char>::empty());
        assert(n % 10 == n);
        assert(digits_value(decimal(n)) == digits_value(Seq::<char>::empty()) * 10 + (digit(n) as int - '0' as int));
    }
}

/// A digit character spells the number it stands for.
pub proof fn lemma_digit_value(n: nat)
    requires
        n < 10,
    ensures
        digit(n) as int - '0' as int == n,
        '0' <= digit(n) <= '9',
{
}

} // verus!

verus! {

/// The words of each text in turn.
pub open spec fn words_all(parts: Seq<Seq<char>>) -> Seq<Seq<char>>
    decreases parts.len(),
{
    if parts.len() == 0 {
        Seq::<Seq<char>>::empty()
    } else {
        words_all(parts.drop_last()) + words(parts.last())
    }
}

/// A white-space character between two texts separates their words and adds
/// none.
pub proof fn lemma_words_split(a: Seq<char>, c: char, b: Seq<char>)
    requires
        is_space(c),
    ensures
        words(a.push(c) + b) == words(a) + words(b),
    decreases b.len(),
{
    if b.len() == 0 {
        assert(a.push(c) + b =~= a.push(c));
        assert(a.push(c).drop_last() =~= a);
        assert(words(b) =~= Seq::<Seq<char>>::empty());
        assert(words(a) + words(b) =~= words(a));
    } else {
        let b0 = b.drop_last();
        let d = b.last();
        lemma_words_split(a, c, b0);
        let s = a.push(c) + b;
        assert(s.drop_last() =~= a.push(c) + b0);
        assert(s.last() == d);
        let w = words(a) + words(b0);
        if is_space(d) {
        } else if b.len() == 1 {
            assert(b0 =~= Seq::<char>::empty());
            assert(s.drop_last().last() == c);
            assert(w.push(seq![d]) =~= words(a) + words(b0).push(seq![d]));
        } else if is_space(b0.last()) {
            assert(s.drop_last().last() == b0.last());
            assert(w.push(seq![d]) =~= words(a) + words(b0).push(seq![d]));
        } else {
            assert(s.drop_last().last() == b0.last());
            lemma_words_shape(b0);
            let wb = words(b0);
            assert(wb.len() > 0);
            assert(w.update(w.len() - 1, w.last().push(d)) =~= words(a) + wb.update(
                wb.len() - 1,
                wb.last().push(d),
            ));
        }
    }
}

/// Texts joined by a white-space character hold their words in turn.
pub proof fn lemma_words_join(parts: Seq<Seq<char>>, c: char)
    requires
        is_space(c),
    ensures
        words(join(parts, seq![c])) == words_all(parts),
    decreases parts.len(),
{
    if parts.len() == 0 {
        assert(words(Seq::<char>::empty()) =~= Seq::<Seq<char>>::empty());
    } else if parts.len() == 1 {
        assert(parts.drop_last() =~= Seq::<Seq<char>>::empty());
        assert(words_all(parts.drop_last()) =~= Seq::<Seq<char>>::empty());
        assert(words_all(parts) =~= words(parts[0]));
    } else {
        let init = parts.drop_last();
        lemma_words_join(init, c);
        assert(join(parts, seq![c]) =~= join(init, seq![c]).push(c) + parts.last());
        lemma_words_split(join(init, seq![c]), c, parts.last());
    }
}

/// One word with no white space in it is its own only word.
pub proof fn lemma_words_of_word(w: Seq<char>)
    requires
        w.len() > 0,
        forall|k: int| 0 <= k < w.len() ==> !is_space(#[trigger] w[k]),
    ensures
        words(w) == seq![w],
    decreases w.len(),
{
    if w.len() == 1 {
        assert(w.drop_last() =~= Seq::<char>::empty());
        assert(words(w.drop_last()) =~= Seq::<Seq<char>>::empty());
        assert(seq![w.last()] =~= w);
    } else {
        let w0 = w.drop_last();
        lemma_words_of_word(w0);
        assert(!is_space(w.last())) by {
            assert(w[w.len() - 1] == w.last());
        }
        assert(!is_space(w0.last())) by {
            assert(w[w.len() - 2] == w0.last());
        }
        assert(w0.push(w.last()) =~= w);
    }
}

} // verus!

verus! {

/// A number right-aligned in five columns, as `{:5}` writes it.
pub open spec fn right5(n: nat) -> Seq<char> {
    let d = decimal(n);
    if d.len() < 5 {
        Seq::new((5 - d.len()) as nat, |i: int| ' ') + d
    } else {
        d
    }
}

/// `out` with a number right-aligned in five columns after it.
pub fn extend_right5(out: &mut Vec<char>, n: u64)
    ensures
        final(out)@ == old(out)@ + right5(n as nat),
{
    let mut d: Vec<char> = Vec::new();
    extend_decimal(&mut d, n);
    let ghost start = out@;
    if d.len() < 5 {
        let pad = 5 - d.len();
        let mut i: usize = 0;
        while i < pad
            invariant
                i <= pad,
                out@ == start + Seq::new(i as nat, |k: int| ' '),
            decreases pad - i,
        {
            out.push(' ');
            i = i + 1;
            assert(out@ =~= start + Seq::new(i as nat, |k: int| ' '));
        }
    }
    extend(out, d.as_slice());
    assert(out@ =~= start + right5(n as nat));
}

} // verus!
