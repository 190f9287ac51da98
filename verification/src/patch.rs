//! A patch: one mechanical correction, as a check states it.
//!
//! Nothing here writes, and nothing here reads a file. A patch states an
//! offset and what the check believes lies at it, and the applier holds the
//! belief against the bytes before it moves one.
use vstd::prelude::*;
use crate::text::{
    alphanumeric, chars_of, extend, is_alphanumeric, is_uppercase, owned, str_eq, string_of,
    to_uppercase, upper_case, uppercase_of,
};

verus! {

/// One mechanical correction, as a check states it.
#[derive(Clone, Debug, PartialEq, Eq)]
pub enum Patch {
    /// Replace `start..end` of `path` with `replacement`.
    Text { path: String, start: usize, end: usize, expect: String, replacement: String },
    /// Declare `relation: id` under `relations:` in `path`.
    Half { path: String, relation: String, id: String },
    /// Make `path`, holding `contents`, where no file stands.
    Create { path: String, contents: String },
}

/// The file a patch writes.
pub open spec fn patch_path(p: Patch) -> Seq<char> {
    match p {
        Patch::Text { path, .. } => path@,
        Patch::Half { path, .. } => path@,
        Patch::Create { path, .. } => path@,
    }
}

impl Patch {
    /// The file this patch writes, which is not always the file the finding is
    /// reported against.
    pub fn path(&self) -> (p: &str)
        ensures
            p@ == patch_path(*self),
    {
        match self {
            Patch::Text { path, .. } => path.as_str(),
            Patch::Half { path, .. } => path.as_str(),
            Patch::Create { path, .. } => path.as_str(),
        }
    }
}

/// Whether a written word opens with a capital that its replacement lacks.
pub open spec fn raised(written: Seq<char>, replacement: Seq<char>) -> bool {
    written.len() > 0 && upper_case(written[0]) && !(replacement.len() > 0 && upper_case(
        replacement[0],
    ))
}

/// A replacement in the case the written word stood in: the first letter
/// raised where the written word opened with a capital and the replacement
/// did not, and the replacement unchanged otherwise.
pub open spec fn cased(written: Seq<char>, replacement: Seq<char>) -> Seq<char> {
    if raised(written, replacement) && replacement.len() > 0 {
        uppercase_of(replacement[0]) + replacement.skip(1)
    } else {
        replacement
    }
}

/// A replacement in the case the word it replaces was written in, so a
/// sentence that opened with the word still opens with a capital.
pub fn matching_case(written: &str, replacement: &str) -> (s: String)
    ensures
        s@ == cased(written@, replacement@),
{
    let w = chars_of(written);
    let r = chars_of(replacement);
    let up = w.len() > 0 && is_uppercase(w[0]) && !(r.len() > 0 && is_uppercase(r[0]));
    if !up || r.len() == 0 {
        return string_of(r.as_slice());
    }
    let mut out = to_uppercase(r[0]);
    extend(&mut out, &r.as_slice()[1..r.len()]);
    assert(r@.subrange(1, r@.len() as int) =~= r@.skip(1));
    string_of(out.as_slice())
}


/// A stretch of source, by byte offset: `start..end`.
#[derive(Clone, Copy, Debug, PartialEq, Eq)]
pub struct Span {
    pub start: usize,
    pub end: usize,
}

/// One run of a document's body as the parser hands it over: the text it
/// reads, the source bytes it spans, and whether the text is this author's
/// prose (a code span, say, is not).
#[derive(Clone, Debug, PartialEq, Eq)]
pub struct TextRun {
    pub text: String,
    pub span: Span,
    pub authored: bool,
}

/// One block of a document's body: its runs, in the order the parser produced
/// them, and how deep inside block quotes it stands.
#[derive(Clone, Debug, PartialEq, Eq)]
pub struct TextBlock {
    pub quote_depth: usize,
    pub runs: Vec<TextRun>,
}

/// The bytes UTF-8 spends on one character, as `char::len_utf8` counts them.
pub open spec fn width(c: char) -> nat {
    let v = c as u32;
    if v <= 0x7F {
        1
    } else if v <= 0x7FF {
        2
    } else if v <= 0xFFFF {
        3
    } else {
        4
    }
}

/// The bytes UTF-8 spends on a text.
pub open spec fn byte_len(s: Seq<char>) -> nat
    decreases s.len(),
{
    if s.len() == 0 {
        0
    } else {
        width(s[0]) + byte_len(s.drop_first())
    }
}

/// The character of `t` that begins `b` bytes in (`t`'s length where `b` is
/// its byte length), or `None` where `b` falls inside a character or past the
/// end: `str::is_char_boundary`, told as a character index.
pub open spec fn char_at(t: Seq<char>, b: int) -> Option<int> {
    if exists|k: int| 0 <= k <= t.len() && byte_len(#[trigger] t.take(k)) == b {
        Some(choose|k: int| 0 <= k <= t.len() && byte_len(#[trigger] t.take(k)) == b)
    } else {
        None
    }
}

/// Whether `w` stands in `t` at character `k`.
pub open spec fn stands_at(t: Seq<char>, w: Seq<char>, k: int) -> bool {
    0 <= k && k + w.len() <= t.len() && t.subrange(k, k + w.len()) == w
}

/// Whether a character may border a word: no character at all, or one that is
/// neither a letter, a digit nor an apostrophe.
pub open spec fn border(c: Option<char>) -> bool {
    match c {
        None => true,
        Some(c) => !alphanumeric(c) && c != '\'' && c != '\u{2019}',
    }
}

/// Whether the `n` characters at `k` in `t` form a whole word: what stands
/// just before them and just after them may border a word.
pub open spec fn fenced(t: Seq<char>, k: int, n: int) -> bool {
    border(if k > 0 { Some(t[k - 1]) } else { None }) && border(
        if k + n < t.len() { Some(t[k + n]) } else { None },
    )
}

/// The first place, from character `from` on, where `w` stands whole and
/// ends by `end`, as a word of its own. An occurrence inside a longer word is
/// stepped over whole, and the search goes on after it.
pub open spec fn seek(t: Seq<char>, w: Seq<char>, from: int, end: int) -> Option<int>
    decreases end - from,
{
    if w.len() == 0 || from + w.len() > end {
        None
    } else if stands_at(t, w, from) {
        if fenced(t, from, w.len() as int) {
            Some(from)
        } else {
            seek(t, w, from + w.len(), end)
        }
    } else {
        seek(t, w, from + 1, end)
    }
}

/// Where, in source bytes, a run places `w` for the sentence `s`: the run is
/// authored, overlaps the sentence, reads exactly as many bytes as it spans,
/// the overlap opens and closes on character boundaries, and `w` stands as a
/// word of its own inside it.
pub open spec fn placed(run: TextRun, s: Span, w: Seq<char>) -> Option<int> {
    let t = run.text@;
    let low: int = if run.span.start > s.start { run.span.start as int } else { s.start as int };
    let high: int = if run.span.end < s.end { run.span.end as int } else { s.end as int };
    if !run.authored || low >= high || run.span.end - run.span.start != byte_len(t) {
        None
    } else {
        match (char_at(t, low - run.span.start), char_at(t, high - run.span.start)) {
            (Some(a), Some(b)) => match seek(t, w, a, b) {
                Some(k) => Some(run.span.start + byte_len(t.take(k))),
                None => None,
            },
            _ => None,
        }
    }
}

/// The first placement among runs, in order.
pub open spec fn in_runs(runs: Seq<TextRun>, s: Span, w: Seq<char>) -> Option<int>
    decreases runs.len(),
{
    if runs.len() == 0 {
        None
    } else {
        match placed(runs[0], s, w) {
            Some(at) => Some(at),
            None => in_runs(runs.drop_first(), s, w),
        }
    }
}

/// The first placement among the runs of blocks outside every block quote,
/// in order.
pub open spec fn in_blocks(blocks: Seq<TextBlock>, s: Span, w: Seq<char>) -> Option<int>
    decreases blocks.len(),
{
    if blocks.len() == 0 {
        None
    } else {
        let here = if blocks[0].quote_depth > 0 {
            None
        } else {
            in_runs(blocks[0].runs@, s, w)
        };
        match here {
            Some(at) => Some(at),
            None => in_blocks(blocks.drop_first(), s, w),
        }
    }
}

/// The byte count is the length of the text's UTF-8 encoding, which is what
/// `str::len` answers.
pub proof fn lemma_byte_len_is_utf8(s: Seq<char>)
    ensures
        byte_len(s) == vstd::utf8::encode_utf8(s).len(),
    decreases s.len(),
{
    if s.len() > 0 {
        lemma_byte_len_is_utf8(s.drop_first());
        vstd::utf8::char_is_scalar(s[0]);
    }
}

/// Bytes of a concatenation are the bytes of its halves.
pub proof fn lemma_byte_len_concat(a: Seq<char>, b: Seq<char>)
    ensures
        byte_len(a + b) == byte_len(a) + byte_len(b),
    decreases a.len(),
{
    if a.len() == 0 {
        assert(a + b =~= b);
    } else {
        lemma_byte_len_concat(a.drop_first(), b);
        assert((a + b).drop_first() =~= a.drop_first() + b);
    }
}

/// A longer prefix spends more bytes: exactly those of the characters between.
pub proof fn lemma_prefix_bytes(t: Seq<char>, j: int, k: int)
    requires
        0 <= j <= k <= t.len(),
    ensures
        byte_len(t.take(j)) + byte_len(t.subrange(j, k)) == byte_len(t.take(k)),
        j < k ==> byte_len(t.take(j)) < byte_len(t.take(k)),
        k == j + 1 ==> byte_len(t.take(k)) == byte_len(t.take(j)) + width(t[j]),
        byte_len(t.take(k)) <= byte_len(t),
{
    assert(t.take(k) =~= t.take(j) + t.subrange(j, k));
    lemma_byte_len_concat(t.take(j), t.subrange(j, k));
    if j < k {
        assert(byte_len(t.subrange(j, k)) >= 1);
    }
    if k == j + 1 {
        assert(t.subrange(j, k).drop_first() =~= Seq::<char>::empty());
        assert(byte_len(Seq::<char>::empty()) == 0);
        assert(t.subrange(j, k)[0] == t[j]);
    }
    assert(t =~= t.take(k) + t.subrange(k, t.len() as int));
    lemma_byte_len_concat(t.take(k), t.subrange(k, t.len() as int));
}

/// Distinct prefixes spend distinct bytes, so a byte offset names at most one
/// character.
proof fn lemma_char_at(t: Seq<char>, b: int, k: int)
    requires
        0 <= k <= t.len(),
        byte_len(t.take(k)) == b,
    ensures
        char_at(t, b) == Some(k),
{
    let c = choose|j: int| 0 <= j <= t.len() && byte_len(#[trigger] t.take(j)) == b;
    if c < k {
        lemma_prefix_bytes(t, c, k);
    } else if k < c {
        lemma_prefix_bytes(t, k, c);
    }
}

/// `char::len_utf8`.
fn width_of(c: char) -> (n: usize)
    ensures
        n == width(c),
{
    let v = c as u32;
    if v <= 0x7F {
        1
    } else if v <= 0x7FF {
        2
    } else if v <= 0xFFFF {
        3
    } else {
        4
    }
}

/// Whether `t` spends exactly `n` bytes.
fn spends(t: &[char], n: usize) -> (r: bool)
    ensures
        r == (byte_len(t@) == n),
{
    let mut acc: usize = 0;
    let mut i: usize = 0;
    while i < t.len()
        invariant
            i <= t.len(),
            acc == byte_len(t@.take(i as int)),
            acc <= n,
        decreases t.len() - i,
    {
        proof {
            lemma_prefix_bytes(t@, i as int, i + 1);
        }
        let w = width_of(t[i]);
        if w > n - acc {
            proof {
                lemma_prefix_bytes(t@, i + 1, t@.len() as int);
                assert(t@.take(t@.len() as int) =~= t@);
            }
            return false;
        }
        acc = acc + w;
        i = i + 1;
    }
    assert(t@.take(t@.len() as int) =~= t@);
    acc == n
}

/// The bytes the first `k` characters of `t` spend.
fn prefix_bytes(t: &[char], k: usize) -> (n: usize)
    requires
        k <= t.len(),
        byte_len(t@) <= usize::MAX,
    ensures
        n == byte_len(t@.take(k as int)),
{
    let mut acc: usize = 0;
    let mut i: usize = 0;
    while i < k
        invariant
            i <= k <= t.len(),
            acc == byte_len(t@.take(i as int)),
            byte_len(t@) <= usize::MAX,
        decreases k - i,
    {
        proof {
            lemma_prefix_bytes(t@, i as int, i + 1);
            lemma_prefix_bytes(t@, i + 1, t@.len() as int);
            assert(t@.take(t@.len() as int) =~= t@);
        }
        acc = acc + width_of(t[i]);
        i = i + 1;
    }
    acc
}

/// The character of `t` that begins `b` bytes in.
fn char_at_byte(t: &[char], b: usize) -> (r: Option<usize>)
    ensures
        match r {
            Some(k) => char_at(t@, b as int) == Some(k as int),
            None => char_at(t@, b as int) is None,
        },
{
    let mut acc: usize = 0;
    let mut i: usize = 0;
    while i < t.len() && acc < b
        invariant
            i <= t.len(),
            acc == byte_len(t@.take(i as int)),
            forall|j: int| 0 <= j < i ==> byte_len(#[trigger] t@.take(j)) < b,
        decreases t.len() - i,
    {
        proof {
            lemma_prefix_bytes(t@, i as int, i + 1);
            assert forall|j: int| 0 <= j < i + 1 implies byte_len(#[trigger] t@.take(j)) < b by {
                if j < i {
                } else {
                }
            }
        }
        let w = width_of(t[i]);
        if w > b - acc {
            proof {
                assert forall|j: int| 0 <= j <= t@.len() implies byte_len(
                    #[trigger] t@.take(j),
                ) != b by {
                    if j > i {
                        lemma_prefix_bytes(t@, i + 1, j);
                    }
                }
            }
            return None;
        }
        acc = acc + w;
        i = i + 1;
    }
    if acc == b {
        proof {
            lemma_char_at(t@, b as int, i as int);
        }
        Some(i)
    } else {
        proof {
            assert forall|j: int| 0 <= j <= t@.len() implies byte_len(#[trigger] t@.take(j))
                != b by {
                if j > i {
                    lemma_prefix_bytes(t@, i as int, j);
                }
            }
        }
        None
    }
}

/// Whether `w` stands in `t` at character `k`.
fn stands(t: &[char], w: &[char], k: usize) -> (r: bool)
    requires
        k <= t.len(),
    ensures
        r == stands_at(t@, w@, k as int),
{
    if w.len() > t.len() - k {
        return false;
    }
    let mut j: usize = 0;
    while j < w.len()
        invariant
            j <= w.len(),
            k + w.len() <= t.len(),
            forall|i: int| 0 <= i < j ==> t@[k + i] == w@[i],
        decreases w.len() - j,
    {
        if t[k + j] != w[j] {
            assert(t@.subrange(k as int, k + w.len())[j as int] != w@[j as int]);
            return false;
        }
        j = j + 1;
    }
    assert(t@.subrange(k as int, k + w.len()) =~= w@);
    true
}

/// Whether a character may border a word.
fn borders(c: char) -> (r: bool)
    ensures
        r == border(Some(c)),
{
    !is_alphanumeric(c) && c != '\'' && c != '\u{2019}'
}

/// The first place, from character `from` on, where `w` stands as a word of
/// its own and ends by `end`.
fn word_at(t: &[char], w: &[char], from: usize, end: usize) -> (r: Option<usize>)
    requires
        from <= end <= t.len(),
        w.len() > 0,
    ensures
        match r {
            Some(k) => seek(t@, w@, from as int, end as int) == Some(k as int) && k + w.len()
                <= end && stands_at(t@, w@, k as int),
            None => seek(t@, w@, from as int, end as int) is None,
        },
{
    let mut k = from;
    while w.len() <= end - k
        invariant
            from <= k <= end <= t.len(),
            w.len() > 0,
            seek(t@, w@, from as int, end as int) == seek(t@, w@, k as int, end as int),
        decreases end - k,
    {
        if stands(t, w, k) {
            let before = k == 0 || borders(t[k - 1]);
            let after = k + w.len() >= t.len() || borders(t[k + w.len()]);
            if before && after {
                return Some(k);
            }
            k = k + w.len();
        } else {
            k = k + 1;
        }
    }
    None
}

/// Where a run places `w` for a sentence: the byte offsets `w` would occupy.
fn place(run: &TextRun, s: &Span, w: &[char]) -> (r: Option<(usize, usize)>)
    requires
        w.len() > 0,
    ensures
        match r {
            Some((at, to)) => placed(*run, *s, w@) == Some(at as int) && to == at + byte_len(w@),
            None => placed(*run, *s, w@) is None,
        },
{
    if !run.authored {
        return None;
    }
    let low = if run.span.start > s.start { run.span.start } else { s.start };
    let high = if run.span.end < s.end { run.span.end } else { s.end };
    if low >= high {
        return None;
    }
    let t = chars_of(run.text.as_str());
    let n = run.span.end - run.span.start;
    if !spends(t.as_slice(), n) {
        return None;
    }
    let a = char_at_byte(t.as_slice(), low - run.span.start);
    let b = char_at_byte(t.as_slice(), high - run.span.start);
    match (a, b) {
        (Some(a), Some(b)) => {
            if a > b {
                return None;
            }
            match word_at(t.as_slice(), w, a, b) {
                Some(k) => {
                    let off = prefix_bytes(t.as_slice(), k);
                    let past = prefix_bytes(t.as_slice(), k + w.len());
                    proof {
                        assert(t@.take(k + w.len()) =~= t@.take(k as int) + w@);
                        lemma_byte_len_concat(t@.take(k as int), w@);
                        lemma_prefix_bytes(t@, k + w.len(), t@.len() as int);
                        assert(t@.take(t@.len() as int) =~= t@);
                    }
                    Some((run.span.start + off, run.span.start + past))
                },
                None => None,
            }
        },
        _ => None,
    }
}

/// The patch for a substitution inside one sentence of authored prose: `word`
/// where it first stands as a word of its own in the authored runs that lie
/// inside the sentence, outside every block quote, replaced by `replacement`.
///
/// A run is passed over where its text is not this author's prose, where it
/// reads fewer or more bytes than it spans (an entity, an escape), or where
/// the sentence cuts it inside a character: an offset there would name a
/// position that no reader sees. A word that cannot be placed gets no patch,
/// and neither does an empty word or one equal to its replacement.
pub fn substitution(
    path: &str,
    body: &[TextBlock],
    sentence: &Span,
    word: &str,
    replacement: &str,
) -> (r: Option<Patch>)
    ensures
        (word@.len() == 0 || word@ == replacement@) ==> r is None,
        !(word@.len() == 0 || word@ == replacement@) ==> match in_blocks(body@, *sentence, word@) {
            None => r is None,
            Some(at) => r matches Some(Patch::Text { path: p, start, end, expect, replacement: rp })
                && p@ == path@ && start == at && end == at + byte_len(word@) && expect@ == word@
                && rp@ == replacement@,
        },
{
    let w = chars_of(word);
    if w.len() == 0 || str_eq(word, replacement) {
        return None;
    }
    let mut i: usize = 0;
    assert(body@.skip(0) =~= body@);
    while i < body.len()
        invariant
            i <= body.len(),
            w@ == word@,
            w.len() > 0,
            word@ != replacement@,
            in_blocks(body@, *sentence, word@) == in_blocks(body@.skip(i as int), *sentence, word@),
        decreases body.len() - i,
    {
        proof {
            assert(body@.skip(i as int).drop_first() =~= body@.skip(i + 1));
        }
        let block = &body[i];
        if block.quote_depth == 0 {
            let mut j: usize = 0;
            assert(block.runs@.skip(0) =~= block.runs@);
            while j < block.runs.len()
                invariant
                    i < body.len(),
                    block == body@[i as int],
                    block.quote_depth == 0,
                    j <= block.runs.len(),
                    w@ == word@,
                    w.len() > 0,
                    word@ != replacement@,
                    in_blocks(body@, *sentence, word@) == in_blocks(
                        body@.skip(i as int),
                        *sentence,
                        word@,
                    ),
                    in_runs(block.runs@, *sentence, word@) == in_runs(
                        block.runs@.skip(j as int),
                        *sentence,
                        word@,
                    ),
                decreases block.runs.len() - j,
            {
                proof {
                    assert(block.runs@.skip(j as int).drop_first() =~= block.runs@.skip(j + 1));
                }
                match place(&block.runs[j], sentence, w.as_slice()) {
                    Some((start, end)) => {
                        assert(block.runs@.skip(j as int)[0] == block.runs@[j as int]);
                        assert(body@.skip(i as int)[0] == body@[i as int]);
                        return Some(
                            Patch::Text {
                                path: owned(path),
                                start,
                                end,
                                expect: owned(word),
                                replacement: owned(replacement),
                            },
                        );
                    },
                    None => {},
                }
                j = j + 1;
            }
            proof {
                assert(block.runs@.skip(j as int) =~= Seq::<TextRun>::empty());
                assert(block.runs@.skip(0) =~= block.runs@);
            }
        }
        i = i + 1;
    }
    proof {
        assert(body@.skip(i as int) =~= Seq::<TextBlock>::empty());
    }
    None
}

} // verus!

