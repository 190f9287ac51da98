//! The one fill in this engine, and the width every report is laid out at.
//!
//! [`fold`] and [`fold_at`] fill a run of prose that carries no indent of its
//! own. [`block`] writes one labelled block, with a continuation hanging at the
//! width of the label. [`filled`] lays out a report that is already composed:
//! it reads each line's own leading spaces as that line's indent, fills the
//! rest, and hangs a continuation two columns further in.
//!
//! Nothing here breaks inside a word: a word longer than the room it lands in
//! is written past the width, whole. The count is in `char`s. A line that
//! already fits comes back untouched.
use vstd::prelude::*;
use crate::text::{
    chars_of, extend, is_space, join, lemma_join_pieces, lemma_pieces_nonempty, pieces, split_char,
    string_of, trim, views, words, words_of, lemma_words_shape, words_all, lemma_words_join,
    lemma_words_split, lemma_words_of_word, lemma_pieces_after_sep, lemma_pieces_of_plain,
};
use crate::context::trimmed;
use vstd::string::*;

verus! {

/// The width every report is laid out at.
pub const WIDTH: usize = 80;

/// The widest a caller may ask for.
pub const WIDEST: usize = 120;

/// The continuation indent [`filled`] hangs a wrapped line at.
pub const HANG: usize = 2;

/// The longest tail [`unfoldable`] reads whole rather than by its first word.
pub const TAIL: usize = 2;

/// The width each word is measured at: its length, and the last one with room
/// for a suffix of `tail` columns after a space.
pub open spec fn measures(ws: Seq<Seq<char>>, tail: nat) -> Seq<int> {
    Seq::new(
        ws.len(),
        |i: int|
            if tail > 0 && i == ws.len() - 1 {
                ws[i].len() + 1 + tail as int
            } else {
                ws[i].len() as int
            },
    )
}

/// The greedy fill of words at their measures: the text so far, and the
/// columns the last line uses.
pub open spec fn greedy(ws: Seq<Seq<char>>, ms: Seq<int>, width: int) -> (Seq<char>, int)
    decreases ws.len(),
{
    if ws.len() == 0 {
        (Seq::<char>::empty(), 0)
    } else {
        let (out, used) = greedy(ws.drop_last(), ms.take(ws.len() - 1), width);
        let w = ws.last();
        let m = ms[ws.len() - 1];
        if used == 0 {
            (out + w, m)
        } else if used + 1 + m <= width {
            (out + seq![' '] + w, used + 1 + m)
        } else {
            (out + seq!['\n'] + w, m)
        }
    }
}

/// One line of prose, folded.
pub open spec fn one_line_text(text: Seq<char>, width: int, tail: nat) -> Seq<char> {
    greedy(words(text), measures(words(text), tail), width).0
}

/// The tail each source line is folded with: only the last keeps room.
pub open spec fn folded_lines(lines: Seq<Seq<char>>, width: int, tail: nat) -> Seq<Seq<char>> {
    Seq::new(
        lines.len(),
        |i: int|
            one_line_text(
                lines[i],
                width,
                if i == lines.len() - 1 {
                    tail
                } else {
                    0
                },
            ),
    )
}

/// The text folded to `width`, leaving room on the last line for `tail`.
pub open spec fn fold_text(text: Seq<char>, width: int, tail: nat) -> Seq<char> {
    join(folded_lines(pieces(text, '\n'), width, tail), seq!['\n'])
}

/// `n` spaces.
pub open spec fn spaces(n: nat) -> Seq<char> {
    Seq::new(n, |i: int| ' ')
}

/// Words hung under an opening: the lines written so far, and the line being
/// built. The first word always joins the opening; a later one joins the line
/// where it fits, and starts a continuation at `cont` where it does not.
pub open spec fn hang(start: Seq<char>, cont: Seq<char>, ws: Seq<Seq<char>>, width: int) -> (
    Seq<char>,
    Seq<char>,
)
    decreases ws.len(),
{
    if ws.len() == 0 {
        (Seq::<char>::empty(), start)
    } else {
        let (done, line) = hang(start, cont, ws.drop_last(), width);
        let w = ws.last();
        if ws.len() == 1 {
            (done, line + w)
        } else if line.len() + 1 + w.len() <= width {
            (done, line + seq![' '] + w)
        } else {
            (done + line + seq!['\n'], cont + w)
        }
    }
}

/// One paragraph of a block, with its closing newline.
pub open spec fn paragraph_text(start: Seq<char>, cont: Seq<char>, text: Seq<char>, width: int) -> Seq<
    char,
> {
    let (done, line) = hang(start, cont, words(text), width);
    done + line + seq!['\n']
}

/// The paragraphs of a block: the first opens with the label, every other
/// one at the continuation.
pub open spec fn block_paragraphs(
    opening: Seq<char>,
    cont: Seq<char>,
    paras: Seq<Seq<char>>,
    width: int,
) -> Seq<char>
    decreases paras.len(),
{
    if paras.len() == 0 {
        Seq::<char>::empty()
    } else {
        block_paragraphs(opening, cont, paras.drop_last(), width) + paragraph_text(
            if paras.len() == 1 {
                opening
            } else {
                cont
            },
            cont,
            paras.last(),
            width,
        )
    }
}

/// What [`block`] writes.
pub open spec fn block_text(indent: nat, label: Seq<char>, text: Seq<char>, width: int) -> Seq<
    char,
> {
    block_paragraphs(
        spaces(indent) + label,
        spaces(indent + label.len()),
        pieces(text, '\n'),
        width,
    )
}

/// How many spaces a line opens with.
pub open spec fn indent_of(line: Seq<char>) -> nat
    decreases line.len(),
{
    if line.len() > 0 && line[0] == ' ' {
        1 + indent_of(line.skip(1))
    } else {
        0
    }
}

/// The columns the words after the first take, each with its space.
pub open spec fn tail_width(tail: Seq<Seq<char>>) -> int
    decreases tail.len(),
{
    if tail.len() == 0 {
        0
    } else {
        tail_width(tail.drop_last()) + 1 + tail.last().len()
    }
}

/// Whether the opening word of a line leaves no room for what follows it: a
/// line of one word that is past the width, a line of two or three words
/// whose whole tail is past the width, or a line of prose whose second word
/// does not fit beside its first.
pub open spec fn opens_past(line: Seq<char>, width: int) -> bool {
    let ws = words(line);
    if ws.len() == 0 {
        false
    } else {
        let opening = indent_of(line) + ws[0].len();
        let tail = ws.skip(1);
        if tail.len() == 0 {
            opening > width
        } else if tail.len() <= TAIL {
            opening + tail_width(tail) > width
        } else {
            opening + 1 + tail[0].len() > width
        }
    }
}

/// One line of a composed report, kept at its own indent and filled under it.
pub open spec fn indented_text(line: Seq<char>, width: int) -> Seq<char> {
    if line.len() <= width {
        line
    } else if trim(line.skip(indent_of(line) as int)).len() == 0 {
        Seq::<char>::empty()
    } else if opens_past(line, width) {
        line
    } else {
        let (done, last) = hang(
            spaces(indent_of(line)),
            spaces((indent_of(line) + HANG) as nat),
            words(line.skip(indent_of(line) as int)),
            width,
        );
        done + last
    }
}

/// A composed report, every line laid out at its own leading indent. A
/// trailing newline stays, and none is added.
pub open spec fn filled_text(text: Seq<char>, width: int) -> Seq<char> {
    if text.len() == 0 {
        text
    } else {
        let ends = text.last() == '\n';
        let body = if ends {
            text.drop_last()
        } else {
            text
        };
        let ps = pieces(body, '\n');
        let out = join(Seq::new(ps.len(), |i: int| indented_text(ps[i], width)), seq!['\n']);
        if ends {
            out.push('\n')
        } else {
            out
        }
    }
}

/// The text, folded to `width` columns, breaking only where there is a space.
pub fn fold(text: &str, width: usize) -> (s: String)
    requires
        2 * text@.len() + 3 <= usize::MAX,
    ensures
        s@ == fold_text(text@, width as int, 0),
{
    fold_at(text, width, 0)
}

/// The text folded to `width`, leaving room on the last line for a suffix of
/// `tail` columns that something else appends after a space.
pub fn fold_at(text: &str, width: usize, tail: usize) -> (s: String)
    requires
        2 * text@.len() + tail + 3 <= usize::MAX,
    ensures
        s@ == fold_text(text@, width as int, tail as nat),
{
    let all = chars_of(text);
    let lines = split_char(all.as_slice(), '\n');
    proof {
        lemma_pieces_nonempty(all@, '\n');
        lemma_pieces_short(all@, '\n');
    }
    let last = lines.len() - 1;
    let ghost ls = views(lines@);
    let ghost goal = folded_lines(ls, width as int, tail as nat);
    let mut out: Vec<char> = Vec::new();
    let mut i: usize = 0;
    while i < lines.len()
        invariant
            ls == views(lines@),
            ls == pieces(text@, '\n'),
            last == ls.len() - 1,
            goal == folded_lines(ls, width as int, tail as nat),
            forall|k: int| 0 <= k < ls.len() ==> (#[trigger] ls[k]).len() <= text@.len(),
            2 * text@.len() + tail + 3 <= usize::MAX,
            i <= ls.len(),
            i == 0 ==> out@.len() == 0,
            i > 0 ==> out@ == join(goal.take(i as int), seq!['\n']),
        decreases ls.len() - i,
    {
        if i > 0 {
            out.push('\n');
        }
        let room = if i == last {
            tail
        } else {
            0
        };
        assert(ls[i as int] == lines@[i as int]@);
        assert(ls[i as int].len() <= text@.len());
        let piece = one_line(lines[i].as_slice(), width, room);
        extend(&mut out, piece.as_slice());
        proof {
            assert(goal[i as int] == piece@);
            if i > 0 {
                assert(goal.take(i + 1).drop_last() =~= goal.take(i as int));
            } else {
                assert(goal.take(1) =~= seq![goal[0]]);
            }
        }
        i = i + 1;
    }
    assert(goal.take(i as int) =~= goal);
    string_of(out.as_slice())
}

/// Each piece is no longer than the text.
pub proof fn lemma_pieces_short(s: Seq<char>, sep: char)
    ensures
        forall|k: int|
            0 <= k < pieces(s, sep).len() ==> (#[trigger] pieces(s, sep)[k]).len() <= s.len(),
    decreases s.len(),
{
    lemma_pieces_nonempty(s, sep);
    if s.len() > 0 {
        lemma_pieces_short(s.drop_last(), sep);
        lemma_pieces_nonempty(s.drop_last(), sep);
    }
}

/// The words of a text, and their total length, are no longer than it.
proof fn lemma_words_fit(s: Seq<char>)
    ensures
        word_total(words(s)) <= s.len(),
        words(s).len() <= s.len(),
    decreases s.len(),
{
    if s.len() > 0 {
        lemma_words_fit(s.drop_last());
        let before = words(s.drop_last());
        if !is_space(s.last()) {
            if !(s.len() == 1 || is_space(s.drop_last().last())) {
                lemma_words_shape(s.drop_last());
                lemma_word_total_update(before);
                assert(words(s) == before.update(before.len() - 1, before.last().push(s.last())));
            } else {
                assert(words(s) == before.push(seq![s.last()]));
                assert(words(s).drop_last() =~= before);
            }
        }
    }
}

/// The total length of some words.
pub open spec fn word_total(ws: Seq<Seq<char>>) -> int
    decreases ws.len(),
{
    if ws.len() == 0 {
        0
    } else {
        word_total(ws.drop_last()) + ws.last().len()
    }
}

proof fn lemma_word_total_update(ws: Seq<Seq<char>>)
    requires
        ws.len() > 0,
    ensures
        forall|c: char|
            word_total(#[trigger] ws.update(ws.len() - 1, ws.last().push(c))) == word_total(ws)
                + 1,
{
    assert forall|c: char| word_total(#[trigger] ws.update(ws.len() - 1, ws.last().push(c)))
        == word_total(ws) + 1 by {
        assert(ws.update(ws.len() - 1, ws.last().push(c)).drop_last() =~= ws.drop_last());
    }
}

proof fn lemma_word_total_prefix(ws: Seq<Seq<char>>, k: int)
    requires
        0 <= k <= ws.len(),
    ensures
        word_total(ws.take(k)) <= word_total(ws),
    decreases ws.len(),
{
    if k == ws.len() {
        assert(ws.take(k) =~= ws);
    } else {
        lemma_word_total_prefix(ws.drop_last(), k);
        assert(ws.drop_last().take(k) =~= ws.take(k));
    }
    lemma_word_total_nonneg(ws.take(k));
}

proof fn lemma_word_total_nonneg(ws: Seq<Seq<char>>)
    ensures
        word_total(ws) >= 0,
    decreases ws.len(),
{
    if ws.len() > 0 {
        lemma_word_total_nonneg(ws.drop_last());
    }
}

/// One line of prose, folded at the measures of its words.
fn one_line(text: &[char], width: usize, tail: usize) -> (out: Vec<char>)
    requires
        2 * text@.len() + tail + 3 <= usize::MAX,
    ensures
        out@ == one_line_text(text@, width as int, tail as nat),
{
    let ws = words_of(text);
    let ghost wv = views(ws@);
    let ghost ms = measures(wv, tail as nat);
    proof {
        lemma_words_fit(text@);
    }
    let mut out: Vec<char> = Vec::new();
    let mut used: usize = 0;
    let mut i: usize = 0;
    while i < ws.len()
        invariant
            wv == views(ws@),
            wv == words(text@),
            ms == measures(wv, tail as nat),
            word_total(wv) <= text@.len(),
            2 * text@.len() + tail + 3 <= usize::MAX,
            i <= wv.len(),
            (out@, used as int) == greedy(wv.take(i as int), ms.take(i as int), width as int),
            used <= word_total(wv.take(i as int)) + i + if i == wv.len() && tail > 0 {
                1 + tail
            } else {
                0
            },
        decreases wv.len() - i,
    {
        let word = &ws[i];
        proof {
            assert(wv[i as int] == word@);
            assert(wv.take(i + 1).drop_last() =~= wv.take(i as int));
            assert(ms.take(i + 1).take(i as int) =~= ms.take(i as int));
            assert(wv.take(i + 1).last() == word@);
            lemma_word_total_prefix(wv, i + 1);
            assert(wv.take(i + 1).drop_last() =~= wv.take(i as int));
            assert(word_total(wv.take(i + 1)) == word_total(wv.take(i as int)) + word@.len());
            lemma_word_total_nonneg(wv.take(i as int));
            lemma_words_fit(text@);
        }
        let measure = if tail > 0 && i == ws.len() - 1 {
            word.len() + 1 + tail
        } else {
            word.len()
        };
        assert(ms.take(i + 1)[i as int] == measure);
        if used == 0 {
            extend(&mut out, word.as_slice());
            used = measure;
        } else if used + 1 + measure <= width {
            out.push(' ');
            extend(&mut out, word.as_slice());
            used = used + 1 + measure;
        } else {
            out.push('\n');
            extend(&mut out, word.as_slice());
            used = measure;
        }
        i = i + 1;
        proof {
            let (o, u) = greedy(wv.take(i as int), ms.take(i as int), width as int);
            assert(out@ =~= o);
        }
    }
    assert(wv.take(i as int) =~= wv);
    assert(ms.take(i as int) =~= ms);
    out
}

/// `n` spaces, as characters.
fn spaces_of(n: usize) -> (v: Vec<char>)
    ensures
        v@ == spaces(n as nat),
{
    let mut v: Vec<char> = Vec::new();
    while v.len() < n
        invariant
            v@ == spaces(v@.len()),
            v@.len() <= n,
        decreases n - v@.len(),
    {
        v.push(' ');
        assert(v@ =~= spaces(v@.len()));
    }
    v
}

/// Words hung under an opening, as [`hang`] states.
fn hang_words(start: &[char], cont: &[char], ws: &Vec<Vec<char>>, width: usize, Ghost(text): Ghost<
    Seq<char>,
>) -> (r: (Vec<char>, Vec<char>))
    requires
        views(ws@) == words(text),
        start@.len() + cont@.len() + 2 * text.len() + 3 <= usize::MAX,
    ensures
        (r.0@, r.1@) == hang(start@, cont@, views(ws@), width as int),
{
    let ghost wv = views(ws@);
    proof {
        lemma_words_fit(text);
    }
    let mut done: Vec<char> = Vec::new();
    let mut line: Vec<char> = Vec::new();
    extend(&mut line, start);
    let mut i: usize = 0;
    while i < ws.len()
        invariant
            wv == views(ws@),
            wv == words(text),
            word_total(wv) <= text.len(),
            wv.len() <= text.len(),
            start@.len() + cont@.len() + 2 * text.len() + 3 <= usize::MAX,
            i <= wv.len(),
            (done@, line@) == hang(start@, cont@, wv.take(i as int), width as int),
            line@.len() <= start@.len() + cont@.len() + word_total(wv.take(i as int)) + i,
        decreases wv.len() - i,
    {
        let word = &ws[i];
        proof {
            assert(wv[i as int] == word@);
            assert(wv.take(i + 1).drop_last() =~= wv.take(i as int));
            assert(wv.take(i + 1).last() == word@);
            lemma_word_total_prefix(wv, i + 1);
            assert(word_total(wv.take(i + 1)) == word_total(wv.take(i as int)) + word@.len());
            lemma_word_total_nonneg(wv.take(i as int));
        }
        if i == 0 {
            extend(&mut line, word.as_slice());
        } else if line.len() + 1 + word.len() <= width {
            line.push(' ');
            extend(&mut line, word.as_slice());
        } else {
            extend(&mut done, line.as_slice());
            done.push('\n');
            line = Vec::new();
            extend(&mut line, cont);
            extend(&mut line, word.as_slice());
        }
        i = i + 1;
        proof {
            let (d, l) = hang(start@, cont@, wv.take(i as int), width as int);
            assert(done@ =~= d);
            assert(line@ =~= l);
        }
    }
    assert(wv.take(i as int) =~= wv);
    (done, line)
}

/// One block of a report: `indent` spaces, then `label`, then `text` filled to
/// `width`, each paragraph of the text on its own, every line closed by a
/// newline. A continuation line is indented to `indent` plus the label's width.
pub fn block(out: &mut String, indent: usize, label: &str, text: &str, width: usize)
    requires
        3 * (indent + label@.len()) + 2 * text@.len() + 3 <= usize::MAX,
    ensures
        final(out)@ == old(out)@ + block_text(indent as nat, label@, text@, width as int),
{
    let label_chars = chars_of(label);
    let mut opening = spaces_of(indent);
    extend(&mut opening, label_chars.as_slice());
    let cont = spaces_of(indent + label_chars.len());
    let all = chars_of(text);
    let paras = split_char(all.as_slice(), '\n');
    proof {
        lemma_pieces_short(all@, '\n');
    }
    let ghost ps = views(paras@);
    let mut written: Vec<char> = Vec::new();
    let mut i: usize = 0;
    while i < paras.len()
        invariant
            ps == views(paras@),
            ps == pieces(text@, '\n'),
            forall|k: int| 0 <= k < ps.len() ==> (#[trigger] ps[k]).len() <= text@.len(),
            3 * (indent + label@.len()) + 2 * text@.len() + 3 <= usize::MAX,
            opening@ == spaces(indent as nat) + label@,
            cont@ == spaces((indent + label@.len()) as nat),
            i <= ps.len(),
            written@ == block_paragraphs(opening@, cont@, ps.take(i as int), width as int),
        decreases ps.len() - i,
    {
        let ws = words_of(paras[i].as_slice());
        assert(ps[i as int] == paras@[i as int]@);
        assert(ps[i as int].len() <= text@.len());
        let first = i == 0;
        let start: &[char] = if first {
            opening.as_slice()
        } else {
            cont.as_slice()
        };
        let (done, line) = hang_words(start, cont.as_slice(), &ws, width, Ghost(ps[i as int]));
        extend(&mut written, done.as_slice());
        extend(&mut written, line.as_slice());
        written.push('\n');
        proof {
            assert(ps.take(i + 1).drop_last() =~= ps.take(i as int));
            assert(ps.take(i + 1).last() == ps[i as int]);
        }
        i = i + 1;
        assert(written@ =~= block_paragraphs(opening@, cont@, ps.take(i as int), width as int));
    }
    assert(ps.take(i as int) =~= ps);
    let piece = string_of(written.as_slice());
    out.append(piece.as_str());
}

proof fn lemma_indent_of(line: Seq<char>)
    ensures
        indent_of(line) <= line.len(),
        forall|k: int| 0 <= k < indent_of(line) ==> #[trigger] line[k] == ' ',
        indent_of(line) < line.len() ==> line[indent_of(line) as int] != ' ',
    decreases line.len(),
{
    if line.len() > 0 && line[0] == ' ' {
        lemma_indent_of(line.skip(1));
        assert forall|k: int| 0 <= k < indent_of(line) implies #[trigger] line[k] == ' ' by {
            if k > 0 {
                assert(line[k] == line.skip(1)[k - 1]);
            }
        }
    }
}

/// How many spaces a line opens with.
fn indent_count(line: &[char]) -> (n: usize)
    ensures
        n == indent_of(line@),
{
    proof {
        lemma_indent_of(line@);
    }
    let mut n: usize = 0;
    while n < line.len() && line[n] == ' '
        invariant
            n <= indent_of(line@),
            indent_of(line@) <= line@.len(),
            forall|k: int| 0 <= k < indent_of(line@) ==> #[trigger] line@[k] == ' ',
            indent_of(line@) < line@.len() ==> line@[indent_of(line@) as int] != ' ',
        decreases line@.len() - n,
    {
        n = n + 1;
    }
    n
}

proof fn lemma_tail_width_bound(tail: Seq<Seq<char>>)
    ensures
        0 <= tail_width(tail) <= word_total(tail) + tail.len(),
    decreases tail.len(),
{
    if tail.len() > 0 {
        lemma_tail_width_bound(tail.drop_last());
    }
}

/// Whether the opening word of `line` leaves no room for what follows it.
fn opens_past_the_room(line: &[char], width: usize) -> (r: bool)
    requires
        3 * line@.len() + 3 <= usize::MAX,
    ensures
        r == opens_past(line@, width as int),
{
    let ws = words_of(line);
    let ghost wv = views(ws@);
    if ws.len() == 0 {
        return false;
    }
    proof {
        lemma_words_fit(line@);
        lemma_indent_of(line@);
        lemma_word_total_prefix(wv, 1);
        assert(wv.take(1).drop_last() =~= Seq::<Seq<char>>::empty());
        lemma_word_total_nonneg(wv);
    }
    let indent = indent_count(line);
    let first = &ws[0];
    assert(wv[0] == first@);
    assert(wv.take(1).last() == first@);
    assert(wv.take(1).drop_last() =~= Seq::<Seq<char>>::empty());
    assert(word_total(wv.take(1).drop_last()) == 0);
    assert(word_total(wv.take(1)) == first@.len());
    let opening = indent + first.len();
    let rest = ws.len() - 1;
    let ghost tail = wv.skip(1);
    if rest == 0 {
        opening > width
    } else if rest <= TAIL {
        let mut sum: usize = 0;
        let mut k: usize = 1;
        proof {
            lemma_word_total_skip(wv);
            assert(tail.take(0) =~= Seq::<Seq<char>>::empty());
        }
        while k < ws.len()
            invariant
                wv == views(ws@),
                tail == wv.skip(1),
                1 <= k <= wv.len(),
                sum == tail_width(tail.take(k - 1)),
                word_total(tail) + tail.len() <= 2 * line@.len(),
                3 * line@.len() + 3 <= usize::MAX,
            decreases wv.len() - k,
        {
            proof {
                assert(tail.take(k as int).drop_last() =~= tail.take(k - 1));
                assert(tail.take(k as int).last() == ws@[k as int]@);
                lemma_tail_width_bound(tail.take(k as int));
                lemma_word_total_prefix(tail, k as int);
            }
            sum = sum + 1 + ws[k].len();
            k = k + 1;
        }
        assert(tail.take(k - 1) =~= tail);
        proof {
            lemma_tail_width_bound(tail);
        }
        opening + sum > width
    } else {
        assert(tail[0] == ws@[1]@);
        proof {
            lemma_word_total_skip(wv);
            lemma_word_total_prefix(tail, 1);
            assert(tail.take(1).drop_last() =~= Seq::<Seq<char>>::empty());
        }
        opening + 1 + ws[1].len() > width
    }
}

proof fn lemma_word_total_skip(ws: Seq<Seq<char>>)
    requires
        ws.len() > 0,
    ensures
        word_total(ws) == ws[0].len() + word_total(ws.skip(1)),
    decreases ws.len(),
{
    if ws.len() > 1 {
        lemma_word_total_skip(ws.drop_last());
        assert(ws.drop_last().skip(1) =~= ws.skip(1).drop_last());
    } else {
        assert(ws.skip(1) =~= Seq::<Seq<char>>::empty());
        assert(ws.drop_last() =~= Seq::<Seq<char>>::empty());
    }
}

/// Whether [`filled`] leaves this line exactly as it arrived: its opening
/// word leaves no room for what follows it.
pub fn unfoldable(line: &str, width: usize) -> (r: bool)
    requires
        3 * line@.len() + 3 <= usize::MAX,
    ensures
        r == opens_past(line@, width as int),
{
    let chars = chars_of(line);
    opens_past_the_room(chars.as_slice(), width)
}

/// One line of a composed report, kept at its own indent and filled under it.
fn one_indented(line: &[char], width: usize) -> (out: Vec<char>)
    requires
        3 * line@.len() + 9 <= usize::MAX,
    ensures
        out@ == indented_text(line@, width as int),
{
    let mut out: Vec<char> = Vec::new();
    if line.len() <= width {
        extend(&mut out, line);
        return out;
    }
    let indent = indent_count(line);
    proof {
        lemma_indent_of(line@);
    }
    let rest = &line[indent..line.len()];
    assert(rest@ =~= line@.skip(indent as int));
    let t = trimmed(rest);
    if t.len() == 0 {
        return out;
    }
    if opens_past_the_room(line, width) {
        extend(&mut out, line);
        return out;
    }
    let opening = spaces_of(indent);
    let cont = spaces_of(indent + HANG);
    let ws = words_of(rest);
    let (done, last) = hang_words(opening.as_slice(), cont.as_slice(), &ws, width, Ghost(rest@));
    extend(&mut out, done.as_slice());
    extend(&mut out, last.as_slice());
    out
}

/// A composed report, every line laid out at its own leading indent.
///
/// A line's leading spaces are its indent and are kept. What follows them is
/// filled greedily to `width`, and a continuation sits at the indent plus two.
/// A blank line stays blank. A line that already fits is returned untouched.
/// A trailing newline on the input is a trailing newline on the output.
pub fn filled(text: &str, width: usize) -> (s: String)
    requires
        3 * text@.len() + 9 <= usize::MAX,
    ensures
        s@ == filled_text(text@, width as int),
{
    let all = chars_of(text);
    if all.len() == 0 {
        return string_of(all.as_slice());
    }
    let ends = all[all.len() - 1] == '\n';
    let body: &[char] = if ends {
        &all.as_slice()[0..all.len() - 1]
    } else {
        all.as_slice()
    };
    assert(body@ =~= if ends {
        text@.drop_last()
    } else {
        text@
    });
    let lines = split_char(body, '\n');
    proof {
        lemma_pieces_nonempty(body@, '\n');
        lemma_pieces_short(body@, '\n');
    }
    let ghost ls = views(lines@);
    let ghost goal = Seq::new(ls.len(), |i: int| indented_text(ls[i], width as int));
    let mut out: Vec<char> = Vec::new();
    let mut i: usize = 0;
    while i < lines.len()
        invariant
            ls == views(lines@),
            ls == pieces(body@, '\n'),
            goal == Seq::new(ls.len(), |i: int| indented_text(ls[i], width as int)),
            forall|k: int| 0 <= k < ls.len() ==> (#[trigger] ls[k]).len() <= body@.len(),
            body@.len() <= text@.len(),
            3 * text@.len() + 9 <= usize::MAX,
            i <= ls.len(),
            i == 0 ==> out@.len() == 0,
            i > 0 ==> out@ == join(goal.take(i as int), seq!['\n']),
        decreases ls.len() - i,
    {
        if i > 0 {
            out.push('\n');
        }
        assert(ls[i as int] == lines@[i as int]@);
        assert(ls[i as int].len() <= text@.len());
        let piece = one_indented(lines[i].as_slice(), width);
        extend(&mut out, piece.as_slice());
        proof {
            assert(goal[i as int] == piece@);
            if i > 0 {
                assert(goal.take(i + 1).drop_last() =~= goal.take(i as int));
            } else {
                assert(goal.take(1) =~= seq![goal[0]]);
            }
        }
        i = i + 1;
    }
    assert(goal.take(i as int) =~= goal);
    if ends {
        out.push('\n');
    }
    string_of(out.as_slice())
}

} // verus!

verus! {

/// Splitting on a character and joining on it again gives the pieces back.
proof fn lemma_join_then_pieces_of_fitting(ps: Seq<Seq<char>>, width: int)
    requires
        forall|i: int| 0 <= i < ps.len() ==> (#[trigger] ps[i]).len() <= width,
    ensures
        Seq::new(ps.len(), |i: int| indented_text(ps[i], width)) =~= ps,
{
}

/// A report whose lines all fit comes back exactly as it arrived, so a report
/// laid out twice is the same characters.
pub proof fn law_fitting_report_unchanged(text: Seq<char>, width: int)
    requires
        forall|i: int|
            0 <= i < pieces(text, '\n').len() ==> (#[trigger] pieces(text, '\n')[i]).len() <= width,
    ensures
        filled_text(text, width) == text,
{
    if text.len() > 0 {
        let ends = text.last() == '\n';
        let body = if ends {
            text.drop_last()
        } else {
            text
        };
        let ps = pieces(body, '\n');
        if ends {
            assert(text =~= body.push('\n'));
            lemma_pieces_push_sep(body);
            assert forall|i: int| 0 <= i < ps.len() implies (#[trigger] ps[i]).len() <= width by {
                assert(pieces(text, '\n')[i] == ps[i]);
            }
        }
        lemma_join_then_pieces_of_fitting(ps, width);
        lemma_join_pieces(body, '\n');
        if ends {
            assert(text =~= body.push('\n'));
        }
    }
}

/// A separator at the end of a text adds an empty last piece and changes no
/// other.
proof fn lemma_pieces_push_sep(body: Seq<char>)
    ensures
        pieces(body.push('\n'), '\n') == pieces(body, '\n').push(Seq::<char>::empty()),
{
    assert(body.push('\n').drop_last() =~= body);
}

} // verus!

verus! {

/// The greedy fill writes its words, in order, and moves only the white space
/// between them.
proof fn lemma_greedy_words(ws: Seq<Seq<char>>, ms: Seq<int>, width: int)
    requires
        ms.len() == ws.len(),
        forall|i: int| 0 <= i < ws.len() ==> (#[trigger] ws[i]).len() > 0,
        forall|i: int, k: int|
            0 <= i < ws.len() && 0 <= k < ws[i].len() ==> !is_space(#[trigger] ws[i][k]),
        forall|i: int| 0 <= i < ms.len() ==> #[trigger] ms[i] >= 1,
    ensures
        words(greedy(ws, ms, width).0) == ws,
        (greedy(ws, ms, width).1 == 0) == (ws.len() == 0),
        greedy(ws, ms, width).1 >= 0,
        ws.len() == 0 ==> greedy(ws, ms, width).0.len() == 0,
    decreases ws.len(),
{
    if ws.len() == 0 {
        assert(words(Seq::<char>::empty()) =~= Seq::<Seq<char>>::empty());
    } else {
        let init = ws.drop_last();
        let mi = ms.take(ws.len() - 1);
        lemma_greedy_words(init, mi, width);
        let (out, used) = greedy(init, mi, width);
        let w = ws.last();
        assert(w == ws[ws.len() - 1]);
        assert(ms[ws.len() - 1] >= 1);
        assert forall|i: int| 0 <= i < mi.len() implies #[trigger] mi[i] >= 1 by {
            assert(mi[i] == ms[i]);
        }
        lemma_words_of_word(w);
        if used == 0 {
            assert(out + w =~= w);
            assert(ws =~= seq![w]);
        } else if used + 1 + ms[ws.len() - 1] <= width {
            assert(out + seq![' '] + w =~= out.push(' ') + w);
            lemma_words_split(out, ' ', w);
            assert(init + seq![w] =~= ws);
        } else {
            assert(out + seq!['\n'] + w =~= out.push('\n') + w);
            lemma_words_split(out, '\n', w);
            assert(init + seq![w] =~= ws);
        }
    }
}

/// Texts whose words agree one by one hold the same words in turn.
proof fn lemma_words_all_agree(a: Seq<Seq<char>>, b: Seq<Seq<char>>)
    requires
        a.len() == b.len(),
        forall|i: int| 0 <= i < a.len() ==> words(#[trigger] a[i]) == words(b[i]),
    ensures
        words_all(a) == words_all(b),
    decreases a.len(),
{
    if a.len() > 0 {
        lemma_words_all_agree(a.drop_last(), b.drop_last());
        assert(a.last() == a[a.len() - 1]);
    }
}

/// Folding moves only white space: the folded text holds the words of the
/// text, in order, and no word is broken or joined to another.
pub proof fn law_fold_keeps_words(text: Seq<char>, width: int, tail: nat)
    ensures
        words(fold_text(text, width, tail)) == words(text),
{
    let ps = pieces(text, '\n');
    let fl = folded_lines(ps, width, tail);
    lemma_words_join(fl, '\n');
    assert forall|i: int| 0 <= i < fl.len() implies words(#[trigger] fl[i]) == words(ps[i]) by {
        let t = if i == ps.len() - 1 {
            tail
        } else {
            0
        };
        let ws = words(ps[i]);
        lemma_words_shape(ps[i]);
        let ms = measures(ws, t);
        assert forall|k: int| 0 <= k < ms.len() implies #[trigger] ms[k] >= 1 by {
            assert(ws[k].len() > 0);
        }
        lemma_greedy_words(ws, ms, width);
    }
    lemma_words_all_agree(fl, ps);
    lemma_join_pieces(text, '\n');
    lemma_words_join(ps, '\n');
}


/// Whether a line of a fold keeps to a width: it is no longer than the width,
/// or it is one word, written past the width whole.
pub open spec fn fits(line: Seq<char>, width: int) -> bool {
    line.len() <= width || !line.contains(' ')
}

/// Text with no separator after the last piece extends that piece.
proof fn lemma_pieces_extend(x: Seq<char>, y: Seq<char>, sep: char)
    requires
        !y.contains(sep),
    ensures
        pieces(x + y, sep) == pieces(x, sep).update(
            pieces(x, sep).len() - 1,
            pieces(x, sep).last() + y,
        ),
    decreases y.len(),
{
    lemma_pieces_nonempty(x, sep);
    if y.len() == 0 {
        assert(x + y =~= x);
        assert(pieces(x, sep).last() + y =~= pieces(x, sep).last());
        assert(pieces(x, sep).update(pieces(x, sep).len() - 1, pieces(x, sep).last()) =~= pieces(x, sep));
    } else {
        let y0 = y.drop_last();
        assert(!y0.contains(sep)) by {
            if y0.contains(sep) {
                let k = choose|k: int| 0 <= k < y0.len() && y0[k] == sep;
                assert(y[k] == sep);
            }
        }
        lemma_pieces_extend(x, y0, sep);
        assert(y.last() != sep) by {
            assert(y[y.len() - 1] == y.last());
        }
        assert((x + y).drop_last() =~= x + y0);
        assert((x + y).last() == y.last());
        let before = pieces(x + y0, sep);
        assert(before.len() == pieces(x, sep).len());
        assert((pieces(x, sep).last() + y0).push(y.last()) =~= pieces(x, sep).last() + y);
        assert(before.update(before.len() - 1, before.last().push(y.last())) =~= pieces(x, sep).update(
            pieces(x, sep).len() - 1,
            pieces(x, sep).last() + y,
        ));
    }
}

/// A separator between two texts splits them into the pieces of each.
proof fn lemma_pieces_concat(a: Seq<char>, b: Seq<char>, sep: char)
    ensures
        pieces(a.push(sep) + b, sep) == pieces(a, sep) + pieces(b, sep),
    decreases b.len(),
{
    lemma_pieces_nonempty(b, sep);
    if b.len() == 0 {
        assert(a.push(sep) + b =~= a.push(sep));
        assert(a.push(sep).drop_last() =~= a);
        assert(pieces(a, sep).push(Seq::<char>::empty()) =~= pieces(a, sep) + seq![Seq::<char>::empty()]);
    } else {
        let b0 = b.drop_last();
        lemma_pieces_concat(a, b0, sep);
        lemma_pieces_nonempty(b0, sep);
        let s = a.push(sep) + b;
        assert(s.drop_last() =~= a.push(sep) + b0);
        assert(s.last() == b.last());
        let pa = pieces(a, sep);
        let pb0 = pieces(b0, sep);
        if b.last() == sep {
            assert((pa + pb0).push(Seq::<char>::empty()) =~= pa + pb0.push(Seq::<char>::empty()));
        } else {
            let joined = pa + pb0;
            assert(joined.update(joined.len() - 1, joined.last().push(b.last())) =~= pa + pb0.update(
                pb0.len() - 1,
                pb0.last().push(b.last()),
            ));
        }
    }
}

/// Every line the greedy fill writes keeps to the width, and the line it is
/// building is no longer than the columns it has counted.
proof fn lemma_greedy_fits(ws: Seq<Seq<char>>, ms: Seq<int>, width: int)
    requires
        ms.len() == ws.len(),
        forall|i: int| 0 <= i < ws.len() ==> (#[trigger] ws[i]).len() > 0,
        forall|i: int, k: int|
            0 <= i < ws.len() && 0 <= k < ws[i].len() ==> !is_space(#[trigger] ws[i][k]),
        forall|i: int| 0 <= i < ms.len() ==> #[trigger] ms[i] >= ws[i].len(),
        forall|i: int| 0 <= i < ms.len() ==> #[trigger] ms[i] >= 1,
    ensures
        ({
            let (out, used) = greedy(ws, ms, width);
            let ls = pieces(out, '\n');
            &&& forall|i: int| 0 <= i < ls.len() - 1 ==> fits(#[trigger] ls[i], width)
            &&& ls.last().len() <= used
            &&& (used <= width || !ls.last().contains(' '))
        }),
    decreases ws.len(),
{
    if ws.len() > 0 {
        let init = ws.drop_last();
        let mi = ms.take(ws.len() - 1);
        assert forall|i: int| 0 <= i < mi.len() implies #[trigger] mi[i] >= init[i].len() && mi[i] >= 1 by {
            assert(mi[i] == ms[i]);
            assert(init[i] == ws[i]);
        }
        lemma_greedy_fits(init, mi, width);
        lemma_greedy_words(init, mi, width);
        let (out, used) = greedy(init, mi, width);
        let w = ws.last();
        let m = ms[ws.len() - 1];
        assert(w == ws[ws.len() - 1]);
        assert(m >= w.len() && m >= 1);
        assert(!w.contains(' ') && !w.contains('\n')) by {
            if w.contains(' ') {
                let k = choose|k: int| 0 <= k < w.len() && w[k] == ' ';
                assert(!is_space(ws[ws.len() - 1][k]));
            }
            if w.contains('\n') {
                let k = choose|k: int| 0 <= k < w.len() && w[k] == '\n';
                assert(!is_space(ws[ws.len() - 1][k]));
            }
        }
        let ls = pieces(out, '\n');
        lemma_pieces_nonempty(out, '\n');
        if used == 0 {
            assert(out.len() == 0);
            assert(out + w =~= w);
            lemma_pieces_of_plain(w, '\n');
        } else if used + 1 + m <= width {
            let tail = seq![' '] + w;
            assert(!tail.contains('\n')) by {
                if tail.contains('\n') {
                    let k = choose|k: int| 0 <= k < tail.len() && tail[k] == '\n';
                    assert(k > 0);
                    assert(w[k - 1] == '\n');
                }
            }
            assert(out + seq![' '] + w =~= out + tail);
            lemma_pieces_extend(out, tail, '\n');
            let nls = pieces(out + tail, '\n');
            assert forall|i: int| 0 <= i < nls.len() - 1 implies fits(#[trigger] nls[i], width) by {
                assert(nls[i] == ls[i]);
            }
            assert(nls.last() == ls.last() + tail);
        } else {
            assert(out + seq!['\n'] + w =~= out.push('\n') + w);
            lemma_pieces_after_sep(out, w, '\n');
            let nls = pieces(out.push('\n') + w, '\n');
            assert(nls == ls.push(w));
            assert forall|i: int| 0 <= i < nls.len() - 1 implies fits(#[trigger] nls[i], width) by {
                assert(nls[i] == ls[i]);
            }
        }
    } else {
        assert(pieces(Seq::<char>::empty(), '\n') =~= seq![Seq::<char>::empty()]);
    }
}

/// Every line of one folded line keeps to the width.
proof fn lemma_one_line_fits(text: Seq<char>, width: int, tail: nat)
    ensures
        forall|i: int|
            0 <= i < pieces(one_line_text(text, width, tail), '\n').len() ==> fits(
                #[trigger] pieces(one_line_text(text, width, tail), '\n')[i],
                width,
            ),
{
    let ws = words(text);
    lemma_words_shape(text);
    let ms = measures(ws, tail);
    assert forall|k: int| 0 <= k < ms.len() implies #[trigger] ms[k] >= ws[k].len() && ms[k] >= 1 by {
        assert(ws[k].len() > 0);
    }
    lemma_greedy_fits(ws, ms, width);
    lemma_pieces_nonempty(one_line_text(text, width, tail), '\n');
}

/// Every line of a join has a property that the empty line has, when every
/// line of each part has it.
proof fn lemma_join_keeps(parts: Seq<Seq<char>>, keep: spec_fn(Seq<char>) -> bool)
    requires
        keep(Seq::<char>::empty()),
        forall|j: int, i: int|
            0 <= j < parts.len() && 0 <= i < pieces(parts[j], '\n').len() ==> keep(
                #[trigger] pieces(#[trigger] parts[j], '\n')[i],
            ),
    ensures
        forall|i: int|
            0 <= i < pieces(join(parts, seq!['\n']), '\n').len() ==> keep(
                #[trigger] pieces(join(parts, seq!['\n']), '\n')[i],
            ),
    decreases parts.len(),
{
    if parts.len() == 0 {
        assert(pieces(Seq::<char>::empty(), '\n') =~= seq![Seq::<char>::empty()]);
    } else if parts.len() == 1 {
        assert(join(parts, seq!['\n']) == parts[0]);
    } else {
        let init = parts.drop_last();
        assert forall|j: int, i: int|
            0 <= j < init.len() && 0 <= i < pieces(init[j], '\n').len() implies keep(
                #[trigger] pieces(#[trigger] init[j], '\n')[i],
            ) by {
            assert(init[j] == parts[j]);
        }
        lemma_join_keeps(init, keep);
        let a = join(init, seq!['\n']);
        let b = parts.last();
        assert(join(parts, seq!['\n']) =~= a.push('\n') + b);
        lemma_pieces_concat(a, b, '\n');
        let all = pieces(join(parts, seq!['\n']), '\n');
        assert forall|i: int| 0 <= i < all.len() implies keep(#[trigger] all[i]) by {
            let pa = pieces(a, '\n');
            if i < pa.len() {
                assert(all[i] == pa[i]);
            } else {
                assert(all[i] == pieces(b, '\n')[i - pa.len()]);
                assert(b == parts[parts.len() - 1]);
            }
        }
    }
}

/// The fold keeps to its width: every line it writes is no longer than the
/// width, or is one word longer than the width, written whole rather than
/// broken.
pub proof fn law_fold_keeps_to_width(text: Seq<char>, width: int, tail: nat)
    ensures
        forall|i: int|
            0 <= i < pieces(fold_text(text, width, tail), '\n').len() ==> fits(
                #[trigger] pieces(fold_text(text, width, tail), '\n')[i],
                width,
            ),
{
    let ps = pieces(text, '\n');
    let fl = folded_lines(ps, width, tail);
    assert forall|j: int, i: int| 0 <= j < fl.len() && 0 <= i < pieces(fl[j], '\n').len() implies fits(
        #[trigger] pieces(#[trigger] fl[j], '\n')[i],
        width,
    ) by {
        let t = if j == ps.len() - 1 {
            tail
        } else {
            0
        };
        lemma_one_line_fits(ps[j], width, t);
    }
    let keep = |l: Seq<char>| fits(l, width);
    assert(keep(Seq::<char>::empty()));
    assert forall|j: int, i: int| 0 <= j < fl.len() && 0 <= i < pieces(fl[j], '\n').len() implies keep(
        #[trigger] pieces(#[trigger] fl[j], '\n')[i],
    ) by {}
    lemma_join_keeps(fl, keep);
}


/// Text that is all white space holds no word.
proof fn lemma_words_blank(a: Seq<char>)
    requires
        forall|k: int| 0 <= k < a.len() ==> is_space(#[trigger] a[k]),
    ensures
        words(a) == Seq::<Seq<char>>::empty(),
    decreases a.len(),
{
    if a.len() > 0 {
        let a0 = a.drop_last();
        assert forall|k: int| 0 <= k < a0.len() implies is_space(#[trigger] a0[k]) by {
            assert(a0[k] == a[k]);
        }
        lemma_words_blank(a0);
        assert(is_space(a[a.len() - 1]));
    }
}

/// White space in front of a text adds no word to it.
proof fn lemma_words_blank_prefix(a: Seq<char>, b: Seq<char>)
    requires
        forall|k: int| 0 <= k < a.len() ==> is_space(#[trigger] a[k]),
    ensures
        words(a + b) == words(b),
{
    if a.len() == 0 {
        assert(a + b =~= b);
    } else {
        let a0 = a.drop_last();
        assert forall|k: int| 0 <= k < a0.len() implies is_space(#[trigger] a0[k]) by {
            assert(a0[k] == a[k]);
        }
        lemma_words_blank(a0);
        assert(is_space(a[a.len() - 1]));
        assert(a + b =~= a0.push(a.last()) + b);
        lemma_words_split(a0, a.last(), b);
        assert(Seq::<Seq<char>>::empty() + words(b) =~= words(b));
    }
}

/// Text that trims to nothing holds no word.
proof fn lemma_words_of_trimmed_away(s: Seq<char>)
    requires
        trim(s).len() == 0,
    ensures
        words(s) == Seq::<Seq<char>>::empty(),
{
    crate::text::lemma_trim_start_is_skip(s);
    let n = crate::text::leading_space(s);
    if n < s.len() {
        crate::gate::lemma_trim_end_keeps(s.skip(n as int));
        assert(s.skip(n as int)[0] == s[n as int]);
        assert(false);
    }
    lemma_words_blank(s);
}

/// Words hung under an opening and continuations of spaces are the words, in
/// order.
proof fn lemma_hang_words(start: Seq<char>, cont: Seq<char>, ws: Seq<Seq<char>>, width: int)
    requires
        forall|k: int| 0 <= k < start.len() ==> #[trigger] start[k] == ' ',
        forall|k: int| 0 <= k < cont.len() ==> #[trigger] cont[k] == ' ',
        forall|i: int| 0 <= i < ws.len() ==> (#[trigger] ws[i]).len() > 0,
        forall|i: int, k: int|
            0 <= i < ws.len() && 0 <= k < ws[i].len() ==> !is_space(#[trigger] ws[i][k]),
    ensures
        words(hang(start, cont, ws, width).0 + hang(start, cont, ws, width).1) == ws,
        ws.len() == 0 ==> hang(start, cont, ws, width) == (Seq::<char>::empty(), start),
    decreases ws.len(),
{
    assert forall|k: int| 0 <= k < start.len() implies is_space(#[trigger] start[k]) by {}
    assert forall|k: int| 0 <= k < cont.len() implies is_space(#[trigger] cont[k]) by {}
    if ws.len() == 0 {
        lemma_words_blank(start);
        assert(Seq::<char>::empty() + start =~= start);
        assert(ws =~= Seq::<Seq<char>>::empty());
    } else {
        let init = ws.drop_last();
        assert forall|i: int| 0 <= i < init.len() implies (#[trigger] init[i]).len() > 0 by {
            assert(init[i] == ws[i]);
        }
        assert forall|i: int, k: int| 0 <= i < init.len() && 0 <= k < init[i].len() implies !is_space(
            #[trigger] init[i][k],
        ) by {
            assert(init[i] == ws[i]);
        }
        lemma_hang_words(start, cont, init, width);
        let (done, line) = hang(start, cont, init, width);
        let w = ws.last();
        assert(w == ws[ws.len() - 1]);
        assert forall|k: int| 0 <= k < w.len() implies !is_space(#[trigger] w[k]) by {
            assert(!is_space(ws[ws.len() - 1][k]));
        }
        lemma_words_of_word(w);
        if ws.len() == 1 {
            assert(init.len() == 0);
            assert(done + (line + w) =~= start + w);
            lemma_words_blank_prefix(start, w);
            assert(ws =~= seq![w]);
        } else if line.len() + 1 + w.len() <= width {
            assert(done + (line + seq![' '] + w) =~= (done + line).push(' ') + w);
            lemma_words_split(done + line, ' ', w);
            assert(init + seq![w] =~= ws);
        } else {
            assert(done + line + seq!['\n'] + (cont + w) =~= (done + line).push('\n') + (cont + w));
            lemma_words_split(done + line, '\n', cont + w);
            lemma_words_blank_prefix(cont, w);
            assert(init + seq![w] =~= ws);
        }
    }
}

/// A line laid out at its own indent holds the words it held.
proof fn lemma_indented_words(line: Seq<char>, width: int)
    ensures
        words(indented_text(line, width)) == words(line),
{
    lemma_indent_of(line);
    let n = indent_of(line);
    let front = line.take(n as int);
    let rest = line.skip(n as int);
    assert(line =~= front + rest);
    assert forall|k: int| 0 <= k < front.len() implies is_space(#[trigger] front[k]) by {
        assert(front[k] == line[k]);
    }
    lemma_words_blank_prefix(front, rest);
    if line.len() <= width {
    } else if trim(rest).len() == 0 {
        lemma_words_of_trimmed_away(rest);
        assert(words(Seq::<char>::empty()) =~= Seq::<Seq<char>>::empty());
    } else if opens_past(line, width) {
    } else {
        let ws = words(rest);
        lemma_words_shape(rest);
        assert forall|k: int| 0 <= k < spaces(n).len() implies #[trigger] spaces(n)[k] == ' ' by {}
        assert forall|k: int| 0 <= k < spaces((n + HANG) as nat).len() implies #[trigger] spaces(
            (n + HANG) as nat,
        )[k] == ' ' by {}
        lemma_hang_words(spaces(n), spaces((n + HANG) as nat), ws, width);
    }
}

/// The layout of a composed report moves only white space: the laid-out text
/// holds the words of the report, in order, and no word is broken or joined
/// to another.
pub proof fn law_filled_keeps_words(text: Seq<char>, width: int)
    ensures
        words(filled_text(text, width)) == words(text),
{
    if text.len() > 0 {
        let ends = text.last() == '\n';
        let body = if ends {
            text.drop_last()
        } else {
            text
        };
        let ps = pieces(body, '\n');
        let laid = Seq::new(ps.len(), |i: int| indented_text(ps[i], width));
        let out = join(laid, seq!['\n']);
        assert(is_space('\n'));
        lemma_words_join(laid, '\n');
        lemma_words_join(ps, '\n');
        assert forall|i: int| 0 <= i < laid.len() implies words(#[trigger] laid[i]) == words(ps[i]) by {
            lemma_indented_words(ps[i], width);
        }
        lemma_words_all_agree(laid, ps);
        lemma_join_pieces(body, '\n');
        if ends {
            lemma_words_split(out, '\n', Seq::<char>::empty());
            assert(out.push('\n') + Seq::<char>::empty() =~= out.push('\n'));
            lemma_words_split(body, '\n', Seq::<char>::empty());
            assert(body.push('\n') + Seq::<char>::empty() =~= text);
            assert(words(Seq::<char>::empty()) =~= Seq::<Seq<char>>::empty());
            assert(words(out) + words(Seq::<char>::empty()) =~= words(out));
            assert(words(body) + words(Seq::<char>::empty()) =~= words(body));
        }
    }
}


/// Whether a laid-out line has settled: it keeps to the width, or its opening
/// word leaves no room for what follows it.
pub open spec fn settled(line: Seq<char>, width: int) -> bool {
    line.len() <= width || opens_past(line, width)
}

/// Text with no word in it is all white space.
proof fn lemma_no_words_blank(s: Seq<char>)
    requires
        words(s).len() == 0,
    ensures
        forall|k: int| 0 <= k < s.len() ==> is_space(#[trigger] s[k]),
    decreases s.len(),
{
    if s.len() > 0 {
        lemma_words_shape(s);
        lemma_no_words_blank(s.drop_last());
        assert forall|k: int| 0 <= k < s.len() implies is_space(#[trigger] s[k]) by {
            if k < s.len() - 1 {
                assert(s[k] == s.drop_last()[k]);
            }
        }
    }
}

/// Text that is all white space trims to nothing.
proof fn lemma_blank_trims_away(s: Seq<char>)
    requires
        forall|k: int| 0 <= k < s.len() ==> is_space(#[trigger] s[k]),
    ensures
        trim(s).len() == 0,
    decreases s.len(),
{
    if s.len() > 0 {
        assert(is_space(s[0]));
        assert forall|k: int| 0 <= k < s.skip(1).len() implies is_space(#[trigger] s.skip(1)[k]) by {
            assert(s.skip(1)[k] == s[k + 1]);
        }
        lemma_blank_trims_away(s.skip(1));
    }
}

/// One word under `k` spaces is a line that has settled, and holds no line
/// break.
proof fn lemma_word_line_settled(k: nat, w: Seq<char>, width: int)
    requires
        w.len() > 0,
        forall|i: int| 0 <= i < w.len() ==> !is_space(#[trigger] w[i]),
    ensures
        settled(spaces(k) + w, width),
        !(spaces(k) + w).contains('\n'),
{
    let line = spaces(k) + w;
    assert(is_space(' ') && is_space('\n'));
    assert forall|i: int| 0 <= i < spaces(k).len() implies is_space(#[trigger] spaces(k)[i]) by {}
    lemma_words_blank_prefix(spaces(k), w);
    lemma_words_of_word(w);
    lemma_indent_of(line);
    let n = indent_of(line);
    if n < k {
        assert(line[n as int] == ' ');
    } else if n > k {
        assert(line[k as int] == w[0]);
        assert(line[k as int] == ' ');
    }
    assert(seq![w].skip(1) =~= Seq::<Seq<char>>::empty());
    if line.contains('\n') {
        let i = choose|i: int| 0 <= i < line.len() && line[i] == '\n';
        if i >= k {
            assert(line[i] == w[i - k]);
        }
    }
}

/// Words hung under `k` spaces, continued under `k + HANG`: every line so far
/// has settled, and the line being built is the last line and holds no break.
proof fn lemma_hang_settled(k: nat, ws: Seq<Seq<char>>, width: int)
    requires
        ws.len() >= 1,
        forall|i: int| 0 <= i < ws.len() ==> (#[trigger] ws[i]).len() > 0,
        forall|i: int, j: int|
            0 <= i < ws.len() && 0 <= j < ws[i].len() ==> !is_space(#[trigger] ws[i][j]),
    ensures
        ({
            let (done, line) = hang(spaces(k), spaces((k + HANG) as nat), ws, width);
            &&& !line.contains('\n')
            &&& pieces(done + line, '\n').last() == line
            &&& forall|i: int|
                0 <= i < pieces(done + line, '\n').len() ==> settled(
                    #[trigger] pieces(done + line, '\n')[i],
                    width,
                )
        }),
    decreases ws.len(),
{
    let start = spaces(k);
    let cont = spaces((k + HANG) as nat);
    let w = ws.last();
    assert(w == ws[ws.len() - 1]);
    assert forall|j: int| 0 <= j < w.len() implies !is_space(#[trigger] w[j]) by {
        assert(w[j] == ws[ws.len() - 1][j]);
    }
    if ws.len() == 1 {
        lemma_word_line_settled(k, w, width);
        lemma_pieces_of_plain(start + w, '\n');
        assert(hang(start, cont, ws.drop_last(), width) == (Seq::<char>::empty(), start));
        assert(Seq::<char>::empty() + (start + w) =~= start + w);
        assert(seq![start + w].last() == start + w);
    } else {
        let prev = ws.drop_last();
        assert forall|i: int, j: int| 0 <= i < prev.len() && 0 <= j < prev[i].len() implies !is_space(
            #[trigger] prev[i][j],
        ) by {
            assert(prev[i] == ws[i]);
        }
        lemma_hang_settled(k, prev, width);
        let (d0, l0) = hang(start, cont, prev, width);
        let old = pieces(d0 + l0, '\n');
        lemma_pieces_nonempty(d0 + l0, '\n');
        if l0.len() + 1 + w.len() <= width {
            let more = seq![' '] + w;
            assert(!more.contains('\n')) by {
                if more.contains('\n') {
                    let i = choose|i: int| 0 <= i < more.len() && more[i] == '\n';
                    assert(is_space('\n'));
                    if i > 0 {
                        assert(more[i] == w[i - 1]);
                    }
                }
            }
            assert(d0 + (l0 + seq![' '] + w) =~= (d0 + l0) + more);
            lemma_pieces_extend(d0 + l0, more, '\n');
            let now = pieces(d0 + l0 + more, '\n');
            assert(l0 + seq![' '] + w =~= l0 + more);
            assert(!(l0 + more).contains('\n')) by {
                if (l0 + more).contains('\n') {
                    let i = choose|i: int| 0 <= i < (l0 + more).len() && (l0 + more)[i] == '\n';
                    if i < l0.len() {
                        assert(l0[i] == '\n');
                    } else {
                        assert(more[i - l0.len()] == '\n');
                    }
                }
            }
            assert forall|i: int| 0 <= i < now.len() implies settled(#[trigger] now[i], width) by {
                if i < now.len() - 1 {
                    assert(now[i] == old[i]);
                }
            }
            assert(now.last() == l0 + more);
        } else {
            lemma_word_line_settled((k + HANG) as nat, w, width);
            lemma_pieces_of_plain(cont + w, '\n');
            assert(d0 + l0 + seq!['\n'] + (cont + w) =~= (d0 + l0).push('\n') + (cont + w));
            lemma_pieces_concat(d0 + l0, cont + w, '\n');
            let now = pieces((d0 + l0).push('\n') + (cont + w), '\n');
            assert forall|i: int| 0 <= i < now.len() implies settled(#[trigger] now[i], width) by {
                if i < old.len() {
                    assert(now[i] == old[i]);
                }
            }
            assert(now.last() == cont + w);
        }
    }
}

/// Every line that one line of a report is laid out into has settled.
proof fn lemma_indented_settled(line: Seq<char>, width: int)
    requires
        width >= 0,
        !line.contains('\n'),
    ensures
        forall|i: int|
            0 <= i < pieces(indented_text(line, width), '\n').len() ==> settled(
                #[trigger] pieces(indented_text(line, width), '\n')[i],
                width,
            ),
{
    let n = indent_of(line);
    let rest = line.skip(n as int);
    if line.len() <= width || opens_past(line, width) {
        lemma_pieces_of_plain(line, '\n');
    } else if trim(rest).len() == 0 {
        assert(pieces(Seq::<char>::empty(), '\n') =~= seq![Seq::<char>::empty()]);
    } else {
        let ws = words(rest);
        lemma_words_shape(rest);
        if ws.len() == 0 {
            lemma_no_words_blank(rest);
            lemma_blank_trims_away(rest);
        }
        lemma_hang_settled(n, ws, width);
    }
}

/// Every line a layout writes has settled: it keeps to the width, or its
/// opening word leaves no room for what follows it and it stands as it
/// arrived.
pub proof fn law_filled_lines_settle(text: Seq<char>, width: int)
    requires
        width >= 0,
    ensures
        forall|i: int|
            0 <= i < pieces(filled_text(text, width), '\n').len() ==> settled(
                #[trigger] pieces(filled_text(text, width), '\n')[i],
                width,
            ),
{
    if text.len() == 0 {
        assert(pieces(Seq::<char>::empty(), '\n') =~= seq![Seq::<char>::empty()]);
    } else {
        let ends = text.last() == '\n';
        let body = if ends {
            text.drop_last()
        } else {
            text
        };
        let ps = pieces(body, '\n');
        let laid = Seq::new(ps.len(), |i: int| indented_text(ps[i], width));
        let out = join(laid, seq!['\n']);
        crate::text::lemma_pieces_free_of(body, '\n');
        let keep = |l: Seq<char>| settled(l, width);
        assert forall|j: int, i: int| 0 <= j < laid.len() && 0 <= i < pieces(laid[j], '\n').len()
            implies keep(#[trigger] pieces(#[trigger] laid[j], '\n')[i]) by {
            lemma_indented_settled(ps[j], width);
        }
        lemma_join_keeps(laid, keep);
        if ends {
            lemma_pieces_push_sep(out);
            let all = pieces(out.push('\n'), '\n');
            assert forall|i: int| 0 <= i < all.len() implies settled(#[trigger] all[i], width) by {
                if i < all.len() - 1 {
                    assert(all[i] == pieces(out, '\n')[i]);
                }
            }
        }
    }
}


/// A line that has settled is laid out as itself.
proof fn lemma_settled_stays(line: Seq<char>, width: int)
    requires
        settled(line, width),
    ensures
        indented_text(line, width) == line,
{
    if line.len() > width {
        let n = indent_of(line);
        let front = line.take(n as int);
        let rest = line.skip(n as int);
        lemma_indent_of(line);
        assert(line =~= front + rest);
        assert forall|k: int| 0 <= k < front.len() implies is_space(#[trigger] front[k]) by {
            assert(front[k] == line[k]);
            assert(is_space(' '));
        }
        lemma_words_blank_prefix(front, rest);
        if trim(rest).len() == 0 {
            lemma_words_of_trimmed_away(rest);
        }
    }
}

/// A report whose every line has settled comes back exactly as it arrived.
pub proof fn law_settled_report_unchanged(text: Seq<char>, width: int)
    requires
        forall|i: int|
            0 <= i < pieces(text, '\n').len() ==> settled(#[trigger] pieces(text, '\n')[i], width),
    ensures
        filled_text(text, width) == text,
{
    if text.len() > 0 {
        let ends = text.last() == '\n';
        let body = if ends {
            text.drop_last()
        } else {
            text
        };
        let ps = pieces(body, '\n');
        if ends {
            assert(text =~= body.push('\n'));
            lemma_pieces_push_sep(body);
            assert forall|i: int| 0 <= i < ps.len() implies settled(#[trigger] ps[i], width) by {
                assert(pieces(text, '\n')[i] == ps[i]);
            }
        }
        assert forall|i: int| 0 <= i < ps.len() implies indented_text(#[trigger] ps[i], width)
            == ps[i] by {
            lemma_settled_stays(ps[i], width);
        }
        assert(Seq::new(ps.len(), |i: int| indented_text(ps[i], width)) =~= ps);
        lemma_join_pieces(body, '\n');
        if ends {
            assert(text =~= body.push('\n'));
        }
    }
}

/// Laying out a laid-out report changes nothing.
pub proof fn law_filled_is_idempotent(text: Seq<char>, width: int)
    requires
        width >= 0,
    ensures
        filled_text(filled_text(text, width), width) == filled_text(text, width),
{
    law_filled_lines_settle(text, width);
    law_settled_report_unchanged(filled_text(text, width), width);
}

} // verus!

