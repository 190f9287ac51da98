//! A run scoped to a change: the manifest that names it, the version each
//! named document stood at before it, and what became of each path once it is
//! held against the corpus a run walked.
//!
//! A manifest opens with [`FORMAT`] and then writes one line per document:
//! `added<TAB><path>` for a document the change adds, and
//! `prior<TAB><path><TAB><file>` for one whose earlier version stands in
//! `<file>`. A line this reader cannot parse refuses the whole manifest,
//! because a dropped line would read as a document that did not change.
use vstd::prelude::*;
use crate::context::trimmed;
use crate::node::Node;
use crate::text::{
    chars_of, decimal, extend, extend_decimal, extend_str, lex_less, lex_lt, lines_of, pieces,
    split_char, spells, str_eq, string_of, text_lines, trim, views, lemma_lex_asymmetric,
    lemma_lex_total, lemma_lex_transitive,
};

verus! {

/// The first line of a manifest. A file that does not open with it is a file
/// this engine did not ask for, and it is refused rather than guessed at.
pub const FORMAT: &'static str = "headwater change 1";

/// The reason an instance over an unmatched path would carry. No instance
/// exists over one, because the corpus holds no row to create one over.
pub const UNMATCHED: &'static str = "the change manifest names this path and this corpus holds no row at it";

/// What one document of a change carried before it.
#[derive(Debug)]
pub enum Held {
    /// The change adds this document. Nothing stood at this path before it.
    Added,
    /// The version that stood before the change: the digest of its bytes and
    /// its front matter.
    Committed { digest: String, facets: Vec<(String, Node)> },
    /// The caller named a prior version that could not be read, and why.
    Unreadable { why: String },
    /// The caller named a path that the corpus of this run does not hold, and
    /// the version that stood at it, where one was named and read.
    Unmatched { prior: Option<(String, Vec<(String, Node)>)> },
}

/// The version of one document that stood before the change, as a check reads
/// it.
#[derive(Clone, Copy, Debug, PartialEq, Eq)]
pub enum Prior<'a> {
    /// The change does not carry this document, so the version in front of the
    /// run is the version that stood before it.
    Unchanged,
    /// The change adds this document, and no version stood before it.
    Added,
    /// The version that stood before the change.
    Committed { digest: &'a str, facets: &'a Vec<(String, Node)> },
}

/// The component a prior version writes into a cache key.
pub open spec fn prior_key(p: Prior) -> Seq<char> {
    match p {
        Prior::Unchanged => "unchanged"@,
        Prior::Added => "added"@,
        Prior::Committed { digest, .. } => "committed "@ + digest@,
    }
}

impl<'a> Prior<'a> {
    /// The component this input writes into a cache key. The two states with
    /// no digest are spelled out, because an absent line would make an added
    /// document and an unchanged one one key.
    pub fn key(&self) -> (k: String)
        ensures
            k@ == prior_key(*self),
    {
        match self {
            Prior::Unchanged => crate::text::owned("unchanged"),
            Prior::Added => crate::text::owned("added"),
            Prior::Committed { digest, .. } => {
                let mut out: Vec<char> = chars_of("committed ");
                extend_str(&mut out, digest);
                string_of(out.as_slice())
            },
        }
    }
}

/// Every state of a prior version writes different characters into a key,
/// and two committed versions write the same characters only for one digest.
pub proof fn law_prior_keys_apart(a: Prior, b: Prior)
    requires
        prior_key(a) == prior_key(b),
    ensures
        a is Unchanged <==> b is Unchanged,
        a is Added <==> b is Added,
        a is Committed <==> b is Committed,
        a matches Prior::Committed { digest: x, .. } ==> b matches Prior::Committed {
            digest: y,
            ..
        } && x@ == y@,
{
    reveal_strlit("unchanged");
    reveal_strlit("added");
    reveal_strlit("committed ");
    assert("unchanged"@.len() == 9);
    assert("added"@.len() == 5);
    assert("committed "@.len() == 10);
    match (a, b) {
        (Prior::Committed { digest: x, .. }, Prior::Committed { digest: y, .. }) => {
            assert(x@ =~= prior_key(a).skip(10));
            assert(y@ =~= prior_key(b).skip(10));
        },
        _ => {},
    }
}

/// What one line of a manifest names: a path, and the file its prior version
/// is read from, or nothing for an added document.
pub open spec fn line_entry(line: Seq<char>) -> Option<(Seq<char>, Option<Seq<char>>)> {
    let f = pieces(line, '\t');
    if f.len() == 2 && f[0] == "added"@ {
        Some((f[1], None))
    } else if f.len() == 3 && f[0] == "prior"@ {
        Some((f[1], Some(f[2])))
    } else {
        None
    }
}

/// The refusal of a manifest that opens with another line.
pub open spec fn opens_with(first: Seq<char>) -> Seq<char> {
    "a change manifest opens with `"@ + FORMAT@ + "`, and this one opens with `"@ + first + "`"@
}

/// The refusal of an empty manifest.
pub open spec fn opens_empty() -> Seq<char> {
    "a change manifest opens with `"@ + FORMAT@ + "`, and this one is empty"@
}

/// The refusal of a line that is neither shape.
pub open spec fn bad_line(number: nat, line: Seq<char>) -> Seq<char> {
    "line "@ + decimal(number)
        + " of the change manifest is neither `added\\t<path>` nor `prior\\t<path>\\t<file>`: `"@
        + line + "`"@
}

/// The refusal of a path named twice.
pub open spec fn named_twice(path: Seq<char>) -> Seq<char> {
    "the change manifest names `"@ + path + "` twice, and a document has one prior version"@
}

/// Whether the entries read so far name a path.
pub open spec fn names(es: Seq<(Seq<char>, Option<Seq<char>>)>, path: Seq<char>) -> bool {
    exists|j: int| 0 <= j < es.len() && (#[trigger] es[j]).0 == path
}

/// The entries the lines after the first one name, in the order they are
/// written, or the first refusal. A blank line names nothing, and the lines
/// are numbered from the second line of the manifest.
pub open spec fn entries_of(lines: Seq<Seq<char>>) -> Result<
    Seq<(Seq<char>, Option<Seq<char>>)>,
    Seq<char>,
>
    decreases lines.len(),
{
    if lines.len() == 0 {
        Ok(Seq::empty())
    } else {
        match entries_of(lines.drop_last()) {
            Err(e) => Err(e),
            Ok(es) => {
                let line = lines.last();
                if trim(line).len() == 0 {
                    Ok(es)
                } else {
                    match line_entry(line) {
                        None => Err(bad_line(lines.len() + 1, line)),
                        Some(e) => if names(es, e.0) {
                            Err(named_twice(e.0))
                        } else {
                            Ok(es.push(e))
                        },
                    }
                }
            },
        }
    }
}

/// What a manifest names, in the order it writes them, or why it is refused.
pub open spec fn manifest_entries(text: Seq<char>) -> Result<
    Seq<(Seq<char>, Option<Seq<char>>)>,
    Seq<char>,
> {
    let ls = text_lines(text);
    if ls.len() == 0 {
        Err(opens_empty())
    } else if ls[0] != FORMAT@ {
        Err(opens_with(ls[0]))
    } else {
        entries_of(ls.skip(1))
    }
}

/// Whether a held version is what a line asks for: nothing for an added
/// document, and what the reader of prior versions gave back for its file.
pub open spec fn held_for<F: Fn(&str) -> Held>(source: Option<Seq<char>>, h: Held, prior: F) -> bool {
    match source {
        None => h is Added,
        Some(s) => exists|src: &str| src@ == s && #[trigger] prior.ensures((src,), h),
    }
}

/// The characters an optional text holds.
pub open spec fn chars_opt(o: Option<Vec<char>>) -> Option<Seq<char>> {
    match o {
        Some(s) => Some(s@),
        None => None,
    }
}

/// Whether entries are in strict path order.
pub open spec fn sorted_paths(v: Seq<(String, Held)>) -> bool {
    forall|a: int, b: int| 0 <= a < b < v.len() ==> lex_lt(#[trigger] v[a].0@, #[trigger] v[b].0@)
}

/// Whether an entry answers to a line of a manifest: the same path, holding
/// what the line asks for.
pub open spec fn answered<F: Fn(&str) -> Held>(
    e: (String, Held),
    es: Seq<(Seq<char>, Option<Seq<char>>)>,
    prior: F,
) -> bool {
    exists|j: int| 0 <= j < es.len() && (#[trigger] es[j]).0 == e.0@ && held_for(es[j].1, e.1, prior)
}

/// Whether each entry answers to a line of a manifest.
pub open spec fn answers<F: Fn(&str) -> Held>(
    v: Seq<(String, Held)>,
    es: Seq<(Seq<char>, Option<Seq<char>>)>,
    prior: F,
) -> bool {
    forall|k: int| 0 <= k < v.len() ==> answered(#[trigger] v[k], es, prior)
}

/// Whether some entry holds a path.
pub open spec fn has_entry(v: Seq<(String, Held)>, path: Seq<char>) -> bool {
    exists|k: int| 0 <= k < v.len() && (#[trigger] v[k]).0@ == path
}

/// Whether each line of a manifest has an entry with its path.
pub open spec fn covers(v: Seq<(String, Held)>, es: Seq<(Seq<char>, Option<Seq<char>>)>) -> bool {
    forall|j: int| 0 <= j < es.len() ==> has_entry(v, (#[trigger] es[j]).0)
}

/// Whether entries are a manifest's, in path order, each holding what its line
/// asks for.
pub open spec fn read_as<F: Fn(&str) -> Held>(
    v: Seq<(String, Held)>,
    es: Seq<(Seq<char>, Option<Seq<char>>)>,
    prior: F,
) -> bool {
    &&& v.len() == es.len()
    &&& sorted_paths(v)
    &&& answers(v, es, prior)
    &&& covers(v, es)
}

/// An entry put where its path sorts keeps entries in strict path order.
proof fn lemma_insert_sorted(v: Seq<(String, Held)>, p: int, x: (String, Held))
    requires
        sorted_paths(v),
        0 <= p <= v.len(),
        forall|t: int| 0 <= t < p ==> !lex_lt(x.0@, #[trigger] v[t].0@),
        p < v.len() ==> lex_lt(x.0@, v[p].0@),
        forall|t: int| 0 <= t < v.len() ==> (#[trigger] v[t]).0@ != x.0@,
    ensures
        sorted_paths(v.insert(p, x)),
{
    let w = v.insert(p, x);
    let path = x.0@;
    assert forall|a: int, b: int| 0 <= a < b < w.len() implies lex_lt(
        #[trigger] w[a].0@,
        #[trigger] w[b].0@,
    ) by {
        if b < p {
            assert(w[a] == v[a] && w[b] == v[b]);
        } else if b == p {
            assert(w[a] == v[a]);
            assert(!lex_lt(path, v[a].0@));
            assert(v[a].0@ != path);
            lemma_lex_total(v[a].0@, path);
        } else if a == p {
            assert(w[b] == v[b - 1]);
            assert(lex_lt(path, v[p].0@));
            if b - 1 > p {
                assert(lex_lt(v[p].0@, v[b - 1].0@));
                lemma_lex_transitive(path, v[p].0@, v[b - 1].0@);
            }
        } else if a < p {
            assert(w[a] == v[a] && w[b] == v[b - 1]);
        } else {
            assert(w[a] == v[a - 1] && w[b] == v[b - 1]);
        }
    }
}

/// Each entry of the longer list answers to a line.
proof fn lemma_insert_answers<F: Fn(&str) -> Held>(
    v: Seq<(String, Held)>,
    p: int,
    x: (String, Held),
    es: Seq<(Seq<char>, Option<Seq<char>>)>,
    entry: (Seq<char>, Option<Seq<char>>),
    prior: F,
)
    requires
        answers(v, es, prior),
        0 <= p <= v.len(),
        entry.0 == x.0@,
        held_for(entry.1, x.1, prior),
    ensures
        answers(v.insert(p, x), es.push(entry), prior),
{
    let w = v.insert(p, x);
    let es2 = es.push(entry);
    assert forall|k: int| 0 <= k < w.len() implies answered(#[trigger] w[k], es2, prior) by {
        if k < p {
            assert(w[k] == v[k]);
            assert(answered(v[k], es, prior));
            let j = choose|j: int| 0 <= j < es.len() && (#[trigger] es[j]).0 == v[k].0@ && held_for(es[j].1, v[k].1, prior);
            assert(es2[j] == es[j]);
        } else if k == p {
            assert(es2[es.len() as int] == entry);
        } else {
            assert(w[k] == v[k - 1]);
            assert(answered(v[k - 1], es, prior));
            let j = choose|j: int| 0 <= j < es.len() && (#[trigger] es[j]).0 == v[k - 1].0@ && held_for(es[j].1, v[k - 1].1, prior);
            assert(es2[j] == es[j]);
        }
    }
}

/// Each line answers to an entry of the longer list.
proof fn lemma_insert_covers(
    v: Seq<(String, Held)>,
    p: int,
    x: (String, Held),
    es: Seq<(Seq<char>, Option<Seq<char>>)>,
    entry: (Seq<char>, Option<Seq<char>>),
)
    requires
        covers(v, es),
        0 <= p <= v.len(),
        entry.0 == x.0@,
    ensures
        covers(v.insert(p, x), es.push(entry)),
{
    let w = v.insert(p, x);
    let es2 = es.push(entry);
    assert forall|j: int| 0 <= j < es2.len() implies has_entry(w, (#[trigger] es2[j]).0) by {
        if j < es.len() {
            assert(es2[j] == es[j]);
            assert(has_entry(v, es[j].0));
            let q = choose|q: int| 0 <= q < v.len() && (#[trigger] v[q]).0@ == es[j].0;
            if q < p {
                assert(w[q] == v[q]);
            } else {
                assert(w[q + 1] == v[q]);
            }
        } else {
            assert(w[p] == x);
        }
    }
}

/// An entry put where its path sorts, into entries read as a manifest's,
/// leaves them read as the manifest with its line added.
proof fn lemma_insert_entry<F: Fn(&str) -> Held>(
    v: Seq<(String, Held)>,
    p: int,
    x: (String, Held),
    es: Seq<(Seq<char>, Option<Seq<char>>)>,
    entry: (Seq<char>, Option<Seq<char>>),
    prior: F,
)
    requires
        read_as(v, es, prior),
        0 <= p <= v.len(),
        forall|t: int| 0 <= t < p ==> !lex_lt(x.0@, #[trigger] v[t].0@),
        p < v.len() ==> lex_lt(x.0@, v[p].0@),
        forall|t: int| 0 <= t < v.len() ==> (#[trigger] v[t]).0@ != x.0@,
        entry.0 == x.0@,
        held_for(entry.1, x.1, prior),
    ensures
        read_as(v.insert(p, x), es.push(entry), prior),
{
    lemma_insert_sorted(v, p, x);
    lemma_insert_answers(v, p, x, es, entry, prior);
    lemma_insert_covers(v, p, x, es, entry);
}

/// One more line read into the entries the lines before it named.
proof fn lemma_step(all: Seq<Seq<char>>, n: int, es: Seq<(Seq<char>, Option<Seq<char>>)>)
    requires
        1 <= n <= all.len(),
        entries_of(all.take(n - 1)) == Ok::<Seq<(Seq<char>, Option<Seq<char>>)>, Seq<char>>(es),
    ensures
        entries_of(all.take(n)) == if trim(all[n - 1]).len() == 0 {
            Ok::<Seq<(Seq<char>, Option<Seq<char>>)>, Seq<char>>(es)
        } else {
            match line_entry(all[n - 1]) {
                None => Err(bad_line((n + 1) as nat, all[n - 1])),
                Some(e) => if names(es, e.0) {
                    Err(named_twice(e.0))
                } else {
                    Ok(es.push(e))
                },
            }
        },
{
    assert(all.take(n).drop_last() =~= all.take(n - 1));
    assert(all.take(n).last() == all[n - 1]);
}

/// A refusal in the lines read so far is the refusal of all of them.
proof fn lemma_refusal_sticks(lines: Seq<Seq<char>>, k: int, e: Seq<char>)
    requires
        0 <= k <= lines.len(),
        entries_of(lines.take(k)) == Err::<Seq<(Seq<char>, Option<Seq<char>>)>, Seq<char>>(e),
    ensures
        entries_of(lines) == Err::<Seq<(Seq<char>, Option<Seq<char>>)>, Seq<char>>(e),
    decreases lines.len() - k,
{
    if k == lines.len() {
        assert(lines.take(k) =~= lines);
    } else {
        assert(lines.take(k + 1).drop_last() =~= lines.take(k));
        lemma_refusal_sticks(lines, k + 1, e);
    }
}

/// A manifest that has been read and not yet held against a corpus.
#[derive(Debug)]
pub struct Unbound {
    entries: Vec<(String, Held)>,
}

impl Unbound {
    /// The entries, in path order.
    pub closed spec fn view(&self) -> Seq<(String, Held)> {
        self.entries@
    }

    /// Read a manifest, and the prior version each line names.
    ///
    /// `prior` is how the file a line names becomes a held version: its bytes
    /// opened, digested and parsed, or the reason they were not. A manifest
    /// that opens with another line, a line of neither shape, or a path named
    /// twice refuses the whole manifest, and the first such line in the order
    /// written is the one the refusal names. The entries come out in path
    /// order, whatever order the manifest wrote them in.
    pub fn read<F: Fn(&str) -> Held>(manifest: &str, prior: F) -> (r: Result<Unbound, String>)
        requires
            forall|s: &str| #[trigger] prior.requires((s,)),
        ensures
            match r {
                Ok(u) => match manifest_entries(manifest@) {
                    Ok(es) => read_as(u.view(), es, prior),
                    Err(_) => false,
                },
                Err(e) => manifest_entries(manifest@) == Err::<
                    Seq<(Seq<char>, Option<Seq<char>>)>,
                    Seq<char>,
                >(e@),
            },
    {
        let text = chars_of(manifest);
        let lines = lines_of(text.as_slice());
        let ghost ls = views(lines@);
        if lines.len() == 0 {
            let mut m: Vec<char> = chars_of("a change manifest opens with `");
            extend_str(&mut m, FORMAT);
            extend_str(&mut m, "`, and this one is empty");
            return Err(string_of(m.as_slice()));
        }
        assert(ls[0] == lines@[0]@);
        if !spells(lines[0].as_slice(), FORMAT) {
            let mut m: Vec<char> = chars_of("a change manifest opens with `");
            extend_str(&mut m, FORMAT);
            extend_str(&mut m, "`, and this one opens with `");
            extend(&mut m, lines[0].as_slice());
            extend_str(&mut m, "`");
            return Err(string_of(m.as_slice()));
        }
        let mut out: Vec<(String, Held)> = Vec::new();
        let ghost mut es: Seq<(Seq<char>, Option<Seq<char>>)> = Seq::empty();
        let mut i: usize = 1;
        assert(ls.skip(1).take(0) =~= Seq::<Seq<char>>::empty());
        while i < lines.len()
            invariant
                1 <= i <= lines@.len(),
                ls == views(lines@),
                ls == text_lines(manifest@),
                ls[0] == FORMAT@,
                forall|s: &str| #[trigger] prior.requires((s,)),
                entries_of(ls.skip(1).take(i - 1)) == Ok::<
                    Seq<(Seq<char>, Option<Seq<char>>)>,
                    Seq<char>,
                >(es),
                read_as(out@, es, prior),
            decreases lines@.len() - i,
        {
            let line = &lines[i];
            proof {
                assert(ls.skip(1)[i - 1] == ls[i as int]);
                assert(line@ == ls[i as int]);
                lemma_step(ls.skip(1), i as int, es);
            }
            let t = trimmed(line.as_slice());
            if t.len() == 0 {
                i = i + 1;
                continue;
            }
            let fields = split_char(line.as_slice(), '\t');
            assert(views(fields@) == pieces(line@, '\t'));
            let mut path: Vec<char> = Vec::new();
            let mut source: Option<Vec<char>> = None;
            if fields.len() == 2 && spells(fields[0].as_slice(), "added") {
                assert(views(fields@)[0] == fields@[0]@);
                assert(views(fields@)[1] == fields@[1]@);
                extend(&mut path, fields[1].as_slice());
            } else if fields.len() == 3 && spells(fields[0].as_slice(), "prior") {
                assert(views(fields@)[0] == fields@[0]@);
                assert(views(fields@)[1] == fields@[1]@);
                assert(views(fields@)[2] == fields@[2]@);
                extend(&mut path, fields[1].as_slice());
                let mut s: Vec<char> = Vec::new();
                extend(&mut s, fields[2].as_slice());
                source = Some(s);
            } else {
                proof {
                    if fields@.len() > 0 {
                        assert(views(fields@)[0] == fields@[0]@);
                    }
                    assert(line_entry(line@) is None);
                    lemma_refusal_sticks(ls.skip(1), i as int, bad_line((i + 1) as nat, line@));
                }
                let mut m: Vec<char> = chars_of("line ");
                extend_decimal(&mut m, (i + 1) as u64);
                extend_str(
                    &mut m,
                    " of the change manifest is neither `added\\t<path>` nor `prior\\t<path>\\t<file>`: `",
                );
                extend(&mut m, line.as_slice());
                extend_str(&mut m, "`");
                return Err(string_of(m.as_slice()));
            }
            assert(line_entry(line@) == Some(
                (path@, chars_opt(source)),
            ));
            let mut k: usize = 0;
            let mut twice = false;
            while k < out.len() && !twice
                invariant
                    k <= out@.len(),
                    twice ==> k < out@.len() && out@[k as int].0@ == path@,
                    !twice ==> forall|t: int| 0 <= t < k ==> (#[trigger] out@[t]).0@ != path@,
                decreases out@.len() - k + (if twice { 0int } else { 1int }),
            {
                let known = chars_of(out[k].0.as_str());
                if crate::text::same(known.as_slice(), path.as_slice()) {
                    twice = true;
                } else {
                    k = k + 1;
                }
            }
            if twice {
                proof {
                    assert(answered(out@[k as int], es, prior));
                    let j = choose|j: int| 0 <= j < es.len() && (#[trigger] es[j]).0 == out@[k as int].0@ && held_for(
                        es[j].1,
                        out@[k as int].1,
                        prior,
                    );
                    assert(es[j].0 == path@);
                    assert(names(es, path@));
                    lemma_refusal_sticks(ls.skip(1), i as int, named_twice(path@));
                }
                let mut m: Vec<char> = chars_of("the change manifest names `");
                extend(&mut m, path.as_slice());
                extend_str(&mut m, "` twice, and a document has one prior version");
                return Err(string_of(m.as_slice()));
            }
            assert(!names(es, path@)) by {
                if names(es, path@) {
                    let j = choose|j: int| 0 <= j < es.len() && (#[trigger] es[j]).0 == path@;
                    assert(has_entry(out@, es[j].0));
                    let q = choose|q: int| 0 <= q < out@.len() && (#[trigger] out@[q]).0@ == es[j].0;
                    assert(out@[q].0@ != path@);
                }
            }
            let ghost entry = (path@, chars_opt(source));
            let held = match source {
                None => Held::Added,
                Some(s) => {
                    let owned_source = string_of(s.as_slice());
                    let sr: &str = owned_source.as_str();
                    let h = prior(sr);
                    assert(held_for(Some(s@), h, prior)) by {
                        assert(sr@ == s@ && prior.ensures((sr,), h));
                    }
                    h
                },
            };
            assert(held_for(entry.1, held, prior));
            let mut p: usize = 0;
            while p < out.len() && !lex_less(path.as_slice(), chars_of(out[p].0.as_str()).as_slice())
                invariant
                    p <= out@.len(),
                    forall|t: int| 0 <= t < out@.len() ==> (#[trigger] out@[t]).0@ != path@,
                    forall|t: int| 0 <= t < p ==> !lex_lt(path@, #[trigger] out@[t].0@),
                decreases out@.len() - p,
            {
                p = p + 1;
            }
            let ghost v = out@;
            let name = string_of(path.as_slice());
            let ghost x = (name, held);
            out.insert(p, (name, held));
            proof {
                assert(out@ =~= v.insert(p as int, x));
                lemma_insert_entry(v, p as int, x, es, entry, prior);
                es = es.push(entry);
            }
            i = i + 1;
        }
        assert(ls.skip(1).take(i - 1) =~= ls.skip(1));
        Ok(Unbound { entries: out })
    }
}

/// What becomes of an entry whose path no row of the corpus holds: the prior
/// version it carried, where it carried one, and nothing otherwise.
pub open spec fn left_over(h: Held) -> Held {
    match h {
        Held::Committed { digest, facets } => Held::Unmatched { prior: Some((digest, facets)) },
        _ => Held::Unmatched { prior: None },
    }
}

/// Whether an entry is one of a manifest held against a corpus: the same
/// path, kept where the corpus holds it and left over where it does not.
pub open spec fn bound<H: Fn(&str) -> bool>(before: (String, Held), after: (String, Held), holds: H) -> bool {
    &&& after.0 == before.0
    &&& exists|s: &str, b: bool|
        s@ == before.0@ && #[trigger] holds.ensures((s,), b) && after.1 == (if b {
            before.1
        } else {
            left_over(before.1)
        })
}

impl Unbound {
    /// The paths this manifest names, in path order.
    pub fn paths(&self) -> (out: Vec<&str>)
        ensures
            out@.len() == self.view().len(),
            forall|k: int| 0 <= k < out@.len() ==> (#[trigger] out@[k])@ == self.view()[k].0@,
    {
        let mut out: Vec<&str> = Vec::new();
        let mut i: usize = 0;
        while i < self.entries.len()
            invariant
                i <= self.entries@.len(),
                out@.len() == i,
                forall|k: int| 0 <= k < i ==> (#[trigger] out@[k])@ == self.entries@[k].0@,
            decreases self.entries@.len() - i,
        {
            out.push(self.entries[i].0.as_str());
            i = i + 1;
        }
        out
    }

    /// Hold every path this manifest names against the corpus the run walked.
    ///
    /// `holds` answers whether the walk read a file at that path. A path it
    /// does not hold binds to no row, and keeps the prior version a `prior`
    /// line carried and nothing else.
    pub fn bind<H: Fn(&str) -> bool>(self, holds: H) -> (c: Change)
        requires
            forall|s: &str| #[trigger] holds.requires((s,)),
        ensures
            c.view().len() == self.view().len(),
            forall|k: int| 0 <= k < c.view().len() ==> bound(self.view()[k], #[trigger] c.view()[k], holds),
    {
        let Unbound { entries } = self;
        let ghost before = entries@;
        let mut rest = entries;
        let mut out: Vec<(String, Held)> = Vec::new();
        while rest.len() > 0
            invariant
                out@.len() + rest@.len() == before.len(),
                rest@ == before.skip(out@.len() as int),
                forall|k: int| 0 <= k < out@.len() ==> bound(before[k], #[trigger] out@[k], holds),
                forall|s: &str| #[trigger] holds.requires((s,)),
            decreases rest@.len(),
        {
            let ghost n = out@.len();
            assert(rest@[0] == before[n as int]);
            let (path, held) = rest.remove(0);
            let pr: &str = path.as_str();
            let b = holds(pr);
            let ghost kept = held;
            let after = if b {
                held
            } else {
                match held {
                    Held::Committed { digest, facets } => Held::Unmatched { prior: Some((digest, facets)) },
                    _ => Held::Unmatched { prior: None },
                }
            };
            proof {
                assert(pr@ == path@ && holds.ensures((pr,), b));
                assert(bound(before[n as int], (path, after), holds));
            }
            out.push((path, after));
            proof {
                assert(rest@ =~= before.skip(out@.len() as int));
            }
        }
        Change { entries: out }
    }
}

/// What became of a document a change named.
pub enum Fate {
    Added,
    Carried,
    Unreadable,
    Unmatched,
}

/// What became of the document an entry holds.
pub open spec fn fate(h: Held) -> Fate {
    match h {
        Held::Added => Fate::Added,
        Held::Committed { .. } => Fate::Carried,
        Held::Unreadable { .. } => Fate::Unreadable,
        Held::Unmatched { .. } => Fate::Unmatched,
    }
}

/// How many entries met one fate.
pub open spec fn fate_count(v: Seq<(String, Held)>, f: Fate) -> nat
    decreases v.len(),
{
    if v.len() == 0 {
        0
    } else {
        fate_count(v.drop_last(), f) + if fate(v.last().1) == f {
            1nat
        } else {
            0nat
        }
    }
}

/// The paths of the entries no row holds, in order.
pub open spec fn unmatched_paths(v: Seq<(String, Held)>) -> Seq<Seq<char>>
    decreases v.len(),
{
    if v.len() == 0 {
        Seq::empty()
    } else if v.last().1 is Unmatched {
        unmatched_paths(v.drop_last()).push(v.last().0@)
    } else {
        unmatched_paths(v.drop_last())
    }
}

/// The entries no row holds that carried a prior version: the path, the
/// digest and the front matter of each, in order.
pub open spec fn departures(v: Seq<(String, Held)>) -> Seq<(Seq<char>, Seq<char>, Vec<(String, Node)>)>
    decreases v.len(),
{
    if v.len() == 0 {
        Seq::empty()
    } else {
        match v.last().1 {
            Held::Unmatched { prior: Some((digest, facets)) } => departures(v.drop_last()).push(
                (v.last().0@, digest@, facets),
            ),
            _ => departures(v.drop_last()),
        }
    }
}

/// Whether a prior version is what an entry holds: the state it stood in, or
/// the reason no check may be handed one.
pub open spec fn prior_answer<'a>(h: Held, r: Result<Prior<'a>, &'a str>) -> bool {
    match h {
        Held::Added => r == Ok::<Prior<'a>, &'a str>(Prior::Added),
        Held::Committed { digest, facets } => r matches Ok(Prior::Committed { digest: d, facets: f })
            && d@ == digest@ && *f == facets,
        Held::Unreadable { why } => r matches Err(w) && w@ == why@,
        Held::Unmatched { .. } => r matches Err(w) && w@ == UNMATCHED@,
    }
}

/// One path a change named that this corpus holds no row at, and the version
/// of it the caller supplied.
#[derive(Clone, Copy, Debug)]
pub struct Departed<'a> {
    /// As the manifest wrote it.
    pub path: &'a str,
    /// Over the prior bytes.
    pub digest: &'a str,
    /// The front matter of the version that stood there.
    pub facets: &'a Vec<(String, Node)>,
}

/// The documents one change carries, each held against the corpus this run
/// walked.
#[derive(Debug)]
pub struct Change {
    entries: Vec<(String, Held)>,
}

impl Default for Change {
    /// A change that carries nothing.
    fn default() -> (c: Self)
        ensures
            c.view().len() == 0,
    {
        Change { entries: Vec::new() }
    }
}

impl Change {
    /// The entries, in the order the manifest's were.
    pub closed spec fn view(&self) -> Seq<(String, Held)> {
        self.entries@
    }

    /// What this change named, for the report that states its own inputs.
    pub fn named(&self) -> (n: Named)
        ensures
            n.documents == self.view().len(),
            n.added == fate_count(self.view(), Fate::Added),
            n.carried == fate_count(self.view(), Fate::Carried),
            n.unreadable == fate_count(self.view(), Fate::Unreadable),
            n.unmatched == fate_count(self.view(), Fate::Unmatched),
            n.added + n.carried + n.unreadable + n.unmatched == n.documents,
    {
        let mut named = Named { documents: self.entries.len(), added: 0, carried: 0, unreadable: 0, unmatched: 0 };
        let mut i: usize = 0;
        while i < self.entries.len()
            invariant
                i <= self.entries@.len(),
                named.documents == self.entries@.len(),
                named.added == fate_count(self.entries@.take(i as int), Fate::Added),
                named.carried == fate_count(self.entries@.take(i as int), Fate::Carried),
                named.unreadable == fate_count(self.entries@.take(i as int), Fate::Unreadable),
                named.unmatched == fate_count(self.entries@.take(i as int), Fate::Unmatched),
                named.added + named.carried + named.unreadable + named.unmatched == i,
            decreases self.entries@.len() - i,
        {
            let ghost v = self.entries@.take(i + 1);
            assert(v.drop_last() =~= self.entries@.take(i as int));
            match &self.entries[i].1 {
                Held::Added => named.added = named.added + 1,
                Held::Committed { .. } => named.carried = named.carried + 1,
                Held::Unreadable { .. } => named.unreadable = named.unreadable + 1,
                Held::Unmatched { .. } => named.unmatched = named.unmatched + 1,
            }
            i = i + 1;
        }
        assert(self.entries@.take(i as int) =~= self.entries@);
        named
    }

    /// The paths this change named that no row of the corpus holds, in order.
    pub fn unmatched(&self) -> (out: Vec<&str>)
        ensures
            out@.len() == unmatched_paths(self.view()).len(),
            forall|k: int| 0 <= k < out@.len() ==> (#[trigger] out@[k])@ == unmatched_paths(self.view())[k],
    {
        let mut out: Vec<&str> = Vec::new();
        let mut i: usize = 0;
        while i < self.entries.len()
            invariant
                i <= self.entries@.len(),
                out@.len() == unmatched_paths(self.entries@.take(i as int)).len(),
                forall|k: int| 0 <= k < out@.len() ==> (#[trigger] out@[k])@ == unmatched_paths(self.entries@.take(i as int))[k],
            decreases self.entries@.len() - i,
        {
            let ghost v = self.entries@.take(i + 1);
            assert(v.drop_last() =~= self.entries@.take(i as int));
            match &self.entries[i].1 {
                Held::Unmatched { .. } => out.push(self.entries[i].0.as_str()),
                _ => {},
            }
            i = i + 1;
        }
        assert(self.entries@.take(i as int) =~= self.entries@);
        out
    }

    /// Every path this change named that no row of this corpus holds, and
    /// whose prior version this run read, in order: what a document leaving
    /// the corpus looks like from inside the engine.
    pub fn departed(&self) -> (out: Vec<Departed<'_>>)
        ensures
            out@.len() == departures(self.view()).len(),
            forall|k: int|
                0 <= k < out@.len() ==> ((#[trigger] out@[k]).path@, out@[k].digest@, *out@[k].facets)
                    == departures(self.view())[k],
    {
        let mut out: Vec<Departed<'_>> = Vec::new();
        let mut i: usize = 0;
        while i < self.entries.len()
            invariant
                i <= self.entries@.len(),
                out@.len() == departures(self.entries@.take(i as int)).len(),
                forall|k: int|
                    0 <= k < out@.len() ==> ((#[trigger] out@[k]).path@, out@[k].digest@, *out@[k].facets)
                        == departures(self.entries@.take(i as int))[k],
            decreases self.entries@.len() - i,
        {
            let ghost v = self.entries@.take(i + 1);
            assert(v.drop_last() =~= self.entries@.take(i as int));
            match &self.entries[i].1 {
                Held::Unmatched { prior: Some((digest, facets)) } => {
                    out.push(Departed { path: self.entries[i].0.as_str(), digest: digest.as_str(), facets });
                },
                _ => {},
            }
            i = i + 1;
        }
        assert(self.entries@.take(i as int) =~= self.entries@);
        out
    }

    /// The prior version of one document, or the reason no check may be
    /// handed one. A path this change does not name is unchanged, which is
    /// the whole of what "the change carries these documents and no others"
    /// means.
    pub fn prior_of(&self, path: &str) -> (r: Result<Prior<'_>, &str>)
        ensures
            (forall|k: int| 0 <= k < self.view().len() ==> (#[trigger] self.view()[k]).0@ != path@) ==> r
                == Ok::<Prior<'_>, &str>(Prior::Unchanged),
            !(forall|k: int| 0 <= k < self.view().len() ==> (#[trigger] self.view()[k]).0@ != path@) ==> exists|k: int|
                0 <= k < self.view().len() && (#[trigger] self.view()[k]).0@ == path@ && (forall|j: int|
                    0 <= j < k ==> self.view()[j].0@ != path@) && prior_answer(self.view()[k].1, r),
    {
        let mut i: usize = 0;
        while i < self.entries.len()
            invariant
                i <= self.entries@.len(),
                forall|j: int| 0 <= j < i ==> (#[trigger] self.entries@[j]).0@ != path@,
            decreases self.entries@.len() - i,
        {
            if str_eq(self.entries[i].0.as_str(), path) {
                let r = match &self.entries[i].1 {
                    Held::Added => Ok(Prior::Added),
                    Held::Committed { digest, facets } => Ok(Prior::Committed { digest: digest.as_str(), facets }),
                    Held::Unreadable { why } => Err(why.as_str()),
                    Held::Unmatched { .. } => Err(UNMATCHED),
                };
                assert(prior_answer(self.entries@[i as int].1, r));
                assert(self.view()[i as int].0@ == path@);
                return r;
            }
            i = i + 1;
        }
        Ok(Prior::Unchanged)
    }
}

/// What a change's manifest named, and what became of each document.
#[derive(Clone, Copy, Debug, PartialEq, Eq, Structural)]
pub struct Named {
    /// Documents the manifest named, whatever became of each one.
    pub documents: usize,
    /// Of those, the ones the change adds.
    pub added: usize,
    /// Of those, the ones that bound to a document of this corpus and whose
    /// prior version this run read.
    pub carried: usize,
    /// Of those, the ones whose prior version this run could not read.
    pub unreadable: usize,
    /// Of those, the ones whose path no row of this corpus holds.
    pub unmatched: usize,
}

} // verus!
