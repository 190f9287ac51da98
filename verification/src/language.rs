//! Controlled language: what a regime that holds prose to a house profile
//! reports in a sentence.
//!
//! A sentence over the word limit that is not a citation line, a semicolon in
//! running prose outside any parenthesis, a contraction, and, under an
//! American tag, a British spelling.
use vstd::prelude::*;
use crate::finding::{Finding, Severity};
use crate::instance::Outcome;
use crate::text::{
    alphanumeric, chars_of, decimal, extend, extend_decimal, extend_str, is_alphanumeric, lowercase,
    lowered, owned, spells, string_of, words, words_of, views,
};

verus! {

/// The rule this module reports under.
pub const RULE: &'static str = "language.controlled.not_met";

/// The longest sentence, in words, that a house profile admits.
pub const MAX_WORDS: usize = 25;

/// How deep inside parentheses the end of a text stands. A closing
/// parenthesis with none open is ignored rather than counted below zero.
pub open spec fn paren_depth(s: Seq<char>) -> nat
    decreases s.len(),
{
    if s.len() == 0 {
        0
    } else {
        let d = paren_depth(s.drop_last());
        let c = s.last();
        if c == '(' {
            d + 1
        } else if c == ')' {
            if d == 0 {
                0
            } else {
                (d - 1) as nat
            }
        } else {
            d
        }
    }
}

/// Whether a text writes a semicolon outside every parenthesis, which is a
/// run-on in running prose. A semicolon inside a citation such as
/// `(Smith, 2004; Jones, 2007)` is not one.
pub open spec fn semicolon_outside(s: Seq<char>) -> bool {
    exists|i: int| 0 <= i < s.len() && s[i] == ';' && paren_depth(#[trigger] s.take(i)) == 0
}

/// Whether a sentence runs two statements on with a semicolon.
pub fn runs_on(text: &str) -> (r: bool)
    ensures
        r == semicolon_outside(text@),
{
    let chars = chars_of(text);
    let mut depth: u64 = 0;
    let mut i: usize = 0;
    proof {
        assert(chars@.take(0) =~= Seq::<char>::empty());
    }
    while i < chars.len()
        invariant
            chars@ == text@,
            i <= chars@.len(),
            depth == paren_depth(chars@.take(i as int)),
            depth <= i,
            forall|k: int| 0 <= k < i ==> !(chars@[k] == ';' && paren_depth(#[trigger] chars@.take(k)) == 0),
        decreases chars@.len() - i,
    {
        let c = chars[i];
        assert(chars@.take(i + 1).drop_last() =~= chars@.take(i as int));
        if c == ';' && depth == 0 {
            return true;
        }
        if c == '(' {
            depth = depth + 1;
        } else if c == ')' {
            if depth > 0 {
                depth = depth - 1;
            }
        }
        i = i + 1;
    }
    false
}

/// How many times a three-character pattern occurs in a text, counting
/// occurrences that do not overlap from the left, which is
/// `str::matches(..).count()`.
pub open spec fn matches3(s: Seq<char>, p: Seq<char>) -> nat
    decreases s.len(),
{
    if s.len() < 3 {
        0
    } else if s.take(3) == p {
        1 + matches3(s.skip(3), p)
    } else {
        matches3(s.skip(1), p)
    }
}

/// ` · `, the separator a citation line writes between its parts.
pub open spec fn citation_mark() -> Seq<char> {
    seq![' ', '\u{00b7}', ' ']
}

/// Whether a line is a citation: two or more separators, so its length is a
/// list of sources rather than a sentence.
pub fn is_a_citation_line(text: &str) -> (r: bool)
    ensures
        r == (matches3(text@, citation_mark()) >= 2),
{
    let chars = chars_of(text);
    let mut count: u64 = 0;
    let mut i: usize = 0;
    proof {
        assert(chars@.skip(0) =~= chars@);
    }
    while i < chars.len()
        invariant
            chars@ == text@,
            i <= chars@.len(),
            count <= i,
            count + matches3(chars@.skip(i as int), citation_mark()) == matches3(
                text@,
                citation_mark(),
            ),
        decreases chars@.len() - i,
    {
        let ghost rest = chars@.skip(i as int);
        if chars.len() - i < 3 {
            assert(rest.len() < 3);
            i = chars.len();
            assert(chars@.skip(i as int) =~= Seq::<char>::empty());
        } else if chars[i] == ' ' && chars[i + 1] == '\u{00b7}' && chars[i + 2] == ' ' {
            assert(rest.take(3) =~= citation_mark());
            assert(rest.skip(3) =~= chars@.skip(i + 3));
            count = count + 1;
            i = i + 3;
        } else {
            assert(rest.take(3) != citation_mark()) by {
                if rest.take(3) == citation_mark() {
                    assert(rest.take(3)[0] == chars@[i as int]);
                    assert(rest.take(3)[1] == chars@[i + 1]);
                    assert(rest.take(3)[2] == chars@[i + 2]);
                }
            }
            assert(rest.skip(1) =~= chars@.skip(i + 1));
            i = i + 1;
        }
    }
    count >= 2
}

/// What a block of a document is, as far as the running-prose test cares.
#[derive(Clone, Copy, Debug, PartialEq, Eq, Structural)]
pub enum BlockKind {
    Paragraph,
    Item,
    Heading(u8),
    TableCell,
    Code,
    Quote,
}

/// Whether a block holds running prose: a paragraph or a list item, and no
/// heading, table cell or code.
pub fn is_running_prose(kind: BlockKind) -> (r: bool)
    ensures
        r == (kind == BlockKind::Paragraph || kind == BlockKind::Item),
{
    match kind {
        BlockKind::Paragraph | BlockKind::Item => true,
        _ => false,
    }
}

} // verus!

verus! {

/// Whether a character survives into the form a word is tested in: a letter,
/// a digit, or an apostrophe of either kind.
pub open spec fn kept(c: char) -> bool {
    alphanumeric(c) || c == '\'' || c == '\u{2019}'
}

/// A word with every other character dropped.
pub open spec fn keep(s: Seq<char>) -> Seq<char>
    decreases s.len(),
{
    if s.len() == 0 {
        Seq::<char>::empty()
    } else if kept(s.last()) {
        keep(s.drop_last()).push(s.last())
    } else {
        keep(s.drop_last())
    }
}

pub open spec fn is_apostrophe(c: char) -> bool {
    c == '\'' || c == '\u{2019}'
}

/// Whether `i` is where the first apostrophe of a word stands.
pub open spec fn first_apostrophe_at(s: Seq<char>, i: int) -> bool {
    &&& 0 <= i < s.len()
    &&& is_apostrophe(s[i])
    &&& forall|m: int| 0 <= m < i ==> !is_apostrophe(s[m])
}

/// A word split at its first apostrophe, which is dropped.
pub open spec fn at_apostrophe(s: Seq<char>) -> Option<(Seq<char>, Seq<char>)> {
    if exists|i: int| first_apostrophe_at(s, i) {
        let i = choose|i: int| first_apostrophe_at(s, i);
        Some((s.take(i), s.skip(i + 1)))
    } else {
        None
    }
}

/// An ending that makes a contraction after any head.
pub open spec fn contracting_tail(t: Seq<char>) -> bool {
    t == "re"@ || t == "ve"@ || t == "ll"@ || t == "d"@ || t == "m"@
}

/// A head that `'s` contracts rather than makes possessive.
pub open spec fn contracting_head(h: Seq<char>) -> bool {
    h == "it"@ || h == "that"@ || h == "there"@ || h == "here"@ || h == "what"@ || h == "who"@ || h
        == "let"@ || h == "he"@ || h == "she"@ || h == "which"@ || h == "this"@
}

/// Whether a lower-case word is a contraction: `n't`, one of the endings that
/// always contract, or `'s` after a head it cannot be a possessive of.
pub open spec fn contracts(lower: Seq<char>) -> bool {
    match at_apostrophe(lower) {
        Some((h, t)) => h.len() > 0 && t.len() > 0 && ((h.last() == 'n' && t == "t"@)
            || contracting_tail(t) || (t == "s"@ && contracting_head(h))),
        None => false,
    }
}

/// The first word, as written without its punctuation, that is a
/// contraction.
pub open spec fn first_contraction(ws: Seq<Seq<char>>) -> Option<Seq<char>>
    decreases ws.len(),
{
    if ws.len() == 0 {
        None
    } else if contracts(lowered(keep(ws[0]))) {
        Some(keep(ws[0]))
    } else {
        first_contraction(ws.skip(1))
    }
}

/// The characters of a word that `kept` admits.
fn kept_chars(w: &[char]) -> (out: Vec<char>)
    ensures
        out@ == keep(w@),
{
    let mut out: Vec<char> = Vec::new();
    let mut i: usize = 0;
    while i < w.len()
        invariant
            i <= w@.len(),
            out@ == keep(w@.take(i as int)),
        decreases w@.len() - i,
    {
        let c = w[i];
        assert(w@.take(i + 1).drop_last() =~= w@.take(i as int));
        if is_alphanumeric(c) || c == '\'' || c == '\u{2019}' {
            out.push(c);
        }
        i = i + 1;
    }
    assert(w@.take(i as int) =~= w@);
    out
}

/// Whether a lower-case word is a contraction.
fn is_contraction(lower: &[char]) -> (r: bool)
    ensures
        r == contracts(lower@),
{
    let mut i: usize = 0;
    while i < lower.len() && !(lower[i] == '\'' || lower[i] == '\u{2019}')
        invariant
            i <= lower@.len(),
            forall|m: int| 0 <= m < i ==> !is_apostrophe(lower@[m]),
        decreases lower@.len() - i,
    {
        i = i + 1;
    }
    if i == lower.len() {
        assert(!exists|t: int| first_apostrophe_at(lower@, t));
        return false;
    }
    assert(first_apostrophe_at(lower@, i as int));
    proof {
        let c = choose|t: int| first_apostrophe_at(lower@, t);
        if c < i {
            assert(!is_apostrophe(lower@[c]));
        }
        if c > i {
            assert(!is_apostrophe(lower@[i as int]));
        }
        assert(c == i);
    }
    let head = &lower[0..i];
    let tail = &lower[i + 1..lower.len()];
    assert(head@ =~= lower@.take(i as int));
    assert(tail@ =~= lower@.skip(i + 1));
    if head.len() == 0 || tail.len() == 0 {
        return false;
    }
    if head[head.len() - 1] == 'n' && spells(tail, "t") {
        return true;
    }
    if spells(tail, "re") || spells(tail, "ve") || spells(tail, "ll") || spells(tail, "d") || spells(tail, "m") {
        return true;
    }
    spells(tail, "s") && (spells(head, "it") || spells(head, "that") || spells(head, "there")
        || spells(head, "here") || spells(head, "what") || spells(head, "who") || spells(head, "let")
        || spells(head, "he") || spells(head, "she") || spells(head, "which") || spells(head, "this"))
}

/// The first contraction a sentence writes, as written without its
/// punctuation. A possessive such as `the engine's` is not one.
pub fn contraction(text: &str) -> (r: Option<String>)
    ensures
        match r {
            Some(w) => first_contraction(words(text@)) == Some(w@),
            None => first_contraction(words(text@)) is None,
        },
{
    let chars = chars_of(text);
    let ws = words_of(chars.as_slice());
    let ghost all = words(text@);
    let mut i: usize = 0;
    proof {
        assert(all.skip(0) =~= all);
    }
    while i < ws.len()
        invariant
            views(ws@) == all,
            all == words(text@),
            i <= ws@.len(),
            first_contraction(all) == first_contraction(all.skip(i as int)),
        decreases ws@.len() - i,
    {
        assert(all.skip(i as int)[0] == ws@[i as int]@);
        assert(all.skip(i as int).skip(1) =~= all.skip(i + 1));
        let cleaned = kept_chars(ws[i].as_slice());
        let cleaned_text = string_of(cleaned.as_slice());
        let lower = lowercase(cleaned_text.as_str());
        let lower_chars = chars_of(lower.as_str());
        if is_contraction(lower_chars.as_slice()) {
            return Some(cleaned_text);
        }
        i = i + 1;
    }
    None
}

/// The pieces of a text between its characters that are neither letters nor
/// digits.
pub open spec fn alnum_pieces(s: Seq<char>) -> Seq<Seq<char>>
    decreases s.len(),
{
    if s.len() == 0 {
        seq![Seq::<char>::empty()]
    } else {
        let before = alnum_pieces(s.drop_last());
        if !alphanumeric(s.last()) {
            before.push(Seq::<char>::empty())
        } else {
            before.update(before.len() - 1, before.last().push(s.last()))
        }
    }
}

proof fn lemma_alnum_pieces_nonempty(s: Seq<char>)
    ensures
        alnum_pieces(s).len() >= 1,
    decreases s.len(),
{
    if s.len() > 0 {
        lemma_alnum_pieces_nonempty(s.drop_last());
    }
}

/// The British spellings an American tag refuses, each with its American
/// form.
pub open spec fn spelling_table() -> Seq<(Seq<char>, Seq<char>)> {
    seq![
        ("organisation"@, "organization"@),
        ("organisations"@, "organizations"@),
        ("organise"@, "organize"@),
        ("organised"@, "organized"@),
        ("organises"@, "organizes"@),
        ("organising"@, "organizing"@),
        ("artefact"@, "artifact"@),
        ("artefacts"@, "artifacts"@),
        ("behaviour"@, "behavior"@),
        ("behaviours"@, "behaviors"@),
        ("behavioural"@, "behavioral"@),
        ("customise"@, "customize"@),
        ("customised"@, "customized"@),
        ("customises"@, "customizes"@),
        ("customising"@, "customizing"@),
        ("customisation"@, "customization"@),
        ("judgement"@, "judgment"@),
        ("judgements"@, "judgments"@),
        ("licence"@, "license"@),
        ("licences"@, "licenses"@),
        ("licenced"@, "licensed"@),
        ("catalogue"@, "catalog"@),
        ("catalogues"@, "catalogs"@),
        ("catalogued"@, "cataloged"@),
    ]
}

/// The American form of a lower-case word the table lists.
pub open spec fn american_for(t: Seq<(Seq<char>, Seq<char>)>, w: Seq<char>) -> Option<Seq<char>>
    decreases t.len(),
{
    if t.len() == 0 {
        None
    } else if t[0].0 == w {
        Some(t[0].1)
    } else {
        american_for(t.skip(1), w)
    }
}

/// The first piece whose lower-case form is a British spelling, as written,
/// with its American form.
pub open spec fn first_spelling(ps: Seq<Seq<char>>) -> Option<(Seq<char>, Seq<char>)>
    decreases ps.len(),
{
    if ps.len() == 0 {
        None
    } else if american_for(spelling_table(), lowered(ps[0])) is Some {
        Some((ps[0], american_for(spelling_table(), lowered(ps[0])).unwrap()))
    } else {
        first_spelling(ps.skip(1))
    }
}

fn spellings() -> (v: Vec<(&'static str, &'static str)>)
    ensures
        v@.map_values(|e: (&'static str, &'static str)| (e.0@, e.1@)) == spelling_table(),
{
    let mut v: Vec<(&'static str, &'static str)> = Vec::new();
    v.push(("organisation", "organization"));
    v.push(("organisations", "organizations"));
    v.push(("organise", "organize"));
    v.push(("organised", "organized"));
    v.push(("organises", "organizes"));
    v.push(("organising", "organizing"));
    v.push(("artefact", "artifact"));
    v.push(("artefacts", "artifacts"));
    v.push(("behaviour", "behavior"));
    v.push(("behaviours", "behaviors"));
    v.push(("behavioural", "behavioral"));
    v.push(("customise", "customize"));
    v.push(("customised", "customized"));
    v.push(("customises", "customizes"));
    v.push(("customising", "customizing"));
    v.push(("customisation", "customization"));
    v.push(("judgement", "judgment"));
    v.push(("judgements", "judgments"));
    v.push(("licence", "license"));
    v.push(("licences", "licenses"));
    v.push(("licenced", "licensed"));
    v.push(("catalogue", "catalog"));
    v.push(("catalogues", "catalogs"));
    v.push(("catalogued", "cataloged"));
    assert(v@.map_values(|e: (&'static str, &'static str)| (e.0@, e.1@)) =~= spelling_table());
    v
}

/// The American form of a lower-case word, and nothing for a word the table
/// does not list.
fn american(word: &[char]) -> (r: Option<&'static str>)
    ensures
        match r {
            Some(a) => american_for(spelling_table(), word@) == Some(a@),
            None => american_for(spelling_table(), word@) is None,
        },
{
    let table = spellings();
    let ghost t = spelling_table();
    let mut i: usize = 0;
    proof {
        assert(t.skip(0) =~= t);
    }
    while i < table.len()
        invariant
            table@.map_values(|e: (&'static str, &'static str)| (e.0@, e.1@)) == t,
            t == spelling_table(),
            i <= table@.len(),
            american_for(t, word@) == american_for(t.skip(i as int), word@),
        decreases table@.len() - i,
    {
        let (british, american) = table[i];
        assert(t.skip(i as int)[0] == (british@, american@));
        assert(t.skip(i as int).skip(1) =~= t.skip(i + 1));
        if spells(word, british) {
            return Some(american);
        }
        i = i + 1;
    }
    None
}

/// The first British spelling a sentence writes, as written, with the
/// American form a sentence under an American tag writes instead.
pub fn spelling(text: &str) -> (r: Option<(String, &'static str)>)
    ensures
        match r {
            Some((w, a)) => first_spelling(alnum_pieces(text@)) == Some((w@, a@)),
            None => first_spelling(alnum_pieces(text@)) is None,
        },
{
    let chars = chars_of(text);
    let mut done: Vec<Vec<char>> = Vec::new();
    let mut current: Vec<char> = Vec::new();
    let mut i: usize = 0;
    while i < chars.len()
        invariant
            chars@ == text@,
            i <= chars@.len(),
            views(done@).push(current@) == alnum_pieces(chars@.take(i as int)),
        decreases chars@.len() - i,
    {
        let c = chars[i];
        let ghost prefix = chars@.take(i as int);
        assert(chars@.take(i + 1).drop_last() =~= prefix);
        if !is_alphanumeric(c) {
            done.push(current);
            current = Vec::new();
            assert(views(done@).push(current@) =~= alnum_pieces(prefix).push(Seq::<char>::empty()));
        } else {
            current.push(c);
            assert(views(done@).push(current@) =~= alnum_pieces(prefix).update(
                alnum_pieces(prefix).len() - 1,
                alnum_pieces(prefix).last().push(c),
            ));
        }
        i = i + 1;
    }
    assert(chars@.take(i as int) =~= chars@);
    done.push(current);
    let ghost ps = alnum_pieces(text@);
    let mut k: usize = 0;
    proof {
        assert(ps.skip(0) =~= ps);
    }
    while k < done.len()
        invariant
            views(done@) == ps,
            ps == alnum_pieces(text@),
            k <= done@.len(),
            first_spelling(ps) == first_spelling(ps.skip(k as int)),
        decreases done@.len() - k,
    {
        assert(ps.skip(k as int)[0] == done@[k as int]@);
        assert(ps.skip(k as int).skip(1) =~= ps.skip(k + 1));
        let word = string_of(done[k].as_slice());
        let lower = lowercase(word.as_str());
        let lower_chars = chars_of(lower.as_str());
        match american(lower_chars.as_slice()) {
            Some(a) => {
                return Some((word, a));
            },
            None => {},
        }
        k = k + 1;
    }
    None
}

} // verus!

verus! {

/// What a regime that holds prose to nothing writes for its language.
pub const NONE: &'static str = "none";

/// The house profile, spelled the way the specification writes it: a
/// language, and the profile beside it.
pub const HOUSE_LANGUAGE: &'static str = "ASD-STE100";

pub const HOUSE_PROFILE: &'static str = "house";

/// The house profile, spelled the way an overlay writes it: one name, and no
/// profile beside it.
pub const HOUSE_SHORT: &'static str = "ste-house";

/// The tag under which the spelling rule applies.
pub const AMERICAN: &'static str = "en-US";

/// Why an instance skips a document whose regime declares a language and
/// profile this engine holds no rules for.
pub const NO_PROFILE: &'static str =
    "this document's language regime declares a controlled language and profile this engine has no rules for";

/// A character's code with an ASCII capital read as its small letter.
pub open spec fn fold(c: char) -> u32 {
    if 65 <= (c as u32) && (c as u32) <= 90 {
        ((c as u32) + 32) as u32
    } else {
        c as u32
    }
}

/// Whether two texts are equal when ASCII case is ignored, which is
/// `str::eq_ignore_ascii_case`.
pub open spec fn fold_eq(a: Seq<char>, b: Seq<char>) -> bool {
    a.len() == b.len() && forall|i: int| 0 <= i < a.len() ==> #[trigger] fold(a[i]) == fold(b[i])
}

/// Whether two texts are equal when ASCII case is ignored.
pub fn same_ignoring_case(a: &str, b: &str) -> (r: bool)
    ensures
        r == fold_eq(a@, b@),
{
    let x = chars_of(a);
    let y = chars_of(b);
    if x.len() != y.len() {
        return false;
    }
    let mut i: usize = 0;
    while i < x.len()
        invariant
            x@ == a@,
            y@ == b@,
            x@.len() == y@.len(),
            i <= x@.len(),
            forall|k: int| 0 <= k < i ==> #[trigger] fold(x@[k]) == fold(y@[k]),
        decreases x@.len() - i,
    {
        let c: u32 = x[i] as u32;
        let d: u32 = y[i] as u32;
        let fc: u32 = if 65 <= c && c <= 90 { c + 32 } else { c };
        let fd: u32 = if 65 <= d && d <= 90 { d + 32 } else { d };
        assert(fc == fold(x@[i as int]));
        assert(fd == fold(y@[i as int]));
        if fc != fd {
            return false;
        }
        i = i + 1;
    }
    true
}

/// A language regime, as far as this rule reads one: the controlled language
/// it declares (none where it declares none), the profile beside it, and its
/// BCP 47 tag.
#[derive(Clone, Debug)]
pub struct Regime {
    pub name: String,
    pub controlled: Option<String>,
    pub profile: Option<String>,
    pub tag: String,
}

/// One kind that binds a regime holding prose to something.
#[derive(Clone, Debug)]
pub struct Bound {
    pub kind: String,
    pub regime: String,
    /// Whether the pair the regime declares is the house profile, the one
    /// pair this engine has rules for.
    pub house: bool,
    /// How the regime spelled the language it declares.
    pub declared: String,
    /// The BCP 47 tag, which decides whether the spelling rule applies.
    pub tag: String,
}

/// A binding as texts: kind, regime, house, declared, tag.
pub open spec fn bound_view(b: Bound) -> (Seq<char>, Seq<char>, bool, Seq<char>, Seq<char>) {
    (b.kind@, b.regime@, b.house, b.declared@, b.tag@)
}

/// The language a regime declares, `none` where it declares none.
pub open spec fn controlled_of(r: Regime) -> Seq<char> {
    match r.controlled {
        Some(c) => c@,
        None => NONE@,
    }
}

/// Whether a declared pair is the house profile, in either spelling.
pub open spec fn is_house(r: Regime) -> bool {
    ||| fold_eq(HOUSE_LANGUAGE@, controlled_of(r)) && r.profile is Some && r.profile->0@
        == HOUSE_PROFILE@
    ||| fold_eq(HOUSE_SHORT@, controlled_of(r)) && r.profile is None
}

/// How a regime spelled its language: the language, and the profile after it
/// where it names one.
pub open spec fn declared_of(r: Regime) -> Seq<char> {
    match r.profile {
        Some(p) => controlled_of(r) + ", profile "@ + p@,
        None => controlled_of(r),
    }
}

/// The bindings of the kinds that bind a regime which holds prose to
/// something, in kind order.
pub open spec fn bindings(kinds: Seq<(String, Option<Regime>)>) -> Seq<
    (Seq<char>, Seq<char>, bool, Seq<char>, Seq<char>),
>
    decreases kinds.len(),
{
    if kinds.len() == 0 {
        Seq::empty()
    } else {
        let rest = bindings(kinds.drop_last());
        match kinds.last().1 {
            None => rest,
            Some(r) => if fold_eq(controlled_of(r), NONE@) {
                rest
            } else {
                rest.push((kinds.last().0@, r.name@, is_house(r), declared_of(r), r.tag@))
            },
        }
    }
}

/// The check, generated from the language regimes and the kinds that bind
/// them.
pub struct Language {
    bound: Vec<Bound>,
}

impl Language {
    pub closed spec fn view(&self) -> Seq<(Seq<char>, Seq<char>, bool, Seq<char>, Seq<char>)> {
        self.bound@.map_values(|b: Bound| bound_view(b))
    }

    /// The generation step: each kind with the regime it binds, keeping the
    /// kinds whose regime holds prose to something.
    pub fn over(kinds: &[(String, Option<Regime>)]) -> (l: Self)
        ensures
            l.view() == bindings(kinds@),
    {
        let mut bound: Vec<Bound> = Vec::new();
        let mut i: usize = 0;
        while i < kinds.len()
            invariant
                i <= kinds@.len(),
                bound@.map_values(|b: Bound| bound_view(b)) == bindings(kinds@.take(i as int)),
            decreases kinds@.len() - i,
        {
            assert(kinds@.take(i + 1).drop_last() =~= kinds@.take(i as int));
            assert(kinds@.take(i + 1).last() == kinds@[i as int]);
            if let Some(r) = &kinds[i].1 {
                let controlled: &str = match &r.controlled {
                    Some(c) => c.as_str(),
                    None => NONE,
                };
                assert(controlled@ == controlled_of(*r));
                if !same_ignoring_case(controlled, NONE) {
                    let house = match &r.profile {
                        Some(p) => same_ignoring_case(HOUSE_LANGUAGE, controlled) && crate::text::str_eq(
                            p.as_str(),
                            HOUSE_PROFILE,
                        ),
                        None => same_ignoring_case(HOUSE_SHORT, controlled),
                    };
                    let mut declared: Vec<char> = chars_of(controlled);
                    if let Some(p) = &r.profile {
                        extend_str(&mut declared, ", profile ");
                        extend_str(&mut declared, p.as_str());
                    }
                    let ghost before = bound@.map_values(|b: Bound| bound_view(b));
                    bound.push(
                        Bound {
                            kind: owned(kinds[i].0.as_str()),
                            regime: owned(r.name.as_str()),
                            house,
                            declared: string_of(declared.as_slice()),
                            tag: owned(r.tag.as_str()),
                        },
                    );
                    assert(bound@.map_values(|b: Bound| bound_view(b)) =~= before.push(
                        (kinds@[i as int].0@, r.name@, is_house(*r), declared_of(*r), r.tag@),
                    ));
                }
            }
            i = i + 1;
        }
        assert(kinds@.take(i as int) =~= kinds@);
        Language { bound }
    }
}

} // verus!

verus! {

/// One sentence of a body, as the reader of a body delivers it.
#[derive(Clone, Debug)]
pub struct Sentence {
    /// Where it starts: one-based line and column.
    pub line: usize,
    pub column: usize,
    /// How many words it holds, as the reader counts them.
    pub words: usize,
    /// Its text, which the citation test reads.
    pub text: String,
    /// The part of it its author wrote, outside code spans and quotations,
    /// which the prose rules read.
    pub authored: String,
    /// The block it stands in.
    pub kind: BlockKind,
}

/// One report: its severity, message and remediation.
pub type Report = (Severity, Seq<char>, Seq<char>);

/// One report at its place: line, column, severity, message, remediation.
pub type Placed = (int, int, Severity, Seq<char>, Seq<char>);

/// A sentence over the word limit that is not a list of citations.
pub open spec fn length_report(regime: Seq<char>, s: Sentence) -> Seq<Report> {
    if s.words > MAX_WORDS && !(matches3(s.text@, citation_mark()) >= 2) {
        seq![
            (
                Severity::Warn,
                "`"@ + regime + "` holds prose to "@ + decimal(MAX_WORDS as nat)
                    + " words a sentence, and this one has "@ + decimal(s.words as nat),
                "split the sentence, or move a clause into its own sentence"@,
            ),
        ]
    } else {
        Seq::empty()
    }
}

/// A semicolon outside every parenthesis, in running prose.
pub open spec fn semicolon_report(regime: Seq<char>, s: Sentence) -> Seq<Report> {
    if semicolon_outside(s.authored@) && (s.kind == BlockKind::Paragraph || s.kind
        == BlockKind::Item) {
        seq![
            (
                Severity::Warn,
                "`"@ + regime + "` admits no semicolon in running prose, and this sentence writes one"@,
                "split the sentence in two, and let each half state one thing"@,
            ),
        ]
    } else {
        Seq::empty()
    }
}

/// The first contraction the sentence writes.
pub open spec fn contraction_report(regime: Seq<char>, s: Sentence) -> Seq<Report> {
    match first_contraction(words(s.authored@)) {
        Some(w) => seq![
            (
                Severity::Error,
                "`"@ + regime + "` admits no contraction, and this sentence writes `"@ + w + "`"@,
                "write `"@ + w + "` out in full"@,
            ),
        ],
        None => Seq::empty(),
    }
}

/// The first British spelling the sentence writes, under an American tag.
pub open spec fn spelling_report(regime: Seq<char>, tag: Seq<char>, american: bool, s: Sentence) -> Seq<
    Report,
> {
    if american {
        match first_spelling(alnum_pieces(s.authored@)) {
            Some((british, us)) => seq![
                (
                    Severity::Error,
                    "`"@ + regime + "` declares the tag `"@ + tag + "`, and this sentence writes `"@
                        + british + "`"@,
                    "write `"@ + us + "`"@,
                ),
            ],
            None => Seq::empty(),
        }
    } else {
        Seq::empty()
    }
}

/// What one sentence reports, in the order the rules are written.
pub open spec fn reports(regime: Seq<char>, tag: Seq<char>, american: bool, s: Sentence) -> Seq<Report> {
    length_report(regime, s) + semicolon_report(regime, s) + contraction_report(regime, s)
        + spelling_report(regime, tag, american, s)
}

/// A report at the place its sentence starts.
pub open spec fn placed(s: Sentence, r: Report) -> Placed {
    (s.line as int, s.column as int, r.0, r.1, r.2)
}

/// What a body reports, sentence by sentence.
pub open spec fn all_reports(regime: Seq<char>, tag: Seq<char>, american: bool, ss: Seq<Sentence>) -> Seq<
    Placed,
>
    decreases ss.len(),
{
    if ss.len() == 0 {
        Seq::empty()
    } else {
        all_reports(regime, tag, american, ss.drop_last()) + reports(
            regime,
            tag,
            american,
            ss.last(),
        ).map_values(|r: Report| placed(ss.last(), r))
    }
}

/// Whether one place comes no later than another.
pub open spec fn no_later(a: Placed, b: Placed) -> bool {
    a.0 < b.0 || (a.0 == b.0 && a.1 <= b.1)
}

/// `v` with `x` after every entry that comes no later than it.
pub open spec fn insert_placed(v: Seq<Placed>, x: Placed) -> Seq<Placed>
    decreases v.len(),
{
    if v.len() == 0 || no_later(v.last(), x) {
        v.push(x)
    } else {
        insert_placed(v.drop_last(), x).push(v.last())
    }
}

/// Reports in the order of their places, those at one place in the order
/// they came, which is a stable sort by line and column.
pub open spec fn in_place(v: Seq<Placed>) -> Seq<Placed>
    decreases v.len(),
{
    if v.len() == 0 {
        Seq::empty()
    } else {
        insert_placed(in_place(v.drop_last()), v.last())
    }
}

/// A finding as the place and the words it reports.
pub open spec fn fview(f: Finding) -> Placed {
    (f.line as int, f.column as int, f.severity, f.message@, f.remediation@)
}

/// The parts every finding of this rule over one document shares.
pub open spec fn of_rule(f: Finding, path: Seq<char>) -> bool {
    &&& f.rule == RULE
    &&& f.obligation is None
    &&& f.path@ == path
    &&& f.patch is None
}

/// The first binding of a kind.
pub open spec fn bound_in(v: Seq<(Seq<char>, Seq<char>, bool, Seq<char>, Seq<char>)>, kind: Seq<char>) -> Option<
    (Seq<char>, Seq<char>, bool, Seq<char>, Seq<char>),
>
    decreases v.len(),
{
    if v.len() == 0 {
        None
    } else if v[0].0 == kind {
        Some(v[0])
    } else {
        bound_in(v.skip(1), kind)
    }
}

proof fn lemma_insert_placed(v: Seq<Placed>, x: Placed, p: int)
    requires
        0 <= p <= v.len(),
        forall|j: int| p <= j < v.len() ==> !no_later(#[trigger] v[j], x),
        p == 0 || no_later(v[p - 1], x),
    ensures
        insert_placed(v, x) == v.insert(p, x),
    decreases v.len() - p,
{
    if p == v.len() {
        assert(v.push(x) =~= v.insert(p, x));
    } else {
        let init = v.drop_last();
        assert forall|j: int| p <= j < init.len() implies !no_later(#[trigger] init[j], x) by {
            assert(init[j] == v[j]);
        }
        if p > 0 {
            assert(init[p - 1] == v[p - 1]);
        }
        lemma_insert_placed(init, x, p);
        assert(init.insert(p, x).push(v.last()) =~= v.insert(p, x));
    }
}

/// Put one finding where its place puts it, after every finding at or before
/// its place.
fn insert_finding(v: &mut Vec<Finding>, f: Finding, Ghost(path): Ghost<Seq<char>>)
    requires
        forall|k: int| 0 <= k < old(v)@.len() ==> of_rule(#[trigger] old(v)@[k], path),
        of_rule(f, path),
    ensures
        final(v)@.map_values(|g: Finding| fview(g)) == insert_placed(
            old(v)@.map_values(|g: Finding| fview(g)),
            fview(f),
        ),
        forall|k: int| 0 <= k < final(v)@.len() ==> of_rule(#[trigger] final(v)@[k], path),
{
    let ghost before = v@.map_values(|g: Finding| fview(g));
    let mut p: usize = v.len();
    while p > 0 && (v[p - 1].line > f.line || (v[p - 1].line == f.line && v[p - 1].column
        > f.column))
        invariant
            p <= v@.len(),
            v@.map_values(|g: Finding| fview(g)) == before,
            forall|j: int| p <= j < v@.len() ==> !no_later(#[trigger] before[j], fview(f)),
        decreases p,
    {
        assert(before[p - 1] == fview(v@[p - 1]));
        p = p - 1;
    }
    proof {
        if p > 0 {
            assert(before[p - 1] == fview(v@[p - 1]));
        }
        lemma_insert_placed(before, fview(f), p as int);
    }
    let ghost old_v = v@;
    v.insert(p, f);
    assert(v@.map_values(|g: Finding| fview(g)) =~= before.insert(p as int, fview(f)));
    assert forall|k: int| 0 <= k < v@.len() implies of_rule(#[trigger] v@[k], path) by {
        if k < p {
            assert(v@[k] == old_v[k]);
        } else if k > p {
            assert(v@[k] == old_v[k - 1]);
        }
    }
}

} // verus!

verus! {

/// A finding of this rule at a sentence.
fn at_sentence(path: &str, s: &Sentence, severity: Severity, message: &[char], remediation: &[char]) -> (f: Finding)
    ensures
        of_rule(f, path@),
        fview(f) == placed(*s, (severity, message@, remediation@)),
{
    Finding {
        rule: RULE,
        severity,
        obligation: None,
        path: owned(path),
        line: s.line,
        column: s.column,
        message: string_of(message),
        remediation: string_of(remediation),
        patch: None,
    }
}

/// What one sentence reports under a regime, in the order the rules are
/// written.
fn sentence_findings(regime: &str, tag: &str, american: bool, path: &str, s: &Sentence) -> (v: Vec<
    Finding,
>)
    ensures
        v@.map_values(|g: Finding| fview(g)) == reports(regime@, tag@, american, *s).map_values(
            |r: Report| placed(*s, r),
        ),
        forall|k: int| 0 <= k < v@.len() ==> of_rule(#[trigger] v@[k], path@),
{
    let mut v: Vec<Finding> = Vec::new();
    let ghost mut want: Seq<Report> = Seq::empty();
    if s.words > MAX_WORDS && !is_a_citation_line(s.text.as_str()) {
        let mut m: Vec<char> = chars_of("`");
        extend_str(&mut m, regime);
        extend_str(&mut m, "` holds prose to ");
        extend_decimal(&mut m, MAX_WORDS as u64);
        extend_str(&mut m, " words a sentence, and this one has ");
        extend_decimal(&mut m, s.words as u64);
        let r = chars_of("split the sentence, or move a clause into its own sentence");
        v.push(at_sentence(path, s, Severity::Warn, m.as_slice(), r.as_slice()));
    }
    proof {
        want = length_report(regime@, *s);
    }
    assert(v@.map_values(|g: Finding| fview(g)) =~= want.map_values(|r: Report| placed(*s, r)));
    if runs_on(s.authored.as_str()) && is_running_prose(s.kind) {
        let mut m: Vec<char> = chars_of("`");
        extend_str(&mut m, regime);
        extend_str(&mut m, "` admits no semicolon in running prose, and this sentence writes one");
        let r = chars_of("split the sentence in two, and let each half state one thing");
        v.push(at_sentence(path, s, Severity::Warn, m.as_slice(), r.as_slice()));
    }
    proof {
        want = want + semicolon_report(regime@, *s);
    }
    assert(v@.map_values(|g: Finding| fview(g)) =~= want.map_values(|r: Report| placed(*s, r)));
    if let Some(word) = contraction(s.authored.as_str()) {
        let mut m: Vec<char> = chars_of("`");
        extend_str(&mut m, regime);
        extend_str(&mut m, "` admits no contraction, and this sentence writes `");
        extend_str(&mut m, word.as_str());
        extend_str(&mut m, "`");
        let mut r = chars_of("write `");
        extend_str(&mut r, word.as_str());
        extend_str(&mut r, "` out in full");
        v.push(at_sentence(path, s, Severity::Error, m.as_slice(), r.as_slice()));
    }
    proof {
        want = want + contraction_report(regime@, *s);
    }
    assert(v@.map_values(|g: Finding| fview(g)) =~= want.map_values(|r: Report| placed(*s, r)));
    if american {
        if let Some((british, us)) = spelling(s.authored.as_str()) {
            let mut m: Vec<char> = chars_of("`");
            extend_str(&mut m, regime);
            extend_str(&mut m, "` declares the tag `");
            extend_str(&mut m, tag);
            extend_str(&mut m, "`, and this sentence writes `");
            extend_str(&mut m, british.as_str());
            extend_str(&mut m, "`");
            let mut r = chars_of("write `");
            extend_str(&mut r, us);
            extend_str(&mut r, "`");
            v.push(at_sentence(path, s, Severity::Error, m.as_slice(), r.as_slice()));
        }
    }
    proof {
        want = want + spelling_report(regime@, tag@, american, *s);
    }
    assert(v@.map_values(|g: Finding| fview(g)) =~= want.map_values(|r: Report| placed(*s, r)));
    v
}

impl Language {
    /// The binding of a kind.
    fn bound_to(&self, kind: &str) -> (r: Option<&Bound>)
        ensures
            match r {
                Some(b) => bound_in(self.view(), kind@) == Some(bound_view(*b)),
                None => bound_in(self.view(), kind@) is None,
            },
    {
        let ghost all = self.view();
        let mut i: usize = 0;
        assert(all.skip(0) =~= all);
        while i < self.bound.len()
            invariant
                all == self.view(),
                i <= self.bound@.len(),
                bound_in(all, kind@) == bound_in(all.skip(i as int), kind@),
            decreases self.bound@.len() - i,
        {
            assert(all.skip(i as int)[0] == bound_view(self.bound@[i as int]));
            assert(all.skip(i as int).skip(1) =~= all.skip(i + 1));
            if crate::text::str_eq(self.bound[i].kind.as_str(), kind) {
                return Some(&self.bound[i]);
            }
            i = i + 1;
        }
        None
    }

    /// A kind whose regime holds prose to something generates an instance.
    pub fn instantiates(&self, kind: &str) -> (r: bool)
        ensures
            r == bound_in(self.view(), kind@) is Some,
    {
        self.bound_to(kind).is_some()
    }

    /// One document of `kind` at `path`, with the sentences of its body where
    /// the run read one. A regime whose pair this engine has no rules for is
    /// a visible skip; a document with no body passes.
    pub fn evaluate(&self, kind: &str, path: &str, body: Option<&[Sentence]>) -> (o: Outcome)
        ensures
            match bound_in(self.view(), kind@) {
                None => o is Passed,
                Some(b) => if !b.2 {
                    o == Outcome::Skipped(NO_PROFILE)
                } else {
                    match body {
                        None => o is Passed,
                        Some(ss) => {
                            let w = in_place(all_reports(b.1, b.4, fold_eq(b.4, AMERICAN@), ss@));
                            &&& w.len() == 0 ==> o is Passed
                            &&& w.len() > 0 ==> (o matches Outcome::Failed(v) && v@.map_values(
                                |g: Finding| fview(g),
                            ) == w && forall|k: int| 0 <= k < v@.len() ==> of_rule(#[trigger] v@[k], path@))
                        },
                    }
                },
            },
    {
        let bound = match self.bound_to(kind) {
            Some(b) => b,
            None => return Outcome::Passed,
        };
        if !bound.house {
            return Outcome::Skipped(NO_PROFILE);
        }
        let sentences = match body {
            Some(ss) => ss,
            None => return Outcome::Passed,
        };
        let american = same_ignoring_case(bound.tag.as_str(), AMERICAN);
        proof {
            assert(fold_eq(bound.tag@, AMERICAN@) == fold_eq(AMERICAN@, bound.tag@));
        }
        let ghost regime = bound.regime@;
        let ghost tag = bound.tag@;
        let mut findings: Vec<Finding> = Vec::new();
        let mut i: usize = 0;
        while i < sentences.len()
            invariant
                i <= sentences@.len(),
                regime == bound.regime@,
                tag == bound.tag@,
                findings@.map_values(|g: Finding| fview(g)) == in_place(
                    all_reports(regime, tag, american, sentences@.take(i as int)),
                ),
                forall|k: int| 0 <= k < findings@.len() ==> of_rule(#[trigger] findings@[k], path@),
            decreases sentences@.len() - i,
        {
            let s = &sentences[i];
            let mut mine = sentence_findings(bound.regime.as_str(), bound.tag.as_str(), american, path, s);
            let ghost orig = mine@;
            let ghost base = all_reports(regime, tag, american, sentences@.take(i as int));
            let ghost adds = reports(regime, tag, american, *s).map_values(|r: Report| placed(*s, r));
            assert(sentences@.take(i + 1).drop_last() =~= sentences@.take(i as int));
            assert(sentences@.take(i + 1).last() == *s);
            let n = mine.len();
            let mut j: usize = 0;
            assert(orig.skip(0) =~= orig);
            while mine.len() > 0
                invariant
                    orig.len() == n,
                    j <= orig.len(),
                    mine@ == orig.skip(j as int),
                    orig.map_values(|g: Finding| fview(g)) == adds,
                    forall|k: int| 0 <= k < orig.len() ==> of_rule(#[trigger] orig[k], path@),
                    findings@.map_values(|g: Finding| fview(g)) == in_place(base + adds.take(j as int)),
                    forall|k: int| 0 <= k < findings@.len() ==> of_rule(#[trigger] findings@[k], path@),
                decreases mine@.len(),
            {
                let ghost done = base + adds.take(j as int);
                assert((base + adds.take(j + 1)).drop_last() =~= done);
                let f = mine.remove(0);
                assert(f == orig[j as int]);
                assert(adds[j as int] == fview(f));
                assert((base + adds.take(j + 1)).last() == fview(f));
                insert_finding(&mut findings, f, Ghost(path@));
                j = j + 1;
                assert(mine@ =~= orig.skip(j as int));
            }
            assert(j == orig.len());
            assert(adds.take(j as int) =~= adds);
            i = i + 1;
        }
        assert(sentences@.take(i as int) =~= sentences@);
        Outcome::failed(findings)
    }
}

} // verus!

verus! {

/// Whether reports come in place order.
pub open spec fn ordered(v: Seq<Placed>) -> bool {
    forall|i: int, j: int| 0 <= i < j < v.len() ==> no_later(#[trigger] v[i], #[trigger] v[j])
}

proof fn lemma_insert_placed_ordered(v: Seq<Placed>, x: Placed)
    requires
        ordered(v),
    ensures
        ordered(insert_placed(v, x)),
        insert_placed(v, x).len() == v.len() + 1,
        insert_placed(v, x).to_multiset() =~= v.to_multiset().insert(x),
    decreases v.len(),
{
    broadcast use vstd::seq_lib::group_to_multiset_ensures;
    if v.len() == 0 || no_later(v.last(), x) {
        assert(v.push(x).to_multiset() =~= v.to_multiset().insert(x));
    } else {
        let init = v.drop_last();
        assert(ordered(init)) by {
            assert forall|i: int, j: int| 0 <= i < j < init.len() implies no_later(
                #[trigger] init[i],
                #[trigger] init[j],
            ) by {
                assert(init[i] == v[i] && init[j] == v[j]);
            }
        }
        lemma_insert_placed_ordered(init, x);
        let mid = insert_placed(init, x);
        let out = mid.push(v.last());
        assert(v =~= init.push(v.last()));
        assert forall|i: int, j: int| 0 <= i < j < out.len() implies no_later(
            #[trigger] out[i],
            #[trigger] out[j],
        ) by {
            if j == out.len() - 1 {
                assert(out[j] == v.last());
                assert(out[i] == mid[i]);
                assert(mid.to_multiset().count(mid[i]) > 0);
                assert(init.to_multiset().insert(x).count(mid[i]) > 0);
                if mid[i] != x {
                    assert(init.to_multiset().count(mid[i]) > 0);
                    let k = choose|k: int| 0 <= k < init.len() && init[k] == mid[i];
                    assert(v[k] == init[k]);
                    assert(no_later(v[k], v[v.len() - 1]));
                }
            } else {
                assert(out[i] == mid[i] && out[j] == mid[j]);
            }
        }
    }
}

/// Whatever order a body's sentences come in, its reports come out in place
/// order, and they are exactly the reports the sentences made.
pub proof fn law_reports_come_in_place_order(v: Seq<Placed>)
    ensures
        ordered(in_place(v)),
        in_place(v).to_multiset() =~= v.to_multiset(),
    decreases v.len(),
{
    broadcast use vstd::seq_lib::group_to_multiset_ensures;
    if v.len() > 0 {
        law_reports_come_in_place_order(v.drop_last());
        lemma_insert_placed_ordered(in_place(v.drop_last()), v.last());
        assert(v =~= v.drop_last().push(v.last()));
    }
}


/// What a report of a semicolon says.
pub open spec fn semicolon_message(regime: Seq<char>) -> Seq<char> {
    "`"@ + regime + "` admits no semicolon in running prose, and this sentence writes one"@
}

/// Whether a sentence stands in running prose: a paragraph or a list item,
/// never a heading or a table cell.
pub open spec fn in_running_prose(s: Sentence) -> bool {
    s.kind == BlockKind::Paragraph || s.kind == BlockKind::Item
}

/// A report of one sentence that says a semicolon runs on comes from a
/// sentence of running prose that writes a semicolon outside every
/// parenthesis.
proof fn lemma_semicolon_report_of(regime: Seq<char>, tag: Seq<char>, american: bool, s: Sentence, i: int)
    requires
        0 <= i < reports(regime, tag, american, s).len(),
        reports(regime, tag, american, s)[i].1 == semicolon_message(regime),
    ensures
        in_running_prose(s),
        semicolon_outside(s.authored@),
{
    reveal_strlit("`");
    reveal_strlit("` admits no semicolon in running prose, and this sentence writes one");
    reveal_strlit("` holds prose to ");
    reveal_strlit("` admits no contraction, and this sentence writes `");
    reveal_strlit("` declares the tag `");
    let l = length_report(regime, s);
    let sc = semicolon_report(regime, s);
    let c = contraction_report(regime, s);
    let sp = spelling_report(regime, tag, american, s);
    let all = reports(regime, tag, american, s);
    assert(all == l + sc + c + sp);
    let m = all[i].1;
    let n = regime.len() as int;
    assert(semicolon_message(regime)[n + 3] == 'a');
    assert(semicolon_message(regime)[n + 13] == 's');
    if i < l.len() {
        assert(all[i] == l[i]);
        assert(m[n + 3] == 'h');
    } else if i < l.len() + sc.len() {
        assert(sc.len() > 0);
    } else if i < l.len() + sc.len() + c.len() {
        assert(all[i] == c[i - l.len() - sc.len()]);
        assert(m[n + 13] == 'c');
    } else {
        assert(all[i] == sp[i - l.len() - sc.len() - c.len()]);
        assert(m[n + 3] == 'd');
    }
}

/// Over a whole body, a report that a semicolon runs on stands at the place
/// of a sentence of running prose that writes a semicolon outside every
/// parenthesis.
proof fn lemma_semicolon_reports(regime: Seq<char>, tag: Seq<char>, american: bool, ss: Seq<Sentence>)
    ensures
        forall|i: int|
            0 <= i < all_reports(regime, tag, american, ss).len() && (#[trigger] all_reports(
                regime,
                tag,
                american,
                ss,
            )[i]).3 == semicolon_message(regime) ==> exists|j: int|
                0 <= j < ss.len() && ss[j].line == all_reports(regime, tag, american, ss)[i].0
                    && ss[j].column == all_reports(regime, tag, american, ss)[i].1
                    && in_running_prose(#[trigger] ss[j]) && semicolon_outside(ss[j].authored@),
    decreases ss.len(),
{
    if ss.len() > 0 {
        let init = ss.drop_last();
        lemma_semicolon_reports(regime, tag, american, init);
        let before = all_reports(regime, tag, american, init);
        let last = reports(regime, tag, american, ss.last()).map_values(|r: Report| placed(ss.last(), r));
        let all = all_reports(regime, tag, american, ss);
        assert(all == before + last);
        assert forall|i: int|
            0 <= i < all.len() && (#[trigger] all[i]).3 == semicolon_message(regime) implies exists|j: int|
                0 <= j < ss.len() && ss[j].line == all[i].0 && ss[j].column == all[i].1
                    && in_running_prose(#[trigger] ss[j]) && semicolon_outside(ss[j].authored@) by {
            if i < before.len() {
                assert(all[i] == before[i]);
                let j = choose|j: int|
                    0 <= j < init.len() && init[j].line == before[i].0 && init[j].column == before[i].1
                        && in_running_prose(#[trigger] init[j]) && semicolon_outside(init[j].authored@);
                assert(ss[j] == init[j]);
            } else {
                let k = i - before.len();
                assert(all[i] == last[k]);
                lemma_semicolon_report_of(regime, tag, american, ss.last(), k);
                assert(ss[ss.len() - 1] == ss.last());
            }
        }
    }
}

/// A semicolon is reported only in running prose: every finding a house
/// regime reports over a body that says a semicolon runs on stands at the
/// line and column of a paragraph or list item that writes a semicolon
/// outside every parenthesis. A heading or a table cell that writes one is
/// never reported for it.
pub proof fn law_semicolons_only_in_running_prose(
    regime: Seq<char>,
    tag: Seq<char>,
    american: bool,
    ss: Seq<Sentence>,
)
    ensures
        forall|k: int|
            0 <= k < in_place(all_reports(regime, tag, american, ss)).len() && (#[trigger] in_place(
                all_reports(regime, tag, american, ss),
            )[k]).3 == semicolon_message(regime) ==> exists|j: int|
                0 <= j < ss.len() && ss[j].line == in_place(all_reports(regime, tag, american, ss))[k].0
                    && ss[j].column == in_place(all_reports(regime, tag, american, ss))[k].1
                    && (ss[j].kind == BlockKind::Paragraph || ss[j].kind == BlockKind::Item)
                    && semicolon_outside(ss[j].authored@),
{
    broadcast use vstd::seq_lib::group_to_multiset_ensures;
    let v = all_reports(regime, tag, american, ss);
    let w = in_place(v);
    law_reports_come_in_place_order(v);
    lemma_semicolon_reports(regime, tag, american, ss);
    assert forall|k: int| 0 <= k < w.len() && (#[trigger] w[k]).3 == semicolon_message(regime) implies exists|j: int|
        0 <= j < ss.len() && ss[j].line == w[k].0 && ss[j].column == w[k].1 && (ss[j].kind
            == BlockKind::Paragraph || ss[j].kind == BlockKind::Item) && semicolon_outside(ss[j].authored@) by {
        assert(w.to_multiset().count(w[k]) > 0);
        assert(v.contains(w[k]));
        let i = choose|i: int| 0 <= i < v.len() && v[i] == w[k];
        assert(v[i].3 == semicolon_message(regime));
        let j = choose|j: int|
            0 <= j < ss.len() && ss[j].line == v[i].0 && ss[j].column == v[i].1 && in_running_prose(
                #[trigger] ss[j],
            ) && semicolon_outside(ss[j].authored@);
        assert(in_running_prose(ss[j]));
    }
}


/// Over a whole body, every sentence of running prose that writes a semicolon
/// outside every parenthesis reports it, at its place.
proof fn lemma_semicolons_reported(regime: Seq<char>, tag: Seq<char>, american: bool, ss: Seq<Sentence>)
    ensures
        forall|j: int|
            0 <= j < ss.len() && in_running_prose(#[trigger] ss[j]) && semicolon_outside(
                ss[j].authored@,
            ) ==> all_reports(regime, tag, american, ss).contains(
                (ss[j].line as int, ss[j].column as int, Severity::Warn, semicolon_message(regime),
                "split the sentence in two, and let each half state one thing"@),
            ),
    decreases ss.len(),
{
    if ss.len() > 0 {
        let init = ss.drop_last();
        lemma_semicolons_reported(regime, tag, american, init);
        let before = all_reports(regime, tag, american, init);
        let s = ss.last();
        let last = reports(regime, tag, american, s).map_values(|r: Report| placed(s, r));
        let all = all_reports(regime, tag, american, ss);
        assert(all == before + last);
        assert forall|j: int|
            0 <= j < ss.len() && in_running_prose(#[trigger] ss[j]) && semicolon_outside(
                ss[j].authored@,
            ) implies all.contains(
                (ss[j].line as int, ss[j].column as int, Severity::Warn, semicolon_message(regime),
                "split the sentence in two, and let each half state one thing"@),
            ) by {
            let x = (ss[j].line as int, ss[j].column as int, Severity::Warn, semicolon_message(regime),
                "split the sentence in two, and let each half state one thing"@);
            if j < init.len() {
                assert(init[j] == ss[j]);
                let i = choose|i: int| 0 <= i < before.len() && before[i] == x;
                assert(all[i] == before[i]);
            } else {
                assert(ss[j] == s);
                let l = length_report(regime, s);
                let rs = reports(regime, tag, american, s);
                assert(rs[l.len() as int] == semicolon_report(regime, s)[0]);
                assert(last[l.len() as int] == x);
                assert(all[(before.len() + l.len()) as int] == x);
            }
        }
    }
}

/// A semicolon in running prose is always reported: every paragraph or list
/// item that writes a semicolon outside every parenthesis has a finding at its
/// line and column that says so, among those a house regime reports over its
/// body.
pub proof fn law_running_prose_semicolons_are_reported(
    regime: Seq<char>,
    tag: Seq<char>,
    american: bool,
    ss: Seq<Sentence>,
)
    ensures
        forall|j: int|
            0 <= j < ss.len() && ((#[trigger] ss[j]).kind == BlockKind::Paragraph || ss[j].kind
                == BlockKind::Item) && semicolon_outside(ss[j].authored@) ==> exists|k: int|
                0 <= k < in_place(all_reports(regime, tag, american, ss)).len() && in_place(
                    all_reports(regime, tag, american, ss),
                )[k] == (ss[j].line as int, ss[j].column as int, Severity::Warn, semicolon_message(
                    regime,
                ), "split the sentence in two, and let each half state one thing"@),
{
    broadcast use vstd::seq_lib::group_to_multiset_ensures;
    let v = all_reports(regime, tag, american, ss);
    let w = in_place(v);
    law_reports_come_in_place_order(v);
    lemma_semicolons_reported(regime, tag, american, ss);
    assert forall|j: int|
        0 <= j < ss.len() && ((#[trigger] ss[j]).kind == BlockKind::Paragraph || ss[j].kind
            == BlockKind::Item) && semicolon_outside(ss[j].authored@) implies exists|k: int|
            0 <= k < w.len() && w[k] == (ss[j].line as int, ss[j].column as int, Severity::Warn,
            semicolon_message(regime), "split the sentence in two, and let each half state one thing"@) by {
        let x = (ss[j].line as int, ss[j].column as int, Severity::Warn, semicolon_message(regime),
            "split the sentence in two, and let each half state one thing"@);
        assert(in_running_prose(ss[j]));
        assert(v.contains(x));
        assert(v.to_multiset().count(x) > 0);
        assert(w.contains(x));
    }
}

} // verus!

