//! A recorded read set, held against the tree in front of it.
//!
//! For each `input` line the file at that path in the tree is hashed,
//! and a hash that moved voids the verdict. Nothing else is read. The clock
//! voids a verdict for a windowed rule, and a barrier or a change-scoped
//! verdict never carries, because a list of members states no extent and
//! names no change. Every doubtful case falls toward refusal: a false
//! invalidation costs one run, and a false survival ships an invalid corpus
//! with a green report.
use vstd::prelude::*;
use crate::context::{
    civil_of, date_of, date_text, law_date_reads_back, renderable, trimmed, Date, all_digits,
    digits_value,
};
use crate::instance::{input_view, Input};
use crate::readset::{artifact, digest_text, input_lines, name_lines, version_lines, ReadSet};
use crate::text::{
    chars_of, decimal, extend_decimal, extend_str, lines_of, owned, pieces, same, spells, split_char, string_of, text_lines, trim, views, is_space, join, without_cr, lemma_pieces_join, lemma_pieces_of_plain, lemma_pieces_after_sep, trim_end, trim_start, lemma_decimal_digits,
};

verus! {

/// A read set as a gate reads it back.
#[derive(Clone, Debug, PartialEq, Eq)]
pub struct Recorded {
    pub lock: String,
    pub clock: Date,
    pub barriers: Vec<String>,
    /// The rules whose verdict rests on the change a run was scoped to.
    pub scoped: Vec<String>,
    pub windowed: Vec<String>,
    pub versions: Vec<(String, u32)>,
    pub inputs: Vec<Input>,
}

/// A line this module cannot read, named by its number.
#[derive(Clone, Debug, PartialEq, Eq)]
pub struct Malformed {
    pub line: usize,
    pub reason: String,
}

/// What the lines read so far state.
pub struct Draft {
    pub lock: Option<Seq<char>>,
    pub clock: Option<int>,
    pub barriers: Seq<Seq<char>>,
    pub scoped: Seq<Seq<char>>,
    pub windowed: Seq<Seq<char>>,
    pub versions: Seq<(Seq<char>, int)>,
    pub inputs: Seq<(Seq<char>, Option<Seq<char>>)>,
}

pub open spec fn blank_draft() -> Draft {
    Draft {
        lock: None,
        clock: None,
        barriers: Seq::empty(),
        scoped: Seq::empty(),
        windowed: Seq::empty(),
        versions: Seq::empty(),
        inputs: Seq::empty(),
    }
}

/// Why a line that opens with `clock` is refused.
pub const NOT_A_DATE: &'static str = "the clock is not a date of the form YYYY-MM-DD";

/// Why a line that opens with `version` is refused.
pub const NOT_A_NUMBER: &'static str = "the edition of a rule is not a whole number";

/// Why a line no keyword opens is refused.
pub const NO_KEYWORD: &'static str = "no keyword of a read set opens this line";

/// Why an artifact with no `lock` line is refused.
pub const NO_LOCK: &'static str = "the artifact states no lock, so it describes no taxonomy";

/// Why an artifact with no `clock` line is refused.
pub const NO_CLOCK: &'static str = "the artifact states no clock, so it describes no day";

/// What `u32::from_str` reads a field as: an optional `+`, then digits, and a
/// value that fits.
pub open spec fn u32_field(s: Seq<char>) -> Option<int> {
    let body = if s.len() > 0 && s[0] == '+' {
        s.skip(1)
    } else {
        s
    };
    if all_digits(body) && digits_value(body) <= u32::MAX {
        Some(digits_value(body))
    } else {
        None
    }
}

/// One line of the artifact, read into what the lines before it stated.
pub open spec fn step(d: Draft, line: Seq<char>, at: nat) -> Result<Draft, (nat, Seq<char>)> {
    let f = pieces(line, ' ');
    if trim(line).len() == 0 {
        Ok(d)
    } else if f.len() == 2 && f[0] == "lock"@ {
        Ok(Draft { lock: Some(f[1]), ..d })
    } else if f.len() == 2 && f[0] == "clock"@ {
        match date_of(f[1]) {
            Some(n) => Ok(Draft { clock: Some(n), ..d }),
            None => Err((at, NOT_A_DATE@)),
        }
    } else if f.len() == 2 && f[0] == "barrier"@ {
        Ok(Draft { barriers: d.barriers.push(f[1]), ..d })
    } else if f.len() == 2 && f[0] == "change-scoped"@ {
        Ok(Draft { scoped: d.scoped.push(f[1]), ..d })
    } else if f.len() == 2 && f[0] == "windowed"@ {
        Ok(Draft { windowed: d.windowed.push(f[1]), ..d })
    } else if f.len() == 3 && f[0] == "version"@ {
        match u32_field(f[2]) {
            Some(v) => Ok(Draft { versions: d.versions.push((f[1], v)), ..d }),
            None => Err((at, NOT_A_NUMBER@)),
        }
    } else if f.len() == 3 && f[0] == "input"@ {
        if f[2] == "-"@ {
            Ok(Draft { inputs: d.inputs.push((f[1], None)), ..d })
        } else {
            Ok(Draft { inputs: d.inputs.push((f[1], Some(f[2]))), ..d })
        }
    } else {
        Err((at, NO_KEYWORD@))
    }
}

/// Every line read in order, stopping at the first one that is refused.
pub open spec fn drafted(lines: Seq<Seq<char>>) -> Result<Draft, (nat, Seq<char>)>
    decreases lines.len(),
{
    if lines.len() == 0 {
        Ok(blank_draft())
    } else {
        match drafted(lines.drop_last()) {
            Ok(d) => step(d, lines.last(), lines.len()),
            Err(e) => Err(e),
        }
    }
}

/// What an artifact reads back as: a draft that states a lock and a clock, or
/// the line and the reason it was refused for, where line 0 is the whole file.
pub open spec fn recorded_of(text: Seq<char>) -> Result<Draft, (nat, Seq<char>)> {
    match drafted(text_lines(text)) {
        Err(e) => Err(e),
        Ok(d) => if d.lock is None {
            Err((0, NO_LOCK@))
        } else if d.clock is None {
            Err((0, NO_CLOCK@))
        } else {
            Ok(d)
        },
    }
}

/// A parsed artifact, as characters.
pub open spec fn recorded_view(r: Recorded) -> Draft {
    Draft {
        lock: Some(r.lock@),
        clock: Some(r.clock.days()),
        barriers: r.barriers@.map_values(|s: String| s@),
        scoped: r.scoped@.map_values(|s: String| s@),
        windowed: r.windowed@.map_values(|s: String| s@),
        versions: r.versions@.map_values(|v: (String, u32)| (v.0@, v.1 as int)),
        inputs: r.inputs@.map_values(|i: Input| input_view(i)),
    }
}

/// `Malformed::render`: `line N: reason`.
pub open spec fn malformed_text(line: nat, reason: Seq<char>) -> Seq<char> {
    "line "@ + decimal(line) + ": "@ + reason
}

impl Malformed {
    pub fn render(&self) -> (s: String)
        ensures
            s@ == malformed_text(self.line as nat, self.reason@),
    {
        let mut out: Vec<char> = Vec::new();
        extend_str(&mut out, "line ");
        extend_decimal(&mut out, self.line as u64);
        extend_str(&mut out, ": ");
        extend_str(&mut out, self.reason.as_str());
        string_of(out.as_slice())
    }
}

/// `u32::from_str`.
pub fn parse_u32(s: &[char]) -> (v: Option<u32>)
    ensures
        v matches Some(v) ==> u32_field(s@) == Some(v as int),
        v is None ==> u32_field(s@) is None,
{
    let start: usize = if s.len() > 0 && s[0] == '+' {
        1
    } else {
        0
    };
    let body = &s[start..s.len()];
    proof {
        if start == 1 {
            assert(body@ =~= s@.skip(1));
        } else {
            assert(body@ =~= s@);
        }
    }
    if body.len() == 0 {
        return None;
    }
    let cap: u64 = 0x1_0000_0000;
    let mut value: u64 = 0;
    let mut i: usize = 0;
    while i < body.len()
        invariant
            cap == 0x1_0000_0000u64,
            body@ == if s@.len() > 0 && s@[0] == '+' {
                s@.skip(1)
            } else {
                s@
            },
            i <= body@.len(),
            forall|k: int| 0 <= k < i ==> '0' <= #[trigger] body@[k] <= '9',
            value <= cap,
            value == if digits_value(body@.take(i as int)) < cap {
                digits_value(body@.take(i as int))
            } else {
                cap as int
            },
            digits_value(body@.take(i as int)) >= 0,
        decreases body@.len() - i,
    {
        let c = body[i];
        if c < '0' || c > '9' {
            proof {
                let sb = if s@.len() > 0 && s@[0] == '+' {
                    s@.skip(1)
                } else {
                    s@
                };
                assert(sb == body@);
                assert(!('0' <= sb[i as int] <= '9'));
                assert(!all_digits(sb));
            }
            return None;
        }
        assert(body@.take(i + 1).drop_last() =~= body@.take(i as int));
        let d = (c as u64) - ('0' as u64);
        if value >= cap {
            value = cap;
        } else {
            value = value * 10 + d;
            if value > cap {
                value = cap;
            }
        }
        i = i + 1;
    }
    assert(body@.take(i as int) =~= body@);
    if value < cap {
        Some(value as u32)
    } else {
        None
    }
}

/// Whether the last line still fits: a `step` that keeps the draft whole.
proof fn lemma_drafted_step(lines: Seq<Seq<char>>, i: int)
    requires
        0 <= i < lines.len(),
    ensures
        drafted(lines.take(i + 1)) == match drafted(lines.take(i)) {
            Ok(d) => step(d, lines[i], (i + 1) as nat),
            Err(e) => Err(e),
        },
{
    assert(lines.take(i + 1).drop_last() =~= lines.take(i));
}

/// A refused line stays refused, whatever follows it.
proof fn lemma_drafted_err_sticks(lines: Seq<Seq<char>>, k: int, e: (nat, Seq<char>))
    requires
        0 <= k <= lines.len(),
        drafted(lines.take(k)) == Err::<Draft, (nat, Seq<char>)>(e),
    ensures
        drafted(lines) == Err::<Draft, (nat, Seq<char>)>(e),
    decreases lines.len() - k,
{
    if k == lines.len() {
        assert(lines.take(k) =~= lines);
    } else {
        lemma_drafted_step(lines, k);
        lemma_drafted_err_sticks(lines, k + 1, e);
    }
}

impl Recorded {
    /// Read the artifact back. A keyword this module does not know is refused
    /// rather than skipped.
    pub fn parse(text: &str) -> (r: Result<Self, Malformed>)
        ensures
            match r {
                Ok(rec) => recorded_of(text@) == Ok::<Draft, (nat, Seq<char>)>(recorded_view(rec)),
                Err(m) => recorded_of(text@) == Err::<Draft, (nat, Seq<char>)>(
                    (m.line as nat, m.reason@),
                ),
            },
    {
        let all = chars_of(text);
        let lines = lines_of(all.as_slice());
        let mut lock: Option<String> = None;
        let mut clock: Option<Date> = None;
        let mut barriers: Vec<String> = Vec::new();
        let mut scoped: Vec<String> = Vec::new();
        let mut windowed: Vec<String> = Vec::new();
        let mut versions: Vec<(String, u32)> = Vec::new();
        let mut inputs: Vec<Input> = Vec::new();
        let ghost all_lines = views(lines@);
        proof {
            let d0 = Draft {
                lock: None,
                clock: None,
                barriers: barriers@.map_values(|s: String| s@),
                scoped: scoped@.map_values(|s: String| s@),
                windowed: windowed@.map_values(|s: String| s@),
                versions: versions@.map_values(|v: (String, u32)| (v.0@, v.1 as int)),
                inputs: inputs@.map_values(|x: Input| input_view(x)),
            };
            assert(d0.barriers =~= Seq::<Seq<char>>::empty());
            assert(d0.scoped =~= Seq::<Seq<char>>::empty());
            assert(d0.windowed =~= Seq::<Seq<char>>::empty());
            assert(d0.versions =~= Seq::<(Seq<char>, int)>::empty());
            assert(d0.inputs =~= Seq::<(Seq<char>, Option<Seq<char>>)>::empty());
            assert(all_lines.take(0) =~= Seq::<Seq<char>>::empty());
        }
        let mut i: usize = 0;
        while i < lines.len()
            invariant
                i <= lines@.len(),
                all_lines == views(lines@),
                all_lines == text_lines(text@),
                drafted(all_lines.take(i as int)) == Ok::<Draft, (nat, Seq<char>)>(
                    Draft {
                        lock: match lock {
                            Some(s) => Some(s@),
                            None => None,
                        },
                        clock: match clock {
                            Some(c) => Some(c.days()),
                            None => None,
                        },
                        barriers: barriers@.map_values(|s: String| s@),
                        scoped: scoped@.map_values(|s: String| s@),
                        windowed: windowed@.map_values(|s: String| s@),
                        versions: versions@.map_values(|v: (String, u32)| (v.0@, v.1 as int)),
                        inputs: inputs@.map_values(|x: Input| input_view(x)),
                    },
                ),
            decreases lines@.len() - i,
        {
            let line = &lines[i];
            let at = i + 1;
            proof {
                lemma_drafted_step(all_lines, i as int);
                assert(all_lines[i as int] == line@);
            }
            let ghost d = drafted(all_lines.take(i as int))->Ok_0;
            let t = trimmed(line.as_slice());
            if t.len() == 0 {
                i = i + 1;
                continue;
            }
            let fields = split_char(line.as_slice(), ' ');
            let ghost f = views(fields@);
            assert(f == pieces(line@, ' '));
            let n = fields.len();
            if n == 2 && spells(fields[0].as_slice(), "lock") {
                lock = Some(string_of(fields[1].as_slice()));
            } else if n == 2 && spells(fields[0].as_slice(), "clock") {
                let day = string_of(fields[1].as_slice());
                match Date::parse(day.as_str()) {
                    Some(day) => {
                        clock = Some(day);
                    },
                    None => {
                        proof {
                            lemma_drafted_err_sticks(all_lines, i + 1, (at as nat, NOT_A_DATE@));
                        }
                        return Err(Malformed { line: at, reason: owned(NOT_A_DATE) });
                    },
                }
            } else if n == 2 && spells(fields[0].as_slice(), "barrier") {
                let ghost before = barriers@.map_values(|s: String| s@);
                barriers.push(string_of(fields[1].as_slice()));
                assert(barriers@.map_values(|s: String| s@) =~= before.push(f[1]));
            } else if n == 2 && spells(fields[0].as_slice(), "change-scoped") {
                let ghost before = scoped@.map_values(|s: String| s@);
                scoped.push(string_of(fields[1].as_slice()));
                assert(scoped@.map_values(|s: String| s@) =~= before.push(f[1]));
            } else if n == 2 && spells(fields[0].as_slice(), "windowed") {
                let ghost before = windowed@.map_values(|s: String| s@);
                windowed.push(string_of(fields[1].as_slice()));
                assert(windowed@.map_values(|s: String| s@) =~= before.push(f[1]));
            } else if n == 3 && spells(fields[0].as_slice(), "version") {
                match parse_u32(fields[2].as_slice()) {
                    Some(edition) => {
                        let ghost before = versions@.map_values(
                            |v: (String, u32)| (v.0@, v.1 as int),
                        );
                        versions.push((string_of(fields[1].as_slice()), edition));
                        assert(versions@.map_values(|v: (String, u32)| (v.0@, v.1 as int))
                            =~= before.push((f[1], edition as int)));
                    },
                    None => {
                        proof {
                            lemma_drafted_err_sticks(all_lines, i + 1, (at as nat, NOT_A_NUMBER@));
                        }
                        return Err(Malformed { line: at, reason: owned(NOT_A_NUMBER) });
                    },
                }
            } else if n == 3 && spells(fields[0].as_slice(), "input") {
                let ghost before = inputs@.map_values(|x: Input| input_view(x));
                let path = string_of(fields[1].as_slice());
                if spells(fields[2].as_slice(), "-") {
                    inputs.push(Input { path, digest: None });
                    assert(inputs@.map_values(|x: Input| input_view(x)) =~= before.push(
                        (f[1], None),
                    ));
                } else {
                    inputs.push(Input { path, digest: Some(string_of(fields[2].as_slice())) });
                    assert(inputs@.map_values(|x: Input| input_view(x)) =~= before.push(
                        (f[1], Some(f[2])),
                    ));
                }
            } else {
                proof {
                            lemma_drafted_err_sticks(all_lines, i + 1, (at as nat, NO_KEYWORD@));
                        }
                        return Err(Malformed { line: at, reason: owned(NO_KEYWORD) });
            }
            i = i + 1;
        }
        assert(all_lines.take(i as int) =~= all_lines);
        match (lock, clock) {
            (Some(lock), Some(clock)) => Ok(
                Recorded { lock, clock, barriers, scoped, windowed, versions, inputs },
            ),
            (None, _) => Err(Malformed { line: 0, reason: owned(NO_LOCK) }),
            (_, None) => Err(Malformed { line: 0, reason: owned(NO_CLOCK) }),
        }
    }
}

/// One reason a verdict does not carry.
#[derive(Clone, Debug, PartialEq, Eq)]
pub enum Reason {
    /// The taxonomy moved, so every result rests on a lock that is not there.
    LockMoved { recorded: String, found: String },
    /// A corpus-grained rule ran.
    Barrier { rule: String },
    /// A rule read the version a document stood at before a change.
    ChangeScoped { rule: String },
    /// A rule read the clock, and the day asked about is not the day the run
    /// evaluated.
    DayMoved { rule: String, recorded: Date, asked: Date },
    /// A listed input holds other bytes now.
    Moved { path: String, recorded: String, found: String },
    /// A listed input is not in the tree at all.
    Gone { path: String },
    /// A listed input carried no hash when it was read.
    Unhashed { path: String },
}

/// A reason, as characters and day counts.
pub enum Why {
    LockMoved(Seq<char>, Seq<char>),
    Barrier(Seq<char>),
    ChangeScoped(Seq<char>),
    DayMoved(Seq<char>, int, int),
    Moved(Seq<char>, Seq<char>, Seq<char>),
    Gone(Seq<char>),
    Unhashed(Seq<char>),
}

pub open spec fn why(r: Reason) -> Why {
    match r {
        Reason::LockMoved { recorded, found } => Why::LockMoved(recorded@, found@),
        Reason::Barrier { rule } => Why::Barrier(rule@),
        Reason::ChangeScoped { rule } => Why::ChangeScoped(rule@),
        Reason::DayMoved { rule, recorded, asked } => Why::DayMoved(
            rule@,
            recorded.days(),
            asked.days(),
        ),
        Reason::Moved { path, recorded, found } => Why::Moved(path@, recorded@, found@),
        Reason::Gone { path } => Why::Gone(path@),
        Reason::Unhashed { path } => Why::Unhashed(path@),
    }
}

/// What a gate decided, and why.
#[derive(Clone, Debug, PartialEq, Eq)]
pub struct Verdict {
    /// Empty exactly when the verdict carries.
    pub reasons: Vec<Reason>,
    /// How many inputs the artifact listed.
    pub listed: usize,
}

/// The version of the document a verdict is written as for a machine.
pub const VERSION: &'static str = "1.0";

/// The sentence that keeps this artifact honest, printed on every verdict.
pub const LIMIT: &'static str = "this states nothing about a document this tree gained. A read set lists what a run read, and never that those were all there was";

/// The reasons one listed input gives, given what the tree holds at its path.
pub open spec fn input_why(input: Input, found: Option<Seq<char>>) -> Seq<Why> {
    match (input.digest, found) {
        (None, _) => seq![Why::Unhashed(input.path@)],
        (Some(_), None) => seq![Why::Gone(input.path@)],
        (Some(recorded), Some(f)) => if recorded@ != f {
            seq![Why::Moved(input.path@, recorded@, f)]
        } else {
            Seq::<Why>::empty()
        },
    }
}

/// The reasons the listed inputs give, in the order the artifact lists them.
pub open spec fn inputs_why(inputs: Seq<Input>, found: Seq<Option<Seq<char>>>) -> Seq<Why>
    decreases inputs.len(),
{
    if inputs.len() == 0 {
        Seq::<Why>::empty()
    } else {
        inputs_why(inputs.drop_last(), found) + input_why(
            inputs.last(),
            found[inputs.len() - 1],
        )
    }
}

/// Every reason, in the fixed order: the lock, the barriers, the change, the
/// clock, then the inputs in the order the artifact listed them.
pub open spec fn verdict_why(
    recorded: Recorded,
    lock: Seq<char>,
    asked: int,
    found: Seq<Option<Seq<char>>>,
) -> Seq<Why> {
    (if recorded.lock@ != lock {
        seq![Why::LockMoved(recorded.lock@, lock)]
    } else {
        Seq::<Why>::empty()
    }) + recorded.barriers@.map_values(|b: String| Why::Barrier(b@))
        + recorded.scoped@.map_values(|b: String| Why::ChangeScoped(b@)) + (if asked
        != recorded.clock.days() {
        recorded.windowed@.map_values(|w: String| Why::DayMoved(w@, recorded.clock.days(), asked))
    } else {
        Seq::<Why>::empty()
    }) + inputs_why(recorded.inputs@, found)
}

/// Whether every listed input holds the bytes it was read at.
pub open spec fn every_input_stands(inputs: Seq<Input>, found: Seq<Option<Seq<char>>>) -> bool {
    forall|k: int|
        0 <= k < inputs.len() ==> ((#[trigger] inputs[k]).digest matches Some(d) && found[k]
            == Some(d@))
}

/// What the tree holds at each path, as characters.
pub open spec fn found_view(found: Seq<Option<String>>) -> Seq<Option<Seq<char>>> {
    found.map_values(
        |f: Option<String>|
            match f {
                Some(s) => Some(s@),
                None => None,
            },
    )
}

proof fn lemma_inputs_why_empty(inputs: Seq<Input>, found: Seq<Option<Seq<char>>>)
    requires
        found.len() == inputs.len(),
    ensures
        inputs_why(inputs, found).len() == 0 <==> every_input_stands(inputs, found),
    decreases inputs.len(),
{
    if inputs.len() > 0 {
        let prior = inputs.drop_last();
        lemma_inputs_why_empty(prior, found.take(prior.len() as int));
        lemma_inputs_why_prefix(prior, found);
        if every_input_stands(inputs, found) {
            assert forall|k: int| 0 <= k < prior.len() implies ((#[trigger] prior[k]).digest matches Some(d)
                && found.take(prior.len() as int)[k] == Some(d@)) by {
                assert(prior[k] == inputs[k]);
            }
            assert(inputs.last() == inputs[inputs.len() - 1]);
        }
        if inputs_why(inputs, found).len() == 0 {
            assert forall|k: int| 0 <= k < inputs.len() implies ((#[trigger] inputs[k]).digest matches Some(d)
                && found[k] == Some(d@)) by {
                if k < prior.len() {
                    assert(prior[k] == inputs[k]);
                    assert(found.take(prior.len() as int)[k] == found[k]);
                }
            }
        }
    }
}

proof fn lemma_inputs_why_prefix(inputs: Seq<Input>, found: Seq<Option<Seq<char>>>)
    requires
        found.len() >= inputs.len(),
    ensures
        inputs_why(inputs, found) == inputs_why(inputs, found.take(inputs.len() as int)),
    decreases inputs.len(),
{
    if inputs.len() > 0 {
        lemma_inputs_why_prefix(inputs.drop_last(), found);
        lemma_inputs_why_prefix(inputs.drop_last(), found.take(inputs.len() as int));
        assert(found.take(inputs.len() as int).take(inputs.len() - 1) =~= found.take(
            inputs.len() - 1,
        ));
    }
}

/// Copy of a list of names as reasons of one shape.
fn reasons_of_names(out: &mut Vec<Reason>, names: &Vec<String>, barrier: bool)
    ensures
        final(out)@.map_values(|r: Reason| why(r)) == old(out)@.map_values(|r: Reason| why(r))
            + if barrier {
            names@.map_values(|b: String| Why::Barrier(b@))
        } else {
            names@.map_values(|b: String| Why::ChangeScoped(b@))
        },
{
    let ghost start = out@.map_values(|r: Reason| why(r));
    let mut i: usize = 0;
    while i < names.len()
        invariant
            i <= names@.len(),
            out@.map_values(|r: Reason| why(r)) == start + if barrier {
                names@.take(i as int).map_values(|b: String| Why::Barrier(b@))
            } else {
                names@.take(i as int).map_values(|b: String| Why::ChangeScoped(b@))
            },
        decreases names@.len() - i,
    {
        let rule = names[i].clone();
        let ghost prior = out@.map_values(|r: Reason| why(r));
        assert(names@.take(i + 1) =~= names@.take(i as int).push(names@[i as int]));
        if barrier {
            out.push(Reason::Barrier { rule });
        } else {
            out.push(Reason::ChangeScoped { rule });
        }
        i = i + 1;
        assert(out@.map_values(|r: Reason| why(r)) =~= prior.push(why(out@.last())));
        proof {
            if barrier {
                assert(out@.map_values(|r: Reason| why(r)) =~= start + names@.take(i as int).map_values(
                    |b: String| Why::Barrier(b@),
                ));
            } else {
                assert(out@.map_values(|r: Reason| why(r)) =~= start + names@.take(i as int).map_values(
                    |b: String| Why::ChangeScoped(b@),
                ));
            }
        }
    }
    assert(names@.take(i as int) =~= names@);
}

/// The verdict, given what the tree holds at each listed path.
///
/// `found[k]` is the digest of the file at the path of the `k`th input, and
/// `None` for a file that is not there.
pub fn verdict_of(recorded: &Recorded, lock: &str, asked: Date, found: &Vec<Option<String>>) -> (v:
    Verdict)
    requires
        found@.len() == recorded.inputs@.len(),
    ensures
        v.listed == recorded.inputs@.len(),
        v.reasons@.map_values(|r: Reason| why(r)) == verdict_why(
            *recorded,
            lock@,
            asked.days(),
            found_view(found@),
        ),
        v.reasons@.len() == 0 <==> {
            &&& recorded.lock@ == lock@
            &&& recorded.barriers@.len() == 0
            &&& recorded.scoped@.len() == 0
            &&& (asked.days() == recorded.clock.days() || recorded.windowed@.len() == 0)
            &&& every_input_stands(recorded.inputs@, found_view(found@))
        },
{
    let mut reasons: Vec<Reason> = Vec::new();
    let ghost found_chars = found_view(found@);
    let lock_chars = chars_of(lock);
    let recorded_lock = chars_of(recorded.lock.as_str());
    if !same(recorded_lock.as_slice(), lock_chars.as_slice()) {
        reasons.push(Reason::LockMoved { recorded: recorded.lock.clone(), found: owned(lock) });
    }
    let ghost head = reasons@.map_values(|r: Reason| why(r));
    assert(head =~= if recorded.lock@ != lock@ {
        seq![Why::LockMoved(recorded.lock@, lock@)]
    } else {
        Seq::<Why>::empty()
    });
    reasons_of_names(&mut reasons, &recorded.barriers, true);
    reasons_of_names(&mut reasons, &recorded.scoped, false);
    let ghost named = reasons@.map_values(|r: Reason| why(r));
    let moved = asked != recorded.clock;
    if moved {
        let mut i: usize = 0;
        while i < recorded.windowed.len()
            invariant
                i <= recorded.windowed@.len(),
                reasons@.map_values(|r: Reason| why(r)) == named + recorded.windowed@.take(
                    i as int,
                ).map_values(|w: String| Why::DayMoved(w@, recorded.clock.days(), asked.days())),
            decreases recorded.windowed@.len() - i,
        {
            let ghost prior = reasons@.map_values(|r: Reason| why(r));
            assert(recorded.windowed@.take(i + 1) =~= recorded.windowed@.take(i as int).push(
                recorded.windowed@[i as int],
            ));
            reasons.push(
                Reason::DayMoved {
                    rule: recorded.windowed[i].clone(),
                    recorded: recorded.clock,
                    asked,
                },
            );
            i = i + 1;
            assert(reasons@.map_values(|r: Reason| why(r)) =~= prior.push(why(reasons@.last())));
            assert(reasons@.map_values(|r: Reason| why(r)) =~= named + recorded.windowed@.take(
                i as int,
            ).map_values(|w: String| Why::DayMoved(w@, recorded.clock.days(), asked.days())));
        }
        assert(recorded.windowed@.take(i as int) =~= recorded.windowed@);
    }
    proof {
        crate::context::lemma_same_day(asked, recorded.clock);
    }
    assert(asked.days() != recorded.clock.days() <==> moved);
    let ghost dated = reasons@.map_values(|r: Reason| why(r));
    let mut k: usize = 0;
    while k < recorded.inputs.len()
        invariant
            k <= recorded.inputs@.len(),
            found@.len() == recorded.inputs@.len(),
            found_chars == found_view(found@),
            reasons@.map_values(|r: Reason| why(r)) == dated + inputs_why(
                recorded.inputs@.take(k as int),
                found_chars,
            ),
        decreases recorded.inputs@.len() - k,
    {
        let input = &recorded.inputs[k];
        let ghost prior = reasons@.map_values(|r: Reason| why(r));
        assert(recorded.inputs@.take(k + 1).drop_last() =~= recorded.inputs@.take(k as int));
        match (&input.digest, &found[k]) {
            (None, _) => {
                reasons.push(Reason::Unhashed { path: input.path.clone() });
            },
            (Some(_), None) => {
                reasons.push(Reason::Gone { path: input.path.clone() });
            },
            (Some(held), Some(now)) => {
                let a = chars_of(held.as_str());
                let b = chars_of(now.as_str());
                if !same(a.as_slice(), b.as_slice()) {
                    reasons.push(
                        Reason::Moved {
                            path: input.path.clone(),
                            recorded: held.clone(),
                            found: now.clone(),
                        },
                    );
                }
            },
        }
        k = k + 1;
        assert(reasons@.map_values(|r: Reason| why(r)) =~= prior + input_why(
            recorded.inputs@[k - 1],
            found_chars[k - 1],
        ));
    }
    assert(recorded.inputs@.take(k as int) =~= recorded.inputs@);
    proof {
        let whys = verdict_why(*recorded, lock@, asked.days(), found_chars);
        assert(reasons@.map_values(|r: Reason| why(r)) =~= whys);
        lemma_inputs_why_empty(recorded.inputs@, found_chars);
        assert(reasons@.len() == whys.len());
    }
    Verdict { reasons, listed: recorded.inputs.len() }
}

/// Whether `answer` is something `digest_of` may answer when asked about a
/// path that spells `path`.
pub open spec fn answered<F: Fn(&str) -> Option<String>>(
    digest_of: F,
    path: Seq<char>,
    answer: Option<String>,
) -> bool {
    exists|p: &str| p@ == path && #[trigger] digest_of.ensures((p,), answer)
}

/// Hold a published read set against the tree in front of it.
///
/// `digest_of` answers for one path in that tree, and `None` is a file that is
/// not there. It is asked once for every listed input, in the order the
/// artifact lists them, and the verdict is [`verdict_of`] over its answers.
pub fn decide(
    recorded: &Recorded,
    lock: &str,
    asked: Date,
    digest_of: impl Fn(&str) -> Option<String>,
) -> (v: Verdict)
    requires
        forall|p: &str| #[trigger] digest_of.requires((p,)),
    ensures
        v.listed == recorded.inputs@.len(),
        exists|found: Seq<Option<String>>|
            {
                &&& found.len() == recorded.inputs@.len()
                &&& forall|j: int|
                    0 <= j < found.len() ==> answered(
                        digest_of,
                        recorded.inputs@[j].path@,
                        #[trigger] found[j],
                    )
                &&& v.reasons@.map_values(|r: Reason| why(r)) == verdict_why(
                    *recorded,
                    lock@,
                    asked.days(),
                    found_view(found),
                )
            },
{
    let mut found: Vec<Option<String>> = Vec::new();
    let ghost mut asked_at: Seq<&str> = Seq::empty();
    let mut k: usize = 0;
    while k < recorded.inputs.len()
        invariant
            k <= recorded.inputs@.len(),
            found@.len() == k,
            asked_at.len() == k,
            forall|p: &str| #[trigger] digest_of.requires((p,)),
            forall|j: int| 0 <= j < k ==> (#[trigger] asked_at[j])@ == recorded.inputs@[j].path@,
            forall|j: int| 0 <= j < k ==> digest_of.ensures((asked_at[j],), #[trigger] found@[j]),
        decreases recorded.inputs@.len() - k,
    {
        let path = recorded.inputs[k].path.as_str();
        let answer = digest_of(path);
        assert(digest_of.ensures((path,), answer));
        assert(path@ == recorded.inputs@[k as int].path@);
        let ghost prior = found@;
        let ghost prior_at = asked_at;
        found.push(answer);
        proof {
            asked_at = asked_at.push(path);
            assert forall|j: int| 0 <= j < k + 1 implies asked_at[j]@ == recorded.inputs@[j].path@
                && digest_of.ensures((asked_at[j],), #[trigger] found@[j]) by {
                if j < k {
                    assert(found@[j] == prior[j]);
                    assert(asked_at[j] == prior_at[j]);
                } else {
                    assert(found@[j] == answer);
                    assert(asked_at[j] == path);
                }
            }
            assert(asked_at.len() == k + 1);
            assert(found@.len() == k + 1);
        }
        k = k + 1;
    }
    let v = verdict_of(recorded, lock, asked, &found);
    assert forall|j: int| 0 <= j < found@.len() implies answered(
        digest_of,
        recorded.inputs@[j].path@,
        #[trigger] found@[j],
    ) by {
        assert(asked_at[j]@ == recorded.inputs@[j].path@);
        assert(digest_of.ensures((asked_at[j],), found@[j]));
    }
    v
}

/// The sentence one reason is written as.
pub open spec fn why_text(w: Why) -> Seq<char> {
    match w {
        Why::LockMoved(recorded, found) => "the taxonomy lock reads "@ + found
            + " and this verdict rests on "@ + recorded,
        Why::Barrier(rule) => rule
            + " is a barrier: its verdict is a predicate over the extent of the census, and a list of members states no extent"@,
        Why::ChangeScoped(rule) => rule
            + " read the version each document stood at before a change, and a read set lists corpus paths rather than changes"@,
        Why::DayMoved(rule, recorded, asked) => rule + " read the clock on "@ + date_text(recorded)
            + ", and this gate is asked about "@ + date_text(asked),
        Why::Moved(path, recorded, found) => path + " reads "@ + found
            + " and this verdict rests on "@ + recorded,
        Why::Gone(path) => path + " is not in this tree"@,
        Why::Unhashed(path) => path + " carried no hash when it was read, so nothing compares"@,
    }
}

/// Whether the dates a reason carries can be written.
pub open spec fn writable(r: Reason) -> bool {
    match r {
        Reason::DayMoved { recorded, asked, .. } => renderable(recorded.days()) && renderable(
            asked.days(),
        ),
        _ => true,
    }
}

/// The lines under a voided verdict, one per reason.
pub open spec fn reason_lines(reasons: Seq<Reason>) -> Seq<char>
    decreases reasons.len(),
{
    if reasons.len() == 0 {
        Seq::<char>::empty()
    } else {
        reason_lines(reasons.drop_last()) + "  "@ + why_text(why(reasons.last())) + seq!['\n']
    }
}

/// The report of a verdict.
pub open spec fn verdict_text(v: Verdict) -> Seq<char> {
    (if v.reasons@.len() == 0 {
        "the verdicts this run reached about the "@ + decimal(v.listed as nat)
            + " inputs it listed carry to this tree\n"@
    } else {
        "the verdicts this run reached do not carry to this tree\n"@ + reason_lines(v.reasons@)
    }) + LIMIT@ + seq!['\n']
}

/// The name a caller branches on, for each kind of reason.
pub open spec fn token_of(r: Reason) -> Seq<char> {
    match r {
        Reason::LockMoved { .. } => "lock_moved"@,
        Reason::Barrier { .. } => "barrier"@,
        Reason::ChangeScoped { .. } => "change_scoped"@,
        Reason::DayMoved { .. } => "day_moved"@,
        Reason::Moved { .. } => "moved"@,
        Reason::Gone { .. } => "gone"@,
        Reason::Unhashed { .. } => "unhashed"@,
    }
}

/// The members a reason carries in the machine form of a verdict, in order:
/// its token, its sentence, and the values that sentence was composed from,
/// so that a caller never takes a digest back out of a sentence.
pub open spec fn members_of(r: Reason) -> Seq<(Seq<char>, Seq<char>)> {
    seq![("reason"@, token_of(r)), ("says"@, why_text(why(r)))] + match r {
        Reason::LockMoved { recorded, found } => seq![("recorded"@, recorded@), ("found"@, found@)],
        Reason::Barrier { rule } => seq![("rule"@, rule@)],
        Reason::ChangeScoped { rule } => seq![("rule"@, rule@)],
        Reason::DayMoved { rule, recorded, asked } => seq![
            ("rule"@, rule@),
            ("recorded"@, date_text(recorded.days())),
            ("asked"@, date_text(asked.days())),
        ],
        Reason::Moved { path, recorded, found } => seq![
            ("path"@, path@),
            ("recorded"@, recorded@),
            ("found"@, found@),
        ],
        Reason::Gone { path } => seq![("path"@, path@)],
        Reason::Unhashed { path } => seq![("path"@, path@)],
    }
}

impl Reason {
    /// The name a caller branches on.
    pub fn token(&self) -> (t: &'static str)
        ensures
            t@ == token_of(*self),
    {
        match self {
            Reason::LockMoved { .. } => "lock_moved",
            Reason::Barrier { .. } => "barrier",
            Reason::ChangeScoped { .. } => "change_scoped",
            Reason::DayMoved { .. } => "day_moved",
            Reason::Moved { .. } => "moved",
            Reason::Gone { .. } => "gone",
            Reason::Unhashed { .. } => "unhashed",
        }
    }

    /// The sentence a person reads.
    pub fn render(&self) -> (s: String)
        requires
            writable(*self),
        ensures
            s@ == why_text(why(*self)),
    {
        let mut out: Vec<char> = Vec::new();
        match self {
            Reason::LockMoved { recorded, found } => {
                extend_str(&mut out, "the taxonomy lock reads ");
                extend_str(&mut out, found.as_str());
                extend_str(&mut out, " and this verdict rests on ");
                extend_str(&mut out, recorded.as_str());
            },
            Reason::Barrier { rule } => {
                extend_str(&mut out, rule.as_str());
                extend_str(
                    &mut out,
                    " is a barrier: its verdict is a predicate over the extent of the census, and a list of members states no extent",
                );
            },
            Reason::ChangeScoped { rule } => {
                extend_str(&mut out, rule.as_str());
                extend_str(
                    &mut out,
                    " read the version each document stood at before a change, and a read set lists corpus paths rather than changes",
                );
            },
            Reason::DayMoved { rule, recorded, asked } => {
                extend_str(&mut out, rule.as_str());
                extend_str(&mut out, " read the clock on ");
                let day = recorded.render();
                extend_str(&mut out, day.as_str());
                extend_str(&mut out, ", and this gate is asked about ");
                let day = asked.render();
                extend_str(&mut out, day.as_str());
            },
            Reason::Moved { path, recorded, found } => {
                extend_str(&mut out, path.as_str());
                extend_str(&mut out, " reads ");
                extend_str(&mut out, found.as_str());
                extend_str(&mut out, " and this verdict rests on ");
                extend_str(&mut out, recorded.as_str());
            },
            Reason::Gone { path } => {
                extend_str(&mut out, path.as_str());
                extend_str(&mut out, " is not in this tree");
            },
            Reason::Unhashed { path } => {
                extend_str(&mut out, path.as_str());
                extend_str(&mut out, " carried no hash when it was read, so nothing compares");
            },
        }
        assert(out@ =~= why_text(why(*self)));
        string_of(out.as_slice())
    }

    /// The members this reason carries in the machine form of a verdict, as
    /// names and values: `says` is [`Reason::render`] itself rather than a
    /// second wording of it.
    pub fn members(&self) -> (m: Vec<(&'static str, String)>)
        requires
            writable(*self),
        ensures
            m@.len() == members_of(*self).len(),
            forall|i: int|
                0 <= i < m@.len() ==> (#[trigger] m@[i]).0@ == members_of(*self)[i].0 && m@[i].1@
                    == members_of(*self)[i].1,
    {
        let mut m: Vec<(&'static str, String)> = Vec::new();
        m.push(("reason", owned(self.token())));
        m.push(("says", self.render()));
        match self {
            Reason::LockMoved { recorded, found } => {
                m.push(("recorded", owned(recorded.as_str())));
                m.push(("found", owned(found.as_str())));
            },
            Reason::Barrier { rule } => {
                m.push(("rule", owned(rule.as_str())));
            },
            Reason::ChangeScoped { rule } => {
                m.push(("rule", owned(rule.as_str())));
            },
            Reason::DayMoved { rule, recorded, asked } => {
                m.push(("rule", owned(rule.as_str())));
                m.push(("recorded", recorded.render()));
                m.push(("asked", asked.render()));
            },
            Reason::Moved { path, recorded, found } => {
                m.push(("path", owned(path.as_str())));
                m.push(("recorded", owned(recorded.as_str())));
                m.push(("found", owned(found.as_str())));
            },
            Reason::Gone { path } => {
                m.push(("path", owned(path.as_str())));
            },
            Reason::Unhashed { path } => {
                m.push(("path", owned(path.as_str())));
            },
        }
        m
    }
}

impl Verdict {
    /// Whether the verdict carries to the tree.
    pub fn carries(&self) -> (r: bool)
        ensures
            r == (self.reasons@.len() == 0),
    {
        self.reasons.len() == 0
    }

    /// The report. The last line is printed whichever way the answer went.
    pub fn render(&self) -> (s: String)
        requires
            forall|k: int| 0 <= k < self.reasons@.len() ==> writable(#[trigger] self.reasons@[k]),
        ensures
            s@ == verdict_text(*self),
    {
        let mut out: Vec<char> = Vec::new();
        if self.carries() {
            extend_str(&mut out, "the verdicts this run reached about the ");
            extend_decimal(&mut out, self.listed as u64);
            extend_str(&mut out, " inputs it listed carry to this tree\n");
        } else {
            extend_str(&mut out, "the verdicts this run reached do not carry to this tree\n");
            let ghost head = out@;
            let mut i: usize = 0;
            while i < self.reasons.len()
                invariant
                    i <= self.reasons@.len(),
                    forall|k: int|
                        0 <= k < self.reasons@.len() ==> writable(#[trigger] self.reasons@[k]),
                    out@ == head + reason_lines(self.reasons@.take(i as int)),
                decreases self.reasons@.len() - i,
            {
                extend_str(&mut out, "  ");
                let line = self.reasons[i].render();
                extend_str(&mut out, line.as_str());
                out.push('\n');
                assert(self.reasons@.take(i + 1).drop_last() =~= self.reasons@.take(i as int));
                i = i + 1;
                assert(out@ =~= head + reason_lines(self.reasons@.take(i as int)));
            }
            assert(self.reasons@.take(i as int) =~= self.reasons@);
        }
        extend_str(&mut out, LIMIT);
        out.push('\n');
        assert(out@ =~= verdict_text(*self));
        string_of(out.as_slice())
    }
}

} // verus!

verus! {

/// Lines, each followed by a newline.
pub open spec fn flat(ls: Seq<Seq<char>>) -> Seq<char>
    decreases ls.len(),
{
    if ls.len() == 0 {
        Seq::<char>::empty()
    } else {
        flat(ls.drop_last()) + ls.last() + seq!['\n']
    }
}

/// Whether a field survives a line of an artifact: it holds no space, which
/// separates fields, and nothing that ends a line, which is a newline or a
/// carriage return at its end. A tab, or any other character, is kept.
pub open spec fn plain(s: Seq<char>) -> bool {
    !s.contains(' ') && spaced(s)
}

/// Lines ended by newlines are the pieces of their text, one empty piece after
/// the last.
pub proof fn lemma_flat_join(ls: Seq<Seq<char>>)
    ensures
        flat(ls) == join(ls.push(Seq::<char>::empty()), seq!['\n']),
    decreases ls.len(),
{
    if ls.len() > 0 {
        let init = ls.drop_last();
        lemma_flat_join(init);
        let p = ls.push(Seq::<char>::empty());
        assert(p.drop_last() =~= ls);
        if ls.len() == 1 {
            assert(init.push(Seq::<char>::empty()).len() == 1);
            assert(join(init.push(Seq::<char>::empty()), seq!['\n']) == Seq::<char>::empty());
            assert(ls.drop_last() =~= Seq::<Seq<char>>::empty());
            assert(join(ls, seq!['\n']) == ls[0]);
            assert(flat(ls) =~= ls[0] + seq!['\n']);
        } else {
            assert(init.push(Seq::<char>::empty()).drop_last() =~= init);
            assert(join(ls, seq!['\n']) == join(init, seq!['\n']) + seq!['\n'] + ls.last());
            assert(flat(init) == join(init, seq!['\n']) + seq!['\n'] + Seq::<char>::empty());
            assert(flat(ls) =~= join(ls, seq!['\n']) + seq!['\n'] + Seq::<char>::empty());
        }
    } else {
        assert(ls.push(Seq::<char>::empty()) =~= seq![Seq::<char>::empty()]);
    }
}

/// Lines with no newline in them and no carriage return at their end read
/// back as themselves.
proof fn lemma_text_lines_flat(ls: Seq<Seq<char>>)
    requires
        forall|i: int| 0 <= i < ls.len() ==> !(#[trigger] ls[i]).contains('\n'),
        forall|i: int| 0 <= i < ls.len() ==> (#[trigger] ls[i]).len() == 0 || ls[i].last() != '\r',
    ensures
        text_lines(flat(ls)) == ls,
{
    lemma_flat_join(ls);
    let p = ls.push(Seq::<char>::empty());
    assert forall|i: int| 0 <= i < p.len() implies !(#[trigger] p[i]).contains('\n') by {
        if i < ls.len() {
            assert(p[i] == ls[i]);
        }
    }
    lemma_pieces_join(p, '\n');
    assert(p.drop_last() =~= ls);
    assert(ls.map_values(|l: Seq<char>| without_cr(l)) =~= ls);
}

/// Concatenated lines are each's lines in turn.
pub proof fn lemma_flat_add(a: Seq<Seq<char>>, b: Seq<Seq<char>>)
    ensures
        flat(a + b) == flat(a) + flat(b),
    decreases b.len(),
{
    if b.len() == 0 {
        assert(a + b =~= a);
    } else {
        lemma_flat_add(a, b.drop_last());
        assert((a + b).drop_last() =~= a + b.drop_last());
    }
}

/// The `keyword name` line of each name.
pub open spec fn name_line_seq(keyword: Seq<char>, names: Seq<&'static str>) -> Seq<Seq<char>> {
    names.map_values(|n: &'static str| keyword + seq![' '] + n@)
}

proof fn lemma_name_lines(keyword: Seq<char>, names: Seq<&'static str>)
    ensures
        name_lines(keyword, names) == flat(name_line_seq(keyword, names)),
    decreases names.len(),
{
    if names.len() > 0 {
        lemma_name_lines(keyword, names.drop_last());
        assert(name_line_seq(keyword, names).drop_last() =~= name_line_seq(keyword, names.drop_last()));
    } else {
        assert(name_line_seq(keyword, names) =~= Seq::<Seq<char>>::empty());
    }
}

/// The `version rule edition` line of each rule.
pub open spec fn version_line_seq(versions: Seq<(&'static str, u32)>) -> Seq<Seq<char>> {
    versions.map_values(|v: (&'static str, u32)| "version"@ + seq![' '] + v.0@ + seq![' '] + decimal(v.1 as nat))
}

proof fn lemma_version_lines(versions: Seq<(&'static str, u32)>)
    ensures
        version_lines(versions) == flat(version_line_seq(versions)),
    decreases versions.len(),
{
    if versions.len() > 0 {
        lemma_version_lines(versions.drop_last());
        assert(version_line_seq(versions).drop_last() =~= version_line_seq(versions.drop_last()));
        let v = versions.last();
        assert("version "@ =~= "version"@ + seq![' ']) by {
            reveal_strlit("version ");
            reveal_strlit("version");
        }
    } else {
        assert(version_line_seq(versions) =~= Seq::<Seq<char>>::empty());
    }
}

/// The `input path digest` line of each input.
pub open spec fn input_line_seq(inputs: Seq<Input>) -> Seq<Seq<char>> {
    inputs.map_values(|i: Input| "input"@ + seq![' '] + i.path@ + seq![' '] + digest_text(i))
}

proof fn lemma_input_lines(inputs: Seq<Input>)
    ensures
        input_lines(inputs) == flat(input_line_seq(inputs)),
    decreases inputs.len(),
{
    if inputs.len() > 0 {
        lemma_input_lines(inputs.drop_last());
        assert(input_line_seq(inputs).drop_last() =~= input_line_seq(inputs.drop_last()));
        assert("input "@ =~= "input"@ + seq![' ']) by {
            reveal_strlit("input ");
            reveal_strlit("input");
        }
    } else {
        assert(input_line_seq(inputs) =~= Seq::<Seq<char>>::empty());
    }
}

/// Every line of a read set's artifact, in order.
pub open spec fn artifact_lines(set: ReadSet) -> Seq<Seq<char>> {
    seq!["lock"@ + seq![' '] + set.lock@, "clock"@ + seq![' '] + date_text(set.clock.days())]
        + name_line_seq("barrier"@, set.barriers@) + name_line_seq("windowed"@, set.windowed@)
        + name_line_seq("change-scoped"@, set.scoped@) + version_line_seq(set.versions@)
        + input_line_seq(set.inputs@)
}

proof fn lemma_artifact_lines(set: ReadSet)
    ensures
        artifact(set) == flat(artifact_lines(set)),
{
    reveal_strlit("lock ");
    reveal_strlit("lock");
    reveal_strlit("clock ");
    reveal_strlit("clock");
    let head = seq!["lock"@ + seq![' '] + set.lock@, "clock"@ + seq![' '] + date_text(set.clock.days())];
    let b = name_line_seq("barrier"@, set.barriers@);
    let w = name_line_seq("windowed"@, set.windowed@);
    let c = name_line_seq("change-scoped"@, set.scoped@);
    let v = version_line_seq(set.versions@);
    let n = input_line_seq(set.inputs@);
    lemma_flat_add(head, b);
    lemma_flat_add(head + b, w);
    lemma_flat_add(head + b + w, c);
    lemma_flat_add(head + b + w + c, v);
    lemma_flat_add(head + b + w + c + v, n);
    lemma_name_lines("barrier"@, set.barriers@);
    lemma_name_lines("windowed"@, set.windowed@);
    lemma_name_lines("change-scoped"@, set.scoped@);
    lemma_version_lines(set.versions@);
    lemma_input_lines(set.inputs@);
    assert(head.drop_last().drop_last() =~= Seq::<Seq<char>>::empty());
    assert(head.drop_last() =~= seq![head[0]]);
    assert(flat(head.drop_last()) =~= flat(Seq::<Seq<char>>::empty()) + head[0] + seq!['\n']);
    assert(flat(head) =~= head[0] + seq!['\n'] + head[1] + seq!['\n']);
    assert("lock "@ =~= "lock"@ + seq![' ']);
    assert("clock "@ =~= "clock"@ + seq![' ']);
}

} // verus!

verus! {

/// The keywords of an artifact are told apart by their spelling.
proof fn lemma_keywords()
    ensures
        "lock"@.len() == 4,
        "clock"@.len() == 5,
        "barrier"@.len() == 7,
        "windowed"@.len() == 8,
        "change-scoped"@.len() == 13,
        "version"@.len() == 7,
        "input"@.len() == 5,
        "-"@ == seq!['-'],
        "clock"@ != "input"@,
        "barrier"@ != "version"@,
        plain("lock"@),
        plain("clock"@),
        plain("barrier"@),
        plain("windowed"@),
        plain("change-scoped"@),
        plain("version"@),
        plain("input"@),
        !"lock"@.contains(' '),
        !"clock"@.contains(' '),
        !"barrier"@.contains(' '),
        !"windowed"@.contains(' '),
        !"change-scoped"@.contains(' '),
        !"version"@.contains(' '),
        !"input"@.contains(' '),
        !is_space("lock"@[0]),
        !is_space("clock"@[0]),
        !is_space("barrier"@[0]),
        !is_space("windowed"@[0]),
        !is_space("change-scoped"@[0]),
        !is_space("version"@[0]),
        !is_space("input"@[0]),
{
    reveal_strlit("lock");
    reveal_strlit("clock");
    reveal_strlit("barrier");
    reveal_strlit("windowed");
    reveal_strlit("change-scoped");
    reveal_strlit("version");
    reveal_strlit("input");
    reveal_strlit("-");
    assert("clock"@[0] != "input"@[0]);
    assert("barrier"@[0] != "version"@[0]);
}

/// A plain field holds no space.
proof fn lemma_plain_no_space(s: Seq<char>)
    requires
        plain(s),
    ensures
        !s.contains(' '),
        !s.contains('\n'),
        s.len() == 0 || s.last() != '\r',
{
}

/// A text that opens with a character other than white space keeps one when
/// trimmed.
proof fn lemma_trim_keeps(s: Seq<char>)
    requires
        s.len() > 0,
        !is_space(s[0]),
    ensures
        trim(s).len() > 0,
{
    lemma_trim_end_keeps(s);
}

pub proof fn lemma_trim_end_keeps(s: Seq<char>)
    requires
        s.len() > 0,
        !is_space(s[0]),
    ensures
        trim_end(s).len() > 0,
        trim_start(s) == s,
    decreases s.len(),
{
    if s.len() > 1 && is_space(s.last()) {
        lemma_trim_end_keeps(s.drop_last());
    }
}

/// A keyword, a space and a field with no space in it split into the two.
proof fn lemma_two_fields(kw: Seq<char>, a: Seq<char>)
    requires
        !kw.contains(' '),
        !a.contains(' '),
    ensures
        pieces(kw + seq![' '] + a, ' ') == seq![kw, a],
{
    lemma_pieces_of_plain(kw, ' ');
    lemma_pieces_after_sep(kw, a, ' ');
    assert(kw + seq![' '] + a =~= kw.push(' ') + a);
    assert(seq![kw].push(a) =~= seq![kw, a]);
}

/// A keyword and two fields with no space in them split into the three.
proof fn lemma_three_fields(kw: Seq<char>, a: Seq<char>, b: Seq<char>)
    requires
        !kw.contains(' '),
        !a.contains(' '),
        !b.contains(' '),
    ensures
        pieces(kw + seq![' '] + a + seq![' '] + b, ' ') == seq![kw, a, b],
{
    lemma_two_fields(kw, a);
    lemma_pieces_after_sep(kw + seq![' '] + a, b, ' ');
    assert(kw + seq![' '] + a + seq![' '] + b =~= (kw + seq![' '] + a).push(' ') + b);
    assert(seq![kw, a].push(b) =~= seq![kw, a, b]);
}

/// The decimal form of an edition reads back as the edition.
proof fn lemma_u32_field_decimal(n: u32)
    ensures
        u32_field(decimal(n as nat)) == Some(n as int),
        plain(decimal(n as nat)),
        !decimal(n as nat).contains(' '),
{
    lemma_decimal_digits(n as nat);
    let s = decimal(n as nat);
    assert(s[0] != '+') by {
        assert('0' <= s[0] <= '9');
    }
    assert(all_digits(s));
    lemma_digits_plain(s);
    assert forall|i: int| 0 <= i < s.len() implies !is_space(#[trigger] s[i]) by {
        assert('0' <= s[i] <= '9');
    }
    lemma_plain_no_space(s);
}

} // verus!

verus! {

/// Every name of a list is plain.
pub open spec fn plain_names(names: Seq<&'static str>) -> bool {
    forall|i: int| 0 <= i < names.len() ==> plain((#[trigger] names[i])@)
}

/// Reading one more line reads it into what the lines before it stated.
proof fn lemma_drafted_push(a: Seq<Seq<char>>, line: Seq<char>)
    ensures
        drafted(a.push(line)) == match drafted(a) {
            Ok(d) => step(d, line, a.len() + 1),
            Err(e) => Err(e),
        },
{
    assert(a.push(line).drop_last() =~= a);
}

proof fn lemma_group_barriers(a: Seq<Seq<char>>, d: Draft, names: Seq<&'static str>)
    requires
        drafted(a) == Ok::<Draft, (nat, Seq<char>)>(d),
        plain_names(names),
    ensures
        drafted(a + name_line_seq("barrier"@, names)) == Ok::<Draft, (nat, Seq<char>)>(
            Draft { barriers: d.barriers + names.map_values(|n: &'static str| n@), ..d },
        ),
    decreases names.len(),
{
    let g = name_line_seq("barrier"@, names);
    if names.len() == 0 {
        assert(a + g =~= a);
        assert(d.barriers + names.map_values(|n: &'static str| n@) =~= d.barriers);
    } else {
        let init = names.drop_last();
        assert(plain_names(init)) by {
            assert forall|i: int| 0 <= i < init.len() implies plain((#[trigger] init[i])@) by {
                assert(init[i] == names[i]);
            }
        }
        lemma_group_barriers(a, d, init);
        let prev = Draft { barriers: d.barriers + init.map_values(|n: &'static str| n@), ..d };
        assert((a + g).drop_last() =~= a + name_line_seq("barrier"@, init));
        let n = names.last();
        assert(plain(n@)) by {
            assert(names[names.len() - 1] == n);
        }
        let line = "barrier"@ + seq![' '] + n@;
        assert((a + g).last() == line);
        lemma_drafted_push(a + name_line_seq("barrier"@, init), line);
        assert(a + g =~= (a + name_line_seq("barrier"@, init)).push(line));
        lemma_keywords();
        lemma_plain_no_space(n@);
        lemma_two_fields("barrier"@, n@);
        assert(line[0] == "barrier"@[0]);
        assert(!is_space(line[0]));
        lemma_trim_keeps(line);
        assert(prev.barriers.push(n@) =~= d.barriers + names.map_values(|n: &'static str| n@));
    }
}

proof fn lemma_group_windowed(a: Seq<Seq<char>>, d: Draft, names: Seq<&'static str>)
    requires
        drafted(a) == Ok::<Draft, (nat, Seq<char>)>(d),
        plain_names(names),
    ensures
        drafted(a + name_line_seq("windowed"@, names)) == Ok::<Draft, (nat, Seq<char>)>(
            Draft { windowed: d.windowed + names.map_values(|n: &'static str| n@), ..d },
        ),
    decreases names.len(),
{
    let g = name_line_seq("windowed"@, names);
    if names.len() == 0 {
        assert(a + g =~= a);
        assert(d.windowed + names.map_values(|n: &'static str| n@) =~= d.windowed);
    } else {
        let init = names.drop_last();
        assert(plain_names(init)) by {
            assert forall|i: int| 0 <= i < init.len() implies plain((#[trigger] init[i])@) by {
                assert(init[i] == names[i]);
            }
        }
        lemma_group_windowed(a, d, init);
        let prev = Draft { windowed: d.windowed + init.map_values(|n: &'static str| n@), ..d };
        assert((a + g).drop_last() =~= a + name_line_seq("windowed"@, init));
        let n = names.last();
        assert(plain(n@)) by {
            assert(names[names.len() - 1] == n);
        }
        let line = "windowed"@ + seq![' '] + n@;
        assert((a + g).last() == line);
        lemma_drafted_push(a + name_line_seq("windowed"@, init), line);
        assert(a + g =~= (a + name_line_seq("windowed"@, init)).push(line));
        lemma_keywords();
        lemma_plain_no_space(n@);
        lemma_two_fields("windowed"@, n@);
        assert(line[0] == "windowed"@[0]);
        assert(!is_space(line[0]));
        lemma_trim_keeps(line);
        assert(prev.windowed.push(n@) =~= d.windowed + names.map_values(|n: &'static str| n@));
    }
}

proof fn lemma_group_scoped(a: Seq<Seq<char>>, d: Draft, names: Seq<&'static str>)
    requires
        drafted(a) == Ok::<Draft, (nat, Seq<char>)>(d),
        plain_names(names),
    ensures
        drafted(a + name_line_seq("change-scoped"@, names)) == Ok::<Draft, (nat, Seq<char>)>(
            Draft { scoped: d.scoped + names.map_values(|n: &'static str| n@), ..d },
        ),
    decreases names.len(),
{
    let g = name_line_seq("change-scoped"@, names);
    if names.len() == 0 {
        assert(a + g =~= a);
        assert(d.scoped + names.map_values(|n: &'static str| n@) =~= d.scoped);
    } else {
        let init = names.drop_last();
        assert(plain_names(init)) by {
            assert forall|i: int| 0 <= i < init.len() implies plain((#[trigger] init[i])@) by {
                assert(init[i] == names[i]);
            }
        }
        lemma_group_scoped(a, d, init);
        let prev = Draft { scoped: d.scoped + init.map_values(|n: &'static str| n@), ..d };
        assert((a + g).drop_last() =~= a + name_line_seq("change-scoped"@, init));
        let n = names.last();
        assert(plain(n@)) by {
            assert(names[names.len() - 1] == n);
        }
        let line = "change-scoped"@ + seq![' '] + n@;
        assert((a + g).last() == line);
        lemma_drafted_push(a + name_line_seq("change-scoped"@, init), line);
        assert(a + g =~= (a + name_line_seq("change-scoped"@, init)).push(line));
        lemma_keywords();
        lemma_plain_no_space(n@);
        lemma_two_fields("change-scoped"@, n@);
        assert(line[0] == "change-scoped"@[0]);
        assert(!is_space(line[0]));
        lemma_trim_keeps(line);
        assert(prev.scoped.push(n@) =~= d.scoped + names.map_values(|n: &'static str| n@));
    }
}

proof fn lemma_group_versions(a: Seq<Seq<char>>, d: Draft, versions: Seq<(&'static str, u32)>)
    requires
        drafted(a) == Ok::<Draft, (nat, Seq<char>)>(d),
        forall|i: int| 0 <= i < versions.len() ==> plain((#[trigger] versions[i]).0@),
    ensures
        drafted(a + version_line_seq(versions)) == Ok::<Draft, (nat, Seq<char>)>(
            Draft { versions: d.versions + versions.map_values(|v: (&'static str, u32)| (v.0@, v.1 as int)), ..d },
        ),
    decreases versions.len(),
{
    let g = version_line_seq(versions);
    if versions.len() == 0 {
        assert(a + g =~= a);
        assert(d.versions + versions.map_values(|v: (&'static str, u32)| (v.0@, v.1 as int)) =~= d.versions);
    } else {
        let init = versions.drop_last();
        assert forall|i: int| 0 <= i < init.len() implies plain((#[trigger] init[i]).0@) by {
            assert(init[i] == versions[i]);
        }
        lemma_group_versions(a, d, init);
        let prev = Draft { versions: d.versions + init.map_values(|v: (&'static str, u32)| (v.0@, v.1 as int)), ..d };
        assert((a + g).drop_last() =~= a + version_line_seq(init));
        let v = versions.last();
        assert(plain(v.0@)) by {
            assert(versions[versions.len() - 1] == v);
        }
        let line = "version"@ + seq![' '] + v.0@ + seq![' '] + decimal(v.1 as nat);
        assert((a + g).last() == line);
        lemma_drafted_push(a + version_line_seq(init), line);
        assert(a + g =~= (a + version_line_seq(init)).push(line));
        lemma_keywords();
        lemma_plain_no_space(v.0@);
        lemma_u32_field_decimal(v.1);
        lemma_three_fields("version"@, v.0@, decimal(v.1 as nat));
        assert(line[0] == "version"@[0]);
        assert(!is_space(line[0]));
        lemma_trim_keeps(line);
        assert(prev.versions.push((v.0@, v.1 as int)) =~= d.versions + versions.map_values(
            |v: (&'static str, u32)| (v.0@, v.1 as int),
        ));
    }
}

/// An input whose path and digest are plain, and whose digest is not the
/// mark of a missing one.
pub open spec fn plain_input(i: Input) -> bool {
    &&& plain(i.path@)
    &&& match i.digest {
        Some(g) => plain(g@) && g@ != seq!['-'],
        None => true,
    }
}

proof fn lemma_group_inputs(a: Seq<Seq<char>>, d: Draft, inputs: Seq<Input>)
    requires
        drafted(a) == Ok::<Draft, (nat, Seq<char>)>(d),
        forall|i: int| 0 <= i < inputs.len() ==> plain_input(#[trigger] inputs[i]),
    ensures
        drafted(a + input_line_seq(inputs)) == Ok::<Draft, (nat, Seq<char>)>(
            Draft { inputs: d.inputs + inputs.map_values(|i: Input| input_view(i)), ..d },
        ),
    decreases inputs.len(),
{
    let g = input_line_seq(inputs);
    if inputs.len() == 0 {
        assert(a + g =~= a);
        assert(d.inputs + inputs.map_values(|i: Input| input_view(i)) =~= d.inputs);
    } else {
        let init = inputs.drop_last();
        assert forall|i: int| 0 <= i < init.len() implies plain_input(#[trigger] init[i]) by {
            assert(init[i] == inputs[i]);
        }
        lemma_group_inputs(a, d, init);
        let prev = Draft { inputs: d.inputs + init.map_values(|i: Input| input_view(i)), ..d };
        assert((a + g).drop_last() =~= a + input_line_seq(init));
        let x = inputs.last();
        assert(plain_input(x)) by {
            assert(inputs[inputs.len() - 1] == x);
        }
        let dt = digest_text(x);
        let line = "input"@ + seq![' '] + x.path@ + seq![' '] + dt;
        assert((a + g).last() == line);
        lemma_drafted_push(a + input_line_seq(init), line);
        assert(a + g =~= (a + input_line_seq(init)).push(line));
        lemma_keywords();
        lemma_plain_no_space(x.path@);
        match x.digest {
            Some(h) => {
                lemma_plain_no_space(h@);
            },
            None => {
                assert(!dt.contains(' ')) by {
                    if dt.contains(' ') {
                        let k = choose|k: int| 0 <= k < dt.len() && dt[k] == ' ';
                    }
                }
            },
        }
        lemma_three_fields("input"@, x.path@, dt);
        assert(line[0] == "input"@[0]);
        assert(!is_space(line[0]));
        lemma_trim_keeps(line);
        assert(prev.inputs.push(input_view(x)) =~= d.inputs + inputs.map_values(|i: Input| input_view(i)));
    }
}

} // verus!

verus! {

/// What a read set states, as a gate reads it back.
pub open spec fn read_set_view(set: ReadSet) -> Draft {
    Draft {
        lock: Some(set.lock@),
        clock: Some(set.clock.days()),
        barriers: set.barriers@.map_values(|n: &'static str| n@),
        scoped: set.scoped@.map_values(|n: &'static str| n@),
        windowed: set.windowed@.map_values(|n: &'static str| n@),
        versions: set.versions@.map_values(|v: (&'static str, u32)| (v.0@, v.1 as int)),
        inputs: set.inputs@.map_values(|i: Input| input_view(i)),
    }
}

/// Whether everything a read set writes is a field its artifact can carry: no
/// space and no newline in the lock, a name, a path or a digest, none ending
/// in a carriage return, no digest that is the mark of a missing one, and a
/// clock whose year is written in four digits. A tab is carried like any other
/// character.
pub open spec fn writable_set(set: ReadSet) -> bool {
    &&& plain(set.lock@)
    &&& plain_names(set.barriers@)
    &&& plain_names(set.windowed@)
    &&& plain_names(set.scoped@)
    &&& forall|i: int| 0 <= i < set.versions@.len() ==> plain((#[trigger] set.versions@[i]).0@)
    &&& forall|i: int| 0 <= i < set.inputs@.len() ==> plain_input(#[trigger] set.inputs@[i])
    &&& 0 <= civil_of(set.clock.days()).0 <= 9999
}

/// What a read set writes, a gate reads back: the lock, the clock, every
/// barrier, windowed and change-scoped rule, every edition and every input with
/// its digest, in the order written.
#[verifier::spinoff_prover]
#[verifier::rlimit(40)]
pub proof fn law_read_set_reads_back(set: ReadSet)
    requires
        writable_set(set),
    ensures
        recorded_of(artifact(set)) == Ok::<Draft, (nat, Seq<char>)>(read_set_view(set)),
{
    lemma_keywords();
    let ls = artifact_lines(set);
    lemma_artifact_lines(set);
    let days = set.clock.days();
    law_date_reads_back(days);
    let dt = date_text(days);
    assert(plain(dt)) by {
        lemma_date_text_plain(days);
    }
    lemma_plain_no_space(dt);
    lemma_plain_no_space(set.lock@);
    let lock_line = "lock"@ + seq![' '] + set.lock@;
    let clock_line = "clock"@ + seq![' '] + dt;
    // Every line is free of newlines and ends in no carriage return.
    lemma_lines_spaced(set);
    assert forall|i: int| 0 <= i < ls.len() implies !(#[trigger] ls[i]).contains('\n') && (ls[i].len() == 0
        || ls[i].last() != '\r') by {
        lemma_spaced_line(ls[i]);
    }
    lemma_text_lines_flat(ls);
    // The lock and the clock.
    let blank = blank_draft();
    let d1 = Draft { lock: Some(set.lock@), ..blank };
    let d2 = Draft { clock: Some(days), ..d1 };
    let head = seq![lock_line, clock_line];
    lemma_two_fields("lock"@, set.lock@);
    lemma_two_fields("clock"@, dt);
    assert(lock_line[0] == "lock"@[0]);
    assert(clock_line[0] == "clock"@[0]);
    lemma_trim_keeps(lock_line);
    lemma_trim_keeps(clock_line);
    lemma_drafted_push(Seq::<Seq<char>>::empty(), lock_line);
    assert(Seq::<Seq<char>>::empty().push(lock_line) =~= seq![lock_line]);
    assert(drafted(Seq::<Seq<char>>::empty()) == Ok::<Draft, (nat, Seq<char>)>(blank));
    assert(drafted(seq![lock_line]) == Ok::<Draft, (nat, Seq<char>)>(d1));
    lemma_drafted_push(seq![lock_line], clock_line);
    assert(seq![lock_line].push(clock_line) =~= head);
    assert(drafted(head) == Ok::<Draft, (nat, Seq<char>)>(d2));
    let b = name_line_seq("barrier"@, set.barriers@);
    let w = name_line_seq("windowed"@, set.windowed@);
    let c = name_line_seq("change-scoped"@, set.scoped@);
    let v = version_line_seq(set.versions@);
    let n = input_line_seq(set.inputs@);
    lemma_group_barriers(head, d2, set.barriers@);
    let d3 = Draft { barriers: d2.barriers + set.barriers@.map_values(|x: &'static str| x@), ..d2 };
    lemma_group_windowed(head + b, d3, set.windowed@);
    let d4 = Draft { windowed: d3.windowed + set.windowed@.map_values(|x: &'static str| x@), ..d3 };
    lemma_group_scoped(head + b + w, d4, set.scoped@);
    let d5 = Draft { scoped: d4.scoped + set.scoped@.map_values(|x: &'static str| x@), ..d4 };
    lemma_group_versions(head + b + w + c, d5, set.versions@);
    let d6 = Draft {
        versions: d5.versions + set.versions@.map_values(|x: (&'static str, u32)| (x.0@, x.1 as int)),
        ..d5
    };
    lemma_group_inputs(head + b + w + c + v, d6, set.inputs@);
    assert(ls == head + b + w + c + v + n);
    assert(blank.barriers + set.barriers@.map_values(|x: &'static str| x@) =~= set.barriers@.map_values(
        |x: &'static str| x@,
    ));
    assert(blank.windowed + set.windowed@.map_values(|x: &'static str| x@) =~= set.windowed@.map_values(
        |x: &'static str| x@,
    ));
    assert(blank.scoped + set.scoped@.map_values(|x: &'static str| x@) =~= set.scoped@.map_values(
        |x: &'static str| x@,
    ));
    assert(blank.versions + set.versions@.map_values(|x: (&'static str, u32)| (x.0@, x.1 as int))
        =~= set.versions@.map_values(|x: (&'static str, u32)| (x.0@, x.1 as int)));
    assert(blank.inputs + set.inputs@.map_values(|i: Input| input_view(i)) =~= set.inputs@.map_values(
        |i: Input| input_view(i),
    ));
}

/// A date as written holds no white space.
proof fn lemma_date_text_plain(days: int)
    requires
        0 <= civil_of(days).0 <= 9999,
    ensures
        plain(date_text(days)),
{
    law_date_reads_back(days);
    lemma_no_space_plain(date_text(days));
}

/// A text with no white space at all is a plain field.
proof fn lemma_no_space_plain(s: Seq<char>)
    requires
        forall|i: int| 0 <= i < s.len() ==> !is_space(#[trigger] s[i]),
    ensures
        plain(s),
{
    if s.contains(' ') {
        let k = choose|k: int| 0 <= k < s.len() && s[k] == ' ';
        assert(!is_space(s[k]));
    }
    if s.contains('\n') {
        let k = choose|k: int| 0 <= k < s.len() && s[k] == '\n';
        assert(!is_space(s[k]));
    }
    if s.len() > 0 {
        assert(!is_space(s[s.len() - 1]));
    }
}

/// Digits are a plain field.
proof fn lemma_digits_plain(s: Seq<char>)
    requires
        forall|i: int| 0 <= i < s.len() ==> '0' <= #[trigger] s[i] <= '9',
    ensures
        plain(s),
{
    assert forall|i: int| 0 <= i < s.len() implies !is_space(#[trigger] s[i]) by {
        assert('0' <= s[i] <= '9');
    }
    lemma_no_space_plain(s);
}

/// Whether a text can stand as one line: it holds no newline and does not end
/// in a carriage return.
pub open spec fn spaced(s: Seq<char>) -> bool {
    !s.contains('\n') && (s.len() == 0 || s.last() != '\r')
}

pub open spec fn all_spaced(ls: Seq<Seq<char>>) -> bool {
    forall|i: int| 0 <= i < ls.len() ==> spaced(#[trigger] ls[i])
}

proof fn lemma_spaced_join(a: Seq<char>, b: Seq<char>)
    requires
        spaced(a),
        spaced(b),
    ensures
        spaced(a + b),
{
    if (a + b).contains('\n') {
        let k = choose|k: int| 0 <= k < (a + b).len() && (a + b)[k] == '\n';
        if k < a.len() {
            assert(a[k] == '\n');
        } else {
            assert(b[k - a.len()] == '\n');
        }
    }
    if b.len() > 0 {
        assert((a + b).last() == b.last());
    } else {
        assert(a + b =~= a);
    }
}

proof fn lemma_all_spaced_add(a: Seq<Seq<char>>, b: Seq<Seq<char>>)
    requires
        all_spaced(a),
        all_spaced(b),
    ensures
        all_spaced(a + b),
{
    assert forall|i: int| 0 <= i < (a + b).len() implies spaced(#[trigger] (a + b)[i]) by {
        if i < a.len() {
            assert((a + b)[i] == a[i]);
        } else {
            assert((a + b)[i] == b[i - a.len()]);
        }
    }
}

/// A line whose only white space is the space holds no newline and ends in no
/// carriage return.
proof fn lemma_spaced_line(s: Seq<char>)
    requires
        spaced(s),
    ensures
        !s.contains('\n'),
        s.len() == 0 || s.last() != '\r',
{
}

/// A keyword, a space and a plain field.
proof fn lemma_spaced_field(kw: Seq<char>, a: Seq<char>)
    requires
        plain(kw),
        plain(a),
    ensures
        spaced(kw + seq![' '] + a),
{
    assert(spaced(seq![' '])) by {
        if seq![' '].contains('\n') {
            let k = choose|k: int| 0 <= k < 1 && seq![' '][k] == '\n';
        }
    }
    lemma_spaced_join(kw, seq![' ']);
    lemma_spaced_join(kw + seq![' '], a);
}

/// Every line of the artifact of a writable read set is spaced.
proof fn lemma_lines_spaced(set: ReadSet)
    requires
        writable_set(set),
    ensures
        all_spaced(artifact_lines(set)),
{
    lemma_keywords();
    let dt = date_text(set.clock.days());
    lemma_date_text_plain(set.clock.days());
    lemma_spaced_field("lock"@, set.lock@);
    lemma_spaced_field("clock"@, dt);
    let head = seq!["lock"@ + seq![' '] + set.lock@, "clock"@ + seq![' '] + dt];
    assert(all_spaced(head));
    let b = name_line_seq("barrier"@, set.barriers@);
    let w = name_line_seq("windowed"@, set.windowed@);
    let c = name_line_seq("change-scoped"@, set.scoped@);
    let v = version_line_seq(set.versions@);
    let n = input_line_seq(set.inputs@);
    assert forall|i: int| 0 <= i < b.len() implies spaced(#[trigger] b[i]) by {
        lemma_spaced_field("barrier"@, set.barriers@[i]@);
    }
    assert forall|i: int| 0 <= i < w.len() implies spaced(#[trigger] w[i]) by {
        lemma_spaced_field("windowed"@, set.windowed@[i]@);
    }
    assert forall|i: int| 0 <= i < c.len() implies spaced(#[trigger] c[i]) by {
        lemma_spaced_field("change-scoped"@, set.scoped@[i]@);
    }
    assert forall|i: int| 0 <= i < v.len() implies spaced(#[trigger] v[i]) by {
        let x = set.versions@[i];
        lemma_u32_field_decimal(x.1);
        lemma_spaced_field("version"@, x.0@);
        assert(spaced(seq![' ']));
        assert(plain(decimal(x.1 as nat)));
        lemma_spaced_join("version"@ + seq![' '] + x.0@, seq![' ']);
        lemma_spaced_join("version"@ + seq![' '] + x.0@ + seq![' '], decimal(x.1 as nat));
    }
    assert forall|i: int| 0 <= i < n.len() implies spaced(#[trigger] n[i]) by {
        let x = set.inputs@[i];
        assert(plain_input(x));
        let dtx = digest_text(x);
        assert(plain(dtx)) by {
            match x.digest {
                Some(h) => {},
                None => {
                    assert(dtx == seq!['-']);
                    assert(!is_space('-'));
                },
            }
        }
        lemma_spaced_field("input"@, x.path@);
        assert(spaced(seq![' ']));
        lemma_spaced_join("input"@ + seq![' '] + x.path@, seq![' ']);
        lemma_spaced_join("input"@ + seq![' '] + x.path@ + seq![' '], dtx);
    }
    lemma_all_spaced_add(head, b);
    lemma_all_spaced_add(head + b, w);
    lemma_all_spaced_add(head + b + w, c);
    lemma_all_spaced_add(head + b + w + c, v);
    lemma_all_spaced_add(head + b + w + c + v, n);
}

} // verus!
