//! The committed observation snapshot: which control naming a mechanism
//! outside this engine has been seen to run, and at what commit, and which
//! verification the corpus has seen a build settle.
//!
//! A control and a verification share a file and a reader, and never a shape.
//! A file that is absent is the documented empty case; a file that is present
//! and could not be used reads as no observation, with a problem that says why.
use vstd::prelude::*;
use crate::text::{chars_of, extend, extend_str, is_whitespace, owned, str_eq, string_of, trim, trim_end};
use crate::context::trimmed;
use crate::node::{scalar, scalar_at, Node};

verus! {

/// One entry of a committed observation snapshot.
#[derive(Clone, Debug, PartialEq, Eq)]
pub enum Observation {
    /// An external control, and the commit it ran at.
    Control { control: String, commit: String },
    /// A verification, the commit it was observed at, and the digest of the
    /// acceptance criterion it proves, taken when the snapshot was written.
    Verification { verification: String, commit: String, criterion_digest: String },
}

/// What the snapshot records for one verification.
#[derive(Clone, Copy, Debug, PartialEq, Eq)]
pub enum Recorded<'a> {
    /// The snapshot read, and no entry names the identifier.
    Absent,
    /// An entry names it, with the commit and the criterion digest it holds.
    Entry { commit: &'a str, criterion_digest: &'a str },
    /// The file, or the entry for this identifier, did not read.
    Unread(&'a str),
}

/// What the snapshot could not use, kept apart by shape.
#[derive(Clone, Debug, PartialEq, Eq)]
pub enum Problem {
    /// The whole file: unreadable, unparsable, or not a mapping.
    File(String),
    /// One entry inside a file that otherwise read.
    Entry { id: String, reason: String },
}

/// What was found at the snapshot's path.
#[derive(Clone, Debug, PartialEq, Eq)]
pub enum Presence {
    /// Nothing at the path, so not an input this run read.
    Absent,
    /// Something at the path, and this run could not get its bytes.
    Unreadable,
    /// The bytes this run read, hashed.
    Read(String),
}

/// The observation snapshot of one corpus, read once at the start of a run.
#[derive(Clone, Debug)]
pub struct Observations {
    entries: Vec<Observation>,
    problems: Vec<Problem>,
    presence: Presence,
}

/// The path a run reads the snapshot at, relative to the corpus root.
pub const PATH: &'static str = ".headwater/observations.yml";

/// The identifier an entry names.
pub open spec fn observation_id(o: Observation) -> Seq<char> {
    match o {
        Observation::Control { control, .. } => control@,
        Observation::Verification { verification, .. } => verification@,
    }
}

/// The commit an entry names.
pub open spec fn observation_commit(o: Observation) -> Seq<char> {
    match o {
        Observation::Control { commit, .. } => commit@,
        Observation::Verification { commit, .. } => commit@,
    }
}

/// Whether an entry is a control.
pub open spec fn is_control(o: Observation) -> bool {
    o is Control
}

/// Whether a character is an ASCII hexadecimal digit.
pub open spec fn hex_digit(c: char) -> bool {
    ('0' <= c <= '9') || ('a' <= c <= 'f') || ('A' <= c <= 'F')
}

/// Whether `commit` reads as a plausible commit reference: between four and
/// forty characters, every one a hexadecimal digit.
pub open spec fn plausible(commit: Seq<char>) -> bool {
    4 <= commit.len() <= 40 && forall|i: int| 0 <= i < commit.len() ==> hex_digit(#[trigger] commit[i])
}

/// Whether `commit` reads as a plausible commit reference.
pub fn plausible_commit(commit: &str) -> (r: bool)
    ensures
        r == plausible(commit@),
{
    let chars = chars_of(commit);
    if chars.len() < 4 || chars.len() > 40 {
        return false;
    }
    let mut i: usize = 0;
    while i < chars.len()
        invariant
            i <= chars@.len(),
            chars@ == commit@,
            4 <= chars@.len() <= 40,
            forall|k: int| 0 <= k < i ==> hex_digit(#[trigger] chars@[k]),
        decreases chars@.len() - i,
    {
        let c = chars[i];
        if !(('0' <= c && c <= '9') || ('a' <= c && c <= 'f') || ('A' <= c && c <= 'F')) {
            assert(!hex_digit(commit@[i as int]));
            return false;
        }
        i = i + 1;
    }
    true
}

impl Observation {
    /// The identifier this entry names, whichever population it is drawn from.
    pub fn id(&self) -> (s: &str)
        ensures
            s@ == observation_id(*self),
    {
        match self {
            Observation::Control { control, .. } => control.as_str(),
            Observation::Verification { verification, .. } => verification.as_str(),
        }
    }

    /// The commit either shape names.
    pub fn commit(&self) -> (s: &str)
        ensures
            s@ == observation_commit(*self),
    {
        match self {
            Observation::Control { commit, .. } => commit.as_str(),
            Observation::Verification { commit, .. } => commit.as_str(),
        }
    }

    /// The population an entry is drawn from, so a duplicate check can tell a
    /// control entry and a verification entry apart even where the two
    /// identifier spaces collided on one string.
    fn population(&self) -> (p: &'static str)
        ensures
            p@ == (if is_control(*self) {
                "control"@
            } else {
                "verification"@
            }),
    {
        match self {
            Observation::Control { .. } => "control",
            Observation::Verification { .. } => "verification",
        }
    }
}

/// The first verification entry naming `id`, as its commit and digest.
pub open spec fn verification_of(entries: Seq<Observation>, id: Seq<char>) -> Option<
    (Seq<char>, Seq<char>),
>
    decreases entries.len(),
{
    if entries.len() == 0 {
        None
    } else {
        match entries[0] {
            Observation::Verification { verification, commit, criterion_digest } => if verification@
                == id {
                Some((commit@, criterion_digest@))
            } else {
                verification_of(entries.skip(1), id)
            },
            _ => verification_of(entries.skip(1), id),
        }
    }
}

/// The reason of the first whole-file problem, if any.
pub open spec fn file_problem(problems: Seq<Problem>) -> Option<Seq<char>>
    decreases problems.len(),
{
    if problems.len() == 0 {
        None
    } else {
        match problems[0] {
            Problem::File(reason) => Some(reason@),
            _ => file_problem(problems.skip(1)),
        }
    }
}

/// The reason of the first problem with the entry for `id`, if any.
pub open spec fn entry_problem(problems: Seq<Problem>, id: Seq<char>) -> Option<Seq<char>>
    decreases problems.len(),
{
    if problems.len() == 0 {
        None
    } else {
        match problems[0] {
            Problem::Entry { id: named, reason } => if named@ == id {
                Some(reason@)
            } else {
                entry_problem(problems.skip(1), id)
            },
            _ => entry_problem(problems.skip(1), id),
        }
    }
}

/// What a snapshot records for one verification, as characters.
pub enum Record {
    Absent,
    Entry(Seq<char>, Seq<char>),
    Unread(Seq<char>),
}

pub open spec fn record_view(r: Recorded) -> Record {
    match r {
        Recorded::Absent => Record::Absent,
        Recorded::Entry { commit, criterion_digest } => Record::Entry(commit@, criterion_digest@),
        Recorded::Unread(reason) => Record::Unread(reason@),
    }
}

/// A whole-file problem comes first, then the entry, then a problem with the
/// entry, then absence.
pub open spec fn record_of(entries: Seq<Observation>, problems: Seq<Problem>, id: Seq<char>) -> Record {
    match file_problem(problems) {
        Some(reason) => Record::Unread(reason),
        None => match verification_of(entries, id) {
            Some((commit, digest)) => Record::Entry(commit, digest),
            None => match entry_problem(problems, id) {
                Some(reason) => Record::Unread(reason),
                None => Record::Absent,
            },
        },
    }
}

impl Observations {
    pub closed spec fn entries_view(&self) -> Seq<Observation> {
        self.entries@
    }

    pub closed spec fn problems_view(&self) -> Seq<Problem> {
        self.problems@
    }

    pub closed spec fn presence_view(&self) -> Presence {
        self.presence
    }

    /// No snapshot.
    pub fn empty() -> (o: Self)
        ensures
            o.entries_view().len() == 0,
            o.problems_view().len() == 0,
            o.presence_view() is Absent,
    {
        Observations { entries: Vec::new(), problems: Vec::new(), presence: Presence::Absent }
    }

    /// A snapshot built from entries a caller already has, which no path backs.
    pub fn of(entries: Vec<Observation>) -> (o: Self)
        ensures
            o.entries_view() == entries@,
            o.problems_view().len() == 0,
            o.presence_view() is Absent,
    {
        Observations { entries, problems: Vec::new(), presence: Presence::Absent }
    }

    /// A snapshot as a reader of the file found it: its entries, what it could
    /// not use, and what was at the path.
    pub fn read(entries: Vec<Observation>, problems: Vec<Problem>, presence: Presence) -> (o: Self)
        ensures
            o.entries_view() == entries@,
            o.problems_view() == problems@,
            o.presence_view() == presence,
    {
        Observations { entries, problems, presence }
    }

    /// One whole-file problem, with no entries, as an unreadable file reads.
    pub fn malformed_for_test(problem: String) -> (o: Self)
        ensures
            o.entries_view().len() == 0,
            o.problems_view() == seq![Problem::File(problem)],
            o.presence_view() is Unreadable,
    {
        let mut problems: Vec<Problem> = Vec::new();
        problems.push(Problem::File(problem));
        assert(problems@ =~= seq![Problem::File(problem)]);
        Observations { entries: Vec::new(), problems, presence: Presence::Unreadable }
    }

    /// Whether a committed snapshot names this control. Only control entries
    /// count.
    pub fn observed(&self, control: &str) -> (r: bool)
        ensures
            r == exists|k: int|
                0 <= k < self.entries_view().len() && is_control(
                    #[trigger] self.entries_view()[k],
                ) && observation_id(self.entries_view()[k]) == control@,
    {
        let mut i: usize = 0;
        while i < self.entries.len()
            invariant
                i <= self.entries@.len(),
                forall|k: int|
                    0 <= k < i ==> !(is_control(#[trigger] self.entries@[k]) && observation_id(
                        self.entries@[k],
                    ) == control@),
            decreases self.entries@.len() - i,
        {
            match &self.entries[i] {
                Observation::Control { control: id, .. } => {
                    assert(observation_id(self.entries@[i as int]) == id@);
                    if str_eq(id.as_str(), control) {
                        assert(is_control(self.entries_view()[i as int]));
                        assert(observation_id(self.entries_view()[i as int]) == control@);
                        return true;
                    }
                },
                _ => {},
            }
            i = i + 1;
        }
        false
    }

    /// What a committed snapshot says about one verification: its commit and
    /// criterion digest, where an entry names it.
    pub fn verification(&self, id: &str) -> (r: Option<(&str, &str)>)
        ensures
            match r {
                Some((c, d)) => verification_of(self.entries_view(), id@) == Some((c@, d@)),
                None => verification_of(self.entries_view(), id@) is None,
            },
    {
        let mut i: usize = 0;
        proof {
            assert(self.entries@.skip(0) =~= self.entries@);
        }
        while i < self.entries.len()
            invariant
                i <= self.entries@.len(),
                verification_of(self.entries@, id@) == verification_of(
                    self.entries@.skip(i as int),
                    id@,
                ),
            decreases self.entries@.len() - i,
        {
            let ghost rest = self.entries@.skip(i as int);
            assert(rest.skip(1) =~= self.entries@.skip(i + 1));
            assert(rest[0] == self.entries@[i as int]);
            match &self.entries[i] {
                Observation::Verification { verification, commit, criterion_digest } => {
                    if str_eq(verification.as_str(), id) {
                        return Some((commit.as_str(), criterion_digest.as_str()));
                    }
                },
                _ => {},
            }
            i = i + 1;
        }
        proof {
            assert(self.entries@.skip(0) =~= self.entries@);
        }
        None
    }

    /// The whole-file problem, where the snapshot could not be read at all.
    pub fn unread(&self) -> (r: Option<&str>)
        ensures
            match r {
                Some(s) => file_problem(self.problems_view()) == Some(s@),
                None => file_problem(self.problems_view()) is None,
            },
    {
        let mut i: usize = 0;
        proof {
            assert(self.problems@.skip(0) =~= self.problems@);
        }
        while i < self.problems.len()
            invariant
                i <= self.problems@.len(),
                file_problem(self.problems@) == file_problem(self.problems@.skip(i as int)),
            decreases self.problems@.len() - i,
        {
            let ghost rest = self.problems@.skip(i as int);
            assert(rest.skip(1) =~= self.problems@.skip(i + 1));
            assert(rest[0] == self.problems@[i as int]);
            match &self.problems[i] {
                Problem::File(reason) => {
                    return Some(reason.as_str());
                },
                _ => {},
            }
            i = i + 1;
        }
        None
    }

    /// The reason of the first problem with the entry for `id`.
    fn entry_unread(&self, id: &str) -> (r: Option<&str>)
        ensures
            match r {
                Some(s) => entry_problem(self.problems_view(), id@) == Some(s@),
                None => entry_problem(self.problems_view(), id@) is None,
            },
    {
        let mut i: usize = 0;
        proof {
            assert(self.problems@.skip(0) =~= self.problems@);
        }
        while i < self.problems.len()
            invariant
                i <= self.problems@.len(),
                entry_problem(self.problems@, id@) == entry_problem(
                    self.problems@.skip(i as int),
                    id@,
                ),
            decreases self.problems@.len() - i,
        {
            let ghost rest = self.problems@.skip(i as int);
            assert(rest.skip(1) =~= self.problems@.skip(i + 1));
            assert(rest[0] == self.problems@[i as int]);
            match &self.problems[i] {
                Problem::Entry { id: named, reason } => {
                    if str_eq(named.as_str(), id) {
                        return Some(reason.as_str());
                    }
                },
                _ => {},
            }
            i = i + 1;
        }
        None
    }

    /// What the snapshot says about one verification, with a snapshot that
    /// could not be read, or an entry that did not read, kept apart from no
    /// entry at all.
    pub fn recorded(&self, id: &str) -> (r: Recorded<'_>)
        ensures
            record_view(r) == record_of(self.entries_view(), self.problems_view(), id@),
    {
        if let Some(reason) = self.unread() {
            return Recorded::Unread(reason);
        }
        if let Some((commit, criterion_digest)) = self.verification(id) {
            return Recorded::Entry { commit, criterion_digest };
        }
        match self.entry_unread(id) {
            Some(reason) => Recorded::Unread(reason),
            None => Recorded::Absent,
        }
    }

    pub fn entries(&self) -> (e: &[Observation])
        ensures
            e@ == self.entries_view(),
    {
        self.entries.as_slice()
    }

    pub fn problems(&self) -> (p: &[Problem])
        ensures
            p@ == self.problems_view(),
    {
        self.problems.as_slice()
    }

    /// What a read set should record for this path: nothing when the file is
    /// absent, an entry with no digest when it could not be read, and the
    /// digest of the bytes otherwise.
    pub fn read_set_digest(&self) -> (r: Option<Option<&str>>)
        ensures
            match self.presence_view() {
                Presence::Absent => r is None,
                Presence::Unreadable => r == Some(None::<&str>),
                Presence::Read(d) => r matches Some(Some(s)) && s@ == d@,
            },
    {
        match &self.presence {
            Presence::Absent => None,
            Presence::Unreadable => Some(None),
            Presence::Read(digest) => Some(Some(digest.as_str())),
        }
    }
}

/// Whether the entry at `at` repeats the identifier and population of an
/// earlier one.
pub open spec fn repeats(entries: Seq<Observation>, at: int) -> bool {
    exists|j: int|
        0 <= j < at && observation_id(#[trigger] entries[j]) == observation_id(entries[at])
            && is_control(entries[j]) == is_control(entries[at])
}

/// The identifiers that repeat within one population, each once, in the order
/// their first repeat appears.
pub open spec fn repeated_ids(entries: Seq<Observation>) -> Seq<Seq<char>>
    decreases entries.len(),
{
    if entries.len() == 0 {
        Seq::<Seq<char>>::empty()
    } else {
        let before = repeated_ids(entries.drop_last());
        let at = entries.len() - 1;
        if repeats(entries, at) && !before.contains(observation_id(entries[at])) {
            before.push(observation_id(entries[at]))
        } else {
            before
        }
    }
}

/// A duplicate identifier within one population: two entries that name the
/// same identifier and are both controls or both verifications.
pub fn duplicate_ids(entries: &[Observation]) -> (out: Vec<String>)
    ensures
        out@.map_values(|s: String| s@) == repeated_ids(entries@),
{
    let mut out: Vec<String> = Vec::new();
    let mut at: usize = 0;
    while at < entries.len()
        invariant
            at <= entries@.len(),
            out@.map_values(|s: String| s@) == repeated_ids(entries@.take(at as int)),
        decreases entries@.len() - at,
    {
        let entry = &entries[at];
        let ghost prefix = entries@.take(at as int + 1);
        assert(prefix.drop_last() =~= entries@.take(at as int));
        let mut earlier = false;
        let mut j: usize = 0;
        while j < at && !earlier
            invariant
                j <= at < entries@.len(),
                prefix == entries@.take(at as int + 1),
                entry == &entries@[at as int],
                earlier ==> repeats(prefix, at as int),
                !earlier ==> forall|k: int|
                    0 <= k < j ==> !(observation_id(#[trigger] prefix[k]) == observation_id(
                        prefix[at as int],
                    ) && is_control(prefix[k]) == is_control(prefix[at as int])),
            decreases (at - j) * 2 + if earlier {
                0int
            } else {
                1int
            },
        {
            let same_population = str_eq(entries[j].population(), entry.population());
            proof {
                reveal_strlit("control");
                reveal_strlit("verification");
                assert("control"@.len() != "verification"@.len());
            }
            assert(prefix[j as int] == entries@[j as int]);
            assert(prefix[at as int] == entries@[at as int]);
            if same_population && str_eq(entries[j].id(), entry.id()) {
                earlier = true;
                assert(observation_id(prefix[j as int]) == observation_id(prefix[at as int]));
            } else {
                j = j + 1;
            }
        }
        let ghost seen = out@.map_values(|s: String| s@);
        if earlier {
            let mut known = false;
            let mut k: usize = 0;
            while k < out.len() && !known
                invariant
                    k <= out@.len(),
                    seen == out@.map_values(|s: String| s@),
                    entry == &entries@[at as int],
                    known ==> seen.contains(observation_id(entries@[at as int])),
                    !known ==> forall|m: int| 0 <= m < k ==> seen[m] != observation_id(entries@[at as int]),
                decreases (out@.len() - k) * 2 + if known {
                    0int
                } else {
                    1int
                },
            {
                if str_eq(out[k].as_str(), entry.id()) {
                    known = true;
                    assert(seen[k as int] == observation_id(entries@[at as int]));
                } else {
                    k = k + 1;
                }
            }
            proof {
                assert(prefix[at as int] == entries@[at as int]);
                if !known {
                    assert(!seen.contains(observation_id(prefix[at as int])));
                }
            }
            if !known {
                out.push(owned(entry.id()));
                assert(out@.map_values(|s: String| s@) =~= seen.push(observation_id(prefix[at as int])));
            }
        } else {
            proof {
                assert(prefix[at as int] == entries@[at as int]);
                assert(!repeats(prefix, at as int));
            }
        }
        at = at + 1;
    }
    assert(entries@.take(at as int) =~= entries@);
    out
}

} // verus!

verus! {

/// What one entry of a snapshot reads as: the observation it states, or why
/// it states none. A mapping with no `kind` is a control.
pub open spec fn entry_reading(id: Seq<char>, node: Node) -> Result<(bool, Seq<char>, Seq<char>), Seq<char>> {
    match node {
        Node::Mapping(fields) => {
            let m = fields@;
            let kind = match scalar_at(m, "kind"@) {
                Some(k) => k,
                None => "control"@,
            };
            if kind == "control"@ {
                match scalar_at(m, "commit"@) {
                    None => Err("it names no `commit`"@),
                    Some(commit) => Ok((true, commit, Seq::<char>::empty())),
                }
            } else if kind == "verification"@ {
                match scalar_at(m, "commit"@) {
                    None => Err("it names no `commit`"@),
                    Some(commit) => match scalar_at(m, "criterion_digest"@) {
                        None => Err("it names no `criterion_digest`"@),
                        Some(digest) => if trim(digest).len() == 0 {
                            Err("its `criterion_digest` is empty"@)
                        } else if !plausible(commit) {
                            Err("its `commit` (`"@ + commit
                                + "`) does not read as a plausible commit reference, so it cannot be treated as observed"@)
                        } else {
                            Ok((false, commit, digest))
                        },
                    },
                }
            } else {
                Err("it names `kind: "@ + kind + "`, which is neither `control` nor `verification`"@)
            }
        },
        _ => Err("it names no mapping under the identifier"@),
    }
}

/// An observation as characters: whether it is a control, its identifier,
/// its commit, and the criterion digest of a verification.
pub open spec fn observation_view(o: Observation) -> (bool, Seq<char>, Seq<char>, Seq<char>) {
    match o {
        Observation::Control { control, commit } => (true, control@, commit@, Seq::<char>::empty()),
        Observation::Verification { verification, commit, criterion_digest } => (
            false,
            verification@,
            commit@,
            criterion_digest@,
        ),
    }
}

/// The observations a snapshot's entries state, in order.
pub open spec fn entries_read(m: Seq<(String, Node)>) -> Seq<(bool, Seq<char>, Seq<char>, Seq<char>)>
    decreases m.len(),
{
    if m.len() == 0 {
        Seq::empty()
    } else {
        let (id, node) = m.last();
        match entry_reading(id@, node) {
            Ok((control, commit, digest)) => entries_read(m.drop_last()).push((control, id@, commit, digest)),
            Err(_) => entries_read(m.drop_last()),
        }
    }
}

/// Each entry that states none, with why, in order.
pub open spec fn entries_refused(m: Seq<(String, Node)>) -> Seq<(Seq<char>, Seq<char>)>
    decreases m.len(),
{
    if m.len() == 0 {
        Seq::empty()
    } else {
        let (id, node) = m.last();
        match entry_reading(id@, node) {
            Ok(_) => entries_refused(m.drop_last()),
            Err(reason) => entries_refused(m.drop_last()).push((id@, reason)),
        }
    }
}

/// A problem of one entry, as characters.
pub open spec fn entry_problem_view(p: Problem) -> (Seq<char>, Seq<char>) {
    match p {
        Problem::Entry { id, reason } => (id@, reason@),
        Problem::File(reason) => (Seq::<char>::empty(), reason@),
    }
}

/// Whether a problem is about one entry.
pub open spec fn about_an_entry(p: Problem) -> bool {
    p is Entry
}

/// One entry of a snapshot: the observation it states, or why it states none.
fn read_entry(id: &str, node: &Node) -> (r: Result<Observation, String>)
    ensures
        match r {
            Ok(o) => entry_reading(id@, *node) matches Ok((c, commit, digest)) && observation_view(o) == (
                c,
                id@,
                commit,
                digest,
            ),
            Err(e) => entry_reading(id@, *node) == Err::<(bool, Seq<char>, Seq<char>), Seq<char>>(e@),
        },
{
    let fields = match node {
        Node::Mapping(fields) => fields,
        _ => return Err(owned("it names no mapping under the identifier")),
    };
    let kind = match scalar(fields, "kind") {
        Some(k) => k,
        None => "control",
    };
    proof {
        reveal_strlit("control");
    }
    if str_eq(kind, "control") {
        return match scalar(fields, "commit") {
            None => Err(owned("it names no `commit`")),
            Some(commit) => {
                let o = Observation::Control { control: owned(id), commit: owned(commit) };
                Ok(o)
            },
        };
    }
    if str_eq(kind, "verification") {
        let commit = match scalar(fields, "commit") {
            None => return Err(owned("it names no `commit`")),
            Some(c) => c,
        };
        let digest = match scalar(fields, "criterion_digest") {
            None => return Err(owned("it names no `criterion_digest`")),
            Some(d) => d,
        };
        let dc = chars_of(digest);
        let t = trimmed(dc.as_slice());
        if t.len() == 0 {
            return Err(owned("its `criterion_digest` is empty"));
        }
        if !plausible_commit(commit) {
            let mut m: Vec<char> = chars_of("its `commit` (`");
            extend_str(&mut m, commit);
            extend_str(
                &mut m,
                "`) does not read as a plausible commit reference, so it cannot be treated as observed",
            );
            return Err(string_of(m.as_slice()));
        }
        return Ok(
            Observation::Verification {
                verification: owned(id),
                commit: owned(commit),
                criterion_digest: owned(digest),
            },
        );
    }
    let mut m: Vec<char> = chars_of("it names `kind: ");
    extend_str(&mut m, kind);
    extend_str(&mut m, "`, which is neither `control` nor `verification`");
    Err(string_of(m.as_slice()))
}

impl Observations {
    /// A snapshot from the mapping its file loaded as, and what was at the
    /// path. Each entry states a control or a verification, and one that does
    /// not is a problem of that entry while the rest still read.
    pub fn of_mapping(map: &Vec<(String, Node)>, presence: Presence) -> (o: Self)
        ensures
            o.entries_view().map_values(|e: Observation| observation_view(e)) == entries_read(map@),
            o.problems_view().map_values(|p: Problem| entry_problem_view(p)) == entries_refused(map@),
            forall|i: int| 0 <= i < o.problems_view().len() ==> about_an_entry(#[trigger] o.problems_view()[i]),
            o.presence_view() == presence,
    {
        let mut entries: Vec<Observation> = Vec::new();
        let mut problems: Vec<Problem> = Vec::new();
        let mut i: usize = 0;
        assert(map@.take(0) =~= Seq::<(String, Node)>::empty());
        assert(entries@.map_values(|e: Observation| observation_view(e)) =~= entries_read(map@.take(0)));
        assert(problems@.map_values(|p: Problem| entry_problem_view(p)) =~= entries_refused(map@.take(0)));
        while i < map.len()
            invariant
                i <= map@.len(),
                entries@.map_values(|e: Observation| observation_view(e)) == entries_read(map@.take(i as int)),
                problems@.map_values(|p: Problem| entry_problem_view(p)) == entries_refused(map@.take(i as int)),
                forall|k: int| 0 <= k < problems@.len() ==> about_an_entry(#[trigger] problems@[k]),
            decreases map@.len() - i,
        {
            assert(map@.take(i + 1).drop_last() =~= map@.take(i as int));
            assert(map@.take(i + 1).last() == map@[i as int]);
            let id = map[i].0.as_str();
            let ghost eb = entries@.map_values(|e: Observation| observation_view(e));
            let ghost pb = problems@.map_values(|p: Problem| entry_problem_view(p));
            match read_entry(id, &map[i].1) {
                Ok(o) => {
                    let ghost ov = observation_view(o);
                    entries.push(o);
                    assert(entries@.map_values(|e: Observation| observation_view(e)) =~= eb.push(ov));
                },
                Err(reason) => {
                    let ghost p = (id@, reason@);
                    problems.push(Problem::Entry { id: owned(id), reason });
                    assert(problems@.map_values(|p: Problem| entry_problem_view(p)) =~= pb.push(p));
                },
            }
            i = i + 1;
        }
        assert(map@.take(i as int) =~= map@);
        Observations { entries, problems, presence }
    }
}


/// What every whole-file problem goes on to say.
pub const UNOBSERVED: &'static str = ". Every control or verification it would have named reads unobserved rather than verified.";

/// Text with each line break written as `; `, so a message of several lines
/// reads as one.
pub open spec fn flattened(s: Seq<char>) -> Seq<char>
    decreases s.len(),
{
    if s.len() == 0 {
        Seq::<char>::empty()
    } else {
        flattened(s.drop_last()) + if s.last() == '\n' {
            seq![';', ' ']
        } else {
            seq![s.last()]
        }
    }
}

/// The problem that makes a whole snapshot unusable, where there is one: the
/// bytes at the path could not be had (the reason they could not stands in
/// `loaded`), they did not load as YAML, or what loaded is not a mapping.
pub open spec fn load_problem(loaded: Result<Node, String>, presence: Presence) -> Option<Seq<char>> {
    match presence {
        Presence::Absent => None,
        Presence::Unreadable => Some(
            "`"@ + PATH@ + "` exists and could not be read: "@ + match loaded {
                Err(e) => e@,
                Ok(_) => Seq::<char>::empty(),
            } + UNOBSERVED@,
        ),
        Presence::Read(_) => match loaded {
            Err(e) => Some("`"@ + PATH@ + "` did not parse as YAML: "@ + flattened(trim_end(e@)) + UNOBSERVED@),
            Ok(Node::Mapping(_)) => None,
            Ok(_) => Some(
                "`"@ + PATH@ + "`'s top level is not a mapping of an identifier to an entry"@
                    + UNOBSERVED@,
            ),
        },
    }
}

/// The text with its trailing white space dropped.
fn trimmed_end(s: &[char]) -> (t: Vec<char>)
    ensures
        t@ == trim_end(s@),
{
    let mut n: usize = s.len();
    assert(s@.take(n as int) =~= s@);
    while n > 0 && is_whitespace(s[n - 1])
        invariant
            n <= s.len(),
            trim_end(s@) == trim_end(s@.take(n as int)),
        decreases n,
    {
        assert(s@.take(n as int).drop_last() =~= s@.take(n - 1));
        assert(s@.take(n as int).last() == s@[n - 1]);
        n = n - 1;
    }
    let mut t: Vec<char> = Vec::new();
    extend(&mut t, &s[0..n]);
    if n > 0 {
        assert(s@.take(n as int).last() == s@[n - 1]);
    }
    assert(s@.subrange(0, n as int) =~= s@.take(n as int));
    t
}

/// The text with each line break written as `; `.
fn flatten(s: &[char]) -> (t: Vec<char>)
    ensures
        t@ == flattened(s@),
{
    let mut t: Vec<char> = Vec::new();
    let mut i: usize = 0;
    while i < s.len()
        invariant
            i <= s.len(),
            t@ == flattened(s@.take(i as int)),
        decreases s.len() - i,
    {
        assert(s@.take(i + 1).drop_last() =~= s@.take(i as int));
        assert(s@.take(i + 1).last() == s@[i as int]);
        if s[i] == '\n' {
            t.push(';');
            t.push(' ');
        } else {
            t.push(s[i]);
        }
        i = i + 1;
    }
    assert(s@.take(i as int) =~= s@);
    t
}

impl Observations {
    /// A snapshot from what loading its file gave, and what was at the path.
    ///
    /// Nothing at the path is no observation. Bytes that could not be had,
    /// that did not load, or that loaded as something other than a mapping
    /// are one whole-file problem with no entry, so every control and
    /// verification reads unobserved rather than verified. A mapping reads
    /// entry by entry, as [`Observations::of_mapping`] does.
    pub fn of_load(loaded: Result<Node, String>, presence: Presence) -> (o: Self)
        ensures
            o.presence_view() == presence,
            match load_problem(loaded, presence) {
                Some(p) => {
                    &&& o.entries_view().len() == 0
                    &&& o.problems_view().len() == 1
                    &&& o.problems_view()[0] matches Problem::File(m) && m@ == p
                },
                None => match (presence, loaded) {
                    (Presence::Read(_), Ok(Node::Mapping(map))) => {
                        &&& o.entries_view().map_values(|e: Observation| observation_view(e))
                            == entries_read(map@)
                        &&& o.problems_view().map_values(|p: Problem| entry_problem_view(p))
                            == entries_refused(map@)
                        &&& forall|i: int|
                            0 <= i < o.problems_view().len() ==> about_an_entry(
                                #[trigger] o.problems_view()[i],
                            )
                    },
                    _ => o.entries_view().len() == 0 && o.problems_view().len() == 0,
                },
            },
    {
        let mut m: Vec<char> = chars_of("`");
        extend_str(&mut m, PATH);
        match presence {
            Presence::Absent => {
                return Observations::empty();
            },
            Presence::Unreadable => {
                extend_str(&mut m, "` exists and could not be read: ");
                if let Err(e) = &loaded {
                    extend_str(&mut m, e.as_str());
                }
                proof {
                    if loaded is Ok {
                        assert(m@ =~= m@ + Seq::<char>::empty());
                    }
                }
            },
            Presence::Read(_) => {
                match loaded {
                    Ok(Node::Mapping(map)) => {
                        return Observations::of_mapping(&map, presence);
                    },
                    Ok(_) => {
                        extend_str(
                            &mut m,
                            "`'s top level is not a mapping of an identifier to an entry",
                        );
                    },
                    Err(e) => {
                        extend_str(&mut m, "` did not parse as YAML: ");
                        let chars = chars_of(e.as_str());
                        let body = trimmed_end(chars.as_slice());
                        let flat = flatten(body.as_slice());
                        extend(&mut m, flat.as_slice());
                    },
                }
            },
        }
        extend_str(&mut m, UNOBSERVED);
        let mut problems: Vec<Problem> = Vec::new();
        problems.push(Problem::File(string_of(m.as_slice())));
        Observations { entries: Vec::new(), problems, presence }
    }
}

} // verus!

