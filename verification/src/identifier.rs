//! A document's identifier against the pattern of the scheme its kind mints
//! under.
//!
//! The pattern's grammar, what each placeholder admits, and the reason a
//! string is refused belong to the identifier grammar, which both this rule
//! and the tool that mints identifiers read, so that the shape a document is
//! held to and the shape it is minted in are one statement. This rule decides
//! which scheme a document answers to, reads the identifier from the key it is
//! configured with, and writes the finding. A document whose identifier is
//! absent is the identity rule's; here it is a skip that names the key, never
//! a finding, because a key nobody declared is the engine's assumption rather
//! than the author's defect.
use vstd::prelude::*;
use crate::context::trimmed;
use crate::facets::{entry, entry_under, Entry};
use crate::finding::{Finding, Severity};
use crate::index::error_at;
use crate::instance::Outcome;
use crate::text::{chars_of, extend_str, owned, str_eq, string_of, trim};

verus! {

pub const RULE: &'static str = "identifier.pattern.not_met";

pub const UNREADABLE_SCHEME: &'static str =
    "the scheme this kind mints under declares a pattern the identifier grammar cannot read";

pub const NO_FACET: &'static str =
    "no facet under the key this engine reads an identifier from, which no declaration states";

pub const NOT_A_WORD: &'static str = "the identifier facet holds no scalar, and an identifier is a word";

/// An identifier a document declares, with the scheme it answers to, the
/// template that scheme spells, and where its key stands.
#[derive(Clone, Debug)]
pub struct Pending {
    pub scheme: String,
    pub template: String,
    pub identifier: String,
    pub line: usize,
    pub column: usize,
}

/// The scheme of the first binding of a kind.
pub open spec fn scheme_in(schemes: Seq<(String, String, Result<String, String>)>, kind: Seq<char>) -> Option<
    (String, String, Result<String, String>),
>
    decreases schemes.len(),
{
    if schemes.len() == 0 {
        None
    } else if schemes[0].0@ == kind {
        Some(schemes[0])
    } else {
        scheme_in(schemes.skip(1), kind)
    }
}

/// What reading a document comes to: nothing to hold where its kind mints
/// under no scheme, the skip's reason, or the identifier with its scheme and
/// the position of its key.
pub open spec fn reading(
    schemes: Seq<(String, String, Result<String, String>)>,
    key: Seq<char>,
    kind: Seq<char>,
    facets: Seq<Entry>,
) -> Result<Option<(Seq<char>, Seq<char>, Seq<char>, usize, usize)>, &'static str> {
    match scheme_in(schemes, kind) {
        None => Ok(None),
        Some(s) => match s.2 {
            Err(_) => Err(UNREADABLE_SCHEME),
            Ok(template) => match entry_under(facets, key) {
                None => Err(NO_FACET),
                Some(e) => match e.scalar {
                    None => Err(NOT_A_WORD),
                    Some(t) => Ok(Some((s.1@, template@, trim(t@), e.key_line, e.key_column))),
                },
            },
        },
    }
}

/// The finding for an identifier the grammar refused, at its key.
pub open spec fn pattern_finding(f: Finding, path: Seq<char>, p: Pending, reason: Seq<char>) -> bool {
    error_at(
        f,
        RULE,
        path,
        p.line,
        p.column,
        "`"@ + p.identifier@ + "` does not match `"@ + p.template@ + "`, which scheme `"@ + p.scheme@
            + "` declares: "@ + reason,
        "write the identifier of "@ + path + " in the form `"@ + p.template@ + "`"@,
    )
}

/// The check, generated from the identifier schemes and the kinds that name
/// them.
pub struct Identifier {
    /// Each kind that mints under a scheme, the scheme's name, and what the
    /// identifier grammar made of its pattern: the template written out, or
    /// why it cannot be read.
    schemes: Vec<(String, String, Result<String, String>)>,
    /// The front-matter key an identifier is read from.
    facet: String,
}

impl Identifier {
    pub closed spec fn bound(&self) -> Seq<(String, String, Result<String, String>)> {
        self.schemes@
    }

    pub closed spec fn key(&self) -> Seq<char> {
        self.facet@
    }

    pub fn over(schemes: Vec<(String, String, Result<String, String>)>, facet: &str) -> (c: Self)
        ensures
            c.bound() == schemes@,
            c.key() == facet@,
    {
        Identifier { schemes, facet: owned(facet) }
    }

    fn scheme_of(&self, kind: &str) -> (r: Option<&(String, String, Result<String, String>)>)
        ensures
            match r {
                Some(x) => scheme_in(self.bound(), kind@) == Some(*x),
                None => scheme_in(self.bound(), kind@) is None,
            },
    {
        let mut i: usize = 0;
        assert(self.schemes@.skip(0) =~= self.schemes@);
        while i < self.schemes.len()
            invariant
                i <= self.schemes@.len(),
                scheme_in(self.schemes@, kind@) == scheme_in(self.schemes@.skip(i as int), kind@),
            decreases self.schemes@.len() - i,
        {
            assert(self.schemes@.skip(i as int)[0] == self.schemes@[i as int]);
            assert(self.schemes@.skip(i as int).skip(1) =~= self.schemes@.skip(i + 1));
            if str_eq(self.schemes[i].0.as_str(), kind) {
                return Some(&self.schemes[i]);
            }
            i = i + 1;
        }
        None
    }

    /// A kind that mints under no scheme generates no instance.
    pub fn instantiates(&self, kind: &str) -> (r: bool)
        ensures
            r == scheme_in(self.bound(), kind@) is Some,
    {
        self.scheme_of(kind).is_some()
    }

    /// What one document of `kind` holds for the grammar to judge, read from
    /// the entries of its front matter.
    pub fn read(&self, kind: &str, facets: &[Entry]) -> (r: Result<Option<Pending>, &'static str>)
        ensures
            match reading(self.bound(), self.key(), kind@, facets@) {
                Ok(None) => r == Ok::<Option<Pending>, &'static str>(None),
                Err(why) => r == Err::<Option<Pending>, &'static str>(why),
                Ok(Some(x)) => r matches Ok(Some(p)) && p.scheme@ == x.0 && p.template@ == x.1
                    && p.identifier@ == x.2 && p.line == x.3 && p.column == x.4,
            },
    {
        let s = match self.scheme_of(kind) {
            Some(s) => s,
            None => return Ok(None),
        };
        let template = match &s.2 {
            Ok(t) => t,
            Err(_) => return Err(UNREADABLE_SCHEME),
        };
        let e = match entry(facets, self.facet.as_str()) {
            Some(e) => e,
            None => return Err(NO_FACET),
        };
        let text = match &e.scalar {
            Some(t) => t,
            None => return Err(NOT_A_WORD),
        };
        let all = chars_of(text.as_str());
        let word = trimmed(all.as_slice());
        Ok(
            Some(
                Pending {
                    scheme: owned(s.1.as_str()),
                    template: owned(template.as_str()),
                    identifier: string_of(word.as_slice()),
                    line: e.key_line,
                    column: e.key_column,
                },
            ),
        )
    }

    /// The verdict on one identifier at `path`, given the grammar's reason
    /// for refusing it, and none where the grammar admits it.
    pub fn evaluate(&self, path: &str, pending: &Pending, refusal: Option<&str>) -> (o: Outcome)
        ensures
            match refusal {
                None => o is Passed,
                Some(reason) => o matches Outcome::Failed(v) && v@.len() == 1 && pattern_finding(
                    v@[0],
                    path@,
                    *pending,
                    reason@,
                ),
            },
    {
        let reason = match refusal {
            Some(r) => r,
            None => return Outcome::Passed,
        };
        let mut m: Vec<char> = chars_of("`");
        extend_str(&mut m, pending.identifier.as_str());
        extend_str(&mut m, "` does not match `");
        extend_str(&mut m, pending.template.as_str());
        extend_str(&mut m, "`, which scheme `");
        extend_str(&mut m, pending.scheme.as_str());
        extend_str(&mut m, "` declares: ");
        extend_str(&mut m, reason);
        let mut d: Vec<char> = chars_of("write the identifier of ");
        extend_str(&mut d, path);
        extend_str(&mut d, " in the form `");
        extend_str(&mut d, pending.template.as_str());
        extend_str(&mut d, "`");
        Outcome::failed_with(
            Finding {
                rule: RULE,
                severity: Severity::Error,
                obligation: None,
                path: owned(path),
                line: pending.line,
                column: pending.column,
                message: string_of(m.as_slice()),
                remediation: string_of(d.as_slice()),
                patch: None,
            },
        )
    }
}

} // verus!
