//! An instance: one check, applied to one target, with one outcome.
//!
//! A read is a path and a content hash. Coverage counts per document, so it
//! needs the path, and a cache key needs the hash, because a key that omits an
//! input is a correctness bug rather than a performance bug.
use vstd::prelude::*;
use crate::finding::Finding;
use crate::text::owned;

verus! {

/// What one instance of a check covers: a document, an edge, the edges
/// around one document, the whole corpus, or the taxonomy alone.
#[derive(Clone, Copy, Debug, PartialEq, Eq, Structural)]
pub enum Grain {
    Document,
    Edge,
    Neighbourhood,
    Corpus,
    Taxonomy,
}

/// The word a grain is written as in a cache key.
pub open spec fn grain_name(g: Grain) -> Seq<char> {
    match g {
        Grain::Document => "document"@,
        Grain::Edge => "edge"@,
        Grain::Neighbourhood => "neighbourhood"@,
        Grain::Corpus => "corpus"@,
        Grain::Taxonomy => "taxonomy"@,
    }
}

impl Grain {
    /// The word this grain is written as.
    pub fn name(&self) -> (w: &'static str)
        ensures
            w@ == grain_name(*self),
    {
        match self {
            Grain::Document => "document",
            Grain::Edge => "edge",
            Grain::Neighbourhood => "neighbourhood",
            Grain::Corpus => "corpus",
            Grain::Taxonomy => "taxonomy",
        }
    }
}

/// The reason an instance of a rule that reads a document's prior version
/// skips when the run is not scoped to a change.
pub const CHANGE_SCOPED_ONLY: &'static str = "this rule reads the version a document stood at before a change, and this run is not scoped to one";

/// One check, applied to one target.
#[derive(Clone, Debug)]
pub struct Instance {
    pub rule: &'static str,
    /// What one instance of this rule covers.
    pub grain: Grain,
    /// Every document this instance read, in a fixed order and without
    /// repeats.
    pub reads: Vec<Input>,
    pub outcome: Outcome,
}

/// One in-scope input: a document, and the hash of the bytes it holds.
#[derive(Clone, Debug, PartialEq, Eq)]
pub struct Input {
    /// Relative to the repository root, with `/` separators.
    pub path: String,
    /// The census's digest of the bytes of that file, and `None` where the
    /// walk read none.
    pub digest: Option<String>,
}

/// What became of one instance.
#[derive(Clone, Debug)]
pub enum Outcome {
    /// It ran and found nothing.
    Passed,
    /// It ran and found something. Never empty.
    Failed(Vec<Finding>),
    /// It did not run, and the reason is visible rather than silent.
    Skipped(&'static str),
}

/// The path and the digest of an input, as characters.
pub open spec fn input_view(input: Input) -> (Seq<char>, Option<Seq<char>>) {
    (
        input.path@,
        match input.digest {
            Some(d) => Some(d@),
            None => None,
        },
    )
}

impl Outcome {
    /// The verdict of a check that collected its findings as it went: an empty
    /// list is a pass.
    pub fn failed(findings: Vec<Finding>) -> (o: Self)
        ensures
            findings@.len() == 0 ==> o is Passed,
            findings@.len() > 0 ==> o == Outcome::Failed(findings),
    {
        if findings.len() == 0 {
            Outcome::Passed
        } else {
            Outcome::Failed(findings)
        }
    }

    /// One finding, for a rule that can only ever have one.
    pub fn failed_with(finding: Finding) -> (o: Self)
        ensures
            o matches Outcome::Failed(v) && v@ == seq![finding],
    {
        let mut v: Vec<Finding> = Vec::new();
        v.push(finding);
        assert(v@ =~= seq![finding]);
        Outcome::Failed(v)
    }
}

impl Instance {
    /// One instance, from what the view carried and what the check made of it.
    pub fn of(rule: &'static str, grain: Grain, reads: Vec<Input>, outcome: Outcome) -> (i: Self)
        ensures
            i.rule == rule,
            i.grain == grain,
            i.reads == reads,
            i.outcome == outcome,
    {
        Instance { rule, grain, reads, outcome }
    }

    pub fn skipped(rule: &'static str, grain: Grain, reads: Vec<Input>, reason: &'static str) -> (i:
        Self)
        ensures
            i.rule == rule,
            i.grain == grain,
            i.reads == reads,
            i.outcome == Outcome::Skipped(reason),
    {
        Instance { rule, grain, reads, outcome: Outcome::Skipped(reason) }
    }

    /// Every document this instance read, and nothing about their contents.
    pub fn paths(&self) -> (p: Vec<&str>)
        ensures
            p@.len() == self.reads@.len(),
            forall|k: int| 0 <= k < p@.len() ==> (#[trigger] p@[k])@ == self.reads@[k].path@,
    {
        let mut p: Vec<&str> = Vec::new();
        let mut i: usize = 0;
        while i < self.reads.len()
            invariant
                i <= self.reads@.len(),
                p@.len() == i,
                forall|k: int| 0 <= k < i ==> (#[trigger] p@[k])@ == self.reads@[k].path@,
            decreases self.reads@.len() - i,
        {
            p.push(self.reads[i].path.as_str());
            i = i + 1;
        }
        p
    }

    /// Whether the instance reached a verdict.
    pub fn ran(&self) -> (r: bool)
        ensures
            r == !(self.outcome is Skipped),
    {
        match self.outcome {
            Outcome::Skipped(_) => false,
            _ => true,
        }
    }

    /// Every finding this instance reached, and none for one that passed or
    /// was skipped.
    pub fn findings(&self) -> (f: &[Finding])
        ensures
            match self.outcome {
                Outcome::Failed(v) => f@ == v@,
                _ => f@.len() == 0,
            },
    {
        match &self.outcome {
            Outcome::Failed(findings) => findings.as_slice(),
            _ => &[],
        }
    }

    /// The first document this instance read, which is the one a report sorts
    /// and groups by, and the empty string for an instance that read none.
    pub fn at(&self) -> (p: &str)
        ensures
            self.reads@.len() > 0 ==> p@ == self.reads@[0].path@,
            self.reads@.len() == 0 ==> p@ == Seq::<char>::empty(),
    {
        if self.reads.len() > 0 {
            self.reads[0].path.as_str()
        } else {
            proof {
                reveal_strlit("");
            }
            ""
        }
    }
}

impl Input {
    /// One input, from a census row's path and its digest.
    pub fn new(path: &str, digest: Option<&str>) -> (i: Self)
        ensures
            i.path@ == path@,
            match digest {
                Some(d) => i.digest matches Some(s) && s@ == d@,
                None => i.digest is None,
            },
    {
        Input {
            path: owned(path),
            digest: match digest {
                Some(d) => Some(owned(d)),
                None => None,
            },
        }
    }

    /// A copy that holds the same characters.
    pub fn copy(&self) -> (c: Self)
        ensures
            c == *self,
    {
        Input {
            path: self.path.clone(),
            digest: match &self.digest {
                Some(d) => Some(d.clone()),
                None => None,
            },
        }
    }
}

} // verus!
