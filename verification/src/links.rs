//! A prose link of the corpus, as the link rules read it: the document that
//! writes it, where, what it points at, and what the graph build bound that
//! destination to.
use vstd::prelude::*;
use crate::finding::{Finding, Severity};

verus! {

/// What the graph build bound a link's destination to.
#[derive(Clone, Debug, PartialEq, Eq)]
pub enum Binding {
    /// A fragment of the document that writes the link.
    SameDocument,
    /// A document of the corpus.
    Corpus { path: String },
    /// A path of this repository at which nothing stands.
    Missing { path: String },
    /// A destination that does not become a repository path at all, and why.
    Unnormalizable { why: String },
    /// A file of this repository outside the corpus.
    Repository { path: String },
    /// An address with a scheme.
    External,
}

/// One prose link.
#[derive(Clone, Debug, PartialEq, Eq)]
pub struct Link {
    /// The document that writes it.
    pub source_path: String,
    /// The destination as written.
    pub destination: String,
    /// The fragment after `#`, where the destination carries one.
    pub fragment: Option<String>,
    /// Where the link stands: one-based line and column.
    pub line: usize,
    pub column: usize,
    pub binding: Binding,
}

/// Whether a finding is an error of one rule at the line of a link, with one
/// message and remedy, and no patch.
pub open spec fn reported_at(f: Finding, rule: &'static str, link: Link, message: Seq<char>, remedy: Seq<char>) -> bool {
    &&& f.rule == rule
    &&& f.severity == Severity::Error
    &&& f.obligation is None
    &&& f.path@ == link.source_path@
    &&& f.line == link.line
    &&& f.column == link.column
    &&& f.message@ == message
    &&& f.remediation@ == remedy
    &&& f.patch is None
}

} // verus!
