//! What the graph build reported of the identifiers of a corpus, as the rules
//! that read it see it: one entry per defect, at the document and position it
//! stands at.
use vstd::prelude::*;
use crate::finding::{Finding, Severity};

verus! {

/// What is wrong with the identifier of one document.
#[derive(Clone, Debug, PartialEq, Eq)]
pub enum Defect {
    /// The document declares no identifier, and its kind asks for one.
    NoIdentifier { kind: String },
    /// The identifier is written as something other than a scalar.
    NotAScalar,
    /// Another document claims the same identifier, at its own position.
    Duplicate { id: String, other: String, other_line: usize, other_column: usize },
}

/// One reported defect: the document it was found in, the position of its
/// identifier (zeros where the parser kept none), the defect, and the
/// sentence the index writes about it.
#[derive(Clone, Debug, PartialEq, Eq)]
pub struct Reported {
    pub path: String,
    pub line: usize,
    pub column: usize,
    pub defect: Defect,
    pub said: String,
}

/// Whether a finding is an error of one rule at one place, with one message
/// and remedy, and no patch.
pub open spec fn error_at(
    f: Finding,
    rule: &'static str,
    path: Seq<char>,
    line: usize,
    column: usize,
    message: Seq<char>,
    remedy: Seq<char>,
) -> bool {
    &&& f.rule == rule
    &&& f.severity == Severity::Error
    &&& f.obligation is None
    &&& f.path@ == path
    &&& f.line == line
    &&& f.column == column
    &&& f.message@ == message
    &&& f.remediation@ == remedy
    &&& f.patch is None
}

} // verus!
