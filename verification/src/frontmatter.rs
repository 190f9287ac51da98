//! The prose a document writes in its front matter, for the rules that read
//! it.
//!
//! The population is one role: the facet in the `scent` role, which a corpus
//! names as it likes. Every other role stays out: a facet in the `name` role
//! is a title a reader scans, and a sentence rule over one would report a
//! defect whose only repair is a rename. A finding anchors at the start of the
//! value the author wrote, never at an offset inside it, because the text the
//! loader hands over has its escapes resolved and its block scalars folded.
use vstd::prelude::*;
use crate::context::trimmed;
use crate::facets::{entry, entry_under, Entry};
use crate::language::Sentence;
use crate::lifecycle::{in_role, Facet};
use crate::text::{chars_of, owned, str_eq, trim};

verus! {

/// The role whose facet carries a sentence about the document.
pub const SCENT: &'static str = "scent";

/// The prose of one front-matter facet, and where the author wrote it.
#[derive(Clone, Debug)]
pub struct Scent {
    /// The facet name, for the message that names where the defect is.
    pub facet: String,
    /// Where the value starts, which every finding over it anchors at.
    pub line: usize,
    pub column: usize,
    pub sentences: Vec<Sentence>,
}

/// The facet the declarations put in the `scent` role, and nothing when none
/// does.
pub fn scent_facet(facets: &[Facet]) -> (r: Option<String>)
    ensures
        match in_role(facets@, SCENT@) {
            Some(f) => r matches Some(n) && n@ == f.name@,
            None => r is None,
        },
{
    let mut i: usize = 0;
    assert(facets@.skip(0) =~= facets@);
    while i < facets.len()
        invariant
            i <= facets@.len(),
            in_role(facets@, SCENT@) == in_role(facets@.skip(i as int), SCENT@),
        decreases facets@.len() - i,
    {
        assert(facets@.skip(i as int)[0] == facets@[i as int]);
        assert(facets@.skip(i as int).skip(1) =~= facets@.skip(i + 1));
        let plays = match &facets[i].role {
            Some(r) => str_eq(r.as_str(), SCENT),
            None => false,
        };
        if plays {
            return Some(owned(facets[i].name.as_str()));
        }
        i = i + 1;
    }
    None
}

/// The entry whose text a document's scent is read from: nothing for a
/// document that declares no such key, for one whose value is a sequence or
/// a mapping, and for one whose text is blank.
pub open spec fn scent_entry(facets: Seq<Entry>, facet: Seq<char>) -> Option<Entry> {
    match entry_under(facets, facet) {
        Some(e) => if e.scalar is Some && trim(e.scalar->0@).len() > 0 {
            Some(e)
        } else {
            None
        },
        None => None,
    }
}

impl Scent {
    /// The entry whose text the document reader parses for a document's
    /// scent facet.
    pub fn entry<'a>(facets: &'a [Entry], facet: &str) -> (r: Option<&'a Entry>)
        ensures
            match r {
                Some(e) => scent_entry(facets@, facet@) == Some(*e),
                None => scent_entry(facets@, facet@) is None,
            },
    {
        let e = match entry(facets, facet) {
            Some(e) => e,
            None => return None,
        };
        let text = match &e.scalar {
            Some(t) => t,
            None => return None,
        };
        let all = chars_of(text.as_str());
        if trimmed(all.as_slice()).len() == 0 {
            return None;
        }
        Some(e)
    }

    /// The scent of one document: the facet, where its value starts, and the
    /// sentences the document reader made of its text.
    pub fn of(facets: &[Entry], facet: &str, sentences: Vec<Sentence>) -> (r: Option<Scent>)
        ensures
            match scent_entry(facets@, facet@) {
                Some(e) => r matches Some(s) && s.facet@ == facet@ && s.line == e.value_line
                    && s.column == e.value_column && s.sentences@ == sentences@,
                None => r is None,
            },
    {
        let e = match Scent::entry(facets, facet) {
            Some(e) => e,
            None => return None,
        };
        Some(Scent { facet: owned(facet), line: e.value_line, column: e.value_column, sentences })
    }
}

} // verus!
