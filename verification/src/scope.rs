//! What a check over an edge or over a document's neighbourhood is handed:
//! the halves documents wrote under `relations:`, the documents at each end,
//! and the relations and kinds the taxonomy declares.
//!
//! These are the values the graph and the taxonomy deliver, held as plain
//! data so that the rules over them are functions of what they read.
use vstd::prelude::*;
use crate::context::Date;
use crate::facets::Entry;
use crate::facets::names_of;
use crate::text::str_eq;

verus! {

/// A document at one end of an edge.
#[derive(Clone, Debug)]
pub struct Document {
    pub id: String,
    pub path: String,
    pub kind: String,
}

/// What a half points at: a document, or something that is not one (an
/// anchor, a withheld target, or one nothing bound).
#[derive(Clone, Debug)]
pub enum Target {
    Document(Document),
    Elsewhere,
}

/// Which way a document wrote a relation: under its own name, which puts the
/// writer at the source end, or under its inverse name, which puts it at the
/// target end.
#[derive(Clone, Copy, Debug, PartialEq, Eq, Structural)]
pub enum Direction {
    AsDeclared,
    Inverse,
}

/// One half of an edge: what one document wrote under `relations:`.
#[derive(Clone, Debug)]
pub struct Half {
    /// The name the document wrote, which may be the inverse name.
    pub name: String,
    /// The relation that name declares.
    pub declared: String,
    /// The document that wrote it.
    pub source: Document,
    pub target: Target,
    pub direction: Direction,
    /// Where the entry is written: one-based line and column.
    pub line: usize,
    pub column: usize,
}

/// One end of a pair of documents, with its front matter where the census
/// parsed one.
#[derive(Clone, Debug)]
pub struct EndView {
    pub id: String,
    pub path: String,
    pub kind: String,
    pub facets: Option<Vec<Entry>>,
}

/// What an edge check reads: the half the source document wrote, the half the
/// target wrote under the inverse name, and the documents at the two ends, the
/// source first.
#[derive(Clone, Debug)]
pub struct EdgeView {
    pub declared: Option<Half>,
    pub inverse: Option<Half>,
    pub ends: Option<(EndView, EndView)>,
}

/// The half a rule anchors at: the declared one when a document wrote it, and
/// the inverse one otherwise.
pub open spec fn half_of(view: EdgeView) -> Option<Half> {
    match view.declared {
        Some(h) => Some(h),
        None => view.inverse,
    }
}

impl EdgeView {
    /// The half a rule anchors at.
    pub fn half(&self) -> (h: Option<&Half>)
        ensures
            match h {
                Some(x) => half_of(*self) == Some(*x),
                None => half_of(*self) is None,
            },
    {
        match &self.declared {
            Some(h) => Some(h),
            None => match &self.inverse {
                Some(h) => Some(h),
                None => None,
            },
        }
    }
}

/// A relation as the taxonomy declares it, as far as the rules read one.
#[derive(Clone, Debug)]
pub struct Relation {
    pub name: String,
    /// The kinds a source may have, and the kinds a target may have.
    pub from: Vec<String>,
    pub to: Vec<String>,
    /// The relation family it declares, where it declares one.
    pub family: Option<String>,
    /// Whether a core requirement declares the relation's family
    /// lifecycle-sensitive.
    pub lifecycle_sensitive: bool,
    /// The state this relation writes onto its target, where it writes one.
    pub sets_target_state: Option<String>,
}

/// The first relation of a list under a name.
pub open spec fn relation_in(rs: Seq<Relation>, name: Seq<char>) -> Option<Relation>
    decreases rs.len(),
{
    if rs.len() == 0 {
        None
    } else if rs[0].name@ == name {
        Some(rs[0])
    } else {
        relation_in(rs.skip(1), name)
    }
}

/// The first relation of a list under a name.
pub fn find_relation<'a>(rs: &'a [Relation], name: &str) -> (r: Option<&'a Relation>)
    ensures
        match r {
            Some(x) => relation_in(rs@, name@) == Some(*x),
            None => relation_in(rs@, name@) is None,
        },
{
    let mut i: usize = 0;
    assert(rs@.skip(0) =~= rs@);
    while i < rs.len()
        invariant
            i <= rs@.len(),
            relation_in(rs@, name@) == relation_in(rs@.skip(i as int), name@),
        decreases rs@.len() - i,
    {
        assert(rs@.skip(i as int)[0] == rs@[i as int]);
        assert(rs@.skip(i as int).skip(1) =~= rs@.skip(i + 1));
        if str_eq(rs[i].name.as_str(), name) {
            return Some(&rs[i]);
        }
        i = i + 1;
    }
    None
}

/// Each kind of the taxonomy with the kinds it descends from.
pub open spec fn ancestors_in(lineage: Seq<(String, Vec<String>)>, kind: Seq<char>) -> Seq<Seq<char>>
    decreases lineage.len(),
{
    if lineage.len() == 0 {
        Seq::empty()
    } else if lineage[0].0@ == kind {
        names_of(lineage[0].1@)
    } else {
        ancestors_in(lineage.skip(1), kind)
    }
}

/// Whether a kind is `ancestor` or descends from it.
pub open spec fn descends(lineage: Seq<(String, Vec<String>)>, kind: Seq<char>, ancestor: Seq<char>) -> bool {
    kind == ancestor || ancestors_in(lineage, kind).contains(ancestor)
}

/// Whether a kind is `ancestor` or descends from it, given each kind of the
/// taxonomy with the kinds it descends from.
pub fn descends_from(lineage: &[(String, Vec<String>)], kind: &str, ancestor: &str) -> (r: bool)
    ensures
        r == descends(lineage@, kind@, ancestor@),
{
    if str_eq(kind, ancestor) {
        return true;
    }
    let mut i: usize = 0;
    assert(lineage@.skip(0) =~= lineage@);
    while i < lineage.len()
        invariant
            i <= lineage@.len(),
            kind@ != ancestor@,
            ancestors_in(lineage@, kind@) == ancestors_in(lineage@.skip(i as int), kind@),
        decreases lineage@.len() - i,
    {
        assert(lineage@.skip(i as int)[0] == lineage@[i as int]);
        assert(lineage@.skip(i as int).skip(1) =~= lineage@.skip(i + 1));
        if str_eq(lineage[i].0.as_str(), kind) {
            let above = &lineage[i].1;
            assert(ancestors_in(lineage@, kind@) == names_of(above@));
            let mut j: usize = 0;
            while j < above.len()
                invariant
                    j <= above@.len(),
                    ancestors_in(lineage@, kind@) == names_of(above@),
                    forall|k: int| 0 <= k < j ==> (#[trigger] above@[k])@ != ancestor@,
                decreases above@.len() - j,
            {
                if str_eq(above[j].as_str(), ancestor) {
                    assert(names_of(above@)[j as int] == ancestor@);
                    return true;
                }
                j = j + 1;
            }
            assert(!names_of(above@).contains(ancestor@)) by {
                if names_of(above@).contains(ancestor@) {
                    let k = choose|k: int|
                        0 <= k < names_of(above@).len() && names_of(above@)[k] == ancestor@;
                    assert(above@[k]@ == ancestor@);
                }
            }
            return false;
        }
        i = i + 1;
    }
    false
}

/// Which end of a relation a document sits at.
#[derive(Clone, Copy, Debug, PartialEq, Eq, Structural)]
pub enum End {
    Source,
    Target,
}

/// One neighbour of a document: the relation between them, the end the
/// document sits at, and the neighbour's kind.
#[derive(Clone, Debug)]
pub struct Neighbour {
    pub relation: String,
    pub end: End,
    pub kind: String,
}

/// What a check over one document and its edges reads.
#[derive(Clone, Debug)]
pub struct NeighbourhoodView {
    pub kind: String,
    pub path: String,
    pub facets: Vec<Entry>,
    pub neighbours: Vec<Neighbour>,
    /// The run's date, for a check that declares it reads one.
    pub now: Option<Date>,
}

} // verus!
