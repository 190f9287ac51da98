//! The front matter of one document as the facet rules read it: each key,
//! where it and its value are written, and the value as a scalar's text or the
//! name of the kind of value it is.
use vstd::prelude::*;
use crate::text::{join, str_eq};

verus! {

/// One front-matter entry.
#[derive(Clone, Debug, PartialEq, Eq)]
pub struct Entry {
    pub key: String,
    /// Where the key is written: one-based line and column.
    pub key_line: usize,
    pub key_column: usize,
    /// Where the value is written.
    pub value_line: usize,
    pub value_column: usize,
    /// The value's text where it is a scalar, and nothing otherwise.
    pub scalar: Option<String>,
    /// Whether the loader reads the scalar as null under the YAML core
    /// schema, as an empty value or `~` or `null` is.
    pub null: bool,
    /// The name of the kind of value it is, such as a mapping or a sequence.
    pub kind_name: String,
}

/// The value of an entry as text: a scalar's text, or the name of its kind.
pub open spec fn value_text(e: Entry) -> Seq<char> {
    match e.scalar {
        Some(s) => s@,
        None => e.kind_name@,
    }
}

/// The first entry of a front matter under one key. The loader refuses a key
/// written twice, so this is the entry.
pub open spec fn entry_under(facets: Seq<Entry>, key: Seq<char>) -> Option<Entry>
    decreases facets.len(),
{
    if facets.len() == 0 {
        None
    } else if facets[0].key@ == key {
        Some(facets[0])
    } else {
        entry_under(facets.skip(1), key)
    }
}

/// The entry of a front matter under one key.
pub fn entry<'a>(facets: &'a [Entry], key: &str) -> (r: Option<&'a Entry>)
    ensures
        match r {
            Some(e) => entry_under(facets@, key@) == Some(*e),
            None => entry_under(facets@, key@) is None,
        },
{
    let mut i: usize = 0;
    assert(facets@.skip(0) =~= facets@);
    while i < facets.len()
        invariant
            i <= facets@.len(),
            entry_under(facets@, key@) == entry_under(facets@.skip(i as int), key@),
        decreases facets@.len() - i,
    {
        assert(facets@.skip(i as int)[0] == facets@[i as int]);
        assert(facets@.skip(i as int).skip(1) =~= facets@.skip(i + 1));
        if str_eq(facets[i].key.as_str(), key) {
            return Some(&facets[i]);
        }
        i = i + 1;
    }
    None
}

/// The texts of a list.
pub open spec fn names_of(v: Seq<String>) -> Seq<Seq<char>> {
    v.map_values(|s: String| s@)
}

/// A list of texts written out with `, ` between them.
pub fn joined(v: &[String]) -> (s: Vec<char>)
    ensures
        s@ == join(names_of(v@), ", "@),
{
    let mut out: Vec<char> = Vec::new();
    let mut i: usize = 0;
    proof {
        reveal_strlit(", ");
    }
    while i < v.len()
        invariant
            i <= v@.len(),
            out@ == join(names_of(v@).take(i as int), ", "@),
        decreases v@.len() - i,
    {
        let ghost done = names_of(v@).take(i as int);
        let ghost next = names_of(v@).take(i + 1);
        assert(next.drop_last() =~= done);
        assert(next.last() == v@[i as int]@);
        if i > 0 {
            crate::text::extend_str(&mut out, ", ");
        }
        crate::text::extend_str(&mut out, v[i].as_str());
        proof {
            if i == 0 {
                assert(next.len() == 1);
                assert(join(next, ", "@) == next[0]);
                assert(out@ =~= next[0]);
            } else {
                assert(join(next, ", "@) == join(done, ", "@) + ", "@ + next.last());
            }
        }
        i = i + 1;
    }
    assert(names_of(v@).take(i as int) =~= names_of(v@));
    out
}

} // verus!
