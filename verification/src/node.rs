//! A YAML value as the readers of a block see it.
//!
//! The loader that turns text into these values refuses a key written twice in
//! one mapping, so a key names one entry of a mapping it reads.
use vstd::prelude::*;
use crate::text::{chars_of, same};

verus! {

/// A value of a YAML document as a reader sees it: a scalar's text, a
/// sequence, or a mapping of keys to values in the order they are written.
#[derive(Debug, PartialEq, Eq)]
pub enum Node {
    Scalar(String),
    List(Vec<Node>),
    Mapping(Vec<(String, Node)>),
}

/// The value a mapping holds under a key. A key written twice is read at its
/// first entry.
pub open spec fn entry_at(m: Seq<(String, Node)>, key: Seq<char>) -> Option<Node>
    decreases m.len(),
{
    if m.len() == 0 {
        None
    } else if m[0].0@ == key {
        Some(m[0].1)
    } else {
        entry_at(m.skip(1), key)
    }
}

/// The text of a scalar a mapping holds under a key.
pub open spec fn scalar_at(m: Seq<(String, Node)>, key: Seq<char>) -> Option<Seq<char>> {
    match entry_at(m, key) {
        Some(Node::Scalar(s)) => Some(s@),
        _ => None,
    }
}

/// The value a mapping holds under a key, at its first entry.
pub fn get<'a>(m: &'a Vec<(String, Node)>, key: &str) -> (r: Option<&'a Node>)
    ensures
        match r {
            Some(n) => entry_at(m@, key@) == Some(*n),
            None => entry_at(m@, key@) is None,
        },
{
    let k = chars_of(key);
    let mut i: usize = 0;
    assert(m@.skip(0) =~= m@);
    while i < m.len()
        invariant
            i <= m@.len(),
            k@ == key@,
            entry_at(m@, key@) == entry_at(m@.skip(i as int), key@),
        decreases m@.len() - i,
    {
        assert(m@.skip(i as int)[0] == m@[i as int]);
        assert(m@.skip(i as int).skip(1) =~= m@.skip(i + 1));
        if same(chars_of(m[i].0.as_str()).as_slice(), k.as_slice()) {
            return Some(&m[i].1);
        }
        i = i + 1;
    }
    None
}

/// The text of a scalar a mapping holds under a key.
pub fn scalar<'a>(m: &'a Vec<(String, Node)>, key: &str) -> (r: Option<&'a str>)
    ensures
        match r {
            Some(s) => scalar_at(m@, key@) == Some(s@),
            None => scalar_at(m@, key@) is None,
        },
{
    match get(m, key) {
        Some(Node::Scalar(s)) => Some(s.as_str()),
        _ => None,
    }
}

} // verus!
