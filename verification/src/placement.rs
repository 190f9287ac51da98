//! A document on a homogeneous shelf that restates the kind its placement
//! already carries.
//!
//! On a homogeneous shelf the placement is primary: the shelf is the kind. A
//! front-matter key that restates it, as `kind` or as the discriminator some
//! other shelf reads, is a second source for one fact.
use vstd::prelude::*;
use crate::finding::{Finding, Severity};
use crate::instance::Outcome;
use crate::facets::{entry, entry_under, value_text, Entry};
use crate::index::error_at;
use crate::text::{chars_of, extend_str, owned, str_eq, string_of};

verus! {

pub const RULE: &'static str = "shelf.placement_is_primary";

/// The reason an instance on a heterogeneous shelf skips.
pub const HETEROGENEOUS: &'static str = "the shelf is heterogeneous, so the discriminator is the gap metadata fills, and kind resolution already read it";

/// Whether a list of names holds one.
pub open spec fn listed(names: Seq<String>, name: Seq<char>) -> bool {
    exists|i: int| 0 <= i < names.len() && (#[trigger] names[i])@ == name
}

/// The discriminators of the heterogeneous shelves, in declaration order and
/// each once.
pub open spec fn distinct_names(names: Seq<String>) -> Seq<Seq<char>>
    decreases names.len(),
{
    if names.len() == 0 {
        Seq::empty()
    } else {
        let rest = distinct_names(names.drop_last());
        if listed(names.drop_last(), names.last()@) {
            rest
        } else {
            rest.push(names.last()@)
        }
    }
}

/// The first of a list of facet names that the front matter writes, with its
/// entry.
pub open spec fn restated(names: Seq<Seq<char>>, facets: Seq<Entry>) -> Option<(Seq<char>, Entry)>
    decreases names.len(),
{
    if names.len() == 0 {
        None
    } else {
        match entry_under(facets, names[0]) {
            Some(e) => Some((names[0], e)),
            None => restated(names.skip(1), facets),
        }
    }
}

/// The check, generated from the shelf declarations.
pub struct Placement {
    /// Every facet that a heterogeneous shelf uses as its discriminator, in
    /// declaration order and without repeats.
    discriminators: Vec<String>,
}

impl Placement {
    pub closed spec fn view(&self) -> Seq<Seq<char>> {
        self.discriminators@.map_values(|d: String| d@)
    }

    /// The generation step: the discriminator of each heterogeneous shelf, in
    /// declaration order, each kept once.
    pub fn over(discriminators: &[String]) -> (p: Self)
        ensures
            p.view() == distinct_names(discriminators@),
    {
        let mut kept: Vec<String> = Vec::new();
        let mut i: usize = 0;
        while i < discriminators.len()
            invariant
                i <= discriminators@.len(),
                kept@.map_values(|d: String| d@) == distinct_names(discriminators@.take(i as int)),
                forall|t: Seq<char>| listed(kept@, t) <==> listed(discriminators@.take(i as int), t),
            decreases discriminators@.len() - i,
        {
            let ghost prefix = discriminators@.take(i as int);
            assert(discriminators@.take(i + 1).drop_last() =~= prefix);
            assert(discriminators@.take(i + 1).last() == discriminators@[i as int]);
            let mut seen = false;
            let mut k: usize = 0;
            while k < kept.len() && !seen
                invariant
                    k <= kept@.len(),
                    i < discriminators@.len(),
                    seen ==> listed(kept@, discriminators@[i as int]@),
                    !seen ==> forall|t: int| 0 <= t < k ==> (#[trigger] kept@[t])@ != discriminators@[i as int]@,
                decreases kept@.len() - k + (if seen { 0int } else { 1int }),
            {
                if str_eq(kept[k].as_str(), discriminators[i].as_str()) {
                    seen = true;
                } else {
                    k = k + 1;
                }
            }
            proof {
                if !seen && listed(kept@, discriminators@[i as int]@) {
                    let q = choose|q: int| 0 <= q < kept@.len() && (#[trigger] kept@[q])@ == discriminators@[i as int]@;
                }
            }
            let ghost before = kept@;
            if !seen {
                kept.push(discriminators[i].clone());
                proof {
                    assert(kept@.map_values(|d: String| d@) =~= before.map_values(|d: String| d@).push(
                        discriminators@[i as int]@,
                    ));
                }
            }
            proof {
                let next = discriminators@.take(i + 1);
                assert forall|t: Seq<char>| listed(kept@, t) <==> listed(next, t) by {
                    if listed(kept@, t) {
                        let q = choose|q: int| 0 <= q < kept@.len() && (#[trigger] kept@[q])@ == t;
                        if q < before.len() {
                            assert(kept@[q] == before[q]);
                            assert(listed(before, t));
                            let r = choose|r: int| 0 <= r < prefix.len() && (#[trigger] prefix[r])@ == t;
                            assert(next[r] == prefix[r]);
                        } else {
                            assert(next[i as int] == discriminators@[i as int]);
                        }
                    }
                    if listed(next, t) {
                        let r = choose|r: int| 0 <= r < next.len() && (#[trigger] next[r])@ == t;
                        if r < i {
                            assert(prefix[r] == next[r]);
                            assert(listed(prefix, t));
                            assert(listed(before, t));
                            let q = choose|q: int| 0 <= q < before.len() && (#[trigger] before[q])@ == t;
                            assert(kept@[q] == before[q]);
                        } else if seen {
                        } else {
                            assert(kept@[before.len() as int] == discriminators@[i as int]);
                        }
                    }
                }
            }
            i = i + 1;
        }
        assert(discriminators@.take(i as int) =~= discriminators@);
        Placement { discriminators: kept }
    }

    /// The first of `kind` and the discriminators that a front matter writes,
    /// with its entry.
    fn first_restated<'a>(&'a self, facets: &'a [Entry]) -> (r: Option<(&'a str, &'a Entry)>)
        ensures
            match r {
                None => restated(seq!["kind"@] + self.view(), facets@) is None,
                Some((f, e)) => restated(seq!["kind"@] + self.view(), facets@) == Some((f@, *e)),
            },
    {
        let ghost names = seq!["kind"@] + self.view();
        proof {
            reveal_strlit("kind");
        }
        match entry(facets, "kind") {
            Some(e) => {
                return Some(("kind", e));
            },
            None => {},
        }
        proof {
            assert(names.skip(1) =~= self.view());
            assert(self.view().skip(0) =~= self.view());
        }
        let mut i: usize = 0;
        while i < self.discriminators.len()
            invariant
                i <= self.discriminators@.len(),
                names == seq!["kind"@] + self.view(),
                restated(names, facets@) == restated(self.view().skip(i as int), facets@),
            decreases self.discriminators@.len() - i,
        {
            let ghost rest = self.view().skip(i as int);
            assert(rest[0] == self.discriminators@[i as int]@);
            assert(rest.skip(1) =~= self.view().skip(i + 1));
            match entry(facets, self.discriminators[i].as_str()) {
                Some(e) => {
                    assert(rest.len() > 0);
                    assert(entry_under(facets@, rest[0]) == Some(*e));
                    assert(restated(rest, facets@) == Some((rest[0], *e)));
                    let f = self.discriminators[i].as_str();
                    assert(f@ == rest[0]);
                    assert(restated(seq!["kind"@] + self.view(), facets@) == Some((f@, *e)));
                    return Some((f, e));
                },
                None => {},
            }
            i = i + 1;
        }
        None
    }

    /// A document on a homogeneous shelf passes unless its front matter
    /// writes `kind` or a discriminator; the first of those it writes, in that
    /// order, is the one reported, at its key. A document on a heterogeneous
    /// shelf skips, because there the discriminator is what names the kind.
    pub fn evaluate(&self, placed_on: Option<&str>, kind: &str, path: &str, facets: &[Entry]) -> (o: Outcome)
        ensures
            placed_on is None ==> o == Outcome::Skipped(HETEROGENEOUS),
            match placed_on {
                None => true,
                Some(shelf) => match restated(seq!["kind"@] + self.view(), facets@) {
                    None => o is Passed,
                    Some((facet, e)) => o matches Outcome::Failed(v) && v@.len() == 1 && error_at(
                        v@[0],
                        RULE,
                        path@,
                        e.key_line,
                        e.key_column,
                        "`"@ + shelf@ + "` is homogeneous and carries the kind `"@ + kind@
                            + "`, and this document restates it as `"@ + facet + ": "@ + value_text(e) + "`"@,
                        "remove `"@ + facet + "` from the front matter of "@ + path@,
                    ),
                },
            },
    {
        let shelf = match placed_on {
            Some(s) => s,
            None => return Outcome::Skipped(HETEROGENEOUS),
        };
        let found = self.first_restated(facets);
        match found {
            None => Outcome::Passed,
            Some((facet, e)) => {
                let mut m: Vec<char> = chars_of("`");
                extend_str(&mut m, shelf);
                extend_str(&mut m, "` is homogeneous and carries the kind `");
                extend_str(&mut m, kind);
                extend_str(&mut m, "`, and this document restates it as `");
                extend_str(&mut m, facet);
                extend_str(&mut m, ": ");
                match &e.scalar {
                    Some(text) => extend_str(&mut m, text.as_str()),
                    None => extend_str(&mut m, e.kind_name.as_str()),
                }
                extend_str(&mut m, "`");
                let mut r: Vec<char> = chars_of("remove `");
                extend_str(&mut r, facet);
                extend_str(&mut r, "` from the front matter of ");
                extend_str(&mut r, path);
                Outcome::failed_with(
                    Finding {
                        rule: RULE,
                        severity: Severity::Error,
                        obligation: None,
                        path: owned(path),
                        line: e.key_line,
                        column: e.key_column,
                        message: string_of(m.as_slice()),
                        remediation: string_of(r.as_slice()),
                        patch: None,
                    },
                )
            },
        }
    }
}

} // verus!
