//! The `check-rule` anchor resolver: a rule identifier this engine ships.
//!
//! It reads neither repository content nor a snapshot. It reads the list of
//! rule templates the engine was built with, so its answer is a property of
//! the engine rather than of the corpus. A template is addressable and an
//! instance is not, so it binds templates alone, and it binds a string only to
//! the string the engine ships: surrounding space is trimmed, and nothing else
//! about the string is touched, because a resolver that admitted another
//! spelling would bind a typo to a real rule.
use vstd::prelude::*;
use crate::context::trimmed;
use crate::text::{chars_of, decimal, extend, extend_decimal, extend_str, same, string_of, trim};

verus! {

/// The resolver namespace `anchors.check_rule` claims.
pub const RESOLVER: &'static str = "check-rule";

/// What an anchor binds to: the identity it names, with no exclusion and no
/// revision for a rule, or the reason it names nothing.
#[derive(Clone, Debug, PartialEq, Eq)]
pub enum Binding {
    Resolved { normalized: String, excluded_by: Option<String>, revision: Option<String> },
    Unresolved(String),
}

/// A resolver over the rule templates one engine ships.
#[derive(Clone, Copy, Debug, PartialEq, Eq)]
pub struct Rules {
    held: &'static [&'static str],
}

/// Whether a list of rules holds one identity, spelled exactly.
pub open spec fn ships(held: Seq<&'static str>, id: Seq<char>) -> bool {
    exists|i: int| 0 <= i < held.len() && (#[trigger] held[i])@ == id
}

/// How a count of rules is written: `1 rule`, or the number and `rules`.
pub open spec fn rules_text(n: nat) -> Seq<char> {
    if n == 1 {
        "1 rule"@
    } else {
        decimal(n) + " rules"@
    }
}

/// What a raw anchor binds to over a list of rules.
pub open spec fn binding_of(held: Seq<&'static str>, raw: Seq<char>) -> (bool, Seq<char>) {
    let id = trim(raw);
    if id.len() == 0 {
        (false, "an empty anchor names nothing"@)
    } else if ships(held, id) {
        (true, id)
    } else {
        (false, "this engine implements no rule `"@ + id + "`, and it ships "@ + rules_text(held.len()))
    }
}

impl Rules {
    pub closed spec fn view(&self) -> Seq<&'static str> {
        self.held@
    }

    /// The resolver over every rule this engine ships.
    pub fn shipped() -> (r: Self)
        ensures
            r.view() == crate::RULES@,
    {
        Rules { held: &crate::RULES }
    }

    /// A resolver over a stated list.
    pub fn over(held: &'static [&'static str]) -> (r: Self)
        ensures
            r.view() == held@,
    {
        Rules { held }
    }

    /// How many rule identities this resolver can bind.
    pub fn held(&self) -> (n: usize)
        ensures
            n == self.view().len(),
    {
        self.held.len()
    }

    /// The namespace this resolver answers to.
    pub fn name(&self) -> (n: &'static str)
        ensures
            n == RESOLVER,
    {
        RESOLVER
    }

    /// What one anchor binds to. A rule the list holds binds to itself, with
    /// no exclusion and no revision: a rule identifier is under no path, and a
    /// rule template is at no revision a run can name. An empty anchor is
    /// refused with its own sentence, and any other with the identifier it
    /// spelled and the number of rules there are.
    pub fn resolve(&self, raw: &str) -> (b: Binding)
        ensures
            match b {
                Binding::Resolved { normalized, excluded_by, revision } => {
                    &&& binding_of(self.view(), raw@) == (true, normalized@)
                    &&& excluded_by is None
                    &&& revision is None
                },
                Binding::Unresolved(why) => binding_of(self.view(), raw@) == (false, why@),
            },
    {
        let id = trimmed(chars_of(raw).as_slice());
        if id.len() == 0 {
            return Binding::Unresolved(crate::text::owned("an empty anchor names nothing"));
        }
        let mut i: usize = 0;
        while i < self.held.len()
            invariant
                i <= self.held@.len(),
                id@ == trim(raw@),
                id@.len() > 0,
                forall|k: int| 0 <= k < i ==> (#[trigger] self.held@[k])@ != id@,
            decreases self.held@.len() - i,
        {
            if same(chars_of(self.held[i]).as_slice(), id.as_slice()) {
                assert(ships(self.held@, id@)) by {
                    assert(self.held@[i as int]@ == id@);
                }
                return Binding::Resolved { normalized: string_of(id.as_slice()), excluded_by: None, revision: None };
            }
            i = i + 1;
        }
        let mut why: Vec<char> = chars_of("this engine implements no rule `");
        extend(&mut why, id.as_slice());
        extend_str(&mut why, "`, and it ships ");
        if self.held.len() == 1 {
            extend_str(&mut why, "1 rule");
        } else {
            extend_decimal(&mut why, self.held.len() as u64);
            extend_str(&mut why, " rules");
        }
        Binding::Unresolved(string_of(why.as_slice()))
    }
}

/// The resolver binds only what the engine ships: a resolved anchor names a
/// rule of the list, and each rule of the list, spelled with no surrounding
/// space, binds to itself.
pub proof fn law_binds_only_what_it_ships(held: Seq<&'static str>, raw: Seq<char>)
    ensures
        binding_of(held, raw).0 ==> ships(held, binding_of(held, raw).1),
        forall|i: int|
            0 <= i < held.len() && trim((#[trigger] held[i])@) == held[i]@ && held[i]@.len() > 0 ==> binding_of(
                held,
                held[i]@,
            ) == (true, held[i]@),
{
}

} // verus!
