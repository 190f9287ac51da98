//! The state a document stands in, against the states its kind admits.
//!
//! A state vocabulary is one list for the whole taxonomy, so a rule that read
//! it alone would admit every value of it on every kind. A kind's admitted
//! states are the states the lifecycle regime it binds names: a taxonomy that
//! wants a narrower set declares a second regime over the same vocabulary and
//! binds it on the kinds that may not reach the extra state.
//!
//! The rule is document-scoped. A wrong state survives in the document, so a
//! document authored at a state its kind does not admit is a defect on the day
//! it lands, with no prior version read. The report is an error and carries no
//! patch: which admitted state the document belongs in is for its author to say.
use vstd::prelude::*;
use crate::facets::{entry, entry_under, names_of, Entry};
use crate::finding::{Finding, Severity};
use crate::index::error_at;
use crate::instance::Outcome;
use crate::text::{begins_with, chars_of, extend, extend_str, join, owned, str_eq, string_of};

verus! {

pub const RULE: &'static str = "lifecycle.state.not_admitted";

/// The role of the facet whose values are states.
pub const STATE: &'static str = "state";

/// The role that names a state a reader may rely on.
pub const LIVE: &'static str = "live";

/// The role that names the state a document is authored at, before anything
/// promotes it.
pub const INITIAL: &'static str = "initial";

/// What every role that ends a lifecycle opens with.
pub const TERMINAL: &'static str = "terminal-";

/// Why an instance skips a document that writes no state: a reading this rule
/// declines rather than one it approved. The required-facet rule reports the
/// absence where the facet is required.
pub const UNDECLARED: &'static str =
    "this document declares no value for the state facet, so there is no state to hold against the ones its kind admits";

/// Why an instance skips a document whose state is no value of the
/// vocabulary: the value rule reports that.
pub const NOT_A_STATE: &'static str =
    "this document stands at a value the state facet does not admit, and `facet.value.not_permitted` reports that";

/// Why an instance skips a document of a kind whose regime names no state:
/// the taxonomy's own validation reports that against the declaration, once,
/// rather than here on every document of the kind.
pub const NO_STATE: &'static str =
    "the lifecycle regime this kind binds names no state, and `taxonomy validate` reports that against the declaration";

/// One value of a state vocabulary, and the role the vocabulary gives it.
#[derive(Clone, Debug)]
pub struct FacetValue {
    pub value: String,
    pub role: Option<String>,
}

/// A facet declaration, as far as the lifecycle rules read one: its name, the
/// role it plays, and the values it admits.
#[derive(Clone, Debug)]
pub struct Facet {
    pub name: String,
    pub role: Option<String>,
    pub values: Vec<FacetValue>,
}

/// One lifecycle regime: the state a document opens at (empty where the
/// declaration names none), and each state's exits, in declaration order.
#[derive(Clone, Debug)]
pub struct LifecycleRegime {
    pub name: String,
    pub initial: String,
    pub transitions: Vec<(String, Vec<String>)>,
}

/// Every state a list of transitions writes, in order: each source, then its
/// targets.
pub open spec fn moves(ts: Seq<(String, Vec<String>)>) -> Seq<Seq<char>>
    decreases ts.len(),
{
    if ts.len() == 0 {
        Seq::empty()
    } else {
        moves(ts.drop_last()) + seq![ts.last().0@] + names_of(ts.last().1@)
    }
}

/// Every state a regime writes, the initial one first, repeats included.
pub open spec fn named(r: LifecycleRegime) -> Seq<Seq<char>> {
    seq![r.initial@] + moves(r.transitions@)
}

/// The texts of a list, each kept at its first occurrence, and no empty one.
pub open spec fn first_seen(s: Seq<Seq<char>>) -> Seq<Seq<char>>
    decreases s.len(),
{
    if s.len() == 0 {
        Seq::empty()
    } else {
        let before = first_seen(s.drop_last());
        if s.last().len() == 0 || before.contains(s.last()) {
            before
        } else {
            before.push(s.last())
        }
    }
}

/// The states a regime names, in declaration order and without repeats. An
/// absent initial state reads as the empty text, which is no state.
pub open spec fn states_of(r: LifecycleRegime) -> Seq<Seq<char>> {
    first_seen(named(r))
}

/// The states of a regime are each named once, none is the empty text, and
/// each is a state the regime writes.
pub proof fn law_a_regime_names_each_state_once(r: LifecycleRegime)
    ensures
        forall|i: int, j: int|
            0 <= i < j < states_of(r).len() ==> #[trigger] states_of(r)[i] != #[trigger] states_of(
                r,
            )[j],
        forall|i: int| 0 <= i < states_of(r).len() ==> (#[trigger] states_of(r)[i]).len() > 0,
        forall|i: int| 0 <= i < states_of(r).len() ==> named(r).contains(#[trigger] states_of(r)[i]),
{
    lemma_first_seen(named(r));
}

proof fn lemma_first_seen(s: Seq<Seq<char>>)
    ensures
        forall|i: int, j: int|
            0 <= i < j < first_seen(s).len() ==> #[trigger] first_seen(s)[i] != #[trigger] first_seen(
                s,
            )[j],
        forall|i: int| 0 <= i < first_seen(s).len() ==> (#[trigger] first_seen(s)[i]).len() > 0,
        forall|i: int| 0 <= i < first_seen(s).len() ==> s.contains(#[trigger] first_seen(s)[i]),
    decreases s.len(),
{
    if s.len() > 0 {
        let init = s.drop_last();
        lemma_first_seen(init);
        let before = first_seen(init);
        assert forall|i: int| 0 <= i < before.len() implies s.contains(#[trigger] before[i]) by {
            let k = choose|k: int| 0 <= k < init.len() && init[k] == before[i];
            assert(s[k] == init[k]);
        }
        if !(s.last().len() == 0 || before.contains(s.last())) {
            let out = before.push(s.last());
            assert forall|i: int, j: int| 0 <= i < j < out.len() implies #[trigger] out[i] != #[trigger] out[j] by {
                if j == out.len() - 1 {
                    assert(out[i] == before[i]);
                }
            }
            assert(s.contains(s.last())) by {
                assert(s[s.len() - 1] == s.last());
            }
        }
    }
}

/// Whether a list of transitions gives a state somewhere to go.
pub open spec fn exits(ts: Seq<(String, Vec<String>)>, state: Seq<char>) -> bool {
    exists|i: int| 0 <= i < ts.len() && (#[trigger] ts[i]).0@ == state && ts[i].1@.len() > 0
}

/// The texts of a list of borrowed strings.
pub open spec fn texts_of(v: Seq<&str>) -> Seq<Seq<char>> {
    v.map_values(|s: &str| s@)
}

/// `out` with `s` after it, unless `s` is empty or `out` holds it already.
fn note<'a>(out: &mut Vec<&'a str>, s: &'a str)
    ensures
        texts_of(final(out)@) == (if s@.len() == 0 || texts_of(old(out)@).contains(s@) {
            texts_of(old(out)@)
        } else {
            texts_of(old(out)@).push(s@)
        }),
{
    if chars_of(s).len() == 0 {
        return;
    }
    let mut i: usize = 0;
    while i < out.len()
        invariant
            i <= out@.len(),
            forall|k: int| 0 <= k < i ==> (#[trigger] out@[k])@ != s@,
        decreases out@.len() - i,
    {
        if str_eq(out[i], s) {
            assert(texts_of(out@)[i as int] == s@);
            return;
        }
        i = i + 1;
    }
    assert(!texts_of(out@).contains(s@)) by {
        if texts_of(out@).contains(s@) {
            let k = choose|k: int| 0 <= k < texts_of(out@).len() && texts_of(out@)[k] == s@;
            assert(out@[k]@ == s@);
        }
    }
    out.push(s);
    assert(texts_of(out@) =~= texts_of(old(out)@).push(s@));
}

impl LifecycleRegime {
    /// The states this regime names, in declaration order: the initial state,
    /// then each source and its targets, each once.
    pub fn states(&self) -> (out: Vec<&str>)
        ensures
            texts_of(out@) == states_of(*self),
    {
        let mut out: Vec<&str> = Vec::new();
        assert(texts_of(out@) =~= Seq::<Seq<char>>::empty());
        note(&mut out, self.initial.as_str());
        assert(seq![self.initial@].drop_last() =~= Seq::<Seq<char>>::empty());
        assert(seq![self.initial@].last() == self.initial@);
        assert(first_seen(Seq::<Seq<char>>::empty()) =~= Seq::<Seq<char>>::empty());
        assert(texts_of(out@) == first_seen(seq![self.initial@]));
        let ts = &self.transitions;
        let mut i: usize = 0;
        while i < ts.len()
            invariant
                i <= ts@.len(),
                ts@ == self.transitions@,
                texts_of(out@) == first_seen(seq![self.initial@] + moves(ts@.take(i as int))),
            decreases ts@.len() - i,
        {
            let ghost base = seq![self.initial@] + moves(ts@.take(i as int));
            assert(ts@.take(i + 1).drop_last() =~= ts@.take(i as int));
            assert(ts@.take(i + 1).last() == ts@[i as int]);
            note(&mut out, ts[i].0.as_str());
            assert(base.push(ts@[i as int].0@).drop_last() =~= base);
            let targets = &ts[i].1;
            let mut j: usize = 0;
            while j < targets.len()
                invariant
                    j <= targets@.len(),
                    targets@ == ts@[i as int].1@,
                    texts_of(out@) == first_seen(
                        base.push(ts@[i as int].0@) + names_of(targets@).take(j as int),
                    ),
                decreases targets@.len() - j,
            {
                let ghost done = base.push(ts@[i as int].0@) + names_of(targets@).take(j as int);
                note(&mut out, targets[j].as_str());
                assert((done.push(targets@[j as int]@)).drop_last() =~= done);
                assert(done.push(targets@[j as int]@) =~= base.push(ts@[i as int].0@) + names_of(
                    targets@,
                ).take(j + 1));
                j = j + 1;
            }
            assert(names_of(targets@).take(j as int) =~= names_of(targets@));
            assert(base.push(ts@[i as int].0@) + names_of(targets@) =~= seq![self.initial@] + moves(
                ts@.take(i + 1),
            ));
            i = i + 1;
        }
        assert(ts@.take(i as int) =~= ts@);
        out
    }

    /// Whether this regime names a state.
    pub fn names(&self, state: &str) -> (r: bool)
        ensures
            r == states_of(*self).contains(state@),
    {
        let admitted = self.states();
        names(admitted.as_slice(), state)
    }

    /// Whether this regime gives a state no exit.
    pub fn terminal(&self, state: &str) -> (r: bool)
        ensures
            r == !exits(self.transitions@, state@),
    {
        let mut i: usize = 0;
        while i < self.transitions.len()
            invariant
                i <= self.transitions@.len(),
                forall|k: int|
                    0 <= k < i ==> !((#[trigger] self.transitions@[k]).0@ == state@
                        && self.transitions@[k].1@.len() > 0),
            decreases self.transitions@.len() - i,
        {
            if str_eq(self.transitions[i].0.as_str(), state) && self.transitions[i].1.len() > 0 {
                return false;
            }
            i = i + 1;
        }
        true
    }
}

/// What a state is, in the terms a rule about depending on a document reads:
/// a reading of the role the vocabulary gives the state, never a list of
/// state names. A taxonomy that renames every state keeps the roles, and this
/// reading moves with it.
///
/// `Initial` and `Neither` are two facts. A document at the initial state is
/// one somebody is still working on; a document whose state carries no role
/// this reading knows is one nothing here decides about.
#[derive(Clone, Copy, Debug, PartialEq, Eq, Structural)]
pub enum Standing {
    /// `role: live`. A reader may rely on this document.
    Live,
    /// A `terminal-` role. The document is kept as a record and nothing new
    /// may rest on it.
    Terminal,
    /// `role: initial`. Nothing has promoted this document.
    Initial,
    /// None of the three, including a state whose value declares no role and
    /// a value the vocabulary does not hold.
    Neither,
}

/// The state one version of a document stood in. A document that declares no
/// state and a document whose state nothing declares are two facts, answered
/// by two different rules.
#[derive(Clone, Debug, PartialEq, Eq)]
pub enum Stood {
    /// A state the vocabulary holds.
    At(String),
    /// The document writes no scalar for the state facet.
    Undeclared,
    /// The document writes a value the state facet does not admit.
    NotAState(String),
}

/// The first facet declared in a role.
pub open spec fn in_role(facets: Seq<Facet>, role: Seq<char>) -> Option<Facet>
    decreases facets.len(),
{
    if facets.len() == 0 {
        None
    } else if facets[0].role is Some && facets[0].role->0@ == role {
        Some(facets[0])
    } else {
        in_role(facets.skip(1), role)
    }
}

/// The role of the first value of a vocabulary that spells a state, and
/// nothing where no value does or that value carries no role.
pub open spec fn role_of(values: Seq<FacetValue>, state: Seq<char>) -> Option<String>
    decreases values.len(),
{
    if values.len() == 0 {
        None
    } else if values[0].value@ == state {
        values[0].role
    } else {
        role_of(values.skip(1), state)
    }
}

/// What a state stands as, read off its role.
pub open spec fn standing_of(values: Seq<FacetValue>, state: Seq<char>) -> Standing {
    match role_of(values, state) {
        Some(role) => if TERMINAL@.is_prefix_of(role@) {
            Standing::Terminal
        } else if role@ == LIVE@ {
            Standing::Live
        } else if role@ == INITIAL@ {
            Standing::Initial
        } else {
            Standing::Neither
        },
        None => Standing::Neither,
    }
}

/// Whether a vocabulary holds a value.
pub open spec fn holds_value(values: Seq<FacetValue>, text: Seq<char>) -> bool {
    exists|i: int| 0 <= i < values.len() && (#[trigger] values[i]).value@ == text
}

/// What a front matter writes for the state facet: the entry, the scalar, and
/// whether the vocabulary holds it; nothing where no facet plays the role, the
/// front matter has no entry for it, or its value is no scalar.
pub open spec fn reading(name: Option<String>, values: Seq<FacetValue>, facets: Seq<Entry>) -> Option<
    (Entry, Seq<char>, bool),
> {
    match name {
        None => None,
        Some(n) => match entry_under(facets, n@) {
            None => None,
            Some(e) => match e.scalar {
                None => None,
                Some(t) => Some((e, t@, holds_value(values, t@))),
            },
        },
    }
}

/// The facet in the `state` role, resolved once, with the values it admits.
pub struct StateFacet {
    /// The facet's name; a taxonomy that declares none generates no instance
    /// of the rules that read it.
    name: Option<String>,
    /// The values that facet admits, with the role the vocabulary gives each.
    values: Vec<FacetValue>,
}

impl StateFacet {
    pub closed spec fn facet_name(&self) -> Option<String> {
        self.name
    }

    pub closed spec fn held(&self) -> Seq<FacetValue> {
        self.values@
    }

    /// Whether a facet plays the `state` role.
    pub fn declared(&self) -> (r: bool)
        ensures
            r == self.facet_name() is Some,
    {
        self.name.is_some()
    }

    /// The first facet of the declarations in the `state` role, or none.
    pub fn of(facets: Vec<Facet>) -> (f: Self)
        ensures
            match in_role(facets@, STATE@) {
                Some(d) => f.facet_name() == Some(d.name) && f.held() == d.values@,
                None => f.facet_name() is None && f.held().len() == 0,
            },
    {
        let mut pool = facets;
        let ghost all = pool@;
        let mut i: usize = 0;
        assert(all.skip(0) =~= all);
        while i < pool.len()
            invariant
                pool@ == all,
                all == facets@,
                i <= all.len(),
                in_role(all, STATE@) == in_role(all.skip(i as int), STATE@),
            decreases all.len() - i,
        {
            assert(all.skip(i as int)[0] == all[i as int]);
            assert(all.skip(i as int).skip(1) =~= all.skip(i + 1));
            let plays = match &pool[i].role {
                Some(r) => str_eq(r.as_str(), STATE),
                None => false,
            };
            assert(plays == (all[i as int].role is Some && all[i as int].role->0@ == STATE@));
            if plays {
                let d = pool.remove(i);
                assert(d == all[i as int]);
                assert(in_role(all.skip(i as int), STATE@) == Some(d));
                return StateFacet { name: Some(d.name), values: d.values };
            }
            i = i + 1;
        }
        StateFacet { name: None, values: Vec::new() }
    }

    /// What one state is, read off the role its value carries.
    pub fn standing(&self, state: &str) -> (s: Standing)
        ensures
            s == standing_of(self.held(), state@),
    {
        let mut i: usize = 0;
        assert(self.values@.skip(0) =~= self.values@);
        while i < self.values.len()
            invariant
                i <= self.values@.len(),
                role_of(self.values@, state@) == role_of(self.values@.skip(i as int), state@),
            decreases self.values@.len() - i,
        {
            assert(self.values@.skip(i as int)[0] == self.values@[i as int]);
            assert(self.values@.skip(i as int).skip(1) =~= self.values@.skip(i + 1));
            if str_eq(self.values[i].value.as_str(), state) {
                return match &self.values[i].role {
                    Some(role) => if begins_with(role.as_str(), TERMINAL) {
                        Standing::Terminal
                    } else if str_eq(role.as_str(), LIVE) {
                        Standing::Live
                    } else if str_eq(role.as_str(), INITIAL) {
                        Standing::Initial
                    } else {
                        Standing::Neither
                    },
                    None => Standing::Neither,
                };
            }
            i = i + 1;
        }
        Standing::Neither
    }

    /// Whether the vocabulary holds a value.
    fn holds(&self, text: &str) -> (r: bool)
        ensures
            r == holds_value(self.held(), text@),
    {
        let mut i: usize = 0;
        while i < self.values.len()
            invariant
                i <= self.values@.len(),
                forall|k: int| 0 <= k < i ==> (#[trigger] self.values@[k]).value@ != text@,
            decreases self.values@.len() - i,
        {
            if str_eq(self.values[i].value.as_str(), text) {
                return true;
            }
            i = i + 1;
        }
        false
    }

    /// What one version of a document reads as.
    pub fn stood(&self, facets: &[Entry]) -> (s: Stood)
        ensures
            match reading(self.facet_name(), self.held(), facets@) {
                None => s is Undeclared,
                Some((_, t, true)) => s matches Stood::At(x) && x@ == t,
                Some((_, t, false)) => s matches Stood::NotAState(x) && x@ == t,
            },
    {
        let name = match &self.name {
            Some(n) => n,
            None => return Stood::Undeclared,
        };
        let e = match entry(facets, name.as_str()) {
            Some(e) => e,
            None => return Stood::Undeclared,
        };
        match &e.scalar {
            None => Stood::Undeclared,
            Some(text) => if self.holds(text.as_str()) {
                Stood::At(owned(text.as_str()))
            } else {
                Stood::NotAState(owned(text.as_str()))
            },
        }
    }
}

/// The regime the first binding of a kind names, and none where the kind is
/// not listed or binds no regime.
pub open spec fn regime_in(kinds: Seq<(String, Option<LifecycleRegime>)>, kind: Seq<char>) -> Option<
    LifecycleRegime,
>
    decreases kinds.len(),
{
    if kinds.len() == 0 {
        None
    } else if kinds[0].0@ == kind {
        kinds[0].1
    } else {
        regime_in(kinds.skip(1), kind)
    }
}

/// Each text of a list between backticks.
pub open spec fn ticked(s: Seq<Seq<char>>) -> Seq<Seq<char>> {
    s.map_values(|x: Seq<char>| "`"@ + x + "`"@)
}

/// The finding for a document of `kind` at `standing`, a state the regime it
/// binds does not name, at the key of the state facet.
pub open spec fn state_finding(
    f: Finding,
    kind: Seq<char>,
    path: Seq<char>,
    e: Entry,
    regime: Seq<char>,
    standing: Seq<char>,
    admitted: Seq<Seq<char>>,
) -> bool {
    error_at(
        f,
        RULE,
        path,
        e.key_line,
        e.key_column,
        "a `"@ + kind + "` stands at `"@ + standing + "`, and the lifecycle regime `"@ + regime
            + "` that this kind binds names no such state: a `"@ + kind + "` stands at one of "@
            + join(ticked(admitted), ", "@),
        "change `"@ + e.key@ + "` in "@ + path + " to one of: "@ + join(admitted, ", "@)
            + ", or bind `"@ + kind + "` to a lifecycle regime that names `"@ + standing + "`"@,
    )
}

/// The states of a list written out with `, ` between them, each between
/// backticks where `ticks` asks for it.
fn listing(states: &[&str], ticks: bool) -> (out: Vec<char>)
    ensures
        out@ == join(
            if ticks {
                ticked(texts_of(states@))
            } else {
                texts_of(states@)
            },
            ", "@,
        ),
{
    let ghost all = if ticks {
        ticked(texts_of(states@))
    } else {
        texts_of(states@)
    };
    let mut out: Vec<char> = Vec::new();
    let mut i: usize = 0;
    while i < states.len()
        invariant
            i <= states@.len(),
            all.len() == states@.len(),
            all == (if ticks {
                ticked(texts_of(states@))
            } else {
                texts_of(states@)
            }),
            out@ == join(all.take(i as int), ", "@),
        decreases states@.len() - i,
    {
        let ghost done = all.take(i as int);
        let ghost next = all.take(i + 1);
        assert(next.drop_last() =~= done);
        let ghost start = out@;
        if i > 0 {
            extend_str(&mut out, ", ");
        }
        let ghost sep = out@;
        if ticks {
            extend_str(&mut out, "`");
        }
        extend_str(&mut out, states[i]);
        if ticks {
            extend_str(&mut out, "`");
        }
        proof {
            assert(next.last() == all[i as int]);
            assert(out@ == sep + all[i as int]);
            if i == 0 {
                assert(sep =~= Seq::<char>::empty());
                assert(out@ =~= next[0]);
            } else {
                assert(join(next, ", "@) == join(done, ", "@) + ", "@ + next.last());
            }
        }
        i = i + 1;
    }
    assert(all.take(i as int) =~= all);
    out
}

/// Whether a list of states holds one.
fn names(states: &[&str], state: &str) -> (r: bool)
    ensures
        r == texts_of(states@).contains(state@),
{
    let mut i: usize = 0;
    while i < states.len()
        invariant
            i <= states@.len(),
            forall|k: int| 0 <= k < i ==> (#[trigger] states@[k])@ != state@,
        decreases states@.len() - i,
    {
        if str_eq(states[i], state) {
            assert(texts_of(states@)[i as int] == state@);
            return true;
        }
        i = i + 1;
    }
    assert(!texts_of(states@).contains(state@)) by {
        if texts_of(states@).contains(state@) {
            let k = choose|k: int| 0 <= k < texts_of(states@).len() && texts_of(states@)[k] == state@;
            assert(states@[k]@ == state@);
        }
    }
    false
}

/// The regime the first binding of a kind names.
pub fn regime_of<'a>(kinds: &'a [(String, Option<LifecycleRegime>)], kind: &str) -> (r: Option<
    &'a LifecycleRegime,
>)
    ensures
        match r {
            Some(x) => regime_in(kinds@, kind@) == Some(*x),
            None => regime_in(kinds@, kind@) is None,
        },
{
    let mut i: usize = 0;
    assert(kinds@.skip(0) =~= kinds@);
    while i < kinds.len()
        invariant
            i <= kinds@.len(),
            regime_in(kinds@, kind@) == regime_in(kinds@.skip(i as int), kind@),
        decreases kinds@.len() - i,
    {
        assert(kinds@.skip(i as int)[0] == kinds@[i as int]);
        assert(kinds@.skip(i as int).skip(1) =~= kinds@.skip(i + 1));
        if str_eq(kinds[i].0.as_str(), kind) {
            return match &kinds[i].1 {
                Some(r) => Some(r),
                None => None,
            };
        }
        i = i + 1;
    }
    None
}

/// The check. It carries the state facet and, for each kind, the lifecycle
/// regime it binds, because the states it reads are declared rather than
/// known.
pub struct StateAdmitted {
    facet: StateFacet,
    kinds: Vec<(String, Option<LifecycleRegime>)>,
}

impl StateAdmitted {
    pub closed spec fn facet_name(&self) -> Option<String> {
        self.facet.name
    }

    pub closed spec fn held(&self) -> Seq<FacetValue> {
        self.facet.values@
    }

    pub closed spec fn bindings(&self) -> Seq<(String, Option<LifecycleRegime>)> {
        self.kinds@
    }

    /// The generation step, from the facet declarations and each kind with
    /// the regime it binds.
    pub fn over(facets: Vec<Facet>, kinds: Vec<(String, Option<LifecycleRegime>)>) -> (c: Self)
        ensures
            match in_role(facets@, STATE@) {
                Some(d) => c.facet_name() == Some(d.name) && c.held() == d.values@,
                None => c.facet_name() is None && c.held().len() == 0,
            },
            c.bindings() == kinds@,
    {
        StateAdmitted { facet: StateFacet::of(facets), kinds }
    }

    /// The regime a kind binds.
    pub fn lifecycle_of(&self, kind: &str) -> (r: Option<&LifecycleRegime>)
        ensures
            match r {
                Some(x) => regime_in(self.bindings(), kind@) == Some(*x),
                None => regime_in(self.bindings(), kind@) is None,
            },
    {
        regime_of(self.kinds.as_slice(), kind)
    }

    /// A kind that binds a lifecycle regime, in a taxonomy whose vocabulary
    /// has a state facet. A kind that binds none declares no admitted set, and
    /// an instance over it could only ever pass.
    pub fn instantiates(&self, kind: &str) -> (r: bool)
        ensures
            r == (self.facet_name() is Some && regime_in(self.bindings(), kind@) is Some),
    {
        self.facet.name.is_some() && self.lifecycle_of(kind).is_some()
    }

    /// One document of `kind` at `path`, with the entries of its front
    /// matter.
    pub fn evaluate(&self, kind: &str, path: &str, facets: &[Entry]) -> (o: Outcome)
        ensures
            match regime_in(self.bindings(), kind@) {
                None => o is Passed,
                Some(r) => match reading(self.facet_name(), self.held(), facets@) {
                    None => o == Outcome::Skipped(UNDECLARED),
                    Some((e, t, admitted)) => if !admitted {
                        o == Outcome::Skipped(NOT_A_STATE)
                    } else if states_of(r).len() == 0 {
                        o == Outcome::Skipped(NO_STATE)
                    } else if states_of(r).contains(t) {
                        o is Passed
                    } else {
                        o matches Outcome::Failed(v) && v@.len() == 1 && state_finding(
                            v@[0],
                            kind@,
                            path@,
                            e,
                            r.name@,
                            t,
                            states_of(r),
                        )
                    },
                },
            },
    {
        let regime = match self.lifecycle_of(kind) {
            Some(r) => r,
            None => return Outcome::Passed,
        };
        let standing = match self.facet.stood(facets) {
            Stood::At(state) => state,
            Stood::Undeclared => return Outcome::Skipped(UNDECLARED),
            Stood::NotAState(_) => return Outcome::Skipped(NOT_A_STATE),
        };
        let admitted = regime.states();
        if admitted.len() == 0 {
            return Outcome::Skipped(NO_STATE);
        }
        if names(admitted.as_slice(), standing.as_str()) {
            return Outcome::Passed;
        }
        let name = match &self.facet.name {
            Some(n) => n,
            None => return Outcome::Passed,
        };
        let e = match entry(facets, name.as_str()) {
            Some(e) => e,
            None => return Outcome::Passed,
        };
        let offers = listing(admitted.as_slice(), true);
        let plain = listing(admitted.as_slice(), false);
        let mut m: Vec<char> = chars_of("a `");
        extend_str(&mut m, kind);
        extend_str(&mut m, "` stands at `");
        extend_str(&mut m, standing.as_str());
        extend_str(&mut m, "`, and the lifecycle regime `");
        extend_str(&mut m, regime.name.as_str());
        extend_str(&mut m, "` that this kind binds names no such state: a `");
        extend_str(&mut m, kind);
        extend_str(&mut m, "` stands at one of ");
        extend(&mut m, offers.as_slice());
        let mut r: Vec<char> = chars_of("change `");
        extend_str(&mut r, e.key.as_str());
        extend_str(&mut r, "` in ");
        extend_str(&mut r, path);
        extend_str(&mut r, " to one of: ");
        extend(&mut r, plain.as_slice());
        extend_str(&mut r, ", or bind `");
        extend_str(&mut r, kind);
        extend_str(&mut r, "` to a lifecycle regime that names `");
        extend_str(&mut r, standing.as_str());
        extend_str(&mut r, "`");
        Outcome::failed_with(
            Finding {
                rule: RULE,
                severity: Severity::Error,
                obligation: None,
                path: owned(path),
                line: e.key_line,
                column: e.key_column,
                message: string_of(m.as_slice()),
                remediation: string_of(r.as_slice()),
                patch: None,
            },
        )
    }
}

} // verus!
