//! A document that owes a relation within a window of days, and has not
//! declared it once the window closed.
//!
//! A kind declares expectations: a relation a document of it should reach,
//! optionally to a kind, within a number of days measured from the date a
//! facet in a named role carries, optionally only for documents carrying
//! given facet values. The rule reads the run's date, so a verdict changes at
//! a day boundary and at no finer one. A declaration this engine cannot read
//! is a visible skip with the first reason, never a pass.
use vstd::prelude::*;
use crate::context::{date_of, Date};
use crate::facets::{entry, entry_under, Entry};
use crate::finding::{Finding, Severity};
use crate::instance::Outcome;
use crate::lifecycle::{in_role, Facet};
use crate::scope::{descends, descends_from, Direction, End, Neighbour, NeighbourhoodView};
use crate::text::{chars_of, extend_signed, extend_str, owned, signed_decimal, str_eq, string_of};

verus! {

pub const RULE: &'static str = "relation.participation.overdue";

/// The run handed this check no date, though it reads one.
pub const NO_CLOCK: &'static str = "the run injected no clock";

pub const NO_RELATION: &'static str = "the expectation names a relation that no declaration holds";

pub const NO_SEVERITY: &'static str = "the expectation states a severity this engine does not know";

pub const NO_WINDOW: &'static str = "the expectation states no window this engine can read";

pub const NO_ORIGIN_FACET: &'static str = "the expectation measures from a role that no facet carries";

pub const NO_ORIGIN_DATE: &'static str = "the document declares no readable date under the origin facet";

/// One participation expectation a kind declares.
#[derive(Clone, Debug)]
pub struct Expectation {
    pub id: String,
    /// The relation it owes, by the name the kind writes, which may be the
    /// inverse name.
    pub relation: String,
    /// The kind the relation should reach, where it names one.
    pub to_kind: Option<String>,
    /// The role of the facet whose date opens the window.
    pub since_role: String,
    /// How many days the window stays open, where it states a window this
    /// engine reads.
    pub within_days: Option<i64>,
    /// The severity a finding carries, where it states one this engine knows.
    pub severity: Option<Severity>,
    /// The facet values a document must carry for the expectation to apply;
    /// none applies it to every document of the kind.
    pub when: Vec<(String, String)>,
    /// Why the relation is owed, which the remediation quotes.
    pub rationale: Option<String>,
}

/// One expectation, with every name it uses resolved once.
#[derive(Clone, Debug)]
pub struct Windowed {
    /// The kind that declares it.
    pub kind: String,
    pub expectation: Expectation,
    /// The relation the written name declares.
    pub relation: Option<String>,
    /// The end of that relation a document declaring the expectation sits
    /// at: a name written as declared puts it at the source, an inverse name
    /// at the target.
    pub end: Option<End>,
    /// The facet that carries the role the window is measured from.
    pub since_facet: Option<String>,
}

/// The first reading of a written relation name: the name, the relation it
/// declares, and the direction.
pub open spec fn named_in(named: Seq<(String, String, Direction)>, name: Seq<char>) -> Option<
    (String, String, Direction),
>
    decreases named.len(),
{
    if named.len() == 0 {
        None
    } else if named[0].0@ == name {
        Some(named[0])
    } else {
        named_in(named.skip(1), name)
    }
}

/// The end a direction puts the writing document at.
pub open spec fn end_of(d: Direction) -> End {
    match d {
        Direction::AsDeclared => End::Source,
        Direction::Inverse => End::Target,
    }
}

/// Whether a windowed expectation is one declaration resolved against the
/// relation names and the facets.
pub open spec fn windowed_ok(
    w: Windowed,
    kind: Seq<char>,
    e: Expectation,
    named: Seq<(String, String, Direction)>,
    facets: Seq<Facet>,
) -> bool {
    &&& w.kind@ == kind
    &&& w.expectation == e
    &&& match named_in(named, e.relation@) {
        None => w.relation is None && w.end is None,
        Some(n) => w.relation is Some && w.relation->0@ == n.1@ && w.end == Some(end_of(n.2)),
    }
    &&& match in_role(facets, e.since_role@) {
        None => w.since_facet is None,
        Some(f) => w.since_facet is Some && w.since_facet->0@ == f.name@,
    }
}

/// Every expectation of every kind, with the kind that declares it, in order.
pub open spec fn declared(kinds: Seq<(String, Vec<Expectation>)>) -> Seq<(Seq<char>, Expectation)>
    decreases kinds.len(),
{
    if kinds.len() == 0 {
        Seq::empty()
    } else {
        declared(kinds.drop_last()) + kinds.last().1@.map_values(
            |e: Expectation| (kinds.last().0@, e),
        )
    }
}

/// Whether a front matter carries one facet value.
pub open spec fn carries(facets: Seq<Entry>, p: (String, String)) -> bool {
    match entry_under(facets, p.0@) {
        Some(e) => e.scalar is Some && e.scalar->0@ == p.1@,
        None => false,
    }
}

/// Whether an expectation applies to a document: it carries every value the
/// expectation names.
pub open spec fn applies(when: Seq<(String, String)>, facets: Seq<Entry>) -> bool {
    forall|i: int| 0 <= i < when.len() ==> carries(facets, #[trigger] when[i])
}

/// Whether one neighbour meets an expectation: the relation, the end, and a
/// kind that descends from the one it names.
pub open spec fn meets(lineage: Seq<(String, Vec<String>)>, e: Expectation, relation: Seq<char>, end: End, n: Neighbour) -> bool {
    &&& n.relation@ == relation
    &&& n.end == end
    &&& match e.to_kind {
        None => true,
        Some(k) => descends(lineage, n.kind@, k@),
    }
}

/// Whether some neighbour meets an expectation.
pub open spec fn satisfied(
    lineage: Seq<(String, Vec<String>)>,
    e: Expectation,
    relation: Seq<char>,
    end: End,
    ns: Seq<Neighbour>,
) -> bool {
    exists|i: int| 0 <= i < ns.len() && meets(lineage, e, relation, end, #[trigger] ns[i])
}

/// What one expectation makes of a document on day `now`: nothing where it
/// does not apply, is met, or its window is still open; the reason where a
/// declaration does not read; and the days elapsed with the origin entry
/// where the window closed with the relation undeclared.
pub open spec fn judged(
    lineage: Seq<(String, Vec<String>)>,
    w: Windowed,
    view: NeighbourhoodView,
    now: int,
) -> Option<Result<(int, Entry), &'static str>> {
    let e = w.expectation;
    if w.kind@ != view.kind@ || !applies(e.when@, view.facets@) {
        None
    } else if w.relation is None || w.end is None {
        Some(Err(NO_RELATION))
    } else if e.severity is None {
        Some(Err(NO_SEVERITY))
    } else if e.within_days is None {
        Some(Err(NO_WINDOW))
    } else if w.since_facet is None {
        Some(Err(NO_ORIGIN_FACET))
    } else if satisfied(lineage, e, w.relation->0@, w.end->0, view.neighbours@) {
        None
    } else {
        match entry_under(view.facets@, w.since_facet->0@) {
            None => Some(Err(NO_ORIGIN_DATE)),
            Some(entry) => match entry.scalar {
                None => Some(Err(NO_ORIGIN_DATE)),
                Some(t) => match date_of(t@) {
                    None => Some(Err(NO_ORIGIN_DATE)),
                    Some(origin) => if now - origin <= e.within_days->0 {
                        None
                    } else {
                        Some(Ok((now - origin, entry)))
                    },
                },
            },
        }
    }
}

/// The expectations whose window closed, each with the days elapsed and the
/// origin entry, in declaration order.
pub open spec fn overdues(
    lineage: Seq<(String, Vec<String>)>,
    ws: Seq<Windowed>,
    view: NeighbourhoodView,
    now: int,
) -> Seq<(Windowed, int, Entry)>
    decreases ws.len(),
{
    if ws.len() == 0 {
        Seq::empty()
    } else {
        let rest = overdues(lineage, ws.drop_last(), view, now);
        match judged(lineage, ws.last(), view, now) {
            Some(Ok((n, e))) => rest.push((ws.last(), n, e)),
            _ => rest,
        }
    }
}

/// The first reason a declaration could not be read.
pub open spec fn first_reason(
    lineage: Seq<(String, Vec<String>)>,
    ws: Seq<Windowed>,
    view: NeighbourhoodView,
    now: int,
) -> Option<&'static str>
    decreases ws.len(),
{
    if ws.len() == 0 {
        None
    } else {
        match first_reason(lineage, ws.drop_last(), view, now) {
            Some(r) => Some(r),
            None => match judged(lineage, ws.last(), view, now) {
                Some(Err(r)) => Some(r),
                _ => None,
            },
        }
    }
}

/// What an expectation owes, as a message names it.
pub open spec fn owed(w: Windowed) -> Seq<char> {
    match w.expectation.to_kind {
        Some(k) => "`"@ + w.relation->0@ + "` to a `"@ + k@ + "`"@,
        None => "`"@ + w.relation->0@ + "`"@,
    }
}

/// The finding for an expectation whose window closed, at the origin facet.
pub open spec fn overdue_finding(f: Finding, view: NeighbourhoodView, x: (Windowed, int, Entry)) -> bool {
    let w = x.0;
    let e = w.expectation;
    &&& f.rule == RULE
    &&& f.severity == e.severity->0
    &&& f.obligation is None
    &&& f.path@ == view.path@
    &&& f.line == x.2.key_line
    &&& f.column == x.2.key_column
    &&& f.message@ == "`"@ + e.id@ + "`: "@ + signed_decimal(x.1) + " days since `"@
        + w.since_facet->0@ + "`, and this `"@ + view.kind@ + "` reaches no "@ + owed(w)
        + " inside the "@ + signed_decimal(e.within_days->0 as int) + " days the taxonomy allows"@
    &&& f.remediation@ == match e.rationale {
        Some(r) => "declare "@ + owed(w) + " under `relations:` in "@ + view.path@
            + ", or record why it is not owed: "@ + r@,
        None => "declare "@ + owed(w) + " under `relations:` in "@ + view.path@,
    }
    &&& f.patch is None
}

/// The first reading of a written relation name.
fn named_lookup<'a>(named: &'a [(String, String, Direction)], name: &str) -> (r: Option<
    &'a (String, String, Direction),
>)
    ensures
        match r {
            Some(x) => named_in(named@, name@) == Some(*x),
            None => named_in(named@, name@) is None,
        },
{
    let mut i: usize = 0;
    assert(named@.skip(0) =~= named@);
    while i < named.len()
        invariant
            i <= named@.len(),
            named_in(named@, name@) == named_in(named@.skip(i as int), name@),
        decreases named@.len() - i,
    {
        assert(named@.skip(i as int)[0] == named@[i as int]);
        assert(named@.skip(i as int).skip(1) =~= named@.skip(i + 1));
        if str_eq(named[i].0.as_str(), name) {
            return Some(&named[i]);
        }
        i = i + 1;
    }
    None
}

/// The first facet declared in a role.
fn facet_in_role<'a>(facets: &'a [Facet], role: &str) -> (r: Option<&'a Facet>)
    ensures
        match r {
            Some(x) => in_role(facets@, role@) == Some(*x),
            None => in_role(facets@, role@) is None,
        },
{
    let mut i: usize = 0;
    assert(facets@.skip(0) =~= facets@);
    while i < facets.len()
        invariant
            i <= facets@.len(),
            in_role(facets@, role@) == in_role(facets@.skip(i as int), role@),
        decreases facets@.len() - i,
    {
        assert(facets@.skip(i as int)[0] == facets@[i as int]);
        assert(facets@.skip(i as int).skip(1) =~= facets@.skip(i + 1));
        let plays = match &facets[i].role {
            Some(r) => str_eq(r.as_str(), role),
            None => false,
        };
        if plays {
            return Some(&facets[i]);
        }
        i = i + 1;
    }
    None
}

/// The check, generated from the participation expectations of every kind.
pub struct Participation {
    windowed: Vec<Windowed>,
    /// Each kind with the kinds it descends from.
    lineage: Vec<(String, Vec<String>)>,
}

impl Participation {
    pub closed spec fn expectations(&self) -> Seq<Windowed> {
        self.windowed@
    }

    pub closed spec fn kinds(&self) -> Seq<(String, Vec<String>)> {
        self.lineage@
    }

    /// The generation step, in full: every expectation of every kind, each
    /// resolved once against the relation names a document may write and the
    /// facets that carry roles. It reads the taxonomy and never the corpus.
    pub fn over(
        kinds: Vec<(String, Vec<Expectation>)>,
        named: &[(String, String, Direction)],
        facets: &[Facet],
        lineage: Vec<(String, Vec<String>)>,
    ) -> (p: Self)
        ensures
            p.expectations().len() == declared(kinds@).len(),
            forall|i: int|
                0 <= i < p.expectations().len() ==> windowed_ok(
                    #[trigger] p.expectations()[i],
                    declared(kinds@)[i].0,
                    declared(kinds@)[i].1,
                    named@,
                    facets@,
                ),
            p.kinds() == lineage@,
    {
        let mut windowed: Vec<Windowed> = Vec::new();
        let mut rest = kinds;
        let ghost all = rest@;
        let n = rest.len();
        let mut taken: usize = 0;
        while rest.len() > 0
            invariant
                n == all.len(),
                all == kinds@,
                taken + rest@.len() == all.len(),
                rest@ == all.skip(taken as int),
                windowed@.len() == declared(all.take(taken as int)).len(),
                forall|i: int|
                    0 <= i < windowed@.len() ==> windowed_ok(
                        #[trigger] windowed@[i],
                        declared(all.take(taken as int))[i].0,
                        declared(all.take(taken as int))[i].1,
                        named@,
                        facets@,
                    ),
            decreases rest@.len(),
        {
            let ghost before = declared(all.take(taken as int));
            assert(all.take(taken + 1).drop_last() =~= all.take(taken as int));
            assert(rest@[0] == all[taken as int]);
            let (kind, expectations) = rest.remove(0);
            let ghost adds = expectations@.map_values(|e: Expectation| (kind@, e));
            assert(declared(all.take(taken + 1)) == before + adds);
            let mut es = expectations;
            let ghost eall = es@;
            let m = es.len();
            let mut j: usize = 0;
            while es.len() > 0
                invariant
                    m == eall.len(),
                    adds == eall.map_values(|e: Expectation| (kind@, e)),
                    j + es@.len() == eall.len(),
                    es@ == eall.skip(j as int),
                    windowed@.len() == before.len() + j,
                    forall|i: int|
                        0 <= i < windowed@.len() ==> windowed_ok(
                            #[trigger] windowed@[i],
                            (before + adds)[i].0,
                            (before + adds)[i].1,
                            named@,
                            facets@,
                        ),
                decreases es@.len(),
            {
                assert(es@[0] == eall[j as int]);
                let e = es.remove(0);
                let (relation, end) = match named_lookup(named, e.relation.as_str()) {
                    Some(x) => (
                        Some(owned(x.1.as_str())),
                        Some(
                            match x.2 {
                                Direction::AsDeclared => End::Source,
                                Direction::Inverse => End::Target,
                            },
                        ),
                    ),
                    None => (None, None),
                };
                let since_facet = match facet_in_role(facets, e.since_role.as_str()) {
                    Some(f) => Some(owned(f.name.as_str())),
                    None => None,
                };
                let ghost idx = windowed@.len();
                windowed.push(
                    Windowed { kind: owned(kind.as_str()), expectation: e, relation, end, since_facet },
                );
                assert((before + adds)[idx as int] == (kind@, eall[j as int]));
                j = j + 1;
                assert(es@ =~= eall.skip(j as int));
            }
            taken = taken + 1;
            assert(rest@ =~= all.skip(taken as int));
        }
        assert(all.take(taken as int) =~= all);
        Participation { windowed, lineage }
    }

    /// A kind that declares an expectation generates an instance.
    pub fn instantiates(&self, kind: &str) -> (r: bool)
        ensures
            r == exists|i: int|
                0 <= i < self.expectations().len() && (#[trigger] self.expectations()[i]).kind@
                    == kind@,
    {
        let mut i: usize = 0;
        while i < self.windowed.len()
            invariant
                i <= self.windowed@.len(),
                forall|k: int| 0 <= k < i ==> (#[trigger] self.windowed@[k]).kind@ != kind@,
            decreases self.windowed@.len() - i,
        {
            if str_eq(self.windowed[i].kind.as_str(), kind) {
                return true;
            }
            i = i + 1;
        }
        false
    }

    /// Whether a document carries every value an expectation names.
    fn applies(wanted: &[(String, String)], facets: &[Entry]) -> (r: bool)
        ensures
            r == applies(wanted@, facets@),
    {
        let mut i: usize = 0;
        while i < wanted.len()
            invariant
                i <= wanted@.len(),
                forall|k: int| 0 <= k < i ==> carries(facets@, #[trigger] wanted@[k]),
            decreases wanted@.len() - i,
        {
            let ok = match entry(facets, wanted[i].0.as_str()) {
                Some(e) => match &e.scalar {
                    Some(t) => str_eq(t.as_str(), wanted[i].1.as_str()),
                    None => false,
                },
                None => false,
            };
            if !ok {
                return false;
            }
            i = i + 1;
        }
        true
    }

    /// Whether some neighbour meets an expectation.
    fn satisfied(&self, e: &Expectation, relation: &str, end: End, ns: &[Neighbour]) -> (r: bool)
        ensures
            r == satisfied(self.kinds(), *e, relation@, end, ns@),
    {
        let mut i: usize = 0;
        while i < ns.len()
            invariant
                i <= ns@.len(),
                forall|k: int| 0 <= k < i ==> !meets(self.lineage@, *e, relation@, end, #[trigger] ns@[k]),
            decreases ns@.len() - i,
        {
            let n = &ns[i];
            if str_eq(n.relation.as_str(), relation) && n.end == end {
                let reaches = match &e.to_kind {
                    None => true,
                    Some(k) => descends_from(self.lineage.as_slice(), n.kind.as_str(), k.as_str()),
                };
                if reaches {
                    return true;
                }
            }
            i = i + 1;
        }
        false
    }

    /// What one expectation makes of a document on day `now`.
    fn judge<'a>(&self, w: &Windowed, view: &'a NeighbourhoodView, now: Date) -> (r: Option<
        Result<(i128, &'a Entry), &'static str>,
    >)
        ensures
            match r {
                None => judged(self.kinds(), *w, *view, now.days()) is None,
                Some(Err(x)) => judged(self.kinds(), *w, *view, now.days()) == Some(
                    Err::<(int, Entry), &'static str>(x),
                ),
                Some(Ok((n, e))) => judged(self.kinds(), *w, *view, now.days()) == Some(
                    Ok::<(int, Entry), &'static str>((n as int, *e)),
                ) && -0xffff_ffff_ffff_ffff <= n <= 0xffff_ffff_ffff_ffff,
            },
    {
        let e = &w.expectation;
        if !str_eq(w.kind.as_str(), view.kind.as_str()) || !Participation::applies(
            e.when.as_slice(),
            view.facets.as_slice(),
        ) {
            return None;
        }
        let (relation, end) = match (&w.relation, w.end) {
            (Some(r), Some(end)) => (r, end),
            _ => return Some(Err(NO_RELATION)),
        };
        if e.severity.is_none() {
            return Some(Err(NO_SEVERITY));
        }
        let within = match e.within_days {
            Some(d) => d,
            None => return Some(Err(NO_WINDOW)),
        };
        let since = match &w.since_facet {
            Some(s) => s,
            None => return Some(Err(NO_ORIGIN_FACET)),
        };
        if self.satisfied(e, relation.as_str(), end, view.neighbours.as_slice()) {
            return None;
        }
        let entry = match entry(view.facets.as_slice(), since.as_str()) {
            Some(x) => x,
            None => return Some(Err(NO_ORIGIN_DATE)),
        };
        let text = match &entry.scalar {
            Some(t) => t,
            None => return Some(Err(NO_ORIGIN_DATE)),
        };
        let origin = match Date::parse(text.as_str()) {
            Some(d) => d,
            None => return Some(Err(NO_ORIGIN_DATE)),
        };
        let elapsed = now.days_after(origin);
        if elapsed <= within as i128 {
            return None;
        }
        Some(Ok((elapsed, entry)))
    }

    /// The finding for an expectation whose window closed.
    fn overdue(w: &Windowed, view: &NeighbourhoodView, elapsed: i128, at: &Entry) -> (f: Finding)
        requires
            w.relation is Some,
            w.since_facet is Some,
            w.expectation.severity is Some,
            w.expectation.within_days is Some,
            -0xffff_ffff_ffff_ffff <= elapsed <= 0xffff_ffff_ffff_ffff,
        ensures
            overdue_finding(f, *view, (*w, elapsed as int, *at)),
    {
        let e = &w.expectation;
        let relation = w.relation.as_ref().unwrap();
        let since = w.since_facet.as_ref().unwrap();
        let within = e.within_days.unwrap();
        let severity = e.severity.unwrap();
        let mut owes: Vec<char> = chars_of("`");
        extend_str(&mut owes, relation.as_str());
        match &e.to_kind {
            Some(k) => {
                extend_str(&mut owes, "` to a `");
                extend_str(&mut owes, k.as_str());
                extend_str(&mut owes, "`");
            },
            None => {
                extend_str(&mut owes, "`");
            },
        }
        let mut m: Vec<char> = chars_of("`");
        extend_str(&mut m, e.id.as_str());
        extend_str(&mut m, "`: ");
        extend_signed(&mut m, elapsed);
        extend_str(&mut m, " days since `");
        extend_str(&mut m, since.as_str());
        extend_str(&mut m, "`, and this `");
        extend_str(&mut m, view.kind.as_str());
        extend_str(&mut m, "` reaches no ");
        crate::text::extend(&mut m, owes.as_slice());
        extend_str(&mut m, " inside the ");
        extend_signed(&mut m, within as i128);
        extend_str(&mut m, " days the taxonomy allows");
        let mut d: Vec<char> = chars_of("declare ");
        crate::text::extend(&mut d, owes.as_slice());
        extend_str(&mut d, " under `relations:` in ");
        extend_str(&mut d, view.path.as_str());
        match &e.rationale {
            Some(r) => {
                extend_str(&mut d, ", or record why it is not owed: ");
                extend_str(&mut d, r.as_str());
            },
            None => {},
        }
        Finding {
            rule: RULE,
            severity,
            obligation: None,
            path: owned(view.path.as_str()),
            line: at.key_line,
            column: at.key_column,
            message: string_of(m.as_slice()),
            remediation: string_of(d.as_slice()),
            patch: None,
        }
    }

    /// One document with its edges. Each expectation whose window closed with
    /// the relation undeclared is one finding, in declaration order; with none,
    /// the first declaration that did not read is the skip's reason.
    pub fn evaluate(&self, view: &NeighbourhoodView) -> (o: Outcome)
        ensures
            match view.now {
                None => o == Outcome::Skipped(NO_CLOCK),
                Some(now) => {
                    let w = overdues(self.kinds(), self.expectations(), *view, now.days());
                    if w.len() > 0 {
                        o matches Outcome::Failed(v) && v@.len() == w.len() && forall|k: int|
                            0 <= k < w.len() ==> overdue_finding(#[trigger] v@[k], *view, w[k])
                    } else {
                        match first_reason(self.kinds(), self.expectations(), *view, now.days()) {
                            Some(r) => o == Outcome::Skipped(r),
                            None => o is Passed,
                        }
                    }
                },
            },
    {
        let now = match view.now {
            Some(d) => d,
            None => return Outcome::Skipped(NO_CLOCK),
        };
        let ghost ws = self.windowed@;
        let mut findings: Vec<Finding> = Vec::new();
        let mut unreadable: Option<&'static str> = None;
        let mut i: usize = 0;
        while i < self.windowed.len()
            invariant
                ws == self.windowed@,
                i <= ws.len(),
                findings@.len() == overdues(self.lineage@, ws.take(i as int), *view, now.days()).len(),
                forall|k: int|
                    0 <= k < findings@.len() ==> overdue_finding(
                        #[trigger] findings@[k],
                        *view,
                        overdues(self.lineage@, ws.take(i as int), *view, now.days())[k],
                    ),
                unreadable == first_reason(self.lineage@, ws.take(i as int), *view, now.days()),
            decreases ws.len() - i,
        {
            let ghost prefix = ws.take(i as int);
            let ghost before = overdues(self.lineage@, prefix, *view, now.days());
            assert(ws.take(i + 1).drop_last() =~= prefix);
            assert(ws.take(i + 1).last() == ws[i as int]);
            let w = &self.windowed[i];
            match self.judge(w, view, now) {
                None => {},
                Some(Err(reason)) => {
                    if unreadable.is_none() {
                        unreadable = Some(reason);
                    }
                },
                Some(Ok((elapsed, at))) => {
                    findings.push(Participation::overdue(w, view, elapsed, at));
                },
            }
            proof {
                let after = overdues(self.lineage@, ws.take(i + 1), *view, now.days());
                assert forall|k: int| 0 <= k < findings@.len() implies overdue_finding(
                    #[trigger] findings@[k],
                    *view,
                    after[k],
                ) by {
                    if k < before.len() {
                        assert(after[k] == before[k]);
                    }
                }
            }
            i = i + 1;
        }
        assert(ws.take(i as int) =~= ws);
        if findings.len() > 0 {
            Outcome::Failed(findings)
        } else {
            match unreadable {
                Some(r) => Outcome::Skipped(r),
                None => Outcome::Passed,
            }
        }
    }
}

} // verus!
