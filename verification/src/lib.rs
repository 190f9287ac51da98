//! The check layer of a documentation engine: the rules that hold a corpus
//! to its taxonomy, the runner that gathers what they found, and the reports,
//! caches and read sets a run writes.
//!
//! Each rule is a verified function from what a census and a graph hold, as
//! plain values, to the instances and findings it reaches. [`RULES`] lists the
//! rules this crate holds; rules checked by modules this crate does not
//! contain are not among them.
use vstd::prelude::*;

pub mod text;
pub mod anchors;
pub mod adoption;
pub mod basis;
pub mod cache;
pub mod change;
pub mod claim;
pub mod command;
pub mod context;
pub mod coverage;
pub mod declaration;
pub mod dependency;
pub mod duplicate;
pub mod endpoint;
pub mod facet_blank;
pub mod facet_required;
pub mod facet_value;
pub mod facets;
pub mod fill;
pub mod finding;
pub mod fragment;
pub mod frontmatter;
pub mod gate;
pub mod identifier;
pub mod identity;
pub mod index;
pub mod initial_dependency;
pub mod instance;
pub mod language;
pub mod lifecycle;
pub mod link_path;
pub mod links;
pub mod node;
pub mod observation;
pub mod outside_root;
pub mod paint;
pub mod participation;
pub mod patch;
pub mod placement;
pub mod promotion;
pub mod readset;
pub mod runner;
pub mod scope;

pub use runner::{run, Detail, Run, Serves};

verus! {

/// What a run scoped to a change states about it: an input rather than a
/// verdict, so a reader can reproduce the run from what it printed.
#[derive(Clone, Debug)]
pub struct Scoped {
    /// The documents the change named, and what became of each.
    pub named: change::Named,
    /// The paths the change named that this corpus holds no row at, in path
    /// order.
    pub unmatched: Vec<String>,
    /// Warrants that moved from `asserted` to `accepted` in this change.
    pub promotions: usize,
}

/// The block a report opens with when a run was scoped to a change.
pub open spec fn scoped_text(s: Scoped) -> Seq<char> {
    "scoped to a change: "@ + text::decimal(s.named.documents as nat) + " documents named, "@
        + text::decimal(s.named.added as nat) + " added, "@ + text::decimal(s.named.carried as nat)
        + " with a prior version this run read\n"@ + (if s.named.unreadable > 0 {
        "  "@ + text::right5(s.named.unreadable as nat)
            + " prior versions did not read, and every instance over one is skipped with its reason rather than passed\n"@
    } else {
        Seq::<char>::empty()
    }) + (if s.unmatched@.len() > 0 {
        "  "@ + text::right5(s.unmatched@.len())
            + " named no row of this corpus, so nothing was checked over them:\n"@ + unmatched_lines(
            s.unmatched@,
        )
    } else {
        Seq::<char>::empty()
    }) + "  "@ + text::right5(s.promotions as nat) + " promoted from `"@ + promotion::FROM@ + "` to `"@
        + promotion::TO@ + "`. Nothing declares how many promotions in one change is too many\n"@
}

/// Each path a change named that no row holds, on a line of its own.
pub open spec fn unmatched_lines(v: Seq<String>) -> Seq<char>
    decreases v.len(),
{
    if v.len() == 0 {
        Seq::<char>::empty()
    } else {
        unmatched_lines(v.drop_last()) + "        "@ + v.last()@ + "\n"@
    }
}

impl Scoped {
    /// The block a report opens with when a run was scoped to a change. A path
    /// that reached no row is checked by nothing, so this is the only report
    /// of one, and it stands above the count of promotions.
    pub fn render(&self) -> (s: String)
        ensures
            s@ == scoped_text(*self),
    {
        let mut out: Vec<char> = text::chars_of("scoped to a change: ");
        text::extend_decimal(&mut out, self.named.documents as u64);
        text::extend_str(&mut out, " documents named, ");
        text::extend_decimal(&mut out, self.named.added as u64);
        text::extend_str(&mut out, " added, ");
        text::extend_decimal(&mut out, self.named.carried as u64);
        text::extend_str(&mut out, " with a prior version this run read\n");
        if self.named.unreadable > 0 {
            text::extend_str(&mut out, "  ");
            text::extend_right5(&mut out, self.named.unreadable as u64);
            text::extend_str(
                &mut out,
                " prior versions did not read, and every instance over one is skipped with its reason rather than passed\n",
            );
        }
        if self.unmatched.len() > 0 {
            text::extend_str(&mut out, "  ");
            text::extend_right5(&mut out, self.unmatched.len() as u64);
            text::extend_str(&mut out, " named no row of this corpus, so nothing was checked over them:\n");
            let ghost head = out@;
            let mut i: usize = 0;
            assert(self.unmatched@.take(0) =~= Seq::<String>::empty());
            while i < self.unmatched.len()
                invariant
                    i <= self.unmatched@.len(),
                    out@ == head + unmatched_lines(self.unmatched@.take(i as int)),
                decreases self.unmatched@.len() - i,
            {
                assert(self.unmatched@.take(i + 1).drop_last() =~= self.unmatched@.take(i as int));
                text::extend_str(&mut out, "        ");
                text::extend_str(&mut out, self.unmatched[i].as_str());
                text::extend_str(&mut out, "\n");
                i = i + 1;
            }
            assert(self.unmatched@.take(i as int) =~= self.unmatched@);
        }
        text::extend_str(&mut out, "  ");
        text::extend_right5(&mut out, self.promotions as u64);
        text::extend_str(&mut out, " promoted from `");
        text::extend_str(&mut out, promotion::FROM);
        text::extend_str(&mut out, "` to `");
        text::extend_str(&mut out, promotion::TO);
        text::extend_str(&mut out, "`. Nothing declares how many promotions in one change is too many\n");
        assert(out@ =~= scoped_text(*self));
        text::string_of(out.as_slice())
    }
}

/// The emitter target a JSON Schema export is.
pub const JSONSCHEMA: &'static str = "jsonschema";

/// The rules this runner carries, in the order a report lists them: the
/// document rules generated from the taxonomy, then the graph rules, then the
/// document prose and link rules, then the runner's own accounting.
///
/// These are the rules whose checks this crate holds, and only those. The
/// engine's other rules (declared targets, suspect links, reciprocal
/// relations, voice, retired terms, source form, required sections, lifecycle
/// transitions, retention, the register's disposition and mechanism, and the
/// expiry of adoption tasks) are checked in modules that this crate does not
/// contain, so they are not listed here, and neither the registry, a
/// partition nor a run's per-rule counts speak of them.
pub const RULES: [&'static str; 15] = [
    facet_required::RULE,
    facet_value::RULE,
    identifier::RULE,
    placement::RULE,
    endpoint::RULE,
    dependency::RULE,
    participation::RULE,
    declaration::RULE,
    identity::RULE,
    duplicate::RULE,
    language::RULE,
    fragment::RULE,
    promotion::RULE,
    lifecycle::RULE,
    coverage::RULE,
];

/// Each rule with the edition that ran and the emitter targets it exports to,
/// in [`RULES`] order. A required facet is a member of the `required` array of
/// a JSON Schema, so that rule exports there; no other rule claims a target,
/// because a partial export is what a partition refuses to let a rule claim.
pub open spec fn declared() -> Seq<(&'static str, u32, Seq<&'static str>)> {
    seq![
        (facet_required::RULE, 1u32, seq![JSONSCHEMA]),
        (facet_value::RULE, 1u32, Seq::empty()),
        (identifier::RULE, 1u32, Seq::empty()),
        (placement::RULE, 2u32, Seq::empty()),
        (endpoint::RULE, 1u32, Seq::empty()),
        (dependency::RULE, 1u32, Seq::empty()),
        (participation::RULE, 1u32, Seq::empty()),
        (declaration::RULE, 1u32, Seq::empty()),
        (identity::RULE, 1u32, Seq::empty()),
        (duplicate::RULE, 1u32, Seq::empty()),
        (language::RULE, 1u32, Seq::empty()),
        (fragment::RULE, 3u32, Seq::empty()),
        (promotion::RULE, 1u32, Seq::empty()),
        (lifecycle::RULE, 1u32, Seq::empty()),
        (coverage::RULE, 1u32, Seq::empty()),
    ]
}

/// A registry as plain sequences.
pub open spec fn rows_view(r: Seq<(&'static str, u32, Vec<&'static str>)>) -> Seq<(&'static str, u32, Seq<&'static str>)> {
    r.map_values(|x: (&'static str, u32, Vec<&'static str>)| (x.0, x.1, x.2@))
}

fn row(rule: &'static str, version: u32, targets: Vec<&'static str>) -> (r: (&'static str, u32, Vec<&'static str>))
    ensures
        r == (rule, version, targets),
{
    (rule, version, targets)
}

/// The check registry: every rule of [`RULES`], in that order, with the
/// edition and the export targets its declaration carries.
pub fn registry() -> (r: Vec<(&'static str, u32, Vec<&'static str>)>)
    ensures
        r@.len() == RULES.len(),
        rows_view(r@) == declared(),
        forall|i: int| 0 <= i < r@.len() ==> (#[trigger] r@[i]).0 == RULES[i],
{
    let mut r: Vec<(&'static str, u32, Vec<&'static str>)> = Vec::new();
    let mut json: Vec<&'static str> = Vec::new();
    json.push(JSONSCHEMA);
    r.push(row(facet_required::RULE, 1, json));
    r.push(row(facet_value::RULE, 1, Vec::new()));
    r.push(row(identifier::RULE, 1, Vec::new()));
    r.push(row(placement::RULE, 2, Vec::new()));
    r.push(row(endpoint::RULE, 1, Vec::new()));
    r.push(row(dependency::RULE, 1, Vec::new()));
    r.push(row(participation::RULE, 1, Vec::new()));
    r.push(row(declaration::RULE, 1, Vec::new()));
    r.push(row(identity::RULE, 1, Vec::new()));
    r.push(row(duplicate::RULE, 1, Vec::new()));
    r.push(row(language::RULE, 1, Vec::new()));
    r.push(row(fragment::RULE, 3, Vec::new()));
    r.push(row(promotion::RULE, 1, Vec::new()));
    r.push(row(lifecycle::RULE, 1, Vec::new()));
    r.push(row(coverage::RULE, 1, Vec::new()));
    assert(rows_view(r@) =~= declared());
    assert forall|i: int| 0 <= i < r@.len() implies (#[trigger] r@[i]).0 == RULES[i] by {
        assert(rows_view(r@)[i].0 == r@[i].0);
    }
    r
}

/// Whether a row names one emitter target among its targets.
pub open spec fn exports_to(targets: Seq<&'static str>, target: Seq<char>) -> bool {
    exists|i: int| 0 <= i < targets.len() && (#[trigger] targets[i])@ == target
}

/// The rules of a registry that export to one target, in registry order, or
/// that do not.
pub open spec fn half(registry: Seq<(&'static str, u32, Seq<&'static str>)>, target: Seq<char>, exported: bool) -> Seq<
    &'static str,
>
    decreases registry.len(),
{
    if registry.len() == 0 {
        Seq::empty()
    } else {
        let rest = half(registry.drop_last(), target, exported);
        if exports_to(registry.last().2, target) == exported {
            rest.push(registry.last().0)
        } else {
            rest
        }
    }
}

/// The check registry, split in two for one emitter target.
#[derive(Clone, Debug)]
pub struct Partition {
    pub target: String,
    pub exported: Vec<&'static str>,
    pub unexported: Vec<&'static str>,
}

/// Whether one target is among a row's targets.
fn names_target(targets: &[&'static str], target: &str) -> (r: bool)
    ensures
        r == exports_to(targets@, target@),
{
    let mut i: usize = 0;
    while i < targets.len()
        invariant
            i <= targets@.len(),
            forall|k: int| 0 <= k < i ==> (#[trigger] targets@[k])@ != target@,
        decreases targets@.len() - i,
    {
        if text::str_eq(targets[i], target) {
            return true;
        }
        i = i + 1;
    }
    false
}

/// Split the registry for `target`, in [`RULES`] order. Both halves come from
/// the one registry, so no rule can fall into both or into neither, and a
/// rule added to the registry lands in one of them without anybody
/// remembering to put it there.
pub fn partition(target: &str) -> (p: Partition)
    ensures
        p.target@ == target@,
        p.exported@ == half(declared(), target@, true),
        p.unexported@ == half(declared(), target@, false),
{
    let reg = registry();
    let mut exported: Vec<&'static str> = Vec::new();
    let mut unexported: Vec<&'static str> = Vec::new();
    let mut i: usize = 0;
    while i < reg.len()
        invariant
            i <= reg@.len(),
            rows_view(reg@) == declared(),
            exported@ == half(rows_view(reg@).take(i as int), target@, true),
            unexported@ == half(rows_view(reg@).take(i as int), target@, false),
        decreases reg@.len() - i,
    {
        assert(rows_view(reg@).take(i + 1).drop_last() =~= rows_view(reg@).take(i as int));
        assert(rows_view(reg@)[i as int].2 == reg@[i as int].2@);
        if names_target(reg[i].2.as_slice(), target) {
            exported.push(reg[i].0);
        } else {
            unexported.push(reg[i].0);
        }
        i = i + 1;
    }
    assert(rows_view(reg@).take(i as int) =~= rows_view(reg@));
    Partition { target: text::owned(target), exported, unexported }
}

/// Whether reading one row of a registry adds its rule to the half its targets
/// decide and leaves the other half as it was.
pub open spec fn lands(registry: Seq<(&'static str, u32, Seq<&'static str>)>, target: Seq<char>, i: int) -> bool {
    let side = exports_to(registry[i].2, target);
    &&& half(registry.take(i + 1), target, side) == half(registry.take(i), target, side).push(registry[i].0)
    &&& half(registry.take(i + 1), target, !side) == half(registry.take(i), target, !side)
}

/// Every rule of a registry lands in exactly one half: the halves together
/// are as long as the registry, and reading each row adds its rule to the half
/// its targets decide and leaves the other half as it was.
pub proof fn law_partition_is_exact(registry: Seq<(&'static str, u32, Seq<&'static str>)>, target: Seq<char>)
    ensures
        half(registry, target, true).len() + half(registry, target, false).len() == registry.len(),
        forall|i: int| 0 <= i < registry.len() ==> #[trigger] lands(registry, target, i),
    decreases registry.len(),
{
    if registry.len() > 0 {
        law_partition_is_exact(registry.drop_last(), target);
    }
    assert forall|i: int| 0 <= i < registry.len() implies #[trigger] lands(registry, target, i) by {
        assert(registry.take(i + 1).drop_last() =~= registry.take(i));
        assert(registry.take(i + 1).last() == registry[i]);
    }
}

/// The coverage rule is an accounting of the run rather than a statement about
/// a document, so it exports to no target: whatever the target, it falls in
/// the half that is not exported, last.
pub proof fn law_coverage_is_never_exported(target: Seq<char>)
    ensures
        half(declared(), target, false).last() == coverage::RULE,
        half(declared(), target, false).len() > 0,
{
    let d = declared();
    assert(d.last().2 =~= Seq::<&'static str>::empty());
    assert(!exports_to(d.last().2, target));
}

} // verus!
