//! One run: the instances every check reached, collected into what a reader
//! sees.
//!
//! Every instance's findings are collected in instance order, then the
//! coverage rule's own findings; each is stamped with the obligation the rule
//! that raised it serves, which is data rather than something a rule writes;
//! the findings are sorted into the one order they are ever written in; and
//! the adoption tasks hold what is pending before anything else filters. The
//! read set is assembled from the same instances, and the promotion count is
//! derived from the findings rather than counted beside them.
use vstd::prelude::*;
use crate::adoption::{
    apply, closed_total, closed_within, held_total, hits, kept_of, ledger_text, open_total, pending_of, task_after,
    renderable_ledger, standing, Declared, Ledger, Task,
};
use crate::context::Context;
use crate::coverage::{
    coverage_text,
    document_of, reads_of, skips_in_order, unaccounted_of, unchecked, unchecked_finding, Coverage,
    Document, Row,
};
use crate::finding::{finding_text, severity_plain, sort_spec, sorted, Finding, Severity};
use crate::instance::{Instance, Outcome};
use crate::patch::Patch;
use crate::readset::{all_reads, is_union, kept_names, summary_text, Need, ReadSet, Rule};
use crate::text::{chars_of, decimal, extend, extend_decimal, extend_right5, extend_str, join, right5, str_eq, string_of};

verus! {

/// How much of a run its report prints.
#[derive(Clone, Copy, Debug, PartialEq, Eq, Structural)]
pub enum Detail {
    /// Every instance, whatever it found.
    EveryInstance,
    /// The totals, and every finding.
    Findings,
    /// The totals alone.
    Totals,
}

/// One rule as this run served it: its edition, the obligation it serves
/// where a control binds it to one, and the emitter targets it exports to.
#[derive(Clone, Debug)]
pub struct Serves {
    pub rule: &'static str,
    pub version: u32,
    pub obligation: Option<String>,
    pub exportable_as: Vec<&'static str>,
}

/// What one run did.
#[derive(Clone, Debug)]
pub struct Run {
    /// Every instance of every check, in the order they were handed in.
    pub instances: Vec<Instance>,
    pub coverage: Coverage,
    /// Every finding a reader sees, in the one order findings are written in.
    pub findings: Vec<Finding>,
    /// What the adoption tasks held, and what became of each.
    pub adoption: Ledger,
    /// Every rule of the registry, as this run served it.
    pub served: Vec<Serves>,
    /// The union of what this run read.
    pub read_set: ReadSet,
    /// The promotions the change carried, counted off the findings.
    pub promotions: usize,
}

/// The findings of the instances that failed, in instance order.
pub open spec fn collected(insts: Seq<Instance>) -> Seq<Finding>
    decreases insts.len(),
{
    if insts.len() == 0 {
        Seq::empty()
    } else {
        collected(insts.drop_last()) + match insts.last().outcome {
            Outcome::Failed(v) => v@,
            _ => Seq::empty(),
        }
    }
}

/// The obligation the first binding of a rule names, and none for a rule no
/// binding names.
pub open spec fn obligation_of(bound: Seq<(&'static str, Option<String>)>, rule: &'static str) -> Option<String>
    decreases bound.len(),
{
    if bound.len() == 0 {
        None
    } else if bound[0].0@ == rule@ {
        bound[0].1
    } else {
        obligation_of(bound.skip(1), rule)
    }
}

/// A finding stamped with the obligation its rule serves.
pub open spec fn stamp(bound: Seq<(&'static str, Option<String>)>, f: Finding) -> Finding {
    Finding { obligation: obligation_of(bound, f.rule), ..f }
}

/// Every finding stamped.
pub open spec fn stamped(bound: Seq<(&'static str, Option<String>)>, fs: Seq<Finding>) -> Seq<Finding> {
    fs.map_values(|f: Finding| stamp(bound, f))
}

/// How many findings of a list a rule raised.
pub open spec fn raised_by(fs: Seq<Finding>, rule: &'static str) -> nat
    decreases fs.len(),
{
    if fs.len() == 0 {
        0
    } else {
        raised_by(fs.drop_last(), rule) + if fs.last().rule@ == rule@ {
            1nat
        } else {
            0nat
        }
    }
}

/// How many findings of a list carry a severity.
pub open spec fn of_severity(fs: Seq<Finding>, s: Severity) -> nat
    decreases fs.len(),
{
    if fs.len() == 0 {
        0
    } else {
        of_severity(fs.drop_last(), s) + if fs.last().severity == s {
            1nat
        } else {
            0nat
        }
    }
}

/// How many instances of a list a rule made.
pub open spec fn made_by(insts: Seq<Instance>, rule: &'static str) -> nat
    decreases insts.len(),
{
    if insts.len() == 0 {
        0
    } else {
        made_by(insts.drop_last(), rule) + if insts.last().rule@ == rule@ {
            1nat
        } else {
            0nat
        }
    }
}

/// What one run keeps of the findings its instances and its coverage raised:
/// stamped, sorted, and less what the adoption tasks in force held.
pub open spec fn kept(
    instances: Seq<Instance>,
    raised: Seq<Finding>,
    bound: Seq<(&'static str, Option<String>)>,
    tasks: Seq<Task>,
    ctx: Context,
) -> Seq<Finding> {
    kept_of(standing(tasks, ctx.today()), ordered(instances, raised, bound))
}

/// The findings one run raised, in the order a report gives them: what its
/// instances and its coverage raised, stamped with their obligations, sorted.
pub open spec fn ordered(
    instances: Seq<Instance>,
    raised: Seq<Finding>,
    bound: Seq<(&'static str, Option<String>)>,
) -> Seq<Finding> {
    sort_spec(stamped(bound, collected(instances) + raised))
}

impl Patch {
    /// The same patch, field for field.
    pub fn copy(&self) -> (p: Patch)
        ensures
            p == *self,
    {
        match self {
            Patch::Text { path, start, end, expect, replacement } => Patch::Text {
                path: path.clone(),
                start: *start,
                end: *end,
                expect: expect.clone(),
                replacement: replacement.clone(),
            },
            Patch::Half { path, relation, id } => Patch::Half {
                path: path.clone(),
                relation: relation.clone(),
                id: id.clone(),
            },
            Patch::Create { path, contents } => Patch::Create { path: path.clone(), contents: contents.clone() },
        }
    }
}

/// An optional text, field for field.
fn copy_text(o: &Option<String>) -> (r: Option<String>)
    ensures
        r == *o,
{
    match o {
        Some(s) => Some(s.clone()),
        None => None,
    }
}

impl Finding {
    /// The same finding, field for field.
    pub fn copy(&self) -> (f: Finding)
        ensures
            f == *self,
    {
        Finding {
            rule: self.rule,
            severity: self.severity,
            obligation: copy_text(&self.obligation),
            path: self.path.clone(),
            line: self.line,
            column: self.column,
            message: self.message.clone(),
            remediation: self.remediation.clone(),
            patch: match &self.patch {
                Some(p) => Some(p.copy()),
                None => None,
            },
        }
    }
}

proof fn lemma_hits_at_most(ts: Seq<Task>, fs: Seq<Finding>, t: int)
    ensures
        hits(ts, fs, t) <= fs.len(),
    decreases fs.len(),
{
    if fs.len() > 0 {
        lemma_hits_at_most(ts, fs.drop_last(), t);
    }
}

proof fn lemma_sort_len(v: Seq<Finding>)
    ensures
        sort_spec(v).len() == v.len(),
    decreases v.len(),
{
    if v.len() > 0 {
        lemma_sort_len(v.drop_last());
        lemma_insert_len(sort_spec(v.drop_last()), v.last());
    }
}

proof fn lemma_insert_len(v: Seq<Finding>, x: Finding)
    ensures
        crate::finding::insert_sorted(v, x).len() == v.len() + 1,
    decreases v.len(),
{
    if v.len() > 0 && crate::finding::order_lt(x, v.last()) {
        lemma_insert_len(v.drop_last(), x);
    }
}

proof fn lemma_unchecked_len(ds: Seq<Document>)
    ensures
        unchecked(ds).len() <= ds.len(),
    decreases ds.len(),
{
    if ds.len() > 0 {
        lemma_unchecked_len(ds.drop_last());
    }
}

/// The obligation the first binding of a rule names.
fn obligation_for(bound: &[(&'static str, Option<String>)], rule: &'static str) -> (r: Option<String>)
    ensures
        r == obligation_of(bound@, rule),
{
    let mut i: usize = 0;
    assert(bound@.skip(0) =~= bound@);
    while i < bound.len()
        invariant
            i <= bound@.len(),
            obligation_of(bound@, rule) == obligation_of(bound@.skip(i as int), rule),
        decreases bound@.len() - i,
    {
        assert(bound@.skip(i as int)[0] == bound@[i as int]);
        assert(bound@.skip(i as int).skip(1) =~= bound@.skip(i + 1));
        if str_eq(bound[i].0, rule) {
            return copy_text(&bound[i].1);
        }
        i = i + 1;
    }
    None
}

/// The findings of the instances that failed, each copied, in instance order.
fn collect(instances: &[Instance]) -> (out: Vec<Finding>)
    ensures
        out@ == collected(instances@),
{
    let mut out: Vec<Finding> = Vec::new();
    let mut i: usize = 0;
    while i < instances.len()
        invariant
            i <= instances@.len(),
            out@ == collected(instances@.take(i as int)),
        decreases instances@.len() - i,
    {
        assert(instances@.take(i + 1).drop_last() =~= instances@.take(i as int));
        assert(instances@.take(i + 1).last() == instances@[i as int]);
        if let Outcome::Failed(v) = &instances[i].outcome {
            let ghost base = out@;
            let mut j: usize = 0;
            while j < v.len()
                invariant
                    j <= v@.len(),
                    out@ == base + v@.take(j as int),
                decreases v@.len() - j,
            {
                out.push(v[j].copy());
                assert(base + v@.take(j + 1) =~= (base + v@.take(j as int)).push(v@[j as int]));
                j = j + 1;
            }
            assert(v@.take(j as int) =~= v@);
        } else {
            assert(out@ =~= out@ + Seq::<Finding>::empty());
        }
        i = i + 1;
    }
    assert(instances@.take(i as int) =~= instances@);
    out
}

/// Run what every check reached, over one census: the rows it classified, the
/// instances every check made, the obligation each rule serves where a control
/// binds one, the rules as the registry declares them, the adoption tasks the
/// taxonomy declares, the lock, and the run's context.
pub fn run(
    rows: &[Row],
    instances: Vec<Instance>,
    bound: &[(&'static str, Option<String>)],
    rules: &[Rule],
    declared: Declared,
    lock: &str,
    ctx: &Context,
) -> (r: Run)
    requires
        reads_of(instances@).len() <= usize::MAX,
        forall|t: int|
            0 <= t < declared.tasks@.len() ==> (#[trigger] declared.tasks@[t]).held + collected(
                instances@,
            ).len() + rows@.len() <= usize::MAX,
    ensures
        r.instances@ == instances@,
        r.coverage.documents_view().len() == rows@.len(),
        forall|i: int|
            0 <= i < rows@.len() ==> document_of(rows@, instances@, i, #[trigger] r.coverage.documents_view()[i]),
        r.coverage.instances_view() == instances@.len(),
        r.coverage.unaccounted_view() == unaccounted_of(rows@, reads_of(instances@)),
        skips_in_order(instances@, r.coverage.skips_view()),
        exists|raised: Seq<Finding>|
            {
                &&& raised.len() == unchecked(r.coverage.documents_view()).len()
                &&& forall|i: int|
                    0 <= i < raised.len() ==> unchecked_finding(
                        unchecked(r.coverage.documents_view())[i],
                        #[trigger] raised[i],
                    )
                &&& r.findings@ == kept(instances@, raised, bound@, declared.tasks@, *ctx)
                &&& r.adoption.pending@ == pending_of(
                    standing(declared.tasks@, ctx.today()),
                    ordered(instances@, raised, bound@),
                )
                &&& r.adoption.tasks@.len() == declared.tasks@.len()
                &&& forall|t: int|
                    0 <= t < declared.tasks@.len() ==> task_after(
                        standing(declared.tasks@, ctx.today()),
                        ordered(instances@, raised, bound@),
                        t,
                        #[trigger] r.adoption.tasks@[t],
                    )
            },
        r.adoption.refused == declared.refused,
        r.adoption.unread == declared.unread,
        r.read_set.lock@ == lock@,
        r.read_set.clock == ctx.today(),
        r.read_set.versions@ == rules@.map_values(|x: Rule| (x.name, x.version)),
        r.read_set.barriers@ == kept_names(rules@, instances@, Need::Corpus),
        r.read_set.windowed@ == kept_names(rules@, instances@, Need::Ran),
        r.read_set.scoped@ == kept_names(rules@, instances@, Need::Decided),
        is_union(all_reads(instances@), r.read_set.inputs@),
        r.promotions == raised_by(r.findings@, crate::promotion::RULE),
        r.served@.len() == crate::RULES.len(),
        forall|i: int|
            0 <= i < r.served@.len() ==> {
                &&& (#[trigger] r.served@[i]).rule == crate::declared()[i].0
                &&& r.served@[i].version == crate::declared()[i].1
                &&& r.served@[i].exportable_as@ == crate::declared()[i].2
                &&& r.served@[i].obligation == obligation_of(bound@, r.served@[i].rule)
            },
{
    let coverage = Coverage::of(rows, instances.as_slice());
    let mut findings = collect(instances.as_slice());
    let ghost from_instances = findings@;
    let raised = coverage.findings();
    let ghost cov = raised@;
    let mut i: usize = 0;
    while i < raised.len()
        invariant
            i <= raised@.len(),
            findings@ == from_instances + raised@.take(i as int),
        decreases raised@.len() - i,
    {
        findings.push(raised[i].copy());
        assert(from_instances + raised@.take(i + 1) =~= (from_instances + raised@.take(i as int)).push(
            raised@[i as int],
        ));
        i = i + 1;
    }
    assert(raised@.take(i as int) =~= raised@);
    let ghost all = findings@;
    let ghost tasks = declared.tasks@;
    let mut stamped_findings: Vec<Finding> = Vec::new();
    let mut j: usize = 0;
    while j < findings.len()
        invariant
            j <= findings@.len(),
            findings@ == all,
            stamped_findings@ == stamped(bound@, all.take(j as int)),
        decreases findings@.len() - j,
    {
        let mut f = findings[j].copy();
        f.obligation = obligation_for(bound, f.rule);
        stamped_findings.push(f);
        assert(stamped(bound@, all.take(j + 1)) =~= stamped(bound@, all.take(j as int)).push(
            stamp(bound@, all[j as int]),
        ));
        j = j + 1;
    }
    assert(all.take(j as int) =~= all);
    let ordered = sorted(stamped_findings);
    proof {
        lemma_sort_len(stamped(bound@, all));
        lemma_unchecked_len(coverage.documents_view());
        let ts = standing(declared.tasks@, ctx.today());
        assert forall|t: int| 0 <= t < declared.tasks@.len() implies (#[trigger] declared.tasks@[t]).held + hits(
            ts,
            ordered@,
            t,
        ) <= usize::MAX by {
            lemma_hits_at_most(ts, ordered@, t);
        }
    }
    let now = ctx.now();
    let (kept_findings, adoption) = apply(ordered, declared, now);
    let read_set = ReadSet::of(lock, now, rules, instances.as_slice());
    let mut promotions: usize = 0;
    let mut k: usize = 0;
    while k < kept_findings.len()
        invariant
            k <= kept_findings@.len(),
            promotions == raised_by(kept_findings@.take(k as int), crate::promotion::RULE),
            promotions <= k,
        decreases kept_findings@.len() - k,
    {
        assert(kept_findings@.take(k + 1).drop_last() =~= kept_findings@.take(k as int));
        if str_eq(kept_findings[k].rule, crate::promotion::RULE) {
            promotions = promotions + 1;
        }
        k = k + 1;
    }
    assert(kept_findings@.take(k as int) =~= kept_findings@);
    let reg = crate::registry();
    let mut served: Vec<Serves> = Vec::new();
    let mut m: usize = 0;
    while m < reg.len()
        invariant
            m <= reg@.len(),
            crate::rows_view(reg@) == crate::declared(),
            reg@.len() == crate::RULES.len(),
            served@.len() == m,
            forall|x: int|
                0 <= x < m ==> {
                    &&& (#[trigger] served@[x]).rule == crate::declared()[x].0
                    &&& served@[x].version == crate::declared()[x].1
                    &&& served@[x].exportable_as@ == crate::declared()[x].2
                    &&& served@[x].obligation == obligation_of(bound@, served@[x].rule)
                },
        decreases reg@.len() - m,
    {
        assert(crate::rows_view(reg@)[m as int] == (reg@[m as int].0, reg@[m as int].1, reg@[m as int].2@));
        let mut targets: Vec<&'static str> = Vec::new();
        let mut q: usize = 0;
        while q < reg[m].2.len()
            invariant
                m < reg@.len(),
                q <= reg@[m as int].2@.len(),
                targets@ == reg@[m as int].2@.take(q as int),
            decreases reg@[m as int].2@.len() - q,
        {
            targets.push(reg[m].2[q]);
            assert(reg@[m as int].2@.take(q + 1) =~= targets@);
            q = q + 1;
        }
        assert(reg@[m as int].2@.take(q as int) =~= reg@[m as int].2@);
        served.push(
            Serves {
                rule: reg[m].0,
                version: reg[m].1,
                obligation: obligation_for(bound, reg[m].0),
                exportable_as: targets,
            },
        );
        m = m + 1;
    }
    proof {
        assert(all == from_instances + cov);
        assert(from_instances == collected(instances@));
        assert(kept_findings@ == kept(instances@, cov, bound@, declared.tasks@, *ctx));
        assert(cov.len() == unchecked(coverage.documents_view()).len());
    }
    Run {
        instances,
        coverage,
        findings: kept_findings,
        adoption,
        served,
        read_set,
        promotions,
    }
}

impl Run {
    /// Whether a strict invocation fails on this run: some finding it shows
    /// is an error.
    pub fn has_errors(&self) -> (r: bool)
        ensures
            r == exists|i: int|
                0 <= i < self.findings@.len() && (#[trigger] self.findings@[i]).severity == Severity::Error,
    {
        let mut i: usize = 0;
        while i < self.findings.len()
            invariant
                i <= self.findings@.len(),
                forall|k: int| 0 <= k < i ==> (#[trigger] self.findings@[k]).severity != Severity::Error,
            decreases self.findings@.len() - i,
        {
            if self.findings[i].severity == Severity::Error {
                return true;
            }
            i = i + 1;
        }
        false
    }

    fn count_of(&self, s: Severity) -> (n: usize)
        ensures
            n == of_severity(self.findings@, s),
    {
        let mut n: usize = 0;
        let mut i: usize = 0;
        while i < self.findings.len()
            invariant
                i <= self.findings@.len(),
                n == of_severity(self.findings@.take(i as int), s),
                n <= i,
            decreases self.findings@.len() - i,
        {
            assert(self.findings@.take(i + 1).drop_last() =~= self.findings@.take(i as int));
            if self.findings[i].severity == s {
                n = n + 1;
            }
            i = i + 1;
        }
        assert(self.findings@.take(i as int) =~= self.findings@);
        n
    }

    /// Findings per severity, in severity order, so that two reports line up.
    pub fn counts(&self) -> (c: Vec<(Severity, usize)>)
        ensures
            c@ == seq![
                (Severity::Error, of_severity(self.findings@, Severity::Error) as usize),
                (Severity::Warn, of_severity(self.findings@, Severity::Warn) as usize),
                (Severity::Info, of_severity(self.findings@, Severity::Info) as usize),
            ],
    {
        let mut c: Vec<(Severity, usize)> = Vec::new();
        c.push((Severity::Error, self.count_of(Severity::Error)));
        c.push((Severity::Warn, self.count_of(Severity::Warn)));
        c.push((Severity::Info, self.count_of(Severity::Info)));
        assert(c@ =~= seq![
            (Severity::Error, of_severity(self.findings@, Severity::Error) as usize),
            (Severity::Warn, of_severity(self.findings@, Severity::Warn) as usize),
            (Severity::Info, of_severity(self.findings@, Severity::Info) as usize),
        ]);
        c
    }

    /// Instances per rule, one pair for each rule of [`crate::RULES`] in its
    /// order, a rule that made no instance included with zero.
    pub fn per_rule(&self) -> (c: Vec<(&'static str, usize)>)
        ensures
            c@.len() == crate::RULES.len(),
            forall|i: int|
                0 <= i < c@.len() ==> (#[trigger] c@[i]).0 == crate::RULES[i] && c@[i].1 == made_by(
                    self.instances@,
                    crate::RULES[i],
                ),
    {
        let mut c: Vec<(&'static str, usize)> = Vec::new();
        let mut r: usize = 0;
        while r < crate::RULES.len()
            invariant
                r <= crate::RULES.len(),
                c@.len() == r,
                forall|i: int|
                    0 <= i < r ==> (#[trigger] c@[i]).0 == crate::RULES[i] && c@[i].1 == made_by(
                        self.instances@,
                        crate::RULES[i],
                    ),
            decreases crate::RULES.len() - r,
        {
            let rule = crate::RULES[r];
            let mut n: usize = 0;
            let mut i: usize = 0;
            while i < self.instances.len()
                invariant
                    i <= self.instances@.len(),
                    n == made_by(self.instances@.take(i as int), rule),
                    n <= i,
                decreases self.instances@.len() - i,
            {
                assert(self.instances@.take(i + 1).drop_last() =~= self.instances@.take(i as int));
                if str_eq(self.instances[i].rule, rule) {
                    n = n + 1;
                }
                i = i + 1;
            }
            assert(self.instances@.take(i as int) =~= self.instances@);
            c.push((rule, n));
            r = r + 1;
        }
        c
    }
}

} // verus!

verus! {

/// The lines counting instances per rule, for each rule of the list that
/// made one.
pub open spec fn per_rule_lines(insts: Seq<Instance>, rules: Seq<&'static str>) -> Seq<char>
    decreases rules.len(),
{
    if rules.len() == 0 {
        Seq::empty()
    } else {
        per_rule_lines(insts, rules.drop_last()) + if made_by(insts, rules.last()) > 0 {
            "  "@ + right5(made_by(insts, rules.last())) + " instances of "@ + rules.last()@ + seq!['\n']
        } else {
            Seq::<char>::empty()
        }
    }
}

/// The line counting one severity, and nothing where there is none of it.
pub open spec fn severity_line(fs: Seq<Finding>, s: Severity) -> Seq<char> {
    if of_severity(fs, s) > 0 {
        "  "@ + right5(of_severity(fs, s)) + seq![' '] + severity_plain(s) + seq!['\n']
    } else {
        Seq::empty()
    }
}

/// What became of an instance, as a report writes it.
pub open spec fn outcome_text(o: Outcome) -> Seq<char> {
    match o {
        Outcome::Passed => "passed"@,
        Outcome::Failed(_) => "failed"@,
        Outcome::Skipped(r) => "skipped: "@ + r@,
    }
}

/// One line pair per instance: the rule and the paths it read, then what
/// became of it.
pub open spec fn instance_lines(insts: Seq<Instance>) -> Seq<char>
    decreases insts.len(),
{
    if insts.len() == 0 {
        Seq::empty()
    } else {
        let i = insts.last();
        instance_lines(insts.drop_last()) + "  "@ + i.rule@ + seq![' '] + join(
            i.reads@.map_values(|x: crate::instance::Input| x.path@),
            " + "@,
        ) + "\n    "@ + outcome_text(i.outcome) + seq!['\n']
    }
}

/// Every finding as text, in order.
pub open spec fn findings_lines(fs: Seq<Finding>) -> Seq<char>
    decreases fs.len(),
{
    if fs.len() == 0 {
        Seq::empty()
    } else {
        findings_lines(fs.drop_last()) + finding_text(fs.last())
    }
}

/// The run as text: coverage first, which accounts for every file whatever
/// else is printed, then what the adoption tasks held, the read set, the
/// instances per rule, and, as the detail asks, the findings counted by
/// severity, every instance, and every finding.
pub open spec fn run_text(r: Run, detail: Detail) -> Seq<char> {
    coverage_text(
        r.coverage.documents_view(),
        r.coverage.instances_view(),
        r.coverage.skips_view(),
        r.coverage.unaccounted_view(),
    ) + ledger_text(r.adoption) + summary_text(r.read_set.inputs@, r.read_set.barriers@.len())
        + seq!['\n'] + per_rule_lines(r.instances@, crate::RULES@) + (if detail != Detail::Totals {
        decimal(r.findings@.len()) + " findings\n"@ + severity_line(r.findings@, Severity::Error)
            + severity_line(r.findings@, Severity::Warn) + severity_line(r.findings@, Severity::Info)
    } else {
        Seq::empty()
    }) + (if detail == Detail::EveryInstance {
        "\ninstances\n"@ + instance_lines(r.instances@)
    } else {
        Seq::empty()
    }) + (if r.findings@.len() > 0 && detail != Detail::Totals {
        seq!['\n'] + findings_lines(r.findings@)
    } else {
        Seq::empty()
    })
}

impl Run {
    fn severity_part(&self, s: Severity) -> (out: Vec<char>)
        ensures
            out@ == severity_line(self.findings@, s),
    {
        let n = self.count_of(s);
        let mut out: Vec<char> = Vec::new();
        if n > 0 {
            out = chars_of("  ");
            extend_right5(&mut out, n as u64);
            out.push(' ');
            extend_str(&mut out, crate::paint::glyph(s));
            out.push(' ');
            let w = s.to_string();
            extend_str(&mut out, w.as_str());
            out.push('\n');
            assert(out@ =~= severity_line(self.findings@, s));
        }
        out
    }

    fn instance_part(i: &Instance) -> (out: Vec<char>)
        ensures
            out@ == "  "@ + i.rule@ + seq![' '] + join(
                i.reads@.map_values(|x: crate::instance::Input| x.path@),
                " + "@,
            ) + "\n    "@ + outcome_text(i.outcome) + seq!['\n'],
    {
        let mut out: Vec<char> = chars_of("  ");
        extend_str(&mut out, i.rule);
        out.push(' ');
        let ghost paths = i.reads@.map_values(|x: crate::instance::Input| x.path@);
        let mut k: usize = 0;
        let ghost start = out@;
        while k < i.reads.len()
            invariant
                k <= i.reads@.len(),
                paths == i.reads@.map_values(|x: crate::instance::Input| x.path@),
                out@ == start + join(paths.take(k as int), " + "@),
            decreases i.reads@.len() - k,
        {
            let ghost done = paths.take(k as int);
            let ghost next = paths.take(k + 1);
            assert(next.drop_last() =~= done);
            if k > 0 {
                extend_str(&mut out, " + ");
            }
            extend_str(&mut out, i.reads[k].path.as_str());
            proof {
                if k == 0 {
                    assert(next.len() == 1);
                    assert(out@ =~= start + next[0]);
                } else {
                    assert(join(next, " + "@) == join(done, " + "@) + " + "@ + next.last());
                    assert(out@ =~= start + join(next, " + "@));
                }
            }
            k = k + 1;
        }
        assert(paths.take(k as int) =~= paths);
        extend_str(&mut out, "\n    ");
        match &i.outcome {
            Outcome::Passed => extend_str(&mut out, "passed"),
            Outcome::Failed(_) => extend_str(&mut out, "failed"),
            Outcome::Skipped(r) => {
                extend_str(&mut out, "skipped: ");
                extend_str(&mut out, r);
            },
        }
        out.push('\n');
        assert(out@ =~= "  "@ + i.rule@ + seq![' '] + join(paths, " + "@) + "\n    "@ + outcome_text(i.outcome) + seq!['\n']);
        out
    }

    fn rules_part(&self) -> (out: Vec<char>)
        ensures
            out@ == per_rule_lines(self.instances@, crate::RULES@),
    {
        let mut out: Vec<char> = Vec::new();
        let per = self.per_rule();
        let mut r: usize = 0;
        while r < per.len()
            invariant
                r <= per@.len(),
                per@.len() == crate::RULES.len(),
                forall|i: int|
                    0 <= i < per@.len() ==> (#[trigger] per@[i]).0 == crate::RULES[i] && per@[i].1 == made_by(
                        self.instances@,
                        crate::RULES[i],
                    ),
                out@ == per_rule_lines(self.instances@, crate::RULES@.take(r as int)),
            decreases per@.len() - r,
        {
            assert(crate::RULES@.take(r + 1).drop_last() =~= crate::RULES@.take(r as int));
            assert(crate::RULES@.take(r + 1).last() == crate::RULES[r as int]);
            let ghost before = out@;
            if per[r].1 > 0 {
                extend_str(&mut out, "  ");
                extend_right5(&mut out, per[r].1 as u64);
                extend_str(&mut out, " instances of ");
                extend_str(&mut out, per[r].0);
                out.push('\n');
                assert(out@ =~= before + ("  "@ + right5(made_by(self.instances@, crate::RULES[r as int]))
                    + " instances of "@ + crate::RULES[r as int]@ + seq!['\n']));
            } else {
                assert(out@ =~= before + Seq::<char>::empty());
            }
            r = r + 1;
        }
        assert(crate::RULES@.take(r as int) =~= crate::RULES@);
        out
    }

    fn counts_part(&self) -> (out: Vec<char>)
        ensures
            out@ == decimal(self.findings@.len()) + " findings\n"@ + severity_line(self.findings@, Severity::Error)
                + severity_line(self.findings@, Severity::Warn) + severity_line(self.findings@, Severity::Info),
    {
        let mut out: Vec<char> = Vec::new();
        extend_decimal(&mut out, self.findings.len() as u64);
        extend_str(&mut out, " findings\n");
        let e = self.severity_part(Severity::Error);
        extend(&mut out, e.as_slice());
        let w = self.severity_part(Severity::Warn);
        extend(&mut out, w.as_slice());
        let i = self.severity_part(Severity::Info);
        extend(&mut out, i.as_slice());
        out
    }

    fn instances_part(&self) -> (out: Vec<char>)
        ensures
            out@ == "\ninstances\n"@ + instance_lines(self.instances@),
    {
        let mut out: Vec<char> = chars_of("\ninstances\n");
        let ghost base = out@;
        let mut k: usize = 0;
        while k < self.instances.len()
            invariant
                k <= self.instances@.len(),
                base == "\ninstances\n"@,
                out@ == base + instance_lines(self.instances@.take(k as int)),
            decreases self.instances@.len() - k,
        {
            assert(self.instances@.take(k + 1).drop_last() =~= self.instances@.take(k as int));
            assert(self.instances@.take(k + 1).last() == self.instances@[k as int]);
            let part = Run::instance_part(&self.instances[k]);
            extend(&mut out, part.as_slice());
            k = k + 1;
        }
        assert(self.instances@.take(k as int) =~= self.instances@);
        out
    }

    fn findings_part(&self) -> (out: Vec<char>)
        ensures
            out@ == seq!['\n'] + findings_lines(self.findings@),
    {
        let mut out: Vec<char> = Vec::new();
        out.push('\n');
        let ghost base = out@;
        let mut k: usize = 0;
        while k < self.findings.len()
            invariant
                k <= self.findings@.len(),
                base == seq!['\n'],
                out@ == base + findings_lines(self.findings@.take(k as int)),
            decreases self.findings@.len() - k,
        {
            assert(self.findings@.take(k + 1).drop_last() =~= self.findings@.take(k as int));
            assert(self.findings@.take(k + 1).last() == self.findings@[k as int]);
            let t = self.findings[k].render();
            extend_str(&mut out, t.as_str());
            k = k + 1;
        }
        assert(self.findings@.take(k as int) =~= self.findings@);
        out
    }

    /// The run as text, with as much detail as asked for.
    pub fn render(&self, detail: Detail) -> (s: String)
        requires
            closed_within(self.adoption.tasks@),
            forall|k: int|
                0 <= k <= self.adoption.tasks@.len() ==> open_total(#[trigger] self.adoption.tasks@.take(k)) <= usize::MAX,
            forall|k: int|
                0 <= k <= self.adoption.tasks@.len() ==> held_total(#[trigger] self.adoption.tasks@.take(k)) <= usize::MAX,
            forall|k: int|
                0 <= k <= self.adoption.tasks@.len() ==> closed_total(#[trigger] self.adoption.tasks@.take(k)) <= usize::MAX,
            renderable_ledger(self.adoption),
        ensures
            s@ == run_text(*self, detail),
    {
        let c = self.coverage.render();
        let mut out: Vec<char> = chars_of(c.as_str());
        let l = self.adoption.render();
        extend_str(&mut out, l.as_str());
        let sm = self.read_set.summary();
        extend_str(&mut out, sm.as_str());
        out.push('\n');
        let rp = self.rules_part();
        extend(&mut out, rp.as_slice());
        let ghost a = out@;
        let cp: Vec<char> = if detail != Detail::Totals { self.counts_part() } else { Vec::new() };
        extend(&mut out, cp.as_slice());
        let ip: Vec<char> = if detail == Detail::EveryInstance { self.instances_part() } else { Vec::new() };
        extend(&mut out, ip.as_slice());
        let fp: Vec<char> = if self.findings.len() > 0 && detail != Detail::Totals {
            self.findings_part()
        } else {
            Vec::new()
        };
        extend(&mut out, fp.as_slice());
        assert(out@ =~= run_text(*self, detail));
        string_of(out.as_slice())
    }
}

} // verus!
