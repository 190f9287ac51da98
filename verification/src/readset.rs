//! The read set: the union of the in-scope inputs behind one run.
//!
//! The read set of a run is the union of the inputs that produced its
//! results, with the taxonomy lock, the clock and the check versions beside
//! it. A gate holds the published set against a later tree and reads nothing
//! that the set does not list, so the artifact carries, in lines of its own,
//! every reason a comparison over a list cannot decide: a barrier, a windowed
//! rule, a verdict resting on a change, and an input with no content hash.
use vstd::prelude::*;
use crate::context::{date_text, renderable, Date};
use crate::instance::{Grain, Input, Instance, Outcome};
use crate::text::{
    decimal, extend_decimal, extend_str, lemma_lex_asymmetric, lemma_lex_total, lemma_lex_transitive, lex_less, lex_lt, same, str_eq, string_of, chars_of, owned,
};

verus! {

/// One rule as a run served it: which edition ran, and whether it read the
/// clock or the version a document stood at before the change.
#[derive(Clone, Copy, Debug, PartialEq, Eq)]
pub struct Rule {
    pub name: &'static str,
    pub version: u32,
    pub needs_clock: bool,
    pub needs_prior: bool,
}

/// The union of what one run read, with the components that are about the run
/// rather than about a document.
#[derive(Clone, Debug)]
pub struct ReadSet {
    /// The digest of the taxonomy lock every result rests on.
    pub lock: String,
    /// The injected clock.
    pub clock: Date,
    /// Each rule and the edition of it that ran, in rule order.
    pub versions: Vec<(&'static str, u32)>,
    /// The rules that put a corpus-grained instance in this run.
    pub barriers: Vec<&'static str>,
    /// The rules that read the injected clock and put an instance in this run.
    pub windowed: Vec<&'static str>,
    /// The rules that read a document's prior version and reached a verdict.
    pub scoped: Vec<&'static str>,
    /// Every input any instance read, once each, in path order.
    pub inputs: Vec<Input>,
}

/// Every input the instances read, in the order they read them.
pub open spec fn all_reads(instances: Seq<Instance>) -> Seq<Input>
    decreases instances.len(),
{
    if instances.len() == 0 {
        Seq::<Input>::empty()
    } else {
        all_reads(instances.drop_last()) + instances.last().reads@
    }
}

/// Whether `x` is the first of `reads` to name its path.
pub open spec fn first_of(reads: Seq<Input>, x: Input) -> bool {
    exists|at: int|
        0 <= at < reads.len() && reads[at] == x && forall|j: int|
            0 <= j < at ==> (#[trigger] reads[j]).path@ != x.path@
}

/// Whether some entry of `out` names `path`.
pub open spec fn listed(out: Seq<Input>, path: Seq<char>) -> bool {
    exists|k: int| 0 <= k < out.len() && (#[trigger] out[k]).path@ == path
}

/// `out` is the union of `reads`: each path once, in path order, and each
/// entry the first read that named its path.
pub open spec fn is_union(reads: Seq<Input>, out: Seq<Input>) -> bool {
    &&& forall|i: int, j: int|
        0 <= i < j < out.len() ==> lex_lt((#[trigger] out[i]).path@, (#[trigger] out[j]).path@)
    &&& forall|k: int| 0 <= k < out.len() ==> first_of(reads, #[trigger] out[k])
    &&& forall|j: int| 0 <= j < reads.len() ==> listed(out, (#[trigger] reads[j]).path@)
}

/// What a rule needs of an instance for it to be listed.
#[derive(Clone, Copy, Debug, PartialEq, Eq, Structural)]
pub enum Need {
    /// Any instance of the rule.
    Ran,
    /// A corpus-grained instance of the rule.
    Corpus,
    /// An instance of the rule that reached a verdict.
    Decided,
}

pub open spec fn meets(instance: Instance, name: Seq<char>, need: Need) -> bool {
    &&& instance.rule@ == name
    &&& match need {
        Need::Ran => true,
        Need::Corpus => instance.grain == Grain::Corpus,
        Need::Decided => !(instance.outcome is Skipped),
    }
}

/// Whether some instance of the run meets a need for the rule named `name`.
pub open spec fn some_instance(instances: Seq<Instance>, name: Seq<char>, need: Need) -> bool {
    exists|k: int| 0 <= k < instances.len() && meets(#[trigger] instances[k], name, need)
}

/// Which of the three lists a rule goes on.
pub open spec fn kept(r: Rule, instances: Seq<Instance>, need: Need) -> bool {
    match need {
        Need::Corpus => some_instance(instances, r.name@, Need::Corpus),
        Need::Ran => r.needs_clock && some_instance(instances, r.name@, Need::Ran),
        Need::Decided => r.needs_prior && some_instance(instances, r.name@, Need::Decided),
    }
}

/// The names of the rules that go on one list, in rule order.
pub open spec fn kept_names(rules: Seq<Rule>, instances: Seq<Instance>, need: Need) -> Seq<
    &'static str,
>
    decreases rules.len(),
{
    if rules.len() == 0 {
        Seq::<&'static str>::empty()
    } else {
        let before = kept_names(rules.drop_last(), instances, need);
        if kept(rules.last(), instances, need) {
            before.push(rules.last().name)
        } else {
            before
        }
    }
}

/// How many inputs carry no content hash.
pub open spec fn count_unhashed(inputs: Seq<Input>) -> nat
    decreases inputs.len(),
{
    if inputs.len() == 0 {
        0
    } else {
        count_unhashed(inputs.drop_last()) + if inputs.last().digest is None {
            1nat
        } else {
            0nat
        }
    }
}

/// One line per name, each the keyword, a space, and the name.
pub open spec fn name_lines(keyword: Seq<char>, names: Seq<&'static str>) -> Seq<char>
    decreases names.len(),
{
    if names.len() == 0 {
        Seq::<char>::empty()
    } else {
        name_lines(keyword, names.drop_last()) + keyword + seq![' '] + names.last()@ + seq!['\n']
    }
}

/// One `version` line per rule.
pub open spec fn version_lines(versions: Seq<(&'static str, u32)>) -> Seq<char>
    decreases versions.len(),
{
    if versions.len() == 0 {
        Seq::<char>::empty()
    } else {
        version_lines(versions.drop_last()) + "version "@ + versions.last().0@ + seq![' ']
            + decimal(versions.last().1 as nat) + seq!['\n']
    }
}

/// The digest an input line carries, and `-` for none.
pub open spec fn digest_text(input: Input) -> Seq<char> {
    match input.digest {
        Some(d) => d@,
        None => seq!['-'],
    }
}

/// One `input` line per input.
pub open spec fn input_lines(inputs: Seq<Input>) -> Seq<char>
    decreases inputs.len(),
{
    if inputs.len() == 0 {
        Seq::<char>::empty()
    } else {
        input_lines(inputs.drop_last()) + "input "@ + inputs.last().path@ + seq![' '] + digest_text(
            inputs.last(),
        ) + seq!['\n']
    }
}

/// The artifact a read set renders as.
pub open spec fn artifact(set: ReadSet) -> Seq<char> {
    "lock "@ + set.lock@ + seq!['\n'] + "clock "@ + date_text(set.clock.days()) + seq!['\n']
        + name_lines("barrier"@, set.barriers@) + name_lines("windowed"@, set.windowed@)
        + name_lines("change-scoped"@, set.scoped@) + version_lines(set.versions@) + input_lines(
        set.inputs@,
    )
}

/// The one line that goes beside the coverage numbers.
pub open spec fn summary_text(inputs: Seq<Input>, barriers: nat) -> Seq<char> {
    let unhashed = count_unhashed(inputs);
    let head = if unhashed == 0 {
        decimal(inputs.len()) + " documents in the read set"@
    } else {
        decimal(inputs.len()) + " documents in the read set, "@ + decimal(unhashed)
            + " of them with no content hash"@
    };
    if barriers == 0 {
        head
    } else {
        head + ", and "@ + decimal(barriers) + seq![' '] + (if barriers == 1 {
            "barrier"@
        } else {
            "barriers"@
        }) + " that no gate carries across a merge"@
    }
}

/// Whether some instance meets a need for the rule named `name`.
fn any_instance(instances: &[Instance], name: &str, need: Need) -> (r: bool)
    ensures
        r == some_instance(instances@, name@, need),
{
    let mut k: usize = 0;
    while k < instances.len()
        invariant
            k <= instances@.len(),
            forall|j: int| 0 <= j < k ==> !meets(#[trigger] instances@[j], name@, need),
        decreases instances@.len() - k,
    {
        let instance = &instances[k];
        if str_eq(instance.rule, name) {
            let ok = match need {
                Need::Ran => true,
                Need::Corpus => match instance.grain {
                    Grain::Corpus => true,
                    _ => false,
                },
                Need::Decided => match instance.outcome {
                    Outcome::Skipped(_) => false,
                    _ => true,
                },
            };
            if ok {
                assert(meets(instances@[k as int], name@, need));
                return true;
            }
        }
        k = k + 1;
    }
    false
}

/// The names of the rules that go on one list.
fn names_kept(rules: &[Rule], instances: &[Instance], need: Need) -> (out: Vec<&'static str>)
    ensures
        out@ == kept_names(rules@, instances@, need),
{
    let mut out: Vec<&'static str> = Vec::new();
    let mut i: usize = 0;
    while i < rules.len()
        invariant
            i <= rules@.len(),
            out@ == kept_names(rules@.take(i as int), instances@, need),
        decreases rules@.len() - i,
    {
        let rule = rules[i];
        assert(rules@.take(i + 1).drop_last() =~= rules@.take(i as int));
        let keep = match need {
            Need::Corpus => any_instance(instances, rule.name, Need::Corpus),
            Need::Ran => rule.needs_clock && any_instance(instances, rule.name, Need::Ran),
            Need::Decided => rule.needs_prior && any_instance(instances, rule.name, Need::Decided),
        };
        if keep {
            out.push(rule.name);
        }
        i = i + 1;
    }
    assert(rules@.take(i as int) =~= rules@);
    out
}

/// `out`, still the union of `seen`, once `x` is read too.
fn add_read(out: &mut Vec<Input>, x: &Input, Ghost(seen): Ghost<Seq<Input>>)
    requires
        is_union(seen, old(out)@),
    ensures
        is_union(seen.push(*x), final(out)@),
{
    let ghost before = out@;
    let name = chars_of(x.path.as_str());
    let mut p: usize = 0;
    while p < out.len()
        invariant
            out@ == before,
            is_union(seen, before),
            name@ == x.path@,
            p <= before.len(),
            forall|k: int| 0 <= k < p ==> lex_lt((#[trigger] before[k]).path@, x.path@),
        ensures
            p <= before.len(),
            forall|k: int| 0 <= k < p ==> lex_lt((#[trigger] before[k]).path@, x.path@),
            p < before.len() ==> !lex_lt(before[p as int].path@, x.path@),
        decreases before.len() - p,
    {
        let here = chars_of(out[p].path.as_str());
        if !lex_less(here.as_slice(), name.as_slice()) {
            break;
        }
        p = p + 1;
    }
    let ghost now = seen.push(*x);
    let found = p < out.len() && {
        let here = chars_of(out[p].path.as_str());
        same(here.as_slice(), name.as_slice())
    };
    if found {
        proof {
            assert forall|k: int| 0 <= k < before.len() implies first_of(now, #[trigger] before[k]) by {
                let at = choose|at: int|
                    0 <= at < seen.len() && seen[at] == before[k] && forall|j: int|
                        0 <= j < at ==> (#[trigger] seen[j]).path@ != before[k].path@;
                assert(now[at] == before[k]);
                assert forall|j: int| 0 <= j < at implies (#[trigger] now[j]).path@ != before[k].path@ by {
                    assert(now[j] == seen[j]);
                }
            }
            assert forall|j: int| 0 <= j < now.len() implies listed(before, (#[trigger] now[j]).path@) by {
                if j < seen.len() {
                    assert(now[j] == seen[j]);
                } else {
                    assert(before[p as int].path@ == x.path@);
                }
            }
        }
    } else {
        proof {
            if p < before.len() {
                lemma_lex_total(before[p as int].path@, x.path@);
            }
            // No read so far names this path.
            assert forall|j: int| 0 <= j < seen.len() implies (#[trigger] seen[j]).path@ != x.path@ by {
                assert(listed(before, seen[j].path@));
                let k = choose|k: int| 0 <= k < before.len() && (#[trigger] before[k]).path@ == seen[j].path@;
                if k < p {
                    lemma_lex_asymmetric(before[k].path@, x.path@);
                } else if k > p {
                    lemma_lex_asymmetric(x.path@, before[p as int].path@);
                    lemma_lex_transitive(x.path@, before[p as int].path@, before[k].path@);
                    lemma_lex_asymmetric(x.path@, before[k].path@);
                }
            }
        }
        out.insert(p, x.copy());
        proof {
            let after = out@;
            assert(after == before.insert(p as int, *x));
            assert forall|i: int, j: int| 0 <= i < j < after.len() implies lex_lt(
                (#[trigger] after[i]).path@,
                (#[trigger] after[j]).path@,
            ) by {
                if j < p {
                    assert(after[i] == before[i] && after[j] == before[j]);
                } else if j == p {
                    assert(after[i] == before[i]);
                } else if i == p {
                    assert(after[j] == before[j - 1]);
                    if j - 1 > p {
                        lemma_lex_transitive(x.path@, before[p as int].path@, before[j - 1].path@);
                    }
                } else if i < p {
                    assert(after[i] == before[i] && after[j] == before[j - 1]);
                } else {
                    assert(after[i] == before[i - 1] && after[j] == before[j - 1]);
                }
            }
            assert forall|k: int| 0 <= k < after.len() implies first_of(now, #[trigger] after[k]) by {
                if k == p {
                    assert(now[seen.len() as int] == *x);
                    assert forall|j: int| 0 <= j < seen.len() implies (#[trigger] now[j]).path@ != x.path@ by {
                        assert(now[j] == seen[j]);
                    }
                } else {
                    let b = if k < p { k } else { k - 1 };
                    assert(after[k] == before[b]);
                    let at = choose|at: int|
                        0 <= at < seen.len() && seen[at] == before[b] && forall|j: int|
                            0 <= j < at ==> (#[trigger] seen[j]).path@ != before[b].path@;
                    assert(now[at] == before[b]);
                    assert forall|j: int| 0 <= j < at implies (#[trigger] now[j]).path@ != before[b].path@ by {
                        assert(now[j] == seen[j]);
                    }
                }
            }
            assert forall|j: int| 0 <= j < now.len() implies listed(after, (#[trigger] now[j]).path@) by {
                if j < seen.len() {
                    assert(now[j] == seen[j]);
                    let k = choose|k: int| 0 <= k < before.len() && (#[trigger] before[k]).path@ == seen[j].path@;
                    if k < p {
                        assert(after[k] == before[k]);
                    } else {
                        assert(after[k + 1] == before[k]);
                    }
                } else {
                    assert(after[p as int] == *x);
                }
            }
        }
    }
}

impl ReadSet {
    /// The union over the instances of one run.
    pub fn of(lock: &str, clock: Date, rules: &[Rule], instances: &[Instance]) -> (set: Self)
        ensures
            set.lock@ == lock@,
            set.clock == clock,
            set.versions@ == rules@.map_values(|r: Rule| (r.name, r.version)),
            set.barriers@ == kept_names(rules@, instances@, Need::Corpus),
            set.windowed@ == kept_names(rules@, instances@, Need::Ran),
            set.scoped@ == kept_names(rules@, instances@, Need::Decided),
            is_union(all_reads(instances@), set.inputs@),
    {
        let mut inputs: Vec<Input> = Vec::new();
        let mut i: usize = 0;
        while i < instances.len()
            invariant
                i <= instances@.len(),
                is_union(all_reads(instances@.take(i as int)), inputs@),
            decreases instances@.len() - i,
        {
            let reads = &instances[i].reads;
            let ghost done = all_reads(instances@.take(i as int));
            let mut j: usize = 0;
            while j < reads.len()
                invariant
                    i < instances@.len(),
                    reads == &instances@[i as int].reads,
                    j <= reads@.len(),
                    is_union(done + reads@.take(j as int), inputs@),
                decreases reads@.len() - j,
            {
                add_read(&mut inputs, &reads[j], Ghost(done + reads@.take(j as int)));
                assert(done + reads@.take(j + 1) =~= (done + reads@.take(j as int)).push(reads@[j as int]));
                j = j + 1;
            }
            assert(instances@.take(i + 1).drop_last() =~= instances@.take(i as int));
            assert(reads@.take(j as int) =~= reads@);
            i = i + 1;
        }
        assert(instances@.take(i as int) =~= instances@);
        let mut versions: Vec<(&'static str, u32)> = Vec::new();
        let mut k: usize = 0;
        while k < rules.len()
            invariant
                k <= rules@.len(),
                versions@ == rules@.take(k as int).map_values(|r: Rule| (r.name, r.version)),
            decreases rules@.len() - k,
        {
            versions.push((rules[k].name, rules[k].version));
            k = k + 1;
            assert(versions@ =~= rules@.take(k as int).map_values(|r: Rule| (r.name, r.version)));
        }
        assert(rules@.take(k as int) =~= rules@);
        ReadSet {
            lock: owned(lock),
            clock,
            versions,
            barriers: names_kept(rules, instances, Need::Corpus),
            windowed: names_kept(rules, instances, Need::Ran),
            scoped: names_kept(rules, instances, Need::Decided),
            inputs,
        }
    }

    /// Inputs this run read and could not hash.
    pub fn unhashed(&self) -> (n: usize)
        ensures
            n == count_unhashed(self.inputs@),
    {
        let mut n: usize = 0;
        let mut i: usize = 0;
        while i < self.inputs.len()
            invariant
                i <= self.inputs@.len(),
                n == count_unhashed(self.inputs@.take(i as int)),
                n <= i,
            decreases self.inputs@.len() - i,
        {
            assert(self.inputs@.take(i + 1).drop_last() =~= self.inputs@.take(i as int));
            if self.inputs[i].digest.is_none() {
                n = n + 1;
            }
            i = i + 1;
        }
        assert(self.inputs@.take(i as int) =~= self.inputs@);
        n
    }

    /// The one line that goes beside the coverage numbers.
    pub fn summary(&self) -> (s: String)
        ensures
            s@ == summary_text(self.inputs@, self.barriers@.len()),
    {
        let mut out: Vec<char> = Vec::new();
        let unhashed = self.unhashed();
        extend_decimal(&mut out, self.inputs.len() as u64);
        if unhashed == 0 {
            extend_str(&mut out, " documents in the read set");
        } else {
            extend_str(&mut out, " documents in the read set, ");
            extend_decimal(&mut out, unhashed as u64);
            extend_str(&mut out, " of them with no content hash");
        }
        let barriers = self.barriers.len();
        if barriers > 0 {
            extend_str(&mut out, ", and ");
            extend_decimal(&mut out, barriers as u64);
            out.push(' ');
            if barriers == 1 {
                extend_str(&mut out, "barrier");
            } else {
                extend_str(&mut out, "barriers");
            }
            extend_str(&mut out, " that no gate carries across a merge");
        }
        assert(out@ =~= summary_text(self.inputs@, self.barriers@.len()));
        string_of(out.as_slice())
    }

    /// The artifact: everything a gate needs to decide whether a verdict
    /// survives a change, and nothing that is not an input to one.
    pub fn render(&self) -> (s: String)
        requires
            renderable(self.clock.days()),
        ensures
            s@ == artifact(*self),
    {
        let mut out: Vec<char> = Vec::new();
        extend_str(&mut out, "lock ");
        extend_str(&mut out, self.lock.as_str());
        out.push('\n');
        extend_str(&mut out, "clock ");
        let day = self.clock.render();
        extend_str(&mut out, day.as_str());
        out.push('\n');
        let ghost head = out@;
        extend_name_lines(&mut out, "barrier", self.barriers.as_slice());
        extend_name_lines(&mut out, "windowed", self.windowed.as_slice());
        extend_name_lines(&mut out, "change-scoped", self.scoped.as_slice());
        let ghost named = out@;
        let mut i: usize = 0;
        while i < self.versions.len()
            invariant
                i <= self.versions@.len(),
                out@ == named + version_lines(self.versions@.take(i as int)),
            decreases self.versions@.len() - i,
        {
            let (rule, version) = self.versions[i];
            extend_str(&mut out, "version ");
            extend_str(&mut out, rule);
            out.push(' ');
            extend_decimal(&mut out, version as u64);
            out.push('\n');
            assert(self.versions@.take(i + 1).drop_last() =~= self.versions@.take(i as int));
            i = i + 1;
            assert(out@ =~= named + version_lines(self.versions@.take(i as int)));
        }
        assert(self.versions@.take(i as int) =~= self.versions@);
        let ghost versioned = out@;
        let mut k: usize = 0;
        while k < self.inputs.len()
            invariant
                k <= self.inputs@.len(),
                out@ == versioned + input_lines(self.inputs@.take(k as int)),
            decreases self.inputs@.len() - k,
        {
            let input = &self.inputs[k];
            extend_str(&mut out, "input ");
            extend_str(&mut out, input.path.as_str());
            out.push(' ');
            match &input.digest {
                Some(d) => extend_str(&mut out, d.as_str()),
                None => out.push('-'),
            }
            out.push('\n');
            assert(self.inputs@.take(k + 1).drop_last() =~= self.inputs@.take(k as int));
            k = k + 1;
            assert(out@ =~= versioned + input_lines(self.inputs@.take(k as int)));
        }
        assert(self.inputs@.take(k as int) =~= self.inputs@);
        assert(out@ =~= artifact(*self));
        string_of(out.as_slice())
    }
}

/// `out` with one line per name after it.
fn extend_name_lines(out: &mut Vec<char>, keyword: &str, names: &[&'static str])
    ensures
        final(out)@ == old(out)@ + name_lines(keyword@, names@),
{
    let ghost start = out@;
    let mut i: usize = 0;
    while i < names.len()
        invariant
            i <= names@.len(),
            out@ == start + name_lines(keyword@, names@.take(i as int)),
        decreases names@.len() - i,
    {
        extend_str(out, keyword);
        out.push(' ');
        extend_str(out, names[i]);
        out.push('\n');
        assert(names@.take(i + 1).drop_last() =~= names@.take(i as int));
        i = i + 1;
        assert(out@ =~= start + name_lines(keyword@, names@.take(i as int)));
    }
    assert(names@.take(i as int) =~= names@);
}

} // verus!
