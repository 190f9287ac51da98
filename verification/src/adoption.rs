//! The adoption ledger: declared debt, one `(document, rule)` pair at a time.
//!
//! A task names the pairs it holds, an owner, and the date it lapses. While
//! it is in force a finding on one of its pairs is reported as pending rather
//! than as a finding, and a pair that raised nothing is closed, which is the
//! debt shrinking. Past its date a task holds nothing, and every finding it
//! named is reported again.
use vstd::prelude::*;
use crate::context::{date_of, date_text, renderable, Date};
use crate::fill::{filled, filled_text};
use crate::finding::Finding;
use crate::node::{entry_at, get, scalar, scalar_at, Node};
use crate::text::{
    chars_of, decimal, extend, extend_decimal, extend_str, owned, string_of, lex_less, lex_lt, same, str_eq, lemma_lex_irreflexive, lemma_lex_total, lemma_lex_transitive,
};

verus! {

/// One `(document, rule)` pair a task accounts for.
#[derive(Clone, Debug, PartialEq, Eq)]
pub struct Pair {
    pub path: String,
    pub rule: String,
}

/// Whether a task is still holding anything.
#[derive(Clone, Copy, Debug, PartialEq, Eq, Structural)]
pub enum State {
    /// In force. The pairs it names are reported as pending.
    Open,
    /// Past its expiry. The findings it named are reported as findings.
    Expired,
}

/// One declared unit of debt.
#[derive(Clone, Debug)]
pub struct Task {
    pub id: String,
    pub statement: String,
    pub owner: String,
    pub until: Date,
    pub pairs: Vec<Pair>,
    pub state: State,
    /// How many findings the task held.
    pub held: usize,
    /// Pairs it declared that raised no finding.
    pub closed: Vec<Pair>,
}

/// A task this engine could not read, and why. It holds nothing.
#[derive(Clone, Debug, PartialEq, Eq)]
pub struct Refused {
    pub task: String,
    pub why: String,
}

/// A key of the block that nothing here reads, and why.
#[derive(Clone, Debug, PartialEq, Eq)]
pub struct Unread {
    pub key: String,
    pub why: String,
}

/// What a block declared, before a run applies it.
#[derive(Clone, Debug)]
pub struct Declared {
    pub tasks: Vec<Task>,
    pub refused: Vec<Refused>,
    pub unread: Vec<Unread>,
}

/// What the block did on one run.
#[derive(Clone, Debug)]
pub struct Ledger {
    pub tasks: Vec<Task>,
    pub refused: Vec<Refused>,
    pub unread: Vec<Unread>,
    /// The findings the open tasks held, in the order they arrived.
    pub pending: Vec<Finding>,
}

impl Pair {
    /// A copy holding the same characters.
    pub fn copy(&self) -> (c: Self)
        ensures
            c == *self,
    {
        Pair { path: self.path.clone(), rule: self.rule.clone() }
    }
}

/// Whether a pair names a finding's document and rule.
pub open spec fn names(p: Pair, f: Finding) -> bool {
    p.rule@ == f.rule@ && p.path@ == f.path@
}

/// The first pair of a list that names a finding.
pub open spec fn first_pair(ps: Seq<Pair>, f: Finding) -> Option<int>
    decreases ps.len(),
{
    if ps.len() == 0 {
        None
    } else {
        match first_pair(ps.drop_last(), f) {
            Some(a) => Some(a),
            None => if names(ps.last(), f) {
                Some(ps.len() - 1)
            } else {
                None
            },
        }
    }
}

/// Whether a task in force holds a finding.
pub open spec fn holds(t: Task, f: Finding) -> bool {
    t.state == State::Open && first_pair(t.pairs@, f) is Some
}

/// The first task that holds a finding.
pub open spec fn holder(ts: Seq<Task>, f: Finding) -> Option<int>
    decreases ts.len(),
{
    if ts.len() == 0 {
        None
    } else {
        match holder(ts.drop_last(), f) {
            Some(t) => Some(t),
            None => if holds(ts.last(), f) {
                Some(ts.len() - 1)
            } else {
                None
            },
        }
    }
}

/// The state a task stands in on a day: lapsed once its date is past.
pub open spec fn state_on(t: Task, now: Date) -> State {
    if t.until.days() < now.days() {
        State::Expired
    } else {
        t.state
    }
}

/// The tasks as they stand on a day.
pub open spec fn standing(ts: Seq<Task>, now: Date) -> Seq<Task> {
    ts.map_values(|t: Task| Task { state: state_on(t, now), ..t })
}

/// The findings no task holds, in order.
pub open spec fn kept_of(ts: Seq<Task>, fs: Seq<Finding>) -> Seq<Finding>
    decreases fs.len(),
{
    if fs.len() == 0 {
        Seq::<Finding>::empty()
    } else if holder(ts, fs.last()) is None {
        kept_of(ts, fs.drop_last()).push(fs.last())
    } else {
        kept_of(ts, fs.drop_last())
    }
}

/// The findings some task holds, in order.
pub open spec fn pending_of(ts: Seq<Task>, fs: Seq<Finding>) -> Seq<Finding>
    decreases fs.len(),
{
    if fs.len() == 0 {
        Seq::<Finding>::empty()
    } else if holder(ts, fs.last()) is Some {
        pending_of(ts, fs.drop_last()).push(fs.last())
    } else {
        pending_of(ts, fs.drop_last())
    }
}

/// How many findings task `t` holds.
pub open spec fn hits(ts: Seq<Task>, fs: Seq<Finding>, t: int) -> nat
    decreases fs.len(),
{
    if fs.len() == 0 {
        0
    } else if holder(ts, fs.last()) == Some(t) {
        hits(ts, fs.drop_last(), t) + 1
    } else {
        hits(ts, fs.drop_last(), t)
    }
}

/// Whether pair `a` of task `t` raised a finding the task held.
pub open spec fn met(ts: Seq<Task>, fs: Seq<Finding>, t: int, a: int) -> bool {
    exists|i: int|
        0 <= i < fs.len() && holder(ts, #[trigger] fs[i]) == Some(t) && first_pair(ts[t].pairs@, fs[i])
            == Some(a)
}

/// The pairs of task `t`, among its first `n`, that raised no finding it
/// held.
pub open spec fn unmet(ts: Seq<Task>, fs: Seq<Finding>, t: int, n: int) -> Seq<Pair>
    decreases n,
{
    if n <= 0 {
        Seq::<Pair>::empty()
    } else if met(ts, fs, t, n - 1) {
        unmet(ts, fs, t, n - 1)
    } else {
        unmet(ts, fs, t, n - 1).push(ts[t].pairs@[n - 1])
    }
}

/// The pairs a task closes on a run: while it is in force, those that
/// raised nothing; past its date, what it carried in.
pub open spec fn closed_after(ts: Seq<Task>, fs: Seq<Finding>, t: int) -> Seq<Pair> {
    if ts[t].state == State::Open {
        unmet(ts, fs, t, ts[t].pairs@.len() as int)
    } else {
        ts[t].closed@
    }
}

/// Whether `task` is what a run makes of task `t`: the same declaration, the
/// findings it held added to its count, and its closed pairs.
pub open spec fn task_after(ts: Seq<Task>, fs: Seq<Finding>, t: int, task: Task) -> bool {
    &&& task.id == ts[t].id
    &&& task.statement == ts[t].statement
    &&& task.owner == ts[t].owner
    &&& task.until == ts[t].until
    &&& task.pairs == ts[t].pairs
    &&& task.state == ts[t].state
    &&& task.held == ts[t].held + hits(ts, fs, t)
    &&& task.closed@ == closed_after(ts, fs, t)
}

/// The first pair of a list that names a finding.
fn pair_for(ps: &Vec<Pair>, f: &Finding) -> (r: Option<usize>)
    ensures
        match r {
            Some(a) => first_pair(ps@, *f) == Some(a as int) && a < ps@.len(),
            None => first_pair(ps@, *f) is None,
        },
{
    let rule = chars_of(f.rule);
    let path = chars_of(f.path.as_str());
    let mut a: usize = 0;
    assert(ps@.take(0) =~= Seq::<Pair>::empty());
    while a < ps.len()
        invariant
            rule@ == f.rule@,
            path@ == f.path@,
            a <= ps@.len(),
            first_pair(ps@.take(a as int), *f) is None,
        decreases ps@.len() - a,
    {
        let p = &ps[a];
        assert(ps@.take(a + 1).drop_last() =~= ps@.take(a as int));
        let hit = same(chars_of(p.rule.as_str()).as_slice(), rule.as_slice()) && same(
            chars_of(p.path.as_str()).as_slice(),
            path.as_slice(),
        );
        if hit {
            proof {
                lemma_first_pair_prefix(ps@, *f, a as int + 1);
            }
            return Some(a);
        }
        a = a + 1;
    }
    assert(ps@.take(a as int) =~= ps@);
    None
}

/// A first match within a prefix is the first match of the whole.
proof fn lemma_first_pair_prefix(ps: Seq<Pair>, f: Finding, n: int)
    requires
        0 <= n <= ps.len(),
        first_pair(ps.take(n), f) is Some,
    ensures
        first_pair(ps, f) == first_pair(ps.take(n), f),
    decreases ps.len() - n,
{
    if n < ps.len() {
        assert(ps.take(n + 1).drop_last() =~= ps.take(n));
        lemma_first_pair_prefix(ps, f, n + 1);
    } else {
        assert(ps.take(n) =~= ps);
    }
}

/// A first holder within a prefix of tasks is the first holder of all.
proof fn lemma_holder_prefix(ts: Seq<Task>, f: Finding, n: int)
    requires
        0 <= n <= ts.len(),
        holder(ts.take(n), f) is Some,
    ensures
        holder(ts, f) == holder(ts.take(n), f),
    decreases ts.len() - n,
{
    if n < ts.len() {
        assert(ts.take(n + 1).drop_last() =~= ts.take(n));
        lemma_holder_prefix(ts, f, n + 1);
    } else {
        assert(ts.take(n) =~= ts);
    }
}

/// The first task that holds a finding, and the pair of it that names it.
fn holder_of(tasks: &Vec<Task>, f: &Finding) -> (r: Option<(usize, usize)>)
    ensures
        match r {
            Some((t, a)) => holder(tasks@, *f) == Some(t as int) && first_pair(tasks@[t as int].pairs@, *f)
                == Some(a as int) && t < tasks@.len() && a < tasks@[t as int].pairs@.len(),
            None => holder(tasks@, *f) is None,
        },
{
    let mut t: usize = 0;
    assert(tasks@.take(0) =~= Seq::<Task>::empty());
    while t < tasks.len()
        invariant
            t <= tasks@.len(),
            holder(tasks@.take(t as int), *f) is None,
        decreases tasks@.len() - t,
    {
        assert(tasks@.take(t + 1).drop_last() =~= tasks@.take(t as int));
        let task = &tasks[t];
        if task.state == State::Open {
            match pair_for(&task.pairs, f) {
                Some(a) => {
                    proof {
                        lemma_holder_prefix(tasks@, *f, t as int + 1);
                    }
                    return Some((t, a));
                },
                None => {},
            }
        }
        t = t + 1;
    }
    assert(tasks@.take(t as int) =~= tasks@);
    None
}

} // verus!

verus! {

/// A prefix of the findings holds no more for a task than all of them.
proof fn lemma_hits_prefix(ts: Seq<Task>, fs: Seq<Finding>, t: int, k: int)
    requires
        0 <= k <= fs.len(),
    ensures
        hits(ts, fs.take(k), t) <= hits(ts, fs, t),
    decreases fs.len() - k,
{
    if k < fs.len() {
        assert(fs.take(k + 1).drop_last() =~= fs.take(k));
        lemma_hits_prefix(ts, fs, t, k + 1);
    } else {
        assert(fs.take(k) =~= fs);
    }
}

/// Whether a list of `(task, pair)` positions holds one.
fn listed(v: &Vec<(usize, usize)>, t: usize, a: usize) -> (r: bool)
    ensures
        r == exists|j: int| 0 <= j < v@.len() && (#[trigger] v@[j]).0 == t && v@[j].1 == a,
{
    let mut j: usize = 0;
    while j < v.len()
        invariant
            j <= v@.len(),
            forall|m: int| 0 <= m < j ==> !((#[trigger] v@[m]).0 == t && v@[m].1 == a),
        decreases v@.len() - j,
    {
        if v[j].0 == t && v[j].1 == a {
            return true;
        }
        j = j + 1;
    }
    false
}

/// The findings of one run against the tasks a block declared, on a day.
///
/// A task past its date lapses and holds nothing. A finding on a pair of a
/// task in force is pending, and the first such task holds it; any other
/// finding is kept. Each task in force then closes the pairs that raised
/// nothing, which is the debt shrinking where a report can see it.
pub fn apply(findings: Vec<Finding>, declared: Declared, now: Date) -> (r: (Vec<Finding>, Ledger))
    requires
        forall|t: int|
            0 <= t < declared.tasks@.len() ==> (#[trigger] declared.tasks@[t]).held + hits(
                standing(declared.tasks@, now),
                findings@,
                t,
            ) <= usize::MAX,
    ensures
        ({
            let ts = standing(declared.tasks@, now);
            &&& r.0@ == kept_of(ts, findings@)
            &&& r.1.pending@ == pending_of(ts, findings@)
            &&& r.1.tasks@.len() == ts.len()
            &&& forall|t: int| 0 <= t < ts.len() ==> task_after(ts, findings@, t, #[trigger] r.1.tasks@[t])
            &&& r.1.refused == declared.refused
            &&& r.1.unread == declared.unread
        }),
{
    let Declared { tasks: declared_tasks, refused, unread } = declared;
    let ghost ts = standing(declared_tasks@, now);
    let ghost dts = declared_tasks@;
    let mut rest = declared_tasks;
    let mut tasks: Vec<Task> = Vec::new();
    while rest.len() > 0
        invariant
            tasks@.len() + rest@.len() == dts.len(),
            rest@ == dts.skip(tasks@.len() as int),
            ts == standing(dts, now),
            forall|t: int| 0 <= t < tasks@.len() ==> #[trigger] tasks@[t] == ts[t],
        decreases rest@.len(),
    {
        let ghost k = tasks@.len() as int;
        let mut task = rest.remove(0);
        assert(task == dts[k]);
        if task.until.before(&now) {
            task.state = State::Expired;
        }
        assert(task == ts[k]);
        tasks.push(task);
        assert(rest@ =~= dts.skip(k + 1));
    }
    assert(tasks@ =~= ts);
    let ghost fs = findings@;
    let mut kept: Vec<Finding> = Vec::new();
    let mut pending: Vec<Finding> = Vec::new();
    let mut extra: Vec<usize> = Vec::new();
    let mut m: usize = 0;
    while m < tasks.len()
        invariant
            m <= tasks@.len(),
            extra@.len() == m,
            forall|t: int| 0 <= t < m ==> #[trigger] extra@[t] == 0,
        decreases tasks@.len() - m,
    {
        extra.push(0);
        m = m + 1;
    }
    let mut marks: Vec<(usize, usize)> = Vec::new();
    let mut left = findings;
    proof {
        assert(fs.take(0) =~= Seq::<Finding>::empty());
        assert(left@ =~= fs.skip(0));
        assert forall|t: int| 0 <= t < extra@.len() implies #[trigger] extra@[t] == hits(ts, fs.take(0), t) by {}
    }
    while left.len() > 0
        invariant
            tasks@ == ts,
            ts == standing(dts, now),
            left@ == fs.skip(fs.len() - left@.len()),
            left@.len() <= fs.len(),
            kept@ == kept_of(ts, fs.take(fs.len() - left@.len())),
            pending@ == pending_of(ts, fs.take(fs.len() - left@.len())),
            extra@.len() == ts.len(),
            forall|t: int| 0 <= t < ts.len() ==> #[trigger] extra@[t] == hits(ts, fs.take(fs.len() - left@.len()), t),
            forall|t: int| 0 <= t < dts.len() ==> (#[trigger] dts[t]).held + hits(ts, fs, t) <= usize::MAX,
            dts.len() == ts.len(),
            forall|t: int, a: int|
                #![trigger met(ts, fs.take(fs.len() - left@.len()), t, a)]
                0 <= t && 0 <= a ==> (met(ts, fs.take(fs.len() - left@.len()), t, a) <==> exists|j: int|
                    0 <= j < marks@.len() && (#[trigger] marks@[j]).0 == t && marks@[j].1 == a),
        decreases left@.len(),
    {
        let ghost k = fs.len() - left@.len();
        let ghost before = fs.take(k);
        let f = left.remove(0);
        assert(f == fs[k]);
        assert(fs.take(k + 1) =~= before.push(f));
        assert(fs.take(k + 1).drop_last() =~= before);
        assert(left@ =~= fs.skip(k + 1));
        let ghost old_marks = marks@;
        match holder_of(&tasks, &f) {
            Some((t, a)) => {
                proof {
                    lemma_hits_prefix(ts, fs, t as int, k + 1);
                    assert(dts[t as int].held + hits(ts, fs, t as int) <= usize::MAX);
                }
                let e = extra[t];
                extra.set(t, e + 1);
                marks.push((t, a));
                pending.push(f);
                assert forall|u: int, b: int|
                    0 <= u && 0 <= b implies (#[trigger] met(ts, fs.take(k + 1), u, b) <==> exists|j: int|
                        0 <= j < marks@.len() && (#[trigger] marks@[j]).0 == u && marks@[j].1 == b) by {
                    let now_list = fs.take(k + 1);
                    if met(ts, now_list, u, b) {
                        let i = choose|i: int|
                            0 <= i < now_list.len() && holder(ts, #[trigger] now_list[i]) == Some(u)
                                && first_pair(ts[u].pairs@, now_list[i]) == Some(b);
                        if i < k {
                            assert(before[i] == now_list[i]);
                            assert(met(ts, before, u, b));
                            let j = choose|j: int| 0 <= j < old_marks.len() && (#[trigger] old_marks[j]).0 == u && old_marks[j].1 == b;
                            assert(marks@[j] == old_marks[j]);
                        } else {
                            assert(marks@[old_marks.len() as int] == (t, a));
                        }
                    }
                    if exists|j: int| 0 <= j < marks@.len() && (#[trigger] marks@[j]).0 == u && marks@[j].1 == b {
                        let j = choose|j: int| 0 <= j < marks@.len() && (#[trigger] marks@[j]).0 == u && marks@[j].1 == b;
                        if j < old_marks.len() {
                            assert(old_marks[j] == marks@[j]);
                            assert(met(ts, before, u, b));
                            let i = choose|i: int|
                                0 <= i < before.len() && holder(ts, #[trigger] before[i]) == Some(u)
                                    && first_pair(ts[u].pairs@, before[i]) == Some(b);
                            assert(now_list[i] == before[i]);
                        } else {
                            assert(now_list[k] == f);
                        }
                    }
                }
            },
            None => {
                kept.push(f);
                assert forall|u: int, b: int|
                    0 <= u && 0 <= b implies (#[trigger] met(ts, fs.take(k + 1), u, b) <==> met(ts, before, u, b)) by {
                    let now_list = fs.take(k + 1);
                    if met(ts, now_list, u, b) {
                        let i = choose|i: int|
                            0 <= i < now_list.len() && holder(ts, #[trigger] now_list[i]) == Some(u)
                                && first_pair(ts[u].pairs@, now_list[i]) == Some(b);
                        assert(i < k);
                        assert(before[i] == now_list[i]);
                    }
                    if met(ts, before, u, b) {
                        let i = choose|i: int|
                            0 <= i < before.len() && holder(ts, #[trigger] before[i]) == Some(u)
                                && first_pair(ts[u].pairs@, before[i]) == Some(b);
                        assert(now_list[i] == before[i]);
                    }
                }
            },
        }
    }
    assert(fs.take(fs.len() as int) =~= fs);
    let mut out: Vec<Task> = Vec::new();
    let mut source = tasks;
    while source.len() > 0
        invariant
            out@.len() + source@.len() == ts.len(),
            source@ == ts.skip(out@.len() as int),
            extra@.len() == ts.len(),
            forall|t: int| 0 <= t < ts.len() ==> #[trigger] extra@[t] == hits(ts, fs, t),
            forall|t: int| 0 <= t < dts.len() ==> (#[trigger] dts[t]).held + hits(ts, fs, t) <= usize::MAX,
            dts.len() == ts.len(),
            ts == standing(dts, now),
            forall|t: int, a: int|
                #![trigger met(ts, fs, t, a)]
                0 <= t && 0 <= a ==> (met(ts, fs, t, a) <==> exists|j: int|
                    0 <= j < marks@.len() && (#[trigger] marks@[j]).0 == t && marks@[j].1 == a),
            forall|t: int| 0 <= t < out@.len() ==> task_after(ts, fs, t, #[trigger] out@[t]),
        decreases source@.len(),
    {
        let t = out.len();
        let task = source.remove(0);
        assert(task == ts[t as int]);
        assert(source@ =~= ts.skip(t + 1));
        assert(ts[t as int].held == dts[t as int].held);
        let held = task.held + extra[t];
        let closed = if task.state == State::Open {
            let mut c: Vec<Pair> = Vec::new();
            let mut a: usize = 0;
            while a < task.pairs.len()
                invariant
                    a <= task.pairs@.len(),
                    task == ts[t as int],
                    c@ == unmet(ts, fs, t as int, a as int),
                    forall|u: int, b: int|
                        #![trigger met(ts, fs, u, b)]
                        0 <= u && 0 <= b ==> (met(ts, fs, u, b) <==> exists|j: int|
                            0 <= j < marks@.len() && (#[trigger] marks@[j]).0 == u && marks@[j].1 == b),
                decreases task.pairs@.len() - a,
            {
                if !listed(&marks, t, a) {
                    c.push(task.pairs[a].copy());
                }
                a = a + 1;
            }
            c
        } else {
            task.closed
        };
        let next = Task {
            id: task.id,
            statement: task.statement,
            owner: task.owner,
            until: task.until,
            pairs: task.pairs,
            state: task.state,
            held,
            closed,
        };
        out.push(next);
    }
    (kept, Ledger { tasks: out, refused, unread, pending })
}

} // verus!

verus! {

/// The pairs still open across the tasks in force.
pub open spec fn open_total(ts: Seq<Task>) -> int
    decreases ts.len(),
{
    if ts.len() == 0 {
        0
    } else {
        open_total(ts.drop_last()) + if ts.last().state == State::Open {
            ts.last().pairs@.len() - ts.last().closed@.len()
        } else {
            0
        }
    }
}

/// The findings every task held.
pub open spec fn held_total(ts: Seq<Task>) -> int
    decreases ts.len(),
{
    if ts.len() == 0 {
        0
    } else {
        held_total(ts.drop_last()) + ts.last().held
    }
}

/// The pairs closed across the tasks in force.
pub open spec fn closed_total(ts: Seq<Task>) -> int
    decreases ts.len(),
{
    if ts.len() == 0 {
        0
    } else {
        closed_total(ts.drop_last()) + if ts.last().state == State::Open {
            ts.last().closed@.len() as int
        } else {
            0
        }
    }
}

/// Every task in force has closed no more pairs than it declared.
pub open spec fn closed_within(ts: Seq<Task>) -> bool {
    forall|t: int|
        0 <= t < ts.len() && (#[trigger] ts[t]).state == State::Open ==> ts[t].closed@.len()
            <= ts[t].pairs@.len()
}

/// How many findings of a list carry a rule.
pub open spec fn rule_count(fs: Seq<Finding>, r: Seq<char>) -> nat
    decreases fs.len(),
{
    if fs.len() == 0 {
        0
    } else {
        rule_count(fs.drop_last(), r) + if fs.last().rule@ == r {
            1nat
        } else {
            0nat
        }
    }
}

/// Whether one count comes before another: more findings first, and then
/// by rule name.
pub open spec fn count_before(a: (Seq<char>, int), b: (Seq<char>, int)) -> bool {
    a.1 > b.1 || (a.1 == b.1 && lex_lt(a.0, b.0))
}

/// A rule and its count, as characters and a number.
pub open spec fn count_view(v: Seq<(&'static str, usize)>) -> Seq<(Seq<char>, int)> {
    v.map_values(|e: (&'static str, usize)| (e.0@, e.1 as int))
}

impl Ledger {
    /// Whether the block declared anything at all.
    pub fn is_empty(&self) -> (r: bool)
        ensures
            r == (self.tasks@.len() == 0 && self.refused@.len() == 0 && self.unread@.len() == 0),
    {
        self.tasks.len() == 0 && self.refused.len() == 0 && self.unread.len() == 0
    }

    /// Pairs still open across the tasks in force.
    pub fn open(&self) -> (n: usize)
        requires
            closed_within(self.tasks@),
            forall|k: int| 0 <= k <= self.tasks@.len() ==> open_total(#[trigger] self.tasks@.take(k)) <= usize::MAX,
        ensures
            n == open_total(self.tasks@),
    {
        let mut n: usize = 0;
        let mut i: usize = 0;
        assert(self.tasks@.take(0) =~= Seq::<Task>::empty());
        while i < self.tasks.len()
            invariant
                i <= self.tasks@.len(),
                closed_within(self.tasks@),
                forall|k: int| 0 <= k <= self.tasks@.len() ==> open_total(#[trigger] self.tasks@.take(k)) <= usize::MAX,
                n == open_total(self.tasks@.take(i as int)),
            decreases self.tasks@.len() - i,
        {
            let t = &self.tasks[i];
            assert(self.tasks@.take(i + 1).drop_last() =~= self.tasks@.take(i as int));
            assert(open_total(self.tasks@.take(i + 1)) <= usize::MAX);
            if t.state == State::Open {
                assert(self.tasks@[i as int] == *t);
                n = n + (t.pairs.len() - t.closed.len());
            }
            i = i + 1;
        }
        assert(self.tasks@.take(i as int) =~= self.tasks@);
        n
    }

    /// Findings every task held.
    pub fn held(&self) -> (n: usize)
        requires
            forall|k: int| 0 <= k <= self.tasks@.len() ==> held_total(#[trigger] self.tasks@.take(k)) <= usize::MAX,
        ensures
            n == held_total(self.tasks@),
    {
        let mut n: usize = 0;
        let mut i: usize = 0;
        assert(self.tasks@.take(0) =~= Seq::<Task>::empty());
        while i < self.tasks.len()
            invariant
                i <= self.tasks@.len(),
                forall|k: int| 0 <= k <= self.tasks@.len() ==> held_total(#[trigger] self.tasks@.take(k)) <= usize::MAX,
                n == held_total(self.tasks@.take(i as int)),
            decreases self.tasks@.len() - i,
        {
            assert(self.tasks@.take(i + 1).drop_last() =~= self.tasks@.take(i as int));
            assert(held_total(self.tasks@.take(i + 1)) <= usize::MAX);
            n = n + self.tasks[i].held;
            i = i + 1;
        }
        assert(self.tasks@.take(i as int) =~= self.tasks@);
        n
    }

    /// Pairs closed across the tasks in force.
    pub fn closed(&self) -> (n: usize)
        requires
            forall|k: int| 0 <= k <= self.tasks@.len() ==> closed_total(#[trigger] self.tasks@.take(k)) <= usize::MAX,
        ensures
            n == closed_total(self.tasks@),
    {
        let mut n: usize = 0;
        let mut i: usize = 0;
        assert(self.tasks@.take(0) =~= Seq::<Task>::empty());
        while i < self.tasks.len()
            invariant
                i <= self.tasks@.len(),
                forall|k: int| 0 <= k <= self.tasks@.len() ==> closed_total(#[trigger] self.tasks@.take(k)) <= usize::MAX,
                n == closed_total(self.tasks@.take(i as int)),
            decreases self.tasks@.len() - i,
        {
            let t = &self.tasks[i];
            assert(self.tasks@.take(i + 1).drop_last() =~= self.tasks@.take(i as int));
            assert(closed_total(self.tasks@.take(i + 1)) <= usize::MAX);
            if t.state == State::Open {
                n = n + t.closed.len();
            }
            i = i + 1;
        }
        assert(self.tasks@.take(i as int) =~= self.tasks@);
        n
    }

    /// Pending findings per rule, the most first and then by name.
    pub fn by_rule(&self) -> (counts: Vec<(&'static str, usize)>)
        ensures
            forall|i: int, j: int|
                0 <= i < j < counts@.len() ==> count_before(
                    #[trigger] count_view(counts@)[i],
                    #[trigger] count_view(counts@)[j],
                ),
            forall|i: int|
                0 <= i < counts@.len() ==> (#[trigger] counts@[i]).1 == rule_count(
                    self.pending@,
                    counts@[i].0@,
                ) && counts@[i].1 > 0,
            forall|k: int|
                0 <= k < self.pending@.len() ==> exists|i: int|
                    0 <= i < counts@.len() && (#[trigger] counts@[i]).0@ == (#[trigger] self.pending@[k]).rule@,
    {
        let mut tally: Vec<(&'static str, usize)> = Vec::new();
        let mut k: usize = 0;
        assert(self.pending@.take(0) =~= Seq::<Finding>::empty());
        while k < self.pending.len()
            invariant
                k <= self.pending@.len(),
                tally@.len() <= k,
                forall|i: int, j: int| 0 <= i < j < tally@.len() ==> (#[trigger] tally@[i]).0@ != (#[trigger] tally@[j]).0@,
                forall|i: int|
                    0 <= i < tally@.len() ==> (#[trigger] tally@[i]).1 == rule_count(
                        self.pending@.take(k as int),
                        tally@[i].0@,
                    ) && tally@[i].1 > 0,
                forall|m: int|
                    0 <= m < k ==> exists|i: int|
                        0 <= i < tally@.len() && (#[trigger] tally@[i]).0@ == (#[trigger] self.pending@[m]).rule@,
                forall|r: Seq<char>|
                    (forall|i: int| 0 <= i < tally@.len() ==> (#[trigger] tally@[i]).0@ != r) ==> rule_count(
                        self.pending@.take(k as int),
                        r,
                    ) == 0,
            decreases self.pending@.len() - k,
        {
            let f = &self.pending[k];
            let ghost prefix = self.pending@.take(k as int);
            assert(self.pending@.take(k + 1).drop_last() =~= prefix);
            assert(self.pending@.take(k + 1).last() == *f);
            let fr = chars_of(f.rule);
            let mut i: usize = 0;
            while i < tally.len() && !same(chars_of(tally[i].0).as_slice(), fr.as_slice())
                invariant
                    i <= tally@.len(),
                    fr@ == f.rule@,
                    forall|m: int| 0 <= m < i ==> (#[trigger] tally@[m]).0@ != f.rule@,
                decreases tally@.len() - i,
            {
                i = i + 1;
            }
            let ghost old_tally = tally@;
            if i < tally.len() {
                let (r, c) = tally[i];
                proof {
                    assert(rule_count(prefix, r@) < k + 1) by {
                        lemma_rule_count_bound(prefix, r@);
                    }
                }
                tally.set(i, (r, c + 1));
            } else {
                proof {
                    assert(rule_count(prefix, f.rule@) == 0);
                }
                tally.push((f.rule, 1));
            }
            proof {
                let now = self.pending@.take(k + 1);
                assert forall|m: int| 0 <= m < k + 1 implies exists|j: int|
                    0 <= j < tally@.len() && (#[trigger] tally@[j]).0@ == (#[trigger] self.pending@[m]).rule@ by {
                    if m < k {
                        let j = choose|j: int|
                            0 <= j < old_tally.len() && (#[trigger] old_tally[j]).0@ == self.pending@[m].rule@;
                        assert(tally@[j].0 == old_tally[j].0);
                    } else {
                        assert(tally@[i as int].0@ == f.rule@);
                    }
                }
                assert forall|j: int| 0 <= j < tally@.len() implies (#[trigger] tally@[j]).1 == rule_count(
                    now,
                    tally@[j].0@,
                ) && tally@[j].1 > 0 by {
                    if j < old_tally.len() {
                        assert(tally@[j].0 == old_tally[j].0);
                    }
                }
                assert forall|r: Seq<char>|
                    (forall|j: int| 0 <= j < tally@.len() ==> (#[trigger] tally@[j]).0@ != r) implies rule_count(
                        now,
                        r,
                    ) == 0 by {
                    assert(tally@[i as int].0@ == f.rule@);
                    assert forall|j: int| 0 <= j < old_tally.len() implies (#[trigger] old_tally[j]).0@ != r by {
                        assert(tally@[j].0 == old_tally[j].0);
                    }
                    assert(rule_count(prefix, r) == 0);
                    assert(now.drop_last() == prefix);
                    assert(now.last() == *f);
                }
            }
            k = k + 1;
        }
        assert(self.pending@.take(k as int) =~= self.pending@);
        let ghost all = tally@;
        let mut out: Vec<(&'static str, usize)> = Vec::new();
        let mut rest = tally;
        proof {
            broadcast use vstd::multiset::group_multiset_axioms;
            assert(all.take(0) =~= Seq::<(&'static str, usize)>::empty());
            out@.to_multiset_ensures();
            all.take(0).to_multiset_ensures();
            vstd::multiset::lemma_multiset_empty_len(out@.to_multiset());
            vstd::multiset::lemma_multiset_empty_len(all.take(0).to_multiset());
            assert(rest@ =~= all.skip(0));
        }
        while rest.len() > 0
            invariant
                rest@.len() <= all.len(),
                rest@ == all.skip(all.len() - rest@.len()),
                out@.to_multiset() == all.take(all.len() - rest@.len()).to_multiset(),
                forall|i: int, j: int|
                    0 <= i < j < out@.len() ==> count_before(
                        #[trigger] count_view(out@)[i],
                        #[trigger] count_view(out@)[j],
                    ),
                forall|i: int, j: int| 0 <= i < j < all.len() ==> (#[trigger] all[i]).0@ != (#[trigger] all[j]).0@,
            decreases rest@.len(),
        {
            let ghost n = all.len() - rest@.len();
            let x = rest.remove(0);
            assert(x == all[n]);
            assert(rest@ =~= all.skip(n + 1));
            let xr = chars_of(x.0);
            let mut p: usize = 0;
            while p < out.len() && !(x.1 > out[p].1 || (x.1 == out[p].1 && lex_less(xr.as_slice(), chars_of(out[p].0).as_slice())))
                invariant
                    p <= out@.len(),
                    xr@ == x.0@,
                    forall|m: int| 0 <= m < p ==> !count_before((x.0@, x.1 as int), #[trigger] count_view(out@)[m]),
                decreases out@.len() - p,
            {
                p = p + 1;
            }
            let ghost old_out = out@;
            let ghost xv = (x.0@, x.1 as int);
            proof {
                broadcast use vstd::multiset::group_multiset_axioms;
                assert forall|m: int| 0 <= m < old_out.len() implies (#[trigger] old_out[m]).0@ != x.0@ by {
                    old_out.to_multiset_ensures();
                    all.take(n).to_multiset_ensures();
                    assert(old_out.to_multiset().count(old_out[m]) > 0);
                    assert(all.take(n).contains(old_out[m]));
                    let j = choose|j: int| 0 <= j < all.take(n).len() && all.take(n)[j] == old_out[m];
                    assert(all[j] == old_out[m]);
                }
            }
            out.insert(p, x);
            proof {
                broadcast use vstd::multiset::group_multiset_axioms;
                let w = count_view(out@);
                let ov = count_view(old_out);
                assert(out@ =~= old_out.insert(p as int, x));
                assert forall|i: int, j: int| 0 <= i < j < w.len() implies count_before(
                    #[trigger] w[i],
                    #[trigger] w[j],
                ) by {
                    if j < p {
                        assert(w[i] == ov[i] && w[j] == ov[j]);
                    } else if j == p {
                        assert(w[i] == ov[i] && w[j] == xv);
                        assert(old_out[i].0@ != x.0@);
                        lemma_count_total(ov[i], xv);
                    } else if i == p {
                        assert(w[i] == xv && w[j] == ov[j - 1]);
                        assert(count_before(xv, ov[p as int]));
                        if j - 1 > p {
                            lemma_count_order(xv, ov[p as int], ov[j - 1]);
                        }
                    } else if i < p {
                        assert(w[i] == ov[i] && w[j] == ov[j - 1]);
                    } else {
                        assert(w[i] == ov[i - 1] && w[j] == ov[j - 1]);
                    }
                }
                vstd::seq_lib::to_multiset_insert(old_out, p as int, x);
                assert(all.take(n + 1) =~= all.take(n).push(x));
                all.take(n).to_multiset_ensures();
            }
        }
        proof {
            broadcast use vstd::multiset::group_multiset_axioms;
            assert(all.take(all.len() as int) =~= all);
            out@.to_multiset_ensures();
            all.to_multiset_ensures();
            assert forall|i: int| 0 <= i < out@.len() implies (#[trigger] out@[i]).1 == rule_count(
                self.pending@,
                out@[i].0@,
            ) && out@[i].1 > 0 by {
                assert(out@.to_multiset().count(out@[i]) > 0);
                assert(all.contains(out@[i]));
            }
            assert forall|k: int| 0 <= k < self.pending@.len() implies exists|i: int|
                0 <= i < out@.len() && (#[trigger] out@[i]).0@ == (#[trigger] self.pending@[k]).rule@ by {
                let j = choose|j: int| 0 <= j < all.len() && (#[trigger] all[j]).0@ == self.pending@[k].rule@;
                assert(all.to_multiset().count(all[j]) > 0);
                assert(out@.contains(all[j]));
            }
        }
        out
    }
}

/// The order of counts is strict and transitive.
proof fn lemma_count_order(a: (Seq<char>, int), b: (Seq<char>, int), c: (Seq<char>, int))
    ensures
        !count_before(a, a),
        count_before(a, b) && count_before(b, c) ==> count_before(a, c),
{
    lemma_lex_irreflexive(a.0);
    if count_before(a, b) && count_before(b, c) && a.1 == b.1 && b.1 == c.1 {
        lemma_lex_transitive(a.0, b.0, c.0);
    }
}

/// Two counts of different rules are ordered one way or the other.
proof fn lemma_count_total(a: (Seq<char>, int), b: (Seq<char>, int))
    requires
        a.0 != b.0,
    ensures
        count_before(a, b) || count_before(b, a),
{
    lemma_lex_total(a.0, b.0);
}

/// No more findings carry a rule than there are findings.
proof fn lemma_rule_count_bound(fs: Seq<Finding>, r: Seq<char>)
    ensures
        rule_count(fs, r) <= fs.len(),
    decreases fs.len(),
{
    if fs.len() > 0 {
        lemma_rule_count_bound(fs.drop_last(), r);
    }
}

} // verus!

verus! {

/// A count's noun: the singular for one, and the plural for any other count.
pub open spec fn verb_of(count: int, singular: Seq<char>, plural: Seq<char>) -> Seq<char> {
    if count == 1 {
        singular
    } else {
        plural
    }
}

fn verb(count: usize, singular: &'static str, plural: &'static str) -> (w: &'static str)
    ensures
        w@ == verb_of(count as int, singular@, plural@),
{
    if count == 1 {
        singular
    } else {
        plural
    }
}

/// The line that opens a task's part of the report: what it holds while in
/// force, and that it lapsed once past its date, each with its owner.
pub open spec fn task_head(t: Task) -> Seq<char> {
    match t.state {
        State::Open => "  "@ + t.id@ + " "@ + decimal((t.pairs@.len() - t.closed@.len()) as nat)
            + " open, "@ + decimal(t.closed@.len()) + " closed, holding "@ + decimal(t.held as nat)
            + " "@ + verb_of(t.held as int, "finding"@, "findings"@) + ", owner "@ + t.owner@
            + ", until "@ + date_text(t.until.days()) + "\n"@,
        State::Expired => "  "@ + t.id@ + " lapsed on "@ + date_text(t.until.days()) + ", and the "@
            + decimal(t.pairs@.len()) + " pairs it named are reported, owner "@ + t.owner@ + "\n"@,
    }
}

/// Each task's line and its statement, laid out.
pub open spec fn tasks_text(ts: Seq<Task>) -> Seq<char>
    decreases ts.len(),
{
    if ts.len() == 0 {
        Seq::<char>::empty()
    } else {
        tasks_text(ts.drop_last()) + task_head(ts.last()) + filled_text(ts.last().statement@, 4)
    }
}

/// The sentence a refused task is reported with.
pub open spec fn refused_line(r: Refused) -> Seq<char> {
    r.task@ + " holds nothing: "@ + r.why@
}

pub open spec fn refused_text(rs: Seq<Refused>) -> Seq<char>
    decreases rs.len(),
{
    if rs.len() == 0 {
        Seq::<char>::empty()
    } else {
        refused_text(rs.drop_last()) + filled_text(refused_line(rs.last()), 2)
    }
}

/// The sentence a key nothing reads is reported with.
pub open spec fn unread_line(u: Unread) -> Seq<char> {
    "the block declares `"@ + u.key@ + "`, which nothing here reads: "@ + u.why@
}

pub open spec fn unread_text(us: Seq<Unread>) -> Seq<char>
    decreases us.len(),
{
    if us.len() == 0 {
        Seq::<char>::empty()
    } else {
        unread_text(us.drop_last()) + filled_text(unread_line(us.last()), 2)
    }
}

/// The ledger as the report writes it: nothing for a block that declared
/// nothing, and otherwise the counts every run owes, each task, each
/// refusal and each key nothing reads.
pub open spec fn ledger_text(l: Ledger) -> Seq<char> {
    if l.tasks@.len() == 0 && l.refused@.len() == 0 && l.unread@.len() == 0 {
        Seq::<char>::empty()
    } else {
        let ts = l.tasks@;
        "adoption\n"@ + "  "@ + decimal(open_total(ts) as nat) + " pairs open, "@ + decimal(
            closed_total(ts) as nat,
        ) + " closed, holding "@ + decimal(held_total(ts) as nat) + " "@ + verb_of(
            held_total(ts),
            "finding"@,
            "findings"@,
        ) + ", in "@ + decimal(ts.len()) + " "@ + verb_of(ts.len() as int, "task"@, "tasks"@) + "\n"@
            + tasks_text(ts) + refused_text(l.refused@) + unread_text(l.unread@)
    }
}

/// Whether every text the report lays out is short enough to lay out, and
/// every date renders.
pub open spec fn renderable_ledger(l: Ledger) -> bool {
    &&& forall|t: int| 0 <= t < l.tasks@.len() ==> renderable((#[trigger] l.tasks@[t]).until.days())
    &&& forall|t: int|
        0 <= t < l.tasks@.len() ==> 3 * (#[trigger] l.tasks@[t]).statement@.len() + 9 <= usize::MAX
    &&& forall|k: int|
        0 <= k < l.refused@.len() ==> 3 * refused_line(#[trigger] l.refused@[k]).len() + 9 <= usize::MAX
    &&& forall|k: int|
        0 <= k < l.unread@.len() ==> 3 * unread_line(#[trigger] l.unread@[k]).len() + 9 <= usize::MAX
}

/// One task's part of the report: its line and its statement, laid out.
fn task_part(t: &Task) -> (out: Vec<char>)
    requires
        t.state == State::Open ==> t.closed@.len() <= t.pairs@.len(),
        renderable(t.until.days()),
        3 * t.statement@.len() + 9 <= usize::MAX,
    ensures
        out@ == task_head(*t) + filled_text(t.statement@, 4),
{
    let mut line: Vec<char> = chars_of("  ");
    extend_str(&mut line, t.id.as_str());
    match t.state {
        State::Open => {
            extend_str(&mut line, " ");
            extend_decimal(&mut line, (t.pairs.len() - t.closed.len()) as u64);
            extend_str(&mut line, " open, ");
            extend_decimal(&mut line, t.closed.len() as u64);
            extend_str(&mut line, " closed, holding ");
            extend_decimal(&mut line, t.held as u64);
            extend_str(&mut line, " ");
            extend_str(&mut line, verb(t.held, "finding", "findings"));
            extend_str(&mut line, ", owner ");
            extend_str(&mut line, t.owner.as_str());
            extend_str(&mut line, ", until ");
            let d = t.until.render();
            extend_str(&mut line, d.as_str());
            extend_str(&mut line, "\n");
        },
        State::Expired => {
            extend_str(&mut line, " lapsed on ");
            let d = t.until.render();
            extend_str(&mut line, d.as_str());
            extend_str(&mut line, ", and the ");
            extend_decimal(&mut line, t.pairs.len() as u64);
            extend_str(&mut line, " pairs it named are reported, owner ");
            extend_str(&mut line, t.owner.as_str());
            extend_str(&mut line, "\n");
        },
    }
    assert(line@ =~= task_head(*t));
    let statement = filled(t.statement.as_str(), 4);
    extend_str(&mut line, statement.as_str());
    line
}

impl Ledger {
    /// The ledger as text, for the report.
    pub fn render(&self) -> (s: String)
        requires
            closed_within(self.tasks@),
            forall|k: int| 0 <= k <= self.tasks@.len() ==> open_total(#[trigger] self.tasks@.take(k)) <= usize::MAX,
            forall|k: int| 0 <= k <= self.tasks@.len() ==> held_total(#[trigger] self.tasks@.take(k)) <= usize::MAX,
            forall|k: int| 0 <= k <= self.tasks@.len() ==> closed_total(#[trigger] self.tasks@.take(k)) <= usize::MAX,
            renderable_ledger(*self),
        ensures
            s@ == ledger_text(*self),
    {
        if self.is_empty() {
            return String::new();
        }
        let mut out: Vec<char> = chars_of("adoption\n");
        extend_str(&mut out, "  ");
        let open = self.open();
        let closed = self.closed();
        let held = self.held();
        extend_decimal(&mut out, open as u64);
        extend_str(&mut out, " pairs open, ");
        extend_decimal(&mut out, closed as u64);
        extend_str(&mut out, " closed, holding ");
        extend_decimal(&mut out, held as u64);
        extend_str(&mut out, " ");
        extend_str(&mut out, verb(held, "finding", "findings"));
        extend_str(&mut out, ", in ");
        extend_decimal(&mut out, self.tasks.len() as u64);
        extend_str(&mut out, " ");
        extend_str(&mut out, verb(self.tasks.len(), "task", "tasks"));
        extend_str(&mut out, "\n");
        let ghost head = out@;
        let ts = &self.tasks;
        let mut i: usize = 0;
        assert(ts@.take(0) =~= Seq::<Task>::empty());
        while i < ts.len()
            invariant
                i <= ts@.len(),
                ts@ == self.tasks@,
                closed_within(ts@),
                renderable_ledger(*self),
                out@ == head + tasks_text(ts@.take(i as int)),
            decreases ts@.len() - i,
        {
            let t = &ts[i];
            assert(ts@[i as int] == *t);
            assert(ts@.take(i + 1).drop_last() =~= ts@.take(i as int));
            let part = task_part(t);
            extend(&mut out, part.as_slice());
            i = i + 1;
        }
        assert(ts@.take(i as int) =~= ts@);
        let ghost mid = out@;
        let mut k: usize = 0;
        assert(self.refused@.take(0) =~= Seq::<Refused>::empty());
        while k < self.refused.len()
            invariant
                k <= self.refused@.len(),
                renderable_ledger(*self),
                out@ == mid + refused_text(self.refused@.take(k as int)),
            decreases self.refused@.len() - k,
        {
            let r = &self.refused[k];
            assert(self.refused@.take(k + 1).drop_last() =~= self.refused@.take(k as int));
            let mut text: Vec<char> = chars_of(r.task.as_str());
            extend_str(&mut text, " holds nothing: ");
            extend_str(&mut text, r.why.as_str());
            assert(text@ =~= refused_line(*r));
            let sentence = string_of(text.as_slice());
            let laid = filled(sentence.as_str(), 2);
            extend_str(&mut out, laid.as_str());
            k = k + 1;
        }
        assert(self.refused@.take(k as int) =~= self.refused@);
        let ghost late = out@;
        let mut u: usize = 0;
        assert(self.unread@.take(0) =~= Seq::<Unread>::empty());
        while u < self.unread.len()
            invariant
                u <= self.unread@.len(),
                renderable_ledger(*self),
                out@ == late + unread_text(self.unread@.take(u as int)),
            decreases self.unread@.len() - u,
        {
            let n = &self.unread[u];
            assert(self.unread@.take(u + 1).drop_last() =~= self.unread@.take(u as int));
            let mut text: Vec<char> = chars_of("the block declares `");
            extend_str(&mut text, n.key.as_str());
            extend_str(&mut text, "`, which nothing here reads: ");
            extend_str(&mut text, n.why.as_str());
            assert(text@ =~= unread_line(*n));
            let sentence = string_of(text.as_slice());
            let laid = filled(sentence.as_str(), 2);
            extend_str(&mut out, laid.as_str());
            u = u + 1;
        }
        assert(self.unread@.take(u as int) =~= self.unread@);
        assert(out@ =~= ledger_text(*self));
        string_of(out.as_slice())
    }
}

} // verus!

verus! {

/// A list holds a pair that names a finding exactly when its first such pair
/// exists.
proof fn lemma_first_pair_exists(ps: Seq<Pair>, f: Finding)
    ensures
        first_pair(ps, f) is Some <==> exists|a: int| 0 <= a < ps.len() && names(#[trigger] ps[a], f),
        first_pair(ps, f) matches Some(a) ==> 0 <= a < ps.len() && names(ps[a], f),
    decreases ps.len(),
{
    if ps.len() > 0 {
        lemma_first_pair_exists(ps.drop_last(), f);
        if exists|a: int| 0 <= a < ps.len() && names(#[trigger] ps[a], f) {
            let a = choose|a: int| 0 <= a < ps.len() && names(#[trigger] ps[a], f);
            if a < ps.len() - 1 {
                assert(ps.drop_last()[a] == ps[a]);
            }
        }
        if exists|a: int| 0 <= a < ps.drop_last().len() && names(#[trigger] ps.drop_last()[a], f) {
            let a = choose|a: int| 0 <= a < ps.drop_last().len() && names(#[trigger] ps.drop_last()[a], f);
            assert(ps[a] == ps.drop_last()[a]);
        }
    }
}

/// The first holder of a finding exists exactly when some task holds it.
proof fn lemma_holder_exists(ts: Seq<Task>, f: Finding)
    ensures
        holder(ts, f) is Some <==> exists|t: int| 0 <= t < ts.len() && holds(#[trigger] ts[t], f),
        holder(ts, f) matches Some(t) ==> 0 <= t < ts.len() && holds(ts[t], f),
    decreases ts.len(),
{
    if ts.len() > 0 {
        lemma_holder_exists(ts.drop_last(), f);
        if exists|t: int| 0 <= t < ts.len() && holds(#[trigger] ts[t], f) {
            let t = choose|t: int| 0 <= t < ts.len() && holds(#[trigger] ts[t], f);
            if t < ts.len() - 1 {
                assert(ts.drop_last()[t] == ts[t]);
            }
        }
        if exists|t: int| 0 <= t < ts.drop_last().len() && holds(#[trigger] ts.drop_last()[t], f) {
            let t = choose|t: int| 0 <= t < ts.drop_last().len() && holds(#[trigger] ts.drop_last()[t], f);
            assert(ts[t] == ts.drop_last()[t]);
        }
    }
}

/// The pair grain: a finding is pending exactly when a task still in force on
/// the day names its document and its rule together. A task that names one
/// rule on one document holds neither another rule on that document nor that
/// rule on another document, and a task past its date holds nothing.
pub proof fn law_held_by_its_pair(tasks: Seq<Task>, now: Date, f: Finding)
    ensures
        holder(standing(tasks, now), f) is Some <==> exists|t: int, a: int|
            0 <= t < tasks.len() && 0 <= a < tasks[t].pairs@.len() && state_on(tasks[t], now)
                == State::Open && #[trigger] names(tasks[t].pairs@[a], f),
        forall|t: int|
            0 <= t < tasks.len() && tasks[t].until.days() < now.days() ==> holder(standing(tasks, now), f)
                != Some(t),
{
    let ts = standing(tasks, now);
    lemma_holder_exists(ts, f);
    if holder(ts, f) is Some {
        let t = holder(ts, f).unwrap();
        assert(ts[t].pairs == tasks[t].pairs);
        lemma_first_pair_exists(ts[t].pairs@, f);
        let a = first_pair(ts[t].pairs@, f).unwrap();
        assert(names(tasks[t].pairs@[a], f));
    }
    if exists|t: int, a: int|
        0 <= t < tasks.len() && 0 <= a < tasks[t].pairs@.len() && state_on(tasks[t], now)
            == State::Open && #[trigger] names(tasks[t].pairs@[a], f) {
        let (t, a) = choose|t: int, a: int|
            0 <= t < tasks.len() && 0 <= a < tasks[t].pairs@.len() && state_on(tasks[t], now)
                == State::Open && #[trigger] names(tasks[t].pairs@[a], f);
        assert(ts[t].pairs == tasks[t].pairs);
        lemma_first_pair_exists(ts[t].pairs@, f);
        assert(holds(ts[t], f));
    }
}

/// Every finding of a run is kept or pending, and none is both or lost.
pub proof fn law_findings_partitioned(tasks: Seq<Task>, findings: Seq<Finding>)
    ensures
        kept_of(tasks, findings).to_multiset().add(pending_of(tasks, findings).to_multiset())
            == findings.to_multiset(),
    decreases findings.len(),
{
    broadcast use vstd::multiset::group_multiset_axioms;
    if findings.len() == 0 {
        kept_of(tasks, findings).to_multiset_ensures();
        pending_of(tasks, findings).to_multiset_ensures();
        findings.to_multiset_ensures();
        vstd::multiset::lemma_multiset_empty_len(kept_of(tasks, findings).to_multiset());
        vstd::multiset::lemma_multiset_empty_len(pending_of(tasks, findings).to_multiset());
        vstd::multiset::lemma_multiset_empty_len(findings.to_multiset());
        assert(kept_of(tasks, findings).to_multiset().add(pending_of(tasks, findings).to_multiset())
            =~= findings.to_multiset());
    } else {
        let init = findings.drop_last();
        law_findings_partitioned(tasks, init);
        kept_of(tasks, init).to_multiset_ensures();
        pending_of(tasks, init).to_multiset_ensures();
        init.to_multiset_ensures();
        assert(findings =~= init.push(findings.last()));
        assert(kept_of(tasks, findings).to_multiset().add(pending_of(tasks, findings).to_multiset())
            =~= findings.to_multiset());
    }
}

} // verus!

verus! {

/// Why a key this engine does not read is not honored.
pub open spec fn unread_why(key: Seq<char>) -> Seq<char> {
    if key == "from"@ || key == "to"@ {
        "it names a migration state, which takes a from-version and a to-version, and no verb of this engine writes either into this block"@
    } else if key == "severity"@ {
        "a pending finding keeps the severity its rule gave it, and this format has no place to write one"@
    } else {
        "nothing in this engine reads it, so what it declares is not what this run honored"@
    }
}

fn unread(key: &str) -> (s: String)
    ensures
        s@ == unread_why(key@),
{
    if str_eq(key, "from") || str_eq(key, "to") {
        owned("it names a migration state, which takes a from-version and a to-version, and no verb of this engine writes either into this block")
    } else if str_eq(key, "severity") {
        owned("a pending finding keeps the severity its rule gave it, and this format has no place to write one")
    } else {
        owned("nothing in this engine reads it, so what it declares is not what this run honored")
    }
}

/// The first key of a mapping that is not among those allowed.
pub open spec fn foreign_key(m: Seq<(String, Node)>, allowed: Seq<Seq<char>>) -> Option<Seq<char>>
    decreases m.len(),
{
    if m.len() == 0 {
        None
    } else if !allowed.contains(m[0].0@) {
        Some(m[0].0@)
    } else {
        foreign_key(m.skip(1), allowed)
    }
}

/// The keys a task may declare.
pub open spec fn task_keys() -> Seq<Seq<char>> {
    seq!["id"@, "statement"@, "owner"@, "until"@, "pairs"@]
}

/// The keys a pair may declare.
pub open spec fn pair_keys() -> Seq<Seq<char>> {
    seq!["path"@, "rule"@]
}

/// Whether a list of rule names holds one.
pub open spec fn names_rule(rules: Seq<&'static str>, r: Seq<char>) -> bool {
    exists|i: int| 0 <= i < rules.len() && (#[trigger] rules[i])@ == r
}

/// One pair as the block writes it, or why it cannot be read.
pub open spec fn pair_of(node: Node, rules: Seq<&'static str>) -> Result<(Seq<char>, Seq<char>), Seq<char>> {
    match node {
        Node::Mapping(m) => match foreign_key(m@, pair_keys()) {
            Some(k) => Err("a pair declares `"@ + k + "`, and "@ + unread_why(k)),
            None => match (scalar_at(m@, "path"@), scalar_at(m@, "rule"@)) {
                (None, _) => Err("a pair names no `path`"@),
                (Some(_), None) => Err("a pair names no `rule`"@),
                (Some(p), Some(r)) => if p.contains('*') {
                    Err("the pair `"@ + p + "` is a pattern, and a payload holds one document at a time. A pattern would blanket a document this taxonomy has not seen yet"@)
                } else if !names_rule(rules, r) {
                    Err("no rule of this engine is named `"@ + r + "`"@)
                } else {
                    Ok((p, r))
                },
            },
        },
        _ => Err("a pair is not a mapping"@),
    }
}

/// Every pair, or why the first that cannot be read cannot be.
pub open spec fn pairs_of(items: Seq<Node>, rules: Seq<&'static str>) -> Result<Seq<(Seq<char>, Seq<char>)>, Seq<char>>
    decreases items.len(),
{
    if items.len() == 0 {
        Ok(Seq::<(Seq<char>, Seq<char>)>::empty())
    } else {
        match pair_of(items[0], rules) {
            Err(e) => Err(e),
            Ok(p) => match pairs_of(items.skip(1), rules) {
                Err(e) => Err(e),
                Ok(rest) => Ok(seq![p] + rest),
            },
        }
    }
}

/// A task as the block writes it: its id, statement, owner, the day it lapses
/// after and its pairs, or why it cannot be read.
pub open spec fn task_of(map: Option<Seq<(String, Node)>>, rules: Seq<&'static str>) -> Result<
    (Seq<char>, Seq<char>, Seq<char>, int, Seq<(Seq<char>, Seq<char>)>),
    Seq<char>,
> {
    match map {
        None => Err("it is not a mapping"@),
        Some(m) => match foreign_key(m, task_keys()) {
            Some(k) => Err("it declares `"@ + k + "`, and "@ + unread_why(k)),
            None => match scalar_at(m, "id"@) {
                None => Err("it names no `id`, and a task a report cannot name is one nobody can close"@),
                Some(id) => match scalar_at(m, "statement"@) {
                    None => Err("it states no `statement`, so nothing in it says what the debt is"@),
                    Some(statement) => match scalar_at(m, "owner"@) {
                        None => Err("it names no `owner`, the field that ranks a task above a suppression"@),
                        Some(owner) => match scalar_at(m, "until"@) {
                            None => Err("it states no `until`, and debt with no expiry is a permanent exemption"@),
                            Some(until) => match date_of(until) {
                                None => Err("`until: "@ + until + "` is not a date written `YYYY-MM-DD`"@),
                                Some(days) => match entry_at(m, "pairs"@) {
                                    Some(Node::List(items)) => if items@.len() == 0 {
                                        Err("it declares no pair, so it accounts for nothing"@)
                                    } else {
                                        match pairs_of(items@, rules) {
                                            Err(e) => Err(e),
                                            Ok(ps) => Ok((id, statement, owner, days, ps)),
                                        }
                                    },
                                    _ => Err("it declares no `pairs` sequence"@),
                                },
                            },
                        },
                    },
                },
            },
        },
    }
}

} // verus!

verus! {

/// Whether a key is one a task may declare.
fn is_task_key(k: &str) -> (r: bool)
    ensures
        r == task_keys().contains(k@),
{
    let r = str_eq(k, "id") || str_eq(k, "statement") || str_eq(k, "owner") || str_eq(k, "until")
        || str_eq(k, "pairs");
    proof {
        let t = task_keys();
        assert(t[0] == "id"@ && t[1] == "statement"@ && t[2] == "owner"@ && t[3] == "until"@ && t[4]
            == "pairs"@);
        if t.contains(k@) {
            let i = choose|i: int| 0 <= i < t.len() && t[i] == k@;
        }
    }
    r
}

/// Whether a key is one a pair may declare.
fn is_pair_key(k: &str) -> (r: bool)
    ensures
        r == pair_keys().contains(k@),
{
    let r = str_eq(k, "path") || str_eq(k, "rule");
    proof {
        let t = pair_keys();
        assert(t[0] == "path"@ && t[1] == "rule"@);
        if t.contains(k@) {
            let i = choose|i: int| 0 <= i < t.len() && t[i] == k@;
        }
    }
    r
}

/// The first key of a task that it may not declare.
fn foreign_task_key(m: &Vec<(String, Node)>, pair: bool) -> (r: Option<&str>)
    ensures
        match r {
            Some(k) => foreign_key(m@, if pair { pair_keys() } else { task_keys() }) == Some(k@),
            None => foreign_key(m@, if pair { pair_keys() } else { task_keys() }) is None,
        },
{
    let ghost allowed = if pair {
        pair_keys()
    } else {
        task_keys()
    };
    let mut i: usize = 0;
    assert(m@.skip(0) =~= m@);
    while i < m.len()
        invariant
            i <= m@.len(),
            allowed == if pair { pair_keys() } else { task_keys() },
            foreign_key(m@, allowed) == foreign_key(m@.skip(i as int), allowed),
        decreases m@.len() - i,
    {
        assert(m@.skip(i as int)[0] == m@[i as int]);
        assert(m@.skip(i as int).skip(1) =~= m@.skip(i + 1));
        let key = m[i].0.as_str();
        let ok = if pair {
            is_pair_key(key)
        } else {
            is_task_key(key)
        };
        if !ok {
            return Some(key);
        }
        i = i + 1;
    }
    None
}

/// Whether a list of rule names holds one.
fn carries_rule(rules: &[&'static str], r: &str) -> (b: bool)
    ensures
        b == names_rule(rules@, r@),
{
    let mut i: usize = 0;
    while i < rules.len()
        invariant
            i <= rules@.len(),
            forall|m: int| 0 <= m < i ==> (#[trigger] rules@[m])@ != r@,
        decreases rules@.len() - i,
    {
        if str_eq(rules[i], r) {
            return true;
        }
        i = i + 1;
    }
    false
}

/// One pair as the block writes it, or why it cannot be read.
fn read_pair(node: &Node, rules: &[&'static str]) -> (r: Result<Pair, String>)
    ensures
        match r {
            Ok(p) => pair_of(*node, rules@) == Ok::<(Seq<char>, Seq<char>), Seq<char>>((p.path@, p.rule@)),
            Err(e) => pair_of(*node, rules@) == Err::<(Seq<char>, Seq<char>), Seq<char>>(e@),
        },
{
    let m = match node {
        Node::Mapping(m) => m,
        _ => return Err(owned("a pair is not a mapping")),
    };
    match foreign_task_key(m, true) {
        Some(k) => {
            let why = unread(k);
            let mut t: Vec<char> = chars_of("a pair declares `");
            extend_str(&mut t, k);
            extend_str(&mut t, "`, and ");
            extend_str(&mut t, why.as_str());
            return Err(string_of(t.as_slice()));
        },
        None => {},
    }
    let path = match scalar(m, "path") {
        Some(p) => p,
        None => return Err(owned("a pair names no `path`")),
    };
    let rule = match scalar(m, "rule") {
        Some(r) => r,
        None => return Err(owned("a pair names no `rule`")),
    };
    let pc = chars_of(path);
    let mut i: usize = 0;
    while i < pc.len() && pc[i] != '*'
        invariant
            i <= pc@.len(),
            forall|k: int| 0 <= k < i ==> pc@[k] != '*',
        decreases pc@.len() - i,
    {
        i = i + 1;
    }
    if i < pc.len() {
        assert(path@.contains('*')) by {
            assert(pc@[i as int] == '*');
        }
        let mut t: Vec<char> = chars_of("the pair `");
        extend_str(&mut t, path);
        extend_str(&mut t, "` is a pattern, and a payload holds one document at a time. A pattern would blanket a document this taxonomy has not seen yet");
        return Err(string_of(t.as_slice()));
    }
    assert(!path@.contains('*')) by {
        if path@.contains('*') {
            let k = choose|k: int| 0 <= k < path@.len() && path@[k] == '*';
            assert(pc@[k] != '*');
        }
    }
    if !carries_rule(rules, rule) {
        let mut t: Vec<char> = chars_of("no rule of this engine is named `");
        extend_str(&mut t, rule);
        extend_str(&mut t, "`");
        return Err(string_of(t.as_slice()));
    }
    Ok(Pair { path: owned(path), rule: owned(rule) })
}

} // verus!

verus! {

/// Every pair of a list, or why the first that cannot be read cannot be.
fn read_pairs(items: &Vec<Node>, rules: &[&'static str]) -> (r: Result<Vec<Pair>, String>)
    ensures
        match r {
            Ok(ps) => pairs_of(items@, rules@) == Ok::<Seq<(Seq<char>, Seq<char>)>, Seq<char>>(
                ps@.map_values(|p: Pair| (p.path@, p.rule@)),
            ),
            Err(e) => pairs_of(items@, rules@) == Err::<Seq<(Seq<char>, Seq<char>)>, Seq<char>>(e@),
        },
{
    let mut out: Vec<Pair> = Vec::new();
    let mut i: usize = 0;
    assert(items@.skip(0) =~= items@);
    assert(out@.map_values(|p: Pair| (p.path@, p.rule@)) =~= Seq::<(Seq<char>, Seq<char>)>::empty());
    while i < items.len()
        invariant
            i <= items@.len(),
            pairs_of(items@, rules@) == match pairs_of(items@.skip(i as int), rules@) {
                Err(e) => Err(e),
                Ok(rest) => Ok(out@.map_values(|p: Pair| (p.path@, p.rule@)) + rest),
            },
        decreases items@.len() - i,
    {
        assert(items@.skip(i as int)[0] == items@[i as int]);
        assert(items@.skip(i as int).skip(1) =~= items@.skip(i + 1));
        let ghost before = out@.map_values(|p: Pair| (p.path@, p.rule@));
        match read_pair(&items[i], rules) {
            Ok(p) => {
                let ghost pv = (p.path@, p.rule@);
                out.push(p);
                assert(out@.map_values(|p: Pair| (p.path@, p.rule@)) =~= before.push(pv));
                assert forall|rest: Seq<(Seq<char>, Seq<char>)>| before + (seq![pv] + rest) =~= before.push(pv) + rest by {}
            },
            Err(e) => {
                return Err(e);
            },
        }
        i = i + 1;
    }
    assert(items@.skip(i as int) =~= Seq::<Node>::empty());
    assert(out@.map_values(|p: Pair| (p.path@, p.rule@)) + Seq::<(Seq<char>, Seq<char>)>::empty()
        =~= out@.map_values(|p: Pair| (p.path@, p.rule@)));
    Ok(out)
}

/// A task as the block writes it, or why it cannot be read. A task this
/// engine cannot read holds nothing.
pub fn task(map: Option<&Vec<(String, Node)>>, rules: &[&'static str]) -> (r: Result<Task, String>)
    ensures
        match r {
            Ok(t) => {
                &&& task_of(
                    match map {
                        Some(m) => Some(m@),
                        None => None,
                    },
                    rules@,
                ) == Ok::<(Seq<char>, Seq<char>, Seq<char>, int, Seq<(Seq<char>, Seq<char>)>), Seq<char>>(
                    (t.id@, t.statement@, t.owner@, t.until.days(), t.pairs@.map_values(|p: Pair| (p.path@, p.rule@))),
                )
                &&& t.state == State::Open
                &&& t.held == 0
                &&& t.closed@.len() == 0
            },
            Err(e) => task_of(
                match map {
                    Some(m) => Some(m@),
                    None => None,
                },
                rules@,
            ) == Err::<(Seq<char>, Seq<char>, Seq<char>, int, Seq<(Seq<char>, Seq<char>)>), Seq<char>>(e@),
        },
{
    let m = match map {
        Some(m) => m,
        None => return Err(owned("it is not a mapping")),
    };
    match foreign_task_key(m, false) {
        Some(k) => {
            let why = unread(k);
            let mut t: Vec<char> = chars_of("it declares `");
            extend_str(&mut t, k);
            extend_str(&mut t, "`, and ");
            extend_str(&mut t, why.as_str());
            return Err(string_of(t.as_slice()));
        },
        None => {},
    }
    let id = match scalar(m, "id") {
        Some(v) => v,
        None => return Err(owned("it names no `id`, and a task a report cannot name is one nobody can close")),
    };
    let statement = match scalar(m, "statement") {
        Some(v) => v,
        None => return Err(owned("it states no `statement`, so nothing in it says what the debt is")),
    };
    let owner = match scalar(m, "owner") {
        Some(v) => v,
        None => return Err(owned("it names no `owner`, the field that ranks a task above a suppression")),
    };
    let until_text = match scalar(m, "until") {
        Some(v) => v,
        None => return Err(owned("it states no `until`, and debt with no expiry is a permanent exemption")),
    };
    let until = match Date::parse(until_text) {
        Some(d) => d,
        None => {
            let mut t: Vec<char> = chars_of("`until: ");
            extend_str(&mut t, until_text);
            extend_str(&mut t, "` is not a date written `YYYY-MM-DD`");
            return Err(string_of(t.as_slice()));
        },
    };
    let items = match get(m, "pairs") {
        Some(Node::List(items)) => items,
        _ => return Err(owned("it declares no `pairs` sequence")),
    };
    if items.len() == 0 {
        return Err(owned("it declares no pair, so it accounts for nothing"));
    }
    let pairs = match read_pairs(items, rules) {
        Ok(ps) => ps,
        Err(e) => return Err(e),
    };
    Ok(Task {
        id: owned(id),
        statement: owned(statement),
        owner: owned(owner),
        until,
        pairs,
        state: State::Open,
        held: 0,
        closed: Vec::new(),
    })
}

/// The keys of a block beside `tasks`, each named with why it holds nothing.
pub open spec fn unread_of(block: Seq<(String, Node)>) -> Seq<(Seq<char>, Seq<char>)>
    decreases block.len(),
{
    if block.len() == 0 {
        Seq::<(Seq<char>, Seq<char>)>::empty()
    } else if block.last().0@ != "tasks"@ {
        unread_of(block.drop_last()).push((block.last().0@, unread_why(block.last().0@)))
    } else {
        unread_of(block.drop_last())
    }
}

/// The name a task is refused under: its `id`, or its place in the block.
pub open spec fn task_name(item: Node, index: int) -> Seq<char> {
    match item {
        Node::Mapping(m) => match scalar_at(m@, "id"@) {
            Some(id) => id,
            None => "task "@ + decimal((index + 1) as nat),
        },
        _ => "task "@ + decimal((index + 1) as nat),
    }
}

/// The mapping a node is, if it is one.
pub open spec fn as_mapping(item: Node) -> Option<Seq<(String, Node)>> {
    match item {
        Node::Mapping(m) => Some(m@),
        _ => None,
    }
}

/// A task as characters: its id, statement, owner, the day it lapses after,
/// and its pairs.
pub open spec fn task_view(t: Task) -> (Seq<char>, Seq<char>, Seq<char>, int, Seq<(Seq<char>, Seq<char>)>) {
    (t.id@, t.statement@, t.owner@, t.until.days(), t.pairs@.map_values(|p: Pair| (p.path@, p.rule@)))
}

/// The tasks of a block that read, in order.
pub open spec fn tasks_read(items: Seq<Node>, rules: Seq<&'static str>) -> Seq<
    (Seq<char>, Seq<char>, Seq<char>, int, Seq<(Seq<char>, Seq<char>)>),
>
    decreases items.len(),
{
    if items.len() == 0 {
        Seq::empty()
    } else {
        match task_of(as_mapping(items.last()), rules) {
            Ok(t) => tasks_read(items.drop_last(), rules).push(t),
            Err(_) => tasks_read(items.drop_last(), rules),
        }
    }
}

/// The tasks of a block that did not read, each named with why, in order.
pub open spec fn tasks_refused(items: Seq<Node>, rules: Seq<&'static str>) -> Seq<(Seq<char>, Seq<char>)>
    decreases items.len(),
{
    if items.len() == 0 {
        Seq::empty()
    } else {
        match task_of(as_mapping(items.last()), rules) {
            Ok(_) => tasks_refused(items.drop_last(), rules),
            Err(e) => tasks_refused(items.drop_last(), rules).push(
                (task_name(items.last(), items.len() - 1), e),
            ),
        }
    }
}

/// Whether `d` is what a block declares: every key beside `tasks` named with
/// why nothing reads it, and each task read or refused, in order. A block
/// with no `tasks` sequence accounts for nothing and says so.
pub open spec fn declares(block: Seq<(String, Node)>, rules: Seq<&'static str>, d: Declared) -> bool {
    &&& d.unread@.map_values(|u: Unread| (u.key@, u.why@)) == unread_of(block)
    &&& forall|k: int| 0 <= k < d.tasks@.len() ==> {
        &&& (#[trigger] d.tasks@[k]).state == State::Open
        &&& d.tasks@[k].held == 0
        &&& d.tasks@[k].closed@.len() == 0
    }
    &&& match entry_at(block, "tasks"@) {
        Some(Node::List(items)) => {
            &&& d.tasks@.map_values(|t: Task| task_view(t)) == tasks_read(items@, rules)
            &&& d.refused@.map_values(|r: Refused| (r.task@, r.why@)) == tasks_refused(items@, rules)
        },
        _ => {
            &&& d.tasks@.len() == 0
            &&& d.refused@.map_values(|r: Refused| (r.task@, r.why@)) == seq![
                ("adoption"@, "it declares no `tasks` sequence, so it accounts for nothing"@),
            ]
        },
    }
}

/// What an adoption block declares. A key beside `tasks` is named with why
/// nothing reads it, and the tasks beside it are still read; a task this
/// engine cannot read is refused, named by its `id` or its place, and holds
/// nothing.
pub fn read(block: &Vec<(String, Node)>, rules: &[&'static str]) -> (d: Declared)
    ensures
        declares(block@, rules@, d),
{
    let mut unread_keys: Vec<Unread> = Vec::new();
    let mut i: usize = 0;
    assert(block@.take(0) =~= Seq::<(String, Node)>::empty());
    while i < block.len()
        invariant
            i <= block@.len(),
            unread_keys@.map_values(|u: Unread| (u.key@, u.why@)) == unread_of(block@.take(i as int)),
        decreases block@.len() - i,
    {
        assert(block@.take(i + 1).drop_last() =~= block@.take(i as int));
        let key = block[i].0.as_str();
        let ghost before = unread_keys@.map_values(|u: Unread| (u.key@, u.why@));
        if !str_eq(key, "tasks") {
            let why = unread(key);
            unread_keys.push(Unread { key: owned(key), why });
            assert(unread_keys@.map_values(|u: Unread| (u.key@, u.why@)) =~= before.push((key@, unread_why(key@))));
        }
        i = i + 1;
    }
    assert(block@.take(i as int) =~= block@);
    let items = match get(block, "tasks") {
        Some(Node::List(items)) => items,
        _ => {
            let mut refused: Vec<Refused> = Vec::new();
            refused.push(Refused {
                task: owned("adoption"),
                why: owned("it declares no `tasks` sequence, so it accounts for nothing"),
            });
            let d = Declared { tasks: Vec::new(), refused, unread: unread_keys };
            assert(d.refused@.map_values(|r: Refused| (r.task@, r.why@)) =~= seq![
                ("adoption"@, "it declares no `tasks` sequence, so it accounts for nothing"@),
            ]);
            return d;
        },
    };
    let mut tasks: Vec<Task> = Vec::new();
    let mut refused: Vec<Refused> = Vec::new();
    let mut k: usize = 0;
    assert(items@.take(0) =~= Seq::<Node>::empty());
    assert(tasks@.map_values(|t: Task| task_view(t)) =~= tasks_read(items@.take(0), rules@));
    assert(refused@.map_values(|r: Refused| (r.task@, r.why@)) =~= tasks_refused(items@.take(0), rules@));
    while k < items.len()
        invariant
            k <= items@.len(),
            tasks@.map_values(|t: Task| task_view(t)) == tasks_read(items@.take(k as int), rules@),
            refused@.map_values(|r: Refused| (r.task@, r.why@)) == tasks_refused(items@.take(k as int), rules@),
            forall|j: int| 0 <= j < tasks@.len() ==> {
                &&& (#[trigger] tasks@[j]).state == State::Open
                &&& tasks@[j].held == 0
                &&& tasks@[j].closed@.len() == 0
            },
        decreases items@.len() - k,
    {
        let item = &items[k];
        let ghost prefix = items@.take(k as int);
        assert(items@.take(k + 1).drop_last() =~= prefix);
        assert(items@.take(k + 1).last() == *item);
        let map = match item {
            Node::Mapping(m) => Some(m),
            _ => None,
        };
        assert(match map {
            Some(m) => Some(m@),
            None => None,
        } == as_mapping(*item));
        let name = match map {
            Some(m) => match scalar(m, "id") {
                Some(id) => owned(id),
                None => {
                    let mut t: Vec<char> = chars_of("task ");
                    extend_decimal(&mut t, (k as u64) + 1);
                    string_of(t.as_slice())
                },
            },
            None => {
                let mut t: Vec<char> = chars_of("task ");
                extend_decimal(&mut t, (k as u64) + 1);
                string_of(t.as_slice())
            },
        };
        assert(name@ == task_name(*item, k as int));
        let ghost tb = tasks@.map_values(|t: Task| task_view(t));
        let ghost rb = refused@.map_values(|r: Refused| (r.task@, r.why@));
        match task(map, rules) {
            Ok(t) => {
                let ghost tv = task_view(t);
                tasks.push(t);
                assert(tasks@.map_values(|t: Task| task_view(t)) =~= tb.push(tv));
            },
            Err(why) => {
                let ghost e = why@;
                refused.push(Refused { task: name, why });
                assert(refused@.map_values(|r: Refused| (r.task@, r.why@)) =~= rb.push((task_name(*item, k as int), e)));
            },
        }
        k = k + 1;
    }
    assert(items@.take(k as int) =~= items@);
    Declared { tasks, refused, unread: unread_keys }
}

} // verus!
