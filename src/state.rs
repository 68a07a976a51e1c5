//! The collapse engine as a state machine over mathematical values: what one
//! step of a run does, and what holds of every run.

use vstd::prelude::*;
use crate::domain::{meet, keep_only, within, support_size, weight, lemma_within_shrinks};
use crate::rules::{RuleTable, cons};
use crate::graph::pick;
use crate::entropy::entropy_key;

verus! {

/// An unresolved vertex waiting in the queue, with its cached entropy key and a
/// tie-break value. Lower keys come out first.
#[derive(Clone, Copy, Debug)]
pub struct Candidate {
    pub index: usize,
    pub key: u128,
    pub tie: u64,
}

/// "The domain of `from` changed: recompute the constraint that it imposes on
/// `to`, which lies in `direction`."
#[derive(Clone, Copy, Debug)]
pub struct Propagate {
    pub from: usize,
    pub to: usize,
    pub direction: usize,
}

/// Where a run stands.
#[derive(Clone, Copy, Debug, PartialEq, Eq, Structural)]
pub enum Status {
    Running,
    Succeeded,
    Failed,
}

/// Everything a run knows, as mathematical values.
pub struct RunState {
    pub doms: Seq<Seq<u32>>,
    pub adj: Seq<Seq<(usize, usize)>>,
    pub draws: Seq<u64>,
    pub heap: Seq<Candidate>,
    pub dirty: Seq<bool>,
    pub observed: Seq<bool>,
    pub stack: Seq<Propagate>,
    pub pos: nat,
    pub status: Status,
    /// Number of propagation steps so far that changed a domain.
    pub changes: nat,
}

/// `a` comes out of the queue before `b`.
pub open spec fn precedes(a: Candidate, b: Candidate) -> bool {
    a.key < b.key || (a.key == b.key && a.tie < b.tie)
}

/// Position of the first candidate that no other candidate precedes.
pub open spec fn best(h: Seq<Candidate>) -> int
    decreases h.len(),
{
    if h.len() <= 1 {
        0
    } else {
        let b = best(h.drop_last());
        if precedes(h.last(), h[b]) {
            h.len() - 1
        } else {
            b
        }
    }
}

/// Number of `true` entries.
pub open spec fn count_true(s: Seq<bool>) -> nat
    decreases s.len(),
{
    if s.len() == 0 {
        0
    } else {
        count_true(s.drop_last()) + if s.last() { 1nat } else { 0nat }
    }
}

/// Sum of the weights of all domains.
pub open spec fn total(doms: Seq<Seq<u32>>) -> nat
    decreases doms.len(),
{
    if doms.len() == 0 {
        0
    } else {
        total(doms.drop_last()) + weight(doms.last())
    }
}

/// Sum of the numbers of possible labels of all domains.
pub open spec fn total_support(doms: Seq<Seq<u32>>) -> nat
    decreases doms.len(),
{
    if doms.len() == 0 {
        0
    } else {
        total_support(doms.drop_last()) + support_size(doms.last())
    }
}

/// The draw at position `pos`, or zero past the end.
pub open spec fn draw_at(draws: Seq<u64>, pos: nat) -> u64 {
    if pos < draws.len() {
        draws[pos as int]
    } else {
        0
    }
}

/// Tasks from `from` to each of its neighbours that is not yet observed, in
/// adjacency order.
pub open spec fn tasks(from: usize, edges: Seq<(usize, usize)>, observed: Seq<bool>) -> Seq<Propagate>
    decreases edges.len(),
{
    if edges.len() == 0 {
        Seq::empty()
    } else {
        let prev = tasks(from, edges.drop_last(), observed);
        let e = edges.last();
        if 0 <= e.0 < observed.len() && !observed[e.0 as int] {
            prev.push(Propagate { from, to: e.0, direction: e.1 })
        } else {
            prev
        }
    }
}

/// The queue with a fresh candidate, without tie-break, for each of the first
/// `k` vertices that are dirty, in index order.
pub open spec fn flush(heap: Seq<Candidate>, dirty: Seq<bool>, doms: Seq<Seq<u32>>, k: int) -> Seq<Candidate>
    decreases k,
{
    if k <= 0 {
        heap
    } else {
        let prev = flush(heap, dirty, doms, k - 1);
        if dirty[k - 1] {
            prev.push(Candidate { index: (k - 1) as usize, key: entropy_key(doms[k - 1]) as u128, tie: 0 })
        } else {
            prev
        }
    }
}

/// A propagation step: pop the last task and apply its constraint.
pub open spec fn propagate_step(s: RunState, rules: RuleTable) -> RunState {
    let t = s.stack.last();
    let rest = s.stack.drop_last();
    let n = s.doms.len();
    if t.from >= n || t.to >= n {
        RunState { stack: rest, ..s }
    } else {
        let old_dom = s.doms[t.to as int];
        let new_dom = meet(old_dom, cons(rules, s.doms[t.from as int], t.direction as int));
        if new_dom == old_dom {
            RunState { stack: rest, ..s }
        } else if support_size(new_dom) == 0 {
            RunState {
                doms: s.doms.update(t.to as int, new_dom),
                stack: rest,
                status: Status::Failed,
                changes: s.changes + 1,
                ..s
            }
        } else {
            let single = support_size(new_dom) == 1;
            let observed = if single { s.observed.update(t.to as int, true) } else { s.observed };
            let dirty = if single { s.dirty } else { s.dirty.update(t.to as int, true) };
            RunState {
                doms: s.doms.update(t.to as int, new_dom),
                observed,
                dirty,
                stack: rest + tasks(t.to, s.adj[t.to as int], observed),
                changes: s.changes + 1,
                ..s
            }
        }
    }
}

/// A choice step: requeue the dirty vertices, take the best candidate, and if its
/// vertex is not yet observed, resolve it by the next draw.
pub open spec fn choose_step(s: RunState) -> RunState {
    let n = s.doms.len();
    let h = flush(s.heap, s.dirty, s.doms, n as int);
    let i = best(h);
    let c = h[i];
    let heap = h.remove(i);
    let dirty = Seq::new(s.dirty.len(), |j: int| false);
    if c.index >= n || s.observed[c.index as int] {
        RunState { heap, dirty, ..s }
    } else if weight(s.doms[c.index as int]) == 0 {
        RunState { heap, dirty, status: Status::Failed, ..s }
    } else {
        let a = s.doms[c.index as int];
        let label = pick(a, (draw_at(s.draws, s.pos) as nat) % weight(a));
        let observed = s.observed.update(c.index as int, true);
        RunState {
            doms: s.doms.update(c.index as int, keep_only(a, label as int)),
            heap,
            dirty,
            observed,
            stack: s.stack + tasks(c.index, s.adj[c.index as int], observed),
            pos: if s.pos < s.draws.len() { s.pos + 1 } else { s.pos },
            ..s
        }
    }
}

/// One step of a run. A finished run stays as it is.
pub open spec fn step(s: RunState, rules: RuleTable) -> RunState {
    if s.status != Status::Running {
        s
    } else if count_true(s.observed) == s.doms.len() || s.heap.len() == 0 {
        RunState { status: Status::Succeeded, ..s }
    } else if s.stack.len() > 0 {
        propagate_step(s, rules)
    } else {
        choose_step(s)
    }
}

/// The state after `k` propagation steps, stopping early once the stack is
/// empty or the run has failed.
pub open spec fn settle(s: RunState, rules: RuleTable, k: nat) -> RunState
    decreases k,
{
    if k == 0 {
        s
    } else {
        let p = settle(s, rules, (k - 1) as nat);
        if p.status == Status::Running && p.stack.len() > 0 {
            propagate_step(p, rules)
        } else {
            p
        }
    }
}

/// The state after `k` steps.
pub open spec fn steps(s: RunState, rules: RuleTable, k: nat) -> RunState
    decreases k,
{
    if k == 0 {
        s
    } else {
        step(steps(s, rules, (k - 1) as nat), rules)
    }
}

proof fn lemma_steps_split(s: RunState, rules: RuleTable, a: nat, b: nat)
    ensures
        steps(s, rules, a + b) == steps(steps(s, rules, a), rules, b),
    decreases b,
{
    if b > 0 {
        lemma_steps_split(s, rules, a, (b - 1) as nat);
        assert(a + b - 1 == a + (b - 1) as nat);
    } else {
        assert(a + b == a);
    }
}

proof fn lemma_finished_stays(t: RunState, rules: RuleTable, k: nat)
    requires
        t.status != Status::Running,
    ensures
        steps(t, rules, k) == t,
    decreases k,
{
    if k > 0 {
        lemma_finished_stays(t, rules, (k - 1) as nat);
    }
}

/// A run has one outcome: any two finished states reached from the same state
/// are the same state.
pub proof fn lemma_outcome_unique(s: RunState, rules: RuleTable, k1: nat, k2: nat)
    requires
        steps(s, rules, k1).status != Status::Running,
        steps(s, rules, k2).status != Status::Running,
    ensures
        steps(s, rules, k1) == steps(s, rules, k2),
{
    if k1 <= k2 {
        lemma_steps_split(s, rules, k1, (k2 - k1) as nat);
        lemma_finished_stays(steps(s, rules, k1), rules, (k2 - k1) as nat);
    } else {
        lemma_steps_split(s, rules, k2, (k1 - k2) as nat);
        lemma_finished_stays(steps(s, rules, k2), rules, (k1 - k2) as nat);
    }
}

/// Replacing one domain changes the total weight by the difference of weights.
pub proof fn lemma_total_update(doms: Seq<Seq<u32>>, i: int, x: Seq<u32>)
    requires
        0 <= i < doms.len(),
    ensures
        total(doms.update(i, x)) + weight(doms[i]) == total(doms) + weight(x),
    decreases doms.len(),
{
    let d2 = doms.update(i, x);
    if i == doms.len() - 1 {
        assert(d2.drop_last() =~= doms.drop_last());
    } else {
        lemma_total_update(doms.drop_last(), i, x);
        assert(d2.drop_last() =~= doms.drop_last().update(i, x));
    }
}

/// No step gives a label back: each domain after a step is contained in the
/// domain before it, so its number of possible labels does not grow; and the
/// number of vertices stays the same.
pub proof fn lemma_step_shrinks(s: RunState, rules: RuleTable)
    ensures
        step(s, rules).doms.len() == s.doms.len(),
        forall|v: int|
            0 <= v < s.doms.len() ==> within(#[trigger] step(s, rules).doms[v], s.doms[v])
                && support_size(step(s, rules).doms[v]) <= support_size(s.doms[v]),
{
    let t = step(s, rules);
    assert forall|v: int| 0 <= v < s.doms.len() implies within(#[trigger] t.doms[v], s.doms[v])
        && support_size(t.doms[v]) <= support_size(s.doms[v]) by {
        assert(within(t.doms[v], s.doms[v]));
        lemma_within_shrinks(t.doms[v], s.doms[v]);
    }
}

/// Monotonicity over a whole run: after any number of steps, each domain is
/// contained in the one the run started from and has no more possible labels.
pub proof fn lemma_run_shrinks(s: RunState, rules: RuleTable, k: nat)
    ensures
        steps(s, rules, k).doms.len() == s.doms.len(),
        forall|v: int|
            0 <= v < s.doms.len() ==> within(#[trigger] steps(s, rules, k).doms[v], s.doms[v])
                && support_size(steps(s, rules, k).doms[v]) <= support_size(s.doms[v]),
    decreases k,
{
    if k > 0 {
        let p = steps(s, rules, (k - 1) as nat);
        lemma_run_shrinks(s, rules, (k - 1) as nat);
        lemma_step_shrinks(p, rules);
        assert forall|v: int| 0 <= v < s.doms.len() implies within(
            #[trigger] steps(s, rules, k).doms[v],
            s.doms[v],
        ) && support_size(steps(s, rules, k).doms[v]) <= support_size(s.doms[v]) by {
            lemma_within_shrinks(steps(s, rules, k).doms[v], s.doms[v]);
        }
    }
}

/// Each propagation step that changes a domain lowers the total weight by at
/// least one, and no other step raises it.
pub proof fn lemma_step_changes(s: RunState, rules: RuleTable)
    ensures
        step(s, rules).changes + total(step(s, rules).doms) <= s.changes + total(s.doms),
{
    let t = step(s, rules);
    if s.status == Status::Running && !(count_true(s.observed) == s.doms.len() || s.heap.len() == 0) {
        if s.stack.len() > 0 {
            let p = s.stack.last();
            if p.from < s.doms.len() && p.to < s.doms.len() {
                let old_dom = s.doms[p.to as int];
                let new_dom = meet(old_dom, cons(rules, s.doms[p.from as int], p.direction as int));
                if new_dom != old_dom {
                    lemma_within_shrinks(new_dom, old_dom);
                    lemma_total_update(s.doms, p.to as int, new_dom);
                }
            }
        } else {
            let h = flush(s.heap, s.dirty, s.doms, s.doms.len() as int);
            let c = h[best(h)];
            if c.index < s.doms.len() && !s.observed[c.index as int] && weight(s.doms[c.index as int]) != 0 {
                let a = s.doms[c.index as int];
                let label = pick(a, (draw_at(s.draws, s.pos) as nat) % weight(a));
                lemma_within_shrinks(keep_only(a, label as int), a);
                lemma_total_update(s.doms, c.index as int, keep_only(a, label as int));
            }
        }
    }
}

/// Over any number of steps, the propagation steps that changed a domain number
/// at most the total weight that the run started from.
pub proof fn lemma_run_changes(s: RunState, rules: RuleTable, k: nat)
    ensures
        steps(s, rules, k).changes + total(steps(s, rules, k).doms) <= s.changes + total(s.doms),
    decreases k,
{
    if k > 0 {
        lemma_run_changes(s, rules, (k - 1) as nat);
        lemma_step_changes(steps(s, rules, (k - 1) as nat), rules);
    }
}

/// Where every count is zero or one, weight and number of possible labels agree.
pub proof fn lemma_unit_weight(a: Seq<u32>)
    requires
        forall|i: int| 0 <= i < a.len() ==> a[i] <= 1,
    ensures
        weight(a) == support_size(a),
    decreases a.len(),
{
    if a.len() > 0 {
        lemma_unit_weight(a.drop_last());
    }
}

/// Where every count is zero or one, total weight and total number of possible
/// labels agree.
pub proof fn lemma_unit_total(doms: Seq<Seq<u32>>)
    requires
        forall|v: int, i: int| 0 <= v < doms.len() && 0 <= i < doms[v].len() ==> doms[v][i] <= 1,
    ensures
        total(doms) == total_support(doms),
    decreases doms.len(),
{
    if doms.len() > 0 {
        lemma_unit_total(doms.drop_last());
        lemma_unit_weight(doms.last());
    }
}

/// Termination bound: when every starting count is zero or one (domains as
/// plain sets), a run makes at most as many domain-changing propagation steps as
/// the sum over the vertices of their numbers of possible labels.
pub proof fn lemma_change_bound(s: RunState, rules: RuleTable, k: nat)
    requires
        s.changes == 0,
        forall|v: int, i: int| 0 <= v < s.doms.len() && 0 <= i < s.doms[v].len() ==> s.doms[v][i] <= 1,
    ensures
        steps(s, rules, k).changes <= total_support(s.doms),
{
    lemma_run_changes(s, rules, k);
    lemma_unit_total(s.doms);
}

} // verus!
