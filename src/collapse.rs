//! One collapse attempt over a working graph, and the retrying driver around it.

use vstd::prelude::*;
use crate::domain::{LabelDomain, support_size, weight, within, lemma_within_shrinks,
    lemma_keep_only_single};
use crate::rules::{RuleTable, constraint, lemma_cons_prefix_len};
use crate::graph::{Graph, lemma_pick_possible, lemma_freq_bound};
use crate::vertex_set::{VertexSet, flags, members};
use crate::random::{Stream, stream_word, stream_from, fresh_seed, draw_words};
use crate::entropy::{entropy, entropy_key};
use crate::state::{Candidate, Propagate, Status, RunState, best, count_true, total,
    draw_at, tasks, flush, step, steps, settle, lemma_run_shrinks, lemma_outcome_unique};

verus! {

/// Setting an unset flag adds one to the count.
pub proof fn lemma_count_true_update(s: Seq<bool>, i: int)
    requires
        0 <= i < s.len(),
        !s[i],
    ensures
        count_true(s.update(i, true)) == count_true(s) + 1,
    decreases s.len(),
{
    let t = s.update(i, true);
    if i == s.len() - 1 {
        assert(t.drop_last() =~= s.drop_last());
    } else {
        lemma_count_true_update(s.drop_last(), i);
        assert(t.drop_last() =~= s.drop_last().update(i, true));
    }
}

/// The count is at most the length, and reaches it only when every flag is set.
pub proof fn lemma_count_true_full(s: Seq<bool>)
    ensures
        count_true(s) <= s.len(),
        count_true(s) == s.len() ==> forall|i: int| 0 <= i < s.len() ==> s[i],
    decreases s.len(),
{
    if s.len() > 0 {
        lemma_count_true_full(s.drop_last());
        if count_true(s) == s.len() {
            assert forall|i: int| 0 <= i < s.len() implies s[i] by {
                if i < s.len() - 1 {
                    assert(s[i] == s.drop_last()[i]);
                }
            }
        }
    }
}

/// No flag set, no count.
pub proof fn lemma_count_none(n: nat)
    ensures
        count_true(Seq::new(n, |j: int| false)) == 0,
    decreases n,
{
    if n > 0 {
        lemma_count_none((n - 1) as nat);
        assert(Seq::new(n, |j: int| false).drop_last() =~= Seq::new((n - 1) as nat, |j: int| false));
    }
}

/// Every task starts at `from` and ends at a flagged position.
pub proof fn lemma_tasks_bounds(from: usize, edges: Seq<(usize, usize)>, observed: Seq<bool>)
    ensures
        forall|i: int|
            0 <= i < tasks(from, edges, observed).len() ==> (#[trigger] tasks(from, edges, observed)[i]).from
                == from && tasks(from, edges, observed)[i].to < observed.len(),
    decreases edges.len(),
{
    if edges.len() > 0 {
        lemma_tasks_bounds(from, edges.drop_last(), observed);
        let prev = tasks(from, edges.drop_last(), observed);
        let t = tasks(from, edges, observed);
        assert forall|i: int| 0 <= i < t.len() implies (#[trigger] t[i]).from == from && t[i].to
            < observed.len() by {
            if i < prev.len() {
                assert(t[i] == prev[i]);
            }
        }
    }
}

/// Requeueing appends one candidate per dirty vertex, each for a vertex below `k`.
pub proof fn lemma_flush_facts(heap: Seq<Candidate>, dirty: Seq<bool>, doms: Seq<Seq<u32>>, k: int)
    requires
        0 <= k <= dirty.len(),
    ensures
        flush(heap, dirty, doms, k).len() == heap.len() + count_true(dirty.subrange(0, k)),
        forall|j: int| 0 <= j < heap.len() ==> #[trigger] flush(heap, dirty, doms, k)[j] == heap[j],
        forall|j: int|
            heap.len() <= j < flush(heap, dirty, doms, k).len() ==> (#[trigger] flush(heap, dirty, doms, k)[j]).index
                < k,
    decreases k,
{
    if k > 0 {
        lemma_flush_facts(heap, dirty, doms, k - 1);
        assert(dirty.subrange(0, k).drop_last() =~= dirty.subrange(0, k - 1));
    } else {
        assert(dirty.subrange(0, k).len() == 0);
    }
}

/// The best candidate of a non-empty queue is in it.
pub proof fn lemma_best_range(h: Seq<Candidate>)
    requires
        h.len() > 0,
    ensures
        0 <= best(h) < h.len(),
    decreases h.len(),
{
    if h.len() > 1 {
        lemma_best_range(h.drop_last());
    }
}

/// Removing another vertex's candidate keeps a candidate for `v`.
pub proof fn lemma_remove_keeps(h: Seq<Candidate>, i: int, v: int)
    requires
        0 <= i < h.len(),
        h[i].index != v,
        exists|j: int| 0 <= j < h.len() && (#[trigger] h[j]).index == v,
    ensures
        exists|j: int| 0 <= j < h.remove(i).len() && (#[trigger] h.remove(i)[j]).index == v,
{
    let j = choose|j: int| 0 <= j < h.len() && (#[trigger] h[j]).index == v;
    let r = h.remove(i);
    if j < i {
        assert(r[j] == h[j]);
    } else {
        assert(r[j - 1] == h[j]);
    }
}

/// A collapse attempt: the working graph, the queue of candidates, the dirty and
/// observed flags, the propagation stack and the draws that random choices use.
pub struct Collapse {
    pub heap: Vec<Candidate>,
    pub gen_observe: VertexSet,
    pub observed: VertexSet,
    pub observed_count: usize,
    pub propagations: Vec<Propagate>,
    pub draws: Vec<u64>,
    pub pos: usize,
    pub status: Status,
    pub out_graph: Graph,
    pub changes: Ghost<nat>,
}

/// The observed flags a run starts with: the vertices that are already resolved.
pub open spec fn init_observed(doms: Seq<Seq<u32>>) -> Seq<bool> {
    Seq::new(doms.len(), |v: int| support_size(doms[v]) == 1)
}

/// The queue a run starts with: a candidate for each of the first `k` vertices
/// that is not resolved, with the next draw as its tie-break.
pub open spec fn init_heap(doms: Seq<Seq<u32>>, draws: Seq<u64>, k: int) -> Seq<Candidate>
    decreases k,
{
    if k <= 0 {
        Seq::empty()
    } else {
        let prev = init_heap(doms, draws, k - 1);
        if support_size(doms[k - 1]) != 1 {
            prev.push(
                Candidate {
                    index: (k - 1) as usize,
                    key: entropy_key(doms[k - 1]) as u128,
                    tie: draw_at(draws, prev.len()),
                },
            )
        } else {
            prev
        }
    }
}

/// The stack a run starts with: tasks out of each of the first `k` vertices whose
/// domain differs from the full one.
pub open spec fn init_stack(
    all: Seq<u32>,
    doms: Seq<Seq<u32>>,
    adj: Seq<Seq<(usize, usize)>>,
    k: int,
) -> Seq<Propagate>
    decreases k,
{
    if k <= 0 {
        Seq::empty()
    } else {
        let prev = init_stack(all, doms, adj, k - 1);
        if doms[k - 1] != all {
            prev + tasks((k - 1) as usize, adj[k - 1], init_observed(doms))
        } else {
            prev
        }
    }
}

/// The state a run starts in.
pub open spec fn init_state(all: Seq<u32>, doms: Seq<Seq<u32>>, adj: Seq<Seq<(usize, usize)>>, draws: Seq<u64>) -> RunState {
    RunState {
        doms,
        adj,
        draws,
        heap: init_heap(doms, draws, doms.len() as int),
        dirty: Seq::new(doms.len(), |v: int| false),
        observed: init_observed(doms),
        stack: init_stack(all, doms, adj, doms.len() as int),
        pos: init_heap(doms, draws, doms.len() as int).len(),
        status: Status::Running,
        changes: 0,
    }
}

/// Queue length plus number of dirty vertices.
pub open spec fn pending(s: RunState) -> nat {
    s.heap.len() + count_true(s.dirty)
}

/// One step moves a run forward: it finishes it, lowers the total weight, or keeps
/// that and shortens the queue, or keeps both and shortens the stack.
pub open spec fn progress(a: RunState, b: RunState) -> bool {
    ||| b.status != Status::Running
    ||| total(b.doms) < total(a.doms)
    ||| total(b.doms) == total(a.doms) && pending(b) < pending(a)
    ||| total(b.doms) == total(a.doms) && pending(b) == pending(a) && b.stack.len() < a.stack.len()
}

/// The tasks a run starts with.
fn initial_stack(all_labels: &LabelDomain, out_graph: &Graph, observed: &VertexSet) -> (propagations: Vec<Propagate>)
    requires
        out_graph.vertices@.len() == out_graph.edges@.len(),
        flags(*observed, out_graph.vertices@.len()) == init_observed(out_graph.doms()),
    ensures
        propagations@ == init_stack(all_labels@, out_graph.doms(), out_graph.adj(), out_graph.vertices@.len() as int),
        forall|i: int| 0 <= i < propagations@.len() ==> (#[trigger] propagations@[i]).from < out_graph.vertices@.len()
            && propagations@[i].to < out_graph.vertices@.len(),
{
    let n = out_graph.vertices.len();
    let ghost doms = out_graph.doms();
    let ghost adj = out_graph.adj();
        let mut propagations: Vec<Propagate> = Vec::new();
        let mut v: usize = 0;
        while v < n
            invariant
                n == out_graph.vertices@.len(),
                n == out_graph.edges@.len(),
                doms == out_graph.doms(),
                adj == out_graph.adj(),
                flags(*observed, n as nat) == init_observed(doms),
                v <= n,
                propagations@ == init_stack(all_labels@, doms, adj, v as int),
                forall|i: int| 0 <= i < propagations@.len() ==> (#[trigger] propagations@[i]).from < n
                    && propagations@[i].to < n,
            decreases n - v,
        {
            assert(doms[v as int] == out_graph.vertices@[v as int]@);
            if !out_graph.vertices[v].same_as(all_labels) {
                let ghost mid = propagations@;
                generate_propagations(&mut propagations, observed, out_graph, v);
                proof {
                    lemma_tasks_bounds(v, adj[v as int], flags(*observed, n as nat));
                    let st = propagations@;
                    assert forall|i: int| 0 <= i < st.len() implies (#[trigger] st[i]).from < n && st[i].to < n by {
                        if i < mid.len() {
                            assert(st[i] == mid[i]);
                        } else {
                            assert(st[i] == tasks(v, adj[v as int], flags(*observed, n as nat))[i - mid.len()]);
                        }
                    }
                }
            }
            v = v + 1;
        }
    propagations
}

/// What a graph hands back, as domains.
pub open spec fn view_of(r: Option<Graph>) -> Option<Seq<Seq<u32>>> {
    match r {
        Some(g) => Some(g.doms()),
        None => None,
    }
}

/// The outcome of the run from the given start: the domains of the finished
/// state if it succeeded, else nothing.
pub open spec fn run_outcome(
    rules: RuleTable,
    all: Seq<u32>,
    doms: Seq<Seq<u32>>,
    adj: Seq<Seq<(usize, usize)>>,
    draws: Seq<u64>,
) -> Option<Seq<Seq<u32>>> {
    let s = init_state(all, doms, adj, draws);
    if exists|k: nat| (#[trigger] steps(s, rules, k)).status != Status::Running {
        let t = steps(s, rules, choose|k: nat| (#[trigger] steps(s, rules, k)).status != Status::Running);
        if t.status == Status::Succeeded {
            Some(t.doms)
        } else {
            None
        }
    } else {
        None
    }
}

/// The outcome of the first successful run among the attempts `i ..` that use
/// the draws `ws[i]`, `ws[i + 1]`, and so on.
pub open spec fn first_from(
    rules: RuleTable,
    all: Seq<u32>,
    doms: Seq<Seq<u32>>,
    adj: Seq<Seq<(usize, usize)>>,
    ws: Seq<Seq<u64>>,
    i: int,
) -> Option<Seq<Seq<u32>>>
    decreases ws.len() - i,
{
    if i < 0 || i >= ws.len() {
        None
    } else {
        match run_outcome(rules, all, doms, adj, ws[i]) {
            Some(d) => Some(d),
            None => first_from(rules, all, doms, adj, ws, i + 1),
        }
    }
}

/// The outcome of the first successful attempt, one attempt per entry of `ws`;
/// nothing when every attempt fails.
pub open spec fn first_success(
    rules: RuleTable,
    all: Seq<u32>,
    doms: Seq<Seq<u32>>,
    adj: Seq<Seq<(usize, usize)>>,
    ws: Seq<Seq<u64>>,
) -> Option<Seq<Seq<u32>>> {
    first_from(rules, all, doms, adj, ws, 0)
}

/// The draws of `attempts` attempts of `count` words each, taken in turn from
/// the stream of `seed` from position `start` on.
pub open spec fn stream_runs(seed: u64, start: nat, attempts: nat, count: nat) -> Seq<Seq<u64>> {
    Seq::new(attempts, |i: int| Seq::new(count, |j: int| stream_word(seed, (start + i * count + j) as nat)))
}

/// Number of attempts: as many as asked for, ten when not said.
pub open spec fn attempts_of(tries: Option<u16>) -> nat {
    match tries {
        Some(t) => t as nat,
        None => 10,
    }
}

/// Words drawn per attempt over `n` vertices: two per vertex, one for its
/// tie-break and one for its choice.
pub open spec fn draw_count(n: nat) -> nat {
    if n <= usize::MAX / 2 { 2 * n } else { usize::MAX as nat }
}

proof fn lemma_attempt_outcome(rules: RuleTable, s0: RunState, k1: nat, r: Option<Graph>)
    requires
        outcome(steps(s0, rules, k1), r),
    ensures
        ({
            let t = steps(s0, rules, choose|k: nat| (#[trigger] steps(s0, rules, k)).status != Status::Running);
            &&& exists|k: nat| (#[trigger] steps(s0, rules, k)).status != Status::Running
            &&& view_of(r) == if t.status == Status::Succeeded { Some(t.doms) } else { None::<Seq<Seq<u32>>> }
        }),
{
    assert(steps(s0, rules, k1).status != Status::Running);
    let k = choose|k: nat| (#[trigger] steps(s0, rules, k)).status != Status::Running;
    lemma_outcome_unique(s0, rules, k1, k);
}

/// A run over domains that are all resolved succeeds at once and changes nothing.
pub proof fn lemma_resolved_succeeds(
    rules: RuleTable,
    all: Seq<u32>,
    doms: Seq<Seq<u32>>,
    adj: Seq<Seq<(usize, usize)>>,
    draws: Seq<u64>,
)
    requires
        forall|v: int| 0 <= v < doms.len() ==> support_size(#[trigger] doms[v]) == 1,
    ensures
        run_outcome(rules, all, doms, adj, draws) == Some(doms),
{
    let s0 = init_state(all, doms, adj, draws);
    lemma_count_all(s0.observed);
    assert(steps(s0, rules, 0) == s0);
    assert(steps(s0, rules, 1) == step(steps(s0, rules, 0), rules));
    assert(steps(s0, rules, 1).status == Status::Succeeded);
    let k = choose|k: nat| (#[trigger] steps(s0, rules, k)).status != Status::Running;
    lemma_outcome_unique(s0, rules, 1, k);
}

proof fn lemma_count_all(s: Seq<bool>)
    requires
        forall|i: int| 0 <= i < s.len() ==> s[i],
    ensures
        count_true(s) == s.len(),
    decreases s.len(),
{
    if s.len() > 0 {
        assert forall|i: int| 0 <= i < s.drop_last().len() implies s.drop_last()[i] by {
            assert(s.drop_last()[i] == s[i]);
        }
        lemma_count_all(s.drop_last());
    }
}

/// More attempts never change a success: when the first `k1` attempts on a
/// stream succeed, the first `k2 >= k1` attempts give the same result.
pub proof fn lemma_more_attempts(
    rules: RuleTable,
    all: Seq<u32>,
    doms: Seq<Seq<u32>>,
    adj: Seq<Seq<(usize, usize)>>,
    seed: u64,
    start: nat,
    k1: nat,
    k2: nat,
    count: nat,
)
    requires
        k1 <= k2,
        first_success(rules, all, doms, adj, stream_runs(seed, start, k1, count)) is Some,
    ensures
        first_success(rules, all, doms, adj, stream_runs(seed, start, k2, count)) == first_success(
            rules,
            all,
            doms,
            adj,
            stream_runs(seed, start, k1, count),
        ),
{
    lemma_prefix_first(rules, all, doms, adj, stream_runs(seed, start, k1, count), stream_runs(seed, start, k2, count), 0);
}

proof fn lemma_prefix_first(
    rules: RuleTable,
    all: Seq<u32>,
    doms: Seq<Seq<u32>>,
    adj: Seq<Seq<(usize, usize)>>,
    w1: Seq<Seq<u64>>,
    w2: Seq<Seq<u64>>,
    i: int,
)
    requires
        0 <= i,
        w1.len() <= w2.len(),
        forall|j: int| 0 <= j < w1.len() ==> #[trigger] w1[j] == w2[j],
        first_from(rules, all, doms, adj, w1, i) is Some,
    ensures
        first_from(rules, all, doms, adj, w2, i) == first_from(rules, all, doms, adj, w1, i),
    decreases w1.len() - i,
{
    if i < w1.len() {
        assert(w1[i] == w2[i]);
        if run_outcome(rules, all, doms, adj, w1[i]) is None {
            lemma_prefix_first(rules, all, doms, adj, w1, w2, i + 1);
        }
    }
}

proof fn lemma_same_cons(r1: RuleTable, r2: RuleTable, a: Seq<u32>, d: int, k: int)
    requires
        r1.labels == r2.labels,
        forall|d2: int, l: int| #[trigger] r1.rule(d2, l) == r2.rule(d2, l),
    ensures
        crate::rules::cons_prefix(r1, a, d, k) == crate::rules::cons_prefix(r2, a, d, k),
    decreases k,
{
    if k > 0 {
        lemma_same_cons(r1, r2, a, d, k - 1);
        assert(r1.rule(d, k - 1) == r2.rule(d, k - 1));
    }
}

proof fn lemma_same_steps(r1: RuleTable, r2: RuleTable, s: RunState, k: nat)
    requires
        r1.labels == r2.labels,
        forall|d2: int, l: int| #[trigger] r1.rule(d2, l) == r2.rule(d2, l),
    ensures
        steps(s, r1, k) == steps(s, r2, k),
    decreases k,
{
    if k > 0 {
        lemma_same_steps(r1, r2, s, (k - 1) as nat);
        let p = steps(s, r1, (k - 1) as nat);
        if p.stack.len() > 0 {
            let t = p.stack.last();
            if t.from < p.doms.len() {
                lemma_same_cons(r1, r2, p.doms[t.from as int], t.direction as int, p.doms[t.from as int].len() as int);
            }
        }
    }
}

/// Two rule tables that give every direction and label the same rule give every
/// run and every retry the same outcome; so the outcome of `collapse` depends
/// on what the exemplar teaches, not on how the table is laid out.
pub proof fn lemma_same_rules(
    r1: RuleTable,
    r2: RuleTable,
    all: Seq<u32>,
    doms: Seq<Seq<u32>>,
    adj: Seq<Seq<(usize, usize)>>,
    ws: Seq<Seq<u64>>,
)
    requires
        r1.labels == r2.labels,
        forall|d: int, l: int| #[trigger] r1.rule(d, l) == r2.rule(d, l),
    ensures
        first_success(r1, all, doms, adj, ws) == first_success(r2, all, doms, adj, ws),
{
    assert forall|draws: Seq<u64>| #[trigger] run_outcome(r1, all, doms, adj, draws) == run_outcome(r2, all, doms, adj, draws) by {
        let s = init_state(all, doms, adj, draws);
        if exists|k: nat| (#[trigger] steps(s, r1, k)).status != Status::Running {
            let k1 = choose|k: nat| (#[trigger] steps(s, r1, k)).status != Status::Running;
            lemma_same_steps(r1, r2, s, k1);
            let k2 = choose|k: nat| (#[trigger] steps(s, r2, k)).status != Status::Running;
            lemma_outcome_unique(s, r2, k1, k2);
        }
        if exists|k: nat| (#[trigger] steps(s, r2, k)).status != Status::Running {
            let k2 = choose|k: nat| (#[trigger] steps(s, r2, k)).status != Status::Running;
            lemma_same_steps(r1, r2, s, k2);
        }
    }
    lemma_same_first(r1, r2, all, doms, adj, ws, 0);
}

proof fn lemma_same_first(
    r1: RuleTable,
    r2: RuleTable,
    all: Seq<u32>,
    doms: Seq<Seq<u32>>,
    adj: Seq<Seq<(usize, usize)>>,
    ws: Seq<Seq<u64>>,
    i: int,
)
    requires
        forall|draws: Seq<u64>| #[trigger] run_outcome(r1, all, doms, adj, draws) == run_outcome(r2, all, doms, adj, draws),
    ensures
        first_from(r1, all, doms, adj, ws, i) == first_from(r2, all, doms, adj, ws, i),
    decreases ws.len() - i,
{
    if 0 <= i < ws.len() {
        assert(run_outcome(r1, all, doms, adj, ws[i]) == run_outcome(r2, all, doms, adj, ws[i]));
        lemma_same_first(r1, r2, all, doms, adj, ws, i + 1);
    }
}

/// One attempt on a copy of `output` with the given draws. The result is the
/// outcome of the run that starts from `output`'s domains.
pub fn attempt(rules: &RuleTable, all_labels: &LabelDomain, output: &Graph, draws: Vec<u64>) -> (r: Option<Graph>)
    requires
        rules.wf(),
        output.wf(rules.labels as nat),
        forall|v: int| 0 <= v < output.vertices@.len() ==> within(#[trigger] output.vertices@[v]@, all_labels@),
    ensures
        exists|k: nat| outcome(#[trigger] steps(init_state(all_labels@, output.doms(), output.adj(), draws@), *rules, k), r),
        view_of(r) == run_outcome(*rules, all_labels@, output.doms(), output.adj(), draws@),
        r matches Some(g) ==> {
            &&& g.resolved()
            &&& g.adj() == output.adj()
            &&& g.doms().len() == output.doms().len()
            &&& forall|v: int| 0 <= v < output.doms().len() ==> within(#[trigger] g.doms()[v], output.doms()[v])
        },
{
    let work = output.copy();
    assert(work.wf(rules.labels as nat)) by {
        assert(work.doms().len() == work.vertices@.len());
        assert(output.doms().len() == output.vertices@.len());
        assert(work.adj().len() == work.edges@.len());
        assert(output.adj().len() == output.edges@.len());
        assert forall|v: int| 0 <= v < work.vertices@.len() implies #[trigger] work.vertices@[v]@.len() == rules.labels by {
            assert(work.doms()[v] == output.doms()[v]);
            assert(output.doms()[v] == output.vertices@[v]@);
        }
        assert forall|v: int, k: int| 0 <= v < work.edges@.len() && 0 <= k < work.edges@[v]@.len() implies (
            #[trigger] work.edges@[v]@[k]).0 < work.vertices@.len() by {
            assert(work.adj()[v] == output.adj()[v]);
            assert(output.adj()[v] == output.edges@[v]@);
            assert(work.adj()[v] == work.edges@[v]@);
        }
    }
    assert forall|v: int| 0 <= v < work.vertices@.len() implies within(#[trigger] work.vertices@[v]@, all_labels@) by {
        assert(work.doms()[v] == output.doms()[v]);
        assert(output.doms()[v] == output.vertices@[v]@);
    }
    let mut run = Collapse::new(all_labels, work, draws);
    let ghost s0 = run.state();
    let r = run.exec(rules);
    proof {
        let k = choose|k: nat| outcome(#[trigger] steps(s0, *rules, k), r);
        lemma_attempt_outcome(*rules, s0, k, r);
        if r is Some {
            lemma_run_shrinks(s0, *rules, k);
        }
    }
    r
}

/// Up to `attempts` attempts, each on a fresh copy of `output` with the next
/// `count` words of the stream. Returns the first attempt that succeeds, or
/// `None` when every attempt fails.
pub fn retry(
    rules: &RuleTable,
    all_labels: &LabelDomain,
    output: &Graph,
    stream: &mut Stream,
    attempts: u16,
    count: usize,
) -> (r: Option<Graph>)
    requires
        rules.wf(),
        output.wf(rules.labels as nat),
        forall|v: int| 0 <= v < output.vertices@.len() ==> within(#[trigger] output.vertices@[v]@, all_labels@),
    ensures
        view_of(r) == first_success(
            *rules,
            all_labels@,
            output.doms(),
            output.adj(),
            stream_runs(old(stream).seed@, old(stream).pos@, attempts as nat, count as nat),
        ),
        r matches Some(g) ==> {
            &&& g.resolved()
            &&& g.adj() == output.adj()
            &&& g.doms().len() == output.doms().len()
            &&& forall|v: int| 0 <= v < output.doms().len() ==> within(#[trigger] g.doms()[v], output.doms()[v])
        },
{
    let ghost ws = stream_runs(stream.seed@, stream.pos@, attempts as nat, count as nat);
    let ghost seed = stream.seed@;
    let ghost start = stream.pos@;
    let mut i: u16 = 0;
    while i < attempts
        invariant
            rules.wf(),
            output.wf(rules.labels as nat),
            forall|v: int| 0 <= v < output.vertices@.len() ==> within(#[trigger] output.vertices@[v]@, all_labels@),
            i <= attempts,
            ws == stream_runs(seed, start, attempts as nat, count as nat),
            seed == old(stream).seed@,
            start == old(stream).pos@,
            stream.seed@ == seed,
            stream.pos@ == start + i * count,
            first_success(*rules, all_labels@, output.doms(), output.adj(), ws) == first_from(
                *rules,
                all_labels@,
                output.doms(),
                output.adj(),
                ws,
                i as int,
            ),
        decreases attempts - i,
    {
        let draws = draw_words(stream, count);
        assert(draws@ =~= ws[i as int]);
        assert(start + i * count + count == start + (i + 1) * count) by (nonlinear_arith);
        let r = attempt(rules, all_labels, output, draws);
        if r.is_some() {
            assert(first_from(*rules, all_labels@, output.doms(), output.adj(), ws, i as int) == view_of(r));
            return r;
        }
        assert(first_from(*rules, all_labels@, output.doms(), output.adj(), ws, i as int) == first_from(
            *rules,
            all_labels@,
            output.doms(),
            output.adj(),
            ws,
            i as int + 1,
        ));
        i = i + 1;
    }
    None
}

/// Collapse `output_graph` under the rules and frequencies that `input_graph`
/// teaches, with up to `tries` attempts (ten by default) that draw from one
/// generator seeded by `seed` (a fresh seed by default). Returns the first
/// attempt that succeeds, or `None` when all of them hit a contradiction.
pub fn collapse(input_graph: &Graph, output_graph: Graph, seed: Option<u64>, tries: Option<u16>) -> (r: Option<Graph>)
    requires
        input_graph.wf(input_graph.label_count_spec()),
        input_graph.resolved(),
        input_graph.vertices@.len() <= u32::MAX,
        output_graph.wf(input_graph.label_count_spec()),
        forall|v: int|
            0 <= v < output_graph.vertices@.len() ==> within(
                #[trigger] output_graph.vertices@[v]@,
                input_graph.freq_domain(),
            ),
    ensures
        ({
            let attempts = attempts_of(tries);
            let count = draw_count(output_graph.vertices@.len());
            &&& tries == Some(0u16) ==> r is None
            &&& tries != Some(0u16) && output_graph.resolved() ==> (r matches Some(g) && g.doms()
                == output_graph.doms())
            &&& exists|rt: RuleTable, s: u64|
                #![trigger input_graph.teaches(rt), stream_runs(s, 0, attempts, count)]
                input_graph.teaches(rt) && (seed matches Some(x) ==> s == x) && view_of(r) == first_success(
                    rt,
                    input_graph.freq_domain(),
                    output_graph.doms(),
                    output_graph.adj(),
                    stream_runs(s, 0, attempts, count),
                )
            &&& r matches Some(g) ==> {
                &&& g.resolved()
                &&& g.adj() == output_graph.adj()
                &&& g.doms().len() == output_graph.doms().len()
                &&& forall|v: int|
                    0 <= v < output_graph.doms().len() ==> within(#[trigger] g.doms()[v], output_graph.doms()[v])
            }
        }),
{
    let s = match seed {
        Some(x) => x,
        None => fresh_seed(),
    };
    let mut stream = stream_from(s);
    let attempts: u16 = match tries {
        Some(t) => t,
        None => 10,
    };
    let rules = input_graph.rules();
    let all_labels = input_graph.frequencies();
    assert(all_labels@ =~= input_graph.freq_domain()) by {
        assert forall|l: int| 0 <= l < all_labels@.len() implies all_labels@[l] == input_graph.freq_domain()[l] by {
            lemma_freq_bound(input_graph.doms(), l);
            assert(input_graph.doms().len() == input_graph.vertices@.len());
        }
    }
    let n = output_graph.vertices.len();
    let count = if n <= usize::MAX / 2 { 2 * n } else { usize::MAX };
    let r = retry(&rules, &all_labels, &output_graph, &mut stream, attempts, count);
    proof {
        let ws = stream_runs(s, 0, attempts as nat, count as nat);
        assert(count as nat == draw_count(output_graph.vertices@.len()));
        assert(input_graph.teaches(rules));
        assert(view_of(r) == first_success(rules, input_graph.freq_domain(), output_graph.doms(), output_graph.adj(), ws));
        assert(input_graph.teaches(rules) && (seed matches Some(x) ==> s == x) && view_of(r) == first_success(
            rules,
            input_graph.freq_domain(),
            output_graph.doms(),
            output_graph.adj(),
            stream_runs(s, 0, attempts as nat, count as nat),
        ));
        if attempts == 0 {
            assert(first_from(rules, all_labels@, output_graph.doms(), output_graph.adj(), ws, 0) is None);
        }
        if output_graph.resolved() && attempts > 0 {
            assert forall|v: int| 0 <= v < output_graph.doms().len() implies support_size(#[trigger] output_graph.doms()[v]) == 1 by {
                assert(output_graph.doms()[v] == output_graph.vertices@[v]@);
            }
            lemma_resolved_succeeds(rules, all_labels@, output_graph.doms(), output_graph.adj(), ws[0]);
            assert(first_from(rules, all_labels@, output_graph.doms(), output_graph.adj(), ws, 0) == Some(output_graph.doms()));
        }
        assert(attempts_of(tries) == attempts as nat);
        assert(exists|rt: RuleTable, s2: u64|
            #![trigger input_graph.teaches(rt), stream_runs(s2, 0, attempts_of(tries), count as nat)]
            input_graph.teaches(rt) && (seed matches Some(x) ==> s2 == x) && view_of(r) == first_success(
                rt,
                input_graph.freq_domain(),
                output_graph.doms(),
                output_graph.adj(),
                stream_runs(s2, 0, attempts_of(tries), count as nat),
            ));
    }
    r
}

/// Determinism: two attempts on the same rules, full domain, output domains,
/// adjacency and draws hand back the same result, since a run reaches one
/// finished state.
pub proof fn lemma_attempt_deterministic(
    rules: RuleTable,
    all: Seq<u32>,
    doms: Seq<Seq<u32>>,
    adj: Seq<Seq<(usize, usize)>>,
    draws: Seq<u64>,
    r1: Option<Graph>,
    r2: Option<Graph>,
)
    requires
        exists|k: nat| outcome(#[trigger] steps(init_state(all, doms, adj, draws), rules, k), r1),
        exists|k: nat| outcome(#[trigger] steps(init_state(all, doms, adj, draws), rules, k), r2),
    ensures
        r1.is_some() == r2.is_some(),
        r1 matches Some(g1) ==> r2 matches Some(g2) && g1.doms() == g2.doms(),
{
    let s = init_state(all, doms, adj, draws);
    let k1 = choose|k: nat| outcome(#[trigger] steps(s, rules, k), r1);
    let k2 = choose|k: nat| outcome(#[trigger] steps(s, rules, k), r2);
    lemma_outcome_unique(s, rules, k1, k2);
}

/// `r` is what a run that finished in state `t` hands back.
pub open spec fn outcome(t: RunState, r: Option<Graph>) -> bool {
    match r {
        Some(g) => t.status == Status::Succeeded && g.doms() == t.doms,
        None => t.status == Status::Failed,
    }
}

/// Push a task from `from_index` to each neighbour that is not observed.
pub fn generate_propagations(
    propagations: &mut Vec<Propagate>,
    observed: &VertexSet,
    out_graph: &Graph,
    from_index: usize,
)
    requires
        from_index < out_graph.edges@.len(),
    ensures
        final(propagations)@ == old(propagations)@ + tasks(from_index, out_graph.adj()[from_index as int], flags(*observed, out_graph.vertices@.len())),
{
    let edges = out_graph.connections(from_index);
    let ghost es = edges@;
    assert(es == out_graph.adj()[from_index as int]);
    let mut k: usize = 0;
    while k < edges.len()
        invariant
            es == edges@,
            k <= es.len(),
            propagations@ == old(propagations)@ + tasks(from_index, es.subrange(0, k as int), flags(*observed, out_graph.vertices@.len())),
        decreases es.len() - k,
    {
        let (to, d) = edges[k];
        assert(es.subrange(0, k as int + 1).drop_last() =~= es.subrange(0, k as int));
        if to < out_graph.vertices.len() && !observed.contains(to) {
            propagations.push(Propagate { from: from_index, to, direction: d });
        }
        k = k + 1;
        assert(propagations@ =~= old(propagations)@ + tasks(from_index, es.subrange(0, k as int), flags(*observed, out_graph.vertices@.len())));
    }
    assert(es.subrange(0, k as int) =~= es);
}

/// Position of the candidate that comes out of the queue first.
pub fn best_candidate(heap: &Vec<Candidate>) -> (r: usize)
    requires
        heap@.len() > 0,
    ensures
        r == best(heap@),
        r < heap@.len(),
{
    let mut b: usize = 0;
    let mut i: usize = 1;
    assert(heap@.subrange(0, 1).len() == 1);
    while i < heap.len()
        invariant
            1 <= i <= heap@.len(),
            b == best(heap@.subrange(0, i as int)),
            b < i,
        decreases heap@.len() - i,
    {
        let ghost pre = heap@.subrange(0, i as int);
        let ghost next = heap@.subrange(0, i as int + 1);
        assert(next.drop_last() =~= pre);
        proof {
            lemma_best_range(pre);
        }
        let x = heap[i];
        let y = heap[b];
        if x.key < y.key || (x.key == y.key && x.tie < y.tie) {
            b = i;
        }
        i = i + 1;
    }
    assert(heap@.subrange(0, i as int) =~= heap@);
    b
}

impl Collapse {
    /// The run's state as mathematical values.
    pub open spec fn state(&self) -> RunState {
        RunState {
            doms: self.out_graph.doms(),
            adj: self.out_graph.adj(),
            draws: self.draws@,
            heap: self.heap@,
            dirty: flags(self.gen_observe, self.out_graph.vertices@.len()),
            observed: flags(self.observed, self.out_graph.vertices@.len()),
            stack: self.propagations@,
            pos: self.pos as nat,
            status: self.status,
            changes: self.changes@,
        }
    }

    /// The observed flags, one per vertex.
    pub fn observed_flags(&self) -> (r: Vec<bool>)
        ensures
            r@ == self.state().observed,
    {
        let n = self.out_graph.vertices.len();
        let mut r: Vec<bool> = Vec::new();
        let mut v: usize = 0;
        while v < n
            invariant
                n == self.out_graph.vertices@.len(),
                v <= n,
                r@ == self.state().observed.subrange(0, v as int),
            decreases n - v,
        {
            r.push(self.observed.contains(v));
            v = v + 1;
            assert(r@ =~= self.state().observed.subrange(0, v as int));
        }
        assert(r@ =~= self.state().observed);
        r
    }

    /// Requeue every dirty vertex, in index order, with a fresh entropy key.
    fn flush_dirty(&mut self)
        ensures
            final(self).heap@ == flush(
                old(self).heap@,
                old(self).state().dirty,
                old(self).out_graph.doms(),
                old(self).out_graph.vertices@.len() as int,
            ),
            final(self).state().dirty == Seq::new(old(self).out_graph.vertices@.len(), |j: int| false),
            final(self).out_graph == old(self).out_graph,
            final(self).observed == old(self).observed,
            final(self).observed_count == old(self).observed_count,
            final(self).propagations == old(self).propagations,
            final(self).draws == old(self).draws,
            final(self).pos == old(self).pos,
            final(self).status == old(self).status,
            final(self).changes == old(self).changes,
    {
        let n = self.out_graph.vertices.len();
        let ghost h0 = self.heap@;
        let ghost d0 = self.state().dirty;
        let ghost doms = self.out_graph.doms();
        let mut v: usize = 0;
        while v < n
            invariant
                n == self.out_graph.vertices@.len(),
                d0 == flags(self.gen_observe, n as nat),
                doms == self.out_graph.doms(),
                self.heap@ == flush(h0, d0, doms, v as int),
                v <= n,
                self.gen_observe == old(self).gen_observe,
                self.out_graph == old(self).out_graph,
                self.observed == old(self).observed,
                self.observed_count == old(self).observed_count,
                self.propagations == old(self).propagations,
                self.draws == old(self).draws,
                self.pos == old(self).pos,
                self.status == old(self).status,
                self.changes == old(self).changes,
            decreases n - v,
        {
            if self.gen_observe.contains(v) {
                let key = entropy(&self.out_graph.vertices[v]);
                assert(doms[v as int] == self.out_graph.vertices@[v as int]@);
                self.heap.push(Candidate { index: v, key, tie: 0 });
            }
            v = v + 1;
        }
        self.gen_observe = VertexSet::new();
        assert(self.state().dirty =~= Seq::new(n as nat, |j: int| false));
    }

    /// Pop the last task and apply the constraint it carries.
    fn propagate_one(&mut self, rules: &RuleTable)
        requires
            old(self).inv(rules),
            old(self).status == Status::Running,
            old(self).propagations@.len() > 0,
        ensures
            final(self).inv(rules),
            final(self).state() == crate::state::propagate_step(old(self).state(), *rules),
            progress(old(self).state(), final(self).state()),
    {
        let ghost s = self.state();
        let n = self.out_graph.vertices.len();
        let t = match self.propagations.pop() {
            Some(t) => t,
            None => {
                assert(false);
                return ;
            },
        };
        assert(t == s.stack.last());
        assert(self.propagations@ == s.stack.drop_last());
        assert(s.stack[s.stack.len() - 1] == t);
        assert(t.from < n && t.to < n);
        assert(s.doms[t.from as int] == self.out_graph.vertices@[t.from as int]@);
        let c = constraint(&self.out_graph.vertices[t.from], t.direction, rules);
        proof {
            lemma_cons_prefix_len(*rules, s.doms[t.from as int], t.direction as int, s.doms[t.from as int].len() as int);
        }
        let ghost old_dom = s.doms[t.to as int];
        let ghost rest = self.propagations@;
        assert forall|i: int| 0 <= i < rest.len() implies (#[trigger] rest[i]).from < n && rest[i].to < n by {
            assert(rest[i] == s.stack[i]);
        }
        match self.out_graph.constrain(t.to, &c) {
            None => {
                assert(self.out_graph.doms() == s.doms);
                assert forall|v: int| 0 <= v < n implies #[trigger] self.out_graph.vertices@[v]@.len() == rules.labels by {
                    assert(self.out_graph.doms()[v] == s.doms[v]);
                }
                assert(self.out_graph.wf(rules.labels as nat));
                let ghost z = self.state();
                assert(forall|i: int| 0 <= i < z.heap.len() ==> (#[trigger] z.heap[i]).index < n);
                assert(forall|i: int| 0 <= i < z.stack.len() ==> (#[trigger] z.stack[i]).from < n && z.stack[i].to < n);
                assert(forall|v: int| 0 <= v < n && #[trigger] z.observed[v] ==> support_size(z.doms[v]) == 1);
                assert forall|v: int| 0 <= v < n && !#[trigger] z.observed[v] implies exists|i: int|
                    0 <= i < z.heap.len() && (#[trigger] z.heap[i]).index == v by {
                    assert(!s.observed[v]);
                    assert(z.heap == s.heap);
                }
                assert(self.core_inv());
                assert(self.state() == crate::state::propagate_step(s, *rules));
            },
            Some(labels) => {
                let ghost new_dom = labels@;
                assert forall|v: int| 0 <= v < n implies #[trigger] self.out_graph.vertices@[v]@.len() == rules.labels by {
                    assert(self.out_graph.doms()[v] == self.out_graph.vertices@[v]@);
                    assert(s.doms[v] == old(self).out_graph.vertices@[v]@);
                }
                proof {
                    lemma_within_shrinks(new_dom, old_dom);
                    crate::state::lemma_total_update(s.doms, t.to as int, new_dom);
                }
                self.changes = Ghost(self.changes@ + 1);
                let card = labels.cardinality_non_zero();
                if card == 0 {
                    self.status = Status::Failed;
                    assert(self.state() == crate::state::propagate_step(s, *rules));
                    return ;
                }
                if card == 1 {
                    if !self.observed.contains(t.to) {
                        proof {
                            lemma_count_true_update(s.observed, t.to as int);
                            lemma_count_true_full(s.observed.update(t.to as int, true));
                        }
                        self.observed.insert(t.to);
                        self.observed_count = self.observed_count + 1;
                    }
                    assert(self.state().observed =~= s.observed.update(t.to as int, true));
                } else {
                    assert(!s.observed[t.to as int]);
                    let ghost dirty_before = self.state().dirty;
                    self.gen_observe.insert(t.to);
                    assert(self.state().dirty =~= dirty_before.update(t.to as int, true));
                }
                let ghost mid = self.propagations@;
                generate_propagations(&mut self.propagations, &self.observed, &self.out_graph, t.to);
                proof {
                    lemma_tasks_bounds(t.to, self.out_graph.adj()[t.to as int], self.state().observed);
                    let st = self.propagations@;
                    assert forall|i: int| 0 <= i < st.len() implies (#[trigger] st[i]).from < n && st[i].to < n by {
                        if i < mid.len() {
                            assert(st[i] == mid[i]);
                        } else {
                            assert(st[i] == tasks(t.to, self.out_graph.adj()[t.to as int], self.state().observed)[i - mid.len()]);
                        }
                    }
                    assert forall|v: int| 0 <= v < n && #[trigger] self.state().observed[v] implies support_size(self.state().doms[v]) == 1 by {
                        if v != t.to {
                            assert(self.state().doms[v] == s.doms[v]);
                        }
                    }
                    assert forall|v: int| 0 <= v < n && !#[trigger] self.state().observed[v] implies exists|i: int|
                        0 <= i < self.heap@.len() && (#[trigger] self.heap@[i]).index == v by {
                        assert(!s.observed[v]);
                        assert(self.heap@ == s.heap);
                    }
                }
                assert(self.out_graph.wf(rules.labels as nat));
                assert(self.observed_count == count_true(self.state().observed));
                let ghost z = self.state();
                assert(forall|i: int| 0 <= i < z.heap.len() ==> (#[trigger] z.heap[i]).index < n);
                assert(forall|i: int| 0 <= i < z.stack.len() ==> (#[trigger] z.stack[i]).from < n && z.stack[i].to < n);
                assert(forall|v: int| 0 <= v < n && #[trigger] z.observed[v] ==> support_size(z.doms[v]) == 1);
                assert forall|v: int| 0 <= v < n && !#[trigger] z.observed[v] implies exists|i: int|
                    0 <= i < z.heap.len() && (#[trigger] z.heap[i]).index == v by {
                    assert(z.observed[v] == self.state().observed[v]);
                    assert(!s.observed[v]);
                    assert(z.heap == s.heap);
                    let j0 = choose|j0: int| 0 <= j0 < s.heap.len() && (#[trigger] s.heap[j0]).index == v;
                    assert(z.heap[j0].index == v);
                }
                assert(self.core_inv());
                assert(self.state() == crate::state::propagate_step(s, *rules));
            },
        }
    }

    /// Requeue the dirty vertices, take the best candidate and, unless it is
    /// stale, resolve its vertex by the next draw.
    fn choose_one(&mut self, rules: &RuleTable)
        requires
            old(self).inv(rules),
            old(self).status == Status::Running,
            old(self).propagations@.len() == 0,
            old(self).heap@.len() > 0,
        ensures
            final(self).inv(rules),
            final(self).state() == crate::state::choose_step(old(self).state()),
            progress(old(self).state(), final(self).state()),
    {
        let ghost s = self.state();
        let n = self.out_graph.vertices.len();
        self.flush_dirty();
        proof {
            lemma_flush_facts(s.heap, s.dirty, s.doms, n as int);
            assert(s.dirty.subrange(0, n as int) =~= s.dirty);
            lemma_count_none(n as nat);
        }
        let ghost h = self.heap@;
        let i = best_candidate(&self.heap);
        let c = self.heap.remove(i);
        assert(c == h[i as int]);
        assert(c.index < n) by {
            if i < s.heap.len() {
                assert(h[i as int] == s.heap[i as int]);
            }
        }
        assert forall|j: int| 0 <= j < self.heap@.len() implies (#[trigger] self.heap@[j]).index < n by {
            if j < i {
                assert(self.heap@[j] == h[j]);
            } else {
                assert(self.heap@[j] == h[j + 1]);
            }
            if j < s.heap.len() {
                assert(h[j] == s.heap[j]);
            }
            if j + 1 < s.heap.len() {
                assert(h[j + 1] == s.heap[j + 1]);
            }
        }
        assert forall|v: int| 0 <= v < n && !(#[trigger] s.observed[v]) && v != c.index implies exists|j: int|
            0 <= j < self.heap@.len() && (#[trigger] self.heap@[j]).index == v by {
            let j0 = choose|j0: int| 0 <= j0 < s.heap.len() && (#[trigger] s.heap[j0]).index == v;
            assert(h[j0] == s.heap[j0]);
            lemma_remove_keeps(h, i as int, v);
        }
        if self.observed.contains(c.index) {
            let ghost z = self.state();
            assert forall|v: int| 0 <= v < n && !#[trigger] z.observed[v] implies exists|j: int|
                0 <= j < z.heap.len() && (#[trigger] z.heap[j]).index == v by {
                assert(!s.observed[v]);
                assert(v != c.index);
                assert(self.heap@ == z.heap);
            }
            assert(forall|v: int| 0 <= v < n && #[trigger] z.observed[v] ==> support_size(z.doms[v]) == 1);
            assert(self.core_inv());
            assert(self.state() == crate::state::choose_step(s));
            return ;
        }
        assert(s.doms[c.index as int] == self.out_graph.vertices@[c.index as int]@);
        let w = self.out_graph.vertices[c.index].total_weight();
        if w == 0 {
            self.status = Status::Failed;
            assert(self.state() == crate::state::choose_step(s));
            return ;
        }
        let draw = if self.pos < self.draws.len() {
            self.draws[self.pos]
        } else {
            0
        };
        let ghost a = s.doms[c.index as int];
        let label = self.out_graph.collapse_vertex(c.index, draw);
        proof {
            lemma_pick_possible(a, (draw as nat) % weight(a));
            lemma_keep_only_single(a, label as int);
            lemma_within_shrinks(crate::domain::keep_only(a, label as int), a);
            crate::state::lemma_total_update(s.doms, c.index as int, crate::domain::keep_only(a, label as int));
        }
        if self.pos < self.draws.len() {
            self.pos = self.pos + 1;
        }
        proof {
            lemma_count_true_update(self.state().observed, c.index as int);
            lemma_count_true_full(self.state().observed.update(c.index as int, true));
        }
        let ghost obs_before = self.state().observed;
        self.observed.insert(c.index);
        assert(self.state().observed =~= obs_before.update(c.index as int, true));
        self.observed_count = self.observed_count + 1;
        generate_propagations(&mut self.propagations, &self.observed, &self.out_graph, c.index);
        proof {
            lemma_tasks_bounds(c.index, self.out_graph.adj()[c.index as int], self.state().observed);
        }
        assert forall|v: int| 0 <= v < n implies #[trigger] self.out_graph.vertices@[v]@.len() == rules.labels by {
            assert(self.out_graph.doms()[v] == self.out_graph.vertices@[v]@);
            assert(s.doms[v] == old(self).out_graph.vertices@[v]@);
        }
        assert(self.out_graph.wf(rules.labels as nat));
        let ghost z = self.state();
        assert(forall|i: int| 0 <= i < z.heap.len() ==> (#[trigger] z.heap[i]).index < n);
        assert(forall|i: int| 0 <= i < z.stack.len() ==> (#[trigger] z.stack[i]).from < n && z.stack[i].to < n);
        assert forall|v: int| 0 <= v < n && #[trigger] z.observed[v] implies support_size(z.doms[v]) == 1 by {
            if v != c.index {
                assert(z.doms[v] == s.doms[v]);
                assert(s.observed[v]);
            }
        }
        assert forall|v: int| 0 <= v < n && !#[trigger] z.observed[v] implies exists|j: int|
            0 <= j < z.heap.len() && (#[trigger] z.heap[j]).index == v by {
            assert(v != c.index);
            assert(z.observed[v] == s.observed[v]);
            assert(!s.observed[v]);
            assert(self.heap@ == z.heap);
        }
        assert(self.core_inv());
        assert(self.state() == crate::state::choose_step(s));
    }

    /// One step of the run.
    pub fn step(&mut self, rules: &RuleTable)
        requires
            old(self).inv(rules),
            old(self).status == Status::Running,
        ensures
            final(self).inv(rules),
            final(self).state() == step(old(self).state(), *rules),
            progress(old(self).state(), final(self).state()),
    {
        let n = self.out_graph.vertices.len();
        let ghost s = self.state();
        if self.observed_count == n || self.heap.len() == 0 {
            self.status = Status::Succeeded;
            let ghost z = self.state();
            assert forall|v: int| 0 <= v < n && !#[trigger] z.observed[v] implies exists|j: int|
                0 <= j < z.heap.len() && (#[trigger] z.heap[j]).index == v by {
                assert(z.heap == s.heap);
                assert(z.observed == s.observed);
                assert(!s.observed[v]);
                let j0 = choose|j0: int| 0 <= j0 < s.heap.len() && (#[trigger] s.heap[j0]).index == v;
                assert(z.heap[j0].index == v);
            }
            assert forall|v: int| 0 <= v < n && #[trigger] z.observed[v] implies support_size(z.doms[v]) == 1 by {
                assert(s.observed[v]);
            }
            assert(self.core_inv());
            return ;
        }
        if self.propagations.len() > 0 {
            self.propagate_one(rules);
        } else {
            self.choose_one(rules);
        }
    }

    /// A run over `out_graph` that has not taken a step yet. Resolved vertices are
    /// observed; every other vertex gets a candidate whose tie-break is the next
    /// draw; every vertex whose domain differs from `all_labels` gets tasks to its
    /// unobserved neighbours.
    pub fn new(all_labels: &LabelDomain, out_graph: Graph, draws: Vec<u64>) -> (r: Collapse)
        requires
            out_graph.vertices@.len() == out_graph.edges@.len(),
            forall|v: int| 0 <= v < out_graph.vertices@.len() ==> within(#[trigger] out_graph.vertices@[v]@, all_labels@),
        ensures
            r.core_inv(),
            r.out_graph == out_graph,
            r.state() == init_state(all_labels@, out_graph.doms(), out_graph.adj(), draws@),
    {
        let n = out_graph.vertices.len();
        let ghost doms = out_graph.doms();
        let ghost adj = out_graph.adj();
        let mut observed = VertexSet::new();
        let mut count: usize = 0;
        let mut heap: Vec<Candidate> = Vec::new();
        let mut pos: usize = 0;
        let mut v: usize = 0;
        while v < n
            invariant
                n == out_graph.vertices@.len(),
                doms == out_graph.doms(),
                v <= n,
                flags(observed, v as nat) == init_observed(doms).subrange(0, v as int),
                forall|j: int| v <= j < n ==> !#[trigger] members(observed).contains(j as usize),
                count == count_true(flags(observed, v as nat)),
                count <= v,
                heap@ == init_heap(doms, draws@, v as int),
                pos == heap@.len(),
                pos <= v,
                forall|i: int| 0 <= i < heap@.len() ==> (#[trigger] heap@[i]).index < v,
                forall|j: int| 0 <= j < v && !#[trigger] flags(observed, n as nat)[j] ==> exists|i: int|
                    0 <= i < heap@.len() && (#[trigger] heap@[i]).index == j,
            decreases n - v,
        {
            let ghost pre = flags(observed, v as nat);
            let ghost before = observed;
            assert(doms[v as int] == out_graph.vertices@[v as int]@);
            let card = out_graph.vertices[v].cardinality_non_zero();
            if card == 1 {
                observed.insert(v);
                count = count + 1;
                assert(flags(observed, v as nat + 1).drop_last() =~= pre);
                assert forall|j: int| v + 1 <= j < n implies !#[trigger] members(observed).contains(j as usize) by {
                    assert(!members(before).contains(j as usize));
                }
                assert forall|j: int| 0 <= j < v + 1 && !#[trigger] flags(observed, n as nat)[j] implies exists|i: int|
                    0 <= i < heap@.len() && (#[trigger] heap@[i]).index == j by {
                    assert(flags(observed, n as nat)[j] == flags(before, n as nat)[j] || j == v);
                }
            } else {
                assert(flags(observed, v as nat + 1).drop_last() =~= pre);
                let tie = if pos < draws.len() {
                    draws[pos]
                } else {
                    0
                };
                let key = entropy(&out_graph.vertices[v]);
                let ghost h0 = heap@;
                heap.push(Candidate { index: v, key, tie });
                pos = pos + 1;
                assert forall|j: int| 0 <= j < v + 1 && !#[trigger] flags(observed, n as nat)[j] implies exists|i: int|
                    0 <= i < heap@.len() && (#[trigger] heap@[i]).index == j by {
                    if j < v {
                        let i0 = choose|i0: int| 0 <= i0 < h0.len() && (#[trigger] h0[i0]).index == j;
                        assert(heap@[i0] == h0[i0]);
                    } else {
                        assert(heap@[h0.len() as int].index == j);
                    }
                }
            }
            assert(flags(observed, v as nat + 1) =~= init_observed(doms).subrange(0, v as int + 1));
            v = v + 1;
        }
        assert(flags(observed, n as nat) =~= init_observed(doms));
        let ghost hh = heap@;
        let ghost oo = flags(observed, n as nat);
        assert(forall|j: int| 0 <= j < n && !#[trigger] oo[j] ==> exists|i: int|
            0 <= i < hh.len() && (#[trigger] hh[i]).index == j);
        let propagations = initial_stack(all_labels, &out_graph, &observed);
        let gen_observe = VertexSet::new();
        assert(flags(gen_observe, n as nat) =~= Seq::new(n as nat, |j: int| false));
        let r = Collapse {
            heap,
            gen_observe,
            observed,
            observed_count: count,
            propagations,
            draws,
            pos,
            status: Status::Running,
            out_graph,
            changes: Ghost(0),
        };
        assert(r.state().dirty =~= Seq::new(doms.len(), |j: int| false));
        let ghost z = r.state();
        assert(z.doms == doms);
        assert(forall|i: int| 0 <= i < z.heap.len() ==> (#[trigger] z.heap[i]).index < n);
        assert(forall|i: int| 0 <= i < z.stack.len() ==> (#[trigger] z.stack[i]).from < n && z.stack[i].to < n);
        assert forall|v: int| 0 <= v < n && #[trigger] z.observed[v] implies support_size(z.doms[v]) == 1 by {
            assert(z.observed[v] == init_observed(doms)[v]);
        }
        assert forall|v: int| 0 <= v < n && !#[trigger] z.observed[v] implies exists|i: int|
            0 <= i < z.heap.len() && (#[trigger] z.heap[i]).index == v by {
            assert(z.observed == oo);
            assert(z.heap == hh);
            assert(!oo[v]);
            let i0 = choose|i0: int| 0 <= i0 < hh.len() && (#[trigger] hh[i0]).index == v;
            assert(z.heap[i0].index == v);
        }
        assert(r.core_inv());
        r
    }

    /// Apply tasks until none is left or a domain empties, without any random choice.
    pub fn drain(&mut self, rules: &RuleTable)
        requires
            old(self).inv(rules),
        ensures
            final(self).inv(rules),
            exists|k: nat| final(self).state() == #[trigger] settle(old(self).state(), *rules, k),
            final(self).status != Status::Running || final(self).propagations@.len() == 0,
            final(self).out_graph.adj() == old(self).out_graph.adj(),
    {
        let ghost s0 = self.state();
        let ghost mut k: nat = 0;
        while self.status == Status::Running && self.propagations.len() > 0
            invariant
                self.inv(rules),
                self.state() == settle(s0, *rules, k),
                self.out_graph.adj() == s0.adj,
            decreases
                (if self.status == Status::Running { 1int } else { 0int }),
                total(self.state().doms),
                pending(self.state()),
                self.propagations@.len(),
        {
            self.propagate_one(rules);
            proof {
                k = k + 1;
            }
        }
    }

    /// Run to the end. Returns the resolved graph on success and `None` on a
    /// contradiction; the outcome is the finished state that the steps reach.
    pub fn exec(&mut self, rules: &RuleTable) -> (r: Option<Graph>)
        requires
            old(self).inv(rules),
        ensures
            exists|k: nat| outcome(#[trigger] steps(old(self).state(), *rules, k), r),
            r matches Some(g) ==> g.resolved() && g.adj() == old(self).out_graph.adj(),
    {
        let ghost s0 = self.state();
        let ghost mut k: nat = 0;
        while self.status == Status::Running
            invariant
                self.inv(rules),
                self.state() == steps(s0, *rules, k),
                self.out_graph.adj() == s0.adj,
            decreases
                (if self.status == Status::Running { 1int } else { 0int }),
                total(self.state().doms),
                pending(self.state()),
                self.propagations@.len(),
        {
            self.step(rules);
            proof {
                k = k + 1;
            }
        }
        let n = self.out_graph.vertices.len();
        if self.status == Status::Failed {
            assert(outcome(steps(s0, *rules, k), None));
            return None;
        }
        proof {
            lemma_count_true_full(self.state().observed);
            assert forall|v: int| 0 <= v < n implies #[trigger] self.state().observed[v] by {
                if !self.state().observed[v] {
                    let z = self.state();
                    assert(!z.observed[v]);
                    let j = choose|j: int| 0 <= j < z.heap.len() && (#[trigger] z.heap[j]).index == v;
                }
            }
        }
        let ghost z = self.state();
        assert forall|v: int| 0 <= v < n implies support_size(#[trigger] self.out_graph.vertices@[v]@) == 1 by {
            assert(z.observed[v]);
            assert(z.doms[v] == self.out_graph.vertices@[v]@);
        }
        let mut g = Graph::new(Vec::new(), Vec::new());
        std::mem::swap(&mut g, &mut self.out_graph);
        assert(outcome(steps(s0, *rules, k), Some(g)));
        Some(g)
    }

    /// What holds between steps, whatever the rules.
    pub open spec fn core_inv(&self) -> bool {
        let n = self.out_graph.vertices@.len();
        let s = self.state();
        &&& self.observed_count == count_true(s.observed)
        &&& forall|i: int| 0 <= i < s.heap.len() ==> (#[trigger] s.heap[i]).index < n
        &&& forall|i: int|
            0 <= i < s.stack.len() ==> (#[trigger] s.stack[i]).from < n && s.stack[i].to < n
        &&& self.status == Status::Succeeded ==> (self.observed_count == n || self.heap@.len() == 0)
        &&& self.status != Status::Failed ==> forall|v: int|
            0 <= v < n && #[trigger] s.observed[v] ==> support_size(s.doms[v]) == 1
        &&& self.status != Status::Failed ==> forall|v: int|
            0 <= v < n && !#[trigger] s.observed[v] ==> exists|i: int|
                0 <= i < s.heap.len() && (#[trigger] s.heap[i]).index == v
    }

    /// What holds between steps of a run under `rules`.
    pub open spec fn inv(&self, rules: &RuleTable) -> bool {
        &&& rules.wf()
        &&& self.out_graph.wf(rules.labels as nat)
        &&& self.core_inv()
    }
}

} // verus!
