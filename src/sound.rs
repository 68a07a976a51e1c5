//! What a successful run guarantees about neighbouring labels.

use vstd::prelude::*;
use crate::domain::{meet, keep_only, within, support_size, weight, is_single, lemma_within_shrinks,
    lemma_keep_only_single, lemma_support_one, lemma_single_support};
use crate::rules::{RuleTable, cons, cons_prefix, lemma_cons_prefix_len};
use crate::graph::{pick, lemma_pick_possible};
use crate::state::{RunState, Status, Propagate, step, steps, tasks, flush, best, count_true};
use crate::collapse::{init_state, init_observed, init_stack, lemma_tasks_bounds};

verus! {

/// The rules allow label `b` in direction `d` next to label `a`.
pub open spec fn allowed(rules: RuleTable, d: int, a: int, b: int) -> bool {
    rules.rule(d, a) matches Some(x) && 0 <= b < x.len() && x[b] > 0
}

/// Every label still possible in `dom` is allowed in direction `d` next to `a`.
pub open spec fn compat(rules: RuleTable, d: int, a: int, dom: Seq<u32>) -> bool {
    forall|b: int| 0 <= b < dom.len() && dom[b] > 0 ==> #[trigger] allowed(rules, d, a, b)
}

/// The label a resolved domain is resolved to.
pub open spec fn label_of(dom: Seq<u32>) -> int {
    choose|l: int| is_single(dom, l)
}

/// A task from `u` to `v` in direction `d` waits on `stack`.
pub open spec fn pending(stack: Seq<Propagate>, u: int, v: int, d: int) -> bool {
    exists|i: int|
        0 <= i < stack.len() && #[trigger] stack[i] == (Propagate {
            from: u as usize,
            to: v as usize,
            direction: d as usize,
        })
}

/// The edge `k` out of `u`, if `u` is observed, is settled: its check waits on
/// the stack, or every label still possible at the neighbour is allowed next to
/// `u`'s label, or the neighbour is observed and its own check towards `u` waits.
pub open spec fn arc_ok(s: RunState, rules: RuleTable, rev: spec_fn(int) -> int, u: int, k: int) -> bool {
    let v = s.adj[u][k].0 as int;
    let d = s.adj[u][k].1 as int;
    s.observed[u] ==> {
        ||| pending(s.stack, u, v, d)
        ||| compat(rules, d, label_of(s.doms[u]), s.doms[v])
        ||| s.observed[v] && pending(s.stack, v, u, rev(d))
    }
}

/// Every edge of a run that has not failed is settled.
pub open spec fn arcs_ok(s: RunState, rules: RuleTable, rev: spec_fn(int) -> int) -> bool {
    s.status != Status::Failed ==> forall|u: int, k: int|
        0 <= u < s.doms.len() && 0 <= k < s.adj[u].len() ==> #[trigger] arc_ok(s, rules, rev, u, k)
}

/// Allowing `b` next to `a` in direction `d` is the same as allowing `a` next to
/// `b` in the reverse direction.
pub open spec fn rules_symmetric(rules: RuleTable, rev: spec_fn(int) -> int) -> bool {
    &&& forall|d: int| #[trigger] rev(rev(d)) == d
    &&& forall|d: int| 0 <= d <= usize::MAX ==> 0 <= #[trigger] rev(d) <= usize::MAX
    &&& forall|d: int, a: int, b: int| #[trigger] allowed(rules, d, a, b) == allowed(rules, rev(d), b, a)
}

/// Each edge has its reverse edge, and no edge leads back to its own vertex.
pub open spec fn graph_symmetric(adj: Seq<Seq<(usize, usize)>>, rev: spec_fn(int) -> int) -> bool {
    forall|u: int, k: int|
        0 <= u < adj.len() && 0 <= k < adj[u].len() ==> {
            &&& (#[trigger] adj[u][k]).0 != u
            &&& exists|k2: int|
                0 <= k2 < adj[adj[u][k].0 as int].len() && #[trigger] adj[adj[u][k].0 as int][k2] == (
                    u as usize,
                    rev(adj[u][k].1 as int) as usize,
                )
        }
}

/// The shape a run keeps: matching lengths, edges and tasks inside the graph,
/// and observed vertices resolved.
pub open spec fn run_wf(s: RunState, labels: nat) -> bool {
    let n = s.doms.len();
    &&& n <= usize::MAX
    &&& s.adj.len() == n
    &&& s.observed.len() == n
    &&& s.dirty.len() == n
    &&& forall|v: int| 0 <= v < n ==> (#[trigger] s.doms[v]).len() == labels
    &&& forall|u: int, k: int| 0 <= u < n && 0 <= k < s.adj[u].len() ==> (#[trigger] s.adj[u][k]).0 < n
    &&& forall|i: int| 0 <= i < s.stack.len() ==> (#[trigger] s.stack[i]).from < n && s.stack[i].to < n
    &&& s.status != Status::Failed ==> forall|v: int|
        0 <= v < n && #[trigger] s.observed[v] ==> support_size(s.doms[v]) == 1
}

/// A constraint allows `b` exactly when some possible label of the source has a
/// rule that allows it.
pub proof fn lemma_cons_positive(rules: RuleTable, a: Seq<u32>, d: int, k: int, b: int)
    requires
        rules.wf(),
        0 <= b < rules.labels,
        0 <= k <= a.len(),
    ensures
        (cons_prefix(rules, a, d, k)[b] > 0) == (exists|l: int| 0 <= l < k && a[l] > 0 && #[trigger] allowed(rules, d, l, b)),
    decreases k,
{
    lemma_cons_prefix_len(rules, a, d, k);
    if k > 0 {
        lemma_cons_positive(rules, a, d, k - 1, b);
        lemma_cons_prefix_len(rules, a, d, k - 1);
        if exists|l: int| 0 <= l < k && a[l] > 0 && #[trigger] allowed(rules, d, l, b) {
            let l = choose|l: int| 0 <= l < k && a[l] > 0 && #[trigger] allowed(rules, d, l, b);
            if l < k - 1 {
                assert(exists|l2: int| 0 <= l2 < k - 1 && a[l2] > 0 && #[trigger] allowed(rules, d, l2, b));
            }
        }
        if exists|l: int| 0 <= l < k - 1 && a[l] > 0 && #[trigger] allowed(rules, d, l, b) {
            let l = choose|l: int| 0 <= l < k - 1 && a[l] > 0 && #[trigger] allowed(rules, d, l, b);
            assert(0 <= l < k);
        }
        if a[k - 1] > 0 && allowed(rules, d, k - 1, b) {
            assert(0 <= k - 1 < k);
        }
    }
}

/// The constraint of a resolved source allows exactly what its label's rule allows.
pub proof fn lemma_cons_single(rules: RuleTable, a: Seq<u32>, d: int, l: int, b: int)
    requires
        rules.wf(),
        0 <= b < rules.labels,
        is_single(a, l),
    ensures
        (cons(rules, a, d)[b] > 0) == allowed(rules, d, l, b),
{
    lemma_cons_positive(rules, a, d, a.len() as int, b);
    if exists|l2: int| 0 <= l2 < a.len() && a[l2] > 0 && #[trigger] allowed(rules, d, l2, b) {
        let l2 = choose|l2: int| 0 <= l2 < a.len() && a[l2] > 0 && #[trigger] allowed(rules, d, l2, b);
        assert(l2 == l);
    }
}

/// Each unobserved neighbour gets a task.
pub proof fn lemma_tasks_member(from: usize, edges: Seq<(usize, usize)>, observed: Seq<bool>, k: int)
    requires
        0 <= k < edges.len(),
        edges[k].0 < observed.len(),
        !observed[edges[k].0 as int],
    ensures
        (exists|i: int|
            0 <= i < tasks(from, edges, observed).len() && #[trigger] tasks(from, edges, observed)[i]
                == (Propagate { from, to: edges[k].0, direction: edges[k].1 })),
    decreases edges.len(),
{
    let prev = tasks(from, edges.drop_last(), observed);
    let t = tasks(from, edges, observed);
    if k == edges.len() - 1 {
        assert(t[prev.len() as int] == Propagate { from, to: edges[k].0, direction: edges[k].1 });
    } else {
        assert(edges.drop_last()[k] == edges[k]);
        lemma_tasks_member(from, edges.drop_last(), observed, k);
        let i = choose|i: int|
            0 <= i < prev.len() && #[trigger] prev[i] == Propagate { from, to: edges[k].0, direction: edges[k].1 };
        assert(t[i] == prev[i]);
    }
}

/// A resolved domain that shrinks without emptying keeps its label.
pub proof fn lemma_single_shrinks(new: Seq<u32>, old: Seq<u32>, l: int)
    requires
        within(new, old),
        is_single(old, l),
        support_size(new) != 0,
    ensures
        is_single(new, l),
{
    if new[l] == 0 {
        assert forall|i: int| 0 <= i < new.len() implies new[i] == 0 by {
            if i != l {
                assert(old[i] == 0);
            }
        }
        crate::domain::lemma_weight_zero(new);
    }
}

/// One step keeps the shape of a run.
pub proof fn lemma_step_wf(s: RunState, rules: RuleTable)
    requires
        rules.wf(),
        run_wf(s, rules.labels as nat),
    ensures
        run_wf(step(s, rules), rules.labels as nat),
{
    let t = step(s, rules);
    let n = s.doms.len();
    if s.status == Status::Running && !(count_true(s.observed) == n || s.heap.len() == 0) {
        if s.stack.len() > 0 {
            let p = s.stack.last();
            assert(s.stack[s.stack.len() - 1] == p);
            let rest = s.stack.drop_last();
            assert forall|i: int| 0 <= i < rest.len() implies (#[trigger] rest[i]).from < n && rest[i].to < n by {
                assert(rest[i] == s.stack[i]);
            }
            let old_dom = s.doms[p.to as int];
            let new_dom = meet(old_dom, cons(rules, s.doms[p.from as int], p.direction as int));
            if new_dom != old_dom && support_size(new_dom) != 0 {
                lemma_within_shrinks(new_dom, old_dom);
                let single = support_size(new_dom) == 1;
                let observed = if single { s.observed.update(p.to as int, true) } else { s.observed };
                lemma_tasks_bounds(p.to, s.adj[p.to as int], observed);
                let tk = tasks(p.to, s.adj[p.to as int], observed);
                assert forall|i: int| 0 <= i < t.stack.len() implies (#[trigger] t.stack[i]).from < n && t.stack[i].to < n by {
                    if i < rest.len() {
                        assert(t.stack[i] == rest[i]);
                    } else {
                        assert(t.stack[i] == tk[i - rest.len()]);
                    }
                }
                assert forall|v: int| 0 <= v < n && #[trigger] t.observed[v] implies support_size(t.doms[v]) == 1 by {
                    if v != p.to {
                        assert(t.doms[v] == s.doms[v]);
                    }
                }
                assert forall|v: int| 0 <= v < n implies (#[trigger] t.doms[v]).len() == rules.labels by {
                    if v != p.to {
                        assert(t.doms[v] == s.doms[v]);
                    }
                }
            } else if new_dom != old_dom {
                assert forall|v: int| 0 <= v < n implies (#[trigger] t.doms[v]).len() == rules.labels by {
                    if v != p.to {
                        assert(t.doms[v] == s.doms[v]);
                    }
                }
            }
        } else {
            let h = flush(s.heap, s.dirty, s.doms, n as int);
            let c = h[best(h)];
            if c.index < n && !s.observed[c.index as int] && weight(s.doms[c.index as int]) != 0 {
                let a = s.doms[c.index as int];
                let label = pick(a, (crate::state::draw_at(s.draws, s.pos) as nat) % weight(a));
                lemma_pick_possible(a, (crate::state::draw_at(s.draws, s.pos) as nat) % weight(a));
                lemma_keep_only_single(a, label as int);
                let observed = s.observed.update(c.index as int, true);
                lemma_tasks_bounds(c.index, s.adj[c.index as int], observed);
                let tk = tasks(c.index, s.adj[c.index as int], observed);
                assert forall|i: int| 0 <= i < t.stack.len() implies (#[trigger] t.stack[i]).from < n && t.stack[i].to < n by {
                    if i < s.stack.len() {
                        assert(t.stack[i] == s.stack[i]);
                    } else {
                        assert(t.stack[i] == tk[i - s.stack.len()]);
                    }
                }
                assert forall|v: int| 0 <= v < n && #[trigger] t.observed[v] implies support_size(t.doms[v]) == 1 by {
                    if v != c.index {
                        assert(t.doms[v] == s.doms[v]);
                    }
                }
                assert forall|v: int| 0 <= v < n implies (#[trigger] t.doms[v]).len() == rules.labels by {
                    if v != c.index {
                        assert(t.doms[v] == s.doms[v]);
                    }
                }
            }
        }
    }
}

proof fn lemma_pending_pop(old: Seq<Propagate>, new: Seq<Propagate>, u: int, v: int, d: int)
    requires
        old.len() > 0,
        new.len() >= old.len() - 1,
        forall|i: int| 0 <= i < old.len() - 1 ==> new[i] == old[i],
        pending(old, u, v, d),
    ensures
        pending(new, u, v, d) || old.last() == (Propagate { from: u as usize, to: v as usize, direction: d as usize }),
{
    let i = choose|i: int|
        0 <= i < old.len() && #[trigger] old[i] == (Propagate { from: u as usize, to: v as usize, direction: d as usize });
    if i < old.len() - 1 {
        assert(new[i] == old[i]);
    }
}

proof fn lemma_label(dom: Seq<u32>)
    requires
        support_size(dom) == 1,
    ensures
        is_single(dom, label_of(dom)),
        forall|l: int| is_single(dom, l) ==> l == label_of(dom),
{
    lemma_support_one(dom);
}

/// What a propagation step that pops `p` and does not fail leaves behind.
pub open spec fn popped(s: RunState, t: RunState, rules: RuleTable, p: Propagate, new_dom: Seq<u32>) -> bool {
    let n = s.doms.len();
    let tt = p.to as int;
    let old_dom = s.doms[tt];
    let changed = new_dom != old_dom;
    &&& s.stack.len() > 0
    &&& p == s.stack.last()
    &&& p.from < n && p.to < n
    &&& new_dom == meet(old_dom, cons(rules, s.doms[p.from as int], p.direction as int))
    &&& changed ==> support_size(new_dom) != 0
    &&& t.adj == s.adj
    &&& t.doms.len() == n
    &&& t.doms[tt] == new_dom
    &&& forall|v: int| 0 <= v < n && v != tt ==> t.doms[v] == s.doms[v]
    &&& t.observed.len() == n
    &&& forall|v: int|
        0 <= v < n ==> #[trigger] t.observed[v] == (s.observed[v] || (v == tt && changed && support_size(new_dom) == 1))
    &&& t.stack.len() >= s.stack.len() - 1
    &&& forall|i: int| 0 <= i < s.stack.len() - 1 ==> t.stack[i] == s.stack[i]
    &&& changed ==> t.stack == s.stack.drop_last() + tasks(p.to, s.adj[tt], t.observed)
}

/// The standing assumptions of the soundness argument on a state.
pub open spec fn sound_setting(s: RunState, rules: RuleTable, rev: spec_fn(int) -> int) -> bool {
    &&& rules.wf()
    &&& run_wf(s, rules.labels as nat)
    &&& rules_symmetric(rules, rev)
    &&& graph_symmetric(s.adj, rev)
    &&& s.status != Status::Failed
    &&& forall|u: int, k: int|
        0 <= u < s.doms.len() && 0 <= k < s.adj[u].len() ==> #[trigger] arc_ok(s, rules, rev, u, k)
}

proof fn lemma_arc_pop_other(s: RunState, t: RunState, rules: RuleTable, rev: spec_fn(int) -> int, p: Propagate, new_dom: Seq<u32>, u: int, k: int)
    requires
        sound_setting(s, rules, rev),
        popped(s, t, rules, p, new_dom),
        0 <= u < s.doms.len(),
        0 <= k < s.adj[u].len(),
        u != p.to,
        t.observed[u],
    ensures
        arc_ok(t, rules, rev, u, k),
{
    let tt = p.to as int;
    let v = s.adj[u][k].0 as int;
    let d = s.adj[u][k].1 as int;
    assert(arc_ok(s, rules, rev, u, k));
    assert(s.observed[u]);
    lemma_label(s.doms[u]);
    let lu = label_of(s.doms[u]);
    assert(t.doms[u] == s.doms[u]);
    lemma_cons_prefix_len(rules, s.doms[p.from as int], p.direction as int, s.doms[p.from as int].len() as int);
    assert(t.adj[u][k] == s.adj[u][k]);
    if pending(s.stack, u, v, d) {
        lemma_pending_pop(s.stack, t.stack, u, v, d);
        if !pending(t.stack, u, v, d) {
            assert(p.from as int == u && p.to as int == v && p.direction as int == d);
            assert(t.doms[v] == new_dom);
            let c = cons(rules, s.doms[u], d);
            assert forall|b: int| 0 <= b < t.doms[v].len() && t.doms[v][b] > 0 implies #[trigger] allowed(rules, d, lu, b) by {
                assert(new_dom[b] > 0);
                assert(c[b] > 0);
                lemma_cons_single(rules, s.doms[u], d, lu, b);
            }
            assert(compat(rules, d, label_of(t.doms[u]), t.doms[v]));
        }
    } else if compat(rules, d, lu, s.doms[v]) {
        if v == tt {
            assert forall|b: int| 0 <= b < t.doms[v].len() && t.doms[v][b] > 0 implies #[trigger] allowed(rules, d, lu, b) by {
                assert(s.doms[v][b] > 0);
            }
        }
        assert(compat(rules, d, label_of(t.doms[u]), t.doms[v]));
    } else {
        assert(s.observed[v] && pending(s.stack, v, u, rev(d)));
        lemma_pending_pop(s.stack, t.stack, v, u, rev(d));
        if !pending(t.stack, v, u, rev(d)) {
            assert(p.to as int == u);
        }
        assert(t.observed[v]);
    }
}

proof fn lemma_arc_pop_target(s: RunState, t: RunState, rules: RuleTable, rev: spec_fn(int) -> int, p: Propagate, new_dom: Seq<u32>, k: int)
    requires
        sound_setting(s, rules, rev),
        popped(s, t, rules, p, new_dom),
        0 <= k < s.adj[p.to as int].len(),
        t.observed[p.to as int],
    ensures
        arc_ok(t, rules, rev, p.to as int, k),
{
    let tt = p.to as int;
    let v = s.adj[tt][k].0 as int;
    let d = s.adj[tt][k].1 as int;
    let old_dom = s.doms[tt];
    assert(v != tt);
    assert(t.doms[v] == s.doms[v]);
    lemma_cons_prefix_len(rules, s.doms[p.from as int], p.direction as int, s.doms[p.from as int].len() as int);
    lemma_within_shrinks(new_dom, old_dom);
    if s.observed[tt] {
        assert(arc_ok(s, rules, rev, tt, k));
        lemma_label(old_dom);
        let l = label_of(old_dom);
        assert(support_size(new_dom) != 0) by {
            if new_dom == old_dom {
                lemma_single_support(old_dom, l);
            }
        }
        lemma_single_shrinks(new_dom, old_dom, l);
        lemma_single_support(new_dom, l);
        lemma_label(new_dom);
        assert(label_of(t.doms[tt]) == l);
        if pending(s.stack, tt, v, d) {
            lemma_pending_pop(s.stack, t.stack, tt, v, d);
        } else if compat(rules, d, l, s.doms[v]) {
        } else {
            lemma_pending_pop(s.stack, t.stack, v, tt, rev(d));
            if !pending(t.stack, v, tt, rev(d)) {
                lemma_label(s.doms[v]);
                let lv = label_of(s.doms[v]);
                assert(p.from as int == v && p.direction as int == rev(d));
                assert(new_dom[l] > 0);
                lemma_cons_single(rules, s.doms[v], rev(d), lv, l);
                assert(allowed(rules, rev(d), lv, l));
                assert(allowed(rules, rev(rev(d)), l, lv));
                assert forall|b: int| 0 <= b < t.doms[v].len() && t.doms[v][b] > 0 implies #[trigger] allowed(rules, d, l, b) by {
                    assert(b == lv);
                }
            }
        }
    } else {
        assert(support_size(new_dom) == 1);
        lemma_label(new_dom);
        let l = label_of(new_dom);
        assert(old_dom[l] > 0);
        if !t.observed[v] {
            lemma_tasks_member(p.to, s.adj[tt], t.observed, k);
            let tk = tasks(p.to, s.adj[tt], t.observed);
            let i = choose|i: int|
                0 <= i < tk.len() && #[trigger] tk[i] == (Propagate { from: p.to, to: s.adj[tt][k].0, direction: s.adj[tt][k].1 });
            let rest = s.stack.drop_last();
            assert(t.stack[rest.len() + i] == tk[i]);
        } else {
            assert(s.observed[v]);
            let k2 = choose|k2: int|
                0 <= k2 < s.adj[v].len() && #[trigger] s.adj[v][k2] == (tt as usize, rev(d) as usize);
            assert(arc_ok(s, rules, rev, v, k2));
            lemma_label(s.doms[v]);
            let lv = label_of(s.doms[v]);
            if pending(s.stack, v, tt, rev(d)) {
                lemma_pending_pop(s.stack, t.stack, v, tt, rev(d));
                if !pending(t.stack, v, tt, rev(d)) {
                    assert(p.from as int == v && p.direction as int == rev(d));
                    assert(new_dom[l] > 0);
                    lemma_cons_single(rules, s.doms[v], rev(d), lv, l);
                    assert(allowed(rules, rev(d), lv, l));
                    assert(allowed(rules, rev(rev(d)), l, lv));
                    assert forall|b: int| 0 <= b < t.doms[v].len() && t.doms[v][b] > 0 implies #[trigger] allowed(rules, d, l, b) by {
                        assert(b == lv);
                    }
                }
            } else {
                assert(s.adj[v][k2].1 as int == rev(d));
                assert(!s.observed[tt]);
                assert(compat(rules, rev(d), lv, s.doms[tt]));
                assert(allowed(rules, rev(d), lv, l));
                assert(allowed(rules, rev(rev(d)), l, lv));
                assert forall|b: int| 0 <= b < t.doms[v].len() && t.doms[v][b] > 0 implies #[trigger] allowed(rules, d, l, b) by {
                    assert(b == lv);
                }
            }
        }
    }
}

/// A propagation step keeps every edge settled.
proof fn lemma_arcs_propagate(s: RunState, rules: RuleTable, rev: spec_fn(int) -> int)
    requires
        sound_setting(s, rules, rev),
        s.stack.len() > 0,
    ensures
        arcs_ok(crate::state::propagate_step(s, rules), rules, rev),
{
    let t = crate::state::propagate_step(s, rules);
    let n = s.doms.len();
    let p = s.stack.last();
    assert(s.stack[s.stack.len() - 1] == p);
    let tt = p.to as int;
    let old_dom = s.doms[tt];
    let new_dom = meet(old_dom, cons(rules, s.doms[p.from as int], p.direction as int));
    if t.status == Status::Failed {
        return;
    }
    if new_dom == old_dom {
        assert(t.doms =~= s.doms);
        assert(forall|v: int| 0 <= v < n ==> #[trigger] t.observed[v] == s.observed[v]);
    }
    assert(popped(s, t, rules, p, new_dom));
    assert forall|u: int, k: int| 0 <= u < t.doms.len() && 0 <= k < t.adj[u].len() implies #[trigger] arc_ok(t, rules, rev, u, k) by {
        if t.observed[u] {
            if u == tt {
                lemma_arc_pop_target(s, t, rules, rev, p, new_dom, k);
            } else {
                lemma_arc_pop_other(s, t, rules, rev, p, new_dom, u, k);
            }
        }
    }
}

/// A choice step keeps every edge settled.
proof fn lemma_arcs_choose(s: RunState, rules: RuleTable, rev: spec_fn(int) -> int)
    requires
        sound_setting(s, rules, rev),
        s.stack.len() == 0,
    ensures
        arcs_ok(crate::state::choose_step(s), rules, rev),
{
    let t = crate::state::choose_step(s);
    let n = s.doms.len();
    let h = flush(s.heap, s.dirty, s.doms, n as int);
    let c = h[best(h)];
    if t.status == Status::Failed {
        return;
    }
    if c.index >= n || s.observed[c.index as int] {
        assert forall|u: int, k: int| 0 <= u < t.doms.len() && 0 <= k < t.adj[u].len() implies #[trigger] arc_ok(t, rules, rev, u, k) by {
            assert(arc_ok(s, rules, rev, u, k));
        }
        return;
    }
    let ci = c.index as int;
    let a = s.doms[ci];
    let l = pick(a, (crate::state::draw_at(s.draws, s.pos) as nat) % weight(a)) as int;
    lemma_pick_possible(a, (crate::state::draw_at(s.draws, s.pos) as nat) % weight(a));
    lemma_keep_only_single(a, l);
    lemma_label(keep_only(a, l));
    lemma_within_shrinks(keep_only(a, l), a);
    assert(t.doms[ci] == keep_only(a, l));
    assert(t.stack == tasks(c.index, s.adj[ci], t.observed));
    assert forall|u: int, k: int| 0 <= u < t.doms.len() && 0 <= k < t.adj[u].len() implies #[trigger] arc_ok(t, rules, rev, u, k) by {
        let v = s.adj[u][k].0 as int;
        let d = s.adj[u][k].1 as int;
        if t.observed[u] {
            if u != ci {
                assert(arc_ok(s, rules, rev, u, k));
                assert(s.observed[u]);
                assert(t.doms[u] == s.doms[u]);
                let lu = label_of(s.doms[u]);
                assert(!pending(s.stack, u, v, d));
                assert(!pending(s.stack, v, u, rev(d)));
                assert(compat(rules, d, lu, s.doms[v]));
                if v == ci {
                    assert forall|b: int| 0 <= b < t.doms[v].len() && t.doms[v][b] > 0 implies #[trigger] allowed(rules, d, lu, b) by {
                        assert(a[b] > 0);
                    }
                } else {
                    assert(t.doms[v] == s.doms[v]);
                }
            } else {
                assert(v != ci);
                assert(t.doms[v] == s.doms[v]);
                assert(label_of(t.doms[ci]) == l);
                if !t.observed[v] {
                    lemma_tasks_member(c.index, s.adj[ci], t.observed, k);
                } else {
                    assert(s.observed[v]);
                    let k2 = choose|k2: int|
                        0 <= k2 < s.adj[v].len() && #[trigger] s.adj[v][k2] == (ci as usize, rev(d) as usize);
                    assert(arc_ok(s, rules, rev, v, k2));
                    assert(s.adj[v][k2].1 as int == rev(d));
                    lemma_label(s.doms[v]);
                    let lv = label_of(s.doms[v]);
                    assert(!pending(s.stack, v, ci, rev(d)));
                    assert(!s.observed[ci]);
                    assert(compat(rules, rev(d), lv, a));
                    assert(allowed(rules, rev(d), lv, l));
                    assert(allowed(rules, rev(rev(d)), l, lv));
                    assert forall|b: int| 0 <= b < t.doms[v].len() && t.doms[v][b] > 0 implies #[trigger] allowed(rules, d, l, b) by {
                        assert(b == lv);
                    }
                }
            }
        }
    }
}

/// One step keeps every edge settled.
pub proof fn lemma_step_arcs(s: RunState, rules: RuleTable, rev: spec_fn(int) -> int)
    requires
        rules.wf(),
        run_wf(s, rules.labels as nat),
        rules_symmetric(rules, rev),
        graph_symmetric(s.adj, rev),
        arcs_ok(s, rules, rev),
    ensures
        arcs_ok(step(s, rules), rules, rev),
        run_wf(step(s, rules), rules.labels as nat),
        step(s, rules).adj == s.adj,
{
    lemma_step_wf(s, rules);
    let t = step(s, rules);
    if s.status == Status::Running {
        if count_true(s.observed) == s.doms.len() || s.heap.len() == 0 {
            assert forall|u: int, k: int| 0 <= u < t.doms.len() && 0 <= k < t.adj[u].len() implies #[trigger] arc_ok(t, rules, rev, u, k) by {
                assert(arc_ok(s, rules, rev, u, k));
            }
        } else if s.stack.len() > 0 {
            lemma_arcs_propagate(s, rules, rev);
        } else {
            lemma_arcs_choose(s, rules, rev);
        }
    }
}

proof fn lemma_run_arcs(s: RunState, rules: RuleTable, rev: spec_fn(int) -> int, k: nat)
    requires
        rules.wf(),
        run_wf(s, rules.labels as nat),
        rules_symmetric(rules, rev),
        graph_symmetric(s.adj, rev),
        arcs_ok(s, rules, rev),
    ensures
        arcs_ok(steps(s, rules, k), rules, rev),
        run_wf(steps(s, rules, k), rules.labels as nat),
        steps(s, rules, k).adj == s.adj,
    decreases k,
{
    if k > 0 {
        lemma_run_arcs(s, rules, rev, (k - 1) as nat);
        lemma_step_arcs(steps(s, rules, (k - 1) as nat), rules, rev);
    }
}

proof fn lemma_init_stack_bounds(all: Seq<u32>, doms: Seq<Seq<u32>>, adj: Seq<Seq<(usize, usize)>>, k: int)
    requires
        0 <= k <= doms.len(),
        doms.len() <= usize::MAX,
    ensures
        forall|i: int|
            0 <= i < init_stack(all, doms, adj, k).len() ==> (#[trigger] init_stack(all, doms, adj, k)[i]).from < doms.len()
                && init_stack(all, doms, adj, k)[i].to < doms.len(),
    decreases k,
{
    if k > 0 {
        lemma_init_stack_bounds(all, doms, adj, k - 1);
        let prev = init_stack(all, doms, adj, k - 1);
        let cur = init_stack(all, doms, adj, k);
        let tk = tasks((k - 1) as usize, adj[k - 1], init_observed(doms));
        lemma_tasks_bounds((k - 1) as usize, adj[k - 1], init_observed(doms));
        assert forall|i: int| 0 <= i < cur.len() implies (#[trigger] cur[i]).from < doms.len() && cur[i].to < doms.len() by {
            if i < prev.len() {
                assert(cur[i] == prev[i]);
            } else {
                assert(cur[i] == tk[i - prev.len()]);
            }
        }
    }
}

/// Soundness of a finished run, for runs that start with no vertex resolved,
/// under rules that allow a pair exactly when they allow it the other way round,
/// on a graph whose edges come in reverse pairs: if the run succeeds with no task
/// left on the stack, the rules allow the labels of every pair of neighbouring
/// observed vertices. (A run may also succeed with tasks left on the stack; then
/// pairs whose check is still waiting are not covered.)
pub proof fn lemma_success_sound(
    all: Seq<u32>,
    doms: Seq<Seq<u32>>,
    adj: Seq<Seq<(usize, usize)>>,
    draws: Seq<u64>,
    rules: RuleTable,
    rev: spec_fn(int) -> int,
    k: nat,
)
    requires
        rules.wf(),
        doms.len() <= usize::MAX,
        adj.len() == doms.len(),
        forall|v: int| 0 <= v < doms.len() ==> (#[trigger] doms[v]).len() == rules.labels,
        forall|u: int, e: int| 0 <= u < adj.len() && 0 <= e < adj[u].len() ==> (#[trigger] adj[u][e]).0 < doms.len(),
        forall|v: int| 0 <= v < doms.len() ==> support_size(#[trigger] doms[v]) != 1,
        rules_symmetric(rules, rev),
        graph_symmetric(adj, rev),
        steps(init_state(all, doms, adj, draws), rules, k).status == Status::Succeeded,
        steps(init_state(all, doms, adj, draws), rules, k).stack.len() == 0,
    ensures
        ({
            let t = steps(init_state(all, doms, adj, draws), rules, k);
            forall|u: int, e: int|
                0 <= u < doms.len() && 0 <= e < adj[u].len() && t.observed[u] && t.observed[adj[u][e].0 as int]
                    ==> allowed(rules, adj[u][e].1 as int, label_of(t.doms[u]), #[trigger] label_of(t.doms[adj[u][e].0 as int]))
        }),
{
    let s0 = init_state(all, doms, adj, draws);
    let n = doms.len();
    lemma_init_stack_bounds(all, doms, adj, n as int);
    assert(forall|v: int| 0 <= v < n ==> !#[trigger] s0.observed[v]);
    assert(run_wf(s0, rules.labels as nat));
    assert(arcs_ok(s0, rules, rev));
    lemma_run_arcs(s0, rules, rev, k);
    let t = steps(s0, rules, k);
    assert forall|u: int, e: int|
        0 <= u < doms.len() && 0 <= e < adj[u].len() && t.observed[u] && t.observed[adj[u][e].0 as int]
            implies allowed(rules, adj[u][e].1 as int, label_of(t.doms[u]), #[trigger] label_of(t.doms[adj[u][e].0 as int])) by {
        let v = adj[u][e].0 as int;
        let d = adj[u][e].1 as int;
        assert(arc_ok(t, rules, rev, u, e));
        assert(!pending(t.stack, u, v, d));
        assert(!pending(t.stack, v, u, rev(d)));
        lemma_label(t.doms[v]);
        assert(t.doms[v][label_of(t.doms[v])] > 0);
    }
}

} // verus!
