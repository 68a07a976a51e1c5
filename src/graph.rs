//! Graphs of label domains: one domain per vertex and a fixed adjacency list of
//! (neighbour, direction) pairs per vertex.

use vstd::prelude::*;
use crate::rules::RuleTable;
use crate::domain::{LabelDomain, weight, support_size, is_single, meet, keep_only};

verus! {

/// Index of the first label at which the running weight of `a` exceeds `t`.
pub open spec fn pick(a: Seq<u32>, t: nat) -> nat
    decreases a.len(),
{
    if a.len() == 0 {
        0
    } else if t < a[0] {
        0
    } else {
        1 + pick(a.subrange(1, a.len() as int), (t - a[0]) as nat)
    }
}

proof fn lemma_weight_front(a: Seq<u32>)
    requires
        a.len() > 0,
    ensures
        weight(a) == a[0] + weight(a.subrange(1, a.len() as int)),
    decreases a.len(),
{
    if a.len() > 1 {
        lemma_weight_front(a.drop_last());
        let sub = a.subrange(1, a.len() as int);
        assert(a.drop_last().subrange(1, a.len() - 1) =~= sub.drop_last());
        assert(sub.last() == a.last());
        assert(a.drop_last()[0] == a[0]);
        assert(weight(sub) == weight(sub.drop_last()) + sub.last());
        assert(weight(a) == weight(a.drop_last()) + a.last());
    } else {
        assert(a.drop_last().len() == 0);
        assert(weight(a.drop_last()) == 0);
        assert(a.subrange(1, a.len() as int).len() == 0);
        assert(weight(a.subrange(1, a.len() as int)) == 0);
        assert(weight(a) == weight(a.drop_last()) + a.last());
    }
}

/// A draw below the total weight picks a label that is still possible.
pub proof fn lemma_pick_possible(a: Seq<u32>, t: nat)
    requires
        t < weight(a),
    ensures
        pick(a, t) < a.len(),
        a[pick(a, t) as int] > 0,
    decreases a.len(),
{
    if a.len() == 0 {
    } else {
        lemma_weight_front(a);
        if t >= a[0] {
            let rest = a.subrange(1, a.len() as int);
            lemma_pick_possible(rest, (t - a[0]) as nat);
            assert(a[pick(a, t) as int] == rest[pick(rest, (t - a[0]) as nat) as int]);
        }
    }
}

/// Number of vertices whose domain gives label `l` a nonzero count.
pub open spec fn freq(doms: Seq<Seq<u32>>, l: int) -> nat
    decreases doms.len(),
{
    if doms.len() == 0 {
        0
    } else {
        freq(doms.drop_last(), l) + if doms.last()[l] > 0 { 1nat } else { 0nat }
    }
}

/// No label is counted more often than there are vertices.
pub proof fn lemma_freq_bound(doms: Seq<Seq<u32>>, l: int)
    ensures
        freq(doms, l) <= doms.len(),
    decreases doms.len(),
{
    if doms.len() > 0 {
        lemma_freq_bound(doms.drop_last(), l);
    }
}

/// `(u, k)` comes before `(u0, k0)` in the order in which edges are visited.
pub open spec fn before(u: int, k: int, u0: int, k0: int) -> bool {
    u < u0 || (u == u0 && k < k0)
}

/// Some edge before `(u0, k0)` goes in direction `d` from a vertex resolved to `l`.
pub open spec fn seen_from(
    doms: Seq<Seq<u32>>,
    adj: Seq<Seq<(usize, usize)>>,
    d: int,
    l: int,
    u0: int,
    k0: int,
) -> bool {
    exists|u: int, k: int|
        #![trigger adj[u][k], doms[u]]
        before(u, k, u0, k0) && 0 <= u < adj.len() && 0 <= k < adj[u].len() && adj[u][k].1
            == d && is_single(doms[u], l)
}

/// Some edge before `(u0, k0)` goes in direction `d` from a vertex resolved to `l`
/// to one resolved to `b`.
pub open spec fn seen_pair(
    doms: Seq<Seq<u32>>,
    adj: Seq<Seq<(usize, usize)>>,
    d: int,
    l: int,
    b: int,
    u0: int,
    k0: int,
) -> bool {
    exists|u: int, k: int|
        #![trigger adj[u][k], doms[u]]
        before(u, k, u0, k0) && 0 <= u < adj.len() && 0 <= k < adj[u].len() && adj[u][k].1
            == d && is_single(doms[u], l) && is_single(doms[adj[u][k].0 as int], b)
}

/// What the edges before `(u0, k0)` teach about direction `d` and label `l`: nothing
/// if no such edge starts at `l`, else the one-hot union of the neighbours' labels.
pub open spec fn learned_upto(
    doms: Seq<Seq<u32>>,
    adj: Seq<Seq<(usize, usize)>>,
    n_labels: nat,
    d: int,
    l: int,
    u0: int,
    k0: int,
) -> Option<Seq<u32>> {
    if seen_from(doms, adj, d, l, u0, k0) {
        Some(
            Seq::new(
                n_labels,
                |b: int|
                    if seen_pair(doms, adj, d, l, b, u0, k0) {
                        1u32
                    } else {
                        0u32
                    },
            ),
        )
    } else {
        None
    }
}

proof fn lemma_seen_step(
    doms: Seq<Seq<u32>>,
    adj: Seq<Seq<(usize, usize)>>,
    d: int,
    l: int,
    b: int,
    u: int,
    k: int,
)
    requires
        0 <= u < adj.len(),
        0 <= k < adj[u].len(),
    ensures
        seen_from(doms, adj, d, l, u, k + 1) == (seen_from(doms, adj, d, l, u, k) || (adj[u][k].1
            == d && is_single(doms[u], l))),
        seen_pair(doms, adj, d, l, b, u, k + 1) == (seen_pair(doms, adj, d, l, b, u, k) || (
        adj[u][k].1 == d && is_single(doms[u], l) && is_single(doms[adj[u][k].0 as int], b))),
{
    if seen_from(doms, adj, d, l, u, k + 1) {
        let (u1, k1) = choose|u1: int, k1: int|
            #![trigger adj[u1][k1], doms[u1]]
            before(u1, k1, u, k + 1) && 0 <= u1 < adj.len() && 0 <= k1 < adj[u1].len()
                && adj[u1][k1].1 == d && is_single(doms[u1], l);
        if !before(u1, k1, u, k) {
            assert(u1 == u && k1 == k);
        }
    }
    if seen_from(doms, adj, d, l, u, k) {
        let (u1, k1) = choose|u1: int, k1: int|
            #![trigger adj[u1][k1], doms[u1]]
            before(u1, k1, u, k) && 0 <= u1 < adj.len() && 0 <= k1 < adj[u1].len()
                && adj[u1][k1].1 == d && is_single(doms[u1], l);
        assert(before(u1, k1, u, k + 1));
    }
    if adj[u][k].1 == d && is_single(doms[u], l) {
        assert(before(u, k, u, k + 1));
    }
    if seen_pair(doms, adj, d, l, b, u, k + 1) {
        let (u1, k1) = choose|u1: int, k1: int|
            #![trigger adj[u1][k1], doms[u1]]
            before(u1, k1, u, k + 1) && 0 <= u1 < adj.len() && 0 <= k1 < adj[u1].len()
                && adj[u1][k1].1 == d && is_single(doms[u1], l) && is_single(
                doms[adj[u1][k1].0 as int],
                b,
            );
        if !before(u1, k1, u, k) {
            assert(u1 == u && k1 == k);
        }
    }
    if seen_pair(doms, adj, d, l, b, u, k) {
        let (u1, k1) = choose|u1: int, k1: int|
            #![trigger adj[u1][k1], doms[u1]]
            before(u1, k1, u, k) && 0 <= u1 < adj.len() && 0 <= k1 < adj[u1].len()
                && adj[u1][k1].1 == d && is_single(doms[u1], l) && is_single(
                doms[adj[u1][k1].0 as int],
                b,
            );
        assert(before(u1, k1, u, k + 1));
    }
    if adj[u][k].1 == d && is_single(doms[u], l) && is_single(doms[adj[u][k].0 as int], b) {
        assert(before(u, k, u, k + 1));
    }
}

proof fn lemma_seen_row(
    doms: Seq<Seq<u32>>,
    adj: Seq<Seq<(usize, usize)>>,
    d: int,
    l: int,
    b: int,
    u: int,
)
    requires
        0 <= u < adj.len(),
    ensures
        seen_from(doms, adj, d, l, u, adj[u].len() as int) == seen_from(doms, adj, d, l, u + 1, 0),
        seen_pair(doms, adj, d, l, b, u, adj[u].len() as int) == seen_pair(doms, adj, d, l, b, u + 1, 0),
{
    if seen_from(doms, adj, d, l, u + 1, 0) {
        let (u1, k1) = choose|u1: int, k1: int|
            #![trigger adj[u1][k1], doms[u1]]
            before(u1, k1, u + 1, 0) && 0 <= u1 < adj.len() && 0 <= k1 < adj[u1].len()
                && adj[u1][k1].1 == d && is_single(doms[u1], l);
        assert(before(u1, k1, u, adj[u].len() as int));
    }
    if seen_pair(doms, adj, d, l, b, u + 1, 0) {
        let (u1, k1) = choose|u1: int, k1: int|
            #![trigger adj[u1][k1], doms[u1]]
            before(u1, k1, u + 1, 0) && 0 <= u1 < adj.len() && 0 <= k1 < adj[u1].len()
                && adj[u1][k1].1 == d && is_single(doms[u1], l) && is_single(
                doms[adj[u1][k1].0 as int],
                b,
            );
        assert(before(u1, k1, u, adj[u].len() as int));
    }
}

/// The directed edges of a graph and the domains at their ends.
#[derive(Debug, PartialEq, Eq)]
pub struct Graph {
    pub vertices: Vec<LabelDomain>,
    pub edges: Vec<Vec<(usize, usize)>>,
}

impl Graph {
    /// The domains, one per vertex.
    pub open spec fn doms(&self) -> Seq<Seq<u32>> {
        Seq::new(self.vertices@.len(), |i: int| self.vertices@[i]@)
    }

    /// The adjacency lists, one per vertex.
    pub open spec fn adj(&self) -> Seq<Seq<(usize, usize)>> {
        Seq::new(self.edges@.len(), |i: int| self.edges@[i]@)
    }

    /// Every domain has `n_labels` counts and every edge ends at a vertex.
    pub open spec fn wf(&self, n_labels: nat) -> bool {
        &&& self.vertices@.len() == self.edges@.len()
        &&& forall|v: int| 0 <= v < self.vertices@.len() ==> #[trigger] self.vertices@[v]@.len() == n_labels
        &&& forall|v: int, k: int|
            0 <= v < self.edges@.len() && 0 <= k < self.edges@[v]@.len() ==> (
            #[trigger] self.edges@[v]@[k]).0 < self.vertices@.len()
    }

    /// Every vertex is resolved to exactly one label.
    pub open spec fn resolved(&self) -> bool {
        forall|v: int| 0 <= v < self.vertices@.len() ==> support_size(#[trigger] self.vertices@[v]@) == 1
    }

    /// A graph from its domains and adjacency lists.
    pub fn new(vertices: Vec<LabelDomain>, edges: Vec<Vec<(usize, usize)>>) -> (r: Graph)
        ensures
            r.vertices == vertices,
            r.edges == edges,
    {
        Graph { vertices, edges }
    }

    /// A copy of this graph.
    pub fn copy(&self) -> (r: Graph)
        ensures
            r.doms() == self.doms(),
            r.adj() == self.adj(),
    {
        let mut vertices: Vec<LabelDomain> = Vec::new();
        let mut edges: Vec<Vec<(usize, usize)>> = Vec::new();
        let mut i: usize = 0;
        while i < self.vertices.len()
            invariant
                i <= self.vertices@.len(),
                vertices@.len() == i,
                forall|j: int| 0 <= j < i ==> #[trigger] vertices@[j]@ == self.vertices@[j]@,
            decreases self.vertices@.len() - i,
        {
            vertices.push(self.vertices[i].copy());
            i = i + 1;
        }
        let mut i: usize = 0;
        while i < self.edges.len()
            invariant
                i <= self.edges@.len(),
                edges@.len() == i,
                forall|j: int| 0 <= j < i ==> #[trigger] edges@[j]@ == self.edges@[j]@,
            decreases self.edges@.len() - i,
        {
            let src = &self.edges[i];
            let mut e: Vec<(usize, usize)> = Vec::new();
            let mut k: usize = 0;
            while k < src.len()
                invariant
                    k <= src@.len(),
                    e@ == src@.subrange(0, k as int),
                decreases src@.len() - k,
            {
                e.push(src[k]);
                k = k + 1;
                assert(e@ =~= src@.subrange(0, k as int));
            }
            assert(e@ =~= src@);
            edges.push(e);
            i = i + 1;
        }
        let r = Graph { vertices, edges };
        assert(r.doms() =~= self.doms());
        assert(r.adj() =~= self.adj());
        r
    }

    /// Number of vertices.
    pub fn len(&self) -> (r: usize)
        ensures
            r == self.vertices@.len(),
    {
        self.vertices.len()
    }

    /// The neighbours of `v`, each with the direction in which it lies.
    pub fn connections(&self, v: usize) -> (r: &Vec<(usize, usize)>)
        requires
            v < self.edges@.len(),
        ensures
            r@ == self.edges@[v as int]@,
    {
        &self.edges[v]
    }

    /// Intersect the domain of `v` with `c`. Returns `None` when nothing changes,
    /// else the new domain, which is stored.
    pub fn constrain(&mut self, v: usize, c: &LabelDomain) -> (r: Option<LabelDomain>)
        requires
            v < old(self).vertices@.len(),
            old(self).vertices@[v as int]@.len() == c@.len(),
        ensures
            final(self).edges == old(self).edges,
            final(self).vertices@.len() == old(self).vertices@.len(),
            meet(old(self).vertices@[v as int]@, c@) == old(self).vertices@[v as int]@ ==> {
                &&& r.is_none()
                &&& final(self).doms() == old(self).doms()
            },
            meet(old(self).vertices@[v as int]@, c@) != old(self).vertices@[v as int]@ ==> {
                &&& r matches Some(x) && x@ == meet(old(self).vertices@[v as int]@, c@)
                &&& final(self).doms() == old(self).doms().update(v as int, meet(old(self).vertices@[v as int]@, c@))
            },
    {
        let next = self.vertices[v].intersect(c);
        if next.same_as(&self.vertices[v]) {
            None
        } else {
            let out = next.copy();
            self.vertices.set(v, next);
            assert(self.doms() =~= old(self).doms().update(v as int, out@));
            Some(out)
        }
    }

    /// Resolve `v` by a weighted draw over its possible labels: the label at which the
    /// running weight first exceeds `draw` modulo the total weight. The chosen label
    /// keeps its weight and every other label is excluded.
    pub fn collapse_vertex(&mut self, v: usize, draw: u64) -> (label: usize)
        requires
            v < old(self).vertices@.len(),
            weight(old(self).vertices@[v as int]@) > 0,
        ensures
            label == pick(old(self).vertices@[v as int]@, (draw as nat) % weight(old(self).vertices@[v as int]@)),
            label < old(self).vertices@[v as int]@.len(),
            old(self).vertices@[v as int]@[label as int] > 0,
            final(self).edges == old(self).edges,
            final(self).doms() == old(self).doms().update(v as int, keep_only(old(self).vertices@[v as int]@, label as int)),
    {
        let total = self.vertices[v].total_weight();
        let t = (draw as u128) % total;
        let ghost a = self.vertices@[v as int]@;
        proof {
            lemma_pick_possible(a, t as nat);
        }
        let n = self.vertices[v].len();
        let mut i: usize = 0;
        let mut acc: u128 = 0;
        let mut done = false;
        assert(a.subrange(0, n as int) =~= a);
        while i < n && !done
            invariant
                v < self.vertices@.len(),
                a == self.vertices@[v as int]@,
                n == a.len(),
                i <= n,
                acc <= t,
                t < weight(a),
                pick(a, t as nat) == i + pick(a.subrange(i as int, n as int), (t - acc) as nat),
                done ==> i < n && pick(a.subrange(i as int, n as int), (t - acc) as nat) == 0,
            decreases (n - i) * 2 + if done { 0int } else { 1int },
        {
            let w = self.vertices[v].counts[i];
            assert(a.subrange(i as int, n as int)[0] == w);
            if t - acc < w as u128 {
                done = true;
            } else {
                assert(a.subrange(i as int, n as int).subrange(1, n - i) =~= a.subrange(i as int + 1, n as int));
                acc = acc + w as u128;
                i = i + 1;
            }
        }
        if i == n {
            assert(a.subrange(i as int, n as int).len() == 0);
        }
        let mut dom = self.vertices[v].copy();
        dom.determine(i);
        self.vertices.set(v, dom);
        assert(self.doms() =~= old(self).doms().update(v as int, keep_only(a, i as int)));
        i
    }

    /// The rules that a resolved exemplar teaches: for each edge from a vertex of
    /// label `l` in direction `d` to a vertex of label `b`, label `b` is allowed in
    /// direction `d` next to `l`. Pairs that no edge shows stay absent.
    pub fn rules(&self) -> (r: RuleTable)
        requires
            self.wf(self.label_count_spec()),
            self.resolved(),
        ensures
            r.wf(),
            r.labels == self.label_count_spec(),
            forall|d: int, l: int|
                0 <= l < r.labels ==> #[trigger] r.rule(d, l) == learned_upto(
                    self.doms(),
                    self.adj(),
                    r.labels as nat,
                    d,
                    l,
                    self.vertices@.len() as int,
                    0,
                ),
    {
        let n_labels = self.label_count();
        let ghost doms = self.doms();
        let ghost adj = self.adj();
        let mut table = RuleTable::new(n_labels);
        let n = self.vertices.len();
        let mut u: usize = 0;
        while u < n
            invariant
                self.wf(n_labels as nat),
                self.resolved(),
                    n == self.vertices@.len(),
                doms == self.doms(),
                adj == self.adj(),
                u <= n,
                table.wf(),
                table.labels == n_labels,
                forall|d: int, l: int|
                    0 <= l < n_labels ==> #[trigger] table.rule(d, l) == learned_upto(
                        doms,
                        adj,
                        n_labels as nat,
                        d,
                        l,
                        u as int,
                        0,
                    ),
            decreases n - u,
        {
            let lu = match self.vertices[u].single_label() {
                Some(l) => l,
                None => {
                    assert(false);
                    0
                },
            };
            assert(doms[u as int] == self.vertices@[u as int]@);
            let m = self.edges[u].len();
            let mut k: usize = 0;
            while k < m
                invariant
                    self.wf(n_labels as nat),
                    self.resolved(),
                            n == self.vertices@.len(),
                    doms == self.doms(),
                    adj == self.adj(),
                    u < n,
                    m == adj[u as int].len(),
                    k <= m,
                    lu < n_labels,
                    is_single(doms[u as int], lu as int),
                    table.wf(),
                    table.labels == n_labels,
                    forall|d: int, l: int|
                        0 <= l < n_labels ==> #[trigger] table.rule(d, l) == learned_upto(
                            doms,
                            adj,
                            n_labels as nat,
                            d,
                            l,
                            u as int,
                            k as int,
                        ),
                decreases m - k,
            {
                let (v, d) = self.edges[u][k];
                assert(adj[u as int][k as int] == (v, d));
                let lv = match self.vertices[v].single_label() {
                    Some(l) => l,
                    None => {
                        assert(false);
                        0
                    },
                };
                assert(doms[v as int] == self.vertices@[v as int]@);
                let mut one = LabelDomain::empty(n_labels);
                one.counts.set(lv, 1);
                let ghost prev = table;
                let next = match table.get(d, lu) {
                    Some(x) => x.union(&one),
                    None => LabelDomain::empty(n_labels).union(&one),
                };
                table.insert(d, lu, next);
                assert forall|d2: int, l2: int|
                    0 <= l2 < n_labels implies #[trigger] table.rule(d2, l2) == learned_upto(
                        doms,
                        adj,
                        n_labels as nat,
                        d2,
                        l2,
                        u as int,
                        k as int + 1,
                    ) by {
                    assert forall|b: int| #[trigger] seen_pair(doms, adj, d2, l2, b, u as int, k as int + 1)
                        == (seen_pair(doms, adj, d2, l2, b, u as int, k as int) || (d2 == d && l2 == lu
                        && b == lv)) by {
                        lemma_seen_step(doms, adj, d2, l2, b, u as int, k as int);
                    }
                    lemma_seen_step(doms, adj, d2, l2, 0, u as int, k as int);
                    if d2 == d && l2 == lu {
                        let want = learned_upto(doms, adj, n_labels as nat, d2, l2, u as int, k as int + 1).unwrap();
                        assert forall|b: int| #[trigger] seen_pair(doms, adj, d2, l2, b, u as int, k as int)
                            implies seen_from(doms, adj, d2, l2, u as int, k as int) by {
                            let (u1, k1) = choose|u1: int, k1: int|
                                #![trigger adj[u1][k1], doms[u1]]
                                before(u1, k1, u as int, k as int) && 0 <= u1 < adj.len() && 0 <= k1
                                    < adj[u1].len() && adj[u1][k1].1 == d2 && is_single(doms[u1], l2)
                                    && is_single(doms[adj[u1][k1].0 as int], b);
                        }
                        assert(next@ =~= want);
                    }
                }
                k = k + 1;
            }
            assert forall|d2: int, l2: int|
                0 <= l2 < n_labels implies #[trigger] table.rule(d2, l2) == learned_upto(
                    doms,
                    adj,
                    n_labels as nat,
                    d2,
                    l2,
                    u as int + 1,
                    0,
                ) by {
                lemma_seen_row(doms, adj, d2, l2, 0, u as int);
                assert forall|b: int| #[trigger] seen_pair(doms, adj, d2, l2, b, u as int, m as int)
                    == seen_pair(doms, adj, d2, l2, b, u as int + 1, 0) by {
                    lemma_seen_row(doms, adj, d2, l2, b, u as int);
                }
                assert(learned_upto(doms, adj, n_labels as nat, d2, l2, u as int, m as int)
                    =~= learned_upto(doms, adj, n_labels as nat, d2, l2, u as int + 1, 0));
            }
            u = u + 1;
        }
        table
    }

    /// Training frequencies: for each label, the number of vertices resolved to it.
    pub fn frequencies(&self) -> (r: LabelDomain)
        requires
            self.wf(self.label_count_spec()),
            self.resolved(),
            self.vertices@.len() <= u32::MAX,
        ensures
            r@.len() == self.label_count_spec(),
            forall|l: int| 0 <= l < r@.len() ==> #[trigger] r@[l] == freq(self.doms(), l),
    {
        let n_labels = self.label_count();
        let mut counts = LabelDomain::empty(n_labels);
        let mut u: usize = 0;
        while u < self.vertices.len()
            invariant
                self.wf(n_labels as nat),
                self.resolved(),
                self.vertices@.len() <= u32::MAX,
                n_labels == self.label_count_spec(),
                u <= self.vertices@.len(),
                counts@.len() == n_labels,
                forall|l: int| 0 <= l < n_labels ==> #[trigger] counts@[l] == freq(self.doms().subrange(0, u as int), l),
            decreases self.vertices@.len() - u,
        {
            let ghost pre = self.doms().subrange(0, u as int);
            let ghost next = self.doms().subrange(0, u as int + 1);
            assert(next.drop_last() =~= pre);
            assert(next.last() == self.vertices@[u as int]@);
            match self.vertices[u].single_label() {
                Some(l) => {
                    proof {
                        lemma_freq_bound(pre, l as int);
                    }
                    let c = counts.counts[l];
                    counts.counts.set(l, c + 1);
                    assert forall|l2: int| 0 <= l2 < n_labels implies #[trigger] counts@[l2] == freq(next, l2) by {
                        if l2 != l {
                            assert(next.last()[l2] == 0);
                        }
                    }
                },
                None => {},
            }
            u = u + 1;
        }
        assert(self.doms().subrange(0, u as int) =~= self.doms());
        counts
    }

    /// The training frequencies as a domain: for each label, the number of
    /// vertices whose domain allows it.
    pub open spec fn freq_domain(&self) -> Seq<u32> {
        Seq::new(self.label_count_spec(), |l: int| freq(self.doms(), l) as u32)
    }

    /// `rt` holds exactly the rules that this exemplar teaches.
    pub open spec fn teaches(&self, rt: RuleTable) -> bool {
        &&& rt.wf()
        &&& rt.labels == self.label_count_spec()
        &&& forall|d: int, l: int|
            0 <= l < rt.labels ==> #[trigger] rt.rule(d, l) == learned_upto(
                self.doms(),
                self.adj(),
                rt.labels as nat,
                d,
                l,
                self.vertices@.len() as int,
                0,
            )
    }

    /// Number of labels of the graph's domains.
    pub open spec fn label_count_spec(&self) -> nat {
        if self.vertices@.len() > 0 {
            self.vertices@[0]@.len()
        } else {
            0
        }
    }

    /// Number of labels of the graph's domains.
    pub fn label_count(&self) -> (r: usize)
        ensures
            r == self.label_count_spec(),
    {
        if self.vertices.len() > 0 {
            self.vertices[0].len()
        } else {
            0
        }
    }
}

} // verus!
