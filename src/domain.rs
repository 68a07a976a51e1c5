//! Weighted label domains: one non-negative count per label, where zero means
//! "excluded" and a positive count is the label's relative likelihood.

use vstd::prelude::*;

verus! {

/// The smaller of two counts.
pub open spec fn min_u32(a: u32, b: u32) -> u32 {
    if a <= b { a } else { b }
}

/// The larger of two counts.
pub open spec fn max_u32(a: u32, b: u32) -> u32 {
    if a >= b { a } else { b }
}

/// A domain of `n` labels, all excluded.
pub open spec fn zeros(n: nat) -> Seq<u32> {
    Seq::new(n, |i: int| 0u32)
}

/// Elementwise minimum: applying a constraint.
pub open spec fn meet(a: Seq<u32>, b: Seq<u32>) -> Seq<u32> {
    Seq::new(a.len(), |i: int| min_u32(a[i], b[i]))
}

/// Elementwise maximum: aggregating allowed sets.
pub open spec fn join(a: Seq<u32>, b: Seq<u32>) -> Seq<u32> {
    Seq::new(a.len(), |i: int| max_u32(a[i], b[i]))
}

/// `a` is contained in `b`: same length and no count of `a` exceeds that of `b`.
pub open spec fn within(a: Seq<u32>, b: Seq<u32>) -> bool {
    &&& a.len() == b.len()
    &&& forall|i: int| 0 <= i < a.len() ==> a[i] <= b[i]
}

/// Number of labels with a nonzero count.
pub open spec fn support_size(a: Seq<u32>) -> nat
    decreases a.len(),
{
    if a.len() == 0 {
        0
    } else {
        support_size(a.drop_last()) + if a.last() > 0 { 1nat } else { 0nat }
    }
}

/// Sum of all counts.
pub open spec fn weight(a: Seq<u32>) -> nat
    decreases a.len(),
{
    if a.len() == 0 {
        0
    } else {
        weight(a.drop_last()) + a.last() as nat
    }
}

/// Every count zeroed except that of `label`, which keeps its weight.
pub open spec fn keep_only(a: Seq<u32>, label: int) -> Seq<u32> {
    Seq::new(a.len(), |i: int| if i == label { a[i] } else { 0u32 })
}

/// `label` is the one label of `a` with a nonzero count.
pub open spec fn is_single(a: Seq<u32>, label: int) -> bool {
    &&& 0 <= label < a.len()
    &&& a[label] > 0
    &&& forall|i: int| 0 <= i < a.len() && i != label ==> a[i] == 0
}

/// A domain has at most as many possible labels as labels.
pub proof fn lemma_support_prefix_bound(a: Seq<u32>)
    ensures
        support_size(a) <= a.len(),
    decreases a.len(),
{
    if a.len() > 0 {
        lemma_support_prefix_bound(a.drop_last());
    }
}

/// A domain with exactly one possible label has a label it is resolved to.
pub proof fn lemma_support_one(a: Seq<u32>)
    requires
        support_size(a) == 1,
    ensures
        exists|l: int| is_single(a, l),
    decreases a.len(),
{
    let p = a.drop_last();
    if a.last() > 0 {
        assert(support_size(p) == 0);
        lemma_weight_zero(p);
        assert forall|i: int| 0 <= i < a.len() && i != a.len() - 1 implies a[i] == 0 by {
            assert(a[i] == p[i]);
        }
        assert(is_single(a, a.len() - 1));
    } else {
        lemma_support_one(p);
        let l = choose|l: int| is_single(p, l);
        assert forall|i: int| 0 <= i < a.len() && i != l implies a[i] == 0 by {
            if i < a.len() - 1 {
                assert(a[i] == p[i]);
            }
        }
        assert(a[l] == p[l]);
        assert(is_single(a, l));
    }
}

/// A domain with exactly one nonzero count has exactly one possible label.
pub proof fn lemma_single_support(a: Seq<u32>, label: int)
    requires
        is_single(a, label),
    ensures
        support_size(a) == 1,
    decreases a.len(),
{
    if label == a.len() - 1 {
        assert forall|i: int| 0 <= i < a.drop_last().len() implies a.drop_last()[i] == 0 by {
            assert(a.drop_last()[i] == a[i]);
        }
        lemma_weight_zero(a.drop_last());
    } else {
        assert(is_single(a.drop_last(), label));
        lemma_single_support(a.drop_last(), label);
    }
}

/// Keeping one possible label leaves exactly that label possible.
pub proof fn lemma_keep_only_single(a: Seq<u32>, label: int)
    requires
        0 <= label < a.len(),
        a[label] > 0,
    ensures
        is_single(keep_only(a, label), label),
        support_size(keep_only(a, label)) == 1,
{
    lemma_single_support(keep_only(a, label), label);
}

/// A domain contained in another has no more possible labels and no more weight.
pub proof fn lemma_within_shrinks(a: Seq<u32>, b: Seq<u32>)
    requires
        within(a, b),
    ensures
        support_size(a) <= support_size(b),
        weight(a) <= weight(b),
        a != b ==> weight(a) < weight(b),
    decreases a.len(),
{
    if a.len() > 0 {
        lemma_within_shrinks(a.drop_last(), b.drop_last());
        if a.drop_last() =~= b.drop_last() && a.last() == b.last() {
            assert forall|i: int| 0 <= i < a.len() implies a[i] == b[i] by {
                if i < a.len() - 1 {
                    assert(a[i] == a.drop_last()[i] && b[i] == b.drop_last()[i]);
                }
            }
            assert(a =~= b);
        }
    } else {
        assert(a =~= b);
    }
}

/// The support of a domain is empty exactly when its weight is zero.
pub proof fn lemma_weight_zero(a: Seq<u32>)
    ensures
        (weight(a) == 0) == (support_size(a) == 0),
        (weight(a) == 0) == (forall|i: int| 0 <= i < a.len() ==> a[i] == 0),
    decreases a.len(),
{
    if a.len() > 0 {
        lemma_weight_zero(a.drop_last());
        if weight(a) == 0 {
            assert forall|i: int| 0 <= i < a.len() implies a[i] == 0 by {
                if i < a.len() - 1 {
                    assert(a[i] == a.drop_last()[i]);
                }
            }
        }
        if forall|i: int| 0 <= i < a.len() ==> a[i] == 0 {
            assert forall|i: int| 0 <= i < a.drop_last().len() implies a.drop_last()[i] == 0 by {
                assert(a[i] == a.drop_last()[i]);
            }
        }
    }
}

/// Every count is at most `u32::MAX`, so the weight is bounded by the length.
pub proof fn lemma_weight_bound(a: Seq<u32>)
    ensures
        weight(a) <= a.len() * 0xffff_ffff,
    decreases a.len(),
{
    if a.len() > 0 {
        lemma_weight_bound(a.drop_last());
        assert(weight(a) <= (a.len() - 1) * 0xffff_ffff + 0xffff_ffff) by (nonlinear_arith)
            requires
                weight(a) == weight(a.drop_last()) + a.last(),
                weight(a.drop_last()) <= (a.len() - 1) * 0xffff_ffff,
                a.last() <= 0xffff_ffff,
        ;
        assert((a.len() - 1) * 0xffff_ffff + 0xffff_ffff == a.len() * 0xffff_ffff)
            by (nonlinear_arith);
    }
}

/// Intersection and union of a domain with itself give the domain back.
pub proof fn lemma_idempotent(d: Seq<u32>)
    ensures
        meet(d, d) == d,
        join(d, d) == d,
{
    assert(meet(d, d) =~= d);
    assert(join(d, d) =~= d);
}

/// Intersection and union do not depend on the order of their arguments.
pub proof fn lemma_commutative(a: Seq<u32>, b: Seq<u32>)
    requires
        a.len() == b.len(),
    ensures
        meet(a, b) == meet(b, a),
        join(a, b) == join(b, a),
{
    assert(meet(a, b) =~= meet(b, a));
    assert(join(a, b) =~= join(b, a));
}

/// Intersection and union do not depend on how three domains are grouped.
pub proof fn lemma_associative(a: Seq<u32>, b: Seq<u32>, c: Seq<u32>)
    requires
        a.len() == b.len(),
        b.len() == c.len(),
    ensures
        meet(meet(a, b), c) == meet(a, meet(b, c)),
        join(join(a, b), c) == join(a, join(b, c)),
{
    assert(meet(meet(a, b), c) =~= meet(a, meet(b, c)));
    assert(join(join(a, b), c) =~= join(a, join(b, c)));
}

/// A fixed-length vector of label counts.
#[derive(Debug, PartialEq, Eq)]
pub struct LabelDomain {
    pub counts: Vec<u32>,
}

impl View for LabelDomain {
    type V = Seq<u32>;

    open spec fn view(&self) -> Seq<u32> {
        self.counts@
    }
}

impl LabelDomain {
    /// A domain over `n` labels with every label excluded.
    pub fn empty(n: usize) -> (r: LabelDomain)
        ensures
            r@ == zeros(n as nat),
    {
        let mut counts: Vec<u32> = Vec::new();
        let mut i: usize = 0;
        while i < n
            invariant
                i <= n,
                counts@ == zeros(i as nat),
            decreases n - i,
        {
            counts.push(0);
            i = i + 1;
        }
        LabelDomain { counts }
    }

    /// A domain holding the given counts.
    pub fn from_counts(counts: &[u32]) -> (r: LabelDomain)
        ensures
            r@ == counts@,
    {
        let mut v: Vec<u32> = Vec::new();
        let mut i: usize = 0;
        while i < counts.len()
            invariant
                i <= counts.len(),
                v@ == counts@.subrange(0, i as int),
            decreases counts.len() - i,
        {
            v.push(counts[i]);
            i = i + 1;
            assert(v@ =~= counts@.subrange(0, i as int));
        }
        assert(v@ =~= counts@);
        LabelDomain { counts: v }
    }

    /// The full domain: every label with its training frequency.
    pub fn full(frequencies: &LabelDomain) -> (r: LabelDomain)
        ensures
            r@ == frequencies@,
    {
        LabelDomain::from_counts(frequencies.counts.as_slice())
    }

    /// A copy of this domain.
    pub fn copy(&self) -> (r: LabelDomain)
        ensures
            r@ == self@,
    {
        LabelDomain::from_counts(self.counts.as_slice())
    }

    /// Number of labels.
    pub fn len(&self) -> (r: usize)
        ensures
            r == self@.len(),
    {
        self.counts.len()
    }

    /// Elementwise minimum with `other`.
    pub fn intersect(&self, other: &LabelDomain) -> (r: LabelDomain)
        requires
            self@.len() == other@.len(),
        ensures
            r@ == meet(self@, other@),
    {
        let mut v: Vec<u32> = Vec::new();
        let mut i: usize = 0;
        while i < self.counts.len()
            invariant
                i <= self@.len(),
                self@.len() == other@.len(),
                v@ == meet(self@, other@).subrange(0, i as int),
            decreases self@.len() - i,
        {
            let a = self.counts[i];
            let b = other.counts[i];
            v.push(if a <= b { a } else { b });
            i = i + 1;
            assert(v@ =~= meet(self@, other@).subrange(0, i as int));
        }
        assert(v@ =~= meet(self@, other@));
        LabelDomain { counts: v }
    }

    /// Elementwise maximum with `other`.
    pub fn union(&self, other: &LabelDomain) -> (r: LabelDomain)
        requires
            self@.len() == other@.len(),
        ensures
            r@ == join(self@, other@),
    {
        let mut v: Vec<u32> = Vec::new();
        let mut i: usize = 0;
        while i < self.counts.len()
            invariant
                i <= self@.len(),
                self@.len() == other@.len(),
                v@ == join(self@, other@).subrange(0, i as int),
            decreases self@.len() - i,
        {
            let a = self.counts[i];
            let b = other.counts[i];
            v.push(if a >= b { a } else { b });
            i = i + 1;
            assert(v@ =~= join(self@, other@).subrange(0, i as int));
        }
        assert(v@ =~= join(self@, other@));
        LabelDomain { counts: v }
    }

    /// Whether every count of this domain is at most the matching count of `other`.
    pub fn is_subset(&self, other: &LabelDomain) -> (r: bool)
        ensures
            r == within(self@, other@),
    {
        if self.counts.len() != other.counts.len() {
            return false;
        }
        let mut i: usize = 0;
        while i < self.counts.len()
            invariant
                i <= self@.len(),
                self@.len() == other@.len(),
                forall|j: int| 0 <= j < i ==> self@[j] <= other@[j],
            decreases self@.len() - i,
        {
            if self.counts[i] > other.counts[i] {
                return false;
            }
            i = i + 1;
        }
        true
    }

    /// Whether both domains hold the same counts.
    pub fn same_as(&self, other: &LabelDomain) -> (r: bool)
        ensures
            r == (self@ == other@),
    {
        if self.counts.len() != other.counts.len() {
            return false;
        }
        let mut i: usize = 0;
        while i < self.counts.len()
            invariant
                i <= self@.len(),
                self@.len() == other@.len(),
                forall|j: int| 0 <= j < i ==> self@[j] == other@[j],
            decreases self@.len() - i,
        {
            if self.counts[i] != other.counts[i] {
                return false;
            }
            i = i + 1;
        }
        assert(self@ =~= other@);
        true
    }

    /// Number of labels that are still possible.
    pub fn cardinality_non_zero(&self) -> (r: usize)
        ensures
            r == support_size(self@),
    {
        let mut n: usize = 0;
        let mut i: usize = 0;
        while i < self.counts.len()
            invariant
                i <= self@.len(),
                n == support_size(self@.subrange(0, i as int)),
            decreases self@.len() - i,
        {
            proof {
                lemma_support_prefix_bound(self@.subrange(0, i as int));
                assert(self@.subrange(0, i as int + 1).drop_last() =~= self@.subrange(0, i as int));
            }
            if self.counts[i] > 0 {
                n = n + 1;
            }
            i = i + 1;
        }
        assert(self@.subrange(0, i as int) =~= self@);
        n
    }

    /// Sum of all counts.
    pub fn total_weight(&self) -> (r: u128)
        ensures
            r == weight(self@),
    {
        let mut s: u128 = 0;
        let mut i: usize = 0;
        while i < self.counts.len()
            invariant
                i <= self@.len(),
                s == weight(self@.subrange(0, i as int)),
            decreases self@.len() - i,
        {
            proof {
                let p = self@.subrange(0, i as int + 1);
                assert(p.drop_last() =~= self@.subrange(0, i as int));
                lemma_weight_bound(p);
                assert(p.len() * 0xffff_ffff <= 0x1_0000_0000_0000_0000 * 0xffff_ffff)
                    by (nonlinear_arith)
                    requires
                        p.len() <= 0x1_0000_0000_0000_0000,
                ;
            }
            s = s + self.counts[i] as u128;
            i = i + 1;
        }
        assert(self@.subrange(0, i as int) =~= self@);
        s
    }

    /// The one possible label, when exactly one label is possible.
    pub fn single_label(&self) -> (r: Option<usize>)
        ensures
            r.is_some() == (support_size(self@) == 1),
            r matches Some(l) ==> is_single(self@, l as int),
    {
        let mut found: Option<usize> = None;
        let mut i: usize = 0;
        while i < self.counts.len()
            invariant
                i <= self@.len(),
                support_size(self@.subrange(0, i as int)) == if found.is_some() { 1nat } else { 0nat },
                found matches Some(l) ==> l < i && self@[l as int] > 0
                    && forall|j: int| 0 <= j < i && j != l ==> self@[j] == 0,
                found.is_none() ==> forall|j: int| 0 <= j < i ==> self@[j] == 0,
            decreases self@.len() - i,
        {
            assert(self@.subrange(0, i as int + 1).drop_last() =~= self@.subrange(0, i as int));
            if self.counts[i] > 0 {
                if found.is_some() {
                    proof {
                        self.lemma_support_grows(i as int + 1);
                    }
                    return None;
                }
                found = Some(i);
            }
            i = i + 1;
        }
        assert(self@.subrange(0, i as int) =~= self@);
        found
    }

    proof fn lemma_support_grows(&self, k: int)
        requires
            0 <= k <= self@.len(),
            support_size(self@.subrange(0, k)) >= 2,
        ensures
            support_size(self@) >= 2,
        decreases self@.len() - k,
    {
        if k < self@.len() {
            assert(self@.subrange(0, k + 1).drop_last() =~= self@.subrange(0, k));
            self.lemma_support_grows(k + 1);
        } else {
            assert(self@.subrange(0, k) =~= self@);
        }
    }

    /// Zero every count except that of `label`, which keeps its weight.
    pub fn determine(&mut self, label: usize)
        requires
            label < old(self)@.len(),
        ensures
            final(self)@ == keep_only(old(self)@, label as int),
    {
        let n = self.counts.len();
        let mut i: usize = 0;
        while i < n
            invariant
                n == self@.len(),
                n == old(self)@.len(),
                label < n,
                i <= n,
                forall|j: int| 0 <= j < i ==> self@[j] == keep_only(old(self)@, label as int)[j],
                forall|j: int| i <= j < n ==> self@[j] == old(self)@[j],
            decreases n - i,
        {
            if i != label {
                self.counts.set(i, 0);
            }
            i = i + 1;
        }
        assert(self@ =~= keep_only(old(self)@, label as int));
    }
}

} // verus!
