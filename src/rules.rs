//! Directional compatibility rules: for a direction and a label, the domain
//! that a neighbour in that direction is restricted to.

use vstd::prelude::*;
use crate::domain::{LabelDomain, zeros, join};

verus! {

/// The rule domains of a table, keyed by (direction, label), kept in a
/// `hashbrown` map.
#[verifier::external_body]
pub struct RuleMap {
    inner: hashbrown::HashMap<(usize, usize), LabelDomain>,
}

/// The entries of a rule map, each domain by its counts.
pub uninterp spec fn rule_entries(m: RuleMap) -> Map<(usize, usize), Seq<u32>>;

impl RuleMap {
    /// Relies on `hashbrown::HashMap::new`: a map with no entry.
    #[verifier::external_body]
    fn new() -> (r: RuleMap)
        ensures
            forall|d: usize, l: usize| !#[trigger] rule_entries(r).contains_key((d, l)),
    {
        RuleMap { inner: hashbrown::HashMap::new() }
    }

    /// Relies on `hashbrown::HashMap::insert`: the entry for `key` becomes `dom`,
    /// the others stay.
    #[verifier::external_body]
    fn insert(&mut self, key: (usize, usize), dom: LabelDomain)
        ensures
            rule_entries(*final(self)) == rule_entries(*old(self)).insert(key, dom@),
    {
        self.inner.insert(key, dom);
    }

    /// Relies on `hashbrown::HashMap::get`: the entry for `key`, if there is one.
    #[verifier::external_body]
    fn get(&self, key: (usize, usize)) -> (r: Option<&LabelDomain>)
        ensures
            match r {
                Some(x) => rule_entries(*self).contains_key(key) && rule_entries(*self)[key] == x@,
                None => !rule_entries(*self).contains_key(key),
            },
    {
        self.inner.get(&key)
    }
}

/// A table keyed by direction and label. A missing entry means that the pair
/// was never seen and contributes nothing to a constraint.
pub struct RuleTable {
    pub labels: usize,
    pub map: RuleMap,
}

impl RuleTable {
    /// The domain allowed in direction `d` next to label `l`, if any.
    pub open spec fn rule(&self, d: int, l: int) -> Option<Seq<u32>> {
        let m = rule_entries(self.map);
        if 0 <= d <= usize::MAX && 0 <= l <= usize::MAX && m.contains_key((d as usize, l as usize)) {
            Some(m[(d as usize, l as usize)])
        } else {
            None
        }
    }

    /// Every entry is for a label of the table and has one count per label.
    pub open spec fn wf(&self) -> bool {
        forall|d: int, l: int| #[trigger] self.rule(d, l) matches Some(x) ==> 0 <= l < self.labels && x.len() == self.labels
    }

    /// An empty table over `labels` labels.
    pub fn new(labels: usize) -> (r: RuleTable)
        ensures
            r.wf(),
            r.labels == labels,
            forall|d: int, l: int| r.rule(d, l).is_none(),
    {
        RuleTable { labels, map: RuleMap::new() }
    }

    /// Set the domain for direction `d` and label `l`.
    pub fn insert(&mut self, d: usize, l: usize, dom: LabelDomain)
        requires
            old(self).wf(),
            l < old(self).labels,
            dom@.len() == old(self).labels,
        ensures
            final(self).wf(),
            final(self).labels == old(self).labels,
            forall|d2: int, l2: int|
                #![trigger final(self).rule(d2, l2)]
                final(self).rule(d2, l2) == if d2 == d && l2 == l {
                    Some(dom@)
                } else {
                    old(self).rule(d2, l2)
                },
    {
        let ghost before = *self;
        self.map.insert((d, l), dom);
        assert forall|d2: int, l2: int|
            #![trigger self.rule(d2, l2)]
            self.rule(d2, l2) == if d2 == d && l2 == l {
                Some(dom@)
            } else {
                before.rule(d2, l2)
            } by {
            if 0 <= d2 <= usize::MAX && 0 <= l2 <= usize::MAX && !(d2 == d && l2 == l) {
                assert((d2 as usize, l2 as usize) != (d, l));
            }
        }
    }

    /// The domain for direction `d` and label `l`, if the pair has one.
    pub fn get(&self, d: usize, l: usize) -> (r: Option<&LabelDomain>)
        ensures
            match r {
                Some(x) => self.rule(d as int, l as int) == Some(x@),
                None => self.rule(d as int, l as int).is_none(),
            },
    {
        self.map.get((d, l))
    }
}

/// Union of the rules for direction `d` over the first `k` labels of `a` that are
/// still possible.
pub open spec fn cons_prefix(rules: RuleTable, a: Seq<u32>, d: int, k: int) -> Seq<u32>
    decreases k,
{
    if k <= 0 {
        zeros(rules.labels as nat)
    } else {
        let prev = cons_prefix(rules, a, d, k - 1);
        if a[k - 1] > 0 && rules.rule(d, k - 1) is Some {
            join(prev, rules.rule(d, k - 1).unwrap())
        } else {
            prev
        }
    }
}

/// The constraint that a vertex with domain `a` imposes on its neighbour in
/// direction `d`: the union of the rule domains of its possible labels.
pub open spec fn cons(rules: RuleTable, a: Seq<u32>, d: int) -> Seq<u32> {
    cons_prefix(rules, a, d, a.len() as int)
}

/// A constraint has one count per label.
pub proof fn lemma_cons_prefix_len(rules: RuleTable, a: Seq<u32>, d: int, k: int)
    requires
        rules.wf(),
    ensures
        cons_prefix(rules, a, d, k).len() == rules.labels,
    decreases k,
{
    if k > 0 {
        lemma_cons_prefix_len(rules, a, d, k - 1);
    }
}

/// A domain with no more possible labels than another yields a constraint that
/// allows no more labels.
pub proof fn lemma_cons_monotone(rules: RuleTable, a: Seq<u32>, b: Seq<u32>, d: int, k: int)
    requires
        rules.wf(),
        a.len() == b.len(),
        0 <= k <= a.len(),
        forall|i: int| 0 <= i < a.len() && a[i] > 0 ==> b[i] > 0,
    ensures
        forall|i: int| 0 <= i < rules.labels ==>
            #[trigger] cons_prefix(rules, a, d, k)[i] <= cons_prefix(rules, b, d, k)[i],
    decreases k,
{
    lemma_cons_prefix_len(rules, a, d, k);
    lemma_cons_prefix_len(rules, b, d, k);
    if k > 0 {
        lemma_cons_monotone(rules, a, b, d, k - 1);
        lemma_cons_prefix_len(rules, a, d, k - 1);
        lemma_cons_prefix_len(rules, b, d, k - 1);
    }
}

/// The constraint that `labels` imposes in `direction`.
pub fn constraint(labels: &LabelDomain, direction: usize, rules: &RuleTable) -> (r: LabelDomain)
    requires
        rules.wf(),
        labels@.len() == rules.labels,
    ensures
        r@ == cons(*rules, labels@, direction as int),
{
    let mut acc = LabelDomain::empty(rules.labels);
    let mut i: usize = 0;
    while i < labels.len()
        invariant
            rules.wf(),
            labels@.len() == rules.labels,
            i <= labels@.len(),
            acc@ == cons_prefix(*rules, labels@, direction as int, i as int),
        decreases labels@.len() - i,
    {
        proof {
            lemma_cons_prefix_len(*rules, labels@, direction as int, i as int);
        }
        if labels.counts[i] > 0 {
            match rules.get(direction, i) {
                Some(a) => {
                    acc = acc.union(a);
                },
                None => {},
            }
        }
        i = i + 1;
    }
    acc
}

} // verus!
