//! Remaining uncertainty of a domain, in fixed point: the Shannon entropy of its
//! normalised weights, with a piecewise-linear binary logarithm.

use vstd::prelude::*;
use crate::domain::{LabelDomain, weight, lemma_weight_bound};

verus! {

/// One unit of the fixed-point scale.
pub const SCALE: u128 = 65536;

/// `2` raised to `k`.
pub open spec fn two_to(k: nat) -> nat
    decreases k,
{
    if k == 0 {
        1
    } else {
        2 * two_to((k - 1) as nat)
    }
}

/// The integer part of the binary logarithm of `x` (zero below two).
pub open spec fn log2_floor(x: nat) -> nat
    decreases x,
{
    if x < 2 {
        0
    } else {
        1 + log2_floor(x / 2)
    }
}

/// Binary logarithm in fixed point, linear between consecutive powers of two:
/// `k` plus the position of `x` between `2^k` and `2^(k+1)`, in units of `1/SCALE`.
pub open spec fn lg(x: nat) -> nat {
    if x == 0 {
        0
    } else {
        let k = log2_floor(x);
        let p = two_to(k);
        k * (SCALE as nat) + ((x - p) as nat * (SCALE as nat)) / p
    }
}

/// Sum over the labels of `w * lg(w)`.
pub open spec fn weighted_lg(a: Seq<u32>) -> nat
    decreases a.len(),
{
    if a.len() == 0 {
        0
    } else {
        weighted_lg(a.drop_last()) + a.last() as nat * lg(a.last() as nat)
    }
}

/// Entropy of the normalised weights of `a` in units of `1/SCALE` bit:
/// `(S * lg(S) - sum of w * lg(w)) / S` where `S` is the total weight; zero for an
/// empty domain. A lower value means a more constrained vertex.
pub open spec fn entropy_key(a: Seq<u32>) -> nat {
    let s = weight(a);
    if s == 0 {
        0
    } else {
        let e = s * lg(s);
        let m = weighted_lg(a);
        (if e >= m { (e - m) as nat } else { 0nat }) / s
    }
}

proof fn lemma_two_to_pos(k: nat)
    ensures
        two_to(k) >= 1,
    decreases k,
{
    if k > 0 {
        lemma_two_to_pos((k - 1) as nat);
    }
}

proof fn lemma_two_to_add(a: nat, b: nat)
    ensures
        two_to(a + b) == two_to(a) * two_to(b),
    decreases a,
{
    if a > 0 {
        let a1 = (a - 1) as nat;
        lemma_two_to_add(a1, b);
        assert(two_to(a1 + b + 1) == 2 * two_to(a1 + b));
        assert(a + b == a1 + b + 1);
        assert(two_to(a) == 2 * two_to(a1));
        let x = two_to(a1);
        let y = two_to(b);
        assert(2 * (x * y) == (2 * x) * y) by (nonlinear_arith);
    } else {
        assert(two_to(a) == 1);
        assert(a + b == b);
    }
}

proof fn lemma_two_to_consts()
    ensures
        two_to(16) == 0x1_0000,
        two_to(32) == 0x1_0000_0000,
        two_to(96) == 0x1_0000_0000_0000_0000_0000_0000,
{
    reveal_with_fuel(two_to, 17);
    lemma_two_to_add(16, 16);
    assert(two_to(32) == 0x1_0000_0000);
    lemma_two_to_add(32, 32);
    assert(two_to(64) == 0x1_0000_0000_0000_0000);
    lemma_two_to_add(64, 32);
    assert(two_to(96) == two_to(64) * two_to(32));
}

/// `x` lies between `2^k` and `2^(k+1)` for `k = log2_floor(x)`.
proof fn lemma_log2_range(x: nat)
    requires
        x >= 1,
    ensures
        two_to(log2_floor(x)) <= x < 2 * two_to(log2_floor(x)),
    decreases x,
{
    if x >= 2 {
        lemma_log2_range(x / 2);
    }
}

/// Below `2^n`, the integer logarithm is below `n`.
proof fn lemma_log2_below(x: nat, n: nat)
    requires
        1 <= x < two_to(n),
    ensures
        log2_floor(x) < n,
    decreases x,
{
    if x >= 2 {
        if n == 0 {
        } else {
            lemma_log2_below(x / 2, (n - 1) as nat);
        }
    }
}

/// Below `2^n`, the fixed-point logarithm is below `n` units.
proof fn lemma_lg_below(x: nat, n: nat)
    requires
        1 <= x < two_to(n),
    ensures
        lg(x) < n * (SCALE as nat),
{
    let k = log2_floor(x);
    let p = two_to(k);
    lemma_log2_range(x);
    lemma_log2_below(x, n);
    let q = (x - p) as nat;
    assert(q < p);
    let num = q * 65536;
    assert(num == (x - p) as nat * (SCALE as nat));
    let f = num / p;
    vstd::arithmetic::div_mod::lemma_fundamental_div_mod(num as int, p as int);
    assert(num < p * 65536) by (nonlinear_arith)
        requires
            num == q * 65536,
            q < p,
    ;
    assert(f < SCALE as nat) by (nonlinear_arith)
        requires
            p * f + num % p == num,
            num % p >= 0,
            num < p * 65536,
            SCALE as nat == 65536,
            p >= 1,
            f >= 0,
    ;
    assert(k * (SCALE as nat) + f < n * (SCALE as nat)) by (nonlinear_arith)
        requires
            k < n,
            f < SCALE as nat,
    ;
}

/// The fixed-point binary logarithm of `x`.
pub fn log2_fixed(x: u128) -> (r: u128)
    requires
        x < 0x1_0000_0000_0000_0000_0000_0000,
    ensures
        r == lg(x as nat),
{
    if x == 0 {
        return 0;
    }
    proof {
        lemma_two_to_consts();
        lemma_log2_range(x as nat);
        lemma_log2_below(x as nat, 96);
    }
    let mut k: u128 = 0;
    let mut p: u128 = 1;
    let mut y: u128 = x;
    while y >= 2
        invariant
            1 <= y,
            log2_floor(x as nat) == k + log2_floor(y as nat),
            p == two_to(k as nat),
            p >= 1,
            p * y <= x,
            x < p * (y + 1),
            x < 0x1_0000_0000_0000_0000_0000_0000,
            log2_floor(x as nat) < 96,
        decreases y,
    {
        assert(p * 2 <= x) by (nonlinear_arith)
            requires
                p * y <= x,
                y >= 2,
                p >= 0,
        ;
        assert(p * 2 * (y / 2) <= x && x < p * 2 * (y / 2 + 1)) by (nonlinear_arith)
            requires
                p * y <= x,
                x < p * (y + 1),
                y >= 2,
                p >= 1,
        ;
        k = k + 1;
        p = p * 2;
        y = y / 2;
    }
    assert(y == 1);
    let frac = ((x - p) * SCALE) / p;
    k * SCALE + frac
}

proof fn lemma_weighted_lg_bound(a: Seq<u32>)
    ensures
        weighted_lg(a) <= a.len() * 0x40_0000_0000_0000,
    decreases a.len(),
{
    if a.len() > 0 {
        lemma_weighted_lg_bound(a.drop_last());
        let w = a.last() as nat;
        if w >= 1 {
            lemma_two_to_consts();
            lemma_lg_below(w, 32);
        }
        assert(w * lg(w) <= 0x40_0000_0000_0000) by (nonlinear_arith)
            requires
                w <= 0xffff_ffff,
                w >= 1 ==> lg(w) < 32 * 0x1_0000,
                w == 0 ==> lg(w) == 0,
        ;
        assert((a.len() - 1) * 0x40_0000_0000_0000 + 0x40_0000_0000_0000 == a.len()
            * 0x40_0000_0000_0000) by (nonlinear_arith);
    }
}

/// The entropy key of a domain.
pub fn entropy(d: &LabelDomain) -> (r: u128)
    ensures
        r == entropy_key(d@),
{
    let s = d.total_weight();
    let n = d.counts.len();
    if s == 0 {
        return 0;
    }
    proof {
        lemma_weight_bound(d@);
        assert(d@.len() * 0xffff_ffff < 0x1_0000_0000_0000_0000_0000_0000) by (nonlinear_arith)
            requires
                d@.len() <= 0xffff_ffff_ffff_ffff,
        ;
        lemma_two_to_consts();
        lemma_lg_below(s as nat, 96);
    }
    let ls = log2_fixed(s);
    assert(s * ls < 0x80_0000_0000_0000_0000_0000_0000_0000) by (nonlinear_arith)
        requires
            s < 0x1_0000_0000_0000_0000_0000_0000,
            ls < 96 * 0x1_0000,
    ;
    let e = s * ls;
    let mut m: u128 = 0;
    let mut i: usize = 0;
    while i < d.counts.len()
        invariant
            i <= d@.len(),
            d@.len() <= 0xffff_ffff_ffff_ffff,
            m == weighted_lg(d@.subrange(0, i as int)),
        decreases d@.len() - i,
    {
        let ghost p = d@.subrange(0, i as int + 1);
        assert(p.drop_last() =~= d@.subrange(0, i as int));
        proof {
            lemma_weighted_lg_bound(p);
            assert(p.len() * 0x40_0000_0000_0000 <= 0x1_0000_0000_0000_0000 * 0x40_0000_0000_0000)
                by (nonlinear_arith)
                requires
                    p.len() <= 0x1_0000_0000_0000_0000,
            ;
            let w = d@[i as int] as nat;
            if w >= 1 {
                lemma_two_to_consts();
                lemma_lg_below(w, 32);
            }
        }
        let w = d.counts[i] as u128;
        let lw = log2_fixed(w);
        assert(w * lw <= 0x40_0000_0000_0000) by (nonlinear_arith)
            requires
                w <= 0xffff_ffff,
                w >= 1 ==> lw < 32 * 0x1_0000,
                w == 0 ==> lw == 0,
        ;
        m = m + w * lw;
        i = i + 1;
    }
    assert(d@.subrange(0, i as int) =~= d@);
    let diff = if e >= m { e - m } else { 0 };
    diff / s
}

} // verus!
