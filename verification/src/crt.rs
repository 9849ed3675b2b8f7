//! Residue number systems: recombination constants, and uniqueness of the
//! integer that a residue vector represents.
//!
//! The lemmas here are the heart of the library: they let the scaling
//! kernel reason about "the" integer behind a column of residues. The
//! coprimality they need is not assumed from primality of the moduli; it is
//! certified at context construction by exhibited modular inverses.

use vstd::prelude::*;
use vstd::arithmetic::div_mod::*;
use vstd::arithmetic::mul::*;
use crate::arith::{prod, lemma_prod_pos, lemma_prod_prefix_step};

verus! {

/// `a` witnesses that `u` is invertible modulo `m`.
pub open spec fn unit_mod(a: nat, u: nat, m: nat) -> bool {
    (a * u) % m == 1
}

/// `u` has an inverse modulo `m`.
pub open spec fn coprime_wit(u: nat, m: nat) -> bool {
    exists|a: nat| unit_mod(a, u, m)
}

/// Every earlier modulus has an inverse modulo every later one.
pub open spec fn pairwise_coprime_cert(q: Seq<u64>) -> bool {
    forall|i: int, j: int|
        0 <= i < j < q.len() ==> coprime_wit(q[i] as nat, q[j] as nat)
}

/// `x` is the integer that the residue vector `col` represents over `q`.
pub open spec fn is_residue_vector(x: nat, col: Seq<u64>, q: Seq<u64>) -> bool {
    &&& col.len() == q.len()
    &&& x < prod(q)
    &&& forall|i: int| 0 <= i < q.len() ==> col[i] as nat == x % (q[i] as nat)
}

/// A product of units modulo `m` is a unit modulo `m`.
proof fn lemma_prefix_product_unit(q: Seq<u64>, t: int, m: nat)
    requires
        0 <= t <= q.len(),
        m >= 2,
        forall|i: int| 0 <= i < t ==> coprime_wit(q[i] as nat, m),
    ensures
        coprime_wit(prod(q.subrange(0, t)), m),
    decreases t,
{
    if t == 0 {
        assert(q.subrange(0, 0).len() == 0);
        assert(prod(q.subrange(0, 0)) == 1);
        lemma_small_mod(1, m);
        assert(unit_mod(1, 1, m));
    } else {
        lemma_prefix_product_unit(q, t - 1, m);
        let p1 = prod(q.subrange(0, t - 1));
        let u = q[t - 1] as nat;
        let b = choose|b: nat| unit_mod(b, p1, m);
        let a = choose|a: nat| unit_mod(a, u, m);
        lemma_prod_prefix_step(q, t);
        assert(prod(q.subrange(0, t)) == p1 * u);
        assert((b * a) * (p1 * u) == (b * p1) * (a * u)) by (nonlinear_arith);
        lemma_mul_mod_noop_general((b * p1) as int, (a * u) as int, m as int);
        assert(((b * p1) * (a * u)) % (m as nat) == (((b * p1) % m) * ((a * u) % m)) % m);
        lemma_small_mod(1, m);
        assert(((b * a) * (p1 * u)) % m == 1);
        assert(unit_mod(b * a, p1 * u, m));
    }
}

/// A value divisible by each of a family of pairwise-coprime moduli is
/// divisible by their product.
proof fn lemma_prefix_product_divides(q: Seq<u64>, t: int, d: nat)
    requires
        0 <= t <= q.len(),
        pairwise_coprime_cert(q),
        forall|i: int| 0 <= i < q.len() ==> q[i] >= 2,
        forall|i: int| 0 <= i < t ==> d % (q[i] as nat) == 0,
    ensures
        d % prod(q.subrange(0, t)) == 0,
    decreases t,
{
    if t == 0 {
        assert(prod(q.subrange(0, 0)) == 1);
        lemma_mod_self_0(1);
        lemma_mod_multiples_basic(d as int, 1);
        assert(d % 1nat == 0);
    } else {
        lemma_prefix_product_divides(q, t - 1, d);
        let p1 = prod(q.subrange(0, t - 1));
        let qt = q[t - 1] as nat;
        assert(forall|i: int| 0 <= i < t - 1 ==> coprime_wit(q[i] as nat, qt));
        lemma_prefix_product_unit(q, t - 1, qt);
        let b = choose|b: nat| unit_mod(b, p1, qt);
        lemma_prod_pos(q.subrange(0, t - 1));
        // d is a multiple of p1; name the cofactor.
        lemma_fundamental_div_mod(d as int, p1 as int);
        let m0 = d / p1;
        assert(d == p1 * m0);
        // The cofactor is a multiple of qt, through the inverse of p1.
        lemma_mul_mod_noop_right(m0 as int, (b * p1) as int, qt as int);
        assert((m0 * ((b * p1) % qt)) % qt == (m0 * (b * p1)) % qt);
        assert(m0 * 1nat == m0);
        assert(m0 % qt == (m0 * (b * p1)) % qt);
        assert(m0 * (b * p1) == b * (p1 * m0)) by (nonlinear_arith);
        lemma_mul_mod_noop_right(b as int, d as int, qt as int);
        assert((b * (d % qt)) % qt == (b * d) % qt);
        assert(b * 0nat == 0);
        lemma_small_mod(0, qt);
        assert(m0 % qt == 0);
        // So d is a multiple of p1 * qt.
        lemma_fundamental_div_mod(m0 as int, qt as int);
        let m1 = m0 / qt;
        assert(m0 == qt * m1);
        assert(p1 * (qt * m1) == m1 * (p1 * qt)) by (nonlinear_arith);
        assert(p1 * qt >= 1) by (nonlinear_arith)
            requires
                p1 >= 1,
                qt >= 2,
        ;
        lemma_mod_multiples_basic(m1 as int, (p1 * qt) as int);
        lemma_prod_prefix_step(q, t);
        assert(d % prod(q.subrange(0, t)) == 0);
    }
}

/// Uniqueness of Chinese-remainder recombination: two integers below the
/// product of pairwise-coprime moduli with the same residues are equal.
pub proof fn lemma_crt_unique(q: Seq<u64>, x: nat, y: nat)
    requires
        pairwise_coprime_cert(q),
        forall|i: int| 0 <= i < q.len() ==> q[i] >= 2,
        x < prod(q),
        y < prod(q),
        forall|i: int| 0 <= i < q.len() ==> x % (q[i] as nat) == y % (q[i] as nat),
    ensures
        x == y,
{
    let lo = if x <= y { x } else { y };
    let hi = if x <= y { y } else { x };
    let d = (hi - lo) as nat;
    assert forall|i: int| 0 <= i < q.len() implies d % (q[i] as nat) == 0 by {
        let m = q[i] as nat;
        lemma_mod_equivalence(hi as int, lo as int, m as int);
    }
    lemma_prefix_product_divides(q, q.len() as int, d);
    assert(q.subrange(0, q.len() as int) =~= q);
    lemma_small_mod(d, prod(q));
}

/// Recombination constants: `g[i]` is `1` modulo `q[i]` and `0` modulo
/// every other modulus of the chain.
pub open spec fn garner_wf(g: Seq<nat>, q: Seq<u64>) -> bool {
    &&& g.len() == q.len()
    &&& forall|i: int, j: int|
        0 <= i < q.len() && 0 <= j < q.len() ==> #[trigger] (g[i] % (q[j] as nat)) == (
        if i == j {
            1nat
        } else {
            0nat
        })
}

/// Partial recombination sum over the first `t` residues.
pub open spec fn combine_partial(col: Seq<u64>, g: Seq<nat>, t: int) -> nat
    decreases t,
{
    if t <= 0 {
        0
    } else {
        combine_partial(col, g, t - 1) + (col[t - 1] as nat) * g[t - 1]
    }
}

/// The recombination sum has residue `col[j]` modulo `q[j]` once term `j`
/// is included, and residue `0` before.
pub proof fn lemma_combine_mod(col: Seq<u64>, g: Seq<nat>, q: Seq<u64>, t: int, j: int)
    requires
        garner_wf(g, q),
        col.len() == q.len(),
        0 <= t <= q.len(),
        0 <= j < q.len(),
        forall|i: int| 0 <= i < q.len() ==> q[i] >= 2,
        forall|i: int| 0 <= i < q.len() ==> col[i] < q[i],
    ensures
        combine_partial(col, g, t) % (q[j] as nat) == (
        if j < t {
            col[j] as nat
        } else {
            0nat
        }),
    decreases t,
{
    let m = q[j] as nat;
    if t == 0 {
        lemma_small_mod(0, m);
    } else {
        lemma_combine_mod(col, g, q, t - 1, j);
        let s1 = combine_partial(col, g, t - 1);
        let c = col[t - 1] as nat;
        let gt = g[t - 1];
        lemma_add_mod_noop(s1 as int, (c * gt) as int, m as int);
        lemma_mul_mod_noop_right(c as int, gt as int, m as int);
        assert((c * gt) % m == (c * (gt % m)) % m);
        if j == t - 1 {
            assert(gt % m == 1);
            assert(c * 1nat == c);
            lemma_small_mod(c, m);
            assert((s1 % m + (c * gt) % m) % m == (0nat + c) % m);
            lemma_small_mod((0nat + c) as nat, m);
        } else {
            assert(gt % m == 0);
            assert(c * 0nat == 0);
            lemma_small_mod(0, m);
            if j < t - 1 {
                lemma_small_mod(col[j] as nat, m);
                assert((s1 % m + (c * gt) % m) % m == (col[j] as nat + 0nat) % m);
            } else {
                assert((s1 % m + (c * gt) % m) % m == (0nat + 0nat) % m);
            }
        }
    }
}

/// Existence of Chinese-remainder recombination: any in-range residue
/// vector over a chain with recombination constants represents some
/// integer below the chain's product.
pub proof fn lemma_residue_vector_exists(q: Seq<u64>, gv: Seq<nat>, col: Seq<u64>)
    requires
        garner_wf(gv, q),
        forall|i: int| 0 <= i < q.len() ==> q[i] >= 2,
        forall|i: int| 0 <= i < q.len() ==> #[trigger] (prod(q) % (q[i] as nat)) == 0,
        col.len() == q.len(),
        forall|i: int| 0 <= i < col.len() ==> col[i] < q[i],
    ensures
        exists|x: nat| is_residue_vector(x, col, q),
{
    assert forall|i: int| 0 <= i < q.len() implies q[i] >= 1 by {}
    lemma_prod_pos(q);
    let s = combine_partial(col, gv, q.len() as int);
    let bigq = prod(q);
    let x = s % bigq;
    lemma_mod_bound(s as int, bigq as int);
    assert forall|j: int| 0 <= j < q.len() implies col[j] as nat == x % (q[j] as nat) by {
        let qj = q[j] as nat;
        lemma_combine_mod(col, gv, q, q.len() as int, j);
        lemma_fundamental_div_mod(bigq as int, qj as int);
        assert(bigq == qj * (bigq / qj));
        if bigq / qj == 0 {
            assert(qj * (bigq / qj) == 0);
        }
        lemma_mod_mod(s as int, qj as int, (bigq / qj) as int);
        lemma_small_mod(col[j] as nat, qj);
    }
    assert(is_residue_vector(x, col, q));
}

} // verus!
