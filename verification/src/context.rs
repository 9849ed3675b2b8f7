//! The modulus-chain context: an immutable description of a polynomial
//! ring, validated once at construction and shared read-only afterwards.
//!
//! Construction certifies, by runtime checks whose outcomes are carried in
//! `wf`, everything later proofs rely on: primality and range of each
//! modulus, pairwise modular inverses (hence coprimality), recombination
//! constants for the chain, and one invertible transform per modulus.

use vstd::prelude::*;
use crate::arith::{check_pow2, is_pow2, mul_mod, pow_m, pow_mod, prod, lemma_prod_prefix_step};
use crate::arith::lemma_prod_pos;
use vstd::arithmetic::power::pow;
use crate::bigint::{
    big_add,
    big_clone,
    big_div,
    big_from_u64,
    big_mul,
    big_rem,
    big_rem_u64,
    big_val,
};
use crate::crt::{
    combine_partial,
    coprime_wit,
    garner_wf,
    is_residue_vector,
    lemma_combine_mod,
    pairwise_coprime_cert,
    unit_mod,
};
use crate::error::Error;
use crate::transform::{
    admits_transform,
    bwd_table_spec,
    canonical_psi,
    cand_psi,
    fwd_table_spec,
    lemma_generator_found,
    lemma_generator_missing,
    psi_invertible,
    table,
    TransformOp,
};
use std::rc::Rc;
use vstd::arithmetic::div_mod::{
    lemma_fundamental_div_mod,
    lemma_mod_bound,
    lemma_mod_mod,
    lemma_mul_mod_noop_right,
    lemma_small_mod,
};

verus! {

/// `n` has no divisor strictly between 1 and itself.
pub open spec fn is_prime(n: nat) -> bool {
    n >= 2 && forall|d: nat| 1 < d < n ==> #[trigger] (n % d) != 0
}

/// Relies on `num_prime::nt_funcs::is_prime64`, a primality test that its
/// documentation states is deterministic over the whole `u64` range.
#[verifier::external_body]
fn check_prime_u64(n: u64) -> (r: bool)
    ensures
        r == is_prime(n as nat),
{
    num_prime::nt_funcs::is_prime64(n)
}

/// A usable modulus: an odd prime, small enough that products of two
/// residues stay below the word-pair limit used by the arithmetic layer.
pub open spec fn modulus_ok(q: u64) -> bool {
    &&& 2 < q
    &&& q < 0x8000_0000_0000_0000
    &&& q % 2 == 1
    &&& is_prime(q as nat)
}

/// The values behind a vector of recombination constants.
pub open spec fn garner_vals(g: Seq<num_bigint::BigUint>) -> Seq<nat> {
    g.map_values(|b: num_bigint::BigUint| big_val(b))
}

/// The Fermat-style inverse candidate for `qa` modulo `qb` passes its
/// check: `qa` is certified invertible modulo `qb`.
pub open spec fn fermat_pair_ok(qa: u64, qb: u64) -> bool {
    (pow_m((qa % qb) as nat, (qb - 2) as nat, qb as nat) * ((qa % qb) as nat)) % (qb as nat) == 1
}

/// Every earlier modulus is certified invertible modulo every later one.
pub open spec fn fermat_chain_ok(q: Seq<u64>) -> bool {
    forall|i: int, j: int| 0 <= i < j < q.len() ==> #[trigger] fermat_pair_ok(q[i], q[j])
}

/// The chain's product is divisible by each of its moduli.
pub open spec fn chain_div_ok(q: Seq<u64>) -> bool {
    forall|i: int| 0 <= i < q.len() ==> #[trigger] (prod(q) % (q[i] as nat)) == 0
}

/// The recombination constant that construction computes for position
/// `i`: a function of the chain alone.
pub open spec fn garner_candidate(q: Seq<u64>, i: int) -> nat {
    let qi = q[i] as nat;
    let qq = prod(q) / qi;
    qq * pow_m(qq % qi, (qi - 2) as nat, qi)
}

/// Every computed recombination constant passes its residue checks.
pub open spec fn garner_chain_ok(q: Seq<u64>) -> bool {
    forall|i: int, j: int|
        0 <= i < q.len() && 0 <= j < q.len() ==> #[trigger] (garner_candidate(q, i) % (
        q[j] as nat)) == (
        if i == j {
            1nat
        } else {
            0nat
        })
}

/// Exactly when construction fails: a deterministic function of the
/// requested parameters, every runtime certificate being computed through
/// exact modular exponentiation.
pub open spec fn context_rejected(q: Seq<u64>, degree: usize) -> bool {
    ||| q.len() == 0
    ||| !(1 <= degree <= 0x10_0000)
    ||| !is_pow2(degree as nat)
    ||| exists|i: int| 0 <= i < q.len() && !modulus_ok(#[trigger] q[i])
    ||| !fermat_chain_ok(q)
    ||| !chain_div_ok(q)
    ||| !garner_chain_ok(q)
    ||| exists|i: int| 0 <= i < q.len() && !admits_transform(#[trigger] q[i], degree as nat)
}

/// A polynomial ring: its degree, its ordered modulus chain, one transform
/// operator per modulus, and precomputed recombination data.
pub struct Context {
    pub q: Vec<u64>,
    pub degree: usize,
    pub ops: Vec<TransformOp>,
    pub garner: Vec<num_bigint::BigUint>,
    pub big_q: num_bigint::BigUint,
}

impl Context {
    pub open spec fn wf(self) -> bool {
        &&& self.q@.len() >= 1
        &&& 1 <= self.degree <= 0x10_0000
        &&& is_pow2(self.degree as nat)
        &&& forall|i: int| 0 <= i < self.q@.len() ==> modulus_ok(#[trigger] self.q@[i])
        &&& pairwise_coprime_cert(self.q@)
        &&& big_val(self.big_q) == prod(self.q@)
        &&& forall|i: int|
            0 <= i < self.q@.len() ==> #[trigger] (prod(self.q@) % (self.q@[i] as nat)) == 0
        &&& garner_wf(garner_vals(self.garner@), self.q@)
        &&& self.ops@.len() == self.q@.len()
        &&& forall|i: int|
            0 <= i < self.q@.len() ==> (#[trigger] self.ops@[i]).wf() && self.ops@[i].q
                == self.q@[i] && self.ops@[i].n == self.degree && table(self.ops@[i].fwd@)
                == fwd_table_spec(
                self.q@[i],
                self.degree as nat,
                canonical_psi(self.q@[i], self.degree as nat),
            ) && table(self.ops@[i].bwd@) == bwd_table_spec(
                self.q@[i],
                self.degree as nat,
                canonical_psi(self.q@[i], self.degree as nat),
            )
    }

    /// The product of the modulus chain.
    pub fn modulus(&self) -> (r: num_bigint::BigUint)
        requires
            self.wf(),
        ensures
            big_val(r) == prod(self.q@),
    {
        big_clone(&self.big_q)
    }

    /// Recombines one residue column into the integer it represents
    /// across this chain.
    pub fn reconstruct(&self, col: &Vec<u64>) -> (r: num_bigint::BigUint)
        requires
            self.wf(),
            col@.len() == self.q@.len(),
            forall|i: int| 0 <= i < col@.len() ==> col@[i] < self.q@[i],
        ensures
            is_residue_vector(big_val(r), col@, self.q@),
    {
        let ghost qv = self.q@;
        let ghost gv = garner_vals(self.garner@);
        proof {
            assert(forall|x: int|
                0 <= x < self.garner@.len() ==> #[trigger] garner_vals(self.garner@)[x]
                    == big_val(self.garner@[x]));
            lemma_prod_pos(qv);
        }
        let mut acc = big_from_u64(0);
        let mut i: usize = 0;
        while i < col.len()
            invariant
                self.wf(),
                col@.len() == self.q@.len(),
                gv == garner_vals(self.garner@),
                forall|x: int|
                    0 <= x < self.garner@.len() ==> #[trigger] garner_vals(self.garner@)[x]
                        == big_val(self.garner@[x]),
                i <= col@.len(),
                big_val(acc) == combine_partial(col@, gv, i as int),
            decreases col@.len() - i,
        {
            proof {
                assert(garner_vals(self.garner@)[i as int] == big_val(self.garner@[i as int]));
            }
            let t = big_mul(&self.garner[i], &big_from_u64(col[i]));
            acc = big_add(&acc, &t);
            proof {
                assert(big_val(t) == big_val(self.garner@[i as int]) * (col@[i as int] as nat));
                assert(big_val(acc) == combine_partial(col@, gv, i as int) + big_val(t));
                assert((col@[i as int] as nat) * gv[i as int] == big_val(
                    self.garner@[i as int],
                ) * (col@[i as int] as nat)) by (nonlinear_arith)
                    requires
                        gv[i as int] == big_val(self.garner@[i as int]),
                ;
                assert(combine_partial(col@, gv, i as int + 1) == combine_partial(
                    col@,
                    gv,
                    i as int,
                ) + (col@[i as int] as nat) * gv[i as int]);
                assert(big_val(acc) == combine_partial(col@, gv, i as int + 1));
            }
            i = i + 1;
        }
        let x = big_rem(&acc, &self.big_q);
        let ghost bigq = prod(qv);
        let ghost s = combine_partial(col@, gv, qv.len() as int);
        let ghost xv = big_val(x);
        proof {
            lemma_mod_bound(s as int, bigq as int);
            assert forall|j: int| 0 <= j < qv.len() implies col@[j] as nat == xv % (
                qv[j] as nat) by {
                let qj = qv[j] as nat;
                assert(modulus_ok(self.q@[j]));
                lemma_combine_mod(col@, gv, qv, qv.len() as int, j);
                lemma_fundamental_div_mod(bigq as int, qj as int);
                assert(bigq == qj * (bigq / qj));
                if bigq / qj == 0 {
                    assert(qj * (bigq / qj) == 0);
                }
                lemma_mod_mod(s as int, qj as int, (bigq / qj) as int);
                lemma_small_mod(col@[j] as nat, qj);
            }
            assert(is_residue_vector(xv, col@, qv));
        }
        x
    }

    /// Structural context equality: same modulus sequence (order matters)
    /// and same degree.
    pub fn eq_context(&self, other: &Context) -> (r: bool)
        ensures
            r == (self.q@ == other.q@ && self.degree == other.degree),
    {
        if self.degree != other.degree {
            return false;
        }
        if self.q.len() != other.q.len() {
            proof {
                assert(self.q@.len() != other.q@.len());
            }
            return false;
        }
        let mut i: usize = 0;
        while i < self.q.len()
            invariant
                i <= self.q@.len(),
                self.q@.len() == other.q@.len(),
                forall|a: int| 0 <= a < i ==> self.q@[a] == other.q@[a],
            decreases self.q@.len() - i,
        {
            if self.q[i] != other.q[i] {
                return false;
            }
            i = i + 1;
        }
        proof {
            assert(self.q@ =~= other.q@);
        }
        true
    }

    /// Validates the parameters and builds the ring description.
    ///
    /// Fails when the degree is not a power of two in range, when a
    /// modulus is not an odd prime in range, or when no transform with a
    /// certified inverse can be found for some modulus.
    pub fn new(moduli: &Vec<u64>, degree: usize) -> (r: Result<Context, Error>)
        ensures
            r matches Ok(c) ==> c.wf() && c.q@ == moduli@ && c.degree == degree,
            (r is Err) == context_rejected(moduli@, degree),
            r matches Err(e) ==> e == Error::ParameterError,
    {
        if moduli.len() == 0 {
            return Err(Error::ParameterError);
        }
        if degree < 1 || degree > 0x10_0000 || !check_pow2(degree) {
            return Err(Error::ParameterError);
        }
        let k = moduli.len();
        // Each modulus is an odd prime in range.
        let mut i: usize = 0;
        while i < k
            invariant
                k == moduli@.len(),
                i <= k,
                forall|a: int| 0 <= a < i ==> modulus_ok(#[trigger] moduli@[a]),
            decreases k - i,
        {
            let q = moduli[i];
            if q <= 2 || q >= 0x8000_0000_0000_0000 || q % 2 == 0 || !check_prime_u64(q) {
                proof {
                    assert(!modulus_ok(moduli@[i as int]));
                    assert(context_rejected(moduli@, degree));
                }
                return Err(Error::ParameterError);
            }
            i = i + 1;
        }
        // Certify pairwise coprimality by exhibiting modular inverses.
        let mut a: usize = 0;
        while a < k
            invariant
                k == moduli@.len(),
                a <= k,
                forall|x: int| 0 <= x < k ==> modulus_ok(#[trigger] moduli@[x]),
                forall|x: int, y: int|
                    0 <= x < y < k && x < a ==> coprime_wit(moduli@[x] as nat, moduli@[y] as nat),
                forall|x: int, y: int|
                    0 <= x < y < k && x < a ==> #[trigger] fermat_pair_ok(moduli@[x], moduli@[y]),
            decreases k - a,
        {
            let mut b: usize = a + 1;
            while b < k
                invariant
                    k == moduli@.len(),
                    a < k,
                    a < b,
                    b <= k,
                    forall|x: int| 0 <= x < k ==> modulus_ok(#[trigger] moduli@[x]),
                    forall|x: int, y: int|
                        0 <= x < y < k && x < a ==> coprime_wit(
                            moduli@[x] as nat,
                            moduli@[y] as nat,
                        ),
                    forall|x: int, y: int|
                        0 <= x < y < k && x < a ==> #[trigger] fermat_pair_ok(
                            moduli@[x],
                            moduli@[y],
                        ),
                    forall|y: int|
                        a < y < b ==> coprime_wit(moduli@[a as int] as nat, moduli@[y] as nat),
                    forall|y: int|
                        a < y < b ==> #[trigger] fermat_pair_ok(moduli@[a as int], moduli@[y]),
                decreases k - b,
            {
                let qa = moduli[a];
                let qb = moduli[b];
                let red = qa % qb;
                let cand = pow_mod(red, qb - 2, qb);
                let t = mul_mod(cand, red, qb);
                proof {
                    assert(t as nat == (pow_m((qa % qb) as nat, (qb - 2) as nat, qb as nat) * ((qa
                        % qb) as nat)) % (qb as nat));
                }
                if t != 1 {
                    proof {
                        assert(!fermat_pair_ok(moduli@[a as int], moduli@[b as int]));
                        assert(!fermat_chain_ok(moduli@));
                        assert(context_rejected(moduli@, degree));
                    }
                    return Err(Error::ParameterError);
                }
                proof {
                    assert(fermat_pair_ok(moduli@[a as int], moduli@[b as int]));
                    lemma_mul_mod_noop_right(cand as int, qa as int, qb as int);
                    assert((cand as nat * qa as nat) % (qb as nat) == 1);
                    assert(unit_mod(cand as nat, qa as nat, qb as nat));
                }
                b = b + 1;
            }
            a = a + 1;
        }
        // The product of the chain.
        let mut big_q = big_from_u64(1);
        let mut i2: usize = 0;
        proof {
            assert(prod(moduli@.subrange(0, 0)) == 1);
        }
        while i2 < k
            invariant
                k == moduli@.len(),
                i2 <= k,
                big_val(big_q) == prod(moduli@.subrange(0, i2 as int)),
            decreases k - i2,
        {
            proof {
                lemma_prod_prefix_step(moduli@, i2 as int + 1);
            }
            big_q = big_mul(&big_q, &big_from_u64(moduli[i2]));
            i2 = i2 + 1;
        }
        proof {
            assert(moduli@.subrange(0, k as int) =~= moduli@);
        }
        // The product is divisible by each modulus (checked, not derived).
        let mut i3: usize = 0;
        while i3 < k
            invariant
                k == moduli@.len(),
                i3 <= k,
                big_val(big_q) == prod(moduli@),
                forall|x: int| 0 <= x < k ==> modulus_ok(#[trigger] moduli@[x]),
                forall|x: int|
                    0 <= x < i3 ==> #[trigger] (prod(moduli@) % (moduli@[x] as nat)) == 0,
            decreases k - i3,
        {
            if big_rem_u64(&big_q, moduli[i3]) != 0 {
                proof {
                    assert(prod(moduli@) % (moduli@[i3 as int] as nat) != 0);
                    assert(!chain_div_ok(moduli@));
                    assert(context_rejected(moduli@, degree));
                }
                return Err(Error::ParameterError);
            }
            i3 = i3 + 1;
        }
        // Recombination constants, each checked against every modulus.
        let mut garner: Vec<num_bigint::BigUint> = Vec::new();
        let mut i4: usize = 0;
        while i4 < k
            invariant
                k == moduli@.len(),
                i4 <= k,
                big_val(big_q) == prod(moduli@),
                forall|x: int| 0 <= x < k ==> modulus_ok(#[trigger] moduli@[x]),
                garner@.len() == i4 as int,
                forall|x: int|
                    0 <= x < i4 ==> big_val(#[trigger] garner@[x]) == garner_candidate(
                        moduli@,
                        x,
                    ),
                forall|x: int, y: int|
                    0 <= x < i4 && 0 <= y < k ==> #[trigger] (big_val(garner@[x]) % (
                    moduli@[y] as nat)) == (
                    if x == y {
                        1nat
                    } else {
                        0nat
                    }),
            decreases k - i4,
        {
            let qi = moduli[i4];
            let qq = big_div(&big_q, &big_from_u64(qi));
            let base = big_rem_u64(&qq, qi);
            let inv = pow_mod(base, qi - 2, qi);
            let g = big_mul(&qq, &big_from_u64(inv));
            proof {
                assert(big_val(g) == garner_candidate(moduli@, i4 as int));
            }
            let mut j: usize = 0;
            while j < k
                invariant
                    k == moduli@.len(),
                    i4 < k,
                    j <= k,
                    forall|x: int| 0 <= x < k ==> modulus_ok(#[trigger] moduli@[x]),
                    big_val(g) == garner_candidate(moduli@, i4 as int),
                    forall|y: int|
                        0 <= y < j ==> #[trigger] (big_val(g) % (moduli@[y] as nat)) == (
                        if i4 as int == y {
                            1nat
                        } else {
                            0nat
                        }),
                decreases k - j,
            {
                let want: u64 = if j == i4 {
                    1
                } else {
                    0
                };
                if big_rem_u64(&g, moduli[j]) != want {
                    proof {
                        assert(garner_candidate(moduli@, i4 as int) % (moduli@[j as int] as nat)
                            != (
                        if i4 as int == j as int {
                            1nat
                        } else {
                            0nat
                        }));
                        assert(!garner_chain_ok(moduli@));
                        assert(context_rejected(moduli@, degree));
                    }
                    return Err(Error::ParameterError);
                }
                j = j + 1;
            }
            garner.push(g);
            i4 = i4 + 1;
        }
        proof {
            assert(forall|x: int|
                0 <= x < garner@.len() ==> #[trigger] garner_vals(garner@)[x] == big_val(
                    garner@[x],
                ));
            assert(garner_wf(garner_vals(garner@), moduli@));
        }
        // One certified transform per modulus.
        let mut ops: Vec<TransformOp> = Vec::new();
        let mut i5: usize = 0;
        while i5 < k
            invariant
                k == moduli@.len(),
                i5 <= k,
                1 <= degree <= 0x10_0000,
                forall|x: int| 0 <= x < k ==> modulus_ok(#[trigger] moduli@[x]),
                ops@.len() == i5 as int,
                forall|x: int|
                    0 <= x < i5 ==> (#[trigger] ops@[x]).wf() && ops@[x].q == moduli@[x]
                        && ops@[x].n == degree && table(ops@[x].fwd@) == fwd_table_spec(
                        moduli@[x],
                        degree as nat,
                        canonical_psi(moduli@[x], degree as nat),
                    ) && table(ops@[x].bwd@) == bwd_table_spec(
                        moduli@[x],
                        degree as nat,
                        canonical_psi(moduli@[x], degree as nat),
                    ),
                forall|x: int|
                    0 <= x < i5 ==> admits_transform(#[trigger] moduli@[x], degree as nat),
            decreases k - i5,
        {
            let op_found = find_transform(moduli[i5], degree);
            match op_found {
                Some(op) => {
                    ops.push(op);
                },
                None => {
                    proof {
                        assert(!admits_transform(moduli@[i5 as int], degree as nat));
                        assert(context_rejected(moduli@, degree));
                    }
                    return Err(Error::ParameterError);
                },
            }
            i5 = i5 + 1;
        }
        proof {
            assert(!(exists|x: int| 0 <= x < moduli@.len() && !modulus_ok(#[trigger] moduli@[x])));
            assert(fermat_chain_ok(moduli@));
            assert(chain_div_ok(moduli@));
            assert forall|x: int, y: int|
                0 <= x < moduli@.len() && 0 <= y < moduli@.len() implies #[trigger] (
            garner_candidate(moduli@, x) % (moduli@[y] as nat)) == (
            if x == y {
                1nat
            } else {
                0nat
            }) by {
                assert(big_val(garner@[x]) == garner_candidate(moduli@, x));
                assert(big_val(garner@[x]) % (moduli@[y] as nat) == (
                if x == y {
                    1nat
                } else {
                    0nat
                }));
            }
            assert(garner_chain_ok(moduli@));
            assert(!(exists|x: int|
                0 <= x < moduli@.len() && !admits_transform(#[trigger] moduli@[x], degree as nat)));
            assert(!context_rejected(moduli@, degree));
        }
        Ok(Context { q: crate::arith::copy_vec_u64(moduli), degree, ops, garner, big_q })
    }
}

/// Relies on `Rc::clone`: the new handle refers to the same context.
#[verifier::external_body]
pub fn clone_context_handle(c: &Rc<Context>) -> (r: Rc<Context>)
    ensures
        r == *c,
{
    c.clone()
}

/// Searches the fixed range of generator candidates in order for a
/// transform whose inverse certifies: succeeds exactly when the modulus
/// admits one, and then returns the canonical operator of
/// `(modulus, degree)`.
fn find_transform(q: u64, degree: usize) -> (r: Option<TransformOp>)
    requires
        2 < q,
        1 <= degree <= 0x10_0000,
    ensures
        (r is Some) == admits_transform(q, degree as nat),
        r matches Some(op) ==> op.wf() && op.q == q && op.n == degree && table(op.fwd@)
            == fwd_table_spec(q, degree as nat, canonical_psi(q, degree as nat)) && table(op.bwd@)
            == bwd_table_spec(q, degree as nat, canonical_psi(q, degree as nat)),
{
    let e = (q - 1) / (2 * (degree as u64));
    let ghost nn = degree as nat;
    let mut g: u64 = 2;
    while g < 202
        invariant
            2 < q,
            1 <= degree <= 0x10_0000,
            nn == degree as nat,
            e == (q - 1) / (2 * (degree as u64)),
            2 <= g <= 202,
            forall|h: int|
                2 <= h < g ==> !psi_invertible(q, nn, #[trigger] cand_psi(q, nn, h as u64)),
        decreases 202 - g,
    {
        let psi = pow_mod(g, e, q);
        proof {
            lemma_mod_bound(pow(g as int, e as nat), q as int);
            assert(e as nat == ((q - 1) as nat) / (2 * nn));
            assert(psi == cand_psi(q, nn, g));
        }
        let cand = TransformOp::new(q, degree, psi);
        match cand {
            Some(op) => {
                proof {
                    lemma_generator_found(q, nn, 2, g as int);
                    assert(canonical_psi(q, nn) == psi);
                }
                return Some(op);
            },
            None => {
                proof {
                    assert(!psi_invertible(q, nn, cand_psi(q, nn, g)));
                }
            },
        }
        g = g + 1;
    }
    proof {
        lemma_generator_missing(q, nn, 2);
    }
    None
}

} // verus!
