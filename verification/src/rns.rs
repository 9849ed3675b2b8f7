//! The RNS scaling kernel: from the residues of an integer across a source
//! modulus chain, the residues of the correctly rounded scaled value
//! across a destination chain, under centered (signed) semantics.

use vstd::prelude::*;
use vstd::arithmetic::div_mod::{
    lemma_fundamental_div_mod,
    lemma_mod_bound,
    lemma_mod_mod,
    lemma_mod_self_0,
    lemma_small_mod,
};
use crate::arith::{copy_vec_u64, prod, lemma_prod_pos};
use crate::bigint::{
    big_add,
    big_clone,
    big_div,
    big_eq,
    big_from_u64,
    big_le,
    big_mul,
    big_rem,
    big_rem_u64,
    big_sub,
    big_val,
};
use crate::context::{garner_vals, Context};
use crate::crt::{
    combine_partial,
    garner_wf,
    is_residue_vector,
    lemma_combine_mod,
    lemma_crt_unique,
    pairwise_coprime_cert,
};

verus! {

/// An exact non-negative rational scaling factor.
pub struct ScalingFactor {
    pub numerator: num_bigint::BigUint,
    pub denominator: num_bigint::BigUint,
    pub is_one: bool,
}

impl ScalingFactor {
    pub open spec fn wf(self) -> bool {
        &&& big_val(self.denominator) >= 1
        &&& self.is_one == (big_val(self.numerator) == big_val(self.denominator))
    }

    pub open spec fn n_val(self) -> nat {
        big_val(self.numerator)
    }

    pub open spec fn d_val(self) -> nat {
        big_val(self.denominator)
    }

    /// An exact ratio; the denominator must be positive.
    pub fn new(numerator: &num_bigint::BigUint, denominator: &num_bigint::BigUint) -> (r:
        ScalingFactor)
        requires
            big_val(*denominator) >= 1,
        ensures
            r.wf(),
            r.n_val() == big_val(*numerator),
            r.d_val() == big_val(*denominator),
    {
        let n = big_clone(numerator);
        let d = big_clone(denominator);
        let one = big_eq(&n, &d);
        ScalingFactor { numerator: n, denominator: d, is_one: one }
    }

    /// The identity factor `1/1`.
    pub fn one() -> (r: ScalingFactor)
        ensures
            r.wf(),
            r.n_val() == 1,
            r.d_val() == 1,
            r.is_one,
    {
        let n = big_from_u64(1);
        let d = big_from_u64(1);
        let one = big_eq(&n, &d);
        ScalingFactor { numerator: n, denominator: d, is_one: one }
    }
}

/// `x * n / d` rounded for a non-negative centered value: floor, or
/// nearest with ties rounded up.
pub open spec fn rounded_pos(x: nat, n: nat, d: nat, floor_mode: bool) -> nat {
    if floor_mode {
        (x * n) / d
    } else {
        (2 * (x * n) + d) / (2 * d)
    }
}

/// `m * n / d` rounded for the magnitude of a negative centered value:
/// ceiling (so that the negated value is the floor), or nearest with ties
/// rounded away from zero.
pub open spec fn rounded_neg(m: nat, n: nat, d: nat, floor_mode: bool) -> nat {
    if floor_mode {
        ((m * n + d - 1) as nat) / d
    } else {
        (2 * (m * n) + d) / (2 * d)
    }
}

/// The destination residue modulo `p` of the scaled value of `x`, where
/// `x` is a centered residue modulo `q`: values at or above `q / 2` stand
/// for `x - q` and are scaled as negatives, the sign returning through the
/// modulus.
pub open spec fn scaled_residue(x: nat, q: nat, n: nat, d: nat, floor_mode: bool, p: u64) -> nat {
    if x >= q / 2 {
        let v = rounded_neg((q - x) as nat, n, d, floor_mode);
        (((p as nat) - (v % (p as nat))) as nat) % (p as nat)
    } else {
        rounded_pos(x, n, d, floor_mode) % (p as nat)
    }
}

/// Immutable precomputed state for rescaling residue columns from a
/// source chain `q` to a destination chain `p`.
pub struct RnsScaler {
    pub q: Vec<u64>,
    pub p: Vec<u64>,
    pub garner: Vec<num_bigint::BigUint>,
    pub big_q: num_bigint::BigUint,
    pub half_q: num_bigint::BigUint,
    pub factor: ScalingFactor,
}

impl RnsScaler {
    pub open spec fn wf(self) -> bool {
        &&& self.q@.len() >= 1
        &&& forall|i: int| 0 <= i < self.q@.len() ==> #[trigger] self.q@[i] >= 2
        &&& forall|i: int| 0 <= i < self.p@.len() ==> #[trigger] self.p@[i] >= 2
        &&& pairwise_coprime_cert(self.q@)
        &&& big_val(self.big_q) == prod(self.q@)
        &&& big_val(self.half_q) == prod(self.q@) / 2
        &&& forall|i: int|
            0 <= i < self.q@.len() ==> #[trigger] (prod(self.q@) % (self.q@[i] as nat)) == 0
        &&& garner_wf(garner_vals(self.garner@), self.q@)
        &&& self.factor.wf()
    }

    /// Pure precomputation from two validated contexts; never fails.
    pub fn new(from: &Context, to: &Context, factor: ScalingFactor) -> (r: RnsScaler)
        requires
            from.wf(),
            to.wf(),
            factor.wf(),
        ensures
            r.wf(),
            r.q@ == from.q@,
            r.p@ == to.q@,
            r.factor.n_val() == factor.n_val(),
            r.factor.d_val() == factor.d_val(),
            r.factor.is_one == factor.is_one,
    {
        let q = copy_vec_u64(&from.q);
        let p = copy_vec_u64(&to.q);
        let big_q = big_clone(&from.big_q);
        let half_q = big_div(&big_q, &big_from_u64(2));
        let mut garner: Vec<num_bigint::BigUint> = Vec::new();
        let mut i: usize = 0;
        proof {
            assert(forall|x: int|
                0 <= x < from.garner@.len() ==> #[trigger] garner_vals(from.garner@)[x]
                    == big_val(from.garner@[x]));
        }
        while i < from.garner.len()
            invariant
                i <= from.garner@.len(),
                garner@.len() == i as int,
                forall|x: int|
                    0 <= x < i ==> #[trigger] big_val(garner@[x]) == big_val(from.garner@[x]),
            decreases from.garner@.len() - i,
        {
            garner.push(big_clone(&from.garner[i]));
            i = i + 1;
        }
        proof {
            assert(forall|x: int|
                0 <= x < garner@.len() ==> #[trigger] garner_vals(garner@)[x] == big_val(
                    garner@[x],
                ));
            assert(forall|x: int|
                0 <= x < from.garner@.len() ==> #[trigger] garner_vals(from.garner@)[x]
                    == big_val(from.garner@[x]));
            assert(garner_vals(from.garner@).len() == q@.len());
            assert forall|x: int, y: int|
                0 <= x < garner@.len() && 0 <= y < q@.len() implies #[trigger] (garner_vals(
                garner@,
            )[x] % (q@[y] as nat)) == (
            if x == y {
                1nat
            } else {
                0nat
            }) by {
                assert(garner_vals(garner@)[x] == big_val(from.garner@[x]));
                assert(garner_vals(from.garner@)[x] % (from.q@[y] as nat) == (
                if x == y {
                    1nat
                } else {
                    0nat
                }));
            }
            assert(garner_wf(garner_vals(garner@), q@));
        }
        RnsScaler { q, p, garner, big_q, half_q, factor }
    }

    /// Rescales one residue column. `col` holds the residues of one
    /// integer across the whole source chain; the result holds its scaled
    /// residues across the destination moduli from position `start` on.
    ///
    /// The contract is exact: for the (unique) integer `x` that the
    /// column represents, each output residue equals the centered,
    /// correctly rounded `scaled_residue` of `x`.
    pub fn scale_column(&self, col: &Vec<u64>, start: usize, floor_mode: bool) -> (r: Vec<u64>)
        requires
            self.wf(),
            col@.len() == self.q@.len(),
            forall|i: int| 0 <= i < col@.len() ==> col@[i] < self.q@[i],
            start <= self.p@.len(),
        ensures
            r@.len() == self.p@.len() - start,
            forall|i: int| 0 <= i < r@.len() ==> #[trigger] r@[i] < self.p@[start + i],
            forall|x: nat|
                is_residue_vector(x, col@, self.q@) ==> forall|i: int|
                    0 <= i < r@.len() ==> #[trigger] r@[i] as nat == scaled_residue(
                        x,
                        prod(self.q@),
                        self.factor.n_val(),
                        self.factor.d_val(),
                        floor_mode,
                        self.p@[start + i],
                    ),
    {
        let ghost qv = self.q@;
        let ghost gv = garner_vals(self.garner@);
        proof {
            assert(forall|x: int|
                0 <= x < self.garner@.len() ==> #[trigger] garner_vals(self.garner@)[x]
                    == big_val(self.garner@[x]));
            lemma_prod_pos(qv);
        }
        // Recombine the column into the integer it represents.
        let mut acc = big_from_u64(0);
        let mut i: usize = 0;
        while i < col.len()
            invariant
                self.wf(),
                col@.len() == self.q@.len(),
                gv == garner_vals(self.garner@),
                forall|x: int|
                    0 <= x < self.garner@.len() ==> #[trigger] garner_vals(self.garner@)[x]
                        == big_val(self.garner@[x]),
                i <= col@.len(),
                big_val(acc) == combine_partial(col@, gv, i as int),
            decreases col@.len() - i,
        {
            proof {
                assert(garner_vals(self.garner@)[i as int] == big_val(self.garner@[i as int]));
                assert(gv[i as int] == big_val(self.garner@[i as int]));
            }
            let t = big_mul(&self.garner[i], &big_from_u64(col[i]));
            acc = big_add(&acc, &t);
            proof {
                assert(big_val(t) == big_val(self.garner@[i as int]) * (col@[i as int] as nat));
                assert(big_val(acc) == combine_partial(col@, gv, i as int) + big_val(t));
                assert((col@[i as int] as nat) * gv[i as int] == big_val(
                    self.garner@[i as int],
                ) * (col@[i as int] as nat)) by (nonlinear_arith)
                    requires
                        gv[i as int] == big_val(self.garner@[i as int]),
                ;
                assert(combine_partial(col@, gv, i as int + 1) == combine_partial(
                    col@,
                    gv,
                    i as int,
                ) + (col@[i as int] as nat) * gv[i as int]);
                assert(big_val(acc) == combine_partial(col@, gv, i as int + 1));
            }
            i = i + 1;
        }
        let x = big_rem(&acc, &self.big_q);
        let ghost bigq = prod(qv);
        let ghost s = combine_partial(col@, gv, qv.len() as int);
        let ghost xv = big_val(x);
        proof {
            lemma_mod_bound(s as int, bigq as int);
            assert forall|j: int| 0 <= j < qv.len() implies col@[j] as nat == xv % (
                qv[j] as nat) by {
                let qj = qv[j] as nat;
                assert(self.q@[j] >= 2);
                lemma_combine_mod(col@, gv, qv, qv.len() as int, j);
                lemma_fundamental_div_mod(bigq as int, qj as int);
                assert(bigq == qj * (bigq / qj));
                if bigq / qj == 0 {
                    assert(qj * (bigq / qj) == 0);
                }
                lemma_mod_mod(s as int, qj as int, (bigq / qj) as int);
                lemma_small_mod(col@[j] as nat, qj);
            }
            assert(is_residue_vector(xv, col@, qv));
        }
        // Center, take the magnitude, and round.
        let neg = big_le(&self.half_q, &x);
        let mag = if neg {
            big_sub(&self.big_q, &x)
        } else {
            big_clone(&x)
        };
        let prod_m = big_mul(&mag, &self.factor.numerator);
        let y = if floor_mode {
            if neg {
                let dm1 = big_sub(&self.factor.denominator, &big_from_u64(1));
                big_div(&big_add(&prod_m, &dm1), &self.factor.denominator)
            } else {
                big_div(&prod_m, &self.factor.denominator)
            }
        } else {
            let two = big_from_u64(2);
            let num2 = big_add(&big_mul(&two, &prod_m), &self.factor.denominator);
            big_div(&num2, &big_mul(&two, &self.factor.denominator))
        };
        let ghost nv = self.factor.n_val();
        let ghost dv = self.factor.d_val();
        proof {
            if neg {
                assert(big_val(y) == rounded_neg((bigq - xv) as nat, nv, dv, floor_mode));
            } else {
                assert(big_val(y) == rounded_pos(xv, nv, dv, floor_mode));
            }
        }
        // Reduce modulo each remaining destination modulus, flipping the
        // sign through the modulus for negative centered values.
        let mut out: Vec<u64> = Vec::new();
        let mut t: usize = start;
        while t < self.p.len()
            invariant
                self.wf(),
                start <= t <= self.p@.len(),
                out@.len() == t - start,
                neg == (xv >= bigq / 2),
                bigq == prod(self.q@),
                nv == self.factor.n_val(),
                dv == self.factor.d_val(),
                neg ==> big_val(y) == rounded_neg((bigq - xv) as nat, nv, dv, floor_mode),
                !neg ==> big_val(y) == rounded_pos(xv, nv, dv, floor_mode),
                xv < bigq,
                forall|i: int| 0 <= i < out@.len() ==> #[trigger] out@[i] < self.p@[start + i],
                forall|i: int|
                    0 <= i < out@.len() ==> #[trigger] out@[i] as nat == scaled_residue(
                        xv,
                        bigq,
                        nv,
                        dv,
                        floor_mode,
                        self.p@[start + i],
                    ),
            decreases self.p@.len() - t,
        {
            let pi = self.p[t];
            let rem = big_rem_u64(&y, pi);
            proof {
                lemma_mod_bound(big_val(y) as int, pi as int);
            }
            let v: u64 = if neg {
                if rem == 0 {
                    proof {
                        lemma_mod_self_0(pi as int);
                    }
                    0
                } else {
                    proof {
                        lemma_small_mod((pi - rem) as nat, pi as nat);
                    }
                    pi - rem
                }
            } else {
                rem
            };
            out.push(v);
            t = t + 1;
        }
        proof {
            assert forall|x2: nat| is_residue_vector(x2, col@, self.q@) implies (forall|i: int|
                0 <= i < out@.len() ==> #[trigger] out@[i] as nat == scaled_residue(
                    x2,
                    prod(self.q@),
                    self.factor.n_val(),
                    self.factor.d_val(),
                    floor_mode,
                    self.p@[start + i],
                )) by {
                assert(forall|i: int| 0 <= i < self.q@.len() ==> #[trigger] self.q@[i] >= 2);
                assert forall|i: int| 0 <= i < self.q@.len() implies x2 % (self.q@[i] as nat)
                    == xv % (self.q@[i] as nat) by {
                    assert(col@[i] as nat == x2 % (self.q@[i] as nat));
                    assert(col@[i] as nat == xv % (self.q@[i] as nat));
                }
                lemma_crt_unique(self.q@, x2, xv);
            }
        }
        out
    }
}

} // verus!
