//! Word-sized modular arithmetic and the product of a modulus chain.

use vstd::prelude::*;
use vstd::arithmetic::div_mod::*;
use vstd::arithmetic::mul::*;
use vstd::arithmetic::power::{
    lemma_pow0,
    lemma_pow1,
    lemma_pow_adds,
    lemma_pow_mod_noop,
    lemma_pow_multiplies,
    lemma_square_is_pow2,
    pow,
};

verus! {

/// `b` to the power `e`, modulo `m`.
pub open spec fn pow_m(b: nat, e: nat, m: nat) -> nat {
    (pow(b as int, e) % (m as int)) as nat
}

/// Product of a sequence of moduli, as an unbounded natural number.
pub open spec fn prod(s: Seq<u64>) -> nat
    decreases s.len(),
{
    if s.len() == 0 {
        1
    } else {
        prod(s.drop_last()) * (s.last() as nat)
    }
}

pub proof fn lemma_prod_pos(s: Seq<u64>)
    requires
        forall|i: int| 0 <= i < s.len() ==> s[i] >= 1,
    ensures
        prod(s) >= 1,
    decreases s.len(),
{
    if s.len() > 0 {
        lemma_prod_pos(s.drop_last());
        lemma_mul_ordering(prod(s.drop_last()) as int, s.last() as int);
    }
}

/// Extending a prefix by one element multiplies its product by that element.
pub proof fn lemma_prod_prefix_step(s: Seq<u64>, t: int)
    requires
        0 < t <= s.len(),
    ensures
        prod(s.subrange(0, t)) == prod(s.subrange(0, t - 1)) * (s[t - 1] as nat),
{
    assert(s.subrange(0, t).drop_last() =~= s.subrange(0, t - 1));
    assert(s.subrange(0, t).last() == s[t - 1]);
}

/// `(a * b) % m`, computed without overflow through 128-bit intermediates.
pub fn mul_mod(a: u64, b: u64, m: u64) -> (r: u64)
    requires
        m >= 1,
    ensures
        r as nat == (a as nat * b as nat) % (m as nat),
        r < m,
{
    proof {
        assert((a as int) * (b as int) < 0x1_0000_0000_0000_0000_0000_0000_0000_0000) by (nonlinear_arith)
            requires
                a < 0x1_0000_0000_0000_0000,
                b < 0x1_0000_0000_0000_0000,
        ;
        lemma_mod_bound((a as int) * (b as int), m as int);
    }
    (((a as u128) * (b as u128)) % (m as u128)) as u64
}

/// `(a + b) % m`, computed without overflow through 128-bit intermediates.
pub fn add_mod(a: u64, b: u64, m: u64) -> (r: u64)
    requires
        m >= 1,
    ensures
        r as nat == (a as nat + b as nat) % (m as nat),
        r < m,
{
    proof {
        lemma_mod_bound((a as int) + (b as int), m as int);
    }
    (((a as u128) + (b as u128)) % (m as u128)) as u64
}

/// Modular exponentiation by squaring, with the exact value `pow_m` of
/// the result: every construction-time certificate computed through this
/// function is thereby a function of its inputs alone.
pub fn pow_mod(base: u64, exp: u64, m: u64) -> (r: u64)
    requires
        m >= 2,
    ensures
        r < m,
        r as nat == pow_m(base as nat, exp as nat, m as nat),
{
    let mut result: u64 = 1;
    let mut b: u64 = base % m;
    let mut e: u64 = exp;
    proof {
        lemma_pow_mod_noop(base as int, exp as nat, m as int);
    }
    while e > 0
        invariant
            m >= 2,
            result < m,
            b < m,
            ((result as int) * pow(b as int, e as nat)) % (m as int) == pow(
                base as int,
                exp as nat,
            ) % (m as int),
        decreases e,
    {
        let ghost r0 = result as int;
        let ghost b0 = b as int;
        let ghost e0 = e as nat;
        let ghost e1 = (e / 2) as nat;
        if e % 2 == 1 {
            result = mul_mod(result, b, m);
        }
        b = mul_mod(b, b, m);
        e = e / 2;
        proof {
            lemma_square_is_pow2(b0);
            lemma_pow_multiplies(b0, 2, e1);
            assert(pow(b0 * b0, e1) == pow(b0, 2 * e1));
            lemma_pow_mod_noop(b0 * b0, e1, m as int);
            assert(pow(b as int, e1) % (m as int) == pow(b0, 2 * e1) % (m as int));
            lemma_mul_mod_noop_right(result as int, pow(b0, 2 * e1), m as int);
            assert((result as int * pow(b as int, e1)) % (m as int) == (result as int * pow(
                b0,
                2 * e1,
            )) % (m as int)) by {
                lemma_mul_mod_noop_right(result as int, pow(b as int, e1), m as int);
            }
            if e0 % 2 == 1 {
                assert(e0 == 2 * e1 + 1);
                assert(pow(b0, e0) == b0 * pow(b0, (e0 - 1) as nat)) by {
                    lemma_pow_adds(b0, 1, (e0 - 1) as nat);
                    lemma_pow1(b0);
                }
                assert(result as int == (r0 * b0) % (m as int));
                lemma_mul_mod_noop_left(r0 * b0, pow(b0, 2 * e1), m as int);
                assert((r0 * b0) * pow(b0, 2 * e1) == r0 * (b0 * pow(b0, 2 * e1)))
                    by (nonlinear_arith);
                assert((result as int * pow(b0, 2 * e1)) % (m as int) == (r0 * pow(b0, e0)) % (
                m as int));
            } else {
                assert(e0 == 2 * e1);
            }
        }
    }
    proof {
        lemma_pow0(b as int);
        lemma_small_mod(result as nat, m as nat);
    }
    result
}

/// Whether `n` is a power of two.
pub open spec fn is_pow2(n: nat) -> bool
    decreases n,
{
    if n == 0 {
        false
    } else if n == 1 {
        true
    } else {
        n % 2 == 0 && is_pow2(n / 2)
    }
}

/// Decides `is_pow2` for machine-sized values.
pub fn check_pow2(n: usize) -> (r: bool)
    ensures
        r == is_pow2(n as nat),
{
    let mut d: usize = n;
    if n == 0 {
        return false;
    }
    while d > 1
        invariant
            d >= 1,
            is_pow2(n as nat) == is_pow2(d as nat),
        decreases d,
    {
        if d % 2 == 1 {
            return false;
        }
        d = d / 2;
    }
    true
}

/// Copies a vector of residues; used where an owned working copy is needed.
pub fn copy_vec_u64(v: &Vec<u64>) -> (r: Vec<u64>)
    ensures
        r@ == v@,
{
    let mut out: Vec<u64> = Vec::new();
    let mut i: usize = 0;
    while i < v.len()
        invariant
            i <= v.len(),
            out@ == v@.subrange(0, i as int),
        decreases v.len() - i,
    {
        out.push(v[i]);
        i = i + 1;
    }
    assert(out@ =~= v@);
    out
}

} // verus!
