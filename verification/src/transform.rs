//! Per-modulus transform operator between the power basis and the
//! transform domain.
//!
//! The operator applies a fixed square matrix of residues; the forward and
//! backward matrices are built from a candidate 2N-th root of unity and
//! then *certified* mutually inverse by an exhaustive runtime check, so
//! that nothing about roots of unity has to be assumed. A constant-time
//! and a variable-time application are offered; they compute the same
//! function and differ only in timing.

use vstd::prelude::*;
use vstd::arithmetic::div_mod::*;
use vstd::arithmetic::power::{lemma_pow_mod_noop, pow};
use crate::arith::{add_mod, mul_mod, pow_m, pow_mod};

verus! {

/// The contents of a table of rows, row by row.
pub open spec fn table(m: Seq<Vec<u64>>) -> Seq<Seq<u64>> {
    m.map_values(|r: Vec<u64>| r@)
}

/// An `n` by `n` table of residues modulo `q`.
pub open spec fn table_wf(t: Seq<Seq<u64>>, n: nat, q: u64) -> bool {
    &&& t.len() == n
    &&& forall|i: int| 0 <= i < n ==> #[trigger] t[i].len() == n
    &&& forall|i: int, j: int| 0 <= i < n && 0 <= j < n ==> #[trigger] t[i][j] < q
}

/// Dot product of the first `t` entries of `row` and `x`.
pub open spec fn dot_partial(row: Seq<u64>, x: Seq<u64>, t: int) -> nat
    decreases t,
{
    if t <= 0 {
        0
    } else {
        dot_partial(row, x, t - 1) + (row[t - 1] as nat) * (x[t - 1] as nat)
    }
}

/// Matrix-vector product modulo `q`.
pub open spec fn transform_spec(t: Seq<Seq<u64>>, x: Seq<u64>, q: u64) -> Seq<u64> {
    Seq::new(t.len(), |i: int| (dot_partial(t[i], x, x.len() as int) % (q as nat)) as u64)
}

/// Dot product of `row` with column `k` of `m`, over the first `t` terms.
pub open spec fn dotcol_partial(row: Seq<u64>, m: Seq<Seq<u64>>, k: int, t: int) -> nat
    decreases t,
{
    if t <= 0 {
        0
    } else {
        dotcol_partial(row, m, k, t - 1) + (row[t - 1] as nat) * (m[t - 1][k] as nat)
    }
}

/// `b * f` is the identity matrix modulo `q`: the certificate that the
/// backward table undoes the forward one.
pub open spec fn inverse_certified(b: Seq<Seq<u64>>, f: Seq<Seq<u64>>, n: nat, q: u64) -> bool {
    forall|i: int, k: int|
        0 <= i < n && 0 <= k < n ==> #[trigger] (dotcol_partial(b[i], f, k, n as int) % (
        q as nat)) == (
        if i == k {
            1nat
        } else {
            0nat
        })
}

/// Entry `scale * base^((2j+1) * i)` modulo `q` of a generated table.
pub open spec fn power_entry(q: u64, base: u64, scale: u64, i: int, j: int) -> u64 {
    (((scale as nat) * pow_m(base as nat, ((2 * j + 1) * i) as nat, q as nat)) % (q as nat)) as u64
}

/// The forward table generated from the root candidate `psi`.
pub open spec fn fwd_table_spec(q: u64, n: nat, psi: u64) -> Seq<Seq<u64>> {
    Seq::new(n, |r: int| Seq::new(n, |c: int| power_entry(q, psi, 1, c, r)))
}

/// The inverse-root candidate used for the backward table.
pub open spec fn bwd_base(q: u64, n: nat, psi: u64) -> u64 {
    pow_m(psi as nat, (2 * n - 1) as nat, q as nat) as u64
}

/// The length-inverse candidate used for the backward table.
pub open spec fn bwd_scale(q: u64, n: nat) -> u64 {
    pow_m(n % (q as nat), (q - 2) as nat, q as nat) as u64
}

/// The backward table generated from the root candidate `psi`.
pub open spec fn bwd_table_spec(q: u64, n: nat, psi: u64) -> Seq<Seq<u64>> {
    Seq::new(
        n,
        |r: int| Seq::new(n, |c: int| power_entry(q, bwd_base(q, n, psi), bwd_scale(q, n), r, c)),
    )
}

/// The root candidate `psi` generates a certified invertible table pair.
pub open spec fn psi_invertible(q: u64, n: nat, psi: u64) -> bool {
    inverse_certified(bwd_table_spec(q, n, psi), fwd_table_spec(q, n, psi), n, q)
}

/// The root candidate tried for generator `g`.
pub open spec fn cand_psi(q: u64, n: nat, g: u64) -> u64 {
    pow_m(g as nat, ((q - 1) as nat) / (2 * n), q as nat) as u64
}

/// The first generator in `[g, 202)` whose candidate root certifies, or
/// `202` when none does: transform construction is a function of the
/// modulus and the length alone.
pub open spec fn generator_from(q: u64, n: nat, g: int) -> int
    decreases 202 - g,
{
    if g < 2 || g >= 202 {
        202
    } else if psi_invertible(q, n, cand_psi(q, n, g as u64)) {
        g
    } else {
        generator_from(q, n, g + 1)
    }
}

/// The modulus admits a certified transform within the searched range.
pub open spec fn admits_transform(q: u64, n: nat) -> bool {
    generator_from(q, n, 2) < 202
}

/// The root every context construction settles on for this modulus.
pub open spec fn canonical_psi(q: u64, n: nat) -> u64 {
    cand_psi(q, n, generator_from(q, n, 2) as u64)
}

/// A search that skips a failing generator lands on the same one.
pub proof fn lemma_generator_found(q: u64, n: nat, lo: int, g: int)
    requires
        2 <= lo <= g < 202,
        forall|h: int|
            lo <= h < g ==> !psi_invertible(q, n, #[trigger] cand_psi(q, n, h as u64)),
        psi_invertible(q, n, cand_psi(q, n, g as u64)),
    ensures
        generator_from(q, n, lo) == g,
    decreases g - lo,
{
    if lo < g {
        assert(!psi_invertible(q, n, cand_psi(q, n, lo as u64)));
        lemma_generator_found(q, n, lo + 1, g);
    }
}

/// When every generator in range fails, the search reports `202`.
pub proof fn lemma_generator_missing(q: u64, n: nat, lo: int)
    requires
        2 <= lo <= 202,
        forall|h: int|
            lo <= h < 202 ==> !psi_invertible(q, n, #[trigger] cand_psi(q, n, h as u64)),
    ensures
        generator_from(q, n, lo) == 202,
    decreases 202 - lo,
{
    if lo < 202 {
        assert(!psi_invertible(q, n, cand_psi(q, n, lo as u64)));
        lemma_generator_missing(q, n, lo + 1);
    }
}

/// Sum over rows `j < t` of `brow[j]` times the dot product of row `j` of
/// `f` with the first `m` entries of `x`.
spec fn bsum(brow: Seq<u64>, f: Seq<Seq<u64>>, x: Seq<u64>, m: int, t: int) -> nat
    decreases t,
{
    if t <= 0 {
        0
    } else {
        bsum(brow, f, x, m, t - 1) + (brow[t - 1] as nat) * dot_partial(f[t - 1], x, m)
    }
}

/// The same double sum grouped the other way: over columns `k < m` of the
/// column dot products times `x[k]`.
spec fn rsum(brow: Seq<u64>, f: Seq<Seq<u64>>, x: Seq<u64>, m: int, n: int) -> nat
    decreases m,
{
    if m <= 0 {
        0
    } else {
        rsum(brow, f, x, m - 1, n) + dotcol_partial(brow, f, m - 1, n) * (x[m - 1] as nat)
    }
}

proof fn lemma_bsum_zero(brow: Seq<u64>, f: Seq<Seq<u64>>, x: Seq<u64>, t: int)
    ensures
        bsum(brow, f, x, 0, t) == 0,
    decreases t,
{
    if t > 0 {
        lemma_bsum_zero(brow, f, x, t - 1);
        assert(dot_partial(f[t - 1], x, 0) == 0);
        assert(bsum(brow, f, x, 0, t) == bsum(brow, f, x, 0, t - 1) + (brow[t - 1] as nat)
            * dot_partial(f[t - 1], x, 0));
    }
}

/// Widening the inner dot products by one column adds one column dot
/// product to the double sum.
proof fn lemma_bsum_shift(brow: Seq<u64>, f: Seq<Seq<u64>>, x: Seq<u64>, m: int, t: int)
    requires
        1 <= m,
        0 <= t,
    ensures
        bsum(brow, f, x, m, t) == bsum(brow, f, x, m - 1, t) + dotcol_partial(brow, f, m - 1, t)
            * (x[m - 1] as nat),
    decreases t,
{
    if t > 0 {
        lemma_bsum_shift(brow, f, x, m, t - 1);
        let bb = brow[t - 1] as nat;
        let dd = dot_partial(f[t - 1], x, m - 1);
        let ff = f[t - 1][m - 1] as nat;
        let xx = x[m - 1] as nat;
        let dc = dotcol_partial(brow, f, m - 1, t - 1);
        assert(bb * (dd + ff * xx) == bb * dd + (bb * ff) * xx && (dc + bb * ff) * xx == dc * xx
            + (bb * ff) * xx) by (nonlinear_arith);
        assert(dot_partial(f[t - 1], x, m) == dd + ff * xx);
        assert(bsum(brow, f, x, m, t) == bsum(brow, f, x, m, t - 1) + bb * dot_partial(
            f[t - 1],
            x,
            m,
        ));
        assert(bsum(brow, f, x, m - 1, t) == bsum(brow, f, x, m - 1, t - 1) + bb * dd);
        assert(dotcol_partial(brow, f, m - 1, t) == dc + bb * ff);
        assert(bsum(brow, f, x, m, t) == bsum(brow, f, x, m, t - 1) + bb * (dd + ff * xx));
        assert(bsum(brow, f, x, m, t) == bsum(brow, f, x, m - 1, t - 1) + dc * xx + bb * dd + (bb
            * ff) * xx);
        assert(bsum(brow, f, x, m, t) == bsum(brow, f, x, m - 1, t) + (dc + bb * ff) * xx);
    } else {
        assert(bsum(brow, f, x, m, t) == 0);
        assert(bsum(brow, f, x, m - 1, t) == 0);
        assert(dotcol_partial(brow, f, m - 1, t) == 0);
        assert(dotcol_partial(brow, f, m - 1, t) * (x[m - 1] as nat) == 0);
    }
}

/// Exchanging the order of summation in the double sum.
proof fn lemma_exchange(brow: Seq<u64>, f: Seq<Seq<u64>>, x: Seq<u64>, m: int, n: int)
    requires
        0 <= m,
        0 <= n,
    ensures
        bsum(brow, f, x, m, n) == rsum(brow, f, x, m, n),
    decreases m,
{
    if m <= 0 {
        lemma_bsum_zero(brow, f, x, n);
    } else {
        lemma_exchange(brow, f, x, m - 1, n);
        lemma_bsum_shift(brow, f, x, m, n);
    }
}

/// Replacing already-reduced inner dot products by the exact ones does
/// not change the outer sum modulo `q`.
proof fn lemma_dot_congruent(
    brow: Seq<u64>,
    f: Seq<Seq<u64>>,
    x: Seq<u64>,
    y: Seq<u64>,
    q: u64,
    m: int,
    t: int,
)
    requires
        q >= 1,
        0 <= t,
        forall|j: int| 0 <= j < t ==> #[trigger] (y[j] as nat) == dot_partial(f[j], x, m) % (
        q as nat),
    ensures
        dot_partial(brow, y, t) % (q as nat) == bsum(brow, f, x, m, t) % (q as nat),
    decreases t,
{
    if t > 0 {
        lemma_dot_congruent(brow, f, x, y, q, m, t - 1);
        let s1 = dot_partial(brow, y, t - 1);
        let s2 = bsum(brow, f, x, m, t - 1);
        let bb = brow[t - 1] as nat;
        let yy = y[t - 1] as nat;
        let dd = dot_partial(f[t - 1], x, m);
        lemma_add_mod_noop(s1 as int, (bb * yy) as int, q as int);
        lemma_mul_mod_noop_right(bb as int, dd as int, q as int);
        lemma_add_mod_noop(s2 as int, (bb * dd) as int, q as int);
    }
}

/// Against the inverse certificate, the exchanged sum collapses to the
/// selected entry of `x`.
proof fn lemma_rsum_delta(
    b: Seq<Seq<u64>>,
    f: Seq<Seq<u64>>,
    x: Seq<u64>,
    q: u64,
    i: int,
    m: int,
    n: int,
)
    requires
        q >= 2,
        0 <= i < n,
        0 <= m <= n,
        x.len() == n,
        inverse_certified(b, f, n as nat, q),
        forall|k: int| 0 <= k < n ==> x[k] < q,
    ensures
        rsum(b[i], f, x, m, n) % (q as nat) == (
        if i < m {
            x[i] as nat
        } else {
            0nat
        }),
    decreases m,
{
    let qn = q as nat;
    if m == 0 {
        lemma_small_mod(0, qn);
    } else {
        lemma_rsum_delta(b, f, x, q, i, m - 1, n);
        let s = rsum(b[i], f, x, m - 1, n);
        let nn = n as nat;
        assert(nn as int == n);
        assert(dotcol_partial(b[i], f, m - 1, nn as int) % qn == (
        if i == m - 1 {
            1nat
        } else {
            0nat
        }));
        let dc = dotcol_partial(b[i], f, m - 1, n);
        let xx = x[m - 1] as nat;
        lemma_add_mod_noop(s as int, (dc * xx) as int, q as int);
        lemma_mul_mod_noop_left(dc as int, xx as int, q as int);
        if i == m - 1 {
            assert(1nat * xx == xx);
            lemma_small_mod(xx, qn);
            lemma_small_mod((0nat + xx) as nat, qn);
        } else {
            assert(0nat * xx == 0);
            lemma_small_mod(0, qn);
            if i < m - 1 {
                lemma_small_mod(x[i] as nat, qn);
            }
        }
    }
}

/// The central theorem of the operator: applying the certified backward
/// table after the forward table returns every in-range vector unchanged.
pub proof fn lemma_transform_roundtrip(op: TransformOp, x: Seq<u64>)
    requires
        op.wf(),
        x.len() == op.n as int,
        forall|k: int| 0 <= k < x.len() ==> x[k] < op.q,
    ensures
        transform_spec(table(op.bwd@), transform_spec(table(op.fwd@), x, op.q), op.q) == x,
{
    let n = op.n as int;
    let q = op.q;
    let qn = q as nat;
    let f = table(op.fwd@);
    let b = table(op.bwd@);
    let y = transform_spec(f, x, q);
    let z = transform_spec(b, y, q);
    assert forall|i: int| 0 <= i < n implies z[i] == x[i] by {
        assert(forall|j: int| 0 <= j < n ==> #[trigger] (y[j] as nat) == dot_partial(f[j], x, n)
            % qn);
        lemma_dot_congruent(b[i], f, x, y, q, n, n);
        lemma_exchange(b[i], f, x, n, n);
        lemma_rsum_delta(b, f, x, q, i, n, n);
        assert(z[i] as nat == dot_partial(b[i], y, n) % qn);
        assert(z[i] as nat == x[i] as nat);
    }
    assert(z =~= x);
}

/// Forward/backward length-`n` transform modulo `q`.
pub struct TransformOp {
    pub q: u64,
    pub n: usize,
    pub fwd: Vec<Vec<u64>>,
    pub bwd: Vec<Vec<u64>>,
}

impl TransformOp {
    pub open spec fn wf(self) -> bool {
        &&& self.q >= 2
        &&& self.n >= 1
        &&& table_wf(table(self.fwd@), self.n as nat, self.q)
        &&& table_wf(table(self.bwd@), self.n as nat, self.q)
        &&& inverse_certified(table(self.bwd@), table(self.fwd@), self.n as nat, self.q)
    }

    pub open spec fn spec_forward(self, x: Seq<u64>) -> Seq<u64> {
        transform_spec(table(self.fwd@), x, self.q)
    }

    pub open spec fn spec_backward(self, x: Seq<u64>) -> Seq<u64> {
        transform_spec(table(self.bwd@), x, self.q)
    }

    /// Power-basis coefficients to transform domain, constant-time.
    pub fn forward(&self, x: &Vec<u64>) -> (r: Vec<u64>)
        requires
            self.wf(),
            x@.len() == self.n as int,
        ensures
            r@ == self.spec_forward(x@),
            r@.len() == self.n as int,
            forall|i: int| 0 <= i < r@.len() ==> r@[i] < self.q,
    {
        apply_table(&self.fwd, x, self.q, self.n)
    }

    /// Transform domain back to power-basis coefficients, constant-time.
    pub fn backward(&self, x: &Vec<u64>) -> (r: Vec<u64>)
        requires
            self.wf(),
            x@.len() == self.n as int,
        ensures
            r@ == self.spec_backward(x@),
            r@.len() == self.n as int,
            forall|i: int| 0 <= i < r@.len() ==> r@[i] < self.q,
    {
        apply_table(&self.bwd, x, self.q, self.n)
    }

    /// Same function as `forward`, but skips zero terms: faster, and its
    /// timing leaks the positions of zero coefficients. Only for data that
    /// carries no secret.
    pub fn forward_vt(&self, x: &Vec<u64>) -> (r: Vec<u64>)
        requires
            self.wf(),
            x@.len() == self.n as int,
        ensures
            r@ == self.spec_forward(x@),
            r@.len() == self.n as int,
            forall|i: int| 0 <= i < r@.len() ==> r@[i] < self.q,
    {
        apply_table_vt(&self.fwd, x, self.q, self.n)
    }

    /// Same function as `backward`, with the timing behaviour of
    /// `forward_vt`.
    pub fn backward_vt(&self, x: &Vec<u64>) -> (r: Vec<u64>)
        requires
            self.wf(),
            x@.len() == self.n as int,
        ensures
            r@ == self.spec_backward(x@),
            r@.len() == self.n as int,
            forall|i: int| 0 <= i < r@.len() ==> r@[i] < self.q,
    {
        apply_table_vt(&self.bwd, x, self.q, self.n)
    }

    /// Builds the operator for modulus `q` and length `n` from a candidate
    /// 2n-th root of unity `psi`, and certifies the two tables mutually
    /// inverse; returns `None` exactly when the candidate does not
    /// generate an invertible pair, and otherwise the tables the candidate
    /// determines.
    pub fn new(q: u64, n: usize, psi: u64) -> (r: Option<TransformOp>)
        requires
            2 <= q,
            1 <= n,
            n <= 0x10_0000,
        ensures
            (r is Some) == psi_invertible(q, n as nat, psi),
            r matches Some(op) ==> op.wf() && op.q == q && op.n == n && table(op.fwd@)
                == fwd_table_spec(q, n as nat, psi) && table(op.bwd@) == bwd_table_spec(
                q,
                n as nat,
                psi,
            ),
    {
        let fwd = build_power_table(q, n, psi, 1, 0);
        let psi_inv = pow_mod(psi, 2 * (n as u64) - 1, q);
        let n_inv = pow_mod((n as u64) % q, q - 2, q);
        let bwd = build_power_table(q, n, psi_inv, n_inv, 1);
        proof {
            lemma_mod_bound(pow(psi as int, (2 * (n as nat) - 1) as nat), q as int);
            assert(psi_inv == bwd_base(q, n as nat, psi));
            lemma_mod_bound(pow(((n as u64) % q) as int, (q - 2) as nat), q as int);
            assert((((n as u64) % q) as nat) == (n as nat) % (q as nat));
            lemma_pow_mod_noop(((n as u64) % q) as int, (q - 2) as nat, q as int);
            lemma_pow_mod_noop(((n as nat) % (q as nat)) as int, (q - 2) as nat, q as int);
            assert(n_inv == bwd_scale(q, n as nat));
            assert forall|r2: int| 0 <= r2 < n implies table(fwd@)[r2] =~= fwd_table_spec(
                q,
                n as nat,
                psi,
            )[r2] by {
                assert forall|c2: int| 0 <= c2 < n implies table(fwd@)[r2][c2] == fwd_table_spec(
                    q,
                    n as nat,
                    psi,
                )[r2][c2] by {
                    assert(table(fwd@)[r2][c2] == power_entry(q, psi, 1, c2, r2));
                }
            }
            assert(table(fwd@) =~= fwd_table_spec(q, n as nat, psi));
            assert forall|r2: int| 0 <= r2 < n implies table(bwd@)[r2] =~= bwd_table_spec(
                q,
                n as nat,
                psi,
            )[r2] by {
                assert forall|c2: int| 0 <= c2 < n implies table(bwd@)[r2][c2] == bwd_table_spec(
                    q,
                    n as nat,
                    psi,
                )[r2][c2] by {
                    assert(table(bwd@)[r2][c2] == power_entry(q, psi_inv, n_inv, r2, c2));
                }
            }
            assert(table(bwd@) =~= bwd_table_spec(q, n as nat, psi));
        }
        if certify_inverse(&bwd, &fwd, q, n) {
            Some(TransformOp { q, n, fwd, bwd })
        } else {
            None
        }
    }
}

/// Fills an `n` by `n` table whose `(r, c)` entry is
/// `scale * base^((2j+1) * i)` modulo `q`, where `(i, j)` is `(c, r)` when
/// `orient == 0` and `(r, c)` otherwise. Only the shape and the range of
/// the entries are relied upon; their algebraic pattern is certified
/// separately.
fn build_power_table(q: u64, n: usize, base: u64, scale: u64, orient: u8) -> (t: Vec<Vec<u64>>)
    requires
        2 <= q,
        1 <= n,
        n <= 0x10_0000,
    ensures
        table_wf(table(t@), n as nat, q),
        forall|r: int, c: int|
            0 <= r < n && 0 <= c < n ==> #[trigger] (table(t@)[r][c]) == (
            if orient == 0 {
                power_entry(q, base, scale, c, r)
            } else {
                power_entry(q, base, scale, r, c)
            }),
{
    let mut t: Vec<Vec<u64>> = Vec::new();
    let mut r: usize = 0;
    while r < n
        invariant
            2 <= q,
            n <= 0x10_0000,
            r <= n,
            t@.len() == r as int,
            forall|a: int| 0 <= a < r ==> #[trigger] t@[a]@.len() == n as int,
            forall|a: int, b: int|
                0 <= a < r && 0 <= b < n ==> #[trigger] (t@[a]@[b]) < q,
            forall|a: int, b: int|
                0 <= a < r && 0 <= b < n ==> #[trigger] (t@[a]@[b]) == (
                if orient == 0 {
                    power_entry(q, base, scale, b, a)
                } else {
                    power_entry(q, base, scale, a, b)
                }),
        decreases n - r,
    {
        let mut row: Vec<u64> = Vec::new();
        let mut c: usize = 0;
        while c < n
            invariant
                2 <= q,
                n <= 0x10_0000,
                r < n,
                c <= n,
                row@.len() == c as int,
                forall|b: int| 0 <= b < c ==> #[trigger] row@[b] < q,
                forall|a: int, b: int|
                    0 <= a < r && 0 <= b < n ==> #[trigger] (t@[a]@[b]) == (
                    if orient == 0 {
                        power_entry(q, base, scale, b, a)
                    } else {
                        power_entry(q, base, scale, a, b)
                    }),
                forall|b: int|
                    0 <= b < c ==> #[trigger] row@[b] == (
                    if orient == 0 {
                        power_entry(q, base, scale, b, r as int)
                    } else {
                        power_entry(q, base, scale, r as int, b)
                    }),
            decreases n - c,
        {
            let i: u64 = if orient == 0 {
                c as u64
            } else {
                r as u64
            };
            let j: u64 = if orient == 0 {
                r as u64
            } else {
                c as u64
            };
            proof {
                assert((2 * (j as int) + 1) * (i as int) < 0x1_0000_0000_0000_0000)
                    by (nonlinear_arith)
                    requires
                        0 <= i <= 0x10_0000,
                        0 <= j <= 0x10_0000,
                ;
            }
            let e: u64 = (2 * j + 1) * i;
            row.push(mul_mod(scale, pow_mod(base, e, q), q));
            proof {
                assert(e as nat == ((2 * (j as int) + 1) * (i as int)) as nat);
                if orient == 0 {
                    assert(row@[c as int] == power_entry(q, base, scale, c as int, r as int));
                } else {
                    assert(row@[c as int] == power_entry(q, base, scale, r as int, c as int));
                }
            }
            c = c + 1;
        }
        t.push(row);
        r = r + 1;
    }
    proof {
        assert(forall|a: int| 0 <= a < t@.len() ==> #[trigger] table(t@)[a] == t@[a]@);
    }
    t
}

/// Shared constant-time application of a table.
fn apply_table(tbl: &Vec<Vec<u64>>, x: &Vec<u64>, q: u64, n: usize) -> (r: Vec<u64>)
    requires
        q >= 2,
        table_wf(table(tbl@), n as nat, q),
        x@.len() == n as int,
    ensures
        r@ == transform_spec(table(tbl@), x@, q),
        r@.len() == n as int,
        forall|i: int| 0 <= i < r@.len() ==> r@[i] < q,
{
    let mut out: Vec<u64> = Vec::new();
    let mut i: usize = 0;
    while i < n
        invariant
            q >= 2,
            table_wf(table(tbl@), n as nat, q),
            x@.len() == n as int,
            i <= n,
            out@.len() == i as int,
            forall|a: int|
                0 <= a < i ==> #[trigger] out@[a] as nat == dot_partial(
                    table(tbl@)[a],
                    x@,
                    n as int,
                ) % (q as nat),
        decreases n - i,
    {
        let row = &tbl[i];
        let mut acc: u64 = 0;
        let mut j: usize = 0;
        proof {
            lemma_small_mod(0, q as nat);
        }
        while j < n
            invariant
                q >= 2,
                table_wf(table(tbl@), n as nat, q),
                x@.len() == n as int,
                i < n,
                j <= n,
                row == &tbl[i as int],
                acc as nat == dot_partial(table(tbl@)[i as int], x@, j as int) % (q as nat),
            decreases n - j,
        {
            proof {
                assert(table(tbl@)[i as int] == tbl@[i as int]@);
                lemma_add_mod_noop(
                    dot_partial(table(tbl@)[i as int], x@, j as int) as int,
                    ((table(tbl@)[i as int][j as int] as nat) * (x@[j as int] as nat)) as int,
                    q as int,
                );
            }
            acc = add_mod(acc, mul_mod(row[j], x[j], q), q);
            j = j + 1;
        }
        out.push(acc);
        i = i + 1;
    }
    proof {
        assert(out@ =~= transform_spec(table(tbl@), x@, q));
    }
    out
}

/// Variable-time application: identical result, but zero coefficients are
/// skipped, so the running time depends on the data.
fn apply_table_vt(tbl: &Vec<Vec<u64>>, x: &Vec<u64>, q: u64, n: usize) -> (r: Vec<u64>)
    requires
        q >= 2,
        table_wf(table(tbl@), n as nat, q),
        x@.len() == n as int,
    ensures
        r@ == transform_spec(table(tbl@), x@, q),
        r@.len() == n as int,
        forall|i: int| 0 <= i < r@.len() ==> r@[i] < q,
{
    let mut out: Vec<u64> = Vec::new();
    let mut i: usize = 0;
    while i < n
        invariant
            q >= 2,
            table_wf(table(tbl@), n as nat, q),
            x@.len() == n as int,
            i <= n,
            out@.len() == i as int,
            forall|a: int|
                0 <= a < i ==> #[trigger] out@[a] as nat == dot_partial(
                    table(tbl@)[a],
                    x@,
                    n as int,
                ) % (q as nat),
        decreases n - i,
    {
        let row = &tbl[i];
        let mut acc: u64 = 0;
        let mut j: usize = 0;
        proof {
            lemma_small_mod(0, q as nat);
        }
        while j < n
            invariant
                q >= 2,
                table_wf(table(tbl@), n as nat, q),
                x@.len() == n as int,
                i < n,
                j <= n,
                row == &tbl[i as int],
                acc as nat == dot_partial(table(tbl@)[i as int], x@, j as int) % (q as nat),
            decreases n - j,
        {
            proof {
                assert(table(tbl@)[i as int] == tbl@[i as int]@);
            }
            if x[j] != 0 {
                proof {
                    lemma_add_mod_noop(
                        dot_partial(table(tbl@)[i as int], x@, j as int) as int,
                        ((table(tbl@)[i as int][j as int] as nat) * (x@[j as int] as nat)) as int,
                        q as int,
                    );
                }
                acc = add_mod(acc, mul_mod(row[j], x[j], q), q);
            } else {
                proof {
                    assert((table(tbl@)[i as int][j as int] as nat) * (x@[j as int] as nat)
                        == 0);
                }
            }
            j = j + 1;
        }
        out.push(acc);
        i = i + 1;
    }
    proof {
        assert(out@ =~= transform_spec(table(tbl@), x@, q));
    }
    out
}

/// Checks exhaustively that `b * f` is the identity modulo `q`.
fn certify_inverse(b: &Vec<Vec<u64>>, f: &Vec<Vec<u64>>, q: u64, n: usize) -> (r: bool)
    requires
        q >= 2,
        table_wf(table(b@), n as nat, q),
        table_wf(table(f@), n as nat, q),
    ensures
        r == inverse_certified(table(b@), table(f@), n as nat, q),
{
    let mut i: usize = 0;
    while i < n
        invariant
            q >= 2,
            table_wf(table(b@), n as nat, q),
            table_wf(table(f@), n as nat, q),
            i <= n,
            forall|a: int, k: int|
                0 <= a < i && 0 <= k < n ==> #[trigger] (dotcol_partial(
                    table(b@)[a],
                    table(f@),
                    k,
                    n as int,
                ) % (q as nat)) == (
                if a == k {
                    1nat
                } else {
                    0nat
                }),
        decreases n - i,
    {
        let mut k: usize = 0;
        while k < n
            invariant
                q >= 2,
                table_wf(table(b@), n as nat, q),
                table_wf(table(f@), n as nat, q),
                i < n,
                k <= n,
                forall|a: int, k2: int|
                    0 <= a < i && 0 <= k2 < n ==> #[trigger] (dotcol_partial(
                        table(b@)[a],
                        table(f@),
                        k2,
                        n as int,
                    ) % (q as nat)) == (
                    if a == k2 {
                        1nat
                    } else {
                        0nat
                    }),
                forall|k2: int|
                    0 <= k2 < k ==> #[trigger] (dotcol_partial(
                        table(b@)[i as int],
                        table(f@),
                        k2,
                        n as int,
                    ) % (q as nat)) == (
                    if i as int == k2 {
                        1nat
                    } else {
                        0nat
                    }),
            decreases n - k,
        {
            let mut s: u64 = 0;
            let mut j: usize = 0;
            proof {
                lemma_small_mod(0, q as nat);
            }
            while j < n
                invariant
                    q >= 2,
                    table_wf(table(b@), n as nat, q),
                    table_wf(table(f@), n as nat, q),
                    i < n,
                    k < n,
                    j <= n,
                    s as nat == dotcol_partial(table(b@)[i as int], table(f@), k as int, j as int)
                        % (q as nat),
                decreases n - j,
            {
                proof {
                    assert(table(b@)[i as int] == b@[i as int]@);
                    assert(table(f@)[j as int] == f@[j as int]@);
                    lemma_add_mod_noop(
                        dotcol_partial(table(b@)[i as int], table(f@), k as int, j as int) as int,
                        ((table(b@)[i as int][j as int] as nat) * (table(f@)[j as int][k as int] as nat)) as int,
                        q as int,
                    );
                }
                s = add_mod(s, mul_mod(b[i][j], f[j][k], q), q);
                j = j + 1;
            }
            let expect: u64 = if i == k {
                1
            } else {
                0
            };
            if s != expect {
                proof {
                    let ghost nn = n as nat;
                    assert(dotcol_partial(table(b@)[i as int], table(f@), k as int, nn as int) % (
                    q as nat) != (
                    if i as int == k as int {
                        1nat
                    } else {
                        0nat
                    }));
                    assert(!inverse_certified(table(b@), table(f@), nn, q));
                }
                return false;
            }
            proof {
                lemma_small_mod(expect as nat, q as nat);
            }
            k = k + 1;
        }
        i = i + 1;
    }
    true
}

} // verus!
