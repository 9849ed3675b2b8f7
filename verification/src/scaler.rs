//! The scaler: rescales polynomials from one context to another under an
//! exact rational factor, copying the residues of a shared modulus prefix
//! verbatim when the factor is one, and driving the RNS kernel column by
//! column otherwise.

use vstd::prelude::*;
use std::rc::Rc;
use crate::arith::prod;
use crate::context::{clone_context_handle, garner_vals, Context};
use crate::crt::{is_residue_vector, lemma_residue_vector_exists};
use crate::transform::{lemma_transform_roundtrip, table};
use crate::error::Error;
use crate::matrix::{mat_seq, Matrix};
use crate::poly::{column, Poly, Representation};
use crate::rns::{scaled_residue, RnsScaler, ScalingFactor};

verus! {

/// `t` is the length of the longest common prefix of `a` and `b`.
pub open spec fn is_common_prefix_len(a: Seq<u64>, b: Seq<u64>, t: int) -> bool {
    &&& 0 <= t <= a.len()
    &&& t <= b.len()
    &&& forall|i: int| 0 <= i < t ==> a[i] == b[i]
    &&& (t == a.len() || t == b.len() || a[t] != b[t])
}

/// Rescales ring elements from `from` to `to`; built once per
/// (source, destination, factor) triple and reused.
pub struct Scaler {
    pub from: Rc<Context>,
    pub to: Rc<Context>,
    pub number_common_moduli: usize,
    pub scaler: RnsScaler,
}

/// Every destination row outside the common prefix holds, per coefficient
/// column, the exact centered and rounded scaled residue of the integer
/// that the source column represents.
pub open spec fn scaled_rows_post(
    s: Scaler,
    src: Seq<Seq<u64>>,
    dst: Seq<Seq<u64>>,
    floor_mode: bool,
) -> bool {
    forall|c: int, x: nat|
        #![trigger is_residue_vector(x, column(src, c), s.from.q@)]
        (0 <= c < s.from.degree && is_residue_vector(x, column(src, c), s.from.q@)) ==> forall|
            i: int,
        |
            s.number_common_moduli <= i < s.to.q@.len() ==> (#[trigger] dst[i][c]) as nat
                == scaled_residue(
                x,
                prod(s.from.q@),
                s.scaler.factor.n_val(),
                s.scaler.factor.d_val(),
                floor_mode,
                s.to.q@[i],
            )
}

/// For transform-domain inputs: `mid` is the scaled power-basis state,
/// computed from the back-transformed source and then transformed forward
/// into the rows of `out`.
pub open spec fn scale_mid_post(
    s: Scaler,
    p: Poly,
    out: Poly,
    floor_mode: bool,
    mid: Seq<Seq<u64>>,
) -> bool {
    let back = Seq::new(p.rows().len(), |i: int| s.from.ops@[i].spec_backward(p.rows()[i]));
    &&& mid.len() == s.to.q@.len()
    &&& forall|i: int| 0 <= i < mid.len() ==> (#[trigger] mid[i]).len() == s.from.degree as int
    &&& forall|i: int, j: int|
        s.number_common_moduli <= i < mid.len() && 0 <= j < s.from.degree ==> #[trigger] (
        mid[i][j]) < s.to.q@[i]
    &&& scaled_rows_post(s, back, mid, floor_mode)
    &&& forall|i: int|
        s.number_common_moduli <= i < s.to.q@.len() ==> #[trigger] out.rows()[i]
            == s.to.ops@[i].spec_forward(mid[i])
}

/// The full contract of a successful `scale` call.
pub open spec fn scale_post(s: Scaler, p: Poly, out: Poly, floor_mode: bool) -> bool {
    &&& out.wf()
    &&& out.ctx == s.to
    &&& out.representation == p.representation
    &&& out.allow_variable_time_computations == p.allow_variable_time_computations
    &&& out.coefficients_shoup is None
    &&& out.rows().len() == s.to.q@.len()
    &&& forall|i: int|
        0 <= i < s.number_common_moduli ==> #[trigger] out.rows()[i] == p.rows()[i]
    &&& (p.representation == Representation::PowerBasis ==> scaled_rows_post(
        s,
        p.rows(),
        out.rows(),
        floor_mode,
    ))
    &&& (p.representation == Representation::Ntt ==> exists|mid: Seq<Seq<u64>>|
        scale_mid_post(s, p, out, floor_mode, mid))
}

impl Scaler {
    pub open spec fn wf(self) -> bool {
        &&& self.from.wf()
        &&& self.to.wf()
        &&& self.from.degree == self.to.degree
        &&& self.scaler.wf()
        &&& self.scaler.q@ == self.from.q@
        &&& self.scaler.p@ == self.to.q@
        &&& self.number_common_moduli as int <= self.from.q@.len()
        &&& self.number_common_moduli as int <= self.to.q@.len()
        &&& (self.scaler.factor.is_one ==> is_common_prefix_len(
            self.from.q@,
            self.to.q@,
            self.number_common_moduli as int,
        ))
        &&& (!self.scaler.factor.is_one ==> self.number_common_moduli == 0)
    }

    /// Builds a scaler between two rings of the same degree.
    ///
    /// Shared leading moduli are counted only when the factor is exactly
    /// one: with any other factor even common moduli change value, so the
    /// copy fast path would be unsound.
    pub fn new(from: &Rc<Context>, to: &Rc<Context>, factor: ScalingFactor) -> (r: Result<
        Scaler,
        Error,
    >)
        requires
            from.wf(),
            to.wf(),
            factor.wf(),
        ensures
            (r is Err) == (from.degree != to.degree),
            r matches Err(e) ==> e == Error::ParameterError,
            r matches Ok(s) ==> s.wf() && s.from == **from && s.to == **to
                && s.scaler.factor.is_one == factor.is_one && s.scaler.factor.n_val()
                == factor.n_val() && s.scaler.factor.d_val() == factor.d_val(),
    {
        if from.degree != to.degree {
            return Err(Error::ParameterError);
        }
        let mut ncm: usize = 0;
        if factor.is_one {
            let ka = from.q.len();
            let kb = to.q.len();
            let kmin: usize = if ka < kb {
                ka
            } else {
                kb
            };
            while ncm < kmin && from.q[ncm] == to.q[ncm]
                invariant
                    ncm <= kmin,
                    kmin <= from.q@.len(),
                    kmin <= to.q@.len(),
                    kmin == from.q@.len() || kmin == to.q@.len(),
                    forall|i: int| 0 <= i < ncm ==> from.q@[i] == to.q@[i],
                decreases kmin - ncm,
            {
                ncm = ncm + 1;
            }
            proof {
                assert(is_common_prefix_len(from.q@, to.q@, ncm as int));
            }
        }
        let kernel = RnsScaler::new(from, to, factor);
        Ok(
            Scaler {
                from: clone_context_handle(from),
                to: clone_context_handle(to),
                number_common_moduli: ncm,
                scaler: kernel,
            },
        )
    }

    /// Rescales one polynomial into the destination context.
    ///
    /// Fails exactly when the polynomial belongs to a different context
    /// than the scaler's source; the input is never modified. On success
    /// the result carries the input's representation and timing flag, its
    /// common-prefix rows verbatim, and in every other row the exact
    /// centered, correctly rounded scaled residues (`scale_post`).
    pub fn scale(&self, p: &Poly, floor: bool) -> (r: Result<Poly, Error>)
        requires
            self.wf(),
            p.wf(),
        ensures
            (r is Err) == !(p.ctx.q@ == self.from.q@ && p.ctx.degree == self.from.degree),
            r matches Err(e) ==> e == Error::ContextMismatch,
            r matches Ok(out) ==> scale_post(*self, *p, out, floor),
    {
        if !p.ctx.eq_context(&self.from) {
            return Err(Error::ContextMismatch);
        }
        let k_from = self.from.q.len();
        let k_to = self.to.q.len();
        let deg = self.from.degree;
        let ncm = self.number_common_moduli;
        let is_ntt = match p.representation {
            Representation::Ntt => true,
            Representation::PowerBasis => false,
        };
        // The working power-basis rows of the source: the rows themselves,
        // or their backward transforms for a transform-domain input.
        let mut work: Vec<Vec<u64>> = Vec::new();
        let mut i: usize = 0;
        while i < k_from
            invariant
                self.wf(),
                p.wf(),
                p.ctx.q@ == self.from.q@,
                p.ctx.degree == self.from.degree,
                k_from == self.from.q@.len(),
                deg == self.from.degree,
                is_ntt == (p.representation == Representation::Ntt),
                i <= k_from,
                work@.len() == i as int,
                forall|a: int| 0 <= a < i ==> (#[trigger] work@[a]@).len() == deg as int,
                forall|a: int, b: int|
                    0 <= a < i && 0 <= b < deg ==> #[trigger] (work@[a]@[b]) < self.from.q@[a],
                !is_ntt ==> forall|a: int| 0 <= a < i ==> #[trigger] work@[a]@ == p.rows()[a],
                is_ntt ==> forall|a: int|
                    0 <= a < i ==> #[trigger] work@[a]@ == self.from.ops@[a].spec_backward(
                        p.rows()[a],
                    ),
            decreases k_from - i,
        {
            let row = p.coefficients.get_row(i, deg);
            if is_ntt {
                let op = &self.from.ops[i];
                let b = if p.allow_variable_time_computations {
                    op.backward_vt(&row)
                } else {
                    op.backward(&row)
                };
                work.push(b);
            } else {
                work.push(row);
            }
            i = i + 1;
        }
        let ghost src: Seq<Seq<u64>> = Seq::new(k_from as nat, |a: int| work@[a]@);
        // Destination matrix; the common prefix is copied verbatim.
        let mut m = Matrix::zeros(k_to, deg);
        let mut i2: usize = 0;
        while i2 < ncm
            invariant
                self.wf(),
                p.wf(),
                p.ctx.q@ == self.from.q@,
                p.ctx.degree == self.from.degree,
                k_to == self.to.q@.len(),
                deg == self.from.degree,
                ncm == self.number_common_moduli,
                ncm <= self.from.q@.len(),
                ncm <= k_to,
                i2 <= ncm,
                mat_seq(m).len() == k_to as int,
                forall|a: int| 0 <= a < k_to ==> #[trigger] mat_seq(m)[a].len() == deg as int,
                forall|a: int, b: int|
                    0 <= a < i2 && 0 <= b < deg ==> #[trigger] (mat_seq(m)[a][b]) == p.rows()[a][b],
                forall|a: int, b: int|
                    i2 <= a < k_to && 0 <= b < deg ==> #[trigger] (mat_seq(m)[a][b]) == 0u64,
            decreases ncm - i2,
        {
            let mut c0: usize = 0;
            while c0 < deg
                invariant
                    self.wf(),
                    p.wf(),
                    p.ctx.q@ == self.from.q@,
                    p.ctx.degree == self.from.degree,
                    k_to == self.to.q@.len(),
                    deg == self.from.degree,
                    ncm == self.number_common_moduli,
                    ncm <= self.from.q@.len(),
                    ncm <= k_to,
                    i2 < ncm,
                    c0 <= deg,
                    mat_seq(m).len() == k_to as int,
                    forall|a: int| 0 <= a < k_to ==> #[trigger] mat_seq(m)[a].len() == deg as int,
                    forall|a: int, b: int|
                        0 <= a < i2 && 0 <= b < deg ==> #[trigger] (mat_seq(m)[a][b]) == p.rows()[
                            a][b],
                    forall|b: int|
                        0 <= b < c0 ==> #[trigger] (mat_seq(m)[i2 as int][b]) == p.rows()[
                            i2 as int][b],
                    forall|b: int|
                        c0 <= b < deg ==> #[trigger] (mat_seq(m)[i2 as int][b]) == 0u64,
                    forall|a: int, b: int|
                        i2 < a < k_to && 0 <= b < deg ==> #[trigger] (mat_seq(m)[a][b]) == 0u64,
                decreases deg - c0,
            {
                m.set(i2, c0, p.coefficients.get(i2, c0));
                c0 = c0 + 1;
            }
            i2 = i2 + 1;
        }
        // Scale every coefficient column into the remaining rows.
        let mut c: usize = 0;
        while c < deg
            invariant
                self.wf(),
                p.wf(),
                p.ctx.q@ == self.from.q@,
                p.ctx.degree == self.from.degree,
                k_from == self.from.q@.len(),
                k_to == self.to.q@.len(),
                deg == self.from.degree,
                ncm == self.number_common_moduli,
                ncm <= k_to,
                ncm <= k_from,
                c <= deg,
                work@.len() == k_from as int,
                src == Seq::new(k_from as nat, |a: int| work@[a]@),
                forall|a: int| 0 <= a < k_from ==> (#[trigger] work@[a]@).len() == deg as int,
                forall|a: int, b: int|
                    0 <= a < k_from && 0 <= b < deg ==> #[trigger] (work@[a]@[b])
                        < self.from.q@[a],
                mat_seq(m).len() == k_to as int,
                forall|a: int| 0 <= a < k_to ==> #[trigger] mat_seq(m)[a].len() == deg as int,
                forall|a: int, b: int|
                    0 <= a < ncm && 0 <= b < deg ==> #[trigger] (mat_seq(m)[a][b]) == p.rows()[a][
                        b],
                forall|a: int, b: int|
                    ncm <= a < k_to && c <= b < deg ==> #[trigger] (mat_seq(m)[a][b]) == 0u64,
                forall|a: int, b: int|
                    ncm <= a < k_to && 0 <= b < c ==> #[trigger] (mat_seq(m)[a][b])
                        < self.to.q@[a],
                forall|b: int, x: nat|
                    #![trigger is_residue_vector(x, column(src, b), self.from.q@)]
                    (0 <= b < c && is_residue_vector(x, column(src, b), self.from.q@))
                        ==> forall|a: int|
                        ncm <= a < k_to ==> (#[trigger] mat_seq(m)[a][b]) as nat
                            == scaled_residue(
                            x,
                            prod(self.from.q@),
                            self.scaler.factor.n_val(),
                            self.scaler.factor.d_val(),
                            floor,
                            self.to.q@[a],
                        ),
            decreases deg - c,
        {
            let mut col: Vec<u64> = Vec::new();
            let mut i3: usize = 0;
            while i3 < k_from
                invariant
                    c < deg,
                    work@.len() == k_from as int,
                    forall|a: int| 0 <= a < k_from ==> (#[trigger] work@[a]@).len() == deg as int,
                    i3 <= k_from,
                    col@.len() == i3 as int,
                    forall|a: int| 0 <= a < i3 ==> #[trigger] col@[a] == work@[a]@[c as int],
                decreases k_from - i3,
            {
                let wrow = &work[i3];
                col.push(wrow[c]);
                i3 = i3 + 1;
            }
            proof {
                assert(col@ =~= column(src, c as int));
            }
            let out_col = self.scaler.scale_column(&col, ncm, floor);
            let mut i4: usize = 0;
            while i4 < k_to - ncm
                invariant
                    self.wf(),
                    p.wf(),
                    p.ctx.q@ == self.from.q@,
                    p.ctx.degree == self.from.degree,
                    k_from == self.from.q@.len(),
                    k_to == self.to.q@.len(),
                    deg == self.from.degree,
                    ncm == self.number_common_moduli,
                    ncm <= k_to,
                    c < deg,
                    i4 <= k_to - ncm,
                    out_col@.len() == k_to - ncm,
                    forall|a: int|
                        0 <= a < out_col@.len() ==> #[trigger] out_col@[a] < self.to.q@[ncm + a],
                    col@ == column(src, c as int),
                    forall|x: nat|
                        is_residue_vector(x, col@, self.scaler.q@) ==> forall|a: int|
                            0 <= a < out_col@.len() ==> (#[trigger] out_col@[a]) as nat
                                == scaled_residue(
                                x,
                                prod(self.scaler.q@),
                                self.scaler.factor.n_val(),
                                self.scaler.factor.d_val(),
                                floor,
                                self.scaler.p@[ncm + a],
                            ),
                    mat_seq(m).len() == k_to as int,
                    forall|a: int| 0 <= a < k_to ==> #[trigger] mat_seq(m)[a].len() == deg as int,
                    forall|a: int, b: int|
                        0 <= a < ncm && 0 <= b < deg ==> #[trigger] (mat_seq(m)[a][b])
                            == p.rows()[a][b],
                    forall|a: int, b: int|
                        ncm <= a < k_to && c < b < deg ==> #[trigger] (mat_seq(m)[a][b]) == 0u64,
                    forall|a: int|
                        ncm + i4 <= a < k_to ==> #[trigger] (mat_seq(m)[a][c as int]) == 0u64,
                    forall|a: int|
                        ncm <= a < ncm + i4 ==> #[trigger] (mat_seq(m)[a][c as int]) == out_col@[a
                            - ncm],
                    forall|a: int, b: int|
                        ncm <= a < k_to && 0 <= b < c ==> #[trigger] (mat_seq(m)[a][b])
                            < self.to.q@[a],
                    forall|b: int, x: nat|
                        #![trigger is_residue_vector(x, column(src, b), self.from.q@)]
                        (0 <= b < c && is_residue_vector(x, column(src, b), self.from.q@))
                            ==> forall|a: int|
                            ncm <= a < k_to ==> (#[trigger] mat_seq(m)[a][b]) as nat
                                == scaled_residue(
                                x,
                                prod(self.from.q@),
                                self.scaler.factor.n_val(),
                                self.scaler.factor.d_val(),
                                floor,
                                self.to.q@[a],
                            ),
                decreases k_to - ncm - i4,
            {
                m.set(ncm + i4, c, out_col[i4]);
                i4 = i4 + 1;
            }
            c = c + 1;
        }
        // For transform-domain inputs, transform the scaled rows forward.
        let ghost mid = mat_seq(m);
        if is_ntt {
            let mut i5: usize = ncm;
            while i5 < k_to
                invariant
                    self.wf(),
                    p.wf(),
                    p.ctx.q@ == self.from.q@,
                    p.ctx.degree == self.from.degree,
                    k_to == self.to.q@.len(),
                    deg == self.from.degree,
                    ncm == self.number_common_moduli,
                    ncm <= i5 <= k_to,
                    mid.len() == k_to as int,
                    forall|a: int| 0 <= a < k_to ==> (#[trigger] mid[a]).len() == deg as int,
                    mat_seq(m).len() == k_to as int,
                    forall|a: int| 0 <= a < k_to ==> #[trigger] mat_seq(m)[a].len() == deg as int,
                    forall|a: int|
                        0 <= a < ncm ==> #[trigger] mat_seq(m)[a] == mid[a],
                    forall|a: int|
                        i5 <= a < k_to ==> #[trigger] mat_seq(m)[a] == mid[a],
                    forall|a: int|
                        ncm <= a < i5 ==> #[trigger] mat_seq(m)[a] == self.to.ops@[
                            a].spec_forward(mid[a]),
                    forall|a: int, b: int|
                        ncm <= a < i5 && 0 <= b < deg ==> #[trigger] (mat_seq(m)[a][b])
                            < self.to.q@[a],
                decreases k_to - i5,
            {
                let row = m.get_row(i5, deg);
                let op = &self.to.ops[i5];
                let f = if p.allow_variable_time_computations {
                    op.forward_vt(&row)
                } else {
                    op.forward(&row)
                };
                m.set_row(i5, &f);
                i5 = i5 + 1;
            }
        }
        let out = Poly {
            ctx: clone_context_handle(&self.to),
            representation: p.representation,
            allow_variable_time_computations: p.allow_variable_time_computations,
            coefficients: m,
            coefficients_shoup: None,
        };
        proof {
            assert forall|a: int| 0 <= a < ncm implies #[trigger] out.rows()[a] == p.rows()[
                a] by {
                assert(out.rows()[a] =~= p.rows()[a]);
            }
            if is_ntt {
                let back = Seq::new(
                    p.rows().len(),
                    |a: int| self.from.ops@[a].spec_backward(p.rows()[a]),
                );
                assert(src =~= back);
                assert(scale_mid_post(*self, *p, out, floor, mid));
            } else {
                assert(src =~= p.rows());
            }
        }
        Ok(out)
    }
}

/// Representation invariance: scaling a polynomial in the power basis
/// gives, bit for bit, the power-basis form of scaling its
/// transform-domain image. `p_t` is `p` carried into the transform domain
/// by its own context's operators, as `change_representation` produces
/// it; `out_pb` and `out_t` are the two scaled results. Converting
/// `out_t` back to the power basis (row-wise backward transform under the
/// destination context) yields exactly the rows of `out_pb`. No operator
/// assumption is needed: a context's operators are a function of its
/// moduli and degree alone, so contexts that agree on a modulus agree on
/// its operator.
pub proof fn lemma_representation_invariance(
    s: Scaler,
    p: Poly,
    p_t: Poly,
    out_pb: Poly,
    out_t: Poly,
    floor_mode: bool,
)
    requires
        s.wf(),
        p.wf(),
        p.representation == Representation::PowerBasis,
        p.ctx.q@ == s.from.q@,
        p.ctx.degree == s.from.degree,
        p_t.representation == Representation::Ntt,
        p_t.rows().len() == p.rows().len(),
        forall|i: int|
            0 <= i < p_t.rows().len() ==> #[trigger] p_t.rows()[i] == p.ctx.ops@[i].spec_forward(
                p.rows()[i],
            ),
        scale_post(s, p, out_pb, floor_mode),
        scale_post(s, p_t, out_t, floor_mode),
    ensures
        forall|i: int|
            0 <= i < s.to.q@.len() ==> #[trigger] s.to.ops@[i].spec_backward(out_t.rows()[i])
                == out_pb.rows()[i],
{
    assert forall|i: int| 0 <= i < s.from.q@.len() implies #[trigger] p_t.rows()[i]
        == s.from.ops@[i].spec_forward(p.rows()[i]) by {
        assert(p.ctx.q@[i] == s.from.q@[i]);
        assert(table(p.ctx.ops@[i].fwd@) == table(s.from.ops@[i].fwd@));
        assert(p.ctx.ops@[i].q == s.from.ops@[i].q);
    }
    let k_to = s.to.q@.len() as int;
    let ncm = s.number_common_moduli as int;
    let deg = s.from.degree as int;
    let mid = choose|mid: Seq<Seq<u64>>| scale_mid_post(s, p_t, out_t, floor_mode, mid);
    assert(scale_mid_post(s, p_t, out_t, floor_mode, mid));
    let back = Seq::new(p_t.rows().len(), |i: int| s.from.ops@[i].spec_backward(p_t.rows()[i]));
    assert forall|i: int| 0 <= i < p.rows().len() implies back[i] == p.rows()[i] by {
        lemma_transform_roundtrip(s.from.ops@[i], p.rows()[i]);
    }
    assert(back =~= p.rows());
    assert(scaled_rows_post(s, p.rows(), mid, floor_mode));
    assert forall|i: int| 0 <= i < k_to implies s.to.ops@[i].spec_backward(out_t.rows()[i])
        == out_pb.rows()[i] by {
        if i < ncm {
            assert(out_t.rows()[i] == p_t.rows()[i]);
            assert(p_t.rows()[i] == s.from.ops@[i].spec_forward(p.rows()[i]));
            lemma_transform_roundtrip(s.from.ops@[i], p.rows()[i]);
            assert(s.scaler.factor.is_one);
            assert(s.from.q@[i] == s.to.q@[i]);
            assert(table(s.to.ops@[i].bwd@) == table(s.from.ops@[i].bwd@));
            assert(s.to.ops@[i].q == s.from.ops@[i].q);
            assert(s.to.ops@[i].spec_backward(out_t.rows()[i]) == s.from.ops@[
                i].spec_backward(out_t.rows()[i]));
            assert(s.to.ops@[i].spec_backward(out_t.rows()[i]) == p.rows()[i]);
            assert(out_pb.rows()[i] == p.rows()[i]);
        } else {
            assert(out_t.rows()[i] == s.to.ops@[i].spec_forward(mid[i]));
            assert(forall|j: int| 0 <= j < deg ==> #[trigger] (mid[i][j]) < s.to.q@[i]);
            lemma_transform_roundtrip(s.to.ops@[i], mid[i]);
            assert(s.to.ops@[i].spec_backward(out_t.rows()[i]) == mid[i]);
            assert forall|c2: int| 0 <= c2 < deg implies mid[i][c2] == out_pb.rows()[i][c2] by {
                assert(forall|a: int|
                    0 <= a < s.from.q@.len() ==> #[trigger] s.from.q@[a] >= 2);
                lemma_residue_vector_exists(
                    s.from.q@,
                    garner_vals(s.from.garner@),
                    column(p.rows(), c2),
                );
                let x = choose|x: nat| is_residue_vector(x, column(p.rows(), c2), s.from.q@);
                assert(is_residue_vector(x, column(p.rows(), c2), s.from.q@));
                assert(mid[i][c2] as nat == scaled_residue(
                    x,
                    prod(s.from.q@),
                    s.scaler.factor.n_val(),
                    s.scaler.factor.d_val(),
                    floor_mode,
                    s.to.q@[i],
                ));
                assert(out_pb.rows()[i][c2] as nat == scaled_residue(
                    x,
                    prod(s.from.q@),
                    s.scaler.factor.n_val(),
                    s.scaler.factor.d_val(),
                    floor_mode,
                    s.to.q@[i],
                ));
            }
            assert(mid[i] =~= out_pb.rows()[i]);
        }
    }
}

/// Identity scaling: when source and destination are the same ring and
/// the factor is one, every modulus is a common-prefix modulus, so a
/// successful `scale` returns a polynomial whose residues equal the
/// input's, in either rounding mode and either representation.
pub proof fn lemma_identity_scaling(s: Scaler, p: Poly, out: Poly, floor_mode: bool)
    requires
        s.wf(),
        p.wf(),
        s.from.q@ == s.to.q@,
        s.scaler.factor.is_one,
        p.ctx.q@ == s.from.q@,
        p.ctx.degree == s.from.degree,
        scale_post(s, p, out, floor_mode),
    ensures
        out.rows() == p.rows(),
        out.representation == p.representation,
{
    let t = s.number_common_moduli as int;
    if t < s.from.q@.len() {
        assert(s.from.q@[t] == s.to.q@[t]);
        assert(false);
    }
    assert(out.rows() =~= p.rows());
}

} // verus!
