//! Ring elements: a matrix of residues tagged with its current
//! representation, owned together with a shared handle to its context.

use vstd::prelude::*;
use std::rc::Rc;
use crate::bigint::big_val;
use crate::context::{clone_context_handle, Context};
use crate::crt::is_residue_vector;
use crate::matrix::{mat_seq, Matrix};

verus! {

/// Which mathematical form the coefficient matrix currently holds.
#[derive(Clone, Copy, PartialEq, Eq, Structural, Debug)]
pub enum Representation {
    /// An explicit coefficient vector per modulus.
    PowerBasis,
    /// Per-modulus transform-domain values.
    Ntt,
}

/// One column of a row-major residue matrix.
pub open spec fn column(rows: Seq<Seq<u64>>, c: int) -> Seq<u64> {
    Seq::new(rows.len(), |i: int| rows[i][c])
}

/// A polynomial of the ring described by `ctx`: one row of residues per
/// modulus, each reduced to its modulus.
pub struct Poly {
    pub ctx: Rc<Context>,
    pub representation: Representation,
    pub allow_variable_time_computations: bool,
    pub coefficients: Matrix,
    pub coefficients_shoup: Option<Matrix>,
}

impl Poly {
    /// The residue rows.
    pub open spec fn rows(self) -> Seq<Seq<u64>> {
        mat_seq(self.coefficients)
    }

    pub open spec fn wf(self) -> bool {
        &&& self.ctx.wf()
        &&& self.rows().len() == self.ctx.q@.len()
        &&& forall|i: int|
            0 <= i < self.rows().len() ==> (#[trigger] self.rows()[i]).len()
                == self.ctx.degree as int
        &&& forall|i: int, j: int|
            0 <= i < self.rows().len() && 0 <= j < self.ctx.degree ==> #[trigger] (
            self.rows()[i][j]) < self.ctx.q@[i]
    }

    /// The all-zero polynomial.
    pub fn zero(ctx: &Rc<Context>, representation: Representation) -> (r: Poly)
        requires
            ctx.wf(),
        ensures
            r.wf(),
            r.ctx == *ctx,
            r.representation == representation,
            !r.allow_variable_time_computations,
            forall|i: int, j: int|
                0 <= i < r.rows().len() && 0 <= j < ctx.degree ==> #[trigger] (r.rows()[i][j])
                    == 0u64,
    {
        let m = Matrix::zeros(ctx.q.len(), ctx.degree);
        Poly {
            ctx: clone_context_handle(ctx),
            representation,
            allow_variable_time_computations: false,
            coefficients: m,
            coefficients_shoup: None,
        }
    }

    /// A polynomial whose every coefficient is the given word, reduced to
    /// each modulus of the chain.
    pub fn from_u64_coefficients(ctx: &Rc<Context>, values: &Vec<u64>) -> (r: Poly)
        requires
            ctx.wf(),
            values@.len() == ctx.degree as int,
        ensures
            r.wf(),
            r.ctx == *ctx,
            r.representation == Representation::PowerBasis,
            !r.allow_variable_time_computations,
            forall|i: int, j: int|
                0 <= i < r.rows().len() && 0 <= j < ctx.degree ==> #[trigger] (r.rows()[i][j])
                    == values@[j] % ctx.q@[i],
    {
        let k = ctx.q.len();
        let deg = ctx.degree;
        let mut m = Matrix::zeros(k, deg);
        let mut i: usize = 0;
        while i < k
            invariant
                ctx.wf(),
                k == ctx.q@.len(),
                deg == ctx.degree,
                values@.len() == deg as int,
                i <= k,
                mat_seq(m).len() == k as int,
                forall|a: int| 0 <= a < k ==> #[trigger] mat_seq(m)[a].len() == deg as int,
                forall|a: int, b: int|
                    0 <= a < i && 0 <= b < deg ==> #[trigger] (mat_seq(m)[a][b]) == values@[b]
                        % ctx.q@[a],
                forall|a: int, b: int|
                    i <= a < k && 0 <= b < deg ==> #[trigger] (mat_seq(m)[a][b]) == 0u64,
            decreases k - i,
        {
            let qi = ctx.q[i];
            let mut j: usize = 0;
            while j < deg
                invariant
                    ctx.wf(),
                    k == ctx.q@.len(),
                    deg == ctx.degree,
                    values@.len() == deg as int,
                    i < k,
                    j <= deg,
                    qi == ctx.q@[i as int],
                    mat_seq(m).len() == k as int,
                    forall|a: int| 0 <= a < k ==> #[trigger] mat_seq(m)[a].len() == deg as int,
                    forall|a: int, b: int|
                        0 <= a < i && 0 <= b < deg ==> #[trigger] (mat_seq(m)[a][b]) == values@[b]
                            % ctx.q@[a],
                    forall|b: int|
                        0 <= b < j ==> #[trigger] (mat_seq(m)[i as int][b]) == values@[b] % ctx.q@[
                            i as int],
                    forall|b: int| j <= b < deg ==> #[trigger] (mat_seq(m)[i as int][b]) == 0u64,
                    forall|a: int, b: int|
                        i < a < k && 0 <= b < deg ==> #[trigger] (mat_seq(m)[a][b]) == 0u64,
                decreases deg - j,
            {
                m.set(i, j, values[j] % qi);
                j = j + 1;
            }
            i = i + 1;
        }
        Poly {
            ctx: clone_context_handle(ctx),
            representation: Representation::PowerBasis,
            allow_variable_time_computations: false,
            coefficients: m,
            coefficients_shoup: None,
        }
    }

    /// A polynomial with uniformly drawn residues. Nothing is promised of
    /// the drawn values beyond well-formedness.
    pub fn random(ctx: &Rc<Context>, representation: Representation) -> (r: Poly)
        requires
            ctx.wf(),
        ensures
            r.wf(),
            r.ctx == *ctx,
            r.representation == representation,
            !r.allow_variable_time_computations,
    {
        let k = ctx.q.len();
        let deg = ctx.degree;
        let mut m = Matrix::zeros(k, deg);
        let mut i: usize = 0;
        while i < k
            invariant
                ctx.wf(),
                k == ctx.q@.len(),
                deg == ctx.degree,
                i <= k,
                mat_seq(m).len() == k as int,
                forall|a: int| 0 <= a < k ==> #[trigger] mat_seq(m)[a].len() == deg as int,
                forall|a: int, b: int|
                    0 <= a < k && 0 <= b < deg ==> #[trigger] (mat_seq(m)[a][b]) < ctx.q@[a],
            decreases k - i,
        {
            let qi = ctx.q[i];
            let mut j: usize = 0;
            while j < deg
                invariant
                    ctx.wf(),
                    k == ctx.q@.len(),
                    deg == ctx.degree,
                    i < k,
                    j <= deg,
                    qi == ctx.q@[i as int],
                    mat_seq(m).len() == k as int,
                    forall|a: int| 0 <= a < k ==> #[trigger] mat_seq(m)[a].len() == deg as int,
                    forall|a: int, b: int|
                        0 <= a < k && 0 <= b < deg ==> #[trigger] (mat_seq(m)[a][b]) < ctx.q@[a],
                decreases deg - j,
            {
                m.set(i, j, random_u64() % qi);
                j = j + 1;
            }
            i = i + 1;
        }
        Poly {
            ctx: clone_context_handle(ctx),
            representation,
            allow_variable_time_computations: false,
            coefficients: m,
            coefficients_shoup: None,
        }
    }

    /// Chooses the transform variant for this polynomial: the
    /// variable-time paths are faster but leak data through timing, so
    /// this is an explicit opt-in for non-secret data.
    pub fn set_allow_variable_time(&mut self, allow: bool)
        ensures
            *final(self) == (Poly { allow_variable_time_computations: allow, ..*old(self) }),
    {
        self.allow_variable_time_computations = allow;
    }

    /// Converts the polynomial in place between its two representations,
    /// using the per-modulus transform of its context (the variable-time
    /// variant when this polynomial allows it).
    pub fn change_representation(&mut self, to: Representation)
        requires
            old(self).wf(),
        ensures
            final(self).wf(),
            final(self).ctx == old(self).ctx,
            final(self).allow_variable_time_computations == old(
                self,
            ).allow_variable_time_computations,
            final(self).representation == to,
            final(self).rows().len() == old(self).rows().len(),
            old(self).representation == to ==> final(self).rows() == old(self).rows(),
            old(self).representation != to && to == Representation::Ntt ==> forall|i: int|
                0 <= i < final(self).rows().len() ==> #[trigger] final(self).rows()[i] == old(
                    self,
                ).ctx.ops@[i].spec_forward(old(self).rows()[i]),
            old(self).representation != to && to == Representation::PowerBasis ==> forall|i: int|
                0 <= i < final(self).rows().len() ==> #[trigger] final(self).rows()[i] == old(
                    self,
                ).ctx.ops@[i].spec_backward(old(self).rows()[i]),
    {
        if self.representation == to {
            return ;
        }
        let k = self.ctx.q.len();
        let deg = self.ctx.degree;
        let forward = match to {
            Representation::Ntt => true,
            Representation::PowerBasis => false,
        };
        let mut i: usize = 0;
        while i < k
            invariant
                old(self).wf(),
                self.ctx == old(self).ctx,
                self.representation == old(self).representation,
                self.allow_variable_time_computations == old(
                    self,
                ).allow_variable_time_computations,
                self.coefficients_shoup == old(self).coefficients_shoup,
                k == self.ctx.q@.len(),
                deg == self.ctx.degree,
                i <= k,
                self.rows().len() == k as int,
                forall|a: int|
                    0 <= a < k ==> (#[trigger] self.rows()[a]).len() == deg as int,
                forall|a: int, b: int|
                    0 <= a < k && 0 <= b < deg ==> #[trigger] (self.rows()[a][b])
                        < self.ctx.q@[a],
                forall|a: int|
                    i <= a < k ==> #[trigger] self.rows()[a] == old(self).rows()[a],
                forward ==> forall|a: int|
                    0 <= a < i ==> #[trigger] self.rows()[a] == old(self).ctx.ops@[
                        a].spec_forward(old(self).rows()[a]),
                !forward ==> forall|a: int|
                    0 <= a < i ==> #[trigger] self.rows()[a] == old(self).ctx.ops@[
                        a].spec_backward(old(self).rows()[a]),
            decreases k - i,
        {
            let row = self.coefficients.get_row(i, deg);
            let op = &self.ctx.ops[i];
            let new_row = if forward {
                if self.allow_variable_time_computations {
                    op.forward_vt(&row)
                } else {
                    op.forward(&row)
                }
            } else {
                if self.allow_variable_time_computations {
                    op.backward_vt(&row)
                } else {
                    op.backward(&row)
                }
            };
            self.coefficients.set_row(i, &new_row);
            i = i + 1;
        }
        self.representation = to;
    }

    /// The integer value of each ring coefficient, recombined across the
    /// modulus chain: entry `c` is the unique integer below the chain's
    /// product whose residues form column `c` of the matrix.
    pub fn coefficient_values(&self) -> (r: Vec<num_bigint::BigUint>)
        requires
            self.wf(),
        ensures
            r@.len() == self.ctx.degree as int,
            forall|c: int|
                0 <= c < r@.len() ==> is_residue_vector(
                    big_val(#[trigger] r@[c]),
                    column(self.rows(), c),
                    self.ctx.q@,
                ),
    {
        let k = self.ctx.q.len();
        let deg = self.ctx.degree;
        let mut out: Vec<num_bigint::BigUint> = Vec::new();
        let mut c: usize = 0;
        while c < deg
            invariant
                self.wf(),
                k == self.ctx.q@.len(),
                deg == self.ctx.degree,
                c <= deg,
                out@.len() == c as int,
                forall|a: int|
                    0 <= a < c ==> is_residue_vector(
                        big_val(#[trigger] out@[a]),
                        column(self.rows(), a),
                        self.ctx.q@,
                    ),
            decreases deg - c,
        {
            let mut col: Vec<u64> = Vec::new();
            let mut i: usize = 0;
            while i < k
                invariant
                    self.wf(),
                    k == self.ctx.q@.len(),
                    deg == self.ctx.degree,
                    c < deg,
                    i <= k,
                    col@.len() == i as int,
                    forall|a: int| 0 <= a < i ==> #[trigger] col@[a] == self.rows()[a][c as int],
                decreases k - i,
            {
                col.push(self.coefficients.get(i, c));
                i = i + 1;
            }
            proof {
                assert(col@ =~= column(self.rows(), c as int));
            }
            out.push(self.ctx.reconstruct(&col));
            c = c + 1;
        }
        out
    }
}

/// Relies on `rand::random::<u64>`; nothing is promised of the value.
#[verifier::external_body]
fn random_u64() -> u64 {
    rand::random::<u64>()
}

} // verus!
