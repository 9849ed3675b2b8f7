//! The residue matrix of a polynomial, stored as an `ndarray::Array2<u64>`
//! behind a trusted interface.
//!
//! `mat_seq` names the contents of the array, row by row; every trusted
//! method states its effect on that view.

use vstd::prelude::*;

verus! {

/// A `degree`-column matrix of residues, one row per modulus.
///
/// The array type itself cannot be declared to Verus (its trait-bounded
/// generics are out of reach), so the whole struct is held opaque and
/// spoken of only through `mat_seq`.
#[verifier::external_body]
pub struct Matrix {
    inner: ndarray::Array2<u64>,
}

/// The rows of the array, as sequences of residues.
pub uninterp spec fn mat_seq(m: Matrix) -> Seq<Seq<u64>>;

impl Matrix {
    /// Relies on `Array2::zeros`: an all-zero array of the given shape.
    #[verifier::external_body]
    pub fn zeros(rows: usize, cols: usize) -> (r: Matrix)
        ensures
            mat_seq(r).len() == rows as int,
            forall|i: int| 0 <= i < rows ==> #[trigger] mat_seq(r)[i].len() == cols as int,
            forall|i: int, j: int|
                0 <= i < rows && 0 <= j < cols ==> #[trigger] mat_seq(r)[i][j] == 0u64,
    {
        Matrix { inner: ndarray::Array2::<u64>::zeros((rows, cols)) }
    }

    /// Relies on `Index for ArrayBase`: reads the entry at `[i, j]`.
    #[verifier::external_body]
    pub fn get(&self, i: usize, j: usize) -> (r: u64)
        requires
            i < mat_seq(*self).len(),
            j < mat_seq(*self)[i as int].len(),
        ensures
            r == mat_seq(*self)[i as int][j as int],
    {
        self.inner[[i, j]]
    }

    /// Relies on `IndexMut for ArrayBase`: writes the entry at `[i, j]` and
    /// changes nothing else.
    #[verifier::external_body]
    pub fn set(&mut self, i: usize, j: usize, v: u64)
        requires
            i < mat_seq(*old(self)).len(),
            j < mat_seq(*old(self))[i as int].len(),
        ensures
            mat_seq(*final(self)) == mat_seq(*old(self)).update(
                i as int,
                mat_seq(*old(self))[i as int].update(j as int, v),
            ),
    {
        self.inner[[i, j]] = v;
    }

    /// Relies on `Clone for ArrayBase`: the copy has the same contents.
    #[verifier::external_body]
    pub fn clone_matrix(&self) -> (r: Matrix)
        ensures
            mat_seq(r) == mat_seq(*self),
    {
        Matrix { inner: self.inner.clone() }
    }

    /// Reads row `i` out into an owned vector.
    pub fn get_row(&self, i: usize, cols: usize) -> (r: Vec<u64>)
        requires
            i < mat_seq(*self).len(),
            mat_seq(*self)[i as int].len() == cols as int,
        ensures
            r@ == mat_seq(*self)[i as int],
    {
        let mut out: Vec<u64> = Vec::new();
        let mut j: usize = 0;
        while j < cols
            invariant
                i < mat_seq(*self).len(),
                mat_seq(*self)[i as int].len() == cols as int,
                j <= cols,
                out@.len() == j as int,
                forall|b: int| 0 <= b < j ==> out@[b] == mat_seq(*self)[i as int][b],
            decreases cols - j,
        {
            out.push(self.get(i, j));
            j = j + 1;
        }
        proof {
            assert(out@ =~= mat_seq(*self)[i as int]);
        }
        out
    }

    /// Overwrites row `i` with the given vector.
    pub fn set_row(&mut self, i: usize, v: &Vec<u64>)
        requires
            i < mat_seq(*old(self)).len(),
            v@.len() == mat_seq(*old(self))[i as int].len(),
        ensures
            mat_seq(*final(self)) == mat_seq(*old(self)).update(i as int, v@),
    {
        let mut j: usize = 0;
        while j < v.len()
            invariant
                i < mat_seq(*self).len(),
                mat_seq(*self).len() == mat_seq(*old(self)).len(),
                v@.len() == mat_seq(*old(self))[i as int].len(),
                j <= v@.len(),
                forall|a: int|
                    0 <= a < mat_seq(*self).len() && a != i ==> #[trigger] mat_seq(*self)[a]
                        == mat_seq(*old(self))[a],
                mat_seq(*self)[i as int].len() == mat_seq(*old(self))[i as int].len(),
                forall|b: int| 0 <= b < j ==> mat_seq(*self)[i as int][b] == v@[b],
                forall|b: int|
                    j <= b < v@.len() ==> mat_seq(*self)[i as int][b]
                        == mat_seq(*old(self))[i as int][b],
            decreases v@.len() - j,
        {
            self.set(i, j, v[j]);
            j = j + 1;
        }
        proof {
            assert(mat_seq(*self)[i as int] =~= v@);
            assert(mat_seq(*self) =~= mat_seq(*old(self)).update(i as int, v@));
        }
    }
}

} // verus!
