//! Whole-matrix arithmetic: element-wise addition and subtraction, and the
//! standard matrix product, all over exact fraction arithmetic.

use crate::fracs::{f_add, f_fits, f_mul, f_sub, reduced, Frac};
use crate::mats::{Grid, MatError, Matrix, Rat};
use vstd::prelude::*;

verus! {

/// Every entry of the element-wise sum fits 32 bits.
pub open spec fn mat_add_ok(a: Grid, b: Grid) -> bool {
    forall|i: int, j: int|
        0 <= i < a.len() && 0 <= j < a[i].len() ==> f_fits(#[trigger] f_add(a[i][j], b[i][j]))
}

/// The element-wise sum of two grids of the same shape.
pub open spec fn mat_add(a: Grid, b: Grid) -> Grid {
    Seq::new(a.len(), |i: int| Seq::new(a[i].len() as nat, |j: int| f_add(a[i][j], b[i][j])))
}

/// Every entry of the element-wise difference fits 32 bits.
pub open spec fn mat_sub_ok(a: Grid, b: Grid) -> bool {
    forall|i: int, j: int|
        0 <= i < a.len() && 0 <= j < a[i].len() ==> f_fits(#[trigger] f_sub(a[i][j], b[i][j]))
}

/// The element-wise difference of two grids of the same shape.
pub open spec fn mat_sub(a: Grid, b: Grid) -> Grid {
    Seq::new(a.len(), |i: int| Seq::new(a[i].len() as nat, |j: int| f_sub(a[i][j], b[i][j])))
}

/// The running sum of the first `k` products of row `i` of `a` with column
/// `o` of `b`, starting from the zero fraction; `None` as soon as a product
/// or a partial sum leaves the 32-bit range.
pub open spec fn dot_prefix(a: Grid, b: Grid, i: int, o: int, k: int) -> Option<Rat>
    decreases k,
{
    if k <= 0 {
        Some((0int, 1int))
    } else {
        match dot_prefix(a, b, i, o, k - 1) {
            None => None,
            Some(acc) => {
                let p = f_mul(a[i][k - 1], b[k - 1][o]);
                if f_fits(p) && f_fits(f_add(acc, p)) {
                    Some(f_add(acc, p))
                } else {
                    None
                }
            },
        }
    }
}

/// Every entry of the product of `a` (rows by `inner`) and `b` (`inner` by
/// columns) stays within the 32-bit range throughout its running sums.
pub open spec fn mat_mul_ok(a: Grid, b: Grid, inner: int, cols: int) -> bool {
    forall|i: int, o: int|
        0 <= i < a.len() && 0 <= o < cols ==> (#[trigger] dot_prefix(a, b, i, o, inner)) is Some
}

/// The matrix product of `a` and `b`.
pub open spec fn mat_mul(a: Grid, b: Grid, inner: int, cols: int) -> Grid {
    Seq::new(a.len(), |i: int| Seq::new(cols as nat, |o: int| dot_prefix(a, b, i, o, inner).unwrap()))
}

/// A failed running sum stays failed as more products are added.
proof fn lemma_dot_none(a: Grid, b: Grid, i: int, o: int, k1: int, k2: int)
    requires
        0 <= k1 <= k2,
        dot_prefix(a, b, i, o, k1) is None,
    ensures
        dot_prefix(a, b, i, o, k2) is None,
    decreases k2 - k1,
{
    if k1 < k2 {
        lemma_dot_none(a, b, i, o, k1, k2 - 1);
    }
}

impl Matrix {
    /// Element-wise addition of a matrix of the same shape, in place. Fails
    /// with a shape error when the dimensions differ, and with overflow when
    /// an entry leaves the 32-bit range; in both cases the matrix is
    /// unchanged.
    pub fn add(&mut self, other: Matrix) -> (r: Result<(), MatError>)
        requires
            old(self).wf(),
            other.wf(),
        ensures
            final(self).wf(),
            final(self).dimension == old(self).dimension,
            match r {
                Ok(()) => old(self).dimension == other.dimension && mat_add_ok(old(self)@, other@)
                    && final(self)@ == mat_add(old(self)@, other@),
                Err(MatError::DimensionMismatch) => old(self).dimension != other.dimension
                    && *final(self) == *old(self),
                Err(MatError::Overflow) => old(self).dimension == other.dimension && !mat_add_ok(
                    old(self)@,
                    other@,
                ) && *final(self) == *old(self),
                Err(_) => false,
            },
    {
        if self.dimension.0 != other.dimension.0 || self.dimension.1 != other.dimension.1 {
            return Err(MatError::DimensionMismatch);
        }
        let ghost ga = self@;
        let ghost gb = other@;
        let rows = self.dimension.0;
        let cols = self.dimension.1;
        let mut mat: Vec<Vec<Frac>> = Vec::new();
        let mut i: usize = 0;
        while i < rows
            invariant
                *self == *old(self),
                self.wf(),
                other.wf(),
                ga == self@,
                gb == other@,
                self.dimension == other.dimension,
                rows == self.dimension.0,
                cols == self.dimension.1,
                i <= rows,
                mat@.len() == i,
                forall|k: int| 0 <= k < i ==> (#[trigger] mat@[k])@.len() == cols,
                forall|k: int, j: int|
                    0 <= k < i && 0 <= j < cols ==> f_fits(#[trigger] f_add(ga[k][j], gb[k][j]))
                        && mat@[k]@[j]@ == f_add(ga[k][j], gb[k][j]) && mat@[k]@[j].wf(),
            decreases rows - i,
        {
            let mut row: Vec<Frac> = Vec::new();
            let mut j: usize = 0;
            while j < cols
                invariant
                    *self == *old(self),
                    self.wf(),
                    other.wf(),
                    ga == self@,
                    gb == other@,
                    self.dimension == other.dimension,
                    rows == self.dimension.0,
                    cols == self.dimension.1,
                    i < rows,
                    j <= cols,
                    row@.len() == j,
                    forall|k: int|
                        0 <= k < j ==> f_fits(#[trigger] f_add(ga[i as int][k], gb[i as int][k]))
                            && row@[k]@ == f_add(ga[i as int][k], gb[i as int][k])
                            && row@[k].wf(),
                decreases cols - j,
            {
                proof {
                    assert(ga[i as int].len() == cols as int);
                    assert(gb[i as int].len() == cols as int);
                }
                let x = self.matrix[i][j];
                let y = other.matrix[i][j];
                proof {
                    assert(x@ == ga[i as int][j as int]);
                    assert(y@ == gb[i as int][j as int]);
                }
                match x.add(y) {
                    Some(f) => { row.push(f) },
                    None => {
                        return Err(MatError::Overflow);
                    },
                }
                j += 1;
            }
            mat.push(row);
            i += 1;
        }
        self.matrix = mat;
        proof {
            assert(self@ =~~= mat_add(ga, gb));
            assert forall|ii: int, jj: int|
                0 <= ii < rows && 0 <= jj < cols implies reduced(#[trigger] self@[ii][jj]) by {
                assert(self@[ii][jj] == mat@[ii]@[jj]@);
                assert(mat@[ii]@[jj].wf());
            }
            assert(self.wf());
        }
        Ok(())
    }

    /// Element-wise subtraction of a matrix of the same shape, in place.
    /// Fails as addition does; on failure the matrix is unchanged.
    pub fn sub(&mut self, other: Matrix) -> (r: Result<(), MatError>)
        requires
            old(self).wf(),
            other.wf(),
        ensures
            final(self).wf(),
            final(self).dimension == old(self).dimension,
            match r {
                Ok(()) => old(self).dimension == other.dimension && mat_sub_ok(old(self)@, other@)
                    && final(self)@ == mat_sub(old(self)@, other@),
                Err(MatError::DimensionMismatch) => old(self).dimension != other.dimension
                    && *final(self) == *old(self),
                Err(MatError::Overflow) => old(self).dimension == other.dimension && !mat_sub_ok(
                    old(self)@,
                    other@,
                ) && *final(self) == *old(self),
                Err(_) => false,
            },
    {
        if self.dimension.0 != other.dimension.0 || self.dimension.1 != other.dimension.1 {
            return Err(MatError::DimensionMismatch);
        }
        let ghost ga = self@;
        let ghost gb = other@;
        let rows = self.dimension.0;
        let cols = self.dimension.1;
        let mut mat: Vec<Vec<Frac>> = Vec::new();
        let mut i: usize = 0;
        while i < rows
            invariant
                *self == *old(self),
                self.wf(),
                other.wf(),
                ga == self@,
                gb == other@,
                self.dimension == other.dimension,
                rows == self.dimension.0,
                cols == self.dimension.1,
                i <= rows,
                mat@.len() == i,
                forall|k: int| 0 <= k < i ==> (#[trigger] mat@[k])@.len() == cols,
                forall|k: int, j: int|
                    0 <= k < i && 0 <= j < cols ==> f_fits(#[trigger] f_sub(ga[k][j], gb[k][j]))
                        && mat@[k]@[j]@ == f_sub(ga[k][j], gb[k][j]) && mat@[k]@[j].wf(),
            decreases rows - i,
        {
            let mut row: Vec<Frac> = Vec::new();
            let mut j: usize = 0;
            while j < cols
                invariant
                    *self == *old(self),
                    self.wf(),
                    other.wf(),
                    ga == self@,
                    gb == other@,
                    self.dimension == other.dimension,
                    rows == self.dimension.0,
                    cols == self.dimension.1,
                    i < rows,
                    j <= cols,
                    row@.len() == j,
                    forall|k: int|
                        0 <= k < j ==> f_fits(#[trigger] f_sub(ga[i as int][k], gb[i as int][k]))
                            && row@[k]@ == f_sub(ga[i as int][k], gb[i as int][k])
                            && row@[k].wf(),
                decreases cols - j,
            {
                proof {
                    assert(ga[i as int].len() == cols as int);
                    assert(gb[i as int].len() == cols as int);
                }
                let x = self.matrix[i][j];
                let y = other.matrix[i][j];
                proof {
                    assert(x@ == ga[i as int][j as int]);
                    assert(y@ == gb[i as int][j as int]);
                }
                match x.sub(y) {
                    Some(f) => { row.push(f) },
                    None => {
                        return Err(MatError::Overflow);
                    },
                }
                j += 1;
            }
            mat.push(row);
            i += 1;
        }
        self.matrix = mat;
        proof {
            assert(self@ =~~= mat_sub(ga, gb));
            assert forall|ii: int, jj: int|
                0 <= ii < rows && 0 <= jj < cols implies reduced(#[trigger] self@[ii][jj]) by {
                assert(self@[ii][jj] == mat@[ii]@[jj]@);
                assert(mat@[ii]@[jj].wf());
            }
            assert(self.wf());
        }
        Ok(())
    }

    /// The matrix product `self * other`. Fails with a shape error when
    /// `self.cols != other.rows`, and with overflow when a product or a
    /// running sum leaves the 32-bit range.
    pub fn mul(&self, other: &Matrix) -> (r: Result<Matrix, MatError>)
        requires
            self.wf(),
            other.wf(),
        ensures
            match r {
                Ok(m) => {
                    &&& self.dimension.1 == other.dimension.0
                    &&& mat_mul_ok(self@, other@, self.dimension.1 as int, other.dimension.1 as int)
                    &&& m.wf()
                    &&& m.dimension.0 == self.dimension.0
                    &&& m.dimension.1 == other.dimension.1
                    &&& m@ == mat_mul(self@, other@, self.dimension.1 as int, other.dimension.1 as int)
                },
                Err(MatError::InnerDimensionMismatch) => self.dimension.1 != other.dimension.0,
                Err(MatError::Overflow) => self.dimension.1 == other.dimension.0 && !mat_mul_ok(
                    self@,
                    other@,
                    self.dimension.1 as int,
                    other.dimension.1 as int,
                ),
                Err(_) => false,
            },
    {
        if self.dimension.1 != other.dimension.0 {
            return Err(MatError::InnerDimensionMismatch);
        }
        let ghost ga = self@;
        let ghost gb = other@;
        let rows = self.dimension.0;
        let inner = self.dimension.1;
        let cols = other.dimension.1;
        let mut mat: Vec<Vec<Frac>> = Vec::new();
        let mut i: usize = 0;
        while i < rows
            invariant
                self.wf(),
                other.wf(),
                ga == self@,
                gb == other@,
                self.dimension.1 == other.dimension.0,
                rows == self.dimension.0,
                inner == self.dimension.1,
                cols == other.dimension.1,
                i <= rows,
                mat@.len() == i,
                forall|k: int| 0 <= k < i ==> (#[trigger] mat@[k])@.len() == cols,
                forall|k: int, o: int|
                    0 <= k < i && 0 <= o < cols ==> (#[trigger] dot_prefix(
                        ga,
                        gb,
                        k,
                        o,
                        inner as int,
                    )) is Some && mat@[k]@[o]@ == dot_prefix(ga, gb, k, o, inner as int).unwrap()
                        && mat@[k]@[o].wf(),
            decreases rows - i,
        {
            let mut row: Vec<Frac> = Vec::new();
            let mut o: usize = 0;
            while o < cols
                invariant
                    self.wf(),
                    other.wf(),
                    ga == self@,
                    gb == other@,
                    self.dimension.1 == other.dimension.0,
                    rows == self.dimension.0,
                    inner == self.dimension.1,
                    cols == other.dimension.1,
                    i < rows,
                    o <= cols,
                    row@.len() == o,
                    forall|k: int|
                        0 <= k < o ==> (#[trigger] dot_prefix(
                            ga,
                            gb,
                            i as int,
                            k,
                            inner as int,
                        )) is Some && row@[k]@ == dot_prefix(ga, gb, i as int, k, inner as int).unwrap()
                            && row@[k].wf(),
                decreases cols - o,
            {
                let mut total = Frac { num: 0, den: 1 };
                let mut b: usize = 0;
                while b < inner
                    invariant
                        self.wf(),
                        other.wf(),
                        ga == self@,
                        gb == other@,
                        self.dimension.1 == other.dimension.0,
                        rows == self.dimension.0,
                        inner == self.dimension.1,
                        cols == other.dimension.1,
                        i < rows,
                        o < cols,
                        b <= inner,
                        dot_prefix(ga, gb, i as int, o as int, b as int) == Some(total@),
                        total.wf(),
                    decreases inner - b,
                {
                    proof {
                        assert(ga[i as int].len() == inner as int);
                        assert(gb[b as int].len() == cols as int);
                    }
                    let x = self.matrix[i][b];
                    let y = other.matrix[b][o];
                    proof {
                        assert(x@ == ga[i as int][b as int]);
                        assert(y@ == gb[b as int][o as int]);
                    }
                    let p = match x.mul(y) {
                        Some(p) => p,
                        None => {
                            proof {
                                lemma_dot_none(ga, gb, i as int, o as int, b + 1, inner as int);
                            }
                            return Err(MatError::Overflow);
                        },
                    };
                    total = match total.add(p) {
                        Some(t) => t,
                        None => {
                            proof {
                                lemma_dot_none(ga, gb, i as int, o as int, b + 1, inner as int);
                            }
                            return Err(MatError::Overflow);
                        },
                    };
                    b += 1;
                }
                row.push(total);
                o += 1;
            }
            mat.push(row);
            i += 1;
        }
        let m = Matrix { dimension: (rows, cols), matrix: mat };
        proof {
            assert(m@ =~~= mat_mul(ga, gb, inner as int, cols as int));
            assert forall|ii: int, jj: int|
                0 <= ii < rows && 0 <= jj < cols implies reduced(#[trigger] m@[ii][jj]) by {
                assert(m@[ii][jj] == mat@[ii]@[jj]@);
                assert(mat@[ii]@[jj].wf());
            }
            assert(m.wf());
        }
        Ok(m)
    }
}

} // verus!
