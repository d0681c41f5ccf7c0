//! Elementary row operations: the sole mutation path of the elimination
//! algorithms. Each operation is specified by a grid-level function, and each
//! executable operation either applies it exactly or reports overflow without
//! changing the matrix.

use crate::fracs::{f_add, f_div, f_fits, f_inv, f_mul, f_sub, reduced, Frac};
use crate::mats::{Grid, MatError, Matrix, Rat};
use vstd::prelude::*;

verus! {

/// Every entry of the sum row fits 32 bits.
pub open spec fn row_add_ok(g: Grid, t: int, s: int) -> bool {
    forall|j: int| 0 <= j < g[t].len() ==> f_fits(#[trigger] f_add(g[t][j], g[s][j]))
}

/// Row `t` replaced by the entry-wise sum of rows `t` and `s`.
pub open spec fn row_add_g(g: Grid, t: int, s: int) -> Grid {
    g.update(t, Seq::new(g[t].len(), |j: int| f_add(g[t][j], g[s][j])))
}

/// Every entry of the difference row fits 32 bits.
pub open spec fn row_sub_ok(g: Grid, t: int, s: int) -> bool {
    forall|j: int| 0 <= j < g[t].len() ==> f_fits(#[trigger] f_sub(g[t][j], g[s][j]))
}

/// Row `t` replaced by the entry-wise difference of rows `t` and `s`.
pub open spec fn row_sub_g(g: Grid, t: int, s: int) -> Grid {
    g.update(t, Seq::new(g[t].len(), |j: int| f_sub(g[t][j], g[s][j])))
}

/// Every entry of row `t` scaled by `f` fits 32 bits.
pub open spec fn row_mul_ok(g: Grid, t: int, f: Rat) -> bool {
    forall|j: int| 0 <= j < g[t].len() ==> f_fits(#[trigger] f_mul(g[t][j], f))
}

/// Row `t` scaled entry-wise by the fraction `f`.
pub open spec fn row_mul_g(g: Grid, t: int, f: Rat) -> Grid {
    g.update(t, Seq::new(g[t].len(), |j: int| f_mul(g[t][j], f)))
}

/// The reciprocal of `f` and every entry of row `t` divided by `f` fit 32 bits.
pub open spec fn row_div_ok(g: Grid, t: int, f: Rat) -> bool {
    &&& f_fits(f_inv(f))
    &&& forall|j: int| 0 <= j < g[t].len() ==> f_fits(#[trigger] f_div(g[t][j], f))
}

/// Row `t` divided entry-wise by the fraction `f`.
pub open spec fn row_div_g(g: Grid, t: int, f: Rat) -> Grid {
    g.update(t, Seq::new(g[t].len(), |j: int| f_div(g[t][j], f)))
}

/// Rows `r1` and `r2` exchanged.
pub open spec fn row_swap_g(g: Grid, r1: int, r2: int) -> Grid {
    g.update(r1, g[r2]).update(r2, g[r1])
}

impl Matrix {
    /// Add row `tool` into row `target_row`, entry by entry. On overflow the
    /// matrix is unchanged.
    pub fn row_ops_add(&mut self, target_row: usize, tool: usize) -> (r: Result<(), MatError>)
        requires
            old(self).wf(),
            target_row < old(self).dimension.0,
            tool < old(self).dimension.0,
        ensures
            final(self).wf(),
            final(self).dimension == old(self).dimension,
            match r {
                Ok(()) => row_add_ok(old(self)@, target_row as int, tool as int) && final(self)@
                    == row_add_g(old(self)@, target_row as int, tool as int),
                Err(e) => e == MatError::Overflow && !row_add_ok(
                    old(self)@,
                    target_row as int,
                    tool as int,
                ) && *final(self) == *old(self),
            },
    {
        let ghost g = self@;
        let ghost t = target_row as int;
        let ghost s = tool as int;
        let cols = self.dimension.1;
        let mut new_row: Vec<Frac> = Vec::new();
        let mut j: usize = 0;
        while j < cols
            invariant
                *self == *old(self),
                self.wf(),
                g == self@,
                t == target_row as int,
                s == tool as int,
                target_row < self.dimension.0,
                tool < self.dimension.0,
                cols == self.dimension.1,
                j <= cols,
                new_row@.len() == j,
                forall|k: int|
                    0 <= k < j ==> f_fits(#[trigger] f_add(g[t][k], g[s][k])) && new_row@[k]@
                        == f_add(g[t][k], g[s][k]) && new_row@[k].wf(),
            decreases cols - j,
        {
            proof {
                assert(g[t].len() == cols as int);
                assert(g[s].len() == cols as int);
            }
            let x = self.matrix[target_row][j];
            let y = self.matrix[tool][j];
            proof {
                assert(x@ == g[t][j as int]);
                assert(y@ == g[s][j as int]);
            }
            match x.add(y) {
                Some(f) => { new_row.push(f) },
                None => {
                    return Err(MatError::Overflow);
                },
            }
            j += 1;
        }
        self.matrix.set(target_row, new_row);
        proof {
            assert(self@ =~~= row_add_g(g, t, s));
            assert forall|i: int, j: int|
                0 <= i < self.dimension.0 && 0 <= j < self.dimension.1 implies reduced(
                #[trigger] self@[i][j],
            ) by {
                if i == t {
                    assert(self@[i][j] == new_row@[j]@);
                    assert(new_row@[j].wf());
                } else {
                    assert(self@[i][j] == g[i][j]);
                }
            }
            assert(self.wf());
        }
        Ok(())
    }

    /// Subtract row `tool` from row `target_row`, entry by entry. On overflow
    /// the matrix is unchanged.
    pub fn row_ops_sub(&mut self, target_row: usize, tool: usize) -> (r: Result<(), MatError>)
        requires
            old(self).wf(),
            target_row < old(self).dimension.0,
            tool < old(self).dimension.0,
        ensures
            final(self).wf(),
            final(self).dimension == old(self).dimension,
            match r {
                Ok(()) => row_sub_ok(old(self)@, target_row as int, tool as int) && final(self)@
                    == row_sub_g(old(self)@, target_row as int, tool as int),
                Err(e) => e == MatError::Overflow && !row_sub_ok(
                    old(self)@,
                    target_row as int,
                    tool as int,
                ) && *final(self) == *old(self),
            },
    {
        let ghost g = self@;
        let ghost t = target_row as int;
        let ghost s = tool as int;
        let cols = self.dimension.1;
        let mut new_row: Vec<Frac> = Vec::new();
        let mut j: usize = 0;
        while j < cols
            invariant
                *self == *old(self),
                self.wf(),
                g == self@,
                t == target_row as int,
                s == tool as int,
                target_row < self.dimension.0,
                tool < self.dimension.0,
                cols == self.dimension.1,
                j <= cols,
                new_row@.len() == j,
                forall|k: int|
                    0 <= k < j ==> f_fits(#[trigger] f_sub(g[t][k], g[s][k])) && new_row@[k]@
                        == f_sub(g[t][k], g[s][k]) && new_row@[k].wf(),
            decreases cols - j,
        {
            proof {
                assert(g[t].len() == cols as int);
                assert(g[s].len() == cols as int);
            }
            let x = self.matrix[target_row][j];
            let y = self.matrix[tool][j];
            proof {
                assert(x@ == g[t][j as int]);
                assert(y@ == g[s][j as int]);
            }
            match x.sub(y) {
                Some(f) => { new_row.push(f) },
                None => {
                    return Err(MatError::Overflow);
                },
            }
            j += 1;
        }
        self.matrix.set(target_row, new_row);
        proof {
            assert(self@ =~~= row_sub_g(g, t, s));
            assert forall|i: int, j: int|
                0 <= i < self.dimension.0 && 0 <= j < self.dimension.1 implies reduced(
                #[trigger] self@[i][j],
            ) by {
                if i == t {
                    assert(self@[i][j] == new_row@[j]@);
                    assert(new_row@[j].wf());
                } else {
                    assert(self@[i][j] == g[i][j]);
                }
            }
            assert(self.wf());
        }
        Ok(())
    }

    /// Scale row `target_row` by the fraction `amt`. On overflow the matrix
    /// is unchanged.
    pub fn row_ops_mul(&mut self, target_row: usize, amt: Frac) -> (r: Result<(), MatError>)
        requires
            old(self).wf(),
            target_row < old(self).dimension.0,
            amt.den != 0,
        ensures
            final(self).wf(),
            final(self).dimension == old(self).dimension,
            match r {
                Ok(()) => row_mul_ok(old(self)@, target_row as int, amt@) && final(self)@ == row_mul_g(
                    old(self)@,
                    target_row as int,
                    amt@,
                ),
                Err(e) => e == MatError::Overflow && !row_mul_ok(
                    old(self)@,
                    target_row as int,
                    amt@,
                ) && *final(self) == *old(self),
            },
    {
        let ghost g = self@;
        let ghost t = target_row as int;
        let cols = self.dimension.1;
        let mut new_row: Vec<Frac> = Vec::new();
        let mut j: usize = 0;
        while j < cols
            invariant
                *self == *old(self),
                self.wf(),
                g == self@,
                t == target_row as int,
                target_row < self.dimension.0,
                amt.den != 0,
                cols == self.dimension.1,
                j <= cols,
                new_row@.len() == j,
                forall|k: int|
                    0 <= k < j ==> f_fits(#[trigger] f_mul(g[t][k], amt@)) && new_row@[k]@
                        == f_mul(g[t][k], amt@) && new_row@[k].wf(),
            decreases cols - j,
        {
            proof {
                assert(g[t].len() == cols as int);
            }
            let x = self.matrix[target_row][j];
            proof {
                assert(x@ == g[t][j as int]);
            }
            match x.mul(amt) {
                Some(f) => { new_row.push(f) },
                None => {
                    return Err(MatError::Overflow);
                },
            }
            j += 1;
        }
        self.matrix.set(target_row, new_row);
        proof {
            assert(self@ =~~= row_mul_g(g, t, amt@));
            assert forall|i: int, j: int|
                0 <= i < self.dimension.0 && 0 <= j < self.dimension.1 implies reduced(
                #[trigger] self@[i][j],
            ) by {
                if i == t {
                    assert(self@[i][j] == new_row@[j]@);
                    assert(new_row@[j].wf());
                } else {
                    assert(self@[i][j] == g[i][j]);
                }
            }
            assert(self.wf());
        }
        Ok(())
    }

    /// Divide row `target_row` by the fraction `amt`; a zero factor is a
    /// contract violation. On overflow the matrix is unchanged.
    pub fn row_ops_div(&mut self, target_row: usize, amt: Frac) -> (r: Result<(), MatError>)
        requires
            old(self).wf(),
            target_row < old(self).dimension.0,
            amt.den != 0,
            amt.num != 0,
        ensures
            final(self).wf(),
            final(self).dimension == old(self).dimension,
            match r {
                Ok(()) => row_div_ok(old(self)@, target_row as int, amt@) && final(self)@ == row_div_g(
                    old(self)@,
                    target_row as int,
                    amt@,
                ),
                Err(e) => e == MatError::Overflow && !row_div_ok(
                    old(self)@,
                    target_row as int,
                    amt@,
                ) && *final(self) == *old(self),
            },
    {
        let ghost g = self@;
        let ghost t = target_row as int;
        let cols = self.dimension.1;
        let mut new_row: Vec<Frac> = Vec::new();
        let mut j: usize = 0;
        while j < cols
            invariant
                *self == *old(self),
                self.wf(),
                g == self@,
                t == target_row as int,
                target_row < self.dimension.0,
                amt.den != 0,
                amt.num != 0,
                cols == self.dimension.1,
                j <= cols,
                new_row@.len() == j,
                f_fits(f_inv(amt@)) || j == 0,
                forall|k: int|
                    0 <= k < j ==> f_fits(#[trigger] f_div(g[t][k], amt@)) && new_row@[k]@
                        == f_div(g[t][k], amt@) && new_row@[k].wf(),
            decreases cols - j,
        {
            proof {
                assert(g[t].len() == cols as int);
            }
            let x = self.matrix[target_row][j];
            proof {
                assert(x@ == g[t][j as int]);
            }
            match x.div(amt) {
                Some(f) => { new_row.push(f) },
                None => {
                    return Err(MatError::Overflow);
                },
            }
            j += 1;
        }
        self.matrix.set(target_row, new_row);
        proof {
            assert(cols >= 1);
            assert(self@ =~~= row_div_g(g, t, amt@));
            assert forall|i: int, j: int|
                0 <= i < self.dimension.0 && 0 <= j < self.dimension.1 implies reduced(
                #[trigger] self@[i][j],
            ) by {
                if i == t {
                    assert(self@[i][j] == new_row@[j]@);
                    assert(new_row@[j].wf());
                } else {
                    assert(self@[i][j] == g[i][j]);
                }
            }
            assert(self.wf());
        }
        Ok(())
    }

    /// Exchange rows `row1` and `row2`.
    pub fn row_ops_swap(&mut self, row1: usize, row2: usize)
        requires
            old(self).wf(),
            row1 < old(self).dimension.0,
            row2 < old(self).dimension.0,
        ensures
            final(self).wf(),
            final(self).dimension == old(self).dimension,
            final(self)@ == row_swap_g(old(self)@, row1 as int, row2 as int),
    {
        let ghost g = self@;
        let ra = crate::mats::copy_row(&self.matrix[row1]);
        let rb = crate::mats::copy_row(&self.matrix[row2]);
        self.matrix.set(row1, rb);
        self.matrix.set(row2, ra);
        proof {
            assert(self@ =~~= row_swap_g(g, row1 as int, row2 as int));
        }
    }
}

} // verus!
