//! Best-effort row simplification: negate a row whose entries are all
//! negative, and divide a row by the joint gcd of its non-unit entries'
//! numerators and denominators. Keeps fraction magnitudes small without
//! changing the row's represented linear relation.

use crate::arith::{gcd, gcd_u64, lemma_gcd_le, lemma_gcd_pos};
use crate::fracs::{f_div, f_fits, f_inv, f_neg, reduced, Frac};
use crate::mats::{copy_row, Grid, MatError, Matrix, Rat};
use vstd::math::abs;
use vstd::prelude::*;

verus! {

/// How many entries of the row are negative.
pub open spec fn count_neg(r: Seq<Rat>) -> nat
    decreases r.len(),
{
    if r.len() == 0 {
        0
    } else {
        count_neg(r.drop_last()) + if r.last().0 < 0 { 1nat } else { 0nat }
    }
}

/// The entry equals 1 or -1 as a rational.
pub open spec fn is_pm_one(e: Rat) -> bool {
    e.0 == e.1 || e.0 == -e.1
}

/// How many non-zero entries of the row are 1 or -1.
pub open spec fn count_pm_one(r: Seq<Rat>) -> nat
    decreases r.len(),
{
    if r.len() == 0 {
        0
    } else {
        count_pm_one(r.drop_last()) + if r.last().0 != 0 && is_pm_one(r.last()) {
            1nat
        } else {
            0nat
        }
    }
}

/// The non-zero entries of the row that are not 1 or -1, in order.
pub open spec fn nonunits(r: Seq<Rat>) -> Seq<Rat>
    decreases r.len(),
{
    if r.len() == 0 {
        Seq::empty()
    } else {
        nonunits(r.drop_last()) + if r.last().0 != 0 && !is_pm_one(r.last()) {
            seq![r.last()]
        } else {
            Seq::empty()
        }
    }
}

/// The joint gcd of the numerator magnitudes and of the denominator
/// magnitudes of a sequence of entries.
pub open spec fn gcds_of(s: Seq<Rat>) -> (nat, nat)
    recommends s.len() >= 1,
    decreases s.len(),
{
    if s.len() <= 1 {
        (abs(s[0].0), abs(s[0].1))
    } else {
        let p = gcds_of(s.drop_last());
        (gcd(p.0, abs(s.last().0)), gcd(p.1, abs(s.last().1)))
    }
}

/// The whole row is negated when every entry is negative.
pub open spec fn simp_will_negate(r: Seq<Rat>) -> bool {
    r.len() > 1 && count_neg(r) == r.len()
}

/// The row after the possible negation pass.
pub open spec fn row_simp_neg(r: Seq<Rat>) -> Seq<Rat> {
    if simp_will_negate(r) {
        Seq::new(r.len(), |j: int| f_neg(r[j]))
    } else {
        r
    }
}

/// The row is divided through when at least two entries are non-units, none
/// is a unit, and the joint gcd pair is not `(1, 1)`.
pub open spec fn simp_will_divide(r: Seq<Rat>) -> bool {
    &&& r.len() > 1
    &&& nonunits(r).len() > 1
    &&& count_pm_one(r) == 0
    &&& gcds_of(nonunits(r)) != (1nat, 1nat)
}

/// The joint divisor, as a rational.
pub open spec fn simp_divisor(r: Seq<Rat>) -> Rat {
    (gcds_of(nonunits(r)).0 as int, gcds_of(nonunits(r)).1 as int)
}

/// The simplified row: negated if all entries were negative, then divided by
/// the joint gcd divisor if one applies.
pub open spec fn row_simp(r: Seq<Rat>) -> Seq<Rat> {
    let r1 = row_simp_neg(r);
    if simp_will_divide(r) {
        Seq::new(r.len(), |j: int| f_div(r1[j], simp_divisor(r)))
    } else {
        r1
    }
}

/// Whether simplifying the row stays within the 32-bit range throughout: each
/// negated entry fits, the divisor is constructible and invertible, and each
/// divided entry fits.
pub open spec fn row_simp_ok(r: Seq<Rat>) -> bool {
    &&& simp_will_negate(r) ==> forall|j: int|
        0 <= j < r.len() ==> f_fits(#[trigger] f_neg(r[j]))
    &&& simp_will_divide(r) ==> {
        let d = simp_divisor(r);
        &&& d.0 <= i32::MAX
        &&& d.1 <= i32::MAX
        &&& f_fits(f_inv(d))
        &&& forall|j: int| 0 <= j < r.len() ==> f_fits(#[trigger] f_div(row_simp_neg(r)[j], d))
    }
}

/// Every row of the grid, simplified.
pub open spec fn simp_grid(g: Grid) -> Grid {
    Seq::new(g.len(), |i: int| row_simp(g[i]))
}

/// Simplification of every row stays within range.
pub open spec fn simp_grid_ok(g: Grid) -> bool {
    forall|i: int| 0 <= i < g.len() ==> row_simp_ok(#[trigger] g[i])
}

/// The views of a sequence of fractions.
pub open spec fn rats_of(s: Seq<Frac>) -> Seq<Rat> {
    s.map_values(|f: Frac| f@)
}

/// Taking one more element splits off the element just passed.
proof fn lemma_take_succ(s: Seq<Rat>, j: int)
    requires
        0 <= j < s.len(),
    ensures
        s.take(j + 1).drop_last() == s.take(j),
        s.take(j + 1).last() == s[j],
{
    assert(s.take(j + 1).drop_last() =~= s.take(j));
}

impl Matrix {
    /// Simplify one row in place: negate it when every entry is negative,
    /// then divide it by the joint gcd of its non-unit entries when that
    /// exceeds 1. Returns whether the division step ran. On overflow the
    /// matrix is unchanged.
    pub fn try_simplify(&mut self, row: usize) -> (res: Result<bool, MatError>)
        requires
            old(self).wf(),
            row < old(self).dimension.0,
        ensures
            final(self).wf(),
            final(self).dimension == old(self).dimension,
            match res {
                Ok(b) => row_simp_ok(old(self)@[row as int]) && b == simp_will_divide(
                    old(self)@[row as int],
                ) && final(self)@ == old(self)@.update(
                    row as int,
                    row_simp(old(self)@[row as int]),
                ),
                Err(e) => e == MatError::Overflow && !row_simp_ok(old(self)@[row as int])
                    && *final(self) == *old(self),
            },
    {
        let ghost g = self@;
        let ghost t = row as int;
        let ghost r = g[t];
        let cols = self.dimension.1;
        proof {
            assert(g[t].len() == cols as int);
        }
        if cols <= 1 {
            proof {
                assert(!simp_will_negate(r));
                assert(nonunits(r).len() <= r.len()) by {
                    lemma_nonunits_len(r);
                }
                assert(!simp_will_divide(r));
                assert(row_simp(r) == r);
                assert(g.update(t, r) =~~= g);
            }
            return Ok(false);
        }
        // First pass: classify the entries.
        let mut neg_count: usize = 0;
        let mut pm_count: usize = 0;
        let mut non_zeros: Vec<Frac> = Vec::new();
        let mut j: usize = 0;
        while j < cols
            invariant
                *self == *old(self),
                self.wf(),
                g == self@,
                t == row as int,
                r == g[t],
                row < self.dimension.0,
                cols == self.dimension.1,
                r.len() == cols as int,
                j <= cols,
                neg_count <= j,
                pm_count <= j,
                neg_count == count_neg(r.take(j as int)),
                pm_count == count_pm_one(r.take(j as int)),
                rats_of(non_zeros@) == nonunits(r.take(j as int)),
                non_zeros@.len() <= j,
                forall|k: int| 0 <= k < non_zeros@.len() ==> (#[trigger] non_zeros@[k]).wf(),
            decreases cols - j,
        {
            let e = self.matrix[row][j];
            proof {
                assert(e@ == r[j as int]);
                assert(reduced(e@));
                lemma_take_succ(r, j as int);
                assert(rats_of(non_zeros@.push(e)) =~= rats_of(non_zeros@).push(e@));
            }
            if e.num == 0 {
            } else if e.num < 0 {
                neg_count += 1;
                if e.num == -e.den {
                    pm_count += 1;
                } else {
                    non_zeros.push(e);
                }
            } else {
                if e.num == e.den {
                    pm_count += 1;
                } else {
                    non_zeros.push(e);
                }
            }
            j += 1;
        }
        proof {
            assert(r.take(cols as int) =~= r);
        }
        // Second pass: negate an all-negative row.
        let mut work: Vec<Frac> = Vec::new();
        let will_negate = neg_count == cols;
        if will_negate {
            let mut j2: usize = 0;
            while j2 < cols
                invariant
                    *self == *old(self),
                    self.wf(),
                    g == self@,
                    t == row as int,
                    r == g[t],
                    row < self.dimension.0,
                    cols == self.dimension.1,
                    1 < cols,
                    r.len() == cols as int,
                    simp_will_negate(r),
                    j2 <= cols,
                    work@.len() == j2,
                    forall|k: int|
                        0 <= k < j2 ==> f_fits(#[trigger] f_neg(r[k])) && work@[k]@ == f_neg(r[k])
                            && work@[k].wf(),
                decreases cols - j2,
            {
                let e = self.matrix[row][j2];
                proof {
                    assert(e@ == r[j2 as int]);
                    assert(reduced(e@));
                }
                if e.num == i32::MIN {
                    proof {
                        assert(!f_fits(f_neg(r[j2 as int])));
                        assert(!row_simp_ok(r));
                    }
                    return Err(MatError::Overflow);
                }
                work.push(Frac { num: -e.num, den: e.den });
                j2 += 1;
            }
        } else {
            work = copy_row(&self.matrix[row]);
        }
        let ghost r1 = row_simp_neg(r);
        proof {
            if !will_negate {
                assert forall|k: int| 0 <= k < work@.len() implies rats_of(work@)[k] == r[k] by {
                    assert(work@[k] == self.matrix@[t]@[k]);
                    assert(work@[k]@ == g[t][k]);
                }
            }
            assert(rats_of(work@) =~= r1);
            assert forall|k: int| 0 <= k < work@.len() implies (#[trigger] work@[k]).wf() by {
                if will_negate {
                    assert(work@[k]@ == f_neg(r[k]));
                } else {
                    assert(work@[k]@ == g[t][k]);
                    assert(reduced(g[t][k]));
                }
            }
        }
        // Third pass: divide by the joint gcd when it applies.
        if non_zeros.len() > 1 && pm_count == 0 {
            let ghost nz = nonunits(r);
            let first = non_zeros[0];
            let mut gn: u64 = mag_u64(first.num);
            let mut gd: u64 = mag_u64(first.den);
            let mut i: usize = 1;
            proof {
                assert(first@ == nz[0]);
                assert(nz.take(1) =~= seq![nz[0]]);
                assert(gcds_of(nz.take(1)) == (abs(nz[0].0), abs(nz[0].1)));
                lemma_nonunits_reduced(r, 0);
                assert(abs(nz[0].0) >= 1);
                assert(abs(nz[0].1) >= 1);
            }
            while i < non_zeros.len()
                invariant
                    i <= non_zeros@.len(),
                    1 <= i,
                    nz == nonunits(r),
                    rats_of(non_zeros@) == nz,
                    forall|k: int| 0 <= k < non_zeros@.len() ==> (#[trigger] non_zeros@[k]).wf(),
                    (gn as nat, gd as nat) == gcds_of(nz.take(i as int)),
                    1 <= gn <= 0x8000_0000,
                    1 <= gd <= 0x8000_0000,
                decreases non_zeros@.len() - i,
            {
                let e = non_zeros[i];
                proof {
                    assert(e@ == nz[i as int]);
                    assert(reduced(e@));
                    lemma_take_succ(nz, i as int);
                    lemma_gcd_pos(gn as nat, abs(e@.0));
                    lemma_gcd_pos(gd as nat, abs(e@.1));
                    lemma_gcd_le(gn as nat, abs(e@.0));
                    lemma_gcd_le(gd as nat, abs(e@.1));
                }
                gn = gcd_u64(gn, mag_u64(e.num));
                gd = gcd_u64(gd, mag_u64(e.den));
                i += 1;
            }
            proof {
                assert(nz.take(nz.len() as int) =~= nz);
                assert((gn as nat, gd as nat) == gcds_of(nz));
            }
            if !(gn == 1 && gd == 1) {
                proof {
                    assert(simp_will_divide(r));
                }
                if gn > i32::MAX as u64 {
                    return Err(MatError::Overflow);
                }
                if gd > i32::MAX as u64 {
                    return Err(MatError::Overflow);
                }
                let divisor = Frac { num: gn as i32, den: gd as i32 };
                proof {
                    assert(divisor@ == simp_divisor(r));
                }
                let mut out: Vec<Frac> = Vec::new();
                let mut j3: usize = 0;
                while j3 < cols
                    invariant
                        *self == *old(self),
                        self.wf(),
                        g == self@,
                        t == row as int,
                        r == g[t],
                        row < self.dimension.0,
                        cols == self.dimension.1,
                        simp_will_divide(r),
                        simp_will_negate(r) ==> forall|k: int|
                            0 <= k < r.len() ==> f_fits(#[trigger] f_neg(r[k])),
                        cols == work@.len(),
                        r.len() == cols as int,
                        r1 == row_simp_neg(r),
                        rats_of(work@) == r1,
                        forall|k: int| 0 <= k < work@.len() ==> (#[trigger] work@[k]).wf(),
                        divisor@ == simp_divisor(r),
                        divisor.num >= 1,
                        divisor.den >= 1,
                        j3 <= cols,
                        out@.len() == j3,
                        j3 > 0 ==> f_fits(f_inv(divisor@)),
                        forall|k: int|
                            0 <= k < j3 ==> f_fits(#[trigger] f_div(r1[k], divisor@)) && out@[k]@
                                == f_div(r1[k], divisor@) && out@[k].wf(),
                    decreases cols - j3,
                {
                    let e = work[j3];
                    proof {
                        assert(e@ == rats_of(work@)[j3 as int]);
                        assert(e.wf());
                    }
                    match e.div(divisor) {
                        Some(f) => { out.push(f) },
                        None => {
                            proof {
                                assert(!(f_fits(f_inv(divisor@)) && f_fits(
                                    f_div(r1[j3 as int], divisor@),
                                )));
                                assert(!row_simp_ok(r));
                            }
                            return Err(MatError::Overflow);
                        },
                    }
                    j3 += 1;
                }
                proof {
                    assert(rats_of(out@) =~= row_simp(r));
                }
                self.matrix.set(row, out);
                proof {
                    assert(self@ =~~= g.update(t, row_simp(r)));
                    assert forall|jx: int| 0 <= jx < cols implies reduced(
                        #[trigger] rats_of(out@)[jx],
                    ) by {
                        assert(out@[jx]@ == f_div(r1[jx], divisor@));
                        assert(out@[jx].wf());
                    }
                    finish_wf(
                        self@,
                        g,
                        t,
                        rats_of(out@),
                        self.dimension.0 as int,
                        self.dimension.1 as int,
                    );
                    assert(self.wf());
                }
                return Ok(true);
            }
        }
        // No division applies; commit the (possibly negated) row.
        proof {
            assert(!simp_will_divide(r));
            assert(row_simp(r) == r1);
        }
        proof {
            assert(rats_of(work@) =~= row_simp(r));
        }
        self.matrix.set(row, work);
        proof {
            assert(self@ =~~= g.update(t, row_simp(r)));
            assert forall|jx: int| 0 <= jx < cols implies reduced(
                #[trigger] rats_of(work@)[jx],
            ) by {
                assert(work@[jx].wf());
                assert(rats_of(work@)[jx] == work@[jx]@);
            }
            finish_wf(
                self@,
                g,
                t,
                rats_of(work@),
                self.dimension.0 as int,
                self.dimension.1 as int,
            );
            assert(self.wf());
        }
        Ok(false)
    }
}

impl Matrix {
    /// Simplify every row of the matrix in place. On overflow the rows before
    /// the failing one keep their simplified values.
    pub fn try_simplify_matrix(&mut self) -> (res: Result<(), MatError>)
        requires
            old(self).wf(),
        ensures
            final(self).wf(),
            final(self).dimension == old(self).dimension,
            match res {
                Ok(()) => simp_grid_ok(old(self)@) && final(self)@ == simp_grid(old(self)@),
                Err(e) => e == MatError::Overflow && !simp_grid_ok(old(self)@),
            },
    {
        let ghost g = self@;
        let rows = self.dimension.0;
        let mut i: usize = 0;
        while i < rows
            invariant
                self.wf(),
                self.dimension == old(self).dimension,
                g == old(self)@,
                rows == self.dimension.0,
                i <= rows,
                self@.len() == g.len(),
                forall|k: int| 0 <= k < i ==> row_simp_ok(#[trigger] g[k]),
                forall|k: int| 0 <= k < i ==> #[trigger] self@[k] == row_simp(g[k]),
                forall|k: int| i <= k < rows ==> #[trigger] self@[k] == g[k],
            decreases rows - i,
        {
            let ghost pre = self@;
            proof {
                assert(pre[i as int] == g[i as int]);
            }
            match self.try_simplify(i) {
                Ok(_) => {},
                Err(e) => {
                    proof {
                        assert(!row_simp_ok(g[i as int]));
                    }
                    return Err(e);
                },
            }
            proof {
                assert(self@ == pre.update(i as int, row_simp(g[i as int])));
            }
            i += 1;
        }
        proof {
            assert(self@ =~~= simp_grid(g));
        }
        Ok(())
    }

    /// Row-operation wrapper for the simplification pass on one row.
    pub fn row_ops_try_simplify(&mut self, row: usize) -> (res: Result<bool, MatError>)
        requires
            old(self).wf(),
            row < old(self).dimension.0,
        ensures
            final(self).wf(),
            final(self).dimension == old(self).dimension,
            match res {
                Ok(b) => row_simp_ok(old(self)@[row as int]) && b == simp_will_divide(
                    old(self)@[row as int],
                ) && final(self)@ == old(self)@.update(
                    row as int,
                    row_simp(old(self)@[row as int]),
                ),
                Err(e) => e == MatError::Overflow && !row_simp_ok(old(self)@[row as int])
                    && *final(self) == *old(self),
            },
    {
        self.try_simplify(row)
    }
}

/// The magnitude of a 32-bit integer, widened.
fn mag_u64(x: i32) -> (r: u64)
    ensures
        r as nat == abs(x as int),
{
    (if x < 0 {
        -(x as i64)
    } else {
        x as i64
    }) as u64
}

/// There are no more non-unit entries than entries.
proof fn lemma_nonunits_len(r: Seq<Rat>)
    ensures
        nonunits(r).len() <= r.len(),
    decreases r.len(),
{
    if r.len() > 0 {
        lemma_nonunits_len(r.drop_last());
    }
}

/// Each non-unit entry of a row of canonical entries is canonical and non-zero.
proof fn lemma_nonunits_reduced(r: Seq<Rat>, k: int)
    requires
        forall|j: int| 0 <= j < r.len() ==> reduced(#[trigger] r[j]),
        0 <= k < nonunits(r).len(),
    ensures
        reduced(nonunits(r)[k]),
        nonunits(r)[k].0 != 0,
    decreases r.len(),
{
    if r.len() > 0 {
        lemma_nonunits_len(r.drop_last());
        if k < nonunits(r.drop_last()).len() {
            lemma_nonunits_reduced(r.drop_last(), k);
        }
    }
}

/// After replacing row `t` of a well-formed grid by a row of canonical
/// entries of the same length, the grid is still well-formed.
proof fn finish_wf(h: Grid, g: Grid, t: int, newr: Seq<Rat>, rows: int, cols: int)
    requires
        crate::mats::grid_wf(g, rows, cols),
        0 <= t < rows,
        newr.len() == cols,
        forall|j: int| 0 <= j < cols ==> reduced(#[trigger] newr[j]),
        h == g.update(t, newr),
    ensures
        crate::mats::grid_wf(h, rows, cols),
{
    assert forall|i: int| 0 <= i < rows implies (#[trigger] h[i]).len() == cols by {
        if i != t {
            assert(h[i] == g[i]);
        }
    }
    assert forall|i: int, j: int| 0 <= i < rows && 0 <= j < cols implies reduced(
        #[trigger] h[i][j],
    ) by {
        if i != t {
            assert(h[i] == g[i]);
        }
    }
}

} // verus!
