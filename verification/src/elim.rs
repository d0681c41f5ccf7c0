//! The elimination engine: row echelon form, reduced row echelon form,
//! inverse by Gauss-Jordan, and the linear-independence test.
//!
//! The algorithm pivots strictly at the diagonal position `(a, a)` and never
//! searches other columns, a deliberate limitation kept as-is. Every pass is
//! specified by a functional mirror over a *pair* of grids reduced in
//! lockstep: decisions read the first grid, operations apply to both. The
//! inverse runs the pair on the matrix and an identity; the single-matrix
//! forms run it on the matrix and a copy of itself and keep the first grid.

use crate::fracs::{f_add, f_fits, f_neg, f_sub, reduced, Frac};
use crate::mats::{Grid, MatError, Matrix, Rat};
use crate::rowops::{row_add_g, row_add_ok, row_div_g, row_div_ok, row_mul_g, row_mul_ok,
    row_sub_g, row_sub_ok};
use vstd::prelude::*;

verus! {

/// A pair of grids reduced in lockstep: the decision grid and its companion.
pub type GridPair = (Grid, Grid);

/// Add row `s` into row `t` of both grids; `None` on overflow in either.
pub open spec fn p_add(s: Option<GridPair>, t: int, u: int) -> Option<GridPair> {
    match s {
        None => None,
        Some(p) => if row_add_ok(p.0, t, u) && row_add_ok(p.1, t, u) {
            Some((row_add_g(p.0, t, u), row_add_g(p.1, t, u)))
        } else {
            None
        },
    }
}

/// Subtract row `s` from row `t` of both grids; `None` on overflow in either.
pub open spec fn p_sub(s: Option<GridPair>, t: int, u: int) -> Option<GridPair> {
    match s {
        None => None,
        Some(p) => if row_sub_ok(p.0, t, u) && row_sub_ok(p.1, t, u) {
            Some((row_sub_g(p.0, t, u), row_sub_g(p.1, t, u)))
        } else {
            None
        },
    }
}

/// Scale row `t` of both grids by `f`; `None` on overflow in either.
pub open spec fn p_mul(s: Option<GridPair>, t: int, f: Rat) -> Option<GridPair> {
    match s {
        None => None,
        Some(p) => if row_mul_ok(p.0, t, f) && row_mul_ok(p.1, t, f) {
            Some((row_mul_g(p.0, t, f), row_mul_g(p.1, t, f)))
        } else {
            None
        },
    }
}

/// Divide row `t` of both grids by `f`; `None` on overflow in either.
pub open spec fn p_div(s: Option<GridPair>, t: int, f: Rat) -> Option<GridPair> {
    match s {
        None => None,
        Some(p) => if row_div_ok(p.0, t, f) && row_div_ok(p.1, t, f) {
            Some((row_div_g(p.0, t, f), row_div_g(p.1, t, f)))
        } else {
            None
        },
    }
}

/// The first row index in `[from, max)` whose entry in column `col` of `g`
/// is non-zero, or -1 when there is none.
pub open spec fn find_nz(g: Grid, col: int, from: int, max: int) -> int
    decreases max - from,
{
    if from >= max {
        -1
    } else if g[from][col].0 != 0 {
        from
    } else {
        find_nz(g, col, from + 1, max)
    }
}

/// Eliminate the below-diagonal entry `(a, b)` (with `b < a`) using row `b`:
/// scale row `b` by the entry's magnitude, add or subtract it into row `a` so
/// the entry cancels, then divide row `b` back.
pub open spec fn elim_step(s: Option<GridPair>, a: int, b: int) -> Option<GridPair> {
    match s {
        None => None,
        Some(p) => {
            let amt = p.0[a][b];
            if amt.0 == 0 {
                s
            } else if amt.0 > 0 {
                p_div(p_sub(p_mul(s, b, amt), a, b), b, amt)
            } else {
                let t = f_neg(amt);
                if !f_fits(t) {
                    None
                } else {
                    p_div(p_add(p_mul(s, b, t), a, b), b, t)
                }
            }
        },
    }
}

/// Handle the diagonal entry `(a, a)`: divide its row by it when non-zero;
/// when zero, pull in the first lower row with a non-zero entry in column `a`
/// (if any) and normalize unless the numerator is already 1.
pub open spec fn diag_step(s: Option<GridPair>, a: int, max: int) -> Option<GridPair> {
    match s {
        None => None,
        Some(p) => {
            let amt = p.0[a][a];
            if amt.0 != 0 {
                p_div(s, a, amt)
            } else {
                let o = find_nz(p.0, a, a + 1, max);
                if o < 0 {
                    s
                } else {
                    let amt2 = p.0[o][a];
                    let s1 = if amt2.0 > 0 {
                        p_add(s, a, o)
                    } else {
                        p_sub(s, a, o)
                    };
                    match s1 {
                        None => None,
                        Some(p1) => {
                            let na = p1.0[a][a];
                            if na.0 != 1 {
                                p_div(s1, a, na)
                            } else {
                                s1
                            }
                        },
                    }
                }
            }
        },
    }
}

/// The eliminations `(a, 0) .. (a, b-1)` of row `a`, in order.
pub open spec fn fwd_row(s: Option<GridPair>, a: int, b: int) -> Option<GridPair>
    decreases b,
{
    if b <= 0 {
        s
    } else {
        elim_step(fwd_row(s, a, b - 1), a, b - 1)
    }
}

/// The full forward treatment of rows `0 .. a`: for each row, its
/// eliminations and then its diagonal step.
pub open spec fn fwd_rows(s: Option<GridPair>, a: int, max: int) -> Option<GridPair>
    decreases a,
{
    if a <= 0 {
        s
    } else {
        diag_step(fwd_row(fwd_rows(s, a - 1, max), a - 1, a - 1), a - 1, max)
    }
}

/// The forward (row echelon) pass over the leading `max` rows.
pub open spec fn fwd_pass(s: Option<GridPair>, max: int) -> Option<GridPair> {
    fwd_rows(s, max, max)
}

/// Eliminate the above-diagonal entry `(a, b)` (with `b > a`) using row `b`,
/// by the same scale-combine-restore dance as the forward pass.
pub open spec fn back_step(s: Option<GridPair>, a: int, b: int) -> Option<GridPair> {
    match s {
        None => None,
        Some(p) => {
            let amt = p.0[a][b];
            if amt.0 == 0 {
                s
            } else {
                p_div(p_sub(p_mul(s, b, amt), a, b), b, amt)
            }
        },
    }
}

/// The eliminations `(a, b), (a, b-1), .. (a, a+1)` of row `a`, downward.
pub open spec fn back_row(s: Option<GridPair>, a: int, b: int) -> Option<GridPair>
    decreases b - a,
{
    if b <= a {
        s
    } else {
        back_row(back_step(s, a, b), a, b - 1)
    }
}

/// The back passes for rows `a, a-1, .. 0`, each over columns `max-1` down to
/// its diagonal.
pub open spec fn back_rows(s: Option<GridPair>, a: int, max: int) -> Option<GridPair>
    decreases a + 1,
{
    if a < 0 {
        s
    } else {
        back_rows(back_row(s, a, max - 1), a - 1, max)
    }
}

/// The backward (reduction) pass over the leading `max` rows, from row
/// `max - 2` up.
pub open spec fn back_pass(s: Option<GridPair>, max: int) -> Option<GridPair> {
    back_rows(s, max - 2, max)
}

/// Once a row's eliminations have failed, more of them stay failed.
pub proof fn lemma_fwd_row_mono(s: Option<GridPair>, a: int, b1: int, b2: int)
    requires
        0 <= b1 <= b2,
        fwd_row(s, a, b1) is None,
    ensures
        fwd_row(s, a, b2) is None,
    decreases b2 - b1,
{
    if b1 < b2 {
        lemma_fwd_row_mono(s, a, b1, b2 - 1);
    }
}

/// Once the forward pass has failed by some row, it stays failed.
pub proof fn lemma_fwd_rows_mono(s: Option<GridPair>, a1: int, a2: int, max: int)
    requires
        0 <= a1 <= a2,
        fwd_rows(s, a1, max) is None,
    ensures
        fwd_rows(s, a2, max) is None,
    decreases a2 - a1,
{
    if a1 < a2 {
        lemma_fwd_rows_mono(s, a1, a2 - 1, max);
        lemma_fwd_row_mono(fwd_rows(s, a2 - 1, max), a2 - 1, 0, a2 - 1);
    }
}

/// A failure inside row `a`'s eliminations dooms the whole forward pass.
proof fn lemma_fwd_dead(s0: Option<GridPair>, a: int, b: int, max: int)
    requires
        0 <= a < max,
        0 <= b <= a,
        fwd_row(fwd_rows(s0, a, max), a, b) is None,
    ensures
        fwd_pass(s0, max) is None,
{
    lemma_fwd_row_mono(fwd_rows(s0, a, max), a, b, a);
    assert(fwd_rows(s0, a + 1, max) is None);
    lemma_fwd_rows_mono(s0, a + 1, max, max);
}

/// The back pass of a failed state is failed.
proof fn lemma_back_row_none(a: int, b: int)
    ensures
        back_row(None, a, b) is None,
    decreases b - a,
{
    if b > a {
        lemma_back_row_none(a, b - 1);
    }
}

/// The back passes of a failed state are failed.
proof fn lemma_back_rows_none(a: int, max: int)
    ensures
        back_rows(None, a, max) is None,
    decreases a + 1,
{
    if a >= 0 {
        lemma_back_row_none(a, max - 1);
        lemma_back_rows_none(a - 1, max);
    }
}

/// Apply a pair scaling step to two matrices in lockstep.
fn pair_mul(m: &mut Matrix, u: &mut Matrix, t: usize, amt: Frac) -> (r: Result<(), MatError>)
    requires
        old(m).wf(),
        old(u).wf(),
        old(m).dimension == old(u).dimension,
        t < old(m).dimension.0,
        amt.den != 0,
    ensures
        final(m).wf(),
        final(u).wf(),
        final(m).dimension == old(m).dimension,
        final(u).dimension == old(u).dimension,
        match r {
            Ok(()) => p_mul(Some((old(m)@, old(u)@)), t as int, amt@) == Some(
                (final(m)@, final(u)@),
            ),
            Err(e) => e == MatError::Overflow && p_mul(
                Some((old(m)@, old(u)@)),
                t as int,
                amt@,
            ) is None,
        },
{
    match m.row_ops_mul(t, amt) {
        Ok(()) => {},
        Err(e) => {
            return Err(e);
        },
    }
    match u.row_ops_mul(t, amt) {
        Ok(()) => {},
        Err(e) => {
            return Err(e);
        },
    }
    Ok(())
}

/// Apply a pair division step to two matrices in lockstep.
fn pair_div(m: &mut Matrix, u: &mut Matrix, t: usize, amt: Frac) -> (r: Result<(), MatError>)
    requires
        old(m).wf(),
        old(u).wf(),
        old(m).dimension == old(u).dimension,
        t < old(m).dimension.0,
        amt.den != 0,
        amt.num != 0,
    ensures
        final(m).wf(),
        final(u).wf(),
        final(m).dimension == old(m).dimension,
        final(u).dimension == old(u).dimension,
        match r {
            Ok(()) => p_div(Some((old(m)@, old(u)@)), t as int, amt@) == Some(
                (final(m)@, final(u)@),
            ),
            Err(e) => e == MatError::Overflow && p_div(
                Some((old(m)@, old(u)@)),
                t as int,
                amt@,
            ) is None,
        },
{
    match m.row_ops_div(t, amt) {
        Ok(()) => {},
        Err(e) => {
            return Err(e);
        },
    }
    match u.row_ops_div(t, amt) {
        Ok(()) => {},
        Err(e) => {
            return Err(e);
        },
    }
    Ok(())
}

/// Apply a pair row-addition step to two matrices in lockstep.
fn pair_add(m: &mut Matrix, u: &mut Matrix, t: usize, s: usize) -> (r: Result<(), MatError>)
    requires
        old(m).wf(),
        old(u).wf(),
        old(m).dimension == old(u).dimension,
        t < old(m).dimension.0,
        s < old(m).dimension.0,
    ensures
        final(m).wf(),
        final(u).wf(),
        final(m).dimension == old(m).dimension,
        final(u).dimension == old(u).dimension,
        match r {
            Ok(()) => p_add(Some((old(m)@, old(u)@)), t as int, s as int) == Some(
                (final(m)@, final(u)@),
            ),
            Err(e) => e == MatError::Overflow && p_add(
                Some((old(m)@, old(u)@)),
                t as int,
                s as int,
            ) is None,
        },
{
    match m.row_ops_add(t, s) {
        Ok(()) => {},
        Err(e) => {
            return Err(e);
        },
    }
    match u.row_ops_add(t, s) {
        Ok(()) => {},
        Err(e) => {
            return Err(e);
        },
    }
    Ok(())
}

/// Apply a pair row-subtraction step to two matrices in lockstep.
fn pair_sub(m: &mut Matrix, u: &mut Matrix, t: usize, s: usize) -> (r: Result<(), MatError>)
    requires
        old(m).wf(),
        old(u).wf(),
        old(m).dimension == old(u).dimension,
        t < old(m).dimension.0,
        s < old(m).dimension.0,
    ensures
        final(m).wf(),
        final(u).wf(),
        final(m).dimension == old(m).dimension,
        final(u).dimension == old(u).dimension,
        match r {
            Ok(()) => p_sub(Some((old(m)@, old(u)@)), t as int, s as int) == Some(
                (final(m)@, final(u)@),
            ),
            Err(e) => e == MatError::Overflow && p_sub(
                Some((old(m)@, old(u)@)),
                t as int,
                s as int,
            ) is None,
        },
{
    match m.row_ops_sub(t, s) {
        Ok(()) => {},
        Err(e) => {
            return Err(e);
        },
    }
    match u.row_ops_sub(t, s) {
        Ok(()) => {},
        Err(e) => {
            return Err(e);
        },
    }
    Ok(())
}

/// The forward (row echelon) pass, applied to two matrices in lockstep:
/// decisions read `m`, operations apply to `m` and `u` alike.
fn elim_forward(m: &mut Matrix, u: &mut Matrix) -> (r: Result<(), MatError>)
    requires
        old(m).wf(),
        old(u).wf(),
        old(m).dimension == old(u).dimension,
    ensures
        final(m).wf(),
        final(u).wf(),
        final(m).dimension == old(m).dimension,
        final(u).dimension == old(u).dimension,
        ({
            let s0 = Some((old(m)@, old(u)@));
            let mx = vstd::math::min(
                old(m).dimension.0 as int,
                old(m).dimension.1 as int,
            );
            match r {
                Ok(()) => fwd_pass(s0, mx) == Some((final(m)@, final(u)@)),
                Err(e) => e == MatError::Overflow && fwd_pass(s0, mx) is None,
            }
        }),
{
    let rows = m.dimension.0;
    let cols = m.dimension.1;
    let max = if rows < cols {
        rows
    } else {
        cols
    };
    let ghost s0 = Some((m@, u@));
    let ghost mx = max as int;
    let mut a: usize = 0;
    while a < max
        invariant
            m.wf(),
            u.wf(),
            m.dimension == old(m).dimension,
            u.dimension == old(u).dimension,
            m.dimension == u.dimension,
            rows == m.dimension.0,
            cols == m.dimension.1,
            max <= rows,
            max <= cols,
            mx == max as int,
            mx == vstd::math::min(old(m).dimension.0 as int, old(m).dimension.1 as int),
            s0 == Some((old(m)@, old(u)@)),
            a <= max,
            fwd_rows(s0, a as int, mx) == Some((m@, u@)),
        decreases max - a,
    {
        let ghost sa = fwd_rows(s0, a as int, mx);
        let mut b: usize = 0;
        while b < a
            invariant
                m.wf(),
                u.wf(),
                m.dimension == old(m).dimension,
                u.dimension == old(u).dimension,
                m.dimension == u.dimension,
                rows == m.dimension.0,
                cols == m.dimension.1,
                max <= rows,
                max <= cols,
                mx == max as int,
                mx == vstd::math::min(old(m).dimension.0 as int, old(m).dimension.1 as int),
                s0 == Some((old(m)@, old(u)@)),
                a < max,
                sa == fwd_rows(s0, a as int, mx),
                b <= a,
                fwd_row(sa, a as int, b as int) == Some((m@, u@)),
            decreases a - b,
        {
            let ghost sb = fwd_row(sa, a as int, b as int);
            proof {
                assert(m@[a as int].len() == cols as int);
            }
            let amt1 = m.matrix[a][b];
            proof {
                assert(amt1@ == m@[a as int][b as int]);
                assert(reduced(amt1@));
            }
            if amt1.num == 0 {
                proof {
                    assert(elim_step(sb, a as int, b as int) == sb);
                    assert(fwd_row(sa, a as int, b as int + 1) == sb);
                }
            } else if amt1.num > 0 {
                let ghost s1 = p_mul(sb, b as int, amt1@);
                match pair_mul(m, u, b, amt1) {
                    Ok(()) => {},
                    Err(e) => {
                        proof {
                            assert(elim_step(sb, a as int, b as int) is None);
                            assert(fwd_row(sa, a as int, b as int + 1) is None);
                            lemma_fwd_dead(s0, a as int, b as int + 1, mx);
                        }
                        return Err(e);
                    },
                }
                let ghost s2 = p_sub(s1, a as int, b as int);
                match pair_sub(m, u, a, b) {
                    Ok(()) => {},
                    Err(e) => {
                        proof {
                            assert(elim_step(sb, a as int, b as int) is None);
                            assert(fwd_row(sa, a as int, b as int + 1) is None);
                            lemma_fwd_dead(s0, a as int, b as int + 1, mx);
                        }
                        return Err(e);
                    },
                }
                match pair_div(m, u, b, amt1) {
                    Ok(()) => {},
                    Err(e) => {
                        proof {
                            assert(elim_step(sb, a as int, b as int) is None);
                            assert(fwd_row(sa, a as int, b as int + 1) is None);
                            lemma_fwd_dead(s0, a as int, b as int + 1, mx);
                        }
                        return Err(e);
                    },
                }
                proof {
                    assert(elim_step(sb, a as int, b as int) == Some((m@, u@)));
                    assert(fwd_row(sa, a as int, b as int + 1) == Some((m@, u@)));
                }
            } else {
                if amt1.num == i32::MIN {
                    proof {
                        assert(!f_fits(f_neg(amt1@)));
                        assert(elim_step(sb, a as int, b as int) is None);
                        assert(fwd_row(sa, a as int, b as int + 1) is None);
                        lemma_fwd_dead(s0, a as int, b as int + 1, mx);
                    }
                    return Err(MatError::Overflow);
                }
                let tmpamt = Frac { num: -amt1.num, den: amt1.den };
                proof {
                    assert(tmpamt@ == f_neg(amt1@));
                    assert(f_fits(f_neg(amt1@)));
                }
                let ghost s1 = p_mul(sb, b as int, tmpamt@);
                match pair_mul(m, u, b, tmpamt) {
                    Ok(()) => {},
                    Err(e) => {
                        proof {
                            assert(elim_step(sb, a as int, b as int) is None);
                            assert(fwd_row(sa, a as int, b as int + 1) is None);
                            lemma_fwd_dead(s0, a as int, b as int + 1, mx);
                        }
                        return Err(e);
                    },
                }
                let ghost s2 = p_add(s1, a as int, b as int);
                match pair_add(m, u, a, b) {
                    Ok(()) => {},
                    Err(e) => {
                        proof {
                            assert(elim_step(sb, a as int, b as int) is None);
                            assert(fwd_row(sa, a as int, b as int + 1) is None);
                            lemma_fwd_dead(s0, a as int, b as int + 1, mx);
                        }
                        return Err(e);
                    },
                }
                match pair_div(m, u, b, tmpamt) {
                    Ok(()) => {},
                    Err(e) => {
                        proof {
                            assert(elim_step(sb, a as int, b as int) is None);
                            assert(fwd_row(sa, a as int, b as int + 1) is None);
                            lemma_fwd_dead(s0, a as int, b as int + 1, mx);
                        }
                        return Err(e);
                    },
                }
                proof {
                    assert(elim_step(sb, a as int, b as int) == Some((m@, u@)));
                    assert(fwd_row(sa, a as int, b as int + 1) == Some((m@, u@)));
                }
            }
            b += 1;
        }
        // The diagonal step of row `a`.
        let ghost sd = fwd_row(sa, a as int, a as int);
        proof {
            assert(m@[a as int].len() == cols as int);
        }
        let amt1 = m.matrix[a][a];
        proof {
            assert(amt1@ == m@[a as int][a as int]);
            assert(reduced(amt1@));
        }
        if amt1.num != 0 {
            match pair_div(m, u, a, amt1) {
                Ok(()) => {},
                Err(e) => {
                    proof {
                        assert(diag_step(sd, a as int, mx) is None);
                        assert(fwd_rows(s0, a as int + 1, mx) is None);
                        lemma_fwd_rows_mono(s0, a as int + 1, mx, mx);
                    }
                    return Err(e);
                },
            }
            proof {
                assert(diag_step(sd, a as int, mx) == Some((m@, u@)));
                assert(fwd_rows(s0, a as int + 1, mx) == Some((m@, u@)));
            }
        } else {
            // Scan below the diagonal for a row with a non-zero entry in
            // column `a`.
            let mut i: usize = a + 1;
            let mut other: usize = 0;
            let mut found = false;
            while i < max && !found
                invariant
                    m.wf(),
                    rows == m.dimension.0,
                    cols == m.dimension.1,
                    max <= rows,
                    max <= cols,
                    mx == max as int,
                    a < max,
                    a + 1 <= i <= max,
                    !found ==> find_nz(m@, a as int, a as int + 1, mx) == find_nz(
                        m@,
                        a as int,
                        i as int,
                        mx,
                    ),
                    found ==> a < other < max && m@[other as int][a as int].0 != 0 && find_nz(
                        m@,
                        a as int,
                        a as int + 1,
                        mx,
                    ) == other as int,
                decreases max - i + (if found { 0int } else { 1int }),
            {
                proof {
                    assert(m@[i as int].len() == cols as int);
                }
                let e = m.matrix[i][a];
                proof {
                    assert(e@ == m@[i as int][a as int]);
                }
                if e.num != 0 {
                    other = i;
                    found = true;
                } else {
                    i += 1;
                }
            }
            if !found {
                proof {
                    assert(find_nz(m@, a as int, a as int + 1, mx) == -1);
                    assert(diag_step(sd, a as int, mx) == sd);
                    assert(fwd_rows(s0, a as int + 1, mx) == Some((m@, u@)));
                }
            } else {
                let ghost gm = m@;
                let ghost o = other as int;
                proof {
                    assert(gm[o].len() == cols as int);
                }
                let amt2 = m.matrix[other][a];
                proof {
                    assert(amt2@ == gm[o][a as int]);
                    assert(reduced(amt2@));
                    // The diagonal entry is the canonical zero.
                    assert(gm[a as int][a as int] == (0int, 1int));
                }
                let ghost s1 = if amt2@.0 > 0 {
                    p_add(sd, a as int, o)
                } else {
                    p_sub(sd, a as int, o)
                };
                if amt2.num > 0 {
                    match pair_add(m, u, a, other) {
                        Ok(()) => {},
                        Err(e) => {
                            proof {
                                assert(diag_step(sd, a as int, mx) is None);
                                assert(fwd_rows(s0, a as int + 1, mx) is None);
                                lemma_fwd_rows_mono(s0, a as int + 1, mx, mx);
                            }
                            return Err(e);
                        },
                    }
                } else {
                    match pair_sub(m, u, a, other) {
                        Ok(()) => {},
                        Err(e) => {
                            proof {
                                assert(diag_step(sd, a as int, mx) is None);
                                assert(fwd_rows(s0, a as int + 1, mx) is None);
                                lemma_fwd_rows_mono(s0, a as int + 1, mx, mx);
                            }
                            return Err(e);
                        },
                    }
                }
                proof {
                    assert(s1 == Some((m@, u@)));
                    // The refreshed diagonal entry is the pulled-in entry (or
                    // its negation), hence non-zero.
                    assert(m@[a as int].len() == cols as int);
                    let x = gm[o][a as int];
                    if amt2@.0 > 0 {
                        assert(m@[a as int][a as int] == f_add((0int, 1int), x));
                        assert(0int * x.1 + x.0 * 1 == x.0);
                        assert(1int * x.1 == x.1);
                        crate::fracs::lemma_norm_of_reduced(x);
                        assert(m@[a as int][a as int] == x);
                    } else {
                        assert(m@[a as int][a as int] == f_sub((0int, 1int), x));
                        assert(0int * x.1 - x.0 * 1 == -x.0);
                        assert(1int * x.1 == x.1);
                        assert(vstd::math::abs(-x.0) == vstd::math::abs(x.0));
                        assert(reduced((-x.0, x.1)));
                        crate::fracs::lemma_norm_of_reduced((-x.0, x.1));
                        assert(m@[a as int][a as int] == (-x.0, x.1));
                    }
                    assert(m@[a as int][a as int].0 != 0);
                }
                let na = m.matrix[a][a];
                proof {
                    assert(na@ == m@[a as int][a as int]);
                    assert(na.num != 0);
                    assert(reduced(na@));
                }
                if na.num != 1 {
                    match pair_div(m, u, a, na) {
                        Ok(()) => {},
                        Err(e) => {
                            proof {
                                assert(diag_step(sd, a as int, mx) is None);
                                assert(fwd_rows(s0, a as int + 1, mx) is None);
                                lemma_fwd_rows_mono(s0, a as int + 1, mx, mx);
                            }
                            return Err(e);
                        },
                    }
                }
                proof {
                    assert(diag_step(sd, a as int, mx) == Some((m@, u@)));
                    assert(fwd_rows(s0, a as int + 1, mx) == Some((m@, u@)));
                }
            }
        }
        a += 1;
    }
    Ok(())
}

/// The backward (reduction) pass, applied to two matrices in lockstep:
/// working from the bottom-right pivot upward, eliminate every above-diagonal
/// entry of the leading block.
fn elim_backward(m: &mut Matrix, u: &mut Matrix) -> (r: Result<(), MatError>)
    requires
        old(m).wf(),
        old(u).wf(),
        old(m).dimension == old(u).dimension,
    ensures
        final(m).wf(),
        final(u).wf(),
        final(m).dimension == old(m).dimension,
        final(u).dimension == old(u).dimension,
        ({
            let s0 = Some((old(m)@, old(u)@));
            let mx = vstd::math::min(
                old(m).dimension.0 as int,
                old(m).dimension.1 as int,
            );
            match r {
                Ok(()) => back_pass(s0, mx) == Some((final(m)@, final(u)@)),
                Err(e) => e == MatError::Overflow && back_pass(s0, mx) is None,
            }
        }),
{
    let rows = m.dimension.0;
    let cols = m.dimension.1;
    let max = if rows < cols {
        rows
    } else {
        cols
    };
    let ghost s0 = Some((m@, u@));
    let ghost mx = max as int;
    if max <= 1 {
        proof {
            assert(back_pass(s0, mx) == s0);
        }
        return Ok(());
    }
    let mut ai: usize = max - 1;
    while ai > 0
        invariant
            m.wf(),
            u.wf(),
            m.dimension == old(m).dimension,
            u.dimension == old(u).dimension,
            m.dimension == u.dimension,
            rows == m.dimension.0,
            cols == m.dimension.1,
            max <= rows,
            max <= cols,
            2 <= max,
            mx == max as int,
            mx == vstd::math::min(old(m).dimension.0 as int, old(m).dimension.1 as int),
            s0 == Some((old(m)@, old(u)@)),
            ai <= max - 1,
            back_rows(Some((m@, u@)), ai as int - 1, mx) == back_pass(s0, mx),
        decreases ai,
    {
        let a = ai - 1;
        let ghost srow = Some((m@, u@));
        let mut b: usize = max - 1;
        while b > a
            invariant
                m.wf(),
                u.wf(),
                m.dimension == old(m).dimension,
                u.dimension == old(u).dimension,
                m.dimension == u.dimension,
                rows == m.dimension.0,
                cols == m.dimension.1,
                max <= rows,
                max <= cols,
                2 <= max,
                mx == max as int,
                mx == vstd::math::min(old(m).dimension.0 as int, old(m).dimension.1 as int),
                s0 == Some((old(m)@, old(u)@)),
                a == ai - 1,
                0 < ai <= max - 1,
                a <= b <= max - 1,
                back_rows(back_row(Some((m@, u@)), a as int, b as int), a as int - 1, mx)
                    == back_pass(s0, mx),
            decreases b,
        {
            let ghost sb = Some((m@, u@));
            proof {
                assert(m@[a as int].len() == cols as int);
            }
            let amt = m.matrix[a][b];
            proof {
                assert(amt@ == m@[a as int][b as int]);
                assert(reduced(amt@));
            }
            if amt.num != 0 {
                let ghost s1 = p_mul(sb, b as int, amt@);
                match pair_mul(m, u, b, amt) {
                    Ok(()) => {},
                    Err(e) => {
                        proof {
                            assert(back_step(sb, a as int, b as int) is None);
                            lemma_back_row_none(a as int, b as int - 1);
                            lemma_back_rows_none(a as int - 1, mx);
                        }
                        return Err(e);
                    },
                }
                let ghost s2 = p_sub(s1, a as int, b as int);
                match pair_sub(m, u, a, b) {
                    Ok(()) => {},
                    Err(e) => {
                        proof {
                            assert(back_step(sb, a as int, b as int) is None);
                            lemma_back_row_none(a as int, b as int - 1);
                            lemma_back_rows_none(a as int - 1, mx);
                        }
                        return Err(e);
                    },
                }
                match pair_div(m, u, b, amt) {
                    Ok(()) => {},
                    Err(e) => {
                        proof {
                            assert(back_step(sb, a as int, b as int) is None);
                            lemma_back_row_none(a as int, b as int - 1);
                            lemma_back_rows_none(a as int - 1, mx);
                        }
                        return Err(e);
                    },
                }
                proof {
                    assert(back_step(sb, a as int, b as int) == Some((m@, u@)));
                    assert(back_row(sb, a as int, b as int) == back_row(
                        Some((m@, u@)),
                        a as int,
                        b as int - 1,
                    ));
                }
            } else {
                proof {
                    assert(back_step(sb, a as int, b as int) == sb);
                    assert(back_row(sb, a as int, b as int) == back_row(
                        sb,
                        a as int,
                        b as int - 1,
                    ));
                }
            }
            b -= 1;
        }
        proof {
            assert(back_row(Some((m@, u@)), a as int, a as int) == Some((m@, u@)));
        }
        ai -= 1;
    }
    proof {
        assert(back_rows(Some((m@, u@)), -1, mx) == Some((m@, u@)));
    }
    Ok(())
}

/// The result of the forward pass alone on a single grid, or `None` on
/// overflow.
pub open spec fn ref_spec(g: Grid, max: int) -> Option<Grid> {
    match fwd_pass(Some((g, g)), max) {
        None => None,
        Some(p) => Some(p.0),
    }
}

/// The result of the forward then the backward pass on a single grid, or
/// `None` on overflow.
pub open spec fn rref_spec(g: Grid, max: int) -> Option<Grid> {
    match back_pass(fwd_pass(Some((g, g)), max), max) {
        None => None,
        Some(p) => Some(p.0),
    }
}

/// The identity grid of size `n`.
pub open spec fn id_grid(n: int) -> Grid {
    Seq::new(
        n as nat,
        |i: int| Seq::new(n as nat, |j: int| if i == j { (1int, 1int) } else { (0int, 1int) }),
    )
}

/// The full Gauss-Jordan state: the matrix and an identity companion taken
/// through the forward and backward passes in lockstep.
pub open spec fn gauss_jordan(g: Grid, n: int) -> Option<GridPair> {
    back_pass(fwd_pass(Some((g, id_grid(n))), n), n)
}

/// The leading `max` by `max` block of `g` is the identity, entry by entry,
/// compared as rationals.
pub open spec fn unit_block(g: Grid, max: int) -> bool {
    &&& forall|a: int| 0 <= a < max ==> (#[trigger] g[a][a]).0 == g[a][a].1
    &&& forall|a: int, b: int|
        0 <= a < max && 0 <= b < max && a != b ==> (#[trigger] g[b][a]).0 == 0
}

/// On and below the diagonal of the leading block, `g` looks like the
/// identity: diagonal entries equal 1 and entries below a diagonal equal 0,
/// compared as rationals.
pub open spec fn lower_identity(g: Grid, max: int) -> bool {
    &&& forall|a: int| 0 <= a < max ==> (#[trigger] g[a][a]).0 == g[a][a].1
    &&& forall|a: int, b: int|
        0 <= a < max && 0 <= b < a ==> (#[trigger] g[a][b]).0 == 0
}

/// What inverting a square grid of size `n` yields: the transformed identity
/// companion, provided elimination did not overflow and drove the matrix to
/// the identity.
pub open spec fn inverse_spec(g: Grid, n: int) -> Option<Grid> {
    match gauss_jordan(g, n) {
        None => None,
        Some(p) => if unit_block(p.0, n) {
            Some(p.1)
        } else {
            None
        },
    }
}

/// An identity matrix of size `n`.
fn identity(n: usize) -> (r: Matrix)
    requires
        n >= 1,
    ensures
        r.wf(),
        r.dimension == (n, n),
        r@ == id_grid(n as int),
{
    let mut mat: Vec<Vec<Frac>> = Vec::new();
    let mut i: usize = 0;
    while i < n
        invariant
            i <= n,
            mat@.len() == i,
            forall|k: int| 0 <= k < i ==> (#[trigger] mat@[k])@.len() == n,
            forall|k: int, j: int|
                0 <= k < i && 0 <= j < n ==> (#[trigger] mat@[k]@[j])@ == (
                    if k == j {
                        (1int, 1int)
                    } else {
                        (0int, 1int)
                    }
                ),
        decreases n - i,
    {
        let mut row: Vec<Frac> = Vec::new();
        let mut j: usize = 0;
        while j < n
            invariant
                j <= n,
                row@.len() == j,
                forall|k: int|
                    0 <= k < j ==> (#[trigger] row@[k])@ == (
                        if i == k {
                            (1int, 1int)
                        } else {
                            (0int, 1int)
                        }
                    ),
            decreases n - j,
        {
            if j == i {
                row.push(Frac { num: 1, den: 1 });
            } else {
                row.push(Frac { num: 0, den: 1 });
            }
            j += 1;
        }
        mat.push(row);
        i += 1;
    }
    let r = Matrix { dimension: (n, n), matrix: mat };
    proof {
        assert(r@ =~~= id_grid(n as int));
        assert forall|a: int, b: int| 0 <= a < n && 0 <= b < n implies reduced(
            #[trigger] r@[a][b],
        ) by {
            assert(r@[a][b] == id_grid(n as int)[a][b]);
            if a == b {
                assert(crate::arith::gcd(1, 1) == crate::arith::gcd(1, 0));
            }
        }
        assert(r.wf());
    }
    r
}

impl Matrix {
    /// Reduce this matrix to the row echelon form that diagonal-pivot
    /// elimination yields, in place. Fails only on overflow.
    pub fn row_echelon_form(&mut self) -> (r: Result<(), MatError>)
        requires
            old(self).wf(),
        ensures
            final(self).wf(),
            final(self).dimension == old(self).dimension,
            ({
                let mx = vstd::math::min(
                    old(self).dimension.0 as int,
                    old(self).dimension.1 as int,
                );
                match r {
                    Ok(()) => ref_spec(old(self)@, mx) == Some(final(self)@),
                    Err(e) => e == MatError::Overflow && ref_spec(old(self)@, mx) is None,
                }
            }),
    {
        let mut scratch = self.duplicate();
        elim_forward(self, &mut scratch)
    }

    /// Reduce this matrix to reduced row echelon form, in place: the forward
    /// pass, then elimination above the pivots. Fails only on overflow.
    pub fn reduced_row_echelon_form(&mut self) -> (r: Result<(), MatError>)
        requires
            old(self).wf(),
        ensures
            final(self).wf(),
            final(self).dimension == old(self).dimension,
            ({
                let mx = vstd::math::min(
                    old(self).dimension.0 as int,
                    old(self).dimension.1 as int,
                );
                match r {
                    Ok(()) => rref_spec(old(self)@, mx) == Some(final(self)@),
                    Err(e) => e == MatError::Overflow && rref_spec(old(self)@, mx) is None,
                }
            }),
    {
        let mut scratch = self.duplicate();
        match elim_forward(self, &mut scratch) {
            Ok(()) => {},
            Err(e) => {
                proof {
                    lemma_back_rows_none(
                        vstd::math::min(
                            old(self).dimension.0 as int,
                            old(self).dimension.1 as int,
                        ) - 2,
                        vstd::math::min(
                            old(self).dimension.0 as int,
                            old(self).dimension.1 as int,
                        ),
                    );
                }
                return Err(e);
            },
        }
        elim_backward(self, &mut scratch)
    }

    /// The inverse of a square matrix, by running the identical sequence of
    /// row operations on the matrix and an identity copy in lockstep and
    /// checking that the matrix reached the identity. Fails when the matrix
    /// is not square, when elimination overflows, and when the matrix is
    /// singular.
    pub fn inverse(&self) -> (r: Result<Matrix, MatError>)
        requires
            self.wf(),
        ensures
            ({
                let n = self.dimension.0 as int;
                match r {
                    Ok(inv) => {
                        &&& self.dimension.0 == self.dimension.1
                        &&& gauss_jordan(self@, n) is Some
                        &&& unit_block(gauss_jordan(self@, n).unwrap().0, n)
                        &&& inv.wf()
                        &&& inv.dimension == self.dimension
                        &&& Some(inv@) == inverse_spec(self@, n)
                    },
                    Err(MatError::NotSquare) => self.dimension.0 != self.dimension.1,
                    Err(MatError::Overflow) => self.dimension.0 == self.dimension.1
                        && gauss_jordan(self@, n) is None,
                    Err(MatError::Singular) => self.dimension.0 == self.dimension.1
                        && gauss_jordan(self@, n) is Some && !unit_block(
                        gauss_jordan(self@, n).unwrap().0,
                        n,
                    ),
                    Err(_) => false,
                }
            }),
    {
        if self.dimension.0 != self.dimension.1 {
            return Err(MatError::NotSquare);
        }
        let n = self.dimension.0;
        let ghost nn = n as int;
        let mut slef = self.duplicate();
        let mut unit = identity(n);
        proof {
            assert(vstd::math::min(nn, nn) == nn);
        }
        match elim_forward(&mut slef, &mut unit) {
            Ok(()) => {},
            Err(e) => {
                proof {
                    lemma_back_rows_none(nn - 2, nn);
                }
                return Err(e);
            },
        }
        match elim_backward(&mut slef, &mut unit) {
            Ok(()) => {},
            Err(e) => {
                return Err(e);
            },
        }
        // Check that the matrix copy became the identity.
        let ghost gs = slef@;
        let mut a: usize = 0;
        while a < n
            invariant
                slef.wf(),
                gs == slef@,
                n == slef.dimension.0,
                n == slef.dimension.1,
                nn == n as int,
                self.dimension.0 == n,
                self.dimension.1 == n,
                unit.wf(),
                unit.dimension == self.dimension,
                gauss_jordan(self@, nn) == Some((gs, unit@)),
                a <= n,
                forall|x: int| 0 <= x < a ==> (#[trigger] gs[x][x]).0 == gs[x][x].1,
                forall|x: int, y: int|
                    0 <= x < a && 0 <= y < n && y != x ==> (#[trigger] gs[y][x]).0 == 0,
            decreases n - a,
        {
            let mut b: usize = 0;
            while b < n
                invariant
                    slef.wf(),
                    gs == slef@,
                    n == slef.dimension.0,
                    n == slef.dimension.1,
                    nn == n as int,
                    self.dimension.0 == n,
                    self.dimension.1 == n,
                    unit.wf(),
                    unit.dimension == self.dimension,
                    gauss_jordan(self@, nn) == Some((gs, unit@)),
                    a < n,
                    b <= n,
                    forall|x: int| 0 <= x < a ==> (#[trigger] gs[x][x]).0 == gs[x][x].1,
                    forall|x: int, y: int|
                        0 <= x < a && 0 <= y < n && y != x ==> (#[trigger] gs[y][x]).0 == 0,
                    a < b ==> (gs[a as int][a as int]).0 == gs[a as int][a as int].1,
                    forall|y: int|
                        0 <= y < b && y != a ==> (#[trigger] gs[y][a as int]).0 == 0,
                decreases n - b,
            {
                proof {
                    assert(gs[b as int].len() == n as int);
                    assert(gs[a as int].len() == n as int);
                }
                let tst = slef.matrix[b][a];
                proof {
                    assert(tst@ == gs[b as int][a as int]);
                }
                if a != b {
                    if tst.num != 0 {
                        proof {
                            assert(!unit_block(gs, nn));
                        }
                        return Err(MatError::Singular);
                    }
                } else {
                    if tst.num != tst.den {
                        proof {
                            assert(!unit_block(gs, nn));
                        }
                        return Err(MatError::Singular);
                    }
                }
                b += 1;
            }
            a += 1;
        }
        proof {
            assert(unit_block(gs, nn));
        }
        Ok(unit)
    }

    /// Whether the rows are linearly independent, judged by running the
    /// forward pass on a copy and checking that the leading block has unit
    /// diagonal and zeros below it. Fails only on overflow.
    pub fn is_linearly_independent(&self) -> (r: Result<bool, MatError>)
        requires
            self.wf(),
        ensures
            ({
                let mx = vstd::math::min(self.dimension.0 as int, self.dimension.1 as int);
                match r {
                    Ok(v) => ref_spec(self@, mx) is Some && v == lower_identity(
                        ref_spec(self@, mx).unwrap(),
                        mx,
                    ),
                    Err(e) => e == MatError::Overflow && ref_spec(self@, mx) is None,
                }
            }),
    {
        let mut tst = self.duplicate();
        match tst.row_echelon_form() {
            Ok(()) => {},
            Err(e) => {
                return Err(e);
            },
        }
        let rows = tst.dimension.0;
        let cols = tst.dimension.1;
        let max = if rows < cols {
            rows
        } else {
            cols
        };
        let ghost mx = max as int;
        let ghost gt = tst@;
        let mut a: usize = 0;
        while a < max
            invariant
                tst.wf(),
                gt == tst@,
                rows == tst.dimension.0,
                cols == tst.dimension.1,
                max <= rows,
                max <= cols,
                mx == max as int,
                mx == vstd::math::min(self.dimension.0 as int, self.dimension.1 as int),
                ref_spec(self@, mx) == Some(gt),
                a <= max,
                forall|x: int| 0 <= x < a ==> (#[trigger] gt[x][x]).0 == gt[x][x].1,
                forall|x: int, y: int|
                    0 <= x < a && 0 <= y < x ==> (#[trigger] gt[x][y]).0 == 0,
            decreases max - a,
        {
            let mut b: usize = 0;
            while b < a + 1
                invariant
                    tst.wf(),
                    gt == tst@,
                    rows == tst.dimension.0,
                    cols == tst.dimension.1,
                    max <= rows,
                    max <= cols,
                    mx == max as int,
                    mx == vstd::math::min(self.dimension.0 as int, self.dimension.1 as int),
                    ref_spec(self@, mx) == Some(gt),
                    a < max,
                    b <= a + 1,
                    forall|x: int| 0 <= x < a ==> (#[trigger] gt[x][x]).0 == gt[x][x].1,
                    forall|x: int, y: int|
                        0 <= x < a && 0 <= y < x ==> (#[trigger] gt[x][y]).0 == 0,
                    a < b ==> (gt[a as int][a as int]).0 == gt[a as int][a as int].1,
                    forall|y: int|
                        0 <= y < b && y < a ==> (#[trigger] gt[a as int][y]).0 == 0,
                decreases a + 1 - b,
            {
                proof {
                    assert(gt[a as int].len() == cols as int);
                }
                let tstf = tst.matrix[a][b];
                proof {
                    assert(tstf@ == gt[a as int][b as int]);
                }
                if a != b {
                    if tstf.num != 0 {
                        proof {
                            assert(!lower_identity(gt, mx));
                        }
                        return Ok(false);
                    }
                } else {
                    if tstf.num != tstf.den {
                        proof {
                            assert(!lower_identity(gt, mx));
                        }
                        return Ok(false);
                    }
                }
                b += 1;
            }
            a += 1;
        }
        proof {
            assert(lower_identity(gt, mx));
        }
        Ok(true)
    }

    /// Divide by another matrix: multiplication by its inverse. The divisor
    /// must be square with as many rows as this matrix has columns; a
    /// singular divisor and overflow are reported as such.
    pub fn div(&self, other: &Matrix) -> (r: Result<Matrix, MatError>)
        requires
            self.wf(),
            other.wf(),
        ensures
            ({
                let n = other.dimension.0 as int;
                let shape_ok = self.dimension.1 == other.dimension.0 && other.dimension.0
                    == other.dimension.1;
                match r {
                    Ok(m) => {
                        &&& shape_ok
                        &&& inverse_spec(other@, n) is Some
                        &&& crate::ops::mat_mul_ok(
                            self@,
                            inverse_spec(other@, n).unwrap(),
                            self.dimension.1 as int,
                            n,
                        )
                        &&& m.wf()
                        &&& m.dimension.0 == self.dimension.0
                        &&& m.dimension.1 == other.dimension.1
                        &&& m@ == crate::ops::mat_mul(
                            self@,
                            inverse_spec(other@, n).unwrap(),
                            self.dimension.1 as int,
                            n,
                        )
                    },
                    Err(MatError::DivisorShape) => !shape_ok,
                    Err(MatError::Singular) => shape_ok && gauss_jordan(other@, n) is Some
                        && !unit_block(gauss_jordan(other@, n).unwrap().0, n),
                    Err(MatError::Overflow) => shape_ok && (gauss_jordan(other@, n) is None || (
                    inverse_spec(other@, n) is Some && !crate::ops::mat_mul_ok(
                        self@,
                        inverse_spec(other@, n).unwrap(),
                        self.dimension.1 as int,
                        n,
                    ))),
                    Err(_) => false,
                }
            }),
    {
        if !(self.dimension.1 == other.dimension.0 && other.dimension.0 == other.dimension.1) {
            return Err(MatError::DivisorShape);
        }
        let rehto = other.inverse();
        match rehto {
            Err(e) => Err(e),
            Ok(xirtam) => {
                let res = self.mul(&xirtam);
                match res {
                    Err(e) => Err(e),
                    Ok(result) => Ok(result),
                }
            },
        }
    }
}

} // verus!
