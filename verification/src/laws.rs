//! Laws of the elimination engine: a matrix whose leading block has already
//! reached the identity is a fixed point of both elimination passes, so
//! reduction is idempotent on full-rank outcomes, and every identity matrix
//! passes the linear-independence test.

use crate::arith::gcd;
use crate::elim::{back_pass, back_row, back_rows, back_step, diag_step, elim_step, fwd_pass,
    fwd_row, fwd_rows, id_grid, find_nz, lemma_fwd_row_mono, lower_identity, p_add, p_div, p_mul,
    p_sub, ref_spec, rref_spec, unit_block};
use crate::fracs::{f_add, f_div, f_fits, f_inv, f_mul, f_neg, f_sub, lemma_norm_of_reduced,
    lemma_norm_reduced, lemma_norm_represents, lemma_norm_unique, lemma_scale_restore, norm,
    reduced};
use crate::mats::{grid_wf, Grid, Rat};
use crate::rowops::{row_add_g, row_add_ok, row_div_g, row_div_ok, row_mul_g, row_mul_ok,
    row_sub_g, row_sub_ok};
use vstd::arithmetic::mul::{lemma_mul_basics, lemma_mul_is_commutative};
use vstd::math::abs;
use vstd::prelude::*;

verus! {

/// Every entry of the grid fits the 32-bit fields; true of the contents of
/// any actual matrix.
pub open spec fn grid_fits(g: Grid, rows: int, cols: int) -> bool {
    forall|i: int, j: int| 0 <= i < rows && 0 <= j < cols ==> f_fits(#[trigger] g[i][j])
}

/// The gcd of a number with itself is that number.
proof fn lemma_gcd_self(n: nat)
    ensures
        gcd(n, n) == n,
{
    if n != 0 {
        assert(n % n == 0) by {
            vstd::arithmetic::div_mod::lemma_mod_self_0(n as int);
        }
        assert(gcd(n, n) == gcd(n, 0));
    }
}

/// In a well-formed grid, a leading block that is the identity as rationals
/// is the identity structurally: `(1, 1)` on the diagonal, `(0, 1)` off it.
proof fn lemma_unit_block_structural(g: Grid, rows: int, cols: int, max: int, i: int, j: int)
    requires
        grid_wf(g, rows, cols),
        max <= rows,
        max <= cols,
        unit_block(g, max),
        0 <= i < max,
        0 <= j < max,
    ensures
        g[i][j] == if i == j {
            (1int, 1int)
        } else {
            (0int, 1int)
        },
{
    assert(reduced(g[i][j]));
    if i == j {
        let e = g[i][i];
        assert(e.0 == e.1);
        assert(e.1 >= 1);
        assert(e.0 != 0);
        lemma_gcd_self(abs(e.0));
        assert(abs(e.0) == e.1);
        assert(gcd(abs(e.0), e.1 as nat) == 1);
        assert(e == (1int, 1int));
    } else {
        assert(g[i][j].0 == 0);
        assert(g[i][j].1 == 1);
        assert(g[i][j] == (0int, 1int));
    }
}

/// Dividing a canonical fraction by one leaves it unchanged.
proof fn lemma_div_by_one(e: (int, int))
    requires
        reduced(e),
    ensures
        f_div(e, (1int, 1int)) == e,
        f_inv((1int, 1int)) == (1int, 1int),
{
    assert(gcd(1nat, 1nat) == 1) by {
        lemma_gcd_self(1nat);
    }
    assert(f_inv((1int, 1int)) == norm(1int, 1int));
    assert(reduced((1int, 1int)));
    lemma_norm_of_reduced((1int, 1int));
    assert(f_div(e, (1int, 1int)) == f_mul(e, (1int, 1int)));
    assert(e.0 * 1 == e.0);
    assert(e.1 * 1 == e.1);
    lemma_norm_of_reduced(e);
}

/// Dividing a row of canonical, in-range entries by one is permitted and
/// leaves the whole pair state unchanged.
proof fn lemma_p_div_one_noop(g: Grid, u: Grid, t: int, rows: int, cols: int)
    requires
        grid_wf(g, rows, cols),
        grid_fits(g, rows, cols),
        grid_wf(u, rows, cols),
        grid_fits(u, rows, cols),
        0 <= t < rows,
    ensures
        p_div(Some((g, u)), t, (1int, 1int)) == Some((g, u)),
{
    lemma_div_by_one((0int, 1int));
    assert forall|j: int| 0 <= j < g[t].len() implies f_fits(
        #[trigger] f_div(g[t][j], (1int, 1int)),
    ) by {
        lemma_div_by_one(g[t][j]);
    }
    assert forall|j: int| 0 <= j < u[t].len() implies f_fits(
        #[trigger] f_div(u[t][j], (1int, 1int)),
    ) by {
        lemma_div_by_one(u[t][j]);
    }
    assert(crate::rowops::row_div_ok(g, t, (1int, 1int)));
    assert(crate::rowops::row_div_ok(u, t, (1int, 1int)));
    assert(crate::rowops::row_div_g(g, t, (1int, 1int)) =~~= g) by {
        assert forall|j: int| 0 <= j < g[t].len() implies f_div(g[t][j], (1int, 1int)) == g[t][j] by {
            lemma_div_by_one(g[t][j]);
        }
    }
    assert(crate::rowops::row_div_g(u, t, (1int, 1int)) =~~= u) by {
        assert forall|j: int| 0 <= j < u[t].len() implies f_div(u[t][j], (1int, 1int)) == u[t][j] by {
            lemma_div_by_one(u[t][j]);
        }
    }
}

/// With an identity leading block, the eliminations of one row change nothing.
proof fn lemma_fwd_row_noop(g: Grid, u: Grid, rows: int, cols: int, max: int, a: int, b: int)
    requires
        grid_wf(g, rows, cols),
        grid_wf(u, rows, cols),
        max <= rows,
        max <= cols,
        unit_block(g, max),
        0 <= b <= a < max,
    ensures
        fwd_row(Some((g, u)), a, b) == Some((g, u)),
    decreases b,
{
    if b > 0 {
        lemma_fwd_row_noop(g, u, rows, cols, max, a, b - 1);
        lemma_unit_block_structural(g, rows, cols, max, a, b - 1);
        assert(g[a][b - 1].0 == 0);
        assert(elim_step(Some((g, u)), a, b - 1) == Some((g, u)));
    }
}

/// With an identity leading block, the forward pass changes nothing.
proof fn lemma_fwd_rows_noop(g: Grid, u: Grid, rows: int, cols: int, max: int, a: int)
    requires
        grid_wf(g, rows, cols),
        grid_fits(g, rows, cols),
        grid_wf(u, rows, cols),
        grid_fits(u, rows, cols),
        max <= rows,
        max <= cols,
        unit_block(g, max),
        0 <= a <= max,
    ensures
        fwd_rows(Some((g, u)), a, max) == Some((g, u)),
    decreases a,
{
    if a > 0 {
        lemma_fwd_rows_noop(g, u, rows, cols, max, a - 1);
        lemma_fwd_row_noop(g, u, rows, cols, max, a - 1, a - 1);
        lemma_unit_block_structural(g, rows, cols, max, a - 1, a - 1);
        assert(g[a - 1][a - 1] == (1int, 1int));
        lemma_p_div_one_noop(g, u, a - 1, rows, cols);
        assert(diag_step(Some((g, u)), a - 1, max) == Some((g, u)));
    }
}

/// With an identity leading block, the back eliminations of one row change
/// nothing.
proof fn lemma_back_row_noop(g: Grid, u: Grid, rows: int, cols: int, max: int, a: int, b: int)
    requires
        grid_wf(g, rows, cols),
        grid_wf(u, rows, cols),
        max <= rows,
        max <= cols,
        unit_block(g, max),
        0 <= a < max,
        a <= b < max,
    ensures
        back_row(Some((g, u)), a, b) == Some((g, u)),
    decreases b - a,
{
    if b > a {
        lemma_unit_block_structural(g, rows, cols, max, a, b);
        assert(g[a][b].0 == 0);
        assert(back_step(Some((g, u)), a, b) == Some((g, u)));
        lemma_back_row_noop(g, u, rows, cols, max, a, b - 1);
    }
}

/// With an identity leading block, the backward pass changes nothing.
proof fn lemma_back_rows_noop(g: Grid, u: Grid, rows: int, cols: int, max: int, a: int)
    requires
        grid_wf(g, rows, cols),
        grid_wf(u, rows, cols),
        max <= rows,
        max <= cols,
        unit_block(g, max),
        -1 <= a < max - 1,
    ensures
        back_rows(Some((g, u)), a, max) == Some((g, u)),
    decreases a + 1,
{
    if a >= 0 {
        lemma_back_row_noop(g, u, rows, cols, max, a, max - 1);
        lemma_back_rows_noop(g, u, rows, cols, max, a - 1);
    }
}

/// A well-formed matrix whose leading block is the identity is a fixed point
/// of elimination: the row echelon pass and the full reduction both return it
/// unchanged. In particular, reduction is idempotent on every matrix it
/// drives to a full-rank (identity-block) outcome.
pub proof fn lemma_elimination_fixed_point(g: Grid, rows: int, cols: int)
    requires
        grid_wf(g, rows, cols),
        grid_fits(g, rows, cols),
        unit_block(g, vstd::math::min(rows, cols)),
    ensures
        ref_spec(g, vstd::math::min(rows, cols)) == Some(g),
        rref_spec(g, vstd::math::min(rows, cols)) == Some(g),
{
    let max = vstd::math::min(rows, cols);
    lemma_fwd_rows_noop(g, g, rows, cols, max, max);
    assert(fwd_pass(Some((g, g)), max) == Some((g, g)));
    if max >= 2 {
        lemma_back_rows_noop(g, g, rows, cols, max, max - 2);
    }
    assert(back_pass(Some((g, g)), max) == Some((g, g)));
}

/// Every identity matrix passes the linear-independence test: the forward
/// pass leaves it unchanged, and its leading block has unit diagonal and
/// zeros below.
pub proof fn lemma_identity_linearly_independent(n: int)
    requires
        n >= 1,
    ensures
        ref_spec(id_grid(n), n) == Some(id_grid(n)),
        lower_identity(id_grid(n), n),
{
    let g = id_grid(n);
    assert(grid_wf(g, n, n)) by {
        assert forall|i: int, j: int| 0 <= i < n && 0 <= j < n implies reduced(
            #[trigger] g[i][j],
        ) by {
            if i == j {
                lemma_gcd_self(1nat);
                assert(g[i][j] == (1int, 1int));
            } else {
                assert(g[i][j] == (0int, 1int));
            }
        }
    }
    assert(grid_fits(g, n, n)) by {
        assert forall|i: int, j: int| 0 <= i < n && 0 <= j < n implies f_fits(
            #[trigger] g[i][j],
        ) by {
            assert(g[i][j] == if i == j { (1int, 1int) } else { (0int, 1int) });
        }
    }
    assert(unit_block(g, n)) by {
        assert forall|a: int| 0 <= a < n implies (#[trigger] g[a][a]).0 == g[a][a].1 by {
            assert(g[a][a] == (1int, 1int));
        }
        assert forall|a: int, b: int| 0 <= a < n && 0 <= b < n && a != b implies (
        #[trigger] g[b][a]).0 == 0 by {
            assert(g[b][a] == (0int, 1int));
        }
    }
    assert(vstd::math::min(n, n) == n);
    lemma_elimination_fixed_point(g, n, n);
    assert(lower_identity(g, n)) by {
        assert forall|a: int| 0 <= a < n implies (#[trigger] g[a][a]).0 == g[a][a].1 by {
            assert(g[a][a] == (1int, 1int));
        }
        assert forall|a: int, b: int| 0 <= a < n && 0 <= b < a implies (#[trigger] g[a][b]).0
            == 0 by {
            assert(g[a][b] == (0int, 1int));
        }
    }
}

/// Both well-formedness and 32-bit range, as one predicate.
pub open spec fn grid_ok(g: Grid, rows: int, cols: int) -> bool {
    grid_wf(g, rows, cols) && grid_fits(g, rows, cols)
}

/// Dividing a non-zero canonical fraction by itself yields exactly one.
proof fn lemma_div_self_one(t: Rat)
    requires
        reduced(t),
        t.0 != 0,
    ensures
        f_div(t, t) == (1int, 1int),
{
    lemma_norm_reduced(t.1, t.0);
    lemma_norm_represents(t.1, t.0);
    let i = f_inv(t);
    assert(i.0 * t.0 == t.1 * i.1);
    assert(i.1 >= 1);
    assert(t.1 >= 1);
    assert(t.1 * i.1 >= 1) by (nonlinear_arith)
        requires
            t.1 >= 1,
            i.1 >= 1,
    ;
    assert(t.0 * i.0 == i.0 * t.0) by {
        lemma_mul_is_commutative(t.0, i.0);
    }
    assert((t.0 * i.0) * 1 == t.0 * i.0) by {
        lemma_mul_basics(t.0 * i.0);
    }
    assert(1 * (t.1 * i.1) == t.1 * i.1) by {
        lemma_mul_basics(t.1 * i.1);
    }
    lemma_norm_unique(t.0 * i.0, t.1 * i.1, 1, 1);
    assert(reduced((1int, 1int))) by {
        lemma_gcd_self(1nat);
    }
    lemma_norm_of_reduced((1int, 1int));
}

/// A permitted row addition keeps a grid well-formed and in range.
proof fn lemma_row_add_keeps_ok(g: Grid, h: Grid, t: int, s: int, rows: int, cols: int)
    requires
        grid_ok(g, rows, cols),
        0 <= t < rows,
        0 <= s < rows,
        row_add_ok(g, t, s),
        h == row_add_g(g, t, s),
    ensures
        grid_ok(h, rows, cols),
        forall|x: int| 0 <= x < rows && x != t ==> h[x] == g[x],
        forall|j: int| 0 <= j < cols ==> #[trigger] h[t][j] == f_add(g[t][j], g[s][j]),
{
    assert forall|i: int| 0 <= i < rows implies (#[trigger] h[i]).len() == cols by {
        if i != t {
            assert(h[i] == g[i]);
        }
    }
    assert forall|i: int, j: int| 0 <= i < rows && 0 <= j < cols implies reduced(
        #[trigger] h[i][j],
    ) && f_fits(h[i][j]) by {
        if i == t {
            assert(h[t][j] == f_add(g[t][j], g[s][j]));
            assert(g[t][j].1 * g[s][j].1 != 0) by (nonlinear_arith)
                requires
                    g[t][j].1 >= 1,
                    g[s][j].1 >= 1,
            ;
            lemma_norm_reduced(
                g[t][j].0 * g[s][j].1 + g[s][j].0 * g[t][j].1,
                g[t][j].1 * g[s][j].1,
            );
            assert(f_fits(f_add(g[t][j], g[s][j])));
        } else {
            assert(h[i][j] == g[i][j]);
        }
    }
}

/// A permitted row subtraction keeps a grid well-formed and in range.
proof fn lemma_row_sub_keeps_ok(g: Grid, h: Grid, t: int, s: int, rows: int, cols: int)
    requires
        grid_ok(g, rows, cols),
        0 <= t < rows,
        0 <= s < rows,
        row_sub_ok(g, t, s),
        h == row_sub_g(g, t, s),
    ensures
        grid_ok(h, rows, cols),
        forall|x: int| 0 <= x < rows && x != t ==> h[x] == g[x],
        forall|j: int| 0 <= j < cols ==> #[trigger] h[t][j] == f_sub(g[t][j], g[s][j]),
{
    assert forall|i: int| 0 <= i < rows implies (#[trigger] h[i]).len() == cols by {
        if i != t {
            assert(h[i] == g[i]);
        }
    }
    assert forall|i: int, j: int| 0 <= i < rows && 0 <= j < cols implies reduced(
        #[trigger] h[i][j],
    ) && f_fits(h[i][j]) by {
        if i == t {
            assert(h[t][j] == f_sub(g[t][j], g[s][j]));
            assert(g[t][j].1 * g[s][j].1 != 0) by (nonlinear_arith)
                requires
                    g[t][j].1 >= 1,
                    g[s][j].1 >= 1,
            ;
            lemma_norm_reduced(
                g[t][j].0 * g[s][j].1 - g[s][j].0 * g[t][j].1,
                g[t][j].1 * g[s][j].1,
            );
            assert(f_fits(f_sub(g[t][j], g[s][j])));
        } else {
            assert(h[i][j] == g[i][j]);
        }
    }
}

/// A permitted row scaling by a fraction with non-zero denominator keeps a
/// grid well-formed and in range.
proof fn lemma_row_mul_keeps_ok(g: Grid, h: Grid, t: int, f: Rat, rows: int, cols: int)
    requires
        grid_ok(g, rows, cols),
        0 <= t < rows,
        f.1 != 0,
        row_mul_ok(g, t, f),
        h == row_mul_g(g, t, f),
    ensures
        grid_ok(h, rows, cols),
        forall|x: int| 0 <= x < rows && x != t ==> h[x] == g[x],
        forall|j: int| 0 <= j < cols ==> #[trigger] h[t][j] == f_mul(g[t][j], f),
{
    assert forall|i: int| 0 <= i < rows implies (#[trigger] h[i]).len() == cols by {
        if i != t {
            assert(h[i] == g[i]);
        }
    }
    assert forall|i: int, j: int| 0 <= i < rows && 0 <= j < cols implies reduced(
        #[trigger] h[i][j],
    ) && f_fits(h[i][j]) by {
        if i == t {
            assert(h[t][j] == f_mul(g[t][j], f));
            assert(g[t][j].1 * f.1 != 0) by (nonlinear_arith)
                requires
                    g[t][j].1 >= 1,
                    f.1 != 0,
            ;
            lemma_norm_reduced(g[t][j].0 * f.0, g[t][j].1 * f.1);
            assert(f_fits(f_mul(g[t][j], f)));
        } else {
            assert(h[i][j] == g[i][j]);
        }
    }
}

/// A permitted row division by a non-zero fraction keeps a grid well-formed
/// and in range.
proof fn lemma_row_div_keeps_ok(g: Grid, h: Grid, t: int, f: Rat, rows: int, cols: int)
    requires
        grid_ok(g, rows, cols),
        0 <= t < rows,
        f.0 != 0,
        f.1 != 0,
        row_div_ok(g, t, f),
        h == row_div_g(g, t, f),
    ensures
        grid_ok(h, rows, cols),
        forall|x: int| 0 <= x < rows && x != t ==> h[x] == g[x],
        forall|j: int| 0 <= j < cols ==> #[trigger] h[t][j] == f_div(g[t][j], f),
{
    lemma_norm_reduced(f.1, f.0);
    let i0 = f_inv(f);
    assert forall|i: int| 0 <= i < rows implies (#[trigger] h[i]).len() == cols by {
        if i != t {
            assert(h[i] == g[i]);
        }
    }
    assert forall|i: int, j: int| 0 <= i < rows && 0 <= j < cols implies reduced(
        #[trigger] h[i][j],
    ) && f_fits(h[i][j]) by {
        if i == t {
            assert(h[t][j] == f_div(g[t][j], f));
            assert(g[t][j].1 * i0.1 != 0) by (nonlinear_arith)
                requires
                    g[t][j].1 >= 1,
                    i0.1 >= 1,
            ;
            lemma_norm_reduced(g[t][j].0 * i0.0, g[t][j].1 * i0.1);
            assert(f_fits(f_div(g[t][j], f)));
        } else {
            assert(h[i][j] == g[i][j]);
        }
    }
}

/// The scale-combine-restore dance of one elimination: scaling row `b` by a
/// fraction, adding or subtracting it into row `a`, then dividing row `b`
/// back, leaves every row but `a` exactly as it was and keeps both grids
/// well-formed and in range.
proof fn lemma_dance_frame(
    p: (Grid, Grid),
    q: (Grid, Grid),
    a: int,
    b: int,
    t: Rat,
    use_add: bool,
    rows: int,
    cols: int,
)
    requires
        grid_ok(p.0, rows, cols),
        grid_ok(p.1, rows, cols),
        0 <= a < rows,
        0 <= b < rows,
        a != b,
        reduced(t),
        t.0 != 0,
        Some(q) == if use_add {
            p_div(p_add(p_mul(Some(p), b, t), a, b), b, t)
        } else {
            p_div(p_sub(p_mul(Some(p), b, t), a, b), b, t)
        },
    ensures
        grid_ok(q.0, rows, cols),
        grid_ok(q.1, rows, cols),
        forall|x: int| 0 <= x < rows && x != a ==> q.0[x] == p.0[x] && q.1[x] == p.1[x],
{
    let s1 = p_mul(Some(p), b, t);
    assert(s1 is Some);
    let p1 = s1.unwrap();
    lemma_row_mul_keeps_ok(p.0, p1.0, b, t, rows, cols);
    lemma_row_mul_keeps_ok(p.1, p1.1, b, t, rows, cols);
    let s2 = if use_add {
        p_add(s1, a, b)
    } else {
        p_sub(s1, a, b)
    };
    assert(s2 is Some);
    let p2 = s2.unwrap();
    if use_add {
        lemma_row_add_keeps_ok(p1.0, p2.0, a, b, rows, cols);
        lemma_row_add_keeps_ok(p1.1, p2.1, a, b, rows, cols);
    } else {
        lemma_row_sub_keeps_ok(p1.0, p2.0, a, b, rows, cols);
        lemma_row_sub_keeps_ok(p1.1, p2.1, a, b, rows, cols);
    }
    assert(Some(q) == p_div(s2, b, t));
    lemma_row_div_keeps_ok(p2.0, q.0, b, t, rows, cols);
    lemma_row_div_keeps_ok(p2.1, q.1, b, t, rows, cols);
    // Row `b` was scaled and divided back entry by entry; it is restored.
    assert(q.0[b] == p.0[b]) by {
        assert forall|j: int| 0 <= j < cols implies q.0[b][j] == p.0[b][j] by {
            assert(p2.0[b][j] == p1.0[b][j]);
            assert(p1.0[b][j] == f_mul(p.0[b][j], t));
            assert(q.0[b][j] == f_div(f_mul(p.0[b][j], t), t));
            lemma_scale_restore(p.0[b][j], t);
        }
        assert(q.0[b] =~= p.0[b]);
    }
    assert(q.1[b] == p.1[b]) by {
        assert forall|j: int| 0 <= j < cols implies q.1[b][j] == p.1[b][j] by {
            assert(p2.1[b][j] == p1.1[b][j]);
            assert(p1.1[b][j] == f_mul(p.1[b][j], t));
            assert(q.1[b][j] == f_div(f_mul(p.1[b][j], t), t));
            lemma_scale_restore(p.1[b][j], t);
        }
        assert(q.1[b] =~= p.1[b]);
    }
    assert forall|x: int| 0 <= x < rows && x != a implies q.0[x] == p.0[x] && q.1[x]
        == p.1[x] by {
        if x != b {
            assert(p1.0[x] == p.0[x]);
            assert(p2.0[x] == p1.0[x]);
            assert(q.0[x] == p2.0[x]);
            assert(p1.1[x] == p.1[x]);
            assert(p2.1[x] == p1.1[x]);
            assert(q.1[x] == p2.1[x]);
        }
    }
}

/// One elimination step leaves every row but `a` unchanged and keeps both
/// grids well-formed and in range.
proof fn lemma_elim_step_frame(p: (Grid, Grid), a: int, b: int, rows: int, cols: int)
    requires
        grid_ok(p.0, rows, cols),
        grid_ok(p.1, rows, cols),
        0 <= b < a < rows,
        a < cols,
        elim_step(Some(p), a, b) is Some,
    ensures
        ({
            let q = elim_step(Some(p), a, b).unwrap();
            &&& grid_ok(q.0, rows, cols)
            &&& grid_ok(q.1, rows, cols)
            &&& forall|x: int| 0 <= x < rows && x != a ==> q.0[x] == p.0[x] && q.1[x] == p.1[x]
        }),
{
    let amt = p.0[a][b];
    assert(reduced(amt));
    let q = elim_step(Some(p), a, b).unwrap();
    if amt.0 == 0 {
    } else if amt.0 > 0 {
        lemma_dance_frame(p, q, a, b, amt, false, rows, cols);
    } else {
        let t = f_neg(amt);
        assert(f_fits(t));
        assert(abs(t.0) == abs(amt.0));
        assert(reduced(t));
        lemma_dance_frame(p, q, a, b, t, true, rows, cols);
    }
}

/// The eliminations of one row leave every other row unchanged and keep both
/// grids well-formed and in range.
proof fn lemma_fwd_row_frame(p: (Grid, Grid), a: int, b: int, rows: int, cols: int)
    requires
        grid_ok(p.0, rows, cols),
        grid_ok(p.1, rows, cols),
        0 <= b <= a < rows,
        a < cols,
        fwd_row(Some(p), a, b) is Some,
    ensures
        ({
            let q = fwd_row(Some(p), a, b).unwrap();
            &&& grid_ok(q.0, rows, cols)
            &&& grid_ok(q.1, rows, cols)
            &&& forall|x: int| 0 <= x < rows && x != a ==> q.0[x] == p.0[x] && q.1[x] == p.1[x]
        }),
    decreases b,
{
    if b > 0 {
        let prev = fwd_row(Some(p), a, b - 1);
        if prev is None {
            lemma_fwd_row_mono(Some(p), a, b - 1, b);
            assert(false);
        }
        lemma_fwd_row_frame(p, a, b - 1, rows, cols);
        let q1 = prev.unwrap();
        lemma_elim_step_frame(q1, a, b - 1, rows, cols);
    }
}

/// The scan for a non-zero entry finds an index in range holding a non-zero
/// entry, or reports that there is none.
proof fn lemma_find_nz_props(g: Grid, col: int, from: int, max: int)
    requires
        0 <= from,
    ensures
        ({
            let o = find_nz(g, col, from, max);
            o == -1 || (from <= o < max && g[o][col].0 != 0)
        }),
    decreases max - from,
{
    if from < max && g[from][col].0 == 0 {
        lemma_find_nz_props(g, col, from + 1, max);
    }
}

/// The diagonal step leaves every row but `a` unchanged, keeps both grids
/// well-formed and in range, and leaves the diagonal entry `(a, a)` with
/// numerator 0 or 1.
proof fn lemma_diag_step_shape(p: (Grid, Grid), a: int, max: int, rows: int, cols: int)
    requires
        grid_ok(p.0, rows, cols),
        grid_ok(p.1, rows, cols),
        0 <= a < max,
        max <= rows,
        max <= cols,
        diag_step(Some(p), a, max) is Some,
    ensures
        ({
            let q = diag_step(Some(p), a, max).unwrap();
            &&& grid_ok(q.0, rows, cols)
            &&& grid_ok(q.1, rows, cols)
            &&& forall|x: int| 0 <= x < rows && x != a ==> q.0[x] == p.0[x] && q.1[x] == p.1[x]
            &&& (q.0[a][a].0 == 0 || q.0[a][a].0 == 1)
        }),
{
    let amt = p.0[a][a];
    assert(reduced(amt));
    let q = diag_step(Some(p), a, max).unwrap();
    if amt.0 != 0 {
        assert(Some(q) == p_div(Some(p), a, amt));
        lemma_row_div_keeps_ok(p.0, q.0, a, amt, rows, cols);
        lemma_row_div_keeps_ok(p.1, q.1, a, amt, rows, cols);
        assert(q.0[a][a] == f_div(amt, amt));
        lemma_div_self_one(amt);
    } else {
        lemma_find_nz_props(p.0, a, a + 1, max);
        let o = find_nz(p.0, a, a + 1, max);
        if o < 0 {
            assert(q == p);
        } else {
            let x = p.0[o][a];
            assert(reduced(x));
            assert(x.0 != 0);
            assert(amt == (0int, 1int));
            let s1 = if x.0 > 0 {
                p_add(Some(p), a, o)
            } else {
                p_sub(Some(p), a, o)
            };
            assert(s1 is Some);
            let p1 = s1.unwrap();
            if x.0 > 0 {
                lemma_row_add_keeps_ok(p.0, p1.0, a, o, rows, cols);
                lemma_row_add_keeps_ok(p.1, p1.1, a, o, rows, cols);
                assert(p1.0[a][a] == f_add((0int, 1int), x));
                assert(0int * x.1 + x.0 * 1 == x.0) by {
                    lemma_mul_basics(x.1);
                    lemma_mul_basics(x.0);
                }
                assert(1int * x.1 == x.1) by {
                    lemma_mul_basics(x.1);
                }
                lemma_norm_of_reduced(x);
                assert(p1.0[a][a] == x);
            } else {
                lemma_row_sub_keeps_ok(p.0, p1.0, a, o, rows, cols);
                lemma_row_sub_keeps_ok(p.1, p1.1, a, o, rows, cols);
                assert(p1.0[a][a] == f_sub((0int, 1int), x));
                assert(0int * x.1 - x.0 * 1 == -x.0) by {
                    lemma_mul_basics(x.1);
                    lemma_mul_basics(x.0);
                }
                assert(1int * x.1 == x.1) by {
                    lemma_mul_basics(x.1);
                }
                assert(abs(-x.0) == abs(x.0));
                assert(reduced((-x.0, x.1)));
                lemma_norm_of_reduced((-x.0, x.1));
                assert(p1.0[a][a] == (-x.0, x.1));
            }
            let na = p1.0[a][a];
            assert(na.0 != 0);
            assert(reduced(na));
            if na.0 != 1 {
                assert(Some(q) == p_div(s1, a, na));
                lemma_row_div_keeps_ok(p1.0, q.0, a, na, rows, cols);
                lemma_row_div_keeps_ok(p1.1, q.1, a, na, rows, cols);
                assert(q.0[a][a] == f_div(na, na));
                lemma_div_self_one(na);
            } else {
                assert(q == p1);
            }
        }
    }
}

/// After a successful forward pass over the first `k` rows, both grids stay
/// well-formed and in range, and every treated diagonal entry of the decision
/// grid has numerator 0 or 1.
proof fn lemma_fwd_rows_diag(g0: Grid, u0: Grid, rows: int, cols: int, max: int, k: int)
    requires
        grid_ok(g0, rows, cols),
        grid_ok(u0, rows, cols),
        0 <= k <= max,
        max <= rows,
        max <= cols,
        fwd_rows(Some((g0, u0)), k, max) is Some,
    ensures
        ({
            let q = fwd_rows(Some((g0, u0)), k, max).unwrap();
            &&& grid_ok(q.0, rows, cols)
            &&& grid_ok(q.1, rows, cols)
            &&& forall|a: int| 0 <= a < k ==> (#[trigger] q.0[a][a]).0 == 0 || q.0[a][a].0 == 1
        }),
    decreases k,
{
    if k > 0 {
        let prev = fwd_rows(Some((g0, u0)), k - 1, max);
        let mid = fwd_row(prev, k - 1, k - 1);
        assert(fwd_rows(Some((g0, u0)), k, max) == diag_step(mid, k - 1, max));
        if prev is None {
            lemma_fwd_row_mono(prev, k - 1, 0, k - 1);
            assert(false);
        }
        if mid is None {
            assert(false);
        }
        lemma_fwd_rows_diag(g0, u0, rows, cols, max, k - 1);
        let qp = prev.unwrap();
        lemma_fwd_row_frame(qp, k - 1, k - 1, rows, cols);
        let qm = mid.unwrap();
        lemma_diag_step_shape(qm, k - 1, max, rows, cols);
        let q = diag_step(mid, k - 1, max).unwrap();
        assert forall|a: int| 0 <= a < k implies (#[trigger] q.0[a][a]).0 == 0 || q.0[a][a].0
            == 1 by {
            if a < k - 1 {
                assert(qm.0[a] == qp.0[a]);
                assert(q.0[a] == qm.0[a]);
            }
        }
    }
}

/// After a successful forward pass, every diagonal entry of the leading block
/// has numerator 0 or 1: a pivot is either absent or normalized so that its
/// numerator is 1.
pub proof fn lemma_forward_pass_diagonal(g: Grid, rows: int, cols: int)
    requires
        grid_wf(g, rows, cols),
        grid_fits(g, rows, cols),
        ref_spec(g, vstd::math::min(rows, cols)) is Some,
    ensures
        ({
            let h = ref_spec(g, vstd::math::min(rows, cols)).unwrap();
            forall|a: int|
                0 <= a < vstd::math::min(rows, cols) ==> (#[trigger] h[a][a]).0 == 0 || h[a][a].0
                    == 1
        }),
{
    let max = vstd::math::min(rows, cols);
    lemma_fwd_rows_diag(g, g, rows, cols, max, max);
}

} // verus!
