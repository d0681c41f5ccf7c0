//! Matrices of canonical fractions: a rectangular table with its dimensions,
//! dimension-checked construction, and the failure conditions of the
//! operations on it.

use crate::fracs::{reduced, Frac};
use vstd::prelude::*;

verus! {

/// A rational value in specifications: numerator and denominator.
pub type Rat = (int, int);

/// The mathematical contents of a matrix: a sequence of rows of rationals.
pub type Grid = Seq<Seq<Rat>>;

/// A rectangular table of fractions. `dimension` is `(rows, cols)`, and
/// `matrix` holds `rows` rows of `cols` canonical fractions each.
/// Copy a matrix with [`Matrix::duplicate`], whose contract relates the copy
/// to the original.
pub struct Matrix {
    pub dimension: (usize, usize),
    pub matrix: Vec<Vec<Frac>>,
}

impl View for Matrix {
    type V = Grid;

    open spec fn view(&self) -> Grid {
        Seq::new(
            self.matrix@.len(),
            |i: int| Seq::new(self.matrix@[i]@.len(), |j: int| self.matrix@[i]@[j]@),
        )
    }
}

/// Well-formedness of a grid of the given shape: at least one row and one
/// column, every row of the same length, every entry in canonical form.
pub open spec fn grid_wf(g: Grid, rows: int, cols: int) -> bool {
    &&& g.len() == rows
    &&& rows >= 1
    &&& cols >= 1
    &&& forall|i: int| 0 <= i < rows ==> (#[trigger] g[i]).len() == cols
    &&& forall|i: int, j: int| 0 <= i < rows && 0 <= j < cols ==> reduced(#[trigger] g[i][j])
}

/// Why a matrix construction or operation failed.
#[derive(Clone, Copy, Debug, PartialEq, Eq, Structural)]
pub enum MatError {
    /// Row-based construction was given rows of unequal lengths.
    RaggedInput,
    /// Flat construction was given a value count not divisible by the width.
    WidthIndivisible,
    /// Element-wise addition or subtraction of differently shaped matrices.
    DimensionMismatch,
    /// Multiplication where the left column count differs from the right row count.
    InnerDimensionMismatch,
    /// Division by a matrix of unsuitable shape: the divisor must be square
    /// with as many rows as the dividend has columns.
    DivisorShape,
    /// Inversion of a non-square matrix.
    NotSquare,
    /// Inversion of a singular matrix: elimination did not reach the identity.
    Singular,
    /// A fraction left the 32-bit range while computing.
    Overflow,
}

impl MatError {
    /// A descriptive message for the failure.
    pub fn as_string(&self) -> (r: String)
        ensures
            r@ == match self {
                MatError::RaggedInput => "One or more vecs in input vec had unequal length."@,
                MatError::WidthIndivisible => "Input vec len is not divisible by desired matrix width."@,
                MatError::DimensionMismatch => "Matrices are not of the same dimension - unable to perform addition or subtraction."@,
                MatError::InnerDimensionMismatch => "Matrices do not have matching b, c dimensions for a, b x c, d."@,
                MatError::DivisorShape => "Unable to do division with these two matrices. The divisor must be a square matrix, and the dividend's number of columns must be the same as that of both dimensions in the divisor."@,
                MatError::NotSquare => "Matrix must be square in dimension to calculate the inverse."@,
                MatError::Singular => "Unable to convert matrix into unit matrix to make the inverse."@,
                MatError::Overflow => "A fraction left the 32-bit range while computing."@,
            },
    {
        match self {
            MatError::RaggedInput => String::from_str(
                "One or more vecs in input vec had unequal length.",
            ),
            MatError::WidthIndivisible => String::from_str(
                "Input vec len is not divisible by desired matrix width.",
            ),
            MatError::DimensionMismatch => String::from_str(
                "Matrices are not of the same dimension - unable to perform addition or subtraction.",
            ),
            MatError::InnerDimensionMismatch => String::from_str(
                "Matrices do not have matching b, c dimensions for a, b x c, d.",
            ),
            MatError::DivisorShape => String::from_str(
                "Unable to do division with these two matrices. The divisor must be a square matrix, and the dividend's number of columns must be the same as that of both dimensions in the divisor.",
            ),
            MatError::NotSquare => String::from_str(
                "Matrix must be square in dimension to calculate the inverse.",
            ),
            MatError::Singular => String::from_str(
                "Unable to convert matrix into unit matrix to make the inverse.",
            ),
            MatError::Overflow => String::from_str(
                "A fraction left the 32-bit range while computing.",
            ),
        }
    }
}

/// Options for the row-simplification pass run after construction: whether to
/// attempt it at all, and whether a tracing layer should narrate each step.
/// The `print` flag is consumed only by such an outer tracing layer.
pub struct TSOpts {
    pub attempt: bool,
    pub print: bool,
}

impl From<(bool, bool)> for TSOpts {
    fn from(tup: (bool, bool)) -> (r: TSOpts) {
        TSOpts { attempt: tup.0, print: tup.1 }
    }
}

impl vstd::std_specs::convert::FromSpecImpl<(bool, bool)> for TSOpts {
    open spec fn obeys_from_spec() -> bool {
        true
    }

    open spec fn from_spec(tup: (bool, bool)) -> TSOpts {
        TSOpts { attempt: tup.0, print: tup.1 }
    }
}

/// The operator sign a rendering layer places between two matrices.
#[derive(Clone, Copy, Debug, PartialEq, Eq, Structural)]
pub enum Separator {
    Plus,
    Minus,
    Times,
    Divide,
    Space,
}

impl Separator {
    /// The glyph of this separator.
    pub fn as_string(&self) -> (r: String)
        ensures
            r@ == match self {
                Separator::Plus => "+"@,
                Separator::Minus => "-"@,
                Separator::Times => "*"@,
                Separator::Divide => "/"@,
                Separator::Space => " "@,
            },
    {
        match self {
            Separator::Plus => String::from_str("+"),
            Separator::Minus => String::from_str("-"),
            Separator::Times => String::from_str("*"),
            Separator::Divide => String::from_str("/"),
            Separator::Space => String::from_str(" "),
        }
    }
}

impl Matrix {
    /// Well-formedness: the stored shape matches the table, and every entry
    /// is a canonical fraction.
    pub open spec fn wf(self) -> bool {
        grid_wf(self@, self.dimension.0 as int, self.dimension.1 as int)
    }

    /// An exact copy of this matrix, with the copy's contents known.
    pub fn duplicate(&self) -> (r: Matrix)
        ensures
            r.dimension == self.dimension,
            r@ == self@,
    {
        let rows = self.matrix.len();
        let mut mat: Vec<Vec<Frac>> = Vec::new();
        let mut i: usize = 0;
        while i < rows
            invariant
                i <= rows,
                rows == self.matrix@.len(),
                mat@.len() == i,
                forall|k: int| 0 <= k < i ==> #[trigger] mat@[k]@ == self.matrix@[k]@,
            decreases rows - i,
        {
            mat.push(copy_row(&self.matrix[i]));
            i += 1;
        }
        let r = Matrix { dimension: self.dimension, matrix: mat };
        proof {
            assert(r@ =~~= self@);
        }
        r
    }

    /// A matrix of the given dimensions, filled with the zero fraction.
    pub fn from_dimension(dim: (usize, usize)) -> (r: Matrix)
        requires
            dim.0 >= 1,
            dim.1 >= 1,
        ensures
            r.wf(),
            r.dimension == dim,
            forall|i: int, j: int|
                0 <= i < dim.0 && 0 <= j < dim.1 ==> r@[i][j] == (0int, 1int),
    {
        let mut mat: Vec<Vec<Frac>> = Vec::new();
        let mut i: usize = 0;
        while i < dim.0
            invariant
                i <= dim.0,
                mat@.len() == i,
                forall|k: int| 0 <= k < i ==> (#[trigger] mat@[k])@.len() == dim.1,
                forall|k: int, j: int|
                    0 <= k < i && 0 <= j < dim.1 ==> (#[trigger] mat@[k]@[j])@ == (0int, 1int),
            decreases dim.0 - i,
        {
            let mut row: Vec<Frac> = Vec::new();
            let mut j: usize = 0;
            while j < dim.1
                invariant
                    j <= dim.1,
                    row@.len() == j,
                    forall|k: int| 0 <= k < j ==> (#[trigger] row@[k])@ == (0int, 1int),
                decreases dim.1 - j,
            {
                row.push(Frac { num: 0, den: 1 });
                j += 1;
            }
            mat.push(row);
            i += 1;
        }
        let r = Matrix { dimension: dim, matrix: mat };
        proof {
            assert forall|i: int, j: int|
                0 <= i < dim.0 && 0 <= j < dim.1 implies r@[i][j] == (0int, 1int) by {
                assert(r.matrix@[i]@[j]@ == (0int, 1int));
            }
        }
        r
    }
}

/// The grid held by a table of rows of fractions.
pub open spec fn vgrid(v: Vec<Vec<Frac>>) -> Grid {
    Seq::new(v@.len(), |i: int| crate::simplify::rats_of(v@[i]@))
}

/// The grid obtained by cutting a flat sequence of integers into rows of
/// `width` fractions each.
pub open spec fn flat_grid(v: Seq<i32>, width: int) -> Grid {
    Seq::new(
        (v.len() as int / width) as nat,
        |i: int| Seq::new(width as nat, |j: int| (v[i * width + j] as int, 1int)),
    )
}

impl Matrix {
    /// A matrix made of the given rows; the shape is taken from the input.
    /// Fails exactly when the rows have unequal lengths. When
    /// `try_simplify_opts.attempt` is set, the simplification pass then runs
    /// on every row, and overflow in it is reported.
    pub fn from_vecs(vecs: Vec<Vec<Frac>>, try_simplify_opts: TSOpts) -> (r: Result<
        Matrix,
        MatError,
    >)
        requires
            vecs@.len() >= 1,
            vecs@[0]@.len() >= 1,
            forall|i: int, j: int|
                0 <= i < vecs@.len() && 0 <= j < vecs@[i]@.len() ==> reduced(
                    (#[trigger] vecs@[i]@[j])@,
                ),
        ensures
            match r {
                Ok(m) => {
                    &&& forall|i: int| 0 <= i < vecs@.len() ==> (#[trigger] vecs@[i])@.len()
                        == vecs@[0]@.len()
                    &&& m.wf()
                    &&& m.dimension.0 == vecs@.len()
                    &&& m.dimension.1 == vecs@[0]@.len()
                    &&& if try_simplify_opts.attempt {
                        crate::simplify::simp_grid_ok(vgrid(vecs)) && m@
                            == crate::simplify::simp_grid(vgrid(vecs))
                    } else {
                        m@ == vgrid(vecs)
                    }
                },
                Err(MatError::RaggedInput) => exists|i: int|
                    0 <= i < vecs@.len() && (#[trigger] vecs@[i])@.len() != vecs@[0]@.len(),
                Err(MatError::Overflow) => {
                    &&& forall|i: int| 0 <= i < vecs@.len() ==> (#[trigger] vecs@[i])@.len()
                        == vecs@[0]@.len()
                    &&& try_simplify_opts.attempt
                    &&& !crate::simplify::simp_grid_ok(vgrid(vecs))
                },
                Err(_) => false,
            },
    {
        let rows = vecs.len();
        let cols = vecs[0].len();
        let mut i: usize = 1;
        while i < rows
            invariant
                rows == vecs@.len(),
                cols == vecs@[0]@.len(),
                1 <= i <= rows,
                forall|k: int| 0 <= k < i ==> (#[trigger] vecs@[k])@.len() == cols,
            decreases rows - i,
        {
            if vecs[i].len() != cols {
                return Err(MatError::RaggedInput);
            }
            i += 1;
        }
        let mut ret = Matrix { dimension: (rows, cols), matrix: vecs };
        proof {
            assert(ret@ =~~= vgrid(ret.matrix));
            assert forall|ii: int, jj: int|
                0 <= ii < rows && 0 <= jj < cols implies reduced(#[trigger] ret@[ii][jj]) by {
                assert(ret@[ii][jj] == ret.matrix@[ii]@[jj]@);
            }
            assert(ret.wf());
        }
        if try_simplify_opts.attempt {
            match ret.try_simplify_matrix() {
                Ok(()) => {},
                Err(e) => {
                    return Err(e);
                },
            }
        }
        Ok(ret)
    }

    /// A matrix made by cutting `vec` into rows of `width` integers, each
    /// taken as a fraction over 1. Fails exactly when the width does not
    /// divide the number of values. When `try_simplify_opts.attempt` is set,
    /// the simplification pass then runs on every row.
    pub fn from_i32_vec(width: usize, vec: Vec<i32>, try_simplify_opts: TSOpts) -> (r: Result<
        Matrix,
        MatError,
    >)
        requires
            width >= 1,
            vec@.len() >= 1,
        ensures
            match r {
                Ok(m) => {
                    &&& vec@.len() as int % width as int == 0
                    &&& m.wf()
                    &&& m.dimension.0 == vec@.len() as int / width as int
                    &&& m.dimension.1 == width
                    &&& if try_simplify_opts.attempt {
                        crate::simplify::simp_grid_ok(flat_grid(vec@, width as int)) && m@
                            == crate::simplify::simp_grid(flat_grid(vec@, width as int))
                    } else {
                        m@ == flat_grid(vec@, width as int)
                    }
                },
                Err(MatError::WidthIndivisible) => vec@.len() as int % width as int != 0,
                Err(MatError::Overflow) => {
                    &&& vec@.len() as int % width as int == 0
                    &&& try_simplify_opts.attempt
                    &&& !crate::simplify::simp_grid_ok(flat_grid(vec@, width as int))
                },
                Err(_) => false,
            },
    {
        if vec.len() % width != 0 {
            return Err(MatError::WidthIndivisible);
        }
        let rows = vec.len() / width;
        proof {
            vstd::arithmetic::div_mod::lemma_fundamental_div_mod(
                vec@.len() as int,
                width as int,
            );
            assert(rows >= 1) by {
                if rows == 0 {
                    assert(vec@.len() as int == width as int * 0 + 0);
                }
            }
        }
        let mut mat: Vec<Vec<Frac>> = Vec::new();
        let mut ct: usize = 0;
        let mut i: usize = 0;
        while i < rows
            invariant
                width >= 1,
                rows == vec@.len() as int / width as int,
                vec@.len() as int % width as int == 0,
                vec@.len() as int == width as int * rows,
                vec@.len() <= usize::MAX,
                i <= rows,
                ct == i * width,
                mat@.len() == i,
                forall|k: int| 0 <= k < i ==> (#[trigger] mat@[k])@.len() == width,
                forall|k: int, j: int|
                    0 <= k < i && 0 <= j < width ==> (#[trigger] mat@[k]@[j])@ == (
                        vec@[k * width + j] as int,
                        1int,
                    ),
            decreases rows - i,
        {
            proof {
                assert((i + 1) * width <= rows * width) by (nonlinear_arith)
                    requires
                        i < rows,
                        width >= 1,
                ;
                assert(rows * width == width * rows) by (nonlinear_arith);
                assert((i + 1) * width == i * width + width) by (nonlinear_arith);
            }
            let mut new: Vec<Frac> = Vec::new();
            let mut j: usize = 0;
            while j < width
                invariant
                    width >= 1,
                    ct == i * width + j,
                    j <= width,
                    i * width + width <= vec@.len(),
                    vec@.len() <= usize::MAX,
                    new@.len() == j,
                    forall|k: int|
                        0 <= k < j ==> (#[trigger] new@[k])@ == (
                            vec@[i as int * width as int + k] as int,
                            1int,
                        ),
                decreases width - j,
            {
                new.push(Frac::from(vec[ct]));
                ct += 1;
                j += 1;
            }
            mat.push(new);
            i += 1;
        }
        let mut ret = Matrix { dimension: (rows, width), matrix: mat };
        proof {
            assert(ret@ =~~= flat_grid(vec@, width as int));
            assert forall|ii: int, jj: int|
                0 <= ii < rows && 0 <= jj < width implies reduced(#[trigger] ret@[ii][jj]) by {
                assert(ret@[ii][jj] == (vec@[ii * width as int + jj] as int, 1int));
                crate::fracs::lemma_int_frac_reduced(vec@[ii * width as int + jj] as int);
            }
            assert(ret.wf());
        }
        if try_simplify_opts.attempt {
            match ret.try_simplify_matrix() {
                Ok(()) => {},
                Err(e) => {
                    return Err(e);
                },
            }
        }
        Ok(ret)
    }
}

/// An exact copy of a row of fractions.
pub fn copy_row(v: &Vec<Frac>) -> (r: Vec<Frac>)
    ensures
        r@ == v@,
{
    let mut r: Vec<Frac> = Vec::new();
    let mut i: usize = 0;
    while i < v.len()
        invariant
            i <= v.len(),
            r@ == v@.take(i as int),
        decreases v.len() - i,
    {
        r.push(v[i]);
        proof {
            assert(r@ =~= v@.take(i + 1int));
        }
        i += 1;
    }
    proof {
        assert(v@.take(v@.len() as int) =~= v@);
    }
    r
}

} // verus!
