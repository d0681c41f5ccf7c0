use fracmat::fracs::Frac;
use fracmat::mats::{MatError, Matrix, Separator, TSOpts};

fn fr(num: i32, den: i32) -> Frac {
    Frac::new(num, den)
}

fn no_opts() -> TSOpts {
    TSOpts { attempt: false, print: false }
}

fn from_rows(rows: Vec<Vec<i32>>) -> Matrix {
    let vecs: Vec<Vec<Frac>> = rows
        .into_iter()
        .map(|r| r.into_iter().map(Frac::from).collect())
        .collect();
    Matrix::from_vecs(vecs, no_opts()).unwrap()
}

fn entry(m: &Matrix, i: usize, j: usize) -> (i32, i32) {
    (m.matrix[i][j].num, m.matrix[i][j].den)
}

fn assert_entries(m: &Matrix, expected: &[&[(i32, i32)]]) {
    assert_eq!(m.dimension.0, expected.len());
    for (i, row) in expected.iter().enumerate() {
        assert_eq!(m.dimension.1, row.len());
        for (j, &e) in row.iter().enumerate() {
            assert_eq!(entry(m, i, j), e, "entry ({}, {})", i, j);
        }
    }
}

#[test]
fn from_dimension_is_all_zero() {
    let m = Matrix::from_dimension((2, 3));
    assert_entries(&m, &[&[(0, 1), (0, 1), (0, 1)], &[(0, 1), (0, 1), (0, 1)]]);
}

#[test]
fn from_vecs_rejects_ragged_input() {
    let vecs = vec![vec![fr(1, 1), fr(2, 1)], vec![fr(3, 1)]];
    assert_eq!(Matrix::from_vecs(vecs, no_opts()).err().unwrap(), MatError::RaggedInput);
}

#[test]
fn from_i32_vec_partitions_rows() {
    let m = Matrix::from_i32_vec(2, vec![1, 2, 3, 4, 5, 6], no_opts()).unwrap();
    assert_entries(&m, &[&[(1, 1), (2, 1)], &[(3, 1), (4, 1)], &[(5, 1), (6, 1)]]);
}

#[test]
fn from_i32_vec_rejects_indivisible_width() {
    assert_eq!(
        Matrix::from_i32_vec(2, vec![1, 2, 3], no_opts()).err().unwrap(),
        MatError::WidthIndivisible
    );
}

#[test]
fn duplicate_copies_exactly() {
    let m = from_rows(vec![vec![1, 2], vec![3, 4]]);
    let d = m.duplicate();
    assert_entries(&d, &[&[(1, 1), (2, 1)], &[(3, 1), (4, 1)]]);
}

#[test]
fn add_is_element_wise() {
    let mut m = from_rows(vec![vec![1, 2], vec![3, 4]]);
    let n = from_rows(vec![vec![10, 20], vec![30, 40]]);
    m.add(n).unwrap();
    assert_entries(&m, &[&[(11, 1), (22, 1)], &[(33, 1), (44, 1)]]);
}

#[test]
fn sub_is_element_wise() {
    let mut m = from_rows(vec![vec![1, 2], vec![3, 4]]);
    let n = from_rows(vec![vec![10, 20], vec![30, 40]]);
    m.sub(n).unwrap();
    assert_entries(&m, &[&[(-9, 1), (-18, 1)], &[(-27, 1), (-36, 1)]]);
}

#[test]
fn dimension_mismatch_leaves_matrix_unchanged() {
    let mut m = from_rows(vec![vec![1, 2], vec![3, 4]]);
    let n = from_rows(vec![vec![1, 0, 0], vec![0, 1, 0], vec![0, 0, 1]]);
    assert_eq!(m.add(n).unwrap_err(), MatError::DimensionMismatch);
    assert_entries(&m, &[&[(1, 1), (2, 1)], &[(3, 1), (4, 1)]]);
    let n2 = from_rows(vec![vec![1, 0, 0], vec![0, 1, 0], vec![0, 0, 1]]);
    assert_eq!(m.sub(n2).unwrap_err(), MatError::DimensionMismatch);
    assert_entries(&m, &[&[(1, 1), (2, 1)], &[(3, 1), (4, 1)]]);
}

#[test]
fn mul_is_the_matrix_product() {
    let a = from_rows(vec![vec![1, 2], vec![3, 4]]);
    let b = from_rows(vec![vec![5, 6], vec![7, 8]]);
    let p = a.mul(&b).unwrap();
    assert_entries(&p, &[&[(19, 1), (22, 1)], &[(43, 1), (50, 1)]]);
}

#[test]
fn mul_rejects_inner_dimension_mismatch() {
    let a = from_rows(vec![vec![1, 2], vec![3, 4]]);
    let b = from_rows(vec![vec![1, 2], vec![3, 4], vec![5, 6]]);
    assert_eq!(a.mul(&b).err().unwrap(), MatError::InnerDimensionMismatch);
}

#[test]
fn mul_overflow_is_reported() {
    let a = from_rows(vec![vec![i32::MAX, 1], vec![1, 1]]);
    let b = from_rows(vec![vec![2, 0], vec![0, 1]]);
    assert_eq!(a.mul(&b).err().unwrap(), MatError::Overflow);
}

#[test]
fn row_operations_act_on_rows() {
    let mut m = from_rows(vec![vec![1, 2], vec![3, 4]]);
    m.row_ops_add(0, 1).unwrap();
    assert_entries(&m, &[&[(4, 1), (6, 1)], &[(3, 1), (4, 1)]]);
    m.row_ops_sub(0, 1).unwrap();
    assert_entries(&m, &[&[(1, 1), (2, 1)], &[(3, 1), (4, 1)]]);
    m.row_ops_mul(1, fr(1, 2)).unwrap();
    assert_entries(&m, &[&[(1, 1), (2, 1)], &[(3, 2), (2, 1)]]);
    m.row_ops_div(1, fr(1, 2)).unwrap();
    assert_entries(&m, &[&[(1, 1), (2, 1)], &[(3, 1), (4, 1)]]);
    m.row_ops_swap(0, 1);
    assert_entries(&m, &[&[(3, 1), (4, 1)], &[(1, 1), (2, 1)]]);
}

#[test]
fn row_echelon_form_normalizes_pivots() {
    let mut m = from_rows(vec![vec![2, 4], vec![6, 10]]);
    m.row_echelon_form().unwrap();
    // Pivots are 1, entries below them 0.
    assert_eq!(entry(&m, 0, 0), (1, 1));
    assert_eq!(entry(&m, 1, 0), (0, 1));
    assert_eq!(entry(&m, 1, 1), (1, 1));
}

#[test]
fn rref_reaches_identity_on_full_rank() {
    let mut m = from_rows(vec![vec![2, 1], vec![1, 1]]);
    m.reduced_row_echelon_form().unwrap();
    assert_entries(&m, &[&[(1, 1), (0, 1)], &[(0, 1), (1, 1)]]);
}

#[test]
fn rref_is_idempotent_on_these() {
    for rows in [
        vec![vec![2, 1], vec![1, 1]],
        vec![vec![1, 2], vec![2, 4]],
        vec![vec![0, 0], vec![1, 3]],
        vec![vec![1, 2, 3], vec![4, 5, 6], vec![7, 8, 10]],
    ] {
        let mut once = from_rows(rows);
        once.reduced_row_echelon_form().unwrap();
        let mut twice = once.duplicate();
        twice.reduced_row_echelon_form().unwrap();
        for i in 0..once.dimension.0 {
            for j in 0..once.dimension.1 {
                assert_eq!(entry(&once, i, j), entry(&twice, i, j), "entry ({}, {})", i, j);
            }
        }
    }
}

#[test]
fn inverse_of_concrete_matrix() {
    let m = from_rows(vec![vec![1, 2], vec![3, 4]]);
    let inv = m.inverse().unwrap();
    assert_entries(&inv, &[&[(-2, 1), (1, 1)], &[(3, 2), (-1, 2)]]);
}

#[test]
fn multiplying_by_the_inverse_gives_identity() {
    for rows in [
        vec![vec![1, 2], vec![3, 4]],
        vec![vec![2, 0], vec![0, 2]],
        vec![vec![1, 2, 0], vec![0, 1, 3], vec![4, 0, 1]],
    ] {
        let m = from_rows(rows);
        let n = m.dimension.0;
        let inv = m.inverse().unwrap();
        let p = m.mul(&inv).unwrap();
        for i in 0..n {
            for j in 0..n {
                let expected = if i == j { (1, 1) } else { (0, 1) };
                assert_eq!(entry(&p, i, j), expected, "entry ({}, {})", i, j);
            }
        }
    }
}

#[test]
fn inverse_rejects_non_square() {
    let m = from_rows(vec![vec![1, 2, 3], vec![4, 5, 6]]);
    assert_eq!(m.inverse().err().unwrap(), MatError::NotSquare);
}

#[test]
fn inverse_rejects_singular() {
    let m = from_rows(vec![vec![1, 2], vec![2, 4]]);
    assert_eq!(m.inverse().err().unwrap(), MatError::Singular);
}

#[test]
fn divide_is_multiplication_by_the_inverse() {
    let a = from_rows(vec![vec![5, 6], vec![7, 8]]);
    let b = from_rows(vec![vec![1, 2], vec![3, 4]]);
    let q = a.div(&b).unwrap();
    let explicit = a.mul(&b.inverse().unwrap()).unwrap();
    for i in 0..2 {
        for j in 0..2 {
            assert_eq!(entry(&q, i, j), entry(&explicit, i, j));
        }
    }
    // Dividing the product by the divisor returns the dividend.
    let p = a.mul(&b).unwrap();
    let back = p.div(&b).unwrap();
    assert_entries(&back, &[&[(5, 1), (6, 1)], &[(7, 1), (8, 1)]]);
}

#[test]
fn divide_rejects_bad_shapes_and_singular_divisors() {
    let a = from_rows(vec![vec![1, 2], vec![3, 4]]);
    let tall = from_rows(vec![vec![1, 2, 3], vec![4, 5, 6]]);
    assert_eq!(a.div(&tall).err().unwrap(), MatError::DivisorShape);
    let singular = from_rows(vec![vec![1, 2], vec![2, 4]]);
    assert_eq!(a.div(&singular).err().unwrap(), MatError::Singular);
}

#[test]
fn identity_is_linearly_independent() {
    for n in [1, 2, 3, 4] {
        let rows: Vec<Vec<i32>> = (0..n)
            .map(|i| (0..n).map(|j| if i == j { 1 } else { 0 }).collect())
            .collect();
        let m = from_rows(rows);
        assert!(m.is_linearly_independent().unwrap());
    }
}

#[test]
fn proportional_rows_are_dependent() {
    let m = from_rows(vec![vec![1, 2], vec![2, 4]]);
    assert!(!m.is_linearly_independent().unwrap());
}

#[test]
fn try_simplify_negates_all_negative_rows() {
    let mut m = from_rows(vec![vec![-2, -3], vec![1, 1]]);
    let divided = m.try_simplify(0).unwrap();
    assert!(!divided);
    assert_entries(&m, &[&[(2, 1), (3, 1)], &[(1, 1), (1, 1)]]);
}

#[test]
fn try_simplify_divides_by_joint_gcd() {
    let mut m = from_rows(vec![vec![2, 4], vec![1, 1]]);
    let divided = m.try_simplify(0).unwrap();
    assert!(divided);
    assert_entries(&m, &[&[(1, 1), (2, 1)], &[(1, 1), (1, 1)]]);
}

#[test]
fn try_simplify_skips_rows_with_units() {
    let mut m = from_rows(vec![vec![2, 4, 1], vec![1, 1, 1]]);
    let divided = m.try_simplify(0).unwrap();
    assert!(!divided);
    assert_entries(&m, &[&[(2, 1), (4, 1), (1, 1)], &[(1, 1), (1, 1), (1, 1)]]);
}

#[test]
fn try_simplify_matrix_runs_on_every_row() {
    let mut m = from_rows(vec![vec![2, 4], vec![3, 9]]);
    m.try_simplify_matrix().unwrap();
    assert_entries(&m, &[&[(1, 1), (2, 1)], &[(1, 1), (3, 1)]]);
}

#[test]
fn row_ops_try_simplify_matches_try_simplify() {
    let mut m = from_rows(vec![vec![2, 4], vec![1, 1]]);
    let divided = m.row_ops_try_simplify(0).unwrap();
    assert!(divided);
    assert_entries(&m, &[&[(1, 1), (2, 1)], &[(1, 1), (1, 1)]]);
}

#[test]
fn construction_can_simplify_rows() {
    let m = Matrix::from_i32_vec(2, vec![2, 4, 3, 9], TSOpts::from((true, false))).unwrap();
    assert_entries(&m, &[&[(1, 1), (2, 1)], &[(1, 1), (3, 1)]]);
}

#[test]
fn row_op_overflow_leaves_matrix_unchanged() {
    let mut m = from_rows(vec![vec![i32::MAX, 1], vec![1, 1]]);
    assert_eq!(m.row_ops_mul(0, fr(2, 1)).unwrap_err(), MatError::Overflow);
    assert_entries(&m, &[&[(i32::MAX, 1), (1, 1)], &[(1, 1), (1, 1)]]);
}

#[test]
fn elimination_handles_non_square_shapes() {
    // Wide: the leading 2x2 block is reduced, the rest follows the row ops.
    let mut wide = from_rows(vec![vec![2, 0, 4], vec![0, 2, 6]]);
    wide.reduced_row_echelon_form().unwrap();
    assert_entries(&wide, &[&[(1, 1), (0, 1), (2, 1)], &[(0, 1), (1, 1), (3, 1)]]);
    // Tall: rows beyond the leading block are never chosen as pivots.
    let mut tall = from_rows(vec![vec![3, 0], vec![0, 3], vec![5, 7]]);
    tall.row_echelon_form().unwrap();
    assert_entries(&tall, &[&[(1, 1), (0, 1)], &[(0, 1), (1, 1)], &[(5, 1), (7, 1)]]);
}

#[test]
fn zero_pivot_column_is_left_alone() {
    // No row below has a usable pivot entry in column 0.
    let mut m = from_rows(vec![vec![0, 2], vec![0, 3]]);
    m.row_echelon_form().unwrap();
    assert_eq!(entry(&m, 0, 0), (0, 1));
    assert_eq!(entry(&m, 1, 0), (0, 1));
    assert!(!m.is_linearly_independent().unwrap());
}

#[test]
fn ts_opts_from_tuple() {
    let opts = TSOpts::from((true, false));
    assert!(opts.attempt);
    assert!(!opts.print);
}

#[test]
fn separator_glyphs() {
    assert_eq!(Separator::Plus.as_string(), "+");
    assert_eq!(Separator::Minus.as_string(), "-");
    assert_eq!(Separator::Times.as_string(), "*");
    assert_eq!(Separator::Divide.as_string(), "/");
    assert_eq!(Separator::Space.as_string(), " ");
}

#[test]
fn error_messages_describe_the_failure() {
    assert!(MatError::RaggedInput.as_string().contains("unequal length"));
    assert!(MatError::NotSquare.as_string().contains("square"));
    assert!(MatError::Singular.as_string().contains("unit matrix"));
    assert!(MatError::Overflow.as_string().contains("32-bit"));
}
