use gnfs::kernel::{check_dependencies, find_dependencies};
use gnfs::linalg::{BlockMatrix, CscMatrix, CscMatrixBuilder, N};

fn dense(rows: &[u64]) -> BlockMatrix {
    BlockMatrix::from_vec(rows.to_vec())
}

fn identity() -> BlockMatrix {
    BlockMatrix::from_vec((0..64).map(|i| 1u64 << i).collect())
}

fn pseudo_random(n: usize, seed: u64) -> Vec<u64> {
    let mut x = seed;
    (0..n)
        .map(|_| {
            x = x.wrapping_mul(6364136223846793005).wrapping_add(1442695040888963407);
            x ^ (x >> 29)
        })
        .collect()
}

#[test]
fn block_matrix_basics() {
    assert_eq!(N, 64);
    let mut m = BlockMatrix::filled(7, 3);
    assert_eq!(m.len(), 3);
    assert_eq!(m.as_vec(), &vec![7, 7, 7]);
    m.set_row(1, 9);
    assert_eq!(m.row(1), 9);
    assert_eq!(BlockMatrix::new_random(10).len(), 10);
}

#[test]
fn dense_times_identity_is_itself() {
    let a = dense(&pseudo_random(100, 1));
    assert_eq!(a.times(&identity()).as_vec(), a.as_vec());
}

#[test]
fn dense_product_small() {
    // Row 0 of a selects rows 0 and 2 of b, row 1 selects row 63.
    let mut b = vec![0u64; 64];
    b[0] = 0b1100;
    b[2] = 0b1010;
    b[63] = 0xdead;
    let a = dense(&[0b101, 1 << 63, 0]);
    assert_eq!(a.times(&dense(&b)).as_vec(), &vec![0b0110, 0xdead, 0]);
}

#[test]
fn transpose_times_dense_small() {
    // a^T b: row k of the result is the sum of the rows i of b with bit k of a[i] set.
    let a = dense(&[0b01, 0b11, 0b10]);
    let b = dense(&[0x1, 0x2, 0x4]);
    let res = a.transpose().times(&b);
    assert_eq!(res.len(), 64);
    assert_eq!(res.row(0), 0x3);
    assert_eq!(res.row(1), 0x6);
    assert_eq!(res.row(2), 0);
}

#[test]
fn product_with_transpose_is_inner_products() {
    let a_rows = pseudo_random(70, 2);
    let b_rows = pseudo_random(64, 3);
    let a = dense(&a_rows);
    let b = dense(&b_rows);
    let res = a.times_transpose(&b.transpose());
    for i in 0..70 {
        for j in 0..64 {
            let expected = ((a_rows[i] & b_rows[j]).count_ones() & 1) as u64;
            assert_eq!((res.row(i) >> j) & 1, expected);
        }
    }
}

#[test]
fn product_with_transpose_by_columns() {
    // Column j of a b^T is a times row j of b, taken as a column vector.
    let a_rows = pseudo_random(64, 4);
    let b_rows = pseudo_random(64, 5);
    let a = dense(&a_rows);
    let with_transpose = a.times_transpose(&dense(&b_rows).transpose());
    for j in 0..64 {
        let column: Vec<u64> = (0..64).map(|k| (b_rows[j] >> k) & 1).collect();
        let with_column = a.times(&dense(&column));
        for i in 0..64 {
            assert_eq!((with_transpose.row(i) >> j) & 1, with_column.row(i) & 1);
        }
    }
}

#[test]
fn explicit_transpose_small() {
    let m = dense(&[0b01, 0b11, 0b10]);
    let t = m.explicit_transpose();
    assert_eq!(t.len(), 64);
    assert_eq!(t[0], vec![0b011]);
    assert_eq!(t[1], vec![0b110]);
    assert_eq!(t[2], vec![0]);
    let empty = dense(&[]).explicit_transpose();
    assert_eq!(empty.len(), 64);
    assert_eq!(empty[0].len(), 0);
    let long = dense(&vec![1u64; 65]).explicit_transpose();
    assert_eq!(long[0], vec![u64::MAX, 1]);
    assert_eq!(long[1], vec![0, 0]);
}

#[test]
fn explicit_transpose_twice_is_identity() {
    let rows = pseudo_random(192, 6);
    let t = dense(&rows).explicit_transpose();
    for k in 0..3 {
        let column: Vec<u64> = (0..64).map(|j| t[j][k]).collect();
        let back = dense(&column).explicit_transpose();
        let restored: Vec<u64> = (0..64).map(|j| back[j][0]).collect();
        assert_eq!(&restored[..], &rows[64 * k..64 * k + 64]);
    }
}

#[test]
fn gram_matrix_is_symmetric() {
    let a = dense(&pseudo_random(64, 7));
    let gram = a.times_transpose(&a.transpose());
    assert!(gram.is_symmetric());
    assert!(identity().is_symmetric());
    let mut rows = vec![0u64; 64];
    rows[0] = 0b10;
    assert!(!dense(&rows).is_symmetric());
    rows[1] = 0b01;
    assert!(dense(&rows).is_symmetric());
}

fn small_matrix() -> CscMatrix {
    // 3 rows, 4 columns:
    // 1 0 1 0
    // 1 1 0 0
    // 0 1 1 0
    CscMatrix::new(3, vec![2, 4, 6, 6], vec![0, 1, 1, 2, 0, 2])
}

#[test]
fn csc_matrix_shape() {
    let m = small_matrix();
    assert_eq!(m.num_cols(), 4);
    assert_eq!(m.num_rows(), 3);
    assert!(m.is_well_formed());
    assert!(!CscMatrix::new(2, vec![1], vec![5]).is_well_formed());
    assert!(!CscMatrix::new(2, vec![2], vec![0]).is_well_formed());
    assert!(!CscMatrix::new(2, vec![1, 0], vec![0]).is_well_formed());
}

#[test]
fn csc_times_dense_small() {
    let m = small_matrix();
    let b = dense(&[0x1, 0x2, 0x4, 0x8]);
    assert_eq!(m.times(&b).as_vec(), &vec![0x5, 0x3, 0x6]);
}

#[test]
fn csc_transpose_times_dense_small() {
    let m = small_matrix();
    let b = dense(&[0x1, 0x2, 0x4]);
    assert_eq!(m.transpose().times(&b).as_vec(), &vec![0x3, 0x6, 0x5, 0x0]);
}

#[test]
fn csc_repeated_index_cancels() {
    let m = CscMatrix::new(2, vec![3], vec![0, 1, 0]);
    assert_eq!(m.times(&dense(&[0xff])).as_vec(), &vec![0, 0xff]);
    assert_eq!(m.transpose().times(&dense(&[0x1, 0x2])).as_vec(), &vec![0x2]);
}

#[test]
fn transpose_view_agrees_with_explicit_transpose() {
    let m = CscMatrix::new_random(40, 30, 5);
    // Write the transpose out as a matrix of its own.
    let mut rows_of: Vec<Vec<usize>> = vec![Vec::new(); 30];
    let identity_like: Vec<u64> = (0..30).map(|r| 1u64 << r).collect();
    let columns = m.transpose().times(&dense(&identity_like));
    for c in 0..40 {
        for r in 0..30 {
            if (columns.row(c) >> r) & 1 == 1 {
                rows_of[r].push(c);
            }
        }
    }
    let mut builder = CscMatrixBuilder::new();
    builder.set_num_rows(40);
    for r in 0..30 {
        builder.add_col(rows_of[r].clone());
    }
    let t = builder.build();
    let b = dense(&pseudo_random(30, 8));
    assert_eq!(m.transpose().times(&b).as_vec(), t.times(&b).as_vec());
}

#[test]
fn products_as_operators() {
    let m = small_matrix();
    let b = BlockMatrix::from(vec![0x1, 0x2, 0x4, 0x8]);
    assert_eq!((&m * &b).as_vec(), &vec![0x5, 0x3, 0x6]);
    let c = dense(&[0x1, 0x2, 0x4]);
    assert_eq!((&m.transpose() * &c).as_vec(), &vec![0x3, 0x6, 0x5, 0x0]);
    let a = dense(&pseudo_random(64, 9));
    assert_eq!((&a * &identity()).as_vec(), a.as_vec());
    assert_eq!((&a * &identity().transpose()).as_vec(), a.as_vec());
    assert_eq!((&identity().transpose() * &a).as_vec(), a.as_vec());
    assert_eq!((&a.transpose() * &identity()).as_vec(), (&a.transpose() * &identity()).as_vec());
    let gram = &a * &a.transpose();
    assert!(gram.is_symmetric());
}

#[test]
fn builder_collects_columns() {
    let mut builder = CscMatrixBuilder::new();
    builder.set_num_rows(3);
    builder.add_col(vec![0, 1]);
    builder.add_col(vec![]);
    builder.add_col(vec![2]);
    let m = builder.build();
    assert_eq!(m.num_cols(), 3);
    assert_eq!(m.num_rows(), 3);
    assert!(m.is_well_formed());
    assert_eq!(m.times(&dense(&[1, 2, 4])).as_vec(), &vec![1, 1, 4]);
}

#[test]
fn random_matrices_from_a_seed_repeat() {
    let a = CscMatrix::new_random_with(50, 20, 6, &mut gnfs::random::Generator::from_seed(9));
    let b = CscMatrix::new_random_with(50, 20, 6, &mut gnfs::random::Generator::from_seed(9));
    let x = dense(&pseudo_random(50, 10));
    assert_eq!(a.times(&x).as_vec(), b.times(&x).as_vec());
    let u = BlockMatrix::new_random_with(30, &mut gnfs::random::Generator::from_seed(9));
    let v = BlockMatrix::new_random_with(30, &mut gnfs::random::Generator::from_seed(9));
    assert_eq!(u.as_vec(), v.as_vec());
}

#[test]
fn random_matrix_is_well_formed() {
    let m = CscMatrix::new_random(200, 50, 10);
    assert_eq!(m.num_cols(), 200);
    assert_eq!(m.num_rows(), 50);
    assert!(m.is_well_formed());
    let full = CscMatrix::new_random(5, 4, 4);
    assert!(full.is_well_formed());
}

#[test]
fn dependencies_of_a_small_matrix() {
    // Columns 0, 1 and 2 add up to zero, and column 3 is zero.
    let m = small_matrix();
    let (dep, k) = find_dependencies(&m);
    assert_eq!(dep.len(), 4);
    assert_eq!(k, 2);
    assert_eq!(dep.as_vec(), &vec![0b01, 0b01, 0b01, 0b10]);
    assert!(check_dependencies(&m, &dep, k));
    assert!(!check_dependencies(&m, &dense(&[1, 0, 0, 0]), 1));
}

#[test]
fn independent_columns_have_no_dependency() {
    // Three columns with their ones in different rows.
    let m = CscMatrix::new(3, vec![1, 2, 3], vec![2, 0, 1]);
    let (dep, k) = find_dependencies(&m);
    assert_eq!(k, 0);
    assert_eq!(dep.as_vec(), &vec![0, 0, 0]);
    // Without columns there is nothing to depend.
    let empty = CscMatrix::new(0, vec![], vec![]);
    assert_eq!(find_dependencies(&empty).1, 0);
}

#[test]
fn more_columns_than_rows_give_dependencies() {
    for seed in 0..20u64 {
        let mut rng = gnfs::random::Generator::from_seed(seed);
        let m = CscMatrix::new_random_with(40, 25, 4, &mut rng);
        let (dep, k) = find_dependencies(&m);
        assert!(k >= 15 && k <= 40);
        assert!(check_dependencies(&m, &dep, k));
        // No dependency is a sum of others: each has a row of its own.
        for j in 0..k {
            assert!((0..40).any(|c| dep.row(c) & ((2u64 << j) - 1) == 1u64 << j));
        }
        // The columns beyond the dependencies are zero.
        for c in 0..40 {
            assert_eq!(dep.row(c) >> k, 0);
        }
    }
}

#[test]
fn dependencies_of_a_random_matrix() {
    let m = CscMatrix::new_random(1000, 500, 10);
    let (dep, k) = find_dependencies(&m);
    assert!(k >= 1);
    assert!(k <= 64);
    assert_eq!(dep.len(), 1000);
    let product = m.times(&dep);
    let mask = if k == 64 { u64::MAX } else { (1u64 << k) - 1 };
    for r in 0..500 {
        assert_eq!(product.row(r) & mask, 0);
    }
    // Each dependency selects some column.
    for j in 0..k {
        assert!((0..1000).any(|c| (dep.row(c) >> j) & 1 == 1));
    }
}

#[test]
fn product_with_transpose_of_a_few_rows() {
    let b_rows = pseudo_random(64, 5);
    let b = dense(&b_rows);
    for n in [0usize, 1, 2, 63] {
        let a_rows = pseudo_random(n, 9);
        let res = dense(&a_rows).times_transpose(&b.transpose());
        assert_eq!(res.as_vec().len(), n);
        for i in 0..n {
            for j in 0..64 {
                let expected = ((a_rows[i] & b_rows[j]).count_ones() & 1) as u64;
                assert_eq!((res.row(i) >> j) & 1, expected);
            }
        }
    }
    let one = dense(&[0b1011]).times_transpose(&dense(&[0b0001, 0b0011, 0b1011]
        .iter()
        .copied()
        .chain(std::iter::repeat(0).take(61))
        .collect::<Vec<u64>>())
    .transpose());
    assert_eq!(one.row(0), 0b101);
}
