use sparse_lu::flat_index_to_column_major;
use sparse_lu::sparse_coo::SparseCOO;
use sparse_lu::sparse_csc::SparseCSC;
use sparse_lu::sparse_csr::SparseCSR;
use sparse_lu::sparse_matrix::MatrixError;
use sparse_lu::sparse_matrix::SparseMatrixTrait;

fn to_words(d: &Vec<Vec<f32>>) -> Vec<Vec<u32>> {
    d.iter().map(|r| r.iter().map(|x| x.to_bits()).collect()).collect()
}

fn to_floats(d: &Vec<Vec<u32>>) -> Vec<Vec<f32>> {
    d.iter().map(|r| r.iter().map(|x| f32::from_bits(*x)).collect()).collect()
}

fn get_dense_simple() -> Vec<Vec<f32>> {
    vec![
        vec![1.0, 2.0, 0.0],
        vec![0.0, 3.0, 4.0],
        vec![5.0, 0.0, 6.0],
    ]
}

#[test]
fn test_from_to_dense_csr() {
    let dense = get_dense_simple();
    let sparse = SparseCSR::from_dense(to_words(&dense));
    assert_eq!(sparse.nnz(), 6);
    assert_eq!(to_floats(&sparse.to_dense()), dense);
}

#[test]
fn test_cross_format_round_trip_csr() {
    let x = SparseCSR::from_dense(to_words(&get_dense_simple()));
    let through = x.to_coo().to_csr();
    assert_eq!(through.to_dense(), x.to_dense());
}

#[test]
fn test_cross_format_round_trip_csc() {
    let x = SparseCSC::from_dense(to_words(&get_dense_simple()));
    let through = x.to_coo().to_csc();
    assert_eq!(through.to_dense(), x.to_dense());
}

#[test]
fn test_exact_density_all_formats() {
    // floor(5 * 7 * 0.4) = 14 entries, exactly
    let d = (0.4f32).to_bits();
    assert_eq!(SparseCOO::random(5, 7, d, 1).nnz(), 14);
    assert_eq!(SparseCSR::random(5, 7, d, 2).nnz(), 14);
    assert_eq!(SparseCSC::random(5, 7, d, 3).nnz(), 14);
    // a zero density gives an empty matrix
    assert_eq!(SparseCOO::random(5, 7, (0.0f32).to_bits(), 4).nnz(), 0);
}

#[test]
fn test_random_positions_distinct() {
    let m = SparseCOO::random(9, 9, (0.5f32).to_bits(), 5);
    assert_eq!(m.nnz(), 40);
    for k1 in 0..m.nnz() {
        for k2 in (k1 + 1)..m.nnz() {
            assert!(m.rowind[k1] != m.rowind[k2] || m.colind[k1] != m.colind[k2]);
        }
    }
}

#[test]
fn test_random_values_unit_interval() {
    let m = SparseCOO::random(6, 6, (0.5f32).to_bits(), 6);
    for k in 0..m.nnz() {
        let v = f32::from_bits(m.values[k]);
        assert!(v >= 0.0 && v < 1.0);
    }
}

#[test]
fn test_sorted_invariant_after_conversion() {
    let coo = SparseCOO::random(12, 9, (0.35f32).to_bits(), 7);
    let csr = coo.to_csr();
    for i in 0..12 {
        for k in csr.rowptr[i]..csr.rowptr[i + 1] {
            if k + 1 < csr.rowptr[i + 1] {
                assert!(csr.colind[k] < csr.colind[k + 1]);
            }
        }
    }
    let csc = coo.to_csc();
    for j in 0..9 {
        for k in csc.colptr[j]..csc.colptr[j + 1] {
            if k + 1 < csc.colptr[j + 1] {
                assert!(csc.rowind[k] < csc.rowind[k + 1]);
            }
        }
    }
    assert_eq!(csr.to_dense(), coo.to_dense());
    assert_eq!(csc.to_dense(), coo.to_dense());
}

#[test]
fn test_bounds_violation_all_formats() {
    let words = to_words(&get_dense_simple());
    let mut coo = SparseCOO::from_dense(words.clone());
    let mut csr = SparseCSR::from_dense(words.clone());
    let mut csc = SparseCSC::from_dense(words.clone());

    assert_eq!(coo.get(3, 0), Err(MatrixError::OutOfBounds));
    assert_eq!(coo.get(0, 3), Err(MatrixError::OutOfBounds));
    assert_eq!(csr.get(3, 0), Err(MatrixError::OutOfBounds));
    assert_eq!(csc.get(0, 3), Err(MatrixError::OutOfBounds));

    let w = (1.0f32).to_bits();
    assert_eq!(coo.set(3, 0, w), Err(MatrixError::OutOfBounds));
    assert_eq!(csr.set(0, 3, w), Err(MatrixError::OutOfBounds));
    assert_eq!(csc.set(3, 0, w), Err(MatrixError::OutOfBounds));
}

#[test]
fn test_fixed_layout_rejects_new_position() {
    let words = to_words(&get_dense_simple());
    let mut csr = SparseCSR::from_dense(words.clone());
    let mut csc = SparseCSC::from_dense(words.clone());
    let w = (9.0f32).to_bits();

    // (0, 2) holds no entry in the simple matrix
    assert_eq!(csr.set(0, 2, w), Err(MatrixError::NotStored));
    assert_eq!(csc.set(0, 2, w), Err(MatrixError::NotStored));

    // the matrices are unchanged and updates in place still work
    assert_eq!(f32::from_bits(csr.get(0, 2).unwrap()), 0.0);
    assert_eq!(csr.nnz(), 6);
    csr.set(0, 1, w).unwrap();
    assert_eq!(f32::from_bits(csr.get(0, 1).unwrap()), 9.0);
    csc.set(0, 1, w).unwrap();
    assert_eq!(f32::from_bits(csc.get(0, 1).unwrap()), 9.0);
}

#[test]
fn test_csr_csc_identity_and_zero() {
    let x = SparseCSR::from_dense(to_words(&get_dense_simple()));
    let identity = SparseCSC::from_dense(to_words(&vec![
        vec![1.0, 0.0, 0.0],
        vec![0.0, 1.0, 0.0],
        vec![0.0, 0.0, 1.0],
    ]));
    let product = x.multiply_csc(&identity);
    assert_eq!(to_floats(&product.to_dense()), get_dense_simple());

    let zero = SparseCSC::new(3, 3);
    let zero_product = x.multiply_csc(&zero);
    assert_eq!(zero_product.nnz(), 0);
    assert_eq!(to_floats(&zero_product.to_dense()), vec![vec![0.0; 3]; 3]);
}

#[test]
fn test_sparse_product_stays_sparse() {
    // a genuinely sparse product must hold fewer entries than the full grid
    let a = SparseCSR::from_dense(to_words(&vec![
        vec![2.0, 0.0, 0.0],
        vec![0.0, 0.0, 0.0],
        vec![0.0, 0.0, 3.0],
    ]));
    let b = SparseCSC::from_dense(to_words(&vec![
        vec![4.0, 0.0, 0.0],
        vec![0.0, 0.0, 0.0],
        vec![0.0, 0.0, 5.0],
    ]));
    let product = a.multiply_csc(&b);
    assert!(product.nnz() < 9);
    assert_eq!(product.nnz(), 2);
    assert_eq!(f32::from_bits(product.get(0, 0).unwrap()), 8.0);
    assert_eq!(f32::from_bits(product.get(2, 2).unwrap()), 15.0);
}

#[test]
fn test_scalar_product_through_multiply() {
    // 1x1 case with an exact expected product word
    let a = SparseCOO::from_dense(to_words(&vec![vec![2.5]]));
    let b = SparseCOO::from_dense(to_words(&vec![vec![4.0]]));
    let product = a.multiply(&b);
    assert_eq!(f32::from_bits(product.get(0, 0).unwrap()), 10.0);
}

#[test]
fn test_flat_index_conversion_round_trip() {
    // row-major 7 in a 3x4 matrix is (row 1, col 3); column-major that is 3*3+1 = 10
    assert_eq!(flat_index_to_column_major(7, 3, 4), 10);
    // converting back with the axes swapped recovers the original encoding
    for f in 0..12 {
        let cm = flat_index_to_column_major(f, 3, 4);
        assert_eq!(flat_index_to_column_major(cm, 4, 3), f);
    }
}

#[test]
fn test_nonzero_columns() {
    let dense = vec![
        vec![1.0, 0.0, 0.0, 2.0],
        vec![0.0, 0.0, 0.0, 3.0],
    ];
    let csc = SparseCSC::from_dense(to_words(&dense));
    assert_eq!(csc.nonzero_columns(), vec![0, 3]);
}

#[test]
fn test_coo_multiply_keeps_explicit_zeros() {
    // exact cancellation is kept as an explicit zero entry
    let a = SparseCOO::from_dense(to_words(&vec![vec![1.0, 1.0]]));
    let b = SparseCOO::from_dense(to_words(&vec![vec![2.0], vec![-2.0]]));
    let product = a.multiply(&b);
    assert_eq!(product.nnz(), 1);
    assert_eq!(f32::from_bits(product.get(0, 0).unwrap()), 0.0);
}
