use sparse_lu::sparse_coo::SparseCOO;
use sparse_lu::sparse_matrix::SparseMatrixTrait;

fn to_words(d: &Vec<Vec<f32>>) -> Vec<Vec<u32>> {
    d.iter().map(|r| r.iter().map(|x| x.to_bits()).collect()).collect()
}

fn to_floats(d: &Vec<Vec<u32>>) -> Vec<Vec<f32>> {
    d.iter().map(|r| r.iter().map(|x| f32::from_bits(*x)).collect()).collect()
}

/// Dense matrix multiplication for verification
fn dense_matrix_multiply(a: &Vec<Vec<f32>>, b: &Vec<Vec<f32>>) -> Vec<Vec<f32>> {
    let rows_a = a.len();
    let cols_a = a[0].len();
    let cols_b = b[0].len();

    assert_eq!(
        cols_a,
        b.len(),
        "Matrix dimensions must be compatible for multiplication"
    );

    let mut result = vec![vec![0.0; cols_b]; rows_a];

    for i in 0..rows_a {
        for j in 0..cols_b {
            for k in 0..cols_a {
                result[i][j] += a[i][k] * b[k][j];
            }
        }
    }

    result
}

#[test]
fn test_sparse_coo_multiplication() {
    let dense_a = vec![
        vec![1.0, 2.0, 0.0],
        vec![0.0, 3.0, 4.0],
        vec![5.0, 0.0, 6.0],
    ];
    let dense_b = vec![vec![1.0, 0.0], vec![0.0, 1.0], vec![1.0, 1.0]];

    let sparse_a = SparseCOO::from_dense(to_words(&dense_a));
    let sparse_b = SparseCOO::from_dense(to_words(&dense_b));

    // Multiply sparse matrices
    let sparse_result = sparse_a.multiply(&sparse_b);

    // Multiply dense matrices for verification
    let dense_result = dense_matrix_multiply(&dense_a, &dense_b);

    println!("dense_result: {:?}", dense_result);
    // Convert sparse result to dense for comparison
    let sparse_result_dense = to_floats(&sparse_result.to_dense());

    // Compare results
    assert_eq!(sparse_result_dense, dense_result);

    // Verify dimensions
    assert_eq!(sparse_result.size(), (3, 2));
}

#[test]
fn test_sparse_coo_multiplication_edge_cases() {
    // Test multiplication with identity matrix
    let test_matrix = vec![
        vec![1.0, 2.0, 0.0],
        vec![0.0, 3.0, 4.0],
        vec![5.0, 0.0, 6.0],
    ];
    let identity = vec![
        vec![1.0, 0.0, 0.0],
        vec![0.0, 1.0, 0.0],
        vec![0.0, 0.0, 1.0],
    ];

    let sparse_test = SparseCOO::from_dense(to_words(&test_matrix));
    let sparse_identity = SparseCOO::from_dense(to_words(&identity));

    let result = sparse_test.multiply(&sparse_identity);
    let result_dense = to_floats(&result.to_dense());

    // Result should equal the original matrix
    assert_eq!(result_dense, test_matrix);

    // Test multiplication with zero matrix
    let zero_matrix = vec![vec![0.0, 0.0], vec![0.0, 0.0], vec![0.0, 0.0]];

    let sparse_zero = SparseCOO::from_dense(to_words(&zero_matrix));
    let result_zero = sparse_test.multiply(&sparse_zero);

    // Result should be all zeros
    let result_zero_dense = to_floats(&result_zero.to_dense());
    let expected_zero = vec![vec![0.0; 2]; 3];
    assert_eq!(result_zero_dense, expected_zero);
}

#[test]
fn test_sparse_coo_set_operations() {
    let mut sparse = SparseCOO::new(3, 3);

    // Test setting new elements
    sparse.set(0, 0, (1.0f32).to_bits()).unwrap();
    sparse.set(1, 1, (2.0f32).to_bits()).unwrap();
    sparse.set(2, 2, (3.0f32).to_bits()).unwrap();

    // Test getting set elements
    assert_eq!(f32::from_bits(sparse.get(0, 0).unwrap()), 1.0);
    assert_eq!(f32::from_bits(sparse.get(1, 1).unwrap()), 2.0);
    assert_eq!(f32::from_bits(sparse.get(2, 2).unwrap()), 3.0);

    // Test getting unset elements (should return 0.0)
    assert_eq!(f32::from_bits(sparse.get(0, 1).unwrap()), 0.0);
    assert_eq!(f32::from_bits(sparse.get(1, 0).unwrap()), 0.0);

    // Test updating existing elements
    sparse.set(0, 0, (5.0f32).to_bits()).unwrap();
    assert_eq!(f32::from_bits(sparse.get(0, 0).unwrap()), 5.0);

    // Test nnz count
    assert_eq!(sparse.nnz(), 3);
}
