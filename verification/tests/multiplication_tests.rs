use sparse_lu::sparse_csr::SparseCSR;
use sparse_lu::sparse_matrix::SparseMatrixTrait;

fn to_words(d: &Vec<Vec<f32>>) -> Vec<Vec<u32>> {
    d.iter().map(|r| r.iter().map(|x| x.to_bits()).collect()).collect()
}

fn to_floats(d: &Vec<Vec<u32>>) -> Vec<Vec<f32>> {
    d.iter().map(|r| r.iter().map(|x| f32::from_bits(*x)).collect()).collect()
}

/// Dense matrix multiplication for verification
fn dense_matrix_multiply(a: &Vec<Vec<f32>>, b: &Vec<Vec<f32>>) -> Vec<Vec<f32>> {
    let rows_a = a.len();
    let cols_a = a[0].len();
    let cols_b = b[0].len();

    assert_eq!(
        cols_a,
        b.len(),
        "Matrix dimensions must be compatible for multiplication"
    );

    let mut result = vec![vec![0.0; cols_b]; rows_a];

    for i in 0..rows_a {
        for j in 0..cols_b {
            for k in 0..cols_a {
                result[i][j] += a[i][k] * b[k][j];
            }
        }
    }

    result
}

fn get_dense_simple() -> Vec<Vec<f32>> {
    vec![
        vec![1.0, 2.0, 0.0],
        vec![0.0, 3.0, 4.0],
        vec![5.0, 0.0, 6.0],
    ]
}

fn get_dense_simple_b() -> Vec<Vec<f32>> {
    vec![vec![1.0, 0.0], vec![0.0, 1.0], vec![1.0, 1.0]]
}

fn dense_random_floats(rows: usize, cols: usize) -> Vec<Vec<f32>> {
    let mut rng = fastrand::Rng::new();
    (0..rows)
        .map(|_| (0..cols).map(|_| rng.f32()).collect())
        .collect()
}

fn check_sparse_csr_csc_multiplication(dense_a: Vec<Vec<f32>>, dense_b: Vec<Vec<f32>>) {
    let sparse_a = SparseCSR::from_dense(to_words(&dense_a));
    let sparse_b = SparseCSR::from_dense(to_words(&dense_b));

    // Multiply sparse matrices
    let sparse_result = sparse_a.multiply_csr(&sparse_b);

    // Multiply dense matrices for verification
    let dense_result = dense_matrix_multiply(&dense_a, &dense_b);

    println!("dense_result: {:?}", dense_result);
    // Convert sparse result to dense for comparison
    let sparse_result_dense = to_floats(&sparse_result.to_dense());

    println!("sparse_result_dense: {:?}", sparse_result_dense);
    // Compare results
    assert_eq!(sparse_result_dense, dense_result);
}

#[test]
fn test_sparse_csr_csc_multiplication_simple() {
    let dense_a = get_dense_simple();
    let dense_b = get_dense_simple_b();
    check_sparse_csr_csc_multiplication(dense_a, dense_b);
}

#[test]
fn test_sparse_csr_csc_multiplication_random() {
    let dense_a = dense_random_floats(20, 16);
    let dense_b = dense_random_floats(16, 12);
    check_sparse_csr_csc_multiplication(dense_a, dense_b);
}
