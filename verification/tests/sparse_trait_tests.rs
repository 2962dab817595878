use sparse_lu::sparse_coo::SparseCOO;
use sparse_lu::sparse_csc::SparseCSC;
use sparse_lu::sparse_matrix::SparseMatrixTrait;

fn to_words(d: &Vec<Vec<f32>>) -> Vec<Vec<u32>> {
    d.iter().map(|r| r.iter().map(|x| x.to_bits()).collect()).collect()
}

fn to_floats(d: &Vec<Vec<u32>>) -> Vec<Vec<f32>> {
    d.iter().map(|r| r.iter().map(|x| f32::from_bits(*x)).collect()).collect()
}

fn check_from_to_dense<T: SparseMatrixTrait>(dense: Vec<Vec<f32>>) {
    let sparse = T::from_dense(to_words(&dense));

    // Test size
    assert_eq!(sparse.size(), (dense.len(), dense[0].len()));
    assert_eq!(
        sparse.nnz(),
        dense.iter().flatten().filter(|x| **x != 0.0).count()
    );

    // Test conversion back to dense
    let converted_back = to_floats(&sparse.to_dense());
    assert_eq!(converted_back, dense);
}

fn check_sparse_get<T: SparseMatrixTrait>(dense: Vec<Vec<f32>>) {
    let sparse = T::from_dense(to_words(&dense));

    // Test size
    assert_eq!(sparse.size(), (dense.len(), dense[0].len()));
    assert_eq!(
        sparse.nnz(),
        dense.iter().flatten().filter(|x| **x != 0.0).count()
    );

    for i in 0..dense.len() {
        for j in 0..dense[0].len() {
            assert_eq!(f32::from_bits(sparse.get(i, j).unwrap()), dense[i][j]);
        }
    }
}

fn check_sparse_edge_cases<T: SparseMatrixTrait>() {
    // Test empty matrix
    let empty_dense = vec![vec![0.0; 3]; 3];
    let empty_sparse = T::from_dense(to_words(&empty_dense));

    assert_eq!(empty_sparse.nnz(), 0);

    // Test matrix with all ones
    let ones_dense = vec![vec![1.0; 3]; 3];
    let ones_sparse = T::from_dense(to_words(&ones_dense));

    assert_eq!(ones_sparse.nnz(), 9);

    // Test single element matrix
    let single_dense = vec![vec![5.0]];
    let single_sparse = T::from_dense(to_words(&single_dense));

    assert_eq!(single_sparse.size(), (1, 1));
    assert_eq!(f32::from_bits(single_sparse.get(0, 0).unwrap()), 5.0);
}

fn check_sparse_random_generation<T: SparseMatrixTrait>(rows: usize, cols: usize, density: f32) {
    let random_sparse = T::random(rows, cols, density.to_bits(), 21);

    // Test dimensions
    assert_eq!(random_sparse.size(), (rows, cols));

    // Test that the nonzero count is exact
    let expected_nnz = (rows * cols) as f32 * density;

    assert!(random_sparse.nnz() == expected_nnz as usize);

    // Test that random matrix can be converted to dense
    let sparse_dense = random_sparse.to_dense();

    assert_eq!(sparse_dense.len(), rows);
    assert_eq!(sparse_dense[0].len(), cols);
}

fn get_dense_simple() -> Vec<Vec<f32>> {
    vec![
        vec![1.0, 2.0, 0.0],
        vec![0.0, 3.0, 4.0],
        vec![5.0, 0.0, 6.0],
    ]
}

fn dense_random_floats(rows: usize, cols: usize) -> Vec<Vec<f32>> {
    let mut rng = fastrand::Rng::new();
    (0..rows)
        .map(|_| (0..cols).map(|_| rng.f32()).collect())
        .collect()
}

#[test]
fn test_from_to_dense_coo() {
    let dense_simple = get_dense_simple();
    check_from_to_dense::<SparseCOO>(dense_simple);
    let dense_random = dense_random_floats(20, 18);
    check_from_to_dense::<SparseCOO>(dense_random);
}

#[test]
fn test_get_coo() {
    let dense_simple = get_dense_simple();
    check_sparse_get::<SparseCOO>(dense_simple);
    let dense_random = dense_random_floats(20, 18);
    check_sparse_get::<SparseCOO>(dense_random);
}

#[test]
fn test_edge_cases_coo() {
    check_sparse_edge_cases::<SparseCOO>();
}

#[test]
fn test_random_generation_coo() {
    check_sparse_random_generation::<SparseCOO>(10, 8, 0.3);
}

#[test]
fn test_from_to_dense_csc() {
    let dense_simple = get_dense_simple();
    check_from_to_dense::<SparseCSC>(dense_simple);
    let dense_random = dense_random_floats(20, 18);
    check_from_to_dense::<SparseCSC>(dense_random);
}

#[test]
fn test_get_csc() {
    let dense_simple = get_dense_simple();
    check_sparse_get::<SparseCSC>(dense_simple);
    let dense_random = dense_random_floats(20, 18);
    check_sparse_get::<SparseCSC>(dense_random);
}

#[test]
fn test_edge_cases_csc() {
    check_sparse_edge_cases::<SparseCSC>();
}

#[test]
fn test_random_generation_csc() {
    check_sparse_random_generation::<SparseCSC>(10, 8, 0.3);
}
