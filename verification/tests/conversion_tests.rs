use sparse_lu::sparse_coo::SparseCOO;
use sparse_lu::sparse_csc::SparseCSC;
use sparse_lu::sparse_matrix::SparseMatrixTrait;

fn to_words(d: &Vec<Vec<f32>>) -> Vec<Vec<u32>> {
    d.iter().map(|r| r.iter().map(|x| x.to_bits()).collect()).collect()
}

fn to_floats(d: &Vec<Vec<u32>>) -> Vec<Vec<f32>> {
    d.iter().map(|r| r.iter().map(|x| f32::from_bits(*x)).collect()).collect()
}

fn get_dense_simple() -> Vec<Vec<f32>> {
    vec![
        vec![1.0, 2.0, 0.0],
        vec![0.0, 3.0, 4.0],
        vec![5.0, 0.0, 6.0],
    ]
}

#[test]
fn test_coo_to_csc() {
    let dense_simple = get_dense_simple();
    let sparse_coo = SparseCOO::from_dense(to_words(&dense_simple));
    let sparse_csc = sparse_coo.to_csc();
    assert_eq!(to_floats(&sparse_csc.to_dense()), dense_simple);
}

#[test]
fn test_csc_to_coo() {
    let dense_simple = get_dense_simple();
    let sparse_csc = SparseCSC::from_dense(to_words(&dense_simple));
    let sparse_coo = sparse_csc.to_coo();
    assert_eq!(to_floats(&sparse_coo.to_dense()), dense_simple);
}

#[test]
fn stress_test_coo_to_csc() {
    let sparse_coo = SparseCOO::random(30, 30, (0.2f32).to_bits(), 11);
    let sparse_csc = sparse_coo.to_csc();
    assert_eq!(sparse_csc.to_dense(), sparse_coo.to_dense());
}

#[test]
fn stress_test_csc_to_coo() {
    let sparse_csc = SparseCSC::random(30, 30, (0.2f32).to_bits(), 12);
    let sparse_coo = sparse_csc.to_coo();
    assert_eq!(sparse_coo.to_dense(), sparse_csc.to_dense());
}
