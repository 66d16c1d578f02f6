use mlrs::matrix::Matrix;
use mlrs::nn::{Layer, NN};

fn two_decimals(x: f64) -> String {
    format!("{:.2}", x)
}

fn plain(x: i64) -> String {
    format!("{}", x)
}

#[test]
fn empty_matrix_is_a_pair_of_brackets() {
    let m = Matrix::<i64>::from_vec(0, 0, vec![]).unwrap();
    assert_eq!(m.to_string(&plain), "[]");
}

#[test]
fn matrix_is_written_row_by_row() {
    let m = Matrix::from_vec(2, 3, vec![1, 2, 3, 4, 5, 6]).unwrap();
    assert_eq!(m.to_string(&plain), "[ 1 2 3 \n   4 5 6 ]");
}

#[test]
fn single_cell_matrix() {
    let m = Matrix::from_vec(1, 1, vec![42]).unwrap();
    assert_eq!(m.to_string(&plain), "[ 42 ]");
}

#[test]
fn column_matrix_breaks_after_every_cell() {
    let m = Matrix::from_vec(3, 1, vec![1, 2, 3]).unwrap();
    assert_eq!(m.to_string(&plain), "[ 1 \n   2 \n   3 ]");
}

#[test]
fn cells_are_written_by_the_function_given() {
    let m = Matrix::from_vec(1, 2, vec![10, 25]).unwrap();
    let show = |x: i64| two_decimals(x as f64 / 10.0);
    assert_eq!(m.to_string(&show), "[ 1.00 2.50 ]");
}

#[test]
fn layer_is_written_under_two_headings() {
    let layer: Layer<i64> = Layer::new(2, 1).unwrap();
    assert_eq!(layer.to_string(&plain), "Weights:\n [ 0 0 ]\nBiases: \n [ 0 ]");
}

#[test]
fn network_is_written_layer_after_layer() {
    let mut nn: NN<i64> = NN::new(vec![1, 2, 1]).unwrap();
    nn.rand(&|k: usize| k as i64 + 1);
    let expected = "\nWeights:\n [ 1 \n   2 ]\nBiases: \n [ 3 \n   4 ]\n\nWeights:\n [ 5 6 ]\nBiases: \n [ 7 ]\n";
    assert_eq!(nn.to_string(&plain), expected);
}
