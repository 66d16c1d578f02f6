use mlrs::matrix::{Matrix, MatrixError};
use mlrs::nn::{Layer, NN};
use mlrs::scalar::Scalar;
use std::cell::RefCell;

#[derive(Clone, Copy, Debug, PartialEq)]
struct Real(f32);

impl Scalar for Real {
    fn zero_value() -> Self {
        Real(0.0)
    }

    fn one_value() -> Self {
        Real(1.0)
    }

    fn sum(self, rhs: Self) -> Self {
        Real(self.0 + rhs.0)
    }

    fn difference(self, rhs: Self) -> Self {
        Real(self.0 - rhs.0)
    }

    fn product(self, rhs: Self) -> Self {
        Real(self.0 * rhs.0)
    }

    fn sum_commutes(self, _rhs: Self) {}

    fn zero() -> Self {
        Real(0.0)
    }

    fn one() -> Self {
        Real(1.0)
    }

    fn plus(self, rhs: Self) -> Self {
        Real(self.0 + rhs.0)
    }

    fn minus(self, rhs: Self) -> Self {
        Real(self.0 - rhs.0)
    }

    fn times(self, rhs: Self) -> Self {
        Real(self.0 * rhs.0)
    }
}

fn logistic(x: Real) -> Real {
    Real(1.0 / (1.0 + (-x.0).exp()))
}

fn identity(x: i64) -> i64 {
    x
}

fn cells<T: Copy>(m: &Matrix<T>) -> Vec<T> {
    m.iter().map(|x| *x).collect()
}

fn shape<T>(m: &Matrix<T>) -> (usize, usize) {
    (m.rows(), m.cols())
}

fn reals(rows: usize, cols: usize, data: &[f32]) -> Matrix<Real> {
    Matrix::from_vec(rows, cols, data.iter().map(|x| Real(*x)).collect()).unwrap()
}

/// A network whose parameters are the numbers given, layer by layer, weights
/// before biases.
fn real_network(sizes: Vec<usize>, params: &[f32]) -> NN<Real> {
    let mut nn = NN::new(sizes).unwrap();
    assert_eq!(nn.parameter_count(), Some(params.len()));
    nn.rand(&|k: usize| Real(params[k]));
    nn
}

/// A network of integers whose parameters count up from one.
fn counting_network(sizes: Vec<usize>) -> NN<i64> {
    let mut nn = NN::new(sizes).unwrap();
    nn.rand(&|k: usize| k as i64 + 1);
    nn
}

fn close(a: Real, b: f32) -> bool {
    (a.0 - b).abs() < 1e-6
}

#[test]
fn layer_has_the_shapes_of_its_sizes() {
    let layer: Layer<Real> = Layer::new(2, 2).unwrap();
    assert_eq!(shape(layer.weights()), (2, 2));
    assert_eq!(shape(layer.biases()), (2, 1));
    let layer: Layer<Real> = Layer::new(3, 5).unwrap();
    assert_eq!(shape(layer.weights()), (5, 3));
    assert_eq!(shape(layer.biases()), (5, 1));
}

#[test]
fn layer_starts_at_zero() {
    let layer: Layer<i64> = Layer::new(3, 2).unwrap();
    assert_eq!(cells(layer.weights()), vec![0; 6]);
    assert_eq!(cells(layer.biases()), vec![0; 2]);
}

#[test]
fn layer_rejects_empty_sizes() {
    assert!(matches!(Layer::<i64>::new(0, 2), Err(MatrixError::CreateError)));
    assert!(matches!(Layer::<i64>::new(2, 0), Err(MatrixError::CreateError)));
    assert!(matches!(Layer::<Real>::new(0, 0), Err(MatrixError::CreateError)));
}

#[test]
fn zero_layer_gives_one_half_for_any_input() {
    let layer: Layer<Real> = Layer::new(2, 2).unwrap();
    for input in [[0.0, 0.0], [1.0, -1.0], [123.5, 1e6], [-3e9, 0.125]] {
        let out = layer.activate(reals(2, 1, &input), &logistic);
        assert_eq!(shape(&out), (2, 1));
        assert_eq!(cells(&out), vec![Real(0.5), Real(0.5)]);
    }
}

#[test]
fn zero_layer_gives_what_the_function_makes_of_zero() {
    let layer: Layer<i64> = Layer::new(3, 2).unwrap();
    let input = Matrix::from_vec(3, 1, vec![5, -7, 11]).unwrap();
    let out = layer.activate(input, &|x: i64| x + 42);
    assert_eq!(shape(&out), (2, 1));
    assert_eq!(cells(&out), vec![42, 42]);
}

#[test]
fn activate_leaves_the_layer_alone() {
    let nn = counting_network(vec![2, 2]);
    let layer = &nn.layers()[0];
    let input = Matrix::from_vec(2, 1, vec![1, 2]).unwrap();
    let first = layer.activate(input.clone(), &identity);
    let second = layer.activate(input, &identity);
    assert_eq!(cells(&first), vec![10, 17]);
    assert_eq!(cells(&second), vec![10, 17]);
    assert_eq!(cells(layer.weights()), vec![1, 2, 3, 4]);
    assert_eq!(cells(layer.biases()), vec![5, 6]);
}

#[test]
fn network_of_2_2_1_has_two_layers() {
    let nn: NN<Real> = NN::new(vec![2, 2, 1]).unwrap();
    let layers = nn.layers();
    assert_eq!(layers.len(), 2);
    assert_eq!(shape(layers[0].weights()), (2, 2));
    assert_eq!(shape(layers[0].biases()), (2, 1));
    assert_eq!(shape(layers[1].weights()), (1, 2));
    assert_eq!(shape(layers[1].biases()), (1, 1));
    for layer in layers.iter() {
        assert!(layer.weights().iter().all(|x| *x == Real(0.0)));
        assert!(layer.biases().iter().all(|x| *x == Real(0.0)));
    }
}

#[test]
fn network_has_one_layer_per_pair_of_sizes() {
    let nn: NN<i64> = NN::new(vec![4, 3, 5, 2]).unwrap();
    let layers = nn.layers();
    assert_eq!(layers.len(), 3);
    assert_eq!(shape(layers[0].weights()), (3, 4));
    assert_eq!(shape(layers[1].weights()), (5, 3));
    assert_eq!(shape(layers[2].weights()), (2, 5));
    assert_eq!(shape(layers[2].biases()), (2, 1));
}

#[test]
fn network_needs_two_sizes() {
    assert!(matches!(NN::<i64>::new(vec![]), Err(MatrixError::CreateError)));
    assert!(matches!(NN::<i64>::new(vec![3]), Err(MatrixError::CreateError)));
}

#[test]
fn network_rejects_a_zero_size() {
    assert!(matches!(NN::<i64>::new(vec![0, 2]), Err(MatrixError::CreateError)));
    assert!(matches!(NN::<i64>::new(vec![2, 0]), Err(MatrixError::CreateError)));
    assert!(matches!(NN::<i64>::new(vec![2, 0, 1]), Err(MatrixError::CreateError)));
    assert!(matches!(NN::<i64>::new(vec![2, 3, 0]), Err(MatrixError::CreateError)));
}

#[test]
fn rand_fills_weights_before_biases_layer_by_layer() {
    let nn = counting_network(vec![2, 2, 1]);
    let layers = nn.layers();
    assert_eq!(cells(layers[0].weights()), vec![1, 2, 3, 4]);
    assert_eq!(cells(layers[0].biases()), vec![5, 6]);
    assert_eq!(cells(layers[1].weights()), vec![7, 8]);
    assert_eq!(cells(layers[1].biases()), vec![9]);
    assert_eq!(shape(layers[0].weights()), (2, 2));
    assert_eq!(shape(layers[1].weights()), (1, 2));
}

#[test]
fn rand_can_be_called_again() {
    let mut nn = counting_network(vec![1, 1]);
    nn.rand(&|_: usize| 7);
    assert_eq!(cells(nn.layers()[0].weights()), vec![7]);
    assert_eq!(cells(nn.layers()[0].biases()), vec![7]);
}

#[test]
fn rand_gives_parameter_k_sample_k() {
    let mut nn: NN<i64> = NN::new(vec![3, 2, 2]).unwrap();
    nn.rand(&|k: usize| 100 + k as i64);
    let layers = nn.layers();
    assert_eq!(cells(layers[0].weights()), vec![100, 101, 102, 103, 104, 105]);
    assert_eq!(cells(layers[0].biases()), vec![106, 107]);
    assert_eq!(cells(layers[1].weights()), vec![108, 109, 110, 111]);
    assert_eq!(cells(layers[1].biases()), vec![112, 113]);
    assert_eq!(shape(layers[0].weights()), (2, 3));
    assert_eq!(shape(layers[0].biases()), (2, 1));
    assert_eq!(shape(layers[1].weights()), (2, 2));
    assert_eq!(shape(layers[1].biases()), (2, 1));
}

#[test]
fn rand_asks_for_every_sample_once_and_in_order() {
    let asked = RefCell::new(Vec::new());
    let mut nn: NN<Real> = NN::new(vec![2, 2, 1]).unwrap();
    nn.rand(&|k: usize| {
        asked.borrow_mut().push(k);
        Real(k as f32 / 16.0)
    });
    assert_eq!(*asked.borrow(), (0..9).collect::<Vec<usize>>());
    let mut all = Vec::new();
    for layer in nn.layers().iter() {
        all.extend(cells(layer.weights()));
        all.extend(cells(layer.biases()));
    }
    let expected: Vec<Real> = (0..9).map(|k| Real(k as f32 / 16.0)).collect();
    assert_eq!(all, expected);
    assert!(all.iter().all(|x| 0.0 <= x.0 && x.0 < 1.0));
}

#[test]
fn rand_does_not_depend_on_the_parameters_before() {
    let draw = |k: usize| 5 * (k as i64) - 3;
    let mut fresh: NN<i64> = NN::new(vec![2, 2, 1]).unwrap();
    let mut used = counting_network(vec![2, 2, 1]);
    fresh.rand(&draw);
    used.rand(&draw);
    for l in 0..2 {
        assert_eq!(cells(fresh.layers()[l].weights()), cells(used.layers()[l].weights()));
        assert_eq!(cells(fresh.layers()[l].biases()), cells(used.layers()[l].biases()));
    }
    assert_eq!(cells(used.layers()[1].weights()), vec![27, 32]);
    assert_eq!(cells(used.layers()[1].biases()), vec![37]);
}

#[test]
fn parameter_count_adds_up_weights_and_biases() {
    let nn: NN<i64> = NN::new(vec![2, 2, 1]).unwrap();
    assert_eq!(nn.parameter_count(), Some(9));
    let nn: NN<i64> = NN::new(vec![4, 3, 5, 2]).unwrap();
    assert_eq!(nn.parameter_count(), Some(4 * 3 + 3 + 3 * 5 + 5 + 5 * 2 + 2));
}

#[test]
fn activate_feeds_every_layer_in_order() {
    let nn = counting_network(vec![2, 2, 1]);
    let out = nn.activate(Matrix::from_vec(2, 1, vec![1, 2]).unwrap(), &identity).unwrap();
    assert_eq!(shape(&out), (1, 1));
    assert_eq!(cells(&out), vec![215]);
}

#[test]
fn activate_applies_the_logistic_function() {
    let nn = real_network(vec![2, 2, 1], &[0.5, -0.5, 0.25, 0.75, 0.0, 1.0, 1.0, -1.0, 0.5]);
    let out = nn.activate(reals(2, 1, &[1.0, 0.0]), &logistic).unwrap();
    assert_eq!(shape(&out), (1, 1));
    assert!(close(cells(&out)[0], 0.5854432582855225));
}

#[test]
fn activate_rejects_a_wrong_input_shape() {
    let nn = counting_network(vec![2, 2, 1]);
    let too_short = Matrix::from_vec(1, 1, vec![1]).unwrap();
    assert!(matches!(nn.activate(too_short, &identity), Err(MatrixError::CreateError)));
    let too_long = Matrix::from_vec(3, 1, vec![1, 2, 3]).unwrap();
    assert!(matches!(nn.activate(too_long, &identity), Err(MatrixError::CreateError)));
    let a_row = Matrix::from_vec(1, 2, vec![1, 2]).unwrap();
    assert!(matches!(nn.activate(a_row, &identity), Err(MatrixError::CreateError)));
    let too_wide = Matrix::from_vec(2, 2, vec![1, 2, 3, 4]).unwrap();
    assert!(matches!(nn.activate(too_wide, &identity), Err(MatrixError::CreateError)));
}

#[test]
fn forward_pass_keeps_every_output() {
    let nn = counting_network(vec![2, 2, 1]);
    let acts = nn.forward_pass(Matrix::from_vec(2, 1, vec![1, 2]).unwrap(), &identity);
    assert_eq!(acts.len(), 3);
    assert_eq!(cells(&acts[0]), vec![1, 2]);
    assert_eq!(cells(&acts[1]), vec![10, 17]);
    assert_eq!(cells(&acts[2]), vec![215]);
    assert_eq!(shape(&acts[1]), (2, 1));
    assert_eq!(shape(&acts[2]), (1, 1));
}

#[test]
fn forward_pass_of_reals() {
    let nn = real_network(vec![2, 2, 1], &[0.5, -0.5, 0.25, 0.75, 0.0, 1.0, 1.0, -1.0, 0.5]);
    let acts = nn.forward_pass(reals(2, 1, &[1.0, 0.0]), &logistic);
    assert_eq!(acts.len(), 3);
    assert!(close(cells(&acts[1])[0], 0.622459352016449));
    assert!(close(cells(&acts[1])[1], 0.7772998809814453));
    assert!(close(cells(&acts[2])[0], 0.5854432582855225));
}

#[test]
fn test_model_reports_output_and_label_of_every_case() {
    let nn = counting_network(vec![2, 2, 1]);
    let model = Matrix::from_vec(2, 3, vec![0, 1, 2, 9, 0, 0]).unwrap();
    let report = nn.test_model(&model, &identity).unwrap();
    assert_eq!(report.len(), 2);
    assert_eq!(shape(&report[0].0), (1, 1));
    assert_eq!(cells(&report[0].0), vec![215]);
    assert_eq!(report[0].1, 2);
    // input (0, 0): the biases alone, 7 * 5 + 8 * 6 + 9
    assert_eq!(cells(&report[1].0), vec![92]);
    assert_eq!(report[1].1, 0);
}

#[test]
fn test_model_of_no_case_reports_nothing() {
    let nn = counting_network(vec![2, 2, 1]);
    let model = Matrix::<i64>::from_vec(0, 3, vec![]).unwrap();
    assert_eq!(nn.test_model(&model, &identity).unwrap().len(), 0);
}

#[test]
fn test_model_rejects_a_wrong_width() {
    let nn = counting_network(vec![2, 2, 1]);
    let narrow = Matrix::from_vec(2, 2, vec![1, 2, 3, 4]).unwrap();
    assert!(matches!(nn.test_model(&narrow, &identity), Err(MatrixError::CreateError)));
    let wide = Matrix::from_vec(1, 4, vec![1, 2, 3, 4]).unwrap();
    assert!(matches!(nn.test_model(&wide, &identity), Err(MatrixError::CreateError)));
    let none = Matrix::<i64>::from_vec(3, 0, vec![]).unwrap();
    assert!(matches!(nn.test_model(&none, &identity), Err(MatrixError::CreateError)));
}

#[test]
fn test_model_leaves_the_network_alone() {
    let nn = counting_network(vec![2, 1]);
    let model = Matrix::from_vec(1, 3, vec![0, 1, 2]).unwrap();
    let first = nn.test_model(&model, &identity).unwrap();
    let second = nn.test_model(&model, &identity).unwrap();
    assert_eq!(cells(&first[0].0), vec![8]);
    assert_eq!(cells(&second[0].0), vec![8]);
    assert_eq!(cells(nn.layers()[0].weights()), vec![1, 2]);
}
