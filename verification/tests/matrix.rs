use mlrs::matrix::{Matrix, MatrixError};
use mlrs::scalar::Scalar;

#[derive(Clone, Copy, Debug, PartialEq)]
struct Real(f32);

impl Scalar for Real {
    fn zero_value() -> Self {
        Real(0.0)
    }

    fn one_value() -> Self {
        Real(1.0)
    }

    fn sum(self, rhs: Self) -> Self {
        Real(self.0 + rhs.0)
    }

    fn difference(self, rhs: Self) -> Self {
        Real(self.0 - rhs.0)
    }

    fn product(self, rhs: Self) -> Self {
        Real(self.0 * rhs.0)
    }

    fn sum_commutes(self, _rhs: Self) {}

    fn zero() -> Self {
        Real(0.0)
    }

    fn one() -> Self {
        Real(1.0)
    }

    fn plus(self, rhs: Self) -> Self {
        Real(self.0 + rhs.0)
    }

    fn minus(self, rhs: Self) -> Self {
        Real(self.0 - rhs.0)
    }

    fn times(self, rhs: Self) -> Self {
        Real(self.0 * rhs.0)
    }
}

fn cells<T: Copy>(m: &Matrix<T>) -> Vec<T> {
    m.iter().map(|x| *x).collect()
}

fn ints(rows: usize, cols: usize, data: Vec<i64>) -> Matrix<i64> {
    Matrix::from_vec(rows, cols, data).unwrap()
}

#[test]
fn new_is_all_zero() {
    let m: Matrix<i64> = Matrix::new(2, 3).unwrap();
    assert_eq!(m.rows(), 2);
    assert_eq!(m.cols(), 3);
    assert_eq!(m.size(), 6);
    assert_eq!(cells(&m), vec![0; 6]);
}

#[test]
fn new_size_is_rows_times_cols() {
    for rows in 1..6 {
        for cols in 1..6 {
            let m: Matrix<Real> = Matrix::new(rows, cols).unwrap();
            assert_eq!(m.size(), rows * cols);
            assert_eq!(m.iter().count(), rows * cols);
            assert!(m.iter().all(|x| *x == Real(0.0)));
        }
    }
}

#[test]
fn new_rejects_empty_shapes() {
    assert!(matches!(Matrix::<i64>::new(0, 3), Err(MatrixError::CreateError)));
    assert!(matches!(Matrix::<i64>::new(3, 0), Err(MatrixError::CreateError)));
    assert!(matches!(Matrix::<Real>::new(0, 0), Err(MatrixError::CreateError)));
}

#[test]
fn from_vec_keeps_the_cells() {
    let m = ints(2, 3, vec![1, 2, 3, 4, 5, 6]);
    assert_eq!(m.rows(), 2);
    assert_eq!(m.cols(), 3);
    assert_eq!(m.size(), 6);
    assert_eq!(cells(&m), vec![1, 2, 3, 4, 5, 6]);
}

#[test]
fn from_vec_fails_exactly_on_a_wrong_length() {
    for rows in 0..4usize {
        for cols in 0..4usize {
            for len in 0..10usize {
                let r = Matrix::from_vec(rows, cols, vec![7i64; len]);
                if len == rows * cols {
                    assert!(r.is_ok());
                } else {
                    assert!(matches!(r, Err(MatrixError::CreateError)));
                }
            }
        }
    }
}

#[test]
fn from_vec_accepts_an_empty_matrix() {
    let m = Matrix::<i64>::from_vec(0, 0, vec![]).unwrap();
    assert_eq!(m.size(), 0);
    let m = Matrix::<i64>::from_vec(0, 5, vec![]).unwrap();
    assert_eq!((m.rows(), m.cols(), m.size()), (0, 5, 0));
}

#[test]
fn from_vec_rejects_a_shape_past_the_machine() {
    let r = Matrix::from_vec(usize::MAX, 2, vec![1i64, 2]);
    assert!(matches!(r, Err(MatrixError::CreateError)));
}

#[test]
fn get_reads_by_row_major_position() {
    let m = ints(2, 3, vec![1, 2, 3, 4, 5, 6]);
    assert_eq!(*m.get(0, 0).unwrap(), 1);
    assert_eq!(*m.get(0, 2).unwrap(), 3);
    assert_eq!(*m.get(1, 0).unwrap(), 4);
    assert_eq!(*m.get(1, 2).unwrap(), 6);
}

#[test]
fn get_fails_past_the_last_cell() {
    let m = ints(2, 3, vec![1, 2, 3, 4, 5, 6]);
    assert!(matches!(m.get(2, 0), Err(MatrixError::GetError)));
    assert!(matches!(m.get(1, 3), Err(MatrixError::GetError)));
    assert!(matches!(m.get(0, 6), Err(MatrixError::GetError)));
    assert!(matches!(m.get(usize::MAX, usize::MAX), Err(MatrixError::GetError)));
    let empty = Matrix::<i64>::from_vec(0, 0, vec![]).unwrap();
    assert!(matches!(empty.get(0, 0), Err(MatrixError::GetError)));
}

#[test]
fn get_checks_the_position_only() {
    // column 4 of row 0 is position 4: row 1, column 1
    let m = ints(2, 3, vec![1, 2, 3, 4, 5, 6]);
    assert_eq!(*m.get(0, 4).unwrap(), 5);
    assert_eq!(*m.get(0, 5).unwrap(), 6);
}

#[test]
fn get_mut_writes_one_cell() {
    let mut m = ints(2, 3, vec![1, 2, 3, 4, 5, 6]);
    *m.get_mut(1, 1).unwrap() = 50;
    assert_eq!(cells(&m), vec![1, 2, 3, 4, 50, 6]);
    assert_eq!((m.rows(), m.cols()), (2, 3));
    assert!(matches!(m.get_mut(2, 0), Err(MatrixError::GetError)));
    assert!(matches!(m.get_mut(1, 3), Err(MatrixError::GetError)));
    assert_eq!(cells(&m), vec![1, 2, 3, 4, 50, 6]);
}

#[test]
fn iter_mut_writes_every_cell_in_order() {
    let mut m = ints(2, 2, vec![1, 2, 3, 4]);
    let mut n = 0;
    for x in m.iter_mut() {
        *x = *x * 10 + n;
        n += 1;
    }
    assert_eq!(cells(&m), vec![10, 21, 32, 43]);
    assert_eq!(m.size(), 4);
}

#[test]
fn row_chunks_are_the_rows() {
    let m = ints(3, 2, vec![1, 2, 3, 4, 5, 6]);
    let chunks = m.row_chunks();
    assert_eq!(chunks.len(), 3);
    assert_eq!(chunks[0], &[1, 2]);
    assert_eq!(chunks[1], &[3, 4]);
    assert_eq!(chunks[2], &[5, 6]);
}

#[test]
fn fill_overwrites_everything() {
    let mut m = ints(2, 2, vec![1, 2, 3, 4]);
    m.fill(9);
    assert_eq!(cells(&m), vec![9, 9, 9, 9]);
    assert_eq!((m.rows(), m.cols()), (2, 2));
}

#[test]
fn clone_is_independent() {
    let a = ints(1, 3, vec![1, 2, 3]);
    let mut b = a.clone();
    b.fill(0);
    assert_eq!(cells(&a), vec![1, 2, 3]);
    assert_eq!(cells(&b), vec![0, 0, 0]);
    assert_eq!((b.rows(), b.cols()), (1, 3));
}

#[test]
fn add_sums_cell_by_cell() {
    let a = ints(2, 2, vec![1, 2, 3, 4]);
    let b = ints(2, 2, vec![10, 20, 30, 40]);
    let c = a.add(b);
    assert_eq!((c.rows(), c.cols()), (2, 2));
    assert_eq!(cells(&c), vec![11, 22, 33, 44]);
}

#[test]
fn add_commutes() {
    let a = Matrix::from_vec(2, 3, vec![1.5, -2.0, 0.25, 8.0, 1e-3, 7.0].into_iter().map(Real).collect()).unwrap();
    let b = Matrix::from_vec(2, 3, vec![0.5, 4.0, -0.75, 1e6, 3.0, -7.0].into_iter().map(Real).collect()).unwrap();
    let ab = a.clone().add(b.clone());
    let ba = b.clone().add(a.clone());
    assert_eq!(cells(&ab), cells(&ba));
    let by_hand: Vec<Real> = a.iter().zip(b.iter()).map(|(x, y)| Real(x.0 + y.0)).collect();
    assert_eq!(cells(&ab), by_hand);
}

#[test]
fn add_wraps_for_integers() {
    let a = ints(1, 1, vec![i64::MAX]);
    let b = ints(1, 1, vec![1]);
    assert_eq!(cells(&a.add(b)), vec![i64::MIN]);
}

#[test]
fn sub_takes_cell_from_cell() {
    let a = ints(2, 2, vec![1, 2, 3, 4]);
    let b = ints(2, 2, vec![10, 20, 30, 40]);
    assert_eq!(cells(&a.sub(b)), vec![-9, -18, -27, -36]);
}

#[test]
fn hadamard_multiplies_cell_by_cell() {
    let a = ints(2, 2, vec![1, 2, 3, 4]);
    let b = ints(2, 2, vec![10, 20, 30, 40]);
    assert_eq!(cells(&a.hadamard(b)), vec![10, 40, 90, 160]);
}

#[test]
fn scale_multiplies_every_cell() {
    let a = ints(2, 2, vec![1, 2, 3, 4]);
    let c = a.scale(-3);
    assert_eq!(cells(&c), vec![-3, -6, -9, -12]);
    assert_eq!((c.rows(), c.cols()), (2, 2));
}

#[test]
fn transpose_exchanges_rows_and_columns() {
    let a = ints(2, 3, vec![1, 2, 3, 4, 5, 6]);
    let t = a.transpose();
    assert_eq!((t.rows(), t.cols()), (3, 2));
    assert_eq!(cells(&t), vec![1, 4, 2, 5, 3, 6]);
    assert_eq!(cells(&t.transpose()), vec![1, 2, 3, 4, 5, 6]);
}

#[test]
fn logistic_slope_is_a_times_one_minus_a() {
    let a = ints(1, 4, vec![0, 1, 3, -2]);
    assert_eq!(cells(&a.logistic_slope()), vec![0, 0, -6, -6]);
    let r = Matrix::from_vec(1, 2, vec![Real(0.5), Real(0.25)]).unwrap();
    assert_eq!(cells(&r.logistic_slope()), vec![Real(0.25), Real(0.1875)]);
}

#[test]
fn ones_times_ones_is_three() {
    let a = Matrix::from_vec(2, 3, vec![Real(1.0); 6]).unwrap();
    let b = Matrix::from_vec(3, 2, vec![Real(1.0); 6]).unwrap();
    let c = a.mul(b);
    assert_eq!(c.rows(), 2);
    assert_eq!(c.cols(), 2);
    assert_eq!(cells(&c), vec![Real(3.0); 4]);
}

#[test]
fn integer_ones_times_ones_is_three() {
    let c = ints(2, 3, vec![1; 6]).mul(ints(3, 2, vec![1; 6]));
    assert_eq!((c.rows(), c.cols()), (2, 2));
    assert_eq!(cells(&c), vec![3; 4]);
}

#[test]
fn mul_is_rows_times_columns() {
    let a = ints(2, 3, vec![1, 2, 3, 4, 5, 6]);
    let b = ints(3, 2, vec![7, 8, 9, 10, 11, 12]);
    let ab = a.clone().mul(b.clone());
    assert_eq!((ab.rows(), ab.cols()), (2, 2));
    assert_eq!(cells(&ab), vec![58, 64, 139, 154]);
    let ba = b.mul(a);
    assert_eq!((ba.rows(), ba.cols()), (3, 3));
    assert_eq!(cells(&ba), vec![39, 54, 69, 49, 68, 87, 59, 82, 105]);
}

#[test]
fn mul_by_a_column() {
    let a = ints(2, 2, vec![1, 2, 3, 4]);
    let x = ints(2, 1, vec![5, 6]);
    let y = a.mul(x);
    assert_eq!((y.rows(), y.cols()), (2, 1));
    assert_eq!(cells(&y), vec![17, 39]);
}

#[test]
fn mul_over_no_terms_is_zero() {
    let a = Matrix::<i64>::from_vec(2, 0, vec![]).unwrap();
    let b = Matrix::<i64>::from_vec(0, 3, vec![]).unwrap();
    let c = a.mul(b);
    assert_eq!((c.rows(), c.cols()), (2, 3));
    assert_eq!(cells(&c), vec![0; 6]);
}

#[test]
fn sigmoid_applies_the_function_to_every_cell() {
    let mut m = ints(2, 2, vec![1, 2, 3, 4]);
    m.sigmoid(&|x: i64| x * x + 1);
    assert_eq!(cells(&m), vec![2, 5, 10, 17]);
    assert_eq!((m.rows(), m.cols()), (2, 2));
}

#[test]
fn sigmoid_of_zero_is_one_half() {
    let logistic = |x: Real| Real(1.0 / (1.0 + (-x.0).exp()));
    let mut m: Matrix<Real> = Matrix::new(2, 2).unwrap();
    m.sigmoid(&logistic);
    assert_eq!(cells(&m), vec![Real(0.5); 4]);
}

#[test]
fn rand_gives_cell_k_sample_k() {
    let draw = |k: usize| 10 * (k as i64) + 1;
    let mut m: Matrix<i64> = Matrix::new(2, 3).unwrap();
    m.rand(&draw);
    assert_eq!(cells(&m), vec![1, 11, 21, 31, 41, 51]);
    assert_eq!((m.rows(), m.cols()), (2, 3));
}

#[test]
fn rand_does_not_depend_on_the_cells_before() {
    let draw = |k: usize| 7 - (k as i64);
    let mut a = ints(2, 2, vec![1, 2, 3, 4]);
    let mut b = ints(2, 2, vec![-9, 0, 100, 5]);
    a.rand(&draw);
    b.rand(&draw);
    assert_eq!(cells(&a), vec![7, 6, 5, 4]);
    assert_eq!(cells(&a), cells(&b));
    a.rand(&draw);
    assert_eq!(cells(&a), vec![7, 6, 5, 4]);
}

#[test]
fn rand_calls_the_sampler_once_per_cell_in_order() {
    let asked = std::cell::RefCell::new(Vec::new());
    let draw = |k: usize| {
        asked.borrow_mut().push(k);
        Real(k as f32 / 8.0)
    };
    let mut m: Matrix<Real> = Matrix::new(2, 2).unwrap();
    m.rand(&draw);
    assert_eq!(*asked.borrow(), vec![0, 1, 2, 3]);
    assert_eq!(cells(&m), vec![Real(0.0), Real(0.125), Real(0.25), Real(0.375)]);
    assert!(m.iter().all(|x| 0.0 <= x.0 && x.0 < 1.0));
}

#[test]
fn rand_from_counts_from_the_first_sample() {
    let draw = |k: usize| k as i64;
    let mut m: Matrix<i64> = Matrix::new(1, 3).unwrap();
    m.rand_from(5, &draw);
    assert_eq!(cells(&m), vec![5, 6, 7]);
    m.rand_from(0, &draw);
    assert_eq!(cells(&m), vec![0, 1, 2]);
    assert_eq!((m.rows(), m.cols()), (1, 3));
}

#[test]
fn sigmoid_saturates_for_inputs_of_large_magnitude() {
    let logistic = |x: Real| Real(1.0 / (1.0 + std::f32::consts::E.powf(-x.0)));
    let inputs = vec![Real(1000.0), Real(-1000.0), Real(f32::MAX), Real(f32::MIN)];
    let mut m = Matrix::from_vec(1, 4, inputs).unwrap();
    m.sigmoid(&logistic);
    assert_eq!(cells(&m), vec![Real(1.0), Real(0.0), Real(1.0), Real(0.0)]);
}

#[test]
fn sigmoid_keeps_order_and_stays_between_zero_and_one() {
    let logistic = |x: Real| Real(1.0 / (1.0 + std::f32::consts::E.powf(-x.0)));
    let inputs: Vec<Real> = (-10..=10).map(|k| Real(k as f32 * 0.5)).collect();
    let mut m = Matrix::from_vec(3, 7, inputs).unwrap();
    m.sigmoid(&logistic);
    let outputs = cells(&m);
    assert_eq!(outputs[10], Real(0.5));
    assert!(outputs.iter().all(|y| 0.0 < y.0 && y.0 < 1.0));
    assert!(outputs.windows(2).all(|pair| pair[0].0 < pair[1].0));
}

#[test]
fn iter_reads_every_cell_in_order() {
    let m = ints(2, 3, vec![1, 2, 3, 4, 5, 6]);
    let mut seen = Vec::new();
    for x in m.iter() {
        seen.push(*x);
    }
    assert_eq!(seen, vec![1, 2, 3, 4, 5, 6]);
    assert_eq!(m.iter().count(), 6);
}

#[test]
fn integer_scalars_wrap_around() {
    assert_eq!(<i64 as Scalar>::zero(), 0);
    assert_eq!(<i64 as Scalar>::one(), 1);
    assert_eq!(Scalar::plus(2i64, 3), 5);
    assert_eq!(Scalar::minus(2i64, 3), -1);
    assert_eq!(Scalar::times(-2i64, 3), -6);
    assert_eq!(Scalar::plus(i64::MAX, 1), i64::MIN);
    assert_eq!(Scalar::minus(i64::MIN, 1), i64::MAX);
    assert_eq!(Scalar::times(i64::MAX, 2), -2);
}
