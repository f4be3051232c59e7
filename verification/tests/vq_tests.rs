use half::{bf16, f16};
use nalgebra::DMatrix;
use rand::rngs::StdRng;
use rand::Rng;
use rand::SeedableRng;
use std::ops::{Add, Div, Mul, Sub};
use vq::bq::BinaryQuantizer;
use vq::distances::{map_sum, zip_map_max, zip_map_sum, Distance, Pairing};
use vq::exceptions::{decimal, VqError};
use vq::opq::{
    check_square, cross_covariance, identity, reconstruct, rotate, rotate_all, OpqFit,
    OptimizedProductQuantizer,
};
use vq::pq::{encode, learn_codebooks, reduce_vector, sub_training, sub_vector, ProductQuantizer};
use vq::rvq::{copy_vectors, mean_norm, peel, pick_centroid, ResidualQuantizer};
use vq::sq::ScalarQuantizer;
use vq::tsvq::{argmax, column_of, insertion_sort, median, side, spreads, TSVQNode, TSVQ};
use vq::utils::{assign, cluster_members, lbg_quantize, nearest, select};
use vq::vector::{
    add_slices, common_dimension, copy_slice, display_vector, dot_slices, mean_of_uniform,
    mean_vector, sub_slices, zeros, Real, Vector, PARALLEL_THRESHOLD,
};

/// What the element wrapper below needs from a machine float.
trait Float:
    Copy
    + PartialOrd
    + Add<Output = Self>
    + Sub<Output = Self>
    + Mul<Output = Self>
    + Div<Output = Self>
{
    fn of_f64(x: f64) -> Self;
    fn to_f32(self) -> f32;
    fn root(self) -> Self;
    fn magnitude(self) -> Self;
    fn power(self, n: Self) -> Self;
}

impl Float for f32 {
    fn of_f64(x: f64) -> Self {
        x as f32
    }
    fn to_f32(self) -> f32 {
        self
    }
    fn root(self) -> Self {
        self.sqrt()
    }
    fn magnitude(self) -> Self {
        self.abs()
    }
    fn power(self, n: Self) -> Self {
        self.powf(n)
    }
}

impl Float for f64 {
    fn of_f64(x: f64) -> Self {
        x
    }
    fn to_f32(self) -> f32 {
        self as f32
    }
    fn root(self) -> Self {
        self.sqrt()
    }
    fn magnitude(self) -> Self {
        self.abs()
    }
    fn power(self, n: Self) -> Self {
        self.powf(n)
    }
}

impl Float for f16 {
    fn of_f64(x: f64) -> Self {
        f16::from_f32(x as f32)
    }
    fn to_f32(self) -> f32 {
        f32::from(self)
    }
    fn root(self) -> Self {
        f16::from_f32(f32::from(self).sqrt())
    }
    fn magnitude(self) -> Self {
        if self < f16::from_f32(0.0) {
            -self
        } else {
            self
        }
    }
    fn power(self, n: Self) -> Self {
        f16::from_f32(f32::from(self).powf(f32::from(n)))
    }
}

impl Float for bf16 {
    fn of_f64(x: f64) -> Self {
        bf16::from_f32(x as f32)
    }
    fn to_f32(self) -> f32 {
        f32::from(self)
    }
    fn root(self) -> Self {
        bf16::from_f32(f32::from(self).sqrt())
    }
    fn magnitude(self) -> Self {
        if self < bf16::from_f32(0.0) {
            -self
        } else {
            self
        }
    }
    fn power(self, n: Self) -> Self {
        bf16::from_f32(f32::from(self).powf(f32::from(n)))
    }
}

/// A machine float as an element of the library's vectors. Each operation and
/// the function that names its result are the same computation.
#[derive(Clone, Copy, Debug, PartialEq, PartialOrd)]
struct N<X>(X);

impl<X: Float> Real for N<X> {
    type Reduced = f16;

    fn zero_spec() -> Self {
        N(X::of_f64(0.0))
    }
    fn zero() -> Self {
        N(X::of_f64(0.0))
    }
    fn one_spec() -> Self {
        N(X::of_f64(1.0))
    }
    fn one() -> Self {
        N(X::of_f64(1.0))
    }
    fn from_usize_spec(n: usize) -> Self {
        N(X::of_f64(n as f64))
    }
    fn from_usize(n: usize) -> Self {
        N(X::of_f64(n as f64))
    }
    fn add_spec(self, rhs: Self) -> Self {
        N(self.0 + rhs.0)
    }
    fn add(self, rhs: Self) -> Self {
        N(self.0 + rhs.0)
    }
    fn sub_spec(self, rhs: Self) -> Self {
        N(self.0 - rhs.0)
    }
    fn sub(self, rhs: Self) -> Self {
        N(self.0 - rhs.0)
    }
    fn mul_spec(self, rhs: Self) -> Self {
        N(self.0 * rhs.0)
    }
    fn mul(self, rhs: Self) -> Self {
        N(self.0 * rhs.0)
    }
    fn div_spec(self, rhs: Self) -> Self {
        N(self.0 / rhs.0)
    }
    fn div(self, rhs: Self) -> Self {
        N(self.0 / rhs.0)
    }
    fn sqrt_spec(self) -> Self {
        N(self.0.root())
    }
    fn sqrt(self) -> Self {
        N(self.0.root())
    }
    fn abs_spec(self) -> Self {
        N(self.0.magnitude())
    }
    fn abs(self) -> Self {
        N(self.0.magnitude())
    }
    fn powf_spec(self, n: Self) -> Self {
        N(self.0.power(n.0))
    }
    fn powf(self, n: Self) -> Self {
        N(self.0.power(n.0))
    }
    fn lt_spec(self, rhs: Self) -> bool {
        self.0 < rhs.0
    }
    fn lt(self, rhs: Self) -> bool {
        self.0 < rhs.0
    }
    fn le_spec(self, rhs: Self) -> bool {
        self.0 <= rhs.0
    }
    fn le(self, rhs: Self) -> bool {
        self.0 <= rhs.0
    }
    fn eq_spec(self, rhs: Self) -> bool {
        self.0 == rhs.0
    }
    fn eq(self, rhs: Self) -> bool {
        self.0 == rhs.0
    }
    fn round_spec(self) -> usize {
        self.0.to_f32().round() as usize
    }
    fn round(self) -> usize {
        self.0.to_f32().round() as usize
    }
    fn reduce_spec(self) -> f16 {
        f16::from_f32(self.0.to_f32())
    }
    fn reduce(self) -> f16 {
        f16::from_f32(self.0.to_f32())
    }
}

type E = N<f32>;

const SEED: u64 = 42;
const MIN_VAL: f32 = -1000.0;
const MAX_VAL: f32 = 1000.0;

fn seeded_rng() -> StdRng {
    StdRng::seed_from_u64(SEED)
}

fn generate_test_data(rng: &mut StdRng, n: usize, dim: usize) -> Vec<Vector<E>> {
    (0..n)
        .map(|_| Vector::new((0..dim).map(|_| N(rng.random_range(MIN_VAL..MAX_VAL))).collect()))
        .collect()
}

fn elements(values: &[f32]) -> Vec<E> {
    values.iter().map(|&x| N(x)).collect()
}

fn vector(values: &[f32]) -> Vector<E> {
    Vector::new(elements(values))
}

fn plain(values: &[E]) -> Vec<f32> {
    values.iter().map(|x| x.0).collect()
}

fn decoded(code: &Vector<f16>) -> Vec<f32> {
    code.data.iter().map(|&x| f16::to_f32(x)).collect()
}

fn approx_eq(a: f32, b: f32, eps: f32) -> bool {
    (a - b).abs() < eps
}

/// The rotation that best aligns the two sides of a cross-covariance: `V * U^T`
/// of its singular value decomposition.
fn solve_rotation(problem: &Vec<Vector<E>>) -> Vec<Vector<E>> {
    let dim = problem.len();
    let a = DMatrix::from_fn(dim, dim, |i, j| problem[i].data[j].0);
    let svd = a.svd(true, true);
    let u = svd.u.expect("U");
    let v_t = svd.v_t.expect("V^T");
    let rotation = v_t.transpose() * u.transpose();
    (0..dim)
        .map(|i| Vector::new((0..dim).map(|j| N(rotation[(i, j)])).collect()))
        .collect()
}

fn fit_opq(
    training_data: &[Vector<E>],
    m: usize,
    k: usize,
    max_iters: usize,
    opq_iters: usize,
    distance: Distance<E>,
    seed: u64,
) -> Result<OptimizedProductQuantizer<E>, VqError> {
    let mut step = OptimizedProductQuantizer::fit(
        training_data,
        m,
        k,
        max_iters,
        opq_iters,
        distance,
        seed,
    )?;
    loop {
        match step {
            OpqFit::Done(quantizer) => return Ok(quantizer),
            OpqFit::Solve(trainer) => {
                let rotation = solve_rotation(trainer.cross_covariance());
                step = trainer.resume(rotation)?;
            }
        }
    }
}

fn invalid_parameter(reason: &str) -> VqError {
    VqError::InvalidParameter(reason.to_string())
}

fn invalid_minkowski() -> VqError {
    VqError::InvalidMetricParameter {
        metric: "Minkowski".to_string(),
        details: "p must be positive".to_string(),
    }
}

// ----------------------------------------------------------------- errors

#[test]
fn errors_describe_themselves() {
    assert_eq!(
        VqError::DimensionMismatch { expected: 10, found: 205 }.message(),
        "Dimension mismatch: expected 10, got 205"
    );
    assert_eq!(
        VqError::DimensionMismatch { expected: 0, found: usize::MAX }.message(),
        format!("Dimension mismatch: expected 0, got {}", usize::MAX)
    );
    assert_eq!(VqError::EmptyInput.message(), "Empty input: at least one vector is required.");
    assert_eq!(
        invalid_parameter("k must be greater than 0").message(),
        "Invalid parameter: k must be greater than 0"
    );
    assert_eq!(
        invalid_minkowski().message(),
        "Invalid metric parameter for Minkowski: p must be positive"
    );
    assert_eq!(VqError::invalid_parameter("why"), invalid_parameter("why"));
    assert_eq!(
        VqError::invalid_metric_parameter("Minkowski", "p must be positive"),
        invalid_minkowski()
    );
}

#[test]
fn decimal_numerals() {
    for n in [0usize, 7, 9, 10, 11, 99, 100, 1024, 90_210, 1_000_000] {
        assert_eq!(decimal(n), n.to_string());
    }
    assert_eq!(decimal(usize::MAX), usize::MAX.to_string());
}

// ---------------------------------------------------------------- vectors

#[test]
fn test_addition() {
    let a = vector(&[1.0f32, 2.0, 3.0]);
    let b = vector(&[4.0f32, 5.0, 6.0]);
    let result = a.add(&b).unwrap();
    assert_eq!(plain(&result.data), vec![5.0, 7.0, 9.0]);
}

#[test]
fn test_subtraction() {
    let a = vector(&[4.0f32, 5.0, 6.0]);
    let b = vector(&[1.0f32, 2.0, 3.0]);
    let result = a.sub(&b).unwrap();
    assert_eq!(plain(&result.data), vec![3.0, 3.0, 3.0]);
}

#[test]
fn test_scalar_multiplication() {
    let a = vector(&[1.0f32, 2.0, 3.0]);
    let result = a.mul(N(2.0f32));
    assert_eq!(plain(&result.data), vec![2.0, 4.0, 6.0]);
}

#[test]
fn test_dot_product_sequential() {
    let a = vector(&[1.0f32, 2.0, 3.0]);
    let b = vector(&[4.0f32, 5.0, 6.0]);
    let dot = a.dot(&b).unwrap().0;
    assert!(approx_eq(dot, 32.0, 1e-6));
}

#[test]
fn test_dot_product_parallel() {
    let len = PARALLEL_THRESHOLD + 1;
    let a = Vector::new((0..len).map(|i| N(i as f32)).collect());
    let b = Vector::new((0..len).map(|i| N((i as f32) * 2.0)).collect());
    let expected: f32 = 2.0 * (0..len).map(|i| (i as f32).powi(2)).sum::<f32>();
    let dot = a.dot(&b).unwrap().0;
    println!("Expected: {}, Actual: {}", expected, dot);
    assert!(approx_eq(dot, expected, 1e3));
}

#[test]
fn test_norm() {
    let a = vector(&[3.0f32, 4.0]);
    let norm = a.norm().0;
    assert!(approx_eq(norm, 5.0, 1e-6));
}

#[test]
fn test_distance2() {
    let a = vector(&[1.0f32, 2.0, 3.0]);
    let b = vector(&[4.0f32, 5.0, 6.0]);
    let dist2 = a.distance2(&b).unwrap().0;
    assert!(approx_eq(dist2, 27.0, 1e-6));
}

#[test]
fn test_mean_vector_sequential() {
    let vectors = vec![
        vector(&[1.0f32, 2.0, 3.0]),
        vector(&[4.0f32, 5.0, 6.0]),
        vector(&[7.0f32, 8.0, 9.0]),
    ];
    let mean = mean_vector(&vectors).unwrap();
    assert!(approx_eq(mean.data[0].0, 4.0, 1e-6));
    assert!(approx_eq(mean.data[1].0, 5.0, 1e-6));
    assert!(approx_eq(mean.data[2].0, 6.0, 1e-6));
}

#[test]
fn test_mean_vector_parallel() {
    let n = PARALLEL_THRESHOLD + 10;
    let dim = 5;
    let vectors: Vec<_> = (0..n)
        .map(|_| Vector::new((0..dim).map(|i| N(i as f32)).collect()))
        .collect();
    let mean = mean_vector(&vectors).unwrap();
    let expected: Vec<f32> = (0..dim).map(|i| i as f32).collect();
    for (m, e) in mean.data.iter().zip(expected.iter()) {
        assert!(approx_eq(m.0, *e, 1e-6));
    }
}

#[test]
fn test_addition_mismatched_dimensions() {
    let a = vector(&[1.0f32, 2.0]);
    let b = vector(&[1.0f32, 2.0, 3.0]);
    assert_eq!(a.add(&b), Err(VqError::DimensionMismatch { expected: 2, found: 3 }));
}

#[test]
fn test_dot_product_mismatched_dimensions() {
    let a = vector(&[1.0f32, 2.0]);
    let b = vector(&[1.0f32]);
    assert_eq!(a.dot(&b), Err(VqError::DimensionMismatch { expected: 2, found: 1 }));
}

#[test]
fn test_mean_vector_empty() {
    let vectors: Vec<Vector<E>> = vec![];
    assert_eq!(mean_vector(&vectors), Err(VqError::EmptyInput));
}

#[test]
fn test_display() {
    let a = vector(&[1.0f32, 2.0, 3.0]);
    let rendered: Vec<String> = a.data.iter().map(|x| x.0.to_string()).collect();
    let s = display_vector(&rendered);
    assert!(s.starts_with("Vector ["));
    assert!(s.ends_with("]"));
}

#[test]
fn display_separates_the_elements() {
    let rendered = |values: &[f32]| -> Vec<String> { values.iter().map(|x| x.to_string()).collect() };
    assert_eq!(display_vector(&rendered(&[1.0, 2.5, -3.0])), "Vector [1, 2.5, -3]");
    assert_eq!(display_vector(&rendered(&[7.0])), "Vector [7]");
    assert_eq!(display_vector(&rendered(&[])), "Vector []");
    assert_eq!(display_vector(&["a".to_string(), "".to_string()]), "Vector [a, ]");
}

#[test]
fn test_f64_operations() {
    let a = Vector::new(vec![N(1.0f64), N(2.0), N(3.0)]);
    let b = Vector::new(vec![N(4.0f64), N(5.0), N(6.0)]);
    let dot = a.dot(&b).unwrap().0;
    assert!((dot - 32.0).abs() < 1e-6);
    let norm = a.norm().0;
    let expected_norm = (1.0f64 * 1.0 + 2.0 * 2.0 + 3.0 * 3.0).sqrt();
    assert!((norm - expected_norm).abs() < 1e-6);
}

#[test]
fn test_f16_operations() {
    let a = Vector::new(vec![
        N(f16::from_f32(1.0)),
        N(f16::from_f32(2.0)),
        N(f16::from_f32(3.0)),
    ]);
    let b = Vector::new(vec![
        N(f16::from_f32(4.0)),
        N(f16::from_f32(5.0)),
        N(f16::from_f32(6.0)),
    ]);
    let dot = a.dot(&b).unwrap().0;
    let dot_f32 = f32::from(dot);
    assert!((dot_f32 - 32.0).abs() < 1e-1);
}

#[test]
fn test_bf16_operations() {
    let a = Vector::new(vec![
        N(bf16::from_f32(1.0)),
        N(bf16::from_f32(2.0)),
        N(bf16::from_f32(3.0)),
    ]);
    let b = Vector::new(vec![
        N(bf16::from_f32(4.0)),
        N(bf16::from_f32(5.0)),
        N(bf16::from_f32(6.0)),
    ]);
    let dot = a.dot(&b).unwrap().0;
    let dot_f32 = f32::from(dot);
    assert!((dot_f32 - 32.0).abs() < 1e-1);
}

#[test]
fn vector_accessors() {
    let a = vector(&[1.0, 2.0]);
    assert_eq!(a.len(), 2);
    assert!(!a.is_empty());
    assert_eq!(plain(a.data()), vec![1.0, 2.0]);
    let empty: Vector<E> = Vector::new(vec![]);
    assert!(empty.is_empty());
    assert_eq!(empty.len(), 0);
    assert_eq!(plain(&a.duplicate().data), vec![1.0, 2.0]);
}

#[test]
fn vector_subtraction_and_distance_mismatch() {
    let a = vector(&[1.0, 2.0, 3.0]);
    let b = vector(&[1.0]);
    assert_eq!(a.sub(&b), Err(VqError::DimensionMismatch { expected: 3, found: 1 }));
    assert_eq!(a.distance2(&b), Err(VqError::DimensionMismatch { expected: 3, found: 1 }));
}

#[test]
fn slice_helpers_compute_elementwise() {
    let a = elements(&[1.0, 2.0, 3.0]);
    let b = elements(&[0.5, 0.5, 4.0]);
    assert_eq!(plain(&add_slices(&a, &b)), vec![1.5, 2.5, 7.0]);
    assert_eq!(plain(&sub_slices(&a, &b)), vec![0.5, 1.5, -1.0]);
    assert_eq!(dot_slices(&a, &b).0, 0.5 + 1.0 + 12.0);
    assert_eq!(plain(&zeros::<E>(3)), vec![0.0, 0.0, 0.0]);
    assert_eq!(plain(&copy_slice(&a)), vec![1.0, 2.0, 3.0]);
}

#[test]
fn mean_vector_names_the_first_vector_of_another_length() {
    let vectors = vec![
        vector(&[1.0, 2.0]),
        vector(&[3.0, 4.0]),
        vector(&[5.0]),
        vector(&[6.0, 7.0, 8.0]),
    ];
    assert_eq!(mean_vector(&vectors), Err(VqError::DimensionMismatch { expected: 2, found: 1 }));
    assert_eq!(
        common_dimension(&vectors),
        Err(VqError::DimensionMismatch { expected: 2, found: 1 })
    );
    assert_eq!(common_dimension(&vectors[..2]), Ok(2));
    let none: Vec<Vector<E>> = vec![];
    assert_eq!(common_dimension(&none), Err(VqError::EmptyInput));
}

#[test]
fn mean_of_uniform_divides_the_column_sums() {
    let vectors = vec![vector(&[1.0, 10.0]), vector(&[2.0, 20.0]), vector(&[6.0, 30.0]), vector(&[7.0, 40.0])];
    let mean = mean_of_uniform(&vectors, 2);
    assert_eq!(plain(&mean.data), vec![4.0, 25.0]);
}

// -------------------------------------------------------------- distances

#[test]
fn test_squared_euclidean_sequential() {
    let a = elements(&[1.0f32, 2.0, 3.0]);
    let b = elements(&[4.0f32, 6.0, 8.0]);
    let d = Distance::SquaredEuclidean;
    let result = d.compute(&a, &b).unwrap().0;
    assert!(approx_eq(result, 50.0, 1e-6));
}

#[test]
fn test_squared_euclidean_parallel() {
    let len = PARALLEL_THRESHOLD + 10;
    let a: Vec<E> = (0..len).map(|i| N(i as f32)).collect();
    let b: Vec<E> = (0..len).map(|i| N((i as f32) + 1.0)).collect();
    let d = Distance::SquaredEuclidean;
    let result = d.compute(&a, &b).unwrap().0;
    assert!(approx_eq(result, len as f32, 1e-6));
}

#[test]
fn test_euclidean_sequential() {
    let a = elements(&[1.0f32, 2.0, 3.0]);
    let b = elements(&[4.0f32, 6.0, 8.0]);
    let expected = 50.0f32.sqrt();
    let d = Distance::Euclidean;
    let result = d.compute(&a, &b).unwrap().0;
    assert!(approx_eq(result, expected, 1e-6));
}

#[test]
fn test_euclidean_parallel() {
    let len = PARALLEL_THRESHOLD + 10;
    let a: Vec<E> = (0..len).map(|i| N(i as f32)).collect();
    let b: Vec<E> = (0..len).map(|i| N((i as f32) + 1.0)).collect();
    let expected = (len as f32).sqrt();
    let d = Distance::Euclidean;
    let result = d.compute(&a, &b).unwrap().0;
    assert!(approx_eq(result, expected, 1e-6));
}

#[test]
fn test_cosine_distance_sequential() {
    let a = elements(&[1.0f32, 0.0]);
    let b = elements(&[0.0f32, 1.0]);
    let d = Distance::CosineDistance;
    let result = d.compute(&a, &b).unwrap().0;
    assert!(approx_eq(result, 1.0, 1e-6));

    let a = elements(&[1.0f32, 1.0]);
    let b = elements(&[1.0f32, 1.0]);
    let result = d.compute(&a, &b).unwrap().0;
    assert!(approx_eq(result, 0.0, 1e-6));
}

#[test]
fn test_cosine_distance_parallel() {
    let len = PARALLEL_THRESHOLD + 10;
    let a = vec![N(1.0f32); len];
    let b = vec![N(1.0f32); len];
    let d = Distance::CosineDistance;
    let result = d.compute(&a, &b).unwrap().0;
    assert!(approx_eq(result, 0.0, 1e-6));
}

#[test]
fn test_manhattan_sequential() {
    let a = elements(&[1.0f32, 2.0, 3.0]);
    let b = elements(&[4.0f32, 6.0, 8.0]);
    let d = Distance::Manhattan;
    let result = d.compute(&a, &b).unwrap().0;
    assert!(approx_eq(result, 12.0, 1e-6));
}

#[test]
fn test_manhattan_parallel() {
    let len = PARALLEL_THRESHOLD + 10;
    let a: Vec<E> = (0..len).map(|i| N(i as f32)).collect();
    let b: Vec<E> = (0..len).map(|i| N((i as f32) + 2.0)).collect();
    let expected = 2.0 * (len as f32);
    let d = Distance::Manhattan;
    let result = d.compute(&a, &b).unwrap().0;
    assert!(approx_eq(result, expected, 1e-6));
}

#[test]
fn test_chebyshev_sequential() {
    let a = elements(&[1.0f32, 5.0, 3.0]);
    let b = elements(&[4.0f32, 2.0, 9.0]);
    let d = Distance::Chebyshev;
    let result = d.compute(&a, &b).unwrap().0;
    assert!(approx_eq(result, 6.0, 1e-6));
}

#[test]
fn test_chebyshev_parallel() {
    let len = PARALLEL_THRESHOLD + 10;
    let mut a: Vec<E> = (0..len).map(|i| N(i as f32)).collect();
    let mut b: Vec<E> = (0..len).map(|i| N(i as f32)).collect();
    a[len - 1] = N(1000.0);
    b[len - 1] = N(0.0);
    let d = Distance::Chebyshev;
    let result = d.compute(&a, &b).unwrap().0;
    assert!(approx_eq(result, 1000.0, 1e-6));
}

#[test]
fn test_minkowski_sequential() {
    let a = elements(&[1.0f32, 2.0, 3.0]);
    let b = elements(&[4.0f32, 6.0, 8.0]);
    let d = Distance::Minkowski(N(3.0));
    let result = d.compute(&a, &b).unwrap().0;
    assert!(approx_eq(result, 6.0, 1e-6));
}

#[test]
fn test_minkowski_parallel() {
    let p = 3.0;
    let d = Distance::Minkowski(N(p));
    let len = PARALLEL_THRESHOLD + 10;
    let a: Vec<E> = (0..len).map(|i| N(i as f32)).collect();
    let b: Vec<E> = (0..len).map(|i| N((i as f32) + 1.0)).collect();
    let expected = (len as f32).powf(1.0 / 3.0);
    let result = d.compute(&a, &b).unwrap().0;
    assert!(approx_eq(result, expected, 1e-6));
}

#[test]
fn test_hamming_sequential() {
    let a = elements(&[1.0f32, 2.0, 3.0, 4.0]);
    let b = elements(&[1.0f32, 0.0, 3.0, 0.0]);
    let d = Distance::Hamming;
    let result = d.compute(&a, &b).unwrap().0;
    assert!(approx_eq(result, 2.0, 1e-6));
}

#[test]
fn test_hamming_parallel() {
    let len = PARALLEL_THRESHOLD + 10;
    let a: Vec<E> = vec![N(1.0f32); len];
    let b: Vec<E> = (0..len)
        .map(|i| if i % 2 == 0 { N(1.0f32) } else { N(0.0f32) })
        .collect();
    let expected = if len % 2 == 0 {
        (len / 2) as f32
    } else {
        ((len / 2) + 1) as f32
    };
    let d = Distance::Hamming;
    let result = d.compute(&a, &b).unwrap().0;
    assert!(approx_eq(result, expected, 1e-6));
}

#[test]
fn test_compute_mismatched_lengths() {
    let a = elements(&[1.0f32, 2.0]);
    let b = elements(&[1.0f32]);
    let d = Distance::Euclidean;
    assert_eq!(d.compute(&a, &b), Err(VqError::DimensionMismatch { expected: 2, found: 1 }));
}

#[test]
fn minkowski_order_must_be_positive() {
    let a = elements(&[1.0, 2.0]);
    let b = elements(&[3.0, 4.0]);
    assert_eq!(Distance::Minkowski(N(0.0)).compute(&a, &b), Err(invalid_minkowski()));
    assert_eq!(Distance::Minkowski(N(-2.0)).compute(&a, &b), Err(invalid_minkowski()));
    assert!(!Distance::Minkowski(N(0.0f32)).is_valid());
    assert!(Distance::Minkowski(N(0.5f32)).is_valid());
    assert!(Distance::<E>::Hamming.is_valid());
    // The lengths are looked at before the order.
    assert_eq!(
        Distance::Minkowski(N(0.0)).compute(&a, &b[..1]),
        Err(VqError::DimensionMismatch { expected: 2, found: 1 })
    );
}

#[test]
fn cosine_distance_is_one_at_zero_norm() {
    let zero = elements(&[0.0, 0.0, 0.0]);
    let other = elements(&[1.0, 2.0, 3.0]);
    assert_eq!(Distance::CosineDistance.compute(&zero, &other), Ok(N(1.0)));
    assert_eq!(Distance::CosineDistance.compute(&other, &zero), Ok(N(1.0)));
    assert_eq!(Distance::CosineDistance.compute(&zero, &zero), Ok(N(1.0)));
}

#[test]
fn distances_are_symmetric() {
    let a = elements(&[1.5, -2.0, 3.25, 0.0]);
    let b = elements(&[-4.0, 6.5, 3.25, 9.0]);
    let metrics: Vec<Distance<E>> = vec![
        Distance::SquaredEuclidean,
        Distance::Euclidean,
        Distance::Manhattan,
        Distance::Chebyshev,
        Distance::Hamming,
    ];
    for d in metrics {
        assert_eq!(d.compute(&a, &b), d.compute(&b, &a));
    }
}

#[test]
fn distance_to_self_is_zero() {
    let a = elements(&[1.5, -2.0, 3.25, 0.0]);
    let metrics: Vec<Distance<E>> = vec![
        Distance::SquaredEuclidean,
        Distance::Euclidean,
        Distance::Manhattan,
        Distance::Chebyshev,
        Distance::Minkowski(N(3.0)),
        Distance::Hamming,
    ];
    for d in metrics {
        assert_eq!(d.compute(&a, &a), Ok(N(0.0)));
    }
}

#[test]
fn distances_of_empty_buffers() {
    let none: Vec<E> = vec![];
    assert_eq!(Distance::SquaredEuclidean.compute(&none, &none), Ok(N(0.0)));
    assert_eq!(Distance::Chebyshev.compute(&none, &none), Ok(N(0.0)));
    assert_eq!(Distance::CosineDistance.compute(&none, &none), Ok(N(1.0)));
}

#[test]
fn pairings_and_reductions() {
    let a = elements(&[1.0, 5.0, 3.0]);
    let b = elements(&[4.0, 2.0, 9.0]);
    assert_eq!(Pairing::SquaredDifference.apply(N(1.0f32), N(4.0)), N(9.0));
    assert_eq!(Pairing::Product.apply(N(3.0f32), N(4.0)), N(12.0));
    assert_eq!(Pairing::AbsoluteDifference.apply(N(3.0f32), N(4.5)), N(1.5));
    assert_eq!(Pairing::PoweredDifference(N(2.0f32)).apply(N(1.0), N(4.0)), N(9.0));
    assert_eq!(Pairing::Mismatch.apply(N(1.0f32), N(1.0)), N(0.0));
    assert_eq!(Pairing::Mismatch.apply(N(1.0f32), N(2.0)), N(1.0));
    assert_eq!(zip_map_sum(&a, &b, Pairing::AbsoluteDifference), N(12.0));
    assert_eq!(zip_map_max(&a, &b, Pairing::AbsoluteDifference), N(6.0));
    assert_eq!(map_sum(&a), N(35.0));
    assert_eq!(Distance::Manhattan.measure(&a, &b), N(12.0));
}

// ------------------------------------------------------------------- LBG

fn get_data() -> Vec<Vector<E>> {
    vec![
        vector(&[1.0, 2.0]),
        vector(&[2.0, 3.0]),
        vector(&[3.0, 4.0]),
        vector(&[4.0, 5.0]),
    ]
}

#[test]
fn lbg_quantize_basic_functionality() {
    let data = get_data();
    let centroids = lbg_quantize(&data, 2, 10, 42).unwrap();
    assert_eq!(centroids.len(), 2);
}

#[test]
fn lbg_quantize_k_zero() {
    let data = vec![vector(&[1.0, 2.0]), vector(&[2.0, 3.0])];
    assert_eq!(
        lbg_quantize(&data, 0, 10, 42),
        Err(invalid_parameter("k must be greater than 0"))
    );
}

#[test]
fn lbg_quantize_not_enough_data_points() {
    let data = vec![vector(&[1.0, 2.0])];
    assert_eq!(
        lbg_quantize(&data, 2, 10, 42),
        Err(invalid_parameter("Not enough data points for k clusters"))
    );
}

#[test]
fn lbg_quantize_single_data_point() {
    let data = vec![vector(&[1.0, 2.0])];
    let centroids = lbg_quantize(&data, 1, 10, 42).unwrap();
    assert_eq!(centroids.len(), 1);
    assert_eq!(centroids[0], vector(&[1.0, 2.0]));
}

#[test]
fn lbg_quantize_multiple_iterations() {
    let data = get_data();
    let centroids = lbg_quantize(&data, 2, 100, 42).unwrap();
    assert_eq!(centroids.len(), 2);
}

#[test]
fn lbg_quantize_rejects_rows_of_different_lengths() {
    let data = vec![vector(&[1.0, 2.0]), vector(&[2.0, 3.0, 4.0])];
    assert_eq!(
        lbg_quantize(&data, 1, 10, 42),
        Err(VqError::DimensionMismatch { expected: 2, found: 3 })
    );
}

#[test]
fn lbg_quantize_without_rounds_samples_distinct_rows() {
    let data: Vec<Vector<E>> = (0..6).map(|i| vector(&[i as f32, (i * i) as f32])).collect();
    let centroids = lbg_quantize(&data, 6, 0, 7).unwrap();
    assert_eq!(centroids.len(), 6);
    for row in data.iter() {
        assert_eq!(centroids.iter().filter(|c| *c == row).count(), 1);
    }
    let fewer = lbg_quantize(&data, 3, 0, 7).unwrap();
    assert_eq!(fewer.len(), 3);
    for (i, c) in fewer.iter().enumerate() {
        assert!(data.contains(c));
        for other in fewer.iter().skip(i + 1) {
            assert_ne!(c, other);
        }
    }
}

#[test]
fn lbg_quantize_is_fixed_by_its_seed() {
    let mut rng = seeded_rng();
    let data = generate_test_data(&mut rng, 200, 4);
    let first = lbg_quantize(&data, 5, 20, 11).unwrap();
    let second = lbg_quantize(&data, 5, 20, 11).unwrap();
    assert_eq!(first, second);
}

#[test]
fn lbg_quantize_reseeds_an_empty_cluster_with_a_row() {
    // Every row is the same, so every row joins cluster 0 and cluster 1 stays empty.
    let data = vec![vector(&[3.0, 4.0]); 5];
    let centroids = lbg_quantize(&data, 2, 3, 1).unwrap();
    assert_eq!(centroids.len(), 2);
    assert_eq!(centroids[0], vector(&[3.0, 4.0]));
    assert_eq!(centroids[1], vector(&[3.0, 4.0]));
}

#[test]
fn lbg_quantize_separates_two_groups() {
    let data = vec![
        vector(&[0.0, 0.0]),
        vector(&[0.0, 2.0]),
        vector(&[100.0, 100.0]),
        vector(&[100.0, 102.0]),
    ];
    let mut centroids = lbg_quantize(&data, 2, 50, 3).unwrap();
    centroids.sort_by(|a, b| a.data[0].0.partial_cmp(&b.data[0].0).unwrap());
    assert_eq!(centroids[0], vector(&[0.0, 1.0]));
    assert_eq!(centroids[1], vector(&[100.0, 101.0]));
}

#[test]
fn nearest_keeps_the_first_of_equal_distances() {
    let codebook = vec![vector(&[5.0]), vector(&[1.0]), vector(&[3.0]), vector(&[1.0])];
    let d: Distance<E> = Distance::SquaredEuclidean;
    assert_eq!(nearest(&d, &elements(&[2.0]), &codebook), 1);
    assert_eq!(nearest(&d, &elements(&[1.0]), &codebook), 1);
    assert_eq!(nearest(&d, &elements(&[4.0]), &codebook), 0);
    assert_eq!(nearest(&d, &elements(&[2.9]), &codebook), 2);
    assert_eq!(nearest(&d, &elements(&[9.0]), &codebook[..1]), 0);
}

#[test]
fn assignment_and_grouping() {
    let data = vec![vector(&[0.0]), vector(&[10.0]), vector(&[1.0]), vector(&[9.0]), vector(&[5.0])];
    let centroids = vec![vector(&[0.0]), vector(&[10.0])];
    let assignments = assign(&data, &centroids, 1);
    assert_eq!(assignments, vec![0, 1, 0, 1, 0]);
    assert_eq!(
        cluster_members(&data, &assignments, 0),
        vec![vector(&[0.0]), vector(&[1.0]), vector(&[5.0])]
    );
    assert_eq!(cluster_members(&data, &assignments, 1), vec![vector(&[10.0]), vector(&[9.0])]);
    assert!(cluster_members(&data, &assignments, 2).is_empty());
    assert_eq!(select(&data, &vec![3, 0]), vec![vector(&[9.0]), vector(&[0.0])]);
}

// -------------------------------------------------------- binary quantizer

#[test]
fn test_binary_quantizer_large_vector() {
    let mut rng = seeded_rng();
    let dim = 1024;
    let data = generate_test_data(&mut rng, 1, dim);
    let vector = &data[0];

    let quantizer = BinaryQuantizer::fit(N(0.0), 0, 1).unwrap();
    let quantized: Vector<u8> = quantizer.quantize(vector);
    assert_eq!(
        quantized.len(),
        dim,
        "Quantized output must have same dimension as input"
    );

    for (i, &val) in quantized.data.iter().enumerate() {
        let expected = if vector.data[i].0 >= 0.0 { 1 } else { 0 };
        assert_eq!(
            val, expected,
            "At index {}: expected {} but got {}",
            i, expected, val
        );
    }
}

#[test]
fn binary_quantizer_codes_by_threshold() {
    let quantizer = BinaryQuantizer::fit(N(0.5), 0, 1).unwrap();
    let quantized = quantizer.quantize(&vector(&[0.3, 0.5, 0.8]));
    assert_eq!(quantized.data, vec![0, 1, 1]);
    let other = BinaryQuantizer::fit(N(0.0), 7, 200).unwrap();
    assert_eq!(other.quantize(&vector(&[-1.0, 0.0, 2.0])).data, vec![7, 200, 200]);
    assert_eq!(other.quantize_scalar(N(-0.1)), 7);
    assert_eq!(other.quantize(&vector(&[])).data, Vec::<u8>::new());
}

#[test]
fn binary_quantizer_wants_low_below_high() {
    let reason = "Low quantization level must be less than high quantization level";
    assert_eq!(BinaryQuantizer::fit(N(0.5f32), 1, 1).err(), Some(invalid_parameter(reason)));
    assert_eq!(BinaryQuantizer::fit(N(0.5f32), 2, 1).err(), Some(invalid_parameter(reason)));
    let quantizer = BinaryQuantizer::fit(N(0.5f32), 1, 2).unwrap();
    assert_eq!((quantizer.threshold, quantizer.low, quantizer.high), (N(0.5), 1, 2));
}

// -------------------------------------------------------- scalar quantizer

#[test]
fn test_scalar_quantizer_on_scalars() {
    let quantizer = ScalarQuantizer::fit(N(-1.0), N(1.0), 5).unwrap();
    let test_values = vec![-1.2, -1.0, -0.8, -0.3, 0.0, 0.3, 0.6, 1.0, 1.2];
    for x in test_values {
        let vec_x = vector(&[x]);
        let indices = quantizer.quantize(&vec_x);
        assert_eq!(indices.len(), 1, "Expected one index per scalar vector");
        let reconstructed = quantizer.min().0 + indices.data[0] as f32 * quantizer.step().0;
        let clamped = if x < -1.0 {
            -1.0
        } else if x > 1.0 {
            1.0
        } else {
            x
        };
        let error = (reconstructed - clamped).abs();
        let max_error = quantizer.step().0 / 2.0;
        assert!(
            error <= max_error + 1e-6,
            "Reconstruction error {} too high for input {}",
            error,
            x
        );
    }
}

#[test]
fn test_scalar_quantizer_on_large_vectors() {
    let mut rng = seeded_rng();
    let n = 100;
    let dim = 1024;
    let data = generate_test_data(&mut rng, n, dim);
    let quantizer = ScalarQuantizer::fit(N(-1000.0), N(1000.0), 256).unwrap();

    for vector in data.iter() {
        let indices = quantizer.quantize(vector);
        assert_eq!(
            indices.len(),
            dim,
            "Quantized indices length should match input dimension"
        );
        let reconstructed: Vec<f32> = indices
            .data
            .iter()
            .map(|&i| quantizer.min().0 + i as f32 * quantizer.step().0)
            .collect();
        assert_eq!(
            reconstructed.len(),
            dim,
            "Reconstructed vector length should match input dimension"
        );
        for (orig, &recon) in vector.data.iter().zip(reconstructed.iter()) {
            let orig = orig.0;
            let clamped = if orig < quantizer.min().0 {
                quantizer.min().0
            } else if orig > quantizer.max().0 {
                quantizer.max().0
            } else {
                orig
            };
            let error = (clamped - recon).abs();
            assert!(
                error <= quantizer.step().0 / 2.0 + 1e-6,
                "Error {} exceeds allowed maximum for original {}",
                error,
                orig
            );
        }
    }
}

#[test]
fn scalar_quantizer_levels() {
    let quantizer = ScalarQuantizer::fit(N(-1.0), N(1.0), 5).unwrap();
    assert_eq!(quantizer.step(), N(0.5));
    assert_eq!(quantizer.levels(), 5);
    assert_eq!((quantizer.min(), quantizer.max()), (N(-1.0), N(1.0)));
    let codes = quantizer.quantize(&vector(&[-1.2, -1.0, -0.8, -0.3, 0.0, 0.3, 0.6, 1.0, 1.2]));
    assert_eq!(codes.data, vec![0, 0, 0, 1, 2, 3, 3, 4, 4]);
    assert_eq!(quantizer.quantize_scalar(N(0.25)), 3);
    let fine = ScalarQuantizer::fit(N(0.0), N(255.0), 256).unwrap();
    assert_eq!(fine.quantize(&vector(&[0.0, 1.4, 254.6, 300.0])).data, vec![0, 1, 255, 255]);
}

#[test]
fn scalar_quantizer_parameters_are_checked() {
    assert_eq!(
        ScalarQuantizer::fit(N(1.0f32), N(1.0), 5).err(),
        Some(invalid_parameter("max must be greater than min"))
    );
    assert_eq!(
        ScalarQuantizer::fit(N(1.0f32), N(0.0), 1).err(),
        Some(invalid_parameter("max must be greater than min"))
    );
    assert_eq!(
        ScalarQuantizer::fit(N(0.0f32), N(1.0), 1).err(),
        Some(invalid_parameter("levels must be at least 2"))
    );
    assert_eq!(
        ScalarQuantizer::fit(N(0.0f32), N(1.0), 257).err(),
        Some(invalid_parameter("levels must be no more than 256"))
    );
    assert!(ScalarQuantizer::fit(N(0.0f32), N(1.0), 2).is_ok());
    assert!(ScalarQuantizer::fit(N(0.0f32), N(1.0), 256).is_ok());
}

// ------------------------------------------------------- product quantizer

#[test]
fn test_pq_on_random_vectors() {
    let mut rng = seeded_rng();
    let training_data = generate_test_data(&mut rng, 1000, 10);
    let m = 2;
    let k = 2;
    let max_iters = 50;
    let seed = 42;
    let pq = ProductQuantizer::fit(
        &training_data,
        m,
        k,
        max_iters,
        Distance::SquaredEuclidean,
        seed,
    )
    .unwrap();
    for vector in training_data.iter() {
        let quantized = pq.quantize(vector).unwrap();
        assert_eq!(
            quantized.len(),
            vector.len(),
            "Quantized vector length should match input dimension"
        );
        let reconstructed: Vec<f32> = decoded(&quantized);
        let total_error: f32 = vector
            .data
            .iter()
            .zip(reconstructed.iter())
            .map(|(orig, recon)| (orig.0 - recon).abs())
            .sum();
        assert!(
            total_error.is_finite(),
            "Total reconstruction error {} is not finite",
            total_error
        );
    }
}

#[test]
fn product_quantizer_parameters_are_checked() {
    let d: Distance<E> = Distance::Euclidean;
    let none: Vec<Vector<E>> = vec![];
    assert_eq!(ProductQuantizer::fit(&none, 2, 2, 10, d, 1).err(), Some(VqError::EmptyInput));
    let data = vec![vector(&[0.0, 0.0, 0.0, 0.0]), vector(&[1.0, 1.0, 1.0, 1.0]), vector(&[0.5, 0.5, 0.5, 0.5])];
    assert_eq!(
        ProductQuantizer::fit(&data, 5, 2, 10, d, 1).err(),
        Some(invalid_parameter("Data dimension must be at least m"))
    );
    assert_eq!(
        ProductQuantizer::fit(&data, 3, 2, 10, d, 1).err(),
        Some(invalid_parameter("Data dimension must be divisible by m"))
    );
    assert_eq!(
        ProductQuantizer::fit(&data, 0, 2, 10, d, 1).err(),
        Some(invalid_parameter("Data dimension must be divisible by m"))
    );
    assert_eq!(
        ProductQuantizer::fit(&data, 2, 0, 10, d, 1).err(),
        Some(invalid_parameter("k must be greater than 0"))
    );
    assert_eq!(
        ProductQuantizer::fit(&data, 2, 4, 10, d, 1).err(),
        Some(invalid_parameter("Not enough data points for k clusters"))
    );
    let ragged = vec![vector(&[0.0, 0.0, 0.0, 0.0]), vector(&[1.0, 1.0])];
    assert_eq!(
        ProductQuantizer::fit(&ragged, 2, 1, 10, d, 1).err(),
        Some(VqError::DimensionMismatch { expected: 4, found: 2 })
    );
    let pq = ProductQuantizer::fit(&data, 2, 2, 10, d, 1).unwrap();
    assert_eq!(
        pq.quantize(&vector(&[0.2, 0.8, 0.3])).err(),
        Some(VqError::DimensionMismatch { expected: 4, found: 3 })
    );
    let odd = ProductQuantizer::fit(&data, 2, 2, 10, Distance::Minkowski(N(0.0)), 1).unwrap();
    assert_eq!(odd.quantize(&vector(&[0.2, 0.8, 0.3, 0.7])).err(), Some(invalid_minkowski()));
}

#[test]
fn product_quantizer_returns_training_rows_when_every_row_is_a_centroid() {
    let data = vec![vector(&[0.0, 0.0, 8.0, 8.0]), vector(&[4.0, 4.0, 0.0, 0.0])];
    let pq = ProductQuantizer::fit(&data, 2, 2, 10, Distance::SquaredEuclidean, 9).unwrap();
    let code = pq.quantize(&vector(&[3.0, 5.0, 7.0, 6.0])).unwrap();
    assert_eq!(decoded(&code), vec![4.0, 4.0, 8.0, 8.0]);
    let code = pq.quantize(&vector(&[0.5, -1.0, 1.0, 2.0])).unwrap();
    assert_eq!(decoded(&code), vec![0.0, 0.0, 0.0, 0.0]);
}

#[test]
fn encoding_takes_the_nearest_centroid_of_each_subspace() {
    let codebooks = vec![
        vec![vector(&[0.0, 0.0]), vector(&[10.0, 10.0])],
        vec![vector(&[1.0, 2.0]), vector(&[-1.0, -2.0]), vector(&[1.0, 2.0])],
    ];
    let d: Distance<E> = Distance::Manhattan;
    let code = encode(&d, &codebooks, 2, &elements(&[6.0, 7.0, -3.0, 0.0]));
    assert_eq!(plain(&code), vec![10.0, 10.0, -1.0, -2.0]);
    let code = encode(&d, &codebooks, 2, &elements(&[5.0, 5.0, 0.0, 0.0]));
    assert_eq!(plain(&code), vec![0.0, 0.0, 1.0, 2.0]);
    let reduced = reduce_vector(&elements(&[0.5, 1.0e-9, 65504.0, 1.0e6, 0.1]));
    assert_eq!(
        reduced.data,
        vec![
            f16::from_f32(0.5),
            f16::from_f32(0.0),
            f16::MAX,
            f16::INFINITY,
            f16::from_f32(0.1)
        ]
    );
    assert_ne!(f16::to_f32(reduced.data[4]), 0.1);
}

#[test]
fn subspaces_are_contiguous_slices() {
    let data = vec![vector(&[1.0, 2.0, 3.0, 4.0, 5.0, 6.0]), vector(&[7.0, 8.0, 9.0, 10.0, 11.0, 12.0])];
    assert_eq!(plain(&sub_vector(&elements(&[1.0, 2.0, 3.0, 4.0]), 1, 2)), vec![2.0, 3.0]);
    assert_eq!(sub_training(&data, 0, 2, 6), vec![vector(&[1.0, 2.0]), vector(&[7.0, 8.0])]);
    assert_eq!(sub_training(&data, 2, 2, 6), vec![vector(&[5.0, 6.0]), vector(&[11.0, 12.0])]);
    let codebooks = learn_codebooks(&data, 3, 2, 2, 0, 5).unwrap();
    assert_eq!(codebooks.len(), 3);
    for (i, codebook) in codebooks.iter().enumerate() {
        assert_eq!(codebook.len(), 2);
        for row in sub_training(&data, i, 2, 6) {
            assert!(codebook.contains(&row));
        }
    }
}

// --------------------------------------------- optimized product quantizer

#[test]
fn test_opq_dimension() {
    let mut rng = seeded_rng();
    let training_data = generate_test_data(&mut rng, 1000, 10);
    let m = 2;
    let k = 2;
    let max_iters = 50;
    let opq_iters = 5;
    let seed = 42;
    let opq = fit_opq(
        &training_data,
        m,
        k,
        max_iters,
        opq_iters,
        Distance::SquaredEuclidean,
        seed,
    )
    .unwrap();
    for vector in training_data.iter() {
        let quantized = opq.quantize(vector).unwrap();
        assert_eq!(
            quantized.len(),
            vector.len(),
            "Quantized vector length should match input dimension"
        );
    }
}

#[test]
fn test_opq_reconstruction_error() {
    let mut rng = seeded_rng();
    let training_data = generate_test_data(&mut rng, 1000, 10);
    let m = 2;
    let k = 2;
    let max_iters = 50;
    let opq_iters = 5;
    let seed = 42;
    let opq = fit_opq(
        &training_data,
        m,
        k,
        max_iters,
        opq_iters,
        Distance::SquaredEuclidean,
        seed,
    )
    .unwrap();
    for vector in training_data.iter() {
        let quantized = opq.quantize(vector).unwrap();
        let reconstructed: Vec<f32> = decoded(&quantized);
        let total_error: f32 = vector
            .data
            .iter()
            .zip(reconstructed.iter())
            .map(|(orig, recon)| (orig.0 - recon).abs())
            .sum();
        assert!(
            total_error.is_finite(),
            "Total reconstruction error {} is not finite",
            total_error
        );
    }
}

#[test]
fn opq_learns_an_orthogonal_rotation() {
    let mut rng = seeded_rng();
    let training_data = generate_test_data(&mut rng, 200, 4);
    let opq = fit_opq(&training_data, 2, 4, 20, 3, Distance::SquaredEuclidean, 5).unwrap();
    let rotation = opq.rotation_rows();
    assert_eq!(rotation.len(), 4);
    for i in 0..4 {
        for j in 0..4 {
            let dot = rotation[i].dot(&rotation[j]).unwrap().0;
            let expected = if i == j { 1.0 } else { 0.0 };
            assert!(approx_eq(dot, expected, 1e-4));
        }
    }
}

#[test]
fn opq_counts_its_rounds() {
    let mut rng = seeded_rng();
    let data = generate_test_data(&mut rng, 50, 4);
    let d: Distance<E> = Distance::SquaredEuclidean;
    let mut rounds = 0;
    let mut step = OptimizedProductQuantizer::fit(&data, 2, 2, 10, 3, d, 1).unwrap();
    let quantizer = loop {
        match step {
            OpqFit::Done(quantizer) => break quantizer,
            OpqFit::Solve(trainer) => {
                rounds += 1;
                let problem = trainer.cross_covariance();
                assert_eq!(check_square(problem, 4), Ok(()));
                let rotation = solve_rotation(problem);
                step = trainer.resume(rotation).unwrap();
            }
        }
    };
    assert_eq!(rounds, 3);
    assert_eq!(quantizer.quantize(&data[0]).unwrap().len(), 4);
}

#[test]
fn opq_without_rounds_keeps_the_identity_and_learns_codebooks() {
    let data = vec![vector(&[0.0, 0.0, 8.0, 8.0]), vector(&[4.0, 4.0, 0.0, 0.0])];
    let d: Distance<E> = Distance::SquaredEuclidean;
    let opq = match OptimizedProductQuantizer::fit(&data, 2, 2, 10, 0, d, 9).unwrap() {
        OpqFit::Done(quantizer) => quantizer,
        OpqFit::Solve(_) => panic!("no round was asked for"),
    };
    assert_eq!(opq.rotation_rows(), &identity::<E>(4));
    // Every training row is a centroid of each of its subspaces.
    let code = opq.quantize(&vector(&[3.0, 5.0, 7.0, 6.0])).unwrap();
    assert_eq!(code.len(), 4);
    assert_eq!(decoded(&code), vec![4.0, 4.0, 8.0, 8.0]);
    let code = opq.quantize(&vector(&[0.5, -1.0, 1.0, 2.0])).unwrap();
    assert_eq!(decoded(&code), vec![0.0, 0.0, 0.0, 0.0]);
    // The codebooks are those of the product quantizer on the same vectors.
    let pq = ProductQuantizer::fit(&data, 2, 2, 10, d, 9).unwrap();
    assert_eq!(
        opq.quantize(&vector(&[3.0, 1.0, 5.0, 6.0])).unwrap(),
        pq.quantize(&vector(&[3.0, 1.0, 5.0, 6.0])).unwrap()
    );
    assert_eq!(
        fit_opq(&data, 2, 0, 10, 0, d, 9).err(),
        Some(invalid_parameter("k must be greater than 0"))
    );
    assert_eq!(
        fit_opq(&data, 2, 3, 10, 0, d, 9).err(),
        Some(invalid_parameter("Not enough data points for k clusters"))
    );
}

#[test]
fn opq_parameters_are_checked() {
    let d: Distance<E> = Distance::Euclidean;
    let none: Vec<Vector<E>> = vec![];
    assert_eq!(fit_opq(&none, 2, 2, 10, 1, d, 1).err(), Some(VqError::EmptyInput));
    let data = vec![vector(&[0.0, 0.0, 0.0, 0.0]), vector(&[1.0, 1.0, 1.0, 1.0]), vector(&[0.5, 0.5, 0.5, 0.5])];
    assert_eq!(
        fit_opq(&data, 5, 2, 10, 1, d, 1).err(),
        Some(invalid_parameter("Dimension must be at least m"))
    );
    assert_eq!(
        fit_opq(&data, 3, 2, 10, 1, d, 1).err(),
        Some(invalid_parameter("Dimension must be divisible by m"))
    );
    assert_eq!(
        fit_opq(&data, 2, 0, 10, 1, d, 1).err(),
        Some(invalid_parameter("k must be greater than 0"))
    );
    assert_eq!(
        fit_opq(&data, 2, 4, 10, 1, d, 1).err(),
        Some(invalid_parameter("Not enough data points for k clusters"))
    );
    assert_eq!(
        fit_opq(&data, 2, 2, 10, 1, Distance::Minkowski(N(-1.0)), 1).err(),
        Some(invalid_minkowski())
    );
    // The number of centroids is looked at before the metric.
    assert_eq!(
        fit_opq(&data, 2, 0, 10, 1, Distance::Minkowski(N(-1.0)), 1).err(),
        Some(invalid_parameter("k must be greater than 0"))
    );
    let ragged = vec![vector(&[0.0, 0.0, 0.0, 0.0]), vector(&[1.0, 1.0])];
    assert_eq!(
        fit_opq(&ragged, 2, 1, 10, 1, d, 1).err(),
        Some(VqError::DimensionMismatch { expected: 4, found: 2 })
    );
    let opq = fit_opq(&data, 2, 2, 10, 2, d, 1).unwrap();
    assert_eq!(
        opq.quantize(&vector(&[1.0])).err(),
        Some(VqError::DimensionMismatch { expected: 4, found: 1 })
    );
}

#[test]
fn opq_rejects_a_rotation_of_the_wrong_shape() {
    let data = vec![vector(&[0.0, 1.0]), vector(&[1.0, 0.0]), vector(&[2.0, 2.0])];
    let d: Distance<E> = Distance::SquaredEuclidean;
    match OptimizedProductQuantizer::fit(&data, 1, 2, 5, 2, d, 1).unwrap() {
        OpqFit::Solve(trainer) => {
            let short = vec![vector(&[1.0, 0.0])];
            assert_eq!(
                trainer.resume(short).err(),
                Some(VqError::DimensionMismatch { expected: 2, found: 1 })
            );
        }
        OpqFit::Done(_) => panic!("a round was asked for"),
    }
    match OptimizedProductQuantizer::fit(&data, 1, 2, 5, 2, d, 1).unwrap() {
        OpqFit::Solve(trainer) => {
            let ragged = vec![vector(&[1.0, 0.0]), vector(&[0.0, 1.0, 0.0])];
            assert_eq!(
                trainer.resume(ragged).err(),
                Some(VqError::DimensionMismatch { expected: 2, found: 3 })
            );
        }
        OpqFit::Done(_) => panic!("a round was asked for"),
    }
}

#[test]
fn rotation_and_cross_covariance() {
    let quarter_turn = vec![vector(&[0.0, -1.0]), vector(&[1.0, 0.0])];
    assert_eq!(plain(&rotate(&quarter_turn, &elements(&[3.0, 4.0]))), vec![-4.0, 3.0]);
    let data = vec![vector(&[1.0, 0.0]), vector(&[2.0, 5.0])];
    assert_eq!(rotate_all(&quarter_turn, &data, 2), vec![vector(&[0.0, 1.0]), vector(&[-5.0, 2.0])]);
    assert_eq!(rotate_all(&identity::<E>(2), &data, 2), data);
    assert_eq!(identity::<E>(2), vec![vector(&[1.0, 0.0]), vector(&[0.0, 1.0])]);
    let y = vec![vector(&[1.0, 2.0]), vector(&[3.0, 4.0])];
    let x = vec![vector(&[5.0, 6.0]), vector(&[7.0, 8.0])];
    // Entry (i, j) is y[0][i] * x[0][j] + y[1][i] * x[1][j].
    assert_eq!(cross_covariance(&y, &x, 2), vec![vector(&[26.0, 30.0]), vector(&[38.0, 44.0])]);
    let codebooks = vec![vec![vector(&[0.0]), vector(&[4.0])], vec![vector(&[1.0]), vector(&[9.0])]];
    let d: Distance<E> = Distance::Euclidean;
    assert_eq!(
        reconstruct(&d, &codebooks, 1, &data),
        vec![vector(&[0.0, 1.0]), vector(&[0.0, 1.0])]
    );
    assert_eq!(check_square(&y, 2), Ok(()));
    assert_eq!(check_square(&y, 3), Err(VqError::DimensionMismatch { expected: 3, found: 2 }));
}

// ------------------------------------------------------ residual quantizer

#[test]
fn test_rvq_dimension() {
    let mut rng = seeded_rng();
    let training_data = generate_test_data(&mut rng, 1000, 10);
    let stages = 3;
    let k = 2;
    let max_iters = 50;
    let seed = 42;
    let rvq = ResidualQuantizer::fit(
        &training_data,
        stages,
        k,
        max_iters,
        N(10e-6),
        Distance::SquaredEuclidean,
        seed,
    )
    .unwrap();
    for vector in training_data.iter() {
        let quantized = rvq.quantize(vector).unwrap();
        assert_eq!(quantized.len(), vector.len());
    }
}

#[test]
fn test_rvq_reconstruction_error() {
    let mut rng = seeded_rng();
    let training_data = generate_test_data(&mut rng, 1000, 10);
    let stages = 3;
    let k = 2;
    let max_iters = 50;
    let seed = 42;
    let rvq = ResidualQuantizer::fit(
        &training_data,
        stages,
        k,
        max_iters,
        N(10e-6),
        Distance::SquaredEuclidean,
        seed,
    )
    .unwrap();
    for vector in training_data.iter() {
        let quantized = rvq.quantize(vector).unwrap();
        let reconstructed: Vec<f32> = decoded(&quantized);
        let total_error: f32 = vector
            .data
            .iter()
            .zip(reconstructed.iter())
            .map(|(a, b)| (a.0 - b).abs())
            .sum();
        assert!(total_error.is_finite());
    }
}

#[test]
fn rvq_stops_once_the_residuals_are_explained() {
    // With as many centroids as rows, the first stage explains every row.
    let data = vec![vector(&[1.0, 2.0]), vector(&[8.0, -4.0]), vector(&[0.5, 0.25])];
    let rvq = ResidualQuantizer::fit(&data, 4, 3, 10, N(0.01), Distance::Euclidean, 2).unwrap();
    assert_eq!(rvq.stages(), 1);
    for row in data.iter() {
        assert_eq!(decoded(&rvq.quantize(row).unwrap()), plain(&row.data));
    }
    // A threshold that nothing falls below keeps every stage.
    let all = ResidualQuantizer::fit(&data, 4, 3, 10, N(-1.0), Distance::Euclidean, 2).unwrap();
    assert_eq!(all.stages(), 4);
    let none = ResidualQuantizer::fit(&data, 0, 0, 10, N(0.01), Distance::Euclidean, 2).unwrap();
    assert_eq!(none.stages(), 0);
    assert_eq!(decoded(&none.quantize(&data[0]).unwrap()), vec![0.0, 0.0]);
}

#[test]
fn rvq_adds_one_centroid_of_each_stage() {
    let data = vec![vector(&[10.0]), vector(&[10.0]), vector(&[10.0])];
    // One centroid a stage: the mean 10, then the mean of the residuals, 0.
    let rvq = ResidualQuantizer::fit(&data, 2, 1, 5, N(-1.0), Distance::Euclidean, 2).unwrap();
    assert_eq!(rvq.stages(), 2);
    assert_eq!(decoded(&rvq.quantize(&vector(&[13.0])).unwrap()), vec![10.0]);
}

#[test]
fn rvq_parameters_are_checked() {
    let d: Distance<E> = Distance::Euclidean;
    let none: Vec<Vector<E>> = vec![];
    assert_eq!(
        ResidualQuantizer::fit(&none, 2, 2, 10, N(0.1), d, 1).err(),
        Some(VqError::EmptyInput)
    );
    let data = vec![vector(&[0.0, 0.0]), vector(&[1.0, 1.0])];
    assert_eq!(
        ResidualQuantizer::fit(&data, 2, 0, 10, N(0.1), d, 1).err(),
        Some(invalid_parameter("k must be greater than 0"))
    );
    assert_eq!(
        ResidualQuantizer::fit(&data, 2, 3, 10, N(0.1), d, 1).err(),
        Some(invalid_parameter("Not enough data points for k clusters"))
    );
    assert_eq!(
        ResidualQuantizer::fit(&data, 2, 2, 10, N(0.1), Distance::Minkowski(N(0.0)), 1).err(),
        Some(invalid_minkowski())
    );
    // The number of centroids is looked at before the metric.
    assert_eq!(
        ResidualQuantizer::fit(&data, 2, 3, 10, N(0.1), Distance::Minkowski(N(0.0)), 1).err(),
        Some(invalid_parameter("Not enough data points for k clusters"))
    );
    assert_eq!(
        ResidualQuantizer::fit(&data, 0, 3, 10, N(0.1), Distance::Minkowski(N(0.0)), 1).err(),
        Some(invalid_minkowski())
    );
    let ragged = vec![vector(&[0.0, 0.0]), vector(&[1.0])];
    assert_eq!(
        ResidualQuantizer::fit(&ragged, 2, 1, 10, N(0.1), d, 1).err(),
        Some(VqError::DimensionMismatch { expected: 2, found: 1 })
    );
    let rvq = ResidualQuantizer::fit(&data, 2, 2, 10, N(0.1), d, 1).unwrap();
    assert_eq!(
        rvq.quantize(&vector(&[1.0, 2.0, 3.0])).err(),
        Some(VqError::DimensionMismatch { expected: 2, found: 3 })
    );
}

#[test]
fn residual_steps() {
    let codebook = vec![vector(&[0.0, 0.0]), vector(&[4.0, 4.0])];
    let residuals = vec![vector(&[1.0, 0.0]), vector(&[5.0, 3.0]), vector(&[2.0, 2.0])];
    let d: Distance<E> = Distance::SquaredEuclidean;
    assert_eq!(pick_centroid(&d, &codebook, &elements(&[5.0, 3.0])), 1);
    assert_eq!(pick_centroid(&d, &codebook[..1], &elements(&[5.0, 3.0])), 0);
    assert_eq!(
        peel(&d, &codebook, &residuals, 2),
        vec![vector(&[1.0, 0.0]), vector(&[1.0, -1.0]), vector(&[2.0, 2.0])]
    );
    assert_eq!(mean_norm(&vec![vector(&[3.0, 4.0]), vector(&[0.0, 0.0]), vector(&[6.0, 8.0])]), N(5.0));
    assert_eq!(copy_vectors(&residuals), residuals);
}

// ------------------------------------------------------------------ TSVQ

#[test]
fn test_tsvq_on_identical_vectors() {
    let training_vector = vector(&[1.0, 2.0, 3.0, 4.0, 5.0]);
    let training_data = vec![training_vector.clone(); 10];
    let max_depth = 3;
    let tsvq = TSVQ::new(&training_data, max_depth, Distance::SquaredEuclidean).unwrap();
    let quantized = tsvq.quantize(&training_vector).unwrap();
    assert_eq!(quantized.len(), training_vector.len());
    let reconstructed: Vec<f32> = decoded(&quantized);
    for (orig, recon) in training_vector.data.iter().zip(reconstructed.iter()) {
        assert!((orig.0 - recon).abs() < 1e-6);
    }
}

#[test]
fn test_tsvq_on_random_vectors() {
    let mut rng = seeded_rng();
    let training_data = generate_test_data(&mut rng, 1000, 10);
    let max_depth = 3;
    let tsvq = TSVQ::new(&training_data, max_depth, Distance::SquaredEuclidean).unwrap();
    for vector in training_data.iter() {
        let quantized = tsvq.quantize(vector).unwrap();
        assert_eq!(quantized.len(), vector.len());
        let reconstructed: Vec<f32> = decoded(&quantized);
        let total_error: f32 = vector
            .data
            .iter()
            .zip(reconstructed.iter())
            .map(|(a, b)| (a.0 - b).abs())
            .sum();
        assert!(total_error.is_finite());
    }
}

#[test]
fn tsvq_of_identical_vectors_is_a_single_leaf() {
    let training_data = vec![vector(&[1.0, 2.0, 3.0, 4.0, 5.0]); 10];
    let tsvq = TSVQ::new(&training_data, 3, Distance::SquaredEuclidean).unwrap();
    assert!(tsvq.root().is_leaf());
    assert_eq!(tsvq.root().centroid(), &vector(&[1.0, 2.0, 3.0, 4.0, 5.0]));
}

#[test]
fn tsvq_splits_at_the_median_of_the_widest_dimension() {
    let data = vec![
        vector(&[0.0, 7.0]),
        vector(&[11.0, 7.5]),
        vector(&[1.0, 7.0]),
        vector(&[10.0, 7.5]),
    ];
    let tsvq = TSVQ::new(&data, 1, Distance::Euclidean).unwrap();
    assert!(!tsvq.root().is_leaf());
    assert_eq!(tsvq.root().centroid(), &vector(&[5.5, 7.25]));
    // The median of dimension 0 is 5.5: rows 0 and 2 go left, rows 1 and 3 right.
    assert_eq!(decoded(&tsvq.quantize(&vector(&[2.0, 7.0])).unwrap()), vec![0.5, 7.0]);
    assert_eq!(decoded(&tsvq.quantize(&vector(&[9.0, 0.0])).unwrap()), vec![10.5, 7.5]);
    // Equally far from both children: the left one is taken.
    assert_eq!(decoded(&tsvq.quantize(&vector(&[5.5, 7.25])).unwrap()), vec![0.5, 7.0]);
    let node = TSVQNode::fit(&data, 1).unwrap();
    let d: Distance<E> = Distance::Euclidean;
    let leaf = node.quantize_with_distance(&vector(&[9.0, 0.0]), &d).unwrap();
    assert!(leaf.is_leaf());
    assert_eq!(leaf.centroid(), &vector(&[10.5, 7.5]));
    assert_eq!(tsvq.distance().is_valid(), true);
    let stump = TSVQ::new(&data, 0, Distance::Euclidean).unwrap();
    assert!(stump.root().is_leaf());
    assert_eq!(decoded(&stump.quantize(&vector(&[9.0, 0.0])).unwrap()), vec![5.5, 7.25]);
}

#[test]
fn tsvq_parameters_are_checked() {
    let d: Distance<E> = Distance::Euclidean;
    let none: Vec<Vector<E>> = vec![];
    assert_eq!(TSVQ::new(&none, 3, d).err(), Some(VqError::EmptyInput));
    assert_eq!(TSVQNode::fit(&none, 3).err(), Some(VqError::EmptyInput));
    let ragged = vec![vector(&[0.0, 0.0]), vector(&[1.0])];
    assert_eq!(
        TSVQ::new(&ragged, 3, d).err(),
        Some(VqError::DimensionMismatch { expected: 2, found: 1 })
    );
    let data = vec![vector(&[0.0, 0.0]), vector(&[1.0, 1.0])];
    let tsvq = TSVQ::new(&data, 3, d).unwrap();
    assert_eq!(
        tsvq.quantize(&vector(&[1.0])).err(),
        Some(VqError::DimensionMismatch { expected: 2, found: 1 })
    );
    let odd = TSVQ::new(&data, 3, Distance::Minkowski(N(0.0))).unwrap();
    assert_eq!(odd.quantize(&vector(&[1.0, 1.0])).err(), Some(invalid_minkowski()));
}

#[test]
fn medians_orders_and_sides() {
    assert_eq!(plain(&insertion_sort(&elements(&[3.0, 1.0, 2.0, 1.0, -5.0]))), vec![-5.0, 1.0, 1.0, 2.0, 3.0]);
    assert_eq!(plain(&insertion_sort(&elements(&[]))), Vec::<f32>::new());
    assert_eq!(median(&elements(&[3.0, 1.0, 2.0])), N(2.0));
    assert_eq!(median(&elements(&[4.0, 1.0, 3.0, 2.0])), N(2.5));
    assert_eq!(median(&elements(&[9.0])), N(9.0));
    // Of equal largest values the last is taken.
    assert_eq!(argmax(&elements(&[1.0, 7.0, 3.0, 7.0, 2.0])), 3);
    assert_eq!(argmax(&elements(&[8.0, 7.0])), 0);
    let data = vec![vector(&[1.0, 10.0]), vector(&[3.0, 10.0]), vector(&[5.0, 40.0])];
    assert_eq!(plain(&column_of(&data, 1, 2)), vec![10.0, 10.0, 40.0]);
    assert_eq!(plain(&spreads(&data, &vector(&[3.0, 20.0]), 2)), vec![8.0, 600.0]);
    assert_eq!(side(&data, 0, N(3.0), true, 2), vec![vector(&[1.0, 10.0]), vector(&[3.0, 10.0])]);
    assert_eq!(side(&data, 0, N(3.0), false, 2), vec![vector(&[5.0, 40.0])]);
}
