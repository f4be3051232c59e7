//! Distances and dissimilarities between two buffers of one length.

use crate::exceptions::VqError;
use crate::vector::{distance2_spec, dot_spec, sub_spec, Real};
use vstd::prelude::*;

verus! {

/// What a metric makes of one pair of elements before it reduces over the pairs.
#[derive(Debug, Clone, Copy)]
pub enum Pairing<T> {
    /// `(x - y) * (x - y)`
    SquaredDifference,
    /// `x * y`
    Product,
    /// `|x - y|`
    AbsoluteDifference,
    /// `|x - y|` raised to the given power
    PoweredDifference(T),
    /// zero where the two are equal, one where they are not
    Mismatch,
}

impl<T: Real> Pairing<T> {
    /// What the pairing makes of `x` and `y`.
    pub open spec fn apply_spec(self, x: T, y: T) -> T {
        match self {
            Pairing::SquaredDifference => x.sub_spec(y).mul_spec(x.sub_spec(y)),
            Pairing::Product => x.mul_spec(y),
            Pairing::AbsoluteDifference => x.sub_spec(y).abs_spec(),
            Pairing::PoweredDifference(p) => x.sub_spec(y).abs_spec().powf_spec(p),
            Pairing::Mismatch => if x.eq_spec(y) {
                T::zero_spec()
            } else {
                T::one_spec()
            },
        }
    }

    /// The pairing of `x` with `y`.
    pub fn apply(&self, x: T, y: T) -> (r: T)
        ensures
            r == self.apply_spec(x, y),
    {
        match self {
            Pairing::SquaredDifference => {
                let diff = x.sub(y);
                diff.mul(diff)
            },
            Pairing::Product => x.mul(y),
            Pairing::AbsoluteDifference => x.sub(y).abs(),
            Pairing::PoweredDifference(p) => x.sub(y).abs().powf(*p),
            Pairing::Mismatch => if x.eq(y) {
                T::zero()
            } else {
                T::one()
            },
        }
    }
}

/// The pairings of `a[i]` with `b[i]`, summed from the left, starting from zero.
pub open spec fn zip_sum_spec<T: Real>(f: Pairing<T>, a: Seq<T>, b: Seq<T>) -> T
    decreases a.len(),
{
    if a.len() == 0 {
        T::zero_spec()
    } else {
        zip_sum_spec(f, a.drop_last(), b.take(a.len() - 1)).add_spec(
            f.apply_spec(a.last(), b[a.len() - 1]),
        )
    }
}

/// The larger of the running maximum and the next value; the running maximum
/// stays unless it is strictly less.
pub open spec fn max_spec<T: Real>(acc: T, val: T) -> T {
    if acc.lt_spec(val) {
        val
    } else {
        acc
    }
}

/// The largest pairing of `a[i]` with `b[i]`, taken from the left, starting from zero.
pub open spec fn zip_max_spec<T: Real>(f: Pairing<T>, a: Seq<T>, b: Seq<T>) -> T
    decreases a.len(),
{
    if a.len() == 0 {
        T::zero_spec()
    } else {
        max_spec(
            zip_max_spec(f, a.drop_last(), b.take(a.len() - 1)),
            f.apply_spec(a.last(), b[a.len() - 1]),
        )
    }
}

/// The squares of the elements, summed from the left, starting from zero.
pub open spec fn map_sum_spec<T: Real>(a: Seq<T>) -> T {
    zip_sum_spec(Pairing::Product, a, a)
}

proof fn lemma_zip_sum_step<T: Real>(f: Pairing<T>, a: Seq<T>, b: Seq<T>, i: int)
    requires
        0 <= i < a.len(),
        i < b.len(),
    ensures
        zip_sum_spec(f, a.take(i + 1), b.take(i + 1)) == zip_sum_spec(
            f,
            a.take(i),
            b.take(i),
        ).add_spec(f.apply_spec(a[i], b[i])),
{
    assert(a.take(i + 1).drop_last() =~= a.take(i));
    assert(b.take(i + 1).take(i) =~= b.take(i));
}

proof fn lemma_zip_max_step<T: Real>(f: Pairing<T>, a: Seq<T>, b: Seq<T>, i: int)
    requires
        0 <= i < a.len(),
        i < b.len(),
    ensures
        zip_max_spec(f, a.take(i + 1), b.take(i + 1)) == max_spec(
            zip_max_spec(f, a.take(i), b.take(i)),
            f.apply_spec(a[i], b[i]),
        ),
{
    assert(a.take(i + 1).drop_last() =~= a.take(i));
    assert(b.take(i + 1).take(i) =~= b.take(i));
}

/// Sums the pairings of two slices of one length.
pub fn zip_map_sum<T: Real>(a: &[T], b: &[T], f: Pairing<T>) -> (r: T)
    requires
        a@.len() == b@.len(),
    ensures
        r == zip_sum_spec(f, a@, b@),
{
    let mut acc = T::zero();
    let mut i: usize = 0;
    while i < a.len()
        invariant
            i <= a@.len(),
            a@.len() == b@.len(),
            acc == zip_sum_spec(f, a@.take(i as int), b@.take(i as int)),
        decreases a@.len() - i,
    {
        proof {
            lemma_zip_sum_step(f, a@, b@, i as int);
        }
        acc = acc.add(f.apply(a[i], b[i]));
        i = i + 1;
    }
    proof {
        assert(a@.take(a@.len() as int) =~= a@);
        assert(b@.take(a@.len() as int) =~= b@);
    }
    acc
}

/// Takes the largest pairing of two slices of one length.
pub fn zip_map_max<T: Real>(a: &[T], b: &[T], f: Pairing<T>) -> (r: T)
    requires
        a@.len() == b@.len(),
    ensures
        r == zip_max_spec(f, a@, b@),
{
    let mut acc = T::zero();
    let mut i: usize = 0;
    while i < a.len()
        invariant
            i <= a@.len(),
            a@.len() == b@.len(),
            acc == zip_max_spec(f, a@.take(i as int), b@.take(i as int)),
        decreases a@.len() - i,
    {
        proof {
            lemma_zip_max_step(f, a@, b@, i as int);
        }
        let val = f.apply(a[i], b[i]);
        if acc.lt(val) {
            acc = val;
        }
        i = i + 1;
    }
    proof {
        assert(a@.take(a@.len() as int) =~= a@);
        assert(b@.take(a@.len() as int) =~= b@);
    }
    acc
}

/// Sums the squares of a slice.
pub fn map_sum<T: Real>(a: &[T]) -> (r: T)
    ensures
        r == map_sum_spec(a@),
{
    zip_map_sum(a, a, Pairing::Product)
}

/// The available metrics. Only `Minkowski` carries a parameter, its order.
#[derive(Debug, Clone, Copy)]
pub enum Distance<T> {
    /// The sum of the squared differences.
    SquaredEuclidean,
    /// The square root of the sum of the squared differences.
    Euclidean,
    /// One minus the cosine similarity; one where either operand has zero norm.
    CosineDistance,
    /// The sum of the absolute differences.
    Manhattan,
    /// The largest absolute difference.
    Chebyshev,
    /// The generalized distance of the given order, which must be positive.
    Minkowski(T),
    /// The number of positions at which the operands differ.
    Hamming,
}

/// What each metric computes on two sequences of one length.
pub open spec fn distance_spec<T: Real>(d: Distance<T>, a: Seq<T>, b: Seq<T>) -> T {
    match d {
        Distance::SquaredEuclidean => zip_sum_spec(Pairing::SquaredDifference, a, b),
        Distance::Euclidean => zip_sum_spec(Pairing::SquaredDifference, a, b).sqrt_spec(),
        Distance::CosineDistance => {
            let dot = zip_sum_spec(Pairing::Product, a, b);
            let norm_a = map_sum_spec(a).sqrt_spec();
            let norm_b = map_sum_spec(b).sqrt_spec();
            if norm_a.eq_spec(T::zero_spec()) || norm_b.eq_spec(T::zero_spec()) {
                T::one_spec()
            } else {
                T::one_spec().sub_spec(dot.div_spec(norm_a.mul_spec(norm_b)))
            }
        },
        Distance::Manhattan => zip_sum_spec(Pairing::AbsoluteDifference, a, b),
        Distance::Chebyshev => zip_max_spec(Pairing::AbsoluteDifference, a, b),
        Distance::Minkowski(p) => zip_sum_spec(Pairing::PoweredDifference(p), a, b).powf_spec(
            T::one_spec().div_spec(p),
        ),
        Distance::Hamming => zip_sum_spec(Pairing::Mismatch, a, b),
    }
}

impl<T: Real> Distance<T> {
    /// The metric's parameter is acceptable: a Minkowski order is not at or below zero.
    pub open spec fn valid(self) -> bool {
        match self {
            Distance::Minkowski(p) => !p.le_spec(T::zero_spec()),
            _ => true,
        }
    }

    /// The pairing that the metric reduces over, for the metrics that reduce over one.
    pub open spec fn pairing(self) -> Pairing<T> {
        match self {
            Distance::SquaredEuclidean => Pairing::SquaredDifference,
            Distance::Euclidean => Pairing::SquaredDifference,
            Distance::CosineDistance => Pairing::Product,
            Distance::Manhattan => Pairing::AbsoluteDifference,
            Distance::Chebyshev => Pairing::AbsoluteDifference,
            Distance::Minkowski(p) => Pairing::PoweredDifference(p),
            Distance::Hamming => Pairing::Mismatch,
        }
    }

    /// Whether the metric's parameter is acceptable.
    pub fn is_valid(&self) -> (r: bool)
        ensures
            r == self.valid(),
    {
        match self {
            Distance::Minkowski(p) => !p.le(T::zero()),
            _ => true,
        }
    }

    /// The distance between two slices of one length under a valid metric.
    pub fn measure(&self, a: &[T], b: &[T]) -> (r: T)
        requires
            a@.len() == b@.len(),
        ensures
            r == distance_spec(*self, a@, b@),
    {
        match self {
            Distance::SquaredEuclidean => zip_map_sum(a, b, Pairing::SquaredDifference),
            Distance::Euclidean => zip_map_sum(a, b, Pairing::SquaredDifference).sqrt(),
            Distance::CosineDistance => {
                let dot = zip_map_sum(a, b, Pairing::Product);
                let norm_a = map_sum(a).sqrt();
                let norm_b = map_sum(b).sqrt();
                if norm_a.eq(T::zero()) || norm_b.eq(T::zero()) {
                    T::one()
                } else {
                    T::one().sub(dot.div(norm_a.mul(norm_b)))
                }
            },
            Distance::Manhattan => zip_map_sum(a, b, Pairing::AbsoluteDifference),
            Distance::Chebyshev => zip_map_max(a, b, Pairing::AbsoluteDifference),
            Distance::Minkowski(p) => {
                let sum = zip_map_sum(a, b, Pairing::PoweredDifference(*p));
                sum.powf(T::one().div(*p))
            },
            Distance::Hamming => zip_map_sum(a, b, Pairing::Mismatch),
        }
    }

    /// The distance between `a` and `b`.
    ///
    /// Fails with `DimensionMismatch` where the lengths differ, and otherwise
    /// with `InvalidMetricParameter` where a Minkowski order is not positive.
    pub fn compute(&self, a: &[T], b: &[T]) -> (r: Result<T, VqError>)
        ensures
            a@.len() != b@.len() ==> r == Err::<T, VqError>(
                VqError::DimensionMismatch { expected: a@.len() as usize, found: b@.len() as usize },
            ),
            a@.len() == b@.len() && !self.valid() ==> (r matches Err(e)
                && e.is_invalid_metric_parameter("Minkowski"@, "p must be positive"@)),
            a@.len() == b@.len() && self.valid() ==> r == Ok::<T, VqError>(
                distance_spec(*self, a@, b@),
            ),
    {
        if a.len() != b.len() {
            return Err(VqError::DimensionMismatch { expected: a.len(), found: b.len() });
        }
        if !self.is_valid() {
            return Err(VqError::invalid_metric_parameter("Minkowski", "p must be positive"));
        }
        Ok(self.measure(a, b))
    }
}

/// The pairing gives one result whichever operand comes first.
pub open spec fn symmetric_on<T: Real>(f: Pairing<T>, a: Seq<T>, b: Seq<T>) -> bool {
    forall|i: int| 0 <= i < a.len() ==> f.apply_spec(#[trigger] a[i], b[i]) == f.apply_spec(b[i], a[i])
}

/// The pairing of each element with itself is zero, and zero added to zero is zero.
pub open spec fn vanishes_on<T: Real>(f: Pairing<T>, a: Seq<T>) -> bool {
    &&& T::zero_spec().add_spec(T::zero_spec()) == T::zero_spec()
    &&& forall|i: int| 0 <= i < a.len() ==> f.apply_spec(#[trigger] a[i], a[i]) == T::zero_spec()
}

proof fn lemma_zip_sum_symmetric<T: Real>(f: Pairing<T>, a: Seq<T>, b: Seq<T>)
    requires
        a.len() == b.len(),
        symmetric_on(f, a, b),
    ensures
        zip_sum_spec(f, a, b) == zip_sum_spec(f, b, a),
    decreases a.len(),
{
    if a.len() > 0 {
        let n = a.len() - 1;
        assert(a.drop_last() =~= a.take(n));
        assert(b.drop_last() =~= b.take(n));
        assert(symmetric_on(f, a.take(n), b.take(n))) by {
            assert forall|i: int| 0 <= i < n implies f.apply_spec(
                #[trigger] a.take(n)[i],
                b.take(n)[i],
            ) == f.apply_spec(b.take(n)[i], a.take(n)[i]) by {
                assert(f.apply_spec(a[i], b[i]) == f.apply_spec(b[i], a[i]));
            }
        }
        lemma_zip_sum_symmetric(f, a.take(n), b.take(n));
        assert(f.apply_spec(a[n], b[n]) == f.apply_spec(b[n], a[n]));
    }
}

proof fn lemma_zip_max_symmetric<T: Real>(f: Pairing<T>, a: Seq<T>, b: Seq<T>)
    requires
        a.len() == b.len(),
        symmetric_on(f, a, b),
    ensures
        zip_max_spec(f, a, b) == zip_max_spec(f, b, a),
    decreases a.len(),
{
    if a.len() > 0 {
        let n = a.len() - 1;
        assert(a.drop_last() =~= a.take(n));
        assert(b.drop_last() =~= b.take(n));
        assert(symmetric_on(f, a.take(n), b.take(n))) by {
            assert forall|i: int| 0 <= i < n implies f.apply_spec(
                #[trigger] a.take(n)[i],
                b.take(n)[i],
            ) == f.apply_spec(b.take(n)[i], a.take(n)[i]) by {
                assert(f.apply_spec(a[i], b[i]) == f.apply_spec(b[i], a[i]));
            }
        }
        lemma_zip_max_symmetric(f, a.take(n), b.take(n));
        assert(f.apply_spec(a[n], b[n]) == f.apply_spec(b[n], a[n]));
    }
}

proof fn lemma_zip_sum_vanishes<T: Real>(f: Pairing<T>, a: Seq<T>)
    requires
        vanishes_on(f, a),
    ensures
        zip_sum_spec(f, a, a) == T::zero_spec(),
    decreases a.len(),
{
    if a.len() > 0 {
        let n = a.len() - 1;
        assert(a.drop_last() =~= a.take(n));
        assert(vanishes_on(f, a.take(n))) by {
            assert forall|i: int| 0 <= i < n implies f.apply_spec(
                #[trigger] a.take(n)[i],
                a.take(n)[i],
            ) == T::zero_spec() by {
                assert(f.apply_spec(a[i], a[i]) == T::zero_spec());
            }
        }
        lemma_zip_sum_vanishes(f, a.take(n));
        assert(f.apply_spec(a[n], a[n]) == T::zero_spec());
    }
}

proof fn lemma_zip_max_vanishes<T: Real>(f: Pairing<T>, a: Seq<T>)
    requires
        vanishes_on(f, a),
    ensures
        zip_max_spec(f, a, a) == T::zero_spec(),
    decreases a.len(),
{
    if a.len() > 0 {
        let n = a.len() - 1;
        assert(a.drop_last() =~= a.take(n));
        assert(vanishes_on(f, a.take(n))) by {
            assert forall|i: int| 0 <= i < n implies f.apply_spec(
                #[trigger] a.take(n)[i],
                a.take(n)[i],
            ) == T::zero_spec() by {
                assert(f.apply_spec(a[i], a[i]) == T::zero_spec());
            }
        }
        lemma_zip_max_vanishes(f, a.take(n));
        assert(f.apply_spec(a[n], a[n]) == T::zero_spec());
    }
}

/// The squared distance of two vectors, taken as the dot product of their
/// difference with itself, is their squared-Euclidean distance.
pub proof fn lemma_distance2_is_squared_euclidean<T: Real>(a: Seq<T>, b: Seq<T>)
    requires
        a.len() == b.len(),
    ensures
        distance2_spec(a, b) == distance_spec(Distance::SquaredEuclidean, a, b),
    decreases a.len(),
{
    if a.len() > 0 {
        let n = a.len() - 1;
        let diff = sub_spec(a, b);
        lemma_distance2_is_squared_euclidean(a.drop_last(), b.drop_last());
        assert(diff.drop_last() =~= sub_spec(a.drop_last(), b.drop_last()));
        assert(diff.take(n) =~= sub_spec(a.drop_last(), b.drop_last()));
        assert(b.take(n) =~= b.drop_last());
        assert(diff.last() == a.last().sub_spec(b[n]));
        assert(dot_spec(diff, diff) == dot_spec(diff.drop_last(), diff.take(n)).add_spec(
            diff.last().mul_spec(diff[n]),
        ));
    }
}

/// Symmetry: under the squared-Euclidean, Euclidean, Manhattan, Chebyshev and
/// Hamming metrics the distance from `a` to `b` is the distance from `b` to
/// `a`, wherever the metric's pairing of each two elements does not depend on
/// their order.
pub proof fn lemma_distance_symmetric<T: Real>(d: Distance<T>, a: Seq<T>, b: Seq<T>)
    requires
        a.len() == b.len(),
        d is SquaredEuclidean || d is Euclidean || d is Manhattan || d is Chebyshev || d is Hamming,
        symmetric_on(d.pairing(), a, b),
    ensures
        distance_spec(d, a, b) == distance_spec(d, b, a),
{
    lemma_zip_sum_symmetric(d.pairing(), a, b);
    lemma_zip_max_symmetric(d.pairing(), a, b);
}

/// Identity: the distance from `a` to itself is zero under every metric but the
/// cosine distance, wherever the metric's pairing of each element with itself
/// is zero, zero added to zero is zero, and the root that the Euclidean and
/// Minkowski metrics take of zero is zero.
pub proof fn lemma_distance_to_self<T: Real>(d: Distance<T>, a: Seq<T>)
    requires
        !(d is CosineDistance),
        vanishes_on(d.pairing(), a),
        d is Euclidean ==> T::zero_spec().sqrt_spec() == T::zero_spec(),
        d matches Distance::Minkowski(p) ==> T::zero_spec().powf_spec(T::one_spec().div_spec(p))
            == T::zero_spec(),
    ensures
        distance_spec(d, a, a) == T::zero_spec(),
{
    lemma_zip_sum_vanishes(d.pairing(), a);
    lemma_zip_max_vanishes(d.pairing(), a);
}

} // verus!
