//! The residual quantizer: a chain of codebooks, each learned on what the
//! stages before it left unexplained.

use crate::distances::{map_sum, map_sum_spec, Distance};
use crate::exceptions::VqError;
use crate::pq::{books, books_fit, books_hold, reduce_all, reduce_vector};
use crate::utils::{distances_to, lbg_quantize, lbg_result, nearest, nearest_spec};
use crate::vector::{
    add_slices, add_spec, common_dimension, copy_slice, is_first_mismatch, rows, sub_slices,
    sub_spec, uniform, zeros, zeros_spec, Real, Vector,
};
use vstd::prelude::*;

verus! {

/// What is left of `residual` once the nearest centroid of `book` is taken off.
pub open spec fn peel_spec<T: Real>(d: Distance<T>, book: Seq<Seq<T>>, residual: Seq<T>) -> Seq<T> {
    sub_spec(residual, book[nearest_spec(d, residual, book)])
}

/// Every residual peeled by `book`.
pub open spec fn peel_rows<T: Real>(d: Distance<T>, book: Seq<Seq<T>>, residuals: Seq<Seq<T>>) -> Seq<
    Seq<T>,
> {
    Seq::new(residuals.len(), |i: int| peel_spec(d, book, residuals[i]))
}

/// The residuals of `data` after the first `stage` codebooks.
pub open spec fn residuals_after<T: Real>(
    d: Distance<T>,
    books: Seq<Seq<Seq<T>>>,
    data: Seq<Seq<T>>,
    stage: nat,
) -> Seq<Seq<T>>
    decreases stage,
{
    if stage == 0 {
        data
    } else {
        peel_rows(d, books[stage - 1], residuals_after(d, books, data, (stage - 1) as nat))
    }
}

/// The Euclidean norm as the quantizer takes it: the root of the sum of squares.
pub open spec fn norm_of<T: Real>(r: Seq<T>) -> T {
    map_sum_spec(r).sqrt_spec()
}

/// The norms of the rows, summed from the first row on, starting from zero.
pub open spec fn norm_sum<T: Real>(rows: Seq<Seq<T>>) -> T
    decreases rows.len(),
{
    if rows.len() == 0 {
        T::zero_spec()
    } else {
        norm_sum(rows.drop_last()).add_spec(norm_of(rows.last()))
    }
}

/// The mean norm of the rows.
pub open spec fn mean_norm_spec<T: Real>(rows: Seq<Seq<T>>) -> T {
    norm_sum(rows).div_spec(T::from_usize_spec(rows.len() as usize))
}

/// `books` is what fitting leaves: each codebook is learned on the residuals
/// of the stages before it, and stages are added until `stages` of them
/// stand or the mean residual norm has fallen below `epsilon`.
pub open spec fn trained<T: Real>(
    books: Seq<Seq<Seq<T>>>,
    data: Seq<Seq<T>>,
    stages: int,
    k: int,
    max_iters: nat,
    epsilon: T,
    d: Distance<T>,
) -> bool {
    &&& books.len() <= stages
    &&& forall|s: int|
        0 <= s < books.len() ==> lbg_result(
            #[trigger] books[s],
            residuals_after(d, books, data, s as nat),
            k,
            max_iters,
        )
    &&& forall|s: int|
        0 < s < books.len() ==> !mean_norm_spec(
            #[trigger] residuals_after(d, books, data, s as nat),
        ).lt_spec(epsilon)
    &&& books.len() < stages ==> books.len() > 0 && mean_norm_spec(
        residuals_after(d, books, data, books.len()),
    ).lt_spec(epsilon)
}

/// The sum of the centroids chosen from stage `stage` on, added to `sum`:
/// each stage takes the centroid nearest to the residual, and the chain ends
/// early once the residual's norm has fallen below `epsilon`.
pub open spec fn approximate_spec<T: Real>(
    d: Distance<T>,
    books: Seq<Seq<Seq<T>>>,
    epsilon: T,
    residual: Seq<T>,
    sum: Seq<T>,
    stage: int,
) -> Seq<T>
    decreases books.len() - stage,
{
    if stage < 0 || stage >= books.len() {
        sum
    } else {
        let chosen = books[stage][nearest_spec(d, residual, books[stage])];
        let next_sum = add_spec(sum, chosen);
        let next_residual = sub_spec(residual, chosen);
        if norm_of(next_residual).lt_spec(epsilon) {
            next_sum
        } else {
            approximate_spec(d, books, epsilon, next_residual, next_sum, stage + 1)
        }
    }
}

proof fn lemma_residuals_prefix<T: Real>(
    d: Distance<T>,
    short: Seq<Seq<Seq<T>>>,
    long: Seq<Seq<Seq<T>>>,
    data: Seq<Seq<T>>,
    stage: nat,
)
    requires
        stage <= short.len() <= long.len(),
        forall|s: int| 0 <= s < short.len() ==> long[s] == short[s],
    ensures
        residuals_after(d, long, data, stage) == residuals_after(d, short, data, stage),
    decreases stage,
{
    if stage > 0 {
        lemma_residuals_prefix(d, short, long, data, (stage - 1) as nat);
    }
}

/// The index of the centroid of `codebook` nearest to `residual`; a codebook
/// of one centroid is not searched.
pub fn pick_centroid<T: Real>(d: &Distance<T>, codebook: &[Vector<T>], residual: &[T]) -> (best: usize)
    requires
        codebook@.len() > 0,
        uniform(rows(codebook@), residual@.len() as int),
    ensures
        best == nearest_spec(*d, residual@, rows(codebook@)),
        best < codebook@.len(),
{
    if codebook.len() < 2 {
        assert(distances_to(*d, residual@, rows(codebook@)).len() == 1);
        0
    } else {
        nearest(d, residual, codebook)
    }
}

/// Takes from every residual the centroid of `codebook` nearest to it.
pub fn peel<T: Real>(d: &Distance<T>, codebook: &[Vector<T>], residuals: &[Vector<T>], dim: usize) -> (out:
    Vec<Vector<T>>)
    requires
        codebook@.len() > 0,
        uniform(rows(codebook@), dim as int),
        uniform(rows(residuals@), dim as int),
    ensures
        rows(out@) == peel_rows(*d, rows(codebook@), rows(residuals@)),
        out@.len() == residuals@.len(),
        uniform(rows(out@), dim as int),
{
    let mut out: Vec<Vector<T>> = Vec::new();
    let mut i: usize = 0;
    while i < residuals.len()
        invariant
            i <= residuals@.len(),
            codebook@.len() > 0,
            uniform(rows(codebook@), dim as int),
            uniform(rows(residuals@), dim as int),
            out@.len() == i,
            forall|j: int|
                0 <= j < i ==> (#[trigger] out@[j])@ == peel_spec(
                    *d,
                    rows(codebook@),
                    residuals@[j]@,
                ),
            forall|j: int| 0 <= j < i ==> (#[trigger] out@[j])@.len() == dim,
        decreases residuals@.len() - i,
    {
        assert(rows(residuals@)[i as int] == residuals@[i as int]@);
        let residual = &residuals[i];
        let best = pick_centroid(d, codebook, residual.data());
        assert(rows(codebook@)[best as int] == codebook@[best as int]@);
        let rest = sub_slices(residual.data(), codebook[best].data());
        out.push(Vector::new(rest));
        i = i + 1;
    }
    proof {
        assert(rows(out@) =~= peel_rows(*d, rows(codebook@), rows(residuals@)));
    }
    out
}

/// The mean of the Euclidean norms of the rows.
pub fn mean_norm<T: Real>(vectors: &[Vector<T>]) -> (mean: T)
    ensures
        mean == mean_norm_spec(rows(vectors@)),
{
    let ghost all = rows(vectors@);
    let mut sum = T::zero();
    let mut i: usize = 0;
    while i < vectors.len()
        invariant
            i <= vectors@.len(),
            all == rows(vectors@),
            sum == norm_sum(all.take(i as int)),
        decreases vectors@.len() - i,
    {
        proof {
            assert(all.take(i + 1).drop_last() =~= all.take(i as int));
            assert(all.take(i + 1).last() == vectors@[i as int]@);
        }
        sum = sum.add(map_sum(vectors[i].data()).sqrt());
        i = i + 1;
    }
    proof {
        assert(all.take(vectors@.len() as int) =~= all);
    }
    sum.div(T::from_usize(vectors.len()))
}

/// Copies of the vectors.
pub fn copy_vectors<T: Real>(vectors: &[Vector<T>]) -> (out: Vec<Vector<T>>)
    ensures
        rows(out@) == rows(vectors@),
        out@.len() == vectors@.len(),
{
    let mut out: Vec<Vector<T>> = Vec::new();
    let mut i: usize = 0;
    while i < vectors.len()
        invariant
            i <= vectors@.len(),
            out@.len() == i,
            forall|j: int| 0 <= j < i ==> (#[trigger] out@[j])@ == vectors@[j]@,
        decreases vectors@.len() - i,
    {
        out.push(vectors[i].duplicate());
        i = i + 1;
    }
    proof {
        assert(rows(out@) =~= rows(vectors@));
    }
    out
}

/// A chain of stage codebooks with the threshold at which the chain may end early.
pub struct ResidualQuantizer<T: Real> {
    stages: usize,
    codebooks: Vec<Vec<Vector<T>>>,
    dim: usize,
    distance: Distance<T>,
    epsilon: T,
}

impl<T: Real> ResidualQuantizer<T> {
    #[verifier::type_invariant]
    spec fn well_formed(self) -> bool {
        &&& self.codebooks@.len() == self.stages
        &&& books_fit(books(self.codebooks@), self.dim as int)
    }

    /// The stage codebooks, in order.
    pub closed spec fn codebooks(self) -> Seq<Seq<Seq<T>>> {
        books(self.codebooks@)
    }

    /// The number of dimensions of the vectors that the quantizer takes.
    pub closed spec fn dim(self) -> int {
        self.dim as int
    }

    /// The metric by which centroids are chosen.
    pub closed spec fn metric(self) -> Distance<T> {
        self.distance
    }

    /// The norm below which a residual counts as explained.
    pub closed spec fn threshold(self) -> T {
        self.epsilon
    }

    /// The number of stages that fitting kept.
    pub fn stages(&self) -> (n: usize)
        ensures
            n == self.codebooks().len(),
    {
        proof {
            use_type_invariant(self);
        }
        self.stages
    }

    /// Learns up to `stages` codebooks of `k` centroids each.
    ///
    /// Fails, in this order, with `EmptyInput` where there is no training
    /// vector; with `DimensionMismatch` where the training vectors differ in
    /// length; where at least one stage is asked for, with `InvalidParameter`
    /// where `k` is zero or exceeds the number of training vectors; and with
    /// `InvalidMetricParameter` where the metric is not valid.
    ///
    /// Every codebook that is kept holds `k` centroids of the training
    /// vectors' dimension.
    pub fn fit(
        training_data: &[Vector<T>],
        stages: usize,
        k: usize,
        max_iters: usize,
        epsilon: T,
        distance: Distance<T>,
        seed: u64,
    ) -> (r: Result<Self, VqError>)
        ensures
            training_data@.len() == 0 ==> r == Err::<Self, VqError>(VqError::EmptyInput),
            training_data@.len() > 0 && !uniform(
                rows(training_data@),
                training_data@[0]@.len() as int,
            ) ==> exists|i: int|
                is_first_mismatch(rows(training_data@), i) && r == Err::<Self, VqError>(
                    VqError::DimensionMismatch {
                        expected: training_data@[0].len(),
                        found: training_data@[i].len(),
                    },
                ),
            training_data@.len() > 0 && uniform(
                rows(training_data@),
                training_data@[0]@.len() as int,
            ) && stages > 0 && k == 0 ==> (r matches Err(e) && e.is_invalid_parameter(
                "k must be greater than 0"@,
            )),
            training_data@.len() > 0 && uniform(
                rows(training_data@),
                training_data@[0]@.len() as int,
            ) && stages > 0 && k > training_data@.len() ==> (r matches Err(e)
                && e.is_invalid_parameter("Not enough data points for k clusters"@)),
            training_data@.len() > 0 && uniform(
                rows(training_data@),
                training_data@[0]@.len() as int,
            ) && (stages > 0 ==> 0 < k <= training_data@.len()) && !distance.valid() ==> (
            r matches Err(e) && e.is_invalid_metric_parameter(
                "Minkowski"@,
                "p must be positive"@,
            )),
            r is Ok <==> training_data@.len() > 0 && uniform(
                rows(training_data@),
                training_data@[0]@.len() as int,
            ) && distance.valid() && (stages > 0 ==> 0 < k <= training_data@.len()),
            r matches Ok(q) ==> {
                &&& q.dim() == training_data@[0]@.len()
                &&& q.metric() == distance
                &&& q.threshold() == epsilon
                &&& books_fit(q.codebooks(), q.dim())
                &&& books_hold(q.codebooks(), k as int)
                &&& trained(
                    q.codebooks(),
                    rows(training_data@),
                    stages as int,
                    k as int,
                    max_iters as nat,
                    epsilon,
                    distance,
                )
            },
    {
        let dim = match common_dimension(training_data) {
            Ok(dim) => dim,
            Err(e) => {
                return Err(e);
            },
        };
        if stages > 0 {
            if k == 0 {
                return Err(VqError::invalid_parameter("k must be greater than 0"));
            }
            if training_data.len() < k {
                return Err(VqError::invalid_parameter("Not enough data points for k clusters"));
            }
        }
        if !distance.is_valid() {
            return Err(VqError::invalid_metric_parameter("Minkowski", "p must be positive"));
        }
        let ghost data = rows(training_data@);
        let mut codebooks: Vec<Vec<Vector<T>>> = Vec::new();
        let mut residuals = copy_vectors(training_data);
        let mut stage: usize = 0;
        let mut done = false;
        while stage < stages && !done
            invariant
                stage <= stages,
                data == rows(training_data@),
                training_data@.len() > 0,
                uniform(data, dim as int),
                dim == training_data@[0]@.len(),
                distance.valid(),
                codebooks@.len() == stage,
                books_fit(books(codebooks@), dim as int),
                books_hold(books(codebooks@), k as int),
                residuals@.len() == training_data@.len(),
                uniform(rows(residuals@), dim as int),
                rows(residuals@) == residuals_after(distance, books(codebooks@), data, stage as nat),
                stage > 0 ==> 0 < k <= training_data@.len(),
                forall|s: int|
                    0 <= s < stage ==> lbg_result(
                        #[trigger] books(codebooks@)[s],
                        residuals_after(distance, books(codebooks@), data, s as nat),
                        k as int,
                        max_iters as nat,
                    ),
                forall|s: int|
                    0 < s < stage ==> !mean_norm_spec(
                        #[trigger] residuals_after(distance, books(codebooks@), data, s as nat),
                    ).lt_spec(epsilon),
                stage > 0 ==> done == mean_norm_spec(
                    residuals_after(distance, books(codebooks@), data, stage as nat),
                ).lt_spec(epsilon),
                stage == 0 ==> !done,
            decreases stages - stage,
        {
            let ghost before = books(codebooks@);
            proof {
                assert(rows(residuals@)[0] == residuals@[0]@);
            }
            let codebook = match lbg_quantize(
                residuals.as_slice(),
                k,
                max_iters,
                seed.wrapping_add(stage as u64),
            ) {
                Ok(codebook) => codebook,
                Err(e) => {
                    return Err(e);
                },
            };
            codebooks.push(codebook);
            let ghost after = books(codebooks@);
            proof {
                assert(after =~= before.push(rows(codebooks@[stage as int]@)));
                assert forall|s: int| 0 <= s <= stage implies #[trigger] residuals_after(
                    distance,
                    after,
                    data,
                    s as nat,
                ) == residuals_after(distance, before, data, s as nat) by {
                    lemma_residuals_prefix(distance, before, after, data, s as nat);
                }
                assert(books_hold(after, k as int)) by {
                    assert forall|j: int| 0 <= j < after.len() implies (#[trigger] after[j]).len()
                        == k by {
                        if j < stage {
                            assert(after[j] == before[j]);
                        }
                    }
                }
                assert(books_fit(after, dim as int)) by {
                    assert forall|j: int| 0 <= j < after.len() implies (#[trigger] after[j]).len()
                        > 0 && uniform(after[j], dim as int) by {
                        if j < stage {
                            assert(after[j] == before[j]);
                        }
                    }
                }
                assert forall|s: int| 0 <= s < stage + 1 implies lbg_result(
                    #[trigger] after[s],
                    residuals_after(distance, after, data, s as nat),
                    k as int,
                    max_iters as nat,
                ) by {
                    if s < stage {
                        assert(after[s] == before[s]);
                    }
                }
                assert forall|s: int| 0 < s < stage + 1 implies !mean_norm_spec(
                    #[trigger] residuals_after(distance, after, data, s as nat),
                ).lt_spec(epsilon) by {
                    assert(residuals_after(distance, after, data, s as nat) == residuals_after(
                        distance,
                        before,
                        data,
                        s as nat,
                    ));
                }
            }
            residuals = peel(&distance, codebooks[stage].as_slice(), residuals.as_slice(), dim);
            let average = mean_norm(residuals.as_slice());
            done = average.lt(epsilon);
            stage = stage + 1;
        }
        let actual_stages = codebooks.len();
        Ok(Self { stages: actual_stages, codebooks, dim, distance, epsilon })
    }

    /// The approximation of `vector` as a sum of one centroid from each stage,
    /// in the reduced type.
    ///
    /// Fails with `DimensionMismatch` where `vector` has not the dimension of
    /// the training vectors, and otherwise with `InvalidMetricParameter` where
    /// the metric is not valid.
    pub fn quantize(&self, vector: &Vector<T>) -> (r: Result<Vector<T::Reduced>, VqError>)
        ensures
            vector@.len() != self.dim() ==> r == Err::<Vector<T::Reduced>, VqError>(
                VqError::DimensionMismatch { expected: self.dim() as usize, found: vector.len() },
            ),
            vector@.len() == self.dim() && !self.metric().valid() ==> (r matches Err(e)
                && e.is_invalid_metric_parameter("Minkowski"@, "p must be positive"@)),
            vector@.len() == self.dim() && self.metric().valid() ==> (r matches Ok(code) && code@
                == reduce_all(
                approximate_spec(
                    self.metric(),
                    self.codebooks(),
                    self.threshold(),
                    vector@,
                    zeros_spec::<T>(self.dim()),
                    0,
                ),
            ) && code@.len() == vector@.len()),
    {
        proof {
            use_type_invariant(self);
        }
        if vector.len() != self.dim {
            return Err(VqError::DimensionMismatch { expected: self.dim, found: vector.len() });
        }
        if !self.distance.is_valid() {
            return Err(VqError::invalid_metric_parameter("Minkowski", "p must be positive"));
        }
        let ghost all = books(self.codebooks@);
        let ghost goal = approximate_spec(
            self.distance,
            all,
            self.epsilon,
            vector@,
            zeros_spec::<T>(self.dim as int),
            0,
        );
        let mut residual = copy_slice(vector.data());
        let mut sum: Vec<T> = zeros(self.dim);
        let mut stage: usize = 0;
        let mut done = false;
        while stage < self.stages && !done
            invariant
                stage <= self.stages,
                self.codebooks@.len() == self.stages,
                all == books(self.codebooks@),
                books_fit(all, self.dim as int),
                residual@.len() == self.dim,
                sum@.len() == self.dim,
                done ==> goal == sum@,
                !done ==> goal == approximate_spec(
                    self.distance,
                    all,
                    self.epsilon,
                    residual@,
                    sum@,
                    stage as int,
                ),
            decreases self.stages - stage,
        {
            let codebook = &self.codebooks[stage];
            assert(all[stage as int] == rows(codebook@));
            let best = pick_centroid(&self.distance, codebook.as_slice(), residual.as_slice());
            let chosen = &codebook[best];
            assert(rows(codebook@)[best as int] == chosen@);
            sum = add_slices(sum.as_slice(), chosen.data());
            residual = sub_slices(residual.as_slice(), chosen.data());
            let norm = map_sum(residual.as_slice()).sqrt();
            done = norm.lt(self.epsilon);
            stage = stage + 1;
        }
        Ok(reduce_vector(sum.as_slice()))
    }
}

} // verus!
