//! The optimized product quantizer: a product quantizer behind a learned
//! rotation.
//!
//! Learning alternates between this crate and a linear-algebra collaborator.
//! Each round the crate learns codebooks on the rotated training vectors,
//! reconstructs them, and hands out the cross-covariance between
//! reconstructions and rotated vectors; the collaborator answers with the
//! rotation that best aligns the two (from a singular value decomposition),
//! and the crate rotates the training vectors anew.

use crate::distances::Distance;
use crate::exceptions::VqError;
use crate::pq::{
    books, books_fit, books_hold, encode, encode_spec, learn_codebooks, reduce_all, reduce_vector,
    splits, sub_rows,
};
use crate::rvq::copy_vectors;
use crate::utils::lbg_result;
use crate::vector::{common_dimension, dot_slices, dot_spec, is_first_mismatch, rows, uniform, Real, Vector};
use vstd::prelude::*;

verus! {

/// The matrix has `dim` rows of `dim` elements.
pub open spec fn square<T>(matrix: Seq<Seq<T>>, dim: int) -> bool {
    matrix.len() == dim && uniform(matrix, dim)
}

/// The identity matrix, by rows.
pub open spec fn identity_spec<T: Real>(dim: int) -> Seq<Seq<T>> {
    Seq::new(
        dim as nat,
        |i: int|
            Seq::new(
                dim as nat,
                |j: int|
                    if i == j {
                        T::one_spec()
                    } else {
                        T::zero_spec()
                    },
            ),
    )
}

/// The product of a matrix, given by rows, with a vector: the dot product of
/// each row with the vector.
pub open spec fn rotate_spec<T: Real>(rotation: Seq<Seq<T>>, v: Seq<T>) -> Seq<T> {
    Seq::new(rotation.len(), |i: int| dot_spec(rotation[i], v))
}

/// Every row of `data` rotated.
pub open spec fn rotate_rows<T: Real>(rotation: Seq<Seq<T>>, data: Seq<Seq<T>>) -> Seq<Seq<T>> {
    Seq::new(data.len(), |t: int| rotate_spec(rotation, data[t]))
}

/// Every row of `data` replaced by its nearest centroids, subspace by subspace.
pub open spec fn reconstruct_spec<T: Real>(
    d: Distance<T>,
    books: Seq<Seq<Seq<T>>>,
    sub_dim: int,
    data: Seq<Seq<T>>,
) -> Seq<Seq<T>> {
    Seq::new(data.len(), |t: int| encode_spec(d, books, sub_dim, data[t]))
}

/// Entry `(i, j)` of the cross-covariance: `y[t][i] * x[t][j]`, summed over
/// the rows `t` from the first on, starting from zero.
pub open spec fn cross_entry<T: Real>(y: Seq<Seq<T>>, x: Seq<Seq<T>>, i: int, j: int) -> T
    decreases y.len(),
{
    if y.len() == 0 {
        T::zero_spec()
    } else {
        cross_entry(y.drop_last(), x.take(y.len() - 1), i, j).add_spec(
            y.last()[i].mul_spec(x[y.len() - 1][j]),
        )
    }
}

/// The cross-covariance between the rows of `y` and the rows of `x`, by rows.
pub open spec fn cross_spec<T: Real>(y: Seq<Seq<T>>, x: Seq<Seq<T>>, dim: int) -> Seq<Seq<T>> {
    Seq::new(dim as nat, |i: int| Seq::new(dim as nat, |j: int| cross_entry(y, x, i, j)))
}

/// The identity matrix of the given size, by rows.
pub fn identity<T: Real>(dim: usize) -> (matrix: Vec<Vector<T>>)
    ensures
        rows(matrix@) == identity_spec::<T>(dim as int),
        square(rows(matrix@), dim as int),
{
    let mut matrix: Vec<Vector<T>> = Vec::new();
    let mut i: usize = 0;
    while i < dim
        invariant
            i <= dim,
            matrix@.len() == i,
            forall|r: int| 0 <= r < i ==> (#[trigger] matrix@[r])@ == identity_spec::<T>(dim as int)[r],
        decreases dim - i,
    {
        let mut row: Vec<T> = Vec::new();
        let mut j: usize = 0;
        while j < dim
            invariant
                j <= dim,
                i < dim,
                row@.len() == j,
                forall|c: int|
                    0 <= c < j ==> row@[c] == if i == c {
                        T::one_spec()
                    } else {
                        T::zero_spec()
                    },
            decreases dim - j,
        {
            if i == j {
                row.push(T::one());
            } else {
                row.push(T::zero());
            }
            j = j + 1;
        }
        proof {
            assert(row@ =~= identity_spec::<T>(dim as int)[i as int]);
        }
        matrix.push(Vector::new(row));
        i = i + 1;
    }
    proof {
        assert(rows(matrix@) =~= identity_spec::<T>(dim as int));
    }
    matrix
}

/// The product of a matrix, given by rows, with a vector.
pub fn rotate<T: Real>(rotation: &Vec<Vector<T>>, v: &[T]) -> (out: Vec<T>)
    requires
        uniform(rows(rotation@), v@.len() as int),
    ensures
        out@ == rotate_spec(rows(rotation@), v@),
        out@.len() == rotation@.len(),
{
    let mut out: Vec<T> = Vec::new();
    let mut i: usize = 0;
    while i < rotation.len()
        invariant
            i <= rotation@.len(),
            uniform(rows(rotation@), v@.len() as int),
            out@.len() == i,
            forall|r: int| 0 <= r < i ==> out@[r] == dot_spec(rows(rotation@)[r], v@),
        decreases rotation@.len() - i,
    {
        assert(rows(rotation@)[i as int] == rotation@[i as int]@);
        out.push(dot_slices(rotation[i].data(), v));
        i = i + 1;
    }
    proof {
        assert(out@ =~= rotate_spec(rows(rotation@), v@));
    }
    out
}

/// Every vector rotated.
pub fn rotate_all<T: Real>(rotation: &Vec<Vector<T>>, data: &[Vector<T>], dim: usize) -> (out: Vec<
    Vector<T>,
>)
    requires
        square(rows(rotation@), dim as int),
        uniform(rows(data@), dim as int),
    ensures
        rows(out@) == rotate_rows(rows(rotation@), rows(data@)),
        out@.len() == data@.len(),
        uniform(rows(out@), dim as int),
{
    let mut out: Vec<Vector<T>> = Vec::new();
    let mut t: usize = 0;
    while t < data.len()
        invariant
            t <= data@.len(),
            square(rows(rotation@), dim as int),
            uniform(rows(data@), dim as int),
            out@.len() == t,
            forall|u: int|
                0 <= u < t ==> (#[trigger] out@[u])@ == rotate_spec(rows(rotation@), data@[u]@),
            forall|u: int| 0 <= u < t ==> (#[trigger] out@[u])@.len() == dim,
        decreases data@.len() - t,
    {
        assert(rows(data@)[t as int] == data@[t as int]@);
        out.push(Vector::new(rotate(rotation, data[t].data())));
        t = t + 1;
    }
    proof {
        assert(rows(out@) =~= rotate_rows(rows(rotation@), rows(data@)));
    }
    out
}

/// Every vector replaced by its nearest centroids, subspace by subspace.
pub fn reconstruct<T: Real>(
    d: &Distance<T>,
    codebooks: &Vec<Vec<Vector<T>>>,
    sub_dim: usize,
    data: &[Vector<T>],
) -> (out: Vec<Vector<T>>)
    requires
        books_fit(books(codebooks@), sub_dim as int),
        uniform(rows(data@), codebooks@.len() * sub_dim),
    ensures
        rows(out@) == reconstruct_spec(*d, books(codebooks@), sub_dim as int, rows(data@)),
        out@.len() == data@.len(),
        uniform(rows(out@), codebooks@.len() * sub_dim),
{
    let mut out: Vec<Vector<T>> = Vec::new();
    let mut t: usize = 0;
    while t < data.len()
        invariant
            t <= data@.len(),
            books_fit(books(codebooks@), sub_dim as int),
            uniform(rows(data@), codebooks@.len() * sub_dim),
            out@.len() == t,
            forall|u: int|
                0 <= u < t ==> (#[trigger] out@[u])@ == encode_spec(
                    *d,
                    books(codebooks@),
                    sub_dim as int,
                    data@[u]@,
                ),
            forall|u: int| 0 <= u < t ==> (#[trigger] out@[u])@.len() == codebooks@.len() * sub_dim,
        decreases data@.len() - t,
    {
        assert(rows(data@)[t as int] == data@[t as int]@);
        out.push(Vector::new(encode(d, codebooks, sub_dim, data[t].data())));
        t = t + 1;
    }
    proof {
        assert(rows(out@) =~= reconstruct_spec(*d, books(codebooks@), sub_dim as int, rows(data@)));
    }
    out
}

/// The cross-covariance between the vectors `y` and the vectors `x`, by rows.
pub fn cross_covariance<T: Real>(y: &[Vector<T>], x: &[Vector<T>], dim: usize) -> (out: Vec<Vector<T>>)
    requires
        y@.len() == x@.len(),
        uniform(rows(y@), dim as int),
        uniform(rows(x@), dim as int),
    ensures
        rows(out@) == cross_spec(rows(y@), rows(x@), dim as int),
        square(rows(out@), dim as int),
{
    let ghost ys = rows(y@);
    let ghost xs = rows(x@);
    let mut out: Vec<Vector<T>> = Vec::new();
    let mut i: usize = 0;
    while i < dim
        invariant
            i <= dim,
            y@.len() == x@.len(),
            ys == rows(y@),
            xs == rows(x@),
            uniform(ys, dim as int),
            uniform(xs, dim as int),
            out@.len() == i,
            forall|r: int|
                0 <= r < i ==> (#[trigger] out@[r])@ == cross_spec(ys, xs, dim as int)[r],
        decreases dim - i,
    {
        let mut row: Vec<T> = Vec::new();
        let mut j: usize = 0;
        while j < dim
            invariant
                j <= dim,
                i < dim,
                y@.len() == x@.len(),
                ys == rows(y@),
                xs == rows(x@),
                uniform(ys, dim as int),
                uniform(xs, dim as int),
                row@.len() == j,
                forall|c: int| 0 <= c < j ==> row@[c] == cross_entry(ys, xs, i as int, c),
            decreases dim - j,
        {
            let mut sum = T::zero();
            let mut t: usize = 0;
            while t < y.len()
                invariant
                    t <= y@.len(),
                    i < dim,
                    j < dim,
                    y@.len() == x@.len(),
                    ys == rows(y@),
                    xs == rows(x@),
                    uniform(ys, dim as int),
                    uniform(xs, dim as int),
                    sum == cross_entry(ys.take(t as int), xs.take(t as int), i as int, j as int),
                decreases y@.len() - t,
            {
                proof {
                    assert(ys.take(t + 1).drop_last() =~= ys.take(t as int));
                    assert(xs.take(t + 1).take(t as int) =~= xs.take(t as int));
                    assert(ys.take(t + 1).last() == y@[t as int]@);
                    assert(xs.take(t + 1)[t as int] == x@[t as int]@);
                    assert(ys[t as int].len() == dim);
                    assert(xs[t as int].len() == dim);
                }
                sum = sum.add(y[t].data[i].mul(x[t].data[j]));
                t = t + 1;
            }
            proof {
                assert(ys.take(y@.len() as int) =~= ys);
                assert(xs.take(y@.len() as int) =~= xs);
            }
            row.push(sum);
            j = j + 1;
        }
        proof {
            assert(row@ =~= cross_spec(ys, xs, dim as int)[i as int]);
        }
        out.push(Vector::new(row));
        i = i + 1;
    }
    proof {
        assert(rows(out@) =~= cross_spec(ys, xs, dim as int));
    }
    out
}

/// The first way in which `matrix` fails to be `dim` by `dim`: the number of
/// its rows, or else the length of its first row of another length.
pub open spec fn shape_fault<T>(matrix: Seq<Seq<T>>, dim: int, found: int) -> bool {
    if matrix.len() != dim {
        found == matrix.len()
    } else {
        exists|i: int|
            0 <= i < matrix.len() && found == (#[trigger] matrix[i]).len() && found != dim
                && forall|j: int| 0 <= j < i ==> (#[trigger] matrix[j]).len() == dim
    }
}

/// Checks that `matrix` is `dim` by `dim`.
pub fn check_square<T: Real>(matrix: &Vec<Vector<T>>, dim: usize) -> (r: Result<(), VqError>)
    ensures
        r is Ok <==> square(rows(matrix@), dim as int),
        r matches Err(e) ==> (e matches VqError::DimensionMismatch { expected, found } && expected
            == dim && shape_fault(rows(matrix@), dim as int, found as int)),
{
    if matrix.len() != dim {
        return Err(VqError::DimensionMismatch { expected: dim, found: matrix.len() });
    }
    let mut i: usize = 0;
    while i < matrix.len()
        invariant
            i <= matrix@.len(),
            matrix@.len() == dim,
            forall|j: int| 0 <= j < i ==> (#[trigger] rows(matrix@)[j]).len() == dim,
        decreases matrix@.len() - i,
    {
        if matrix[i].len() != dim {
            proof {
                assert(rows(matrix@)[i as int].len() == matrix@[i as int]@.len());
            }
            return Err(VqError::DimensionMismatch { expected: dim, found: matrix[i].len() });
        }
        i = i + 1;
    }
    Ok(())
}

/// A fitted quantizer: the rotation, by rows, and the codebooks of the
/// subspaces of the rotated vectors. Where no round of learning was asked
/// for, the rotation is the identity.
pub struct OptimizedProductQuantizer<T: Real> {
    rotation: Vec<Vector<T>>,
    codebooks: Vec<Vec<Vector<T>>>,
    sub_dim: usize,
    m: usize,
    dim: usize,
    distance: Distance<T>,
}

/// Learning between two rounds: the codebooks of the round are learned, and
/// the rotation that aligns the reconstructions with the rotated training
/// vectors is awaited.
pub struct OpqTrainer<T: Real> {
    training: Vec<Vector<T>>,
    rotated: Vec<Vector<T>>,
    codebooks: Vec<Vec<Vector<T>>>,
    problem: Vec<Vector<T>>,
    rounds_left: usize,
    sub_dim: usize,
    m: usize,
    dim: usize,
    k: usize,
    max_iters: usize,
    seed: u64,
    distance: Distance<T>,
}

/// Where fitting stands: either a rotation is awaited, or the quantizer is ready.
pub enum OpqFit<T: Real> {
    /// The trainer holds a cross-covariance to be decomposed.
    Solve(OpqTrainer<T>),
    /// All rounds are done.
    Done(OptimizedProductQuantizer<T>),
}

impl<T: Real> OpqTrainer<T> {
    #[verifier::type_invariant]
    spec fn well_formed(self) -> bool {
        &&& self.m > 0
        &&& self.m * self.sub_dim == self.dim
        &&& self.training@.len() > 0
        &&& uniform(rows(self.training@), self.dim as int)
        &&& self.rotated@.len() == self.training@.len()
        &&& uniform(rows(self.rotated@), self.dim as int)
        &&& 0 < self.k <= self.training@.len()
        &&& self.distance.valid()
        &&& self.rounds_left > 0
        &&& self.codebooks@.len() == self.m
        &&& books_fit(books(self.codebooks@), self.sub_dim as int)
        &&& books_hold(books(self.codebooks@), self.k as int)
        &&& square(rows(self.problem@), self.dim as int)
    }

    /// The training vectors as they were given.
    pub closed spec fn training(self) -> Seq<Seq<T>> {
        rows(self.training@)
    }

    /// The training vectors under the rotation of the round.
    pub closed spec fn rotated(self) -> Seq<Seq<T>> {
        rows(self.rotated@)
    }

    /// The codebooks of the round.
    pub closed spec fn codebooks(self) -> Seq<Seq<Seq<T>>> {
        books(self.codebooks@)
    }

    /// The cross-covariance to be decomposed, by rows.
    pub closed spec fn problem(self) -> Seq<Seq<T>> {
        rows(self.problem@)
    }

    /// The rounds that are not yet done, this one included.
    pub closed spec fn rounds_left(self) -> int {
        self.rounds_left as int
    }

    /// The number of subspaces.
    pub closed spec fn subspaces(self) -> int {
        self.m as int
    }

    /// The number of dimensions of each subspace.
    pub closed spec fn subspace_dim(self) -> int {
        self.sub_dim as int
    }

    /// The number of dimensions of the training vectors.
    pub closed spec fn dim(self) -> int {
        self.dim as int
    }

    /// The number of centroids of each codebook.
    pub closed spec fn centroids(self) -> int {
        self.k as int
    }

    /// The bound on the rounds of each clustering.
    pub closed spec fn max_iters(self) -> nat {
        self.max_iters as nat
    }

    /// The seed of the first subspace's clustering.
    pub closed spec fn seed(self) -> u64 {
        self.seed
    }

    /// The metric by which centroids are chosen.
    pub closed spec fn metric(self) -> Distance<T> {
        self.distance
    }

    /// The round is prepared on the rotated vectors `rotated`: there is one
    /// codebook for each subspace, of as many centroids as were asked for,
    /// each centroid of a subspace's dimension; the codebooks are learned on
    /// the subspaces of the rotated vectors; and the problem is the
    /// cross-covariance between their reconstructions and them.
    pub open spec fn prepared_on(self, rotated: Seq<Seq<T>>) -> bool {
        &&& self.rotated() == rotated
        &&& self.codebooks().len() == self.subspaces()
        &&& books_fit(self.codebooks(), self.subspace_dim())
        &&& books_hold(self.codebooks(), self.centroids())
        &&& forall|i: int|
            0 <= i < self.subspaces() ==> lbg_result(
                #[trigger] self.codebooks()[i],
                sub_rows(rotated, i, self.subspace_dim()),
                self.centroids(),
                self.max_iters(),
            )
        &&& self.problem() == cross_spec(
            reconstruct_spec(self.metric(), self.codebooks(), self.subspace_dim(), rotated),
            rotated,
            self.dim(),
        )
        &&& square(self.problem(), self.dim())
    }

    /// This trainer continues `before` one round later: the training
    /// vectors and the parameters are the same.
    pub open spec fn continues(self, before: Self) -> bool {
        &&& self.training() == before.training()
        &&& self.rounds_left() == before.rounds_left() - 1
        &&& self.subspaces() == before.subspaces()
        &&& self.subspace_dim() == before.subspace_dim()
        &&& self.dim() == before.dim()
        &&& self.centroids() == before.centroids()
        &&& self.max_iters() == before.max_iters()
        &&& self.seed() == before.seed()
        &&& self.metric() == before.metric()
    }

    /// Learns the codebooks of a round and states its problem.
    fn prepare(
        training: Vec<Vector<T>>,
        rotated: Vec<Vector<T>>,
        rounds_left: usize,
        m: usize,
        sub_dim: usize,
        k: usize,
        max_iters: usize,
        seed: u64,
        distance: Distance<T>,
    ) -> (r: Result<Self, VqError>)
        requires
            m > 0,
            m * sub_dim <= usize::MAX,
            training@.len() > 0,
            uniform(rows(training@), m * sub_dim),
            rotated@.len() == training@.len(),
            uniform(rows(rotated@), m * sub_dim),
            distance.valid(),
            rounds_left > 0,
        ensures
            k == 0 ==> (r matches Err(e) && e.is_invalid_parameter("k must be greater than 0"@)),
            k > training@.len() ==> (r matches Err(e) && e.is_invalid_parameter(
                "Not enough data points for k clusters"@,
            )),
            r is Ok <==> 0 < k <= training@.len(),
            r matches Ok(trainer) ==> {
                &&& trainer.training() == rows(training@)
                &&& trainer.rounds_left() == rounds_left
                &&& trainer.subspaces() == m
                &&& trainer.subspace_dim() == sub_dim
                &&& trainer.dim() == m * sub_dim
                &&& trainer.centroids() == k
                &&& trainer.max_iters() == max_iters
                &&& trainer.seed() == seed
                &&& trainer.metric() == distance
                &&& trainer.prepared_on(rows(rotated@))
            },
    {
        let dim = m * sub_dim;
        let codebooks = match learn_codebooks(rotated.as_slice(), m, sub_dim, k, max_iters, seed) {
            Ok(codebooks) => codebooks,
            Err(e) => {
                return Err(e);
            },
        };
        let reconstructions = reconstruct(&distance, &codebooks, sub_dim, rotated.as_slice());
        let problem = cross_covariance(reconstructions.as_slice(), rotated.as_slice(), dim);
        Ok(
            OpqTrainer {
                training,
                rotated,
                codebooks,
                problem,
                rounds_left,
                sub_dim,
                m,
                dim,
                k,
                max_iters,
                seed,
                distance,
            },
        )
    }

    /// The cross-covariance to be decomposed, by rows. The rotation to answer
    /// with is `V * U^T`, where `U * S * V^T` is its singular value decomposition.
    pub fn cross_covariance(&self) -> (matrix: &Vec<Vector<T>>)
        ensures
            rows(matrix@) == self.problem(),
            square(self.problem(), self.dim()),
    {
        proof {
            use_type_invariant(self);
        }
        &self.problem
    }

    /// The round ends with the rotation that was found for its problem.
    ///
    /// Fails with `DimensionMismatch` where `rotation`, given by rows, is not
    /// square of the training vectors' dimension. Otherwise the training
    /// vectors are rotated anew; where this was the last round the quantizer
    /// is ready, with this rotation and the codebooks of the round, and where
    /// it was not the next round is prepared.
    pub fn resume(self, rotation: Vec<Vector<T>>) -> (r: Result<OpqFit<T>, VqError>)
        ensures
            r is Ok <==> square(rows(rotation@), self.dim()),
            r matches Err(e) ==> (e matches VqError::DimensionMismatch { expected, found }
                && expected == self.dim() && shape_fault(rows(rotation@), self.dim(), found as int)),
            r matches Ok(OpqFit::Done(q)) ==> {
                &&& self.rounds_left() == 1
                &&& q.rotation() == rows(rotation@)
                &&& q.codebooks() == self.codebooks()
                &&& q.codebooks().len() == self.subspaces()
                &&& books_fit(q.codebooks(), self.subspace_dim())
                &&& books_hold(q.codebooks(), self.centroids())
                &&& q.subspaces() == self.subspaces()
                &&& q.subspace_dim() == self.subspace_dim()
                &&& q.dim() == self.dim()
                &&& q.metric() == self.metric()
            },
            r matches Ok(OpqFit::Solve(next)) ==> {
                &&& self.rounds_left() > 1
                &&& next.continues(self)
                &&& next.prepared_on(rotate_rows(rows(rotation@), self.training()))
            },
    {
        proof {
            use_type_invariant(&self);
        }
        match check_square(&rotation, self.dim) {
            Ok(_) => {},
            Err(e) => {
                return Err(e);
            },
        }
        let OpqTrainer {
            training,
            rotated: _,
            codebooks,
            problem: _,
            rounds_left,
            sub_dim,
            m,
            dim,
            k,
            max_iters,
            seed,
            distance,
        } = self;
        if rounds_left == 1 {
            return Ok(
                OpqFit::Done(
                    OptimizedProductQuantizer { rotation, codebooks, sub_dim, m, dim, distance },
                ),
            );
        }
        let rotated = rotate_all(&rotation, training.as_slice(), dim);
        match Self::prepare(
            training,
            rotated,
            rounds_left - 1,
            m,
            sub_dim,
            k,
            max_iters,
            seed,
            distance,
        ) {
            Ok(next) => Ok(OpqFit::Solve(next)),
            Err(e) => Err(e),
        }
    }
}

impl<T: Real> OptimizedProductQuantizer<T> {
    #[verifier::type_invariant]
    spec fn well_formed(self) -> bool {
        &&& self.m > 0
        &&& self.m * self.sub_dim == self.dim
        &&& square(rows(self.rotation@), self.dim as int)
        &&& self.codebooks@.len() == self.m
        &&& books_fit(books(self.codebooks@), self.sub_dim as int)
    }

    /// The rotation, by rows.
    pub closed spec fn rotation(self) -> Seq<Seq<T>> {
        rows(self.rotation@)
    }

    /// The codebooks of the subspaces of the rotated vectors.
    pub closed spec fn codebooks(self) -> Seq<Seq<Seq<T>>> {
        books(self.codebooks@)
    }

    /// The number of subspaces.
    pub closed spec fn subspaces(self) -> int {
        self.m as int
    }

    /// The number of dimensions of each subspace.
    pub closed spec fn subspace_dim(self) -> int {
        self.sub_dim as int
    }

    /// The number of dimensions of the vectors that the quantizer takes.
    pub closed spec fn dim(self) -> int {
        self.dim as int
    }

    /// The metric by which centroids are chosen.
    pub closed spec fn metric(self) -> Distance<T> {
        self.distance
    }

    /// Begins to learn a quantizer with `m` subspaces and `k` centroids for
    /// each, in `opq_iters` rounds.
    ///
    /// Fails, in this order, with `EmptyInput` where there is no training
    /// vector; with `InvalidParameter` where the dimension of the first is
    /// below `m`, or cannot be divided by `m`; with `DimensionMismatch` where
    /// the training vectors differ in length; with `InvalidParameter` where
    /// `k` is zero or exceeds the number of training vectors; and with
    /// `InvalidMetricParameter` where the metric is not valid.
    ///
    /// Where no round is asked for, the quantizer is ready at once: its
    /// rotation is the identity, and its codebooks are learned on the training
    /// vectors as they are. Otherwise the first round is prepared on the
    /// training vectors as they are.
    pub fn fit(
        training_data: &[Vector<T>],
        m: usize,
        k: usize,
        max_iters: usize,
        opq_iters: usize,
        distance: Distance<T>,
        seed: u64,
    ) -> (r: Result<OpqFit<T>, VqError>)
        ensures
            training_data@.len() == 0 ==> r == Err::<OpqFit<T>, VqError>(VqError::EmptyInput),
            training_data@.len() > 0 && training_data@[0]@.len() < m ==> (r matches Err(e)
                && e.is_invalid_parameter("Dimension must be at least m"@)),
            training_data@.len() > 0 && training_data@[0]@.len() >= m && !splits(
                training_data@[0]@.len() as int,
                m as int,
            ) ==> (r matches Err(e) && e.is_invalid_parameter("Dimension must be divisible by m"@)),
            training_data@.len() > 0 && splits(training_data@[0]@.len() as int, m as int)
                && !uniform(rows(training_data@), training_data@[0]@.len() as int) ==> exists|
                i: int,
            |
                is_first_mismatch(rows(training_data@), i) && r == Err::<OpqFit<T>, VqError>(
                    VqError::DimensionMismatch {
                        expected: training_data@[0].len(),
                        found: training_data@[i].len(),
                    },
                ),
            training_data@.len() > 0 && splits(training_data@[0]@.len() as int, m as int)
                && uniform(rows(training_data@), training_data@[0]@.len() as int) && k == 0 ==> (
            r matches Err(e) && e.is_invalid_parameter("k must be greater than 0"@)),
            training_data@.len() > 0 && splits(training_data@[0]@.len() as int, m as int)
                && uniform(rows(training_data@), training_data@[0]@.len() as int) && k
                > training_data@.len() ==> (r matches Err(e) && e.is_invalid_parameter(
                "Not enough data points for k clusters"@,
            )),
            training_data@.len() > 0 && splits(training_data@[0]@.len() as int, m as int)
                && uniform(rows(training_data@), training_data@[0]@.len() as int) && 0 < k
                <= training_data@.len() && !distance.valid() ==> (r matches Err(e)
                && e.is_invalid_metric_parameter("Minkowski"@, "p must be positive"@)),
            r is Ok <==> training_data@.len() > 0 && splits(
                training_data@[0]@.len() as int,
                m as int,
            ) && uniform(rows(training_data@), training_data@[0]@.len() as int) && 0 < k
                <= training_data@.len() && distance.valid(),
            r matches Ok(OpqFit::Done(q)) ==> {
                &&& opq_iters == 0
                &&& q.rotation() == identity_spec::<T>(training_data@[0]@.len() as int)
                &&& q.codebooks().len() == m
                &&& books_fit(q.codebooks(), q.subspace_dim())
                &&& books_hold(q.codebooks(), k as int)
                &&& forall|i: int|
                    0 <= i < m ==> lbg_result(
                        #[trigger] q.codebooks()[i],
                        sub_rows(rows(training_data@), i, q.subspace_dim()),
                        k as int,
                        max_iters as nat,
                    )
                &&& q.subspaces() == m
                &&& q.subspace_dim() == (training_data@[0]@.len() as int) / (m as int)
                &&& q.dim() == training_data@[0]@.len()
                &&& q.metric() == distance
            },
            r matches Ok(OpqFit::Solve(trainer)) ==> {
                &&& opq_iters > 0
                &&& trainer.training() == rows(training_data@)
                &&& trainer.rounds_left() == opq_iters
                &&& trainer.subspaces() == m
                &&& trainer.subspace_dim() == (training_data@[0]@.len() as int) / (m as int)
                &&& trainer.dim() == training_data@[0]@.len()
                &&& trainer.centroids() == k
                &&& trainer.max_iters() == max_iters
                &&& trainer.seed() == seed
                &&& trainer.metric() == distance
                &&& trainer.prepared_on(rows(training_data@))
            },
    {
        if training_data.len() == 0 {
            return Err(VqError::EmptyInput);
        }
        let dim = training_data[0].len();
        if dim < m {
            return Err(VqError::invalid_parameter("Dimension must be at least m"));
        }
        if m == 0 || dim % m != 0 {
            return Err(VqError::invalid_parameter("Dimension must be divisible by m"));
        }
        match common_dimension(training_data) {
            Ok(_) => {},
            Err(e) => {
                return Err(e);
            },
        }
        if k == 0 {
            return Err(VqError::invalid_parameter("k must be greater than 0"));
        }
        if training_data.len() < k {
            return Err(VqError::invalid_parameter("Not enough data points for k clusters"));
        }
        if !distance.is_valid() {
            return Err(VqError::invalid_metric_parameter("Minkowski", "p must be positive"));
        }
        let sub_dim = dim / m;
        proof {
            assert(m * sub_dim == dim) by (nonlinear_arith)
                requires
                    m > 0,
                    dim % m == 0,
                    sub_dim == dim / m,
            ;
        }
        if opq_iters == 0 {
            let rotation = identity(dim);
            return match learn_codebooks(training_data, m, sub_dim, k, max_iters, seed) {
                Ok(codebooks) => Ok(
                    OpqFit::Done(
                        OptimizedProductQuantizer { rotation, codebooks, sub_dim, m, dim, distance },
                    ),
                ),
                Err(e) => Err(e),
            };
        }
        let training = copy_vectors(training_data);
        let rotated = copy_vectors(training_data);
        match OpqTrainer::prepare(
            training,
            rotated,
            opq_iters,
            m,
            sub_dim,
            k,
            max_iters,
            seed,
            distance,
        ) {
            Ok(trainer) => Ok(OpqFit::Solve(trainer)),
            Err(e) => Err(e),
        }
    }

    /// The rotation, by rows.
    pub fn rotation_rows(&self) -> (matrix: &Vec<Vector<T>>)
        ensures
            rows(matrix@) == self.rotation(),
            square(self.rotation(), self.dim()),
    {
        proof {
            use_type_invariant(self);
        }
        &self.rotation
    }

    /// The code of `vector`: the vector is rotated, and for each subspace of
    /// the rotated vector the nearest centroid of its codebook is taken; the
    /// centroids one after the other, in the reduced type.
    ///
    /// Fails with `DimensionMismatch` where `vector` has not the dimension the
    /// quantizer was fitted for, and otherwise with `InvalidMetricParameter`
    /// where the metric is not valid.
    pub fn quantize(&self, vector: &Vector<T>) -> (r: Result<Vector<T::Reduced>, VqError>)
        ensures
            vector@.len() != self.dim() ==> r == Err::<Vector<T::Reduced>, VqError>(
                VqError::DimensionMismatch { expected: self.dim() as usize, found: vector.len() },
            ),
            vector@.len() == self.dim() && !self.metric().valid() ==> (r matches Err(e)
                && e.is_invalid_metric_parameter("Minkowski"@, "p must be positive"@)),
            vector@.len() == self.dim() && self.metric().valid() ==> (r matches Ok(code) && code@
                == reduce_all(
                encode_spec(
                    self.metric(),
                    self.codebooks(),
                    self.subspace_dim(),
                    rotate_spec(self.rotation(), vector@),
                ),
            ) && code@.len() == vector@.len()),
    {
        proof {
            use_type_invariant(self);
        }
        if vector.len() != self.dim {
            return Err(VqError::DimensionMismatch { expected: self.dim, found: vector.len() });
        }
        if !self.distance.is_valid() {
            return Err(VqError::invalid_metric_parameter("Minkowski", "p must be positive"));
        }
        let rotated = rotate(&self.rotation, vector.data());
        let code = encode(&self.distance, &self.codebooks, self.sub_dim, rotated.as_slice());
        Ok(reduce_vector(code.as_slice()))
    }
}

} // verus!
