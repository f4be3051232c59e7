//! The product quantizer: the dimensions are cut into equal contiguous
//! subspaces, each with a codebook of its own.

use crate::distances::Distance;
use crate::exceptions::VqError;
use crate::utils::{lbg_quantize, lbg_result, nearest, nearest_spec, lemma_argmin_in_range, distances_to};
use crate::vector::{common_dimension, is_first_mismatch, rows, uniform, Real, Vector};
use vstd::prelude::*;

verus! {

/// The element sequences of a list of codebooks.
pub open spec fn books<T>(codebooks: Seq<Vec<Vector<T>>>) -> Seq<Seq<Seq<T>>> {
    Seq::new(codebooks.len(), |i: int| rows(codebooks[i]@))
}

/// Every codebook holds at least one centroid, and every centroid has `dim` elements.
pub open spec fn books_fit<T>(books: Seq<Seq<Seq<T>>>, dim: int) -> bool {
    forall|i: int|
        0 <= i < books.len() ==> (#[trigger] books[i]).len() > 0 && uniform(books[i], dim)
}

/// Every codebook holds `k` centroids.
pub open spec fn books_hold<T>(books: Seq<Seq<Seq<T>>>, k: int) -> bool {
    forall|i: int| 0 <= i < books.len() ==> (#[trigger] books[i]).len() == k
}

/// Subspace `i` of `v`: the elements from `i * sub_dim` up to `(i + 1) * sub_dim`.
pub open spec fn subspace<T>(v: Seq<T>, i: int, sub_dim: int) -> Seq<T> {
    v.subrange(i * sub_dim, (i + 1) * sub_dim)
}

/// Subspace `i` of every row.
pub open spec fn sub_rows<T>(data: Seq<Seq<T>>, i: int, sub_dim: int) -> Seq<Seq<T>> {
    Seq::new(data.len(), |t: int| subspace(data[t], i, sub_dim))
}

/// `dim` elements can be cut into `m` subspaces of equal size.
pub open spec fn splits(dim: int, m: int) -> bool {
    m > 0 && dim >= m && dim % m == 0
}

/// For each subspace in turn, the centroid of its codebook nearest to that
/// subspace of `v`; the chosen centroids one after the other.
pub open spec fn encode_spec<T: Real>(
    d: Distance<T>,
    books: Seq<Seq<Seq<T>>>,
    sub_dim: int,
    v: Seq<T>,
) -> Seq<T>
    decreases books.len(),
{
    if books.len() == 0 {
        Seq::empty()
    } else {
        let i = books.len() - 1;
        encode_spec(d, books.drop_last(), sub_dim, v) + books[i][nearest_spec(
            d,
            subspace(v, i, sub_dim),
            books[i],
        )]
    }
}

/// Every element in the reduced type.
pub open spec fn reduce_all<T: Real>(s: Seq<T>) -> Seq<T::Reduced> {
    Seq::new(s.len(), |i: int| s[i].reduce_spec())
}

/// Subspace `i` of `m` lies within the first `m * sub_dim` elements.
pub proof fn lemma_subspace_bounds(i: int, m: int, sub_dim: int)
    requires
        0 <= i < m,
        0 <= sub_dim,
    ensures
        0 <= i * sub_dim,
        i * sub_dim + sub_dim == (i + 1) * sub_dim,
        (i + 1) * sub_dim <= m * sub_dim,
{
    assert(0 <= i * sub_dim) by (nonlinear_arith)
        requires
            0 <= i,
            0 <= sub_dim,
    ;
    assert(i * sub_dim + sub_dim == (i + 1) * sub_dim) by (nonlinear_arith);
    assert((i + 1) * sub_dim <= m * sub_dim) by (nonlinear_arith)
        requires
            i + 1 <= m,
            0 <= sub_dim,
    ;
}

/// The code keeps the length of the input: one centroid of `sub_dim`
/// elements for each codebook.
pub proof fn lemma_encode_len<T: Real>(
    d: Distance<T>,
    books: Seq<Seq<Seq<T>>>,
    sub_dim: int,
    v: Seq<T>,
)
    requires
        books_fit(books, sub_dim),
        0 <= sub_dim,
    ensures
        encode_spec(d, books, sub_dim, v).len() == books.len() * sub_dim,
    decreases books.len(),
{
    if books.len() > 0 {
        let i = books.len() - 1;
        let front = books.drop_last();
        assert(books_fit(front, sub_dim)) by {
            assert forall|j: int| 0 <= j < front.len() implies (#[trigger] front[j]).len() > 0
                && uniform(front[j], sub_dim) by {
                assert(front[j] == books[j]);
            }
        }
        lemma_encode_len(d, front, sub_dim, v);
        let part = subspace(v, i, sub_dim);
        lemma_argmin_in_range(distances_to(d, part, books[i]));
        lemma_subspace_bounds(i, books.len() as int, sub_dim);
    } else {
        assert(0 * sub_dim == 0);
    }
}

/// A copy of `len` elements of `v` from `start` on.
pub fn sub_vector<T: Copy>(v: &[T], start: usize, len: usize) -> (part: Vec<T>)
    requires
        start + len <= v@.len(),
    ensures
        part@ == v@.subrange(start as int, start + len),
{
    let n = v.len();
    let mut part: Vec<T> = Vec::new();
    let mut j: usize = 0;
    while j < len
        invariant
            j <= len,
            n == v@.len(),
            start + len <= n,
            part@ == v@.subrange(start as int, start + j),
        decreases len - j,
    {
        part.push(v[start + j]);
        proof {
            assert(v@.subrange(start as int, start + j + 1) =~= v@.subrange(
                start as int,
                start + j,
            ).push(v@[start + j]));
        }
        j = j + 1;
    }
    part
}

/// Subspace `i` of every training vector.
pub fn sub_training<T: Real>(data: &[Vector<T>], i: usize, sub_dim: usize, dim: usize) -> (part: Vec<
    Vector<T>,
>)
    requires
        uniform(rows(data@), dim as int),
        (i + 1) * sub_dim <= dim,
    ensures
        rows(part@) == sub_rows(rows(data@), i as int, sub_dim as int),
        part@.len() == data@.len(),
        uniform(rows(part@), sub_dim as int),
{
    proof {
        lemma_subspace_bounds(i as int, i + 1, sub_dim as int);
    }
    let start = i * sub_dim;
    let mut part: Vec<Vector<T>> = Vec::new();
    let mut t: usize = 0;
    while t < data.len()
        invariant
            t <= data@.len(),
            uniform(rows(data@), dim as int),
            start == i * sub_dim,
            start + sub_dim == (i + 1) * sub_dim,
            start + sub_dim <= dim,
            part@.len() == t,
            forall|u: int|
                0 <= u < t ==> (#[trigger] part@[u])@ == subspace(
                    data@[u]@,
                    i as int,
                    sub_dim as int,
                ),
        decreases data@.len() - t,
    {
        assert(rows(data@)[t as int] == data@[t as int]@);
        part.push(Vector::new(sub_vector(data[t].data(), start, sub_dim)));
        t = t + 1;
    }
    proof {
        assert(rows(part@) =~= sub_rows(rows(data@), i as int, sub_dim as int));
    }
    part
}

/// Learns one codebook for each of the `m` subspaces of the training
/// vectors, subspace `i` from a generator seeded with `seed + i` (wrapping).
///
/// Fails, as [`lbg_quantize`] does, with `InvalidParameter` where `k` is zero
/// or exceeds the number of training vectors.
pub fn learn_codebooks<T: Real>(
    data: &[Vector<T>],
    m: usize,
    sub_dim: usize,
    k: usize,
    max_iters: usize,
    seed: u64,
) -> (r: Result<Vec<Vec<Vector<T>>>, VqError>)
    requires
        data@.len() > 0,
        m > 0,
        m * sub_dim <= usize::MAX,
        uniform(rows(data@), m * sub_dim),
    ensures
        k == 0 ==> (r matches Err(e) && e.is_invalid_parameter("k must be greater than 0"@)),
        k > 0 && data@.len() < k ==> (r matches Err(e) && e.is_invalid_parameter(
            "Not enough data points for k clusters"@,
        )),
        r is Ok <==> 0 < k <= data@.len(),
        r matches Ok(codebooks) ==> {
            &&& codebooks@.len() == m
            &&& books_fit(books(codebooks@), sub_dim as int)
            &&& books_hold(books(codebooks@), k as int)
            &&& forall|i: int|
                0 <= i < m ==> lbg_result(
                    #[trigger] books(codebooks@)[i],
                    sub_rows(rows(data@), i, sub_dim as int),
                    k as int,
                    max_iters as nat,
                )
        },
{
    let dim = m * sub_dim;
    let mut codebooks: Vec<Vec<Vector<T>>> = Vec::new();
    let mut i: usize = 0;
    while i < m
        invariant
            i <= m,
            data@.len() > 0,
            dim == m * sub_dim,
            uniform(rows(data@), dim as int),
            i > 0 ==> 0 < k <= data@.len(),
            codebooks@.len() == i,
            books_fit(books(codebooks@), sub_dim as int),
            books_hold(books(codebooks@), k as int),
            forall|j: int|
                0 <= j < i ==> lbg_result(
                    #[trigger] books(codebooks@)[j],
                    sub_rows(rows(data@), j, sub_dim as int),
                    k as int,
                    max_iters as nat,
                ),
        decreases m - i,
    {
        proof {
            lemma_subspace_bounds(i as int, m as int, sub_dim as int);
            assert(m * sub_dim == sub_dim * m) by (nonlinear_arith);
        }
        let part = sub_training(data, i, sub_dim, dim);
        let ghost before = books(codebooks@);
        match lbg_quantize(part.as_slice(), k, max_iters, seed.wrapping_add(i as u64)) {
            Ok(codebook) => {
                proof {
                    assert(rows(part@)[0].len() == sub_dim);
                    assert(part@[0]@ == rows(part@)[0]);
                }
                codebooks.push(codebook);
                proof {
                    assert(books(codebooks@) =~= before.push(rows(codebook@)));
                    assert forall|j: int| 0 <= j < i + 1 implies lbg_result(
                        #[trigger] books(codebooks@)[j],
                        sub_rows(rows(data@), j, sub_dim as int),
                        k as int,
                        max_iters as nat,
                    ) by {
                        if j < i {
                            assert(books(codebooks@)[j] == before[j]);
                        }
                    }
                    assert(books_hold(books(codebooks@), k as int)) by {
                        assert forall|j: int| 0 <= j < i + 1 implies (#[trigger] books(
                            codebooks@,
                        )[j]).len() == k by {
                            if j < i {
                                assert(books(codebooks@)[j] == before[j]);
                            }
                        }
                    }
                    assert(books_fit(books(codebooks@), sub_dim as int)) by {
                        assert forall|j: int| 0 <= j < i + 1 implies (#[trigger] books(
                            codebooks@,
                        )[j]).len() > 0 && uniform(books(codebooks@)[j], sub_dim as int) by {
                            if j < i {
                                assert(books(codebooks@)[j] == before[j]);
                            }
                        }
                    }
                }
            },
            Err(e) => {
                proof {
                    assert(rows(part@)[0].len() == sub_dim);
                    assert(part@[0]@ == rows(part@)[0]);
                }
                return Err(e);
            },
        }
        i = i + 1;
    }
    Ok(codebooks)
}

/// Encodes `v` against the codebooks, at full precision.
pub fn encode<T: Real>(d: &Distance<T>, codebooks: &Vec<Vec<Vector<T>>>, sub_dim: usize, v: &[T]) -> (code:
    Vec<T>)
    requires
        books_fit(books(codebooks@), sub_dim as int),
        v@.len() == codebooks@.len() * sub_dim,
    ensures
        code@ == encode_spec(*d, books(codebooks@), sub_dim as int, v@),
        code@.len() == v@.len(),
{
    let ghost all = books(codebooks@);
    let m = codebooks.len();
    let n = v.len();
    let mut code: Vec<T> = Vec::new();
    let mut i: usize = 0;
    let mut start: usize = 0;
    while i < m
        invariant
            i <= m,
            m == codebooks@.len(),
            n == v@.len(),
            all == books(codebooks@),
            books_fit(all, sub_dim as int),
            v@.len() == m * sub_dim,
            start == i * sub_dim,
            code@ == encode_spec(*d, all.take(i as int), sub_dim as int, v@),
            code@.len() == start,
        decreases m - i,
    {
        proof {
            lemma_subspace_bounds(i as int, m as int, sub_dim as int);
            assert(all.take(i + 1).drop_last() =~= all.take(i as int));
            assert(all.take(i + 1)[i as int] == all[i as int]);
            assert(all[i as int] == rows(codebooks@[i as int]@));
        }
        let part = sub_vector(v, start, sub_dim);
        let codebook = &codebooks[i];
        let best = nearest(d, part.as_slice(), codebook.as_slice());
        let chosen = &codebook[best];
        assert(chosen@ == all[i as int][best as int]);
        assert(chosen@.len() == sub_dim);
        let ghost before = code@;
        let mut j: usize = 0;
        while j < sub_dim
            invariant
                j <= sub_dim,
                chosen@.len() == sub_dim,
                code@ == before + chosen@.take(j as int),
            decreases sub_dim - j,
        {
            code.push(chosen.data[j]);
            proof {
                assert(chosen@.take(j + 1) =~= chosen@.take(j as int).push(chosen@[j as int]));
                assert(before + chosen@.take(j + 1) =~= (before + chosen@.take(j as int)).push(
                    chosen@[j as int],
                ));
            }
            j = j + 1;
        }
        proof {
            assert(chosen@.take(sub_dim as int) =~= chosen@);
        }
        start = start + sub_dim;
        i = i + 1;
    }
    proof {
        assert(all.take(m as int) =~= all);
    }
    code
}

/// Every element of `v` in the reduced type.
pub fn reduce_vector<T: Real>(v: &[T]) -> (out: Vector<T::Reduced>)
    ensures
        out@ == reduce_all(v@),
        out@.len() == v@.len(),
{
    let mut out: Vec<T::Reduced> = Vec::new();
    let mut i: usize = 0;
    while i < v.len()
        invariant
            i <= v@.len(),
            out@.len() == i,
            forall|j: int| 0 <= j < i ==> out@[j] == v@[j].reduce_spec(),
        decreases v@.len() - i,
    {
        out.push(v[i].reduce());
        i = i + 1;
    }
    proof {
        assert(out@ =~= reduce_all(v@));
    }
    Vector::new(out)
}

/// `m` codebooks, one for each subspace of `sub_dim` dimensions, and the
/// metric by which centroids are chosen.
pub struct ProductQuantizer<T: Real> {
    codebooks: Vec<Vec<Vector<T>>>,
    sub_dim: usize,
    m: usize,
    distance: Distance<T>,
}

impl<T: Real> ProductQuantizer<T> {
    #[verifier::type_invariant]
    spec fn well_formed(self) -> bool {
        &&& self.m > 0
        &&& self.codebooks@.len() == self.m
        &&& self.m * self.sub_dim <= usize::MAX
        &&& books_fit(books(self.codebooks@), self.sub_dim as int)
    }

    /// The codebooks, one for each subspace.
    pub closed spec fn codebooks(self) -> Seq<Seq<Seq<T>>> {
        books(self.codebooks@)
    }

    /// The number of subspaces.
    pub closed spec fn subspaces(self) -> int {
        self.m as int
    }

    /// The number of dimensions of each subspace.
    pub closed spec fn subspace_dim(self) -> int {
        self.sub_dim as int
    }

    /// The number of dimensions of the vectors that the quantizer takes.
    pub open spec fn dim(self) -> int {
        self.subspaces() * self.subspace_dim()
    }

    /// The metric by which centroids are chosen.
    pub closed spec fn metric(self) -> Distance<T> {
        self.distance
    }

    /// Learns a product quantizer with `m` subspaces and `k` centroids for
    /// each, every centroid of as many elements as a subspace has dimensions.
    ///
    /// Fails, in this order, with `EmptyInput` where there is no training
    /// vector; with `InvalidParameter` where the dimension of the first is
    /// below `m`, or cannot be divided by `m`; with `DimensionMismatch` where
    /// the training vectors differ in length; with `InvalidParameter` where `k`
    /// is zero or exceeds the number of training vectors.
    pub fn fit(
        training_data: &[Vector<T>],
        m: usize,
        k: usize,
        max_iters: usize,
        distance: Distance<T>,
        seed: u64,
    ) -> (r: Result<Self, VqError>)
        ensures
            training_data@.len() == 0 ==> r == Err::<Self, VqError>(VqError::EmptyInput),
            training_data@.len() > 0 && training_data@[0]@.len() < m ==> (r matches Err(e)
                && e.is_invalid_parameter("Data dimension must be at least m"@)),
            training_data@.len() > 0 && training_data@[0]@.len() >= m && !splits(
                training_data@[0]@.len() as int,
                m as int,
            ) ==> (r matches Err(e) && e.is_invalid_parameter(
                "Data dimension must be divisible by m"@,
            )),
            training_data@.len() > 0 && splits(training_data@[0]@.len() as int, m as int)
                && !uniform(rows(training_data@), training_data@[0]@.len() as int) ==> exists|
                i: int,
            |
                is_first_mismatch(rows(training_data@), i) && r == Err::<Self, VqError>(
                    VqError::DimensionMismatch {
                        expected: training_data@[0].len(),
                        found: training_data@[i].len(),
                    },
                ),
            training_data@.len() > 0 && splits(training_data@[0]@.len() as int, m as int)
                && uniform(rows(training_data@), training_data@[0]@.len() as int) && k == 0 ==> (
            r matches Err(e) && e.is_invalid_parameter("k must be greater than 0"@)),
            training_data@.len() > 0 && splits(training_data@[0]@.len() as int, m as int)
                && uniform(rows(training_data@), training_data@[0]@.len() as int) && k
                > training_data@.len() ==> (r matches Err(e) && e.is_invalid_parameter(
                "Not enough data points for k clusters"@,
            )),
            r is Ok <==> training_data@.len() > 0 && splits(
                training_data@[0]@.len() as int,
                m as int,
            ) && uniform(rows(training_data@), training_data@[0]@.len() as int) && 0 < k
                <= training_data@.len(),
            r matches Ok(q) ==> {
                &&& q.subspaces() == m
                &&& q.subspace_dim() == (training_data@[0]@.len() as int) / (m as int)
                &&& q.dim() == training_data@[0]@.len()
                &&& q.metric() == distance
                &&& q.codebooks().len() == m
                &&& books_fit(q.codebooks(), q.subspace_dim())
                &&& books_hold(q.codebooks(), k as int)
                &&& forall|i: int|
                    0 <= i < m ==> lbg_result(
                        #[trigger] q.codebooks()[i],
                        sub_rows(rows(training_data@), i, q.subspace_dim()),
                        k as int,
                        max_iters as nat,
                    )
            },
    {
        if training_data.len() == 0 {
            return Err(VqError::EmptyInput);
        }
        let n = training_data[0].len();
        if n < m {
            return Err(VqError::invalid_parameter("Data dimension must be at least m"));
        }
        if m == 0 || n % m != 0 {
            return Err(VqError::invalid_parameter("Data dimension must be divisible by m"));
        }
        match common_dimension(training_data) {
            Ok(_) => {},
            Err(e) => {
                return Err(e);
            },
        }
        let sub_dim = n / m;
        proof {
            assert(m * sub_dim == n) by (nonlinear_arith)
                requires
                    m > 0,
                    n % m == 0,
                    sub_dim == n / m,
            ;
        }
        match learn_codebooks(training_data, m, sub_dim, k, max_iters, seed) {
            Ok(codebooks) => Ok(Self { codebooks, sub_dim, m, distance }),
            Err(e) => Err(e),
        }
    }

    /// The code of `vector`: for each subspace the nearest centroid of its
    /// codebook, the centroids one after the other, in the reduced type.
    ///
    /// Fails with `DimensionMismatch` where `vector` has not the dimension the
    /// quantizer was fitted for, and otherwise with `InvalidMetricParameter`
    /// where the metric is not valid.
    pub fn quantize(&self, vector: &Vector<T>) -> (r: Result<Vector<T::Reduced>, VqError>)
        ensures
            vector@.len() != self.dim() ==> r == Err::<Vector<T::Reduced>, VqError>(
                VqError::DimensionMismatch { expected: self.dim() as usize, found: vector.len() },
            ),
            vector@.len() == self.dim() && !self.metric().valid() ==> (r matches Err(e)
                && e.is_invalid_metric_parameter("Minkowski"@, "p must be positive"@)),
            vector@.len() == self.dim() && self.metric().valid() ==> (r matches Ok(code) && code@
                == reduce_all(
                encode_spec(self.metric(), self.codebooks(), self.subspace_dim(), vector@),
            ) && code@.len() == vector@.len()),
    {
        proof {
            use_type_invariant(self);
        }
        let n = vector.len();
        if n != self.m * self.sub_dim {
            return Err(VqError::DimensionMismatch { expected: self.m * self.sub_dim, found: n });
        }
        if !self.distance.is_valid() {
            return Err(VqError::invalid_metric_parameter("Minkowski", "p must be positive"));
        }
        let code = encode(&self.distance, &self.codebooks, self.sub_dim, vector.data());
        Ok(reduce_vector(code.as_slice()))
    }
}

} // verus!
