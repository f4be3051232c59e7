//! Fixed-length numeric vectors, the arithmetic they need from their elements,
//! and the mean of a set of vectors.

use crate::exceptions::VqError;
use vstd::prelude::*;
use vstd::string::StringExecFns;

verus! {

/// Operand length above which a caller may prefer a data-parallel strategy.
/// The functions of this crate reduce from left to right at every length.
pub const PARALLEL_THRESHOLD: usize = 1024;

/// The arithmetic that vectors, metrics and quantizers ask of an element type.
///
/// Each operation comes as a pair: a specification function that names the
/// mathematical result, and the executable method that must return exactly
/// that. An implementation therefore has to make every operation a function of
/// its arguments alone. Nothing else is asked: no operation is assumed to be
/// associative, commutative, or even to order its operands totally, so what the
/// crate proves holds for machine floating point as it is.
pub trait Real: Copy {
    /// The narrower element type in which codes are stored.
    type Reduced: Copy;

    spec fn zero_spec() -> Self;

    /// The additive identity.
    fn zero() -> (r: Self)
        ensures
            r == Self::zero_spec(),
    ;

    spec fn one_spec() -> Self;

    /// The multiplicative identity.
    fn one() -> (r: Self)
        ensures
            r == Self::one_spec(),
    ;

    spec fn from_usize_spec(n: usize) -> Self;

    /// The element nearest to the count `n`.
    fn from_usize(n: usize) -> (r: Self)
        ensures
            r == Self::from_usize_spec(n),
    ;

    spec fn add_spec(self, rhs: Self) -> Self;

    /// The sum.
    fn add(self, rhs: Self) -> (r: Self)
        ensures
            r == self.add_spec(rhs),
    ;

    spec fn sub_spec(self, rhs: Self) -> Self;

    /// The difference.
    fn sub(self, rhs: Self) -> (r: Self)
        ensures
            r == self.sub_spec(rhs),
    ;

    spec fn mul_spec(self, rhs: Self) -> Self;

    /// The product.
    fn mul(self, rhs: Self) -> (r: Self)
        ensures
            r == self.mul_spec(rhs),
    ;

    spec fn div_spec(self, rhs: Self) -> Self;

    /// The quotient.
    fn div(self, rhs: Self) -> (r: Self)
        ensures
            r == self.div_spec(rhs),
    ;

    spec fn sqrt_spec(self) -> Self;

    /// The square root.
    fn sqrt(self) -> (r: Self)
        ensures
            r == self.sqrt_spec(),
    ;

    spec fn abs_spec(self) -> Self;

    /// The absolute value.
    fn abs(self) -> (r: Self)
        ensures
            r == self.abs_spec(),
    ;

    spec fn powf_spec(self, n: Self) -> Self;

    /// `self` raised to the power `n`.
    fn powf(self, n: Self) -> (r: Self)
        ensures
            r == self.powf_spec(n),
    ;

    spec fn lt_spec(self, rhs: Self) -> bool;

    /// Strictly less than.
    fn lt(self, rhs: Self) -> (r: bool)
        ensures
            r == self.lt_spec(rhs),
    ;

    spec fn le_spec(self, rhs: Self) -> bool;

    /// Less than or equal to.
    fn le(self, rhs: Self) -> (r: bool)
        ensures
            r == self.le_spec(rhs),
    ;

    spec fn eq_spec(self, rhs: Self) -> bool;

    /// Numerically equal.
    fn eq(self, rhs: Self) -> (r: bool)
        ensures
            r == self.eq_spec(rhs),
    ;

    spec fn round_spec(self) -> usize;

    /// The nearest count, halves away from zero; what lies below zero gives 0
    /// and what lies above the largest count gives that count.
    fn round(self) -> (r: usize)
        ensures
            r == self.round_spec(),
    ;

    spec fn reduce_spec(self) -> Self::Reduced;

    /// The nearest value of the reduced type.
    fn reduce(self) -> (r: Self::Reduced)
        ensures
            r == self.reduce_spec(),
    ;
}

/// An ordered, fixed-length buffer of elements.
#[derive(Debug, Clone, PartialEq)]
pub struct Vector<T> {
    pub data: Vec<T>,
}

impl<T> View for Vector<T> {
    type V = Seq<T>;

    open spec fn view(&self) -> Seq<T> {
        self.data@
    }
}

/// The element sequences of a sequence of vectors.
pub open spec fn rows<T>(vectors: Seq<Vector<T>>) -> Seq<Seq<T>> {
    Seq::new(vectors.len(), |i: int| vectors[i]@)
}

/// Every sequence in `rows` has length `dim`.
pub open spec fn uniform<T>(rows: Seq<Seq<T>>, dim: int) -> bool {
    forall|i: int| 0 <= i < rows.len() ==> (#[trigger] rows[i]).len() == dim
}

/// `a[0]*b[0] + ... `, summed from the left, starting from zero.
pub open spec fn dot_spec<T: Real>(a: Seq<T>, b: Seq<T>) -> T
    decreases a.len(),
{
    if a.len() == 0 {
        T::zero_spec()
    } else {
        dot_spec(a.drop_last(), b.take(a.len() - 1)).add_spec(a.last().mul_spec(b[a.len() - 1]))
    }
}

/// The elementwise sum of two sequences of one length.
pub open spec fn add_spec<T: Real>(a: Seq<T>, b: Seq<T>) -> Seq<T> {
    Seq::new(a.len(), |i: int| a[i].add_spec(b[i]))
}

/// The elementwise difference of two sequences of one length.
pub open spec fn sub_spec<T: Real>(a: Seq<T>, b: Seq<T>) -> Seq<T> {
    Seq::new(a.len(), |i: int| a[i].sub_spec(b[i]))
}

/// Every element multiplied by `scalar` on the right.
pub open spec fn scale_spec<T: Real>(a: Seq<T>, scalar: T) -> Seq<T> {
    Seq::new(a.len(), |i: int| a[i].mul_spec(scalar))
}

/// The Euclidean norm: the square root of the dot product with itself.
pub open spec fn norm_spec<T: Real>(a: Seq<T>) -> T {
    dot_spec(a, a).sqrt_spec()
}

/// The squared distance: the dot product of the difference with itself.
pub open spec fn distance2_spec<T: Real>(a: Seq<T>, b: Seq<T>) -> T {
    dot_spec(sub_spec(a, b), sub_spec(a, b))
}

/// Coordinate `d` of the rows, summed from the first row on, starting from zero.
pub open spec fn column_sum<T: Real>(rows: Seq<Seq<T>>, d: int) -> T
    decreases rows.len(),
{
    if rows.len() == 0 {
        T::zero_spec()
    } else {
        column_sum(rows.drop_last(), d).add_spec(rows.last()[d])
    }
}

/// The coordinate-wise mean of a non-empty set of rows of one length: each
/// column sum divided by the element that stands for the number of rows.
pub open spec fn mean_spec<T: Real>(rows: Seq<Seq<T>>) -> Seq<T> {
    Seq::new(
        rows[0].len(),
        |d: int| column_sum(rows, d).div_spec(T::from_usize_spec(rows.len() as usize)),
    )
}

/// Row `i` is the first whose length differs from that of row 0.
pub open spec fn is_first_mismatch<T>(rows: Seq<Seq<T>>, i: int) -> bool {
    &&& 0 < i < rows.len()
    &&& rows[i].len() != rows[0].len()
    &&& forall|j: int| 0 <= j < i ==> (#[trigger] rows[j]).len() == rows[0].len()
}

/// A sequence of `len` zeros.
pub open spec fn zeros_spec<T: Real>(len: int) -> Seq<T> {
    Seq::new(len as nat, |i: int| T::zero_spec())
}

proof fn lemma_dot_step<T: Real>(a: Seq<T>, b: Seq<T>, i: int)
    requires
        0 <= i < a.len(),
        i < b.len(),
    ensures
        dot_spec(a.take(i + 1), b.take(i + 1)) == dot_spec(a.take(i), b.take(i)).add_spec(
            a[i].mul_spec(b[i]),
        ),
{
    assert(a.take(i + 1).drop_last() =~= a.take(i));
    assert(b.take(i + 1).take(i) =~= b.take(i));
}

proof fn lemma_column_sum_step<T: Real>(rows: Seq<Seq<T>>, i: int, d: int)
    requires
        0 <= i < rows.len(),
    ensures
        column_sum(rows.take(i + 1), d) == column_sum(rows.take(i), d).add_spec(rows[i][d]),
{
    assert(rows.take(i + 1).drop_last() =~= rows.take(i));
}

/// The dot product of two slices of one length.
pub fn dot_slices<T: Real>(a: &[T], b: &[T]) -> (r: T)
    requires
        a@.len() == b@.len(),
    ensures
        r == dot_spec(a@, b@),
{
    let mut acc = T::zero();
    let mut i: usize = 0;
    while i < a.len()
        invariant
            i <= a@.len(),
            a@.len() == b@.len(),
            acc == dot_spec(a@.take(i as int), b@.take(i as int)),
        decreases a@.len() - i,
    {
        proof {
            lemma_dot_step(a@, b@, i as int);
        }
        acc = acc.add(a[i].mul(b[i]));
        i = i + 1;
    }
    proof {
        assert(a@.take(a@.len() as int) =~= a@);
        assert(b@.take(a@.len() as int) =~= b@);
    }
    acc
}

/// The elementwise difference of two slices of one length.
pub fn sub_slices<T: Real>(a: &[T], b: &[T]) -> (r: Vec<T>)
    requires
        a@.len() == b@.len(),
    ensures
        r@ == sub_spec(a@, b@),
{
    let mut out: Vec<T> = Vec::new();
    let mut i: usize = 0;
    while i < a.len()
        invariant
            i <= a@.len(),
            a@.len() == b@.len(),
            out@.len() == i,
            forall|j: int| 0 <= j < i ==> out@[j] == a@[j].sub_spec(b@[j]),
        decreases a@.len() - i,
    {
        out.push(a[i].sub(b[i]));
        i = i + 1;
    }
    proof {
        assert(out@ =~= sub_spec(a@, b@));
    }
    out
}

/// The elementwise sum of two slices of one length.
pub fn add_slices<T: Real>(a: &[T], b: &[T]) -> (r: Vec<T>)
    requires
        a@.len() == b@.len(),
    ensures
        r@ == add_spec(a@, b@),
{
    let mut out: Vec<T> = Vec::new();
    let mut i: usize = 0;
    while i < a.len()
        invariant
            i <= a@.len(),
            a@.len() == b@.len(),
            out@.len() == i,
            forall|j: int| 0 <= j < i ==> out@[j] == a@[j].add_spec(b@[j]),
        decreases a@.len() - i,
    {
        out.push(a[i].add(b[i]));
        i = i + 1;
    }
    proof {
        assert(out@ =~= add_spec(a@, b@));
    }
    out
}

/// A buffer of `len` zeros.
pub fn zeros<T: Real>(len: usize) -> (r: Vec<T>)
    ensures
        r@ == zeros_spec::<T>(len as int),
{
    let mut out: Vec<T> = Vec::new();
    let mut i: usize = 0;
    while i < len
        invariant
            i <= len,
            out@.len() == i,
            forall|j: int| 0 <= j < i ==> out@[j] == T::zero_spec(),
        decreases len - i,
    {
        out.push(T::zero());
        i = i + 1;
    }
    proof {
        assert(out@ =~= zeros_spec::<T>(len as int));
    }
    out
}

/// A copy of a slice of elements.
pub fn copy_slice<T: Copy>(a: &[T]) -> (r: Vec<T>)
    ensures
        r@ == a@,
{
    let mut out: Vec<T> = Vec::new();
    let mut i: usize = 0;
    while i < a.len()
        invariant
            i <= a@.len(),
            out@ == a@.take(i as int),
        decreases a@.len() - i,
    {
        out.push(a[i]);
        proof {
            assert(a@.take(i + 1) =~= a@.take(i as int).push(a@[i as int]));
        }
        i = i + 1;
    }
    proof {
        assert(a@.take(a@.len() as int) =~= a@);
    }
    out
}

impl<T> Vector<T> {
    /// Takes ownership of a buffer.
    pub fn new(data: Vec<T>) -> (v: Self)
        ensures
            v@ == data@,
            v.data == data,
    {
        Self { data }
    }

    /// The number of elements, as contracts see it.
    pub open spec fn spec_len(&self) -> usize {
        self.data.len()
    }

    /// The number of elements.
    #[verifier::when_used_as_spec(spec_len)]
    pub fn len(&self) -> (n: usize)
        ensures
            n == self@.len(),
            n == self.spec_len(),
    {
        self.data.len()
    }

    /// Whether there is no element.
    pub fn is_empty(&self) -> (b: bool)
        ensures
            b == (self@.len() == 0),
    {
        self.data.len() == 0
    }

    /// The elements, in order.
    pub fn data(&self) -> (s: &[T])
        ensures
            s@ == self@,
    {
        self.data.as_slice()
    }
}

impl<T: Real> Vector<T> {
    /// The dot product, or `DimensionMismatch` where the lengths differ.
    pub fn dot(&self, other: &Vector<T>) -> (r: Result<T, VqError>)
        ensures
            self@.len() != other@.len() ==> r == Err::<T, VqError>(
                VqError::DimensionMismatch { expected: self.len(), found: other.len() },
            ),
            self@.len() == other@.len() ==> r == Ok::<T, VqError>(dot_spec(self@, other@)),
    {
        if self.data.len() != other.data.len() {
            return Err(
                VqError::DimensionMismatch { expected: self.data.len(), found: other.data.len() },
            );
        }
        Ok(dot_slices(self.data.as_slice(), other.data.as_slice()))
    }

    /// The Euclidean norm.
    pub fn norm(&self) -> (r: T)
        ensures
            r == norm_spec(self@),
    {
        dot_slices(self.data.as_slice(), self.data.as_slice()).sqrt()
    }

    /// The squared distance, or `DimensionMismatch` where the lengths differ.
    pub fn distance2(&self, other: &Vector<T>) -> (r: Result<T, VqError>)
        ensures
            self@.len() != other@.len() ==> r == Err::<T, VqError>(
                VqError::DimensionMismatch { expected: self.len(), found: other.len() },
            ),
            self@.len() == other@.len() ==> r == Ok::<T, VqError>(distance2_spec(self@, other@)),
    {
        if self.data.len() != other.data.len() {
            return Err(
                VqError::DimensionMismatch { expected: self.data.len(), found: other.data.len() },
            );
        }
        let diff = sub_slices(self.data.as_slice(), other.data.as_slice());
        Ok(dot_slices(diff.as_slice(), diff.as_slice()))
    }

    /// The elementwise sum, or `DimensionMismatch` where the lengths differ.
    pub fn add(&self, rhs: &Vector<T>) -> (r: Result<Vector<T>, VqError>)
        ensures
            self@.len() != rhs@.len() ==> r == Err::<Vector<T>, VqError>(
                VqError::DimensionMismatch { expected: self.len(), found: rhs.len() },
            ),
            self@.len() == rhs@.len() ==> (r matches Ok(sum) && sum@ == add_spec(self@, rhs@)),
    {
        if self.data.len() != rhs.data.len() {
            return Err(
                VqError::DimensionMismatch { expected: self.data.len(), found: rhs.data.len() },
            );
        }
        Ok(Vector { data: add_slices(self.data.as_slice(), rhs.data.as_slice()) })
    }

    /// The elementwise difference, or `DimensionMismatch` where the lengths differ.
    pub fn sub(&self, rhs: &Vector<T>) -> (r: Result<Vector<T>, VqError>)
        ensures
            self@.len() != rhs@.len() ==> r == Err::<Vector<T>, VqError>(
                VqError::DimensionMismatch { expected: self.len(), found: rhs.len() },
            ),
            self@.len() == rhs@.len() ==> (r matches Ok(diff) && diff@ == sub_spec(self@, rhs@)),
    {
        if self.data.len() != rhs.data.len() {
            return Err(
                VqError::DimensionMismatch { expected: self.data.len(), found: rhs.data.len() },
            );
        }
        Ok(Vector { data: sub_slices(self.data.as_slice(), rhs.data.as_slice()) })
    }

    /// Every element multiplied by `scalar`.
    pub fn mul(&self, scalar: T) -> (r: Vector<T>)
        ensures
            r@ == scale_spec(self@, scalar),
    {
        let mut out: Vec<T> = Vec::new();
        let mut i: usize = 0;
        while i < self.data.len()
            invariant
                i <= self@.len(),
                out@.len() == i,
                forall|j: int| 0 <= j < i ==> out@[j] == self@[j].mul_spec(scalar),
            decreases self@.len() - i,
        {
            out.push(self.data[i].mul(scalar));
            i = i + 1;
        }
        proof {
            assert(out@ =~= scale_spec(self@, scalar));
        }
        Vector { data: out }
    }

    /// A vector with the same elements.
    pub fn duplicate(&self) -> (r: Vector<T>)
        ensures
            r@ == self@,
    {
        Vector { data: copy_slice(self.data.as_slice()) }
    }
}

/// The rendered elements, each two neighbours separated by `", "`.
pub open spec fn joined_spec(rendered: Seq<String>) -> Seq<char>
    decreases rendered.len(),
{
    if rendered.len() == 0 {
        Seq::empty()
    } else if rendered.len() == 1 {
        rendered[0]@
    } else {
        joined_spec(rendered.drop_last()) + ", "@ + rendered.last()@
    }
}

/// The text of a vector whose elements are rendered as given: `Vector [a, b, c]`.
pub open spec fn display_spec(rendered: Seq<String>) -> Seq<char> {
    "Vector ["@ + joined_spec(rendered) + "]"@
}

/// The text of a vector from the texts of its elements, in order.
pub fn display_vector(rendered: &[String]) -> (text: String)
    ensures
        text@ == display_spec(rendered@),
{
    let mut text = "Vector [".to_owned();
    let mut i: usize = 0;
    while i < rendered.len()
        invariant
            i <= rendered@.len(),
            text@ == "Vector ["@ + joined_spec(rendered@.take(i as int)),
        decreases rendered@.len() - i,
    {
        let ghost before = joined_spec(rendered@.take(i as int));
        proof {
            assert(rendered@.take(i + 1).drop_last() =~= rendered@.take(i as int));
            assert(rendered@.take(i + 1).last() == rendered@[i as int]);
        }
        if i > 0 {
            text = text.concat(", ");
            text = text.concat(rendered[i].as_str());
            proof {
                assert(text@ =~= "Vector ["@ + (before + ", "@ + rendered@[i as int]@));
            }
        } else {
            text = text.concat(rendered[i].as_str());
            proof {
                assert(rendered@.take(1)[0] == rendered@[0]);
                assert(before =~= Seq::<char>::empty());
                assert(text@ =~= "Vector ["@ + rendered@[0]@);
            }
        }
        i = i + 1;
    }
    proof {
        assert(rendered@.take(rendered@.len() as int) =~= rendered@);
    }
    text.concat("]")
}

/// The length shared by all the vectors: `EmptyInput` where there is none,
/// `DimensionMismatch` naming the first vector whose length differs from that
/// of the first.
pub fn common_dimension<T>(vectors: &[Vector<T>]) -> (r: Result<usize, VqError>)
    ensures
        vectors@.len() == 0 ==> r == Err::<usize, VqError>(VqError::EmptyInput),
        r is Ok <==> vectors@.len() > 0 && uniform(rows(vectors@), vectors@[0]@.len() as int),
        r is Ok ==> r == Ok::<usize, VqError>(vectors@[0].len()),
        vectors@.len() > 0 && !uniform(rows(vectors@), vectors@[0]@.len() as int) ==> exists|
            i: int,
        |
            is_first_mismatch(rows(vectors@), i) && r == Err::<usize, VqError>(
                VqError::DimensionMismatch { expected: vectors@[0].len(), found: vectors@[i].len() },
            ),
{
    if vectors.len() == 0 {
        return Err(VqError::EmptyInput);
    }
    let dim = vectors[0].len();
    let mut i: usize = 1;
    while i < vectors.len()
        invariant
            1 <= i <= vectors@.len(),
            dim == vectors@[0]@.len(),
            forall|j: int| 0 <= j < i ==> (#[trigger] rows(vectors@)[j]).len() == dim,
        decreases vectors@.len() - i,
    {
        if vectors[i].len() != dim {
            proof {
                assert(rows(vectors@)[i as int].len() != dim);
                assert(is_first_mismatch(rows(vectors@), i as int));
            }
            return Err(VqError::DimensionMismatch { expected: dim, found: vectors[i].len() });
        }
        i = i + 1;
    }
    Ok(dim)
}

/// The coordinate-wise mean of the vectors. Fails as [`common_dimension`] does.
pub fn mean_vector<T: Real>(vectors: &[Vector<T>]) -> (r: Result<Vector<T>, VqError>)
    ensures
        vectors@.len() == 0 ==> r == Err::<Vector<T>, VqError>(VqError::EmptyInput),
        r is Ok <==> vectors@.len() > 0 && uniform(rows(vectors@), vectors@[0]@.len() as int),
        r matches Ok(mean) ==> mean@ == mean_spec(rows(vectors@)),
        vectors@.len() > 0 && !uniform(rows(vectors@), vectors@[0]@.len() as int) ==> exists|
            i: int,
        |
            is_first_mismatch(rows(vectors@), i) && r == Err::<Vector<T>, VqError>(
                VqError::DimensionMismatch { expected: vectors@[0].len(), found: vectors@[i].len() },
            ),
{
    let dim = match common_dimension(vectors) {
        Ok(dim) => dim,
        Err(e) => {
            return Err(e);
        },
    };
    Ok(mean_of_uniform(vectors, dim))
}

/// The mean of a non-empty set of vectors known to share the length `dim`.
pub fn mean_of_uniform<T: Real>(vectors: &[Vector<T>], dim: usize) -> (mean: Vector<T>)
    requires
        vectors@.len() > 0,
        uniform(rows(vectors@), dim as int),
    ensures
        mean@ == mean_spec(rows(vectors@)),
{
    let ghost all = rows(vectors@);
    let mut sum: Vec<T> = zeros(dim);
    let mut i: usize = 0;
    while i < vectors.len()
        invariant
            i <= vectors@.len(),
            all == rows(vectors@),
            uniform(all, dim as int),
            sum@.len() == dim,
            forall|d: int| 0 <= d < dim ==> sum@[d] == column_sum(all.take(i as int), d),
        decreases vectors@.len() - i,
    {
        let v = &vectors[i];
        assert(all[i as int] == v@);
        assert(v@.len() == dim);
        let mut d: usize = 0;
        while d < dim
            invariant
                d <= dim,
                i < vectors@.len(),
                all == rows(vectors@),
                v@ == all[i as int],
                v@.len() == dim,
                sum@.len() == dim,
                forall|e: int| 0 <= e < d ==> sum@[e] == column_sum(all.take(i + 1), e),
                forall|e: int| d <= e < dim ==> sum@[e] == column_sum(all.take(i as int), e),
            decreases dim - d,
        {
            proof {
                lemma_column_sum_step(all, i as int, d as int);
            }
            let s = sum[d].add(v.data[d]);
            sum.set(d, s);
            d = d + 1;
        }
        i = i + 1;
    }
    proof {
        assert(all.take(vectors@.len() as int) =~= all);
    }
    let n = T::from_usize(vectors.len());
    let mut out: Vec<T> = Vec::new();
    let mut d: usize = 0;
    while d < dim
        invariant
            d <= dim,
            sum@.len() == dim,
            out@.len() == d,
            n == T::from_usize_spec(vectors@.len() as usize),
            forall|e: int| 0 <= e < dim ==> sum@[e] == column_sum(all, e),
            forall|e: int| 0 <= e < d ==> out@[e] == column_sum(all, e).div_spec(n),
        decreases dim - d,
    {
        out.push(sum[d].div(n));
        d = d + 1;
    }
    proof {
        assert(all[0].len() == dim);
        assert(out@ =~= mean_spec(all));
    }
    Vector { data: out }
}

} // verus!
