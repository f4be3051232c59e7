//! The tree-structured quantizer: a binary tree of centroids, grown by
//! splitting the training vectors at the median of their widest dimension.

use crate::distances::{distance_spec, Distance};
use crate::exceptions::VqError;
use crate::pq::{reduce_all, reduce_vector};
use crate::vector::{common_dimension, is_first_mismatch, mean_of_uniform, mean_spec, rows, uniform, Real, Vector};
use vstd::prelude::*;

verus! {

/// Coordinate `d` of every row.
pub open spec fn column<T>(data: Seq<Seq<T>>, d: int) -> Seq<T> {
    Seq::new(data.len(), |t: int| data[t][d])
}

/// The squared deviations of coordinate `d` from the centroid, summed from
/// the first row on, starting from zero.
pub open spec fn spread_spec<T: Real>(data: Seq<Seq<T>>, centroid: Seq<T>, d: int) -> T
    decreases data.len(),
{
    if data.len() == 0 {
        T::zero_spec()
    } else {
        let diff = data.last()[d].sub_spec(centroid[d]);
        spread_spec(data.drop_last(), centroid, d).add_spec(diff.mul_spec(diff))
    }
}

/// The spread of every coordinate.
pub open spec fn spreads_spec<T: Real>(data: Seq<Seq<T>>, centroid: Seq<T>) -> Seq<T> {
    Seq::new(centroid.len(), |d: int| spread_spec(data, centroid, d))
}

/// The scan for the largest value. The index moves on to every value that is
/// not strictly smaller, so of several equal values the last is kept.
pub open spec fn argmax_spec<T: Real>(values: Seq<T>) -> int
    decreases values.len(),
{
    if values.len() <= 1 {
        0
    } else {
        let best = argmax_spec(values.drop_last());
        if values.last().lt_spec(values[best]) {
            best
        } else {
            values.len() - 1
        }
    }
}

/// `x` put into an ordered sequence behind every value that it is not strictly less than.
pub open spec fn insert_spec<T: Real>(sorted: Seq<T>, x: T) -> Seq<T>
    decreases sorted.len(),
{
    if sorted.len() == 0 {
        seq![x]
    } else if x.lt_spec(sorted.last()) {
        insert_spec(sorted.drop_last(), x).push(sorted.last())
    } else {
        sorted.push(x)
    }
}

/// The values in ascending order, equal values in their first order.
pub open spec fn sort_spec<T: Real>(values: Seq<T>) -> Seq<T>
    decreases values.len(),
{
    if values.len() == 0 {
        Seq::empty()
    } else {
        insert_spec(sort_spec(values.drop_last()), values.last())
    }
}

/// The median of a non-empty sequence: the middle value of the ordered
/// sequence, or the mean of the two middle values where the count is even.
pub open spec fn median_spec<T: Real>(values: Seq<T>) -> T {
    let sorted = sort_spec(values);
    let half = values.len() / 2;
    if values.len() % 2 == 0 {
        sorted[half - 1].add_spec(sorted[half as int]).div_spec(T::from_usize_spec(2))
    } else {
        sorted[half as int]
    }
}

/// The rows whose coordinate `split` is at or below `median` (`low`), or the
/// other rows, in the order of `data`.
pub open spec fn side_spec<T: Real>(data: Seq<Seq<T>>, split: int, median: T, low: bool) -> Seq<Seq<T>>
    decreases data.len(),
{
    if data.len() == 0 {
        Seq::empty()
    } else {
        let before = side_spec(data.drop_last(), split, median, low);
        if data.last()[split].le_spec(median) == low {
            before.push(data.last())
        } else {
            before
        }
    }
}

/// A tree of centroids as contracts see it.
pub struct TreeView<T> {
    pub centroid: Seq<T>,
    pub left: Option<Box<TreeView<T>>>,
    pub right: Option<Box<TreeView<T>>>,
}

/// The subtree grown from one side of a split: none where the side is empty
/// or holds every row.
pub open spec fn child_spec<T: Real>(side: Seq<Seq<T>>, total: nat, depth: nat) -> Option<Box<TreeView<T>>>
    decreases depth, 1nat,
{
    if 0 < side.len() < total {
        Some(Box::new(build_spec(side, depth)))
    } else {
        None
    }
}

/// The dimension along which a node splits its rows.
pub open spec fn split_spec<T: Real>(data: Seq<Seq<T>>) -> int {
    argmax_spec(spreads_spec(data, mean_spec(data)))
}

/// The value at which a node splits its rows.
pub open spec fn cut_spec<T: Real>(data: Seq<Seq<T>>) -> T {
    median_spec(column(data, split_spec(data)))
}

/// The tree grown from a non-empty set of rows of one length.
///
/// The centroid is the mean of the rows. The node is a leaf where no depth is
/// left, where there is at most one row, or where the rows have no
/// dimension. Otherwise the rows are split at the median of the dimension
/// of largest spread, and each side grows a subtree with one level less.
pub open spec fn build_spec<T: Real>(data: Seq<Seq<T>>, max_depth: nat) -> TreeView<T>
    decreases max_depth, 0nat,
{
    let centroid = mean_spec(data);
    if max_depth == 0 || data.len() <= 1 || data[0].len() == 0 {
        TreeView { centroid, left: None, right: None }
    } else {
        let split = split_spec(data);
        let median = cut_spec(data);
        TreeView {
            centroid,
            left: child_spec(
                side_spec(data, split, median, true),
                data.len(),
                (max_depth - 1) as nat,
            ),
            right: child_spec(
                side_spec(data, split, median, false),
                data.len(),
                (max_depth - 1) as nat,
            ),
        }
    }
}

/// Every centroid of the tree has `dim` elements.
pub open spec fn fits<T>(tree: TreeView<T>, dim: int) -> bool
    decreases tree,
{
    &&& tree.centroid.len() == dim
    &&& match tree.left {
        Some(left) => fits(*left, dim),
        None => true,
    }
    &&& match tree.right {
        Some(right) => fits(*right, dim),
        None => true,
    }
}

/// The leaf that `v` reaches: at a node with two children the descent
/// follows the child whose centroid is nearer, the left one where both are
/// equally near; at a node with one child it follows that child.
pub open spec fn descend_spec<T: Real>(tree: TreeView<T>, v: Seq<T>, d: Distance<T>) -> TreeView<T>
    decreases tree,
{
    match (tree.left, tree.right) {
        (Some(left), Some(right)) => if distance_spec(d, v, left.centroid).le_spec(
            distance_spec(d, v, right.centroid),
        ) {
            descend_spec(*left, v, d)
        } else {
            descend_spec(*right, v, d)
        },
        (Some(left), None) => descend_spec(*left, v, d),
        (None, Some(right)) => descend_spec(*right, v, d),
        (None, None) => tree,
    }
}

proof fn lemma_insert_position<T: Real>(sorted: Seq<T>, x: T, p: int)
    requires
        0 <= p <= sorted.len(),
        forall|j: int| p <= j < sorted.len() ==> x.lt_spec(#[trigger] sorted[j]),
        p > 0 ==> !x.lt_spec(sorted[p - 1]),
    ensures
        insert_spec(sorted, x) == sorted.insert(p, x),
    decreases sorted.len(),
{
    if sorted.len() == 0 {
        assert(seq![x] =~= sorted.insert(p, x));
    } else if p == sorted.len() {
        assert(sorted.push(x) =~= sorted.insert(p, x));
    } else {
        let front = sorted.drop_last();
        assert(x.lt_spec(sorted[sorted.len() - 1]));
        assert forall|j: int| p <= j < front.len() implies x.lt_spec(#[trigger] front[j]) by {
            assert(front[j] == sorted[j]);
        }
        if p > 0 {
            assert(front[p - 1] == sorted[p - 1]);
        }
        lemma_insert_position(front, x, p);
        assert(front.insert(p, x).push(sorted.last()) =~= sorted.insert(p, x));
    }
}

/// Where "strictly less" orders the values as a strict weak order does, the
/// scan returns a greatest value, and the last of them.
pub proof fn lemma_argmax_is_last_greatest<T: Real>(values: Seq<T>)
    requires
        values.len() > 0,
        forall|i: int, j: int, l: int|
            0 <= i < values.len() && 0 <= j < values.len() && 0 <= l < values.len()
                && !(#[trigger] values[j].lt_spec(values[i])) && !(#[trigger] values[l].lt_spec(
                values[j],
            )) ==> !values[l].lt_spec(values[i]),
        forall|i: int, j: int|
            0 <= i < values.len() && 0 <= j < values.len() && #[trigger] values[i].lt_spec(
                values[j],
            ) ==> !values[j].lt_spec(values[i]),
    ensures
        0 <= argmax_spec(values) < values.len(),
        forall|j: int|
            0 <= j < values.len() ==> !values[argmax_spec(values)].lt_spec(#[trigger] values[j]),
        forall|j: int|
            argmax_spec(values) < j < values.len() ==> (#[trigger] values[j]).lt_spec(
                values[argmax_spec(values)],
            ),
    decreases values.len(),
{
    if values.len() > 1 {
        let front = values.drop_last();
        let n = values.len() - 1;
        assert(forall|j: int| 0 <= j < n ==> front[j] == values[j]);
        lemma_argmax_is_last_greatest(front);
        let best = argmax_spec(front);
        if values[n].lt_spec(values[best]) {
            assert forall|j: int| 0 <= j < values.len() implies !values[best].lt_spec(
                #[trigger] values[j],
            ) by {
                if j < n {
                    assert(!front[best].lt_spec(front[j]));
                }
            }
            assert forall|j: int| best < j < values.len() implies (#[trigger] values[j]).lt_spec(
                values[best],
            ) by {
                if j < n {
                    assert(front[j].lt_spec(front[best]));
                }
            }
        } else {
            assert forall|j: int| 0 <= j < values.len() implies !values[n].lt_spec(
                #[trigger] values[j],
            ) by {
                if j < n {
                    assert(!front[best].lt_spec(front[j]));
                    assert(!values[best].lt_spec(values[j]));
                    assert(!values[n].lt_spec(values[best]));
                } else {
                    if values[n].lt_spec(values[n]) {
                        assert(!values[n].lt_spec(values[n]));
                    }
                }
            }
        }
    } else {
        if values[0].lt_spec(values[0]) {
            assert(!values[0].lt_spec(values[0]));
        }
    }
}

/// Where `x` lands in an ordered sequence: behind every value that it is not
/// strictly less than.
pub open spec fn position_spec<T: Real>(sorted: Seq<T>, x: T) -> int
    decreases sorted.len(),
{
    if sorted.len() == 0 {
        0
    } else if x.lt_spec(sorted.last()) {
        position_spec(sorted.drop_last(), x)
    } else {
        sorted.len() as int
    }
}

/// No later value is strictly less than an earlier one.
pub open spec fn ascending<T: Real>(s: Seq<T>) -> bool {
    forall|i: int, j: int| 0 <= i < j < s.len() ==> !(#[trigger] s[j]).lt_spec(#[trigger] s[i])
}

/// On the values of `s`, "strictly less" behaves as a strict weak order
/// does: of two values at most one is less than the other, and a value that
/// is not less than a second, which is not less than a third, is not less
/// than the third.
pub open spec fn weakly_ordered<T: Real>(s: Seq<T>) -> bool {
    &&& forall|a: T, b: T|
        s.contains(a) && s.contains(b) && #[trigger] a.lt_spec(b) ==> !b.lt_spec(a)
    &&& forall|a: T, b: T, c: T|
        s.contains(a) && s.contains(b) && s.contains(c) && !(#[trigger] b.lt_spec(a)) && !(
        #[trigger] c.lt_spec(b)) ==> !c.lt_spec(a)
}

proof fn lemma_position<T: Real>(sorted: Seq<T>, x: T)
    ensures
        0 <= position_spec(sorted, x) <= sorted.len(),
        forall|j: int|
            position_spec(sorted, x) <= j < sorted.len() ==> x.lt_spec(#[trigger] sorted[j]),
        position_spec(sorted, x) > 0 ==> !x.lt_spec(sorted[position_spec(sorted, x) - 1]),
        insert_spec(sorted, x) == sorted.insert(position_spec(sorted, x), x),
    decreases sorted.len(),
{
    if sorted.len() > 0 && x.lt_spec(sorted.last()) {
        let front = sorted.drop_last();
        lemma_position(front, x);
        let p = position_spec(front, x);
        assert forall|j: int| p <= j < sorted.len() implies x.lt_spec(#[trigger] sorted[j]) by {
            if j < front.len() {
                assert(front[j] == sorted[j]);
            }
        }
        if p > 0 {
            assert(front[p - 1] == sorted[p - 1]);
        }
    }
    lemma_insert_position(sorted, x, position_spec(sorted, x));
}

/// Sorting rearranges: the ordered sequence holds every value as often as
/// the input does.
pub proof fn lemma_sort_permutes<T: Real>(values: Seq<T>)
    ensures
        sort_spec(values).to_multiset() == values.to_multiset(),
        sort_spec(values).len() == values.len(),
    decreases values.len(),
{
    if values.len() > 0 {
        let front = values.drop_last();
        let x = values.last();
        lemma_sort_permutes(front);
        lemma_position(sort_spec(front), x);
        vstd::seq_lib::to_multiset_insert(sort_spec(front), position_spec(sort_spec(front), x), x);
        vstd::seq_lib::to_multiset_build(front, x);
        assert(front.push(x) =~= values);
    } else {
        assert(sort_spec(values) =~= values);
    }
}

/// Sorting orders: where "strictly less" behaves on the values as a strict
/// weak order does, no value of the ordered sequence is strictly less than
/// one before it.
pub proof fn lemma_sort_ascends<T: Real>(values: Seq<T>)
    requires
        weakly_ordered(values),
    ensures
        ascending(sort_spec(values)),
    decreases values.len(),
{
    if values.len() > 0 {
        let front = values.drop_last();
        let x = values.last();
        let s = sort_spec(front);
        assert forall|a: T| front.contains(a) implies values.contains(a) by {
            let i = choose|i: int| 0 <= i < front.len() && front[i] == a;
            assert(values[i] == a);
        }
        assert(values.contains(x)) by {
            assert(values[values.len() - 1] == x);
        }
        assert(weakly_ordered(front));
        lemma_sort_ascends(front);
        lemma_sort_permutes(front);
        assert forall|i: int| 0 <= i < s.len() implies values.contains(#[trigger] s[i]) by {
            vstd::seq_lib::to_multiset_contains(s, s[i]);
            vstd::seq_lib::to_multiset_contains(front, s[i]);
            assert(s.contains(s[i]));
        }
        lemma_position(s, x);
        let p = position_spec(s, x);
        let r = s.insert(p, x);
        assert forall|i: int, j: int| 0 <= i < j < r.len() implies !(#[trigger] r[j]).lt_spec(
            #[trigger] r[i],
        ) by {
            if j < p {
                assert(r[i] == s[i] && r[j] == s[j]);
            } else if j == p {
                assert(r[j] == x && r[i] == s[i]);
                assert(!x.lt_spec(s[p - 1]));
                if i < p - 1 {
                    assert(!s[p - 1].lt_spec(s[i]));
                    assert(values.contains(s[i]) && values.contains(s[p - 1]));
                    assert(!x.lt_spec(s[i]));
                }
            } else if i == p {
                assert(r[i] == x && r[j] == s[j - 1]);
                assert(x.lt_spec(s[j - 1]));
                assert(values.contains(s[j - 1]));
            } else if i < p {
                assert(r[i] == s[i] && r[j] == s[j - 1]);
            } else {
                assert(r[i] == s[i - 1] && r[j] == s[j - 1]);
            }
        }
    }
}

proof fn lemma_side_uniform<T: Real>(data: Seq<Seq<T>>, split: int, median: T, low: bool, dim: int)
    requires
        uniform(data, dim),
    ensures
        uniform(side_spec(data, split, median, low), dim),
        side_spec(data, split, median, low).len() <= data.len(),
    decreases data.len(),
{
    if data.len() > 0 {
        let front = data.drop_last();
        assert(uniform(front, dim)) by {
            assert forall|i: int| 0 <= i < front.len() implies (#[trigger] front[i]).len() == dim by {
                assert(front[i] == data[i]);
            }
        }
        lemma_side_uniform(front, split, median, low, dim);
    }
}

proof fn lemma_side_all<T: Real>(data: Seq<Seq<T>>, split: int, median: T)
    requires
        forall|t: int| 0 <= t < data.len() ==> (#[trigger] data[t])[split].le_spec(median),
    ensures
        side_spec(data, split, median, true) == data,
        side_spec(data, split, median, false).len() == 0,
    decreases data.len(),
{
    if data.len() > 0 {
        let front = data.drop_last();
        assert forall|t: int| 0 <= t < front.len() implies (#[trigger] front[t])[split].le_spec(
            median,
        ) by {
            assert(front[t] == data[t]);
        }
        lemma_side_all(front, split, median);
        assert(data[data.len() - 1][split].le_spec(median));
        assert(front.push(data.last()) =~= data);
    } else {
        assert(side_spec(data, split, median, true) =~= data);
    }
}

/// A split that leaves every row at or below the median does not divide the
/// rows: the node is a leaf, whatever depth is left.
pub proof fn lemma_degenerate_split_is_leaf<T: Real>(data: Seq<Seq<T>>, max_depth: nat)
    requires
        data.len() > 0,
        forall|t: int|
            0 <= t < data.len() ==> (#[trigger] data[t])[split_spec(data)].le_spec(cut_spec(data)),
    ensures
        build_spec(data, max_depth).left is None,
        build_spec(data, max_depth).right is None,
        build_spec(data, max_depth).centroid == mean_spec(data),
{
    lemma_side_all(data, split_spec(data), cut_spec(data));
}

/// The values in ascending order, equal values in their first order.
pub fn insertion_sort<T: Real>(values: &Vec<T>) -> (sorted: Vec<T>)
    ensures
        sorted@ == sort_spec(values@),
        sorted@.len() == values@.len(),
{
    let mut sorted: Vec<T> = Vec::new();
    let mut i: usize = 0;
    while i < values.len()
        invariant
            i <= values@.len(),
            sorted@.len() == i,
            sorted@ == sort_spec(values@.take(i as int)),
        decreases values@.len() - i,
    {
        let x = values[i];
        let mut p: usize = sorted.len();
        while p > 0 && x.lt(sorted[p - 1])
            invariant
                p <= sorted@.len(),
                forall|j: int| p <= j < sorted@.len() ==> x.lt_spec(#[trigger] sorted@[j]),
            decreases p,
        {
            p = p - 1;
        }
        proof {
            lemma_insert_position(sorted@, x, p as int);
            assert(values@.take(i + 1).drop_last() =~= values@.take(i as int));
        }
        sorted.insert(p, x);
        i = i + 1;
    }
    proof {
        assert(values@.take(values@.len() as int) =~= values@);
    }
    sorted
}

/// The median of a non-empty list of values.
pub fn median<T: Real>(values: &Vec<T>) -> (m: T)
    requires
        values@.len() > 0,
    ensures
        m == median_spec(values@),
{
    let sorted = insertion_sort(values);
    let half = values.len() / 2;
    if values.len() % 2 == 0 {
        sorted[half - 1].add(sorted[half]).div(T::from_usize(2))
    } else {
        sorted[half]
    }
}

/// The index of the largest value, the last of them where several are equal.
pub fn argmax<T: Real>(values: &Vec<T>) -> (best: usize)
    requires
        values@.len() > 0,
    ensures
        best == argmax_spec(values@),
        best < values@.len(),
{
    let mut best: usize = 0;
    let mut j: usize = 1;
    assert(values@.take(1).len() == 1);
    while j < values.len()
        invariant
            1 <= j <= values@.len(),
            best < j,
            best == argmax_spec(values@.take(j as int)),
        decreases values@.len() - j,
    {
        proof {
            assert(values@.take(j + 1).drop_last() =~= values@.take(j as int));
            assert(values@.take(j + 1).last() == values@[j as int]);
            assert(values@.take(j + 1)[best as int] == values@[best as int]);
        }
        if !values[j].lt(values[best]) {
            best = j;
        }
        j = j + 1;
    }
    proof {
        assert(values@.take(values@.len() as int) =~= values@);
    }
    best
}

/// The spread of every coordinate of the rows about `centroid`.
pub fn spreads<T: Real>(data: &[Vector<T>], centroid: &Vector<T>, dim: usize) -> (out: Vec<T>)
    requires
        uniform(rows(data@), dim as int),
        centroid@.len() == dim,
    ensures
        out@ == spreads_spec(rows(data@), centroid@),
{
    let ghost all = rows(data@);
    let mut out: Vec<T> = Vec::new();
    let mut d: usize = 0;
    while d < dim
        invariant
            d <= dim,
            all == rows(data@),
            uniform(all, dim as int),
            centroid@.len() == dim,
            out@.len() == d,
            forall|e: int| 0 <= e < d ==> out@[e] == spread_spec(all, centroid@, e),
        decreases dim - d,
    {
        let mut sum = T::zero();
        let mut t: usize = 0;
        while t < data.len()
            invariant
                t <= data@.len(),
                d < dim,
                all == rows(data@),
                uniform(all, dim as int),
                centroid@.len() == dim,
                sum == spread_spec(all.take(t as int), centroid@, d as int),
            decreases data@.len() - t,
        {
            proof {
                assert(all.take(t + 1).drop_last() =~= all.take(t as int));
                assert(all.take(t + 1).last() == data@[t as int]@);
                assert(all[t as int].len() == dim);
            }
            let diff = data[t].data[d].sub(centroid.data[d]);
            sum = sum.add(diff.mul(diff));
            t = t + 1;
        }
        proof {
            assert(all.take(data@.len() as int) =~= all);
        }
        out.push(sum);
        d = d + 1;
    }
    proof {
        assert(out@ =~= spreads_spec(all, centroid@));
    }
    out
}

/// Coordinate `d` of every row.
pub fn column_of<T: Real>(data: &[Vector<T>], d: usize, dim: usize) -> (out: Vec<T>)
    requires
        uniform(rows(data@), dim as int),
        d < dim,
    ensures
        out@ == column(rows(data@), d as int),
{
    let mut out: Vec<T> = Vec::new();
    let mut t: usize = 0;
    while t < data.len()
        invariant
            t <= data@.len(),
            uniform(rows(data@), dim as int),
            d < dim,
            out@.len() == t,
            forall|u: int| 0 <= u < t ==> out@[u] == rows(data@)[u][d as int],
        decreases data@.len() - t,
    {
        assert(rows(data@)[t as int] == data@[t as int]@);
        out.push(data[t].data[d]);
        t = t + 1;
    }
    proof {
        assert(out@ =~= column(rows(data@), d as int));
    }
    out
}

/// Copies of the rows on one side of a split.
pub fn side<T: Real>(data: &[Vector<T>], split: usize, median: T, low: bool, dim: usize) -> (out: Vec<
    Vector<T>,
>)
    requires
        uniform(rows(data@), dim as int),
        split < dim,
    ensures
        rows(out@) == side_spec(rows(data@), split as int, median, low),
{
    let ghost all = rows(data@);
    let mut out: Vec<Vector<T>> = Vec::new();
    let mut t: usize = 0;
    while t < data.len()
        invariant
            t <= data@.len(),
            all == rows(data@),
            uniform(all, dim as int),
            split < dim,
            rows(out@) == side_spec(all.take(t as int), split as int, median, low),
        decreases data@.len() - t,
    {
        proof {
            assert(all.take(t + 1).drop_last() =~= all.take(t as int));
            assert(all.take(t + 1).last() == data@[t as int]@);
            assert(all[t as int].len() == dim);
        }
        if data[t].data[split].le(median) == low {
            let ghost before = rows(out@);
            out.push(data[t].duplicate());
            proof {
                assert(rows(out@) =~= before.push(data@[t as int]@));
            }
        }
        t = t + 1;
    }
    proof {
        assert(all.take(data@.len() as int) =~= all);
    }
    out
}

/// A node of the tree: the mean of the training vectors that reached it, and
/// the subtrees grown from the two sides of its split.
pub struct TSVQNode<T: Real> {
    centroid: Vector<T>,
    left: Option<Box<TSVQNode<T>>>,
    right: Option<Box<TSVQNode<T>>>,
}

impl<T: Real> TSVQNode<T> {
    /// The node and what lies below it, as contracts see them.
    pub closed spec fn tree(self) -> TreeView<T>
        decreases self,
    {
        TreeView {
            centroid: self.centroid@,
            left: match self.left {
                Some(left) => Some(Box::new(left.tree())),
                None => None,
            },
            right: match self.right {
                Some(right) => Some(Box::new(right.tree())),
                None => None,
            },
        }
    }

    #[verifier::type_invariant]
    spec fn well_formed(self) -> bool {
        fits(self.tree(), self.centroid@.len() as int)
    }

    /// Grows the subtree for one side of a split.
    fn grow(side: &Vec<Vector<T>>, total: usize, dim: usize, depth: usize) -> (child: Option<Box<Self>>)
        requires
            uniform(rows(side@), dim as int),
        ensures
            (match child {
                Some(node) => Some(Box::new(node.tree())),
                None => None,
            }) == child_spec(rows(side@), total as nat, depth as nat),
            child matches Some(node) ==> fits(node.tree(), dim as int),
        decreases depth, 1nat,
    {
        if side.len() > 0 && side.len() < total {
            Some(Box::new(Self::build(side.as_slice(), dim, depth)))
        } else {
            None
        }
    }

    /// Grows the tree from a non-empty set of vectors of length `dim`.
    fn build(data: &[Vector<T>], dim: usize, max_depth: usize) -> (node: Self)
        requires
            data@.len() > 0,
            uniform(rows(data@), dim as int),
        ensures
            node.tree() == build_spec(rows(data@), max_depth as nat),
            fits(node.tree(), dim as int),
        decreases max_depth, 0nat,
    {
        let centroid = mean_of_uniform(data, dim);
        proof {
            assert(rows(data@)[0].len() == dim);
        }
        if max_depth == 0 || data.len() <= 1 || dim == 0 {
            return TSVQNode { centroid, left: None, right: None };
        }
        let variances = spreads(data, &centroid, dim);
        let split = argmax(&variances);
        let values = column_of(data, split, dim);
        let cut = median(&values);
        let left_data = side(data, split, cut, true, dim);
        let right_data = side(data, split, cut, false, dim);
        proof {
            lemma_side_uniform(rows(data@), split as int, cut, true, dim as int);
            lemma_side_uniform(rows(data@), split as int, cut, false, dim as int);
        }
        let left = Self::grow(&left_data, data.len(), dim, max_depth - 1);
        let right = Self::grow(&right_data, data.len(), dim, max_depth - 1);
        TSVQNode { centroid, left, right }
    }

    /// Grows a tree of at most `max_depth` levels below the root.
    ///
    /// Fails with `EmptyInput` where there is no training vector, and with
    /// `DimensionMismatch` where the training vectors differ in length.
    pub fn fit(training_data: &[Vector<T>], max_depth: usize) -> (r: Result<Self, VqError>)
        ensures
            training_data@.len() == 0 ==> r == Err::<Self, VqError>(VqError::EmptyInput),
            training_data@.len() > 0 && !uniform(
                rows(training_data@),
                training_data@[0]@.len() as int,
            ) ==> exists|i: int|
                is_first_mismatch(rows(training_data@), i) && r == Err::<Self, VqError>(
                    VqError::DimensionMismatch {
                        expected: training_data@[0].len(),
                        found: training_data@[i].len(),
                    },
                ),
            r is Ok <==> training_data@.len() > 0 && uniform(
                rows(training_data@),
                training_data@[0]@.len() as int,
            ),
            r matches Ok(node) ==> node.tree() == build_spec(rows(training_data@), max_depth as nat)
                && fits(node.tree(), training_data@[0]@.len() as int),
    {
        let dim = match common_dimension(training_data) {
            Ok(dim) => dim,
            Err(e) => {
                return Err(e);
            },
        };
        Ok(Self::build(training_data, dim, max_depth))
    }

    /// The mean of the training vectors that reached this node.
    pub fn centroid(&self) -> (c: &Vector<T>)
        ensures
            c@ == self.tree().centroid,
    {
        &self.centroid
    }

    /// Whether the node has no subtree.
    pub fn is_leaf(&self) -> (leaf: bool)
        ensures
            leaf == (self.tree().left is None && self.tree().right is None),
    {
        self.left.is_none() && self.right.is_none()
    }

    /// The descent from this node for a vector of the centroids' length.
    fn descend<'a>(&'a self, vector: &[T], distance: &Distance<T>) -> (leaf: &'a TSVQNode<T>)
        requires
            vector@.len() == self.tree().centroid.len(),
        ensures
            leaf.tree() == descend_spec(self.tree(), vector@, *distance),
            leaf.tree().centroid.len() == vector@.len(),
        decreases self,
    {
        proof {
            use_type_invariant(self);
            assert(self.tree().centroid == self.centroid@);
            assert(fits(self.tree(), vector@.len() as int));
        }
        match &self.left {
            Some(left) => {
                assert(self.tree().left == Some(Box::new(left.tree())));
                assert(fits(left.tree(), vector@.len() as int));
                assert(left.tree().centroid == left.centroid@);
                match &self.right {
                    Some(right) => {
                        assert(self.tree().right == Some(Box::new(right.tree())));
                        assert(fits(right.tree(), vector@.len() as int));
                        assert(right.tree().centroid == right.centroid@);
                        let dist_left = distance.measure(vector, left.centroid.data());
                        let dist_right = distance.measure(vector, right.centroid.data());
                        if dist_left.le(dist_right) {
                            left.descend(vector, distance)
                        } else {
                            right.descend(vector, distance)
                        }
                    },
                    None => left.descend(vector, distance),
                }
            },
            None => {
                match &self.right {
                    Some(right) => {
                        assert(self.tree().right == Some(Box::new(right.tree())));
                        assert(fits(right.tree(), vector@.len() as int));
                        right.descend(vector, distance)
                    },
                    None => self,
                }
            },
        }
    }

    /// The leaf that `vector` reaches from this node under `distance`.
    ///
    /// Fails with `DimensionMismatch` where `vector` has not the length of the
    /// centroids, and otherwise with `InvalidMetricParameter` where the metric
    /// is not valid.
    pub fn quantize_with_distance<'a>(&'a self, vector: &Vector<T>, distance: &Distance<T>) -> (r:
        Result<&'a TSVQNode<T>, VqError>)
        ensures
            vector@.len() != self.tree().centroid.len() ==> r == Err::<&TSVQNode<T>, VqError>(
                VqError::DimensionMismatch {
                    expected: self.tree().centroid.len() as usize,
                    found: vector.len(),
                },
            ),
            vector@.len() == self.tree().centroid.len() && !distance.valid() ==> (r matches Err(e)
                && e.is_invalid_metric_parameter("Minkowski"@, "p must be positive"@)),
            vector@.len() == self.tree().centroid.len() && distance.valid() ==> (r matches Ok(leaf)
                && leaf.tree() == descend_spec(self.tree(), vector@, *distance) && leaf.tree().centroid.len()
                == vector@.len()),
    {
        if vector.len() != self.centroid.len() {
            return Err(
                VqError::DimensionMismatch { expected: self.centroid.len(), found: vector.len() },
            );
        }
        if !distance.is_valid() {
            return Err(VqError::invalid_metric_parameter("Minkowski", "p must be positive"));
        }
        Ok(self.descend(vector.data(), distance))
    }
}

/// A tree of centroids and the metric by which it is descended.
pub struct TSVQ<T: Real> {
    root: TSVQNode<T>,
    distance: Distance<T>,
}

impl<T: Real> TSVQ<T> {
    /// The tree.
    pub closed spec fn tree(self) -> TreeView<T> {
        self.root.tree()
    }

    /// The metric that decides, at each node, which child is nearer.
    pub closed spec fn metric(self) -> Distance<T> {
        self.distance
    }

    /// The metric that decides, at each node, which child is nearer.
    pub fn distance(&self) -> (d: Distance<T>)
        ensures
            d == self.metric(),
    {
        self.distance
    }

    /// Grows a tree of at most `max_depth` levels below the root.
    ///
    /// Fails with `EmptyInput` where there is no training vector, and with
    /// `DimensionMismatch` where the training vectors differ in length.
    pub fn new(training_data: &[Vector<T>], max_depth: usize, distance: Distance<T>) -> (r: Result<
        Self,
        VqError,
    >)
        ensures
            training_data@.len() == 0 ==> r == Err::<Self, VqError>(VqError::EmptyInput),
            training_data@.len() > 0 && !uniform(
                rows(training_data@),
                training_data@[0]@.len() as int,
            ) ==> exists|i: int|
                is_first_mismatch(rows(training_data@), i) && r == Err::<Self, VqError>(
                    VqError::DimensionMismatch {
                        expected: training_data@[0].len(),
                        found: training_data@[i].len(),
                    },
                ),
            r is Ok <==> training_data@.len() > 0 && uniform(
                rows(training_data@),
                training_data@[0]@.len() as int,
            ),
            r matches Ok(q) ==> q.tree() == build_spec(rows(training_data@), max_depth as nat)
                && q.metric() == distance && fits(q.tree(), training_data@[0]@.len() as int),
    {
        match TSVQNode::fit(training_data, max_depth) {
            Ok(root) => Ok(TSVQ { root, distance }),
            Err(e) => Err(e),
        }
    }

    /// The root of the tree.
    pub fn root(&self) -> (node: &TSVQNode<T>)
        ensures
            node.tree() == self.tree(),
    {
        &self.root
    }

    /// The centroid of the leaf that `vector` reaches, in the reduced type.
    ///
    /// Fails with `DimensionMismatch` where `vector` has not the dimension of
    /// the training vectors, and otherwise with `InvalidMetricParameter` where
    /// the metric is not valid.
    pub fn quantize(&self, vector: &Vector<T>) -> (r: Result<Vector<T::Reduced>, VqError>)
        ensures
            vector@.len() != self.tree().centroid.len() ==> r == Err::<
                Vector<T::Reduced>,
                VqError,
            >(
                VqError::DimensionMismatch {
                    expected: self.tree().centroid.len() as usize,
                    found: vector.len(),
                },
            ),
            vector@.len() == self.tree().centroid.len() && !self.metric().valid() ==> (
            r matches Err(e) && e.is_invalid_metric_parameter(
                "Minkowski"@,
                "p must be positive"@,
            )),
            vector@.len() == self.tree().centroid.len() && self.metric().valid() ==> (
            r matches Ok(code) && code@ == reduce_all(
                descend_spec(self.tree(), vector@, self.metric()).centroid,
            ) && code@.len() == vector@.len()),
    {
        match self.root.quantize_with_distance(vector, &self.distance) {
            Ok(leaf) => Ok(reduce_vector(leaf.centroid.data())),
            Err(e) => Err(e),
        }
    }
}

} // verus!
