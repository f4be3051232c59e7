//! Nearest-centroid search and the Linde-Buzo-Gray clustering that learns codebooks.

use crate::distances::{distance_spec, Distance};
use crate::exceptions::VqError;
use crate::vector::{common_dimension, mean_of_uniform, mean_spec, rows, uniform, is_first_mismatch, Real, Vector};
use rand::rngs::StdRng;
use rand::Rng;
use rand::SeedableRng;
use vstd::prelude::*;

verus! {

/// `rand::rngs::StdRng`, the generator that clustering draws from. Its state
/// is not visible to the proofs: nothing is claimed of it.
#[verifier::external_type_specification]
#[verifier::external_body]
pub struct ExStdRng(rand::rngs::StdRng);

/// `StdRng::seed_from_u64`: a generator whose stream is fixed by `seed`.
/// Nothing is claimed of the stream.
#[verifier::external_body]
fn seeded_generator(seed: u64) -> (rng: StdRng) {
    StdRng::seed_from_u64(seed)
}

/// `rand::seq::index::sample`: `amount` indices below `length`, no two alike,
/// in random order. The call panics where `amount` exceeds `length`, and,
/// in a build with debug assertions, where all of more than `u32::MAX`
/// indices are asked for; the precondition excludes both.
#[verifier::external_body]
fn sample_distinct(rng: &mut StdRng, length: usize, amount: usize) -> (picks: Vec<usize>)
    requires
        amount <= length,
        length > u32::MAX ==> amount < length,
    ensures
        picks@.len() == amount,
        distinct_below(ints(picks@), length as int),
{
    rand::seq::index::sample(rng, length, amount).into_vec()
}

/// `Rng::random_range` over `..length`: one index below `length`. The call
/// panics on an empty range, which the precondition excludes.
#[verifier::external_body]
fn sample_below(rng: &mut StdRng, length: usize) -> (pick: usize)
    requires
        length > 0,
    ensures
        pick < length,
{
    rng.random_range(..length)
}

/// The indices as mathematical integers.
pub open spec fn ints(s: Seq<usize>) -> Seq<int> {
    Seq::new(s.len(), |i: int| s[i] as int)
}

/// Every pick lies in `0..bound` and no two picks are alike.
pub open spec fn distinct_below(picks: Seq<int>, bound: int) -> bool {
    &&& forall|i: int| 0 <= i < picks.len() ==> 0 <= #[trigger] picks[i] < bound
    &&& forall|i: int, j: int| 0 <= i < j < picks.len() ==> picks[i] != picks[j]
}

/// The scan for the smallest value. The index moves on only to a strictly
/// smaller value, so of several equal values the first is kept.
pub open spec fn argmin_spec<T: Real>(values: Seq<T>) -> int
    decreases values.len(),
{
    if values.len() <= 1 {
        0
    } else {
        let best = argmin_spec(values.drop_last());
        if values.last().lt_spec(values[best]) {
            values.len() - 1
        } else {
            best
        }
    }
}

/// The distance from `point` to each entry of `codebook`.
pub open spec fn distances_to<T: Real>(d: Distance<T>, point: Seq<T>, codebook: Seq<Seq<T>>) -> Seq<T> {
    Seq::new(codebook.len(), |j: int| distance_spec(d, point, codebook[j]))
}

/// The index of the entry of `codebook` nearest to `point`; the lowest such
/// index where several are equally near.
pub open spec fn nearest_spec<T: Real>(d: Distance<T>, point: Seq<T>, codebook: Seq<Seq<T>>) -> int {
    argmin_spec(distances_to(d, point, codebook))
}

/// The scan over a non-empty sequence returns one of its indices.
pub proof fn lemma_argmin_in_range<T: Real>(values: Seq<T>)
    requires
        values.len() > 0,
    ensures
        0 <= argmin_spec(values) < values.len(),
    decreases values.len(),
{
    if values.len() > 1 {
        lemma_argmin_in_range(values.drop_last());
    }
}

/// Where `lt` orders the values as a strict total order would (nothing is
/// less than itself, and what is not less than a value that is not less than
/// a third is not less than the third), the scan returns a least value, and
/// the first of them.
pub proof fn lemma_argmin_is_first_least<T: Real>(values: Seq<T>)
    requires
        values.len() > 0,
        forall|i: int, j: int, l: int|
            0 <= i < values.len() && 0 <= j < values.len() && 0 <= l < values.len()
                && !(#[trigger] values[j].lt_spec(values[i])) && !(#[trigger] values[l].lt_spec(
                values[j],
            )) ==> !values[l].lt_spec(values[i]),
        forall|i: int, j: int|
            0 <= i < values.len() && 0 <= j < values.len() && #[trigger] values[i].lt_spec(
                values[j],
            ) ==> !values[j].lt_spec(values[i]),
    ensures
        forall|j: int|
            0 <= j < values.len() ==> !(#[trigger] values[j]).lt_spec(values[argmin_spec(values)]),
        forall|j: int|
            0 <= j < argmin_spec(values) ==> values[argmin_spec(values)].lt_spec(
                #[trigger] values[j],
            ),
    decreases values.len(),
{
    if values.len() > 1 {
        let front = values.drop_last();
        lemma_argmin_in_range(front);
        lemma_argmin_is_first_least(front);
        let best = argmin_spec(front);
        let n = values.len() - 1;
        assert(forall|j: int| 0 <= j < n ==> front[j] == values[j]);
        if values[n].lt_spec(values[best]) {
            assert forall|j: int| 0 <= j < values.len() implies !(#[trigger] values[j]).lt_spec(
                values[n],
            ) by {
                if j < n {
                    assert(!front[j].lt_spec(front[best]));
                    assert(!values[best].lt_spec(values[n]));
                }
            }
            assert forall|j: int| 0 <= j < n implies values[n].lt_spec(#[trigger] values[j]) by {
                assert(!front[j].lt_spec(front[best]));
                if !values[n].lt_spec(values[j]) {
                    assert(!values[n].lt_spec(values[best]));
                }
            }
        } else {
            assert forall|j: int| 0 <= j < values.len() implies !(#[trigger] values[j]).lt_spec(
                values[best],
            ) by {
                if j < n {
                    assert(!front[j].lt_spec(front[best]));
                }
            }
            assert forall|j: int| 0 <= j < best implies values[best].lt_spec(
                #[trigger] values[j],
            ) by {
                assert(front[best].lt_spec(front[j]));
            }
        }
    }
}

/// Finds the entry of `codebook` nearest to `point` under `d`.
pub fn nearest<T: Real>(d: &Distance<T>, point: &[T], codebook: &[Vector<T>]) -> (best: usize)
    requires
        codebook@.len() > 0,
        uniform(rows(codebook@), point@.len() as int),
    ensures
        best == nearest_spec(*d, point@, rows(codebook@)),
        best < codebook@.len(),
{
    let ghost book = rows(codebook@);
    let ghost dists = distances_to(*d, point@, book);
    assert(book[0] == codebook@[0]@);
    let mut best: usize = 0;
    let mut best_dist = d.measure(point, codebook[0].data());
    let mut j: usize = 1;
    assert(dists.take(1).len() == 1);
    while j < codebook.len()
        invariant
            1 <= j <= codebook@.len(),
            book == rows(codebook@),
            dists == distances_to(*d, point@, book),
            uniform(book, point@.len() as int),
            best < j,
            best == argmin_spec(dists.take(j as int)),
            best_dist == dists[best as int],
        decreases codebook@.len() - j,
    {
        assert(book[j as int] == codebook@[j as int]@);
        let dist = d.measure(point, codebook[j].data());
        proof {
            assert(dists.take(j + 1).drop_last() =~= dists.take(j as int));
            assert(dists.take(j + 1).last() == dists[j as int]);
            assert(dists.take(j + 1)[best as int] == dists[best as int]);
        }
        if dist.lt(best_dist) {
            best = j;
            best_dist = dist;
        }
        j = j + 1;
    }
    proof {
        assert(dists.take(codebook@.len() as int) =~= dists);
    }
    best
}

/// The assignment step: for each row of `data`, the index of its nearest
/// centroid by squared Euclidean distance.
pub open spec fn assign_spec<T: Real>(data: Seq<Seq<T>>, centroids: Seq<Seq<T>>) -> Seq<int> {
    Seq::new(data.len(), |i: int| nearest_spec(Distance::SquaredEuclidean, data[i], centroids))
}

/// The rows of `data` assigned to `cluster`, in the order of `data`.
pub open spec fn members_spec<T>(data: Seq<Seq<T>>, assignments: Seq<int>, cluster: int) -> Seq<Seq<T>>
    decreases data.len(),
{
    if data.len() == 0 {
        Seq::empty()
    } else {
        let before = members_spec(data.drop_last(), assignments.take(data.len() - 1), cluster);
        if assignments[data.len() - 1] == cluster {
            before.push(data.last())
        } else {
            before
        }
    }
}

/// The new centroid of `cluster`: the mean of its members, or, where it has
/// none, the row of `data` that was drawn to replace it.
pub open spec fn centroid_spec<T: Real>(
    data: Seq<Seq<T>>,
    assignments: Seq<int>,
    cluster: int,
    reseed: int,
) -> Seq<T> {
    let members = members_spec(data, assignments, cluster);
    if members.len() > 0 {
        mean_spec(members)
    } else {
        data[reseed]
    }
}

/// The update step over all `k` clusters.
pub open spec fn update_spec<T: Real>(
    data: Seq<Seq<T>>,
    assignments: Seq<int>,
    k: int,
    reseeds: Seq<int>,
) -> Seq<Seq<T>> {
    Seq::new(k as nat, |j: int| centroid_spec(data, assignments, j, reseeds[j]))
}

/// The clustering between two rounds.
pub struct LbgState<T> {
    pub centroids: Seq<Seq<T>>,
    pub assignments: Seq<int>,
    /// The last round changed no assignment: refinement has stopped.
    pub settled: bool,
}

/// Before the first round: the centroids are the sampled rows, and every row
/// counts as assigned to cluster 0.
pub open spec fn lbg_start<T>(data: Seq<Seq<T>>, picks: Seq<int>) -> LbgState<T> {
    LbgState {
        centroids: Seq::new(picks.len(), |j: int| data[picks[j]]),
        assignments: Seq::new(data.len(), |i: int| 0int),
        settled: false,
    }
}

/// One round: assign, then update; the round settles the clustering where it
/// changes no assignment. A settled clustering stays as it is.
pub open spec fn lbg_round<T: Real>(data: Seq<Seq<T>>, s: LbgState<T>, reseeds: Seq<int>) -> LbgState<T> {
    if s.settled {
        s
    } else {
        let assignments = assign_spec(data, s.centroids);
        LbgState {
            centroids: update_spec(data, assignments, s.centroids.len() as int, reseeds),
            assignments,
            settled: assignments == s.assignments,
        }
    }
}

/// The clustering after `rounds` rounds, given the rows sampled at the start
/// (`picks`) and, for each round, the row drawn for each cluster in case it is
/// left empty (`reseeds`).
pub open spec fn lbg_after<T: Real>(
    data: Seq<Seq<T>>,
    picks: Seq<int>,
    reseeds: Seq<Seq<int>>,
    rounds: nat,
) -> LbgState<T>
    decreases rounds,
{
    if rounds == 0 {
        lbg_start(data, picks)
    } else {
        lbg_round(
            data,
            lbg_after(data, picks, reseeds, (rounds - 1) as nat),
            reseeds[rounds - 1],
        )
    }
}

/// One draw for each of the `k` clusters, each in `0..bound`.
pub open spec fn draws_below(draws: Seq<int>, k: int, bound: int) -> bool {
    &&& draws.len() == k
    &&& forall|j: int| 0 <= j < k ==> 0 <= #[trigger] draws[j] < bound
}

/// Every draw of every round lies in `0..bound`.
pub open spec fn reseeds_below(reseeds: Seq<Seq<int>>, k: int, bound: int) -> bool {
    forall|t: int| 0 <= t < reseeds.len() ==> draws_below(#[trigger] reseeds[t], k, bound)
}

/// `centroids` is what refining `k` clusters of `data` gives after at most
/// `max_iters` rounds, for some sample of `k` distinct rows and some draws
/// of rows for the clusters left empty. There are draws for every round that
/// was run: for all `max_iters` of them, or up to the round that settled the
/// clustering.
pub open spec fn lbg_result<T: Real>(
    centroids: Seq<Seq<T>>,
    data: Seq<Seq<T>>,
    k: int,
    max_iters: nat,
) -> bool {
    exists|picks: Seq<int>, reseeds: Seq<Seq<int>>|
        {
            &&& picks.len() == k
            &&& distinct_below(picks, data.len() as int)
            &&& reseeds.len() <= max_iters
            &&& reseeds_below(reseeds, k, data.len() as int)
            &&& (reseeds.len() == max_iters || lbg_after(
                data,
                picks,
                reseeds,
                reseeds.len(),
            ).settled)
            &&& centroids == #[trigger] lbg_after(data, picks, reseeds, max_iters).centroids
        }
}

proof fn lemma_lbg_after_prefix<T: Real>(
    data: Seq<Seq<T>>,
    picks: Seq<int>,
    short: Seq<Seq<int>>,
    long: Seq<Seq<int>>,
    rounds: nat,
)
    requires
        rounds <= short.len() <= long.len(),
        forall|t: int| 0 <= t < short.len() ==> long[t] == short[t],
    ensures
        lbg_after(data, picks, long, rounds) == lbg_after(data, picks, short, rounds),
    decreases rounds,
{
    if rounds > 0 {
        lemma_lbg_after_prefix(data, picks, short, long, (rounds - 1) as nat);
    }
}

proof fn lemma_lbg_settled_stays<T: Real>(
    data: Seq<Seq<T>>,
    picks: Seq<int>,
    reseeds: Seq<Seq<int>>,
    from: nat,
    to: nat,
)
    requires
        from <= to,
        lbg_after(data, picks, reseeds, from).settled,
    ensures
        lbg_after(data, picks, reseeds, to) == lbg_after(data, picks, reseeds, from),
    decreases to - from,
{
    if to > from {
        lemma_lbg_settled_stays(data, picks, reseeds, from, (to - 1) as nat);
    }
}

/// The rows of `data` at the given indices, in the order of the indices.
pub fn select<T: Real>(data: &[Vector<T>], picks: &Vec<usize>) -> (chosen: Vec<Vector<T>>)
    requires
        forall|i: int| 0 <= i < picks@.len() ==> picks@[i] < data@.len(),
    ensures
        chosen@.len() == picks@.len(),
        forall|i: int| 0 <= i < picks@.len() ==> (#[trigger] chosen@[i])@ == data@[picks@[i] as int]@,
{
    let mut chosen: Vec<Vector<T>> = Vec::new();
    let mut i: usize = 0;
    while i < picks.len()
        invariant
            i <= picks@.len(),
            forall|i: int| 0 <= i < picks@.len() ==> picks@[i] < data@.len(),
            chosen@.len() == i,
            forall|j: int| 0 <= j < i ==> (#[trigger] chosen@[j])@ == data@[picks@[j] as int]@,
        decreases picks@.len() - i,
    {
        chosen.push(data[picks[i]].duplicate());
        i = i + 1;
    }
    chosen
}

/// The assignment step. The centroids must be at least one and share the
/// length of the rows.
pub fn assign<T: Real>(data: &[Vector<T>], centroids: &[Vector<T>], dim: usize) -> (assignments: Vec<usize>)
    requires
        centroids@.len() > 0,
        uniform(rows(data@), dim as int),
        uniform(rows(centroids@), dim as int),
    ensures
        ints(assignments@) == assign_spec(rows(data@), rows(centroids@)),
        assignments@.len() == data@.len(),
        forall|i: int| 0 <= i < assignments@.len() ==> assignments@[i] < centroids@.len(),
{
    let metric: Distance<T> = Distance::SquaredEuclidean;
    let mut assignments: Vec<usize> = Vec::new();
    let mut i: usize = 0;
    while i < data.len()
        invariant
            i <= data@.len(),
            centroids@.len() > 0,
            metric == Distance::<T>::SquaredEuclidean,
            uniform(rows(data@), dim as int),
            uniform(rows(centroids@), dim as int),
            assignments@.len() == i,
            forall|j: int| 0 <= j < i ==> assignments@[j] < centroids@.len(),
            forall|j: int|
                0 <= j < i ==> assignments@[j] as int == nearest_spec(
                    Distance::SquaredEuclidean,
                    rows(data@)[j],
                    rows(centroids@),
                ),
        decreases data@.len() - i,
    {
        assert(rows(data@)[i as int] == data@[i as int]@);
        let best = nearest(&metric, data[i].data(), centroids);
        assignments.push(best);
        i = i + 1;
    }
    proof {
        assert(ints(assignments@) =~= assign_spec(rows(data@), rows(centroids@)));
    }
    assignments
}

/// Copies of the rows of `data` assigned to `cluster`, in the order of `data`.
pub fn cluster_members<T: Real>(data: &[Vector<T>], assignments: &Vec<usize>, cluster: usize) -> (members: Vec<Vector<T>>)
    requires
        assignments@.len() == data@.len(),
    ensures
        rows(members@) == members_spec(rows(data@), ints(assignments@), cluster as int),
{
    let ghost all = rows(data@);
    let ghost marks = ints(assignments@);
    let mut members: Vec<Vector<T>> = Vec::new();
    let mut i: usize = 0;
    while i < data.len()
        invariant
            i <= data@.len(),
            assignments@.len() == data@.len(),
            all == rows(data@),
            marks == ints(assignments@),
            rows(members@) == members_spec(all.take(i as int), marks.take(i as int), cluster as int),
        decreases data@.len() - i,
    {
        proof {
            assert(all.take(i + 1).drop_last() =~= all.take(i as int));
            assert(marks.take(i + 1).take(i as int) =~= marks.take(i as int));
            assert(all.take(i + 1).last() == data@[i as int]@);
        }
        if assignments[i] == cluster {
            let ghost before = rows(members@);
            members.push(data[i].duplicate());
            proof {
                assert(rows(members@) =~= before.push(data@[i as int]@));
            }
        }
        i = i + 1;
    }
    proof {
        assert(all.take(data@.len() as int) =~= all);
        assert(marks.take(data@.len() as int) =~= marks);
    }
    members
}

proof fn lemma_members_uniform<T>(data: Seq<Seq<T>>, assignments: Seq<int>, cluster: int, dim: int)
    requires
        uniform(data, dim),
    ensures
        uniform(members_spec(data, assignments, cluster), dim),
    decreases data.len(),
{
    if data.len() > 0 {
        let front = data.drop_last();
        assert(uniform(front, dim)) by {
            assert forall|i: int| 0 <= i < front.len() implies (#[trigger] front[i]).len() == dim by {
                assert(front[i] == data[i]);
            }
        }
        lemma_members_uniform(front, assignments.take(data.len() - 1), cluster, dim);
    }
}

/// The update step. A cluster without members takes a row of `data` drawn
/// from `rng`; the draws are reported, indexed by cluster, with 0 standing
/// for the clusters that needed none.
fn recompute<T: Real>(
    data: &[Vector<T>],
    assignments: &Vec<usize>,
    k: usize,
    dim: usize,
    rng: &mut StdRng,
) -> (out: (Vec<Vector<T>>, Ghost<Seq<int>>))
    requires
        data@.len() > 0,
        assignments@.len() == data@.len(),
        uniform(rows(data@), dim as int),
    ensures
        out.0@.len() == k,
        uniform(rows(out.0@), dim as int),
        draws_below(out.1@, k as int, data@.len() as int),
        rows(out.0@) == update_spec(rows(data@), ints(assignments@), k as int, out.1@),
{
    let ghost all = rows(data@);
    let ghost marks = ints(assignments@);
    let ghost mut draws: Seq<int> = Seq::empty();
    let mut next: Vec<Vector<T>> = Vec::new();
    let mut j: usize = 0;
    while j < k
        invariant
            j <= k,
            data@.len() > 0,
            assignments@.len() == data@.len(),
            all == rows(data@),
            marks == ints(assignments@),
            uniform(all, dim as int),
            next@.len() == j,
            draws.len() == j,
            uniform(rows(next@), dim as int),
            forall|c: int| 0 <= c < j ==> 0 <= #[trigger] draws[c] < data@.len(),
            forall|c: int| 0 <= c < j ==> (#[trigger] next@[c])@ == centroid_spec(all, marks, c, draws[c]),
        decreases k - j,
    {
        let members = cluster_members(data, assignments, j);
        proof {
            lemma_members_uniform(all, marks, j as int, dim as int);
        }
        let ghost before = rows(next@);
        if members.len() > 0 {
            let mean = mean_of_uniform(members.as_slice(), dim);
            proof {
                assert(rows(members@)[0].len() == dim);
                draws = draws.push(0);
            }
            next.push(mean);
        } else {
            let pick = sample_below(rng, data.len());
            proof {
                assert(all[pick as int] == data@[pick as int]@);
                draws = draws.push(pick as int);
            }
            next.push(data[pick].duplicate());
        }
        proof {
            assert(rows(next@) =~= before.push(next@[j as int]@));
        }
        j = j + 1;
    }
    proof {
        assert(rows(next@) =~= update_spec(all, marks, k as int, draws));
    }
    (next, Ghost(draws))
}

/// Whether two index lists are the same.
fn same_indices(a: &Vec<usize>, b: &Vec<usize>) -> (same: bool)
    requires
        a@.len() == b@.len(),
    ensures
        same == (ints(a@) == ints(b@)),
{
    let mut i: usize = 0;
    while i < a.len()
        invariant
            i <= a@.len(),
            a@.len() == b@.len(),
            forall|j: int| 0 <= j < i ==> a@[j] == b@[j],
        decreases a@.len() - i,
    {
        if a[i] != b[i] {
            proof {
                assert(ints(a@)[i as int] != ints(b@)[i as int]);
            }
            return false;
        }
        i = i + 1;
    }
    proof {
        assert(ints(a@) =~= ints(b@));
    }
    true
}

/// The indices `0..len`, in order.
fn first_indices(len: usize) -> (out: Vec<usize>)
    ensures
        out@.len() == len,
        distinct_below(ints(out@), len as int),
{
    let mut out: Vec<usize> = Vec::new();
    let mut i: usize = 0;
    while i < len
        invariant
            i <= len,
            out@.len() == i,
            forall|j: int| 0 <= j < i ==> out@[j] == j,
        decreases len - i,
    {
        out.push(i);
        i = i + 1;
    }
    out
}

/// A list of `len` zeros.
fn zero_indices(len: usize) -> (out: Vec<usize>)
    ensures
        out@.len() == len,
        forall|i: int| 0 <= i < len ==> out@[i] == 0,
{
    let mut out: Vec<usize> = Vec::new();
    let mut i: usize = 0;
    while i < len
        invariant
            i <= len,
            out@.len() == i,
            forall|j: int| 0 <= j < i ==> out@[j] == 0,
        decreases len - i,
    {
        out.push(0);
        i = i + 1;
    }
    out
}

/// Learns `k` centroids from `data` by Linde-Buzo-Gray refinement.
///
/// Fails with `InvalidParameter` where `k` is zero or exceeds the number of
/// rows, and with `DimensionMismatch` where the rows differ in length.
/// Otherwise `k` distinct rows are sampled as the first centroids, from a
/// generator seeded with `seed` (where every one of more than `u32::MAX`
/// rows is asked for, which the sampler does not take, the rows stand in
/// their own order), and at most `max_iters` rounds refine them:
/// the result is what [`lbg_after`] gives for the rows that were sampled and
/// the rows that were drawn for clusters left empty.
pub fn lbg_quantize<T: Real>(data: &[Vector<T>], k: usize, max_iters: usize, seed: u64) -> (r: Result<
    Vec<Vector<T>>,
    VqError,
>)
    ensures
        k == 0 ==> (r matches Err(e) && e.is_invalid_parameter("k must be greater than 0"@)),
        k > 0 && data@.len() < k ==> (r matches Err(e) && e.is_invalid_parameter(
            "Not enough data points for k clusters"@,
        )),
        0 < k <= data@.len() && !uniform(rows(data@), data@[0]@.len() as int) ==> exists|i: int|
            is_first_mismatch(rows(data@), i) && r == Err::<Vec<Vector<T>>, VqError>(
                VqError::DimensionMismatch { expected: data@[0].len(), found: data@[i].len() },
            ),
        r is Ok <==> 0 < k <= data@.len() && uniform(rows(data@), data@[0]@.len() as int),
        r matches Ok(centroids) ==> {
            &&& centroids@.len() == k
            &&& uniform(rows(centroids@), data@[0]@.len() as int)
            &&& lbg_result(rows(centroids@), rows(data@), k as int, max_iters as nat)
        },
{
    let n = data.len();
    if k == 0 {
        return Err(VqError::invalid_parameter("k must be greater than 0"));
    }
    if n < k {
        return Err(VqError::invalid_parameter("Not enough data points for k clusters"));
    }
    let dim = match common_dimension(data) {
        Ok(dim) => dim,
        Err(e) => {
            return Err(e);
        },
    };
    let mut rng = seeded_generator(seed);
    let picks = if k == n && n > u32::MAX as usize {
        first_indices(n)
    } else {
        sample_distinct(&mut rng, n, k)
    };
    assert forall|i: int| 0 <= i < picks@.len() implies picks@[i] < data@.len() by {
        assert(0 <= ints(picks@)[i] < n);
    }
    let mut centroids = select(data, &picks);
    let mut assignments = zero_indices(n);
    let ghost all = rows(data@);
    let ghost chosen = ints(picks@);
    let ghost mut reseeds: Seq<Seq<int>> = Seq::empty();
    let mut settled = false;
    let mut iter: usize = 0;
    proof {
        assert(rows(centroids@) =~= lbg_start(all, chosen).centroids);
        assert(ints(assignments@) =~= lbg_start(all, chosen).assignments);
        assert(uniform(rows(centroids@), dim as int)) by {
            assert forall|c: int| 0 <= c < rows(centroids@).len() implies (#[trigger] rows(
                centroids@,
            )[c]).len() == dim by {
                assert(rows(centroids@)[c] == data@[picks@[c] as int]@);
                assert(all[picks@[c] as int].len() == dim);
            }
        }
    }
    while iter < max_iters && !settled
        invariant
            iter <= max_iters,
            0 < k <= n,
            n == data@.len(),
            all == rows(data@),
            chosen == ints(picks@),
            chosen.len() == k,
            uniform(all, dim as int),
            centroids@.len() == k,
            uniform(rows(centroids@), dim as int),
            assignments@.len() == n,
            reseeds.len() == iter,
            reseeds_below(reseeds, k as int, n as int),
            lbg_after(all, chosen, reseeds, iter as nat).centroids == rows(centroids@),
            lbg_after(all, chosen, reseeds, iter as nat).assignments == ints(assignments@),
            lbg_after(all, chosen, reseeds, iter as nat).settled == settled,
        decreases max_iters - iter,
    {
        let new_assignments = assign(data, centroids.as_slice(), dim);
        let same = same_indices(&new_assignments, &assignments);
        let (next, draws) = recompute(data, &new_assignments, k, dim, &mut rng);
        proof {
            let longer = reseeds.push(draws@);
            lemma_lbg_after_prefix(all, chosen, reseeds, longer, iter as nat);
            assert(longer[iter as int] == draws@);
            assert(rows(centroids@).len() == k);
            assert(reseeds_below(longer, k as int, n as int)) by {
                assert forall|t: int| 0 <= t < longer.len() implies draws_below(
                    #[trigger] longer[t],
                    k as int,
                    n as int,
                ) by {
                    if t < iter {
                        assert(longer[t] == reseeds[t]);
                    }
                }
            }
            reseeds = longer;
        }
        centroids = next;
        assignments = new_assignments;
        settled = same;
        iter = iter + 1;
    }
    proof {
        if settled {
            lemma_lbg_settled_stays(all, chosen, reseeds, iter as nat, max_iters as nat);
        }
        assert(rows(centroids@) == lbg_after(all, chosen, reseeds, max_iters as nat).centroids);
    }
    Ok(centroids)
}

/// A single row clustered into one cluster stays as it is, whatever the
/// number of rounds, wherever the mean of one element is that element (zero
/// plus `x`, divided by the element that stands for 1, is `x`).
pub proof fn lemma_lbg_single_point<T: Real>(
    point: Seq<T>,
    picks: Seq<int>,
    reseeds: Seq<Seq<int>>,
    rounds: nat,
)
    requires
        picks.len() == 1,
        distinct_below(picks, 1),
        forall|d: int|
            0 <= d < point.len() ==> T::zero_spec().add_spec(#[trigger] point[d]).div_spec(
                T::from_usize_spec(1),
            ) == point[d],
    ensures
        lbg_after(seq![point], picks, reseeds, rounds).centroids == seq![point],
    decreases rounds,
{
    let data = seq![point];
    if rounds == 0 {
        assert(picks[0] == 0);
        assert(lbg_start(data, picks).centroids =~= data);
    } else {
        lemma_lbg_single_point(point, picks, reseeds, (rounds - 1) as nat);
        let before = lbg_after(data, picks, reseeds, (rounds - 1) as nat);
        if !before.settled {
            let assignments = assign_spec(data, before.centroids);
            assert(distances_to(Distance::<T>::SquaredEuclidean, data[0], before.centroids).len() == 1);
            assert(assignments[0] == 0);
            assert(data.drop_last() =~= Seq::<Seq<T>>::empty());
            assert(members_spec(data.drop_last(), assignments.take(0), 0) =~= Seq::<Seq<T>>::empty());
            let members = members_spec(data, assignments, 0);
            assert(members =~= data);
            assert(members.drop_last() =~= Seq::<Seq<T>>::empty());
            assert forall|d: int| 0 <= d < point.len() implies #[trigger] mean_spec(members)[d]
                == point[d] by {
                assert(crate::vector::column_sum(members.drop_last(), d) == T::zero_spec());
                assert(crate::vector::column_sum(members, d) == T::zero_spec().add_spec(point[d]));
            }
            assert(mean_spec(members) =~= point);
            assert(update_spec(data, assignments, 1, reseeds[rounds - 1]) =~= data);
        }
    }
}

} // verus!
