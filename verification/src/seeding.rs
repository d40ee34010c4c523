use vstd::prelude::*;
use vstd::arithmetic::div_mod::{lemma_fundamental_div_mod, lemma_mod_bound};
use rand::distributions::{IndependentSample, Weighted, WeightedChoice};
use rand::{Rng, StdRng};
use crate::bounded::min_int;
use crate::error::KMeansError;
use crate::rgb::{sq_dist, Rgb};

verus! {

/// The random number generator that seeding draws from. Nothing is known of
/// the numbers it hands out.
#[verifier::external_type_specification]
#[verifier::external_body]
pub struct ExStdRng(StdRng);

/// The largest total weight a weighted draw can take.
pub open spec fn weight_scale() -> int {
    0xFFFF_FFFF
}

/// The squared distance from `p` to the nearest of `centroids`. With no
/// centroid at all, every point is as far away as a distance can say.
pub open spec fn nearest_dist(p: Rgb, centroids: Seq<Rgb>) -> int
    decreases centroids.len(),
{
    if centroids.len() == 0 {
        i64::MAX as int
    } else {
        min_int(nearest_dist(p, centroids.drop_last()), sq_dist(p, centroids.last()))
    }
}

/// The total of `distances`.
pub open spec fn dist_total(distances: Seq<i64>) -> int
    decreases distances.len(),
{
    if distances.len() == 0 {
        0
    } else {
        dist_total(distances.drop_last()) + distances.last()
    }
}

/// The weight of a point at distance `d` when all distances add up to
/// `total`: its share of the total, scaled to `weight_scale()` and rounded
/// down.
pub open spec fn weight_of(d: int, total: int) -> int {
    if total > 0 {
        d * weight_scale() / total
    } else {
        0
    }
}

/// The weights that go with `distances`.
pub open spec fn weights_of(distances: Seq<i64>) -> Seq<u32> {
    Seq::new(distances.len(), |i: int| weight_of(distances[i] as int, dist_total(distances)) as u32)
}

/// The total of `weights`.
pub open spec fn weight_total(weights: Seq<u32>) -> int
    decreases weights.len(),
{
    if weights.len() == 0 {
        0
    } else {
        weight_total(weights.drop_last()) + weights.last()
    }
}

/// Every distance is zero or more.
pub open spec fn all_non_negative(distances: Seq<i64>) -> bool {
    forall|i: int| 0 <= i < distances.len() ==> distances[i] >= 0
}

/// The distances from each point of `data` to its nearest centroid.
pub open spec fn nearest_dists(data: Seq<Rgb>, centroids: Seq<Rgb>) -> Seq<i64> {
    Seq::new(data.len(), |i: int| nearest_dist(data[i], centroids) as i64)
}

/// `p` is a point of `data` that a weighted draw may pick once `chosen` are
/// the centroids so far: where any point has a weight above zero, `p` is such
/// a point.
pub open spec fn is_seed(data: Seq<Rgb>, chosen: Seq<Rgb>, p: Rgb) -> bool {
    let weights = weights_of(nearest_dists(data, chosen));
    exists|i: int|
        0 <= i < data.len() && data[i] == p && (weight_total(weights) > 0 ==> weights[i] > 0)
}

/// `centroids` are `k` seeds drawn from `data`: the first is any point, each
/// later one a weighted draw given those before it.
pub open spec fn is_seeding(data: Seq<Rgb>, k: int, centroids: Seq<Rgb>) -> bool {
    &&& centroids.len() == k
    &&& forall|j: int| 0 <= j < k ==> data.contains(#[trigger] centroids[j])
    &&& forall|j: int| 1 <= j < k ==> is_seed(data, centroids.take(j), #[trigger] centroids[j])
}

/// The distance to the nearest centroid is zero or more and fits a distance.
pub proof fn lemma_nearest_dist_bounds(p: Rgb, centroids: Seq<Rgb>)
    ensures
        0 <= nearest_dist(p, centroids) <= i64::MAX,
    decreases centroids.len(),
{
    if centroids.len() > 0 {
        lemma_nearest_dist_bounds(p, centroids.drop_last());
        crate::rgb::lemma_sq_dist_bounds(p, centroids.last());
    }
}

/// A point at distance zero from its nearest centroid is one of the
/// centroids; a point further away is none of them.
pub proof fn lemma_nearest_dist_zero(p: Rgb, centroids: Seq<Rgb>)
    ensures
        nearest_dist(p, centroids) == 0 <==> centroids.contains(p),
    decreases centroids.len(),
{
    if centroids.len() > 0 {
        let rest = centroids.drop_last();
        lemma_nearest_dist_zero(p, rest);
        lemma_nearest_dist_bounds(p, rest);
        crate::rgb::lemma_sq_dist_bounds(p, centroids.last());
        crate::rgb::lemma_sq_dist_zero_iff_equal(p, centroids.last());
        if rest.contains(p) {
            let i = choose|i: int| 0 <= i < rest.len() && rest[i] == p;
            assert(centroids[i] == p);
        }
        if centroids.contains(p) {
            let i = choose|i: int| 0 <= i < centroids.len() && centroids[i] == p;
            if i < rest.len() {
                assert(rest[i] == p);
            }
        }
        if sq_dist(p, centroids.last()) == 0 {
            assert(centroids[centroids.len() - 1] == p);
        }
    }
}

/// Distances that are zero or more add up to at least each of them.
pub proof fn lemma_dist_total_bounds(distances: Seq<i64>, i: int)
    requires
        all_non_negative(distances),
        0 <= i < distances.len(),
    ensures
        0 <= distances[i] <= dist_total(distances) <= i64::MAX * distances.len(),
    decreases distances.len(),
{
    let rest = distances.drop_last();
    assert(distances[distances.len() - 1] >= 0);
    assert(all_non_negative(rest)) by {
        assert forall|j: int| 0 <= j < rest.len() implies rest[j] >= 0 by {
            assert(rest[j] == distances[j]);
        }
    }
    if i < rest.len() {
        lemma_dist_total_bounds(rest, i);
    } else if rest.len() > 0 {
        lemma_dist_total_bounds(rest, 0);
    } else {
        assert(dist_total(rest) == 0);
    }
}

/// A weight is a share of the scale: zero or more, at most the scale, and
/// `weight * total` is at most `d * weight_scale()`.
pub proof fn lemma_weight_of_bounds(d: int, total: int)
    requires
        0 <= d <= total,
    ensures
        0 <= weight_of(d, total) <= weight_scale(),
        weight_of(d, total) * total <= d * weight_scale(),
        weight_of(d, total) > 0 ==> d > 0,
{
    if total > 0 {
        let x = d * weight_scale();
        let q = x / total;
        lemma_fundamental_div_mod(x, total);
        lemma_mod_bound(x, total);
        assert(0 <= x) by (nonlinear_arith)
            requires
                x == d * 0xFFFF_FFFF,
                0 <= d,
        ;
        assert(0 <= q <= 0xFFFF_FFFF && q * total <= x && (q > 0 ==> d > 0)) by (nonlinear_arith)
            requires
                x == total * q + x % total,
                0 <= x % total < total,
                x == d * 0xFFFF_FFFF,
                0 <= d <= total,
        ;
    }
}

/// A weighted draw never repeats a centroid: where any point has a weight
/// above zero, the seed is none of the centroids chosen before it.
pub proof fn lemma_seed_is_new(data: Seq<Rgb>, chosen: Seq<Rgb>, p: Rgb)
    requires
        chosen.len() > 0,
        is_seed(data, chosen, p),
        weight_total(weights_of(nearest_dists(data, chosen))) > 0,
    ensures
        !chosen.contains(p),
{
    let distances = nearest_dists(data, chosen);
    let weights = weights_of(distances);
    let i = choose|i: int|
        0 <= i < data.len() && data[i] == p && (weight_total(weights) > 0 ==> weights[i] > 0);
    assert forall|m: int| 0 <= m < distances.len() implies distances[m] >= 0 by {
        lemma_nearest_dist_bounds(data[m], chosen);
    }
    lemma_nearest_dist_bounds(p, chosen);
    lemma_dist_total_bounds(distances, i);
    lemma_weight_of_bounds(distances[i] as int, dist_total(distances));
    lemma_nearest_dist_zero(p, chosen);
}

/// Among distances that are zero or more, one is at least their average.
pub proof fn lemma_large_distance_exists(distances: Seq<i64>) -> (i: int)
    requires
        all_non_negative(distances),
        distances.len() > 0,
    ensures
        0 <= i < distances.len(),
        distances[i] * distances.len() >= dist_total(distances),
    decreases distances.len(),
{
    let rest = distances.drop_last();
    let last = distances.len() - 1;
    let d = distances[last] as int;
    assert(d >= 0);
    if rest.len() == 0 {
        assert(dist_total(rest) == 0);
        assert(d * 1 == d);
        last
    } else {
        assert forall|j: int| 0 <= j < rest.len() implies rest[j] >= 0 by {
            assert(rest[j] == distances[j]);
        }
        let j = lemma_large_distance_exists(rest);
        let e = rest[j] as int;
        let n = rest.len() as int;
        assert(e == distances[j]);
        if e >= d {
            assert(e * (n + 1) == e * n + e) by (nonlinear_arith);
            j
        } else {
            assert(d * (n + 1) >= e * n + d) by (nonlinear_arith)
                requires
                    d >= e,
                    n >= 0,
            ;
            last
        }
    }
}

/// Weights add up to at least each of them.
pub proof fn lemma_weight_total_bounds(weights: Seq<u32>, i: int)
    requires
        0 <= i < weights.len(),
    ensures
        weights[i] <= weight_total(weights),
    decreases weights.len(),
{
    let rest = weights.drop_last();
    if i < rest.len() {
        lemma_weight_total_bounds(rest, i);
    } else if rest.len() > 0 {
        lemma_weight_total_bounds(rest, 0);
    } else {
        assert(weight_total(rest) == 0);
    }
}

/// Where some distance is above zero and the points are no more than
/// `weight_scale()`, some point has a weight above zero.
pub proof fn lemma_some_weight_positive(distances: Seq<i64>)
    requires
        all_non_negative(distances),
        dist_total(distances) > 0,
        distances.len() <= weight_scale(),
    ensures
        weight_total(weights_of(distances)) > 0,
{
    let total = dist_total(distances);
    let n = distances.len() as int;
    assert(n > 0);
    let i = lemma_large_distance_exists(distances);
    let d = distances[i] as int;
    lemma_dist_total_bounds(distances, i);
    lemma_weight_of_bounds(d, total);
    let x = d * weight_scale();
    assert(x >= total) by (nonlinear_arith)
        requires
            x == d * 0xFFFF_FFFF,
            d * n >= total,
            0 < n <= 0xFFFF_FFFF,
            d >= 0,
    ;
    lemma_fundamental_div_mod(x, total);
    lemma_mod_bound(x, total);
    assert(x / total >= 1) by (nonlinear_arith)
        requires
            x == total * (x / total) + x % total,
            0 <= x % total < total,
            x >= total,
    ;
    assert(weights_of(distances)[i] >= 1);
    lemma_weight_total_bounds(weights_of(distances), i);
}

/// While points remain that are no centroid yet, a draw among no more than
/// `weight_scale()` points picks one of them: seeds repeat only once every
/// point is a centroid.
pub proof fn lemma_seed_is_new_while_points_remain(
    data: Seq<Rgb>,
    chosen: Seq<Rgb>,
    p: Rgb,
    remaining: int,
)
    requires
        chosen.len() > 0,
        data.len() <= weight_scale(),
        is_seed(data, chosen, p),
        0 <= remaining < data.len(),
        !chosen.contains(data[remaining]),
    ensures
        !chosen.contains(p),
{
    let distances = nearest_dists(data, chosen);
    assert forall|m: int| 0 <= m < distances.len() implies distances[m] >= 0 by {
        lemma_nearest_dist_bounds(data[m], chosen);
    }
    lemma_nearest_dist_bounds(data[remaining], chosen);
    lemma_nearest_dist_zero(data[remaining], chosen);
    assert(distances[remaining] > 0);
    lemma_dist_total_bounds(distances, remaining);
    lemma_some_weight_positive(distances);
    lemma_seed_is_new(data, chosen, p);
}

/// `Rng::choose` on the points of `data`: nothing of an empty dataset,
/// otherwise some point of it. Which point is up to the generator.
#[verifier::external_body]
fn choose_uniform(rng: &mut StdRng, data: &Vec<Rgb>) -> (chosen: Option<Rgb>)
    ensures
        chosen is None <==> data@.len() == 0,
        chosen matches Some(p) ==> data@.contains(p),
{
    rng.choose(data.as_slice()).copied()
}

/// `WeightedChoice::new` over the positions of `weights`, each with its
/// weight, then one `ind_sample` from it: a position whose weight is above
/// zero. Which one is up to the generator. The outside code panics on no
/// items, on a total weight of zero and on one above `u32::MAX`.
#[verifier::external_body]
fn weighted_choice(weights: &Vec<u32>, rng: &mut StdRng) -> (index: usize)
    requires
        weights@.len() > 0,
        0 < weight_total(weights@) <= u32::MAX,
    ensures
        index < weights@.len(),
        weights@[index as int] > 0,
{
    let mut items: Vec<Weighted<usize>> = weights.iter().enumerate().map(
        |(i, w)| Weighted { weight: *w, item: i },
    ).collect();
    WeightedChoice::new(&mut items).ind_sample(rng)
}

/// For every point of `data`, the squared distance to the nearest of
/// `centroids`.
pub fn compute_distances(data: &Vec<Rgb>, centroids: &Vec<Rgb>) -> (distances: Vec<i64>)
    ensures
        distances@ == nearest_dists(data@, centroids@),
        all_non_negative(distances@),
{
    let mut distances: Vec<i64> = Vec::new();
    let mut i: usize = 0;
    while i < data.len()
        invariant
            0 <= i <= data.len(),
            distances@.len() == i,
            forall|m: int| 0 <= m < i ==> distances@[m] == nearest_dist(data@[m], centroids@),
        decreases data.len() - i,
    {
        let mut nearest: i64 = i64::MAX;
        let mut j: usize = 0;
        while j < centroids.len()
            invariant
                0 <= i < data.len(),
                0 <= j <= centroids.len(),
                nearest == nearest_dist(data@[i as int], centroids@.take(j as int)),
            decreases centroids.len() - j,
        {
            proof {
                assert(centroids@.take(j + 1).drop_last() =~= centroids@.take(j as int));
            }
            let d = centroids[j].sq_euclidean_distance(&data[i]);
            proof {
                crate::rgb::lemma_sq_dist_symmetric(centroids@[j as int], data@[i as int]);
            }
            if d < nearest {
                nearest = d;
            }
            j = j + 1;
        }
        proof {
            assert(centroids@.take(centroids@.len() as int) =~= centroids@);
        }
        distances.push(nearest);
        i = i + 1;
    }
    proof {
        assert forall|m: int| 0 <= m < data@.len() implies distances@[m] == nearest_dists(
            data@,
            centroids@,
        )[m] && distances@[m] >= 0 by {
            lemma_nearest_dist_bounds(data@[m], centroids@);
        }
        assert(distances@ =~= nearest_dists(data@, centroids@));
    }
    distances
}

/// The weight of every point for the next draw: its share of the total
/// distance, so that far points are likelier. The weights add up to at most
/// `weight_scale()`.
pub fn compute_weights(distances: &Vec<i64>) -> (weights: Vec<u32>)
    requires
        all_non_negative(distances@),
    ensures
        weights@ == weights_of(distances@),
        weight_total(weights@) <= weight_scale(),
{
    let mut total: u128 = 0;
    let mut i: usize = 0;
    while i < distances.len()
        invariant
            0 <= i <= distances.len(),
            all_non_negative(distances@),
            total == dist_total(distances@.take(i as int)),
            total <= i64::MAX * i,
        decreases distances.len() - i,
    {
        proof {
            assert(distances@.take(i + 1).drop_last() =~= distances@.take(i as int));
        }
        total = total + distances[i] as u128;
        i = i + 1;
    }
    proof {
        assert(distances@.take(distances@.len() as int) =~= distances@);
    }
    let mut weights: Vec<u32> = Vec::new();
    i = 0;
    while i < distances.len()
        invariant
            0 <= i <= distances.len(),
            all_non_negative(distances@),
            total == dist_total(distances@),
            weights@.len() == i,
            forall|m: int|
                0 <= m < i ==> weights@[m] == weight_of(distances@[m] as int, total as int),
            weight_total(weights@) * total <= weight_scale() * dist_total(
                distances@.take(i as int),
            ),
            total == 0 ==> weight_total(weights@) == 0,
        decreases distances.len() - i,
    {
        let d = distances[i];
        proof {
            lemma_dist_total_bounds(distances@, i as int);
            lemma_weight_of_bounds(d as int, total as int);
            assert(distances@.take(i + 1).drop_last() =~= distances@.take(i as int));
        }
        let weight: u128 = if total > 0 {
            (d as u128 * 0xFFFF_FFFF) / total
        } else {
            0
        };
        let ghost before = weights@;
        weights.push(weight as u32);
        proof {
            assert(weights@.drop_last() =~= before);
            let wt = weight_total(before);
            let dt = dist_total(distances@.take(i as int));
            assert((wt + weight) * total <= 0xFFFF_FFFF * (dt + d)) by (nonlinear_arith)
                requires
                    wt * total <= 0xFFFF_FFFF * dt,
                    weight * total <= d * 0xFFFF_FFFF,
            ;
        }
        i = i + 1;
    }
    proof {
        assert(distances@.take(distances@.len() as int) =~= distances@);
        let wt = weight_total(weights@);
        assert(wt <= 0xFFFF_FFFF) by (nonlinear_arith)
            requires
                wt * total <= 0xFFFF_FFFF * total,
                total == 0 ==> wt == 0,
                total >= 0,
        ;
        assert(weights@ =~= weights_of(distances@));
    }
    weights
}

/// Draws one position of `weights`, likelier the larger its weight. Nothing is
/// drawn where no weighted draw can be made: where the weights add up to
/// zero, or to more than `u32::MAX`.
pub fn pick_weighted(weights: &Vec<u32>, rng: &mut StdRng) -> (r: Option<usize>)
    ensures
        r is None <==> (weight_total(weights@) == 0 || weight_total(weights@) > u32::MAX),
        r matches Some(i) ==> i < weights@.len() && weights@[i as int] > 0,
{
    let mut total: u128 = 0;
    let mut i: usize = 0;
    while i < weights.len()
        invariant
            0 <= i <= weights.len(),
            total == weight_total(weights@.take(i as int)),
            total <= u32::MAX * i,
        decreases weights.len() - i,
    {
        proof {
            assert(weights@.take(i + 1).drop_last() =~= weights@.take(i as int));
        }
        total = total + weights[i] as u128;
        i = i + 1;
    }
    proof {
        assert(weights@.take(weights@.len() as int) =~= weights@);
    }
    if total == 0 || total > 0xFFFF_FFFF {
        None
    } else {
        Some(weighted_choice(weights, rng))
    }
}

/// Adds `p` to the seeds chosen so far.
fn push_seed(centroids: &mut Vec<Rgb>, p: Rgb, Ghost(data): Ghost<Seq<Rgb>>)
    requires
        is_seeding(data, old(centroids)@.len() as int, old(centroids)@),
        data.contains(p),
        old(centroids)@.len() >= 1 ==> is_seed(data, old(centroids)@, p),
    ensures
        final(centroids)@ == old(centroids)@.push(p),
        is_seeding(data, (old(centroids)@.len() + 1) as int, final(centroids)@),
{
    let ghost before = centroids@;
    centroids.push(p);
    proof {
        assert forall|j: int| 1 <= j < centroids@.len() implies is_seed(
            data,
            centroids@.take(j),
            #[trigger] centroids@[j],
        ) by {
            if j < before.len() {
                assert(centroids@.take(j) =~= before.take(j));
                assert(centroids@[j] == before[j]);
            } else {
                assert(centroids@.take(j) =~= before);
            }
        }
    }
}

/// Chooses `num_centroids` initial centroids among the points of `data`: the
/// first is any point; each later one is drawn with a chance proportional to
/// its squared distance from the nearest centroid chosen before it. Where no
/// point has a weight above zero, as when every point coincides with a
/// centroid already, the draw is uniform and centroids repeat.
pub fn choose_centres(data: &Vec<Rgb>, num_centroids: usize, rng: &mut StdRng) -> (r: Result<
    Vec<Rgb>,
    KMeansError,
>)
    ensures
        data@.len() == 0 ==> r == Err::<Vec<Rgb>, KMeansError>(KMeansError::EmptyDataset),
        data@.len() > 0 && num_centroids == 0 ==> r == Err::<Vec<Rgb>, KMeansError>(
            KMeansError::InvalidClusterCount,
        ),
        data@.len() > 0 && num_centroids > 0 ==> (r matches Ok(centroids) && is_seeding(
            data@,
            num_centroids as int,
            centroids@,
        )),
{
    if data.len() == 0 {
        return Err(KMeansError::EmptyDataset);
    }
    if num_centroids == 0 {
        return Err(KMeansError::InvalidClusterCount);
    }
    let mut centroids: Vec<Rgb> = Vec::new();
    while centroids.len() < num_centroids
        invariant
            data@.len() > 0,
            centroids@.len() <= num_centroids,
            is_seeding(data@, centroids@.len() as int, centroids@),
        decreases num_centroids - centroids@.len(),
    {
        let drawn = if centroids.len() == 0 {
            None
        } else {
            let distances = compute_distances(data, &centroids);
            let weights = compute_weights(&distances);
            pick_weighted(&weights, rng)
        };
        let p = match drawn {
            Some(i) => data[i],
            None => match choose_uniform(rng, data) {
                Some(p) => p,
                None => {
                    return Err(KMeansError::EmptyDataset);
                },
            },
        };
        push_seed(&mut centroids, p, Ghost(data@));
    }
    Ok(centroids)
}

} // verus!
