use vstd::prelude::*;
use vstd::arithmetic::div_mod::{
    lemma_fundamental_div_mod,
    lemma_fundamental_div_mod_converse,
    lemma_mod_bound,
};
use crate::assignment::{
    cluster_count,
    cluster_members,
    cluster_sum,
    count_assignments,
    lemma_channel_total_bounds,
    lemma_cluster_members_bound,
    sum_assigned_values,
    Assignment,
};
use crate::rgb::Rgb;

verus! {

/// The whole number nearest to `sum / n`; a mean that lies halfway between two
/// whole numbers goes to the upper one.
pub open spec fn nearest_mean(sum: int, n: int) -> int {
    (2 * sum + n) / (2 * n)
}

/// The colour nearest to the mean of the points assigned to cluster `c`.
pub open spec fn cluster_mean(assignments: Seq<Assignment>, c: int) -> Rgb {
    let n = cluster_count(assignments, c) as int;
    Rgb {
        r: nearest_mean(cluster_sum(assignments, c, 0), n) as i16,
        g: nearest_mean(cluster_sum(assignments, c, 1), n) as i16,
        b: nearest_mean(cluster_sum(assignments, c, 2), n) as i16,
    }
}

/// What the update step makes of centroid `c`: the mean of its points, or the
/// centroid as it was when no point is assigned to it.
pub open spec fn updated_centroid(previous: Rgb, assignments: Seq<Assignment>, c: int) -> Rgb {
    if cluster_count(assignments, c) == 0 {
        previous
    } else {
        cluster_mean(assignments, c)
    }
}

/// The centroids after an update step.
pub open spec fn updated_centroids(previous: Seq<Rgb>, assignments: Seq<Assignment>) -> Seq<Rgb> {
    Seq::new(previous.len(), |c: int| updated_centroid(previous[c], assignments, c))
}

/// How many of the clusters `0..k` have no point assigned.
pub open spec fn empty_clusters(assignments: Seq<Assignment>, k: int) -> int
    decreases k,
{
    if k <= 0 {
        0
    } else if cluster_count(assignments, k - 1) == 0 {
        empty_clusters(assignments, k - 1) + 1
    } else {
        empty_clusters(assignments, k - 1)
    }
}

/// `nearest_mean(sum, n)` is within half a unit of `sum / n`.
pub proof fn lemma_nearest_mean_is_nearest(sum: int, n: int)
    requires
        n > 0,
    ensures
        2 * n * nearest_mean(sum, n) - n <= 2 * sum < 2 * n * nearest_mean(sum, n) + n,
{
    let x = 2 * sum + n;
    let d = 2 * n;
    lemma_fundamental_div_mod(x, d);
    lemma_mod_bound(x, d);
    assert(d * (x / d) == 2 * n * nearest_mean(sum, n)) by (nonlinear_arith)
        requires
            d == 2 * n,
            x / d == nearest_mean(sum, n),
    ;
}

/// The mean of values that fit a channel fits a channel.
pub proof fn lemma_nearest_mean_in_range(sum: int, n: int)
    requires
        n > 0,
        -32768 * n <= sum <= 32767 * n,
    ensures
        -32768 <= nearest_mean(sum, n) <= 32767,
{
    lemma_nearest_mean_is_nearest(sum, n);
    let m = nearest_mean(sum, n);
    assert(m <= 32767) by (nonlinear_arith)
        requires
            n > 0,
            2 * n * m - n <= 2 * sum,
            sum <= 32767 * n,
    ;
    assert(m >= -32768) by (nonlinear_arith)
        requires
            n > 0,
            2 * sum < 2 * n * m + n,
            -32768 * n <= sum,
    ;
}

/// The mean of `n` channel values that add up to `sum`, to the nearest whole
/// number.
pub fn rounded_mean(sum: i128, n: usize) -> (m: i16)
    requires
        n > 0,
        -32768 * n <= sum <= 32767 * n,
    ensures
        m == nearest_mean(sum as int, n as int),
        2 * n * m - n <= 2 * sum < 2 * n * m + n,
{
    proof {
        lemma_nearest_mean_is_nearest(sum as int, n as int);
    }
    let count: u128 = n as u128;
    let shifted: u128 = (sum + 32768 * (n as i128)) as u128;
    let q: u128 = (2 * shifted + count) / (2 * count);
    proof {
        let x = 2 * sum + n;
        let d = 2 * n;
        let m = nearest_mean(sum as int, n as int);
        lemma_fundamental_div_mod(x, d);
        lemma_mod_bound(x, d);
        lemma_nearest_mean_in_range(sum as int, n as int);
        assert(2 * shifted + count == (m + 32768) * d + x % d) by (nonlinear_arith)
            requires
                x == d * m + x % d,
                shifted == sum + 32768 * n,
                x == 2 * sum + n,
                d == 2 * n,
                count == n,
        ;
        lemma_fundamental_div_mod_converse(2 * shifted + count, d, m + 32768, x % d);
    }
    (q as i128 - 32768) as i16
}

/// How many of the clusters `0..num_clusters` no point is assigned to.
pub fn count_empty_clusters(assignments: &[Assignment], num_clusters: usize) -> (empty: usize)
    ensures
        empty == empty_clusters(assignments@, num_clusters as int),
        empty <= num_clusters,
{
    let mut empty: usize = 0;
    let mut i: usize = 0;
    while i < num_clusters
        invariant
            0 <= i <= num_clusters,
            empty == empty_clusters(assignments@, i as int),
            empty <= i,
        decreases num_clusters - i,
    {
        if count_assignments(assignments, i) == 0 {
            empty = empty + 1;
        }
        i = i + 1;
    }
    empty
}

/// Update cluster centres: every centroid with points assigned moves to their
/// mean; one without any stays where it is. Returns how many stayed for want
/// of points.
pub fn maximisation(cluster_centroids: &mut Vec<Rgb>, assignments: &[Assignment]) -> (unmoved: usize)
    ensures
        final(cluster_centroids)@ == updated_centroids(old(cluster_centroids)@, assignments@),
        unmoved == empty_clusters(assignments@, old(cluster_centroids)@.len() as int),
{
    let ghost previous = cluster_centroids@;
    let mut unmoved: usize = 0;
    let mut i: usize = 0;
    while i < cluster_centroids.len()
        invariant
            0 <= i <= cluster_centroids.len(),
            cluster_centroids@.len() == previous.len(),
            unmoved == empty_clusters(assignments@, i as int),
            unmoved <= i,
            forall|c: int| 0 <= c < i ==> cluster_centroids@[c] == updated_centroid(previous[c], assignments@, c),
            forall|c: int| i <= c < previous.len() ==> cluster_centroids@[c] == previous[c],
        decreases cluster_centroids.len() - i,
    {
        let num_points = count_assignments(assignments, i);
        if num_points == 0 {
            unmoved = unmoved + 1;
        } else {
            let sum_points = sum_assigned_values(assignments, i);
            proof {
                lemma_cluster_members_bound(assignments@, i as int);
                lemma_channel_total_bounds(cluster_members(assignments@, i as int), 0);
                lemma_channel_total_bounds(cluster_members(assignments@, i as int), 1);
                lemma_channel_total_bounds(cluster_members(assignments@, i as int), 2);
            }
            let mean = Rgb::new(
                rounded_mean(sum_points.r, num_points),
                rounded_mean(sum_points.g, num_points),
                rounded_mean(sum_points.b, num_points),
            );
            cluster_centroids.set(i, mean);
        }
        i = i + 1;
    }
    proof {
        assert(cluster_centroids@ =~= updated_centroids(previous, assignments@));
    }
    unmoved
}

} // verus!
