use vstd::prelude::*;
use crate::error::KMeansError;
use crate::rgb::{sq_dist, Rgb, RgbSum};

verus! {

/// Structure for holding an RGB point's assignment to a cluster.
#[derive(Clone, Copy, Debug, PartialEq, Eq)]
pub struct Assignment<'a> {
    pub pixel: &'a Rgb,
    pub cluster_ind: usize,
}

/// `i` is the first position of the smallest value of `values`.
pub open spec fn is_first_min(values: Seq<i64>, i: int) -> bool {
    &&& 0 <= i < values.len()
    &&& forall|j: int| 0 <= j < values.len() ==> values[i] <= values[j]
    &&& forall|j: int| 0 <= j < i ==> values[i] < values[j]
}

/// `i` is the index of the centroid nearest to `p`; among equally near
/// centroids it is the lowest index.
pub open spec fn is_nearest(p: Rgb, centroids: Seq<Rgb>, i: int) -> bool {
    &&& 0 <= i < centroids.len()
    &&& forall|j: int| 0 <= j < centroids.len() ==> sq_dist(p, centroids[i]) <= sq_dist(p, centroids[j])
    &&& forall|j: int| 0 <= j < i ==> sq_dist(p, centroids[i]) < sq_dist(p, centroids[j])
}

/// `assignments` pairs every point of `data`, in order, with its nearest
/// centroid.
pub open spec fn is_expectation(
    assignments: Seq<Assignment>,
    data: Seq<Rgb>,
    centroids: Seq<Rgb>,
) -> bool {
    &&& assignments.len() == data.len()
    &&& forall|i: int|
        0 <= i < data.len() ==> *(#[trigger] assignments[i]).pixel == data[i] && is_nearest(
            data[i],
            centroids,
            assignments[i].cluster_ind as int,
        )
}

/// Every assignment names one of `k` clusters.
pub open spec fn indices_below(assignments: Seq<Assignment>, k: int) -> bool {
    forall|i: int| 0 <= i < assignments.len() ==> 0 <= (#[trigger] assignments[i]).cluster_ind < k
}

/// The assignments to cluster `c`, in their order in `assignments`.
pub open spec fn cluster_members(assignments: Seq<Assignment>, c: int) -> Seq<Assignment>
    decreases assignments.len(),
{
    if assignments.len() == 0 {
        Seq::empty()
    } else if assignments.last().cluster_ind == c {
        cluster_members(assignments.drop_last(), c).push(assignments.last())
    } else {
        cluster_members(assignments.drop_last(), c)
    }
}

/// How many points are assigned to cluster `c`.
pub open spec fn cluster_count(assignments: Seq<Assignment>, c: int) -> nat {
    cluster_members(assignments, c).len()
}

/// Channel `ch` (0 red, 1 green, anything else blue) of a colour.
pub open spec fn chan(p: Rgb, ch: int) -> int {
    if ch == 0 {
        p.r as int
    } else if ch == 1 {
        p.g as int
    } else {
        p.b as int
    }
}

/// The total of channel `ch` over the points of `assignments`.
pub open spec fn channel_total(assignments: Seq<Assignment>, ch: int) -> int
    decreases assignments.len(),
{
    if assignments.len() == 0 {
        0
    } else {
        channel_total(assignments.drop_last(), ch) + chan(*assignments.last().pixel, ch)
    }
}

/// The total of channel `ch` over the points assigned to cluster `c`.
pub open spec fn cluster_sum(assignments: Seq<Assignment>, c: int, ch: int) -> int {
    channel_total(cluster_members(assignments, c), ch)
}

/// Taking one more assignment into account either appends it to the members
/// of `c` or leaves them alone.
pub proof fn lemma_cluster_members_step(assignments: Seq<Assignment>, n: int, c: int)
    requires
        0 <= n < assignments.len(),
    ensures
        cluster_members(assignments.take(n + 1), c) == if assignments[n].cluster_ind == c {
            cluster_members(assignments.take(n), c).push(assignments[n])
        } else {
            cluster_members(assignments.take(n), c)
        },
{
    assert(assignments.take(n + 1).drop_last() =~= assignments.take(n));
}

/// The members of a cluster are no more than the assignments, and each of
/// them is an assignment to that cluster.
pub proof fn lemma_cluster_members_bound(assignments: Seq<Assignment>, c: int)
    ensures
        cluster_members(assignments, c).len() <= assignments.len(),
        forall|i: int|
            0 <= i < cluster_members(assignments, c).len() ==> (#[trigger] cluster_members(
                assignments,
                c,
            )[i]).cluster_ind == c,
    decreases assignments.len(),
{
    if assignments.len() > 0 {
        lemma_cluster_members_bound(assignments.drop_last(), c);
    }
}

/// A channel total lies between the smallest and the largest channel value,
/// each taken once per point.
pub proof fn lemma_channel_total_bounds(assignments: Seq<Assignment>, ch: int)
    ensures
        -32768 * assignments.len() <= channel_total(assignments, ch) <= 32767 * assignments.len(),
    decreases assignments.len(),
{
    if assignments.len() > 0 {
        lemma_channel_total_bounds(assignments.drop_last(), ch);
    }
}

/// The position of the smallest value, the first one where several are equally
/// small; `None` when there is no value at all.
pub fn index_of_min_val(values: Vec<i64>) -> (r: Option<usize>)
    ensures
        r is None <==> values@.len() == 0,
        r matches Some(i) ==> is_first_min(values@, i as int),
{
    if values.len() == 0 {
        return None;
    }
    let mut min_i: usize = 0;
    let mut i: usize = 1;
    while i < values.len()
        invariant
            0 <= min_i < i <= values.len(),
            forall|j: int| 0 <= j < i ==> values@[min_i as int] <= values@[j],
            forall|j: int| 0 <= j < min_i ==> values@[min_i as int] < values@[j],
        decreases values.len() - i,
    {
        if values[i] < values[min_i] {
            min_i = i;
        }
        i = i + 1;
    }
    Some(min_i)
}

/// Assign points to clusters: each point goes to its nearest centroid, to the
/// lowest-numbered one among equally near centroids.
pub fn expectation<'a>(data: &'a [Rgb], cluster_centroids: &[Rgb]) -> (r: Result<
    Vec<Assignment<'a>>,
    KMeansError,
>)
    ensures
        data@.len() == 0 ==> r == Err::<Vec<Assignment<'a>>, KMeansError>(KMeansError::EmptyDataset),
        data@.len() > 0 && cluster_centroids@.len() == 0 ==> r == Err::<
            Vec<Assignment<'a>>,
            KMeansError,
        >(KMeansError::InvalidClusterCount),
        data@.len() > 0 && cluster_centroids@.len() > 0 ==> (r matches Ok(a) && is_expectation(
            a@,
            data@,
            cluster_centroids@,
        )),
{
    if data.len() == 0 {
        return Err(KMeansError::EmptyDataset);
    }
    if cluster_centroids.len() == 0 {
        return Err(KMeansError::InvalidClusterCount);
    }
    let mut assignments: Vec<Assignment<'a>> = Vec::new();
    let mut i: usize = 0;
    while i < data.len()
        invariant
            0 <= i <= data.len(),
            cluster_centroids@.len() > 0,
            assignments@.len() == i,
            forall|m: int|
                0 <= m < i ==> *(#[trigger] assignments@[m]).pixel == data@[m] && is_nearest(
                    data@[m],
                    cluster_centroids@,
                    assignments@[m].cluster_ind as int,
                ),
        decreases data.len() - i,
    {
        let point = &data[i];
        let mut distances: Vec<i64> = Vec::new();
        let mut j: usize = 0;
        while j < cluster_centroids.len()
            invariant
                0 <= j <= cluster_centroids.len(),
                distances@.len() == j,
                forall|m: int| 0 <= m < j ==> distances@[m] == sq_dist(*point, cluster_centroids@[m]),
            decreases cluster_centroids.len() - j,
        {
            distances.push(point.sq_euclidean_distance(&cluster_centroids[j]));
            j = j + 1;
        }
        let ghost dists = distances@;
        let index = match index_of_min_val(distances) {
            Some(index) => index,
            None => {
                return Err(KMeansError::InvalidClusterCount);
            },
        };
        proof {
            assert forall|m: int| 0 <= m < cluster_centroids@.len() implies sq_dist(
                *point,
                cluster_centroids@[index as int],
            ) <= sq_dist(*point, cluster_centroids@[m]) by {
                assert(dists[index as int] <= dists[m]);
            }
            assert forall|m: int| 0 <= m < index implies sq_dist(
                *point,
                cluster_centroids@[index as int],
            ) < sq_dist(*point, cluster_centroids@[m]) by {
                assert(dists[index as int] < dists[m]);
            }
        }
        assignments.push(Assignment { pixel: point, cluster_ind: index });
        i = i + 1;
    }
    Ok(assignments)
}

/// The assignments to cluster `c_ind`, in order.
pub fn points_in_cluster<'a>(assignments: &[Assignment<'a>], c_ind: usize) -> (members: Vec<
    Assignment<'a>,
>)
    ensures
        members@ == cluster_members(assignments@, c_ind as int),
{
    let mut members: Vec<Assignment<'a>> = Vec::new();
    let mut i: usize = 0;
    while i < assignments.len()
        invariant
            0 <= i <= assignments.len(),
            members@ == cluster_members(assignments@.take(i as int), c_ind as int),
        decreases assignments.len() - i,
    {
        proof {
            lemma_cluster_members_step(assignments@, i as int, c_ind as int);
        }
        if assignments[i].cluster_ind == c_ind {
            members.push(assignments[i]);
        }
        i = i + 1;
    }
    proof {
        assert(assignments@.take(assignments@.len() as int) =~= assignments@);
    }
    members
}

/// The number of points assigned to cluster `cluster_ind`.
pub fn count_assignments(assignments: &[Assignment], cluster_ind: usize) -> (n: usize)
    ensures
        n == cluster_count(assignments@, cluster_ind as int),
{
    points_in_cluster(assignments, cluster_ind).len()
}

/// The channel-wise total of the points assigned to cluster `cluster_ind`.
pub fn sum_assigned_values(assignments: &[Assignment], cluster_ind: usize) -> (total: RgbSum)
    ensures
        total.r == cluster_sum(assignments@, cluster_ind as int, 0),
        total.g == cluster_sum(assignments@, cluster_ind as int, 1),
        total.b == cluster_sum(assignments@, cluster_ind as int, 2),
{
    let members = points_in_cluster(assignments, cluster_ind);
    let mut total = RgbSum::zero();
    let mut i: usize = 0;
    while i < members.len()
        invariant
            0 <= i <= members.len(),
            total.r == channel_total(members@.take(i as int), 0),
            total.g == channel_total(members@.take(i as int), 1),
            total.b == channel_total(members@.take(i as int), 2),
        decreases members.len() - i,
    {
        proof {
            let next = members@.take(i + 1);
            assert(next.drop_last() =~= members@.take(i as int));
            lemma_channel_total_bounds(next, 0);
            lemma_channel_total_bounds(next, 1);
            lemma_channel_total_bounds(next, 2);
        }
        total = total.add(*members[i].pixel);
        i = i + 1;
    }
    proof {
        assert(members@.take(members@.len() as int) =~= members@);
    }
    total
}

} // verus!
