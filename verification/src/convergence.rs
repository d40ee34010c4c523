use vstd::prelude::*;
use crate::assignment::{is_expectation, is_nearest};
use crate::descent::lemma_iteration_descends;
use crate::inertia::lemma_inertia_bounds;
use crate::kmeans::{
    assigned,
    assignments_at,
    centroids_after,
    converges_at,
    inertia_after,
    nearest_index,
    settled_at,
};
use crate::rgb::{sq_dist, Rgb};

verus! {

/// Wherever there is a centroid, every point has a nearest one.
pub proof fn lemma_nearest_exists(p: Rgb, centroids: Seq<Rgb>) -> (i: int)
    requires
        centroids.len() > 0,
    ensures
        is_nearest(p, centroids, i),
        i == nearest_index(p, centroids),
    decreases centroids.len(),
{
    let last = centroids.len() - 1;
    let i = if centroids.len() == 1 {
        0
    } else {
        let rest = centroids.drop_last();
        let w = lemma_nearest_exists(p, rest);
        assert(rest[w] == centroids[w]);
        assert forall|j: int| 0 <= j < centroids.len() - 1 implies sq_dist(p, rest[w]) <= sq_dist(
            p,
            centroids[j],
        ) by {
            assert(rest[j] == centroids[j]);
        }
        assert forall|j: int| 0 <= j < w implies sq_dist(p, rest[w]) < sq_dist(p, centroids[j]) by {
            assert(rest[j] == centroids[j]);
        }
        if sq_dist(p, centroids[last]) < sq_dist(p, rest[w]) {
            last
        } else {
            w
        }
    };
    assert(is_nearest(p, centroids, i));
    crate::kmeans::lemma_nearest_unique(p, centroids, i, nearest_index(p, centroids));
    i
}

/// The assignments that `assigned` describes pair every point with its
/// nearest centroid.
pub proof fn lemma_assigned_is_expectation(data: Seq<Rgb>, centroids: Seq<Rgb>)
    requires
        0 < centroids.len() <= usize::MAX,
    ensures
        is_expectation(assigned(data, centroids), data, centroids),
{
    let a = assigned(data, centroids);
    assert forall|i: int| 0 <= i < data.len() implies *(#[trigger] a[i]).pixel == data[i]
        && is_nearest(data[i], centroids, a[i].cluster_ind as int) by {
        lemma_nearest_exists(data[i], centroids);
    }
}

/// Iterating keeps the number of centroids.
pub proof fn lemma_centroid_count_kept(data: Seq<Rgb>, start: Seq<Rgb>, t: nat)
    ensures
        centroids_after(data, start, t).len() == start.len(),
    decreases t,
{
    if t > 0 {
        lemma_centroid_count_kept(data, start, (t - 1) as nat);
    }
}

/// Inertia never rises: every iteration after the first leaves the inertia
/// at or below where the iteration before it left it.
pub proof fn lemma_inertia_never_rises(data: Seq<Rgb>, start: Seq<Rgb>, t: nat)
    requires
        0 < start.len() <= usize::MAX,
        t >= 1,
    ensures
        0 <= inertia_after(data, start, t + 1) <= inertia_after(data, start, t),
{
    let before = centroids_after(data, start, (t - 1) as nat);
    let middle = centroids_after(data, start, t);
    lemma_centroid_count_kept(data, start, (t - 1) as nat);
    lemma_centroid_count_kept(data, start, t);
    lemma_assigned_is_expectation(data, before);
    lemma_assigned_is_expectation(data, middle);
    lemma_iteration_descends(data, before, assigned(data, before), assigned(data, middle));
    lemma_inertia_bounds(assignments_at(data, start, t + 1), centroids_after(data, start, t + 1));
}

/// From an iteration on that has not settled, the inertia can only fall so
/// often before one does.
proof fn lemma_settles_from(data: Seq<Rgb>, start: Seq<Rgb>, t: nat)
    requires
        0 < start.len() <= usize::MAX,
        t >= 1,
        forall|m: nat| 2 <= m <= t ==> !#[trigger] settled_at(data, start, m),
        t + inertia_after(data, start, t) <= inertia_after(data, start, 1) + 1,
    ensures
        exists|n: nat| #[trigger]
            converges_at(data, start, n) && n <= inertia_after(data, start, 1) + 2,
    decreases inertia_after(data, start, t),
{
    lemma_inertia_never_rises(data, start, t);
    if settled_at(data, start, t + 1) {
        assert(converges_at(data, start, t + 1));
    } else {
        lemma_settles_from(data, start, t + 1);
    }
}

/// The iterations come to rest: from any centroids, over any points, some
/// iteration leaves the inertia as the one before it left it, and it comes
/// no later than the first inertia allows.
pub proof fn lemma_run_converges(data: Seq<Rgb>, start: Seq<Rgb>)
    requires
        0 < start.len() <= usize::MAX,
    ensures
        exists|n: nat| #[trigger]
            converges_at(data, start, n) && n <= inertia_after(data, start, 1) + 2,
{
    lemma_inertia_bounds(assignments_at(data, start, 1), centroids_after(data, start, 1));
    lemma_settles_from(data, start, 1);
}

} // verus!
