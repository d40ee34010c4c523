use vstd::prelude::*;
use crate::assignment::{indices_below, Assignment};
use crate::rgb::{lemma_sq_dist_bounds, max_sq_dist, sq_dist, Rgb};

verus! {

/// Total within-cluster squared distance: for every assignment, the squared
/// distance from its point to the centroid it names.
pub open spec fn inertia(assignments: Seq<Assignment>, centroids: Seq<Rgb>) -> int
    decreases assignments.len(),
{
    if assignments.len() == 0 {
        0
    } else {
        inertia(assignments.drop_last(), centroids) + sq_dist(
            *assignments.last().pixel,
            centroids[assignments.last().cluster_ind as int],
        )
    }
}

/// Inertia is never negative, and at most the largest squared distance once
/// per point.
pub proof fn lemma_inertia_bounds(assignments: Seq<Assignment>, centroids: Seq<Rgb>)
    ensures
        0 <= inertia(assignments, centroids) <= max_sq_dist() * assignments.len(),
    decreases assignments.len(),
{
    if assignments.len() > 0 {
        lemma_inertia_bounds(assignments.drop_last(), centroids);
        lemma_sq_dist_bounds(
            *assignments.last().pixel,
            centroids[assignments.last().cluster_ind as int],
        );
    }
}

/// The inertia of the current centroids and assignments.
pub fn get_error_metric(cluster_centroids: &[Rgb], assignments: &[Assignment]) -> (error: i128)
    requires
        indices_below(assignments@, cluster_centroids@.len() as int),
    ensures
        error == inertia(assignments@, cluster_centroids@),
        error >= 0,
{
    let mut error: i128 = 0;
    let mut i: usize = 0;
    while i < assignments.len()
        invariant
            0 <= i <= assignments.len(),
            indices_below(assignments@, cluster_centroids@.len() as int),
            error == inertia(assignments@.take(i as int), cluster_centroids@),
        decreases assignments.len() - i,
    {
        proof {
            assert(assignments@.take(i + 1).drop_last() =~= assignments@.take(i as int));
            lemma_inertia_bounds(assignments@.take(i + 1), cluster_centroids@);
        }
        let assignment = &assignments[i];
        let centroid = &cluster_centroids[assignment.cluster_ind];
        error = error + assignment.pixel.sq_euclidean_distance(centroid) as i128;
        i = i + 1;
    }
    proof {
        assert(assignments@.take(assignments@.len() as int) =~= assignments@);
        lemma_inertia_bounds(assignments@, cluster_centroids@);
    }
    error
}

/// The colour each point takes on: that of the centroid it is assigned to,
/// in the order of the assignments.
pub fn recolour(assignments: &[Assignment], cluster_centroids: &[Rgb]) -> (colours: Vec<Rgb>)
    requires
        indices_below(assignments@, cluster_centroids@.len() as int),
    ensures
        colours@.len() == assignments@.len(),
        forall|i: int|
            0 <= i < assignments@.len() ==> colours@[i] == cluster_centroids@[assignments@[i].cluster_ind as int],
{
    let mut colours: Vec<Rgb> = Vec::new();
    let mut i: usize = 0;
    while i < assignments.len()
        invariant
            0 <= i <= assignments.len(),
            indices_below(assignments@, cluster_centroids@.len() as int),
            colours@.len() == i,
            forall|m: int|
                0 <= m < i ==> colours@[m] == cluster_centroids@[assignments@[m].cluster_ind as int],
        decreases assignments.len() - i,
    {
        colours.push(cluster_centroids[assignments[i].cluster_ind]);
        i = i + 1;
    }
    colours
}

} // verus!
