use vstd::prelude::*;
use rand::StdRng;
use crate::assignment::{expectation, is_expectation, is_nearest, Assignment};
use crate::descent::{lemma_expectation_indices, lemma_iteration_descends};
use crate::error::KMeansError;
use crate::inertia::{get_error_metric, inertia};
use crate::rgb::{sq_dist, Rgb};
use crate::seeding::{choose_centres, is_seeding};
use crate::update::{count_empty_clusters, empty_clusters, maximisation, updated_centroids};

verus! {

/// Where a clustering run came to rest.
#[derive(Debug)]
pub struct Clustering<'a> {
    /// The final centroids, one per cluster.
    pub centroids: Vec<Rgb>,
    /// The final assignments, one per point, in the order of the points.
    pub assignments: Vec<Assignment<'a>>,
    /// The inertia of `assignments` under `centroids`.
    pub inertia: i128,
    /// The inertia at the end of every iteration that was run, the one that
    /// found the inertia unchanged included.
    pub trace: Vec<i128>,
    /// How many clusters ended without any point assigned.
    pub empty_clusters: usize,
}

/// The index of the centroid nearest to `p`, the lowest among equally near
/// ones.
pub open spec fn nearest_index(p: Rgb, centroids: Seq<Rgb>) -> int {
    choose|i: int| is_nearest(p, centroids, i)
}

/// The assignments of the points of `data` to their nearest centroids.
pub open spec fn assigned<'a>(data: Seq<Rgb>, centroids: Seq<Rgb>) -> Seq<Assignment<'a>> {
    Seq::new(
        data.len(),
        |i: int| Assignment { pixel: &data[i], cluster_ind: nearest_index(data[i], centroids) as usize },
    )
}

/// The centroids after `t` iterations that began with `start`.
pub open spec fn centroids_after(data: Seq<Rgb>, start: Seq<Rgb>, t: nat) -> Seq<Rgb>
    decreases t,
{
    if t == 0 {
        start
    } else {
        let previous = centroids_after(data, start, (t - 1) as nat);
        updated_centroids(previous, assigned(data, previous))
    }
}

/// The assignments made in iteration `t`, counted from 1.
pub open spec fn assignments_at<'a>(data: Seq<Rgb>, start: Seq<Rgb>, t: nat) -> Seq<Assignment<'a>> {
    assigned(data, centroids_after(data, start, (t - 1) as nat))
}

/// The inertia measured at the end of iteration `t`, counted from 1.
pub open spec fn inertia_after(data: Seq<Rgb>, start: Seq<Rgb>, t: nat) -> int {
    inertia(assignments_at(data, start, t), centroids_after(data, start, t))
}

/// Iteration `t` left the inertia as iteration `t - 1` had left it.
pub open spec fn settled_at(data: Seq<Rgb>, start: Seq<Rgb>, t: nat) -> bool {
    inertia_after(data, start, t) == inertia_after(data, start, (t - 1) as nat)
}

/// Iteration `t` is the first to leave the inertia as the iteration before it
/// left it. The first iteration has none before it, so `t` is at least 2.
pub open spec fn converges_at(data: Seq<Rgb>, start: Seq<Rgb>, t: nat) -> bool {
    &&& t >= 2
    &&& settled_at(data, start, t)
    &&& forall|m: nat| 2 <= m < t ==> !#[trigger] settled_at(data, start, m)
}

impl<'a> Clustering<'a> {
    /// How many iterations were run.
    pub fn iterations(&self) -> (n: usize)
        ensures
            n == self.trace@.len(),
    {
        self.trace.len()
    }
}

/// `c` is where the iterations that begin with the centroids `start` come to
/// rest.
pub open spec fn is_converged_run(data: Seq<Rgb>, start: Seq<Rgb>, c: Clustering) -> bool {
    let t = c.trace@.len();
    &&& converges_at(data, start, t)
    &&& forall|m: int|
        0 <= m < t ==> #[trigger] c.trace@[m] == inertia_after(data, start, (m + 1) as nat)
    &&& t <= inertia_after(data, start, 1) + 2
    &&& c.centroids@ == centroids_after(data, start, t)
    &&& c.centroids@.len() == start.len()
    &&& c.assignments@ == assignments_at(data, start, t)
    &&& is_expectation(c.assignments@, data, centroids_after(data, start, (t - 1) as nat))
    &&& c.inertia == inertia_after(data, start, t)
    &&& c.empty_clusters == empty_clusters(c.assignments@, start.len() as int)
}

/// A point has one nearest centroid only.
pub proof fn lemma_nearest_unique(p: Rgb, centroids: Seq<Rgb>, i: int, j: int)
    requires
        is_nearest(p, centroids, i),
        is_nearest(p, centroids, j),
    ensures
        i == j,
{
    if i < j {
        assert(sq_dist(p, centroids[j]) < sq_dist(p, centroids[i]));
        assert(sq_dist(p, centroids[i]) <= sq_dist(p, centroids[j]));
    }
    if j < i {
        assert(sq_dist(p, centroids[i]) < sq_dist(p, centroids[j]));
        assert(sq_dist(p, centroids[j]) <= sq_dist(p, centroids[i]));
    }
}

/// The same points and the same centroids give the same assignments.
pub proof fn lemma_expectation_is_assigned(
    assignments: Seq<Assignment>,
    data: Seq<Rgb>,
    centroids: Seq<Rgb>,
)
    requires
        is_expectation(assignments, data, centroids),
    ensures
        assignments == assigned(data, centroids),
{
    assert forall|i: int| 0 <= i < data.len() implies assignments[i] == assigned(
        data,
        centroids,
    )[i] by {
        let a = assignments[i];
        assert(is_nearest(data[i], centroids, a.cluster_ind as int));
        lemma_nearest_unique(
            data[i],
            centroids,
            a.cluster_ind as int,
            nearest_index(data[i], centroids),
        );
    }
    assert(assignments =~= assigned(data, centroids));
}

/// One iteration: assigns every point to its nearest centroid, then moves
/// every centroid to the mean of its points.
pub fn kmeans_one_iteration<'a>(cluster_centroids: &mut Vec<Rgb>, data: &'a [Rgb]) -> (r: Result<
    Vec<Assignment<'a>>,
    KMeansError,
>)
    ensures
        data@.len() == 0 ==> r == Err::<Vec<Assignment<'a>>, KMeansError>(KMeansError::EmptyDataset),
        data@.len() > 0 && old(cluster_centroids)@.len() == 0 ==> r == Err::<
            Vec<Assignment<'a>>,
            KMeansError,
        >(KMeansError::InvalidClusterCount),
        r is Err ==> final(cluster_centroids)@ == old(cluster_centroids)@,
        data@.len() > 0 && old(cluster_centroids)@.len() > 0 ==> (r matches Ok(a) && is_expectation(
            a@,
            data@,
            old(cluster_centroids)@,
        ) && final(cluster_centroids)@ == updated_centroids(old(cluster_centroids)@, a@)),
{
    match expectation(data, cluster_centroids.as_slice()) {
        Ok(assignments) => {
            maximisation(cluster_centroids, assignments.as_slice());
            Ok(assignments)
        },
        Err(e) => Err(e),
    }
}

/// Iterates from the centroids `start` until an iteration leaves the inertia
/// as the iteration before it left it.
pub fn converge<'a>(start: Vec<Rgb>, data: &'a [Rgb]) -> (r: Result<Clustering<'a>, KMeansError>)
    ensures
        data@.len() == 0 ==> r == Err::<Clustering<'a>, KMeansError>(KMeansError::EmptyDataset),
        data@.len() > 0 && start@.len() == 0 ==> r == Err::<Clustering<'a>, KMeansError>(
            KMeansError::InvalidClusterCount,
        ),
        data@.len() > 0 && start@.len() > 0 ==> (r matches Ok(c) && is_converged_run(
            data@,
            start@,
            c,
        )),
{
    let mut centroids = start;
    let ghost first = centroids@;
    let mut assignments = match kmeans_one_iteration(&mut centroids, data) {
        Ok(assignments) => assignments,
        Err(e) => {
            return Err(e);
        },
    };
    proof {
        lemma_expectation_is_assigned(assignments@, data@, first);
        lemma_expectation_indices(assignments@, data@, first);
        assert(centroids_after(data@, first, 0) == first);
    }
    let mut error = get_error_metric(centroids.as_slice(), assignments.as_slice());
    let mut trace: Vec<i128> = Vec::new();
    trace.push(error);
    let ghost mut iterations: nat = 1;
    loop
        invariant
            data@.len() > 0,
            first == start@,
            centroids@.len() == first.len(),
            first.len() > 0,
            iterations == trace@.len(),
            iterations >= 1,
            forall|m: int|
                0 <= m < iterations ==> #[trigger] trace@[m] == inertia_after(
                    data@,
                    first,
                    (m + 1) as nat,
                ),
            centroids@ == centroids_after(data@, first, iterations as nat),
            assignments@ == assignments_at(data@, first, iterations as nat),
            is_expectation(
                assignments@,
                data@,
                centroids_after(data@, first, (iterations - 1) as nat),
            ),
            error == inertia_after(data@, first, iterations as nat),
            forall|m: nat| 2 <= m <= iterations ==> !#[trigger] settled_at(data@, first, m),
            iterations + error <= inertia_after(data@, first, 1) + 1,
            0 <= error,
        decreases error,
    {
        let ghost previous = centroids@;
        let next = match kmeans_one_iteration(&mut centroids, data) {
            Ok(next) => next,
            Err(e) => {
                return Err(e);
            },
        };
        proof {
            lemma_expectation_is_assigned(next@, data@, previous);
            lemma_expectation_indices(next@, data@, previous);
            lemma_iteration_descends(
                data@,
                centroids_after(data@, first, (iterations - 1) as nat),
                assignments@,
                next@,
            );
        }
        let next_error = get_error_metric(centroids.as_slice(), next.as_slice());
        trace.push(next_error);
        proof {
            iterations = iterations + 1;
        }
        if next_error == error {
            let empty = count_empty_clusters(next.as_slice(), centroids.len());
            return Ok(
                Clustering {
                    centroids: centroids,
                    assignments: next,
                    inertia: next_error,
                    trace: trace,
                    empty_clusters: empty,
                },
            );
        }
        assignments = next;
        error = next_error;
    }
}

/// Clusters `data` into `num_clusters` clusters: seeds the centroids from
/// `rng`, then iterates until the inertia settles.
pub fn kmeans<'a>(data: &'a Vec<Rgb>, num_clusters: usize, rng: &mut StdRng) -> (r: Result<
    Clustering<'a>,
    KMeansError,
>)
    ensures
        data@.len() == 0 ==> r == Err::<Clustering<'a>, KMeansError>(KMeansError::EmptyDataset),
        data@.len() > 0 && num_clusters == 0 ==> r == Err::<Clustering<'a>, KMeansError>(
            KMeansError::InvalidClusterCount,
        ),
        data@.len() > 0 && num_clusters > 0 ==> (r matches Ok(c) && exists|seeds: Seq<Rgb>|
            is_seeding(data@, num_clusters as int, seeds) && is_converged_run(data@, seeds, c)),
{
    match choose_centres(data, num_clusters, rng) {
        Ok(seeds) => converge(seeds, data.as_slice()),
        Err(e) => Err(e),
    }
}

} // verus!
