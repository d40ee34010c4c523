use vstd::prelude::*;
use crate::assignment::{
    chan,
    channel_total,
    cluster_count,
    cluster_members,
    cluster_sum,
    indices_below,
    is_expectation,
    is_nearest,
    lemma_channel_total_bounds,
    Assignment,
};
use crate::inertia::inertia;
use crate::rgb::{sq, sq_dist, Rgb};
use crate::update::{
    cluster_mean,
    lemma_nearest_mean_in_range,
    lemma_nearest_mean_is_nearest,
    nearest_mean,
    updated_centroid,
    updated_centroids,
};

verus! {

/// The total squared distance from the points of `members` to `c`.
pub open spec fn cost(members: Seq<Assignment>, c: Rgb) -> int
    decreases members.len(),
{
    if members.len() == 0 {
        0
    } else {
        cost(members.drop_last(), c) + sq_dist(*members.last().pixel, c)
    }
}

/// The total of the squared channels of the points of `members`.
pub open spec fn square_total(members: Seq<Assignment>) -> int
    decreases members.len(),
{
    if members.len() == 0 {
        0
    } else {
        let p = *members.last().pixel;
        square_total(members.drop_last()) + sq(p.r as int) + sq(p.g as int) + sq(p.b as int)
    }
}

/// Moving every point to its nearest centroid does not raise the inertia.
pub proof fn lemma_reassignment_descends(
    before: Seq<Assignment>,
    after: Seq<Assignment>,
    centroids: Seq<Rgb>,
)
    requires
        before.len() == after.len(),
        indices_below(before, centroids.len() as int),
        forall|i: int|
            0 <= i < after.len() ==> *(#[trigger] after[i]).pixel == *before[i].pixel && is_nearest(
                *after[i].pixel,
                centroids,
                after[i].cluster_ind as int,
            ),
    ensures
        inertia(after, centroids) <= inertia(before, centroids),
    decreases before.len(),
{
    if before.len() > 0 {
        let n = before.len() - 1;
        assert forall|i: int| 0 <= i < n implies *(#[trigger] after.drop_last()[i]).pixel
            == *before.drop_last()[i].pixel && is_nearest(
            *after.drop_last()[i].pixel,
            centroids,
            after.drop_last()[i].cluster_ind as int,
        ) by {
            assert(after.drop_last()[i] == after[i]);
            assert(before.drop_last()[i] == before[i]);
        }
        assert forall|i: int| 0 <= i < n implies 0 <= (#[trigger] before.drop_last()[i]).cluster_ind
            < centroids.len() by {
            assert(before.drop_last()[i] == before[i]);
        }
        lemma_reassignment_descends(before.drop_last(), after.drop_last(), centroids);
        assert(*after[n].pixel == *before[n].pixel);
        assert(0 <= before[n].cluster_ind < centroids.len());
    }
}

/// Moving one centroid changes the inertia by what it changes the cost of
/// that centroid's own points.
pub proof fn lemma_move_one_centroid(
    assignments: Seq<Assignment>,
    centroids: Seq<Rgb>,
    j: int,
    c: Rgb,
)
    requires
        0 <= j < centroids.len(),
        indices_below(assignments, centroids.len() as int),
    ensures
        inertia(assignments, centroids.update(j, c)) - inertia(assignments, centroids) == cost(
            cluster_members(assignments, j),
            c,
        ) - cost(cluster_members(assignments, j), centroids[j]),
    decreases assignments.len(),
{
    if assignments.len() > 0 {
        let rest = assignments.drop_last();
        let last = assignments.last();
        assert forall|i: int| 0 <= i < rest.len() implies 0 <= (#[trigger] rest[i]).cluster_ind
            < centroids.len() by {
            assert(rest[i] == assignments[i]);
        }
        lemma_move_one_centroid(rest, centroids, j, c);
        assert(0 <= assignments[assignments.len() - 1].cluster_ind < centroids.len());
        if last.cluster_ind == j {
            let members = cluster_members(rest, j).push(last);
            assert(members.drop_last() =~= cluster_members(rest, j));
        }
    }
}

/// The cost of a centroid, written out in the totals of its points.
pub proof fn lemma_cost_expansion(members: Seq<Assignment>, c: Rgb)
    ensures
        cost(members, c) == square_total(members) - 2 * (c.r * channel_total(members, 0) + c.g
            * channel_total(members, 1) + c.b * channel_total(members, 2)) + members.len() * (sq(
            c.r as int,
        ) + sq(c.g as int) + sq(c.b as int)),
    decreases members.len(),
{
    if members.len() > 0 {
        let rest = members.drop_last();
        let p = *members.last().pixel;
        lemma_cost_expansion(rest, c);
        let (pr, pg, pb) = (p.r as int, p.g as int, p.b as int);
        let (cr, cg, cb) = (c.r as int, c.g as int, c.b as int);
        let (t0, t1, t2) = (channel_total(rest, 0), channel_total(rest, 1), channel_total(rest, 2));
        let n = rest.len() as int;
        assert(sq(pr - cr) == sq(pr) - 2 * (cr * pr) + sq(cr)) by (nonlinear_arith);
        assert(sq(pg - cg) == sq(pg) - 2 * (cg * pg) + sq(cg)) by (nonlinear_arith);
        assert(sq(pb - cb) == sq(pb) - 2 * (cb * pb) + sq(cb)) by (nonlinear_arith);
        assert(cr * (t0 + pr) == cr * t0 + cr * pr) by (nonlinear_arith);
        assert(cg * (t1 + pg) == cg * t1 + cg * pg) by (nonlinear_arith);
        assert(cb * (t2 + pb) == cb * t2 + cb * pb) by (nonlinear_arith);
        let s = sq(cr) + sq(cg) + sq(cb);
        assert((n + 1) * s == n * s + s) by (nonlinear_arith);
        assert(chan(p, 0) == pr && chan(p, 1) == pg && chan(p, 2) == pb);
    }
}

/// Among all whole numbers, the rounded mean of `n` values that add up to
/// `total` has the least total squared distance to them.
pub proof fn lemma_mean_is_best(total: int, n: int, c: int)
    requires
        n > 0,
    ensures
        n * sq(nearest_mean(total, n)) - 2 * (nearest_mean(total, n) * total) <= n * sq(c) - 2 * (c
            * total),
{
    let m = nearest_mean(total, n);
    lemma_nearest_mean_is_nearest(total, n);
    let a = c - m;
    let g = n * (c + m) - 2 * total;
    assert(n * (c * c) - n * (m * m) == a * (n * (c + m))) by (nonlinear_arith)
        requires
            a == c - m,
    ;
    assert(2 * (c * total) - 2 * (m * total) == a * (2 * total)) by (nonlinear_arith)
        requires
            a == c - m,
    ;
    assert(a * (n * (c + m)) - a * (2 * total) == a * g) by (nonlinear_arith)
        requires
            g == n * (c + m) - 2 * total,
    ;
    if c > m {
        assert(n * (c + m) >= 2 * n * m + n) by (nonlinear_arith)
            requires
                c >= m + 1,
                n > 0,
        ;
    }
    if c < m {
        assert(n * (c + m) <= 2 * n * m - n) by (nonlinear_arith)
            requires
                c <= m - 1,
                n > 0,
        ;
    }
    assert(a * g >= 0) by (nonlinear_arith)
        requires
            a > 0 ==> g >= 0,
            a < 0 ==> g <= 0,
    ;
}

/// No colour is a better centre for the points of a cluster than their mean.
pub proof fn lemma_cluster_mean_is_best(assignments: Seq<Assignment>, j: int, c: Rgb)
    requires
        cluster_count(assignments, j) > 0,
    ensures
        cost(cluster_members(assignments, j), cluster_mean(assignments, j)) <= cost(
            cluster_members(assignments, j),
            c,
        ),
{
    let members = cluster_members(assignments, j);
    let n = members.len() as int;
    let mean = cluster_mean(assignments, j);
    let (t0, t1, t2) = (
        cluster_sum(assignments, j, 0),
        cluster_sum(assignments, j, 1),
        cluster_sum(assignments, j, 2),
    );
    lemma_channel_total_bounds(members, 0);
    lemma_channel_total_bounds(members, 1);
    lemma_channel_total_bounds(members, 2);
    lemma_nearest_mean_in_range(t0, n);
    lemma_nearest_mean_in_range(t1, n);
    lemma_nearest_mean_in_range(t2, n);
    assert(mean.r == nearest_mean(t0, n));
    assert(mean.g == nearest_mean(t1, n));
    assert(mean.b == nearest_mean(t2, n));
    lemma_mean_is_best(t0, n, c.r as int);
    lemma_mean_is_best(t1, n, c.g as int);
    lemma_mean_is_best(t2, n, c.b as int);
    lemma_cost_expansion(members, mean);
    lemma_cost_expansion(members, c);
    let (mr, mg, mb) = (mean.r as int, mean.g as int, mean.b as int);
    let (cr, cg, cb) = (c.r as int, c.g as int, c.b as int);
    assert(n * (sq(mr) + sq(mg) + sq(mb)) == n * sq(mr) + n * sq(mg) + n * sq(mb))
        by (nonlinear_arith);
    assert(n * (sq(cr) + sq(cg) + sq(cb)) == n * sq(cr) + n * sq(cg) + n * sq(cb))
        by (nonlinear_arith);
}

/// The centroids when only the clusters below `j` have been updated.
pub open spec fn partly_updated(centroids: Seq<Rgb>, assignments: Seq<Assignment>, j: int) -> Seq<
    Rgb,
> {
    Seq::new(
        centroids.len(),
        |c: int|
            if c < j {
                updated_centroid(centroids[c], assignments, c)
            } else {
                centroids[c]
            },
    )
}

/// Updating the clusters below `j` does not raise the inertia.
proof fn lemma_partial_update_descends(assignments: Seq<Assignment>, centroids: Seq<Rgb>, j: int)
    requires
        0 <= j <= centroids.len(),
        indices_below(assignments, centroids.len() as int),
    ensures
        inertia(assignments, partly_updated(centroids, assignments, j)) <= inertia(
            assignments,
            centroids,
        ),
    decreases j,
{
    if j == 0 {
        assert(partly_updated(centroids, assignments, 0) =~= centroids);
    } else {
        lemma_partial_update_descends(assignments, centroids, j - 1);
        let before = partly_updated(centroids, assignments, j - 1);
        let c = updated_centroid(centroids[j - 1], assignments, j - 1);
        assert(partly_updated(centroids, assignments, j) =~= before.update(j - 1, c));
        assert(before[j - 1] == centroids[j - 1]);
        lemma_move_one_centroid(assignments, before, j - 1, c);
        if cluster_count(assignments, j - 1) > 0 {
            lemma_cluster_mean_is_best(assignments, j - 1, centroids[j - 1]);
        }
    }
}

/// The update step does not raise the inertia of the assignments it was
/// made from.
pub proof fn lemma_update_descends(assignments: Seq<Assignment>, centroids: Seq<Rgb>)
    requires
        indices_below(assignments, centroids.len() as int),
    ensures
        inertia(assignments, updated_centroids(centroids, assignments)) <= inertia(
            assignments,
            centroids,
        ),
{
    lemma_partial_update_descends(assignments, centroids, centroids.len() as int);
    assert(partly_updated(centroids, assignments, centroids.len() as int) =~= updated_centroids(
        centroids,
        assignments,
    ));
}

/// Points assigned to their nearest centroids name existing clusters.
pub proof fn lemma_expectation_indices(
    assignments: Seq<Assignment>,
    data: Seq<Rgb>,
    centroids: Seq<Rgb>,
)
    requires
        is_expectation(assignments, data, centroids),
    ensures
        indices_below(assignments, centroids.len() as int),
{
}

/// Inertia never rises from one iteration to the next: the inertia after an
/// assignment and update is at most the inertia after the assignment and
/// update before them.
pub proof fn lemma_iteration_descends(
    data: Seq<Rgb>,
    start: Seq<Rgb>,
    first: Seq<Assignment>,
    second: Seq<Assignment>,
)
    requires
        is_expectation(first, data, start),
        is_expectation(second, data, updated_centroids(start, first)),
    ensures
        inertia(
            second,
            updated_centroids(updated_centroids(start, first), second),
        ) <= inertia(first, updated_centroids(start, first)),
{
    let middle = updated_centroids(start, first);
    lemma_expectation_indices(first, data, start);
    lemma_expectation_indices(second, data, middle);
    lemma_update_descends(second, middle);
    lemma_reassignment_descends(first, second, middle);
}

} // verus!
