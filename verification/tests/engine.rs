use colourblind_helper::assignment::{
    count_assignments, expectation, index_of_min_val, points_in_cluster, sum_assigned_values,
    Assignment,
};
use colourblind_helper::bounded::Bounded;
use colourblind_helper::edges::{
    brightness_change, channel_change, edge_orientations, Axis, Channel, RgbGrid,
};
use colourblind_helper::error::KMeansError;
use colourblind_helper::inertia::{get_error_metric, recolour};
use colourblind_helper::kmeans::{converge, kmeans, kmeans_one_iteration};
use colourblind_helper::rgb::{Rgb, RgbSum};
use colourblind_helper::seeding::{
    choose_centres, compute_distances, compute_weights, pick_weighted,
};
use colourblind_helper::update::{count_empty_clusters, maximisation, rounded_mean};
use rand::{SeedableRng, StdRng};

fn rng_from(seed: usize) -> StdRng {
    let words = [seed, 7, 11, 13];
    SeedableRng::from_seed(&words[..])
}

fn grey(v: i16) -> Rgb {
    Rgb::new(v, v, v)
}

fn two_groups() -> Vec<Rgb> {
    vec![grey(0), grey(0), grey(10), grey(10)]
}

fn scattered() -> Vec<Rgb> {
    vec![
        Rgb::new(12, 200, 31),
        Rgb::new(14, 190, 28),
        Rgb::new(250, 3, 3),
        Rgb::new(240, 10, 0),
        Rgb::new(100, 100, 100),
        Rgb::new(90, 110, 95),
        Rgb::new(0, 0, 255),
        Rgb::new(5, 5, 250),
        Rgb::new(-40, 7, 19),
    ]
}

#[test]
fn distance_is_symmetric() {
    let a = Rgb::new(-300, 17, 255);
    let b = Rgb::new(12, -9, 4000);
    assert_eq!(a.sq_euclidean_distance(&b), b.sq_euclidean_distance(&a));
    assert_eq!(a.sq_euclidean_distance(&b), 312 * 312 + 26 * 26 + 3745 * 3745);
}

#[test]
fn distance_to_self_is_zero() {
    let a = Rgb::new(-9993, 105, 2);
    assert_eq!(a.sq_euclidean_distance(&a), 0);
}

#[test]
fn distance_between_extremes_is_exact() {
    let a = grey(i16::MIN);
    let b = grey(i16::MAX);
    assert_eq!(a.sq_euclidean_distance(&b), 3 * 65535 * 65535);
}

#[test]
fn black_is_all_zero() {
    assert_eq!(Rgb::black(), Rgb { r: 0, g: 0, b: 0 });
    assert_eq!(Rgb::new(1, 2, 3), Rgb { r: 1, g: 2, b: 3 });
}

#[test]
fn sum_adds_each_channel() {
    let s = RgbSum::zero().add(Rgb::new(1, -2, 3)).add(Rgb::new(10, 20, -30));
    assert_eq!(s, RgbSum { r: 11, g: 18, b: -27 });
}

#[test]
fn index_of_min_val_of_nothing_is_none() {
    assert_eq!(None, index_of_min_val(Vec::new()));
}

#[test]
fn index_of_min_val_takes_the_first_of_equals() {
    assert_eq!(Some(1), index_of_min_val(vec![9, 4, 7, 4, 4]));
}

#[test]
fn expectation_assigns_every_point_once_in_order() {
    let data = scattered();
    let centroids = vec![grey(0), grey(100), grey(250)];
    let assignments = expectation(&data, &centroids).unwrap();
    assert_eq!(assignments.len(), data.len());
    for (i, a) in assignments.iter().enumerate() {
        assert_eq!(*a.pixel, data[i]);
        assert!(a.cluster_ind < centroids.len());
        for c in centroids.iter() {
            assert!(
                data[i].sq_euclidean_distance(&centroids[a.cluster_ind])
                    <= data[i].sq_euclidean_distance(c)
            );
        }
    }
}

#[test]
fn expectation_breaks_ties_towards_the_lowest_index() {
    let data = vec![grey(5)];
    let centroids = vec![grey(0), grey(10), grey(0)];
    for _ in 0..5 {
        let assignments = expectation(&data, &centroids).unwrap();
        assert_eq!(assignments[0].cluster_ind, 0);
    }
    let swapped = vec![grey(10), grey(0)];
    assert_eq!(expectation(&data, &swapped).unwrap()[0].cluster_ind, 0);
    let later = vec![grey(20), grey(10), grey(0)];
    assert_eq!(expectation(&data, &later).unwrap()[0].cluster_ind, 1);
}

#[test]
fn expectation_rejects_empty_dataset() {
    let data: Vec<Rgb> = Vec::new();
    assert_eq!(expectation(&data, &[grey(1)]), Err(KMeansError::EmptyDataset));
    assert_eq!(expectation(&data, &[]), Err(KMeansError::EmptyDataset));
}

#[test]
fn expectation_rejects_no_clusters() {
    let data = vec![grey(1)];
    assert_eq!(expectation(&data, &[]), Err(KMeansError::InvalidClusterCount));
}

#[test]
fn points_in_cluster_keeps_order() {
    let (a, b, c) = (grey(1), grey(2), grey(3));
    let assignments = [
        Assignment { pixel: &a, cluster_ind: 1 },
        Assignment { pixel: &b, cluster_ind: 0 },
        Assignment { pixel: &c, cluster_ind: 1 },
    ];
    let members = points_in_cluster(&assignments, 1);
    assert_eq!(members, vec![assignments[0], assignments[2]]);
    assert_eq!(count_assignments(&assignments, 1), 2);
    assert_eq!(sum_assigned_values(&assignments, 1), RgbSum { r: 4, g: 4, b: 4 });
    assert_eq!(points_in_cluster(&assignments, 2), Vec::new());
}

#[test]
fn rounded_mean_goes_to_the_nearest_whole_number() {
    assert_eq!(rounded_mean(6, 3), 2);
    assert_eq!(rounded_mean(7, 3), 2);
    assert_eq!(rounded_mean(8, 3), 3);
    assert_eq!(rounded_mean(1, 2), 1);
    assert_eq!(rounded_mean(-1, 2), 0);
    assert_eq!(rounded_mean(-3, 2), -1);
    assert_eq!(rounded_mean(-7, 3), -2);
    assert_eq!(rounded_mean(-8, 3), -3);
    assert_eq!(rounded_mean(32767 * 5, 5), 32767);
    assert_eq!(rounded_mean(-32768 * 5, 5), -32768);
}

#[test]
fn maximisation_moves_centroids_to_means() {
    let data = vec![Rgb::new(1, 10, -4), Rgb::new(2, 20, -5), Rgb::new(100, 0, 0)];
    let mut centroids = vec![grey(0), Rgb::new(90, 0, 0)];
    let assignments = expectation(&data, &centroids).unwrap();
    let unmoved = maximisation(&mut centroids, &assignments);
    assert_eq!(unmoved, 0);
    assert_eq!(centroids, vec![Rgb::new(2, 15, -4), Rgb::new(100, 0, 0)]);
}

#[test]
fn maximisation_leaves_a_centroid_without_points_alone() {
    let data = vec![grey(0), grey(2), grey(10), grey(12)];
    let far = Rgb::new(30000, -30000, 30000);
    let mut centroids = vec![grey(1), far, grey(11)];
    let assignments = expectation(&data, &centroids).unwrap();
    assert_eq!(count_assignments(&assignments, 1), 0);
    assert_eq!(count_empty_clusters(&assignments, 3), 1);
    assert_eq!(count_empty_clusters(&assignments, 1), 0);
    let unmoved = maximisation(&mut centroids, &assignments);
    assert_eq!(unmoved, 1);
    assert_eq!(centroids, vec![grey(1), far, grey(11)]);
}

#[test]
fn one_iteration_leaves_an_empty_cluster_where_it_was() {
    let data = vec![grey(0), grey(4), grey(10), grey(14)];
    let far = grey(20000);
    let mut centroids = vec![grey(3), grey(9), far];
    let assignments = kmeans_one_iteration(&mut centroids, &data).unwrap();
    assert_eq!(assignments.len(), 4);
    assert_eq!(centroids, vec![grey(2), grey(12), far]);
}

#[test]
fn error_metric_adds_up_squared_distances() {
    let data = vec![grey(1), grey(2), grey(3)];
    let centroids = vec![grey(2)];
    let assignments = expectation(&data, &centroids).unwrap();
    assert_eq!(get_error_metric(&centroids, &assignments), 6);
    assert_eq!(get_error_metric(&centroids, &[]), 0);
}

#[test]
fn single_cluster_settles_on_the_mean() {
    let data = vec![grey(1), grey(2), grey(3)];
    for start in [grey(1), grey(2), grey(3), grey(-500)] {
        let mut centroids = vec![start];
        let assignments = kmeans_one_iteration(&mut centroids, &data).unwrap();
        assert_eq!(centroids, vec![grey(2)]);
        assert_eq!(get_error_metric(&centroids, &assignments), 6);

        let run = converge(vec![start], &data).unwrap();
        assert_eq!(run.centroids, vec![grey(2)]);
        assert_eq!(run.inertia, 6);
        assert_eq!(run.iterations(), 2);
        assert_eq!(run.trace, vec![6, 6]);
        assert!(run.assignments.iter().all(|a| a.cluster_ind == 0));
    }
}

#[test]
fn single_cluster_through_seeding() {
    let data = vec![grey(1), grey(2), grey(3)];
    for seed in 0..8 {
        let run = kmeans(&data, 1, &mut rng_from(seed)).unwrap();
        assert_eq!(run.centroids, vec![grey(2)]);
        assert_eq!(run.inertia, 6);
    }
}

#[test]
fn two_groups_are_told_apart() {
    let data = two_groups();
    for seed in 0..16 {
        let run = kmeans(&data, 2, &mut rng_from(seed)).unwrap();
        assert_eq!(run.centroids.len(), 2);
        assert!(run.centroids.contains(&grey(0)));
        assert!(run.centroids.contains(&grey(10)));
        assert_eq!(run.inertia, 0);
        assert_eq!(run.empty_clusters, 0);
        assert_eq!(run.assignments.len(), 4);
        for (i, a) in run.assignments.iter().enumerate() {
            assert_eq!(*a.pixel, data[i]);
            assert_eq!(run.centroids[a.cluster_ind], data[i]);
        }
    }
}

#[test]
fn inertia_never_rises_between_iterations() {
    let data = scattered();
    for seed in 0..12 {
        let mut centroids = choose_centres(&data, 3, &mut rng_from(seed)).unwrap();
        let mut previous: i128 = -1;
        for _ in 0..50 {
            let assignments = kmeans_one_iteration(&mut centroids, &data).unwrap();
            let error = get_error_metric(&centroids, &assignments);
            assert!(error >= 0);
            if previous >= 0 {
                assert!(error <= previous);
            }
            previous = error;
        }
    }
}

#[test]
fn runs_settle_within_bounds() {
    let data = scattered();
    for k in 1..=data.len() {
        for seed in 0..6 {
            let run = kmeans(&data, k, &mut rng_from(seed)).unwrap();
            assert!(run.iterations() >= 2);
            assert!(run.iterations() <= 1000);
            assert!(run.trace.windows(2).all(|w| w[1] <= w[0]));
            assert_eq!(run.trace[run.trace.len() - 1], run.inertia);
            assert_eq!(run.centroids.len(), k);
            assert_eq!(run.assignments.len(), data.len());
            assert_eq!(run.inertia, get_error_metric(&run.centroids, &run.assignments));
            for (i, a) in run.assignments.iter().enumerate() {
                assert_eq!(*a.pixel, data[i]);
                assert!(a.cluster_ind < k);
            }
        }
    }
}

#[test]
fn converge_is_a_function_of_its_start() {
    let data = scattered();
    let start = vec![data[0], data[2], data[6]];
    let first = converge(start.clone(), &data).unwrap();
    let second = converge(start, &data).unwrap();
    assert_eq!(first.centroids, second.centroids);
    assert_eq!(first.assignments, second.assignments);
    assert_eq!(first.inertia, second.inertia);
    assert_eq!(first.trace, second.trace);
}

#[test]
fn converge_rejects_bad_input() {
    let none: Vec<Rgb> = Vec::new();
    assert_eq!(converge(vec![grey(0)], &none).unwrap_err(), KMeansError::EmptyDataset);
    assert_eq!(converge(Vec::new(), &none).unwrap_err(), KMeansError::EmptyDataset);
    assert_eq!(
        converge(Vec::new(), &[grey(0)]).unwrap_err(),
        KMeansError::InvalidClusterCount
    );
}

#[test]
fn one_iteration_rejects_bad_input_and_keeps_centroids() {
    let none: Vec<Rgb> = Vec::new();
    let mut centroids = vec![grey(4)];
    assert_eq!(kmeans_one_iteration(&mut centroids, &none), Err(KMeansError::EmptyDataset));
    assert_eq!(centroids, vec![grey(4)]);
    let mut no_centroids: Vec<Rgb> = Vec::new();
    assert_eq!(
        kmeans_one_iteration(&mut no_centroids, &[grey(0)]),
        Err(KMeansError::InvalidClusterCount)
    );
}

#[test]
fn kmeans_rejects_bad_input() {
    let none: Vec<Rgb> = Vec::new();
    let mut rng = rng_from(1);
    assert_eq!(kmeans(&none, 2, &mut rng).unwrap_err(), KMeansError::EmptyDataset);
    assert_eq!(kmeans(&none, 0, &mut rng).unwrap_err(), KMeansError::EmptyDataset);
    assert_eq!(
        kmeans(&two_groups(), 0, &mut rng).unwrap_err(),
        KMeansError::InvalidClusterCount
    );
}

#[test]
fn compute_distances_takes_the_nearest_centroid() {
    let data = vec![grey(0), grey(4), grey(10)];
    let centroids = vec![grey(1), grey(9)];
    assert_eq!(compute_distances(&data, &centroids), vec![3, 27, 3]);
    assert_eq!(compute_distances(&data, &Vec::new()), vec![i64::MAX; 3]);
    assert_eq!(compute_distances(&Vec::new(), &centroids), Vec::<i64>::new());
}

#[test]
fn compute_weights_shares_out_the_scale() {
    assert_eq!(compute_weights(&vec![0, 300, 100]), vec![0, 3221225471, 1073741823]);
    assert_eq!(compute_weights(&vec![5]), vec![u32::MAX]);
    assert_eq!(compute_weights(&vec![0, 0]), vec![0, 0]);
    assert_eq!(compute_weights(&Vec::new()), Vec::<u32>::new());
    let weights = compute_weights(&vec![1, 1, 1]);
    assert_eq!(weights, vec![1431655765; 3]);
    assert!(weights.iter().map(|w| *w as u64).sum::<u64>() <= u32::MAX as u64);
}

#[test]
fn pick_weighted_only_picks_positive_weights() {
    let weights = vec![0, 5, 0, 7, 0];
    let mut seen = [false; 5];
    for seed in 0..40 {
        let i = pick_weighted(&weights, &mut rng_from(seed)).unwrap();
        assert!(weights[i] > 0);
        seen[i] = true;
    }
    assert!(seen[1] && seen[3]);
}

#[test]
fn pick_weighted_declines_what_cannot_be_drawn() {
    let mut rng = rng_from(3);
    assert_eq!(pick_weighted(&vec![0, 0, 0], &mut rng), None);
    assert_eq!(pick_weighted(&Vec::new(), &mut rng), None);
    assert_eq!(pick_weighted(&vec![u32::MAX, 1], &mut rng), None);
    assert_eq!(pick_weighted(&vec![u32::MAX, 0], &mut rng), Some(0));
}

#[test]
fn choose_centres_picks_points_of_the_data() {
    let data = scattered();
    for seed in 0..10 {
        let centroids = choose_centres(&data, 4, &mut rng_from(seed)).unwrap();
        assert_eq!(centroids.len(), 4);
        for (j, c) in centroids.iter().enumerate() {
            assert!(data.contains(c));
            assert!(!centroids[..j].contains(c));
        }
    }
}

#[test]
fn choose_centres_draws_different_first_points() {
    let data = scattered();
    let mut firsts: Vec<Rgb> = Vec::new();
    for seed in 0..40 {
        let centroids = choose_centres(&data, 1, &mut rng_from(seed)).unwrap();
        assert_eq!(centroids.len(), 1);
        if !firsts.contains(&centroids[0]) {
            firsts.push(centroids[0]);
        }
    }
    assert!(firsts.len() > 1);
}

#[test]
fn choose_centres_repeats_when_points_run_out() {
    let data = vec![grey(7), grey(7), grey(7)];
    let centroids = choose_centres(&data, 5, &mut rng_from(2)).unwrap();
    assert_eq!(centroids, vec![grey(7); 5]);
    let run = kmeans(&data, 5, &mut rng_from(2)).unwrap();
    assert_eq!(run.centroids, vec![grey(7); 5]);
    assert!(run.assignments.iter().all(|a| a.cluster_ind == 0));
    assert_eq!(run.empty_clusters, 4);
}

#[test]
fn choose_centres_rejects_bad_input() {
    let mut rng = rng_from(5);
    assert_eq!(choose_centres(&Vec::new(), 3, &mut rng), Err(KMeansError::EmptyDataset));
    assert_eq!(choose_centres(&Vec::new(), 0, &mut rng), Err(KMeansError::EmptyDataset));
    assert_eq!(choose_centres(&two_groups(), 0, &mut rng), Err(KMeansError::InvalidClusterCount));
}

#[test]
fn bounded_new_pulls_down_to_the_ceiling() {
    let inside = Bounded::new(3, 9);
    assert_eq!((inside.i, inside.max_i), (3, 9));
    let above = Bounded::new(12, 9);
    assert_eq!((above.i, above.max_i), (9, 9));
    let on = Bounded::new(9, 9);
    assert_eq!((on.i, on.max_i), (9, 9));
}

#[test]
fn bounded_steps_saturate() {
    let x = Bounded::new(1, 9);
    assert_eq!(x.sub(1), 0);
    assert_eq!(x.sub(2), 0);
    assert_eq!(x.add(2), 3);
    assert_eq!(x.add(8), 9);
    assert_eq!(x.add(9), 9);
    assert_eq!(x.add(u32::MAX), 9);
    assert_eq!(Bounded::new(u32::MAX, u32::MAX).add(u32::MAX), u32::MAX);
    assert_eq!(Bounded::new(5, 9).sub(2), 3);
}

fn striped() -> RgbGrid {
    let pixels = vec![
        255, 0, 0, 255, 0, 0, 255, 0, 0, //
        0, 255, 0, 0, 255, 0, 0, 255, 0, //
        0, 0, 255, 0, 0, 255, 0, 0, 255,
    ];
    RgbGrid::new(3, 3, pixels).unwrap()
}

/// A change in samples, as half units.
fn halves(samples: f64) -> i32 {
    (samples * 2.0).round() as i32
}

#[test]
fn test_channel_change_example() {
    let img = striped();

    assert_eq!(channel_change(&img, 0, 0, Channel::Red, Axis::Y), halves(382.5));
    assert_eq!(channel_change(&img, 0, 0, Channel::Blue, Axis::Y), halves(-255.0));
    assert_eq!(channel_change(&img, 2, 1, Channel::Green, Axis::X), halves(0.0));
}

#[test]
fn channel_change_is_zero_on_a_black_image() {
    let img = RgbGrid::new(10, 10, vec![0; 300]).unwrap();
    for y in 0..10 {
        for x in 0..10 {
            for axis in [Axis::X, Axis::Y] {
                for channel in [Channel::Red, Channel::Green, Channel::Blue] {
                    assert_eq!(channel_change(&img, x, y, channel, axis), 0);
                }
                assert_eq!(brightness_change(&img, x, y, axis), 0);
            }
        }
    }
    assert_eq!(edge_orientations(&img), vec![Axis::X; 100]);
}

#[test]
fn channel_change_reads_the_edge_again_beyond_it() {
    let img = RgbGrid::new(4, 1, vec![10, 0, 0, 20, 0, 0, 40, 0, 0, 80, 0, 0]).unwrap();
    assert_eq!(channel_change(&img, 0, 0, Channel::Red, Axis::X), 2 * 10 + 10 - 20 - 2 * 40);
    assert_eq!(channel_change(&img, 3, 0, Channel::Red, Axis::X), 2 * 20 + 40 - 80 - 2 * 80);
    assert_eq!(channel_change(&img, 9, 0, Channel::Red, Axis::X), 2 * 20 + 40 - 80 - 2 * 80);
    assert_eq!(channel_change(&img, 2, 0, Channel::Red, Axis::Y), 2 * 40 + 40 - 40 - 2 * 40);
    assert_eq!(brightness_change(&img, 1, 0, Axis::X), 2 * 10 + 10 - 40 - 2 * 80);
}

#[test]
fn edge_orientations_follow_the_steeper_axis() {
    let img = striped();
    let axes = edge_orientations(&img);
    assert_eq!(axes.len(), 9);
    for (i, axis) in axes.iter().enumerate() {
        let (x, y) = (i as u32 % 3, i as u32 / 3);
        let diff = brightness_change(&img, x, y, Axis::X) - brightness_change(&img, x, y, Axis::Y);
        assert_eq!(*axis, if diff >= 0 { Axis::X } else { Axis::Y });
    }
    let columns = RgbGrid::new(2, 2, vec![0, 0, 0, 255, 255, 255, 0, 0, 0, 255, 255, 255]).unwrap();
    assert_eq!(edge_orientations(&columns), vec![Axis::Y, Axis::Y, Axis::Y, Axis::Y]);
}

#[test]
fn grid_needs_three_samples_for_every_pixel() {
    assert!(RgbGrid::new(1, 1, vec![1, 2, 3]).is_some());
    assert!(RgbGrid::new(1, 1, vec![1, 2]).is_none());
    assert!(RgbGrid::new(0, 1, Vec::new()).is_none());
    assert!(RgbGrid::new(1, 0, Vec::new()).is_none());
    let grid = RgbGrid::new(2, 1, vec![1, 2, 3, 4, 5, 6]).unwrap();
    assert_eq!(grid.get(1, 0, Channel::Green), 5);
    assert_eq!(grid.get(0, 0, Channel::Blue), 3);
}

#[test]
fn bytes_survive_the_round_trip() {
    for v in [0u8, 1, 127, 128, 254, 255] {
        let c = Rgb::from_bytes(v, 255 - v, 7);
        assert_eq!(c, Rgb::new(v as i16 * 64, (255 - v) as i16 * 64, 448));
        assert_eq!(c.to_bytes(), (v, 255 - v, 7));
    }
    assert_eq!(Rgb::new(-1, 63, 64).to_bytes(), (0, 0, 1));
    assert_eq!(Rgb::new(i16::MAX, i16::MIN, 255 * 64 + 63).to_bytes(), (255, 0, 255));
}

#[test]
fn recolour_looks_up_the_centroid_of_each_point() {
    let data = vec![grey(0), grey(9), grey(1)];
    let centroids = vec![grey(1), grey(8)];
    let assignments = expectation(&data, &centroids).unwrap();
    assert_eq!(recolour(&assignments, &centroids), vec![grey(1), grey(8), grey(1)]);
}
