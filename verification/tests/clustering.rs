use colourblind_helper::assignment::{
    count_assignments, index_of_min_val, sum_assigned_values, Assignment,
};
use colourblind_helper::rgb::{Rgb, RgbSum};
use colourblind_helper::seeding::compute_distances;

/// A channel value in tenths.
fn fixed(x: f64) -> i16 {
    (x * 10.0).round() as i16
}

/// A squared distance between channel values in tenths.
fn fixed_sq(x: f64) -> i64 {
    (x * 100.0).round() as i64
}

/// Any value in tenths.
fn tenths(x: f64) -> i64 {
    (x * 10.0).round() as i64
}

fn rgb(r: f64, g: f64, b: f64) -> Rgb {
    Rgb::new(fixed(r), fixed(g), fixed(b))
}

fn five_assignments(dp: &Rgb) -> [Assignment<'_>; 5] {
    [
        Assignment { pixel: dp, cluster_ind: 0 },
        Assignment { pixel: dp, cluster_ind: 0 },
        Assignment { pixel: dp, cluster_ind: 1 },
        Assignment { pixel: dp, cluster_ind: 5 },
        Assignment { pixel: dp, cluster_ind: 0 },
    ]
}

#[test]
fn clustering_test_compute_distances() {
    let data = vec![rgb(0., 0., 0.)];
    let centroids = vec![rgb(0., 0., 0.), rgb(10.4, 1., 4.9)];
    assert_eq!(vec![fixed_sq(0.0)], compute_distances(&data, &centroids));
}

#[test]
fn kmeans_pp_test_compute_distances() {
    let data = vec![rgb(0., 0., 0.)];
    let centroids = vec![rgb(0., 0., 0.), rgb(10.4, 1., 4.9)];
    assert_eq!(vec![fixed_sq(0.0)], compute_distances(&data, &centroids));
}

#[test]
fn clustering_test_sq_euclidean_distance_example() {
    assert_eq!(
        fixed_sq(28789.16),
        rgb(10.0, 98.3, 29.1).sq_euclidean_distance(&rgb(5.0, 98.3, 198.7))
    );
}

#[test]
fn lib_test_sq_euclidean_distance_example() {}

#[test]
fn clustering_test_sq_euclidean_distance_simple_case() {
    let point = rgb(1.0, 1.0, 1.0);
    assert_eq!(fixed_sq(3.0), Rgb::black().sq_euclidean_distance(&point));
}

#[test]
fn lib_test_sq_euclidean_distance_simple_case() {
    let point = rgb(1.0, 1.0, 1.0);
    assert_eq!(fixed_sq(3.0), Rgb::black().sq_euclidean_distance(&point));
}

#[test]
fn clustering_test_sq_euclidean_distance_gives_0_for_same_point() {
    let point = rgb(200.0, 10.0, 0.0);
    assert_eq!(fixed_sq(0.0), point.sq_euclidean_distance(&point));
}

#[test]
fn lib_test_sq_euclidean_distance_gives_0_for_same_point() {
    let point = rgb(200.0, 10.0, 0.0);
    assert_eq!(fixed_sq(0.0), point.sq_euclidean_distance(&point));
}

#[test]
fn clustering_test_index_of_min_val_end() {
    let values = vec![tenths(0.0), tenths(1.0), tenths(3.0), tenths(-5.5)];
    assert_eq!(Some(3), index_of_min_val(values))
}

#[test]
fn lib_test_index_of_min_val_end() {
    let values = vec![tenths(0.0), tenths(1.0), tenths(3.0), tenths(-5.5)];
    assert_eq!(Some(3), index_of_min_val(values))
}

#[test]
fn clustering_test_index_of_min_val_start() {
    let values = vec![tenths(-7.0), tenths(1.0), tenths(3.0), tenths(-5.5)];
    assert_eq!(Some(0), index_of_min_val(values))
}

#[test]
fn lib_test_index_of_min_val_start() {
    let values = vec![tenths(-7.0), tenths(1.0), tenths(3.0), tenths(-5.5)];
    assert_eq!(Some(0), index_of_min_val(values))
}

#[test]
fn clustering_test_index_of_min_val_middle() {
    let values = vec![tenths(2.0), tenths(1.0), tenths(0.1), tenths(5.5)];
    assert_eq!(Some(2), index_of_min_val(values))
}

#[test]
fn lib_test_index_of_min_val_middle() {
    let values = vec![tenths(2.0), tenths(1.0), tenths(0.1), tenths(5.5)];
    assert_eq!(Some(2), index_of_min_val(values))
}

#[test]
fn clustering_test_count_assignments_returns_0_when_no_occurences() {
    let dp = Rgb::black();
    let assignments = five_assignments(&dp);
    assert_eq!(0, count_assignments(&assignments, 4))
}

#[test]
fn lib_test_count_assignments_returns_0_when_no_occurences() {
    let dp = Rgb::black();
    let assignments = five_assignments(&dp);
    assert_eq!(0, count_assignments(&assignments, 4))
}

#[test]
fn clustering_test_count_assignments_returns_3_when_3_occurences() {
    let dp = Rgb::black();
    let assignments = five_assignments(&dp);
    assert_eq!(3, count_assignments(&assignments, 0));
}

#[test]
fn lib_test_count_assignments_returns_3_when_3_occurences() {
    let dp = Rgb::black();
    let assignments = five_assignments(&dp);
    assert_eq!(3, count_assignments(&assignments, 0));
}

#[test]
fn clustering_test_sum_assigned_values_returns_0_when_none_assigned() {
    let dp = rgb(5.0, 5.0, 5.0);
    let assignments = five_assignments(&dp);
    assert_eq!(RgbSum::zero(), sum_assigned_values(&assignments, 2))
}

#[test]
fn lib_test_sum_assigned_values_returns_0_when_none_assigned() {
    let dp = rgb(5.0, 5.0, 5.0);
    let assignments = five_assignments(&dp);
    assert_eq!(RgbSum::zero(), sum_assigned_values(&assignments, 2))
}

#[test]
fn clustering_test_sum_assigned_values_returns_correctly_when_some_assigned() {
    let dp = rgb(1.0, 1.0, 1.0);
    let assignments = five_assignments(&dp);
    let three = fixed(3.0) as i128;
    assert_eq!(RgbSum { r: three, g: three, b: three }, sum_assigned_values(&assignments, 0));
}

#[test]
fn lib_test_sum_assigned_values_returns_correctly_when_some_assigned() {
    let dp = rgb(1.0, 1.0, 1.0);
    let assignments = five_assignments(&dp);
    let three = fixed(3.0) as i128;
    assert_eq!(RgbSum { r: three, g: three, b: three }, sum_assigned_values(&assignments, 0));
}
