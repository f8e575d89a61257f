use radix_spline::{GreedySplineCorridor, Line, Point};
use rand::{distributions::Uniform, Rng};
use std::time::Instant;

#[test]
fn line_directions() {
    let a = Line::new(Point::new(0, 0), Point::new(1, 2));

    let b = Line::new(Point::new(0, 0), Point::new(2, 2));

    let c = Line::new(Point::new(0, 0), Point::new(3, 2));

    assert!(a.is_left(&b));
    assert!(c.is_right(&b));
}

#[test]
fn spline_points() {
    let data: Vec<u64> = vec![3, 4, 8, 10, 19, 20];

    let spline = GreedySplineCorridor::new(&data, 1);

    assert_eq!(
        vec![Point::new(3, 0), Point::new(10, 3), Point::new(20, 5)],
        *spline.points()
    );
}

#[test]
fn spline_repeated_points() {
    let data: Vec<u64> = vec![3, 4, 8, 8, 10, 10, 19, 20];

    let spline = GreedySplineCorridor::new(&data, 1);

    assert_eq!(
        vec![Point::new(3, 0), Point::new(10, 5), Point::new(20, 7)],
        *spline.points()
    );
}

#[test]
fn spline_corridor_search() {
    let data: Vec<u64> = vec![3, 4, 8, 8, 10, 10, 19, 20];

    let spline = GreedySplineCorridor::new(&data, 1);

    assert_eq!(spline.search(8), Some(3));

    assert_eq!(spline.search(10), Some(4));

    assert_eq!(spline.search(4), Some(1));

    assert_eq!(spline.search(5), None);
}

#[test]
fn large_search() {

    let range = Uniform::from(0..10000000);
    let mut data: Vec<u64> = rand::thread_rng().sample_iter(&range).take(1000000).collect();

    let value = 10000;
    data.push(value);

    data.sort_unstable();

    let spline = GreedySplineCorridor::new(&data, 32);

    let start = Instant::now();
    if let Some(idx) = spline.search(value) {
        assert_eq!(data[idx], value);
    }
    let elapsed = start.elapsed();
    println!("Spline using {:?} ns", elapsed.as_nanos());

    let start = Instant::now();
    if let Ok(idx) = data.binary_search(&value) {
        assert_eq!(data[idx], value);
    }
    let elapsed = start.elapsed();
    println!("Binary using {:?} ns", elapsed.as_nanos());
}

#[test]
fn spline_points_exact_positions() {
    let data: Vec<u64> = vec![3, 4, 8, 8, 10, 10, 19, 20];
    let spline = GreedySplineCorridor::new(&data, 1);
    let positions: Vec<usize> = spline.points().iter().map(|p| p.position()).collect();
    // the break falls on the previous key, the first 10 at index 4
    assert_eq!(positions, vec![0, 4, 7]);
    let keys: Vec<u64> = spline.points().iter().map(|p| p.key()).collect();
    assert_eq!(keys, vec![3, 10, 20]);
}

#[test]
fn spline_corridor_default_round_trip() {
    let data: Vec<u64> = (0..500u64).map(|i| i * i).collect();
    let spline = GreedySplineCorridor::default(&data);
    for (i, &k) in data.iter().enumerate() {
        assert_eq!(spline.search(k), Some(i));
    }
    assert_eq!(spline.search(2), None);
    assert_eq!(spline.search(249001 + 1), None);
}

#[test]
fn spline_with_trailing_duplicates() {
    // the last emitted point shares its key with the final point
    let data: Vec<u64> = vec![0, 10, 11, 11];
    let spline = GreedySplineCorridor::new(&data, 1);
    let pts: Vec<(u64, usize)> = spline.points().iter().map(|p| (p.key(), p.position())).collect();
    assert_eq!(pts, vec![(0, 0), (11, 2), (11, 3)]);
    assert_eq!(spline.search(11), Some(2));
    assert_eq!(spline.search(10), Some(1));
    assert_eq!(spline.search(0), Some(0));
    assert_eq!(spline.search(5), None);
}
