use radix_spline::{BuildError, Builder, RadixSpline};
use rand::{distributions::Uniform, Rng};
use std::time::Instant;

#[test]
fn radix_search() {

    let range = Uniform::from(0..10000000);
    let mut data: Vec<u64> = rand::thread_rng()
        .sample_iter(&range)
        .take(1000000)
        .collect();

    let value = 2000;
    data.push(value);

    data.sort_unstable();

    let radix_spline = RadixSpline::default(&data);

    match radix_spline.search(value) {
        Some(idx) => assert_eq!(data[idx], value),
        None => panic!("Error when searching!"),
    }
}

#[test]
fn radix_spline_search() {

    let range = Uniform::from(0..10000000);
    let mut data: Vec<u64> = rand::thread_rng()
        .sample_iter(&range)
        .take(1000000)
        .collect();

    let value = 2000;
    data.push(value);

    data.sort_unstable();

    let radix_spline = RadixSpline::default(&data);

    match radix_spline.search(value) {
        Some(idx) => assert_eq!(data[idx], value),
        None => panic!("Error when searching!"),
    }
}

#[test]
fn radix_finds_present_key() {
    let data: Vec<u64> = vec![3, 4, 8, 10, 19, 20];
    let index = RadixSpline::new(&data, 18, 1);
    assert_eq!(index.search(10), Some(3));
}

#[test]
fn radix_misses_absent_key() {
    let data: Vec<u64> = vec![3, 4, 8, 10, 19, 20];
    let index = RadixSpline::new(&data, 18, 1);
    assert_eq!(index.search(5), None);
}

#[test]
fn radix_duplicate_keys() {
    let data: Vec<u64> = vec![3, 4, 8, 8, 10, 10, 19, 20];
    let index = RadixSpline::new(&data, 18, 1);
    let r8 = index.search(8);
    assert!(r8 == Some(2) || r8 == Some(3));
    let r10 = index.search(10);
    assert!(r10 == Some(4) || r10 == Some(5));
}

#[test]
fn radix_small_table_all_keys() {
    let data: Vec<u64> = vec![
        0, 0, 0, 1, 1, 2, 4, 5, 5, 5, 5, 6, 6, 8, 8, 8, 8, 8, 9, 10, 11, 11, 11, 11, 12, 13, 14,
        18, 19, 19, 20, 21, 21, 22, 22, 22, 23, 23, 23, 24, 24, 26, 26, 26, 27, 27, 28, 28, 29, 29,
        29, 29, 30, 30, 30, 31, 31, 31, 31, 31, 32, 32, 32, 32, 32, 33, 33, 33, 34, 34, 35, 35, 35,
        36, 36, 36, 36, 36, 37, 37, 38, 38, 38, 39, 40, 40, 40, 41, 41, 42, 42, 43, 43, 44, 45, 46,
        47, 48, 48, 49,
    ];
    assert_eq!(data.len(), 100);
    let index = RadixSpline::new(&data, 4, 2);
    for &key in &data {
        match index.search(key) {
            Some(idx) => assert_eq!(data[idx], key),
            None => panic!("Error when radix spline searching {}!", key),
        }
    }
    for absent in [3u64, 7, 15, 16, 17, 25] {
        assert_eq!(index.search(absent), None);
    }
}

#[test]
fn radix_out_of_range() {
    let data: Vec<u64> = vec![100, 200, 300, 400, 500];
    let index = RadixSpline::new(&data, 18, 2);
    assert_eq!(index.search(0), None);
    assert_eq!(index.search(99), None);
    assert_eq!(index.search(501), None);
    assert_eq!(index.search(u64::MAX), None);
    assert_eq!(index.search(100), Some(0));
    assert_eq!(index.search(500), Some(4));
}

#[test]
fn radix_spline_endpoints_and_order() {
    let data: Vec<u64> = (0..2000u64).map(|i| i * i / 7 + (i % 5)).collect();
    let mut data = data;
    data.sort_unstable();
    let index = RadixSpline::new(&data, 10, 4);
    let pts = index.points();
    assert_eq!((pts[0].key(), pts[0].position()), (data[0], 0));
    let last = pts[pts.len() - 1];
    assert_eq!((last.key(), last.position()), (data[data.len() - 1], data.len() - 1));
    for w in pts.windows(2) {
        assert!(w[0].position() < w[1].position());
        assert!(w[0].key() <= w[1].key());
    }
    for p in pts.iter() {
        assert_eq!(data[p.position()], p.key());
    }
}

#[test]
fn radix_table_monotone() {
    let data: Vec<u64> = (0..3000u64).map(|i| i * 37 + (i * i) % 11).collect();
    let mut data = data;
    data.sort_unstable();
    let index = RadixSpline::new(&data, 8, 8);
    let table = index.table();
    let n_points = index.points().len();
    for w in table.windows(2) {
        assert!(w[0] <= w[1]);
    }
    for &entry in &table[..table.len() - 1] {
        assert!(entry < n_points);
    }
    assert_eq!(table[table.len() - 1], n_points);
    assert_eq!(table[0], 0);
}

#[test]
fn radix_table_exact() {
    // keys 3..=20 span 17: 5 significant bits, so 2 radix bits shift by 3
    let data: Vec<u64> = vec![3, 4, 8, 10, 19, 20];
    let index = RadixSpline::new(&data, 2, 1);
    // spline points (3,0), (10,3), (20,5) have prefixes 0, 0, 2
    assert_eq!(*index.table(), vec![0, 2, 2, 3]);
}

#[test]
fn radix_build_is_deterministic() {
    let data: Vec<u64> = (0..5000u64).map(|i| (i * 7919) % 100003).collect();
    let mut data = data;
    data.sort_unstable();
    let a = RadixSpline::new(&data, 12, 16);
    let b = RadixSpline::new(&data, 12, 16);
    let pa: Vec<(u64, usize)> = a.points().iter().map(|p| (p.key(), p.position())).collect();
    let pb: Vec<(u64, usize)> = b.points().iter().map(|p| (p.key(), p.position())).collect();
    assert_eq!(pa, pb);
    assert_eq!(a.table(), b.table());
}

#[test]
fn radix_try_new_errors() {
    let short: Vec<u64> = vec![1, 2];
    assert_eq!(RadixSpline::try_new(&short, 18, 32).err(), Some(BuildError::InvalidInput));
    let unsorted: Vec<u64> = vec![1, 5, 3, 9];
    assert_eq!(RadixSpline::try_new(&unsorted, 18, 32).err(), Some(BuildError::InvalidInput));
    let flat: Vec<u64> = vec![7, 7, 7, 7];
    assert_eq!(RadixSpline::try_new(&flat, 18, 32).err(), Some(BuildError::InvalidInput));
    let good: Vec<u64> = vec![1, 2, 3, 9];
    let index = RadixSpline::try_new(&good, 18, 32).ok().unwrap();
    assert_eq!(index.search(9), Some(3));
    assert_eq!(index.search(4), None);
}

#[test]
fn radix_zero_radix_bits() {
    // no prefix bits at all, and a full 64-bit key range
    let data: Vec<u64> = vec![0, 1, 5, u64::MAX / 2, u64::MAX];
    let index = RadixSpline::new(&data, 0, 1);
    assert_eq!(index.table().len(), 2);
    for (i, &k) in data.iter().enumerate() {
        assert_eq!(index.search(k), Some(i));
    }
    assert_eq!(index.search(2), None);
}

#[test]
fn radix_linear_and_binary_windows() {
    // a skewed layout: many spline points under one prefix forces the binary search path
    let mut data: Vec<u64> = Vec::new();
    let mut x: u64 = 0;
    for i in 0..4000u64 {
        x += 1 + (i % 3) * (i % 7);
        data.push(x);
    }
    data.push(1u64 << 40);
    let index = RadixSpline::new(&data, 6, 0);
    for (i, &k) in data.iter().enumerate() {
        assert_eq!(index.search(k), Some(i));
    }
    assert_eq!(index.search(x + 1), None);
}

#[test]
fn builder_search() {

    let range = Uniform::from(0..10000000);
    let mut data: Vec<u64> = rand::thread_rng()
        .sample_iter(&range)
        .take(1000000)
        .collect();

    let value = 20;
    data.push(value);

    data.sort_unstable();

    let builder = Builder::default(&data);

    let start = Instant::now();
    if let Some(idx) = builder.search(value) {
        assert_eq!(data[idx], value);
    }
    let elapsed = start.elapsed();
    println!("SplineRadix using {:?} ns", elapsed.as_nanos());

    let start = Instant::now();
    if let Ok(idx) = data.binary_search(&value) {
        assert_eq!(data[idx], value);
    }
    let elapsed = start.elapsed();
    println!("Binary using {:?} ns", elapsed.as_nanos());
}

#[test]
fn builder_matches_one_pass_build() {
    let data: Vec<u64> = (0..4000u64).map(|i| i * i % 9973 + i).collect();
    let mut data = data;
    data.sort_unstable();
    let one = RadixSpline::new(&data, 9, 5);
    let two = Builder::new(&data, 9, 5);
    let p1: Vec<(u64, usize)> = one.points().iter().map(|p| (p.key(), p.position())).collect();
    let p2: Vec<(u64, usize)> = two.points().iter().map(|p| (p.key(), p.position())).collect();
    assert_eq!(p1, p2);
    assert_eq!(one.table(), two.table());
    for &k in &data {
        let i = two.search(k).unwrap();
        assert_eq!(data[i], k);
    }
    assert_eq!(two.search(data[data.len() - 1] + 1), None);
}
