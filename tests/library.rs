use cortical_io::density::{Density, Kde, KdeError};
use cortical_io::image::{height_levels, monochrome_pixel, visual_rescale_vec_by};
use cortical_io::similarity::FingerprintSimilarity;
use cortical_io::{Fingerprint, TextEnvelope, TextSliceRequest, GRID_SIZE};

fn fingerprint(positions: &[u32]) -> Fingerprint {
    Fingerprint { positions: positions.to_vec() }
}

fn cosine(sim: &FingerprintSimilarity) -> f64 {
    match sim.cosine_terms() {
        Some((dot, norms)) => (dot as f64 / (norms as f64).sqrt() + 1.0) / 2.0,
        None => 0.0,
    }
}

fn normalized_similarity(sim: &FingerprintSimilarity) -> f64 {
    match sim.normalized_euclidean_terms() {
        Some((num, den)) => 1.0 - num as f64 / den as f64,
        None => 0.0,
    }
}

#[test]
fn expand_places_ones_at_positions() {
    let fp = fingerprint(&[1, 3]);
    assert_eq!(fp.expand(5), vec![0, 1, 0, 1, 0]);
}

#[test]
fn expand_counts_ones_and_zeros() {
    let fp = fingerprint(&[5, 130, 260]);
    let v = fp.expand(GRID_SIZE);
    assert_eq!(v.len(), GRID_SIZE);
    assert_eq!(v.iter().filter(|x| **x == 1).count(), 3);
    assert_eq!(v.iter().filter(|x| **x == 0).count(), GRID_SIZE - 3);
    assert_eq!(fp.expand(GRID_SIZE), v);
}

#[test]
fn expand_repeated_positions_is_idempotent() {
    let once = fingerprint(&[2, 7]);
    let twice = fingerprint(&[2, 7, 2, 7]);
    assert_eq!(once.expand(10), twice.expand(10));
}

#[test]
fn expand_empty_fingerprint_is_all_zeros() {
    let fp = fingerprint(&[]);
    assert_eq!(fp.expand(4), vec![0, 0, 0, 0]);
}

#[test]
fn density_new_copies_counts() {
    let mut counts = vec![0u32; GRID_SIZE];
    counts[7] = 42;
    let d = Density::new(&counts);
    assert_eq!(d.get_data()[7], 42);
    assert_eq!(d.get_data().iter().sum::<u32>(), 42);
}

#[test]
fn density_set_data_replaces_counts() {
    let mut d = Density::new(&vec![1u32; GRID_SIZE]);
    let mut next = [0u32; 16384];
    next[3] = 9;
    d.set_data(&next);
    assert_eq!(d.get_data(), &next);
}

#[test]
fn filter_min_zero_is_noop() {
    let mut counts = vec![0u32; GRID_SIZE];
    counts[0] = 1;
    counts[10] = 30;
    let mut d = Density::new(&counts);
    d.filter_points_min(0);
    assert_eq!(d.get_data().to_vec(), counts);
}

#[test]
fn filter_min_zeroes_cells_below_threshold() {
    let mut counts = vec![0u32; GRID_SIZE];
    counts[0] = 29;
    counts[1] = 30;
    counts[2] = 31;
    let mut d = Density::new(&counts);
    d.filter_points_min(30);
    assert_eq!(&d.get_data()[0..3], &[0, 30, 31]);
}

#[test]
fn filter_min_is_monotonic() {
    let mut counts = vec![0u32; GRID_SIZE];
    for i in 0..100 {
        counts[i] = i as u32;
    }
    let active = |t: u32| {
        let mut d = Density::new(&counts);
        d.filter_points_min(t);
        d.get_data().iter().filter(|c| **c > 0).count()
    };
    assert_eq!(active(0), 99);
    assert_eq!(active(50), 50);
    assert!(active(60) <= active(50));
    assert!(active(50) <= active(10));
}

#[test]
fn filter_min_is_idempotent() {
    let mut counts = vec![0u32; GRID_SIZE];
    counts[5] = 12;
    counts[6] = 40;
    let mut d = Density::new(&counts);
    d.filter_points_min(30);
    let once = d.get_data().to_vec();
    d.filter_points_min(30);
    assert_eq!(d.get_data().to_vec(), once);
    d.filter_points_min(10);
    assert_eq!(d.get_data().to_vec(), once);
}

#[test]
fn self_similarity_is_perfect() {
    let fp = fingerprint(&[1, 200, 3000, 16000]);
    let sim = FingerprintSimilarity::new(&fp, &fp);
    assert_eq!(sim.squared_euclidean_distance(), 0);
    assert_eq!(sim.absolute_difference_sum(), 0);
    assert_eq!(sim.overlapping_all(), 4);
    assert_eq!(sim.cosine_terms(), Some((4, 16)));
    assert_eq!(cosine(&sim), 1.0);
    let (num, den) = sim.normalized_euclidean_terms().unwrap();
    assert_eq!(num, 0);
    assert!(den > 0);
    assert_eq!(normalized_similarity(&sim), 1.0);
}

#[test]
fn similarity_is_symmetric() {
    let a = fingerprint(&[1, 2, 3, 500, 9000]);
    let b = fingerprint(&[2, 3, 4, 16383]);
    let ab = FingerprintSimilarity::new(&a, &b);
    let ba = FingerprintSimilarity::new(&b, &a);
    assert_eq!(ab.squared_euclidean_distance(), ba.squared_euclidean_distance());
    assert_eq!(ab.absolute_difference_sum(), ba.absolute_difference_sum());
    assert_eq!(ab.overlapping_all(), ba.overlapping_all());
    assert_eq!(ab.cosine_terms(), ba.cosine_terms());
    assert_eq!(ab.normalized_euclidean_terms(), ba.normalized_euclidean_terms());
    assert_eq!(ab.pearson_terms(), ba.pearson_terms());
}

#[test]
fn similarity_exact_terms() {
    let a = fingerprint(&[1, 2, 3]);
    let b = fingerprint(&[3, 4]);
    let sim = a.compare(&b);
    let n = GRID_SIZE as u64;
    assert_eq!(sim.overlapping_all(), 1);
    assert_eq!(sim.squared_euclidean_distance(), 3);
    assert_eq!(sim.absolute_difference_sum(), 3);
    assert_eq!(sim.cosine_terms(), Some((1, 6)));
    assert_eq!(
        sim.normalized_euclidean_terms(),
        Some((n * 3 - 1, (n * 3 - 9) + (n * 2 - 4)))
    );
    assert_eq!(
        sim.pearson_terms(),
        Some((n as i64 - 6, (n * 3 - 9) * (n * 2 - 4)))
    );
}

#[test]
fn weighted_scoring_factors_stay_in_range() {
    let pairs: Vec<(Vec<u32>, Vec<u32>)> = vec![
        (vec![0], vec![16383]),
        (vec![1, 2, 3], vec![3, 4]),
        (vec![5, 130, 260], vec![5, 130, 260]),
        ((0..8000).collect(), (4000..12000).collect()),
    ];
    for (l, r) in pairs {
        let sim = FingerprintSimilarity::new(&fingerprint(&l), &fingerprint(&r));
        let c = cosine(&sim);
        assert!((0.5..=1.0).contains(&c));
        let s = normalized_similarity(&sim).max(0.0);
        assert!((0.0..=1.0).contains(&s));
        let w = (c * s).sqrt();
        assert!(!w.is_nan());
        assert!((0.0..=1.0).contains(&w));
    }
}

#[test]
fn degenerate_vectors_have_no_cosine_or_pearson() {
    let empty = fingerprint(&[]);
    let other = fingerprint(&[4]);
    let sim = FingerprintSimilarity::new(&empty, &other);
    assert_eq!(sim.cosine_terms(), None);
    assert_eq!(sim.pearson_terms(), None);
    assert!(sim.normalized_euclidean_terms().is_some());
    let both = FingerprintSimilarity::new(&empty, &empty);
    assert_eq!(both.normalized_euclidean_terms(), None);
}

#[test]
fn pearson_of_identical_fingerprints_is_one() {
    let fp = fingerprint(&[0]);
    let sim = FingerprintSimilarity::new(&fp, &fp);
    let (cov, var) = sim.pearson_terms().unwrap();
    assert_eq!(cov, 16383);
    assert_eq!(var, 16383 * 16383);
    assert_eq!(cov as f64 / (var as f64).sqrt(), 1.0);
}

#[test]
fn identical_fingerprints_scenario() {
    let a = fingerprint(&[5, 130, 260]);
    let b = fingerprint(&[5, 130, 260]);
    let sim = FingerprintSimilarity::new(&a, &b);
    assert_eq!((sim.squared_euclidean_distance() as f64).sqrt(), 0.0);
    assert_eq!(sim.cosine_terms(), Some((3, 9)));
    assert_eq!(cosine(&sim), 1.0);
    assert_eq!(sim.overlapping_all(), 3);
}

#[test]
fn opposite_corners_scenario() {
    let a = fingerprint(&[0]);
    let b = fingerprint(&[16383]);
    let sim = FingerprintSimilarity::new(&a, &b);
    assert_eq!(sim.overlapping_all(), 0);
    assert_eq!(sim.cosine_terms(), Some((0, 1)));
    assert_eq!(cosine(&sim), 0.5);
    assert_eq!(sim.absolute_difference_sum() as f64 / 2.0, 1.0);
    let n = GRID_SIZE as u64;
    assert_eq!(sim.normalized_euclidean_terms(), Some((2 * n, 2 * (n - 1))));
}

#[test]
fn single_cell_grid_has_zero_extent() {
    let mut counts = [0u32; 16384];
    counts[0] = 1;
    let mut kde = Kde::new(&counts);
    kde.build_points();
    assert_eq!(kde.points, vec![(0, 0)]);
    assert_eq!(kde.determine_kde_params(), Err(KdeError::ZeroExtent));
}

#[test]
fn empty_grid_is_empty_input() {
    let counts = [0u32; 16384];
    let mut kde = Kde::new(&counts);
    kde.build_points();
    assert!(kde.points.is_empty());
    assert_eq!(kde.determine_kde_params(), Err(KdeError::EmptyInput));
}

#[test]
fn points_follow_row_major_layout() {
    let mut counts = [0u32; 16384];
    counts[130] = 2;
    counts[16383] = 1;
    counts[5] = 3;
    let mut kde = Kde::new(&counts);
    kde.build_points();
    assert_eq!(kde.points, vec![(0, 5), (1, 2), (127, 127)]);
    assert_eq!(kde.determine_kde_params(), Ok(125));
    assert_eq!((kde.x_min, kde.x_max, kde.y_min, kde.y_max), (0, 127, 2, 127));
}

#[test]
fn clear_resets_pipeline_state() {
    let mut counts = [0u32; 16384];
    counts[0] = 1;
    counts[200] = 1;
    let mut kde = Kde::new(&counts);
    kde.build_points();
    kde.determine_kde_params().unwrap_or(0);
    kde.determine_densest_points(&[0], 10);
    kde.clear();
    assert!(kde.points.is_empty());
    assert!(kde.densest_points.is_empty());
    assert_eq!((kde.x_min, kde.x_max, kde.y_min, kde.y_max), (0, 0, 0, 0));
    assert_eq!(kde.data, counts);
}

#[test]
fn dense_cluster_scenario() {
    let mut counts = vec![0u32; GRID_SIZE];
    let mut cluster = Vec::new();
    for row in 60..65 {
        for col in 60..70 {
            let i = row * 128 + col;
            counts[i] = 30 + (i % 7) as u32;
            cluster.push(i);
        }
    }
    assert_eq!(cluster.len(), 50);
    let noise = 10 * 128 + 10;
    counts[noise] = 5;
    let mut density = Density::new(&counts);
    density.filter_points_min(30);
    assert_eq!(density.get_data()[noise], 0);
    assert!(cluster.iter().all(|i| density.get_data()[*i] >= 30));
    let mut kde = Kde::new(density.get_data());
    kde.build_points();
    assert_eq!(kde.points.len(), 50);
    assert_eq!(kde.determine_kde_params(), Ok(4));
    kde.determine_densest_points(&[64 * 128 + 64], 10);
    assert!(!kde.densest_points.is_empty());
    assert!(kde.densest_points.iter().all(|i| cluster.contains(i)));
    assert!(!kde.densest_points.contains(&noise));
}

#[test]
fn densest_points_respect_window() {
    let mut counts = [0u32; 16384];
    counts[0] = 1;
    counts[9] = 1;
    counts[10] = 1;
    counts[9 * 128] = 1;
    let mut kde = Kde::new(&counts);
    kde.build_points();
    kde.determine_densest_points(&[0], 10);
    assert_eq!(kde.densest_points, vec![0, 9, 9 * 128]);
    kde.determine_densest_points(&[19], 10);
    assert_eq!(kde.densest_points, vec![0, 9, 10, 9 * 128]);
}

#[test]
fn rescale_replicates_blocks() {
    let mut grid = vec![0u8; GRID_SIZE];
    grid[0] = 1;
    grid[1] = 2;
    grid[128] = 3;
    let (scaled, refs) = visual_rescale_vec_by(&grid, 2);
    assert_eq!(scaled.len(), GRID_SIZE * 4);
    assert_eq!(refs.len(), GRID_SIZE * 4);
    assert_eq!(&scaled[0..4], &[1, 1, 2, 2]);
    assert_eq!(&scaled[256..260], &[1, 1, 2, 2]);
    assert_eq!(&scaled[512..514], &[3, 3]);
    assert_eq!(&refs[0..4], &[0, 0, 1, 1]);
    assert_eq!(refs[512], 128);
    assert_eq!(refs[GRID_SIZE * 4 - 1], GRID_SIZE - 1);
}

#[test]
fn rescale_by_one_and_zero() {
    let grid: Vec<u32> = (0..256).collect();
    let (same, refs) = visual_rescale_vec_by(&grid, 1);
    assert_eq!(same, grid);
    assert_eq!(refs, (0..256).collect::<Vec<usize>>());
    let (empty, none) = visual_rescale_vec_by(&grid, 0);
    assert!(empty.is_empty() && none.is_empty());
}

#[test]
fn height_levels_scale_to_largest() {
    assert_eq!(height_levels(&[0, 50, 100]), Some(vec![0, 127, 255]));
    assert_eq!(height_levels(&[0, 0]), Some(vec![0, 0]));
    assert_eq!(height_levels(&[]), None);
    assert_eq!(height_levels(&[4_000_000_000, 1]), Some(vec![255, 0]));
}

#[test]
fn monochrome_pixels() {
    assert_eq!(monochrome_pixel(0), [255, 255, 255]);
    assert_eq!(monochrome_pixel(1), [0, 0, 0]);
}

#[test]
fn text_slice_request_builders() {
    let r = TextSliceRequest::new();
    assert_eq!(r.retina_name, "en_general");
    assert_eq!((r.start_index, r.max_results, r.get_fingerprint), (0, 10, false));
    let r = r
        .with_retina_name("de_general")
        .with_start_index(3)
        .with_max_results(7)
        .with_get_fingerprint(true);
    assert_eq!(r.retina_name, "de_general");
    assert_eq!((r.start_index, r.max_results, r.get_fingerprint), (3, 7, true));
}

#[test]
fn text_envelope_wraps_text() {
    assert_eq!(TextEnvelope::new("hello").text, "hello");
}
