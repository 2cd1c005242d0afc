use lau_witten_reward::instanton::TunnelingCalculator;
use lau_witten_reward::morse::{CriticalPoint, MorseFunction};
use nalgebra::DMatrix;

fn test_landscape() -> MorseFunction<f64> {
    let cps = vec![
        CriticalPoint::labeled(vec![0.0, 0.0], 0, 0.0, "basin_A"),
        CriticalPoint::labeled(vec![2.0, 0.0], 0, 0.5, "basin_B"),
        CriticalPoint::labeled(vec![1.0, 0.0], 1, 1.0, "saddle_AB"),
        CriticalPoint::labeled(vec![1.0, 1.0], 2, 2.0, "peak"),
    ];
    MorseFunction::from_critical_points(2, cps)
}

/// Amplitude exp(-S/2) of the instanton from `s` to `t`, S = t·(Δf + dist²/2).
fn amplitude(t: f64, s: &CriticalPoint<f64>, g: &CriticalPoint<f64>) -> f64 {
    let delta_f = s.value - g.value;
    let dist2: f64 = s.coords.iter().zip(g.coords.iter()).map(|(a, b)| (a - b).powi(2)).sum();
    (-(t * (delta_f + dist2 / 2.0)) / 2.0).exp()
}

#[test]
fn test_compute_amplitudes() {
    let mf = test_landscape();
    let calc = TunnelingCalculator::new(mf, 1.0);
    let amps = calc.instanton_pairs();
    // saddle_AB (idx 1) → basin_A and basin_B (idx 0)
    // peak (idx 2) → saddle_AB (idx 1)
    assert!(amps.len() >= 1);
    assert_eq!(amps, vec![(2, 0), (2, 1), (3, 2)]);
}

#[test]
fn instanton_pairs_join_adjacent_indices() {
    let cps = vec![
        CriticalPoint::new(vec![0.0], 1, 0.0),
        CriticalPoint::new(vec![1.0], 0, 0.0),
        CriticalPoint::new(vec![2.0], 2, 0.0),
        CriticalPoint::new(vec![3.0], 1, 0.0),
        CriticalPoint::new(vec![4.0], 0, 0.0),
    ];
    let calc = TunnelingCalculator::new(MorseFunction::from_critical_points(1, cps), 1.0);
    let pairs = calc.instanton_pairs();
    assert_eq!(pairs, vec![(0, 1), (0, 4), (2, 0), (2, 3), (3, 1), (3, 4)]);
    let cps = &calc.morse_function.critical_points;
    for (s, t) in pairs {
        assert_eq!(cps[s].index, cps[t].index + 1);
    }
}

#[test]
fn test_morse_witten_boundary() {
    let mf = test_landscape();
    let n_idx0 = mf.critical_points.iter().filter(|cp| cp.index == 0).count();
    let n_idx1 = mf.critical_points.iter().filter(|cp| cp.index == 1).count();
    let calc = TunnelingCalculator::new(mf, 1.0);
    let (rows, cols) = calc.boundary_shape(1);
    // Should have shape: (# index-0) × (# index-1)
    assert_eq!(rows, n_idx0);
    assert_eq!(cols, n_idx1);
    assert_eq!(calc.boundary_shape(2), (1, 1));
    assert_eq!(calc.boundary_shape(3), (1, 0));
}

#[test]
fn test_h1_dimension() {
    let mf = test_landscape();
    let n = mf.critical_points.len();
    let calc = TunnelingCalculator::new(mf, 1.0);
    let cps = &calc.morse_function.critical_points;
    // ∂₁ : 2x1 from saddle to basins, ∂₂ : 1x1 from peak to saddle
    let b1 = DMatrix::from_row_slice(
        2,
        1,
        &[amplitude(1.0, &cps[2], &cps[0]), -amplitude(1.0, &cps[2], &cps[1])],
    );
    let b2 = DMatrix::from_row_slice(1, 1, &[amplitude(1.0, &cps[3], &cps[2])]);
    let h1 = calc.h1_dimension(b1.rank(1e-10), b2.rank(1e-10));
    // H¹ should be non-negative
    assert!(h1 <= n);
    assert_eq!(h1, 0);
}

#[test]
fn h1_dimension_with_a_third_basin() {
    let mut mf = test_landscape();
    mf.critical_points.push(CriticalPoint::new(vec![4.0, 0.0], 0, 0.2));
    let calc = TunnelingCalculator::new(mf, 1.0);
    let cps = &calc.morse_function.critical_points;
    // ∂₁ : 3x1 from the saddle to the three basins, ∂₂ : 1x1 from the peak to the saddle
    let b1 = DMatrix::from_row_slice(
        3,
        1,
        &[
            amplitude(1.0, &cps[2], &cps[0]),
            -amplitude(1.0, &cps[2], &cps[1]),
            -amplitude(1.0, &cps[2], &cps[4]),
        ],
    );
    let b2 = DMatrix::from_row_slice(1, 1, &[amplitude(1.0, &cps[3], &cps[2])]);
    assert_eq!(calc.h1_dimension(b1.rank(1e-10), b2.rank(1e-10)), 0);
}

#[test]
fn h1_dimension_formula() {
    let calc = TunnelingCalculator::new(test_landscape(), 1.0);
    // one index-1 critical point: dim ker ∂₁ = 1 - rank ∂₁
    assert_eq!(calc.h1_dimension(0, 0), 1);
    assert_eq!(calc.h1_dimension(1, 0), 0);
    assert_eq!(calc.h1_dimension(0, 1), 0);
    assert_eq!(calc.h1_dimension(0, 5), 0);
    // two saddles, one peak: dim ker ∂₁ = 2 - rank ∂₁
    let cps = vec![
        CriticalPoint::new(vec![0.0, 0.0], 0, 0.0),
        CriticalPoint::new(vec![1.0, 0.0], 1, 1.0),
        CriticalPoint::new(vec![0.0, 1.0], 1, 1.0),
        CriticalPoint::new(vec![1.0, 1.0], 2, 2.0),
    ];
    let calc = TunnelingCalculator::new(MorseFunction::from_critical_points(2, cps), 1.0);
    assert_eq!(calc.h1_dimension(1, 0), 1);
    assert_eq!(calc.h1_dimension(1, 1), 0);
    assert_eq!(calc.h1_dimension(0, 1), 1);
}

fn same_point(a: &CriticalPoint<f64>, b: &CriticalPoint<f64>) -> bool {
    a.coords == b.coords
}

#[test]
fn test_tunneling_matrix() {
    let mf = test_landscape();
    let calc = TunnelingCalculator::new(mf, 1.0);
    let cells = calc.tunneling_cells(same_point);
    let n = calc.morse_function.critical_points.len();
    let mut mat = DMatrix::<f64>::zeros(n, n);
    let cps = &calc.morse_function.critical_points;
    for ((s, t), (i, j)) in calc.instanton_pairs().into_iter().zip(cells.into_iter()) {
        mat[(i, j)] += amplitude(1.0, &cps[s], &cps[t]);
    }
    assert_eq!(mat.nrows(), 4); // 4 critical points
    assert_eq!(mat.ncols(), 4);
    assert!(mat[(2, 0)] > 0.0 && mat[(2, 1)] > 0.0 && mat[(3, 2)] > 0.0);
    assert_eq!(mat[(0, 2)], 0.0);
}

#[test]
fn tunneling_cells_use_first_matching_point() {
    // two critical points share coordinates: both map to the first one
    let cps = vec![
        CriticalPoint::new(vec![0.0], 0, 0.0),
        CriticalPoint::new(vec![1.0], 1, 1.0),
        CriticalPoint::new(vec![0.0], 0, 0.2),
    ];
    let calc = TunnelingCalculator::new(MorseFunction::from_critical_points(1, cps), 1.0);
    assert_eq!(calc.instanton_pairs(), vec![(1, 0), (1, 2)]);
    assert_eq!(calc.tunneling_cells(same_point), vec![(1, 0), (1, 0)]);
    // a comparison that never matches sends everything to (0, 0)
    assert_eq!(calc.tunneling_cells(|_: &CriticalPoint<f64>, _: &CriticalPoint<f64>| false), vec![(0, 0), (0, 0)]);
}

#[test]
fn boundary_cells_follow_index_blocks() {
    let calc = TunnelingCalculator::new(test_landscape(), 1.0);
    // pairs: (2,0), (2,1), (3,2)
    assert_eq!(calc.boundary_cells(1, same_point), vec![Some((0, 0)), Some((1, 0)), None]);
    assert_eq!(calc.boundary_cells(2, same_point), vec![None, None, Some((0, 0))]);
    assert_eq!(calc.boundary_cells(3, same_point), vec![None, None, None]);
}

#[test]
fn instanton_count_is_sum_of_adjacent_count_products() {
    for mf in [test_landscape(), MorseFunction::from_critical_points(1, vec![
        CriticalPoint::new(vec![0.0], 1, 0.0),
        CriticalPoint::new(vec![1.0], 0, 0.0),
        CriticalPoint::new(vec![2.0], 2, 0.0),
        CriticalPoint::new(vec![3.0], 1, 0.0),
        CriticalPoint::new(vec![4.0], 0, 0.0),
    ])] {
        let counts = mf.morse_counts();
        let expected: usize = (1..counts.len()).map(|k| counts[k] * counts[k - 1]).sum();
        let calc = TunnelingCalculator::new(mf, 1.0);
        assert_eq!(calc.instanton_pairs().len(), expected);
    }
}
