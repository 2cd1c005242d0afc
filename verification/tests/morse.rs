use lau_witten_reward::morse::{
    find_extrema_1d, find_extrema_grid, grid_cell, grid_linear_index, BoundaryMatrix, CriticalPoint, GridExtremum, GridExtremumKind,
    MorseComplex, MorseFunction, Slope,
};
use nalgebra::DMatrix;

/// Distance-weighted connection strength between two critical points (unit grid spacing).
fn flow_weight(hi: &CriticalPoint<f64>, lo: &CriticalPoint<f64>) -> f64 {
    let dist: f64 = hi
        .coords
        .iter()
        .zip(lo.coords.iter())
        .map(|(a, b)| (a - b).powi(2))
        .sum::<f64>()
        .sqrt();
    if dist < 50.0 {
        let sign = if hi.value > lo.value { 1.0 } else { -1.0 };
        sign * (-dist / 2.0).exp()
    } else {
        0.0
    }
}

fn rank_of(b: &BoundaryMatrix<f64>) -> usize {
    let data: Vec<f64> = b.entries.iter().flat_map(|r| r.iter().copied()).collect();
    DMatrix::from_row_slice(b.nrows, b.ncols, &data).rank(1e-10)
}

fn ranks_of(mc: &MorseComplex<f64>) -> Vec<usize> {
    mc.boundary_maps.iter().map(rank_of).collect()
}

#[test]
fn test_critical_point_minimum() {
    let cp = CriticalPoint::new(vec![0.0, 0.0], 0, -1.0);
    assert!(cp.is_minimum());
    assert!(!cp.is_maximum());
    assert!(!cp.is_saddle());
    assert_eq!(cp.ambient_dim(), 2);
}

#[test]
fn test_critical_point_maximum() {
    let cp = CriticalPoint::new(vec![1.0, 1.0], 2, 5.0);
    assert!(cp.is_maximum());
    assert!(!cp.is_minimum());
}

#[test]
fn test_critical_point_saddle() {
    let cp = CriticalPoint::new(vec![0.0, 1.0], 1, 0.0);
    assert!(cp.is_saddle());
}

#[test]
fn labeled_critical_point_keeps_label() {
    let cp = CriticalPoint::labeled(vec![0.0], 0, 1.0, "min");
    assert_eq!(cp.label.as_deref(), Some("min"));
    assert_eq!(cp.index, 0);
    assert_eq!(cp.value, 1.0);
    assert!(CriticalPoint::new(vec![0.0], 0, 1.0).label.is_none());
}

#[test]
fn test_morse_function_from_critical_points() {
    let cps = vec![
        CriticalPoint::new(vec![0.0], 0, 0.0),
        CriticalPoint::new(vec![1.0], 1, 1.0),
        CriticalPoint::new(vec![2.0], 0, 0.5),
    ];
    let mf = MorseFunction::from_critical_points(1, cps);
    assert_eq!(mf.num_critical_points(), 3);
    assert_eq!(mf.dim(), 1);
    assert_eq!(mf.grid_spacing, 1.0);
    assert!(mf.grid_values.is_none());
}

#[test]
fn test_morse_function_euler_characteristic() {
    // 2 minima, 1 saddle, 1 maximum: χ = 2 - 1 + 1 = 2
    let cps = vec![
        CriticalPoint::new(vec![0.0, 0.0], 0, 0.0),
        CriticalPoint::new(vec![2.0, 0.0], 0, 0.5),
        CriticalPoint::new(vec![1.0, 0.0], 1, 1.0),
        CriticalPoint::new(vec![1.0, 1.0], 2, 2.0),
    ];
    let mf = MorseFunction::from_critical_points(2, cps);
    assert_eq!(mf.euler_characteristic(), 2);
}

#[test]
fn euler_characteristic_is_alternating_sum_of_counts() {
    let cps = vec![
        CriticalPoint::new(vec![0.0, 0.0], 0, 0.0),
        CriticalPoint::new(vec![2.0, 0.0], 0, 0.5),
        CriticalPoint::new(vec![1.0, 0.0], 1, 1.0),
        CriticalPoint::new(vec![1.0, 1.0], 2, 2.0),
        CriticalPoint::new(vec![3.0, 1.0], 3, 2.0),
    ];
    let mf = MorseFunction::from_critical_points(3, cps);
    let counts = mf.morse_counts();
    let alt: i64 = counts
        .iter()
        .enumerate()
        .map(|(k, &c)| if k % 2 == 0 { c as i64 } else { -(c as i64) })
        .sum();
    assert_eq!(alt, mf.euler_characteristic());
    assert_eq!(mf.euler_characteristic(), 1);
    let empty: MorseFunction<f64> = MorseFunction::from_critical_points(2, Vec::new());
    assert_eq!(empty.euler_characteristic(), 0);
    assert!(empty.morse_counts().is_empty());
}

#[test]
fn test_morse_counts() {
    let cps = vec![
        CriticalPoint::new(vec![0.0], 0, 0.0),
        CriticalPoint::new(vec![1.0], 0, 0.5),
        CriticalPoint::new(vec![0.5], 1, 1.0),
    ];
    let mf = MorseFunction::from_critical_points(1, cps);
    let counts = mf.morse_counts();
    assert_eq!(counts, vec![2, 1]);
}

#[test]
fn morse_counts_with_a_gap() {
    let cps = vec![
        CriticalPoint::new(vec![0.0, 0.0], 2, 0.0),
        CriticalPoint::new(vec![1.0, 0.0], 0, 0.5),
    ];
    let mf = MorseFunction::from_critical_points(2, cps);
    assert_eq!(mf.morse_counts(), vec![1, 0, 1]);
    assert_eq!(mf.max_index(), 2);
}

#[test]
fn test_critical_points_of_index() {
    let cps = vec![
        CriticalPoint::new(vec![0.0], 0, 0.0),
        CriticalPoint::new(vec![1.0], 0, 0.5),
        CriticalPoint::new(vec![0.5], 1, 1.0),
    ];
    let mf = MorseFunction::from_critical_points(1, cps);
    assert_eq!(mf.critical_points_of_index(0).len(), 2);
    assert_eq!(mf.critical_points_of_index(1).len(), 1);
    let zero = mf.critical_points_of_index(0);
    assert_eq!(zero[0].value, 0.0);
    assert_eq!(zero[1].value, 0.5);
    assert!(mf.critical_points_of_index(5).is_empty());
}

#[test]
fn test_morse_complex_from_function() {
    let cps = vec![
        CriticalPoint::new(vec![0.0, 0.0], 0, 0.0),
        CriticalPoint::new(vec![1.0, 0.0], 1, 0.5),
        CriticalPoint::new(vec![0.0, 1.0], 1, 0.5),
        CriticalPoint::new(vec![1.0, 1.0], 2, 1.0),
    ];
    let mf = MorseFunction::from_critical_points(2, cps);
    let mc = MorseComplex::from_morse_function(mf, flow_weight);
    // Should have boundary maps for k=1,2
    assert_eq!(mc.boundary_maps.len(), 2);
    assert_eq!((mc.boundary_maps[0].nrows, mc.boundary_maps[0].ncols), (1, 2));
    assert_eq!((mc.boundary_maps[1].nrows, mc.boundary_maps[1].ncols), (2, 1));
    // entry (0, 0) of ∂_1: saddle (1,0) above minimum (0,0), distance 1
    assert!((mc.boundary_maps[0].entries[0][0] - (-0.5f64).exp()).abs() < 1e-12);
}

#[test]
fn boundary_map_lookup() {
    let cps = vec![
        CriticalPoint::new(vec![0.0], 0, 0.0),
        CriticalPoint::new(vec![1.0], 1, 1.0),
    ];
    let mf = MorseFunction::from_critical_points(1, cps);
    let mc = MorseComplex::from_morse_function(mf, flow_weight);
    assert!(mc.boundary_map(0).is_none());
    assert!(mc.boundary_map(2).is_none());
    let b = mc.boundary_map(1).unwrap();
    assert_eq!((b.nrows, b.ncols), (1, 1));
    assert!(b.entries[0][0] > 0.0);
}

fn landscape() -> MorseComplex<f64> {
    // two basins, one saddle, one peak (the README's quick-start landscape)
    let cps = vec![
        CriticalPoint::labeled(vec![0.0, 0.0], 0, 0.0, "basin_A"),
        CriticalPoint::labeled(vec![2.0, 0.0], 0, 0.5, "basin_B"),
        CriticalPoint::labeled(vec![1.0, 0.0], 1, 1.0, "saddle_AB"),
        CriticalPoint::labeled(vec![1.0, 1.0], 2, 2.0, "peak"),
    ];
    MorseComplex::from_morse_function(MorseFunction::from_critical_points(2, cps), flow_weight)
}

#[test]
fn betti_numbers_and_morse_inequalities() {
    let mc = landscape();
    let ranks = ranks_of(&mc);
    assert_eq!(ranks, vec![1, 1]);
    // β_0 = 2 - 0 - 1, β_1 = 1 - 1 - 1 clamped, β_2 = 1 - 1
    assert_eq!(mc.betti_numbers(&ranks), vec![1, 0, 0]);
    assert!(mc.verify_weak_morse_inequalities(&ranks));
    assert_eq!(mc.morse_polynomial_coeffs(), vec![2, 1, 1]);
    assert_eq!(mc.poincare_polynomial_coeffs(&ranks), vec![1, 0, 0]);
}

#[test]
fn euler_poincare_with_consistent_ranks() {
    // c = [1, 2, 1], ranks [1, 1]: β = [0, 0, 0] and χ = 0
    let cps = vec![
        CriticalPoint::new(vec![0.0, 0.0], 0, 0.0),
        CriticalPoint::new(vec![1.0, 0.0], 1, 0.5),
        CriticalPoint::new(vec![0.0, 1.0], 1, 0.5),
        CriticalPoint::new(vec![1.0, 1.0], 2, 1.0),
    ];
    let mc = MorseComplex::from_morse_function(MorseFunction::from_critical_points(2, cps), flow_weight);
    let ranks = vec![1, 1];
    let betti = mc.betti_numbers(&ranks);
    assert_eq!(betti, vec![0, 0, 0]);
    let alt: i64 = betti
        .iter()
        .enumerate()
        .map(|(k, &b)| if k % 2 == 0 { b as i64 } else { -(b as i64) })
        .sum();
    assert_eq!(alt, mc.morse_function.euler_characteristic());
    // strong Morse inequalities: c_k - β_k = q_k + q_{k-1} with q = ranks
    let counts = mc.morse_polynomial_coeffs();
    assert_eq!(counts[0] - betti[0], ranks[0]);
    assert_eq!(counts[1] - betti[1], ranks[1] + ranks[0]);
    assert_eq!(counts[2] - betti[2], ranks[1]);
}

#[test]
fn weak_morse_inequalities_hold_for_any_ranks() {
    let mc = landscape();
    for r in [vec![0, 0], vec![5, 0], vec![0, 7], vec![9, 9]] {
        assert!(mc.verify_weak_morse_inequalities(&r));
        let betti = mc.betti_numbers(&r);
        let counts = mc.morse_polynomial_coeffs();
        for k in 0..betti.len() {
            assert!(betti[k] <= counts[k]);
        }
    }
}

#[test]
fn betti_numbers_without_critical_points() {
    let mf: MorseFunction<f64> = MorseFunction::from_critical_points(1, Vec::new());
    let mc = MorseComplex::from_morse_function(mf, flow_weight);
    assert!(mc.boundary_maps.is_empty());
    assert_eq!(mc.betti_numbers(&Vec::new()), vec![0]);
    assert!(mc.morse_polynomial_coeffs().is_empty());
    assert!(mc.verify_weak_morse_inequalities(&Vec::new()));
}

fn slopes_of(values: &[f64]) -> Vec<Slope> {
    values
        .windows(2)
        .map(|w| {
            if w[0] < w[1] {
                Slope::Rising
            } else if w[0] > w[1] {
                Slope::Falling
            } else {
                Slope::Level
            }
        })
        .collect()
}

#[test]
fn test_morse_function_from_grid_1d() {
    // Simple 1D: values that have a min in the middle, max at edges
    let vals = vec![2.0, 1.0, 0.0, 1.0, 2.0];
    let extrema = find_extrema_1d(&slopes_of(&vals));
    assert!(extrema.len() >= 1);
    assert_eq!(
        extrema,
        vec![GridExtremum { position: 2, index: 0, kind: GridExtremumKind::LocalMin }]
    );
}

#[test]
fn grid_extrema_1d_maxima_minima_and_plateaus() {
    let vals = vec![0.0, 3.0, 1.0, 1.0, 0.5, 2.0, 2.0];
    let extrema = find_extrema_1d(&slopes_of(&vals));
    assert_eq!(
        extrema,
        vec![
            GridExtremum { position: 1, index: 1, kind: GridExtremumKind::LocalMax },
            GridExtremum { position: 4, index: 0, kind: GridExtremumKind::LocalMin },
        ]
    );
    assert!(find_extrema_1d(&slopes_of(&[1.0, 2.0])).is_empty());
    assert!(find_extrema_1d(&Vec::new()).is_empty());
    assert!(find_extrema_1d(&slopes_of(&[1.0, f64::NAN, 1.0])).is_empty());
}

#[test]
fn grid_cell_digits() {
    assert_eq!(grid_cell(0, 2, 3), vec![0, 0]);
    assert_eq!(grid_cell(5, 2, 3), vec![2, 1]);
    assert_eq!(grid_cell(8, 2, 3), vec![2, 2]);
    assert_eq!(grid_cell(23, 3, 3), vec![2, 1, 2]);
    assert_eq!(grid_cell(7, 0, 4), Vec::<usize>::new());
}

#[test]
fn grid_linear_index_folds_cells() {
    assert_eq!(grid_linear_index(&vec![1, 2], 3), Some(5));
    assert_eq!(grid_linear_index(&vec![2, 1, 2], 3), Some(23));
    assert_eq!(grid_linear_index(&vec![], 3), Some(0));
    assert_eq!(grid_linear_index(&vec![4, 7], 0), Some(7));
    assert_eq!(grid_linear_index(&vec![usize::MAX, 1], 2), None);
    assert_eq!(grid_linear_index(&vec![1, usize::MAX], 1), None);
    assert_eq!(grid_linear_index(&vec![0, usize::MAX], 1), Some(usize::MAX));
}

#[test]
fn grid_extrema_first_minimum_last_maximum() {
    let keys: Vec<i64> = vec![3, 1, 4, 1, 5, 9, 2, 9, 6];
    let r = find_extrema_grid(&keys, 2);
    assert_eq!(
        r,
        vec![
            GridExtremum { position: 1, index: 0, kind: GridExtremumKind::GridMinimum },
            GridExtremum { position: 7, index: 2, kind: GridExtremumKind::GridMaximum },
        ]
    );
    let flat = find_extrema_grid(&vec![5, 5, 5], 3);
    assert_eq!(flat[0].position, 0);
    assert_eq!(flat[1].position, 2);
    assert_eq!(flat[1].index, 3);
}

#[test]
fn critical_point_positions_by_index() {
    let cps = vec![
        CriticalPoint::new(vec![0.0], 1, 0.0),
        CriticalPoint::new(vec![1.0], 0, 0.5),
        CriticalPoint::new(vec![0.5], 1, 1.0),
    ];
    let mf = MorseFunction::from_critical_points(1, cps);
    assert_eq!(mf.critical_point_positions(1), vec![0, 2]);
    assert_eq!(mf.critical_point_positions(0), vec![1]);
    assert!(mf.critical_point_positions(2).is_empty());
}
