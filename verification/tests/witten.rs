use lau_witten_reward::morse::{BoundaryMatrix, CriticalPoint, MorseComplex, MorseFunction};
use lau_witten_reward::witten::{critical_point_localization, deform_boundary_maps, witten_homology_ranks};
use nalgebra::DMatrix;

fn simple_morse_function() -> MorseFunction<f64> {
    let cps = vec![
        CriticalPoint::new(vec![0.0], 0, 0.0),
        CriticalPoint::new(vec![1.0], 1, 1.0),
        CriticalPoint::new(vec![2.0], 0, 0.5),
    ];
    MorseFunction::from_critical_points(1, cps)
}

fn flow_weight(hi: &CriticalPoint<f64>, lo: &CriticalPoint<f64>) -> f64 {
    let dist: f64 = hi
        .coords
        .iter()
        .zip(lo.coords.iter())
        .map(|(a, b)| (a - b).powi(2))
        .sum::<f64>()
        .sqrt();
    if dist < 50.0 {
        let sign = if hi.value > lo.value { 1.0 } else { -1.0 };
        sign * (-dist / 2.0).exp()
    } else {
        0.0
    }
}

fn rank_of(b: &BoundaryMatrix<f64>) -> usize {
    let data: Vec<f64> = b.entries.iter().flat_map(|r| r.iter().copied()).collect();
    DMatrix::from_row_slice(b.nrows, b.ncols, &data).rank(1e-10)
}

#[test]
fn test_witten_homology_ranks() {
    let mf = simple_morse_function();
    let mc = MorseComplex::from_morse_function(mf, flow_weight);
    let weight = (-1.0f64 * 0.5).exp();
    let maps = deform_boundary_maps(&mc.boundary_maps, |x: &f64| x * weight);
    let ranks: Vec<usize> = maps.iter().map(rank_of).collect();
    let ranks_out = witten_homology_ranks(&mc.morse_function, &ranks);
    assert_eq!(ranks_out.len(), 2); // index 0 and 1
    assert_eq!(ranks_out, vec![1, 0]);
}

#[test]
fn witten_homology_equals_morse_homology() {
    let mf = simple_morse_function();
    let mc = MorseComplex::from_morse_function(mf, flow_weight);
    for ranks in [vec![0], vec![1], vec![3]] {
        assert_eq!(
            witten_homology_ranks(&mc.morse_function, &ranks),
            mc.betti_numbers(&ranks)
        );
    }
    let empty: MorseFunction<f64> = MorseFunction::from_critical_points(1, Vec::new());
    assert!(witten_homology_ranks(&empty, &Vec::new()).is_empty());
}

#[test]
fn test_witten_complex_construction() {
    let mf = simple_morse_function();
    let mc = MorseComplex::from_morse_function(mf, flow_weight);
    let maps = deform_boundary_maps(&mc.boundary_maps, |x: &f64| x * (-0.5f64).exp());
    assert!(!maps.is_empty());
    assert_eq!(maps.len(), mc.boundary_maps.len());
    assert_eq!((maps[0].nrows, maps[0].ncols), (2, 1));
    let expected = mc.boundary_maps[0].entries[1][0] * (-0.5f64).exp();
    assert!((maps[0].entries[1][0] - expected).abs() < 1e-15);
}

#[test]
fn test_critical_point_localization() {
    let mf = simple_morse_function();
    let loc = critical_point_localization(&mf, &vec![0.25, 0.5], 0.0);
    assert_eq!(loc.len(), 3); // 3 critical points
    assert_eq!(loc, vec![(0, 0.25), (1, 0.5), (2, 0.0)]);
}
