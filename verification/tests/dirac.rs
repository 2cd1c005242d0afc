use lau_witten_reward::dirac::{
    form_dimensions, grading_signs, spectra_pair_up, BlockPlacement, BlockShape, DiracLayout, FermionicGrade,
};

#[test]
fn test_fermionic_grade_even() {
    assert_eq!(FermionicGrade::from_degree(0), FermionicGrade::Bosonic);
    assert_eq!(FermionicGrade::from_degree(2), FermionicGrade::Bosonic);
}

#[test]
fn test_fermionic_grade_odd() {
    assert_eq!(FermionicGrade::from_degree(1), FermionicGrade::Fermionic);
    assert_eq!(FermionicGrade::from_degree(3), FermionicGrade::Fermionic);
}

#[test]
fn test_grade_flip() {
    assert_eq!(FermionicGrade::Bosonic.flip(), FermionicGrade::Fermionic);
    assert_eq!(FermionicGrade::Fermionic.flip(), FermionicGrade::Bosonic);
}

#[test]
fn test_grade_sign() {
    assert_eq!(f64::from(FermionicGrade::Bosonic.sign()), 1.0);
    assert_eq!(f64::from(FermionicGrade::Fermionic.sign()), -1.0);
}

#[test]
fn grade_flip_is_an_involution_and_degree_step() {
    for g in [FermionicGrade::Bosonic, FermionicGrade::Fermionic] {
        assert_eq!(g.flip().flip(), g);
        assert_ne!(g.flip(), g);
        assert_eq!(g.flip().sign(), -g.sign());
    }
    for k in 0..10usize {
        assert_eq!(FermionicGrade::from_degree(k + 1), FermionicGrade::from_degree(k).flip());
        let expected: i8 = if k % 2 == 0 { 1 } else { -1 };
        assert_eq!(FermionicGrade::from_degree(k).sign(), expected);
    }
}

fn simple_layout(form_dims: &[usize]) -> DiracLayout {
    let dims = form_dims.to_vec();
    let shapes = DiracLayout::simple_shapes(&dims);
    let max_degree = DiracLayout::simple_max_degree(&dims);
    assert!(DiracLayout::checked_total_dim(&shapes, max_degree).is_some());
    DiracLayout::from_boundary_shapes(&shapes, max_degree)
}

#[test]
fn test_dirac_simple() {
    let d = simple_layout(&[1, 2, 1]);
    assert_eq!(d.max_degree, 2);
}

#[test]
fn test_form_dimensions() {
    let d = simple_layout(&[2, 3, 1]);
    let dims = form_dimensions(&d.shapes);
    assert_eq!(dims[0], 2);
    assert_eq!(dims, vec![2, 3, 1]);
}

#[test]
fn form_dimensions_without_maps_is_one_zero_form() {
    let layout = DiracLayout::from_boundary_shapes(&Vec::new(), 0);
    assert_eq!(form_dimensions(&layout.shapes), vec![1]);
    assert_eq!(layout.total_dim, 1);
}

#[test]
fn simple_shapes_of_form_dims() {
    let shapes = DiracLayout::simple_shapes(&vec![2, 3, 1]);
    assert_eq!(
        shapes,
        vec![BlockShape { rows: 2, cols: 3 }, BlockShape { rows: 3, cols: 1 }]
    );
    assert!(DiracLayout::simple_shapes(&vec![]).is_empty());
    assert!(DiracLayout::simple_shapes(&vec![4]).is_empty());
    assert_eq!(DiracLayout::simple_max_degree(&vec![]), 0);
    assert_eq!(DiracLayout::simple_max_degree(&vec![4]), 0);
}

#[test]
fn layout_of_one_boundary_map() {
    // One 2x3 boundary map ∂₁: C₁ (dim 3) → C₀ (dim 2), max degree 1: D is 5x5.
    let shapes = vec![BlockShape { rows: 2, cols: 3 }];
    assert_eq!(DiracLayout::checked_total_dim(&shapes, 1), Some(5));
    let layout = DiracLayout::from_boundary_shapes(&shapes, 1);
    assert_eq!(layout.total_dim, 5);
    assert_eq!(layout.offsets, vec![0, 2]);
    // d = ∂ᵀ from degree 0 to degree 1, δ = ∂ from degree 1 to degree 0
    assert_eq!(
        layout.d_placements,
        vec![BlockPlacement { block: 0, row: 2, col: 0, rows: 3, cols: 2 }]
    );
    assert_eq!(
        layout.delta_placements,
        vec![BlockPlacement { block: 0, row: 0, col: 2, rows: 2, cols: 3 }]
    );
    for p in layout.d_placements.iter().chain(layout.delta_placements.iter()) {
        assert!(p.row + p.rows <= layout.total_dim);
        assert!(p.col + p.cols <= layout.total_dim);
    }
}

#[test]
fn layout_of_three_form_spaces() {
    let layout = simple_layout(&[2, 3, 1]);
    // offsets: 0, 2, 5; total = 2 + 3 + 1 = 6
    assert_eq!(layout.offsets, vec![0, 2, 5]);
    assert_eq!(layout.total_dim, 6);
    assert_eq!(layout.d_placements.len(), 2);
    assert_eq!(layout.delta_placements.len(), 2);
    assert_eq!(layout.d_placements[0], BlockPlacement { block: 0, row: 2, col: 0, rows: 3, cols: 2 });
    assert_eq!(layout.d_placements[1], BlockPlacement { block: 1, row: 5, col: 2, rows: 1, cols: 3 });
    assert_eq!(layout.delta_placements[0], BlockPlacement { block: 0, row: 0, col: 2, rows: 2, cols: 3 });
    assert_eq!(layout.delta_placements[1], BlockPlacement { block: 1, row: 2, col: 5, rows: 3, cols: 1 });
}

#[test]
fn layout_clips_maps_that_do_not_compose() {
    // map 1 claims 4 rows but degree 1 has dimension 3 (map 0's columns)
    let shapes = vec![BlockShape { rows: 2, cols: 3 }, BlockShape { rows: 4, cols: 1 }];
    let layout = DiracLayout::from_boundary_shapes(&shapes, 2);
    assert_eq!(layout.total_dim, 6);
    assert_eq!(layout.d_placements[1], BlockPlacement { block: 1, row: 5, col: 2, rows: 1, cols: 3 });
    assert_eq!(layout.delta_placements[1], BlockPlacement { block: 1, row: 2, col: 5, rows: 3, cols: 1 });
}

#[test]
fn layout_degrees_past_the_maps_have_one_dimension() {
    let shapes = vec![BlockShape { rows: 2, cols: 3 }];
    let layout = DiracLayout::from_boundary_shapes(&shapes, 3);
    // c = [2, 3, 1, 1]
    assert_eq!(layout.offsets, vec![0, 2, 5, 6]);
    assert_eq!(layout.total_dim, 7);
    assert_eq!(layout.d_placements.len(), 1);
    assert_eq!(grading_signs(&layout), vec![1, 1, -1, -1, -1, 1, -1]);
    // no boundary map at all: one dimension per degree
    let empty = DiracLayout::from_boundary_shapes(&Vec::new(), 2);
    assert_eq!(empty.total_dim, 3);
    assert_eq!(empty.offsets, vec![0, 1, 2]);
    // maps beyond the top degree are not placed
    let layout0 = DiracLayout::from_boundary_shapes(&shapes, 0);
    assert_eq!(layout0.total_dim, 2);
    assert!(layout0.d_placements.is_empty());
    assert!(layout0.delta_placements.is_empty());
}

#[test]
fn checked_total_dim_detects_overflow() {
    let shapes = vec![BlockShape { rows: usize::MAX, cols: 1 }];
    assert_eq!(DiracLayout::checked_total_dim(&shapes, 1), None);
    assert_eq!(DiracLayout::checked_total_dim(&shapes, 0), Some(usize::MAX));
}

#[test]
fn test_grading_operator() {
    let d = simple_layout(&[2, 2]);
    let signs = grading_signs(&d);
    assert_eq!(signs.len(), d.total_dim);
    for s in signs.iter() {
        assert_eq!(s.abs(), 1);
    }
    // +1 on the two 0-forms, -1 on the two 1-forms
    assert_eq!(signs, vec![1, 1, -1, -1]);
}

#[test]
fn grading_anticommutes_with_every_block() {
    let layout = simple_layout(&[2, 3, 1]);
    let signs = grading_signs(&layout);
    assert_eq!(signs, vec![1, 1, -1, -1, -1, 1]);
    for p in layout.d_placements.iter().chain(layout.delta_placements.iter()) {
        for i in p.row..p.row + p.rows {
            for j in p.col..p.col + p.cols {
                assert_eq!(signs[i], -signs[j]);
            }
        }
    }
    // Witten index: Σ signs = c_0 - c_1 + c_2 = 2 - 3 + 1
    let index: i64 = signs.iter().map(|&s| i64::from(s)).sum();
    assert_eq!(index, 0);
}

fn susy_paired(eigenvalues: &[f64], tolerance: f64) -> bool {
    let pos: Vec<f64> = eigenvalues.iter().filter(|&&e| e > 1e-10).copied().collect();
    let neg: Vec<f64> = eigenvalues.iter().filter(|&&e| e < -1e-10).copied().collect();
    spectra_pair_up(&pos, &neg, |p: &f64, n: &f64| (p + n).abs() < tolerance)
}

#[test]
fn test_susy_pairing_check() {
    // Paired: ±1, ±2
    assert!(susy_paired(&[-2.0, -1.0, 1.0, 2.0], 0.5));
    // Unpaired
    assert!(!susy_paired(&[-2.0, 1.0, 3.0], 0.5));
}

#[test]
fn susy_pairing_is_one_to_one() {
    // 1.0 and 1.05 would both need -1.0
    assert!(!susy_paired(&[-5.0, -1.0, 1.0, 1.05], 0.5));
    // a greedy first choice must be undone: 1.0 takes -1.2 first, but 1.3 needs it
    assert!(susy_paired(&[-1.2, -0.8, 1.0, 1.3], 0.35));
}

#[test]
fn susy_pairing_needs_equal_counts_and_partners() {
    assert!(susy_paired(&[], 0.5));
    assert!(susy_paired(&[0.0, 0.0], 0.5));
    assert!(!susy_paired(&[-1.0, 1.0, 2.0], 0.5));
    assert!(!susy_paired(&[-1.0, 3.0], 0.5));
    assert!(susy_paired(&[-1.2, 1.0], 0.5));
    assert!(!susy_paired(&[-1.2, 1.0], 0.1));
}

#[test]
fn test_dirac_from_boundary_maps() {
    let bnd1 = nalgebra::DMatrix::from_row_slice(2, 3, &[
        1.0, 0.0, -1.0,
        0.0, 1.0, -1.0,
    ]);
    let shapes = vec![BlockShape { rows: bnd1.nrows(), cols: bnd1.ncols() }];
    let layout = DiracLayout::from_boundary_shapes(&shapes, 1);
    let mut matrix = nalgebra::DMatrix::<f64>::zeros(layout.total_dim, layout.total_dim);
    let bnd1_t = bnd1.transpose();
    for p in &layout.d_placements {
        matrix
            .view_mut((p.row, p.col), (p.rows, p.cols))
            .copy_from(&bnd1_t.view((0, 0), (p.rows, p.cols)));
    }
    for p in &layout.delta_placements {
        matrix
            .view_mut((p.row, p.col), (p.rows, p.cols))
            .copy_from(&bnd1.view((0, 0), (p.rows, p.cols)));
    }
    assert!(!matrix.is_empty());
    let expected = nalgebra::DMatrix::from_row_slice(5, 5, &[
        0.0, 0.0, 1.0, 0.0, -1.0,
        0.0, 0.0, 0.0, 1.0, -1.0,
        1.0, 0.0, 0.0, 0.0, 0.0,
        0.0, 1.0, 0.0, 0.0, 0.0,
        -1.0, -1.0, 0.0, 0.0, 0.0,
    ]);
    assert_eq!(matrix, expected);
    // {D, Γ} = 0
    let signs = grading_signs(&layout);
    let gamma = nalgebra::DMatrix::from_fn(5, 5, |i, j| if i == j { f64::from(signs[i]) } else { 0.0 });
    assert_eq!(&matrix * &gamma + &gamma * &matrix, nalgebra::DMatrix::<f64>::zeros(5, 5));
}
