//! Dirac operator D = d + δ: the ℤ₂ grading of forms and the block layout
//! of D on the graded space of forms.
//!
//! On C_0 ⊕ … ⊕ C_m, the codifferential δ has boundary map ∂_{k+1}: C_{k+1} → C_k
//! as its block from degree k+1 to degree k, and the exterior derivative d has
//! the transpose as its block from degree k to degree k+1. The layout says
//! where each block stands in the square matrix of D: blocks lie inside the
//! matrix, in their pair of degree windows, never overlap, and are not clipped
//! when consecutive maps compose. The grading Γ = (-1)^F is +1 on even-degree
//! and -1 on odd-degree forms; it anticommutes with D, and its trace (the
//! Witten index) is Σ (-1)^k c_k. Spectral pairing matches positive
//! eigenvalues one to one with negative partners.

use vstd::prelude::*;

verus! {

/// ℤ₂ grading for the Dirac operator: fermionic (odd) vs bosonic (even).
#[derive(Debug, Clone, Copy, PartialEq, Eq, Structural)]
pub enum FermionicGrade {
    /// Even/bosonic degree: k-forms with k even.
    Bosonic,
    /// Odd/fermionic degree: k-forms with k odd.
    Fermionic,
}

/// The grade of k-forms.
pub open spec fn grade_of_degree(k: nat) -> FermionicGrade {
    if k % 2 == 0 {
        FermionicGrade::Bosonic
    } else {
        FermionicGrade::Fermionic
    }
}

impl FermionicGrade {
    /// The opposite grade.
    pub open spec fn flipped(self) -> FermionicGrade {
        match self {
            FermionicGrade::Bosonic => FermionicGrade::Fermionic,
            FermionicGrade::Fermionic => FermionicGrade::Bosonic,
        }
    }

    /// The ℤ₂ sign: +1 for bosonic, -1 for fermionic.
    pub open spec fn sign_value(self) -> int {
        match self {
            FermionicGrade::Bosonic => 1,
            FermionicGrade::Fermionic => -1,
        }
    }

    /// From a form degree k.
    pub fn from_degree(k: usize) -> (g: Self)
        ensures
            g == grade_of_degree(k as nat),
    {
        if k % 2 == 0 {
            FermionicGrade::Bosonic
        } else {
            FermionicGrade::Fermionic
        }
    }

    /// Opposite grading.
    pub fn flip(self) -> (g: Self)
        ensures
            g == self.flipped(),
    {
        match self {
            FermionicGrade::Bosonic => FermionicGrade::Fermionic,
            FermionicGrade::Fermionic => FermionicGrade::Bosonic,
        }
    }

    /// ℤ₂ sign: +1 for bosonic, -1 for fermionic.
    pub fn sign(self) -> (s: i8)
        ensures
            s == self.sign_value(),
    {
        match self {
            FermionicGrade::Bosonic => 1,
            FermionicGrade::Fermionic => -1,
        }
    }
}

/// Flipping the grade twice gives the grade back, and never gives the same grade.
pub proof fn lemma_flip_involution(g: FermionicGrade)
    ensures
        g.flipped().flipped() == g,
        g.flipped() != g,
{
}

/// Raising the form degree by one flips the grade.
pub proof fn lemma_degree_step_flips(k: nat)
    ensures
        grade_of_degree(k + 1) == grade_of_degree(k).flipped(),
{
}

/// The sign is a ℤ₂-character: flipping negates it, and the sign of the
/// grade of k-forms is (-1)^k.
pub proof fn lemma_sign_character(g: FermionicGrade, k: nat)
    ensures
        g.flipped().sign_value() == -g.sign_value(),
        g.sign_value() * g.sign_value() == 1,
        grade_of_degree(k).sign_value() == (if k % 2 == 0 { 1int } else { -1int }),
{
}

/// The shape of a boundary map ∂_k given as a matrix (rows × cols).
#[derive(Debug, Clone, Copy, PartialEq, Eq, Structural)]
pub struct BlockShape {
    /// Number of rows.
    pub rows: usize,
    /// Number of columns.
    pub cols: usize,
}

/// Where a (clipped) block is copied into the Dirac matrix: the block's
/// `rows × cols` top-left corner goes to the window starting at `(row, col)`.
#[derive(Debug, Clone, Copy, PartialEq, Eq, Structural)]
pub struct BlockPlacement {
    /// Which boundary map the block comes from.
    pub block: usize,
    /// First row of the window in the Dirac matrix.
    pub row: usize,
    /// First column of the window in the Dirac matrix.
    pub col: usize,
    /// Number of rows copied (0 means nothing is copied).
    pub rows: usize,
    /// Number of columns copied (0 means nothing is copied).
    pub cols: usize,
}

/// Dimension of the space of degree-k forms: for k = 0 the rows of the first
/// boundary map, for k ≥ 1 the columns of map k−1; a degree that no boundary
/// map reaches gets one dimension, as 0-forms do when there is no map.
pub open spec fn form_dim(shapes: Seq<BlockShape>, k: nat) -> nat {
    if k == 0 {
        if shapes.len() > 0 {
            shapes[0].rows as nat
        } else {
            1
        }
    } else if k - 1 < shapes.len() {
        shapes[k - 1].cols as nat
    } else {
        1
    }
}

/// First row (and column) of degree-k forms in the graded space:
/// o_k = c_0 + … + c_{k−1}.
pub open spec fn form_offset(shapes: Seq<BlockShape>, k: nat) -> nat
    decreases k,
{
    if k == 0 {
        0
    } else {
        form_offset(shapes, (k - 1) as nat) + form_dim(shapes, (k - 1) as nat)
    }
}

/// Size of the Dirac matrix on forms of degree 0..=max_degree: c_0 + … + c_m.
pub open spec fn dirac_total_dim(shapes: Seq<BlockShape>, max_degree: nat) -> nat {
    form_offset(shapes, max_degree + 1)
}

/// Index i lies among the degree-k forms.
pub open spec fn in_degree(shapes: Seq<BlockShape>, k: nat, i: int) -> bool {
    form_offset(shapes, k) <= i < form_offset(shapes, k + 1)
}

/// Number of boundary maps placed in the Dirac matrix: map k joins degrees
/// k and k+1, so only maps k < max_degree are placed.
pub open spec fn placed_maps(shapes: Seq<BlockShape>, max_degree: nat) -> nat {
    if shapes.len() <= max_degree {
        shapes.len()
    } else {
        max_degree
    }
}

pub open spec fn min_int(a: int, b: int) -> int {
    if a <= b {
        a
    } else {
        b
    }
}

/// The block of d (the transpose of boundary map k, from k-forms to
/// (k+1)-forms): rows among degree k+1, columns among degree k.
pub open spec fn d_placement(shapes: Seq<BlockShape>, k: nat) -> BlockPlacement {
    BlockPlacement {
        block: k as usize,
        row: form_offset(shapes, k + 1) as usize,
        col: form_offset(shapes, k) as usize,
        rows: shapes[k as int].cols,
        cols: min_int(shapes[k as int].rows as int, form_dim(shapes, k) as int) as usize,
    }
}

/// The block of δ (boundary map k itself, from (k+1)-forms to k-forms):
/// rows among degree k, columns among degree k+1.
pub open spec fn delta_placement(shapes: Seq<BlockShape>, k: nat) -> BlockPlacement {
    BlockPlacement {
        block: k as usize,
        row: form_offset(shapes, k) as usize,
        col: form_offset(shapes, k + 1) as usize,
        rows: min_int(shapes[k as int].rows as int, form_dim(shapes, k) as int) as usize,
        cols: shapes[k as int].cols,
    }
}

/// Consecutive boundary maps can be composed: map k's rows are map k−1's columns.
pub open spec fn maps_compose(shapes: Seq<BlockShape>) -> bool {
    forall|k: int| 1 <= k < shapes.len() ==> #[trigger] shapes[k].rows == shapes[k - 1].cols
}

/// (i, j) lies in the window of placement p.
pub open spec fn in_block(p: BlockPlacement, i: int, j: int) -> bool {
    p.row <= i < p.row + p.rows && p.col <= j < p.col + p.cols
}

/// Offsets never decrease with the degree.
pub proof fn lemma_offset_monotone(shapes: Seq<BlockShape>, a: nat, b: nat)
    requires
        a <= b,
    ensures
        form_offset(shapes, a) <= form_offset(shapes, b),
    decreases b - a,
{
    if a < b {
        lemma_offset_monotone(shapes, a, (b - 1) as nat);
    }
}

/// Each block lies in its pair of degree windows: the block of d in degree
/// k+1 rows and degree k columns, the block of δ the other way round, and
/// both inside the matrix; when the maps compose, no block is clipped.
pub proof fn lemma_placements_in_degrees(shapes: Seq<BlockShape>, max_degree: nat, k: nat)
    requires
        k < placed_maps(shapes, max_degree),
        dirac_total_dim(shapes, max_degree) <= usize::MAX,
    ensures
        ({
            let p = d_placement(shapes, k);
            &&& forall|i: int| p.row <= i < p.row + p.rows ==> #[trigger] in_degree(shapes, k + 1, i)
            &&& forall|j: int| p.col <= j < p.col + p.cols ==> #[trigger] in_degree(shapes, k, j)
            &&& p.row + p.rows <= dirac_total_dim(shapes, max_degree)
            &&& p.col + p.cols <= dirac_total_dim(shapes, max_degree)
        }),
        ({
            let p = delta_placement(shapes, k);
            &&& forall|i: int| p.row <= i < p.row + p.rows ==> #[trigger] in_degree(shapes, k, i)
            &&& forall|j: int| p.col <= j < p.col + p.cols ==> #[trigger] in_degree(shapes, k + 1, j)
            &&& p.row + p.rows <= dirac_total_dim(shapes, max_degree)
            &&& p.col + p.cols <= dirac_total_dim(shapes, max_degree)
        }),
        maps_compose(shapes) ==> d_placement(shapes, k).cols == shapes[k as int].rows
            && delta_placement(shapes, k).rows == shapes[k as int].rows,
{
    lemma_offset_monotone(shapes, k + 2, max_degree + 1);
    assert(form_offset(shapes, k + 1) == form_offset(shapes, k) + form_dim(shapes, k));
    assert(form_offset(shapes, k + 2) == form_offset(shapes, k + 1) + form_dim(shapes, k + 1));
    assert(form_dim(shapes, k + 1) == shapes[k as int].cols);
    if maps_compose(shapes) && k > 0 {
        assert(shapes[k as int].rows == shapes[k - 1].cols);
    }
}

/// Every placed block of d and of δ spans its map's whole degree-(k+1)
/// window: the block of d has one row, and the block of δ one column, per
/// (k+1)-form; when the maps compose it spans the whole degree-k window too,
/// so the block is the whole map (or its transpose).
pub proof fn lemma_blocks_cover_windows(shapes: Seq<BlockShape>, max_degree: nat, k: nat)
    requires
        k < placed_maps(shapes, max_degree),
    ensures
        d_placement(shapes, k).rows == shapes[k as int].cols,
        d_placement(shapes, k).rows == form_dim(shapes, k + 1),
        delta_placement(shapes, k).cols == shapes[k as int].cols,
        delta_placement(shapes, k).cols == form_dim(shapes, k + 1),
        d_placement(shapes, k).cols == delta_placement(shapes, k).rows,
        d_placement(shapes, k).cols <= shapes[k as int].rows,
        d_placement(shapes, k).cols <= form_dim(shapes, k),
        maps_compose(shapes) ==> d_placement(shapes, k).cols == form_dim(shapes, k)
            && d_placement(shapes, k).cols == shapes[k as int].rows,
{
    if maps_compose(shapes) && k > 0 {
        assert(shapes[k as int].rows == shapes[k - 1].cols);
    }
}

/// The degree windows are disjoint: a later degree starts after an earlier one ends.
pub proof fn lemma_degrees_disjoint(shapes: Seq<BlockShape>, a: nat, b: nat, i: int)
    requires
        in_degree(shapes, a, i),
        in_degree(shapes, b, i),
    ensures
        a == b,
{
    if a < b {
        lemma_offset_monotone(shapes, a + 1, b);
    } else if b < a {
        lemma_offset_monotone(shapes, b + 1, a);
    }
}

/// No two blocks of the Dirac matrix share an entry.
pub proof fn lemma_blocks_disjoint(
    shapes: Seq<BlockShape>,
    max_degree: nat,
    a: nat,
    b: nat,
    i: int,
    j: int,
)
    requires
        a < placed_maps(shapes, max_degree),
        b < placed_maps(shapes, max_degree),
        dirac_total_dim(shapes, max_degree) <= usize::MAX,
    ensures
        a != b ==> !(in_block(d_placement(shapes, a), i, j) && in_block(d_placement(shapes, b), i, j)),
        a != b ==> !(in_block(delta_placement(shapes, a), i, j) && in_block(
            delta_placement(shapes, b),
            i,
            j,
        )),
        !(in_block(d_placement(shapes, a), i, j) && in_block(delta_placement(shapes, b), i, j)),
{
    lemma_placements_in_degrees(shapes, max_degree, a);
    lemma_placements_in_degrees(shapes, max_degree, b);
    if in_block(d_placement(shapes, a), i, j) && in_block(d_placement(shapes, b), i, j) {
        lemma_degrees_disjoint(shapes, a + 1, b + 1, i);
    }
    if in_block(delta_placement(shapes, a), i, j) && in_block(delta_placement(shapes, b), i, j) {
        lemma_degrees_disjoint(shapes, a, b, i);
    }
    if in_block(d_placement(shapes, a), i, j) && in_block(delta_placement(shapes, b), i, j) {
        lemma_degrees_disjoint(shapes, a + 1, b, i);
        lemma_degrees_disjoint(shapes, a, b + 1, j);
    }
}

/// The block layout of the Dirac operator D = d + δ on C_0 ⊕ … ⊕ C_m built
/// from boundary maps.
pub struct DiracLayout {
    /// Maximum form degree m.
    pub max_degree: usize,
    /// Shapes of the boundary maps the operator is built from.
    pub shapes: Vec<BlockShape>,
    /// Size of the (square) Dirac matrix, c_0 + … + c_m.
    pub total_dim: usize,
    /// offsets[k] is the first row/column of degree-k forms, k in 0..=max_degree.
    pub offsets: Vec<usize>,
    /// Placements of the blocks of d, one per placed boundary map.
    pub d_placements: Vec<BlockPlacement>,
    /// Placements of the blocks of δ, one per placed boundary map.
    pub delta_placements: Vec<BlockPlacement>,
}

impl DiracLayout {
    /// The layout is the one that `shapes` and `max_degree` determine.
    pub open spec fn wf(&self) -> bool {
        let s = self.shapes@;
        let m = self.max_degree as nat;
        &&& self.total_dim == dirac_total_dim(s, m)
        &&& self.offsets.len() == m + 1
        &&& forall|k: int| 0 <= k <= m ==> #[trigger] self.offsets[k] == form_offset(s, k as nat)
        &&& self.d_placements.len() == placed_maps(s, m)
        &&& self.delta_placements.len() == placed_maps(s, m)
        &&& forall|k: int|
            0 <= k < self.d_placements.len() ==> #[trigger] self.d_placements[k] == d_placement(
                s,
                k as nat,
            )
        &&& forall|k: int|
            0 <= k < self.delta_placements.len() ==> #[trigger] self.delta_placements[k]
                == delta_placement(s, k as nat)
    }

    /// Size of the Dirac matrix, or `None` when it does not fit in `usize`.
    pub fn checked_total_dim(shapes: &Vec<BlockShape>, max_degree: usize) -> (r: Option<usize>)
        ensures
            match r {
                Some(t) => t == dirac_total_dim(shapes@, max_degree as nat),
                None => dirac_total_dim(shapes@, max_degree as nat) > usize::MAX,
            },
    {
        let mut offset: usize = 0;
        let mut k: usize = 0;
        loop
            invariant
                k <= max_degree,
                offset == form_offset(shapes@, k as nat),
            decreases max_degree - k,
        {
            let dim_k: usize = if k == 0 {
                if shapes.len() > 0 {
                    shapes[0].rows
                } else {
                    1
                }
            } else if k - 1 < shapes.len() {
                shapes[k - 1].cols
            } else {
                1
            };
            match offset.checked_add(dim_k) {
                Some(o) => {
                    offset = o;
                },
                None => {
                    proof {
                        lemma_offset_monotone(shapes@, (k + 1) as nat, (max_degree + 1) as nat);
                    }
                    return None;
                },
            }
            if k == max_degree {
                return Some(offset);
            }
            k += 1;
        }
    }

    /// Lay out the Dirac operator D = d + δ on C_0 ⊕ … ⊕ C_m built from
    /// boundary maps of the given shapes: map k (c_k × c_{k+1}) is the block
    /// of δ from degree k+1 to degree k, its transpose the block of d from
    /// degree k to degree k+1.
    pub fn from_boundary_shapes(shapes: &Vec<BlockShape>, max_degree: usize) -> (r: Self)
        requires
            dirac_total_dim(shapes@, max_degree as nat) <= usize::MAX,
            max_degree < usize::MAX,
        ensures
            r.wf(),
            r.shapes@ == shapes@,
            r.max_degree == max_degree,
            forall|k: int|
                0 <= k < r.d_placements.len() ==> {
                    let p = #[trigger] r.d_placements[k];
                    p.row + p.rows <= r.total_dim && p.col + p.cols <= r.total_dim
                },
            forall|k: int|
                0 <= k < r.delta_placements.len() ==> {
                    let p = #[trigger] r.delta_placements[k];
                    p.row + p.rows <= r.total_dim && p.col + p.cols <= r.total_dim
                },
            forall|k: int|
                0 <= k < r.d_placements.len() ==> {
                    let d = #[trigger] r.d_placements[k];
                    let e = r.delta_placements[k];
                    &&& d.block == k && e.block == k
                    &&& d.row == r.offsets[k + 1] && d.col == r.offsets[k]
                    &&& e.row == r.offsets[k] && e.col == r.offsets[k + 1]
                    &&& d.rows == shapes[k].cols && e.cols == shapes[k].cols
                    &&& d.cols == e.rows
                    &&& d.cols <= shapes[k].rows
                    &&& d.cols <= form_dim(shapes@, k as nat)
                    &&& (d.cols == shapes[k].rows || d.cols == form_dim(shapes@, k as nat))
                },
    {
        let ghost s = shapes@;
        let ghost m = max_degree as nat;
        // offsets of degrees 0..=max_degree
        let mut offsets: Vec<usize> = Vec::new();
        let mut offset: usize = 0;
        let mut k: usize = 0;
        while k <= max_degree
            invariant
                k <= max_degree + 1,
                s == shapes@,
                m == max_degree,
                max_degree < usize::MAX,
                dirac_total_dim(s, m) <= usize::MAX,
                offset == form_offset(s, k as nat),
                offsets.len() == k,
                forall|j: int| 0 <= j < k ==> #[trigger] offsets[j] == form_offset(s, j as nat),
            decreases max_degree + 1 - k,
        {
            proof {
                lemma_offset_monotone(s, (k + 1) as nat, m + 1);
            }
            offsets.push(offset);
            let dim_k: usize = if k == 0 {
                if shapes.len() > 0 {
                    shapes[0].rows
                } else {
                    1
                }
            } else if k - 1 < shapes.len() {
                shapes[k - 1].cols
            } else {
                1
            };
            offset = offset + dim_k;
            k += 1;
        }
        let total_dim = offset;
        assert(offsets.len() == m + 1);

        let mut d_placements: Vec<BlockPlacement> = Vec::new();
        let mut delta_placements: Vec<BlockPlacement> = Vec::new();
        let mut k: usize = 0;
        while k < shapes.len() && k < max_degree
            invariant
                s == shapes@,
                m == max_degree,
                k <= shapes.len(),
                k <= max_degree,
                total_dim == dirac_total_dim(s, m),
                offsets.len() == m + 1,
                forall|j: int| 0 <= j <= m ==> #[trigger] offsets[j] == form_offset(s, j as nat),
                d_placements.len() == k,
                delta_placements.len() == k,
                forall|j: int| 0 <= j < k ==> #[trigger] d_placements[j] == d_placement(s, j as nat),
                forall|j: int|
                    0 <= j < k ==> #[trigger] delta_placements[j] == delta_placement(s, j as nat),
            decreases max_degree - k,
        {
            let dim_k: usize = if k == 0 {
                shapes[0].rows
            } else {
                shapes[k - 1].cols
            };
            let shape = shapes[k];
            let clipped_rows = if shape.rows <= dim_k {
                shape.rows
            } else {
                dim_k
            };
            d_placements.push(
                BlockPlacement {
                    block: k,
                    row: offsets[k + 1],
                    col: offsets[k],
                    rows: shape.cols,
                    cols: clipped_rows,
                },
            );
            delta_placements.push(
                BlockPlacement {
                    block: k,
                    row: offsets[k],
                    col: offsets[k + 1],
                    rows: clipped_rows,
                    cols: shape.cols,
                },
            );
            k += 1;
        }

        let r = DiracLayout {
            max_degree,
            shapes: shapes.clone(),
            total_dim,
            offsets,
            d_placements,
            delta_placements,
        };
        proof {
            assert(r.shapes@ == s);
            assert forall|k: int| 0 <= k < r.d_placements.len() implies {
                let p = #[trigger] r.d_placements[k];
                p.row + p.rows <= r.total_dim && p.col + p.cols <= r.total_dim
            } by {
                lemma_placements_in_degrees(s, m, k as nat);
            }
            assert forall|k: int| 0 <= k < r.delta_placements.len() implies {
                let p = #[trigger] r.delta_placements[k];
                p.row + p.rows <= r.total_dim && p.col + p.cols <= r.total_dim
            } by {
                lemma_placements_in_degrees(s, m, k as nat);
            }
        }
        r
    }

    /// Shapes of the (zero) boundary maps between consecutive form spaces of
    /// the given dimensions: map k goes from degree k+1 to degree k, so it is
    /// `form_dims[k] × form_dims[k+1]`.
    pub fn simple_shapes(form_dims: &Vec<usize>) -> (r: Vec<BlockShape>)
        ensures
            r.len() == if form_dims.len() == 0 { 0 } else { form_dims.len() - 1 },
            forall|k: int|
                0 <= k < r.len() ==> #[trigger] r[k] == (BlockShape {
                    rows: form_dims[k],
                    cols: form_dims[k + 1],
                }),
    {
        let mut r: Vec<BlockShape> = Vec::new();
        let mut k: usize = 0;
        while k + 1 < form_dims.len()
            invariant
                form_dims.len() == 0 ==> k == 0,
                form_dims.len() > 0 ==> k <= form_dims.len() - 1,
                r.len() == k,
                forall|j: int|
                    0 <= j < k ==> #[trigger] r[j] == (BlockShape {
                        rows: form_dims[j],
                        cols: form_dims[j + 1],
                    }),
            decreases form_dims.len() - k,
        {
            r.push(BlockShape { rows: form_dims[k], cols: form_dims[k + 1] });
            k += 1;
        }
        r
    }

    /// Maximum form degree for forms of the given dimensions.
    pub fn simple_max_degree(form_dims: &Vec<usize>) -> (r: usize)
        ensures
            r == if form_dims.len() == 0 { 0 } else { form_dims.len() - 1 },
    {
        form_dims.len().saturating_sub(1)
    }
}

/// Dimensions of the form spaces that boundary maps of the given shapes
/// connect: the first map's rows, then each map's columns; with no map, only
/// 0-forms of dimension 1.
pub fn form_dimensions(shapes: &Vec<BlockShape>) -> (dims: Vec<usize>)
    ensures
        dims.len() == shapes.len() + 1,
        dims[0] == if shapes.len() == 0 { 1 } else { shapes[0].rows },
        forall|k: int| 0 <= k < shapes.len() ==> #[trigger] dims[k + 1] == shapes[k].cols,
        forall|k: int| 0 <= k < dims.len() ==> #[trigger] dims[k] == form_dim(shapes@, k as nat),
{
    let mut dims: Vec<usize> = Vec::new();
    if shapes.len() == 0 {
        dims.push(1);
    } else {
        dims.push(shapes[0].rows);
    }
    let mut k: usize = 0;
    while k < shapes.len()
        invariant
            k <= shapes.len(),
            dims.len() == k + 1,
            dims[0] == if shapes.len() == 0 { 1 } else { shapes[0].rows },
            forall|j: int| 0 <= j < k ==> #[trigger] dims[j + 1] == shapes[j].cols,
        decreases shapes.len() - k,
    {
        dims.push(shapes[k].cols);
        k += 1;
    }
    proof {
        assert forall|k: int| 0 <= k < dims.len() implies #[trigger] dims[k] == form_dim(
            shapes@,
            k as nat,
        ) by {
            if k > 0 {
                assert(dims[(k - 1) + 1] == shapes[k - 1].cols);
            }
        }
    }
    dims
}

/// `signs` is the diagonal of the grading operator Γ = (-1)^F on the graded
/// space of `shapes` up to degree m: the sign of degree k on every degree-k row.
pub open spec fn is_grading(shapes: Seq<BlockShape>, max_degree: nat, signs: Seq<i8>) -> bool {
    &&& signs.len() == dirac_total_dim(shapes, max_degree)
    &&& forall|k: nat, i: int|
        k <= max_degree && #[trigger] in_degree(shapes, k, i) ==> signs[i] as int
            == grade_of_degree(k).sign_value()
}

/// Diagonal of the grading operator Γ = (-1)^F of a Dirac layout: +1 on
/// even-degree forms, -1 on odd-degree forms; Γ² = 1.
pub fn grading_signs(layout: &DiracLayout) -> (signs: Vec<i8>)
    requires
        layout.wf(),
    ensures
        is_grading(layout.shapes@, layout.max_degree as nat, signs@),
        forall|i: int| 0 <= i < signs.len() ==> #[trigger] signs[i] * signs[i] == 1,
{
    let ghost s = layout.shapes@;
    let ghost m = layout.max_degree as nat;
    let n_degrees = layout.offsets.len();
    let mut signs: Vec<i8> = Vec::new();
    let mut k: usize = 0;
    while k < n_degrees
        invariant
            layout.wf(),
            s == layout.shapes@,
            m == layout.max_degree,
            n_degrees == m + 1,
            k <= n_degrees,
            signs.len() == form_offset(s, k as nat),
            forall|a: nat, i: int|
                a < k && #[trigger] in_degree(s, a, i) ==> signs[i] as int == grade_of_degree(
                    a,
                ).sign_value(),
            forall|i: int| 0 <= i < signs.len() ==> #[trigger] signs[i] * signs[i] == 1,
        decreases n_degrees - k,
    {
        let end = if k + 1 < n_degrees {
            layout.offsets[k + 1]
        } else {
            layout.total_dim
        };
        assert(end == form_offset(s, (k + 1) as nat));
        let sign: i8 = FermionicGrade::from_degree(k).sign();
        let ghost start = signs.len();
        while signs.len() < end
            invariant
                start == form_offset(s, k as nat),
                end == form_offset(s, (k + 1) as nat),
                start <= signs.len() <= end,
                sign as int == grade_of_degree(k as nat).sign_value(),
                sign == 1 || sign == -1,
                forall|a: nat, i: int|
                    a < k && #[trigger] in_degree(s, a, i) ==> signs[i] as int == grade_of_degree(
                        a,
                    ).sign_value(),
                forall|i: int| start <= i < signs.len() ==> signs[i] == sign,
                forall|i: int| 0 <= i < signs.len() ==> #[trigger] signs[i] * signs[i] == 1,
            decreases end - signs.len(),
        {
            proof {
                assert forall|a: nat, i: int|
                    a < k && #[trigger] in_degree(s, a, i) implies i < start by {
                    lemma_offset_monotone(s, a + 1, k as nat);
                }
            }
            assert(sign * sign == 1);
            signs.push(sign);
            proof {
                assert(signs[signs.len() - 1] == sign);
                assert forall|a: nat, i: int|
                    a < k && #[trigger] in_degree(s, a, i) implies signs[i] as int
                        == grade_of_degree(a).sign_value() by {
                    lemma_offset_monotone(s, a + 1, k as nat);
                }
            }
        }
        proof {
            assert forall|a: nat, i: int|
                a < k + 1 && #[trigger] in_degree(s, a, i) implies signs[i] as int
                    == grade_of_degree(a).sign_value() by {
                if a < k {
                } else {
                    assert(a == k);
                }
            }
        }
        k += 1;
    }
    signs
}

/// Γ anticommutes with D = d + δ: every entry of every block of d and of δ
/// joins two degrees of opposite sign, so (DΓ + ΓD)_{ij} = D_{ij}(Γ_jj + Γ_ii) = 0
/// on the blocks, and D is zero elsewhere.
pub proof fn lemma_anticommutation(layout: DiracLayout, signs: Seq<i8>, k: int, i: int, j: int)
    requires
        layout.wf(),
        is_grading(layout.shapes@, layout.max_degree as nat, signs),
        0 <= k < layout.d_placements.len(),
    ensures
        in_block(layout.d_placements[k], i, j) ==> signs[i] == -signs[j],
        in_block(layout.delta_placements[k], i, j) ==> signs[i] == -signs[j],
{
    let s = layout.shapes@;
    let m = layout.max_degree as nat;
    let kk = k as nat;
    lemma_placements_in_degrees(s, m, kk);
    if in_block(layout.d_placements[k], i, j) {
        assert(in_degree(s, kk + 1, i));
        assert(in_degree(s, kk, j));
        lemma_degree_step_flips(kk);
        lemma_sign_character(grade_of_degree(kk), kk);
    }
    if in_block(layout.delta_placements[k], i, j) {
        assert(in_degree(s, kk, i));
        assert(in_degree(s, kk + 1, j));
        lemma_degree_step_flips(kk);
        lemma_sign_character(grade_of_degree(kk), kk);
    }
}

/// Σ over the first n degrees of (-1)^k c_k.
pub open spec fn alt_form_dims(shapes: Seq<BlockShape>, n: nat) -> int
    decreases n,
{
    if n == 0 {
        0
    } else {
        alt_form_dims(shapes, (n - 1) as nat) + grade_of_degree((n - 1) as nat).sign_value()
            * form_dim(shapes, (n - 1) as nat)
    }
}

/// Sum of a sequence of signs.
pub open spec fn sum_signs(signs: Seq<i8>) -> int
    decreases signs.len(),
{
    if signs.len() == 0 {
        0
    } else {
        sum_signs(signs.drop_last()) + signs.last() as int
    }
}

proof fn lemma_sum_signs_window(
    shapes: Seq<BlockShape>,
    max_degree: nat,
    signs: Seq<i8>,
    k: nat,
    i: int,
)
    requires
        is_grading(shapes, max_degree, signs),
        k <= max_degree,
        form_offset(shapes, k) <= i <= form_offset(shapes, k + 1),
    ensures
        sum_signs(signs.take(i)) == alt_form_dims(shapes, k) + grade_of_degree(k).sign_value() * (i
            - form_offset(shapes, k)),
    decreases k, i,
{
    let o = form_offset(shapes, k) as int;
    let sg = grade_of_degree(k).sign_value();
    lemma_offset_monotone(shapes, k + 1, max_degree + 1);
    if i > o {
        lemma_sum_signs_window(shapes, max_degree, signs, k, i - 1);
        assert(signs.take(i).drop_last() =~= signs.take(i - 1));
        assert(in_degree(shapes, k, i - 1));
        assert(signs[i - 1] as int == sg);
        assert(sg * (i - o) == sg * (i - 1 - o) + sg) by (nonlinear_arith);
    } else if k == 0 {
        assert(signs.take(0) =~= Seq::<i8>::empty());
    } else {
        let p = (k - 1) as nat;
        lemma_sum_signs_window(shapes, max_degree, signs, p, i);
        assert(sg * (i - o) == 0) by (nonlinear_arith)
            requires
                i == o,
        ;
    }
}

/// The Witten index tr(-1)^F, the sum of the grading signs, is the Euler
/// characteristic Σ_k (-1)^k c_k of the graded space of forms.
pub proof fn lemma_witten_index(shapes: Seq<BlockShape>, max_degree: nat, signs: Seq<i8>)
    requires
        is_grading(shapes, max_degree, signs),
    ensures
        sum_signs(signs) == alt_form_dims(shapes, max_degree + 1),
{
    let t = dirac_total_dim(shapes, max_degree) as int;
    lemma_sum_signs_window(shapes, max_degree, signs, max_degree, t);
    assert(signs.take(t) =~= signs);
}

/// Positive eigenvalue i can still be paired with one of the partners j, j+1, …
/// that are not in `used`, with the remaining positives i+1, … paired too
/// (rel[i][j]: negative j is an acceptable partner of positive i).
pub open spec fn pairing_from(rel: Seq<Vec<bool>>, i: nat, used: Seq<bool>, j: nat) -> bool
    decreases rel.len() - i, used.len() - j,
{
    if i >= rel.len() || j >= used.len() {
        false
    } else {
        (rel[i as int]@[j as int] && !used[j as int] && pairing_rest(
            rel,
            i + 1,
            used.update(j as int, true),
        )) || pairing_from(rel, i, used, j + 1)
    }
}

/// The positives i, i+1, … can be paired, injectively, with negatives not in `used`.
pub open spec fn pairing_rest(rel: Seq<Vec<bool>>, i: nat, used: Seq<bool>) -> bool
    decreases rel.len() - i, used.len() + 1,
{
    if i >= rel.len() {
        true
    } else {
        pairing_from(rel, i, used, 0)
    }
}

/// `sigma` pairs the positives i, i+1, … injectively with acceptable
/// negatives that are not in `used`.
pub open spec fn is_partial_pairing(rel: Seq<Vec<bool>>, used: Seq<bool>, i: nat, sigma: Seq<int>) -> bool {
    &&& sigma.len() == rel.len()
    &&& forall|k: int|
        i <= k < rel.len() ==> {
            &&& 0 <= #[trigger] sigma[k] < used.len()
            &&& !used[sigma[k]]
            &&& rel[k]@[sigma[k]]
        }
    &&& forall|k: int, l: int| i <= k < l < rel.len() ==> #[trigger] sigma[k] != #[trigger] sigma[l]
}

proof fn lemma_pairing_from_witness(rel: Seq<Vec<bool>>, i: nat, used: Seq<bool>, j: nat)
    requires
        pairing_from(rel, i, used, j),
    ensures
        exists|sigma: Seq<int>| #[trigger] is_partial_pairing(rel, used, i, sigma),
    decreases rel.len() - i, used.len() - j,
{
    if rel[i as int]@[j as int] && !used[j as int] && pairing_rest(
        rel,
        i + 1,
        used.update(j as int, true),
    ) {
        let used2 = used.update(j as int, true);
        lemma_pairing_rest_witness(rel, i + 1, used2);
        let s2 = choose|sigma: Seq<int>| #[trigger] is_partial_pairing(rel, used2, i + 1, sigma);
        let sigma = s2.update(i as int, j as int);
        assert forall|k: int| i <= k < rel.len() implies {
            &&& 0 <= #[trigger] sigma[k] < used.len()
            &&& !used[sigma[k]]
            &&& rel[k]@[sigma[k]]
        } by {
            if k > i {
                assert(sigma[k] == s2[k]);
                assert(!used2[s2[k]]);
            }
        }
        assert forall|k: int, l: int| i <= k < l < rel.len() implies #[trigger] sigma[k]
            != #[trigger] sigma[l] by {
            if k == i {
                assert(!used2[s2[l]]);
                assert(used2[j as int]);
            } else {
                assert(sigma[k] == s2[k] && sigma[l] == s2[l]);
            }
        }
        assert(is_partial_pairing(rel, used, i, sigma));
    } else {
        lemma_pairing_from_witness(rel, i, used, j + 1);
    }
}

proof fn lemma_pairing_rest_witness(rel: Seq<Vec<bool>>, i: nat, used: Seq<bool>)
    requires
        pairing_rest(rel, i, used),
    ensures
        exists|sigma: Seq<int>| #[trigger] is_partial_pairing(rel, used, i, sigma),
    decreases rel.len() - i, used.len() + 1,
{
    if i >= rel.len() {
        let sigma = Seq::new(rel.len(), |k: int| 0int);
        assert(is_partial_pairing(rel, used, i, sigma));
    } else {
        lemma_pairing_from_witness(rel, i, used, 0);
    }
}

proof fn lemma_pairing_from_complete(
    rel: Seq<Vec<bool>>,
    i: nat,
    used: Seq<bool>,
    j: nat,
    sigma: Seq<int>,
)
    requires
        i < rel.len(),
        is_partial_pairing(rel, used, i, sigma),
        j <= sigma[i as int],
    ensures
        pairing_from(rel, i, used, j),
    decreases rel.len() - i, sigma[i as int] - j,
{
    let t = sigma[i as int];
    if j == t {
        let used2 = used.update(t, true);
        assert(is_partial_pairing(rel, used2, i + 1, sigma)) by {
            assert forall|k: int| i + 1 <= k < rel.len() implies !used2[#[trigger] sigma[k]] by {
                assert(sigma[i as int] != sigma[k]);
            }
        }
        lemma_pairing_rest_complete(rel, i + 1, used2, sigma);
    } else {
        lemma_pairing_from_complete(rel, i, used, j + 1, sigma);
    }
}

proof fn lemma_pairing_rest_complete(rel: Seq<Vec<bool>>, i: nat, used: Seq<bool>, sigma: Seq<int>)
    requires
        is_partial_pairing(rel, used, i, sigma),
    ensures
        pairing_rest(rel, i, used),
    decreases rel.len() - i, used.len() + 1,
{
    if i < rel.len() {
        lemma_pairing_from_complete(rel, i, used, 0, sigma);
    }
}

/// The positives i, i+1, … can be paired with the negatives not in `used`
/// exactly when an injective pairing of them exists.
pub proof fn lemma_pairing_rest(rel: Seq<Vec<bool>>, i: nat, used: Seq<bool>)
    ensures
        pairing_rest(rel, i, used) <==> exists|sigma: Seq<int>| #[trigger] is_partial_pairing(rel, used, i, sigma),
{
    if pairing_rest(rel, i, used) {
        lemma_pairing_rest_witness(rel, i, used);
    }
    if exists|sigma: Seq<int>| #[trigger] is_partial_pairing(rel, used, i, sigma) {
        let sigma = choose|sigma: Seq<int>| #[trigger] is_partial_pairing(rel, used, i, sigma);
        lemma_pairing_rest_complete(rel, i, used, sigma);
    }
}

fn pair_rest(rel: &Vec<Vec<bool>>, i: usize, used: &mut Vec<bool>) -> (r: bool)
    requires
        i <= rel.len(),
        forall|k: int| 0 <= k < rel.len() ==> (#[trigger] rel[k]).len() == old(used).len(),
    ensures
        r == pairing_rest(rel@, i as nat, old(used)@),
        final(used)@ == old(used)@,
    decreases rel.len() - i,
{
    if i == rel.len() {
        return true;
    }
    let ghost u = used@;
    let m = used.len();
    let mut j: usize = 0;
    while j < m
        invariant
            i < rel.len(),
            m == u.len(),
            used@ == u,
            old(used)@ == u,
            j <= m,
            forall|k: int| 0 <= k < rel.len() ==> (#[trigger] rel[k]).len() == u.len(),
            pairing_from(rel@, i as nat, u, 0) == pairing_from(rel@, i as nat, u, j as nat),
        decreases m - j,
    {
        if rel[i][j] && !used[j] {
            used.set(j, true);
            assert(used@ == u.update(j as int, true));
            let ok = pair_rest(rel, i + 1, used);
            assert(ok == pairing_rest(rel@, (i + 1) as nat, u.update(j as int, true)));
            used.set(j, false);
            assert(used@ =~= u);
            if ok {
                return true;
            }
        }
        j += 1;
    }
    false
}

/// Number of positive eigenvalues whose pairing is given by `sigma`: an
/// injective map into the negatives with every pair accepted by `cancels`.
pub open spec fn is_susy_pairing<E, F: Fn(&E, &E) -> bool>(
    cancels: F,
    pos: Seq<E>,
    neg: Seq<E>,
    sigma: Seq<int>,
) -> bool {
    &&& sigma.len() == pos.len()
    &&& forall|i: int|
        0 <= i < pos.len() ==> 0 <= #[trigger] sigma[i] < neg.len() && call_ensures(
            cancels,
            (&pos[i], &neg[sigma[i]]),
            true,
        )
    &&& forall|i: int, l: int| 0 <= i < l < pos.len() ==> #[trigger] sigma[i] != #[trigger] sigma[l]
}

/// Every injective map of the positives into the negatives has a pair that
/// `cancels` rejected.
pub open spec fn no_susy_pairing<E, F: Fn(&E, &E) -> bool>(cancels: F, pos: Seq<E>, neg: Seq<E>) -> bool {
    forall|sigma: Seq<int>|
        (sigma.len() == pos.len() && (forall|i: int| 0 <= i < pos.len() ==> 0 <= #[trigger] sigma[i]
            < neg.len()) && (forall|i: int, l: int|
            0 <= i < l < pos.len() ==> #[trigger] sigma[i] != #[trigger] sigma[l])) ==> exists|i: int|
            0 <= i < pos.len() && #[trigger] call_ensures(cancels, (&pos[i], &neg[sigma[i]]), false)
}

/// Supersymmetric pairing of a spectrum split into its positive and negative
/// parts: the eigenvalues come in ± pairs when there are as many negative as
/// positive eigenvalues and the positives can be matched one to one with
/// negatives that `cancels` accepts as partners. `cancels` is asked once
/// about every (positive, negative) pair.
pub fn spectra_pair_up<E, F: Fn(&E, &E) -> bool>(pos: &Vec<E>, neg: &Vec<E>, cancels: F) -> (paired: bool)
    requires
        forall|p: &E, n: &E| cancels.requires((p, n)),
    ensures
        paired ==> pos.len() == neg.len() && exists|sigma: Seq<int>|
            #[trigger] is_susy_pairing(cancels, pos@, neg@, sigma),
        !paired ==> pos.len() != neg.len() || no_susy_pairing(cancels, pos@, neg@),
{
    if pos.len() != neg.len() {
        return false;
    }
    let n = pos.len();
    let mut rel: Vec<Vec<bool>> = Vec::new();
    let mut i: usize = 0;
    while i < n
        invariant
            n == pos.len(),
            n == neg.len(),
            i <= n,
            rel.len() == i,
            forall|p: &E, q: &E| cancels.requires((p, q)),
            forall|k: int| 0 <= k < i ==> (#[trigger] rel[k]).len() == n,
            forall|k: int, l: int|
                0 <= k < i && 0 <= l < n ==> call_ensures(cancels, (&pos[k], &neg[l]), #[trigger] rel[k]@[l]),
        decreases n - i,
    {
        let mut row: Vec<bool> = Vec::new();
        let mut j: usize = 0;
        while j < n
            invariant
                n == pos.len(),
                n == neg.len(),
                i < n,
                j <= n,
                row.len() == j,
                forall|p: &E, q: &E| cancels.requires((p, q)),
                forall|l: int| 0 <= l < j ==> call_ensures(cancels, (&pos[i as int], &neg[l]), #[trigger] row@[l]),
            decreases n - j,
        {
            let c = cancels(&pos[i], &neg[j]);
            row.push(c);
            j += 1;
        }
        rel.push(row);
        i += 1;
    }
    let mut used: Vec<bool> = Vec::new();
    let mut j: usize = 0;
    while j < n
        invariant
            j <= n,
            used.len() == j,
            forall|l: int| 0 <= l < j ==> !#[trigger] used[l],
        decreases n - j,
    {
        used.push(false);
        j += 1;
    }
    let ghost u = used@;
    let paired = pair_rest(&rel, 0, &mut used);
    proof {
        lemma_pairing_rest(rel@, 0, u);
        if paired {
            let sigma = choose|sigma: Seq<int>| #[trigger] is_partial_pairing(rel@, u, 0, sigma);
            assert forall|k: int| 0 <= k < pos.len() implies 0 <= #[trigger] sigma[k] < neg.len()
                && call_ensures(cancels, (&pos[k], &neg[sigma[k]]), true) by {
                assert(rel@[k]@[sigma[k]]);
            }
            assert(is_susy_pairing(cancels, pos@, neg@, sigma));
        } else {
            assert forall|sigma: Seq<int>|
                (sigma.len() == pos.len() && (forall|i: int|
                    0 <= i < pos.len() ==> 0 <= #[trigger] sigma[i] < neg.len()) && (forall|
                    i: int,
                    l: int,
                |
                    0 <= i < l < pos.len() ==> #[trigger] sigma[i] != #[trigger] sigma[l])) implies exists|
                i: int,
            | 0 <= i < pos.len() && #[trigger] call_ensures(cancels, (&pos[i], &neg[sigma[i]]), false) by {
                if forall|k: int| 0 <= k < pos.len() ==> rel@[k]@[#[trigger] sigma[k]] {
                    assert(is_partial_pairing(rel@, u, 0, sigma));
                } else {
                    let k = choose|k: int| 0 <= k < pos.len() && !rel@[k]@[#[trigger] sigma[k]];
                    assert(call_ensures(cancels, (&pos[k], &neg[sigma[k]]), rel[k]@[sigma[k]]));
                }
            }
        }
    }
    paired
}

} // verus!
