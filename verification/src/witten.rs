//! Witten deformation Δ_t = e^{-tf} Δ e^{tf} and the Witten complex.
//!
//! The Witten complex has the chain groups of the Morse complex and boundary
//! maps that are deformations of the Morse boundary maps. Its homology is
//! computed here from the ranks of those maps; the deformation itself only
//! rescales entries and keeps the shape of every map.

use vstd::prelude::*;
use crate::morse::{
    BoundaryMatrix,
    CriticalPoint,
    MorseFunction,
    betti_spec,
    count_index,
    max_index,
    rank_curr,
};

verus! {

/// Rank of the image of the boundary map leaving degree k+1 used by the
/// Witten homology at degree k.
pub open spec fn witten_rank_next(ranks: Seq<usize>, k: nat) -> int {
    if k < ranks.len() {
        ranks[k as int] as int
    } else {
        0
    }
}

/// Rank of the Witten homology at degree k: max(0, c_k − rank ∂_k − rank ∂_{k+1}).
pub open spec fn witten_rank_spec<V>(s: Seq<CriticalPoint<V>>, ranks: Seq<usize>, k: nat) -> nat {
    let r = count_index(s, k) - rank_curr(ranks, k) - witten_rank_next(ranks, k);
    if r > 0 {
        r as nat
    } else {
        0
    }
}

/// Compute the Witten homology ker(∂_t) / im(∂_t) at every degree that has
/// critical points: `ranks[j]` is the rank of the j-th Witten boundary map
/// (from degree j+1 to degree j).
pub fn witten_homology_ranks<V>(mf: &MorseFunction<V>, ranks: &Vec<usize>) -> (r: Vec<usize>)
    requires
        max_index(mf.critical_points@) < usize::MAX,
    ensures
        mf.critical_points.len() == 0 ==> r.len() == 0,
        mf.critical_points.len() > 0 ==> r.len() == max_index(mf.critical_points@) + 1,
        forall|k: int|
            0 <= k < r.len() ==> #[trigger] r[k] == witten_rank_spec(
                mf.critical_points@,
                ranks@,
                k as nat,
            ),
        forall|k: int|
            0 <= k < r.len() ==> {
                let c = count_index(mf.critical_points@, k as nat) as int;
                let curr = if k > 0 && k - 1 < ranks.len() {
                    ranks[k - 1] as int
                } else {
                    0
                };
                let next = if k < ranks.len() {
                    ranks[k] as int
                } else {
                    0
                };
                &&& #[trigger] r[k] >= c - curr - next
                &&& (r[k] == 0 || r[k] == c - curr - next)
            },
{
    let ghost s = mf.critical_points@;
    let counts = mf.morse_counts();
    let max_idx = counts.len();
    let len = ranks.len();
    let mut out: Vec<usize> = Vec::new();
    let mut k: usize = 0;
    while k < max_idx
        invariant
            s == mf.critical_points@,
            max_idx == counts.len(),
            len == ranks.len(),
            k <= max_idx,
            forall|j: int| 0 <= j < counts.len() ==> #[trigger] counts[j] == count_index(s, j as nat),
            out.len() == k,
            forall|j: int| 0 <= j < k ==> #[trigger] out[j] == witten_rank_spec(s, ranks@, j as nat),
        decreases max_idx - k,
    {
        let c = counts[k];
        let next: usize = if k + 1 <= len && k < len {
            ranks[k]
        } else {
            0
        };
        let curr: usize = if k > 0 && k - 1 < len {
            ranks[k - 1]
        } else {
            0
        };
        let v: usize = if c >= curr && c - curr >= next {
            c - curr - next
        } else {
            0
        };
        out.push(v);
        k += 1;
    }
    out
}

/// The Witten homology rank at degree k is the excess of c_k over the ranks
/// of the maps into and out of degree k, or 0 when there is none.
pub proof fn lemma_witten_rank_is_clamped_excess<V>(s: Seq<CriticalPoint<V>>, ranks: Seq<usize>, k: nat)
    ensures
        ({
            let c = count_index(s, k) as int;
            let curr = if k > 0 && k - 1 < ranks.len() {
                ranks[k - 1] as int
            } else {
                0
            };
            let next = if k < ranks.len() {
                ranks[k as int] as int
            } else {
                0
            };
            &&& witten_rank_spec(s, ranks, k) >= c - curr - next
            &&& (witten_rank_spec(s, ranks, k) == 0 || witten_rank_spec(s, ranks, k) == c - curr
                - next)
        }),
{
}

/// The Witten homology is the Morse homology: when the ranks come from a
/// complex with one boundary map per degree up to the top index (as every
/// Morse and Witten complex built by this crate has), the Witten homology
/// ranks are the Betti numbers at every degree.
pub proof fn lemma_witten_homology_is_morse_homology<V>(
    s: Seq<CriticalPoint<V>>,
    ranks: Seq<usize>,
    k: nat,
)
    requires
        ranks.len() == max_index(s),
        k <= max_index(s),
    ensures
        witten_rank_spec(s, ranks, k) == betti_spec(s, ranks, k),
{
}

/// The Witten deformation of boundary maps: every entry e of every map is
/// replaced by `scale(e)`; the shapes of the maps are kept.
pub fn deform_boundary_maps<V, F: Fn(&V) -> V>(maps: &Vec<BoundaryMatrix<V>>, scale: F) -> (r: Vec<
    BoundaryMatrix<V>,
>)
    requires
        forall|x: &V| scale.requires((x,)),
        forall|m: int, i: int|
            0 <= m < maps.len() && 0 <= i < maps[m].entries.len() ==> #[trigger] maps[m].entries[i].len()
                == maps[m].ncols,
    ensures
        r.len() == maps.len(),
        forall|m: int|
            0 <= m < r.len() ==> {
                &&& (#[trigger] r[m]).nrows == maps[m].nrows
                &&& r[m].ncols == maps[m].ncols
                &&& r[m].entries.len() == maps[m].entries.len()
            },
        forall|m: int, i: int|
            0 <= m < r.len() && 0 <= i < r[m].entries.len() ==> #[trigger] r[m].entries[i].len()
                == maps[m].ncols,
        forall|m: int, i: int, j: int|
            0 <= m < r.len() && 0 <= i < r[m].entries.len() && 0 <= j < r[m].entries[i].len()
                ==> call_ensures(scale, (&maps[m].entries[i][j],), #[trigger] r[m].entries[i][j]),
{
    let mut r: Vec<BoundaryMatrix<V>> = Vec::new();
    let mut m: usize = 0;
    while m < maps.len()
        invariant
            m <= maps.len(),
            r.len() == m,
            forall|x: &V| scale.requires((x,)),
            forall|a: int, i: int|
                0 <= a < maps.len() && 0 <= i < maps[a].entries.len() ==> #[trigger] maps[a].entries[i].len()
                    == maps[a].ncols,
            forall|a: int|
                0 <= a < m ==> {
                    &&& (#[trigger] r[a]).nrows == maps[a].nrows
                    &&& r[a].ncols == maps[a].ncols
                    &&& r[a].entries.len() == maps[a].entries.len()
                },
            forall|a: int, i: int|
                0 <= a < m && 0 <= i < r[a].entries.len() ==> #[trigger] r[a].entries[i].len()
                    == maps[a].ncols,
            forall|a: int, i: int, j: int|
                0 <= a < m && 0 <= i < r[a].entries.len() && 0 <= j < r[a].entries[i].len()
                    ==> call_ensures(scale, (&maps[a].entries[i][j],), #[trigger] r[a].entries[i][j]),
        decreases maps.len() - m,
    {
        let src = &maps[m];
        let mut entries: Vec<Vec<V>> = Vec::new();
        let mut i: usize = 0;
        while i < src.entries.len()
            invariant
                i <= src.entries.len(),
                *src == maps[m as int],
                m < maps.len(),
                forall|x: &V| scale.requires((x,)),
                forall|a: int| 0 <= a < src.entries.len() ==> #[trigger] src.entries[a].len() == src.ncols,
                entries.len() == i,
                forall|a: int| 0 <= a < i ==> #[trigger] entries[a].len() == src.ncols,
                forall|a: int, j: int|
                    0 <= a < i && 0 <= j < entries[a].len() ==> call_ensures(
                        scale,
                        (&src.entries[a][j],),
                        #[trigger] entries[a][j],
                    ),
            decreases src.entries.len() - i,
        {
            let mut row: Vec<V> = Vec::new();
            let mut j: usize = 0;
            while j < src.entries[i].len()
                invariant
                    i < src.entries.len(),
                    j <= src.entries[i as int].len(),
                    forall|x: &V| scale.requires((x,)),
                    row.len() == j,
                    forall|b: int|
                        0 <= b < j ==> call_ensures(
                            scale,
                            (&src.entries[i as int][b],),
                            #[trigger] row[b],
                        ),
                decreases src.entries[i as int].len() - j,
            {
                let v = scale(&src.entries[i][j]);
                row.push(v);
                j += 1;
            }
            entries.push(row);
            i += 1;
        }
        r.push(BoundaryMatrix { nrows: src.nrows, ncols: src.ncols, entries });
        m += 1;
    }
    r
}

/// Pair every critical point (by its position) with the eigenvalue at the
/// same position of the spectrum, or with `pad` when the spectrum is shorter.
pub fn critical_point_localization<V, E: Copy>(
    mf: &MorseFunction<V>,
    eigenvalues: &Vec<E>,
    pad: E,
) -> (r: Vec<(usize, E)>)
    ensures
        r.len() == mf.critical_points.len(),
        forall|i: int|
            0 <= i < r.len() ==> #[trigger] r[i] == (i as usize, if i < eigenvalues.len() {
                eigenvalues[i]
            } else {
                pad
            }),
{
    let mut r: Vec<(usize, E)> = Vec::new();
    let mut i: usize = 0;
    while i < mf.critical_points.len()
        invariant
            i <= mf.critical_points.len(),
            r.len() == i,
            forall|a: int|
                0 <= a < i ==> #[trigger] r[a] == (a as usize, if a < eigenvalues.len() {
                    eigenvalues[a]
                } else {
                    pad
                }),
        decreases mf.critical_points.len() - i,
    {
        let e = if i < eigenvalues.len() {
            eigenvalues[i]
        } else {
            pad
        };
        r.push((i, e));
        i += 1;
    }
    r
}

} // verus!
