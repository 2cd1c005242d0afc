//! Instanton tunneling between reward basins.
//!
//! An instanton is a gradient flow line from a critical point of index k to
//! one of index k−1. This module determines which pairs of critical points
//! are joined by an instanton, where each instanton lands in the tunneling
//! matrix and in the Morse–Witten boundary maps, the shape of those maps,
//! and the dimension of H¹ (the channels of spurious tunneling,
//! i.e. reward hacking) from the ranks of the boundary maps.

use vstd::prelude::*;
use crate::morse::{CriticalPoint, MorseFunction, count_index, select_index};

verus! {

/// An instanton joins `source` to `target` when the source's index is one more
/// than the target's.
pub open spec fn joins<V>(s: Seq<CriticalPoint<V>>, source: int, target: int) -> bool {
    s[source].index == s[target].index + 1
}

/// Instanton pairs (source, target) with source = i and target < j, in order of target.
pub open spec fn row_pairs<V>(s: Seq<CriticalPoint<V>>, i: int, j: nat) -> Seq<(usize, usize)>
    decreases j,
{
    if j == 0 {
        Seq::empty()
    } else {
        let prev = row_pairs(s, i, (j - 1) as nat);
        if joins(s, i, j - 1) {
            prev.push((i as usize, (j - 1) as usize))
        } else {
            prev
        }
    }
}

/// Instanton pairs with source < i, ordered by source, then by target.
pub open spec fn all_pairs<V>(s: Seq<CriticalPoint<V>>, i: nat) -> Seq<(usize, usize)>
    decreases i,
{
    if i == 0 {
        Seq::empty()
    } else {
        all_pairs(s, (i - 1) as nat) + row_pairs(s, i - 1, s.len())
    }
}

proof fn lemma_contains_append<A>(a: Seq<A>, b: Seq<A>, x: A)
    ensures
        a.contains(x) ==> (a + b).contains(x),
        b.contains(x) ==> (a + b).contains(x),
        (a + b).contains(x) ==> a.contains(x) || b.contains(x),
{
    if a.contains(x) {
        let k = choose|k: int| 0 <= k < a.len() && a[k] == x;
        assert((a + b)[k] == x);
    }
    if b.contains(x) {
        let k = choose|k: int| 0 <= k < b.len() && b[k] == x;
        assert((a + b)[a.len() + k] == x);
    }
    if (a + b).contains(x) {
        let k = choose|k: int| 0 <= k < (a + b).len() && (a + b)[k] == x;
        if k < a.len() {
            assert(a[k] == x);
        } else {
            assert(b[k - a.len()] == x);
        }
    }
}

proof fn lemma_row_pairs<V>(s: Seq<CriticalPoint<V>>, i: int, j: nat)
    requires
        0 <= i < s.len(),
        j <= s.len(),
        s.len() <= usize::MAX,
    ensures
        forall|m: int|
            0 <= m < row_pairs(s, i, j).len() ==> {
                let p = #[trigger] row_pairs(s, i, j)[m];
                &&& p.0 == i
                &&& p.1 < j
                &&& joins(s, p.0 as int, p.1 as int)
            },
        forall|t: int|
            0 <= t < j && joins(s, i, t) ==> #[trigger] row_pairs(s, i, j).contains(
                (i as usize, t as usize),
            ),
    decreases j,
{
    if j > 0 {
        let prev = row_pairs(s, i, (j - 1) as nat);
        lemma_row_pairs(s, i, (j - 1) as nat);
        assert forall|t: int| 0 <= t < j && joins(s, i, t) implies #[trigger] row_pairs(
            s,
            i,
            j,
        ).contains((i as usize, t as usize)) by {
            if t < j - 1 {
                assert(prev.contains((i as usize, t as usize)));
                if joins(s, i, j - 1) {
                    let k = choose|k: int|
                        0 <= k < prev.len() && prev[k] == (i as usize, t as usize);
                    assert(row_pairs(s, i, j)[k] == (i as usize, t as usize));
                }
            } else {
                assert(row_pairs(s, i, j)[prev.len() as int] == (i as usize, t as usize));
            }
        }
    }
}

/// The instanton pairs are exactly the pairs (source, target) of positions of
/// critical points whose indices differ by one: every listed pair joins, and
/// every joining pair is listed.
pub proof fn lemma_all_pairs<V>(s: Seq<CriticalPoint<V>>, i: nat)
    requires
        i <= s.len(),
        s.len() <= usize::MAX,
    ensures
        forall|m: int|
            0 <= m < all_pairs(s, i).len() ==> {
                let p = #[trigger] all_pairs(s, i)[m];
                &&& p.0 < i
                &&& p.1 < s.len()
                &&& joins(s, p.0 as int, p.1 as int)
            },
        forall|a: int, b: int|
            0 <= a < i && 0 <= b < s.len() && joins(s, a, b) ==> #[trigger] all_pairs(
                s,
                i,
            ).contains((a as usize, b as usize)),
    decreases i,
{
    if i > 0 {
        let prev = all_pairs(s, (i - 1) as nat);
        let row = row_pairs(s, i - 1, s.len());
        lemma_all_pairs(s, (i - 1) as nat);
        lemma_row_pairs(s, i - 1, s.len());
        assert forall|m: int| 0 <= m < all_pairs(s, i).len() implies {
            let p = #[trigger] all_pairs(s, i)[m];
            &&& p.0 < i
            &&& p.1 < s.len()
            &&& joins(s, p.0 as int, p.1 as int)
        } by {
            if m < prev.len() {
                assert(all_pairs(s, i)[m] == prev[m]);
            } else {
                assert(all_pairs(s, i)[m] == row[m - prev.len()]);
            }
        }
        assert forall|a: int, b: int|
            0 <= a < i && 0 <= b < s.len() && joins(s, a, b) implies #[trigger] all_pairs(
            s,
            i,
        ).contains((a as usize, b as usize)) by {
            lemma_contains_append(prev, row, (a as usize, b as usize));
            if a < i - 1 {
                assert(prev.contains((a as usize, b as usize)));
            } else {
                assert(row.contains((a as usize, b as usize)));
            }
        }
    }
}


/// Number of critical points one index below k (0 for k = 0): the possible
/// targets of an instanton leaving a critical point of index k.
pub open spec fn targets_below<V>(s: Seq<CriticalPoint<V>>, k: nat) -> nat {
    if k >= 1 {
        count_index(s, (k - 1) as nat)
    } else {
        0
    }
}

/// Σ over the critical points e of `t` of the number of possible targets of e in `s`.
pub open spec fn targets_sum<V>(s: Seq<CriticalPoint<V>>, t: Seq<CriticalPoint<V>>) -> nat
    decreases t.len(),
{
    if t.len() == 0 {
        0
    } else {
        targets_sum(s, t.drop_last()) + targets_below(s, t.last().index as nat)
    }
}

/// Σ_{k<n} c_k(t) · c_{k−1}(s).
pub open spec fn index_pair_sum<V>(t: Seq<CriticalPoint<V>>, s: Seq<CriticalPoint<V>>, n: nat) -> nat
    decreases n,
{
    if n == 0 {
        0
    } else {
        index_pair_sum(t, s, (n - 1) as nat) + count_index(t, (n - 1) as nat) * targets_below(
            s,
            (n - 1) as nat,
        )
    }
}

proof fn lemma_row_pairs_len<V>(s: Seq<CriticalPoint<V>>, i: int, j: nat)
    requires
        0 <= i < s.len(),
        j <= s.len(),
    ensures
        row_pairs(s, i, j).len() == targets_below(s.take(j as int), s[i].index as nat),
    decreases j,
{
    if j > 0 {
        lemma_row_pairs_len(s, i, (j - 1) as nat);
        assert(s.take(j as int).drop_last() =~= s.take(j - 1));
    }
}

proof fn lemma_all_pairs_len<V>(s: Seq<CriticalPoint<V>>, i: nat)
    requires
        i <= s.len(),
    ensures
        all_pairs(s, i).len() == targets_sum(s, s.take(i as int)),
    decreases i,
{
    if i > 0 {
        lemma_all_pairs_len(s, (i - 1) as nat);
        lemma_row_pairs_len(s, i - 1, s.len());
        assert(s.take(s.len() as int) =~= s);
        assert(s.take(i as int).drop_last() =~= s.take(i - 1));
    }
}

proof fn lemma_index_pair_sum_step<V>(t: Seq<CriticalPoint<V>>, s: Seq<CriticalPoint<V>>, n: nat)
    requires
        t.len() > 0,
    ensures
        index_pair_sum(t, s, n) == index_pair_sum(t.drop_last(), s, n) + if (t.last().index as nat)
            < n {
            targets_below(s, t.last().index as nat)
        } else {
            0
        },
    decreases n,
{
    if n > 0 {
        lemma_index_pair_sum_step(t, s, (n - 1) as nat);
        let k = (n - 1) as nat;
        let c = count_index(t.drop_last(), k);
        let b = targets_below(s, k);
        if t.last().index == k {
            assert(count_index(t, k) == c + 1);
            assert((c + 1) * b == c * b + b) by (nonlinear_arith);
        } else {
            assert(count_index(t, k) == c);
        }
    }
}

proof fn lemma_index_pair_sum_empty<V>(t: Seq<CriticalPoint<V>>, s: Seq<CriticalPoint<V>>, n: nat)
    requires
        t.len() == 0,
    ensures
        index_pair_sum(t, s, n) == 0,
    decreases n,
{
    if n > 0 {
        lemma_index_pair_sum_empty(t, s, (n - 1) as nat);
        let k = (n - 1) as nat;
        assert(count_index(t, k) == 0);
        assert(count_index(t, k) * targets_below(s, k) == 0);
    }
}

proof fn lemma_targets_sum_by_index<V>(t: Seq<CriticalPoint<V>>, s: Seq<CriticalPoint<V>>, n: nat)
    requires
        n > crate::morse::max_index(t),
    ensures
        targets_sum(s, t) == index_pair_sum(t, s, n),
    decreases t.len(),
{
    if t.len() > 0 {
        lemma_index_pair_sum_step(t, s, n);
        lemma_targets_sum_by_index(t.drop_last(), s, n);
    } else {
        lemma_index_pair_sum_empty(t, s, n);
    }
}

/// Counting instantons: there are Σ_k c_k · c_{k−1} instantons, one for every
/// pair of a critical point of index k and one of index k−1.
pub proof fn lemma_instanton_count<V>(s: Seq<CriticalPoint<V>>)
    ensures
        all_pairs(s, s.len()).len() == index_pair_sum(s, s, crate::morse::max_index(s) + 1),
{
    lemma_all_pairs_len(s, s.len());
    assert(s.take(s.len() as int) =~= s);
    lemma_targets_sum_by_index(s, s, crate::morse::max_index(s) + 1);
}

/// Position of the first candidate that `same` reports to be the same point
/// as `target` (`same` is asked about the candidates in order, up to the
/// first `true`).
pub fn first_matching<V, F: Fn(&CriticalPoint<V>, &CriticalPoint<V>) -> bool>(
    cands: &Vec<&CriticalPoint<V>>,
    target: &CriticalPoint<V>,
    same: &F,
) -> (r: Option<usize>)
    requires
        forall|a: &CriticalPoint<V>, b: &CriticalPoint<V>| same.requires((a, b)),
    ensures
        match r {
            Some(p) => {
                &&& p < cands.len()
                &&& call_ensures(*same, (cands[p as int], target), true)
                &&& forall|q: int| 0 <= q < p ==> call_ensures(*same, (#[trigger] cands[q], target), false)
            },
            None => forall|q: int|
                0 <= q < cands.len() ==> call_ensures(*same, (#[trigger] cands[q], target), false),
        },
{
    let mut q: usize = 0;
    while q < cands.len()
        invariant
            q <= cands.len(),
            forall|a: &CriticalPoint<V>, b: &CriticalPoint<V>| same.requires((a, b)),
            forall|x: int| 0 <= x < q ==> call_ensures(*same, (#[trigger] cands[x], target), false),
        decreases cands.len() - q,
    {
        if same(cands[q], target) {
            return Some(q);
        }
        q += 1;
    }
    None
}

/// `p` is where `same` first finds `x` among `cands`.
pub open spec fn located<V, F: Fn(&CriticalPoint<V>, &CriticalPoint<V>) -> bool>(
    cands: Seq<CriticalPoint<V>>,
    x: CriticalPoint<V>,
    same: F,
    p: usize,
) -> bool {
    &&& p < cands.len()
    &&& call_ensures(same, (&cands[p as int], &x), true)
    &&& forall|q: int| 0 <= q < p ==> call_ensures(same, (&#[trigger] cands[q], &x), false)
}

/// `same` finds `x` nowhere among `cands`.
pub open spec fn not_located<V, F: Fn(&CriticalPoint<V>, &CriticalPoint<V>) -> bool>(
    cands: Seq<CriticalPoint<V>>,
    x: CriticalPoint<V>,
    same: F,
) -> bool {
    forall|q: int| 0 <= q < cands.len() ==> call_ensures(same, (&#[trigger] cands[q], &x), false)
}

fn locate<V, F: Fn(&CriticalPoint<V>, &CriticalPoint<V>) -> bool>(
    cands: &Vec<&CriticalPoint<V>>,
    target: &CriticalPoint<V>,
    same: &F,
    Ghost(s): Ghost<Seq<CriticalPoint<V>>>,
) -> (r: Option<usize>)
    requires
        forall|a: &CriticalPoint<V>, b: &CriticalPoint<V>| same.requires((a, b)),
        cands.len() == s.len(),
        forall|i: int| 0 <= i < s.len() ==> *#[trigger] cands[i] == s[i],
    ensures
        match r {
            Some(p) => located(s, *target, *same, p),
            None => not_located(s, *target, *same),
        },
{
    let r = first_matching(cands, target, same);
    proof {
        assert forall|q: int| 0 <= q < s.len() implies cands[q] == &s[q] by {
            assert(*cands[q] == s[q]);
        }
    }
    r
}

/// Calculator for instanton tunneling amplitudes between reward basins.
pub struct TunnelingCalculator<V> {
    /// The Morse function (reward landscape).
    pub morse_function: MorseFunction<V>,
    /// Deformation parameter.
    pub t: V,
}

impl<V> TunnelingCalculator<V> {
    /// Create a new tunneling calculator.
    pub fn new(mf: MorseFunction<V>, t: V) -> (calc: Self)
        ensures
            calc.morse_function == mf,
            calc.t == t,
    {
        TunnelingCalculator { morse_function: mf, t }
    }

    /// The instantons between adjacent critical points, as pairs of positions
    /// (source, target) in the list of critical points: the source's index is
    /// one more than the target's. Pairs come ordered by source, then target.
    pub fn instanton_pairs(&self) -> (pairs: Vec<(usize, usize)>)
        ensures
            pairs@ == all_pairs(self.morse_function.critical_points@, self.morse_function.critical_points@.len()),
            forall|m: int|
                0 <= m < pairs.len() ==> {
                    let p = #[trigger] pairs[m];
                    &&& p.0 < self.morse_function.critical_points.len()
                    &&& p.1 < self.morse_function.critical_points.len()
                    &&& self.morse_function.critical_points[p.0 as int].index
                        == self.morse_function.critical_points[p.1 as int].index + 1
                },
            forall|a: int, b: int|
                0 <= a < self.morse_function.critical_points.len() && 0 <= b
                    < self.morse_function.critical_points.len()
                    && self.morse_function.critical_points[a].index
                    == self.morse_function.critical_points[b].index + 1 ==> #[trigger] pairs@.contains(
                    (a as usize, b as usize),
                ),
    {
        let cps = &self.morse_function.critical_points;
        let ghost s = cps@;
        let n = cps.len();
        let mut pairs: Vec<(usize, usize)> = Vec::new();
        let mut i: usize = 0;
        while i < n
            invariant
                s == cps@,
                n == s.len(),
                i <= n,
                pairs@ == all_pairs(s, i as nat),
            decreases n - i,
        {
            let mut j: usize = 0;
            while j < n
                invariant
                    s == cps@,
                    n == s.len(),
                    i < n,
                    j <= n,
                    pairs@ == all_pairs(s, i as nat) + row_pairs(s, i as int, j as nat),
                decreases n - j,
            {
                // Only connect critical points with index difference 1
                if cps[j].index < usize::MAX && cps[i].index == cps[j].index + 1 {
                    pairs.push((i, j));
                }
                j += 1;
            }
            i += 1;
        }
        proof {
            lemma_all_pairs(s, s.len());
        }
        pairs
    }

    /// Where each instanton lands in the tunneling matrix T (one row and
    /// column per critical point): for the m-th instanton pair, the row is the
    /// first critical point that `same` finds equal to its source and the
    /// column the first found equal to its target, 0 when none is found.
    pub fn tunneling_cells<F: Fn(&CriticalPoint<V>, &CriticalPoint<V>) -> bool>(
        &self,
        same: F,
    ) -> (cells: Vec<(usize, usize)>)
        requires
            forall|a: &CriticalPoint<V>, b: &CriticalPoint<V>| same.requires((a, b)),
        ensures
            cells.len() == all_pairs(
                self.morse_function.critical_points@,
                self.morse_function.critical_points@.len(),
            ).len(),
            forall|m: int|
                0 <= m < cells.len() ==> {
                    let s = self.morse_function.critical_points@;
                    let p = all_pairs(s, s.len())[m];
                    let c = #[trigger] cells[m];
                    &&& (located(s, s[p.0 as int], same, c.0) || (c.0 == 0 && not_located(
                        s,
                        s[p.0 as int],
                        same,
                    )))
                    &&& (located(s, s[p.1 as int], same, c.1) || (c.1 == 0 && not_located(
                        s,
                        s[p.1 as int],
                        same,
                    )))
                },
    {
        let ghost s = self.morse_function.critical_points@;
        let pairs = self.instanton_pairs();
        let cps = &self.morse_function.critical_points;
        let mut all: Vec<&CriticalPoint<V>> = Vec::new();
        let mut i: usize = 0;
        while i < cps.len()
            invariant
                s == cps@,
                i <= cps.len(),
                all.len() == i,
                forall|q: int| 0 <= q < i ==> *#[trigger] all[q] == s[q],
            decreases cps.len() - i,
        {
            all.push(&cps[i]);
            i += 1;
        }
        let mut cells: Vec<(usize, usize)> = Vec::new();
        let mut m: usize = 0;
        while m < pairs.len()
            invariant
                s == cps@,
                pairs@ == all_pairs(s, s.len()),
                forall|x: int| 0 <= x < pairs.len() ==> (#[trigger] pairs[x]).0 < s.len() && pairs[x].1 < s.len(),
                all.len() == s.len(),
                forall|q: int| 0 <= q < s.len() ==> *#[trigger] all[q] == s[q],
                forall|a: &CriticalPoint<V>, b: &CriticalPoint<V>| same.requires((a, b)),
                m <= pairs.len(),
                cells.len() == m,
                forall|x: int|
                    0 <= x < m ==> {
                        let p = pairs[x];
                        let c = #[trigger] cells[x];
                        &&& (located(s, s[p.0 as int], same, c.0) || (c.0 == 0 && not_located(
                            s,
                            s[p.0 as int],
                            same,
                        )))
                        &&& (located(s, s[p.1 as int], same, c.1) || (c.1 == 0 && not_located(
                            s,
                            s[p.1 as int],
                            same,
                        )))
                    },
            decreases pairs.len() - m,
        {
            let (a, b) = pairs[m];
            let row = match locate(&all, &cps[a], &same, Ghost(s)) {
                Some(p) => p,
                None => 0,
            };
            let col = match locate(&all, &cps[b], &same, Ghost(s)) {
                Some(p) => p,
                None => 0,
            };
            cells.push((row, col));
            m += 1;
        }
        cells
    }

    /// Where each instanton lands in the Morse–Witten boundary map ∂_k (rows:
    /// index-(k−1) critical points, columns: index-k critical points): for the
    /// m-th instanton pair, `None` unless its source has index k and `same`
    /// finds both its target among the index-(k−1) points and its source among
    /// the index-k points; otherwise the first such positions (row, column).
    pub fn boundary_cells<F: Fn(&CriticalPoint<V>, &CriticalPoint<V>) -> bool>(
        &self,
        k: usize,
        same: F,
    ) -> (cells: Vec<Option<(usize, usize)>>)
        requires
            k >= 1,
            forall|a: &CriticalPoint<V>, b: &CriticalPoint<V>| same.requires((a, b)),
        ensures
            cells.len() == all_pairs(
                self.morse_function.critical_points@,
                self.morse_function.critical_points@.len(),
            ).len(),
            forall|m: int|
                0 <= m < cells.len() ==> {
                    let s = self.morse_function.critical_points@;
                    let p = all_pairs(s, s.len())[m];
                    let hi = select_index(s, k as nat);
                    let lo = select_index(s, (k - 1) as nat);
                    match #[trigger] cells[m] {
                        Some(c) => {
                            &&& s[p.0 as int].index == k
                            &&& located(lo, s[p.1 as int], same, c.0)
                            &&& located(hi, s[p.0 as int], same, c.1)
                        },
                        None => {
                            ||| s[p.0 as int].index != k
                            ||| not_located(lo, s[p.1 as int], same)
                            ||| not_located(hi, s[p.0 as int], same)
                        },
                    }
                },
    {
        let ghost s = self.morse_function.critical_points@;
        let ghost hi = select_index(s, k as nat);
        let ghost lo = select_index(s, (k - 1) as nat);
        let pairs = self.instanton_pairs();
        let cps = &self.morse_function.critical_points;
        let cp_k = self.morse_function.critical_points_of_index(k);
        let cp_km1 = self.morse_function.critical_points_of_index(k - 1);
        let mut cells: Vec<Option<(usize, usize)>> = Vec::new();
        let mut m: usize = 0;
        while m < pairs.len()
            invariant
                s == cps@,
                hi == select_index(s, k as nat),
                lo == select_index(s, (k - 1) as nat),
                pairs@ == all_pairs(s, s.len()),
                forall|x: int| 0 <= x < pairs.len() ==> (#[trigger] pairs[x]).0 < s.len() && pairs[x].1 < s.len(),
                cp_k.len() == hi.len(),
                forall|q: int| 0 <= q < hi.len() ==> *#[trigger] cp_k[q] == hi[q],
                cp_km1.len() == lo.len(),
                forall|q: int| 0 <= q < lo.len() ==> *#[trigger] cp_km1[q] == lo[q],
                forall|a: &CriticalPoint<V>, b: &CriticalPoint<V>| same.requires((a, b)),
                m <= pairs.len(),
                cells.len() == m,
                forall|x: int|
                    0 <= x < m ==> {
                        let p = pairs[x];
                        match #[trigger] cells[x] {
                            Some(c) => {
                                &&& s[p.0 as int].index == k
                                &&& located(lo, s[p.1 as int], same, c.0)
                                &&& located(hi, s[p.0 as int], same, c.1)
                            },
                            None => {
                                ||| s[p.0 as int].index != k
                                ||| not_located(lo, s[p.1 as int], same)
                                ||| not_located(hi, s[p.0 as int], same)
                            },
                        }
                    },
            decreases pairs.len() - m,
        {
            let (a, b) = pairs[m];
            if cps[a].index != k {
                cells.push(None);
            } else {
                let col = locate(&cp_k, &cps[a], &same, Ghost(hi));
                let row = locate(&cp_km1, &cps[b], &same, Ghost(lo));
                match (row, col) {
                    (Some(i), Some(j)) => cells.push(Some((i, j))),
                    _ => cells.push(None),
                }
            }
            m += 1;
        }
        cells
    }

    /// Shape (rows, columns) of the Morse–Witten boundary map ∂_k built from
    /// instantons: one row per index-(k−1) critical point, one column per
    /// index-k critical point.
    pub fn boundary_shape(&self, k: usize) -> (shape: (usize, usize))
        requires
            k >= 1,
        ensures
            shape.0 == count_index(self.morse_function.critical_points@, (k - 1) as nat),
            shape.1 == count_index(self.morse_function.critical_points@, k as nat),
    {
        let rows = self.morse_function.critical_points_of_index(k - 1).len();
        let cols = self.morse_function.critical_points_of_index(k).len();
        (rows, cols)
    }

    /// Compute dim H¹ = dim ker(∂₁) − dim im(∂₂), clamped at 0: the number of
    /// spurious tunneling channels. `rank1` and `rank2` are the ranks of the
    /// Morse–Witten boundary maps ∂₁: C₁ → C₀ and ∂₂: C₂ → C₁; the kernel of
    /// ∂₁ has dimension c₁ − rank1, c₁ the number of index-1 critical points.
    pub fn h1_dimension(&self, rank1: usize, rank2: usize) -> (h1: usize)
        requires
            rank1 <= count_index(self.morse_function.critical_points@, 1),
        ensures
            h1 == if count_index(self.morse_function.critical_points@, 1) - rank1 - rank2 > 0 {
                count_index(self.morse_function.critical_points@, 1) - rank1 - rank2
            } else {
                0
            },
            h1 <= count_index(self.morse_function.critical_points@, 1),
            h1 <= self.morse_function.critical_points.len(),
    {
        proof {
            crate::morse::lemma_count_le_len(self.morse_function.critical_points@, 1);
        }
        let cols1 = self.morse_function.critical_points_of_index(1).len();
        let ker1 = cols1 - rank1;
        let im2 = rank2;
        if ker1 > im2 {
            ker1 - im2
        } else {
            0
        }
    }
}

} // verus!
