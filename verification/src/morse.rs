//! Morse theory primitives: critical points, Morse functions, and the Morse complex.
//!
//! Everything here is generic in the scalar type `V` of coordinates and
//! function values: the topology (indices, counts, Euler characteristic,
//! Betti numbers, the shape of the chain complex) never depends on it.

use vstd::prelude::*;

verus! {

/// A non-degenerate critical point of a Morse function on an n-dimensional manifold.
pub struct CriticalPoint<V> {
    /// Coordinates in the ambient space.
    pub coords: Vec<V>,
    /// Morse index (number of negative eigenvalues of the Hessian).
    pub index: usize,
    /// Function value at this critical point.
    pub value: V,
    /// Optional label (e.g. "reward_minimum", "saddle_1").
    pub label: Option<String>,
}

impl<V> CriticalPoint<V> {
    /// Create a new critical point.
    pub fn new(coords: Vec<V>, index: usize, value: V) -> (cp: Self)
        ensures
            cp.coords@ == coords@,
            cp.index == index,
            cp.value == value,
            cp.label is None,
    {
        CriticalPoint { coords, index, value, label: None }
    }

    /// Create a labeled critical point.
    pub fn labeled(coords: Vec<V>, index: usize, value: V, label: &str) -> (cp: Self)
        ensures
            cp.coords@ == coords@,
            cp.index == index,
            cp.value == value,
            cp.label is Some,
            cp.label.unwrap()@ == label@,
    {
        CriticalPoint { coords, index, value, label: Some(label.to_string()) }
    }

    /// Dimension of the ambient space.
    pub fn ambient_dim(&self) -> (d: usize)
        ensures
            d == self.coords.len(),
    {
        self.coords.len()
    }

    /// Whether this is a minimum (index 0).
    pub fn is_minimum(&self) -> (b: bool)
        ensures
            b == (self.index == 0),
    {
        self.index == 0
    }

    /// Whether this is a maximum (index equal to the ambient dimension).
    pub fn is_maximum(&self) -> (b: bool)
        ensures
            b == (self.index == self.coords.len()),
    {
        self.index == self.coords.len()
    }

    /// Whether this is a saddle point (neither minimum nor maximum index).
    pub fn is_saddle(&self) -> (b: bool)
        ensures
            b == (0 < self.index && self.index < self.coords.len()),
    {
        self.index > 0 && self.index < self.coords.len()
    }
}

/// Number of critical points of Morse index k.
pub open spec fn count_index<V>(s: Seq<CriticalPoint<V>>, k: nat) -> nat
    decreases s.len(),
{
    if s.len() == 0 {
        0
    } else {
        count_index(s.drop_last(), k) + if s.last().index == k {
            1nat
        } else {
            0nat
        }
    }
}

/// The critical points of Morse index k, in the order they are listed.
pub open spec fn select_index<V>(s: Seq<CriticalPoint<V>>, k: nat) -> Seq<CriticalPoint<V>>
    decreases s.len(),
{
    if s.len() == 0 {
        Seq::empty()
    } else if s.last().index == k {
        select_index(s.drop_last(), k).push(s.last())
    } else {
        select_index(s.drop_last(), k)
    }
}

/// Positions (in the list) of the critical points of Morse index k, in order.
pub open spec fn positions_of_index<V>(s: Seq<CriticalPoint<V>>, k: nat) -> Seq<usize>
    decreases s.len(),
{
    if s.len() == 0 {
        Seq::empty()
    } else if s.last().index == k {
        positions_of_index(s.drop_last(), k).push((s.len() - 1) as usize)
    } else {
        positions_of_index(s.drop_last(), k)
    }
}

/// The positions of the critical points of index k are in range, point to
/// critical points of index k, and there are count_index of them.
pub proof fn lemma_positions_of_index<V>(s: Seq<CriticalPoint<V>>, k: nat)
    requires
        s.len() <= usize::MAX,
    ensures
        positions_of_index(s, k).len() == count_index(s, k),
        forall|m: int|
            0 <= m < positions_of_index(s, k).len() ==> #[trigger] positions_of_index(s, k)[m]
                < s.len() && s[positions_of_index(s, k)[m] as int].index == k,
    decreases s.len(),
{
    if s.len() > 0 {
        let p = s.drop_last();
        lemma_positions_of_index(p, k);
        assert forall|m: int|
            0 <= m < positions_of_index(s, k).len() implies #[trigger] positions_of_index(s, k)[m]
            < s.len() && s[positions_of_index(s, k)[m] as int].index == k by {
            let q = positions_of_index(p, k);
            if m < q.len() {
                assert(positions_of_index(s, k)[m] == q[m]);
                assert(q[m] < p.len());
                assert(s[q[m] as int] == p[q[m] as int]);
            } else {
                assert(s.last().index == k);
                assert(positions_of_index(s, k) == q.push((s.len() - 1) as usize));
                assert(positions_of_index(s, k)[m] == (s.len() - 1) as usize);
            }
        }
    }
}

/// The positions of the critical points of index k are strictly increasing
/// (so distinct), and every critical point of index k has its position among them.
pub proof fn lemma_positions_exact<V>(s: Seq<CriticalPoint<V>>, k: nat)
    requires
        s.len() <= usize::MAX,
    ensures
        forall|a: int, b: int|
            0 <= a < b < positions_of_index(s, k).len() ==> #[trigger] positions_of_index(s, k)[a]
                < #[trigger] positions_of_index(s, k)[b],
        forall|i: int|
            0 <= i < s.len() && (#[trigger] s[i]).index == k ==> exists|m: int|
                0 <= m < positions_of_index(s, k).len() && #[trigger] positions_of_index(s, k)[m]
                    == i,
    decreases s.len(),
{
    if s.len() > 0 {
        let p = s.drop_last();
        let q = positions_of_index(p, k);
        let r = positions_of_index(s, k);
        lemma_positions_exact(p, k);
        lemma_positions_of_index(p, k);
        assert forall|a: int, b: int| 0 <= a < b < r.len() implies #[trigger] r[a] < #[trigger] r[b] by {
            if b < q.len() {
                assert(r[a] == q[a] && r[b] == q[b]);
            } else {
                assert(r[a] == q[a]);
                assert(q[a] < p.len());
                assert(r[b] == (s.len() - 1) as usize);
            }
        }
        assert forall|i: int| 0 <= i < s.len() && (#[trigger] s[i]).index == k implies exists|m: int|
            0 <= m < r.len() && #[trigger] r[m] == i by {
            if i < s.len() - 1 {
                assert(p[i] == s[i]);
                let m = choose|m: int| 0 <= m < q.len() && #[trigger] q[m] == i;
                assert(r[m] == q[m]);
            } else {
                assert(r[q.len() as int] == (s.len() - 1) as usize);
            }
        }
    }
}

/// The predicate "has Morse index k".
pub open spec fn has_index<V>(k: nat) -> spec_fn(CriticalPoint<V>) -> bool {
    |c: CriticalPoint<V>| c.index == k
}

/// The critical points of index k are the subsequence of the list keeping
/// exactly the points of index k, in order, and the m-th of them is the one
/// at the m-th position of index k.
pub proof fn lemma_select_index_is_filter<V>(s: Seq<CriticalPoint<V>>, k: nat)
    requires
        s.len() <= usize::MAX,
    ensures
        select_index(s, k) == s.filter(has_index::<V>(k)),
        select_index(s, k).len() == positions_of_index(s, k).len(),
        forall|m: int|
            0 <= m < select_index(s, k).len() ==> #[trigger] select_index(s, k)[m] == s[positions_of_index(
                s,
                k,
            )[m] as int],
    decreases s.len(),
{
    reveal(Seq::filter);
    let pred = has_index::<V>(k);
    if s.len() > 0 {
        let p = s.drop_last();
        lemma_select_index_is_filter(p, k);
        assert(s.filter(pred) == (if pred(s.last()) {
            p.filter(pred).push(s.last())
        } else {
            p.filter(pred)
        }));
        lemma_positions_of_index(p, k);
        let q = positions_of_index(p, k);
        assert forall|m: int| 0 <= m < select_index(s, k).len() implies #[trigger] select_index(
            s,
            k,
        )[m] == s[positions_of_index(s, k)[m] as int] by {
            if m < select_index(p, k).len() {
                assert(select_index(s, k)[m] == select_index(p, k)[m]);
                assert(positions_of_index(s, k)[m] == q[m]);
                assert(s[q[m] as int] == p[q[m] as int]);
            } else {
                assert(positions_of_index(s, k)[m] == (s.len() - 1) as usize);
            }
        }
    } else {
        assert(s.filter(pred) =~= Seq::<CriticalPoint<V>>::empty());
    }
}

/// Largest Morse index among the critical points (0 when there are none).
pub open spec fn max_index<V>(s: Seq<CriticalPoint<V>>) -> nat
    decreases s.len(),
{
    if s.len() == 0 {
        0
    } else {
        let m = max_index(s.drop_last());
        if s.last().index > m {
            s.last().index as nat
        } else {
            m
        }
    }
}

/// (-1)^k · x.
pub open spec fn signed(k: nat, x: int) -> int {
    if k % 2 == 0 {
        x
    } else {
        -x
    }
}

/// χ = Σ over critical points of (-1)^index.
pub open spec fn euler_spec<V>(s: Seq<CriticalPoint<V>>) -> int
    decreases s.len(),
{
    if s.len() == 0 {
        0
    } else {
        euler_spec(s.drop_last()) + signed(s.last().index as nat, 1)
    }
}

/// Σ_{k<n} (-1)^k c_k, the alternating sum of the first n Morse counts.
pub open spec fn alt_counts<V>(s: Seq<CriticalPoint<V>>, n: nat) -> int
    decreases n,
{
    if n == 0 {
        0
    } else {
        alt_counts(s, (n - 1) as nat) + signed((n - 1) as nat, count_index(s, (n - 1) as nat) as int)
    }
}

/// Rank of the image of ∂_{k+1} used for the Betti number at degree k.
pub open spec fn rank_next<V>(s: Seq<CriticalPoint<V>>, ranks: Seq<usize>, k: nat) -> int {
    if k + 1 <= max_index(s) && k + 1 <= ranks.len() {
        ranks[k as int] as int
    } else {
        0
    }
}

/// Rank of the image of ∂_k used for the Betti number at degree k.
pub open spec fn rank_curr(ranks: Seq<usize>, k: nat) -> int {
    if k > 0 && k - 1 < ranks.len() {
        ranks[k - 1] as int
    } else {
        0
    }
}

/// β_k = max(0, c_k − rank ∂_k − rank ∂_{k+1}), where ranks[j] is the rank
/// of the boundary map ∂_{j+1}: C_{j+1} → C_j.
pub open spec fn betti_spec<V>(s: Seq<CriticalPoint<V>>, ranks: Seq<usize>, k: nat) -> nat {
    let b = count_index(s, k) - rank_curr(ranks, k) - rank_next(s, ranks, k);
    if b > 0 {
        b as nat
    } else {
        0
    }
}

/// Σ_{k<n} (-1)^k β_k.
pub open spec fn alt_betti<V>(s: Seq<CriticalPoint<V>>, ranks: Seq<usize>, n: nat) -> int
    decreases n,
{
    if n == 0 {
        0
    } else {
        alt_betti(s, ranks, (n - 1) as nat) + signed(
            (n - 1) as nat,
            betti_spec(s, ranks, (n - 1) as nat) as int,
        )
    }
}

/// Coefficient q_k of Q(t) in M(t) − P(t) = (1 + t) Q(t): the rank of ∂_{k+1}.
pub open spec fn morse_q(ranks: Seq<usize>, k: int) -> int {
    if 0 <= k < ranks.len() {
        ranks[k] as int
    } else {
        0
    }
}

pub proof fn lemma_count_le_len<V>(s: Seq<CriticalPoint<V>>, k: nat)
    ensures
        count_index(s, k) <= s.len(),
    decreases s.len(),
{
    if s.len() > 0 {
        lemma_count_le_len(s.drop_last(), k);
    }
}

/// Selecting the critical points of index k gives exactly count_index of
/// them, each of index k.
pub proof fn lemma_select_index<V>(s: Seq<CriticalPoint<V>>, k: nat)
    ensures
        select_index(s, k).len() == count_index(s, k),
        forall|i: int| 0 <= i < select_index(s, k).len() ==> #[trigger] select_index(s, k)[i].index == k,
    decreases s.len(),
{
    if s.len() > 0 {
        lemma_select_index(s.drop_last(), k);
    }
}

/// Every critical point has index at most max_index, and some critical point
/// has index exactly max_index (when there is any).
pub proof fn lemma_max_index<V>(s: Seq<CriticalPoint<V>>)
    ensures
        forall|i: int| 0 <= i < s.len() ==> #[trigger] s[i].index <= max_index(s),
        s.len() > 0 ==> exists|i: int| 0 <= i < s.len() && #[trigger] s[i].index == max_index(s),
    decreases s.len(),
{
    if s.len() > 0 {
        let p = s.drop_last();
        lemma_max_index(p);
        assert forall|i: int| 0 <= i < s.len() implies #[trigger] s[i].index <= max_index(s) by {
            if i < s.len() - 1 {
                assert(s[i] == p[i]);
            }
        }
        if s.last().index > max_index(p) {
            assert(s[s.len() - 1].index == max_index(s));
        } else if p.len() > 0 {
            let i = choose|i: int| 0 <= i < p.len() && #[trigger] p[i].index == max_index(p);
            assert(s[i] == p[i]);
        } else {
            assert(s[0].index == max_index(s));
        }
    }
}

/// No critical point has index k when k exceeds the maximum index.
pub proof fn lemma_count_above_max<V>(s: Seq<CriticalPoint<V>>, k: nat)
    requires
        k > max_index(s),
    ensures
        count_index(s, k) == 0,
    decreases s.len(),
{
    if s.len() > 0 {
        lemma_count_above_max(s.drop_last(), k);
    }
}

proof fn lemma_alt_counts_step<V>(s: Seq<CriticalPoint<V>>, n: nat)
    requires
        s.len() > 0,
    ensures
        alt_counts(s, n) == alt_counts(s.drop_last(), n) + if (s.last().index as nat) < n {
            signed(s.last().index as nat, 1)
        } else {
            0
        },
    decreases n,
{
    if n > 0 {
        lemma_alt_counts_step(s, (n - 1) as nat);
    }
}

/// The alternating sum of the Morse counts is the Euler characteristic:
/// Σ_k (-1)^k c_k = Σ over critical points of (-1)^index.
pub proof fn lemma_euler_morse_counts<V>(s: Seq<CriticalPoint<V>>, n: nat)
    requires
        n > max_index(s),
    ensures
        alt_counts(s, n) == euler_spec(s),
    decreases s.len(),
{
    if s.len() > 0 {
        lemma_alt_counts_step(s, n);
        lemma_euler_morse_counts(s.drop_last(), n);
    } else {
        lemma_alt_counts_empty(s, n);
    }
}

proof fn lemma_alt_counts_empty<V>(s: Seq<CriticalPoint<V>>, n: nat)
    requires
        s.len() == 0,
    ensures
        alt_counts(s, n) == 0,
    decreases n,
{
    if n > 0 {
        lemma_alt_counts_empty(s, (n - 1) as nat);
    }
}

/// The Betti number at degree k is the excess of c_k over the ranks of the
/// two boundary maps at degree k (∂_k into it, ∂_{k+1} out of it), and 0 when
/// there is no excess: β_k ≥ c_k − rank ∂_k − rank ∂_{k+1}, and β_k is either
/// 0 or exactly that difference.
pub proof fn lemma_betti_is_clamped_excess<V>(s: Seq<CriticalPoint<V>>, ranks: Seq<usize>, k: nat)
    ensures
        ({
            let c = count_index(s, k) as int;
            let curr = if k > 0 && k - 1 < ranks.len() {
                ranks[k - 1] as int
            } else {
                0
            };
            let next = if k + 1 <= max_index(s) && k + 1 <= ranks.len() {
                ranks[k as int] as int
            } else {
                0
            };
            &&& betti_spec(s, ranks, k) >= c - curr - next
            &&& (betti_spec(s, ranks, k) == 0 || betti_spec(s, ranks, k) == c - curr - next)
        }),
{
}

/// Weak Morse inequalities: c_k ≥ β_k for every degree k and every choice of ranks.
pub proof fn lemma_weak_morse_inequalities<V>(s: Seq<CriticalPoint<V>>, ranks: Seq<usize>, k: nat)
    ensures
        betti_spec(s, ranks, k) <= count_index(s, k),
{
}

/// The ranks are consistent with the chain groups: at no degree do the images
/// of ∂_k and ∂_{k+1} together exceed the dimension of C_k.
pub open spec fn ranks_consistent<V>(s: Seq<CriticalPoint<V>>, ranks: Seq<usize>) -> bool {
    forall|k: nat|
        k <= max_index(s) ==> rank_curr(ranks, k) + rank_next(s, ranks, k) <= #[trigger] count_index(
            s,
            k,
        )
}

/// Strong Morse inequalities: M(t) − P(t) = (1 + t) Q(t) with Q(t) = Σ q_k t^k
/// having non-negative coefficients, i.e. c_k − β_k = q_k + q_{k−1} for every k.
pub proof fn lemma_strong_morse_inequalities<V>(s: Seq<CriticalPoint<V>>, ranks: Seq<usize>, k: nat)
    requires
        ranks.len() == max_index(s),
        ranks_consistent(s, ranks),
        k <= max_index(s),
    ensures
        count_index(s, k) - betti_spec(s, ranks, k) == morse_q(ranks, k as int) + morse_q(
            ranks,
            k - 1,
        ),
        morse_q(ranks, k as int) >= 0,
{
    assert(rank_curr(ranks, k) + rank_next(s, ranks, k) <= count_index(s, k));
}

proof fn lemma_alt_betti_telescope<V>(s: Seq<CriticalPoint<V>>, ranks: Seq<usize>, n: nat)
    requires
        ranks.len() == max_index(s),
        ranks_consistent(s, ranks),
        1 <= n <= max_index(s) + 1,
    ensures
        alt_betti(s, ranks, n) == alt_counts(s, n) + signed(n, morse_q(ranks, n - 1)),
    decreases n,
{
    let k = (n - 1) as nat;
    assert(rank_curr(ranks, k) + rank_next(s, ranks, k) <= count_index(s, k));
    assert(rank_next(s, ranks, k) == morse_q(ranks, k as int));
    assert(rank_curr(ranks, k) == morse_q(ranks, k - 1));
    assert(betti_spec(s, ranks, k) == count_index(s, k) - morse_q(ranks, k - 1) - morse_q(
        ranks,
        k as int,
    ));
    assert((k % 2 == 0) == (n % 2 == 1));
    if n > 1 {
        lemma_alt_betti_telescope(s, ranks, (n - 1) as nat);
    } else {
        assert(alt_betti(s, ranks, 0) == 0);
        assert(alt_counts(s, 0) == 0);
        assert(morse_q(ranks, -1) == 0);
    }
}

/// Euler–Poincaré: when the ranks are consistent, the alternating sum of the
/// Betti numbers equals the Euler characteristic Σ (-1)^k c_k.
pub proof fn lemma_euler_poincare<V>(s: Seq<CriticalPoint<V>>, ranks: Seq<usize>)
    requires
        ranks.len() == max_index(s),
        ranks_consistent(s, ranks),
    ensures
        alt_betti(s, ranks, max_index(s) + 1) == euler_spec(s),
{
    lemma_alt_betti_telescope(s, ranks, max_index(s) + 1);
    lemma_euler_morse_counts(s, max_index(s) + 1);
}

/// A smooth Morse function f: M → ℝ on a discrete approximation of the state space.
///
/// The reward landscape IS a Morse function: it has isolated non-degenerate
/// critical points corresponding to reward basins, saddle points, and peaks.
pub struct MorseFunction<V> {
    /// Dimension of the domain.
    pub dim: usize,
    /// Known critical points.
    pub critical_points: Vec<CriticalPoint<V>>,
    /// The function evaluated on a discrete grid (optional).
    pub grid_values: Option<Vec<V>>,
    /// Grid spacing.
    pub grid_spacing: V,
}

impl<V> MorseFunction<V> {
    /// Create a Morse function from known critical points, with no grid and
    /// unit grid spacing.
    pub fn from_critical_points(dim: usize, critical_points: Vec<CriticalPoint<V>>) -> (mf: Self) where
        V: From<u8>,

        ensures
            mf.dim == dim,
            mf.critical_points@ == critical_points@,
            mf.grid_values is None,
            call_ensures(V::from, (1u8,), mf.grid_spacing),
    {
        MorseFunction { dim, critical_points, grid_values: None, grid_spacing: V::from(1u8) }
    }

    /// Largest Morse index of the critical points (0 when there are none).
    pub fn max_index(&self) -> (m: usize)
        ensures
            m == max_index(self.critical_points@),
    {
        let ghost s = self.critical_points@;
        let mut m: usize = 0;
        let mut i: usize = 0;
        while i < self.critical_points.len()
            invariant
                s == self.critical_points@,
                i <= s.len(),
                m == max_index(s.take(i as int)),
            decreases s.len() - i,
        {
            assert(s.take(i + 1).drop_last() =~= s.take(i as int));
            if self.critical_points[i].index > m {
                m = self.critical_points[i].index;
            }
            i += 1;
        }
        assert(s.take(s.len() as int) =~= s);
        m
    }

    /// Count critical points by index: counts[k] is the number of critical
    /// points of index k, for k up to the largest index (empty when there
    /// are no critical points).
    pub fn morse_counts(&self) -> (counts: Vec<usize>)
        requires
            max_index(self.critical_points@) < usize::MAX,
        ensures
            self.critical_points.len() == 0 ==> counts.len() == 0,
            self.critical_points.len() > 0 ==> counts.len() == max_index(self.critical_points@)
                + 1,
            forall|k: int| 0 <= k < counts.len() ==> #[trigger] counts[k] == count_index(
                self.critical_points@,
                k as nat,
            ),
            forall|k: nat| k >= counts.len() ==> #[trigger] count_index(self.critical_points@, k) == 0,
    {
        let ghost s = self.critical_points@;
        proof {
            assert forall|k: nat| k > max_index(s) implies #[trigger] count_index(s, k) == 0 by {
                lemma_count_above_max(s, k);
            }
        }
        let mut counts: Vec<usize> = Vec::new();
        if self.critical_points.len() == 0 {
            return counts;
        }
        let max_idx = self.max_index();
        proof {
            lemma_max_index(s);
        }
        let mut k: usize = 0;
        while k <= max_idx
            invariant
                k <= max_idx + 1,
                max_idx < usize::MAX,
                counts.len() == k,
                forall|j: int| 0 <= j < k ==> #[trigger] counts[j] == 0,
            decreases max_idx + 1 - k,
        {
            counts.push(0);
            k += 1;
        }
        let mut i: usize = 0;
        while i < self.critical_points.len()
            invariant
                s == self.critical_points@,
                i <= s.len(),
                max_idx == max_index(s),
                forall|j: int| 0 <= j < s.len() ==> #[trigger] s[j].index <= max_index(s),
                counts.len() == max_idx + 1,
                forall|j: int|
                    0 <= j < counts.len() ==> #[trigger] counts[j] == count_index(
                        s.take(i as int),
                        j as nat,
                    ),
            decreases s.len() - i,
        {
            let idx = self.critical_points[i].index;
            assert(s.take(i + 1).drop_last() =~= s.take(i as int));
            proof {
                lemma_count_le_len(s.take(i as int), idx as nat);
            }
            counts.set(idx, counts[idx] + 1);
            i += 1;
        }
        assert(s.take(s.len() as int) =~= s);
        counts
    }

    /// Euler characteristic: alternating sum of Morse counts.
    /// χ(M) = Σ (-1)^k c_k where c_k is the number of index-k critical points.
    pub fn euler_characteristic(&self) -> (chi: i64)
        requires
            self.critical_points.len() <= i64::MAX,
        ensures
            chi == euler_spec(self.critical_points@),
            chi == alt_counts(self.critical_points@, max_index(self.critical_points@) + 1),
    {
        let ghost s = self.critical_points@;
        let mut chi: i64 = 0;
        let mut i: usize = 0;
        while i < self.critical_points.len()
            invariant
                s == self.critical_points@,
                s.len() <= i64::MAX,
                i <= s.len(),
                chi == euler_spec(s.take(i as int)),
                -(i as int) <= chi <= i,
            decreases s.len() - i,
        {
            assert(s.take(i + 1).drop_last() =~= s.take(i as int));
            if self.critical_points[i].index % 2 == 0 {
                chi = chi + 1;
            } else {
                chi = chi - 1;
            }
            i += 1;
        }
        assert(s.take(s.len() as int) =~= s);
        proof {
            lemma_euler_morse_counts(s, max_index(s) + 1);
        }
        chi
    }

    /// The critical points of index k, in order.
    pub fn critical_points_of_index(&self, k: usize) -> (r: Vec<&CriticalPoint<V>>)
        ensures
            r.len() == select_index(self.critical_points@, k as nat).len(),
            r.len() == count_index(self.critical_points@, k as nat),
            forall|i: int|
                0 <= i < r.len() ==> *#[trigger] r[i] == select_index(self.critical_points@, k as nat)[i],
            forall|i: int| 0 <= i < r.len() ==> #[trigger] r[i].index == k,
            r.len() == self.critical_points@.filter(has_index::<V>(k as nat)).len(),
            forall|i: int|
                0 <= i < r.len() ==> *#[trigger] r[i] == self.critical_points@.filter(
                    has_index::<V>(k as nat),
                )[i],
            forall|i: int|
                0 <= i < r.len() ==> *#[trigger] r[i] == self.critical_points[positions_of_index(
                    self.critical_points@,
                    k as nat,
                )[i] as int],
    {
        let ghost s = self.critical_points@;
        let mut r: Vec<&CriticalPoint<V>> = Vec::new();
        let mut i: usize = 0;
        while i < self.critical_points.len()
            invariant
                s == self.critical_points@,
                i <= s.len(),
                r.len() == select_index(s.take(i as int), k as nat).len(),
                forall|j: int|
                    0 <= j < r.len() ==> *#[trigger] r[j] == select_index(s.take(i as int), k as nat)[j],
            decreases s.len() - i,
        {
            assert(s.take(i + 1).drop_last() =~= s.take(i as int));
            if self.critical_points[i].index == k {
                r.push(&self.critical_points[i]);
            }
            i += 1;
        }
        assert(s.take(s.len() as int) =~= s);
        proof {
            lemma_select_index(s, k as nat);
            lemma_select_index_is_filter(s, k as nat);
        }
        r
    }

    /// Positions in the list of the critical points of index k, in order.
    pub fn critical_point_positions(&self, k: usize) -> (r: Vec<usize>)
        ensures
            r@ == positions_of_index(self.critical_points@, k as nat),
            r.len() == count_index(self.critical_points@, k as nat),
            forall|m: int|
                0 <= m < r.len() ==> #[trigger] r[m] < self.critical_points.len()
                    && self.critical_points[r[m] as int].index == k,
            forall|a: int, b: int| 0 <= a < b < r.len() ==> #[trigger] r[a] < #[trigger] r[b],
            forall|i: int|
                0 <= i < self.critical_points.len() && (#[trigger] self.critical_points[i]).index
                    == k ==> exists|m: int| 0 <= m < r.len() && #[trigger] r[m] == i,
    {
        let ghost s = self.critical_points@;
        let mut r: Vec<usize> = Vec::new();
        let mut i: usize = 0;
        while i < self.critical_points.len()
            invariant
                s == self.critical_points@,
                i <= s.len(),
                r@ == positions_of_index(s.take(i as int), k as nat),
            decreases s.len() - i,
        {
            assert(s.take(i + 1).drop_last() =~= s.take(i as int));
            if self.critical_points[i].index == k {
                r.push(i);
            }
            i += 1;
        }
        assert(s.take(s.len() as int) =~= s);
        proof {
            lemma_positions_of_index(s, k as nat);
            lemma_positions_exact(s, k as nat);
        }
        r
    }

    /// Dimension of the domain.
    pub fn dim(&self) -> (d: usize)
        ensures
            d == self.dim,
    {
        self.dim
    }

    /// Number of critical points.
    pub fn num_critical_points(&self) -> (n: usize)
        ensures
            n == self.critical_points.len(),
    {
        self.critical_points.len()
    }
}

/// A boundary matrix ∂_k: C_k → C_{k−1}, stored by rows: entries[i][j] is the
/// coefficient of the j-th index-k critical point on the i-th index-(k−1) one.
pub struct BoundaryMatrix<V> {
    /// Number of rows (dimension of C_{k−1}).
    pub nrows: usize,
    /// Number of columns (dimension of C_k).
    pub ncols: usize,
    /// The rows of the matrix.
    pub entries: Vec<Vec<V>>,
}

/// `b` is the boundary matrix from the critical points `hi` (index k) to the
/// critical points `lo` (index k−1), with entries computed by `weight(hi, lo)`.
pub open spec fn is_boundary_block<V, F: Fn(&CriticalPoint<V>, &CriticalPoint<V>) -> V>(
    b: BoundaryMatrix<V>,
    hi: Seq<CriticalPoint<V>>,
    lo: Seq<CriticalPoint<V>>,
    weight: F,
) -> bool {
    &&& b.nrows == lo.len()
    &&& b.ncols == hi.len()
    &&& b.entries.len() == lo.len()
    &&& forall|i: int| 0 <= i < lo.len() ==> (#[trigger] b.entries[i]).len() == hi.len()
    &&& forall|i: int, j: int|
        0 <= i < lo.len() && 0 <= j < hi.len() ==> call_ensures(
            weight,
            (&hi[j], &lo[i]),
            #[trigger] b.entries[i][j],
        )
}

/// The boundary map ∂_{k+1}: C_{k+1} → C_k of a Morse complex is a
/// c_k × c_{k+1} matrix, where c_j counts the critical points of index j.
pub proof fn lemma_boundary_map_shape<V, F: Fn(&CriticalPoint<V>, &CriticalPoint<V>) -> V>(
    b: BoundaryMatrix<V>,
    s: Seq<CriticalPoint<V>>,
    k: nat,
    weight: F,
)
    requires
        is_boundary_block(b, select_index(s, k + 1), select_index(s, k), weight),
    ensures
        b.nrows == count_index(s, k),
        b.ncols == count_index(s, k + 1),
        b.entries.len() == count_index(s, k),
{
    lemma_select_index(s, k);
    lemma_select_index(s, k + 1);
}

/// The Morse complex: chain groups C_k generated by index-k critical points,
/// with boundary maps ∂: C_k → C_{k-1} counting gradient flow lines.
pub struct MorseComplex<V> {
    /// Underlying Morse function.
    pub morse_function: MorseFunction<V>,
    /// Boundary matrices ∂_k: C_k → C_{k-1}; boundary_maps[k] maps from C_{k+1} to C_k.
    pub boundary_maps: Vec<BoundaryMatrix<V>>,
}

impl<V> MorseComplex<V> {
    /// Build the Morse complex from a Morse function. For every degree k from
    /// 1 to the largest index, ∂_k has one row per index-(k−1) critical point
    /// and one column per index-k critical point, in their order in the
    /// function; the entry for (higher, lower) is `weight(higher, lower)`, the
    /// strength of the gradient flow connection between them.
    pub fn from_morse_function<F: Fn(&CriticalPoint<V>, &CriticalPoint<V>) -> V>(
        mf: MorseFunction<V>,
        weight: F,
    ) -> (mc: Self)
        requires
            forall|hi: &CriticalPoint<V>, lo: &CriticalPoint<V>| weight.requires((hi, lo)),
        ensures
            mc.morse_function == mf,
            mc.boundary_maps.len() == max_index(mf.critical_points@),
            forall|k: int|
                0 <= k < mc.boundary_maps.len() ==> is_boundary_block(
                    #[trigger] mc.boundary_maps[k],
                    select_index(mf.critical_points@, (k + 1) as nat),
                    select_index(mf.critical_points@, k as nat),
                    weight,
                ),
            forall|k: int|
                0 <= k < mc.boundary_maps.len() ==> is_boundary_block(
                    #[trigger] mc.boundary_maps[k],
                    mf.critical_points@.filter(has_index::<V>((k + 1) as nat)),
                    mf.critical_points@.filter(has_index::<V>(k as nat)),
                    weight,
                ),
    {
        let ghost s = mf.critical_points@;
        let max_idx = mf.max_index();
        let mut boundary_maps: Vec<BoundaryMatrix<V>> = Vec::new();
        let mut k: usize = 0;
        while k < max_idx
            invariant
                s == mf.critical_points@,
                max_idx == max_index(s),
                k <= max_idx,
                boundary_maps.len() == k,
                forall|hi: &CriticalPoint<V>, lo: &CriticalPoint<V>| weight.requires((hi, lo)),
                forall|m: int|
                    0 <= m < boundary_maps.len() ==> is_boundary_block(
                        #[trigger] boundary_maps[m],
                        select_index(s, (m + 1) as nat),
                        select_index(s, m as nat),
                        weight,
                    ),
            decreases max_idx - k,
        {
            let cp_k = mf.critical_points_of_index(k + 1);
            let cp_km1 = mf.critical_points_of_index(k);
            let ghost hi = select_index(s, (k + 1) as nat);
            let ghost lo = select_index(s, k as nat);
            let mut entries: Vec<Vec<V>> = Vec::new();
            let mut i: usize = 0;
            while i < cp_km1.len()
                invariant
                    i <= cp_km1.len(),
                    cp_km1.len() == lo.len(),
                    cp_k.len() == hi.len(),
                    forall|a: int| 0 <= a < cp_k.len() ==> *#[trigger] cp_k[a] == hi[a],
                    forall|a: int| 0 <= a < cp_km1.len() ==> *#[trigger] cp_km1[a] == lo[a],
                    forall|hi: &CriticalPoint<V>, lo: &CriticalPoint<V>| weight.requires((hi, lo)),
                    entries.len() == i,
                    forall|a: int| 0 <= a < i ==> (#[trigger] entries[a]).len() == hi.len(),
                    forall|a: int, b: int|
                        0 <= a < i && 0 <= b < hi.len() ==> call_ensures(
                            weight,
                            (&hi[b], &lo[a]),
                            #[trigger] entries[a][b],
                        ),
                decreases cp_km1.len() - i,
            {
                let mut row: Vec<V> = Vec::new();
                let mut j: usize = 0;
                while j < cp_k.len()
                    invariant
                        j <= cp_k.len(),
                        i < cp_km1.len(),
                        cp_km1.len() == lo.len(),
                        cp_k.len() == hi.len(),
                        forall|a: int| 0 <= a < cp_k.len() ==> *#[trigger] cp_k[a] == hi[a],
                        forall|a: int| 0 <= a < cp_km1.len() ==> *#[trigger] cp_km1[a] == lo[a],
                        forall|hi: &CriticalPoint<V>, lo: &CriticalPoint<V>|
                            weight.requires((hi, lo)),
                        row.len() == j,
                        forall|b: int|
                            0 <= b < j ==> call_ensures(
                                weight,
                                (&hi[b], &lo[i as int]),
                                #[trigger] row[b],
                            ),
                    decreases cp_k.len() - j,
                {
                    let w = weight(cp_k[j], cp_km1[i]);
                    row.push(w);
                    j += 1;
                }
                entries.push(row);
                i += 1;
            }
            let block = BoundaryMatrix { nrows: cp_km1.len(), ncols: cp_k.len(), entries };
            boundary_maps.push(block);
            k += 1;
        }
        let n_points: usize = mf.critical_points.len();
        proof {
            assert(s.len() == n_points);
            assert forall|k: int| 0 <= k < boundary_maps.len() implies is_boundary_block(
                #[trigger] boundary_maps[k],
                s.filter(has_index::<V>((k + 1) as nat)),
                s.filter(has_index::<V>(k as nat)),
                weight,
            ) by {
                lemma_select_index_is_filter(s, (k + 1) as nat);
                lemma_select_index_is_filter(s, k as nat);
            }
        }
        MorseComplex { morse_function: mf, boundary_maps }
    }

    /// Compute the Betti numbers: dim H_k = dim C_k − dim im(∂_k) − dim im(∂_{k+1}),
    /// clamped at 0, for k from 0 to the largest index. `ranks[j]` is the rank
    /// of `boundary_maps[j]`, that is of ∂_{j+1}.
    pub fn betti_numbers(&self, ranks: &Vec<usize>) -> (betti: Vec<usize>)
        requires
            ranks.len() == self.boundary_maps.len(),
            max_index(self.morse_function.critical_points@) < usize::MAX,
        ensures
            betti.len() == max_index(self.morse_function.critical_points@) + 1,
            forall|k: int|
                0 <= k < betti.len() ==> #[trigger] betti[k] == betti_spec(
                    self.morse_function.critical_points@,
                    ranks@,
                    k as nat,
                ),
            forall|k: int|
                0 <= k < betti.len() ==> {
                    let s = self.morse_function.critical_points@;
                    let c = count_index(s, k as nat) as int;
                    let curr = if k > 0 && k - 1 < ranks.len() {
                        ranks[k - 1] as int
                    } else {
                        0
                    };
                    let next = if k + 1 <= max_index(s) && k + 1 <= ranks.len() {
                        ranks[k] as int
                    } else {
                        0
                    };
                    &&& #[trigger] betti[k] >= c - curr - next
                    &&& (betti[k] == 0 || betti[k] == c - curr - next)
                },
    {
        let ghost s = self.morse_function.critical_points@;
        let counts = self.morse_function.morse_counts();
        let max_idx = self.morse_function.max_index();
        let len = ranks.len();
        let mut betti: Vec<usize> = Vec::new();
        let mut k: usize = 0;
        while k <= max_idx
            invariant
                s == self.morse_function.critical_points@,
                max_idx == max_index(s),
                max_idx < usize::MAX,
                k <= max_idx + 1,
                len == ranks.len(),
                s.len() == 0 ==> counts.len() == 0,
                s.len() > 0 ==> counts.len() == max_idx + 1,
                forall|j: int| 0 <= j < counts.len() ==> #[trigger] counts[j] == count_index(s, j as nat),
                betti.len() == k,
                forall|j: int| 0 <= j < k ==> #[trigger] betti[j] == betti_spec(s, ranks@, j as nat),
            decreases max_idx + 1 - k,
        {
            let c: usize = if k < counts.len() {
                counts[k]
            } else {
                0
            };
            assert(c == count_index(s, k as nat));
            let next: usize = if k + 1 <= max_idx && k + 1 <= len {
                ranks[k]
            } else {
                0
            };
            let curr: usize = if k > 0 && k - 1 < len {
                ranks[k - 1]
            } else {
                0
            };
            let b: usize = if c >= curr && c - curr >= next {
                c - curr - next
            } else {
                0
            };
            betti.push(b);
            k += 1;
        }
        betti
    }

    /// Verify the weak Morse inequalities: c_k ≥ β_k for all k. They always hold.
    pub fn verify_weak_morse_inequalities(&self, ranks: &Vec<usize>) -> (ok: bool)
        requires
            ranks.len() == self.boundary_maps.len(),
            max_index(self.morse_function.critical_points@) < usize::MAX,
        ensures
            ok,
    {
        let ghost s = self.morse_function.critical_points@;
        let counts = self.morse_function.morse_counts();
        let betti = self.betti_numbers(ranks);
        let n = if counts.len() >= betti.len() {
            counts.len()
        } else {
            betti.len()
        };
        let mut k: usize = 0;
        while k < n
            invariant
                k <= n,
                s == self.morse_function.critical_points@,
                s.len() == 0 ==> counts.len() == 0,
                forall|j: int| 0 <= j < counts.len() ==> #[trigger] counts[j] == count_index(s, j as nat),
                forall|j: int| 0 <= j < betti.len() ==> #[trigger] betti[j] == betti_spec(s, ranks@, j as nat),
                s.len() > 0 ==> counts.len() == betti.len(),
            decreases n - k,
        {
            let c: usize = if k < counts.len() {
                counts[k]
            } else {
                0
            };
            let b: usize = if k < betti.len() {
                betti[k]
            } else {
                0
            };
            proof {
                lemma_weak_morse_inequalities(s, ranks@, k as nat);
            }
            if c < b {
                return false;
            }
            k += 1;
        }
        true
    }

    /// The Morse polynomial: M(t) = Σ c_k t^k, as its coefficients c_k.
    pub fn morse_polynomial_coeffs(&self) -> (coeffs: Vec<usize>)
        requires
            max_index(self.morse_function.critical_points@) < usize::MAX,
        ensures
            self.morse_function.critical_points.len() == 0 ==> coeffs.len() == 0,
            self.morse_function.critical_points.len() > 0 ==> coeffs.len() == max_index(
                self.morse_function.critical_points@,
            ) + 1,
            forall|k: int| 0 <= k < coeffs.len() ==> #[trigger] coeffs[k] == count_index(
                self.morse_function.critical_points@,
                k as nat,
            ),
            forall|k: nat|
                k >= coeffs.len() ==> #[trigger] count_index(self.morse_function.critical_points@, k)
                    == 0,
    {
        self.morse_function.morse_counts()
    }

    /// The Poincaré polynomial: P(t) = Σ β_k t^k, as its coefficients β_k.
    pub fn poincare_polynomial_coeffs(&self, ranks: &Vec<usize>) -> (coeffs: Vec<usize>)
        requires
            ranks.len() == self.boundary_maps.len(),
            max_index(self.morse_function.critical_points@) < usize::MAX,
        ensures
            coeffs.len() == max_index(self.morse_function.critical_points@) + 1,
            forall|k: int|
                0 <= k < coeffs.len() ==> #[trigger] coeffs[k] == betti_spec(
                    self.morse_function.critical_points@,
                    ranks@,
                    k as nat,
                ),
            forall|k: int|
                0 <= k < coeffs.len() ==> {
                    let s = self.morse_function.critical_points@;
                    let c = count_index(s, k as nat) as int;
                    let curr = if k > 0 && k - 1 < ranks.len() {
                        ranks[k - 1] as int
                    } else {
                        0
                    };
                    let next = if k + 1 <= max_index(s) && k + 1 <= ranks.len() {
                        ranks[k] as int
                    } else {
                        0
                    };
                    &&& #[trigger] coeffs[k] >= c - curr - next
                    &&& (coeffs[k] == 0 || coeffs[k] == c - curr - next)
                },
    {
        self.betti_numbers(ranks)
    }

    /// Get the boundary map ∂_k for degree k (none for k = 0 or beyond the top degree).
    pub fn boundary_map(&self, k: usize) -> (b: Option<&BoundaryMatrix<V>>)
        ensures
            (k == 0 || k > self.boundary_maps.len()) ==> b is None,
            (k > 0 && k <= self.boundary_maps.len()) ==> b is Some && *b.unwrap()
                == self.boundary_maps[k - 1],
    {
        if k == 0 || k > self.boundary_maps.len() {
            None
        } else {
            Some(&self.boundary_maps[k - 1])
        }
    }
}

/// How the function changes between consecutive points of a 1-dimensional grid.
#[derive(Debug, Clone, Copy, PartialEq, Eq, Structural)]
pub enum Slope {
    /// The next value is larger.
    Rising,
    /// The next value is smaller.
    Falling,
    /// Neither larger nor smaller (equal, or not comparable).
    Level,
}

/// The kind of a critical point found on a grid.
#[derive(Debug, Clone, Copy, PartialEq, Eq, Structural)]
pub enum GridExtremumKind {
    /// Strictly larger than both neighbours.
    LocalMax,
    /// Strictly smaller than both neighbours.
    LocalMin,
    /// The smallest sample of the grid.
    GridMinimum,
    /// The largest sample of the grid.
    GridMaximum,
}

/// A critical point found on a grid: its position (linear index) on the
/// grid, its Morse index (0 for a minimum, the dimension for a maximum) and
/// its kind.
#[derive(Debug, Clone, Copy, PartialEq, Eq, Structural)]
pub struct GridExtremum {
    /// Position of the grid point.
    pub position: usize,
    /// Morse index of the critical point.
    pub index: usize,
    /// Whether it is a local maximum or minimum.
    pub kind: GridExtremumKind,
}

/// The critical point at interior grid position p, if any: a local maximum
/// where the function rises into p and falls after it, a local minimum where
/// it falls into p and rises after it.
pub open spec fn extremum_at(slopes: Seq<Slope>, p: int) -> Option<GridExtremum> {
    if 1 <= p < slopes.len() && slopes[p - 1] == Slope::Rising && slopes[p] == Slope::Falling {
        Some(GridExtremum { position: p as usize, index: 1, kind: GridExtremumKind::LocalMax })
    } else if 1 <= p < slopes.len() && slopes[p - 1] == Slope::Falling && slopes[p]
        == Slope::Rising {
        Some(GridExtremum { position: p as usize, index: 0, kind: GridExtremumKind::LocalMin })
    } else {
        None
    }
}

/// The critical points at positions below p, in order of position.
pub open spec fn extrema_below(slopes: Seq<Slope>, p: nat) -> Seq<GridExtremum>
    decreases p,
{
    if p == 0 {
        Seq::empty()
    } else {
        let prev = extrema_below(slopes, (p - 1) as nat);
        match extremum_at(slopes, p - 1) {
            Some(e) => prev.push(e),
            None => prev,
        }
    }
}

/// Grid position p is an interior strict local maximum (rising into p,
/// falling after it) or minimum (falling into p, rising after it).
pub open spec fn slope_turns_at(slopes: Seq<Slope>, p: int) -> bool {
    &&& 1 <= p < slopes.len()
    &&& ((slopes[p - 1] == Slope::Rising && slopes[p] == Slope::Falling) || (slopes[p - 1]
        == Slope::Falling && slopes[p] == Slope::Rising))
}

/// `e` is the extremum at its position: a maximum of index 1 where the slope
/// goes from rising to falling, a minimum of index 0 where it goes from
/// falling to rising.
pub open spec fn extremum_matches(slopes: Seq<Slope>, e: GridExtremum) -> bool {
    let p = e.position as int;
    &&& 1 <= p < slopes.len()
    &&& ((slopes[p - 1] == Slope::Rising && slopes[p] == Slope::Falling && e.index == 1 && e.kind
        == GridExtremumKind::LocalMax) || (slopes[p - 1] == Slope::Falling && slopes[p]
        == Slope::Rising && e.index == 0 && e.kind == GridExtremumKind::LocalMin))
}

/// The extrema below position n are exactly the interior turning points of
/// the slopes below n, each once, in increasing order of position, each with
/// its kind and Morse index.
pub proof fn lemma_extrema_below(slopes: Seq<Slope>, n: nat)
    requires
        n <= slopes.len(),
        slopes.len() <= usize::MAX,
    ensures
        forall|m: int|
            0 <= m < extrema_below(slopes, n).len() ==> extremum_matches(
                slopes,
                #[trigger] extrema_below(slopes, n)[m],
            ) && extrema_below(slopes, n)[m].position < n,
        forall|a: int, b: int|
            0 <= a < b < extrema_below(slopes, n).len() ==> (#[trigger] extrema_below(slopes, n)[a]).position
                < (#[trigger] extrema_below(slopes, n)[b]).position,
        forall|p: int|
            0 <= p < n && #[trigger] slope_turns_at(slopes, p) ==> exists|m: int|
                0 <= m < extrema_below(slopes, n).len() && (#[trigger] extrema_below(slopes, n)[m]).position
                    == p,
    decreases n,
{
    if n > 0 {
        let q = extrema_below(slopes, (n - 1) as nat);
        lemma_extrema_below(slopes, (n - 1) as nat);
        let r = extrema_below(slopes, n);
        assert forall|m: int| 0 <= m < r.len() implies extremum_matches(slopes, #[trigger] r[m])
            && r[m].position < n by {
            if m < q.len() {
                assert(r[m] == q[m]);
            }
        }
        assert forall|a: int, b: int| 0 <= a < b < r.len() implies (#[trigger] r[a]).position
            < (#[trigger] r[b]).position by {
            if b < q.len() {
                assert(r[a] == q[a] && r[b] == q[b]);
            } else {
                assert(r[a] == q[a]);
            }
        }
        assert forall|p: int| 0 <= p < n && #[trigger] slope_turns_at(slopes, p) implies exists|m: int|
            0 <= m < r.len() && (#[trigger] r[m]).position == p by {
            if p < n - 1 {
                let m = choose|m: int| 0 <= m < q.len() && (#[trigger] q[m]).position == p;
                assert(r[m] == q[m]);
            } else {
                assert(r[q.len() as int].position == p);
            }
        }
    }
}

/// Find the critical points of a function sampled on a 1-dimensional grid
/// from the slopes between consecutive samples (slopes[i] compares sample i
/// with sample i+1): the interior local maxima and minima, in grid order.
pub fn find_extrema_1d(slopes: &Vec<Slope>) -> (r: Vec<GridExtremum>)
    ensures
        r@ == extrema_below(slopes@, slopes@.len()),
        forall|m: int| 0 <= m < r.len() ==> extremum_matches(slopes@, #[trigger] r[m]),
        forall|a: int, b: int| 0 <= a < b < r.len() ==> (#[trigger] r[a]).position < (#[trigger] r[b]).position,
        forall|p: int|
            #[trigger] slope_turns_at(slopes@, p) ==> exists|m: int|
                0 <= m < r.len() && (#[trigger] r[m]).position == p,
{
    let mut r: Vec<GridExtremum> = Vec::new();
    let mut p: usize = 0;
    while p < slopes.len()
        invariant
            p <= slopes.len(),
            r@ == extrema_below(slopes@, p as nat),
        decreases slopes.len() - p,
    {
        if p >= 1 && slopes[p - 1] == Slope::Rising && slopes[p] == Slope::Falling {
            r.push(GridExtremum { position: p, index: 1, kind: GridExtremumKind::LocalMax });
        } else if p >= 1 && slopes[p - 1] == Slope::Falling && slopes[p] == Slope::Rising {
            r.push(GridExtremum { position: p, index: 0, kind: GridExtremumKind::LocalMin });
        }
        p += 1;
    }
    proof {
        lemma_extrema_below(slopes@, slopes@.len());
    }
    r
}

/// `p` is the first position of a smallest key.
pub open spec fn is_first_min(keys: Seq<i64>, p: int) -> bool {
    &&& 0 <= p < keys.len()
    &&& forall|q: int| 0 <= q < keys.len() ==> keys[p] <= #[trigger] keys[q]
    &&& forall|q: int| 0 <= q < p ==> keys[p] < #[trigger] keys[q]
}

/// `p` is the last position of a largest key.
pub open spec fn is_last_max(keys: Seq<i64>, p: int) -> bool {
    &&& 0 <= p < keys.len()
    &&& forall|q: int| 0 <= q < keys.len() ==> #[trigger] keys[q] <= keys[p]
    &&& forall|q: int| p < q < keys.len() ==> #[trigger] keys[q] < keys[p]
}

/// The extreme samples of a function on a grid of dimension `dim`, given the
/// samples as order keys (a key order that agrees with the order of the
/// samples): the first smallest sample as a minimum of index 0, and the last
/// largest sample as a maximum of index `dim`.
pub fn find_extrema_grid(keys: &Vec<i64>, dim: usize) -> (r: Vec<GridExtremum>)
    requires
        keys.len() > 0,
    ensures
        r.len() == 2,
        r[0].index == 0,
        r[0].kind == GridExtremumKind::GridMinimum,
        is_first_min(keys@, r[0].position as int),
        r[1].index == dim,
        r[1].kind == GridExtremumKind::GridMaximum,
        is_last_max(keys@, r[1].position as int),
{
    let mut min_idx: usize = 0;
    let mut max_idx: usize = 0;
    let mut i: usize = 1;
    while i < keys.len()
        invariant
            1 <= i <= keys.len(),
            is_first_min(keys@.take(i as int), min_idx as int),
            is_last_max(keys@.take(i as int), max_idx as int),
        decreases keys.len() - i,
    {
        let ghost prev = keys@.take(i as int);
        let ghost next = keys@.take(i + 1);
        assert(forall|q: int| 0 <= q < i ==> next[q] == prev[q]);
        if keys[i] < keys[min_idx] {
            min_idx = i;
        }
        if keys[i] >= keys[max_idx] {
            max_idx = i;
        }
        i += 1;
    }
    assert(keys@.take(keys.len() as int) =~= keys@);
    let mut r: Vec<GridExtremum> = Vec::new();
    r.push(GridExtremum { position: min_idx, index: 0, kind: GridExtremumKind::GridMinimum });
    r.push(GridExtremum { position: max_idx, index: dim, kind: GridExtremumKind::GridMaximum });
    r
}

/// The d-th digit of `idx` written in base `side`.
pub open spec fn grid_digit(idx: nat, side: nat, d: nat) -> nat {
    ((idx as int / vstd::arithmetic::power::pow(side as int, d)) % (side as int)) as nat
}

proof fn lemma_pow_step(b: int, d: nat)
    requires
        b > 0,
    ensures
        vstd::arithmetic::power::pow(b, d + 1) == vstd::arithmetic::power::pow(b, d) * b,
        vstd::arithmetic::power::pow(b, d) > 0,
{
    vstd::arithmetic::power::lemma_pow_adds(b, d, 1);
    vstd::arithmetic::power::lemma_pow1(b);
    vstd::arithmetic::power::lemma_pow_positive(b, d);
}

/// Grid cell of the linear grid index `idx` on a grid with `side` points per
/// axis: its `dim` coordinates are the base-`side` digits of `idx`, least
/// significant first.
pub fn grid_cell(idx: usize, dim: usize, side: usize) -> (cell: Vec<usize>)
    requires
        side > 0,
    ensures
        cell.len() == dim,
        forall|d: int| 0 <= d < dim ==> #[trigger] cell[d] == grid_digit(idx as nat, side as nat, d as nat),
        forall|d: int| 0 <= d < dim ==> #[trigger] cell[d] < side,
{
    let mut cell: Vec<usize> = Vec::new();
    let mut rem: usize = idx;
    let mut d: usize = 0;
    proof {
        vstd::arithmetic::power::lemma_pow0(side as int);
    }
    while d < dim
        invariant
            side > 0,
            d <= dim,
            cell.len() == d,
            rem as int == idx as int / vstd::arithmetic::power::pow(side as int, d as nat),
            forall|e: int| 0 <= e < d ==> #[trigger] cell[e] == grid_digit(idx as nat, side as nat, e as nat),
            forall|e: int| 0 <= e < d ==> #[trigger] cell[e] < side,
        decreases dim - d,
    {
        proof {
            lemma_pow_step(side as int, d as nat);
            vstd::arithmetic::div_mod::lemma_div_denominator(
                idx as int,
                vstd::arithmetic::power::pow(side as int, d as nat),
                side as int,
            );
        }
        cell.push(rem % side);
        rem = rem / side;
        d += 1;
    }
    cell
}

/// Linear index of a grid cell, folding its coordinates in order with
/// `acc * radix + c` (Horner's scheme), starting from 0.
pub open spec fn grid_linear_spec(cells: Seq<usize>, radix: nat) -> int
    decreases cells.len(),
{
    if cells.len() == 0 {
        0
    } else {
        grid_linear_spec(cells.drop_last(), radix) * radix + cells.last()
    }
}

proof fn lemma_grid_linear_prefix(cells: Seq<usize>, radix: nat, i: int)
    requires
        0 <= i <= cells.len(),
    ensures
        grid_linear_spec(cells.take(i), radix) >= 0,
        radix >= 1 ==> grid_linear_spec(cells.take(i), radix) <= grid_linear_spec(cells, radix),
    decreases cells.len() - i,
{
    assert(cells.take(cells.len() as int) =~= cells);
    lemma_grid_linear_nonneg(cells.take(i), radix);
    if i < cells.len() {
        lemma_grid_linear_prefix(cells, radix, i + 1);
        assert(cells.take(i + 1).drop_last() =~= cells.take(i));
        let a = grid_linear_spec(cells.take(i), radix);
        if radix >= 1 {
            assert(a * radix >= a) by (nonlinear_arith)
                requires
                    a >= 0,
                    radix >= 1,
            ;
        }
    }
}

proof fn lemma_grid_linear_nonneg(cells: Seq<usize>, radix: nat)
    ensures
        grid_linear_spec(cells, radix) >= 0,
    decreases cells.len(),
{
    if cells.len() > 0 {
        lemma_grid_linear_nonneg(cells.drop_last(), radix);
        let a = grid_linear_spec(cells.drop_last(), radix);
        assert(a * radix >= 0) by (nonlinear_arith)
            requires
                a >= 0,
        ;
    }
}

/// Linear index of the grid cell `cells` with the given radix, or `None`
/// when it does not fit in `usize`.
pub fn grid_linear_index(cells: &Vec<usize>, radix: usize) -> (r: Option<usize>)
    ensures
        match r {
            Some(v) => v == grid_linear_spec(cells@, radix as nat),
            None => grid_linear_spec(cells@, radix as nat) > usize::MAX,
        },
{
    let ghost s = cells@;
    let mut acc: usize = 0;
    let mut i: usize = 0;
    while i < cells.len()
        invariant
            s == cells@,
            i <= s.len(),
            acc == grid_linear_spec(s.take(i as int), radix as nat),
        decreases s.len() - i,
    {
        assert(s.take(i + 1).drop_last() =~= s.take(i as int));
        proof {
            lemma_grid_linear_prefix(s, radix as nat, i + 1);
        }
        let prod = match acc.checked_mul(radix) {
            Some(p) => p,
            None => {
                proof {
                    let a = acc as int;
                    let b = radix as int;
                    assert(b >= 1) by (nonlinear_arith)
                        requires
                            a * b > usize::MAX,
                            b >= 0,
                    ;
                }
                return None;
            },
        };
        let next = match prod.checked_add(cells[i]) {
            Some(v) => v,
            None => {
                proof {
                    let a = acc as int;
                    let b = radix as int;
                    assert(prod as int == a * b);
                    assert(b >= 1) by (nonlinear_arith)
                        requires
                            a * b > 0,
                            b >= 0,
                    ;
                }
                return None;
            },
        };
        acc = next;
        i += 1;
    }
    assert(s.take(s.len() as int) =~= s);
    Some(acc)
}

} // verus!
