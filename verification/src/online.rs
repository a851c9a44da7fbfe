//! Online estimation of count, mean and variance.

use vstd::prelude::*;
use vstd::multiset::Multiset;

use crate::Commute;
use crate::ratio::Ratio;

verus! {

/// The bound on the magnitude of a single observation.
pub open spec fn sample_bound() -> int {
    0x8000_0000
}

/// Every element of `m` is in the range of an `i32` observation.
pub open spec fn in_sample_range(m: Multiset<int>) -> bool {
    forall|v: int| #[trigger] m.count(v) > 0 ==> -sample_bound() <= v <= sample_bound() - 1
}

/// Sums `f` over the elements of a multiset, with multiplicity.  The choice
/// of traversal order does not matter (see [`lemma_mset_total_remove`]).
pub open spec fn mset_total(m: Multiset<int>, f: spec_fn(int) -> int) -> int
    decreases m.len(),
    via mset_total_dec
{
    if m.len() == 0 {
        0
    } else {
        f(m.choose()) + mset_total(m.remove(m.choose()), f)
    }
}

#[via_fn]
proof fn mset_total_dec(m: Multiset<int>, f: spec_fn(int) -> int) {
    broadcast use vstd::multiset::group_multiset_axioms;

    if m.len() != 0 {
        let x = m.choose();
        assert(m.count(x) > 0);
        lemma_remove_shrinks(m, x);
    }
}

/// Removing one occurrence of a contained element shrinks a multiset by one.
proof fn lemma_remove_shrinks(m: Multiset<int>, x: int)
    requires
        m.count(x) > 0,
    ensures
        m.remove(x).len() == m.len() - 1,
{
    broadcast use vstd::multiset::group_multiset_axioms;

    assert(Multiset::singleton(x).subset_of(m)) by {
        assert(forall|v: int|
            #[trigger] Multiset::singleton(x).count(v) <= m.count(v));
    }
}

/// `mset_total` can be unfolded at any contained element, not only at the
/// arbitrarily chosen one: the sum does not depend on traversal order.
pub proof fn lemma_mset_total_remove(m: Multiset<int>, f: spec_fn(int) -> int, y: int)
    requires
        m.count(y) > 0,
    ensures
        mset_total(m, f) == f(y) + mset_total(m.remove(y), f),
    decreases m.len(),
{
    broadcast use vstd::multiset::group_multiset_axioms;

    lemma_remove_shrinks(m, y);
    let z = m.choose();
    assert(m.count(z) > 0);
    lemma_remove_shrinks(m, z);
    if z == y {
    } else {
        assert(m.remove(z).count(y) > 0);
        lemma_mset_total_remove(m.remove(z), f, y);
        assert(m.remove(y).count(z) > 0);
        lemma_mset_total_remove(m.remove(y), f, z);
        assert(m.remove(z).remove(y) =~= m.remove(y).remove(z));
    }
}

/// Inserting an element adds its `f`-value to the total.
pub proof fn lemma_mset_total_insert(m: Multiset<int>, f: spec_fn(int) -> int, x: int)
    ensures
        mset_total(m.insert(x), f) == mset_total(m, f) + f(x),
{
    broadcast use vstd::multiset::group_multiset_axioms;

    lemma_mset_total_remove(m.insert(x), f, x);
    assert(m.insert(x).remove(x) =~= m);
}

/// The total over a union is the sum of the totals.
pub proof fn lemma_mset_total_add(a: Multiset<int>, b: Multiset<int>, f: spec_fn(int) -> int)
    ensures
        mset_total(a.add(b), f) == mset_total(a, f) + mset_total(b, f),
    decreases b.len(),
{
    broadcast use vstd::multiset::group_multiset_axioms;

    if b.len() == 0 {
        assert(b =~= Multiset::<int>::empty());
        assert(a.add(b) =~= a);
    } else {
        let x = b.choose();
        assert(b.count(x) > 0);
        lemma_remove_shrinks(b, x);
        lemma_mset_total_remove(b, f, x);
        assert(a.add(b).count(x) > 0);
        lemma_mset_total_remove(a.add(b), f, x);
        assert(a.add(b).remove(x) =~= a.add(b.remove(x)));
        lemma_mset_total_add(a, b.remove(x), f);
    }
}

/// If `f` is bounded on the elements of `m`, the total is bounded by the
/// bounds scaled by the size of `m`.
pub proof fn lemma_mset_total_bound(m: Multiset<int>, f: spec_fn(int) -> int, lo: int, hi: int)
    requires
        lo <= 0 <= hi,
        forall|v: int| #[trigger] m.count(v) > 0 ==> lo <= f(v) <= hi,
    ensures
        lo * m.len() <= mset_total(m, f) <= hi * m.len(),
    decreases m.len(),
{
    broadcast use vstd::multiset::group_multiset_axioms;

    if m.len() == 0 {
    } else {
        let x = m.choose();
        assert(m.count(x) > 0);
        lemma_remove_shrinks(m, x);
        assert(forall|v: int| m.remove(x).count(v) > 0 ==> #[trigger] m.count(v) > 0);
        lemma_mset_total_bound(m.remove(x), f, lo, hi);
        let l: int = m.len() as int;
        let fx = f(x);
        let rest = mset_total(m.remove(x), f);
        assert(lo * l <= fx + rest <= hi * l) by (nonlinear_arith)
            requires
                lo * (l - 1) <= rest <= hi * (l - 1),
                lo <= fx <= hi,
                l >= 1,
        ;
    }
}

/// The identity function, summed by [`obs_total`].
pub open spec fn ident_fn() -> spec_fn(int) -> int {
    |v: int| v
}

/// The squaring function, summed by [`obs_sq_total`].
pub open spec fn square_fn() -> spec_fn(int) -> int {
    |v: int| v * v
}

/// The sum of the observations in `m`.
pub open spec fn obs_total(m: Multiset<int>) -> int {
    mset_total(m, ident_fn())
}

/// The sum of the squares of the observations in `m`.
pub open spec fn obs_sq_total(m: Multiset<int>) -> int {
    mset_total(m, square_fn())
}

/// Bounds on the sum and sum of squares of a multiset of `i32`-range
/// observations.
pub proof fn lemma_obs_total_bounds(m: Multiset<int>)
    requires
        in_sample_range(m),
    ensures
        -sample_bound() * m.len() <= obs_total(m) <= sample_bound() * m.len(),
        0 <= obs_sq_total(m) <= sample_bound() * sample_bound() * m.len(),
{
    assert(forall|v: int| #[trigger] ident_fn()(v) == v);
    assert(forall|v: int| #[trigger] square_fn()(v) == v * v);
    assert(forall|v: int|
        m.count(v) > 0 ==> -sample_bound() <= #[trigger] ident_fn()(v) <= sample_bound());
    assert forall|v: int| m.count(v) > 0 implies 0 <= #[trigger] square_fn()(v)
        <= sample_bound() * sample_bound() by {
        let b = sample_bound();
        assert(0 <= v * v <= b * b) by (nonlinear_arith)
            requires
                -b <= v <= b - 1,
                b > 0,
        ;
    }
    lemma_mset_total_bound(m, ident_fn(), -sample_bound(), sample_bound());
    lemma_mset_total_bound(m, square_fn(), 0, sample_bound() * sample_bound());
}

/// Maintains the observation count `n`, the sum of observations, and the sum
/// of squared observations, from which the mean and the population variance
/// are derived exactly as rationals.  Merging adds the three aggregates,
/// which reproduces exactly the single-pass result over the union of both
/// input streams; this exact formulation replaces the floating-point
/// parallel-combination formula, which it provably refines.
///
/// If the observation count would exceed its machine width the estimator
/// marks itself overflowed (`live` becomes false) instead of reporting wrong
/// aggregates; queries demand a live estimator.
pub struct OnlineStats {
    n: u64,
    sum: i128,
    sumsq: i128,
    ok: bool,
    log: Ghost<Multiset<int>>,
}

impl OnlineStats {
    /// A fresh estimator with no observations.
    pub fn new() -> (r: OnlineStats)
        ensures
            r.wf(),
            r.live(),
            r.obs() == Multiset::<int>::empty(),
    {
        proof {
            broadcast use vstd::multiset::group_multiset_axioms;
        }
        OnlineStats { n: 0, sum: 0, sumsq: 0, ok: true, log: Ghost(Multiset::empty()) }
    }

    /// Records one observation.
    pub fn add(&mut self, x: i32)
        requires
            old(self).wf(),
        ensures
            final(self).wf(),
            final(self).obs() == old(self).obs().insert(x as int),
            final(self).live() <==> old(self).live() && old(self).obs().len() < u64::MAX,
    {
        proof {
            broadcast use vstd::multiset::group_multiset_axioms;
        }
        let ghost pre = self.log@;
        self.log = Ghost(self.log@.insert(x as int));
        if self.ok {
            if self.n < u64::MAX {
                proof {
                    lemma_mset_total_insert(pre, ident_fn(), x as int);
                    lemma_mset_total_insert(pre, square_fn(), x as int);
                    assert(ident_fn()(x as int) == x as int);
                    assert(square_fn()(x as int) == (x as int) * (x as int));
                    lemma_obs_total_bounds(pre);
                    let b = sample_bound();
                    let l: int = pre.len() as int;
                    assert(0 <= l <= 0xffff_ffff_ffff_ffff);
                    assert(b * l <= b * 0xffff_ffff_ffff_ffff && b * b * l <= b * b
                        * 0xffff_ffff_ffff_ffff) by (nonlinear_arith)
                        requires
                            b > 0,
                            0 <= l <= 0xffff_ffff_ffff_ffff,
                    ;
                    assert(self.sum == obs_total(pre));
                    assert(self.sumsq == obs_sq_total(pre));
                    assert(-(b * 0xffff_ffff_ffff_ffff) <= self.sum <= b
                        * 0xffff_ffff_ffff_ffff);
                    assert(0 <= self.sumsq <= b * b * 0xffff_ffff_ffff_ffff);
                    assert(-b <= x as int <= b);
                    assert((x as int) * (x as int) <= b * b) by (nonlinear_arith)
                        requires
                            -b <= x as int <= b,
                    ;
                    assert((x as int) * (x as int) >= 0) by (nonlinear_arith);
                }
                self.n = self.n + 1;
                self.sum = self.sum + (x as i128);
                self.sumsq = self.sumsq + (x as i128) * (x as i128);
            } else {
                self.ok = false;
            }
        }
    }

    /// A live estimator always has room for an empty one: merging with the
    /// identity (or any summary of no observations) stays within capacity,
    /// so it stays live.
    pub proof fn lemma_identity_fits(&self)
        requires
            self.wf(),
            self.live(),
        ensures
            Self::fits_obs(self.obs(), Multiset::<int>::empty()),
            Self::fits_obs(Multiset::<int>::empty(), self.obs()),
    {
        broadcast use vstd::multiset::group_multiset_axioms;
    }

    /// Whether the estimator is still exact (its counters never overflowed).
    pub fn is_live(&self) -> (r: bool)
        ensures
            r == self.live(),
    {
        self.ok
    }

    /// The number of observations recorded.
    pub fn len(&self) -> (r: u64)
        requires
            self.wf(),
            self.live(),
        ensures
            r == self.obs().len(),
    {
        self.n
    }

    /// The mean of the observations as an exact rational, absent if there
    /// are none.
    pub fn mean(&self) -> (r: Option<Ratio>)
        requires
            self.wf(),
            self.live(),
        ensures
            r is None <==> self.obs().len() == 0,
            r matches Some(q) ==> q.num == obs_total(self.obs()) && q.den == self.obs().len(),
    {
        if self.n == 0 {
            None
        } else {
            Some(Ratio::new(self.sum, self.n as i128))
        }
    }

    /// Whether the variance numerator and denominator fit the machine width.
    pub open spec fn variance_fits(&self) -> bool {
        &&& self.obs().len() * obs_sq_total(self.obs()) <= i128::MAX
        &&& obs_total(self.obs()) * obs_total(self.obs()) <= i128::MAX
        &&& self.obs().len() * self.obs().len() <= i128::MAX
    }

    /// The population variance of the observations as an exact rational,
    /// absent if there are none: the mean of squared deviations from the
    /// mean, `(n * sum_of_squares - sum^2) / n^2`.
    pub fn variance(&self) -> (r: Option<Ratio>)
        requires
            self.wf(),
            self.live(),
            self.variance_fits(),
        ensures
            r is None <==> self.obs().len() == 0,
            r matches Some(q) ==> q.num == self.obs().len() * obs_sq_total(self.obs())
                - obs_total(self.obs()) * obs_total(self.obs()) && q.den == self.obs().len()
                * self.obs().len(),
    {
        if self.n == 0 {
            None
        } else {
            proof {
                lemma_obs_total_bounds(self.log@);
                let l: int = self.log@.len() as int;
                let sq: int = obs_sq_total(self.log@);
                assert(l * sq >= 0) by (nonlinear_arith)
                    requires
                        l >= 1,
                        sq >= 0,
                ;
                assert(self.sum * self.sum >= 0) by (nonlinear_arith);
                assert(l * l >= 1) by (nonlinear_arith)
                    requires
                        l >= 1,
                ;
            }
            let n = self.n as i128;
            Some(Ratio::new(n * self.sumsq - self.sum * self.sum, n * n))
        }
    }

    /// Like [`OnlineStats::variance`], but tests the machine-width bound at
    /// run time instead of demanding it: absent also when the variance
    /// numerator or denominator would not fit.
    pub fn variance_checked(&self) -> (r: Option<Ratio>)
        requires
            self.wf(),
            self.live(),
        ensures
            r is Some <==> self.obs().len() > 0 && self.variance_fits(),
            r matches Some(q) ==> q.num == self.obs().len() * obs_sq_total(self.obs())
                - obs_total(self.obs()) * obs_total(self.obs()) && q.den == self.obs().len()
                * self.obs().len(),
    {
        if self.n == 0 {
            return None;
        }
        proof {
            lemma_obs_total_bounds(self.log@);
            let l: int = self.log@.len() as int;
            let sq: int = obs_sq_total(self.log@);
            assert(l * sq >= 0) by (nonlinear_arith)
                requires
                    l >= 1,
                    sq >= 0,
            ;
            assert(self.sum * self.sum >= 0) by (nonlinear_arith);
            assert(l * l >= 1) by (nonlinear_arith)
                requires
                    l >= 1,
            ;
        }
        let n = self.n as i128;
        let num_left = match n.checked_mul(self.sumsq) {
            Some(v) => v,
            None => {
                return None;
            },
        };
        let num_right = match self.sum.checked_mul(self.sum) {
            Some(v) => v,
            None => {
                return None;
            },
        };
        let den = match n.checked_mul(n) {
            Some(v) => v,
            None => {
                return None;
            },
        };
        Some(Ratio::new(num_left - num_right, den))
    }
}

impl Commute for OnlineStats {
    closed spec fn obs(&self) -> Multiset<int> {
        self.log@
    }

    closed spec fn wf(&self) -> bool {
        &&& in_sample_range(self.log@)
        &&& self.ok ==> {
            &&& self.n == self.log@.len()
            &&& self.sum == obs_total(self.log@)
            &&& self.sumsq == obs_sq_total(self.log@)
        }
    }

    closed spec fn live(&self) -> bool {
        self.ok
    }

    open spec fn mergeable(&self, other: &Self) -> bool {
        true
    }

    open spec fn fits_obs(a: Multiset<int>, b: Multiset<int>) -> bool {
        a.len() + b.len() <= u64::MAX
    }

    proof fn lemma_fits_obs_monotone(
        a1: Multiset<int>,
        b1: Multiset<int>,
        a2: Multiset<int>,
        b2: Multiset<int>,
    ) {
        broadcast use vstd::multiset::group_multiset_axioms;

        assert(a2.sub(a1).len() == a2.len() - a1.len());
        assert(b2.sub(b1).len() == b2.len() - b1.len());
    }

    fn identity() -> (r: Self) {
        OnlineStats::new()
    }

    fn merge(&mut self, other: Self) {
        proof {
            broadcast use vstd::multiset::group_multiset_axioms;
        }
        let ghost pre = self.log@;
        self.log = Ghost(self.log@.add(other.log@));
        proof {
            assert forall|v: int| self.log@.count(v) > 0 implies -sample_bound() <= v
                <= sample_bound() - 1 by {
                assert(pre.count(v) + other.log@.count(v) > 0);
            }
        }
        if self.ok && other.ok {
            match self.n.checked_add(other.n) {
                Some(total) => {
                    proof {
                        lemma_mset_total_add(pre, other.log@, ident_fn());
                        lemma_mset_total_add(pre, other.log@, square_fn());
                        lemma_obs_total_bounds(pre);
                        lemma_obs_total_bounds(other.log@);
                        let b = sample_bound();
                        let la: int = pre.len() as int;
                        let lb: int = other.log@.len() as int;
                        assert(la + lb <= 0xffff_ffff_ffff_ffff);
                        assert(b * la + b * lb <= b * 0xffff_ffff_ffff_ffff && b * b * la + b
                            * b * lb <= b * b * 0xffff_ffff_ffff_ffff) by (nonlinear_arith)
                            requires
                                b > 0,
                                la >= 0,
                                lb >= 0,
                                la + lb <= 0xffff_ffff_ffff_ffff,
                        ;
                        assert(self.sum == obs_total(pre));
                        assert(other.sum == obs_total(other.log@));
                        assert(-(b * 0xffff_ffff_ffff_ffff) <= self.sum + other.sum <= b
                            * 0xffff_ffff_ffff_ffff);
                        assert(0 <= self.sumsq + other.sumsq <= b * b
                            * 0xffff_ffff_ffff_ffff);
                    }
                    self.n = total;
                    self.sum = self.sum + other.sum;
                    self.sumsq = self.sumsq + other.sumsq;
                },
                None => {
                    self.ok = false;
                },
            }
        } else {
            self.ok = false;
        }
    }
}

/// Merging estimators by adding their aggregates agrees with the classical
/// parallel combination of sums of squared deviations.  Writing `M2` for
/// `sumsq - sum * sum / n` (so `n * variance`), the combination rule is
/// `M2 = M2a + M2b + delta * delta * n1 * n2 / n` with
/// `delta = mean2 - mean1` and `n = n1 + n2`; cleared of denominators (by
/// `n * n1 * n2`) it is the polynomial identity below, so the exact
/// aggregate sums this estimator keeps refine the floating-point
/// parallel-combination algorithm.
#[verifier::rlimit(100)]
pub proof fn lemma_parallel_combination(n1: int, s1: int, q1: int, n2: int, s2: int, q2: int)
    requires
        n1 > 0,
        n2 > 0,
    ensures
        n1 * n2 * ((n1 + n2) * (q1 + q2) - (s1 + s2) * (s1 + s2)) == (n1 + n2) * n2 * (n1 * q1
            - s1 * s1) + (n1 + n2) * n1 * (n2 * q2 - s2 * s2) + (s2 * n1 - s1 * n2) * (s2 * n1
            - s1 * n2),
{
    let u = s2 * n1;
    let v = s1 * n2;
    assert((u - v) * (u - v) == u * u - 2 * (u * v) + v * v) by (nonlinear_arith);
    assert(u * u == (n1 * n1) * (s2 * s2)) by (nonlinear_arith)
        requires
            u == s2 * n1,
    ;
    assert(v * v == (n2 * n2) * (s1 * s1)) by (nonlinear_arith)
        requires
            v == s1 * n2,
    ;
    assert(u * v == (n1 * n2) * (s1 * s2)) by (nonlinear_arith)
        requires
            u == s2 * n1,
            v == s1 * n2,
    ;
    assert((s1 + s2) * (s1 + s2) == s1 * s1 + 2 * (s1 * s2) + s2 * s2) by (nonlinear_arith);
    assert(n1 * n2 * ((s1 + s2) * (s1 + s2)) == (n1 * n2) * (s1 * s1) + 2 * ((n1 * n2) * (s1
        * s2)) + (n1 * n2) * (s2 * s2)) by (nonlinear_arith)
        requires
            (s1 + s2) * (s1 + s2) == s1 * s1 + 2 * (s1 * s2) + s2 * s2,
    ;
    assert((n1 + n2) * n2 * (s1 * s1) == (n1 * n2) * (s1 * s1) + (n2 * n2) * (s1 * s1)) by (
    nonlinear_arith);
    assert((n1 + n2) * n1 * (s2 * s2) == (n1 * n1) * (s2 * s2) + (n1 * n2) * (s2 * s2)) by (
    nonlinear_arith);
    assert(n1 * n2 * ((n1 + n2) * (q1 + q2)) == (n1 + n2) * n2 * (n1 * q1) + (n1 + n2) * n1
        * (n2 * q2)) by (nonlinear_arith);
    assert(n1 * n2 * ((n1 + n2) * (q1 + q2) - (s1 + s2) * (s1 + s2)) == n1 * n2 * ((n1 + n2)
        * (q1 + q2)) - n1 * n2 * ((s1 + s2) * (s1 + s2))) by (nonlinear_arith);
    assert((n1 + n2) * n2 * (n1 * q1 - s1 * s1) == (n1 + n2) * n2 * (n1 * q1) - (n1 + n2)
        * n2 * (s1 * s1)) by (nonlinear_arith);
    assert((n1 + n2) * n1 * (n2 * q2 - s2 * s2) == (n1 + n2) * n1 * (n2 * q2) - (n1 + n2)
        * n1 * (s2 * s2)) by (nonlinear_arith);
}

impl Default for OnlineStats {
    /// The identity of `merge`: a fresh estimator.
    fn default() -> (r: OnlineStats)
        ensures
            r.wf(),
            r.live(),
            r.obs() == Multiset::<int>::empty(),
    {
        OnlineStats::new()
    }
}

/// The observations named by a sequence of samples.
pub open spec fn obs_of_samples(s: Seq<i32>) -> Multiset<int> {
    s.map_values(|x: i32| x as int).to_multiset()
}

/// Feeds every sample into a fresh estimator.
pub fn from_samples(xs: Vec<i32>) -> (r: OnlineStats)
    ensures
        r.wf(),
        r.live(),
        r.obs() == obs_of_samples(xs@),
{
    let mut r = OnlineStats::new();
    let n = xs.len();
    let mut i: usize = 0;
    proof {
        broadcast use vstd::seq_lib::group_to_multiset_ensures;

        assert(xs@.take(0).map_values(|x: i32| x as int) =~= Seq::<int>::empty());
        assert(Seq::<int>::empty().to_multiset() =~= Multiset::<int>::empty());
    }
    while i < n
        invariant
            i <= n,
            n == xs@.len(),
            r.wf(),
            r.live(),
            r.obs() == obs_of_samples(xs@.take(i as int)),
            r.obs().len() == i,
        decreases n - i,
    {
        r.add(xs[i]);
        proof {
            broadcast use vstd::seq_lib::group_to_multiset_ensures;
            broadcast use vstd::multiset::group_multiset_axioms;

            let pre = xs@.take(i as int).map_values(|x: i32| x as int);
            let post = xs@.take(i + 1).map_values(|x: i32| x as int);
            let v = xs@[i as int] as int;
            assert(post =~= pre.push(v));
            vstd::seq_lib::to_multiset_build::<int>(pre, v);
            assert(post.to_multiset() == pre.to_multiset().insert(v));
        }
        i = i + 1;
    }
    proof {
        assert(xs@.take(n as int) =~= xs@);
    }
    r
}

/// The mean of the given samples, absent if there are none.
pub fn mean(xs: Vec<i32>) -> (r: Option<Ratio>)
    ensures
        r is None <==> xs@.len() == 0,
        r matches Some(q) ==> q.num == obs_total(obs_of_samples(xs@)) && q.den
            == obs_of_samples(xs@).len(),
{
    let stats = from_samples(xs);
    proof {
        broadcast use vstd::seq_lib::group_to_multiset_ensures;
    }
    stats.mean()
}

/// The population variance of the given samples, absent if there are none.
pub fn variance(xs: Vec<i32>) -> (r: Option<Ratio>)
    requires
        obs_of_samples(xs@).len() * obs_sq_total(obs_of_samples(xs@)) <= i128::MAX,
        obs_total(obs_of_samples(xs@)) * obs_total(obs_of_samples(xs@)) <= i128::MAX,
        obs_of_samples(xs@).len() * obs_of_samples(xs@).len() <= i128::MAX,
    ensures
        r is None <==> xs@.len() == 0,
        r matches Some(q) ==> q.num == obs_of_samples(xs@).len() * obs_sq_total(obs_of_samples(
            xs@)) - obs_total(obs_of_samples(xs@)) * obs_total(obs_of_samples(xs@)) && q.den
            == obs_of_samples(xs@).len() * obs_of_samples(xs@).len(),
{
    let stats = from_samples(xs);
    proof {
        broadcast use vstd::seq_lib::group_to_multiset_ensures;
    }
    stats.variance()
}

} // verus!
