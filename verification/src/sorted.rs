//! An ordered multiset of observations, with rank and mode queries.

use vstd::prelude::*;
use vstd::multiset::Multiset;

use crate::Commute;

verus! {

/// A sequence that is in non-decreasing order.
pub open spec fn is_sorted(s: Seq<int>) -> bool {
    forall|i: int, j: int| 0 <= i < j < s.len() ==> s[i] <= s[j]
}

/// A sequence of machine integers seen as a sequence of mathematical ones.
pub open spec fn int_seq(s: Seq<i64>) -> Seq<int> {
    s.map_values(|x: i64| x as int)
}

/// The number of occurrences of `v` in `s`.
pub open spec fn occ(s: Seq<int>, v: int) -> nat
    decreases s.len(),
{
    if s.len() == 0 {
        0
    } else {
        occ(s.drop_last(), v) + if s.last() == v {
            1nat
        } else {
            0nat
        }
    }
}

/// `occ` agrees with the multiset multiplicity.
pub proof fn lemma_occ_is_count(s: Seq<int>, v: int)
    ensures
        occ(s, v) == s.to_multiset().count(v),
    decreases s.len(),
{
    broadcast use vstd::seq_lib::group_to_multiset_ensures;
    broadcast use vstd::multiset::group_multiset_axioms;

    if s.len() == 0 {
        assert(s.to_multiset() =~= Multiset::<int>::empty());
    } else {
        lemma_occ_is_count(s.drop_last(), v);
        assert(s =~= s.drop_last().push(s.last()));
        assert(s.drop_last().push(s.last()).to_multiset() == s.drop_last().to_multiset().insert(
            s.last()));
    }
}

/// Is `m` a most frequent value of `obs`, and the least such value?
pub open spec fn is_mode_of(m: int, obs: Multiset<int>) -> bool {
    &&& obs.count(m) > 0
    &&& forall|v: int| #[trigger] obs.count(v) <= obs.count(m)
    &&& forall|v: int| #[trigger] obs.count(v) == obs.count(m) ==> m <= v
}

/// Two sorted sequences with the same multiset of elements are equal, so the
/// state of a well-formed [`Sorted`] is determined by its observations.
pub proof fn lemma_sorted_unique(s1: Seq<int>, s2: Seq<int>)
    requires
        is_sorted(s1),
        is_sorted(s2),
        s1.to_multiset() == s2.to_multiset(),
    ensures
        s1 == s2,
    decreases s1.len(),
{
    broadcast use vstd::seq_lib::group_to_multiset_ensures;
    broadcast use vstd::multiset::group_multiset_axioms;

    if s1.len() == 0 {
        vstd::seq_lib::to_multiset_len::<int>(s1);
        vstd::seq_lib::to_multiset_len::<int>(s2);
        assert(s1.to_multiset().len() == 0);
        assert(s2.len() == 0);
        assert(s1 =~= s2);
    } else {
        vstd::seq_lib::to_multiset_len::<int>(s1);
        vstd::seq_lib::to_multiset_len::<int>(s2);
        assert(s2.to_multiset().len() == s1.to_multiset().len());
        assert(s2.len() == s1.len());
        let m = s1.to_multiset();
        assert(s1.contains(s1[0]));
        assert(s2.contains(s2[0]));
        assert(m.count(s1[0]) > 0);
        assert(m.count(s2[0]) > 0);
        assert(s1.contains(s2[0]));
        assert(s2.contains(s1[0]));
        let i1 = choose|i: int| 0 <= i < s1.len() && s1[i] == s2[0];
        let i2 = choose|i: int| 0 <= i < s2.len() && s2[i] == s1[0];
        assert(s1[0] <= s1[i1]);
        assert(s2[0] <= s2[i2]);
        assert(s1[0] == s2[0]);
        assert(s1.remove(0).to_multiset() == m.remove(s1[0]));
        assert(s2.remove(0).to_multiset() == s2.to_multiset().remove(s2[0]));
        assert(s1.remove(0) =~= s1.drop_first());
        assert(s2.remove(0) =~= s2.drop_first());
        assert(is_sorted(s1.drop_first()));
        assert(is_sorted(s2.drop_first()));
        lemma_sorted_unique(s1.drop_first(), s2.drop_first());
        assert forall|i: int| 0 <= i < s1.len() implies s1[i] == s2[i] by {
            if i > 0 {
                assert(s1[i] == s1.drop_first()[i - 1]);
                assert(s2[i] == s2.drop_first()[i - 1]);
            }
        }
        assert(s1 =~= s2);
    }
}

/// An ordered multiset: the observations, kept as a non-decreasing sequence
/// with duplicates retained.  Supports minimum, maximum, rank (k-th order
/// statistic) and mode queries; merging two multisets unions them, adding
/// multiplicities of equal values.
pub struct Sorted {
    data: Vec<i64>,
}

impl Sorted {
    /// The observations in non-decreasing order.
    pub closed spec fn view_seq(&self) -> Seq<int> {
        int_seq(self.data@)
    }

    /// A well-formed `Sorted` holds exactly its observations, in order.
    pub proof fn lemma_wf_props(&self)
        requires
            self.wf(),
        ensures
            is_sorted(self.view_seq()),
            self.view_seq().to_multiset() == self.obs(),
            forall|j: int|
                0 <= j < self.view_seq().len() ==> i64::MIN <= #[trigger] self.view_seq()[j]
                    <= i64::MAX,
    {
        assert(forall|j: int|
            0 <= j < self.view_seq().len() ==> self.view_seq()[j] == self.data@[j] as int);
    }

    /// A fresh, empty multiset.
    pub fn new() -> (r: Sorted)
        ensures
            r.wf(),
            r.obs() == Multiset::<int>::empty(),
    {
        proof {
            broadcast use vstd::seq_lib::group_to_multiset_ensures;

            assert(int_seq(Seq::<i64>::empty()) =~= Seq::<int>::empty());
            assert(Seq::<int>::empty().to_multiset() =~= Multiset::<int>::empty());
        }
        let r = Sorted { data: Vec::new() };
        proof {
            assert(r.data@ =~= Seq::<i64>::empty());
        }
        r
    }

    /// Builds a multiset from the given observations.
    pub fn from_vec(xs: Vec<i64>) -> (r: Sorted)
        ensures
            r.wf(),
            r.obs() == int_seq(xs@).to_multiset(),
    {
        let mut r = Sorted::new();
        let n = xs.len();
        let mut i: usize = 0;
        proof {
            broadcast use vstd::seq_lib::group_to_multiset_ensures;

            assert(int_seq(xs@.take(0)) =~= Seq::<int>::empty());
            assert(Seq::<int>::empty().to_multiset() =~= Multiset::<int>::empty());
        }
        while i < n
            invariant
                i <= n,
                n == xs@.len(),
                r.wf(),
                r.obs() == int_seq(xs@.take(i as int)).to_multiset(),
            decreases n - i,
        {
            r.add(xs[i]);
            proof {
                broadcast use vstd::seq_lib::group_to_multiset_ensures;

                assert(int_seq(xs@.take(i + 1)) =~= int_seq(xs@.take(i as int)).push(
                    xs@[i as int] as int));
            }
            i = i + 1;
        }
        proof {
            assert(xs@.take(n as int) =~= xs@);
        }
        r
    }

    /// The number of observations recorded.
    pub fn len(&self) -> (r: usize)
        requires
            self.wf(),
        ensures
            r == self.obs().len(),
    {
        proof {
            broadcast use vstd::seq_lib::group_to_multiset_ensures;
        }
        self.data.len()
    }

    /// Records one observation, keeping the sequence ordered.
    pub fn add(&mut self, x: i64)
        requires
            old(self).wf(),
        ensures
            final(self).wf(),
            final(self).obs() == old(self).obs().insert(x as int),
    {
        let mut idx: usize = 0;
        let n = self.data.len();
        while idx < n && self.data[idx] <= x
            invariant
                idx <= n,
                n == self.data@.len(),
                forall|j: int| 0 <= j < idx ==> int_seq(self.data@)[j] <= x as int,
            decreases n - idx,
        {
            idx = idx + 1;
        }
        let ghost pre = self.data@;
        self.data.insert(idx, x);
        proof {
            broadcast use vstd::seq_lib::group_to_multiset_ensures;

            assert(int_seq(self.data@) =~= int_seq(pre).insert(idx as int, x as int));
            assert forall|j: int| idx <= j < pre.len() implies (x as int) < int_seq(pre)[j] by {
                assert(int_seq(pre)[j] == pre[j] as int);
                assert(int_seq(pre)[idx as int] == pre[idx as int] as int);
                assert(pre[idx as int] > x);
                if j > idx {
                    assert(int_seq(pre)[idx as int] <= int_seq(pre)[j]);
                }
            }
            assert(int_seq(pre).insert(idx as int, x as int).to_multiset() == int_seq(
                pre).to_multiset().insert(x as int));
            assert(is_sorted(int_seq(pre).insert(idx as int, x as int))) by {
                let s = int_seq(pre);
                let t = s.insert(idx as int, x as int);
                assert(forall|j: int| 0 <= j < t.len() ==> t[j] == (if j < idx {
                    s[j]
                } else if j == idx {
                    x as int
                } else {
                    s[j - 1]
                }));
            }
        }
    }

    /// The least observation, absent if there are none.
    pub fn min(&self) -> (r: Option<i64>)
        requires
            self.wf(),
        ensures
            r is None <==> self.obs().len() == 0,
            r matches Some(l) ==> crate::minmax::MinMax::is_min_of(l as int, self.obs()),
    {
        proof {
            broadcast use vstd::seq_lib::group_to_multiset_ensures;

            if self.data@.len() > 0 {
                let s = self.view_seq();
                assert forall|v: int| self.obs().count(v) > 0 implies s[0] <= v by {
                    assert(s.contains(v));
                    let j = choose|j: int| 0 <= j < s.len() && s[j] == v;
                    assert(s[0] <= s[j]);
                }
                assert(self.obs().count(s[0]) > 0) by {
                    assert(s.contains(s[0]));
                }
            }
        }
        if self.data.len() == 0 {
            None
        } else {
            Some(self.data[0])
        }
    }

    /// The greatest observation, absent if there are none.
    pub fn max(&self) -> (r: Option<i64>)
        requires
            self.wf(),
        ensures
            r is None <==> self.obs().len() == 0,
            r matches Some(h) ==> crate::minmax::MinMax::is_max_of(h as int, self.obs()),
    {
        proof {
            broadcast use vstd::seq_lib::group_to_multiset_ensures;

            if self.data@.len() > 0 {
                let s = self.view_seq();
                let last: int = s.len() - 1;
                assert forall|v: int| self.obs().count(v) > 0 implies v <= s[last] by {
                    assert(s.contains(v));
                    let j = choose|j: int| 0 <= j < s.len() && s[j] == v;
                    if j < last {
                        assert(s[j] <= s[last]);
                    }
                }
                assert(self.obs().count(s[last]) > 0) by {
                    assert(s.contains(s[last]));
                }
            }
        }
        if self.data.len() == 0 {
            None
        } else {
            Some(self.data[self.data.len() - 1])
        }
    }

    /// The `k`-th order statistic: the observation at rank `k` (from zero) in
    /// sorted order, absent if fewer than `k + 1` observations were recorded.
    pub fn kth(&self, k: usize) -> (r: Option<i64>)
        requires
            self.wf(),
        ensures
            k < self.obs().len() ==> r == Some(self.view_seq()[k as int] as i64),
            k >= self.obs().len() ==> r is None,
    {
        proof {
            broadcast use vstd::seq_lib::group_to_multiset_ensures;
        }
        if k < self.data.len() {
            Some(self.data[k])
        } else {
            None
        }
    }

    /// Counts how often `x` was observed.
    pub fn count_value(&self, x: i64) -> (r: usize)
        requires
            self.wf(),
        ensures
            r == self.obs().count(x as int),
    {
        let n = self.data.len();
        let mut i: usize = 0;
        let mut c: usize = 0;
        proof {
            broadcast use vstd::seq_lib::group_to_multiset_ensures;

            assert(int_seq(self.data@).take(0) =~= Seq::<int>::empty());
        }
        while i < n
            invariant
                i <= n,
                n == self.data@.len(),
                c <= i,
                c == occ(int_seq(self.data@).take(i as int), x as int),
            decreases n - i,
        {
            proof {
                let s = int_seq(self.data@);
                assert(s.take(i + 1).drop_last() =~= s.take(i as int));
                assert(s.take(i + 1).last() == s[i as int]);
            }
            if self.data[i] == x {
                c = c + 1;
            }
            i = i + 1;
        }
        proof {
            let s = int_seq(self.data@);
            assert(s.take(n as int) =~= s);
            lemma_occ_is_count(s, x as int);
        }
        c
    }

    /// The most frequent observation; among equally frequent observations,
    /// the least (the first in sorted order).  Absent if there are none.
    pub fn mode(&self) -> (r: Option<i64>)
        requires
            self.wf(),
        ensures
            r is None <==> self.obs().len() == 0,
            r matches Some(m) ==> is_mode_of(m as int, self.obs()),
    {
        proof {
            broadcast use vstd::seq_lib::group_to_multiset_ensures;
            broadcast use vstd::multiset::group_multiset_axioms;
        }
        let n = self.data.len();
        if n == 0 {
            return None;
        }
        let ghost s = self.view_seq();
        let mut best_v: i64 = self.data[0];
        let mut best_c: usize = self.count_value(best_v);
        proof {
            assert(s.contains(s[0]));
        }
        let mut i: usize = 1;
        while i < n
            invariant
                1 <= i <= n,
                self.wf(),
                n == self.data@.len(),
                s == self.view_seq(),
                best_c == self.obs().count(best_v as int),
                self.obs().count(best_v as int) > 0,
                exists|j0: int| 0 <= j0 < i && #[trigger] s[j0] == best_v as int,
                forall|j: int| 0 <= j < i ==> self.obs().count(#[trigger] s[j]) <= best_c,
                forall|j: int|
                    0 <= j < i && self.obs().count(#[trigger] s[j]) == best_c ==> best_v as int
                        <= s[j],
            decreases n - i,
        {
            let v = self.data[i];
            let c = self.count_value(v);
            proof {
                assert(s.contains(s[i as int]));
            }
            if c > best_c {
                best_v = v;
                best_c = c;
                proof {
                    assert(s[i as int] == best_v as int);
                }
            } else {
                proof {
                    let j0 = choose|j0: int| 0 <= j0 < i && #[trigger] s[j0] == best_v as int;
                    assert(s[j0] <= s[i as int]);
                }
            }
            i = i + 1;
        }
        proof {
            broadcast use vstd::seq_lib::group_to_multiset_ensures;

            assert forall|v: int| #[trigger] self.obs().count(v) <= best_c by {
                if self.obs().count(v) > 0 {
                    assert(s.contains(v));
                    let j = choose|j: int| 0 <= j < s.len() && s[j] == v;
                    assert(self.obs().count(s[j]) <= best_c);
                }
            }
            assert forall|v: int| self.obs().count(v) == self.obs().count(best_v as int)
                implies best_v as int <= v by {
                assert(s.contains(v));
                let j = choose|j: int| 0 <= j < s.len() && s[j] == v;
                assert(self.obs().count(s[j]) == best_c);
            }
        }
        Some(best_v)
    }
}

impl Commute for Sorted {
    closed spec fn obs(&self) -> Multiset<int> {
        int_seq(self.data@).to_multiset()
    }

    closed spec fn wf(&self) -> bool {
        is_sorted(int_seq(self.data@))
    }

    open spec fn live(&self) -> bool {
        true
    }

    open spec fn mergeable(&self, other: &Self) -> bool {
        true
    }

    open spec fn fits_obs(a: Multiset<int>, b: Multiset<int>) -> bool {
        true
    }

    proof fn lemma_fits_obs_monotone(
        a1: Multiset<int>,
        b1: Multiset<int>,
        a2: Multiset<int>,
        b2: Multiset<int>,
    ) {
    }

    fn identity() -> (r: Self) {
        Sorted::new()
    }

    fn merge(&mut self, other: Self) {
        proof {
            broadcast use vstd::seq_lib::group_to_multiset_ensures;
            broadcast use vstd::multiset::group_multiset_axioms;
        }
        let ghost start = *self;
        let n = other.data.len();
        let mut i: usize = 0;
        proof {
            assert(int_seq(other.data@.take(0)) =~= Seq::<int>::empty());
            assert(Seq::<int>::empty().to_multiset() =~= Multiset::<int>::empty());
            assert(start.obs().add(Multiset::<int>::empty()) =~= start.obs());
        }
        while i < n
            invariant
                i <= n,
                n == other.data@.len(),
                self.wf(),
                self.obs() == start.obs().add(int_seq(other.data@.take(i as int)).to_multiset()),
            decreases n - i,
        {
            self.add(other.data[i]);
            proof {
                let pre = int_seq(other.data@.take(i as int));
                let post = int_seq(other.data@.take(i + 1));
                let v = other.data@[i as int] as int;
                assert(post =~= pre.push(v));
                vstd::seq_lib::to_multiset_build::<int>(pre, v);
                assert(pre.push(v).to_multiset() == pre.to_multiset().insert(v));
                assert(post.to_multiset() == pre.to_multiset().insert(v));
                assert(start.obs().add(pre.to_multiset()).insert(v) =~= start.obs().add(
                    pre.to_multiset().insert(v)));
            }
            i = i + 1;
        }
        proof {
            assert(other.data@.take(n as int) =~= other.data@);
        }
    }
}

impl Default for Sorted {
    /// The identity of `merge`: a fresh, empty instance.
    fn default() -> (r: Sorted)
        ensures
            r.wf(),
            r.live(),
            r.obs() == Multiset::<int>::empty(),
    {
        Sorted::new()
    }
}

} // verus!
