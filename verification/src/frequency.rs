//! Frequency counts of observed values.

use vstd::prelude::*;
use vstd::multiset::Multiset;

use crate::sorted::int_seq;
use crate::Commute;

verus! {

/// The entries' keys are strictly increasing, so each key occurs once.
pub open spec fn keys_sorted(s: Seq<(i64, u64)>) -> bool {
    forall|i: int, j: int| 0 <= i < j < s.len() ==> (#[trigger] s[i]).0 < (#[trigger] s[j]).0
}

/// The multiset holding `c` copies of `k`.
pub open spec fn rep(k: int, c: nat) -> Multiset<int>
    decreases c,
{
    if c == 0 {
        Multiset::<int>::empty()
    } else {
        rep(k, (c - 1) as nat).insert(k)
    }
}

/// `rep(k, c)` holds `k` with multiplicity `c` and nothing else.
pub proof fn lemma_rep_count(k: int, c: nat)
    ensures
        forall|v: int| #[trigger] rep(k, c).count(v) == if v == k {
            c as int
        } else {
            0
        },
        rep(k, c).len() == c,
    decreases c,
{
    broadcast use vstd::multiset::group_multiset_axioms;

    if c > 0 {
        lemma_rep_count(k, (c - 1) as nat);
    }
}

/// The observations described by a table of (value, count) entries.
pub open spec fn pairs_obs(s: Seq<(i64, u64)>) -> Multiset<int>
    decreases s.len(),
{
    if s.len() == 0 {
        Multiset::<int>::empty()
    } else {
        rep(s[0].0 as int, s[0].1 as nat).add(pairs_obs(s.drop_first()))
    }
}

/// A value that is no entry's key has count zero.
pub proof fn lemma_pairs_obs_absent(s: Seq<(i64, u64)>, v: int)
    requires
        forall|j: int| 0 <= j < s.len() ==> (#[trigger] s[j]).0 as int != v,
    ensures
        pairs_obs(s).count(v) == 0,
    decreases s.len(),
{
    broadcast use vstd::multiset::group_multiset_axioms;

    if s.len() > 0 {
        lemma_rep_count(s[0].0 as int, s[0].1 as nat);
        assert(forall|j: int|
            0 <= j < s.drop_first().len() ==> (#[trigger] s.drop_first()[j]).0 as int != v);
        lemma_pairs_obs_absent(s.drop_first(), v);
    }
}

/// With strictly increasing keys, an entry's count is its key's multiplicity.
pub proof fn lemma_pairs_obs_found(s: Seq<(i64, u64)>, i: int)
    requires
        keys_sorted(s),
        0 <= i < s.len(),
    ensures
        pairs_obs(s).count(s[i].0 as int) == s[i].1,
    decreases s.len(),
{
    broadcast use vstd::multiset::group_multiset_axioms;

    lemma_rep_count(s[0].0 as int, s[0].1 as nat);
    if i == 0 {
        assert(forall|j: int|
            0 <= j < s.drop_first().len() ==> (#[trigger] s.drop_first()[j]).0 as int != s[
                0].0 as int);
        lemma_pairs_obs_absent(s.drop_first(), s[0].0 as int);
    } else {
        assert(keys_sorted(s.drop_first()));
        assert(s.drop_first()[i - 1] == s[i]);
        lemma_pairs_obs_found(s.drop_first(), i - 1);
        assert(s[0].0 < s[i].0);
    }
}

/// Inserting an entry adds its key with its multiplicity.
pub proof fn lemma_pairs_obs_insert(s: Seq<(i64, u64)>, i: int, p: (i64, u64))
    requires
        0 <= i <= s.len(),
    ensures
        pairs_obs(s.insert(i, p)) == pairs_obs(s).add(rep(p.0 as int, p.1 as nat)),
    decreases s.len(),
{
    broadcast use vstd::multiset::group_multiset_axioms;

    let t = s.insert(i, p);
    let rp = rep(p.0 as int, p.1 as nat);
    if i == 0 {
        assert(t[0] == p);
        assert(t.drop_first() =~= s);
        assert(pairs_obs(t) == rp.add(pairs_obs(s)));
        assert(rp.add(pairs_obs(s)) =~= pairs_obs(s).add(rp));
    } else {
        let r0 = rep(s[0].0 as int, s[0].1 as nat);
        assert(t[0] == s[0]);
        assert(t.drop_first() =~= s.drop_first().insert(i - 1, p));
        lemma_pairs_obs_insert(s.drop_first(), i - 1, p);
        assert(pairs_obs(t) == r0.add(pairs_obs(s.drop_first()).add(rp)));
        assert(r0.add(pairs_obs(s.drop_first()).add(rp)) =~= r0.add(pairs_obs(
            s.drop_first())).add(rp));
    }
}

/// Raising one entry's count by `d` adds `d` more copies of its key.
pub proof fn lemma_pairs_obs_bump(s: Seq<(i64, u64)>, i: int, d: u64)
    requires
        0 <= i < s.len(),
        s[i].1 + d <= u64::MAX,
    ensures
        pairs_obs(s.update(i, (s[i].0, (s[i].1 + d) as u64))) == pairs_obs(s).add(rep(
            s[i].0 as int, d as nat)),
    decreases s.len(),
{
    broadcast use vstd::multiset::group_multiset_axioms;

    let k = s[i].0 as int;
    let c = s[i].1 as nat;
    let t = s.update(i, (s[i].0, (s[i].1 + d) as u64));
    lemma_rep_count(k, c);
    lemma_rep_count(k, d as nat);
    lemma_rep_count(k, (c + d) as nat);
    assert(rep(k, (c + d) as nat) =~= rep(k, c).add(rep(k, d as nat)));
    if i == 0 {
        assert(t[0] == (s[0].0, (s[0].1 + d) as u64));
        assert(t.drop_first() =~= s.drop_first());
        assert(pairs_obs(t) == rep(k, (c + d) as nat).add(pairs_obs(s.drop_first())));
        assert(rep(k, c).add(rep(k, d as nat)).add(pairs_obs(s.drop_first())) =~= rep(k,
            c).add(pairs_obs(s.drop_first())).add(rep(k, d as nat)));
    } else {
        let r0 = rep(s[0].0 as int, s[0].1 as nat);
        assert(t[0] == s[0]);
        assert(t.drop_first() =~= s.drop_first().update(i - 1, (s[i].0, (s[i].1 + d) as u64)));
        assert(s.drop_first()[i - 1] == s[i]);
        lemma_pairs_obs_bump(s.drop_first(), i - 1, d);
        assert(pairs_obs(t) == r0.add(pairs_obs(s.drop_first()).add(rep(k, d as nat))));
        assert(r0.add(pairs_obs(s.drop_first()).add(rep(k, d as nat))) =~= r0.add(pairs_obs(
            s.drop_first())).add(rep(k, d as nat)));
    }
}

/// Counts how often each value was observed: a table from value to count,
/// with absent values counting zero.  Merging two counters adds the counts
/// pointwise, so no existing count ever decreases.
///
/// If a count would exceed its machine width the counter marks itself
/// overflowed (`live` becomes false) instead of reporting wrong counts;
/// queries demand a live counter.
pub struct Frequencies {
    entries: Vec<(i64, u64)>,
    total: u64,
    ok: bool,
    log: Ghost<Multiset<int>>,
}

impl Frequencies {
    /// A fresh counter with no observations.
    pub fn new() -> (r: Frequencies)
        ensures
            r.wf(),
            r.live(),
            r.obs() == Multiset::<int>::empty(),
    {
        proof {
            broadcast use vstd::multiset::group_multiset_axioms;
        }
        let r = Frequencies { entries: Vec::new(), total: 0, ok: true, log: Ghost(
            Multiset::empty()) };
        proof {
            assert(r.entries@ =~= Seq::<(i64, u64)>::empty());
        }
        r
    }

    /// Builds a counter from the given observations.
    pub fn from_vec(xs: Vec<i64>) -> (r: Frequencies)
        ensures
            r.wf(),
            r.live(),
            r.obs() == int_seq(xs@).to_multiset(),
    {
        let mut r = Frequencies::new();
        let n = xs.len();
        let mut i: usize = 0;
        proof {
            broadcast use vstd::seq_lib::group_to_multiset_ensures;
            broadcast use vstd::multiset::group_multiset_axioms;

            assert(int_seq(xs@.take(0)) =~= Seq::<int>::empty());
            assert(Seq::<int>::empty().to_multiset() =~= Multiset::<int>::empty());
        }
        while i < n
            invariant
                i <= n,
                n == xs@.len(),
                r.wf(),
                r.live(),
                r.obs() == int_seq(xs@.take(i as int)).to_multiset(),
                r.obs().len() == i,
            decreases n - i,
        {
            r.add(xs[i]);
            proof {
                broadcast use vstd::multiset::group_multiset_axioms;

                let pre = int_seq(xs@.take(i as int));
                let v = xs@[i as int] as int;
                assert(int_seq(xs@.take(i + 1)) =~= pre.push(v));
                vstd::seq_lib::to_multiset_build::<int>(pre, v);
            }
            i = i + 1;
        }
        proof {
            assert(xs@.take(n as int) =~= xs@);
        }
        r
    }

    /// Records `c` further occurrences of the value `k`.
    pub fn add_count(&mut self, k: i64, c: u64)
        requires
            old(self).wf(),
            c >= 1,
        ensures
            final(self).wf(),
            final(self).obs() == old(self).obs().add(rep(k as int, c as nat)),
            final(self).live() <==> old(self).live() && old(self).obs().len() + c <= u64::MAX,
    {
        proof {
            broadcast use vstd::multiset::group_multiset_axioms;

            lemma_rep_count(k as int, c as nat);
        }
        self.log = Ghost(self.log@.add(rep(k as int, c as nat)));
        if !self.ok {
            return ;
        }
        match self.total.checked_add(c) {
            None => {
                self.ok = false;
            },
            Some(t) => {
                let ghost pre = self.entries@;
                let n = self.entries.len();
                let mut idx: usize = 0;
                while idx < n && self.entries[idx].0 < k
                    invariant
                        idx <= n,
                        n == self.entries@.len(),
                        forall|j: int| 0 <= j < idx ==> (#[trigger] self.entries@[j]).0 < k,
                    decreases n - idx,
                {
                    idx = idx + 1;
                }
                if idx < n && self.entries[idx].0 == k {
                    proof {
                        lemma_pairs_obs_found(pre, idx as int);
                        assert(pre[idx as int].1 == self.log@.count(k as int) - c);
                        assert(self.log@.count(k as int) <= self.log@.len());
                    }
                    let p = self.entries.remove(idx);
                    self.entries.insert(idx, (k, p.1 + c));
                    proof {
                        assert(self.entries@ =~= pre.update(idx as int, (pre[idx as int].0, (
                        pre[idx as int].1 + c) as u64)));
                        lemma_pairs_obs_bump(pre, idx as int, c);
                        assert(keys_sorted(self.entries@)) by {
                            assert(forall|j: int|
                                0 <= j < pre.len() ==> (#[trigger] self.entries@[j]).0 == pre[
                                j].0);
                        }
                        assert(forall|j: int|
                            0 <= j < self.entries@.len() ==> (#[trigger] self.entries@[j]).1
                                >= 1);
                    }
                } else {
                    proof {
                        assert(forall|j: int|
                            idx <= j < pre.len() ==> k < (#[trigger] pre[j]).0);
                    }
                    self.entries.insert(idx, (k, c));
                    proof {
                        lemma_pairs_obs_insert(pre, idx as int, (k, c));
                        let t2 = pre.insert(idx as int, (k, c));
                        assert(keys_sorted(t2)) by {
                            assert(forall|j: int| 0 <= j < t2.len() ==> t2[j] == (if j < idx {
                                pre[j]
                            } else if j == idx {
                                (k, c)
                            } else {
                                pre[j - 1]
                            }));
                        }
                        assert(forall|j: int|
                            0 <= j < self.entries@.len() ==> (#[trigger] self.entries@[j]).1
                                >= 1);
                    }
                }
                self.total = t;
            },
        }
    }

    /// Records one observation of the value `k`.
    pub fn add(&mut self, k: i64)
        requires
            old(self).wf(),
        ensures
            final(self).wf(),
            final(self).obs() == old(self).obs().insert(k as int),
            final(self).live() <==> old(self).live() && old(self).obs().len() + 1 <= u64::MAX,
    {
        proof {
            broadcast use vstd::multiset::group_multiset_axioms;

            lemma_rep_count(k as int, 1);
            assert(rep(k as int, 1) =~= Multiset::<int>::empty().insert(k as int));
            assert(old(self).obs().add(rep(k as int, 1)) =~= old(self).obs().insert(k as int));
        }
        self.add_count(k, 1);
    }

    /// A live counter always has room for an empty one: merging with the
    /// identity (or any summary of no observations) stays within capacity,
    /// so it stays live.
    pub proof fn lemma_identity_fits(&self)
        requires
            self.wf(),
            self.live(),
        ensures
            Self::fits_obs(self.obs(), Multiset::<int>::empty()),
            Self::fits_obs(Multiset::<int>::empty(), self.obs()),
    {
        broadcast use vstd::multiset::group_multiset_axioms;
    }

    /// Whether the counter is still exact (no count overflowed).
    pub fn is_live(&self) -> (r: bool)
        ensures
            r == self.live(),
    {
        self.ok
    }

    /// How often `v` was observed; zero if it never was.
    pub fn count(&self, v: i64) -> (r: u64)
        requires
            self.wf(),
            self.live(),
        ensures
            r == self.obs().count(v as int),
    {
        let n = self.entries.len();
        let mut i: usize = 0;
        while i < n
            invariant
                i <= n,
                self.wf(),
                self.live(),
                n == self.entries@.len(),
                forall|j: int| 0 <= j < i ==> (#[trigger] self.entries@[j]).0 != v,
            decreases n - i,
        {
            let e = self.entries[i];
            if e.0 == v {
                proof {
                    lemma_pairs_obs_found(self.entries@, i as int);
                }
                return e.1;
            }
            i = i + 1;
        }
        proof {
            assert(forall|j: int|
                0 <= j < self.entries@.len() ==> (#[trigger] self.entries@[j]).0 as int
                    != v as int);
            lemma_pairs_obs_absent(self.entries@, v as int);
        }
        0
    }

    /// The total number of observations recorded.
    pub fn total(&self) -> (r: u64)
        requires
            self.wf(),
            self.live(),
        ensures
            r == self.obs().len(),
    {
        self.total
    }

    /// The distinct values observed, in increasing order.
    pub fn distinct(&self) -> (r: Vec<i64>)
        requires
            self.wf(),
            self.live(),
        ensures
            forall|i: int, j: int| 0 <= i < j < r@.len() ==> r@[i] < r@[j],
            forall|v: int| self.obs().count(v) > 0 <==> crate::sorted::int_seq(r@).contains(v),
    {
        let n = self.entries.len();
        let mut r: Vec<i64> = Vec::new();
        let mut i: usize = 0;
        while i < n
            invariant
                i <= n,
                self.wf(),
                self.live(),
                n == self.entries@.len(),
                r@.len() == i,
                forall|j: int| 0 <= j < i ==> r@[j] == (#[trigger] self.entries@[j]).0,
            decreases n - i,
        {
            r.push(self.entries[i].0);
            i = i + 1;
        }
        proof {
            broadcast use vstd::multiset::group_multiset_axioms;

            let s = crate::sorted::int_seq(r@);
            assert forall|v: int| self.obs().count(v) > 0 implies s.contains(v) by {
                if forall|j: int|
                    0 <= j < self.entries@.len() ==> (#[trigger] self.entries@[j]).0 as int
                        != v {
                    lemma_pairs_obs_absent(self.entries@, v);
                } else {
                    let j = choose|j: int|
                        0 <= j < self.entries@.len() && (#[trigger] self.entries@[j]).0 as int
                            == v;
                    assert(s[j] == v);
                }
            }
            assert forall|v: int| s.contains(v) implies self.obs().count(v) > 0 by {
                let j = choose|j: int| 0 <= j < s.len() && s[j] == v;
                lemma_pairs_obs_found(self.entries@, j);
                assert(self.entries@[j].1 >= 1);
            }
            assert forall|i: int, j: int| 0 <= i < j < r@.len() implies r@[i] < r@[j] by {
                assert(self.entries@[i].0 < self.entries@[j].0);
            }
        }
        r
    }
}

impl Commute for Frequencies {
    closed spec fn obs(&self) -> Multiset<int> {
        self.log@
    }

    closed spec fn wf(&self) -> bool {
        self.ok ==> {
            &&& keys_sorted(self.entries@)
            &&& forall|i: int|
                0 <= i < self.entries@.len() ==> (#[trigger] self.entries@[i]).1 >= 1
            &&& pairs_obs(self.entries@) == self.log@
            &&& self.total == self.log@.len()
        }
    }

    closed spec fn live(&self) -> bool {
        self.ok
    }

    open spec fn mergeable(&self, other: &Self) -> bool {
        true
    }

    open spec fn fits_obs(a: Multiset<int>, b: Multiset<int>) -> bool {
        a.len() + b.len() <= u64::MAX
    }

    proof fn lemma_fits_obs_monotone(
        a1: Multiset<int>,
        b1: Multiset<int>,
        a2: Multiset<int>,
        b2: Multiset<int>,
    ) {
        broadcast use vstd::multiset::group_multiset_axioms;

        assert(a2.sub(a1).len() == a2.len() - a1.len());
        assert(b2.sub(b1).len() == b2.len() - b1.len());
    }

    fn identity() -> (r: Self) {
        Frequencies::new()
    }

    fn merge(&mut self, other: Self) {
        proof {
            broadcast use vstd::multiset::group_multiset_axioms;
        }
        if !other.ok {
            self.log = Ghost(self.log@.add(other.log@));
            self.ok = false;
            return ;
        }
        let ghost pre = *self;
        let ghost oseq = other.entries@;
        let n = other.entries.len();
        let mut i: usize = 0;
        proof {
            assert(oseq.take(0) =~= Seq::<(i64, u64)>::empty());
            assert(pre.log@.add(pairs_obs(oseq.take(0))) =~= pre.log@);
        }
        while i < n
            invariant
                i <= n,
                n == oseq.len(),
                other.wf(),
                other.ok,
                oseq == other.entries@,
                self.wf(),
                self.obs() == pre.log@.add(pairs_obs(oseq.take(i as int))),
                self.live() <==> pre.live() && pre.log@.len() + pairs_obs(oseq.take(
                    i as int)).len() <= u64::MAX,
            decreases n - i,
        {
            let e = other.entries[i];
            proof {
                assert(e.1 >= 1);
            }
            let ghost before = self.log@;
            self.add_count(e.0, e.1);
            proof {
                broadcast use vstd::multiset::group_multiset_axioms;

                lemma_rep_count(e.0 as int, e.1 as nat);
                assert(oseq.take(i + 1) =~= oseq.take(i as int).push(oseq[i as int]));
                lemma_pairs_obs_snoc(oseq.take(i as int), oseq[i as int]);
                assert(pairs_obs(oseq.take(i + 1)) == pairs_obs(oseq.take(i as int)).add(rep(
                    e.0 as int, e.1 as nat)));
                assert(pairs_obs(oseq.take(i + 1)).len() == pairs_obs(oseq.take(
                    i as int)).len() + e.1);
                assert(pre.log@.add(pairs_obs(oseq.take(i as int))).add(rep(e.0 as int,
                    e.1 as nat)) =~= pre.log@.add(pairs_obs(oseq.take(i + 1))));
            }
            i = i + 1;
        }
        proof {
            assert(oseq.take(n as int) =~= oseq);
            assert(pairs_obs(oseq) == other.log@);
        }
    }
}

/// Appending an entry on the right adds its key with its multiplicity.
pub proof fn lemma_pairs_obs_snoc(s: Seq<(i64, u64)>, p: (i64, u64))
    ensures
        pairs_obs(s.push(p)) == pairs_obs(s).add(rep(p.0 as int, p.1 as nat)),
{
    broadcast use vstd::multiset::group_multiset_axioms;

    assert(s.push(p) =~= s.insert(s.len() as int, p));
    lemma_pairs_obs_insert(s, s.len() as int, p);
}

impl Default for Frequencies {
    /// The identity of `merge`: a fresh, empty instance.
    fn default() -> (r: Frequencies)
        ensures
            r.wf(),
            r.live(),
            r.obs() == Multiset::<int>::empty(),
    {
        Frequencies::new()
    }
}

} // verus!
