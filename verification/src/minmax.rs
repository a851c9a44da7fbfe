//! Running minimum and maximum of a stream of observations.

use vstd::prelude::*;
use vstd::multiset::Multiset;

use crate::sorted::int_seq;
use crate::Commute;

verus! {

/// Tracks the least and greatest observation seen so far.  Both bounds are
/// absent exactly when no observation has been recorded.  Merging two
/// trackers yields the global minimum and maximum across both input streams.
pub struct MinMax {
    lo: Option<i64>,
    hi: Option<i64>,
    log: Ghost<Multiset<int>>,
}

impl MinMax {
    /// Is `l` the least element of `m`?
    pub open spec fn is_min_of(l: int, m: Multiset<int>) -> bool {
        m.count(l) > 0 && forall|v: int| #[trigger] m.count(v) > 0 ==> l <= v
    }

    /// Is `h` the greatest element of `m`?
    pub open spec fn is_max_of(h: int, m: Multiset<int>) -> bool {
        m.count(h) > 0 && forall|v: int| #[trigger] m.count(v) > 0 ==> v <= h
    }

    /// A fresh tracker with no observations.
    pub fn new() -> (r: MinMax)
        ensures
            r.wf(),
            r.obs() == Multiset::<int>::empty(),
    {
        MinMax { lo: None, hi: None, log: Ghost(Multiset::empty()) }
    }

    /// Builds a tracker from the given observations.
    pub fn from_vec(xs: Vec<i64>) -> (r: MinMax)
        ensures
            r.wf(),
            r.obs() == int_seq(xs@).to_multiset(),
    {
        let mut r = MinMax::new();
        let n = xs.len();
        let mut i: usize = 0;
        proof {
            broadcast use vstd::seq_lib::group_to_multiset_ensures;

            assert(int_seq(xs@.take(0)) =~= Seq::<int>::empty());
            assert(Seq::<int>::empty().to_multiset() =~= Multiset::<int>::empty());
        }
        while i < n
            invariant
                i <= n,
                n == xs@.len(),
                r.wf(),
                r.obs() == int_seq(xs@.take(i as int)).to_multiset(),
            decreases n - i,
        {
            r.add(xs[i]);
            proof {
                let pre = int_seq(xs@.take(i as int));
                let v = xs@[i as int] as int;
                assert(int_seq(xs@.take(i + 1)) =~= pre.push(v));
                vstd::seq_lib::to_multiset_build::<int>(pre, v);
            }
            i = i + 1;
        }
        proof {
            assert(xs@.take(n as int) =~= xs@);
        }
        r
    }

    /// Records one observation, replacing either bound as needed.
    pub fn add(&mut self, x: i64)
        requires
            old(self).wf(),
        ensures
            final(self).wf(),
            final(self).obs() == old(self).obs().insert(x as int),
    {
        proof {
            broadcast use vstd::multiset::group_multiset_axioms;

        }
        self.log = Ghost(self.log@.insert(x as int));
        let new_lo = match self.lo {
            None => x,
            Some(l) => if x < l {
                x
            } else {
                l
            },
        };
        let new_hi = match self.hi {
            None => x,
            Some(h) => if x > h {
                x
            } else {
                h
            },
        };
        self.lo = Some(new_lo);
        self.hi = Some(new_hi);
    }

    /// The least observation, absent if none has been recorded.
    pub fn min(&self) -> (r: Option<i64>)
        requires
            self.wf(),
        ensures
            r is None <==> self.obs().len() == 0,
            r matches Some(l) ==> Self::is_min_of(l as int, self.obs()),
    {
        self.lo
    }

    /// The greatest observation, absent if none has been recorded.
    pub fn max(&self) -> (r: Option<i64>)
        requires
            self.wf(),
        ensures
            r is None <==> self.obs().len() == 0,
            r matches Some(h) ==> Self::is_max_of(h as int, self.obs()),
    {
        self.hi
    }
}

impl Commute for MinMax {
    closed spec fn obs(&self) -> Multiset<int> {
        self.log@
    }

    closed spec fn wf(&self) -> bool {
        &&& (self.lo is None <==> self.log@.len() == 0)
        &&& (self.hi is None <==> self.log@.len() == 0)
        &&& (self.lo matches Some(l) ==> Self::is_min_of(l as int, self.log@))
        &&& (self.hi matches Some(h) ==> Self::is_max_of(h as int, self.log@))
    }

    open spec fn live(&self) -> bool {
        true
    }

    open spec fn mergeable(&self, other: &Self) -> bool {
        true
    }

    open spec fn fits_obs(a: Multiset<int>, b: Multiset<int>) -> bool {
        true
    }

    proof fn lemma_fits_obs_monotone(a1: Multiset<int>, b1: Multiset<int>, a2: Multiset<int>, b2: Multiset<int>) {
    }

    fn identity() -> (r: Self) {
        MinMax::new()
    }

    fn merge(&mut self, other: Self) {
        proof {
            broadcast use vstd::multiset::group_multiset_axioms;

        }
        self.log = Ghost(self.log@.add(other.log@));
        let new_lo = match (self.lo, other.lo) {
            (None, b) => b,
            (a, None) => a,
            (Some(a), Some(b)) => if a <= b {
                Some(a)
            } else {
                Some(b)
            },
        };
        let new_hi = match (self.hi, other.hi) {
            (None, b) => b,
            (a, None) => a,
            (Some(a), Some(b)) => if a >= b {
                Some(a)
            } else {
                Some(b)
            },
        };
        self.lo = new_lo;
        self.hi = new_hi;
    }
}

impl Default for MinMax {
    /// The identity of `merge`: a fresh tracker.
    fn default() -> (r: MinMax)
        ensures
            r.wf(),
            r.live(),
            r.obs() == Multiset::<int>::empty(),
    {
        MinMax::new()
    }
}

/// The minimum of a multiset of observations is unique: any two values that
/// are both least elements are equal (and likewise for greatest elements),
/// so two well-formed trackers over the same observations report the same
/// bounds.
pub proof fn lemma_bounds_unique(m: Multiset<int>, a: int, b: int)
    requires
        MinMax::is_min_of(a, m) && MinMax::is_min_of(b, m) || MinMax::is_max_of(a, m)
            && MinMax::is_max_of(b, m),
    ensures
        a == b,
{
}

} // verus!
