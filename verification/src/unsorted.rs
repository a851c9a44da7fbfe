//! An append-only sample of raw observations, with lazy median and mode.

use vstd::prelude::*;
use vstd::multiset::Multiset;

use crate::Commute;
use crate::ratio::Ratio;
use crate::sorted::{int_seq, is_sorted, is_mode_of, Sorted};

verus! {

/// Is `s` the observations of `m` arranged in non-decreasing order?
pub open spec fn is_sorted_of(s: Seq<int>, m: Multiset<int>) -> bool {
    is_sorted(s) && s.to_multiset() == m
}

/// A sample: raw observations kept in arrival order (cheap appends).  Median
/// and mode queries sort a copy of the observations on demand, so they are
/// pure reads; merging concatenates the two samples, which unions their
/// observations.
pub struct Unsorted {
    data: Vec<i64>,
}

impl Unsorted {
    /// A fresh, empty sample.
    pub fn new() -> (r: Unsorted)
        ensures
            r.wf(),
            r.obs() == Multiset::<int>::empty(),
    {
        proof {
            broadcast use vstd::seq_lib::group_to_multiset_ensures;

            assert(int_seq(Seq::<i64>::empty()) =~= Seq::<int>::empty());
            assert(Seq::<int>::empty().to_multiset() =~= Multiset::<int>::empty());
        }
        let r = Unsorted { data: Vec::new() };
        proof {
            assert(r.data@ =~= Seq::<i64>::empty());
        }
        r
    }

    /// Builds a sample from the given observations.
    pub fn from_vec(xs: Vec<i64>) -> (r: Unsorted)
        ensures
            r.wf(),
            r.obs() == int_seq(xs@).to_multiset(),
    {
        Unsorted { data: xs }
    }

    /// Records one observation.
    pub fn add(&mut self, x: i64)
        requires
            old(self).wf(),
        ensures
            final(self).wf(),
            final(self).obs() == old(self).obs().insert(x as int),
    {
        proof {
            broadcast use vstd::seq_lib::group_to_multiset_ensures;

            assert(int_seq(old(self).data@.push(x)) =~= int_seq(old(self).data@).push(
                x as int));
        }
        self.data.push(x);
    }

    /// The number of observations recorded.
    pub fn len(&self) -> (r: usize)
        requires
            self.wf(),
        ensures
            r == self.obs().len(),
    {
        proof {
            broadcast use vstd::seq_lib::group_to_multiset_ensures;
        }
        self.data.len()
    }

    /// Sorts a copy of the observations.
    fn materialize(&self) -> (r: Sorted)
        requires
            self.wf(),
        ensures
            r.wf(),
            r.obs() == self.obs(),
    {
        let n = self.data.len();
        let mut copy: Vec<i64> = Vec::new();
        let mut i: usize = 0;
        while i < n
            invariant
                i <= n,
                n == self.data@.len(),
                copy@ == self.data@.take(i as int),
            decreases n - i,
        {
            copy.push(self.data[i]);
            proof {
                assert(self.data@.take(i + 1) =~= self.data@.take(i as int).push(
                    self.data@[i as int]));
            }
            i = i + 1;
        }
        proof {
            assert(self.data@.take(n as int) =~= self.data@);
        }
        Sorted::from_vec(copy)
    }

    /// The median of the observations as an exact rational, absent if there
    /// are none: the middle observation in sorted order when their number is
    /// odd, and the midpoint of the two central observations when it is even.
    pub fn median(&self) -> (r: Option<Ratio>)
        requires
            self.wf(),
        ensures
            r is None <==> self.obs().len() == 0,
            forall|s: Seq<int>|
                #[trigger] is_sorted_of(s, self.obs()) && s.len() > 0 ==> r == Some(
                    (Ratio {
                        num: (s[(s.len() - 1) as int / 2] + s[s.len() as int / 2]) as i128,
                        den: 2,
                    }),
                ),
    {
        proof {
            broadcast use vstd::seq_lib::group_to_multiset_ensures;
        }
        let sorted = self.materialize();
        let n = sorted.len();
        if n == 0 {
            proof {
                assert forall|s: Seq<int>|
                    #[trigger] is_sorted_of(s, self.obs()) && s.len() > 0 implies false by {
                    vstd::seq_lib::to_multiset_len::<int>(s);
                }
            }
            None
        } else {
            let a = match sorted.kth((n - 1) / 2) {
                Some(v) => v,
                None => 0,
            };
            let b = match sorted.kth(n / 2) {
                Some(v) => v,
                None => 0,
            };
            let result = Ratio::new((a as i128) + (b as i128), 2);
            proof {
                sorted.lemma_wf_props();
                let sv = sorted.view_seq();
                vstd::seq_lib::to_multiset_len::<int>(sv);
                assert(n == sv.len());
                assert(sv[((n - 1) / 2) as int] == a as int);
                assert(sv[(n / 2) as int] == b as int);
                assert forall|s: Seq<int>| #[trigger] is_sorted_of(s, self.obs()) && s.len()
                    > 0 implies Some(result) == Some(
                    (Ratio {
                        num: (s[(s.len() - 1) as int / 2] + s[s.len() as int / 2]) as i128,
                        den: 2,
                    }),
                ) by {
                    crate::sorted::lemma_sorted_unique(s, sv);
                    assert(s.len() == n);
                    assert(s[(s.len() - 1) as int / 2] == a as int);
                    assert(s[s.len() as int / 2] == b as int);
                    assert(result.num == (s[(s.len() - 1) as int / 2] + s[s.len() as int
                        / 2]) as i128);
                }
            }
            Some(result)
        }
    }

    /// The most frequent observation (the least such value on ties), absent
    /// if there are none.
    pub fn mode(&self) -> (r: Option<i64>)
        requires
            self.wf(),
        ensures
            r is None <==> self.obs().len() == 0,
            r matches Some(m) ==> is_mode_of(m as int, self.obs()),
    {
        let sorted = self.materialize();
        sorted.mode()
    }
}

impl Commute for Unsorted {
    closed spec fn obs(&self) -> Multiset<int> {
        int_seq(self.data@).to_multiset()
    }

    open spec fn wf(&self) -> bool {
        true
    }

    open spec fn live(&self) -> bool {
        true
    }

    open spec fn mergeable(&self, other: &Self) -> bool {
        true
    }

    open spec fn fits_obs(a: Multiset<int>, b: Multiset<int>) -> bool {
        true
    }

    proof fn lemma_fits_obs_monotone(
        a1: Multiset<int>,
        b1: Multiset<int>,
        a2: Multiset<int>,
        b2: Multiset<int>,
    ) {
    }

    fn identity() -> (r: Self) {
        Unsorted::new()
    }

    fn merge(&mut self, other: Self) {
        proof {
            broadcast use vstd::seq_lib::group_to_multiset_ensures;

            vstd::seq_lib::lemma_multiset_commutative::<int>(int_seq(self.data@), int_seq(
                other.data@));
            assert(int_seq(self.data@ + other.data@) =~= int_seq(self.data@) + int_seq(
                other.data@));
        }
        let mut tail = other;
        self.data.append(&mut tail.data);
    }
}

/// The median of the given observations, absent if there are none.
pub fn median(xs: Vec<i64>) -> (r: Option<Ratio>)
    ensures
        r is None <==> xs@.len() == 0,
        forall|s: Seq<int>|
            #[trigger] is_sorted_of(s, int_seq(xs@).to_multiset()) && s.len() > 0 ==> r
                == Some(
                (Ratio {
                    num: (s[(s.len() - 1) as int / 2] + s[s.len() as int / 2]) as i128,
                    den: 2,
                }),
            ),
{
    proof {
        broadcast use vstd::seq_lib::group_to_multiset_ensures;
    }
    let sample = Unsorted::from_vec(xs);
    sample.median()
}

/// The most frequent of the given observations (the least such value on
/// ties), absent if there are none.
pub fn mode(xs: Vec<i64>) -> (r: Option<i64>)
    ensures
        r is None <==> xs@.len() == 0,
        r matches Some(m) ==> is_mode_of(m as int, int_seq(xs@).to_multiset()),
{
    proof {
        broadcast use vstd::seq_lib::group_to_multiset_ensures;
    }
    let sample = Unsorted::from_vec(xs);
    sample.mode()
}

impl Default for Unsorted {
    /// The identity of `merge`: a fresh, empty instance.
    fn default() -> (r: Unsorted)
        ensures
            r.wf(),
            r.live(),
            r.obs() == Multiset::<int>::empty(),
    {
        Unsorted::new()
    }
}

} // verus!
