//! Streaming, mergeable statistics over integer observations.
//!
//! Each statistic accumulates observations one at a time and can be combined
//! with another instance of the same statistic by `merge`, so that disjoint
//! shards of a data stream may be summarized independently and the partial
//! results folded together.  The contract of [`Commute::merge`] states the
//! merge algebra precisely: the multiset of observations summarized by the
//! merged instance is the multiset union of the two inputs' observations.
//! Union of multisets is associative and commutative and has the empty
//! multiset as identity, so merging in any order or tree shape yields an
//! observably equivalent result.

use vstd::prelude::*;
use vstd::multiset::Multiset;
use vstd::std_specs::cmp::PartialOrdSpec;

pub mod frequency;
pub mod laws;
pub mod minmax;
pub mod online;
pub mod ratio;
pub mod sorted;
pub mod unsorted;

verus! {

use core::cmp::Ordering;

/// Wraps a value whose natural comparison may be partial so that a total
/// comparison is available.  Where the underlying comparison is undefined for
/// a pair, [`Partial::total_cmp`] resolves the pair deterministically to
/// `Ordering::Less`; this fixed fallback keeps the order total (every pair is
/// ordered) at the documented cost of being faithful to the underlying order
/// only where that order is defined.  Equality and cloning pass through to
/// the wrapped value unchanged.
#[derive(Clone, PartialEq, Hash)]
pub struct Partial<T>(pub T);

impl<T: PartialOrd> Partial<T> {
    /// Total comparison: the wrapped values' partial comparison where it is
    /// defined, and `Ordering::Less` where it is not.
    pub fn total_cmp(&self, other: &Partial<T>) -> (r: Ordering)
        ensures
            T::obeys_partial_cmp_spec() ==> r == (match self.0.partial_cmp_spec(&other.0) {
                Some(o) => o,
                None => Ordering::Less,
            }),
    {
        match self.0.partial_cmp(&other.0) {
            Some(o) => o,
            None => Ordering::Less,
        }
    }
}

impl<T> Partial<T> {
    /// Gives the wrapped value back.
    pub fn into_inner(self) -> (r: T)
        ensures
            r == self.0,
    {
        self.0
    }
}

/// The union of a sequence of observation multisets.
pub open spec fn obs_fold(s: Seq<Multiset<int>>) -> Multiset<int>
    decreases s.len(),
{
    if s.len() == 0 {
        Multiset::<int>::empty()
    } else {
        s[0].add(obs_fold(s.drop_first()))
    }
}

/// The merge algebra: types that have an identity and whose values can be
/// combined associatively and commutatively.
///
/// A value of an implementing type summarizes a multiset of observations,
/// given by the spec function `obs`.  `merge` combines two summaries so that
/// the result summarizes the union of both inputs' observations; since
/// multiset union is associative and commutative with the empty multiset as
/// identity, merging in any order or grouping produces a summary of the same
/// observations (see the lemmas in [`crate::laws`]).
///
/// `live` distinguishes a usable summary from a propagated failure (an error
/// carried by a fallible summary, or a summary whose counters exceeded their
/// machine width).  `mergeable` states when two values are structurally
/// compatible for merging, and `fits_obs` states when the combination of two
/// observation multisets stays within the machine capacity of the type, so
/// that a merge of live inputs is again live.
pub trait Commute: Sized {
    /// The multiset of observations this value summarizes.
    spec fn obs(&self) -> Multiset<int>;

    /// Structural well-formedness, established by constructors and preserved
    /// by every operation.
    spec fn wf(&self) -> bool;

    /// Whether this value is a usable summary rather than a propagated
    /// failure.
    spec fn live(&self) -> bool;

    /// Whether `self` (as the left operand) may be merged with `other`.
    spec fn mergeable(&self, other: &Self) -> bool;

    /// Whether summaries of `a` and of `b` can be combined without exceeding
    /// the machine capacity of this type.  For a compound summary the
    /// predicate is checked on whole unions and so may be conservative: a
    /// sequence of counters can be live although the union of all its slots
    /// exceeds one counter's capacity, which is why the sequence instance
    /// states per-slot guarantees directly on its `merge`, and the bounded
    /// statistics provide `lemma_identity_fits` for the identity case.
    spec fn fits_obs(a: Multiset<int>, b: Multiset<int>) -> bool;

    /// Capacity only shrinks when the observations shrink: if the combination
    /// of two observation multisets fits, so does the combination of any two
    /// smaller ones.
    proof fn lemma_fits_obs_monotone(
        a1: Multiset<int>,
        b1: Multiset<int>,
        a2: Multiset<int>,
        b2: Multiset<int>,
    )
        requires
            a1.subset_of(a2),
            b1.subset_of(b2),
            Self::fits_obs(a2, b2),
        ensures
            Self::fits_obs(a1, b1),
    ;

    /// The identity of `merge`: a fresh, empty summary.
    fn identity() -> (r: Self)
        ensures
            r.wf(),
            r.live(),
            r.obs() == Multiset::<int>::empty(),
    ;

    /// Merges the value `other` into `self`.
    ///
    /// The merged value summarizes the union of both inputs' observations.
    /// It is live exactly when both inputs were live and their combination
    /// fits, and it remains mergeable with anything both inputs were
    /// mergeable with.
    fn merge(&mut self, other: Self)
        requires
            old(self).wf(),
            other.wf(),
            old(self).mergeable(&other),
        ensures
            final(self).wf(),
            old(self).live() && other.live() ==> final(self).obs() == old(self).obs().add(
                other.obs()),
            final(self).live() ==> old(self).live() && other.live(),
            old(self).live() && other.live() && Self::fits_obs(old(self).obs(), other.obs())
                ==> final(self).live(),
            forall|c: Self|
                old(self).mergeable(&c) && other.mergeable(&c) ==> #[trigger] final(
                    self).mergeable(&c),
    ;

    /// Merges the values in `others` into `self`, in sequence order;
    /// equivalent to repeated pairwise `merge`.
    fn consume(&mut self, others: Vec<Self>)
        requires
            old(self).wf(),
            forall|k: int| 0 <= k < others@.len() ==> (#[trigger] others@[k]).wf(),
            forall|k: int|
                0 <= k < others@.len() ==> #[trigger] old(self).mergeable(&others@[k]),
            forall|k: int, l: int|
                0 <= k < l < others@.len() ==> #[trigger] others@[k].mergeable(&others@[l]),
        ensures
            final(self).wf(),
            final(self).live() ==> old(self).live() && (forall|k: int|
                0 <= k < others@.len() ==> (#[trigger] others@[k]).live()),
            old(self).live() && (forall|k: int|
                0 <= k < others@.len() ==> (#[trigger] others@[k]).live()) && (forall|k: int|
                0 <= k < others@.len() ==> Self::fits_obs(old(self).obs().add(
                    obs_fold(others@.map_values(|x: Self| x.obs()).take(k))),
                    (#[trigger] others@[k]).obs())) ==> final(self).live() && final(self).obs() == old(
                self).obs().add(obs_fold(others@.map_values(|x: Self| x.obs()))),
            forall|c: Self|
                old(self).mergeable(&c) && (forall|k: int|
                    0 <= k < others@.len() ==> #[trigger] others@[k].mergeable(&c))
                    ==> #[trigger] final(self).mergeable(&c),
        {
            let mut rest = others;
            let ghost orig: Seq<Self> = rest@;
            let ghost oseq: Seq<Multiset<int>> = orig.map_values(|x: Self| x.obs());
            let ghost start: Self = *self;
            proof {
                assert(oseq.take(0) =~= Seq::<Multiset<int>>::empty());
                assert(start.obs().add(obs_fold(oseq.take(0))) =~= start.obs());
            }
            while rest.len() > 0
                invariant
                    self.wf(),
                    oseq == orig.map_values(|x: Self| x.obs()),
                    rest@.len() <= orig.len(),
                    orig.subrange(orig.len() - rest@.len(), orig.len() as int) == rest@,
                    forall|k: int| 0 <= k < orig.len() ==> (#[trigger] orig[k]).wf(),
                    forall|k: int, l: int|
                        0 <= k < l < orig.len() ==> #[trigger] orig[k].mergeable(&orig[l]),
                    forall|k: int|
                        0 <= k < rest@.len() ==> #[trigger] self.mergeable(&rest@[k]),
                    self.live() ==> start.live() && (forall|k: int|
                        0 <= k < orig.len() - rest@.len() ==> (#[trigger] orig[k]).live()),
                    start.live() && (forall|k: int|
                        0 <= k < orig.len() ==> (#[trigger] orig[k]).live()) && (forall|k: int|
                        0 <= k < orig.len() ==> Self::fits_obs(start.obs().add(
                            #[trigger] obs_fold(oseq.take(k))), orig[k].obs())) ==> self.live()
                        && self.obs() == start.obs().add(obs_fold(oseq.take(orig.len()
                        - rest@.len()))),
                    forall|c: Self|
                        start.mergeable(&c) && (forall|k: int|
                            0 <= k < orig.len() - rest@.len() ==> #[trigger] orig[k].mergeable(
                                &c)) ==> #[trigger] self.mergeable(&c),
                decreases rest.len(),
            {
                let ghost done: int = orig.len() - rest@.len();
                let ghost pre: Self = *self;
                let ghost pre_rest: Seq<Self> = rest@;
                let x = rest.remove(0);
                proof {
                    assert(pre_rest[0] == orig[done]);
                    assert(rest@ =~= pre_rest.drop_first());
                    assert(orig.subrange(done + 1, orig.len() as int) =~= rest@);
                    assert(pre.mergeable(&x));
                    assert(oseq[done] == x.obs());
                }
                self.merge(x);
                proof {
                    assert(oseq.take(done + 1) =~= oseq.take(done).push(oseq[done]));
                    lemma_obs_fold_snoc(oseq.take(done), oseq[done]);
                    if start.live() && (forall|k: int|
                        0 <= k < orig.len() ==> (#[trigger] orig[k]).live()) && (forall|k: int|
                        0 <= k < orig.len() ==> Self::fits_obs(start.obs().add(
                            #[trigger] obs_fold(oseq.take(k))), orig[k].obs())) {
                        assert(pre.live());
                        assert(pre.obs() == start.obs().add(obs_fold(oseq.take(done))));
                        assert(x.live());
                        assert(Self::fits_obs(pre.obs(), x.obs()));
                        assert(self.live());
                        assert(self.obs() == start.obs().add(obs_fold(oseq.take(done))).add(
                            x.obs()));
                        assert(start.obs().add(obs_fold(oseq.take(done))).add(x.obs())
                            =~= start.obs().add(obs_fold(oseq.take(done)).add(oseq[done])));
                    }
                }
            }
            proof {
                assert(oseq.take(orig.len() as int) =~= oseq);
            }
        }
}

/// `obs_fold` over a sequence extended on the right gains the new multiset.
proof fn lemma_obs_fold_snoc(s: Seq<Multiset<int>>, m: Multiset<int>)
    ensures
        obs_fold(s.push(m)) == obs_fold(s).add(m),
    decreases s.len(),
{
    broadcast use vstd::multiset::group_multiset_axioms;

    if s.len() == 0 {
        assert(s.push(m)[0] == m);
        assert(s.push(m).drop_first() =~= Seq::<Multiset<int>>::empty());
        assert(obs_fold(s.push(m)) == m.add(obs_fold(Seq::<Multiset<int>>::empty())));
        assert(m.add(Multiset::<int>::empty()) =~= Multiset::<int>::empty().add(m));
    } else {
        assert(s.push(m).drop_first() =~= s.drop_first().push(m));
        lemma_obs_fold_snoc(s.drop_first(), m);
        assert(s.push(m)[0] == s[0]);
        assert(obs_fold(s.push(m)) == s[0].add(obs_fold(s.drop_first()).add(m)));
        assert(s[0].add(obs_fold(s.drop_first()).add(m)) =~= s[0].add(obs_fold(
            s.drop_first())).add(m));
    }
}

/// The multiset union of the observations summarized by each element of `s`.
pub open spec fn obs_sum<T: Commute>(s: Seq<T>) -> Multiset<int> {
    obs_fold(s.map_values(|x: T| x.obs()))
}

/// Every element of `s` is well formed.
pub open spec fn seq_all_wf<T: Commute>(s: Seq<T>) -> bool {
    forall|i: int| 0 <= i < s.len() ==> (#[trigger] s[i]).wf()
}

/// Every element of `s` is a live summary.
pub open spec fn seq_all_live<T: Commute>(s: Seq<T>) -> bool {
    forall|i: int| 0 <= i < s.len() ==> (#[trigger] s[i]).live()
}

/// Every earlier element of `s` may be merged with every later one.
pub open spec fn seq_pairwise_mergeable<T: Commute>(s: Seq<T>) -> bool {
    forall|i: int, j: int| 0 <= i < j < s.len() ==> #[trigger] s[i].mergeable(&s[j])
}

/// Folding the elements of `s` into an accumulator that already summarizes
/// `acc` stays within the capacity of `T` at every step.
pub open spec fn chain_fits<T: Commute>(acc: Multiset<int>, s: Seq<T>) -> bool {
    forall|k: int|
        0 <= k < s.len() ==> T::fits_obs(acc.add(obs_fold(s.map_values(|x: T|
            x.obs()).take(k))), (#[trigger] s[k]).obs())
}

/// Merges all items in the stream.
///
/// If the stream is empty, `None` is returned; otherwise the result is the
/// first element with every subsequent element merged in.
pub fn merge_all<T: Commute>(xs: Vec<T>) -> (r: Option<T>)
    requires
        seq_all_wf(xs@),
        seq_pairwise_mergeable(xs@),
    ensures
        r is None <==> xs@.len() == 0,
        r matches Some(v) ==> {
            &&& v.wf()
            &&& (v.live() ==> seq_all_live(xs@))
            &&& (xs@.len() > 0 && seq_all_live(xs@) && chain_fits(xs@[0].obs(),
                xs@.drop_first()) ==> v.live() && v.obs() == obs_sum(xs@))
            &&& forall|c: T|
                (forall|i: int| 0 <= i < xs@.len() ==> #[trigger] xs@[i].mergeable(&c))
                    ==> #[trigger] v.mergeable(&c)
        },
{
    let mut xs = xs;
    let ghost orig: Seq<T> = xs@;
    if xs.len() == 0 {
        None
    } else {
        let mut init = xs.remove(0);
        proof {
            assert(orig.drop_first() =~= xs@);
            assert(init == orig[0]);
            assert(forall|i: int|
                0 <= i < xs@.len() ==> #[trigger] init.mergeable(&xs@[i]));
        }
        init.consume(xs);
        proof {
            let rest = orig.drop_first();
            assert forall|c: T|
                (forall|i: int| 0 <= i < orig.len() ==> #[trigger] orig[i].mergeable(&c))
                    implies #[trigger] init.mergeable(&c) by {
                assert(orig[0].mergeable(&c));
                assert(forall|k: int|
                    0 <= k < rest.len() ==> #[trigger] rest[k].mergeable(&c)) by {
                    assert(forall|k: int|
                        0 <= k < rest.len() ==> rest[k] == orig[k + 1]);
                }
            }
            let rseq = rest.map_values(|x: T| x.obs());
            if init.live() {
                assert(forall|k: int| 0 <= k < rest.len() ==> (#[trigger] rest[k]).live());
                assert(forall|i: int|
                    1 <= i < orig.len() ==> (#[trigger] orig[i]).live()) by {
                    assert(forall|i: int|
                        1 <= i < orig.len() ==> orig[i] == rest[i - 1]);
                }
                assert(seq_all_live(orig));
            }
            if seq_all_live(orig) && chain_fits(orig[0].obs(), rest) {
                assert(forall|k: int| 0 <= k < rest.len() ==> (#[trigger] rest[k]).live());
                assert(init.live() && init.obs() == orig[0].obs().add(obs_fold(rseq)));
                let oseq = orig.map_values(|x: T| x.obs());
                assert(oseq.drop_first() =~= rseq);
                assert(obs_sum(orig) == orig[0].obs().add(obs_fold(rseq)));
            }
        }
        Some(init)
    }
}


/// An optional statistic: `None` is an empty summary and the identity of
/// `merge`; merging `Some(a)` with `Some(b)` merges the payloads.
impl<T: Commute> Commute for Option<T> {
    open spec fn obs(&self) -> Multiset<int> {
        match self {
            None => Multiset::<int>::empty(),
            Some(v) => v.obs(),
        }
    }

    open spec fn wf(&self) -> bool {
        match self {
            None => true,
            Some(v) => v.wf(),
        }
    }

    open spec fn live(&self) -> bool {
        match self {
            None => true,
            Some(v) => v.live(),
        }
    }

    open spec fn mergeable(&self, other: &Self) -> bool {
        match (self, other) {
            (Some(a), Some(b)) => a.mergeable(b),
            _ => true,
        }
    }

    open spec fn fits_obs(a: Multiset<int>, b: Multiset<int>) -> bool {
        T::fits_obs(a, b)
    }

    proof fn lemma_fits_obs_monotone(
        a1: Multiset<int>,
        b1: Multiset<int>,
        a2: Multiset<int>,
        b2: Multiset<int>,
    ) {
        T::lemma_fits_obs_monotone(a1, b1, a2, b2);
    }

    fn identity() -> (r: Self) {
        None
    }

    fn merge(&mut self, other: Self)
        ensures
            other is None ==> *final(self) == *old(self),
            (*old(self)) is None ==> *final(self) == other,
            (*old(self)) is Some && other is Some ==> (*final(self)) is Some,
    {
        proof {
            broadcast use vstd::multiset::group_multiset_axioms;
        }
        if other.is_none() {
            proof {
                assert(old(self).obs().add(Multiset::<int>::empty()) =~= old(self).obs());
            }
            return ;
        }
        match self {
            None => {
                proof {
                    assert(Multiset::<int>::empty().add(other.obs()) =~= other.obs());
                }
                *self = other;
            },
            Some(v) => {
                match other {
                    None => {
                        proof {
                            assert(false);
                        }
                    },
                    Some(w) => {
                        v.merge(w);
                    },
                }
            },
        }
    }
}

/// A fallible statistic: an error state absorbs every merge.  The first
/// error wins; merging an error (left) with a success (right) is a contract
/// violation, excluded by `mergeable`, since errors must propagate
/// monotonically across a fold.
impl<T: Commute, E> Commute for Result<T, E> {
    open spec fn obs(&self) -> Multiset<int> {
        match self {
            Ok(v) => v.obs(),
            Err(_) => Multiset::<int>::empty(),
        }
    }

    open spec fn wf(&self) -> bool {
        match self {
            Ok(v) => v.wf(),
            Err(_) => true,
        }
    }

    open spec fn live(&self) -> bool {
        match self {
            Ok(v) => v.live(),
            Err(_) => false,
        }
    }

    open spec fn mergeable(&self, other: &Self) -> bool {
        match (self, other) {
            (Err(_), Ok(_)) => false,
            (Ok(a), Ok(b)) => a.mergeable(b),
            _ => true,
        }
    }

    open spec fn fits_obs(a: Multiset<int>, b: Multiset<int>) -> bool {
        T::fits_obs(a, b)
    }

    proof fn lemma_fits_obs_monotone(
        a1: Multiset<int>,
        b1: Multiset<int>,
        a2: Multiset<int>,
        b2: Multiset<int>,
    ) {
        T::lemma_fits_obs_monotone(a1, b1, a2, b2);
    }

    fn identity() -> (r: Self) {
        Ok(T::identity())
    }

    fn merge(&mut self, other: Self)
        ensures
            (*old(self)) is Err ==> *final(self) == *old(self),
            (*old(self)) is Ok && other is Err ==> *final(self) == other,
            (*old(self)) is Ok && other is Ok ==> (*final(self)) is Ok,
    {
        proof {
            broadcast use vstd::multiset::group_multiset_axioms;
        }
        if self.is_ok() && other.is_err() {
            *self = other;
        } else {
            match self {
                Err(_) => {},
                Ok(v) => {
                    match other {
                        Ok(w) => {
                            v.merge(w);
                        },
                        Err(_) => {
                            proof {
                                assert(false);
                            }
                        },
                    }
                },
            }
        }
    }
}

/// A fixed-length sequence of statistics, merged index for index.  Two
/// sequences are mergeable only when their lengths agree: a length mismatch
/// means the shards' schemas diverged, a contract violation rather than a
/// recoverable state.
impl<T: Commute> Commute for Vec<T> {
    open spec fn obs(&self) -> Multiset<int> {
        obs_fold(self@.map_values(|x: T| x.obs()))
    }

    open spec fn wf(&self) -> bool {
        forall|i: int| 0 <= i < self@.len() ==> (#[trigger] self@[i]).wf()
    }

    open spec fn live(&self) -> bool {
        forall|i: int| 0 <= i < self@.len() ==> (#[trigger] self@[i]).live()
    }

    open spec fn mergeable(&self, other: &Self) -> bool {
        self@.len() == other@.len() && forall|i: int|
            0 <= i < self@.len() ==> #[trigger] self@[i].mergeable(&other@[i])
    }

    open spec fn fits_obs(a: Multiset<int>, b: Multiset<int>) -> bool {
        T::fits_obs(a, b)
    }

    proof fn lemma_fits_obs_monotone(
        a1: Multiset<int>,
        b1: Multiset<int>,
        a2: Multiset<int>,
        b2: Multiset<int>,
    ) {
        T::lemma_fits_obs_monotone(a1, b1, a2, b2);
    }

    fn identity() -> (r: Self) {
        let r: Vec<T> = Vec::new();
        proof {
            assert(r@.map_values(|x: T| x.obs()) =~= Seq::<Multiset<int>>::empty());
        }
        r
    }

    fn merge(&mut self, other: Self)
        ensures
            final(self)@.len() == old(self)@.len(),
            forall|i: int|
                0 <= i < old(self)@.len() && old(self)@[i].live() && other@[i].live()
                    ==> (#[trigger] final(self)@[i]).obs() == old(self)@[i].obs().add(
                    other@[i].obs()),
            forall|i: int|
                0 <= i < old(self)@.len() ==> ((#[trigger] final(self)@[i]).live()
                    ==> old(self)@[i].live() && other@[i].live()),
            forall|i: int|
                0 <= i < old(self)@.len() && old(self)@[i].live() && other@[i].live()
                    && T::fits_obs(old(self)@[i].obs(), other@[i].obs()) ==> (
                #[trigger] final(self)@[i]).live(),
    {
        proof {
            broadcast use vstd::multiset::group_multiset_axioms;
        }
        let mut mine: Vec<T> = Vec::new();
        core::mem::swap(self, &mut mine);
        let mut rest = other;
        let mut out: Vec<T> = Vec::new();
        let ghost a0: Seq<T> = mine@;
        let ghost b0: Seq<T> = rest@;
        while mine.len() > 0
            invariant
                mine@.len() == rest@.len(),
                out@.len() + mine@.len() == a0.len(),
                a0.len() == b0.len(),
                mine@ == a0.skip(out@.len() as int),
                rest@ == b0.skip(out@.len() as int),
                forall|j: int| 0 <= j < a0.len() ==> (#[trigger] a0[j]).wf(),
                forall|j: int| 0 <= j < b0.len() ==> (#[trigger] b0[j]).wf(),
                forall|j: int| 0 <= j < a0.len() ==> #[trigger] a0[j].mergeable(&b0[j]),
                forall|j: int| 0 <= j < out@.len() ==> (#[trigger] out@[j]).wf(),
                forall|j: int|
                    0 <= j < out@.len() ==> ((#[trigger] out@[j]).live() ==> a0[j].live()
                        && b0[j].live()),
                forall|j: int|
                    0 <= j < out@.len() && a0[j].live() && b0[j].live() && T::fits_obs(
                        a0[j].obs(), b0[j].obs()) ==> (#[trigger] out@[j]).live(),
                forall|j: int|
                    0 <= j < out@.len() && a0[j].live() && b0[j].live()
                        ==> (#[trigger] out@[j]).obs() == a0[j].obs().add(b0[j].obs()),
                forall|j: int, cc: T|
                    0 <= j < out@.len() && a0[j].mergeable(&cc) && b0[j].mergeable(&cc)
                        ==> #[trigger] out@[j].mergeable(&cc),
            decreases mine.len(),
        {
            let ghost i: int = out@.len() as int;
            let mut x = mine.remove(0);
            let y = rest.remove(0);
            proof {
                assert(x == a0[i]);
                assert(y == b0[i]);
                assert(mine@ =~= a0.skip(i + 1));
                assert(rest@ =~= b0.skip(i + 1));
            }
            x.merge(y);
            out.push(x);
        }
        *self = out;
        proof {
            assert(self@.len() == a0.len());
            assert(a0 == old(self)@);
            assert(b0 == other@);
            if self.live() {
                assert forall|j: int| 0 <= j < a0.len() implies (#[trigger] a0[j]).live()
                    && b0[j].live() by {
                    assert((#[trigger] self@[j]).live());
                }
                assert forall|j: int| 0 <= j < old(self)@.len() implies (#[trigger] old(
                    self)@[j]).live() by {
                    assert(a0[j].live());
                }
                assert forall|j: int| 0 <= j < other@.len() implies (#[trigger] other@[
                    j]).live() by {
                    assert(a0[j].live());
                    assert(b0[j].live());
                }
                assert(old(self).live());
                assert(other.live());
            }
            if (forall|j: int| 0 <= j < a0.len() ==> (#[trigger] a0[j]).live()) && (forall|
                j: int|
                0 <= j < b0.len() ==> (#[trigger] b0[j]).live()) {
                lemma_obs_fold_zip(self@, a0, b0);
                if T::fits_obs(obs_fold(a0.map_values(|x: T| x.obs())), obs_fold(
                    b0.map_values(|x: T| x.obs()))) {
                    assert forall|j: int| 0 <= j < self@.len() implies (#[trigger] self@[
                        j]).live() by {
                        lemma_obs_fold_subset(a0.map_values(|x: T| x.obs()), j);
                        lemma_obs_fold_subset(b0.map_values(|x: T| x.obs()), j);
                        T::lemma_fits_obs_monotone(a0[j].obs(), b0[j].obs(), obs_fold(
                            a0.map_values(|x: T| x.obs())), obs_fold(b0.map_values(|x: T|
                            x.obs())));
                    }
                }
            }
        }
    }
}

/// Each entry of a sequence of observation multisets is contained in the
/// union of them all.
proof fn lemma_obs_fold_subset(s: Seq<Multiset<int>>, j: int)
    requires
        0 <= j < s.len(),
    ensures
        s[j].subset_of(obs_fold(s)),
    decreases s.len(),
{
    broadcast use vstd::multiset::group_multiset_axioms;

    if j == 0 {
    } else {
        lemma_obs_fold_subset(s.drop_first(), j - 1);
        assert(s.drop_first()[j - 1] == s[j]);
    }
}

/// If each entry of `c` is the union of the matching entries of `a` and `b`,
/// the union of `c` is the union of the unions of `a` and `b`.
proof fn lemma_obs_fold_zip<T: Commute>(c: Seq<T>, a: Seq<T>, b: Seq<T>)
    requires
        c.len() == a.len(),
        a.len() == b.len(),
        forall|j: int|
            0 <= j < c.len() ==> (#[trigger] c[j]).obs() == a[j].obs().add(b[j].obs()),
    ensures
        obs_fold(c.map_values(|x: T| x.obs())) == obs_fold(a.map_values(|x: T| x.obs())).add(
            obs_fold(b.map_values(|x: T| x.obs()))),
    decreases c.len(),
{
    broadcast use vstd::multiset::group_multiset_axioms;

    if c.len() == 0 {
        assert(c.map_values(|x: T| x.obs()) =~= Seq::<Multiset<int>>::empty());
        assert(a.map_values(|x: T| x.obs()) =~= Seq::<Multiset<int>>::empty());
        assert(b.map_values(|x: T| x.obs()) =~= Seq::<Multiset<int>>::empty());
        assert(obs_fold(Seq::<Multiset<int>>::empty()).add(obs_fold(Seq::<Multiset<
            int,
        >>::empty())) =~= Multiset::<int>::empty());
    } else {
        assert(forall|j: int|
            0 <= j < c.drop_first().len() ==> (#[trigger] c.drop_first()[j]).obs()
                == a.drop_first()[j].obs().add(b.drop_first()[j].obs()));
        lemma_obs_fold_zip(c.drop_first(), a.drop_first(), b.drop_first());
        assert(c.map_values(|x: T| x.obs()).drop_first() =~= c.drop_first().map_values(|x: T|
            x.obs()));
        assert(a.map_values(|x: T| x.obs()).drop_first() =~= a.drop_first().map_values(|x: T|
            x.obs()));
        assert(b.map_values(|x: T| x.obs()).drop_first() =~= b.drop_first().map_values(|x: T|
            x.obs()));
        assert(c.map_values(|x: T| x.obs())[0] == c[0].obs());
        assert(a.map_values(|x: T| x.obs())[0] == a[0].obs());
        assert(b.map_values(|x: T| x.obs())[0] == b[0].obs());
        let ca = obs_fold(a.drop_first().map_values(|x: T| x.obs()));
        let cb = obs_fold(b.drop_first().map_values(|x: T| x.obs()));
        assert(c[0].obs().add(ca.add(cb)) =~= a[0].obs().add(ca).add(b[0].obs().add(cb)));
    }
}

} // verus!
