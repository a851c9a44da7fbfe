//! The algebraic laws of the merge contract.
//!
//! [`crate::Commute::merge`] guarantees that the merged summary's
//! observations are `a.obs().add(b.obs())`, so every law about the order and
//! grouping of merges reduces to a law about multiset union, stated and
//! proved here.  The per-type canonicity lemmas
//! ([`crate::sorted::lemma_sorted_unique`],
//! [`crate::minmax::lemma_bounds_unique`]) lift these from "the same
//! observations" to "observably equal results".

use vstd::prelude::*;
use vstd::multiset::Multiset;

use crate::Commute;

verus! {

/// Merging is commutative: merging the observations of A into B yields the
/// same observations as merging those of B into A.
pub proof fn lemma_merge_commutes(a: Multiset<int>, b: Multiset<int>)
    ensures
        a.add(b) == b.add(a),
{
    broadcast use vstd::multiset::group_multiset_axioms;

    assert(a.add(b) =~= b.add(a));
}

/// Merging is associative: any grouping of three summaries' merges yields
/// the same observations.
pub proof fn lemma_merge_associates(a: Multiset<int>, b: Multiset<int>, c: Multiset<int>)
    ensures
        a.add(b).add(c) == a.add(b.add(c)),
{
    broadcast use vstd::multiset::group_multiset_axioms;

    assert(a.add(b).add(c) =~= a.add(b.add(c)));
}

/// A freshly constructed summary (whose observations are empty, as
/// [`crate::Commute::identity`] ensures) is a left and right identity of
/// merging: the merged observations are the other operand's, unchanged.
pub proof fn lemma_merge_identity(m: Multiset<int>)
    ensures
        m.add(Multiset::<int>::empty()) == m,
        Multiset::<int>::empty().add(m) == m,
{
    broadcast use vstd::multiset::group_multiset_axioms;

    assert(m.add(Multiset::<int>::empty()) =~= m);
    assert(Multiset::<int>::empty().add(m) =~= m);
}

/// The union of the observation multisets of a sequence of shards.
pub open spec fn shards_obs(shards: Seq<Seq<int>>) -> Multiset<int>
    decreases shards.len(),
{
    if shards.len() == 0 {
        Multiset::<int>::empty()
    } else {
        shards[0].to_multiset().add(shards_obs(shards.drop_first()))
    }
}

/// Single-pass equivalence: partitioning a stream of observations into any
/// number of shards, summarizing each shard, and merging the summaries
/// yields the observations of the whole stream — the same model a single
/// pass over the concatenation produces.
pub proof fn lemma_single_pass(shards: Seq<Seq<int>>)
    ensures
        shards.flatten().to_multiset() == shards_obs(shards),
    decreases shards.len(),
{
    broadcast use vstd::multiset::group_multiset_axioms;
    broadcast use vstd::seq_lib::group_to_multiset_ensures;

    if shards.len() == 0 {
        assert(shards.flatten() =~= Seq::<int>::empty());
        vstd::seq_lib::to_multiset_len::<int>(Seq::<int>::empty());
        vstd::multiset::lemma_multiset_empty_len::<int>(Seq::<int>::empty().to_multiset());
        assert(Seq::<int>::empty().to_multiset() =~= Multiset::<int>::empty());
    } else {
        lemma_single_pass(shards.drop_first());
        vstd::seq_lib::lemma_multiset_commutative::<int>(shards[0],
            shards.drop_first().flatten());
        assert(shards.flatten() == shards[0] + shards.drop_first().flatten());
    }
}

/// Merging two live summaries in either order yields states with the same
/// observations; with each type's canonicity lemma this makes the results
/// observably equal.
pub proof fn lemma_merge_order_irrelevant<T: Commute>(a: &T, b: &T)
    ensures
        a.obs().add(b.obs()) == b.obs().add(a.obs()),
{
    lemma_merge_commutes(a.obs(), b.obs());
}

} // verus!
