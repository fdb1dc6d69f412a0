//! How often a sequence holds an item.

use vstd::multiset::{lemma_multiset_empty_len, Multiset};
use vstd::prelude::*;
use vstd::seq_lib::{lemma_multiset_commutative, to_multiset_build, to_multiset_len};

verus! {

/// A sequence that starts with `x` holds `x` once more than its rest does,
/// and the empty sequence holds nothing.
pub proof fn lemma_first_counts<T>(x: T, rest: Seq<T>)
    ensures
        (seq![x] + rest).to_multiset() == rest.to_multiset().insert(x),
        Seq::<T>::empty().to_multiset() == Multiset::<T>::empty(),
{
    to_multiset_len(Seq::<T>::empty());
    lemma_multiset_empty_len(Seq::<T>::empty().to_multiset());
    assert(seq![x] =~= Seq::empty().push(x));
    to_multiset_build(Seq::empty(), x);
    lemma_multiset_commutative(seq![x], rest);
    assert((seq![x] + rest).to_multiset() =~= rest.to_multiset().insert(x));
}

} // verus!
