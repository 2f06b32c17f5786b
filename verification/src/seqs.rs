//! Facts about sequences that the loops of this crate lean on.

use vstd::prelude::*;

verus! {

/// Filtering one element more: the element joins the result if it passes.
pub proof fn lemma_filter_step<T>(s: Seq<T>, i: int, p: spec_fn(T) -> bool)
    requires
        0 <= i < s.len(),
    ensures
        s.subrange(0, i + 1).filter(p) == if p(s[i]) {
            s.subrange(0, i).filter(p).push(s[i])
        } else {
            s.subrange(0, i).filter(p)
        },
        s.subrange(0, 0).filter(p) == Seq::<T>::empty(),
{
    reveal(Seq::filter);
    assert(s.subrange(0, i + 1).drop_last() =~= s.subrange(0, i));
    assert(s.subrange(0, i + 1).last() == s[i]);
    assert(s.subrange(0, 0) =~= Seq::<T>::empty());
}

/// Filtering the empty sequence leaves it empty.
pub proof fn lemma_filter_empty<T>(p: spec_fn(T) -> bool)
    ensures
        Seq::<T>::empty().filter(p) == Seq::<T>::empty(),
{
    reveal(Seq::filter);
}

} // verus!
