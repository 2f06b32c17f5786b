//! The set that tells whether a patch was seen before.
//!
//! The set is an `ahash::AHashSet`. What it does with its items is taken on
//! trust here; the loop that fills it is proved against that.

use ahash::AHashSet;
use std::ops::Range;
use vstd::prelude::*;

verus! {

#[verifier::external_type_specification]
#[verifier::external_body]
pub struct ExAHashRandomState(ahash::RandomState);

#[verifier::external_type_specification]
#[verifier::external_body]
#[verifier::reject_recursive_types(T)]
#[verifier::reject_recursive_types(S)]
pub struct ExAHashSet<T, S>(AHashSet<T, S>);

/// The items that a set of patch keys holds: each a place in the source,
/// as the two ends of its range, with the text that goes there.
pub uninterp spec fn seen_keys(s: AHashSet<(Range<usize>, String)>) -> Set<(int, int, Seq<char>)>;

/// `AHashSet::new`: the set it makes holds nothing.
#[verifier::external_body]
pub(crate) fn seen_new() -> (s: AHashSet<(Range<usize>, String)>)
    ensures
        forall|k: (int, int, Seq<char>)| !seen_keys(s).contains(k),
{
    AHashSet::new()
}

/// `HashSet::contains`, reached through `AHashSet`: whether the set holds
/// an item equal to `key`, which is to say one with the same ends and the
/// same text.
#[verifier::external_body]
pub(crate) fn seen_contains(s: &AHashSet<(Range<usize>, String)>, key: &(Range<usize>, String)) -> (r:
    bool)
    ensures
        r == seen_keys(*s).contains((key.0.start as int, key.0.end as int, key.1@)),
{
    s.contains(key)
}

/// `HashSet::insert`, reached through `AHashSet`: the set holds `key` from
/// now on, and what it held before.
#[verifier::external_body]
pub(crate) fn seen_insert(s: &mut AHashSet<(Range<usize>, String)>, key: (Range<usize>, String))
    ensures
        seen_keys(*final(s)) == seen_keys(*old(s)).insert(
            (key.0.start as int, key.0.end as int, key.1@),
        ),
{
    s.insert(key);
}

} // verus!
