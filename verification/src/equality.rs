//! When two segments, and two fixes, count as equal.

use vstd::prelude::*;
use vstd::std_specs::cmp::PartialEqSpecImpl;

use crate::crawl::spec_same_segment;
use crate::fix::LintFix;
use crate::segment::ErasedSegment;

verus! {

impl PartialEq for ErasedSegment {
    /// Two segments are equal if they have the same id, or if they are of
    /// the same kind, on the same working line and column, with the same
    /// text.
    fn eq(&self, other: &ErasedSegment) -> (r: bool) {
        self.same_as(other)
    }
}

impl PartialEqSpecImpl for ErasedSegment {
    open spec fn obeys_eq_spec() -> bool {
        true
    }

    open spec fn eq_spec(&self, other: &ErasedSegment) -> bool {
        spec_same_segment(self@, other@)
    }
}

impl PartialEq for LintFix {
    /// Two fixes are equal if they ask for the same thing.
    fn eq(&self, other: &LintFix) -> (r: bool) {
        self.same(other)
    }
}

impl PartialEqSpecImpl for LintFix {
    open spec fn obeys_eq_spec() -> bool {
        true
    }

    open spec fn eq_spec(&self, other: &LintFix) -> bool {
        self@.same(other@)
    }
}

} // verus!
