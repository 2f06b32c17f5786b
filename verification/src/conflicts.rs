//! Whether a fix would touch what a template made: such a fix is not
//! applied, since it cannot be written back to the source.

use std::ops::Range;
use vstd::prelude::*;

use crate::fix::{EditType, LintFix, LintFixV};
use crate::segment::{views, SegV};
use crate::templater::{is_span_len, is_span_start, sat_add, RawFileSlice, TemplatedFile};
use crate::text::copy_str;

verus! {

/// What has to be looked up to find the raw slices that a fix touches.
#[derive(Debug)]
pub enum SliceLookup {
    /// Nothing: the fix touches no raw slice.
    Nothing,
    /// The raw slices that span this range of the source.
    Source(Range<usize>),
    /// The raw slices that span what this range of the templated text is
    /// in the source, which the templater says.
    Templated(Range<usize>),
}

/// `a - b`, or nothing where that would be less.
pub open spec fn sat_sub(a: int, b: int) -> int {
    if a < b {
        0
    } else {
        a - b
    }
}

/// Whether every segment of the edit holds no segments and carries source
/// fixes.
pub open spec fn all_source_edits(edit: Seq<SegV>) -> bool {
    forall|i: int|
        0 <= i < edit.len() ==> (#[trigger] edit[i]).children().len() == 0
            && edit[i].source_fixes().len() > 0
}

impl LintFixV {
    /// What is looked up for the fix, whose anchor has a marker.
    ///
    /// For a creation, the character before or after the anchor, and, unless
    /// only what is within counts, the edge of the anchor too. For a
    /// replacement, nothing if the anchor has no width in the source; the
    /// source of the first source fix if the edit is made of source fixes
    /// alone; else the anchor. For a deletion, the anchor.
    pub open spec fn lookup(self, within_only: bool) -> SliceLookup {
        let anchor = self.anchor.marker->0;
        let slice = anchor.templated_slice;
        let adjust: int = if within_only {
            0
        } else {
            1
        };
        let edit = match self.edit {
            Some(e) => e,
            None => Seq::empty(),
        };
        match self.edit_type {
            EditType::CreateBefore => SliceLookup::Templated(
                (sat_sub(slice.start as int, 1) as usize)..(sat_add(slice.start as int, adjust)
                    as usize),
            ),
            EditType::CreateAfter => SliceLookup::Templated(
                (sat_sub(slice.end as int, adjust) as usize)..(sat_add(slice.end as int, 1)
                    as usize),
            ),
            EditType::Replace => if anchor.source_slice.start == anchor.source_slice.end {
                SliceLookup::Nothing
            } else if edit.len() > 0 && all_source_edits(edit) {
                SliceLookup::Source(edit[0].source_fixes()[0].source_slice)
            } else {
                SliceLookup::Templated(slice)
            },
            EditType::Delete => SliceLookup::Templated(slice),
        }
    }
}

/// Whether the raw slices `found` are those that the fix touches, `mapped`
/// being what the templater says of a templated range that was looked up:
/// those that span the range of the source, or, where the templater could
/// not say, the one slice that stands for the end of the file.
pub open spec fn is_fix_slices(
    file: TemplatedFile,
    lookup: SliceLookup,
    mapped: Option<Range<usize>>,
    found: Seq<RawFileSlice>,
) -> bool {
    match lookup {
        SliceLookup::Nothing => found.len() == 0,
        SliceLookup::Source(r) => is_spanning(file, r, found),
        SliceLookup::Templated(_) => match mapped {
            Some(r) => is_spanning(file, r, found),
            None => found.len() == 1 && found[0].raw@.len() == 0 && found[0].spec_is_literal()
                && found[0].source_idx == usize::MAX,
        },
    }
}

/// Whether `found` are the raw slices that span the range of the source.
pub open spec fn is_spanning(file: TemplatedFile, r: Range<usize>, found: Seq<RawFileSlice>) -> bool {
    if r.start >= file.raw_sliced().last().spec_end_source_idx() {
        found.len() == 0
    } else {
        exists|idx: int, span: int|
            {
                &&& is_span_start(file.raw_sliced(), r.start as int, idx)
                &&& is_span_len(file.raw_sliced(), r.end as int, idx, span)
                &&& found == file.raw_sliced().subrange(idx, idx + span)
            }
    }
}

/// Whether every one of the slices is of the kind that a template made.
pub open spec fn all_templated(s: Seq<RawFileSlice>) -> bool {
    forall|i: int| 0 <= i < s.len() ==> (#[trigger] s[i]).spec_is_templated()
}

/// Whether one of the slices is of the kind that a template made.
pub open spec fn any_templated(s: Seq<RawFileSlice>) -> bool {
    exists|i: int| 0 <= i < s.len() && (#[trigger] s[i]).spec_is_templated()
}

impl LintFix {
    /// What has to be looked up to find the raw slices that the fix touches.
    pub fn fix_lookup(&self, within_only: bool) -> (r: SliceLookup)
        requires
            self@.anchor.marker is Some,
        ensures
            r == self@.lookup(within_only),
    {
        let anchor = match self.anchor.get_position_marker() {
            Some(m) => m,
            None => {
                proof {
                    assert(false);
                }
                return SliceLookup::Nothing;
            },
        };
        let start = anchor.templated_slice.start;
        let end = anchor.templated_slice.end;
        let adjust_boundary: usize = if !within_only {
            1
        } else {
            0
        };
        match self.edit_type {
            EditType::CreateBefore => SliceLookup::Templated(
                start.saturating_sub(1)..start.saturating_add(adjust_boundary),
            ),
            EditType::CreateAfter => SliceLookup::Templated(
                end.saturating_sub(adjust_boundary)..end.saturating_add(1),
            ),
            EditType::Replace => {
                if anchor.source_slice.start == anchor.source_slice.end {
                    return SliceLookup::Nothing;
                }
                let none: Vec<crate::segment::ErasedSegment> = Vec::new();
                assert(views(none@) =~= Seq::<SegV>::empty());
                let edit = match &self.edit {
                    Some(e) => e,
                    None => &none,
                };
                let mut all = true;
                let mut i: usize = 0;
                while i < edit.len()
                    invariant
                        i <= edit@.len(),
                        all == all_source_edits(views(edit@).subrange(0, i as int)),
                    decreases edit.len() - i,
                {
                    let ghost pre = views(edit@).subrange(0, i as int);
                    let ghost cur = views(edit@).subrange(0, i + 1);
                    let leaf = edit[i].segments().len() == 0;
                    let fixes = edit[i].get_source_fixes();
                    proof {
                        assert(cur[i as int] == edit@[i as int]@);
                        assert forall|k: int| 0 <= k < pre.len() implies pre[k] == cur[k] by {}
                        if all_source_edits(cur) {
                            assert forall|k: int| 0 <= k < pre.len() implies (#[trigger] pre[k]).children().len()
                                == 0 && pre[k].source_fixes().len() > 0 by {
                                assert(cur[k].children().len() == 0);
                            }
                        }
                    }
                    if !(leaf && fixes.len() > 0) {
                        all = false;
                    }
                    i += 1;
                }
                assert(views(edit@).subrange(0, i as int) =~= views(edit@));
                if edit.len() > 0 && all {
                    assert(views(edit@)[0] == edit@[0]@);
                    let fixes = edit[0].get_source_fixes();
                    SliceLookup::Source(fixes[0].source_slice.start..fixes[0].source_slice.end)
                } else {
                    SliceLookup::Templated(start..end)
                }
            },
            EditType::Delete => SliceLookup::Templated(start..end),
        }
    }

    /// The raw slices that the fix touches. `mapped` is what the templater
    /// says of the templated range that `fix_lookup` asks for: the range of
    /// the source that it comes from, or `None` where it cannot say.
    pub fn fix_slices(
        &self,
        templated_file: &TemplatedFile,
        within_only: bool,
        mapped: Option<Range<usize>>,
    ) -> (r: Vec<RawFileSlice>)
        requires
            self@.anchor.marker is Some,
            templated_file.raw_sliced().len() > 0,
        ensures
            is_fix_slices(*templated_file, self@.lookup(within_only), mapped, r@),
    {
        match self.fix_lookup(within_only) {
            SliceLookup::Nothing => Vec::new(),
            SliceLookup::Source(r) => templated_file.raw_slices_spanning_source_slice(&r),
            SliceLookup::Templated(_) => LintFix::raw_slices_from_templated_slices(
                templated_file,
                mapped,
            ),
        }
    }

    /// The raw slices that span what the templater says of a templated
    /// range; the slice that stands for the end of the file where it could
    /// not say.
    pub fn raw_slices_from_templated_slices(
        templated_file: &TemplatedFile,
        mapped: Option<Range<usize>>,
    ) -> (r: Vec<RawFileSlice>)
        requires
            templated_file.raw_sliced().len() > 0,
        ensures
            is_fix_slices(
                *templated_file,
                SliceLookup::Templated(0usize..0usize),
                mapped,
                r@,
            ),
    {
        match mapped {
            Some(source_slice) => templated_file.raw_slices_spanning_source_slice(&source_slice),
            None => {
                let mut raw_slices: Vec<RawFileSlice> = Vec::new();
                raw_slices.push(
                    RawFileSlice::new(String::new(), copy_str("literal"), usize::MAX, None, None),
                );
                raw_slices
            },
        }
    }

    /// Whether the fix would touch what a template made.
    ///
    /// A creation does if all the raw slices that it touches are of a
    /// template; any other fix does if one of them is.
    pub fn has_template_conflicts(
        &self,
        templated_file: &TemplatedFile,
        mapped: Option<Range<usize>>,
    ) -> (r: bool)
        requires
            self@.anchor.marker is Some,
            templated_file.raw_sliced().len() > 0,
        ensures
            exists|found: Seq<RawFileSlice>|
                #[trigger] is_fix_slices(*templated_file, self@.lookup(false), mapped, found) && r
                    == (if self@.edit_type == EditType::CreateAfter || self@.edit_type
                    == EditType::CreateBefore {
                    all_templated(found)
                } else {
                    any_templated(found)
                }),
    {
        let fix_slices = self.fix_slices(templated_file, false, mapped);
        let creation = self.edit_type == EditType::CreateAfter || self.edit_type
            == EditType::CreateBefore;
        let mut all = true;
        let mut any = false;
        let mut i: usize = 0;
        while i < fix_slices.len()
            invariant
                i <= fix_slices@.len(),
                all == all_templated(fix_slices@.subrange(0, i as int)),
                any == any_templated(fix_slices@.subrange(0, i as int)),
            decreases fix_slices.len() - i,
        {
            let ghost pre = fix_slices@.subrange(0, i as int);
            let ghost cur = fix_slices@.subrange(0, i + 1);
            let t = fix_slices[i].is_templated();
            proof {
                assert(cur[i as int] == fix_slices@[i as int]);
                assert forall|k: int| 0 <= k < pre.len() implies pre[k] == cur[k] by {}
                if all_templated(cur) {
                    assert forall|k: int| 0 <= k < pre.len() implies (#[trigger] pre[k]).spec_is_templated() by {
                        assert(cur[k].spec_is_templated());
                    }
                }
                if any_templated(pre) {
                    let w = choose|w: int| 0 <= w < pre.len() && (#[trigger] pre[w]).spec_is_templated();
                    assert(cur[w].spec_is_templated());
                }
                if any_templated(cur) && !t {
                    let w = choose|w: int| 0 <= w < cur.len() && (#[trigger] cur[w]).spec_is_templated();
                    assert(pre[w].spec_is_templated());
                }
            }
            if t {
                any = true;
            } else {
                all = false;
            }
            i += 1;
        }
        assert(fix_slices@.subrange(0, i as int) =~= fix_slices@);
        if creation {
            all
        } else {
            any
        }
    }
}

} // verus!
