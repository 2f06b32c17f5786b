//! Patches: the changes to the source text that an edited tree amounts to.

use std::ops::Range;
use vstd::prelude::*;
use vstd::string::StringExecFns;

use crate::markers::PositionMarker;
use crate::segment::{views, ErasedSegment, SegV, SourceFix};
use crate::templater::TemplatedFile;
use crate::text::{byte_slice, copy_str, slice_text, str_eq, valid_byte_range};

verus! {

/// A change to the source text: the text `fixed_raw` in place of the bytes
/// `source_slice` of the source.
#[derive(Clone, Debug)]
pub struct FixPatch {
    pub templated_slice: Range<usize>,
    pub fixed_raw: String,
    /// What gave rise to the patch: `literal`, `source`, `mid_point` or
    /// `end_point`.
    pub patch_category: String,
    pub source_slice: Range<usize>,
    pub templated_str: String,
    pub source_str: String,
}

/// The view of a patch.
pub struct FixPatchV {
    pub templated_slice: Range<usize>,
    pub fixed_raw: Seq<char>,
    pub patch_category: Seq<char>,
    pub source_slice: Range<usize>,
    pub templated_str: Seq<char>,
    pub source_str: Seq<char>,
}

impl View for FixPatch {
    type V = FixPatchV;

    open spec fn view(&self) -> FixPatchV {
        FixPatchV {
            templated_slice: self.templated_slice,
            fixed_raw: self.fixed_raw@,
            patch_category: self.patch_category@,
            source_slice: self.source_slice,
            templated_str: self.templated_str@,
            source_str: self.source_str@,
        }
    }
}

/// The views of a sequence of patches.
pub open spec fn patch_views(s: Seq<FixPatch>) -> Seq<FixPatchV> {
    Seq::new(s.len(), |i: int| s[i]@)
}

pub proof fn lemma_patch_views_push(s: Seq<FixPatch>, x: FixPatch)
    ensures
        patch_views(s.push(x)) == patch_views(s).push(x@),
{
    assert(patch_views(s.push(x)) =~= patch_views(s).push(x@));
}

pub proof fn lemma_patch_views_add(a: Seq<FixPatch>, b: Seq<FixPatch>)
    ensures
        patch_views(a + b) == patch_views(a) + patch_views(b),
{
    assert(patch_views(a + b) =~= patch_views(a) + patch_views(b));
}

impl FixPatch {
    pub fn new(
        templated_slice: Range<usize>,
        fixed_raw: String,
        patch_category: String,
        source_slice: Range<usize>,
        templated_str: String,
        source_str: String,
    ) -> (r: FixPatch)
        ensures
            r.templated_slice == templated_slice,
            r.fixed_raw == fixed_raw,
            r.patch_category == patch_category,
            r.source_slice == source_slice,
            r.templated_str == templated_str,
            r.source_str == source_str,
    {
        FixPatch {
            templated_slice,
            fixed_raw,
            patch_category,
            source_slice,
            templated_str,
            source_str,
        }
    }

    /// What tells two patches apart when duplicates are dropped: the place
    /// in the source and the text that goes there.
    pub fn dedupe_tuple(&self) -> (r: (Range<usize>, String))
        ensures
            r.0 == self.source_slice,
            r.1@ == self.fixed_raw@,
    {
        (self.source_slice.start..self.source_slice.end, self.fixed_raw.clone())
    }

    pub fn copy(&self) -> (r: FixPatch)
        ensures
            r == *self,
    {
        FixPatch {
            templated_slice: self.templated_slice.start..self.templated_slice.end,
            fixed_raw: self.fixed_raw.clone(),
            patch_category: self.patch_category.clone(),
            source_slice: self.source_slice.start..self.source_slice.end,
            templated_str: self.templated_str.clone(),
            source_str: self.source_str.clone(),
        }
    }
}

/// The text of the bytes `r` of `s`, or no text where they are not a range
/// of `s` that is cut at character boundaries.
pub open spec fn text_or_empty(s: Seq<char>, r: Range<usize>) -> Seq<char> {
    if valid_byte_range(s, r.start as int, r.end as int) {
        slice_text(s, r.start as int, r.end as int)
    } else {
        Seq::empty()
    }
}

/// The text of the bytes `r` of `s`, or no text.
pub fn slice_or_empty(s: &str, r: &Range<usize>) -> (t: String)
    ensures
        t@ == text_or_empty(s@, *r),
{
    match byte_slice(s, r.start, r.end) {
        Some(t) => copy_str(t),
        None => String::new(),
    }
}

/// The patch that a source fix amounts to.
pub open spec fn source_fix_patch(f: SourceFix, file: TemplatedFile) -> FixPatchV {
    FixPatchV {
        templated_slice: f.templated_slice,
        fixed_raw: f.edit@,
        patch_category: "source"@,
        source_slice: f.source_slice,
        templated_str: text_or_empty(file.templated(), f.templated_slice),
        source_str: text_or_empty(file.source(), f.source_slice),
    }
}

/// The patches that the source fixes of a segment amount to.
pub open spec fn source_fix_patches(v: SegV, file: TemplatedFile) -> Seq<FixPatchV> {
    v.source_fixes().map_values(|f: SourceFix| source_fix_patch(f, file))
}

/// Whether a segment of this kind is a marker that holds no text.
pub open spec fn is_trailing_meta(v: SegV) -> bool {
    v.kind.spec_is_meta()
}

/// How many of the first `n` segments are left when the markers without
/// text at their end are dropped.
pub open spec fn trimmed_len(children: Seq<SegV>, n: int) -> int
    decreases n,
{
    if n <= 0 || n > children.len() {
        0
    } else if is_trailing_meta(children[n - 1]) {
        trimmed_len(children, n - 1)
    } else {
        n
    }
}

/// Where the walk over the segments of a node has got to: the patches so
/// far, the offsets reached in the source and in the templated text, and the
/// text of the new segments that wait to be put in.
pub struct PatchWalk {
    pub acc: Seq<FixPatchV>,
    pub source_idx: usize,
    pub templated_idx: usize,
    pub insert_buff: Seq<char>,
}

/// The walk over the first `n` segments of `v`, whose marker is `pos`.
///
/// A segment without a marker is passed over. A segment that has text but
/// no width in either text is new: its text waits. Before any other
/// segment, a patch puts the waiting text, if there is any or if there is a
/// gap in the templated text, in the gap before the first leaf of the
/// segment; then come the patches of the segment itself.
pub open spec fn patch_walk(v: SegV, file: TemplatedFile, pos: PositionMarker, n: int) -> PatchWalk
    decreases v, 0nat, n,
{
    if n <= 0 || n > v.children().len() {
        PatchWalk {
            acc: Seq::empty(),
            source_idx: pos.source_slice.start,
            templated_idx: pos.templated_slice.start,
            insert_buff: Seq::empty(),
        }
    } else {
        let prev = patch_walk(v, file, pos, n - 1);
        let seg = v.children()[n - 1];
        match seg.marker {
            None => prev,
            Some(m) => if seg.raw().len() > 0 && m.spec_is_point() {
                PatchWalk { insert_buff: prev.insert_buff + seg.raw(), ..prev }
            } else {
                let gap = m.templated_slice.start > prev.templated_idx || prev.insert_buff.len() > 0;
                let first = if seg.leaves().len() > 0 && seg.leaves()[0].marker is Some {
                    seg.leaves()[0].marker->0
                } else {
                    m
                };
                let mid = FixPatchV {
                    templated_slice: prev.templated_idx..first.templated_slice.start,
                    fixed_raw: prev.insert_buff,
                    patch_category: "mid_point"@,
                    source_slice: prev.source_idx..first.source_slice.start,
                    templated_str: Seq::empty(),
                    source_str: Seq::empty(),
                };
                PatchWalk {
                    acc: (if gap {
                        prev.acc.push(mid)
                    } else {
                        prev.acc
                    }) + spec_iter_patches(seg, file),
                    source_idx: m.source_slice.end,
                    templated_idx: m.templated_slice.end,
                    insert_buff: if gap {
                        Seq::empty()
                    } else {
                        prev.insert_buff
                    },
                }
            },
        }
    }
}

/// The patches that the segment `v` amounts to, against the file.
///
/// A segment without a marker has none. A segment whose text is the
/// templated text at its place has its source fixes only. A segment in
/// literal source has its source fixes and one patch that puts its text in
/// its place. Any other segment has the patches of its segments in turn,
/// with what has to go between them and after the last.
pub open spec fn spec_iter_patches(v: SegV, file: TemplatedFile) -> Seq<FixPatchV>
    decreases v, 1nat, 0int,
{
    match v.marker {
        None => Seq::empty(),
        Some(pos) => if valid_byte_range(
            file.templated(),
            pos.templated_slice.start as int,
            pos.templated_slice.end as int,
        ) && v.raw() == slice_text(
            file.templated(),
            pos.templated_slice.start as int,
            pos.templated_slice.end as int,
        ) {
            source_fix_patches(v, file)
        } else if pos.spec_is_literal() {
            source_fix_patches(v, file).push(
                FixPatchV {
                    templated_slice: pos.templated_slice,
                    fixed_raw: v.raw(),
                    patch_category: "literal"@,
                    source_slice: pos.source_slice,
                    templated_str: text_or_empty(file.templated(), pos.templated_slice),
                    source_str: text_or_empty(file.source(), pos.source_slice),
                },
            )
        } else if v.children().len() == 0 {
            Seq::empty()
        } else {
            let n = trimmed_len(v.children(), v.children().len() as int);
            let w = patch_walk(v, file, pos, n);
            if pos.templated_slice.end != w.templated_idx || w.insert_buff.len() > 0 {
                w.acc.push(
                    FixPatchV {
                        templated_slice: w.templated_idx..pos.templated_slice.end,
                        fixed_raw: w.insert_buff,
                        patch_category: "end_point"@,
                        source_slice: w.source_idx..pos.source_slice.end,
                        templated_str: text_or_empty(
                            file.templated(),
                            w.templated_idx..pos.templated_slice.end,
                        ),
                        source_str: text_or_empty(file.source(), w.source_idx..pos.source_slice.end),
                    },
                )
            } else {
                w.acc
            }
        },
    }
}

impl ErasedSegment {
    /// The patches that the source fixes of the segment amount to.
    pub fn iter_source_fix_patches(&self, templated_file: &TemplatedFile) -> (r: Vec<FixPatch>)
        ensures
            patch_views(r@) == source_fix_patches(self@, *templated_file),
    {
        let source_fixes = self.get_source_fixes();
        let mut patches: Vec<FixPatch> = Vec::new();
        let mut i: usize = 0;
        while i < source_fixes.len()
            invariant
                i <= source_fixes@.len(),
                patches@.len() == i,
                forall|j: int|
                    0 <= j < i ==> (#[trigger] patches@[j])@ == source_fix_patch(
                        source_fixes@[j],
                        *templated_file,
                    ),
            decreases source_fixes.len() - i,
        {
            let f = &source_fixes[i];
            patches.push(
                FixPatch::new(
                    f.templated_slice.start..f.templated_slice.end,
                    f.edit.clone(),
                    copy_str("source"),
                    f.source_slice.start..f.source_slice.end,
                    slice_or_empty(templated_file.templated_str(), &f.templated_slice),
                    slice_or_empty(templated_file.source_str(), &f.source_slice),
                ),
            );
            i += 1;
        }
        assert(patch_views(patches@) =~= source_fix_patches(self@, *templated_file));
        patches
    }

    /// The patches that the segment amounts to, against the file.
    pub fn iter_patches(&self, templated_file: &TemplatedFile) -> (r: Vec<FixPatch>)
        ensures
            patch_views(r@) == spec_iter_patches(self@, *templated_file),
        decreases self,
    {
        let pos = match self.get_position_marker() {
            Some(p) => p,
            None => {
                let r: Vec<FixPatch> = Vec::new();
                assert(patch_views(r@) =~= Seq::<FixPatchV>::empty());
                return r;
            },
        };
        let raw = self.raw();
        let same = match byte_slice(
            templated_file.templated_str(),
            pos.templated_slice.start,
            pos.templated_slice.end,
        ) {
            Some(t) => str_eq(raw.as_str(), t),
            None => false,
        };
        if same {
            return self.iter_source_fix_patches(templated_file);
        }
        if pos.is_literal() {
            let mut acc = self.iter_source_fix_patches(templated_file);
            let patch = FixPatch::new(
                pos.templated_slice.start..pos.templated_slice.end,
                raw,
                copy_str("literal"),
                pos.source_slice.start..pos.source_slice.end,
                slice_or_empty(templated_file.templated_str(), &pos.templated_slice),
                slice_or_empty(templated_file.source_str(), &pos.source_slice),
            );
            proof {
                lemma_patch_views_push(acc@, patch);
            }
            acc.push(patch);
            return acc;
        }
        let children = self.segments();
        if children.len() == 0 {
            let r: Vec<FixPatch> = Vec::new();
            assert(patch_views(r@) =~= Seq::<FixPatchV>::empty());
            return r;
        }
        let ghost v = self@;
        let ghost file = *templated_file;
        let mut n: usize = children.len();
        while n > 0 && children[n - 1].is_meta()
            invariant
                n <= children@.len(),
                views(children@) == v.children(),
                trimmed_len(v.children(), v.children().len() as int) == trimmed_len(
                    v.children(),
                    n as int,
                ),
            decreases n,
        {
            assert(v.children()[n - 1] == children@[n - 1]@);
            n -= 1;
        }
        proof {
            if n > 0 {
                assert(v.children()[n - 1] == children@[n - 1]@);
            }
        }
        let mut acc: Vec<FixPatch> = Vec::new();
        let mut source_idx = pos.source_slice.start;
        let mut templated_idx = pos.templated_slice.start;
        let mut insert_buff = String::new();
        let mut i: usize = 0;
        assert(patch_views(acc@) =~= Seq::<FixPatchV>::empty());
        while i < n
            invariant
                i <= n <= children@.len(),
                v == self@,
                file == *templated_file,
                views(children@) == v.children(),
                self.value.kind is Node,
                children@ == self.child_vec()@,
                patch_views(acc@) == patch_walk(v, file, *pos, i as int).acc,
                source_idx == patch_walk(v, file, *pos, i as int).source_idx,
                templated_idx == patch_walk(v, file, *pos, i as int).templated_idx,
                insert_buff@ == patch_walk(v, file, *pos, i as int).insert_buff,
            decreases n - i,
        {
            let segment = &children[i];
            assert(v.children()[i as int] == segment@);
            let m = match segment.get_position_marker() {
                Some(m) => m,
                None => {
                    i += 1;
                    continue;
                },
            };
            let seg_raw = segment.raw();
            if seg_raw.as_str().unicode_len() > 0 && m.is_point() {
                insert_buff.append(seg_raw.as_str());
                i += 1;
                continue;
            }
            if m.templated_slice.start > templated_idx || insert_buff.as_str().unicode_len() > 0 {
                let raw_segments = segment.get_raw_segments();
                let first = if raw_segments.len() > 0 {
                    assert(views(raw_segments@)[0] == raw_segments@[0]@);
                    match raw_segments[0].get_position_marker() {
                        Some(f) => f.copy(),
                        None => m.copy(),
                    }
                } else {
                    m.copy()
                };
                let mut fixed_raw = String::new();
                std::mem::swap(&mut fixed_raw, &mut insert_buff);
                let patch = FixPatch::new(
                    templated_idx..first.templated_slice.start,
                    fixed_raw,
                    copy_str("mid_point"),
                    source_idx..first.source_slice.start,
                    String::new(),
                    String::new(),
                );
                proof {
                    lemma_patch_views_push(acc@, patch);
                }
                acc.push(patch);
            }
            proof {
                self.lemma_child_decreases(i as int);
            }
            let mut below = segment.iter_patches(templated_file);
            proof {
                lemma_patch_views_add(acc@, below@);
            }
            acc.append(&mut below);
            source_idx = m.source_slice.end;
            templated_idx = m.templated_slice.end;
            i += 1;
        }
        if pos.templated_slice.end != templated_idx || insert_buff.as_str().unicode_len() > 0 {
            let source_slice = source_idx..pos.source_slice.end;
            let templated_slice = templated_idx..pos.templated_slice.end;
            let templated_str = slice_or_empty(templated_file.templated_str(), &templated_slice);
            let source_str = slice_or_empty(templated_file.source_str(), &source_slice);
            let patch = FixPatch::new(
                templated_slice,
                insert_buff,
                copy_str("end_point"),
                source_slice,
                templated_str,
                source_str,
            );
            proof {
                lemma_patch_views_push(acc@, patch);
            }
            acc.push(patch);
        }
        acc
    }
}

} // verus!
