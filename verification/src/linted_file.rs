//! A linted file, and the text it becomes when its fixes are written out.

use ahash::AHashSet;
use std::ops::Range;
use vstd::prelude::*;
use vstd::string::StringExecFns;

use crate::dedupe::{seen_contains, seen_insert, seen_keys, seen_new};
use crate::errors::{SQLBaseError, SQLLintError};
use crate::patches::{
    lemma_patch_views_push, patch_views, spec_iter_patches, text_or_empty, FixPatch, FixPatchV,
    slice_or_empty,
};
use crate::segment::{ErasedSegment, SegV};
use crate::templater::{RawFileSlice, TemplatedFile};
use crate::text::{byte_len, bytes_of, copy_str};

verus! {

/// What tells two patches apart when duplicates are dropped.
pub open spec fn patch_key(p: FixPatchV) -> (int, int, Seq<char>) {
    (p.source_slice.start as int, p.source_slice.end as int, p.fixed_raw)
}

/// The keys of the first `n` patches.
pub open spec fn keys_upto(p: Seq<FixPatchV>, n: int) -> Set<(int, int, Seq<char>)> {
    Set::new(|k: (int, int, Seq<char>)| exists|j: int| 0 <= j < n && j < p.len() && patch_key(#[trigger] p[j]) == k)
}

/// The first `n` patches without those that put the same text in the same
/// place as an earlier one.
pub open spec fn dedupe_upto(p: Seq<FixPatchV>, n: int) -> Seq<FixPatchV>
    decreases n,
{
    if n <= 0 || n > p.len() {
        Seq::empty()
    } else if keys_upto(p, n - 1).contains(patch_key(p[n - 1])) {
        dedupe_upto(p, n - 1)
    } else {
        dedupe_upto(p, n - 1).push(p[n - 1])
    }
}

/// The first index from `from` on at which `s` holds a patch that starts
/// later in the source than `start`, or the length of `s`.
pub open spec fn later_patch(s: Seq<FixPatchV>, start: usize, from: int) -> int
    decreases s.len() - from,
{
    if from < 0 || from >= s.len() {
        s.len() as int
    } else if s[from].source_slice.start > start {
        from
    } else {
        later_patch(s, start, from + 1)
    }
}

/// The first `n` patches by where they start in the source, those that
/// start at the same place in the order in which they stand.
pub open spec fn by_start_upto(p: Seq<FixPatchV>, n: int) -> Seq<FixPatchV>
    decreases n,
{
    if n <= 0 || n > p.len() {
        Seq::empty()
    } else {
        let s = by_start_upto(p, n - 1);
        s.insert(later_patch(s, p[n - 1].source_slice.start, 0), p[n - 1])
    }
}

/// The patch that takes the bytes `source` out of the source: they are
/// those of a stretch at an end of the file that the tree no longer spans.
pub open spec fn edge_patch(
    file: TemplatedFile,
    source: Range<usize>,
    templated: Range<usize>,
    category: Seq<char>,
) -> FixPatchV {
    FixPatchV {
        templated_slice: templated,
        fixed_raw: Seq::empty(),
        patch_category: category,
        source_slice: source,
        templated_str: text_or_empty(file.templated(), templated),
        source_str: text_or_empty(file.source(), source),
    }
}

/// What of the file lies before what the tree spans, as a patch that
/// takes it out; nothing where the tree has no marker or begins where the
/// file does.
pub open spec fn lead_patches(tree: SegV, file: TemplatedFile) -> Seq<FixPatchV> {
    match tree.marker {
        Some(pos) => if pos.source_slice.start > 0 {
            seq![
                edge_patch(
                    file,
                    0..pos.source_slice.start,
                    0..pos.templated_slice.start,
                    "mid_point"@,
                ),
            ]
        } else {
            Seq::empty()
        },
        None => Seq::empty(),
    }
}

/// What of the file lies after what the tree spans, as a patch that takes
/// it out; nothing where the tree has no marker or ends where the file
/// does.
pub open spec fn tail_patches(tree: SegV, file: TemplatedFile) -> Seq<FixPatchV> {
    match tree.marker {
        Some(pos) => if pos.source_slice.end < bytes_of(file.source()).len() {
            seq![
                edge_patch(
                    file,
                    pos.source_slice.end..(bytes_of(file.source()).len() as usize),
                    pos.templated_slice.end..(bytes_of(file.templated()).len() as usize),
                    "end_point"@,
                ),
            ]
        } else {
            Seq::empty()
        },
        None => Seq::empty(),
    }
}

/// The patches of the tree of a file against the file: what the tree no
/// longer spans at the two ends of the file is taken out, and between them
/// stand the patches of the tree itself; without duplicates, by where they
/// start in the source.
pub open spec fn spec_source_patches(tree: SegV, file: TemplatedFile) -> Seq<FixPatchV> {
    let all = lead_patches(tree, file) + spec_iter_patches(tree, file) + tail_patches(tree, file);
    let kept = dedupe_upto(all, all.len() as int);
    by_start_upto(kept, kept.len() as int)
}

/// Where the slicing of the source has got to: the slices so far, the
/// offset reached, and how many of the source-only slices are behind.
pub struct SliceWalk {
    pub buff: Seq<Range<usize>>,
    pub source_idx: usize,
    pub so_idx: int,
}

/// The range of source that the raw slice covers.
pub open spec fn raw_range(s: RawFileSlice) -> Range<usize> {
    s.source_idx..(s.spec_end_source_idx() as usize)
}

/// Takes in the source-only slices that begin before `limit`: each becomes
/// a slice of its own, after a slice for the source before it if it ends
/// beyond what is covered.
pub open spec fn drain(so: Seq<RawFileSlice>, limit: usize, st: SliceWalk) -> SliceWalk
    decreases so.len() - st.so_idx,
{
    if 0 <= st.so_idx < so.len() && so[st.so_idx].source_idx < limit {
        let next = raw_range(so[st.so_idx]);
        let buff = if next.end > st.source_idx {
            st.buff.push(st.source_idx..next.start)
        } else {
            st.buff
        };
        drain(
            so,
            limit,
            SliceWalk { buff: buff.push(next), source_idx: next.end, so_idx: st.so_idx + 1 },
        )
    } else {
        st
    }
}

/// The slicing of the source by the first `n` patches and the source-only
/// slices before them.
///
/// Before a patch come the source-only slices that begin before it. A
/// source-only slice that covers what the patch covers gives way to it. A
/// patch that starts in what is covered already is passed over; else the
/// source up to it becomes a slice, if there is any, and then the patch.
pub open spec fn slice_walk(patches: Seq<FixPatchV>, so: Seq<RawFileSlice>, n: int) -> SliceWalk
    decreases n,
{
    if n <= 0 || n > patches.len() {
        SliceWalk { buff: Seq::empty(), source_idx: 0, so_idx: 0 }
    } else {
        let p = patches[n - 1].source_slice;
        let d = drain(so, p.start, slice_walk(patches, so, n - 1));
        let so_idx = if 0 <= d.so_idx < so.len() && p == raw_range(so[d.so_idx]) {
            d.so_idx + 1
        } else {
            d.so_idx
        };
        if p.start < d.source_idx {
            SliceWalk { buff: d.buff, source_idx: d.source_idx, so_idx }
        } else {
            SliceWalk {
                buff: (if p.start > d.source_idx {
                    d.buff.push(d.source_idx..p.start)
                } else {
                    d.buff
                }).push(p),
                source_idx: p.end,
                so_idx,
            }
        }
    }
}

/// The slices into which the patches and the source-only slices cut a
/// source of `len` bytes: what the walk gives, and the rest of the source.
pub open spec fn spec_slices(patches: Seq<FixPatchV>, so: Seq<RawFileSlice>, len: int) -> Seq<
    Range<usize>,
> {
    let w = slice_walk(patches, so, patches.len() as int);
    if w.source_idx < len {
        w.buff.push(w.source_idx..(len as usize))
    } else {
        w.buff
    }
}

/// The index of the first patch from `from` on that covers exactly
/// `slice`, or the number of patches.
pub open spec fn patch_for(patches: Seq<FixPatchV>, slice: Range<usize>, from: int) -> int
    decreases patches.len() - from,
{
    if from < 0 || from >= patches.len() {
        patches.len() as int
    } else if patches[from].source_slice == slice {
        from
    } else {
        patch_for(patches, slice, from + 1)
    }
}

/// The text that stands for `slice` in the fixed source: that of the first
/// patch that covers exactly the slice, else the source itself.
pub open spec fn piece(patches: Seq<FixPatchV>, raw: Seq<char>, slice: Range<usize>) -> Seq<char> {
    let k = patch_for(patches, slice, 0);
    if k < patches.len() {
        patches[k].fixed_raw
    } else {
        text_or_empty(raw, slice)
    }
}

/// The fixed source as far as the first `n` slices go.
pub open spec fn built_upto(
    slices: Seq<Range<usize>>,
    patches: Seq<FixPatchV>,
    raw: Seq<char>,
    n: int,
) -> Seq<char>
    decreases n,
{
    if n <= 0 || n > slices.len() {
        Seq::empty()
    } else {
        built_upto(slices, patches, raw, n - 1) + piece(patches, raw, slices[n - 1])
    }
}

/// The fixed source of a tree against its file.
pub open spec fn spec_fix_string(tree: SegV, file: TemplatedFile) -> Seq<char> {
    let patches = spec_source_patches(tree, file);
    let so = file.raw_sliced().filter(|s: RawFileSlice| s.spec_is_source_only_slice());
    let slices = spec_slices(patches, so, bytes_of(file.source()).len() as int);
    built_upto(slices, patches, file.source(), slices.len() as int)
}

#[derive(Debug)]
pub struct LintedFile {
    pub path: String,
    pub tree: ErasedSegment,
    pub templated_file: TemplatedFile,
    pub violations: Vec<SQLLintError>,
}

impl LintedFile {
    /// The violations of the file.
    pub fn get_violations(&self, fixable: Option<bool>) -> (r: Vec<SQLBaseError>)
        ensures
            r@.len() == self.violations@.len(),
            forall|i: int| 0 <= i < r@.len() ==> r@[i] == self.violations@[i].base,
    {
        let mut out: Vec<SQLBaseError> = Vec::new();
        let mut i: usize = 0;
        while i < self.violations.len()
            invariant
                i <= self.violations@.len(),
                out@.len() == i,
                forall|j: int| 0 <= j < i ==> out@[j] == self.violations@[j].base,
            decreases self.violations.len() - i,
        {
            out.push(self.violations[i].to_base());
            i += 1;
        }
        out
    }

    /// The fixed source: for each slice in turn the text of the patch that
    /// covers it, or the source itself.
    pub fn build_up_fixed_source_string(
        source_file_slices: &[Range<usize>],
        source_patches: &[FixPatch],
        raw_source_string: &str,
    ) -> (r: String)
        ensures
            r@ == built_upto(
                source_file_slices@,
                patch_views(source_patches@),
                raw_source_string@,
                source_file_slices@.len() as int,
            ),
    {
        let ghost patches = patch_views(source_patches@);
        let mut str_buff = String::new();
        let mut i: usize = 0;
        while i < source_file_slices.len()
            invariant
                i <= source_file_slices@.len(),
                patches == patch_views(source_patches@),
                str_buff@ == built_upto(
                    source_file_slices@,
                    patches,
                    raw_source_string@,
                    i as int,
                ),
            decreases source_file_slices.len() - i,
        {
            let source_slice = &source_file_slices[i];
            let mut k: usize = 0;
            while k < source_patches.len() && !(source_patches[k].source_slice.start
                == source_slice.start && source_patches[k].source_slice.end == source_slice.end)
                invariant
                    k <= source_patches@.len(),
                    patches == patch_views(source_patches@),
                    patch_for(patches, *source_slice, 0) == patch_for(
                        patches,
                        *source_slice,
                        k as int,
                    ),
                decreases source_patches.len() - k,
            {
                assert(patches[k as int] == source_patches@[k as int]@);
                k += 1;
            }
            if k < source_patches.len() {
                assert(patches[k as int] == source_patches@[k as int]@);
                str_buff.append(source_patches[k].fixed_raw.as_str());
            } else {
                let t = slice_or_empty(raw_source_string, source_slice);
                str_buff.append(t.as_str());
            }
            i += 1;
        }
        str_buff
    }

    /// The source of the file with its fixes written out.
    pub fn fix_string(&self) -> (r: String)
        ensures
            r@ == spec_fix_string(self.tree@, self.templated_file),
    {
        let filtered_source_patches = LintedFile::generate_source_patches(
            self.tree.copy(),
            &self.templated_file,
        );
        let source_only_slices = self.templated_file.source_only_slices();
        let mut again: Vec<FixPatch> = Vec::new();
        let mut i: usize = 0;
        while i < filtered_source_patches.len()
            invariant
                i <= filtered_source_patches@.len(),
                again@ == filtered_source_patches@.subrange(0, i as int),
            decreases filtered_source_patches.len() - i,
        {
            again.push(filtered_source_patches[i].copy());
            i += 1;
            assert(again@ =~= filtered_source_patches@.subrange(0, i as int));
        }
        assert(filtered_source_patches@.subrange(0, i as int) =~= filtered_source_patches@);
        let slice_buff = LintedFile::slice_source_file_using_patches(
            again,
            source_only_slices,
            self.templated_file.source_str(),
        );
        LintedFile::build_up_fixed_source_string(
            slice_buff.as_slice(),
            filtered_source_patches.as_slice(),
            self.templated_file.source_str(),
        )
    }

    /// The patches of a tree against a file: without duplicates, by where
    /// they start in the source.
    pub fn generate_source_patches(tree: ErasedSegment, templated_file: &TemplatedFile) -> (r: Vec<
        FixPatch,
    >)
        ensures
            patch_views(r@) == spec_source_patches(tree@, *templated_file),
    {
        let mut all: Vec<FixPatch> = Vec::new();
        let source_len = byte_len(templated_file.source_str());
        let templated_len = byte_len(templated_file.templated_str());
        assert(patch_views(all@) =~= Seq::<FixPatchV>::empty());
        match tree.get_position_marker() {
            Some(pos) => {
                if pos.source_slice.start > 0 {
                    let source = 0..pos.source_slice.start;
                    let templated = 0..pos.templated_slice.start;
                    let lead = FixPatch::new(
                        0..pos.templated_slice.start,
                        String::new(),
                        copy_str("mid_point"),
                        0..pos.source_slice.start,
                        slice_or_empty(templated_file.templated_str(), &templated),
                        slice_or_empty(templated_file.source_str(), &source),
                    );
                    all.push(lead);
                    assert(patch_views(all@) =~= lead_patches(tree@, *templated_file));
                }
            },
            None => {},
        }
        let ghost with_lead = all@;
        let mut inner = tree.iter_patches(templated_file);
        proof {
            crate::patches::lemma_patch_views_add(with_lead, inner@);
        }
        all.append(&mut inner);
        let ghost with_inner = all@;
        match tree.get_position_marker() {
            Some(pos) => {
                if pos.source_slice.end < source_len {
                    let source = pos.source_slice.end..source_len;
                    let templated = pos.templated_slice.end..templated_len;
                    let tail = FixPatch::new(
                        pos.templated_slice.end..templated_len,
                        String::new(),
                        copy_str("end_point"),
                        pos.source_slice.end..source_len,
                        slice_or_empty(templated_file.templated_str(), &templated),
                        slice_or_empty(templated_file.source_str(), &source),
                    );
                    proof {
                        crate::patches::lemma_patch_views_push(with_inner, tail);
                    }
                    all.push(tail);
                    assert(patch_views(all@) =~= patch_views(with_inner) + tail_patches(
                        tree@,
                        *templated_file,
                    ));
                }
            },
            None => {},
        }
        assert(patch_views(all@) =~= lead_patches(tree@, *templated_file) + spec_iter_patches(
            tree@,
            *templated_file,
        ) + tail_patches(tree@, *templated_file));
        let ghost p = patch_views(all@);
        let mut kept: Vec<FixPatch> = Vec::new();
        let mut dedupe_buffer: AHashSet<(Range<usize>, String)> = seen_new();
        let mut i: usize = 0;
        assert(patch_views(kept@) =~= Seq::<FixPatchV>::empty());
        assert(seen_keys(dedupe_buffer) =~= keys_upto(p, 0));
        while i < all.len()
            invariant
                i <= all@.len(),
                p == patch_views(all@),
                patch_views(kept@) == dedupe_upto(p, i as int),
                seen_keys(dedupe_buffer) == keys_upto(p, i as int),
            decreases all.len() - i,
        {
            let patch = &all[i];
            let key = patch.dedupe_tuple();
            assert(p[i as int] == patch@);
            proof {
                assert(keys_upto(p, i + 1) =~= keys_upto(p, i as int).insert(patch_key(p[i as int])))
                    by {
                    assert forall|k: (int, int, Seq<char>)|
                        keys_upto(p, i + 1).contains(k) <==> keys_upto(p, i as int).insert(
                            patch_key(p[i as int]),
                        ).contains(k) by {
                        if keys_upto(p, i + 1).contains(k) {
                            let j = choose|j: int|
                                0 <= j < i + 1 && j < p.len() && patch_key(#[trigger] p[j]) == k;
                            if j < i {
                                assert(keys_upto(p, i as int).contains(k));
                            }
                        }
                        if keys_upto(p, i as int).contains(k) {
                            let j = choose|j: int|
                                0 <= j < i && j < p.len() && patch_key(#[trigger] p[j]) == k;
                            assert(patch_key(p[j]) == k);
                        }
                        if patch_key(p[i as int]) == k {
                            assert(0 <= i < i + 1 && patch_key(p[i as int]) == k);
                        }
                    }
                }
            }
            if seen_contains(&dedupe_buffer, &key) {
                i += 1;
                continue;
            }
            let copy = patch.copy();
            proof {
                lemma_patch_views_push(kept@, copy);
            }
            kept.push(copy);
            seen_insert(&mut dedupe_buffer, key);
            i += 1;
        }
        // By where they start in the source, which keeps the order of
        // patches that start at the same place.
        let ghost q = patch_views(kept@);
        let mut sorted: Vec<FixPatch> = Vec::new();
        let mut n: usize = 0;
        assert(patch_views(sorted@) =~= Seq::<FixPatchV>::empty());
        while n < kept.len()
            invariant
                n <= kept@.len(),
                q == patch_views(kept@),
                patch_views(sorted@) == by_start_upto(q, n as int),
            decreases kept.len() - n,
        {
            let patch = kept[n].copy();
            assert(q[n as int] == patch@);
            let mut k: usize = 0;
            while k < sorted.len() && sorted[k].source_slice.start <= patch.source_slice.start
                invariant
                    k <= sorted@.len(),
                    later_patch(patch_views(sorted@), patch.source_slice.start, 0) == later_patch(
                        patch_views(sorted@),
                        patch.source_slice.start,
                        k as int,
                    ),
                decreases sorted.len() - k,
            {
                assert(patch_views(sorted@)[k as int] == sorted@[k as int]@);
                k += 1;
            }
            proof {
                if k < sorted.len() {
                    assert(patch_views(sorted@)[k as int] == sorted@[k as int]@);
                }
                assert(patch_views(sorted@.insert(k as int, patch)) =~= patch_views(
                    sorted@,
                ).insert(k as int, patch@));
            }
            sorted.insert(k, patch);
            n += 1;
        }
        sorted
    }

    /// The slices into which the patches and the source-only slices cut the
    /// source, so that each patch that is applied has a slice of its own.
    pub fn slice_source_file_using_patches(
        source_patches: Vec<FixPatch>,
        source_only_slices: Vec<RawFileSlice>,
        raw_source_string: &str,
    ) -> (r: Vec<Range<usize>>)
        ensures
            r@ == spec_slices(
                patch_views(source_patches@),
                source_only_slices@,
                bytes_of(raw_source_string@).len() as int,
            ),
    {
        let ghost patches = patch_views(source_patches@);
        let ghost so = source_only_slices@;
        let mut slice_buff: Vec<Range<usize>> = Vec::new();
        let mut source_idx: usize = 0;
        let mut so_idx: usize = 0;
        let mut i: usize = 0;
        while i < source_patches.len()
            invariant
                i <= source_patches@.len(),
                patches == patch_views(source_patches@),
                so == source_only_slices@,
                so_idx <= so.len(),
                slice_buff@ == slice_walk(patches, so, i as int).buff,
                source_idx == slice_walk(patches, so, i as int).source_idx,
                so_idx == slice_walk(patches, so, i as int).so_idx,
            decreases source_patches.len() - i,
        {
            let patch = &source_patches[i];
            assert(patches[i as int] == patch@);
            let ghost start = slice_walk(patches, so, i as int);
            while so_idx < source_only_slices.len() && source_only_slices[so_idx].source_idx
                < patch.source_slice.start
                invariant
                    so == source_only_slices@,
                    so_idx <= so.len(),
                    drain(so, patch.source_slice.start, start) == drain(
                        so,
                        patch.source_slice.start,
                        SliceWalk { buff: slice_buff@, source_idx, so_idx: so_idx as int },
                    ),
                decreases source_only_slices.len() - so_idx,
            {
                let next_so_slice = source_only_slices[so_idx].source_slice();
                so_idx += 1;
                if next_so_slice.end > source_idx {
                    slice_buff.push(source_idx..next_so_slice.start);
                }
                source_idx = next_so_slice.end;
                slice_buff.push(next_so_slice);
            }
            if so_idx < source_only_slices.len() {
                let s = source_only_slices[so_idx].source_slice();
                if patch.source_slice.start == s.start && patch.source_slice.end == s.end {
                    so_idx += 1;
                }
            }
            if patch.source_slice.start > source_idx {
                slice_buff.push(source_idx..patch.source_slice.start);
            }
            if patch.source_slice.start < source_idx {
                i += 1;
                continue;
            }
            slice_buff.push(patch.source_slice.start..patch.source_slice.end);
            source_idx = patch.source_slice.end;
            i += 1;
        }
        let len = byte_len(raw_source_string);
        if source_idx < len {
            slice_buff.push(source_idx..len);
        }
        slice_buff
    }
}

} // verus!
