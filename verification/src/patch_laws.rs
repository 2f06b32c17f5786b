//! What holds of the fixed source when the patches follow each other
//! without overlap: it is the source with each patch put in its place, and
//! nothing else of it is touched.

use std::ops::Range;
use vstd::prelude::*;

use crate::linted_file::{
    built_upto, by_start_upto, dedupe_upto, drain, keys_upto, later_patch, lead_patches, patch_for,
    patch_key, piece, raw_range, slice_walk, spec_fix_string, spec_slices, spec_source_patches,
    tail_patches, SliceWalk,
};
use crate::patches::spec_iter_patches;
use crate::patches::{text_or_empty, FixPatchV};
use crate::segment::SegV;
use crate::templater::{RawFileSlice, TemplatedFile};
use crate::text::{bytes_of, valid_byte_range};

verus! {

/// Whether the patches follow each other in a source of `len` bytes: each
/// lies within the source, none starts before the one before it ends, and
/// no two that follow each other cover the same range.
pub open spec fn ordered(patches: Seq<FixPatchV>, len: int) -> bool {
    &&& 0 <= len
    &&& forall|i: int| 0 <= i < patches.len() ==> #[trigger] within(patches, i, len)
    &&& forall|i: int| 0 < i < patches.len() ==> #[trigger] follows(patches, i)
}

/// Whether patch `i` lies within a source of `len` bytes.
pub open spec fn within(patches: Seq<FixPatchV>, i: int, len: int) -> bool {
    patches[i].source_slice.start <= patches[i].source_slice.end <= len
}

/// Whether patch `i` starts no earlier than the patch before it ends, and
/// covers another range.
pub open spec fn follows(patches: Seq<FixPatchV>, i: int) -> bool {
    patches[i - 1].source_slice.end <= patches[i].source_slice.start && patches[i
        - 1].source_slice != patches[i].source_slice
}

/// The offset up to which the first `n` patches reach.
pub open spec fn reach(patches: Seq<FixPatchV>, n: int) -> int {
    if n <= 0 || n > patches.len() {
        0
    } else {
        patches[n - 1].source_slice.end as int
    }
}

/// The slices that the first `n` patches cut: before each patch the
/// source since the patch before it, if there is any, and then the patch.
pub open spec fn cuts(patches: Seq<FixPatchV>, n: int) -> Seq<Range<usize>>
    decreases n,
{
    if n <= 0 || n > patches.len() {
        Seq::empty()
    } else {
        let p = patches[n - 1].source_slice;
        let prev = cuts(patches, n - 1);
        if p.start > reach(patches, n - 1) {
            prev.push((reach(patches, n - 1) as usize)..p.start).push(p)
        } else {
            prev.push(p)
        }
    }
}

/// The source as the first `n` patches leave it, up to where they reach:
/// before each patch the source since the patch before it, untouched, and
/// then the text of the patch.
pub open spec fn patched_upto(source: Seq<char>, patches: Seq<FixPatchV>, n: int) -> Seq<char>
    decreases n,
{
    if n <= 0 || n > patches.len() {
        Seq::empty()
    } else {
        let p = patches[n - 1];
        patched_upto(source, patches, n - 1) + text_or_empty(
            source,
            (reach(patches, n - 1) as usize)..p.source_slice.start,
        ) + p.fixed_raw
    }
}

/// The source as the patches leave it: what they make of it up to where
/// they reach, and the rest of it, untouched.
pub open spec fn patched(source: Seq<char>, patches: Seq<FixPatchV>) -> Seq<char> {
    let len = bytes_of(source).len() as int;
    let n = patches.len() as int;
    patched_upto(source, patches, n) + text_or_empty(source, (reach(patches, n) as usize)..(
    len as usize))
}

/// Without source-only slices nothing is taken in before a patch.
pub proof fn lemma_drain_nothing(limit: usize, st: SliceWalk)
    ensures
        drain(Seq::<RawFileSlice>::empty(), limit, st) == st,
{
}

/// Without source-only slices, patches that follow each other cut the
/// source into the slices of `cuts`.
pub proof fn lemma_walk_is_cuts(patches: Seq<FixPatchV>, len: int, n: int)
    requires
        ordered(patches, len),
        0 <= n <= patches.len(),
    ensures
        slice_walk(patches, Seq::<RawFileSlice>::empty(), n).buff == cuts(patches, n),
        slice_walk(patches, Seq::<RawFileSlice>::empty(), n).source_idx == reach(patches, n),
        slice_walk(patches, Seq::<RawFileSlice>::empty(), n).so_idx == 0,
    decreases n,
{
    if n > 0 {
        lemma_walk_is_cuts(patches, len, n - 1);
        let so = Seq::<RawFileSlice>::empty();
        let prev = slice_walk(patches, so, n - 1);
        let p = patches[n - 1].source_slice;
        lemma_drain_nothing(p.start, prev);
        if n - 1 > 0 {
            assert(follows(patches, n - 1));
        }
    }
}

/// The slices of patches that follow each other lie side by side: each
/// begins where the one before it ends, the first at the start of the source,
/// and none runs backwards or past where the patches reach.
pub proof fn lemma_cuts_tile(patches: Seq<FixPatchV>, len: int, n: int)
    requires
        ordered(patches, len),
        0 <= n <= patches.len(),
    ensures
        forall|i: int|
            0 <= i < cuts(patches, n).len() ==> (#[trigger] cuts(patches, n)[i]).start <= cuts(
                patches,
                n,
            )[i].end <= len,
        forall|i: int|
            0 < i < cuts(patches, n).len() ==> (#[trigger] cuts(patches, n)[i]).start == cuts(
                patches,
                n,
            )[i - 1].end,
        cuts(patches, n).len() > 0 ==> cuts(patches, n)[0].start == 0 && cuts(
            patches,
            n,
        ).last().end == reach(patches, n),
        cuts(patches, n).len() == 0 ==> n == 0,
        0 <= reach(patches, n) <= len,
    decreases n,
{
    if n > 0 {
        lemma_cuts_tile(patches, len, n - 1);
        if n - 1 > 0 {
            assert(follows(patches, n - 1));
        }
        let prev = cuts(patches, n - 1);
        let cur = cuts(patches, n);
        let p = patches[n - 1].source_slice;
        assert(within(patches, n - 1, len));
        if p.start > reach(patches, n - 1) {
            let gap = (reach(patches, n - 1) as usize)..p.start;
            assert(cur == prev.push(gap).push(p));
            assert forall|i: int| 0 < i < cur.len() implies (#[trigger] cur[i]).start == cur[i
                - 1].end by {
                if i < prev.len() {
                    assert(cur[i] == prev[i]);
                    assert(cur[i - 1] == prev[i - 1]);
                } else if i == prev.len() {
                    if prev.len() > 0 {
                        assert(cur[i - 1] == prev.last());
                    }
                }
            }
            assert forall|i: int| 0 <= i < cur.len() implies (#[trigger] cur[i]).start
                <= cur[i].end <= len by {
                if i < prev.len() {
                    assert(cur[i] == prev[i]);
                }
            }
            if prev.len() > 0 {
                assert(cur[0] == prev[0]);
            }
        } else {
            assert(cur == prev.push(p));
            assert forall|i: int| 0 < i < cur.len() implies (#[trigger] cur[i]).start == cur[i
                - 1].end by {
                if i < prev.len() {
                    assert(cur[i] == prev[i]);
                    assert(cur[i - 1] == prev[i - 1]);
                } else {
                    if prev.len() > 0 {
                        assert(cur[i - 1] == prev.last());
                    }
                }
            }
            assert forall|i: int| 0 <= i < cur.len() implies (#[trigger] cur[i]).start
                <= cur[i].end <= len by {
                if i < prev.len() {
                    assert(cur[i] == prev[i]);
                }
            }
            if prev.len() > 0 {
                assert(cur[0] == prev[0]);
            }
        }
    }
}

/// Among patches that follow each other, the first that covers the range
/// of patch `i` is patch `i` itself.
pub proof fn lemma_patch_for_own(patches: Seq<FixPatchV>, len: int, i: int, from: int)
    requires
        ordered(patches, len),
        0 <= from <= i < patches.len(),
    ensures
        patch_for(patches, patches[i].source_slice, from) == i,
    decreases i - from,
{
    if from < i {
        lemma_no_earlier_same(patches, len, from, i);
        lemma_patch_for_own(patches, len, i, from + 1);
    }
}

/// Patches that follow each other start and end in order.
pub proof fn lemma_ordered_mono(patches: Seq<FixPatchV>, len: int, a: int, b: int)
    requires
        ordered(patches, len),
        0 <= a < b < patches.len(),
    ensures
        patches[a].source_slice.end <= patches[b].source_slice.start,
        patches[a].source_slice.start <= patches[b].source_slice.start,
        patches[a].source_slice.end <= patches[b].source_slice.end,
    decreases b - a,
{
    assert(follows(patches, b));
    assert(within(patches, a, len));
    assert(within(patches, b, len));
    if a < b - 1 {
        lemma_ordered_mono(patches, len, a, b - 1);
        assert(within(patches, b - 1, len));
    }
}

/// No two of the patches that follow each other cover the same range.
pub proof fn lemma_no_earlier_same(patches: Seq<FixPatchV>, len: int, a: int, b: int)
    requires
        ordered(patches, len),
        0 <= a < b < patches.len(),
    ensures
        patches[a].source_slice != patches[b].source_slice,
{
    lemma_ordered_mono(patches, len, a, b);
    assert(follows(patches, b));
    if a < b - 1 {
        lemma_ordered_mono(patches, len, a, b - 1);
        assert(within(patches, b - 1, len));
        assert(within(patches, a, len));
        assert(within(patches, b, len));
    }
}

/// No patch covers exactly the source between two patches that follow each
/// other, where there is any.
pub proof fn lemma_patch_for_gap(patches: Seq<FixPatchV>, len: int, n: int, from: int)
    requires
        ordered(patches, len),
        0 < n <= patches.len(),
        0 <= from <= patches.len(),
        patches[n - 1].source_slice.start > reach(patches, n - 1),
    ensures
        patch_for(
            patches,
            (reach(patches, n - 1) as usize)..patches[n - 1].source_slice.start,
            from,
        ) == patches.len(),
    decreases patches.len() - from,
{
    if from < patches.len() {
        let gap = (reach(patches, n - 1) as usize)..patches[n - 1].source_slice.start;
        assert(within(patches, from, len));
        if from < n - 1 {
            if n - 1 > 0 {
                if from < n - 2 {
                    lemma_ordered_mono(patches, len, from, n - 2);
                }
                assert(within(patches, n - 2, len));
            }
            assert(patches[from].source_slice != gap);
        } else if from == n - 1 {
            assert(patches[from].source_slice != gap);
        } else {
            lemma_ordered_mono(patches, len, n - 1, from);
            assert(within(patches, n - 1, len));
            assert(patches[from].source_slice != gap);
        }
        lemma_patch_for_gap(patches, len, n, from + 1);
    }
}

/// What is built over more slices begins with what is built over fewer.
pub proof fn lemma_built_prefix(
    a: Seq<Range<usize>>,
    b: Seq<Range<usize>>,
    patches: Seq<FixPatchV>,
    raw: Seq<char>,
    n: int,
)
    requires
        0 <= n <= a.len() <= b.len(),
        forall|i: int| 0 <= i < a.len() ==> a[i] == b[i],
    ensures
        built_upto(a, patches, raw, n) == built_upto(b, patches, raw, n),
    decreases n,
{
    if n > 0 {
        lemma_built_prefix(a, b, patches, raw, n - 1);
    }
}

/// Over the slices of patches that follow each other, the fixed source is
/// built as `patched_upto` says.
pub proof fn lemma_built_is_patched(source: Seq<char>, patches: Seq<FixPatchV>, len: int, n: int)
    requires
        ordered(patches, len),
        0 <= n <= patches.len(),
    ensures
        built_upto(cuts(patches, n), patches, source, cuts(patches, n).len() as int)
            == patched_upto(source, patches, n),
    decreases n,
{
    if n > 0 {
        lemma_built_is_patched(source, patches, len, n - 1);
        let prev = cuts(patches, n - 1);
        let cur = cuts(patches, n);
        let p = patches[n - 1];
        lemma_patch_for_own(patches, len, n - 1, 0);
        lemma_built_prefix(prev, cur, patches, source, prev.len() as int);
        if p.source_slice.start > reach(patches, n - 1) {
            let gap = (reach(patches, n - 1) as usize)..p.source_slice.start;
            lemma_patch_for_gap(patches, len, n, 0);
            assert(cur == prev.push(gap).push(p.source_slice));
            assert(piece(patches, source, gap) == text_or_empty(source, gap));
            assert(piece(patches, source, p.source_slice) == p.fixed_raw);
            assert(built_upto(cur, patches, source, prev.len() as int + 1) == built_upto(
                cur,
                patches,
                source,
                prev.len() as int,
            ) + piece(patches, source, cur[prev.len() as int]));
        } else {
            let gap = (reach(patches, n - 1) as usize)..p.source_slice.start;
            if n - 1 > 0 {
                assert(follows(patches, n - 1));
            }
            assert(gap.start == gap.end);
            lemma_empty_range_text(source, gap);
            assert(cur == prev.push(p.source_slice));
            assert(patched_upto(source, patches, n - 1) + Seq::<char>::empty() + p.fixed_raw
                =~= patched_upto(source, patches, n - 1) + p.fixed_raw);
        }
    }
}

/// An empty range holds no text.
pub proof fn lemma_empty_range_text(source: Seq<char>, r: Range<usize>)
    requires
        r.start == r.end,
    ensures
        text_or_empty(source, r) == Seq::<char>::empty(),
{
    if valid_byte_range(source, r.start as int, r.end as int) {
        assert(bytes_of(source).subrange(r.start as int, r.end as int) =~= Seq::<u8>::empty());
        assert(vstd::utf8::decode_utf8(Seq::<u8>::empty()) =~= Seq::<char>::empty()) by {
            reveal_with_fuel(vstd::utf8::decode_utf8, 1);
            reveal_with_fuel(vstd::utf8::valid_utf8, 1);
        }
    }
}

/// Where the patches follow each other and there are no source-only
/// slices, the fixed source is the source with the text of each patch in
/// the place of the range that the patch covers: all that lies between the
/// patches, before the first and after the last is the source, untouched.
pub proof fn lemma_fixed_is_patched(source: Seq<char>, patches: Seq<FixPatchV>)
    requires
        ordered(patches, bytes_of(source).len() as int),
        bytes_of(source).len() <= usize::MAX,
    ensures
        ({
            let slices = spec_slices(
                patches,
                Seq::<RawFileSlice>::empty(),
                bytes_of(source).len() as int,
            );
            built_upto(slices, patches, source, slices.len() as int)
        }) == patched(source, patches),
{
    let len = bytes_of(source).len() as int;
    let n = patches.len() as int;
    let so = Seq::<RawFileSlice>::empty();
    lemma_walk_is_cuts(patches, len, n);
    lemma_built_is_patched(source, patches, len, n);
    lemma_cuts_tile(patches, len, n);
    let w = slice_walk(patches, so, n);
    let slices = spec_slices(patches, so, len);
    if w.source_idx < len {
        let tail = (reach(patches, n) as usize)..(len as usize);
        assert(slices == cuts(patches, n).push(tail));
        lemma_built_prefix(cuts(patches, n), slices, patches, source, cuts(patches, n).len() as int);
        lemma_patch_for_tail(patches, len, 0);
        assert(piece(patches, source, tail) == text_or_empty(source, tail));
    } else {
        let tail = (reach(patches, n) as usize)..(len as usize);
        assert(tail.start == tail.end);
        lemma_empty_range_text(source, tail);
        assert(patched_upto(source, patches, n) + Seq::<char>::empty() =~= patched_upto(
            source,
            patches,
            n,
        ));
    }
}

/// No patch covers exactly the source after the last patch, where there
/// is any.
pub proof fn lemma_patch_for_tail(patches: Seq<FixPatchV>, len: int, from: int)
    requires
        ordered(patches, len),
        0 <= from <= patches.len(),
        reach(patches, patches.len() as int) < len,
        len <= usize::MAX,
    ensures
        patch_for(
            patches,
            (reach(patches, patches.len() as int) as usize)..(len as usize),
            from,
        ) == patches.len(),
    decreases patches.len() - from,
{
    if from < patches.len() {
        let n = patches.len() as int;
        assert(within(patches, from, len));
        assert(within(patches, n - 1, len));
        if from < n - 1 {
            lemma_ordered_mono(patches, len, from, n - 1);
        }
        lemma_patch_for_tail(patches, len, from + 1);
    }
}

/// The fixed source depends on the tree and the file alone: the same tree
/// against the same file gives the same text.
pub proof fn lemma_fix_string_determined(a: SegV, b: SegV, f: TemplatedFile, g: TemplatedFile)
    requires
        a == b,
        f == g,
    ensures
        spec_fix_string(a, f) == spec_fix_string(b, g),
{
}

/// Whether the slices lie one after the other from the start of the
/// source up to `upto`, each beginning where the one before it ends: no
/// two of them overlap, and nothing lies between them.
pub open spec fn tiles(buff: Seq<Range<usize>>, upto: int, len: int) -> bool {
    &&& forall|i: int| 0 <= i < buff.len() ==> (#[trigger] buff[i]).start <= buff[i].end <= len
    &&& forall|i: int| 0 < i < buff.len() ==> (#[trigger] buff[i]).start == buff[i - 1].end
    &&& buff.len() > 0 ==> buff[0].start == 0 && buff.last().end == upto
    &&& buff.len() == 0 ==> upto == 0
}

/// One slice more, which begins where the slices end, goes on the tiling.
pub proof fn lemma_tiles_push(buff: Seq<Range<usize>>, upto: int, len: int, next: Range<usize>)
    requires
        tiles(buff, upto, len),
        next.start == upto,
        next.start <= next.end <= len,
    ensures
        tiles(buff.push(next), next.end as int, len),
{
    let cur = buff.push(next);
    assert forall|i: int| 0 <= i < cur.len() implies (#[trigger] cur[i]).start <= cur[i].end
        <= len by {
        if i < buff.len() {
            assert(cur[i] == buff[i]);
        }
    }
    assert forall|i: int| 0 < i < cur.len() implies (#[trigger] cur[i]).start == cur[i - 1].end by {
        if i < buff.len() {
            assert(cur[i] == buff[i]);
            assert(cur[i - 1] == buff[i - 1]);
        } else {
            assert(cur[i - 1] == buff.last());
        }
    }
    if buff.len() > 0 {
        assert(cur[0] == buff[0]);
    }
}

/// Whether the patch leaves the source-only slice alone: it covers it
/// exactly, or lies before it or after it.
pub open spec fn clear_of(p: FixPatchV, s: RawFileSlice) -> bool {
    p.source_slice.end <= raw_range(s).start || raw_range(s).end <= p.source_slice.start
        || p.source_slice == raw_range(s)
}

/// Whether the source-only slices lie in a source of `len` bytes one after
/// the other, none of them empty, and no patch cuts into one of them.
pub open spec fn slices_apart(patches: Seq<FixPatchV>, so: Seq<RawFileSlice>, len: int) -> bool {
    &&& forall|k: int|
        0 <= k < so.len() ==> raw_range(#[trigger] so[k]).start < raw_range(so[k]).end <= len
    &&& forall|i: int, k: int|
        0 <= i < k < so.len() ==> raw_range(#[trigger] so[i]).end <= raw_range(
            #[trigger] so[k],
        ).start
    &&& forall|j: int, k: int|
        0 <= j < patches.len() && 0 <= k < so.len() ==> clear_of(
            #[trigger] patches[j],
            #[trigger] so[k],
        )
}

/// Whether the walk stands well: its slices lie one after the other up to
/// where it has got to, and the source-only slices that it has not taken
/// in begin there or later.
pub open spec fn walk_ok(st: SliceWalk, so: Seq<RawFileSlice>, len: int) -> bool {
    &&& tiles(st.buff, st.source_idx as int, len)
    &&& st.source_idx <= len
    &&& 0 <= st.so_idx <= so.len()
    &&& forall|k: int|
        st.so_idx <= k < so.len() ==> raw_range(#[trigger] so[k]).start >= st.source_idx
}

/// Taking in the source-only slices that begin before `limit` leaves the
/// walk standing well; those that are left begin at `limit` or later.
pub proof fn lemma_drain_ok(
    patches: Seq<FixPatchV>,
    so: Seq<RawFileSlice>,
    len: int,
    limit: usize,
    st: SliceWalk,
)
    requires
        slices_apart(patches, so, len),
        walk_ok(st, so, len),
    ensures
        walk_ok(drain(so, limit, st), so, len),
        forall|k: int|
            drain(so, limit, st).so_idx <= k < so.len() ==> raw_range(#[trigger] so[k]).start
                >= limit,
    decreases so.len() - st.so_idx,
{
    if st.so_idx < so.len() && so[st.so_idx].source_idx < limit {
        let next = raw_range(so[st.so_idx]);
        assert(next.start >= st.source_idx);
        assert(next.start < next.end <= len);
        let gap = st.source_idx..next.start;
        lemma_tiles_push(st.buff, st.source_idx as int, len, gap);
        lemma_tiles_push(st.buff.push(gap), next.start as int, len, next);
        let after = SliceWalk {
            buff: st.buff.push(gap).push(next),
            source_idx: next.end,
            so_idx: st.so_idx + 1,
        };
        assert forall|k: int| after.so_idx <= k < so.len() implies raw_range(
            #[trigger] so[k],
        ).start >= after.source_idx by {
            assert(raw_range(so[st.so_idx]).end <= raw_range(so[k]).start);
        }
        lemma_drain_ok(patches, so, len, limit, after);
    } else {
        assert forall|k: int| st.so_idx <= k < so.len() implies raw_range(#[trigger] so[k]).start
            >= limit by {
            if k > st.so_idx {
                assert(raw_range(so[st.so_idx]).end <= raw_range(so[k]).start);
                assert(raw_range(so[st.so_idx]).start < raw_range(so[st.so_idx]).end);
            }
        }
    }
}

/// Whatever the patches are, so long as each lies within the source and
/// none cuts into a source-only slice: the slices that the source is cut
/// into lie one after the other, and no two of them overlap. A patch that
/// begins in what is covered already is passed over.
pub proof fn lemma_slices_tile(patches: Seq<FixPatchV>, so: Seq<RawFileSlice>, len: int, n: int)
    requires
        0 <= len,
        forall|i: int| 0 <= i < patches.len() ==> #[trigger] within(patches, i, len),
        slices_apart(patches, so, len),
        0 <= n <= patches.len(),
    ensures
        walk_ok(slice_walk(patches, so, n), so, len),
    decreases n,
{
    if n > 0 {
        lemma_slices_tile(patches, so, len, n - 1);
        let prev = slice_walk(patches, so, n - 1);
        let p = patches[n - 1].source_slice;
        assert(within(patches, n - 1, len));
        lemma_drain_ok(patches, so, len, p.start, prev);
        let d = drain(so, p.start, prev);
        let cur = slice_walk(patches, so, n);
        if p.start >= d.source_idx {
            if p.start > d.source_idx {
                let gap = d.source_idx..p.start;
                lemma_tiles_push(d.buff, d.source_idx as int, len, gap);
                lemma_tiles_push(d.buff.push(gap), p.start as int, len, p);
            } else {
                lemma_tiles_push(d.buff, d.source_idx as int, len, p);
            }
            assert forall|k: int| cur.so_idx <= k < so.len() implies raw_range(
                #[trigger] so[k],
            ).start >= p.end by {
                assert(clear_of(patches[n - 1], so[k]));
                assert(raw_range(so[k]).start >= p.start);
                assert(raw_range(so[k]).start < raw_range(so[k]).end);
                if p == raw_range(so[k]) {
                    assert(k > d.so_idx);
                    assert(raw_range(so[d.so_idx]).end <= raw_range(so[k]).start);
                    assert(raw_range(so[d.so_idx]).start < raw_range(so[d.so_idx]).end);
                    assert(raw_range(so[d.so_idx]).start >= p.start);
                }
            }
        }
    }
}

/// Whatever the patches are, so long as each lies within the source and
/// none cuts into a source-only slice: the slices that the fixed text is
/// built of cover the source from its start to its end, one after the
/// other, and no two of them overlap.
pub proof fn lemma_all_slices_tile(patches: Seq<FixPatchV>, so: Seq<RawFileSlice>, len: int)
    requires
        0 <= len <= usize::MAX,
        forall|i: int| 0 <= i < patches.len() ==> #[trigger] within(patches, i, len),
        slices_apart(patches, so, len),
    ensures
        tiles(spec_slices(patches, so, len), len, len),
{
    let n = patches.len() as int;
    lemma_slices_tile(patches, so, len, n);
    let w = slice_walk(patches, so, n);
    if w.source_idx < len {
        lemma_tiles_push(w.buff, w.source_idx as int, len, w.source_idx..(len as usize));
    }
}

/// A byte of what the slices cover lies in one of them.
pub proof fn lemma_tiles_cover(buff: Seq<Range<usize>>, upto: int, len: int, b: int, n: int)
    requires
        tiles(buff, upto, len),
        0 <= n <= buff.len(),
        0 <= b,
        n > 0 ==> b < buff[n - 1].end,
        n == 0 ==> false,
    ensures
        exists|i: int| 0 <= i < n && (#[trigger] buff[i]).start <= b < buff[i].end,
    decreases n,
{
    if buff[n - 1].start <= b {
        assert(buff[n - 1].start <= b < buff[n - 1].end);
    } else {
        assert(n - 1 > 0);
        assert(buff[n - 1].start == buff[n - 2].end);
        lemma_tiles_cover(buff, upto, len, b, n - 1);
    }
}

/// No patch covers exactly a slice that holds a byte which no patch
/// covers.
pub proof fn lemma_no_patch_for(patches: Seq<FixPatchV>, slice: Range<usize>, b: int, from: int)
    requires
        0 <= from <= patches.len(),
        slice.start <= b < slice.end,
        forall|j: int|
            0 <= j < patches.len() ==> !((#[trigger] patches[j]).source_slice.start <= b
                < patches[j].source_slice.end),
    ensures
        patch_for(patches, slice, from) == patches.len(),
    decreases patches.len() - from,
{
    if from < patches.len() {
        assert(!(patches[from].source_slice.start <= b < patches[from].source_slice.end));
        lemma_no_patch_for(patches, slice, b, from + 1);
    }
}

/// What no patch touches stays as it is. Whatever the patches are, so
/// long as each lies within the source and none cuts into a source-only
/// slice: a byte of the source that no patch covers lies in one of the
/// slices that the fixed text is built of, and that slice stands in the
/// fixed text, in its place among the slices, as the source has it.
pub proof fn lemma_untouched(
    source: Seq<char>,
    patches: Seq<FixPatchV>,
    so: Seq<RawFileSlice>,
    b: int,
)
    requires
        bytes_of(source).len() <= usize::MAX,
        forall|i: int|
            0 <= i < patches.len() ==> #[trigger] within(patches, i, bytes_of(source).len() as int),
        slices_apart(patches, so, bytes_of(source).len() as int),
        0 <= b < bytes_of(source).len(),
        forall|j: int|
            0 <= j < patches.len() ==> !((#[trigger] patches[j]).source_slice.start <= b
                < patches[j].source_slice.end),
    ensures
        ({
            let slices = spec_slices(patches, so, bytes_of(source).len() as int);
            exists|i: int|
                0 <= i < slices.len() && (#[trigger] slices[i]).start <= b < slices[i].end && piece(
                    patches,
                    source,
                    slices[i],
                ) == text_or_empty(source, slices[i])
        }),
{
    let len = bytes_of(source).len() as int;
    let slices = spec_slices(patches, so, len);
    lemma_all_slices_tile(patches, so, len);
    assert(slices.len() > 0);
    lemma_tiles_cover(slices, len, len, b, slices.len() as int);
    let i = choose|i: int| 0 <= i < slices.len() && (#[trigger] slices[i]).start <= b < slices[i].end;
    lemma_no_patch_for(patches, slices[i], b, 0);
}

/// The fixed source from slice `n` on.
pub open spec fn built_from(
    slices: Seq<Range<usize>>,
    patches: Seq<FixPatchV>,
    raw: Seq<char>,
    n: int,
) -> Seq<char>
    decreases slices.len() - n,
{
    if n < 0 || n >= slices.len() {
        Seq::empty()
    } else {
        piece(patches, raw, slices[n]) + built_from(slices, patches, raw, n + 1)
    }
}

/// The fixed source is what is built of the first `n` slices and then of
/// the others.
pub proof fn lemma_built_split(
    slices: Seq<Range<usize>>,
    patches: Seq<FixPatchV>,
    raw: Seq<char>,
    n: int,
)
    requires
        0 <= n <= slices.len(),
    ensures
        built_upto(slices, patches, raw, slices.len() as int) == built_upto(
            slices,
            patches,
            raw,
            n,
        ) + built_from(slices, patches, raw, n),
    decreases slices.len() - n,
{
    if n < slices.len() {
        lemma_built_split(slices, patches, raw, n + 1);
        assert(built_upto(slices, patches, raw, n + 1) == built_upto(slices, patches, raw, n)
            + piece(patches, raw, slices[n]));
        assert(built_upto(slices, patches, raw, n) + piece(patches, raw, slices[n]) + built_from(
            slices,
            patches,
            raw,
            n + 1,
        ) =~= built_upto(slices, patches, raw, n) + built_from(slices, patches, raw, n));
    } else {
        assert(built_upto(slices, patches, raw, n) + Seq::<char>::empty() =~= built_upto(
            slices,
            patches,
            raw,
            n,
        ));
    }
}

/// The source-only slices of a file.
pub open spec fn source_only(file: TemplatedFile) -> Seq<RawFileSlice> {
    file.raw_sliced().filter(|s: RawFileSlice| s.spec_is_source_only_slice())
}

/// In the fixed source of a tree against its file, what no patch touches
/// stands as the source has it: a byte of the source that no patch of the
/// tree covers lies in a slice whose text the fixed source holds
/// unchanged, between what is built of the slices before it and of those
/// after it. The patches are to lie within the source, and none is to cut
/// into a source-only slice.
pub proof fn lemma_fix_string_untouched(tree: SegV, file: TemplatedFile, b: int)
    requires
        bytes_of(file.source()).len() <= usize::MAX,
        forall|i: int|
            0 <= i < spec_source_patches(tree, file).len() ==> #[trigger] within(
                spec_source_patches(tree, file),
                i,
                bytes_of(file.source()).len() as int,
            ),
        slices_apart(
            spec_source_patches(tree, file),
            source_only(file),
            bytes_of(file.source()).len() as int,
        ),
        0 <= b < bytes_of(file.source()).len(),
        forall|j: int|
            0 <= j < spec_source_patches(tree, file).len() ==> !((#[trigger] spec_source_patches(
                tree,
                file,
            )[j]).source_slice.start <= b < spec_source_patches(tree, file)[j].source_slice.end),
    ensures
        ({
            let patches = spec_source_patches(tree, file);
            let slices = spec_slices(
                patches,
                source_only(file),
                bytes_of(file.source()).len() as int,
            );
            exists|i: int|
                0 <= i < slices.len() && (#[trigger] slices[i]).start <= b < slices[i].end
                    && spec_fix_string(tree, file) == built_upto(slices, patches, file.source(), i)
                    + text_or_empty(file.source(), slices[i]) + built_from(
                    slices,
                    patches,
                    file.source(),
                    i + 1,
                )
        }),
{
    let patches = spec_source_patches(tree, file);
    let source = file.source();
    let slices = spec_slices(patches, source_only(file), bytes_of(source).len() as int);
    lemma_untouched(source, patches, source_only(file), b);
    let i = choose|i: int|
        0 <= i < slices.len() && (#[trigger] slices[i]).start <= b < slices[i].end && piece(
            patches,
            source,
            slices[i],
        ) == text_or_empty(source, slices[i]);
    lemma_built_split(slices, patches, source, i);
    assert(built_from(slices, patches, source, i) == piece(patches, source, slices[i])
        + built_from(slices, patches, source, i + 1));
    assert(spec_fix_string(tree, file) == built_upto(
        slices,
        patches,
        source,
        slices.len() as int,
    ));
    assert(built_upto(slices, patches, source, i) + (piece(patches, source, slices[i])
        + built_from(slices, patches, source, i + 1)) =~= built_upto(slices, patches, source, i)
        + text_or_empty(source, slices[i]) + built_from(slices, patches, source, i + 1));
}

/// Whether the patches stand by where they start in the source.
pub open spec fn in_order(p: Seq<FixPatchV>) -> bool {
    forall|i: int, j: int|
        0 <= i < j < p.len() ==> (#[trigger] p[i]).source_slice.start <= (
        #[trigger] p[j]).source_slice.start
}

/// Whether no two of the patches put the same text in the same place.
pub open spec fn all_apart(p: Seq<FixPatchV>) -> bool {
    forall|i: int, j: int|
        0 <= i < j < p.len() ==> patch_key(#[trigger] p[i]) != patch_key(#[trigger] p[j])
}

/// Whether each of the patches `q` is one of the first `n` of `p`.
pub open spec fn taken_from(q: Seq<FixPatchV>, p: Seq<FixPatchV>, n: int) -> bool {
    forall|i: int| 0 <= i < q.len() ==> keys_upto(p, n).contains(patch_key(#[trigger] q[i]))
}

/// Where a patch is put among those that stand by where they start: after
/// all that start no later than it, and before one that starts later.
pub proof fn lemma_later_patch(s: Seq<FixPatchV>, start: usize, from: int)
    requires
        0 <= from <= s.len(),
    ensures
        from <= later_patch(s, start, from) <= s.len(),
        forall|k: int|
            from <= k < later_patch(s, start, from) ==> (#[trigger] s[k]).source_slice.start
                <= start,
        later_patch(s, start, from) < s.len() ==> s[later_patch(
            s,
            start,
            from,
        )].source_slice.start > start,
    decreases s.len() - from,
{
    if from < s.len() && !(s[from].source_slice.start > start) {
        lemma_later_patch(s, start, from + 1);
    }
}

/// Dropping duplicates leaves no two patches that put the same text in
/// the same place, and each patch that is left is one of those given.
pub proof fn lemma_dedupe_apart(p: Seq<FixPatchV>, n: int)
    requires
        0 <= n <= p.len(),
    ensures
        all_apart(dedupe_upto(p, n)),
        taken_from(dedupe_upto(p, n), p, n),
    decreases n,
{
    if n > 0 {
        lemma_dedupe_apart(p, n - 1);
        let d = dedupe_upto(p, n - 1);
        let e = dedupe_upto(p, n);
        assert forall|i: int| 0 <= i < d.len() implies keys_upto(p, n).contains(
            patch_key(#[trigger] d[i]),
        ) by {
            assert(keys_upto(p, n - 1).contains(patch_key(d[i])));
            let j = choose|j: int|
                0 <= j < n - 1 && j < p.len() && patch_key(#[trigger] p[j]) == patch_key(d[i]);
            assert(0 <= j < n && patch_key(p[j]) == patch_key(d[i]));
        }
        if !keys_upto(p, n - 1).contains(patch_key(p[n - 1])) {
            assert(e == d.push(p[n - 1]));
            assert(keys_upto(p, n).contains(patch_key(p[n - 1])));
            assert forall|i: int, j: int| 0 <= i < j < e.len() implies patch_key(#[trigger] e[i])
                != patch_key(#[trigger] e[j]) by {
                if j == d.len() {
                    assert(e[i] == d[i]);
                    assert(keys_upto(p, n - 1).contains(patch_key(d[i])));
                } else {
                    assert(e[i] == d[i] && e[j] == d[j]);
                }
            }
            assert forall|i: int| 0 <= i < e.len() implies keys_upto(p, n).contains(
                patch_key(#[trigger] e[i]),
            ) by {
                if i < d.len() {
                    assert(e[i] == d[i]);
                }
            }
        }
    }
}

/// Putting patches by where they start leaves them in that order, drops
/// none and adds none; and where no two of them put the same text in the
/// same place, that still holds afterwards.
pub proof fn lemma_by_start(p: Seq<FixPatchV>, n: int)
    requires
        0 <= n <= p.len(),
        all_apart(p),
    ensures
        by_start_upto(p, n).len() == n,
        in_order(by_start_upto(p, n)),
        all_apart(by_start_upto(p, n)),
        forall|i: int|
            0 <= i < n ==> exists|j: int| 0 <= j < n && #[trigger] by_start_upto(p, n)[i] == p[j],
    decreases n,
{
    if n > 0 {
        lemma_by_start(p, n - 1);
        let s = by_start_upto(p, n - 1);
        let x = p[n - 1];
        let at = later_patch(s, x.source_slice.start, 0);
        lemma_later_patch(s, x.source_slice.start, 0);
        let t = s.insert(at, x);
        assert(t == by_start_upto(p, n));
        assert forall|i: int| 0 <= i < n implies exists|j: int| 0 <= j < n && #[trigger] t[i] == p[j] by {
            if i < at {
                assert(t[i] == s[i]);
                let j = choose|j: int| 0 <= j < n - 1 && s[i] == p[j];
                assert(0 <= j < n && t[i] == p[j]);
            } else if i == at {
                assert(t[i] == p[n - 1]);
            } else {
                assert(t[i] == s[i - 1]);
                let j = choose|j: int| 0 <= j < n - 1 && s[i - 1] == p[j];
                assert(0 <= j < n && t[i] == p[j]);
            }
        }
        assert forall|i: int| 0 <= i < s.len() implies patch_key(#[trigger] s[i]) != patch_key(
            x,
        ) by {
            let j = choose|j: int| 0 <= j < n - 1 && s[i] == p[j];
            assert(patch_key(p[j]) != patch_key(p[n - 1]));
        }
        assert forall|i: int, j: int| 0 <= i < j < t.len() implies (#[trigger] t[i]).source_slice.start
            <= (#[trigger] t[j]).source_slice.start && patch_key(t[i]) != patch_key(t[j]) by {
            if j < at {
                assert(t[i] == s[i] && t[j] == s[j]);
            } else if j == at {
                assert(t[i] == s[i] && t[j] == x);
            } else if i < at {
                assert(t[i] == s[i] && t[j] == s[j - 1]);
            } else if i == at {
                assert(t[i] == x && t[j] == s[j - 1]);
                assert(s[at].source_slice.start > x.source_slice.start);
                if at < j - 1 {
                    assert(s[at].source_slice.start <= s[j - 1].source_slice.start);
                }
            } else {
                assert(t[i] == s[i - 1] && t[j] == s[j - 1]);
            }
        }
    }
}

/// The patches of a tree against a file stand by where they start in the
/// source, and no two of them put the same text in the same place.
pub proof fn lemma_source_patches_in_order(tree: SegV, file: TemplatedFile)
    ensures
        in_order(spec_source_patches(tree, file)),
        all_apart(spec_source_patches(tree, file)),
{
    let all = lead_patches(tree, file) + spec_iter_patches(tree, file) + tail_patches(tree, file);
    lemma_dedupe_apart(all, all.len() as int);
    let kept = dedupe_upto(all, all.len() as int);
    lemma_by_start(kept, kept.len() as int);
}

} // verus!
