//! What holds of applying fixes that find no anchor: the tree keeps its
//! structure and its content.

use vstd::prelude::*;

use crate::apply::{apply_below, edit_level, no_fixes, spec_apply_fixes};
use crate::fix::AnchorEditInfoV;
use crate::markers::PositionMarker;
use crate::position::{position_prefix, spec_position_segments};
use crate::segment::{BodyV, SegV};

verus! {

/// Whether the two levels hold, one by one, segments of the same structure
/// and content.
pub open spec fn same_content_all(a: Seq<SegV>, b: Seq<SegV>) -> bool
    decreases a, 0int,
{
    &&& a.len() == b.len()
    &&& forall|i: int| 0 <= i < a.len() ==> same_content(#[trigger] a[i], b[i])
}

/// Whether the two segments have the same structure and content: the same
/// id and kind, and the same text if they are tokens, or segments of the
/// same structure and content if they are nodes. Where they stand plays no
/// part.
pub open spec fn same_content(a: SegV, b: SegV) -> bool
    decreases a, 1int,
{
    &&& a.id == b.id
    &&& a.kind == b.kind
    &&& match (a.body, b.body) {
        (BodyV::Token { raw: x }, BodyV::Token { raw: y }) => x == y,
        (BodyV::Node { children: x, .. }, BodyV::Node { children: y, .. }) => same_content_all(
            x,
            y,
        ),
        _ => false,
    }
}

/// A segment has the structure and content that it has.
pub proof fn lemma_same_content_refl(a: SegV)
    ensures
        same_content(a, a),
    decreases a,
{
    match a.body {
        BodyV::Token { .. } => {},
        BodyV::Node { children, .. } => {
            assert forall|i: int| 0 <= i < children.len() implies same_content(
                #[trigger] children[i],
                children[i],
            ) by {
                lemma_same_content_refl(children[i]);
            }
        },
    }
}

/// Having the same structure and content carries over.
pub proof fn lemma_same_content_trans(a: SegV, b: SegV, c: SegV)
    requires
        same_content(a, b),
        same_content(b, c),
    ensures
        same_content(a, c),
    decreases a,
{
    match (a.body, b.body, c.body) {
        (
            BodyV::Node { children: x, .. },
            BodyV::Node { children: y, .. },
            BodyV::Node { children: z, .. },
        ) => {
            assert forall|i: int| 0 <= i < x.len() implies same_content(#[trigger] x[i], z[i]) by {
                assert(same_content(x[i], y[i]));
                assert(same_content(y[i], z[i]));
                lemma_same_content_trans(x[i], y[i], z[i]);
            }
        },
        _ => {},
    }
}

/// Realignment keeps the structure and content of every segment.
pub proof fn lemma_position_prefix_content(segs: Seq<SegV>, parent: PositionMarker, n: int)
    requires
        0 <= n <= segs.len(),
    ensures
        position_prefix(segs, parent, n).out.len() == n,
        forall|i: int|
            0 <= i < n ==> same_content(#[trigger] position_prefix(segs, parent, n).out[i], segs[i]),
    decreases segs, n,
{
    if n > 0 {
        lemma_position_prefix_content(segs, parent, n - 1);
        let prev = position_prefix(segs, parent, n - 1);
        let cur = position_prefix(segs, parent, n);
        let seg = segs[n - 1];
        assert forall|i: int| 0 <= i < n - 1 implies cur.out[i] == prev.out[i] by {}
        match seg.body {
            BodyV::Token { .. } => {
                lemma_same_content_refl(seg);
            },
            BodyV::Node { dialect, children, source_fixes } => {
                let new_pos = cur.out[n - 1].marker->0;
                lemma_position_content(children, new_pos);
                lemma_same_content_refl(seg);
            },
        }
        assert(same_content(cur.out[n - 1], segs[n - 1]));
    }
}

/// Realignment keeps the structure and content of a level.
pub proof fn lemma_position_content(segs: Seq<SegV>, parent: PositionMarker)
    ensures
        same_content_all(spec_position_segments(segs, parent), segs),
    decreases segs, segs.len() + 1,
{
    lemma_position_prefix_content(segs, parent, segs.len() as int);
}

/// Whether the segments of `s`, and all that is below them, are the anchor
/// of none of the fixes.
pub open spec fn anchors_free_all(s: Seq<SegV>, fixes: Map<u32, AnchorEditInfoV>) -> bool
    decreases s, 0int,
{
    forall|i: int|
        0 <= i < s.len() ==> !fixes.contains_key((#[trigger] s[i]).id) && anchors_free(
            s[i],
            fixes,
        )
}

/// Whether nothing below `v` is the anchor of any of the fixes.
pub open spec fn anchors_free(v: SegV, fixes: Map<u32, AnchorEditInfoV>) -> bool
    decreases v, 1int,
{
    match v.body {
        BodyV::Token { .. } => true,
        BodyV::Node { children, .. } => anchors_free_all(children, fixes),
    }
}

/// Where no segment of a level is an anchor, the fixes leave the level as
/// it is.
pub proof fn lemma_edit_level_free(children: Seq<SegV>, fixes: Map<u32, AnchorEditInfoV>, n: int)
    requires
        0 <= n <= children.len(),
        forall|i: int| 0 <= i < children.len() ==> !fixes.contains_key((#[trigger] children[i]).id),
    ensures
        edit_level(children, fixes, n).buffer == children.subrange(0, n),
        edit_level(children, fixes, n).rest == fixes,
        !edit_level(children, fixes, n).applied,
    decreases n,
{
    if n > 0 {
        lemma_edit_level_free(children, fixes, n - 1);
        assert(!fixes.contains_key(children[n - 1].id));
        assert(children.subrange(0, n - 1).push(children[n - 1]) =~= children.subrange(0, n));
    } else {
        assert(children.subrange(0, 0) =~= Seq::<SegV>::empty());
    }
}

/// Fixes that find no anchor below the segments of a level leave each of
/// them with its structure and content, and are all still there afterwards.
pub proof fn lemma_apply_below_free(
    segs: Seq<SegV>,
    fixes: Map<u32, AnchorEditInfoV>,
    depth: nat,
    n: nat,
)
    requires
        n <= segs.len(),
        anchors_free_all(segs, fixes),
    ensures
        apply_below(segs, fixes, depth, n).rest == fixes,
        apply_below(segs, fixes, depth, n).out.len() == n,
        forall|i: int|
            0 <= i < n ==> same_content(#[trigger] apply_below(segs, fixes, depth, n).out[i], segs[i]),
    decreases depth, n + 1,
{
    if n > 0 {
        lemma_apply_below_free(segs, fixes, depth, (n - 1) as nat);
        let prev = apply_below(segs, fixes, depth, (n - 1) as nat);
        assert(!fixes.contains_key(segs[n - 1].id) && anchors_free(segs[n - 1], fixes));
        lemma_apply_free(segs[n - 1], fixes, depth);
        let cur = apply_below(segs, fixes, depth, n);
        assert forall|i: int| 0 <= i < n implies same_content(#[trigger] cur.out[i], segs[i]) by {
            if i < n - 1 {
                assert(cur.out[i] == prev.out[i]);
            }
        }
    }
}

/// Fixes that find no anchor below a segment leave the segment with its
/// structure and content, and are all still there afterwards: applying them
/// a second time changes nothing that the first time did not.
pub proof fn lemma_apply_free(v: SegV, fixes: Map<u32, AnchorEditInfoV>, depth: nat)
    requires
        anchors_free(v, fixes),
    ensures
        same_content(spec_apply_fixes(v, fixes, depth).seg, v),
        spec_apply_fixes(v, fixes, depth).rest == fixes,
    decreases depth, 0nat,
{
    lemma_same_content_refl(v);
    if depth == 0 || no_fixes(fixes) || v.children().len() == 0 || v.marker is None {
    } else {
        let children = v.children();
        assert forall|i: int| 0 <= i < children.len() implies !fixes.contains_key(
            (#[trigger] children[i]).id,
        ) by {}
        lemma_edit_level_free(children, fixes, children.len() as int);
        assert(children.subrange(0, children.len() as int) =~= children);
        let lvl = edit_level(children, fixes, children.len() as int);
        let placed = lvl.buffer;
        lemma_apply_below_free(placed, fixes, (depth - 1) as nat, placed.len());
        let below = apply_below(placed, fixes, (depth - 1) as nat, placed.len());
        lemma_position_content(below.out, v.marker->0);
        let fresh = spec_position_segments(below.out, v.marker->0);
        let r = spec_apply_fixes(v, fixes, depth).seg;
        assert(r == crate::apply::rebuilt(v, fresh));
        assert forall|i: int| 0 <= i < fresh.len() implies same_content(
            #[trigger] fresh[i],
            children[i],
        ) by {
            assert(same_content(fresh[i], below.out[i]));
            assert(same_content(below.out[i], placed[i]));
            lemma_same_content_trans(fresh[i], below.out[i], children[i]);
        }
        assert(r.children() == fresh);
    }
}

/// A node that fixes were applied below has the marker that spans the
/// markers of what it holds afterwards: its ranges are those of its
/// segments, and of nothing else.
pub proof fn lemma_apply_marker(v: SegV, fixes: Map<u32, AnchorEditInfoV>, depth: nat)
    requires
        depth > 0,
        !crate::apply::no_fixes(fixes),
        v.children().len() > 0,
        v.marker is Some,
    ensures
        ({
            let r = spec_apply_fixes(v, fixes, depth).seg;
            crate::segment::markers_of(r.children()).len() > 0 ==> r.marker == Some(
                crate::segment::spanning_marker(crate::segment::markers_of(r.children())),
            )
        }),
{
}

} // verus!
