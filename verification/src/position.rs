//! Realignment: giving every segment of a level its place again, after
//! segments were put in or taken out.

use vstd::prelude::*;

use crate::markers::{spec_infer_next_position, PositionMarker};
use crate::segment::{lemma_views_push, views, BodyV, ErasedSegment, SegV};

verus! {

/// Whether the two markers are on the same working line and column. This
/// is all that makes two markers equal to the realignment.
pub open spec fn same_working_loc(a: PositionMarker, b: PositionMarker) -> bool {
    a.working_line_no == b.working_line_no && a.working_line_pos == b.working_line_pos
}

/// The point at which the first of the leaves of `v` starts, if that leaf
/// has a marker.
pub open spec fn first_leaf_start(v: SegV) -> Option<PositionMarker> {
    if v.leaves().len() > 0 && v.leaves()[0].marker is Some {
        Some(v.leaves()[0].marker->0.spec_start_point_marker())
    } else {
        None
    }
}

/// The point up to which a segment without a marker may reach: where the
/// first segment with a marker from `from` on starts.
pub open spec fn forward_end_point(segs: Seq<SegV>, from: int) -> Option<PositionMarker>
    decreases segs.len() - from,
{
    if from < 0 || from >= segs.len() {
        None
    } else if segs[from].marker is Some {
        first_leaf_start(segs[from])
    } else {
        forward_end_point(segs, from + 1)
    }
}

/// The marker of a segment that had none: from `start` to `end`, or the
/// point `start` where there is no `end` or `end` is on the same line and
/// column.
pub open spec fn fresh_position(start: PositionMarker, end: Option<PositionMarker>) -> PositionMarker {
    match end {
        Some(e) => if same_working_loc(start, e) {
            start
        } else {
            PositionMarker::spec_from_points(start, e)
        },
        None => start,
    }
}

/// The first segments of a level after realignment, and the working line
/// and column that the text has reached after them.
pub struct Positioned {
    pub out: Seq<SegV>,
    pub line_no: usize,
    pub line_pos: usize,
}

/// The realignment of the first `n` segments of `segs` under a parent at
/// `parent`.
///
/// The working line and column start at the parent's and move on by the
/// text of each segment. A segment keeps its marker, or, if it has none,
/// gets one that starts where the segment before it ends (where the parent
/// starts, for the first) and reaches to the next segment that has a marker;
/// either way on the working line and column reached. Where that changes the
/// segment's line or column, its own segments are realigned under it.
pub open spec fn position_prefix(segs: Seq<SegV>, parent: PositionMarker, n: int) -> Positioned
    decreases segs, n,
{
    if n <= 0 || n > segs.len() {
        Positioned {
            out: Seq::empty(),
            line_no: parent.working_line_no,
            line_pos: parent.working_line_pos,
        }
    } else {
        let prev = position_prefix(segs, parent, n - 1);
        let seg = segs[n - 1];
        let base = match seg.marker {
            Some(m) => m,
            None => fresh_position(
                if n - 1 > 0 && prev.out.len() == n - 1 && prev.out[n - 2].marker is Some {
                    prev.out[n - 2].marker->0.spec_end_point_marker()
                } else {
                    parent.spec_start_point_marker()
                },
                forward_end_point(segs, n),
            ),
        };
        let new_pos = base.spec_with_working_position(prev.line_no, prev.line_pos);
        let next = spec_infer_next_position(seg.raw(), prev.line_no as int, prev.line_pos as int);
        let moved = !(seg.marker is Some && same_working_loc(seg.marker->0, new_pos));
        let new_seg = match seg.body {
            BodyV::Token { .. } => seg,
            BodyV::Node { dialect, children, source_fixes } => if children.len() > 0 && moved {
                SegV {
                    id: seg.id,
                    kind: seg.kind,
                    marker: None,
                    body: BodyV::Node {
                        dialect,
                        children: spec_position_segments(children, new_pos),
                        source_fixes,
                    },
                }
            } else {
                seg
            },
        };
        Positioned {
            out: prev.out.push(new_seg.with_marker(Some(new_pos))),
            line_no: next.0 as usize,
            line_pos: next.1 as usize,
        }
    }
}

/// The segments of a level after realignment under a parent at `parent`.
pub open spec fn spec_position_segments(segs: Seq<SegV>, parent: PositionMarker) -> Seq<SegV>
    decreases segs, segs.len() + 1,
{
    position_prefix(segs, parent, segs.len() as int).out
}

/// Realignment keeps the number of segments, and each segment its id, its
/// kind and its text; it leaves every segment with a marker.
pub proof fn lemma_position_prefix_keeps(segs: Seq<SegV>, parent: PositionMarker, n: int)
    requires
        0 <= n <= segs.len(),
    ensures
        position_prefix(segs, parent, n).out.len() == n,
        forall|i: int|
            0 <= i < n ==> {
                let o = #[trigger] position_prefix(segs, parent, n).out[i];
                &&& o.id == segs[i].id
                &&& o.kind == segs[i].kind
                &&& o.raw() == segs[i].raw()
                &&& o.marker is Some
                &&& o.is_node() == segs[i].is_node()
                &&& o.children().len() == segs[i].children().len()
            },
        forall|i: int, m: int|
            0 <= i < m <= n ==> position_prefix(segs, parent, m).out[i] == position_prefix(
                segs,
                parent,
                n,
            ).out[i],
    decreases segs, n,
{
    if n > 0 {
        lemma_position_prefix_keeps(segs, parent, n - 1);
        let prev = position_prefix(segs, parent, n - 1);
        let cur = position_prefix(segs, parent, n);
        let seg = segs[n - 1];
        assert(cur.out.len() == n);
        assert forall|i: int| 0 <= i < n - 1 implies cur.out[i] == prev.out[i] by {}
        match seg.body {
            BodyV::Token { .. } => {},
            BodyV::Node { dialect, children, source_fixes } => {
                let new_pos = cur.out[n - 1].marker->0;
                lemma_position_keeps_text(children, new_pos);
            },
        }
        assert forall|i: int, m: int| 0 <= i < m <= n implies position_prefix(
            segs,
            parent,
            m,
        ).out[i] == cur.out[i] by {
            if m < n {
                assert(position_prefix(segs, parent, m).out[i] == prev.out[i]);
            }
        }
    }
}

/// Realignment keeps the text of a level.
pub proof fn lemma_position_keeps_text(segs: Seq<SegV>, parent: PositionMarker)
    ensures
        spec_position_segments(segs, parent).len() == segs.len(),
        crate::segment::raw_all(spec_position_segments(segs, parent)) == crate::segment::raw_all(
            segs,
        ),
    decreases segs, segs.len() + 1,
{
    lemma_position_prefix_keeps(segs, parent, segs.len() as int);
    lemma_raw_all_pointwise(spec_position_segments(segs, parent), segs);
}

/// Two levels whose segments have the same text, one by one, have the same text.
pub proof fn lemma_raw_all_pointwise(a: Seq<SegV>, b: Seq<SegV>)
    requires
        a.len() == b.len(),
        forall|i: int| 0 <= i < a.len() ==> (#[trigger] a[i]).raw() == b[i].raw(),
    ensures
        crate::segment::raw_all(a) == crate::segment::raw_all(b),
    decreases a.len(),
{
    if a.len() > 0 {
        lemma_raw_all_pointwise(a.drop_last(), b.drop_last());
        assert(a.last().raw() == b.last().raw());
    }
}

impl ErasedSegment {
    /// The segments of a node are smaller than the node.
    pub proof fn lemma_children_decrease(&self)
        requires
            self.value.kind is Node,
        ensures
            decreases_to!(self => self.child_vec()@),
    {
        vstd::std_specs::vec::axiom_vec_decreases_to_view(self.child_vec());
        assert(decreases_to!(self.child_vec() => self.child_vec()@));
        assert(decreases_to!(self.value.kind->Node_0 => self.value.kind->Node_0.segments));
        assert(decreases_to!(self.value.kind => self.value.kind->Node_0));
        assert(decreases_to!(self.value => self.value.kind));
        assert(decreases_to!(self => self.value));
    }
}

/// Whether the two markers are on the same working line and column.
pub fn same_loc(a: &PositionMarker, b: &PositionMarker) -> (r: bool)
    ensures
        r == same_working_loc(*a, *b),
{
    a.working_line_no == b.working_line_no && a.working_line_pos == b.working_line_pos
}

/// The point up to which a segment without a marker may reach.
fn find_end_point(segments: &[ErasedSegment], from: usize) -> (r: Option<PositionMarker>)
    ensures
        r == forward_end_point(views(segments@), from as int),
{
    let mut j: usize = from;
    while j < segments.len()
        invariant
            from <= j,
            forward_end_point(views(segments@), from as int) == forward_end_point(
                views(segments@),
                j as int,
            ),
        decreases segments.len() - j,
    {
        if segments[j].get_position_marker().is_some() {
            let raws = segments[j].get_raw_segments();
            if raws.len() > 0 {
                assert(views(raws@)[0] == raws@[0]@);
                return match raws[0].get_position_marker() {
                    Some(m) => Some(m.start_point_marker()),
                    None => None,
                };
            }
            return None;
        }
        j += 1;
    }
    None
}

/// Realigns the segments of a level under a parent at `parent_pos`.
pub fn position_segments(segments: &[ErasedSegment], parent_pos: &PositionMarker) -> (r: Vec<
    ErasedSegment,
>)
    ensures
        views(r@) == spec_position_segments(views(segments@), *parent_pos),
    decreases segments@,
{
    let ghost segs = views(segments@);
    let mut line_no = parent_pos.working_line_no;
    let mut line_pos = parent_pos.working_line_pos;
    let mut segment_buffer: Vec<ErasedSegment> = Vec::new();
    let mut idx: usize = 0;
    assert(views(segment_buffer@) =~= Seq::<SegV>::empty());
    while idx < segments.len()
        invariant
            idx <= segments@.len(),
            segs == views(segments@),
            segment_buffer@.len() == idx,
            views(segment_buffer@) == position_prefix(segs, *parent_pos, idx as int).out,
            line_no == position_prefix(segs, *parent_pos, idx as int).line_no,
            line_pos == position_prefix(segs, *parent_pos, idx as int).line_pos,
        decreases segments.len() - idx,
    {
        let segment = &segments[idx];
        let ghost prev = position_prefix(segs, *parent_pos, idx as int);
        let ghost seg = segs[idx as int];
        proof {
            segment.lemma_view_children();
            assert(seg == segment@);
            if idx > 0 {
                assert(views(segment_buffer@)[idx - 1] == segment_buffer@[idx - 1]@);
            }
        }
        let old_position = segment.get_position_marker();
        let base = match old_position {
            Some(m) => m.copy(),
            None => {
                let prev_marker = if idx > 0 {
                    match segment_buffer[idx - 1].get_position_marker() {
                        Some(m) => Some(m.end_point_marker()),
                        None => None,
                    }
                } else {
                    None
                };
                let start_point = match prev_marker {
                    Some(p) => p,
                    None => parent_pos.start_point_marker(),
                };
                let end_point = find_end_point(segments, idx + 1);
                match end_point {
                    Some(e) => if same_loc(&start_point, &e) {
                        start_point
                    } else {
                        PositionMarker::from_points(&start_point, &e)
                    },
                    None => start_point,
                }
            },
        };
        let new_position = base.with_working_position(line_no, line_pos);
        let raw = segment.raw();
        let (next_no, next_pos) = PositionMarker::infer_next_position(
            raw.as_str(),
            line_no,
            line_pos,
        );
        let moved = match old_position {
            Some(m) => !same_loc(m, &new_position),
            None => true,
        };
        let children = segment.segments();
        let new_seg = if children.len() > 0 && moved {
            proof {
                segment.lemma_children_decrease();
                vstd::seq::axiom_seq_index_decreases(segments@, idx as int);
            }
            let child_segments = position_segments(children, &new_position);
            segment.change_segments(child_segments)
        } else {
            segment.deep_clone()
        };
        let placed = new_seg.with_position_marker(Some(new_position));
        proof {
            lemma_views_push(segment_buffer@, placed);
        }
        segment_buffer.push(placed);
        line_no = next_no;
        line_pos = next_pos;
        idx += 1;
    }
    segment_buffer
}

} // verus!
