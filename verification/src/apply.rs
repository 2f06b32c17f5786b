//! Applying fixes: the tree is rebuilt from the top, each segment that is
//! the anchor of fixes giving way to what they ask for.

use rustc_hash::FxHashMap;
use vstd::prelude::*;

use crate::anchors::{fx_is_empty, fx_remove, infos_view};
use crate::fix::{AnchorEditInfo, AnchorEditInfoV, EditType, LintFix, LintFixV, fix_views};
use crate::position::{position_segments, spec_position_segments};
use crate::match_result::{any_marker, make_node, new_node};
use crate::segment::{
    copy_segments, lemma_views_add, lemma_views_push, markers_of, views, BodyV, ErasedSegment,
    NodeOrTokenKind, SegV,
};
use crate::text::str_eq;

verus! {

/// Whether the map holds nothing.
pub open spec fn no_fixes(fixes: Map<u32, AnchorEditInfoV>) -> bool {
    forall|k: u32| !fixes.contains_key(k)
}

/// The index of the first of the segments `e` from `from` on that has the
/// text `raw`, or the length of `e` where none has.
pub open spec fn first_with_raw(e: Seq<SegV>, raw: Seq<char>, from: int) -> int
    decreases e.len() - from,
{
    if from < 0 || from >= e.len() {
        e.len() as int
    } else if e[from].raw() == raw {
        from
    } else {
        first_with_raw(e, raw, from + 1)
    }
}

/// The segments that replace `seg`: the first of them that has the text of
/// `seg` takes its marker too, so that what did not change need not move.
pub open spec fn replacement(e: Seq<SegV>, seg: SegV) -> Seq<SegV> {
    let k = first_with_raw(e, seg.raw(), 0);
    if k < e.len() {
        e.update(k, e[k].with_marker(seg.marker))
    } else {
        e
    }
}

/// What one fix puts in the place of its anchor `seg`, `count` being the
/// number of fixes on that anchor: nothing for a deletion; the replacement;
/// the new segments and then the anchor; or the new segments alone, after
/// the anchor unless another fix has put it in.
pub open spec fn fix_pieces(seg: SegV, f: LintFixV, count: int) -> Seq<SegV> {
    let edit = match f.edit {
        Some(e) => e,
        None => Seq::empty(),
    };
    match f.edit_type {
        EditType::Delete => Seq::empty(),
        EditType::Replace => replacement(edit, seg),
        EditType::CreateBefore => edit.push(seg),
        EditType::CreateAfter => if count == 1 {
            seq![seg] + edit
        } else {
            edit
        },
    }
}

/// The order in which the fixes on an anchor are applied: as they came,
/// but a pair that begins with a creation after the anchor is turned round.
pub open spec fn in_order(fixes: Seq<LintFixV>) -> Seq<LintFixV> {
    if fixes.len() == 2 && fixes[0].edit_type == EditType::CreateAfter {
        seq![fixes[1], fixes[0]]
    } else {
        fixes
    }
}

/// What the first `n` fixes of `fixes` put in the place of `seg`.
pub open spec fn pieces_upto(seg: SegV, fixes: Seq<LintFixV>, n: int) -> Seq<SegV>
    decreases n,
{
    if n <= 0 || n > fixes.len() {
        Seq::empty()
    } else {
        pieces_upto(seg, fixes, n - 1) + fix_pieces(seg, fixes[n - 1], fixes.len() as int)
    }
}

/// What the fixes gathered for the anchor `seg` put in its place.
pub open spec fn child_pieces(seg: SegV, info: AnchorEditInfoV) -> Seq<SegV> {
    pieces_upto(seg, in_order(info.fixes), info.fixes.len() as int)
}

/// A level after its own fixes: the segments, the fixes not used, and
/// whether any fix was applied.
pub struct Level {
    pub buffer: Seq<SegV>,
    pub rest: Map<u32, AnchorEditInfoV>,
    pub applied: bool,
}

/// The first `n` segments of a level after the fixes anchored at them: a
/// segment whose id the map holds gives way to what its fixes ask for, and
/// they leave the map; any other segment stays.
pub open spec fn edit_level(children: Seq<SegV>, fixes: Map<u32, AnchorEditInfoV>, n: int) -> Level
    decreases n,
{
    if n <= 0 || n > children.len() {
        Level { buffer: Seq::empty(), rest: fixes, applied: false }
    } else {
        let prev = edit_level(children, fixes, n - 1);
        let seg = children[n - 1];
        if prev.rest.contains_key(seg.id) {
            let info = prev.rest[seg.id];
            Level {
                buffer: prev.buffer + child_pieces(seg, info),
                rest: prev.rest.remove(seg.id),
                applied: prev.applied || info.fixes.len() > 0,
            }
        } else {
            Level { buffer: prev.buffer.push(seg), rest: prev.rest, applied: prev.applied }
        }
    }
}

/// The node `v` made anew over the segments: the same id, kind and
/// dialect, without source fixes, with the marker that spans the markers of
/// the segments. Where none of them has a marker, the node keeps its own.
/// A token stays as it is.
pub open spec fn rebuilt(v: SegV, children: Seq<SegV>) -> SegV {
    match v.body {
        BodyV::Token { .. } => v,
        BodyV::Node { dialect, .. } => if markers_of(children).len() > 0 {
            new_node(v.id, v.kind, dialect, children)
        } else {
            v.renewed(children)
        },
    }
}

/// A segment after its fixes, the fixes not used, and whether the segment
/// is as it was.
pub struct Applied {
    pub seg: SegV,
    pub rest: Map<u32, AnchorEditInfoV>,
    pub validated: bool,
}

/// The segments of a level after the fixes below them, and the fixes not used.
pub struct Below {
    pub out: Seq<SegV>,
    pub rest: Map<u32, AnchorEditInfoV>,
}

/// The segment `v` after the fixes of `fixes` that are anchored below it,
/// down to `depth` levels.
///
/// Where there are no fixes, or nothing below `v`, or `v` has no marker to
/// realign against, `v` stays as it is. Else the segments of `v` give way to
/// what their fixes ask for and, if any did, are realigned; the fixes that
/// are left are applied below each of them in turn; and `v` is made anew
/// over the result, realigned once more, with the marker that spans the
/// markers of what it then holds.
pub open spec fn spec_apply_fixes(v: SegV, fixes: Map<u32, AnchorEditInfoV>, depth: nat) -> Applied
    decreases depth, 0nat,
{
    if depth == 0 || no_fixes(fixes) || v.children().len() == 0 || v.marker is None {
        Applied { seg: v, rest: fixes, validated: true }
    } else {
        let lvl = edit_level(v.children(), fixes, v.children().len() as int);
        let placed = if lvl.applied {
            spec_position_segments(lvl.buffer, v.marker->0)
        } else {
            lvl.buffer
        };
        let below = apply_below(placed, lvl.rest, (depth - 1) as nat, placed.len() as nat);
        Applied {
            seg: rebuilt(v, spec_position_segments(below.out, v.marker->0)),
            rest: below.rest,
            validated: false,
        }
    }
}

/// The first `n` segments of `segs` after the fixes below them, each
/// taking from the map what is anchored below it.
pub open spec fn apply_below(
    segs: Seq<SegV>,
    fixes: Map<u32, AnchorEditInfoV>,
    depth: nat,
    n: nat,
) -> Below
    decreases depth, n + 1,
{
    if n == 0 || n > segs.len() {
        Below { out: Seq::empty(), rest: fixes }
    } else {
        let prev = apply_below(segs, fixes, depth, (n - 1) as nat);
        let a = spec_apply_fixes(segs[n - 1], prev.rest, depth);
        Below { out: prev.out.push(a.seg), rest: a.rest }
    }
}

/// Without fixes the tree stays as it is.
pub proof fn lemma_apply_no_fixes(v: SegV, fixes: Map<u32, AnchorEditInfoV>, depth: nat)
    requires
        no_fixes(fixes),
    ensures
        spec_apply_fixes(v, fixes, depth).seg == v,
        spec_apply_fixes(v, fixes, depth).rest == fixes,
        spec_apply_fixes(v, fixes, depth).validated,
{
}

/// What `first_with_raw` finds is the first segment with that text.
pub proof fn lemma_first_with_raw(e: Seq<SegV>, raw: Seq<char>, from: int)
    requires
        0 <= from <= e.len(),
    ensures
        from <= first_with_raw(e, raw, from) <= e.len(),
        forall|j: int| from <= j < first_with_raw(e, raw, from) ==> (#[trigger] e[j]).raw() != raw,
        first_with_raw(e, raw, from) < e.len() ==> e[first_with_raw(e, raw, from)].raw() == raw,
    decreases e.len() - from,
{
    if from < e.len() && e[from].raw() != raw {
        lemma_first_with_raw(e, raw, from + 1);
    }
}

/// The segments that replace `seg`.
fn place_replacement(edit: &Vec<ErasedSegment>, seg: &ErasedSegment) -> (r: Vec<ErasedSegment>)
    ensures
        views(r@) == replacement(views(edit@), seg@),
{
    let seg_raw = seg.raw();
    let mut out: Vec<ErasedSegment> = Vec::new();
    let mut consumed_pos = false;
    let mut i: usize = 0;
    let ghost e = views(edit@);
    let ghost k = first_with_raw(e, seg@.raw(), 0);
    proof {
        lemma_first_with_raw(e, seg@.raw(), 0);
    }
    while i < edit.len()
        invariant
            i <= edit@.len(),
            e == views(edit@),
            seg_raw@ == seg@.raw(),
            out@.len() == i,
            k == first_with_raw(e, seg@.raw(), 0),
            0 <= k <= e.len(),
            forall|j: int| 0 <= j < k ==> (#[trigger] e[j]).raw() != seg@.raw(),
            k < e.len() ==> e[k].raw() == seg@.raw(),
            consumed_pos <==> k < i,
            forall|j: int|
                0 <= j < i ==> (#[trigger] out@[j])@ == (if j == k {
                    e[j].with_marker(seg@.marker)
                } else {
                    e[j]
                }),
        decreases edit.len() - i,
    {
        let s = edit[i].deep_clone();
        let s_raw = s.raw();
        assert(e[i as int] == edit@[i as int]@);
        if !consumed_pos && str_eq(s_raw.as_str(), seg_raw.as_str()) {
            consumed_pos = true;
            let marker = match seg.get_position_marker() {
                Some(m) => Some(m.copy()),
                None => None,
            };
            out.push(s.with_position_marker(marker));
        } else {
            out.push(s);
        }
        i += 1;
    }
    assert(views(out@) =~= replacement(e, seg@));
    out
}

/// What one fix puts in the place of its anchor.
fn pieces_of_fix(seg: &ErasedSegment, f: &LintFix, count: usize) -> (r: Vec<ErasedSegment>)
    ensures
        views(r@) == fix_pieces(seg@, f@, count as int),
{
    let none: Vec<ErasedSegment> = Vec::new();
    assert(views(none@) =~= Seq::<SegV>::empty());
    let edit: &Vec<ErasedSegment> = match &f.edit {
        Some(e) => e,
        None => &none,
    };
    match f.edit_type {
        EditType::Delete => {
            let out: Vec<ErasedSegment> = Vec::new();
            assert(views(out@) =~= Seq::<SegV>::empty());
            out
        },
        EditType::Replace => place_replacement(edit, seg),
        EditType::CreateBefore => {
            let mut out = copy_segments(edit.as_slice());
            proof {
                lemma_views_push(out@, *seg);
            }
            out.push(seg.copy());
            out
        },
        EditType::CreateAfter => {
            let mut out: Vec<ErasedSegment> = Vec::new();
            if count == 1 {
                out.push(seg.copy());
            }
            let mut more = copy_segments(edit.as_slice());
            proof {
                lemma_views_add(out@, more@);
                if count == 1 {
                    assert(views(out@) =~= seq![seg@]);
                } else {
                    assert(views(out@) =~= Seq::<SegV>::empty());
                    assert(Seq::<SegV>::empty() + views(more@) =~= views(more@));
                }
            }
            out.append(&mut more);
            out
        },
    }
}

/// What the fixes gathered for the anchor `seg` put in its place.
fn pieces_of_child(seg: &ErasedSegment, info: &AnchorEditInfo) -> (r: Vec<ErasedSegment>)
    ensures
        views(r@) == child_pieces(seg@, info@),
{
    let n = info.fixes.len();
    let swap = n == 2 && info.fixes[0].edit_type == EditType::CreateAfter;
    let ghost fixes = in_order(info@.fixes);
    let mut out: Vec<ErasedSegment> = Vec::new();
    let mut i: usize = 0;
    assert(views(out@) =~= Seq::<SegV>::empty());
    proof {
        assert(fix_views(info.fixes@).len() == n);
        if n == 2 {
            assert(fix_views(info.fixes@)[0] == info.fixes@[0]@);
        }
    }
    while i < n
        invariant
            i <= n,
            n == info.fixes@.len(),
            fixes == in_order(info@.fixes),
            fixes.len() == n,
            swap == (n == 2 && info@.fixes[0].edit_type == EditType::CreateAfter),
            views(out@) == pieces_upto(seg@, fixes, i as int),
        decreases n - i,
    {
        let k = if swap {
            1 - i
        } else {
            i
        };
        assert(fix_views(info.fixes@)[k as int] == info.fixes@[k as int]@);
        assert(fixes[i as int] == info.fixes@[k as int]@);
        let mut more = pieces_of_fix(seg, &info.fixes[k], n);
        proof {
            lemma_views_add(out@, more@);
        }
        out.append(&mut more);
        i += 1;
    }
    out
}

impl ErasedSegment {
    /// The segment after the fixes that are anchored below it, with what
    /// goes before it and after it (nothing, either way) and whether the
    /// segment is as it was. The fixes that are applied leave the map.
    pub fn apply_fixes(&self, fixes: &mut FxHashMap<u32, AnchorEditInfo>) -> (r: (
        ErasedSegment,
        Vec<ErasedSegment>,
        Vec<ErasedSegment>,
        bool,
    ))
        ensures
            r.0@ == spec_apply_fixes(self@, infos_view(old(fixes)@), usize::MAX as nat).seg,
            infos_view(final(fixes)@) == spec_apply_fixes(
                self@,
                infos_view(old(fixes)@),
                usize::MAX as nat,
            ).rest,
            r.3 == spec_apply_fixes(self@, infos_view(old(fixes)@), usize::MAX as nat).validated,
            r.1@.len() == 0,
            r.2@.len() == 0,
    {
        self.apply_fixes_within(fixes, usize::MAX)
    }

    /// As `apply_fixes`, but no deeper than `depth` levels: what lies
    /// deeper stays as it is.
    pub fn apply_fixes_within(&self, fixes: &mut FxHashMap<u32, AnchorEditInfo>, depth: usize) -> (r:
        (ErasedSegment, Vec<ErasedSegment>, Vec<ErasedSegment>, bool))
        ensures
            r.0@ == spec_apply_fixes(self@, infos_view(old(fixes)@), depth as nat).seg,
            infos_view(final(fixes)@) == spec_apply_fixes(
                self@,
                infos_view(old(fixes)@),
                depth as nat,
            ).rest,
            r.3 == spec_apply_fixes(self@, infos_view(old(fixes)@), depth as nat).validated,
            r.1@.len() == 0,
            r.2@.len() == 0,
        decreases depth,
    {
        let ghost start = infos_view(fixes@);
        proof {
            assert forall|k: u32| start.contains_key(k) == fixes@.contains_key(k) by {}
            if no_fixes(start) {
                assert forall|k: u32| !fixes@.contains_key(k) by {
                    assert(!start.contains_key(k));
                }
            }
            if forall|k: u32| !fixes@.contains_key(k) {
                assert forall|k: u32| !start.contains_key(k) by {
                    assert(!fixes@.contains_key(k));
                }
            }
        }
        let children = self.segments();
        if depth == 0 || fx_is_empty(fixes) || children.len() == 0 {
            return (self.copy(), Vec::new(), Vec::new(), true);
        }
        let marker = match self.get_position_marker() {
            Some(m) => m.copy(),
            None => {
                return (self.copy(), Vec::new(), Vec::new(), true);
            },
        };
        let ghost kids = self@.children();
        let mut seg_buffer: Vec<ErasedSegment> = Vec::new();
        let mut applied = false;
        let mut i: usize = 0;
        assert(views(seg_buffer@) =~= Seq::<SegV>::empty());
        while i < children.len()
            invariant
                i <= children@.len(),
                kids == views(children@),
                views(seg_buffer@) == edit_level(kids, start, i as int).buffer,
                infos_view(fixes@) == edit_level(kids, start, i as int).rest,
                applied == edit_level(kids, start, i as int).applied,
            decreases children.len() - i,
        {
            let seg = &children[i];
            let id = seg.id();
            let ghost before = fixes@;
            assert(kids[i as int] == seg@);
            assert(infos_view(before).contains_key(id) == before.contains_key(id));
            match fx_remove(fixes, id) {
                None => {
                    proof {
                        lemma_views_push(seg_buffer@, *seg);
                        assert(fixes@ =~= before);
                    }
                    seg_buffer.push(seg.copy());
                },
                Some(info) => {
                    assert(infos_view(before)[id] == info@);
                    let mut pieces = pieces_of_child(seg, &info);
                    proof {
                        lemma_views_add(seg_buffer@, pieces@);
                        assert(infos_view(fixes@) =~= infos_view(before).remove(id));
                        assert(info@.fixes.len() == info.fixes@.len());
                    }
                    if info.fixes.len() > 0 {
                        applied = true;
                    }
                    seg_buffer.append(&mut pieces);
                },
            }
            i += 1;
        }
        let placed = if applied {
            position_segments(seg_buffer.as_slice(), &marker)
        } else {
            seg_buffer
        };
        let ghost lvl = edit_level(kids, start, kids.len() as int);
        let mut out: Vec<ErasedSegment> = Vec::new();
        let mut j: usize = 0;
        assert(views(out@) =~= Seq::<SegV>::empty());
        while j < placed.len()
            invariant
                j <= placed@.len(),
                depth > 0,
                views(out@) == apply_below(
                    views(placed@),
                    lvl.rest,
                    (depth - 1) as nat,
                    j as nat,
                ).out,
                infos_view(fixes@) == apply_below(
                    views(placed@),
                    lvl.rest,
                    (depth - 1) as nat,
                    j as nat,
                ).rest,
            decreases placed.len() - j,
        {
            let (s, mut pre, mut post, _validated) = placed[j].apply_fixes_within(
                fixes,
                depth - 1,
            );
            proof {
                assert(views(placed@)[j as int] == placed@[j as int]@);
                assert(out@ + pre@ =~= out@);
                lemma_views_push(out@, s);
            }
            out.append(&mut pre);
            out.push(s);
            let ghost with_s = out@;
            out.append(&mut post);
            assert(out@ =~= with_s);
            j += 1;
        }
        let realigned = position_segments(out.as_slice(), &marker);
        (self.rebuild(realigned), Vec::new(), Vec::new(), false)
    }

    /// The node made anew over the segments, with the marker that spans
    /// theirs.
    pub fn rebuild(&self, segments: Vec<ErasedSegment>) -> (r: ErasedSegment)
        requires
            self@.is_node() ==> self@.marker is Some,
        ensures
            r@ == rebuilt(self@, views(segments@)),
    {
        proof {
            self.lemma_view_children();
        }
        match &self.value.kind {
            NodeOrTokenKind::Node(node) => {
                if any_marker(segments.as_slice()) {
                    make_node(self.value.id, self.value.syntax_kind, node.dialect, segments)
                } else {
                    self.new(segments)
                }
            },
            NodeOrTokenKind::Token(_) => self.deep_clone(),
        }
    }
}

} // verus!
