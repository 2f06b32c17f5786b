//! More questions to ask of a tree, and segments of particular kinds.

use vstd::prelude::*;

use crate::crawl::spec_same_segment;
use crate::depth_map::{step_views, DepthInfo, PathStep, PathStepV};
use crate::helpers::{ascii_lower, lower_ascii};
use crate::markers::PositionMarker;
use crate::segment::{
    lemma_views_add, lemma_views_push, markers_of, node_v, token_v, views, BodyV, ErasedSegment, NodeOrTokenKind, SegV, SegmentBuilder,
};
use crate::syntax::{DialectKind, SyntaxKind, SyntaxSet};
use crate::text::str_eq;

verus! {

/// The text in upper case, as `str::to_uppercase` puts it.
pub uninterp spec fn uppercased(s: Seq<char>) -> Seq<char>;

/// `str::to_uppercase`: the text with every character in upper case, by
/// the rules of Unicode.
#[verifier::external_body]
pub(crate) fn str_to_uppercase(s: &str) -> (r: String)
    ensures
        r@ == uppercased(s@),
{
    s.to_uppercase()
}

/// The index of the first of the segments from `from` on that has text, or
/// the number of segments.
pub open spec fn first_with_text(s: Seq<SegV>, from: int) -> int
    decreases s.len() - from,
{
    if from < 0 || from >= s.len() {
        s.len() as int
    } else if s[from].raw().len() > 0 {
        from
    } else {
        first_with_text(s, from + 1)
    }
}

/// The index of the first of the segments from `from` on that is equal to
/// `x`, or the number of segments.
pub open spec fn position_of(s: Seq<SegV>, x: SegV, from: int) -> int
    decreases s.len() - from,
{
    if from < 0 || from >= s.len() {
        s.len() as int
    } else if spec_same_segment(s[from], x) {
        from
    } else {
        position_of(s, x, from + 1)
    }
}

/// The segments among the first `n` of `s`, with those of the kinds of
/// `expanding` replaced by what is below them.
pub open spec fn expand_seq(s: Seq<SegV>, expanding: Option<Set<SyntaxKind>>, pass_through: bool, n: int) -> Seq<
    SegV,
>
    decreases s, n,
{
    if n <= 0 || n > s.len() {
        Seq::empty()
    } else {
        let prev = expand_seq(s, expanding, pass_through, n - 1);
        match expanding {
            Some(kinds) => if kinds.contains(s[n - 1].kind) {
                prev + spec_iter_segments(
                    s[n - 1],
                    if pass_through {
                        expanding
                    } else {
                        None
                    },
                    false,
                )
            } else {
                prev.push(s[n - 1])
            },
            None => prev.push(s[n - 1]),
        }
    }
}

/// The segments below `v`, with those of the kinds of `expanding` replaced
/// by the segments below them; below those the same again, if `pass_through`
/// says so.
pub open spec fn spec_iter_segments(v: SegV, expanding: Option<Set<SyntaxKind>>, pass_through: bool) -> Seq<
    SegV,
>
    decreases v,
{
    match v.body {
        BodyV::Token { .. } => Seq::empty(),
        BodyV::Node { children, .. } => expand_seq(
            children,
            expanding,
            pass_through,
            children.len() as int,
        ),
    }
}

/// The leaves among the first `n` segments of `v` and below them, each
/// with the way down to it from `v`.
pub open spec fn ancestors_among(v: SegV, n: int) -> Seq<(SegV, Seq<PathStepV>)>
    decreases v, n,
{
    if n <= 0 || n > v.children().len() {
        Seq::empty()
    } else {
        let prev = ancestors_among(v, n - 1);
        let step = PathStepV { segment: v, idx: n - 1, len: v.children().len() as int };
        match v.body {
            BodyV::Token { .. } => prev,
            BodyV::Node { children, .. } => if children[n - 1].children().len() == 0 {
                prev.push((children[n - 1], seq![step]))
            } else {
                prev + spec_with_ancestors(children[n - 1]).map_values(
                    |p: (SegV, Seq<PathStepV>)| (p.0, seq![step] + p.1),
                )
            },
        }
    }
}

/// The leaves below `v`, left to right, each with the way down to it.
pub open spec fn spec_with_ancestors(v: SegV) -> Seq<(SegV, Seq<PathStepV>)>
    decreases v, v.children().len() + 1,
{
    ancestors_among(v, v.children().len() as int)
}

/// The views of leaves with the ways down to them.
pub open spec fn ancestor_views(s: Seq<(ErasedSegment, Vec<PathStep>)>) -> Seq<(SegV, Seq<PathStepV>)> {
    Seq::new(s.len(), |i: int| (s[i].0@, step_views(s[i].1@)))
}

impl ErasedSegment {
    /// The text of the segment in upper case.
    pub fn get_raw_upper(&self) -> (r: Option<String>)
        ensures
            r matches Some(t) && t@ == uppercased(self@.raw()),
    {
        let raw = self.raw();
        Some(str_to_uppercase(raw.as_str()))
    }

    /// Whether the segment is the keyword `p0`, in whatever case.
    pub fn is_keyword(&self, p0: &str) -> (r: bool)
        ensures
            r == (self@.kind == SyntaxKind::Keyword && self@.raw().map_values(
                |c: char| lower_ascii(c),
            ) == p0@.map_values(|c: char| lower_ascii(c))),
    {
        if !self.is_type(SyntaxKind::Keyword) {
            return false;
        }
        let raw = self.raw();
        let a = ascii_lower(raw.as_str());
        let b = ascii_lower(p0);
        str_eq(a.as_str(), b.as_str())
    }

    /// The text, in upper case, of the first leaf that has any.
    pub fn first_non_whitespace_segment_raw_upper(&self) -> (r: Option<String>)
        ensures
            r is Some <==> first_with_text(self@.leaves(), 0) < self@.leaves().len(),
            r matches Some(t) ==> t@ == uppercased(
                self@.leaves()[first_with_text(self@.leaves(), 0)].raw(),
            ),
    {
        let leaves = self.get_raw_segments();
        let mut i: usize = 0;
        while i < leaves.len()
            invariant
                i <= leaves@.len(),
                views(leaves@) == self@.leaves(),
                first_with_text(self@.leaves(), 0) == first_with_text(self@.leaves(), i as int),
            decreases leaves.len() - i,
        {
            assert(self@.leaves()[i as int] == leaves@[i as int]@);
            let raw = leaves[i].raw();
            if raw.as_str().unicode_len() > 0 {
                return leaves[i].get_raw_upper();
            }
            i += 1;
        }
        None
    }

    /// The segments below the segment, with those of the kinds of
    /// `expanding` replaced by the segments below them.
    pub fn iter_segments(&self, expanding: Option<&SyntaxSet>, pass_through: bool) -> (r: Vec<
        ErasedSegment,
    >)
        ensures
            views(r@) == spec_iter_segments(
                self@,
                match expanding {
                    Some(k) => Some(k@),
                    None => None,
                },
                pass_through,
            ),
        decreases self,
    {
        proof {
            self.lemma_view_children();
        }
        let ghost kinds = match expanding {
            Some(k) => Some(k@),
            None => None,
        };
        let mut result: Vec<ErasedSegment> = Vec::new();
        assert(views(result@) =~= Seq::<SegV>::empty());
        match &self.value.kind {
            NodeOrTokenKind::Token(_) => {},
            NodeOrTokenKind::Node(node) => {
                let ghost kids = views(node.segments@);
                let mut i: usize = 0;
                while i < node.segments.len()
                    invariant
                        i <= node.segments@.len(),
                        self.value.kind == NodeOrTokenKind::Node(*node),
                        kids == views(node.segments@),
                        kinds == (match expanding {
                            Some(k) => Some(k@),
                            None => None,
                        }),
                        views(result@) == expand_seq(kids, kinds, pass_through, i as int),
                    decreases node.segments.len() - i,
                {
                    let s = &node.segments[i];
                    assert(kids[i as int] == s@);
                    let expand = match expanding {
                        Some(k) => k.contains(s.get_type()),
                        None => false,
                    };
                    if expand {
                        proof {
                            self.lemma_child_decreases(i as int);
                        }
                        let mut below = s.iter_segments(
                            if pass_through {
                                expanding
                            } else {
                                None
                            },
                            false,
                        );
                        proof {
                            lemma_views_add(result@, below@);
                        }
                        result.append(&mut below);
                    } else {
                        proof {
                            lemma_views_push(result@, *s);
                        }
                        result.push(s.copy());
                    }
                    i += 1;
                }
            },
        }
        result
    }

    /// The leaves below the segment, left to right, each with the way down
    /// to it.
    pub fn raw_segments_with_ancestors(&self) -> (r: Vec<(ErasedSegment, Vec<PathStep>)>)
        ensures
            ancestor_views(r@) == spec_with_ancestors(self@),
        decreases self,
    {
        proof {
            self.lemma_view_children();
        }
        let mut buffer: Vec<(ErasedSegment, Vec<PathStep>)> = Vec::new();
        assert(ancestor_views(buffer@) =~= Seq::<(SegV, Seq<PathStepV>)>::empty());
        match &self.value.kind {
            NodeOrTokenKind::Token(_) => {},
            NodeOrTokenKind::Node(node) => {
                let n = node.segments.len();
                let code_idxs = self.code_indices();
                let mut idx: usize = 0;
                while idx < n
                    invariant
                        idx <= n,
                        n == node.segments@.len(),
                        self.value.kind == NodeOrTokenKind::Node(*node),
                        self@.children() == views(node.segments@),
                        ancestor_views(buffer@) == ancestors_among(self@, idx as int),
                    decreases n - idx,
                {
                    let seg = &node.segments[idx];
                    assert(self@.children()[idx as int] == seg@);
                    let mut codes: Vec<usize> = Vec::new();
                    let mut c: usize = 0;
                    while c < code_idxs.len()
                        invariant
                            c <= code_idxs@.len(),
                            codes@.len() == c,
                        decreases code_idxs.len() - c,
                    {
                        codes.push(code_idxs[c]);
                        c += 1;
                    }
                    let step = PathStep { segment: self.copy(), idx, len: n, code_idxs: codes };
                    let ghost sv = step@;
                    let ghost before = ancestor_views(buffer@);
                    if seg.segments().len() == 0 {
                        let mut one: Vec<PathStep> = Vec::new();
                        one.push(step);
                        assert(step_views(one@) =~= seq![sv]);
                        buffer.push((seg.copy(), one));
                        assert(ancestor_views(buffer@) =~= before.push((seg@, seq![sv])));
                    } else {
                        proof {
                            self.lemma_child_decreases(idx as int);
                        }
                        let below = seg.raw_segments_with_ancestors();
                        let ghost want = spec_with_ancestors(seg@).map_values(
                            |p: (SegV, Seq<PathStepV>)| (p.0, seq![sv] + p.1),
                        );
                        let mut k: usize = 0;
                        assert(before + want.subrange(0, 0) =~= before);
                        while k < below.len()
                            invariant
                                k <= below@.len(),
                                step@ == sv,
                                ancestor_views(below@) == spec_with_ancestors(seg@),
                                want == spec_with_ancestors(seg@).map_values(
                                    |p: (SegV, Seq<PathStepV>)| (p.0, seq![sv] + p.1),
                                ),
                                ancestor_views(buffer@) == before + want.subrange(0, k as int),
                            decreases below.len() - k,
                        {
                            let (raw_seg, stack) = (&below[k].0, &below[k].1);
                            let mut new_step: Vec<PathStep> = Vec::new();
                            new_step.push(step.copy());
                            let mut j: usize = 0;
                            assert(step_views(new_step@) =~= seq![sv] + step_views(
                                stack@,
                            ).subrange(0, 0));
                            while j < stack.len()
                                invariant
                                    j <= stack@.len(),
                                    step_views(new_step@) == seq![sv] + step_views(
                                        stack@,
                                    ).subrange(0, j as int),
                                decreases stack.len() - j,
                            {
                                let c = stack[j].copy();
                                let ghost prev = new_step@;
                                new_step.push(c);
                                j += 1;
                                proof {
                                    assert(step_views(new_step@) =~= step_views(prev).push(c@));
                                    assert(step_views(stack@).subrange(0, j as int)
                                        =~= step_views(stack@).subrange(0, j - 1).push(c@));
                                }
                                assert(step_views(new_step@) =~= seq![sv] + step_views(
                                    stack@,
                                ).subrange(0, j as int));
                            }
                            assert(step_views(stack@).subrange(0, j as int) =~= step_views(
                                stack@,
                            ));
                            let ghost sofar = ancestor_views(buffer@);
                            buffer.push((raw_seg.copy(), new_step));
                            proof {
                                assert(ancestor_views(below@)[k as int] == (
                                    below@[k as int].0@,
                                    step_views(below@[k as int].1@),
                                ));
                                assert(ancestor_views(buffer@) =~= sofar.push(want[k as int]));
                                assert(before + want.subrange(0, k + 1) =~= (before
                                    + want.subrange(0, k as int)).push(want[k as int]));
                            }
                            k += 1;
                        }
                        assert(want.subrange(0, k as int) =~= want);
                    }
                    idx += 1;
                }
            },
        }
        buffer
    }

    /// The segments directly below, from after the one equal to
    /// `start_seg` to before the one equal to `stop_seg`, as long as
    /// `loop_while` holds of them, those of which `select_if` holds.
    pub fn select_children<F: Fn(&ErasedSegment) -> bool, G: Fn(&ErasedSegment) -> bool>(
        &self,
        start_seg: Option<&ErasedSegment>,
        stop_seg: Option<&ErasedSegment>,
        select_if: Option<F>,
        loop_while: Option<G>,
    ) -> (r: Vec<ErasedSegment>)
        requires
            select_if matches Some(f) ==> forall|s: &ErasedSegment| call_requires(f, (s,)),
            loop_while matches Some(g) ==> forall|s: &ErasedSegment| call_requires(g, (s,)),
        ensures
            r@.len() <= self@.children().len(),
            forall|k: int| 0 <= k < r@.len() ==> is_among(self@.children(), (#[trigger] r@[k])@),
            select_if matches Some(f) ==> forall|k: int|
                0 <= k < r@.len() ==> call_ensures(f, (&#[trigger] r@[k],), true),
            loop_while matches Some(g) ==> forall|k: int|
                0 <= k < r@.len() ==> call_ensures(g, (&#[trigger] r@[k],), true),
            (select_if is None && loop_while is None) ==> ({
                let start = match start_seg {
                    Some(s) => if position_of(self@.children(), s@, 0) < self@.children().len() {
                        position_of(self@.children(), s@, 0) + 1
                    } else {
                        0
                    },
                    None => 0,
                };
                let stop = match stop_seg {
                    Some(s) => position_of(self@.children(), s@, 0),
                    None => self@.children().len() as int,
                };
                views(r@) == (if start <= stop {
                    self@.children().subrange(start, stop)
                } else {
                    Seq::<SegV>::empty()
                })
            }),
    {
        let segments = self.segments();
        let n = segments.len();
        let ghost kids = self@.children();
        let start_index = match start_seg {
            Some(seg) => {
                let p = find_position(segments, seg);
                if p < n {
                    p + 1
                } else {
                    0
                }
            },
            None => 0,
        };
        let stop_index = match stop_seg {
            Some(seg) => find_position(segments, seg),
            None => n,
        };
        let mut buff: Vec<ErasedSegment> = Vec::new();
        let mut i: usize = start_index;
        assert(views(buff@) =~= kids.subrange(start_index as int, start_index as int));
        while i < stop_index
            invariant
                start_index <= i,
                start_index <= n,
                i <= stop_index || i == start_index,
                stop_index <= n,
                n == segments@.len(),
                kids == views(segments@),
                buff@.len() <= i - start_index,
                select_if matches Some(f) ==> forall|s: &ErasedSegment| call_requires(f, (s,)),
                loop_while matches Some(g) ==> forall|s: &ErasedSegment| call_requires(g, (s,)),
                forall|k: int| 0 <= k < buff@.len() ==> is_among(kids, (#[trigger] buff@[k])@),
                select_if matches Some(f) ==> forall|k: int|
                    0 <= k < buff@.len() ==> call_ensures(f, (&#[trigger] buff@[k],), true),
                loop_while matches Some(g) ==> forall|k: int|
                    0 <= k < buff@.len() ==> call_ensures(g, (&#[trigger] buff@[k],), true),
                (select_if is None && loop_while is None) ==> views(buff@) == kids.subrange(
                    start_index as int,
                    i as int,
                ),
            ensures
                (select_if is None && loop_while is None) ==> i == stop_index || start_index
                    > stop_index,
                start_index > stop_index ==> buff@.len() == 0,
                buff@.len() <= n,
                forall|k: int| 0 <= k < buff@.len() ==> is_among(kids, (#[trigger] buff@[k])@),
                select_if matches Some(f) ==> forall|k: int|
                    0 <= k < buff@.len() ==> call_ensures(f, (&#[trigger] buff@[k],), true),
                loop_while matches Some(g) ==> forall|k: int|
                    0 <= k < buff@.len() ==> call_ensures(g, (&#[trigger] buff@[k],), true),
                (select_if is None && loop_while is None) ==> views(buff@) == kids.subrange(
                    start_index as int,
                    i as int,
                ),
            decreases stop_index - i,
        {
            let seg = segments[i].copy();
            assert(kids[i as int] == seg@);
            let go_on = match &loop_while {
                Some(g) => g(&seg),
                None => true,
            };
            if !go_on {
                break ;
            }
            let take = match &select_if {
                Some(f) => f(&seg),
                None => true,
            };
            if take {
                let ghost before = buff@;
                proof {
                    lemma_views_push(buff@, seg);
                }
                buff.push(seg);
                proof {
                    assert forall|k: int| 0 <= k < buff@.len() implies is_among(
                        kids,
                        (#[trigger] buff@[k])@,
                    ) by {
                        if k < before.len() {
                            assert(is_among(kids, before[k]@));
                        } else {
                            assert(kids[i as int] == buff@[k]@);
                        }
                    }
                    assert(kids.subrange(start_index as int, i as int).push(kids[i as int])
                        =~= kids.subrange(start_index as int, i + 1));
                }
            }
            i += 1;
        }
        proof {
            if start_index > stop_index {
                assert(buff@.len() == 0);
                assert(views(buff@) =~= Seq::<SegV>::empty());
            }
        }
        buff
    }
}

/// Whether `x` is one of the segments.
pub open spec fn is_among(s: Seq<SegV>, x: SegV) -> bool {
    exists|i: int| 0 <= i < s.len() && #[trigger] s[i] == x
}

/// The index of the first of the segments that is equal to `x`, or the
/// number of segments.
pub fn find_position(segments: &[ErasedSegment], x: &ErasedSegment) -> (r: usize)
    ensures
        r == position_of(views(segments@), x@, 0),
        r <= segments@.len(),
{
    let mut i: usize = 0;
    while i < segments.len()
        invariant
            i <= segments@.len(),
            position_of(views(segments@), x@, 0) == position_of(views(segments@), x@, i as int),
        decreases segments.len() - i,
    {
        assert(views(segments@)[i as int] == segments@[i as int]@);
        if segments[i].same_as(x) {
            return i;
        }
        i += 1;
    }
    i
}

/// A keyword, before it is a segment of a tree.
#[derive(Debug)]
pub struct KeywordSegment {
    pub raw: String,
    pub id: u32,
    pub position_marker: Option<PositionMarker>,
}

impl KeywordSegment {
    /// The keyword of the text, under the id, which is to be one that no
    /// other segment of the tree has.
    pub fn new(id: u32, raw: String, position_marker: Option<PositionMarker>) -> (r: KeywordSegment)
        ensures
            r.raw == raw,
            r.position_marker == position_marker,
            r.id == id,
    {
        KeywordSegment { raw, id, position_marker }
    }

    /// The keyword as a segment of the tree.
    pub fn to_erased_segment(self) -> (r: ErasedSegment)
        ensures
            r@ == token_v(self.id, self.raw@, SyntaxKind::Keyword).with_marker(self.position_marker),
    {
        SegmentBuilder::token(self.id, self.raw.as_str(), SyntaxKind::Keyword).finish().with_position_marker(
            self.position_marker,
        )
    }
}

/// A stretch between two brackets, before it is a segment of a tree.
#[derive(Debug)]
pub struct BracketedSegment {
    pub segments: Vec<ErasedSegment>,
    pub start_bracket: Vec<ErasedSegment>,
    pub end_bracket: Vec<ErasedSegment>,
    pub pos_marker: Option<PositionMarker>,
    pub id: u32,
}

impl BracketedSegment {
    /// The bracketed stretch over the segments, under the id, which is to
    /// be one that no other segment of the tree has. It takes the marker
    /// that spans theirs, if they have any, unless `hack` says not to.
    pub fn new(
        id: u32,
        segments: Vec<ErasedSegment>,
        start_bracket: Vec<ErasedSegment>,
        end_bracket: Vec<ErasedSegment>,
        hack: bool,
    ) -> (r: BracketedSegment)
        ensures
            r.segments == segments,
            r.start_bracket == start_bracket,
            r.end_bracket == end_bracket,
            r.id == id,
            (hack || markers_of(views(segments@)).len() == 0) ==> r.pos_marker is None,
            !hack && markers_of(views(segments@)).len() > 0 ==> r.pos_marker is Some
                && crate::segment::spans_markers(r.pos_marker->0, markers_of(views(segments@))),
    {
        let pos_marker = if !hack && crate::match_result::any_marker(segments.as_slice()) {
            Some(crate::segment::pos_marker(segments.as_slice()))
        } else {
            None
        };
        BracketedSegment { segments, start_bracket, end_bracket, pos_marker, id }
    }

    /// The bracketed stretch as a segment of the tree.
    pub fn to_erased_segment(self, dialect: DialectKind) -> (r: ErasedSegment)
        ensures
            r@ == node_v(self.id, SyntaxKind::Bracketed, dialect, views(self.segments@)).with_marker(
                self.pos_marker,
            ),
    {
        SegmentBuilder::node(
            self.id,
            SyntaxKind::Bracketed,
            dialect,
            self.segments,
        ).finish().with_position_marker(self.pos_marker)
    }
}

/// The marker of a point at token `idx`: where that token starts, or, past
/// the last token, where the token before it ends; none where that token
/// has no marker.
pub fn get_point_pos_at_idx(segments: &[ErasedSegment], idx: u32) -> (r: Option<PositionMarker>)
    ensures
        r == crate::match_result::point_pos(views(segments@), idx as int),
{
    let idx = idx as usize;
    if idx < segments.len() {
        assert(views(segments@)[idx as int] == segments@[idx as int]@);
        match segments[idx].get_position_marker() {
            Some(p) => Some(p.start_point_marker()),
            None => None,
        }
    } else if idx >= 1 && idx - 1 < segments.len() {
        assert(views(segments@)[idx - 1] == segments@[idx - 1]@);
        match segments[idx - 1].get_position_marker() {
            Some(p) => Some(p.end_point_marker()),
            None => None,
        }
    } else {
        None
    }
}

/// What is known of where each leaf of a tree lies, by the id of the leaf.
pub struct DepthMap {
    pub depth_info: Vec<(u32, DepthInfo)>,
}

/// The index of the first entry from `from` on for the id, or the number
/// of entries.
pub open spec fn info_index(entries: Seq<(u32, DepthInfo)>, id: u32, from: int) -> int
    decreases entries.len() - from,
{
    if from < 0 || from >= entries.len() {
        entries.len() as int
    } else if entries[from].0 == id {
        from
    } else {
        info_index(entries, id, from + 1)
    }
}

impl DepthMap {
    /// The map of the leaves, each with the way down to it. Of two leaves
    /// with the same id the later counts.
    pub fn new(raws_with_stack: Vec<(ErasedSegment, Vec<PathStep>)>) -> (r: DepthMap)
        ensures
            r.depth_info@.len() == raws_with_stack@.len(),
            forall|i: int|
                0 <= i < r.depth_info@.len() ==> {
                    let e = #[trigger] r.depth_info@[i];
                    let src = raws_with_stack@[raws_with_stack@.len() - 1 - i];
                    &&& e.0 == src.0@.id
                    &&& e.1.stack_depth == src.1@.len()
                    &&& e.1.stack_hashes@.len() == src.1@.len()
                    &&& forall|k: int|
                        0 <= k < src.1@.len() ==> (#[trigger] e.1.stack_hashes@[k])
                            == src.1@[k]@.segment.id
                },
    {
        let mut raws_with_stack = raws_with_stack;
        let ghost all = raws_with_stack@;
        let mut depth_info: Vec<(u32, DepthInfo)> = Vec::new();
        while raws_with_stack.len() > 0
            invariant
                raws_with_stack@.len() + depth_info@.len() == all.len(),
                raws_with_stack@ == all.subrange(0, raws_with_stack@.len() as int),
                forall|i: int|
                    0 <= i < depth_info@.len() ==> {
                        let e = #[trigger] depth_info@[i];
                        let src = all[all.len() - 1 - i];
                        &&& e.0 == src.0@.id
                        &&& e.1.stack_depth == src.1@.len()
                        &&& e.1.stack_hashes@.len() == src.1@.len()
                        &&& forall|k: int|
                            0 <= k < src.1@.len() ==> (#[trigger] e.1.stack_hashes@[k])
                                == src.1@[k]@.segment.id
                    },
            decreases raws_with_stack.len(),
        {
            match raws_with_stack.pop() {
                Some((raw, stack)) => {
                    assert(raws_with_stack@ =~= all.subrange(0, raws_with_stack@.len() as int));
                    let info = DepthInfo::from_raw_and_stack(&raw, stack);
                    depth_info.push((raw.id(), info));
                },
                None => {},
            }
        }
        DepthMap { depth_info }
    }

    /// What is known of the leaf, if anything is.
    pub fn get_depth_info(&self, seg: &ErasedSegment) -> (r: Option<&DepthInfo>)
        ensures
            r is Some <==> info_index(self.depth_info@, seg@.id, 0) < self.depth_info@.len(),
            r matches Some(info) ==> *info == self.depth_info@[info_index(
                self.depth_info@,
                seg@.id,
                0,
            )].1,
    {
        let id = seg.id();
        let mut i: usize = 0;
        while i < self.depth_info.len()
            invariant
                i <= self.depth_info@.len(),
                id == seg@.id,
                info_index(self.depth_info@, id, 0) == info_index(self.depth_info@, id, i as int),
            decreases self.depth_info.len() - i,
        {
            if self.depth_info[i].0 == id {
                return Some(&self.depth_info[i].1);
            }
            i += 1;
        }
        None
    }

    /// Lets the new segment lie where the anchor lies, less the last
    /// `trim` segments of the way. Nothing changes where nothing is known of
    /// the anchor, or the way is shorter than that.
    pub fn copy_depth_info(&mut self, anchor: &ErasedSegment, new_segment: &ErasedSegment, trim: u32) -> (done:
        bool)
        ensures
            done == ({
                let at = info_index(old(self).depth_info@, anchor@.id, 0);
                at < old(self).depth_info@.len() && old(self).depth_info@[at].1.can_trim(
                    trim as int,
                )
            }),
            !done ==> final(self).depth_info@ == old(self).depth_info@,
            done ==> final(self).depth_info@.len() == old(self).depth_info@.len() + 1
                && final(self).depth_info@[0].0 == new_segment@.id && final(self).depth_info@.subrange(1, final(self).depth_info@.len() as int) == old(self).depth_info@,
            done ==> ({
                let was = old(self).depth_info@[info_index(old(self).depth_info@, anchor@.id, 0)].1;
                let now = final(self).depth_info@[0].1;
                &&& now.stack_depth == was.stack_depth - trim
                &&& now.stack_hashes@ == was.stack_hashes@.subrange(
                    0,
                    was.stack_hashes@.len() - trim,
                )
                &&& now.stack_class_types@.len() == was.stack_class_types@.len() - trim
            }),
    {
        let trimmed = match self.get_depth_info(anchor) {
            Some(info) => {
                let amount = trim as usize;
                if amount <= info.stack_hashes.len() && amount <= info.stack_class_types.len()
                    && amount <= info.stack_depth {
                    Some(info.trim(amount))
                } else {
                    None
                }
            },
            None => None,
        };
        match trimmed {
            Some(info) => {
                let ghost before = self.depth_info@;
                self.depth_info.insert(0, (new_segment.id(), info));
                assert(self.depth_info@.subrange(1, self.depth_info@.len() as int) =~= before);
                true
            },
            None => false,
        }
    }

    /// The map of the leaves below the segment.
    pub fn from_parent(parent: &ErasedSegment) -> (r: DepthMap)
        ensures
            r.depth_info@.len() == spec_with_ancestors(parent@).len(),
    {
        let raws = parent.raw_segments_with_ancestors();
        assert(ancestor_views(raws@).len() == raws@.len());
        DepthMap::new(raws)
    }

    /// The map of the given leaves, by the way down to each from the root.
    pub fn from_raws_and_root(raw_segments: Vec<ErasedSegment>, root_segment: &ErasedSegment) -> (r:
        DepthMap)
        ensures
            r.depth_info@.len() == raw_segments@.len(),
            forall|i: int|
                0 <= i < r.depth_info@.len() ==> {
                    let e = #[trigger] r.depth_info@[i];
                    let raw = raw_segments@[raw_segments@.len() - 1 - i];
                    &&& e.0 == raw@.id
                    &&& e.1.stack_depth == crate::depth_map::spec_path_to(root_segment@, raw@).len()
                },
    {
        let mut buff: Vec<(ErasedSegment, Vec<PathStep>)> = Vec::new();
        let mut i: usize = 0;
        while i < raw_segments.len()
            invariant
                i <= raw_segments@.len(),
                buff@.len() == i,
                forall|k: int|
                    0 <= k < i ==> (#[trigger] buff@[k]).0 == raw_segments@[k] && step_views(
                        buff@[k].1@,
                    ) == crate::depth_map::spec_path_to(root_segment@, raw_segments@[k]@),
            decreases raw_segments.len() - i,
        {
            let raw = &raw_segments[i];
            let stack = root_segment.path_to(raw);
            buff.push((raw.copy(), stack));
            i += 1;
        }
        let r = DepthMap::new(buff);
        proof {
            assert forall|i: int| 0 <= i < r.depth_info@.len() implies ({
                let e = #[trigger] r.depth_info@[i];
                let raw = raw_segments@[raw_segments@.len() - 1 - i];
                &&& e.0 == raw@.id
                &&& e.1.stack_depth == crate::depth_map::spec_path_to(root_segment@, raw@).len()
            }) by {
                let k = raw_segments@.len() - 1 - i;
                assert(buff@[k].0 == raw_segments@[k]);
                assert(step_views(buff@[k].1@).len() == buff@[k].1@.len());
            }
        }
        r
    }
}

} // verus!
