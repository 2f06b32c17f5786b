//! Walks over the tree, and segments made from other segments.

use vstd::prelude::*;

use crate::markers::PositionMarker;
use crate::segment::{
    copy_segments, copy_source_fixes, crawl_all_seq, lemma_views_add, lemma_views_push, node_v, token_v, views, BodyV, ErasedSegment, NodeData, NodeOrToken, NodeOrTokenKind, SegV, SegmentBuilder, SourceFix, TokenData,
};
use crate::seqs::{lemma_filter_empty, lemma_filter_step};
use crate::syntax::{DialectKind, SyntaxKind, SyntaxSet};

verus! {

/// The segments of `s` that hold no segments, in order.
pub open spec fn leaves_of(s: Seq<SegV>) -> Seq<SegV> {
    s.filter(|v: SegV| v.children().len() == 0)
}

impl ErasedSegment {
    /// The same segment with another marker, or none.
    pub fn with_position_marker(&self, marker: Option<PositionMarker>) -> (r: ErasedSegment)
        ensures
            r@ == self@.with_marker(marker),
    {
        proof {
            self.lemma_view_children();
        }
        let kind = match &self.value.kind {
            NodeOrTokenKind::Token(t) => NodeOrTokenKind::Token(TokenData { raw: t.raw.clone() }),
            NodeOrTokenKind::Node(n) => NodeOrTokenKind::Node(
                NodeData {
                    dialect: n.dialect,
                    segments: copy_segments(n.segments.as_slice()),
                    source_fixes: copy_source_fixes(&n.source_fixes),
                },
            ),
        };
        let r = ErasedSegment {
            value: std::rc::Rc::new(
                NodeOrToken {
                    id: self.value.id,
                    syntax_kind: self.value.syntax_kind,
                    position_marker: marker,
                    kind,
                },
            ),
        };
        proof {
            r.lemma_view_children();
        }
        r
    }

    /// A copy of the segment.
    pub fn deep_clone(&self) -> (r: ErasedSegment)
        ensures
            r@ == self@,
    {
        self.copy()
    }

    /// A node like this one over other segments: same id, kind, dialect and
    /// marker, without source fixes. Of a token, a copy.
    pub fn new(&self, segments: Vec<ErasedSegment>) -> (r: ErasedSegment)
        requires
            self@.is_node() ==> self@.marker is Some,
        ensures
            r@ == self@.renewed(views(segments@)),
    {
        proof {
            self.lemma_view_children();
        }
        match &self.value.kind {
            NodeOrTokenKind::Node(node) => {
                let marker = match self.get_position_marker() {
                    Some(m) => m.copy(),
                    None => {
                        proof {
                            assert(false);
                        }
                        return self.copy();
                    },
                };
                SegmentBuilder::node(
                    self.value.id,
                    self.value.syntax_kind,
                    node.dialect,
                    segments,
                ).with_position(marker).finish()
            },
            NodeOrTokenKind::Token(_) => self.deep_clone(),
        }
    }

    /// The same node over other segments, without a marker.
    pub fn change_segments(&self, segments: Vec<ErasedSegment>) -> (r: ErasedSegment)
        requires
            self@.is_node(),
        ensures
            r@ == self@.with_children(views(segments@)).with_marker(None),
    {
        proof {
            self.lemma_view_children();
        }
        match &self.value.kind {
            NodeOrTokenKind::Node(node) => {
                let r = ErasedSegment {
                    value: std::rc::Rc::new(
                        NodeOrToken {
                            id: self.value.id,
                            syntax_kind: self.value.syntax_kind,
                            position_marker: None,
                            kind: NodeOrTokenKind::Node(
                                NodeData {
                                    dialect: node.dialect,
                                    segments,
                                    source_fixes: copy_source_fixes(&node.source_fixes),
                                },
                            ),
                        },
                    ),
                };
                proof {
                    r.lemma_view_children();
                }
                r
            },
            NodeOrTokenKind::Token(_) => {
                proof {
                    assert(false);
                }
                self.copy()
            },
        }
    }

    /// A token like this one under another id and, if `raw` is given, with
    /// another text: same kind, same marker.
    pub fn edit(&self, id: u32, raw: Option<String>, _source_fixes: Option<Vec<SourceFix>>) -> (r:
        ErasedSegment)
        requires
            !self@.is_node(),
            self@.marker is Some,
        ensures
            r@ == token_v(
                id,
                match raw {
                    Some(t) => t@,
                    None => self@.raw(),
                },
                self@.kind,
            ).with_marker(self@.marker),
    {
        proof {
            self.lemma_view_children();
        }
        let marker = match self.get_position_marker() {
            Some(m) => m.copy(),
            None => {
                proof {
                    assert(false);
                }
                return self.copy();
            },
        };
        match &self.value.kind {
            NodeOrTokenKind::Token(token) => {
                let text = match &raw {
                    Some(t) => t.as_str(),
                    None => token.raw.as_str(),
                };
                SegmentBuilder::token(id, text, self.value.syntax_kind).with_position(
                    marker,
                ).finish()
            },
            NodeOrTokenKind::Node(_) => {
                proof {
                    assert(false);
                }
                self.copy()
            },
        }
    }

    /// The dialect that a node was parsed under.
    pub fn dialect(&self) -> (r: DialectKind)
        requires
            self@.is_node(),
        ensures
            self@.body matches BodyV::Node { dialect, .. } && r == dialect,
    {
        proof {
            self.lemma_view_children();
        }
        match &self.value.kind {
            NodeOrTokenKind::Node(node) => node.dialect,
            NodeOrTokenKind::Token(_) => {
                proof {
                    assert(false);
                }
                DialectKind::Ansi
            },
        }
    }

    /// The segment and all that is below it, parents before children and
    /// children in order; with `reverse`, the same from the last to the first.
    pub fn recursive_crawl_all(&self, reverse: bool) -> (r: Vec<ErasedSegment>)
        ensures
            views(r@) == (if reverse {
                self@.crawl_all().reverse()
            } else {
                self@.crawl_all()
            }),
    {
        let fwd = self.crawl_forward();
        if !reverse {
            return fwd;
        }
        let mut out: Vec<ErasedSegment> = Vec::new();
        let mut i: usize = fwd.len();
        while i > 0
            invariant
                i <= fwd@.len(),
                out@.len() == fwd@.len() - i,
                forall|k: int| 0 <= k < out@.len() ==> out@[k] == fwd@[fwd@.len() - 1 - k],
            decreases i,
        {
            i -= 1;
            out.push(fwd[i].copy());
        }
        assert(views(out@) =~= views(fwd@).reverse());
        out
    }

    /// The segment and all that is below it, parents before children.
    pub fn crawl_forward(&self) -> (r: Vec<ErasedSegment>)
        ensures
            views(r@) == self@.crawl_all(),
        decreases self,
    {
        proof {
            self.lemma_view_children();
        }
        let mut result: Vec<ErasedSegment> = Vec::new();
        result.push(self.copy());
        assert(views(result@) =~= seq![self@]);
        match &self.value.kind {
            NodeOrTokenKind::Token(_) => {},
            NodeOrTokenKind::Node(node) => {
                let mut i: usize = 0;
                assert(views(node.segments@).subrange(0, 0) =~= Seq::<SegV>::empty());
                assert(seq![self@] + Seq::<SegV>::empty() =~= seq![self@]);
                while i < node.segments.len()
                    invariant
                        i <= node.segments@.len(),
                        self.value.kind == NodeOrTokenKind::Node(*node),
                        views(result@) == seq![self@] + crawl_all_seq(
                            views(node.segments@).subrange(0, i as int),
                        ),
                    decreases node.segments.len() - i,
                {
                    proof {
                        self.lemma_child_decreases(i as int);
                    }
                    let mut below = node.segments[i].crawl_forward();
                    proof {
                        let vs = views(node.segments@);
                        assert(vs.subrange(0, i + 1).drop_last() =~= vs.subrange(0, i as int));
                        assert(vs.subrange(0, i + 1).last() == node.segments@[i as int]@);
                        lemma_views_add(result@, below@);
                        assert(seq![self@] + (crawl_all_seq(vs.subrange(0, i as int)) + views(below@))
                            =~= (seq![self@] + crawl_all_seq(vs.subrange(0, i as int))) + views(
                            below@,
                        ));
                    }
                    result.append(&mut below);
                    i += 1;
                }
                assert(views(node.segments@).subrange(0, i as int) =~= views(node.segments@));
            },
        }
        result
    }

    /// The segments at the bottom of the tree, left to right.
    pub fn get_raw_segments(&self) -> (r: Vec<ErasedSegment>)
        ensures
            views(r@) == self@.leaves(),
    {
        let all = self.recursive_crawl_all(false);
        let ghost p = |s: SegV| s.children().len() == 0;
        let mut out: Vec<ErasedSegment> = Vec::new();
        let mut i: usize = 0;
        proof {
            lemma_filter_empty(p);
            assert(views(all@).subrange(0, 0) =~= Seq::<SegV>::empty());
            assert(views(out@) =~= Seq::<SegV>::empty());
        }
        while i < all.len()
            invariant
                i <= all@.len(),
                p == (|s: SegV| s.children().len() == 0),
                views(out@) == views(all@).subrange(0, i as int).filter(p),
            decreases all.len() - i,
        {
            proof {
                lemma_filter_step(views(all@), i as int, p);
                lemma_views_push(out@, all@[i as int]);
            }
            if all[i].segments().len() == 0 {
                out.push(all[i].copy());
            }
            i += 1;
        }
        assert(views(all@).subrange(0, i as int) =~= views(all@));
        out
    }
}

impl SegV {
    /// What `new` makes of a segment: see there.
    pub open spec fn renewed(self, children: Seq<SegV>) -> SegV {
        match self.body {
            BodyV::Token { .. } => self,
            BodyV::Node { dialect, .. } => node_v(self.id, self.kind, dialect, children).with_marker(
                self.marker,
            ),
        }
    }
}

} // verus!

verus! {

/// The kinds of all that is below the segments of `s`, themselves included.
pub open spec fn types_below_all(s: Seq<SegV>) -> Set<SyntaxKind>
    decreases s, 0int,
{
    if s.len() == 0 {
        Set::empty()
    } else {
        types_below_all(s.drop_last()).union(s.last().types_below()).union(s.last().class_types())
    }
}

/// The class types of the segments of `s`.
pub open spec fn direct_types(s: Seq<SegV>) -> Set<SyntaxKind>
    decreases s.len(),
{
    if s.len() == 0 {
        Set::empty()
    } else {
        direct_types(s.drop_last()).union(s.last().class_types())
    }
}

/// The first of the segments from `from` on whose kind is in the set, or
/// the number of segments.
pub open spec fn first_of_kind(s: Seq<SegV>, kinds: Set<SyntaxKind>, from: int) -> int
    decreases s.len() - from,
{
    if from < 0 || from >= s.len() {
        s.len() as int
    } else if kinds.contains(s[from].kind) {
        from
    } else {
        first_of_kind(s, kinds, from + 1)
    }
}

impl SegV {
    /// The class types of all that is below the segment: what a search for
    /// a kind can find there.
    pub open spec fn types_below(self) -> Set<SyntaxKind>
        decreases self, 1int,
    {
        match self.body {
            BodyV::Token { .. } => Set::empty(),
            BodyV::Node { children, .. } => types_below_all(children),
        }
    }

    /// A segment whose source is not literal: it has a width in the source
    /// and does not lie in literal text only.
    pub open spec fn is_templated(self) -> bool {
        self.marker matches Some(m) && m.source_slice.start != m.source_slice.end
            && !m.spec_is_literal()
    }
}

/// The segments that a search for the kinds `types` finds among the first
/// `n` segments of `s` and below them.
pub open spec fn crawl_seq(
    s: Seq<SegV>,
    types: Set<SyntaxKind>,
    recurse_into: bool,
    no_recursive_types: Set<SyntaxKind>,
    n: int,
) -> Seq<SegV>
    decreases s, n,
{
    if n <= 0 || n > s.len() {
        Seq::empty()
    } else {
        let prev = crawl_seq(s, types, recurse_into, no_recursive_types, n - 1);
        if no_recursive_types.contains(s[n - 1].kind) {
            prev
        } else {
            prev + spec_recursive_crawl(s[n - 1], types, recurse_into, no_recursive_types, true)
        }
    }
}

/// The segments that a search for the kinds `types` finds at `v` and
/// below it.
///
/// The segment itself is found if its class types meet `types` and it may
/// be. The search goes on below it only if something of the kinds can be
/// there, and, once the segment is found, only if it is to go into what it
/// finds; it never goes into a segment of one of the kinds of
/// `no_recursive_types`.
pub open spec fn spec_recursive_crawl(
    v: SegV,
    types: Set<SyntaxKind>,
    recurse_into: bool,
    no_recursive_types: Set<SyntaxKind>,
    allow_self: bool,
) -> Seq<SegV>
    decreases v,
{
    let matches = allow_self && exists|k: SyntaxKind| v.class_types().contains(k) && types.contains(k);
    let own = if matches {
        seq![v]
    } else {
        Seq::empty()
    };
    if !(exists|k: SyntaxKind| v.types_below().contains(k) && types.contains(k)) {
        own
    } else if recurse_into || !matches {
        match v.body {
            BodyV::Token { .. } => own,
            BodyV::Node { children, .. } => own + crawl_seq(
                children,
                types,
                recurse_into,
                no_recursive_types,
                children.len() as int,
            ),
        }
    } else {
        own
    }
}

impl ErasedSegment {
    /// The first of the segments directly below whose kind is in the set.
    pub fn child(&self, seg_types: &SyntaxSet) -> (r: Option<ErasedSegment>)
        ensures
            r is Some <==> first_of_kind(self@.children(), seg_types@, 0) < self@.children().len(),
            r matches Some(c) ==> c@ == self@.children()[first_of_kind(
                self@.children(),
                seg_types@,
                0,
            )],
    {
        let segs = self.segments();
        let mut i: usize = 0;
        while i < segs.len()
            invariant
                i <= segs@.len(),
                views(segs@) == self@.children(),
                first_of_kind(self@.children(), seg_types@, 0) == first_of_kind(
                    self@.children(),
                    seg_types@,
                    i as int,
                ),
            decreases segs.len() - i,
        {
            assert(self@.children()[i as int] == segs@[i as int]@);
            if seg_types.contains(segs[i].get_type()) {
                return Some(segs[i].copy());
            }
            i += 1;
        }
        None
    }

    /// The segments directly below whose kind is in the set, in order.
    pub fn children(&self, seg_types: &SyntaxSet) -> (r: Vec<ErasedSegment>)
        ensures
            views(r@) == self@.children().filter(|v: SegV| seg_types@.contains(v.kind)),
    {
        let segs = self.segments();
        let ghost p = |v: SegV| seg_types@.contains(v.kind);
        let mut buff: Vec<ErasedSegment> = Vec::new();
        let mut i: usize = 0;
        proof {
            lemma_filter_empty(p);
            assert(views(segs@).subrange(0, 0) =~= Seq::<SegV>::empty());
            assert(views(buff@) =~= Seq::<SegV>::empty());
        }
        while i < segs.len()
            invariant
                i <= segs@.len(),
                views(segs@) == self@.children(),
                p == (|v: SegV| seg_types@.contains(v.kind)),
                views(buff@) == views(segs@).subrange(0, i as int).filter(p),
            decreases segs.len() - i,
        {
            proof {
                lemma_filter_step(views(segs@), i as int, p);
                lemma_views_push(buff@, segs@[i as int]);
            }
            if seg_types.contains(segs[i].get_type()) {
                buff.push(segs[i].copy());
            }
            i += 1;
        }
        assert(views(segs@).subrange(0, i as int) =~= views(segs@));
        buff
    }

    /// The indices of the segments directly below that are code, in order.
    pub fn code_indices(&self) -> (r: Vec<usize>)
        ensures
            forall|k: int| 0 <= k < r@.len() ==> r@[k] < self@.children().len() && self@.children()[r@[k] as int].is_code(),
            forall|k: int, l: int| 0 <= k < l < r@.len() ==> r@[k] < r@[l],
            forall|i: int|
                0 <= i < self@.children().len() && (#[trigger] self@.children()[i]).is_code()
                    ==> r@.contains(i as usize),
    {
        let segs = self.segments();
        let mut out: Vec<usize> = Vec::new();
        let mut i: usize = 0;
        while i < segs.len()
            invariant
                i <= segs@.len(),
                views(segs@) == self@.children(),
                forall|k: int| 0 <= k < out@.len() ==> out@[k] < i && self@.children()[out@[k] as int].is_code(),
                forall|k: int, l: int| 0 <= k < l < out@.len() ==> out@[k] < out@[l],
                forall|j: int|
                    0 <= j < i && (#[trigger] self@.children()[j]).is_code() ==> out@.contains(
                        j as usize,
                    ),
            decreases segs.len() - i,
        {
            assert(self@.children()[i as int] == segs@[i as int]@);
            if segs[i].is_code() {
                let ghost before = out@;
                out.push(i);
                proof {
                    assert forall|j: int|
                        0 <= j < i + 1 && (#[trigger] self@.children()[j]).is_code() implies out@.contains(
                        j as usize,
                    ) by {
                        if j < i {
                            let w = choose|w: int| 0 <= w < before.len() && before[w] == j as usize;
                            assert(out@[w] == j as usize);
                        } else {
                            assert(out@[before.len() as int] == i);
                        }
                    }
                }
            }
            i += 1;
        }
        out
    }

    /// The class types of the segments directly below.
    pub fn direct_descendant_type_set(&self) -> (r: SyntaxSet)
        ensures
            r@ == direct_types(self@.children()),
    {
        let segs = self.segments();
        let mut set = SyntaxSet::empty();
        let mut i: usize = 0;
        assert(views(segs@).subrange(0, 0) =~= Seq::<SegV>::empty());
        while i < segs.len()
            invariant
                i <= segs@.len(),
                views(segs@) == self@.children(),
                set@ == direct_types(views(segs@).subrange(0, i as int)),
            decreases segs.len() - i,
        {
            proof {
                let vs = views(segs@);
                assert(vs.subrange(0, i + 1).drop_last() =~= vs.subrange(0, i as int));
                assert(vs.subrange(0, i + 1).last() == segs@[i as int]@);
            }
            set = set.union(&segs[i].class_types());
            i += 1;
        }
        assert(views(segs@).subrange(0, i as int) =~= views(segs@));
        set
    }

    /// The class types of all that is below the segment.
    pub fn descendant_type_set(&self) -> (r: SyntaxSet)
        ensures
            r@ == self@.types_below(),
        decreases self,
    {
        proof {
            self.lemma_view_children();
        }
        match &self.value.kind {
            NodeOrTokenKind::Token(_) => SyntaxSet::empty(),
            NodeOrTokenKind::Node(node) => {
                let mut set = SyntaxSet::empty();
                let mut i: usize = 0;
                assert(views(node.segments@).subrange(0, 0) =~= Seq::<SegV>::empty());
                while i < node.segments.len()
                    invariant
                        i <= node.segments@.len(),
                        self.value.kind == NodeOrTokenKind::Node(*node),
                        set@ == types_below_all(views(node.segments@).subrange(0, i as int)),
                    decreases node.segments.len() - i,
                {
                    proof {
                        self.lemma_child_decreases(i as int);
                        let vs = views(node.segments@);
                        assert(vs.subrange(0, i + 1).drop_last() =~= vs.subrange(0, i as int));
                        assert(vs.subrange(0, i + 1).last() == node.segments@[i as int]@);
                    }
                    let below = node.segments[i].descendant_type_set();
                    set = set.union(&below).union(&node.segments[i].class_types());
                    i += 1;
                }
                assert(views(node.segments@).subrange(0, i as int) =~= views(node.segments@));
                set
            },
        }
    }

    /// The segments that a search for the kinds `types` finds at the
    /// segment and below it.
    pub fn recursive_crawl(
        &self,
        types: &SyntaxSet,
        recurse_into: bool,
        no_recursive_types: &SyntaxSet,
        allow_self: bool,
    ) -> (r: Vec<ErasedSegment>)
        ensures
            views(r@) == spec_recursive_crawl(
                self@,
                types@,
                recurse_into,
                no_recursive_types@,
                allow_self,
            ),
        decreases self,
    {
        proof {
            self.lemma_view_children();
        }
        let mut acc: Vec<ErasedSegment> = Vec::new();
        let matches = allow_self && self.class_types().intersects(types);
        if matches {
            acc.push(self.copy());
            assert(views(acc@) =~= seq![self@]);
        } else {
            assert(views(acc@) =~= Seq::<SegV>::empty());
        }
        if !self.descendant_type_set().intersects(types) {
            return acc;
        }
        if recurse_into || !matches {
            match &self.value.kind {
                NodeOrTokenKind::Token(_) => {},
                NodeOrTokenKind::Node(node) => {
                    let ghost own = views(acc@);
                    let ghost kids = views(node.segments@);
                    let mut i: usize = 0;
                    assert(own + Seq::<SegV>::empty() =~= own);
                    while i < node.segments.len()
                        invariant
                            i <= node.segments@.len(),
                            self.value.kind == NodeOrTokenKind::Node(*node),
                            kids == views(node.segments@),
                            views(acc@) == own + crawl_seq(
                                kids,
                                types@,
                                recurse_into,
                                no_recursive_types@,
                                i as int,
                            ),
                        decreases node.segments.len() - i,
                    {
                        let seg = &node.segments[i];
                        assert(kids[i as int] == seg@);
                        if !no_recursive_types.contains(seg.get_type()) {
                            proof {
                                self.lemma_child_decreases(i as int);
                            }
                            let mut found = seg.recursive_crawl(
                                types,
                                recurse_into,
                                no_recursive_types,
                                true,
                            );
                            proof {
                                lemma_views_add(acc@, found@);
                                assert((own + crawl_seq(
                                    kids,
                                    types@,
                                    recurse_into,
                                    no_recursive_types@,
                                    i as int,
                                )) + views(found@) =~= own + (crawl_seq(
                                    kids,
                                    types@,
                                    recurse_into,
                                    no_recursive_types@,
                                    i as int,
                                ) + views(found@)));
                            }
                            acc.append(&mut found);
                        }
                        i += 1;
                    }
                },
            }
        }
        acc
    }

    /// Whether the source of the segment is not literal. A segment without
    /// a marker is not.
    pub fn is_templated(&self) -> (r: bool)
        ensures
            r == self@.is_templated(),
    {
        match self.get_position_marker() {
            Some(pos_marker) => pos_marker.source_slice.start != pos_marker.source_slice.end
                && !pos_marker.is_literal(),
            None => false,
        }
    }

    /// The working line and column at which the segment starts.
    pub fn get_start_loc(&self) -> (r: (usize, usize))
        requires
            self@.marker is Some,
        ensures
            r == (self@.marker->0.working_line_no, self@.marker->0.working_line_pos),
    {
        match self.get_position_marker() {
            Some(pos_marker) => pos_marker.working_loc(),
            None => {
                proof {
                    assert(false);
                }
                (0, 0)
            },
        }
    }

    /// The working line and column just after the segment.
    pub fn get_end_loc(&self) -> (r: (usize, usize))
        requires
            self@.marker is Some,
        ensures
            r.0 == crate::markers::spec_infer_next_position(
                self@.raw(),
                self@.marker->0.working_line_no as int,
                self@.marker->0.working_line_pos as int,
            ).0,
            r.1 == crate::markers::spec_infer_next_position(
                self@.raw(),
                self@.marker->0.working_line_no as int,
                self@.marker->0.working_line_pos as int,
            ).1,
    {
        let raw = self.raw();
        match self.get_position_marker() {
            Some(pos_marker) => pos_marker.working_loc_after(raw.as_str()),
            None => {
                proof {
                    assert(false);
                }
                (0, 0)
            },
        }
    }

    /// Whether the two segments are equal: they have the same id, or they
    /// both have a marker and are of the same kind, on the same working line
    /// and column, with the same text.
    pub fn same_as(&self, other: &ErasedSegment) -> (r: bool)
        ensures
            r == spec_same_segment(self@, other@),
    {
        if self.id() == other.id() {
            return true;
        }
        match (self.get_position_marker(), other.get_position_marker()) {
            (Some(a), Some(b)) => {
                if self.get_type() == other.get_type() && a.working_line_no == b.working_line_no
                    && a.working_line_pos == b.working_line_pos {
                    let x = self.raw();
                    let y = other.raw();
                    crate::text::str_eq(x.as_str(), y.as_str())
                } else {
                    false
                }
            },
            _ => false,
        }
    }
}

/// Whether the two segments are equal: see `same_as`.
pub open spec fn spec_same_segment(a: SegV, b: SegV) -> bool {
    a.id == b.id || (a.marker is Some && b.marker is Some && a.kind == b.kind
        && a.marker->0.working_line_no == b.marker->0.working_line_no
        && a.marker->0.working_line_pos == b.marker->0.working_line_pos && a.raw() == b.raw())
}

} // verus!
