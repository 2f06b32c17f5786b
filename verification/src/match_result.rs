//! Match results: what a grammar has matched of a run of tokens, before it
//! is made into segments.

use vstd::prelude::*;

use crate::markers::PositionMarker;
use crate::segment::{
    lemma_views_add, lemma_views_push, lemma_views_subrange, markers_of, next_counter, node_v, token_v, views, ErasedSegment, SegV, SegmentBuilder, Tables,
};
use crate::seqs::{lemma_filter_empty, lemma_filter_step};
use crate::syntax::{DialectKind, SyntaxKind};

verus! {

/// A half-open range of token indices.
#[derive(Default, Debug, Clone, Copy, PartialEq, Eq, Structural)]
pub struct Span {
    pub start: u32,
    pub end: u32,
}

/// What a match is to become: a node of a kind, a given segment over the
/// matched tokens, or a bracketed node.
#[derive(Clone, Debug)]
pub enum Matched {
    SyntaxKind(SyntaxKind),
    ErasedSegment(ErasedSegment),
    BracketedSegment { start_bracket: u32, end_bracket: u32 },
}

#[derive(Debug)]
pub struct MatchResult {
    pub span: Span,
    pub matched: Option<Matched>,
    pub insert_segments: Vec<(u32, SyntaxKind)>,
    pub child_matches: Vec<MatchResult>,
}

pub enum MatchedV {
    SyntaxKind(SyntaxKind),
    ErasedSegment(SegV),
    BracketedSegment { start_bracket: u32, end_bracket: u32 },
}

/// The view of a match result.
pub struct MatchV {
    pub span: Span,
    pub matched: Option<MatchedV>,
    pub insert_segments: Seq<(u32, SyntaxKind)>,
    pub child_matches: Seq<MatchV>,
}

pub open spec fn matched_view(m: Option<Matched>) -> Option<MatchedV> {
    match m {
        None => None,
        Some(Matched::SyntaxKind(k)) => Some(MatchedV::SyntaxKind(k)),
        Some(Matched::ErasedSegment(s)) => Some(MatchedV::ErasedSegment(s@)),
        Some(Matched::BracketedSegment { start_bracket, end_bracket }) => Some(
            MatchedV::BracketedSegment { start_bracket, end_bracket },
        ),
    }
}

/// The view of a match result, by descent through its child matches.
pub open spec fn match_view(m: MatchResult) -> MatchV
    decreases m,
{
    MatchV {
        span: m.span,
        matched: matched_view(m.matched),
        insert_segments: m.insert_segments@,
        child_matches: Seq::new(
            m.child_matches@.len(),
            |i: int|
                if 0 <= i < m.child_matches@.len() {
                    match_view(m.child_matches@[i])
                } else {
                    arbitrary()
                },
        ),
    }
}

impl View for MatchResult {
    type V = MatchV;

    open spec fn view(&self) -> MatchV {
        match_view(*self)
    }
}

/// The views of a sequence of match results.
pub open spec fn match_views(s: Seq<MatchResult>) -> Seq<MatchV> {
    Seq::new(s.len(), |i: int| s[i]@)
}

impl MatchV {
    pub open spec fn len(self) -> int {
        self.span.end - self.span.start
    }

    /// A match of at least one token, or one that puts something in.
    pub open spec fn has_match(self) -> bool {
        self.len() > 0 || self.insert_segments.len() > 0
    }

    pub open spec fn is_empty(self) -> bool {
        !self.has_match()
    }

    /// The two matches as one. An empty match gives way to the other.
    /// Else the span runs from the start of the first to the end of the
    /// second, and each operand, if it is tagged, becomes a child match of
    /// the result, and else hands over what it puts in and its child matches.
    pub open spec fn append(self, other: MatchV) -> MatchV {
        if self.is_empty() {
            other
        } else if other.is_empty() {
            self
        } else {
            MatchV {
                span: Span { start: self.span.start, end: other.span.end },
                matched: None,
                insert_segments: self.handed_inserts() + other.handed_inserts(),
                child_matches: self.handed_children() + other.handed_children(),
            }
        }
    }

    pub open spec fn handed_inserts(self) -> Seq<(u32, SyntaxKind)> {
        if self.matched is Some {
            Seq::empty()
        } else {
            self.insert_segments
        }
    }

    pub open spec fn handed_children(self) -> Seq<MatchV> {
        if self.matched is Some {
            seq![self]
        } else {
            self.child_matches
        }
    }

    /// The match with its span begun at `start`.
    pub open spec fn span_from(self, start: int) -> MatchV {
        MatchV { span: Span { start: start as u32, end: self.span.end }, ..self }
    }

    /// The match under a tag. An empty match stays as it is.
    pub open spec fn wrap(self, outer: MatchedV) -> MatchV {
        if self.is_empty() {
            self
        } else {
            MatchV {
                span: self.span,
                matched: Some(outer),
                insert_segments: self.handed_inserts(),
                child_matches: self.handed_children(),
            }
        }
    }
}

impl MatchResult {
    pub proof fn lemma_view(&self)
        ensures
            self@.span == self.span,
            self@.matched == matched_view(self.matched),
            self@.insert_segments == self.insert_segments@,
            self@.child_matches == match_views(self.child_matches@),
    {
        assert(self@.child_matches =~= match_views(self.child_matches@));
    }

    /// The child matches of a match are smaller than the match.
    pub proof fn lemma_child_decreases(&self, i: int)
        requires
            0 <= i < self.child_matches@.len(),
        ensures
            decreases_to!(self => self.child_matches@[i]),
    {
        vstd::std_specs::vec::axiom_vec_index_decreases(self.child_matches, i);
        assert(decreases_to!(self.child_matches => self.child_matches[i]));
        assert(decreases_to!(self => self.child_matches));
    }

    /// A copy of the match.
    pub fn copy(&self) -> (r: MatchResult)
        ensures
            r@ == self@,
        decreases self,
    {
        proof {
            self.lemma_view();
        }
        let matched = match &self.matched {
            None => None,
            Some(Matched::SyntaxKind(k)) => Some(Matched::SyntaxKind(*k)),
            Some(Matched::ErasedSegment(s)) => Some(Matched::ErasedSegment(s.copy())),
            Some(Matched::BracketedSegment { start_bracket, end_bracket }) => Some(
                Matched::BracketedSegment {
                    start_bracket: *start_bracket,
                    end_bracket: *end_bracket,
                },
            ),
        };
        let mut insert_segments: Vec<(u32, SyntaxKind)> = Vec::new();
        let mut i: usize = 0;
        while i < self.insert_segments.len()
            invariant
                i <= self.insert_segments@.len(),
                insert_segments@ == self.insert_segments@.subrange(0, i as int),
            decreases self.insert_segments.len() - i,
        {
            insert_segments.push(self.insert_segments[i]);
            i += 1;
            assert(insert_segments@ =~= self.insert_segments@.subrange(0, i as int));
        }
        assert(self.insert_segments@.subrange(0, i as int) =~= self.insert_segments@);
        let mut child_matches: Vec<MatchResult> = Vec::new();
        let mut k: usize = 0;
        while k < self.child_matches.len()
            invariant
                k <= self.child_matches@.len(),
                child_matches@.len() == k,
                forall|j: int| 0 <= j < k ==> (#[trigger] child_matches@[j])@ == self.child_matches@[j]@,
            decreases self.child_matches.len() - k,
        {
            proof {
                self.lemma_child_decreases(k as int);
            }
            child_matches.push(self.child_matches[k].copy());
            k += 1;
        }
        let r = MatchResult { span: self.span, matched, insert_segments, child_matches };
        proof {
            r.lemma_view();
            assert(match_views(r.child_matches@) =~= match_views(self.child_matches@));
        }
        r
    }

    /// The untagged match of the tokens `start..end`.
    pub fn from_span(start: u32, end: u32) -> (r: MatchResult)
        ensures
            r@ == (MatchV {
                span: Span { start, end },
                matched: None,
                insert_segments: Seq::empty(),
                child_matches: Seq::empty(),
            }),
    {
        let r = MatchResult {
            span: Span { start, end },
            matched: None,
            insert_segments: Vec::new(),
            child_matches: Vec::new(),
        };
        proof {
            r.lemma_view();
            assert(match_views(r.child_matches@) =~= Seq::<MatchV>::empty());
        }
        r
    }

    /// The empty match at token `idx`.
    pub fn empty_at(idx: u32) -> (r: MatchResult)
        ensures
            r@ == (MatchV {
                span: Span { start: idx, end: idx },
                matched: None,
                insert_segments: Seq::empty(),
                child_matches: Seq::empty(),
            }),
            r@.is_empty(),
    {
        MatchResult::from_span(idx, idx)
    }

    /// How many tokens the match spans.
    pub fn len(&self) -> (r: u32)
        requires
            self.span.start <= self.span.end,
        ensures
            r == self@.len(),
    {
        self.span.end - self.span.start
    }

    pub fn is_empty(&self) -> (r: bool)
        requires
            self.span.start <= self.span.end,
        ensures
            r == self@.is_empty(),
    {
        !self.has_match()
    }

    pub fn has_match(&self) -> (r: bool)
        requires
            self.span.start <= self.span.end,
        ensures
            r == self@.has_match(),
    {
        self.len() > 0 || self.insert_segments.len() > 0
    }

    /// Whether the match spans more tokens than `other`.
    pub fn is_better_than(&self, other: &MatchResult) -> (r: bool)
        requires
            self.span.start <= self.span.end,
            other.span.start <= other.span.end,
        ensures
            r == (self@.len() > other@.len()),
    {
        self.len() > other.len()
    }

    /// The two matches as one.
    pub fn append(self, other: MatchResult) -> (r: MatchResult)
        requires
            self.span.start <= self.span.end,
            other.span.start <= other.span.end,
        ensures
            r@ == self@.append(other@),
    {
        proof {
            self.lemma_view();
            other.lemma_view();
        }
        if self.is_empty() {
            return other;
        }
        if other.is_empty() {
            return self;
        }
        let new_span = Span { start: self.span.start, end: other.span.end };
        let mut insert_segments: Vec<(u32, SyntaxKind)> = Vec::new();
        let mut child_matches: Vec<MatchResult> = Vec::new();
        let ghost a = self@;
        let ghost b = other@;
        let mut first = self;
        let mut second = other;
        if first.matched.is_some() {
            child_matches.push(first);
        } else {
            insert_segments.append(&mut first.insert_segments);
            child_matches.append(&mut first.child_matches);
        }
        proof {
            assert(insert_segments@ =~= a.handed_inserts());
            assert(match_views(child_matches@) =~= a.handed_children());
        }
        let ghost mid = child_matches@;
        if second.matched.is_some() {
            child_matches.push(second);
        } else {
            insert_segments.append(&mut second.insert_segments);
            child_matches.append(&mut second.child_matches);
        }
        proof {
            assert(insert_segments@ =~= a.handed_inserts() + b.handed_inserts());
            assert(match_views(child_matches@) =~= a.handed_children() + b.handed_children());
        }
        let r = MatchResult { span: new_span, matched: None, insert_segments, child_matches };
        proof {
            r.lemma_view();
        }
        r
    }

    /// The match under the tag `outer_matched`.
    pub fn wrap(self, outer_matched: Matched) -> (r: MatchResult)
        requires
            self.span.start <= self.span.end,
        ensures
            r@ == self@.wrap(matched_view(Some(outer_matched))->0),
    {
        proof {
            self.lemma_view();
        }
        if self.is_empty() {
            return self;
        }
        let span = self.span;
        let ghost a = self@;
        let mut this = self;
        let mut insert_segments: Vec<(u32, SyntaxKind)> = Vec::new();
        let mut child_matches: Vec<MatchResult> = Vec::new();
        if this.matched.is_some() {
            child_matches.push(this);
        } else {
            insert_segments.append(&mut this.insert_segments);
            child_matches.append(&mut this.child_matches);
        }
        proof {
            assert(insert_segments@ =~= a.handed_inserts());
            assert(match_views(child_matches@) =~= a.handed_children());
        }
        let r = MatchResult { span, matched: Some(outer_matched), insert_segments, child_matches };
        proof {
            r.lemma_view();
        }
        r
    }
}

/// The empty match is a unit of `append` on either side.
pub proof fn lemma_append_empty(a: MatchV, e: MatchV)
    requires
        e.is_empty(),
    ensures
        a.append(e) == a || a.is_empty(),
        e.append(a) == a,
        a.is_empty() ==> a.append(e) == e,
{
}

/// Composition is associative on matches that follow each other, where
/// every tagged match spans at least one token.
pub proof fn lemma_append_assoc(a: MatchV, b: MatchV, c: MatchV)
    requires
        a.span.start <= a.span.end <= b.span.start,
        b.span.start <= b.span.end <= c.span.start,
        c.span.start <= c.span.end,
        a.matched is Some ==> a.len() > 0,
        b.matched is Some ==> b.len() > 0,
        c.matched is Some ==> c.len() > 0,
    ensures
        a.append(b).append(c) == a.append(b.append(c)),
{
    if !a.is_empty() && !b.is_empty() && !c.is_empty() {
        let ab = a.append(b);
        let bc = b.append(c);
        assert(ab.handed_inserts() + c.handed_inserts() =~= a.handed_inserts()
            + bc.handed_inserts());
        assert(ab.handed_children() + c.handed_children() =~= a.handed_children()
            + bc.handed_children());
    }
}

/// Something that happens at a token index while a match is applied: a
/// marker without text is put in (`index` says which of the insertions),
/// or a child match begins (`index` says which).
#[derive(Clone, Copy, Debug)]
pub struct Trigger {
    pub pos: u32,
    pub is_child: bool,
    pub index: usize,
}

/// What happens while `m` is applied, in the order given: the insertions,
/// then the child matches.
pub open spec fn triggers_of(m: MatchV) -> Seq<Trigger> {
    Seq::new(
        m.insert_segments.len() + m.child_matches.len(),
        |i: int|
            if i < m.insert_segments.len() {
                Trigger { pos: m.insert_segments[i].0, is_child: false, index: i as usize }
            } else {
                Trigger {
                    pos: m.child_matches[i - m.insert_segments.len()].span.start,
                    is_child: true,
                    index: (i - m.insert_segments.len()) as usize,
                }
            },
    )
}

/// The first index from `from` on at which `s` holds a trigger later than
/// `pos`, or the length of `s`.
pub open spec fn upper_bound(s: Seq<Trigger>, pos: u32, from: int) -> int
    decreases s.len() - from,
{
    if from < 0 || from >= s.len() {
        s.len() as int
    } else if s[from].pos > pos {
        from
    } else {
        upper_bound(s, pos, from + 1)
    }
}

/// The first `n` triggers of `t` by token index, those at the same index in
/// the order in which they stand in `t`.
pub open spec fn sorted_upto(t: Seq<Trigger>, n: int) -> Seq<Trigger>
    decreases n,
{
    if n <= 0 || n > t.len() {
        Seq::empty()
    } else {
        let s = sorted_upto(t, n - 1);
        s.insert(upper_bound(s, t[n - 1].pos, 0), t[n - 1])
    }
}

/// What happens while `m` is applied, by token index.
pub open spec fn order_of(m: MatchV) -> Seq<Trigger> {
    sorted_upto(triggers_of(m), triggers_of(m).len() as int)
}

pub proof fn lemma_upper_bound(s: Seq<Trigger>, pos: u32, from: int)
    requires
        0 <= from <= s.len(),
    ensures
        from <= upper_bound(s, pos, from) <= s.len(),
    decreases s.len() - from,
{
    if from < s.len() && s[from].pos <= pos {
        lemma_upper_bound(s, pos, from + 1);
    }
}

pub proof fn lemma_sorted_upto_len(t: Seq<Trigger>, n: int)
    requires
        0 <= n <= t.len(),
    ensures
        sorted_upto(t, n).len() == n,
        forall|i: int|
            0 <= i < n ==> exists|j: int|
                0 <= j < n && #[trigger] sorted_upto(t, n)[i] == #[trigger] t[j],
    decreases n,
{
    if n > 0 {
        lemma_sorted_upto_len(t, n - 1);
        let s = sorted_upto(t, n - 1);
        let k = upper_bound(s, t[n - 1].pos, 0);
        lemma_upper_bound(s, t[n - 1].pos, 0);
        let r = sorted_upto(t, n);
        assert forall|i: int| 0 <= i < n implies exists|j: int|
            0 <= j < n && #[trigger] r[i] == #[trigger] t[j] by {
            if i < k {
                assert(r[i] == s[i]);
                let j = choose|j: int| 0 <= j < n - 1 && s[i] == t[j];
                assert(r[i] == t[j]);
            } else if i == k {
                assert(r[i] == t[n - 1]);
            } else {
                assert(r[i] == s[i - 1]);
                let j = choose|j: int| 0 <= j < n - 1 && s[i - 1] == t[j];
                assert(r[i] == t[j]);
            }
        }
    }
}

/// The token index up to which the tokens are used after the first `n`
/// triggers of `order`: the end of a child match, or the index of an
/// insertion that lies beyond what is used.
pub open spec fn max_after(m: MatchV, order: Seq<Trigger>, n: int) -> u32
    decreases n,
{
    if n <= 0 || n > order.len() {
        m.span.start
    } else {
        let prev = max_after(m, order, n - 1);
        let t = order[n - 1];
        if t.is_child && t.index < m.child_matches.len() {
            m.child_matches[t.index as int].span.end
        } else if t.pos > prev {
            t.pos
        } else {
            prev
        }
    }
}

/// Whether `m` can be applied to `len` tokens: its span and those of its
/// child matches lie within them, nothing begins before the tokens before it
/// are used, the brackets of a bracketed match are tokens, and a node that
/// is to be made anew has a marker.
pub open spec fn well_formed(m: MatchV, len: int) -> bool
    decreases m,
{
    &&& m.span.start <= m.span.end <= len
    &&& m.insert_segments.len() <= usize::MAX
    &&& m.child_matches.len() <= usize::MAX
    &&& forall|n: int|
        1 <= n <= order_of(m).len() ==> max_after(m, order_of(m), n - 1) <= (
        #[trigger] order_of(m)[n - 1]).pos <= len
    &&& forall|i: int|
        0 <= i < m.child_matches.len() ==> well_formed(#[trigger] m.child_matches[i], len)
    &&& match m.matched {
        Some(MatchedV::BracketedSegment { start_bracket, end_bracket }) => start_bracket < len
            && end_bracket < len,
        Some(MatchedV::ErasedSegment(s)) => s.is_node() ==> s.marker is Some,
        _ => true,
    }
}

/// The marker of a point at token `idx`: where that token starts, or, past
/// the last token, where the token before it ends; none where that token
/// has none.
pub open spec fn point_pos(segs: Seq<SegV>, idx: int) -> Option<PositionMarker> {
    if 0 <= idx < segs.len() {
        match segs[idx].marker {
            Some(m) => Some(m.spec_start_point_marker()),
            None => None,
        }
    } else if 0 <= idx - 1 < segs.len() {
        match segs[idx - 1].marker {
            Some(m) => Some(m.spec_end_point_marker()),
            None => None,
        }
    } else {
        None
    }
}

/// Segments made so far, and the id that is handed out next.
pub struct Made {
    pub out: Seq<SegV>,
    pub counter: u32,
}

/// What the first `n` triggers of `order` make of the tokens `segs`: before
/// each trigger the tokens not yet used up to its index; then, for an
/// insertion, a marker segment without text at that point, and for a child
/// match, what the child match makes.
pub open spec fn walk(
    m: MatchV,
    segs: Seq<SegV>,
    dialect: DialectKind,
    order: Seq<Trigger>,
    n: int,
    counter: u32,
) -> Made
    decreases m, n,
{
    if n <= 0 || n > order.len() {
        Made { out: Seq::empty(), counter }
    } else {
        let prev = walk(m, segs, dialect, order, n - 1, counter);
        let max_idx = max_after(m, order, n - 1);
        let t = order[n - 1];
        let gap = if t.pos > max_idx {
            segs.subrange(max_idx as int, t.pos as int)
        } else {
            Seq::empty()
        };
        if t.is_child {
            if t.index < m.child_matches.len() {
                let a = spec_apply(m.child_matches[t.index as int], segs, dialect, prev.counter);
                Made { out: prev.out + gap + a.out, counter: a.counter }
            } else {
                Made { out: prev.out + gap, counter: prev.counter }
            }
        } else if t.index < m.insert_segments.len() {
            Made {
                out: (prev.out + gap).push(
                    token_v(prev.counter, Seq::empty(), m.insert_segments[t.index as int].1).with_marker(
                        point_pos(segs, t.pos as int),
                    ),
                ),
                counter: next_counter(prev.counter),
            }
        } else {
            Made { out: prev.out + gap, counter: prev.counter }
        }
    }
}

/// What `m` makes of the tokens `segs`, `counter` being the id that is
/// handed out next.
///
/// The tokens of the span are taken over in order, with the marker
/// segments put in and each child match replaced by what it makes. An
/// untagged match is these segments. A match tagged with a kind, or as
/// bracketed, is one new node over them, which spans their markers; a match
/// tagged with a segment is that segment, made anew over them if there are any.
pub open spec fn spec_apply(m: MatchV, segs: Seq<SegV>, dialect: DialectKind, counter: u32) -> Made
    decreases m, order_of(m).len() + 1,
{
    let order = order_of(m);
    let w = walk(m, segs, dialect, order, order.len() as int, counter);
    let max_idx = max_after(m, order, order.len() as int);
    let inner = if max_idx < m.span.end {
        w.out + segs.subrange(max_idx as int, m.span.end as int)
    } else {
        w.out
    };
    match m.matched {
        None => Made { out: inner, counter: w.counter },
        Some(MatchedV::SyntaxKind(kind)) => Made {
            out: seq![new_node(w.counter, kind, dialect, inner)],
            counter: next_counter(w.counter),
        },
        Some(MatchedV::BracketedSegment { .. }) => Made {
            out: seq![new_node(w.counter, SyntaxKind::Bracketed, dialect, inner)],
            counter: next_counter(w.counter),
        },
        Some(MatchedV::ErasedSegment(s)) => Made {
            out: seq![if inner.len() == 0 {
                s
            } else {
                s.renewed(inner)
            }],
            counter: w.counter,
        },
    }
}

/// A new node over `children`, with the marker that spans theirs, if they
/// have any.
pub open spec fn new_node(id: u32, kind: SyntaxKind, dialect: DialectKind, children: Seq<SegV>) -> SegV {
    node_v(id, kind, dialect, children).with_marker(
        if markers_of(children).len() > 0 {
            Some(crate::segment::spanning_marker(markers_of(children)))
        } else {
            None
        },
    )
}

/// Puts copies of the segments `from..to` of `segments` at the end of `out`.
pub fn extend_from(out: &mut Vec<ErasedSegment>, segments: &[ErasedSegment], from: usize, to: usize)
    requires
        from <= to <= segments@.len(),
    ensures
        final(out)@ == old(out)@ + segments@.subrange(from as int, to as int),
{
    let ghost start = out@;
    let mut i: usize = from;
    assert(out@ =~= start + segments@.subrange(from as int, from as int));
    while i < to
        invariant
            from <= i <= to <= segments@.len(),
            out@ == start + segments@.subrange(from as int, i as int),
        decreases to - i,
    {
        out.push(segments[i].copy());
        i += 1;
        assert(out@ =~= start + segments@.subrange(from as int, i as int));
    }
}

/// Whether one of the segments has a marker.
pub fn any_marker(segments: &[ErasedSegment]) -> (r: bool)
    ensures
        r == (markers_of(views(segments@)).len() > 0),
{
    let ghost has = |v: SegV| v.marker is Some;
    let mut i: usize = 0;
    proof {
        lemma_filter_empty(has);
        assert(views(segments@).subrange(0, 0) =~= Seq::<SegV>::empty());
    }
    while i < segments.len()
        invariant
            i <= segments@.len(),
            has == (|v: SegV| v.marker is Some),
            views(segments@).subrange(0, i as int).filter(has).len() == 0,
        decreases segments.len() - i,
    {
        proof {
            lemma_filter_step(views(segments@), i as int, has);
        }
        if segments[i].get_position_marker().is_some() {
            proof {
                lemma_filter_grows(views(segments@), i + 1, has);
            }
            return true;
        }
        i += 1;
    }
    assert(views(segments@).subrange(0, i as int) =~= views(segments@));
    false
}

/// What passes the filter in a prefix passes it in the whole.
pub proof fn lemma_filter_grows<T>(s: Seq<T>, n: int, p: spec_fn(T) -> bool)
    requires
        0 <= n <= s.len(),
    ensures
        s.subrange(0, n).filter(p).len() <= s.filter(p).len(),
    decreases s.len() - n,
{
    if n < s.len() {
        lemma_filter_step(s, n, p);
        lemma_filter_grows(s, n + 1, p);
    } else {
        assert(s.subrange(0, n) =~= s);
    }
}

/// A new node over `children`, with the marker that spans theirs, if they
/// have any.
pub fn make_node(id: u32, kind: SyntaxKind, dialect: DialectKind, children: Vec<ErasedSegment>) -> (r:
    ErasedSegment)
    ensures
        r@ == new_node(id, kind, dialect, views(children@)),
{
    let marked = any_marker(children.as_slice());
    let builder = SegmentBuilder::node(id, kind, dialect, children);
    if marked {
        builder.position_from_segments().finish()
    } else {
        builder.finish()
    }
}

impl MatchResult {
    /// What happens while the match is applied, in the order given.
    fn triggers(&self) -> (r: Vec<Trigger>)
        ensures
            r@ == triggers_of(self@),
    {
        proof {
            self.lemma_view();
        }
        let mut out: Vec<Trigger> = Vec::new();
        let mut i: usize = 0;
        while i < self.insert_segments.len()
            invariant
                i <= self.insert_segments@.len(),
                out@.len() == i,
                forall|j: int|
                    0 <= j < i ==> out@[j] == (Trigger {
                        pos: self.insert_segments@[j].0,
                        is_child: false,
                        index: j as usize,
                    }),
            decreases self.insert_segments.len() - i,
        {
            out.push(Trigger { pos: self.insert_segments[i].0, is_child: false, index: i });
            i += 1;
        }
        let n = self.insert_segments.len();
        let mut k: usize = 0;
        while k < self.child_matches.len()
            invariant
                k <= self.child_matches@.len(),
                n == self.insert_segments@.len(),
                out@.len() == n + k,
                forall|j: int|
                    0 <= j < n ==> out@[j] == (Trigger {
                        pos: self.insert_segments@[j].0,
                        is_child: false,
                        index: j as usize,
                    }),
                forall|j: int|
                    0 <= j < k ==> out@[n + j] == (Trigger {
                        pos: self.child_matches@[j].span.start,
                        is_child: true,
                        index: j as usize,
                    }),
            decreases self.child_matches.len() - k,
        {
            out.push(Trigger { pos: self.child_matches[k].span.start, is_child: true, index: k });
            k += 1;
        }
        proof {
            let t = triggers_of(self@);
            assert(out@.len() == t.len());
            assert forall|j: int| 0 <= j < t.len() implies out@[j] == t[j] by {
                if j >= n {
                    assert(out@[n + (j - n)] == t[j]) by {
                        self.child_matches@[j - n].lemma_view();
                        assert(self@.child_matches[j - n] == self.child_matches@[j - n]@);
                    }
                }
            }
            assert(out@ =~= t);
        }
        out
    }

    /// What happens while the match is applied, by token index.
    pub fn order(&self) -> (r: Vec<Trigger>)
        ensures
            r@ == order_of(self@),
    {
        let triggers = self.triggers();
        let mut sorted: Vec<Trigger> = Vec::new();
        let mut i: usize = 0;
        while i < triggers.len()
            invariant
                i <= triggers@.len(),
                sorted@ == sorted_upto(triggers@, i as int),
            decreases triggers.len() - i,
        {
            let t = triggers[i];
            let mut k: usize = 0;
            while k < sorted.len() && sorted[k].pos <= t.pos
                invariant
                    k <= sorted@.len(),
                    upper_bound(sorted@, t.pos, 0) == upper_bound(sorted@, t.pos, k as int),
                decreases sorted.len() - k,
            {
                k += 1;
            }
            sorted.insert(k, t);
            i += 1;
        }
        sorted
    }

    /// Makes the segments of the match from the tokens `segments`. The ids
    /// of the segments that are made come from `tables`, and the nodes that
    /// are made are of `dialect`.
    pub fn apply(self, segments: &[ErasedSegment], tables: &mut Tables, dialect: DialectKind) -> (r:
        Vec<ErasedSegment>)
        requires
            well_formed(self@, segments@.len() as int),
        ensures
            views(r@) == spec_apply(self@, views(segments@), dialect, old(tables).counter).out,
            final(tables).counter == spec_apply(
                self@,
                views(segments@),
                dialect,
                old(tables).counter,
            ).counter,
    {
        self.apply_to(segments, tables, dialect)
    }

    /// As `apply`, leaving the match in place.
    pub fn apply_to(&self, segments: &[ErasedSegment], tables: &mut Tables, dialect: DialectKind) -> (r:
        Vec<ErasedSegment>)
        requires
            well_formed(self@, segments@.len() as int),
        ensures
            views(r@) == spec_apply(self@, views(segments@), dialect, old(tables).counter).out,
            final(tables).counter == spec_apply(
                self@,
                views(segments@),
                dialect,
                old(tables).counter,
            ).counter,
        decreases self,
    {
        let ghost m = self@;
        let ghost segs = views(segments@);
        let ghost c0 = tables.counter;
        let order = self.order();
        proof {
            self.lemma_view();
        }
        let mut out: Vec<ErasedSegment> = Vec::new();
        let mut max_idx: u32 = self.span.start;
        let mut i: usize = 0;
        assert(views(out@) =~= Seq::<SegV>::empty());
        while i < order.len()
            invariant
                i <= order@.len(),
                m == self@,
                segs == views(segments@),
                order@ == order_of(m),
                well_formed(m, segments@.len() as int),
                m.span == self.span,
                m.insert_segments == self.insert_segments@,
                m.child_matches == match_views(self.child_matches@),
                views(out@) == walk(m, segs, dialect, order@, i as int, c0).out,
                tables.counter == walk(m, segs, dialect, order@, i as int, c0).counter,
                max_idx == max_after(m, order@, i as int),
            decreases order.len() - i,
        {
            let t = order[i];
            assert(max_after(m, order@, i as int) <= order_of(m)[(i + 1) - 1].pos
                <= segments@.len());
            let ghost before = views(out@);
            if t.pos > max_idx {
                proof {
                    lemma_views_subrange(segments@, max_idx as int, t.pos as int);
                    lemma_views_add(out@, segments@.subrange(max_idx as int, t.pos as int));
                }
                extend_from(&mut out, segments, max_idx as usize, t.pos as usize);
                max_idx = t.pos;
            } else {
                assert(before + Seq::<SegV>::empty() =~= before);
            }
            if t.is_child {
                if t.index < self.child_matches.len() {
                    let child = &self.child_matches[t.index];
                    proof {
                        self.lemma_child_decreases(t.index as int);
                        assert(m.child_matches[t.index as int] == child@);
                    }
                    let mut made = child.apply_to(segments, tables, dialect);
                    proof {
                        lemma_views_add(out@, made@);
                    }
                    out.append(&mut made);
                    max_idx = child.span.end;
                }
            } else {
                if t.index < self.insert_segments.len() {
                    let kind = self.insert_segments[t.index].1;
                    let idx = t.pos as usize;
                    let pos = if idx < segments.len() {
                        match segments[idx].get_position_marker() {
                            Some(p) => Some(p.start_point_marker()),
                            None => None,
                        }
                    } else if idx >= 1 && idx - 1 < segments.len() {
                        match segments[idx - 1].get_position_marker() {
                            Some(p) => Some(p.end_point_marker()),
                            None => None,
                        }
                    } else {
                        None
                    };
                    let id = tables.next_id();
                    let meta = SegmentBuilder::token(id, "", kind).finish().with_position_marker(
                        pos,
                    );
                    proof {
                        reveal_strlit("");
                        assert(""@ =~= Seq::<char>::empty());
                        lemma_views_push(out@, meta);
                    }
                    out.push(meta);
                }
            }
            i += 1;
        }
        if max_idx < self.span.end {
            proof {
                lemma_views_subrange(segments@, max_idx as int, self.span.end as int);
                lemma_views_add(out@, segments@.subrange(max_idx as int, self.span.end as int));
            }
            extend_from(&mut out, segments, max_idx as usize, self.span.end as usize);
        }
        match &self.matched {
            None => out,
            Some(Matched::SyntaxKind(kind)) => {
                let id = tables.next_id();
                let node = make_node(id, *kind, dialect, out);
                let mut r: Vec<ErasedSegment> = Vec::new();
                r.push(node);
                assert(views(r@) =~= seq![node@]);
                r
            },
            Some(Matched::BracketedSegment { .. }) => {
                let id = tables.next_id();
                let node = make_node(id, SyntaxKind::Bracketed, dialect, out);
                let mut r: Vec<ErasedSegment> = Vec::new();
                r.push(node);
                assert(views(r@) =~= seq![node@]);
                r
            },
            Some(Matched::ErasedSegment(segment)) => {
                let seg = if out.len() == 0 {
                    segment.copy()
                } else {
                    segment.new(out)
                };
                let mut r: Vec<ErasedSegment> = Vec::new();
                r.push(seg);
                assert(views(r@) =~= seq![seg@]);
                r
            },
        }
    }
}

} // verus!
