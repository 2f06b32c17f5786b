//! The segment tree: tokens that hold text, nodes that hold segments.
//!
//! A segment is immutable and shared: copying one copies a pointer. What a
//! segment is, mathematically, is its view: a tree of plain values.

use std::rc::Rc;
use vstd::prelude::*;
use vstd::string::StringExecFns;

use crate::markers::PositionMarker;
use crate::syntax::{class_types, spec_class_types, DialectKind, SyntaxKind, SyntaxSet};
use crate::text::{copy_str, str_eq};

verus! {

/// An edit of the source text itself, carried by a node until the patches
/// are made.
#[derive(Clone, Debug)]
pub struct SourceFix {
    pub edit: String,
    pub source_slice: std::ops::Range<usize>,
    pub templated_slice: std::ops::Range<usize>,
}

impl SourceFix {
    pub fn new(
        edit: String,
        source_slice: std::ops::Range<usize>,
        templated_slice: std::ops::Range<usize>,
    ) -> (r: SourceFix)
        ensures
            r.edit == edit,
            r.source_slice == source_slice,
            r.templated_slice == templated_slice,
    {
        SourceFix { edit, source_slice, templated_slice }
    }

    pub fn copy(&self) -> (r: SourceFix)
        ensures
            r == *self,
    {
        SourceFix {
            edit: self.edit.clone(),
            source_slice: self.source_slice.start..self.source_slice.end,
            templated_slice: self.templated_slice.start..self.templated_slice.end,
        }
    }

    /// The same edit of the same place.
    pub open spec fn spec_same(&self, other: &SourceFix) -> bool {
        &&& self.edit@ == other.edit@
        &&& self.source_slice == other.source_slice
        &&& self.templated_slice == other.templated_slice
    }

    pub fn same(&self, other: &SourceFix) -> (r: bool)
        ensures
            r == self.spec_same(other),
    {
        str_eq(self.edit.as_str(), other.edit.as_str()) && self.source_slice.start
            == other.source_slice.start && self.source_slice.end == other.source_slice.end
            && self.templated_slice.start == other.templated_slice.start
            && self.templated_slice.end == other.templated_slice.end
    }
}

#[derive(Clone, Debug)]
pub struct TokenData {
    pub raw: String,
}

#[derive(Clone, Debug)]
pub struct NodeData {
    pub dialect: DialectKind,
    pub segments: Vec<ErasedSegment>,
    pub source_fixes: Vec<SourceFix>,
}

#[derive(Clone, Debug)]
pub enum NodeOrTokenKind {
    Node(NodeData),
    Token(TokenData),
}

#[derive(Clone, Debug)]
pub struct NodeOrToken {
    pub id: u32,
    pub syntax_kind: SyntaxKind,
    pub position_marker: Option<PositionMarker>,
    pub kind: NodeOrTokenKind,
}

/// A segment of the tree: a token or a node, behind a shared pointer.
#[derive(Clone, Debug)]
pub struct ErasedSegment {
    pub value: Rc<NodeOrToken>,
}

/// What a segment holds: text, or segments.
pub enum BodyV {
    Token { raw: Seq<char> },
    Node { dialect: DialectKind, children: Seq<SegV>, source_fixes: Seq<SourceFix> },
}

/// The view of a segment.
pub struct SegV {
    pub id: u32,
    pub kind: SyntaxKind,
    pub marker: Option<PositionMarker>,
    pub body: BodyV,
}

/// The view of a segment, by descent through the tree.
pub open spec fn seg_view(seg: ErasedSegment) -> SegV
    decreases seg,
{
    SegV {
        id: seg.value.id,
        kind: seg.value.syntax_kind,
        marker: seg.value.position_marker,
        body: match seg.value.kind {
            NodeOrTokenKind::Token(t) => BodyV::Token { raw: t.raw@ },
            NodeOrTokenKind::Node(n) => BodyV::Node {
                dialect: n.dialect,
                children: Seq::new(
                    n.segments@.len(),
                    |i: int|
                        if 0 <= i < n.segments@.len() {
                            seg_view(n.segments@[i])
                        } else {
                            arbitrary()
                        },
                ),
                source_fixes: n.source_fixes@,
            },
        },
    }
}

impl View for ErasedSegment {
    type V = SegV;

    open spec fn view(&self) -> SegV {
        seg_view(*self)
    }
}

/// The views of a sequence of segments.
pub open spec fn views(s: Seq<ErasedSegment>) -> Seq<SegV> {
    Seq::new(s.len(), |i: int| s[i]@)
}

pub proof fn lemma_views_push(s: Seq<ErasedSegment>, x: ErasedSegment)
    ensures
        views(s.push(x)) == views(s).push(x@),
{
    assert(views(s.push(x)) =~= views(s).push(x@));
}

pub proof fn lemma_views_add(a: Seq<ErasedSegment>, b: Seq<ErasedSegment>)
    ensures
        views(a + b) == views(a) + views(b),
{
    assert(views(a + b) =~= views(a) + views(b));
}

pub proof fn lemma_views_subrange(a: Seq<ErasedSegment>, i: int, j: int)
    requires
        0 <= i <= j <= a.len(),
    ensures
        views(a.subrange(i, j)) == views(a).subrange(i, j),
{
    assert(views(a.subrange(i, j)) =~= views(a).subrange(i, j));
}

/// The text of the segments of `s`, one after the other.
pub open spec fn raw_all(s: Seq<SegV>) -> Seq<char>
    decreases s, 0int,
{
    if s.len() == 0 {
        Seq::empty()
    } else {
        raw_all(s.drop_last()) + s.last().raw()
    }
}

/// Whether one of the segments of `s` is code.
pub open spec fn any_code(s: Seq<SegV>) -> bool
    decreases s, 0int,
{
    if s.len() == 0 {
        false
    } else {
        any_code(s.drop_last()) || s.last().is_code()
    }
}

/// The segments of `s`, each followed by all that is below it.
pub open spec fn crawl_all_seq(s: Seq<SegV>) -> Seq<SegV>
    decreases s, 0int,
{
    if s.len() == 0 {
        Seq::empty()
    } else {
        crawl_all_seq(s.drop_last()) + s.last().crawl_all()
    }
}

impl SegV {
    pub open spec fn is_node(self) -> bool {
        self.body is Node
    }

    /// The segments directly below; a token has none.
    pub open spec fn children(self) -> Seq<SegV> {
        match self.body {
            BodyV::Token { .. } => Seq::empty(),
            BodyV::Node { children, .. } => children,
        }
    }

    pub open spec fn source_fixes(self) -> Seq<SourceFix> {
        match self.body {
            BodyV::Token { .. } => Seq::empty(),
            BodyV::Node { source_fixes, .. } => source_fixes,
        }
    }

    /// The text of the segment: a token's own, a node's that of its
    /// segments in order.
    pub open spec fn raw(self) -> Seq<char>
        decreases self, 1int,
    {
        match self.body {
            BodyV::Token { raw } => raw,
            BodyV::Node { children, .. } => raw_all(children),
        }
    }

    /// Code is what is neither comment nor whitespace nor a marker without
    /// text; a node is code if it holds any.
    pub open spec fn is_code(self) -> bool
        decreases self, 1int,
    {
        match self.body {
            BodyV::Token { .. } => !self.kind.spec_is_comment() && !self.kind.spec_is_whitespace()
                && !self.kind.spec_is_meta(),
            BodyV::Node { children, .. } => any_code(children),
        }
    }

    /// The segment and all that is below it, parents before children and
    /// children in order.
    pub open spec fn crawl_all(self) -> Seq<SegV>
        decreases self, 1int,
    {
        match self.body {
            BodyV::Token { .. } => seq![self],
            BodyV::Node { children, .. } => seq![self] + crawl_all_seq(children),
        }
    }

    /// The segments at the bottom of the tree, left to right: those that
    /// hold no segments.
    pub open spec fn leaves(self) -> Seq<SegV> {
        self.crawl_all().filter(|s: SegV| s.children().len() == 0)
    }

    pub open spec fn class_types(self) -> Set<SyntaxKind> {
        spec_class_types(self.kind)
    }

    /// The same segment with another marker, or none.
    pub open spec fn with_marker(self, marker: Option<PositionMarker>) -> SegV {
        SegV { id: self.id, kind: self.kind, marker, body: self.body }
    }

    /// The same node over other segments. A token stays as it is.
    pub open spec fn with_children(self, children: Seq<SegV>) -> SegV {
        match self.body {
            BodyV::Token { .. } => self,
            BodyV::Node { dialect, source_fixes, .. } => SegV {
                id: self.id,
                kind: self.kind,
                marker: self.marker,
                body: BodyV::Node { dialect, children, source_fixes },
            },
        }
    }
}

/// A fresh token.
pub open spec fn token_v(id: u32, raw: Seq<char>, kind: SyntaxKind) -> SegV {
    SegV { id, kind, marker: None, body: BodyV::Token { raw } }
}

/// A fresh node.
pub open spec fn node_v(id: u32, kind: SyntaxKind, dialect: DialectKind, children: Seq<SegV>) -> SegV {
    SegV {
        id,
        kind,
        marker: None,
        body: BodyV::Node { dialect, children, source_fixes: Seq::empty() },
    }
}

impl ErasedSegment {
    /// What the view of a node says of its segments.
    pub proof fn lemma_view_children(&self)
        ensures
            self@.children() == (match self.value.kind {
                NodeOrTokenKind::Token(_) => Seq::<SegV>::empty(),
                NodeOrTokenKind::Node(n) => views(n.segments@),
            }),
            self@.id == self.value.id,
            self@.kind == self.value.syntax_kind,
            self@.marker == self.value.position_marker,
            self@.is_node() == (self.value.kind is Node),
            self.value.kind matches NodeOrTokenKind::Token(t) ==> self@.body == (BodyV::Token {
                raw: t.raw@,
            }),
            self.value.kind matches NodeOrTokenKind::Node(n) ==> self@.body == (BodyV::Node {
                dialect: n.dialect,
                children: views(n.segments@),
                source_fixes: n.source_fixes@,
            }),
    {
        match self.value.kind {
            NodeOrTokenKind::Token(_) => {},
            NodeOrTokenKind::Node(n) => {
                let c = self@.children();
                assert(self@ == seg_view(*self));
                assert(self@.id == self.value.id);
                assert(self@.body is Node);
                assert(c.len() == n.segments@.len());
                assert forall|i: int| 0 <= i < c.len() implies c[i] == views(n.segments@)[i] by {}
                assert(c =~= views(n.segments@));
            },
        }
    }

    /// The segments of a node, as the node holds them.
    pub open spec fn child_vec(&self) -> Vec<ErasedSegment> {
        self.value.kind->Node_0.segments
    }

    /// A segment of a node is smaller than the node.
    pub proof fn lemma_child_decreases(&self, i: int)
        requires
            self.value.kind is Node,
            0 <= i < self.value.kind->Node_0.segments@.len(),
        ensures
            decreases_to!(self => self.value.kind->Node_0.segments@[i]),
    {
        vstd::std_specs::vec::axiom_vec_index_decreases(self.child_vec(), i);
        assert(decreases_to!(self.value.kind->Node_0.segments => self.value.kind->Node_0.segments[i]));
        assert(decreases_to!(self.value.kind->Node_0 => self.value.kind->Node_0.segments));
        assert(decreases_to!(self.value.kind => self.value.kind->Node_0));
        assert(decreases_to!(self.value => self.value.kind));
        assert(decreases_to!(self => self.value));
    }

    pub fn copy(&self) -> (r: ErasedSegment)
        ensures
            r == *self,
    {
        ErasedSegment { value: self.value.clone() }
    }

    pub fn id(&self) -> (r: u32)
        ensures
            r == self@.id,
    {
        self.value.id
    }

    pub fn get_type(&self) -> (r: SyntaxKind)
        ensures
            r == self@.kind,
    {
        self.value.syntax_kind
    }

    pub fn is_type(&self, kind: SyntaxKind) -> (r: bool)
        ensures
            r == (self@.kind == kind),
    {
        self.value.syntax_kind == kind
    }

    pub fn is_meta(&self) -> (r: bool)
        ensures
            r == self@.kind.spec_is_meta(),
    {
        self.value.syntax_kind.is_meta()
    }

    pub fn is_comment(&self) -> (r: bool)
        ensures
            r == self@.kind.spec_is_comment(),
    {
        self.value.syntax_kind.is_comment()
    }

    pub fn is_whitespace(&self) -> (r: bool)
        ensures
            r == self@.kind.spec_is_whitespace(),
    {
        self.value.syntax_kind.is_whitespace()
    }

    pub fn is_indent(&self) -> (r: bool)
        ensures
            r == self@.kind.spec_is_indent(),
    {
        self.value.syntax_kind.is_indent()
    }

    pub fn indent_val(&self) -> (r: i8)
        ensures
            r == self@.kind.spec_indent_val(),
    {
        self.value.syntax_kind.indent_val()
    }

    /// Only a file and an unparsable stretch may begin or end with what is
    /// not code.
    pub fn can_start_end_non_code(&self) -> (r: bool)
        ensures
            r == (self@.kind == SyntaxKind::File || self@.kind == SyntaxKind::Unparsable),
    {
        self.value.syntax_kind == SyntaxKind::File || self.value.syntax_kind
            == SyntaxKind::Unparsable
    }

    pub fn class_types(&self) -> (r: SyntaxSet)
        ensures
            r@ == self@.class_types(),
    {
        class_types(self.value.syntax_kind)
    }

    pub fn get_position_marker(&self) -> (r: Option<&PositionMarker>)
        ensures
            r is Some == self@.marker is Some,
            r matches Some(m) ==> *m == self@.marker->0,
    {
        self.value.position_marker.as_ref()
    }

    /// The segments directly below, in order; none for a token.
    pub fn segments(&self) -> (r: &[ErasedSegment])
        ensures
            views(r@) == self@.children(),
            self.value.kind matches NodeOrTokenKind::Node(n) ==> r@ == n.segments@,
            self.value.kind is Token ==> r@.len() == 0,
    {
        proof {
            self.lemma_view_children();
        }
        match &self.value.kind {
            NodeOrTokenKind::Node(node) => node.segments.as_slice(),
            NodeOrTokenKind::Token(_) => {
                let e: &[ErasedSegment] = &[];
                assert(views(e@) =~= Seq::<SegV>::empty());
                e
            },
        }
    }

    /// A copy of the segments directly below.
    pub fn gather_segments(&self) -> (r: Vec<ErasedSegment>)
        ensures
            views(r@) == self@.children(),
            self.value.kind matches NodeOrTokenKind::Node(n) ==> r@ == n.segments@,
            self.value.kind is Token ==> r@.len() == 0,
    {
        copy_segments(self.segments())
    }

    /// The source fixes that a node carries; a token has none.
    pub fn get_source_fixes(&self) -> (r: Vec<SourceFix>)
        ensures
            r@ == self@.source_fixes(),
    {
        match &self.value.kind {
            NodeOrTokenKind::Node(node) => {
                let mut out: Vec<SourceFix> = Vec::new();
                let mut i: usize = 0;
                while i < node.source_fixes.len()
                    invariant
                        i <= node.source_fixes@.len(),
                        out@ == node.source_fixes@.subrange(0, i as int),
                    decreases node.source_fixes.len() - i,
                {
                    out.push(node.source_fixes[i].copy());
                    i += 1;
                    assert(out@ =~= node.source_fixes@.subrange(0, i as int));
                }
                assert(node.source_fixes@.subrange(0, i as int) =~= node.source_fixes@);
                out
            },
            NodeOrTokenKind::Token(_) => Vec::new(),
        }
    }

    /// The text of the segment.
    pub fn raw(&self) -> (r: String)
        ensures
            r@ == self@.raw(),
        decreases self,
    {
        proof {
            self.lemma_view_children();
        }
        match &self.value.kind {
            NodeOrTokenKind::Token(token) => token.raw.clone(),
            NodeOrTokenKind::Node(node) => {
                let mut out = String::new();
                let mut i: usize = 0;
                assert(views(node.segments@).subrange(0, 0) =~= Seq::<SegV>::empty());
                while i < node.segments.len()
                    invariant
                        i <= node.segments@.len(),
                        self.value.kind == NodeOrTokenKind::Node(*node),
                        out@ == raw_all(views(node.segments@).subrange(0, i as int)),
                    decreases node.segments.len() - i,
                {
                    proof {
                        self.lemma_child_decreases(i as int);
                    }
                    let part = node.segments[i].raw();
                    out.append(part.as_str());
                    proof {
                        let vs = views(node.segments@);
                        assert(vs.subrange(0, i + 1).drop_last() =~= vs.subrange(0, i as int));
                        assert(vs.subrange(0, i + 1).last() == node.segments@[i as int]@);
                    }
                    i += 1;
                }
                assert(views(node.segments@).subrange(0, i as int) =~= views(node.segments@));
                out
            },
        }
    }

    /// Whether the segment is code.
    pub fn is_code(&self) -> (r: bool)
        ensures
            r == self@.is_code(),
        decreases self,
    {
        proof {
            self.lemma_view_children();
        }
        match &self.value.kind {
            NodeOrTokenKind::Token(_) => !self.is_comment() && !self.is_whitespace()
                && !self.is_meta(),
            NodeOrTokenKind::Node(node) => {
                let mut i: usize = 0;
                assert(views(node.segments@).subrange(0, 0) =~= Seq::<SegV>::empty());
                while i < node.segments.len()
                    invariant
                        i <= node.segments@.len(),
                        self.value.kind == NodeOrTokenKind::Node(*node),
                        self@.body is Node,
                        self@.children() == views(node.segments@),
                        !any_code(views(node.segments@).subrange(0, i as int)),
                    decreases node.segments.len() - i,
                {
                    proof {
                        self.lemma_child_decreases(i as int);
                    }
                    let c = node.segments[i].is_code();
                    proof {
                        let vs = views(node.segments@);
                        assert(vs.subrange(0, i + 1).drop_last() =~= vs.subrange(0, i as int));
                        assert(vs.subrange(0, i + 1).last() == node.segments@[i as int]@);
                    }
                    if c {
                        proof {
                            lemma_any_code_prefix(views(node.segments@), i + 1);
                        }
                        return true;
                    }
                    i += 1;
                }
                assert(views(node.segments@).subrange(0, i as int) =~= views(node.segments@));
                false
            },
        }
    }
}

/// Code in a prefix is code in the whole.
pub proof fn lemma_any_code_prefix(s: Seq<SegV>, n: int)
    requires
        0 <= n <= s.len(),
        any_code(s.subrange(0, n)),
    ensures
        any_code(s),
    decreases s.len() - n,
{
    if n < s.len() {
        assert(s.subrange(0, n + 1).drop_last() =~= s.subrange(0, n));
        lemma_any_code_prefix(s, n + 1);
    } else {
        assert(s.subrange(0, n) =~= s);
    }
}

/// Copies of the segments of `s`, which share what they hold.
pub fn copy_segments(s: &[ErasedSegment]) -> (r: Vec<ErasedSegment>)
    ensures
        r@ == s@,
{
    let mut out: Vec<ErasedSegment> = Vec::new();
    let mut i: usize = 0;
    while i < s.len()
        invariant
            i <= s@.len(),
            out@ == s@.subrange(0, i as int),
        decreases s.len() - i,
    {
        out.push(s[i].copy());
        i += 1;
        assert(out@ =~= s@.subrange(0, i as int));
    }
    assert(s@.subrange(0, i as int) =~= s@);
    out
}


/// Copies of the source fixes of `s`.
pub fn copy_source_fixes(s: &Vec<SourceFix>) -> (r: Vec<SourceFix>)
    ensures
        r@ == s@,
{
    let mut out: Vec<SourceFix> = Vec::new();
    let mut i: usize = 0;
    while i < s.len()
        invariant
            i <= s@.len(),
            out@ == s@.subrange(0, i as int),
        decreases s.len() - i,
    {
        out.push(s[i].copy());
        i += 1;
        assert(out@ =~= s@.subrange(0, i as int));
    }
    assert(s@.subrange(0, i as int) =~= s@);
    out
}

/// Copies of the markers that the segments of `s` have, in order.
pub open spec fn markers_of(s: Seq<SegV>) -> Seq<PositionMarker> {
    s.filter(|v: SegV| v.marker is Some).map_values(|v: SegV| v.marker->0)
}

/// Hands out the ids of one parse: each is one more than the last.
#[derive(Debug)]
pub struct Tables {
    pub counter: u32,
}

impl Default for Tables {
    fn default() -> (r: Tables)
        ensures
            r.counter == 0,
    {
        Tables { counter: 0 }
    }
}

/// The id that is handed out after `c`: one more, and again from 0 after
/// the largest.
pub open spec fn next_counter(c: u32) -> u32 {
    if c == u32::MAX {
        0
    } else {
        (c + 1) as u32
    }
}

impl Tables {
    /// The next id. No two of the first 2^32 calls give the same.
    pub fn next_id(&mut self) -> (id: u32)
        ensures
            id == old(self).counter,
            final(self).counter == next_counter(old(self).counter),
    {
        let id = self.counter;
        self.counter = if id == u32::MAX {
            0
        } else {
            id + 1
        };
        id
    }
}

/// Builds a segment step by step.
#[derive(Debug)]
pub struct SegmentBuilder {
    pub node_or_token: NodeOrToken,
}

impl SegmentBuilder {
    /// What would be built now.
    pub open spec fn built(self) -> SegV {
        (ErasedSegment { value: Rc::new(self.node_or_token) })@
    }

    pub fn whitespace(id: u32, raw: &str) -> (r: ErasedSegment)
        ensures
            r@ == token_v(id, raw@, SyntaxKind::Whitespace),
    {
        SegmentBuilder::token(id, raw, SyntaxKind::Whitespace).finish()
    }

    pub fn newline(id: u32, raw: &str) -> (r: ErasedSegment)
        ensures
            r@ == token_v(id, raw@, SyntaxKind::Newline),
    {
        SegmentBuilder::token(id, raw, SyntaxKind::Newline).finish()
    }

    pub fn keyword(id: u32, raw: &str) -> (r: ErasedSegment)
        ensures
            r@ == token_v(id, raw@, SyntaxKind::Keyword),
    {
        SegmentBuilder::token(id, raw, SyntaxKind::Keyword).finish()
    }

    pub fn symbol(id: u32, raw: &str) -> (r: ErasedSegment)
        ensures
            r@ == token_v(id, raw@, SyntaxKind::Symbol),
    {
        SegmentBuilder::token(id, raw, SyntaxKind::Symbol).finish()
    }

    pub fn node(
        id: u32,
        syntax_kind: SyntaxKind,
        dialect: DialectKind,
        segments: Vec<ErasedSegment>,
    ) -> (r: SegmentBuilder)
        ensures
            r.built() == node_v(id, syntax_kind, dialect, views(segments@)),
    {
        let r = SegmentBuilder {
            node_or_token: NodeOrToken {
                id,
                syntax_kind,
                position_marker: None,
                kind: NodeOrTokenKind::Node(
                    NodeData { dialect, segments, source_fixes: Vec::new() },
                ),
            },
        };
        proof {
            (ErasedSegment { value: Rc::new(r.node_or_token) }).lemma_view_children();
        }
        r
    }

    pub fn token(id: u32, raw: &str, syntax_kind: SyntaxKind) -> (r: SegmentBuilder)
        ensures
            r.built() == token_v(id, raw@, syntax_kind),
    {
        SegmentBuilder {
            node_or_token: NodeOrToken {
                id,
                syntax_kind,
                position_marker: None,
                kind: NodeOrTokenKind::Token(TokenData { raw: copy_str(raw) }),
            },
        }
    }

    /// Gives a node the source fixes it is to carry. A token takes none.
    pub fn with_source_fixes(self, source_fixes: Vec<SourceFix>) -> (r: SegmentBuilder)
        ensures
            r.built() == (match self.built().body {
                BodyV::Token { .. } => self.built(),
                BodyV::Node { dialect, children, .. } => SegV {
                    id: self.built().id,
                    kind: self.built().kind,
                    marker: self.built().marker,
                    body: BodyV::Node { dialect, children, source_fixes: source_fixes@ },
                },
            }),
    {
        let NodeOrToken { id, syntax_kind, position_marker, kind } = self.node_or_token;
        proof {
            (ErasedSegment { value: Rc::new(self.node_or_token) }).lemma_view_children();
        }
        match kind {
            NodeOrTokenKind::Token(t) => SegmentBuilder {
                node_or_token: NodeOrToken {
                    id,
                    syntax_kind,
                    position_marker,
                    kind: NodeOrTokenKind::Token(t),
                },
            },
            NodeOrTokenKind::Node(n) => {
                let r = SegmentBuilder {
                    node_or_token: NodeOrToken {
                        id,
                        syntax_kind,
                        position_marker,
                        kind: NodeOrTokenKind::Node(
                            NodeData { dialect: n.dialect, segments: n.segments, source_fixes },
                        ),
                    },
                };
                proof {
                    (ErasedSegment { value: Rc::new(r.node_or_token) }).lemma_view_children();
                }
                r
            },
        }
    }

    /// Gives the segment the marker that spans the markers of its segments.
    /// There must be one to span: see `pos_marker`.
    pub fn position_from_segments(self) -> (r: SegmentBuilder)
        requires
            markers_of(self.built().children()).len() > 0,
        ensures
            r.built().marker is Some,
            spans_markers(r.built().marker->0, markers_of(self.built().children())),
            r.built() == self.built().with_marker(r.built().marker),
    {
        proof {
            (ErasedSegment { value: Rc::new(self.node_or_token) }).lemma_view_children();
        }
        let marker = match &self.node_or_token.kind {
            NodeOrTokenKind::Node(node) => pos_marker(node.segments.as_slice()),
            NodeOrTokenKind::Token(_) => {
                let e: &[ErasedSegment] = &[];
                assert(views(e@) =~= Seq::<SegV>::empty());
                pos_marker(e)
            },
        };
        self.with_position(marker)
    }

    pub fn with_position(self, position: PositionMarker) -> (r: SegmentBuilder)
        ensures
            r.built() == self.built().with_marker(Some(position)),
    {
        let NodeOrToken { id, syntax_kind, position_marker, kind } = self.node_or_token;
        SegmentBuilder {
            node_or_token: NodeOrToken { id, syntax_kind, position_marker: Some(position), kind },
        }
    }

    pub fn finish(self) -> (r: ErasedSegment)
        ensures
            r@ == self.built(),
    {
        ErasedSegment { value: Rc::new(self.node_or_token) }
    }
}

/// The marker that spans the markers: its slices run from the least start
/// to the greatest end of theirs, in the file of the first, on the line and
/// column at which its templated slice starts.
pub open spec fn spanning_marker(markers: Seq<PositionMarker>) -> PositionMarker {
    let file = markers[0].templated_file;
    let t_start = crate::markers::least_start(markers, false);
    PositionMarker {
        source_slice: (crate::markers::least_start(markers, true) as usize)..(
        crate::markers::greatest_end(markers, true) as usize),
        templated_slice: (t_start as usize)..(crate::markers::greatest_end(markers, false) as usize),
        templated_file: file,
        working_line_no: crate::templater::sat_add(file.spec_line_pos(t_start, false).0, 0) as usize,
        working_line_pos: crate::templater::sat_add(
            file.spec_line_pos(t_start, false).1,
            0,
        ) as usize,
    }
}

/// Whether `m` is the marker that spans the markers, of which there is one
/// at least.
pub open spec fn spans_markers(m: PositionMarker, markers: Seq<PositionMarker>) -> bool {
    markers.len() > 0 && m == spanning_marker(markers)
}

/// The marker of a parent of `segments`: the one that spans the markers
/// that they have.
pub fn pos_marker(segments: &[ErasedSegment]) -> (r: PositionMarker)
    requires
        markers_of(views(segments@)).len() > 0,
    ensures
        spans_markers(r, markers_of(views(segments@))),
{
    let ghost has = |v: SegV| v.marker is Some;
    let ghost get = |v: SegV| v.marker->0;
    let mut markers: Vec<PositionMarker> = Vec::new();
    let mut i: usize = 0;
    proof {
        crate::seqs::lemma_filter_empty(has);
        assert(views(segments@).subrange(0, 0) =~= Seq::<SegV>::empty());
        assert(Seq::<SegV>::empty().map_values(get) =~= Seq::<PositionMarker>::empty());
    }
    while i < segments.len()
        invariant
            i <= segments@.len(),
            has == (|v: SegV| v.marker is Some),
            get == (|v: SegV| v.marker->0),
            markers@ == views(segments@).subrange(0, i as int).filter(has).map_values(get),
        decreases segments.len() - i,
    {
        proof {
            crate::seqs::lemma_filter_step(views(segments@), i as int, has);
            let f = views(segments@).subrange(0, i as int).filter(has);
            assert(f.push(segments@[i as int]@).map_values(get) =~= f.map_values(get).push(
                get(segments@[i as int]@),
            ));
        }
        match segments[i].get_position_marker() {
            Some(m) => {
                markers.push(m.copy());
            },
            None => {},
        }
        i += 1;
    }
    assert(views(segments@).subrange(0, i as int) =~= views(segments@));
    PositionMarker::from_child_markers(&markers)
}

} // verus!
