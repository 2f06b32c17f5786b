//! The leaves of a tree as blocks of code and the stretches between them,
//! where the layout is.

use vstd::prelude::*;

use crate::reindent::IndentStats;
use crate::segment::{views, ErasedSegment, SegV};
use crate::syntax::{SyntaxKind, SyntaxSet};

verus! {

/// A stretch between two blocks: what is no code, and what that does to
/// the indentation.
#[derive(Debug)]
pub struct ReflowPoint {
    pub segments: Vec<ErasedSegment>,
    pub stats: IndentStats,
}

/// A block of code.
#[derive(Debug)]
pub struct ReflowBlock {
    pub segments: Vec<ErasedSegment>,
}

/// A block or a stretch between two.
#[derive(Debug)]
pub enum ReflowElement {
    Block(ReflowBlock),
    Point(ReflowPoint),
}

pub type ReflowSequenceType = Vec<ReflowElement>;

/// What an element holds.
pub struct ElementV {
    pub point: bool,
    pub segments: Seq<SegV>,
    pub impulse: int,
    pub trough: int,
    pub implicit: Seq<usize>,
}

impl View for ReflowElement {
    type V = ElementV;

    open spec fn view(&self) -> ElementV {
        match self {
            ReflowElement::Block(b) => ElementV {
                point: false,
                segments: views(b.segments@),
                impulse: 0,
                trough: 0,
                implicit: Seq::empty(),
            },
            ReflowElement::Point(p) => p@,
        }
    }
}

impl View for ReflowPoint {
    type V = ElementV;

    open spec fn view(&self) -> ElementV {
        ElementV {
            point: true,
            segments: views(self.segments@),
            impulse: self.stats.impulse as int,
            trough: self.stats.trough as int,
            implicit: self.stats.implicit_indents@,
        }
    }
}

/// The views of the elements.
pub open spec fn element_views(s: Seq<ReflowElement>) -> Seq<ElementV> {
    Seq::new(s.len(), |i: int| s[i]@)
}

/// Whether the segment is on its way out of the scan for the white space
/// that indents a line: it has a place in the source that is not literal.
pub open spec fn off_source(seg: SegV) -> bool {
    seg.marker matches Some(m) && !m.spec_is_literal()
}

/// The index of the white space that indents what follows the first `n`
/// segments: the first white space after their last new line, where they
/// hold one. `found` is the white space that the scan, which goes from the
/// end, has come by. Segments whose source is not literal do not count.
pub open spec fn indent_from(s: Seq<SegV>, n: int, found: Option<int>) -> Option<int>
    decreases n,
{
    if n <= 0 || n > s.len() {
        None
    } else if off_source(s[n - 1]) {
        indent_from(s, n - 1, found)
    } else if s[n - 1].kind == SyntaxKind::Newline {
        found
    } else if s[n - 1].kind == SyntaxKind::Whitespace {
        indent_from(s, n - 1, Some(n - 1))
    } else {
        indent_from(s, n - 1, found)
    }
}

/// What is found is one of the segments, and is white space with a
/// literal source.
pub proof fn lemma_indent_from(s: Seq<SegV>, n: int, found: Option<int>)
    requires
        found matches Some(f) ==> 0 <= f < s.len() && s[f].kind == SyntaxKind::Whitespace
            && !off_source(s[f]),
    ensures
        indent_from(s, n, found) matches Some(f) ==> 0 <= f < s.len() && s[f].kind
            == SyntaxKind::Whitespace && !off_source(s[f]),
    decreases n,
{
    if n <= 0 || n > s.len() {
    } else if off_source(s[n - 1]) {
        lemma_indent_from(s, n - 1, found);
    } else if s[n - 1].kind == SyntaxKind::Newline {
    } else if s[n - 1].kind == SyntaxKind::Whitespace {
        lemma_indent_from(s, n - 1, Some(n - 1));
    } else {
        lemma_indent_from(s, n - 1, found);
    }
}

/// The segments one by one, as they are.
pub fn copy_all(segments: &Vec<ErasedSegment>) -> (r: Vec<ErasedSegment>)
    ensures
        r@ == segments@,
{
    let mut out: Vec<ErasedSegment> = Vec::new();
    let mut i: usize = 0;
    while i < segments.len()
        invariant
            i <= segments@.len(),
            out@ == segments@.subrange(0, i as int),
        decreases segments.len() - i,
    {
        out.push(segments[i].copy());
        assert(out@ =~= segments@.subrange(0, i + 1));
        i += 1;
    }
    assert(segments@.subrange(0, i as int) =~= segments@);
    out
}

impl ReflowPoint {
    /// The stretch of the segments, which does to the indentation what
    /// `stats` says.
    pub fn new(segments: Vec<ErasedSegment>, stats: IndentStats) -> (r: ReflowPoint)
        ensures
            r.segments == segments,
            r.stats == stats,
    {
        ReflowPoint { segments, stats }
    }

    /// What the stretch does to the indentation.
    pub fn indent_impulse(&self) -> (r: IndentStats)
        ensures
            r.impulse == self.stats.impulse,
            r.trough == self.stats.trough,
            r.implicit_indents@ == self.stats.implicit_indents@,
    {
        self.stats.copy()
    }

    /// Where among the segments of the stretch the white space is that
    /// indents what follows it, if the stretch holds a new line and white
    /// space after it.
    pub fn indent_index(&self) -> (r: Option<usize>)
        ensures
            r is Some == indent_from(self@.segments, self@.segments.len() as int, None) is Some,
            r matches Some(f) ==> f == indent_from(
                self@.segments,
                self@.segments.len() as int,
                None,
            )->0 && f < self.segments@.len(),
    {
        let ghost s = views(self.segments@);
        let mut indent: Option<usize> = None;
        let mut n: usize = self.segments.len();
        let mut done = false;
        while n > 0 && !done
            invariant
                n <= s.len(),
                s == views(self.segments@),
                indent matches Some(f) ==> f < s.len(),
                !done ==> indent_from(s, s.len() as int, None) == indent_from(
                    s,
                    n as int,
                    match indent {
                        Some(f) => Some(f as int),
                        None => None,
                    },
                ),
                done ==> indent_from(s, s.len() as int, None) == (match indent {
                    Some(f) => Some(f as int),
                    None => None::<int>,
                }),
            decreases n, (if done { 0int } else { 1int }),
        {
            let seg = &self.segments[n - 1];
            assert(s[n - 1] == seg@);
            let off = match seg.get_position_marker() {
                Some(m) => !m.is_literal(),
                None => false,
            };
            if off {
                n -= 1;
            } else if seg.is_type(SyntaxKind::Newline) {
                done = true;
            } else if seg.is_type(SyntaxKind::Whitespace) {
                indent = Some(n - 1);
                n -= 1;
            } else {
                n -= 1;
            }
        }
        if done {
            indent
        } else {
            None
        }
    }

    /// The white space that indents what follows the stretch, if the
    /// stretch holds a new line and white space after it.
    pub fn get_indent_segment(&self) -> (r: Option<ErasedSegment>)
        ensures
            r is Some == indent_from(self@.segments, self@.segments.len() as int, None) is Some,
            r matches Some(seg) ==> seg == self.segments@[indent_from(
                self@.segments,
                self@.segments.len() as int,
                None,
            )->0],
    {
        match self.indent_index() {
            Some(f) => Some(self.segments[f].copy()),
            None => None,
        }
    }
}

impl ReflowElement {
    /// The segments of the element.
    pub fn segments(&self) -> (r: &Vec<ErasedSegment>)
        ensures
            views(r@) == self@.segments,
    {
        match self {
            ReflowElement::Block(b) => &b.segments,
            ReflowElement::Point(p) => &p.segments,
        }
    }

    /// The element as a stretch between blocks, if it is one.
    pub fn as_point(&self) -> (r: Option<&ReflowPoint>)
        ensures
            r is Some == self@.point,
            r matches Some(p) ==> *self == ReflowElement::Point(*p),
    {
        match self {
            ReflowElement::Block(_) => None,
            ReflowElement::Point(p) => Some(p),
        }
    }

    /// The kinds of the segments of the element.
    pub fn class_types(&self) -> (r: SyntaxSet)
        ensures
            forall|k: SyntaxKind|
                r@.contains(k) <==> exists|i: int|
                    0 <= i < self@.segments.len() && (#[trigger] self@.segments[i]).kind == k,
    {
        let segments = self.segments();
        let mut kinds: Vec<SyntaxKind> = Vec::new();
        let mut i: usize = 0;
        while i < segments.len()
            invariant
                i <= segments@.len(),
                kinds@.len() == i,
                forall|j: int| 0 <= j < i ==> #[trigger] kinds@[j] == segments@[j]@.kind,
            decreases segments.len() - i,
        {
            kinds.push(segments[i].get_type());
            i += 1;
        }
        let r = SyntaxSet::new(&kinds);
        proof {
            let vs = views(segments@);
            assert forall|k: SyntaxKind| r@.contains(k) <==> exists|i: int|
                0 <= i < vs.len() && (#[trigger] vs[i]).kind == k by {
                if r@.contains(k) {
                    let j = choose|j: int| 0 <= j < kinds@.len() && kinds@[j] == k;
                    assert(vs[j].kind == k);
                }
                if exists|i: int| 0 <= i < vs.len() && (#[trigger] vs[i]).kind == k {
                    let i = choose|i: int| 0 <= i < vs.len() && (#[trigger] vs[i]).kind == k;
                    assert(kinds@[i] == k);
                }
            }
        }
        r
    }

    /// The same element again.
    pub fn copy(&self) -> (r: ReflowElement)
        ensures
            r@ == self@,
    {
        match self {
            ReflowElement::Block(b) => ReflowElement::Block(
                ReflowBlock { segments: copy_all(&b.segments) },
            ),
            ReflowElement::Point(p) => ReflowElement::Point(
                ReflowPoint { segments: copy_all(&p.segments), stats: p.stats.copy() },
            ),
        }
    }
}

} // verus!
