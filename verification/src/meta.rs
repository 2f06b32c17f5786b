//! Meta segments: markers in the tree that hold no text, such as the hints
//! of where indentation goes in and out.

use vstd::prelude::*;

use crate::markers::PositionMarker;
use crate::segment::{token_v, ErasedSegment, SegmentBuilder};
use crate::syntax::SyntaxKind;

verus! {

/// A marker for a change of indentation.
pub type Indent = MetaSegment;

#[derive(Clone, Debug)]
pub struct MetaSegment {
    pub id: u32,
    pub position_marker: Option<PositionMarker>,
    pub kind: SyntaxKind,
}

impl MetaSegment {
    /// A meta segment of the kind, as a grammar names it: without a marker,
    /// and with id 0 until `set_id` gives it the id under which it enters a
    /// tree.
    pub fn from_kind(kind: SyntaxKind) -> (r: MetaSegment)
        ensures
            r.kind == kind,
            r.id == 0,
            r.position_marker is None,
    {
        MetaSegment { kind, position_marker: None, id: 0 }
    }

    pub fn indent() -> (r: MetaSegment)
        ensures
            r.kind == SyntaxKind::Indent,
            r.id == 0,
            r.position_marker is None,
    {
        MetaSegment::from_kind(SyntaxKind::Indent)
    }

    pub fn dedent() -> (r: MetaSegment)
        ensures
            r.kind == SyntaxKind::Dedent,
            r.id == 0,
            r.position_marker is None,
    {
        MetaSegment::from_kind(SyntaxKind::Dedent)
    }

    pub fn implicit_indent() -> (r: MetaSegment)
        ensures
            r.kind == SyntaxKind::Implicit,
            r.id == 0,
            r.position_marker is None,
    {
        MetaSegment::from_kind(SyntaxKind::Implicit)
    }

    pub fn set_position_marker(&mut self, position_marker: Option<PositionMarker>)
        ensures
            final(self).position_marker == position_marker,
            final(self).id == old(self).id,
            final(self).kind == old(self).kind,
    {
        self.position_marker = position_marker;
    }

    pub fn set_id(&mut self, id: u32)
        ensures
            final(self).id == id,
            final(self).position_marker == old(self).position_marker,
            final(self).kind == old(self).kind,
    {
        self.id = id;
    }

    /// The meta segment as a segment of the tree: a token without text.
    pub fn to_erased_segment(self) -> (r: ErasedSegment)
        ensures
            r@ == token_v(self.id, Seq::empty(), self.kind).with_marker(self.position_marker),
    {
        proof {
            reveal_strlit("");
            assert(""@ =~= Seq::<char>::empty());
        }
        let token = SegmentBuilder::token(self.id, "", self.kind).finish();
        token.with_position_marker(self.position_marker)
    }
}

} // verus!
