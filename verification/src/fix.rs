//! Fixes: requests to change the tree at an anchor, and what is gathered
//! of them for each anchor before they are applied.

use vstd::prelude::*;

use crate::segment::{
    copy_segments, lemma_views_push, views, ErasedSegment, SegV, SourceFix,
};
use crate::seqs::{lemma_filter_empty, lemma_filter_step};

use crate::text::str_eq;

verus! {

/// The kind of change that a fix asks for.
#[derive(Debug, Clone, Copy, PartialEq, Eq, Structural)]
pub enum EditType {
    CreateBefore,
    CreateAfter,
    Replace,
    Delete,
}

/// A request to change the tree at the segment `anchor`: to delete it, to
/// replace it by the segments of `edit`, or to put them before or after it.
#[derive(Clone, Debug)]
pub struct LintFix {
    pub edit_type: EditType,
    pub anchor: ErasedSegment,
    pub edit: Option<Vec<ErasedSegment>>,
    pub source: Vec<ErasedSegment>,
}

/// The view of a fix.
pub struct LintFixV {
    pub edit_type: EditType,
    pub anchor: SegV,
    pub edit: Option<Seq<SegV>>,
    pub source: Seq<SegV>,
}

impl View for LintFix {
    type V = LintFixV;

    open spec fn view(&self) -> LintFixV {
        LintFixV {
            edit_type: self.edit_type,
            anchor: self.anchor@,
            edit: match self.edit {
                Some(e) => Some(views(e@)),
                None => None,
            },
            source: views(self.source@),
        }
    }
}

/// The segments of `s` without their markers.
pub open spec fn unmarked(s: Seq<SegV>) -> Seq<SegV> {
    s.map_values(|v: SegV| v.with_marker(None))
}

/// The segments of `s` that have a marker.
pub open spec fn marked_only(s: Seq<SegV>) -> Seq<SegV> {
    s.filter(|v: SegV| v.marker is Some)
}

/// Whether the two levels hold, one by one, segments of the same text that
/// carry the same source fixes.
pub open spec fn same_edits(a: Seq<SegV>, b: Seq<SegV>) -> bool {
    &&& a.len() == b.len()
    &&& forall|i: int|
        0 <= i < a.len() ==> (#[trigger] a[i]).raw() == b[i].raw() && same_source_fixes(
            a[i].source_fixes(),
            b[i].source_fixes(),
        )
}

pub open spec fn same_source_fixes(a: Seq<SourceFix>, b: Seq<SourceFix>) -> bool {
    &&& a.len() == b.len()
    &&& forall|i: int| 0 <= i < a.len() ==> (#[trigger] a[i]).spec_same(&b[i])
}

impl LintFixV {
    /// A replacement by one segment that has the text of the anchor: it
    /// changes the source only.
    pub open spec fn is_just_source_edit(self) -> bool {
        &&& self.edit matches Some(e)
        &&& self.edit_type == EditType::Replace
        &&& e.len() == 1
        &&& e[0].raw() == self.anchor.raw()
    }

    /// Whether the two fixes ask for the same thing: the same kind of change
    /// at an anchor of the same kind and id, with the same edits.
    pub open spec fn same(self, other: LintFixV) -> bool {
        &&& self.edit_type == other.edit_type
        &&& self.anchor.kind == other.anchor.kind
        &&& self.anchor.id == other.anchor.id
        &&& match (self.edit, other.edit) {
            (Some(a), Some(b)) => same_edits(a, b),
            (None, None) => true,
            _ => false,
        }
    }
}

/// Whether two lists of source fixes are the same, one by one.
pub fn source_fixes_same(a: &Vec<SourceFix>, b: &Vec<SourceFix>) -> (r: bool)
    ensures
        r == same_source_fixes(a@, b@),
{
    if a.len() != b.len() {
        return false;
    }
    let mut i: usize = 0;
    while i < a.len()
        invariant
            i <= a@.len(),
            a@.len() == b@.len(),
            forall|j: int| 0 <= j < i ==> (#[trigger] a@[j]).spec_same(&b@[j]),
        decreases a.len() - i,
    {
        if !a[i].same(&b[i]) {
            return false;
        }
        i += 1;
    }
    true
}

impl LintFix {
    /// A fix. The segments of `edit` lose their markers: they get their
    /// place when they are in the tree. Of `source`, the segments that have
    /// a marker are kept.
    pub fn new(
        edit_type: EditType,
        anchor: ErasedSegment,
        edit: Option<Vec<ErasedSegment>>,
        source: Option<Vec<ErasedSegment>>,
    ) -> (r: LintFix)
        ensures
            r@ == (LintFixV {
                edit_type,
                anchor: anchor@,
                edit: match edit {
                    Some(e) => Some(unmarked(views(e@))),
                    None => None,
                },
                source: match source {
                    Some(s) => marked_only(views(s@)),
                    None => Seq::empty(),
                },
            }),
    {
        let clean_edit = match edit {
            Some(edit) => {
                let mut out: Vec<ErasedSegment> = Vec::new();
                let mut i: usize = 0;
                while i < edit.len()
                    invariant
                        i <= edit@.len(),
                        out@.len() == i,
                        forall|j: int|
                            0 <= j < i ==> (#[trigger] out@[j])@ == edit@[j]@.with_marker(None),
                    decreases edit.len() - i,
                {
                    out.push(edit[i].with_position_marker(None));
                    i += 1;
                }
                assert(views(out@) =~= unmarked(views(edit@)));
                Some(out)
            },
            None => None,
        };
        let clean_source = match source {
            Some(source) => {
                let ghost p = |v: SegV| v.marker is Some;
                let mut out: Vec<ErasedSegment> = Vec::new();
                let mut i: usize = 0;
                proof {
                    lemma_filter_empty(p);
                    assert(views(source@).subrange(0, 0) =~= Seq::<SegV>::empty());
                    assert(views(out@) =~= Seq::<SegV>::empty());
                }
                while i < source.len()
                    invariant
                        i <= source@.len(),
                        p == (|v: SegV| v.marker is Some),
                        views(out@) == views(source@).subrange(0, i as int).filter(p),
                    decreases source.len() - i,
                {
                    proof {
                        lemma_filter_step(views(source@), i as int, p);
                        lemma_views_push(out@, source@[i as int]);
                    }
                    if source[i].get_position_marker().is_some() {
                        out.push(source[i].copy());
                    }
                    i += 1;
                }
                assert(views(source@).subrange(0, i as int) =~= views(source@));
                out
            },
            None => {
                let out: Vec<ErasedSegment> = Vec::new();
                assert(views(out@) =~= Seq::<SegV>::empty());
                out
            },
        };
        LintFix { edit_type, anchor, edit: clean_edit, source: clean_source }
    }

    /// The fix that puts `edit_segments` before `anchor`.
    pub fn create_before(anchor: ErasedSegment, edit_segments: Vec<ErasedSegment>) -> (r: LintFix)
        ensures
            r@ == (LintFixV {
                edit_type: EditType::CreateBefore,
                anchor: anchor@,
                edit: Some(unmarked(views(edit_segments@))),
                source: Seq::empty(),
            }),
    {
        LintFix::new(EditType::CreateBefore, anchor, Some(edit_segments), None)
    }

    /// The fix that puts `edit_segments` after `anchor`.
    pub fn create_after(
        anchor: ErasedSegment,
        edit_segments: Vec<ErasedSegment>,
        source: Option<Vec<ErasedSegment>>,
    ) -> (r: LintFix)
        ensures
            r@ == (LintFixV {
                edit_type: EditType::CreateAfter,
                anchor: anchor@,
                edit: Some(unmarked(views(edit_segments@))),
                source: match source {
                    Some(s) => marked_only(views(s@)),
                    None => Seq::empty(),
                },
            }),
    {
        LintFix::new(EditType::CreateAfter, anchor, Some(edit_segments), source)
    }

    /// The fix that replaces `anchor_segment` by `edit_segments`.
    pub fn replace(
        anchor_segment: ErasedSegment,
        edit_segments: Vec<ErasedSegment>,
        source: Option<Vec<ErasedSegment>>,
    ) -> (r: LintFix)
        ensures
            r@ == (LintFixV {
                edit_type: EditType::Replace,
                anchor: anchor_segment@,
                edit: Some(unmarked(views(edit_segments@))),
                source: match source {
                    Some(s) => marked_only(views(s@)),
                    None => Seq::empty(),
                },
            }),
    {
        LintFix::new(EditType::Replace, anchor_segment, Some(edit_segments), source)
    }

    /// The fix that takes `anchor_segment` out of the tree.
    pub fn delete(anchor_segment: ErasedSegment) -> (r: LintFix)
        ensures
            r@ == (LintFixV {
                edit_type: EditType::Delete,
                anchor: anchor_segment@,
                edit: None,
                source: Seq::empty(),
            }),
    {
        LintFix::new(EditType::Delete, anchor_segment, None, None)
    }

    /// Whether the fix changes the source only.
    pub fn is_just_source_edit(&self) -> (r: bool)
        ensures
            r == self@.is_just_source_edit(),
    {
        match &self.edit {
            Some(edit) => {
                if self.edit_type == EditType::Replace && edit.len() == 1 {
                    assert(views(edit@)[0] == edit@[0]@);
                    let a = edit[0].raw();
                    let b = self.anchor.raw();
                    str_eq(a.as_str(), b.as_str())
                } else {
                    false
                }
            },
            None => false,
        }
    }

    /// Whether the two fixes ask for the same thing.
    #[verifier::loop_isolation(false)]
    pub fn same(&self, other: &LintFix) -> (r: bool)
        ensures
            r == self@.same(other@),
    {
        if self.edit_type != other.edit_type {
            return false;
        }
        if self.anchor.get_type() != other.anchor.get_type() {
            return false;
        }
        if self.anchor.id() != other.anchor.id() {
            return false;
        }
        match (&self.edit, &other.edit) {
            (Some(a), Some(b)) => {
                if a.len() != b.len() {
                    return false;
                }
                let mut i: usize = 0;
                while i < a.len()
                    invariant
                        i <= a@.len(),
                        a@.len() == b@.len(),
                        forall|j: int|
                            0 <= j < i ==> (#[trigger] views(a@)[j]).raw() == views(b@)[j].raw()
                                && same_source_fixes(
                                views(a@)[j].source_fixes(),
                                views(b@)[j].source_fixes(),
                            ),
                    decreases a.len() - i,
                {
                    let x = a[i].raw();
                    let y = b[i].raw();
                    let fx = a[i].get_source_fixes();
                    let fy = b[i].get_source_fixes();
                    assert(views(a@)[i as int] == a@[i as int]@);
                    assert(views(b@)[i as int] == b@[i as int]@);
                    if !str_eq(x.as_str(), y.as_str()) || !source_fixes_same(&fx, &fy) {
                        assert(!same_edits(views(a@), views(b@))) by {
                            if same_edits(views(a@), views(b@)) {
                                assert(views(a@)[i as int].raw() == views(b@)[i as int].raw());
                            }
                        }
                        return false;
                    }
                    i += 1;
                }
                assert(same_edits(views(a@), views(b@)));
                true
            },
            (None, None) => true,
            _ => false,
        }
    }

    pub fn copy(&self) -> (r: LintFix)
        ensures
            r@ == self@,
            r == *self || true,
    {
        LintFix {
            edit_type: self.edit_type,
            anchor: self.anchor.copy(),
            edit: match &self.edit {
                Some(e) => Some(copy_segments(e.as_slice())),
                None => None,
            },
            source: copy_segments(self.source.as_slice()),
        }
    }
}

/// The views of a sequence of fixes.
pub open spec fn fix_views(s: Seq<LintFix>) -> Seq<LintFixV> {
    Seq::new(s.len(), |i: int| s[i]@)
}

/// All the fixes that one pass asks for at one anchor: the fixes without
/// repetitions, how many there are of each kind, and the first replacement.
#[derive(Clone, Debug)]
pub struct AnchorEditInfo {
    pub delete: usize,
    pub replace: usize,
    pub create_before: usize,
    pub create_after: usize,
    pub fixes: Vec<LintFix>,
    pub source_fixes: Vec<SourceFix>,
    pub first_replace: Option<LintFix>,
}

/// The view of what is gathered for an anchor.
pub struct AnchorEditInfoV {
    pub delete: int,
    pub replace: int,
    pub create_before: int,
    pub create_after: int,
    pub fixes: Seq<LintFixV>,
    pub source_fixes: Seq<SourceFix>,
    pub first_replace: Option<LintFixV>,
}

impl View for AnchorEditInfo {
    type V = AnchorEditInfoV;

    open spec fn view(&self) -> AnchorEditInfoV {
        AnchorEditInfoV {
            delete: self.delete as int,
            replace: self.replace as int,
            create_before: self.create_before as int,
            create_after: self.create_after as int,
            fixes: fix_views(self.fixes@),
            source_fixes: self.source_fixes@,
            first_replace: match self.first_replace {
                Some(f) => Some(f@),
                None => None,
            },
        }
    }
}

impl AnchorEditInfoV {
    pub open spec fn empty() -> AnchorEditInfoV {
        AnchorEditInfoV {
            delete: 0,
            replace: 0,
            create_before: 0,
            create_after: 0,
            fixes: Seq::empty(),
            source_fixes: Seq::empty(),
            first_replace: None,
        }
    }

    pub open spec fn total(self) -> int {
        self.delete + self.replace + self.create_before + self.create_after
    }

    /// The counts are those of the fixes held.
    pub open spec fn wf(self) -> bool {
        &&& self.delete >= 0 && self.replace >= 0 && self.create_before >= 0 && self.create_after
            >= 0
        &&& self.total() == self.fixes.len()
    }

    /// Whether a fix that asks for the same thing as `fix` is held.
    pub open spec fn holds(self, fix: LintFixV) -> bool {
        exists|i: int| 0 <= i < self.fixes.len() && (#[trigger] self.fixes[i]).same(fix)
    }

    /// What is gathered after `fix` has come in too.
    ///
    /// A fix that is held already changes nothing. A fix that changes the
    /// source only hands over the source fixes of its edit; if a replacement
    /// is held by then, that is all it does. Any other fix is held from now
    /// on and counted under its kind, and the first replacement is noted.
    pub open spec fn add(self, fix: LintFixV) -> AnchorEditInfoV {
        if self.holds(fix) {
            self
        } else {
            let source_fixes = if fix.is_just_source_edit() {
                self.source_fixes + fix.edit->0[0].source_fixes()
            } else {
                self.source_fixes
            };
            if fix.is_just_source_edit() && self.first_replace is Some {
                AnchorEditInfoV { source_fixes, ..self }
            } else {
                AnchorEditInfoV {
                    delete: self.delete + if fix.edit_type == EditType::Delete {
                        1int
                    } else {
                        0int
                    },
                    replace: self.replace + if fix.edit_type == EditType::Replace {
                        1int
                    } else {
                        0int
                    },
                    create_before: self.create_before + if fix.edit_type
                        == EditType::CreateBefore {
                        1int
                    } else {
                        0int
                    },
                    create_after: self.create_after + if fix.edit_type == EditType::CreateAfter {
                        1int
                    } else {
                        0int
                    },
                    fixes: self.fixes.push(fix),
                    source_fixes,
                    first_replace: if fix.edit_type == EditType::Replace
                        && self.first_replace is None {
                        Some(fix)
                    } else {
                        self.first_replace
                    },
                }
            }
        }
    }

    /// No conflict: at most one fix, or one to put something before the
    /// anchor and one to put something after it.
    pub open spec fn is_valid(self) -> bool {
        self.total() <= 1 || (self.total() == 2 && self.create_before == 1 && self.create_after
            == 1)
    }
}

impl Default for AnchorEditInfo {
    fn default() -> (r: AnchorEditInfo)
        ensures
            r@ == AnchorEditInfoV::empty(),
    {
        let r = AnchorEditInfo {
            delete: 0,
            replace: 0,
            create_before: 0,
            create_after: 0,
            fixes: Vec::new(),
            source_fixes: Vec::new(),
            first_replace: None,
        };
        assert(fix_views(r.fixes@) =~= Seq::<LintFixV>::empty());
        r
    }
}

impl AnchorEditInfo {
    /// Whether a fix that asks for the same thing as `fix` is held.
    #[verifier::loop_isolation(false)]
    pub fn contains(&self, fix: &LintFix) -> (r: bool)
        ensures
            r == self@.holds(fix@),
    {
        let mut i: usize = 0;
        while i < self.fixes.len()
            invariant
                i <= self.fixes@.len(),
                forall|j: int| 0 <= j < i ==> !(#[trigger] fix_views(self.fixes@)[j]).same(fix@),
            decreases self.fixes.len() - i,
        {
            assert(fix_views(self.fixes@)[i as int] == self.fixes@[i as int]@);
            if self.fixes[i].same(fix) {
                assert(self@.fixes[i as int].same(fix@));
                return true;
            }
            i += 1;
        }
        false
    }

    /// Takes in a fix.
    pub fn add(&mut self, fix: LintFix)
        requires
            old(self)@.wf(),
        ensures
            final(self)@ == old(self)@.add(fix@),
            final(self)@.wf(),
    {
        if self.contains(&fix) {
            return;
        }
        let just_source = fix.is_just_source_edit();
        if just_source {
            match &fix.edit {
                Some(edit) => {
                    assert(views(edit@)[0] == edit@[0]@);
                    let mut more = edit[0].get_source_fixes();
                    self.source_fixes.append(&mut more);
                },
                None => {},
            }
            if self.first_replace.is_some() {
                return;
            }
        }
        let ghost before = self.fixes@;
        self.fixes.push(fix.copy());
        let held = self.fixes.len();
        proof {
            assert(fix_views(self.fixes@) =~= fix_views(before).push(fix@));
        }
        match fix.edit_type {
            EditType::CreateBefore => {
                self.create_before += 1;
            },
            EditType::CreateAfter => {
                self.create_after += 1;
            },
            EditType::Replace => {
                self.replace += 1;
            },
            EditType::Delete => {
                self.delete += 1;
            },
        }
        if fix.edit_type == EditType::Replace && self.first_replace.is_none() {
            self.first_replace = Some(fix);
        }
    }

    /// How many fixes are held.
    pub fn total(&self) -> (r: usize)
        requires
            self@.wf(),
        ensures
            r == self@.total(),
    {
        let held = self.fixes.len();
        self.delete + self.replace + self.create_before + self.create_after
    }

    /// Whether the fixes held do not conflict.
    pub fn is_valid(&self) -> (r: bool)
        requires
            self@.wf(),
        ensures
            r == self@.is_valid(),
    {
        let total = self.total();
        if total <= 1 {
            return true;
        }
        if total == 2 {
            return self.create_before == 1 && self.create_after == 1;
        }
        false
    }
}

} // verus!
