//! Position markers: where a segment sits in the source text, in the
//! templated text, and on which line and column of the text being worked on.

use std::ops::Range;
use vstd::prelude::*;

use crate::templater::{sat_add, TemplatedFile};
use crate::text::{
    byte_len, bytes_of, last_newline_before, lemma_newlines_bounds, newlines_before,
    scan_newlines,
};

verus! {

/// `Clone::clone` of `std::ops::Range`: a range of clones of the two ends.
/// Nothing is claimed of it: the library copies ranges end by end.
pub assume_specification<Idx>[ <Range<Idx> as Clone>::clone ](_0: &Range<Idx>) -> Range<Idx> where
    Idx: Clone,
;

#[derive(Clone, Debug)]
pub struct PositionMarker {
    pub source_slice: Range<usize>,
    pub templated_slice: Range<usize>,
    pub templated_file: TemplatedFile,
    pub working_line_no: usize,
    pub working_line_pos: usize,
}

/// The line and column on which text goes on after `raw`, which began on
/// line `line_no` at column `line_pos`: the column moves on by the bytes of
/// `raw`, unless `raw` holds line feeds, which move the line and count the
/// column from the last of them.
pub open spec fn spec_infer_next_position(raw: Seq<char>, line_no: int, line_pos: int) -> (
    int,
    int,
) {
    let b = bytes_of(raw);
    let n = newlines_before(b, b.len() as int);
    if n == 0 {
        (line_no, sat_add(line_pos, b.len() as int))
    } else {
        (sat_add(line_no, n as int), b.len() - last_newline_before(b, b.len() as int))
    }
}

/// The least of `a` and `b`.
pub open spec fn min_int(a: int, b: int) -> int {
    if a <= b {
        a
    } else {
        b
    }
}

/// The greatest of `a` and `b`.
pub open spec fn max_int(a: int, b: int) -> int {
    if a >= b {
        a
    } else {
        b
    }
}

/// The least start of the source slices (`source`) or templated slices of
/// the markers, `usize::MAX` where there is none.
pub open spec fn least_start(markers: Seq<PositionMarker>, source: bool) -> int
    decreases markers.len(),
{
    if markers.len() == 0 {
        usize::MAX as int
    } else {
        min_int(
            least_start(markers.drop_last(), source),
            if source {
                markers.last().source_slice.start as int
            } else {
                markers.last().templated_slice.start as int
            },
        )
    }
}

/// The greatest end of the source slices (`source`) or templated slices of
/// the markers, `0` where there is none.
pub open spec fn greatest_end(markers: Seq<PositionMarker>, source: bool) -> int
    decreases markers.len(),
{
    if markers.len() == 0 {
        0
    } else {
        max_int(
            greatest_end(markers.drop_last(), source),
            if source {
                markers.last().source_slice.end as int
            } else {
                markers.last().templated_slice.end as int
            },
        )
    }
}

impl PositionMarker {
    /// A marker over the two slices. Where the working line or column is not
    /// given, both are those of the start of the templated slice in the
    /// templated text.
    pub fn new(
        source_slice: Range<usize>,
        templated_slice: Range<usize>,
        templated_file: TemplatedFile,
        working_line_no: Option<usize>,
        working_line_pos: Option<usize>,
    ) -> (r: PositionMarker)
        ensures
            r.source_slice == source_slice,
            r.templated_slice == templated_slice,
            r.templated_file == templated_file,
            (working_line_no is Some && working_line_pos is Some) ==> r.working_line_no
                == working_line_no->0 && r.working_line_pos == working_line_pos->0,
            !(working_line_no is Some && working_line_pos is Some) ==> r.working_line_no
                == sat_add(templated_file.spec_line_pos(templated_slice.start as int, false).0, 0)
                && r.working_line_pos == sat_add(
                templated_file.spec_line_pos(templated_slice.start as int, false).1,
                0,
            ),
    {
        match (working_line_no, working_line_pos) {
            (Some(line_no), Some(line_pos)) => PositionMarker {
                source_slice,
                templated_slice,
                templated_file,
                working_line_no: line_no,
                working_line_pos: line_pos,
            },
            _ => {
                let (line_no, line_pos) = templated_file.get_line_pos_of_char_pos(
                    templated_slice.start,
                    false,
                );
                PositionMarker {
                    source_slice,
                    templated_slice,
                    templated_file,
                    working_line_no: line_no,
                    working_line_pos: line_pos,
                }
            },
        }
    }

    /// A marker of no width at the two offsets.
    pub fn from_point(
        source_point: usize,
        templated_point: usize,
        templated_file: TemplatedFile,
        working_line_no: Option<usize>,
        working_line_pos: Option<usize>,
    ) -> (r: PositionMarker)
        ensures
            r.source_slice == (source_point..source_point),
            r.templated_slice == (templated_point..templated_point),
            r.templated_file == templated_file,
            (working_line_no is Some && working_line_pos is Some) ==> r.working_line_no
                == working_line_no->0 && r.working_line_pos == working_line_pos->0,
            !(working_line_no is Some && working_line_pos is Some) ==> r.working_line_no
                == sat_add(templated_file.spec_line_pos(templated_point as int, false).0, 0)
                && r.working_line_pos == sat_add(
                templated_file.spec_line_pos(templated_point as int, false).1,
                0,
            ),
    {
        PositionMarker::new(
            source_point..source_point,
            templated_point..templated_point,
            templated_file,
            working_line_no,
            working_line_pos,
        )
    }

    pub fn copy(&self) -> (r: PositionMarker)
        ensures
            r == *self,
    {
        PositionMarker {
            source_slice: self.source_slice.start..self.source_slice.end,
            templated_slice: self.templated_slice.start..self.templated_slice.end,
            templated_file: self.templated_file.copy(),
            working_line_no: self.working_line_no,
            working_line_pos: self.working_line_pos,
        }
    }

    /// The point at which the marker starts, on the marker's own working
    /// line and column.
    pub open spec fn spec_start_point_marker(&self) -> PositionMarker {
        PositionMarker {
            source_slice: self.source_slice.start..self.source_slice.start,
            templated_slice: self.templated_slice.start..self.templated_slice.start,
            templated_file: self.templated_file,
            working_line_no: self.working_line_no,
            working_line_pos: self.working_line_pos,
        }
    }

    pub fn start_point_marker(&self) -> (r: PositionMarker)
        ensures
            r == self.spec_start_point_marker(),
    {
        PositionMarker::from_point(
            self.source_slice.start,
            self.templated_slice.start,
            self.templated_file.copy(),
            Some(self.working_line_no),
            Some(self.working_line_pos),
        )
    }

    /// The point at which the marker ends, on the line and column which
    /// that offset has in the templated text.
    pub open spec fn spec_end_point_marker(&self) -> PositionMarker {
        PositionMarker {
            source_slice: self.source_slice.end..self.source_slice.end,
            templated_slice: self.templated_slice.end..self.templated_slice.end,
            templated_file: self.templated_file,
            working_line_no: sat_add(
                self.templated_file.spec_line_pos(self.templated_slice.end as int, false).0,
                0,
            ) as usize,
            working_line_pos: sat_add(
                self.templated_file.spec_line_pos(self.templated_slice.end as int, false).1,
                0,
            ) as usize,
        }
    }

    pub fn end_point_marker(&self) -> (r: PositionMarker)
        ensures
            r == self.spec_end_point_marker(),
    {
        PositionMarker::from_point(
            self.source_slice.end,
            self.templated_slice.end,
            self.templated_file.copy(),
            None,
            None,
        )
    }

    /// The marker from the start of one point to the end of another, on the
    /// working line and column of the first.
    pub open spec fn spec_from_points(start: PositionMarker, end: PositionMarker) -> PositionMarker {
        PositionMarker {
            source_slice: start.source_slice.start..end.source_slice.end,
            templated_slice: start.templated_slice.start..end.templated_slice.end,
            templated_file: start.templated_file,
            working_line_no: start.working_line_no,
            working_line_pos: start.working_line_pos,
        }
    }

    pub fn from_points(start_point_marker: &PositionMarker, end_point_marker: &PositionMarker) -> (r:
        PositionMarker)
        ensures
            r == PositionMarker::spec_from_points(*start_point_marker, *end_point_marker),
    {
        PositionMarker {
            source_slice: start_point_marker.source_slice.start..end_point_marker.source_slice.end,
            templated_slice: start_point_marker.templated_slice.start..end_point_marker.templated_slice.end,
            templated_file: start_point_marker.templated_file.copy(),
            working_line_no: start_point_marker.working_line_no,
            working_line_pos: start_point_marker.working_line_pos,
        }
    }

    /// The marker of a parent: its slices run from the least start to the
    /// greatest end of those of its children, in the first child's file.
    pub fn from_child_markers(markers: &Vec<PositionMarker>) -> (r: PositionMarker)
        requires
            markers@.len() > 0,
        ensures
            r.source_slice.start == least_start(markers@, true),
            r.source_slice.end == greatest_end(markers@, true),
            r.templated_slice.start == least_start(markers@, false),
            r.templated_slice.end == greatest_end(markers@, false),
            r.templated_file == markers@[0].templated_file,
            r.working_line_no == sat_add(
                r.templated_file.spec_line_pos(r.templated_slice.start as int, false).0,
                0,
            ),
            r.working_line_pos == sat_add(
                r.templated_file.spec_line_pos(r.templated_slice.start as int, false).1,
                0,
            ),
    {
        let mut source_start = usize::MAX;
        let mut source_end: usize = 0;
        let mut template_start = usize::MAX;
        let mut template_end: usize = 0;
        let mut i: usize = 0;
        while i < markers.len()
            invariant
                i <= markers@.len(),
                source_start == least_start(markers@.subrange(0, i as int), true),
                source_end == greatest_end(markers@.subrange(0, i as int), true),
                template_start == least_start(markers@.subrange(0, i as int), false),
                template_end == greatest_end(markers@.subrange(0, i as int), false),
            decreases markers.len() - i,
        {
            let m = &markers[i];
            proof {
                assert(markers@.subrange(0, i + 1).drop_last() =~= markers@.subrange(0, i as int));
            }
            if m.source_slice.start < source_start {
                source_start = m.source_slice.start;
            }
            if m.source_slice.end > source_end {
                source_end = m.source_slice.end;
            }
            if m.templated_slice.start < template_start {
                template_start = m.templated_slice.start;
            }
            if m.templated_slice.end > template_end {
                template_end = m.templated_slice.end;
            }
            i += 1;
        }
        assert(markers@.subrange(0, i as int) =~= markers@);
        PositionMarker::new(
            source_start..source_end,
            template_start..template_end,
            markers[0].templated_file.copy(),
            None,
            None,
        )
    }

    /// The same marker on another working line and column.
    pub open spec fn spec_with_working_position(self, line_no: usize, line_pos: usize) -> PositionMarker {
        PositionMarker {
            source_slice: self.source_slice,
            templated_slice: self.templated_slice,
            templated_file: self.templated_file,
            working_line_no: line_no,
            working_line_pos: line_pos,
        }
    }

    pub fn with_working_position(self, line_no: usize, line_pos: usize) -> (r: PositionMarker)
        ensures
            r == self.spec_with_working_position(line_no, line_pos),
    {
        PositionMarker {
            source_slice: self.source_slice,
            templated_slice: self.templated_slice,
            templated_file: self.templated_file,
            working_line_no: line_no,
            working_line_pos: line_pos,
        }
    }

    pub fn working_loc(&self) -> (r: (usize, usize))
        ensures
            r == (self.working_line_no, self.working_line_pos),
    {
        (self.working_line_no, self.working_line_pos)
    }

    pub fn infer_next_position(raw: &str, line_no: usize, line_pos: usize) -> (r: (usize, usize))
        ensures
            r.0 == spec_infer_next_position(raw@, line_no as int, line_pos as int).0,
            r.1 == spec_infer_next_position(raw@, line_no as int, line_pos as int).1,
    {
        let n = byte_len(raw);
        let (count, last) = scan_newlines(raw, n);
        proof {
            lemma_newlines_bounds(bytes_of(raw@), n as int);
        }
        match last {
            None => (line_no, line_pos.saturating_add(n)),
            Some(k) => (line_no.saturating_add(count), n - k),
        }
    }

    /// The working line and column just after `raw`, which starts at the marker.
    pub fn working_loc_after(&self, raw: &str) -> (r: (usize, usize))
        ensures
            r.0 == spec_infer_next_position(
                raw@,
                self.working_line_no as int,
                self.working_line_pos as int,
            ).0,
            r.1 == spec_infer_next_position(
                raw@,
                self.working_line_no as int,
                self.working_line_pos as int,
            ).1,
    {
        PositionMarker::infer_next_position(raw, self.working_line_no, self.working_line_pos)
    }

    /// A marker of no width in either text.
    pub open spec fn spec_is_point(&self) -> bool {
        self.source_slice.start == self.source_slice.end && self.templated_slice.start
            == self.templated_slice.end
    }

    pub fn is_point(&self) -> (r: bool)
        ensures
            r == self.spec_is_point(),
    {
        self.source_slice.start == self.source_slice.end && self.templated_slice.start
            == self.templated_slice.end
    }

    /// Whether the marker lies in literal source text only.
    pub open spec fn spec_is_literal(&self) -> bool {
        self.templated_file.spec_is_source_slice_literal(self.source_slice)
    }

    pub fn is_literal(&self) -> (r: bool)
        ensures
            r == self.spec_is_literal(),
    {
        self.templated_file.is_source_slice_literal(&self.source_slice)
    }

    /// The line and column of the start of the marker in the source text.
    pub fn source_position(&self) -> (r: (usize, usize))
        ensures
            r.0 == sat_add(
                self.templated_file.spec_line_pos(self.source_slice.start as int, true).0,
                0,
            ),
            r.1 == sat_add(
                self.templated_file.spec_line_pos(self.source_slice.start as int, true).1,
                0,
            ),
    {
        self.templated_file.get_line_pos_of_char_pos(self.source_slice.start, true)
    }

    /// The line and column of the start of the marker in the templated text.
    pub fn templated_position(&self) -> (r: (usize, usize))
        ensures
            r.0 == sat_add(
                self.templated_file.spec_line_pos(self.templated_slice.start as int, false).0,
                0,
            ),
            r.1 == sat_add(
                self.templated_file.spec_line_pos(self.templated_slice.start as int, false).1,
                0,
            ),
    {
        self.templated_file.get_line_pos_of_char_pos(self.templated_slice.start, false)
    }

    /// Whether the two markers cover the same slices on the same working
    /// line and column.
    pub open spec fn spec_same(&self, other: &PositionMarker) -> bool {
        &&& self.source_slice == other.source_slice
        &&& self.templated_slice == other.templated_slice
        &&& self.working_line_no == other.working_line_no
        &&& self.working_line_pos == other.working_line_pos
    }

    pub fn same(&self, other: &PositionMarker) -> (r: bool)
        ensures
            r == self.spec_same(other),
    {
        self.source_slice.start == other.source_slice.start && self.source_slice.end
            == other.source_slice.end && self.templated_slice.start == other.templated_slice.start
            && self.templated_slice.end == other.templated_slice.end && self.working_line_no
            == other.working_line_no && self.working_line_pos == other.working_line_pos
    }
}

} // verus!
