//! What is wrong with the indentation of the lines, and the fixes for it.

use std::collections::HashSet;
use vstd::prelude::*;
use vstd::string::{StrSliceExecFns, StringExecFns};

use crate::fix::{fix_views, EditType, LintFix, LintFixV};
use crate::formatters::{decimal, decimal_of};
use crate::indent_crawl::{map_line_buffers, spec_map_line_buffers};
use crate::lints::delete_fix;
use crate::reflow::{
    copy_all, element_views, indent_from, lemma_indent_from, ElementV, ReflowElement, ReflowPoint,
};
use crate::reindent::{
    holds_newline, has_untemplated_newline, line_views, spec_desired_indent_units, IndentLine,
    IndentStats, LineV,
};
use crate::rules::{result_views, LintResult, LintResultV};
use crate::segment::{next_counter, token_v, views, ErasedSegment, SegV, SegmentBuilder, Tables};
use crate::syntax::SyntaxKind;
use crate::text::str_eq;

verus! {

/// The text `n` times over.
pub open spec fn repeated(s: Seq<char>, n: int) -> Seq<char>
    decreases n,
{
    if n <= 0 {
        Seq::empty()
    } else {
        repeated(s, n - 1) + s
    }
}

/// The text `n` times over.
pub fn repeat_text(s: &str, n: usize) -> (r: String)
    ensures
        r@ == repeated(s@, n as int),
{
    let mut out = String::new();
    let mut i: usize = 0;
    assert(out@ =~= repeated(s@, 0));
    while i < n
        invariant
            i <= n,
            out@ == repeated(s@, i as int),
        decreases n - i,
    {
        out.append(s);
        i += 1;
    }
    out
}

/// The index of the last of the first `n` segments that is white space
/// of the source as it is written.
pub open spec fn first_line_indent(s: Seq<SegV>, n: int) -> Option<int>
    decreases n,
{
    if n <= 0 || n > s.len() {
        None
    } else if s[n - 1].kind == SyntaxKind::Whitespace && !s[n - 1].is_templated() {
        Some(n - 1)
    } else {
        first_line_indent(s, n - 1)
    }
}

/// The text of the segment at the index, or none without an index.
pub open spec fn indent_text(s: Seq<SegV>, at: Option<int>) -> Seq<char> {
    match at {
        Some(f) => s[f].raw(),
        None => Seq::empty(),
    }
}

/// Whether the segment stands at the very start of the file.
pub open spec fn at_start(v: SegV) -> bool {
    v.marker matches Some(m) && m.working_line_no == 1 && m.working_line_pos == 1
}

/// The white space that a line starts with. After a line break, that is
/// the white space that follows the last new line of the stretch with the
/// break. The first line starts with the last white space of the first
/// element, where that is a stretch at the very start of the file.
/// Nothing where there are no elements, or where no stretch is at the
/// place of the line break.
pub open spec fn spec_current_indent(elements: Seq<ElementV>, last: Option<usize>) -> Option<
    Seq<char>,
> {
    if elements.len() == 0 {
        None
    } else if elements[0].segments.len() == 0 {
        Some(Seq::empty())
    } else {
        match last {
            Some(i) => if i < elements.len() && elements[i as int].point {
                let s = elements[i as int].segments;
                Some(indent_text(s, indent_from(s, s.len() as int, None)))
            } else {
                None
            },
            None => if elements[0].point && at_start(elements[0].segments[0]) {
                let s = elements[0].segments;
                Some(indent_text(s, first_line_indent(s, s.len() as int)))
            } else {
                Some(Seq::empty())
            },
        }
    }
}

/// The white space that the line starts with whose last line break is at
/// `last_line_break_idx`.
pub fn deduce_line_current_indent(
    elements: &Vec<ReflowElement>,
    last_line_break_idx: Option<usize>,
) -> (r: Option<String>)
    ensures
        r is Some == spec_current_indent(element_views(elements@), last_line_break_idx) is Some,
        r matches Some(t) ==> t@ == spec_current_indent(
            element_views(elements@),
            last_line_break_idx,
        )->0,
{
    let ghost es = element_views(elements@);
    if elements.len() == 0 {
        return None;
    }
    assert(es[0] == elements@[0]@);
    let first = elements[0].segments();
    if first.len() == 0 {
        assert(es[0].segments.len() == views(first@).len());
        return Some(String::new());
    }
    assert(es[0].segments.len() == views(first@).len());
    let mut indent_seg: Option<ErasedSegment> = None;
    match last_line_break_idx {
        Some(i) => {
            if i >= elements.len() {
                return None;
            }
            assert(es[i as int] == elements@[i as int]@);
            match elements[i].as_point() {
                Some(point) => {
                    indent_seg = point.get_indent_segment();
                    proof {
                        let s = es[i as int].segments;
                        if indent_seg is Some {
                            let f = indent_from(s, s.len() as int, None)->0;
                            lemma_indent_from(s, s.len() as int, None);
                            assert(s[f] == point.segments@[f]@);
                        }
                    }
                },
                None => {
                    return None;
                },
            }
        },
        None => {
            assert(es[0].segments[0] == first@[0]@);
            let starts = match first[0].get_position_marker() {
                Some(marker) => {
                    let loc = marker.working_loc();
                    loc.0 == 1 && loc.1 == 1
                },
                None => false,
            };
            if elements[0].as_point().is_some() && starts {
                let ghost s = es[0].segments;
                let mut n: usize = first.len();
                while n > 0 && indent_seg.is_none()
                    invariant
                        n <= first@.len(),
                        s == views(first@),
                        indent_seg is None ==> first_line_indent(s, s.len() as int)
                            == first_line_indent(s, n as int),
                        indent_seg matches Some(seg) ==> first_line_indent(s, s.len() as int)
                            is Some && seg@ == s[first_line_indent(s, s.len() as int)->0],
                    decreases n,
                {
                    let segment = &first[n - 1];
                    assert(s[n - 1] == segment@);
                    if segment.is_type(SyntaxKind::Whitespace) && !segment.is_templated() {
                        indent_seg = Some(segment.copy());
                    }
                    n -= 1;
                }
            }
        },
    }
    match indent_seg {
        Some(seg) => Some(seg.raw()),
        None => Some(String::new()),
    }
}

/// Whether every character of the text is `c`.
pub open spec fn all_of(s: Seq<char>, c: char) -> bool {
    forall|i: int| 0 <= i < s.len() ==> s[i] == c
}

/// An indent in words.
pub open spec fn indent_description(indent: Seq<char>) -> Seq<char> {
    if indent.len() == 0 {
        "no indent"@
    } else if all_of(indent, ' ') {
        "indent of "@ + decimal_of(indent.len()) + " spaces"@
    } else if all_of(indent, '\t') {
        "indent of "@ + decimal_of(indent.len()) + " tabs"@
    } else {
        "mixed indent"@
    }
}

/// What is said of a line that is not indented as it should be.
pub open spec fn expected_text(indent: Seq<char>) -> Seq<char> {
    "Expected "@ + indent_description(indent) + "."@
}

/// Whether every character of the text is `c`.
fn is_all(s: &str, c: char) -> (r: bool)
    ensures
        r == all_of(s@, c),
{
    let n = s.unicode_len();
    let mut i: usize = 0;
    while i < n
        invariant
            i <= n,
            n == s@.len(),
            forall|j: int| 0 <= j < i ==> s@[j] == c,
        decreases n - i,
    {
        if s.get_char(i) != c {
            return false;
        }
        i += 1;
    }
    true
}

/// What is said of a line that is not indented as it should be.
fn expected(indent: &str) -> (r: String)
    ensures
        r@ == expected_text(indent@),
{
    let n = indent.unicode_len();
    let mut out = "Expected ".to_string();
    if n == 0 {
        out.append("no indent");
    } else if is_all(indent, ' ') {
        out.append("indent of ");
        out.append(decimal(n).as_str());
        out.append(" spaces");
    } else if is_all(indent, '\t') {
        out.append("indent of ");
        out.append(decimal(n).as_str());
        out.append(" tabs");
    } else {
        out.append("mixed indent");
    }
    out.append(".");
    assert(out@ =~= expected_text(indent@));
    out
}

/// What the change of an indent comes to: what is reported, and the
/// segments of the stretch afterwards.
pub struct IndentOutcome {
    pub results: Seq<LintResultV>,
    pub segments: Seq<SegV>,
    /// The id that is handed out next.
    pub counter: u32,
}

/// The fix that has `edit` and no source.
pub open spec fn plain_fix(edit_type: EditType, anchor: SegV, edit: Seq<SegV>) -> LintFixV {
    LintFixV { edit_type, anchor, edit: Some(edit), source: Seq::empty() }
}

/// The result at the anchor, with one fix and a description.
pub open spec fn one_result(anchor: SegV, fix: LintFixV, description: Seq<char>) -> Seq<
    LintResultV,
> {
    seq![
        LintResultV {
            anchor: Some(anchor),
            fixes: seq![fix],
            description: Some(description),
            source: Seq::empty(),
        },
    ]
}

/// What it takes to indent by `desired` what follows a stretch that
/// holds a new line. Where white space indents it now, that is deleted
/// if no indent is wanted, and replaced otherwise. Where none does, and an
/// indent is wanted, white space is put before the segment `before`. The
/// white space that is put in is a new segment, with the id `counter`.
/// Nothing for a stretch without a new line of the source, or where white
/// space is to be put before a segment and there is none.
pub open spec fn spec_indent_to(
    s: Seq<SegV>,
    desired: Seq<char>,
    before: Option<SegV>,
    counter: u32,
) -> Option<IndentOutcome> {
    let fresh = token_v(counter, desired, SyntaxKind::Whitespace);
    if !holds_newline(s) {
        None
    } else {
        match indent_from(s, s.len() as int, None) {
            Some(f) => if desired.len() == 0 {
                Some(
                    IndentOutcome {
                        results: seq![
                            LintResultV {
                                anchor: Some(s[f]),
                                fixes: seq![delete_fix(s[f])],
                                description: Some("Line should not be indented."@),
                                source: Seq::empty(),
                            },
                        ],
                        segments: s.remove(f),
                        counter,
                    },
                )
            } else {
                Some(
                    IndentOutcome {
                        results: one_result(
                            s[f],
                            plain_fix(EditType::Replace, s[f], seq![fresh]),
                            expected_text(desired),
                        ),
                        segments: s.update(f, fresh),
                        counter: next_counter(counter),
                    },
                )
            },
            None => if desired.len() == 0 {
                Some(IndentOutcome { results: Seq::empty(), segments: s, counter })
            } else {
                match before {
                    Some(b) => Some(
                        IndentOutcome {
                            results: one_result(
                                b,
                                plain_fix(EditType::CreateBefore, b, seq![fresh]),
                                expected_text(desired),
                            ),
                            segments: s.push(fresh),
                            counter: next_counter(counter),
                        },
                    ),
                    None => None,
                }
            },
        }
    }
}

impl ReflowPoint {
    /// What is to be reported so that what follows the stretch is indented
    /// by `desired_indent`, and the stretch as it is after the fixes.
    pub fn indent_to(
        &self,
        desired_indent: &str,
        before: Option<ErasedSegment>,
        tables: &mut Tables,
    ) -> (r: Option<(Vec<LintResult>, ReflowPoint)>)
        ensures
            r is Some == spec_indent_to(
                self@.segments,
                desired_indent@,
                match before {
                    Some(b) => Some(b@),
                    None => None,
                },
                old(tables).counter,
            ) is Some,
            r matches Some(out) ==> {
                let o = spec_indent_to(
                    self@.segments,
                    desired_indent@,
                    match before {
                        Some(b) => Some(b@),
                        None => None,
                    },
                    old(tables).counter,
                )->0;
                &&& result_views(out.0@) == o.results
                &&& out.1@ == (ElementV { segments: o.segments, ..self@ })
                &&& final(tables).counter == o.counter
            },
            r is None ==> final(tables).counter == old(tables).counter,
    {
        let ghost c0 = tables.counter;
        let ghost s = self@.segments;
        if !has_untemplated_newline(self) {
            return None;
        }
        let wanted = desired_indent.unicode_len() != 0;
        let mut results: Vec<LintResult> = Vec::new();
        let mut segments: Vec<ErasedSegment> = Vec::new();
        match self.indent_index() {
            Some(f) => {
                let seg = &self.segments[f];
                assert(s[f as int] == seg@);
                let mut fixes: Vec<LintFix> = Vec::new();
                let description: String;
                let mut i: usize = 0;
                while i < f
                    invariant
                        i <= f < self.segments@.len(),
                        segments@ == self.segments@.subrange(0, i as int),
                        tables.counter == c0,
                    decreases f - i,
                {
                    segments.push(self.segments[i].copy());
                    assert(segments@ =~= self.segments@.subrange(0, i + 1));
                    i += 1;
                }
                if wanted {
                    let fresh = SegmentBuilder::whitespace(tables.next_id(), desired_indent);
                    let mut edit: Vec<ErasedSegment> = Vec::new();
                    edit.push(fresh.copy());
                    proof {
                        assert(crate::fix::unmarked(views(edit@)) =~= seq![
                            token_v(c0, desired_indent@, SyntaxKind::Whitespace),
                        ]);
                    }
                    fixes.push(LintFix::replace(seg.copy(), edit, None));
                    description = expected(desired_indent);
                    segments.push(fresh);
                } else {
                    fixes.push(LintFix::delete(seg.copy()));
                    description = "Line should not be indented.".to_string();
                }
                let ghost head = segments@;
                let n = self.segments.len();
                let mut j: usize = f + 1;
                while j < n
                    invariant
                        f < j <= self.segments@.len(),
                        n == self.segments@.len(),
                        segments@ == head + self.segments@.subrange(f + 1, j as int),
                        tables.counter == if wanted {
                            next_counter(c0)
                        } else {
                            c0
                        },
                    decreases n - j,
                {
                    segments.push(self.segments[j].copy());
                    assert(segments@ =~= head + self.segments@.subrange(f + 1, j + 1));
                    j += 1;
                }
                results.push(LintResult::new(Some(seg.copy()), fixes, None, Some(description), None));
                proof {
                    let o = spec_indent_to(
                        s,
                        desired_indent@,
                        match before {
                            Some(b) => Some(b@),
                            None => None,
                        },
                        c0,
                    )->0;
                    assert(fix_views(results@[0].fixes@) =~= o.results[0].fixes);
                    assert(result_views(results@) =~= o.results);
                    assert(views(segments@) =~= o.segments);
                }
            },
            None => {
                segments = copy_all(&self.segments);
                if wanted {
                    match before {
                        Some(b) => {
                            let fresh = SegmentBuilder::whitespace(tables.next_id(), desired_indent);
                            let mut edit: Vec<ErasedSegment> = Vec::new();
                            edit.push(fresh.copy());
                            proof {
                                assert(crate::fix::unmarked(views(edit@)) =~= seq![
                                    token_v(c0, desired_indent@, SyntaxKind::Whitespace),
                                ]);
                            }
                            let mut fixes: Vec<LintFix> = Vec::new();
                            fixes.push(LintFix::create_before(b.copy(), edit));
                            results.push(
                                LintResult::new(
                                    Some(b),
                                    fixes,
                                    None,
                                    Some(expected(desired_indent)),
                                    None,
                                ),
                            );
                            segments.push(fresh);
                            proof {
                                let o = spec_indent_to(s, desired_indent@, Some(b@), c0)->0;
                                assert(fix_views(results@[0].fixes@) =~= o.results[0].fixes);
                                assert(result_views(results@) =~= o.results);
                                assert(views(segments@) =~= o.segments);
                            }
                        },
                        None => {
                            return None;
                        },
                    }
                } else {
                    proof {
                        assert(result_views(results@) =~= Seq::<LintResultV>::empty());
                    }
                }
            },
        }
        Some((results, ReflowPoint { segments, stats: self.stats.copy() }))
    }
}

/// What the look at a line comes to: what is reported, and the elements
/// afterwards.
pub struct LintOutcome {
    pub results: Seq<LintResultV>,
    pub elements: Seq<ElementV>,
    /// The id that is handed out next.
    pub counter: u32,
}

/// A stretch that holds nothing.
pub open spec fn empty_point() -> ElementV {
    ElementV { point: true, segments: Seq::empty(), impulse: 0, trough: 0, implicit: Seq::empty() }
}

/// What is reported of a first line that is indented: one result at the
/// first segment of the stretch before it, with a fix that deletes each
/// segment of that stretch.
pub open spec fn first_line_results(s: Seq<SegV>) -> Seq<LintResultV> {
    seq![
        LintResultV {
            anchor: Some(s[0]),
            fixes: Seq::new(s.len(), |i: int| delete_fix(s[i])),
            description: Some("First line should not be indented."@),
            source: Seq::empty(),
        },
    ]
}

/// What is wrong with how a line starts. The line starts with the white
/// space of `spec_current_indent`, and is to start with `single` as many
/// times as `spec_desired_indent_units` says. Where these are the same,
/// nothing is reported. Where they differ: the first line of all loses the
/// whole stretch before it; any other line has the stretch before it
/// indented as `spec_indent_to` says, with `counter` as the id of what is
/// put in. Nothing where the line has no points,
/// where no segment follows its first point, where that point is no
/// stretch, or where one of the three has no answer.
pub open spec fn spec_starting_indent(
    elements: Seq<ElementV>,
    line: LineV,
    single: Seq<char>,
    forced: int,
    counter: u32,
) -> Option<LintOutcome> {
    if line.points.len() == 0 {
        None
    } else {
        let first = line.points[0];
        let idx = first.idx;
        if idx + 1 >= elements.len() || elements[idx + 1].segments.len() == 0
            || !elements[idx].point {
            None
        } else {
            match (
                spec_current_indent(elements, line.points.last().last_break),
                spec_desired_indent_units(line, forced),
            ) {
                (Some(current), Some(units)) => {
                    let desired = repeated(single, units);
                    if current == desired {
                        Some(LintOutcome { results: Seq::empty(), elements, counter })
                    } else if idx == 0 && !first.is_line_break {
                        if elements[0].segments.len() == 0 {
                            None
                        } else {
                            Some(
                                LintOutcome {
                                    results: first_line_results(elements[0].segments),
                                    elements: elements.update(0, empty_point()),
                                    counter,
                                },
                            )
                        }
                    } else {
                        match spec_indent_to(
                            elements[idx].segments,
                            desired,
                            Some(elements[idx + 1].segments[0]),
                            counter,
                        ) {
                            Some(o) => Some(
                                LintOutcome {
                                    results: o.results,
                                    elements: elements.update(
                                        idx,
                                        ElementV { segments: o.segments, ..elements[idx] },
                                    ),
                                    counter: o.counter,
                                },
                            ),
                            None => None,
                        }
                    }
                },
                _ => None,
            }
        }
    }
}

/// What is wrong with how the line starts, and the fix for it, which is
/// made in the elements too. Where there is no answer the elements stay as
/// they are.
pub fn lint_line_starting_indent(
    elements: &mut Vec<ReflowElement>,
    indent_line: &IndentLine,
    single_indent: &str,
    forced_indents: &[usize],
    tables: &mut Tables,
) -> (r: Option<Vec<LintResult>>)
    ensures
        r is Some == spec_starting_indent(
            element_views(old(elements)@),
            indent_line@,
            single_indent@,
            forced_indents@.len() as int,
            old(tables).counter,
        ) is Some,
        r matches Some(results) ==> {
            let o = spec_starting_indent(
                element_views(old(elements)@),
                indent_line@,
                single_indent@,
                forced_indents@.len() as int,
                old(tables).counter,
            )->0;
            &&& result_views(results@) == o.results
            &&& element_views(final(elements)@) == o.elements
            &&& final(tables).counter == o.counter
        },
        r is None ==> element_views(final(elements)@) == element_views(old(elements)@),
        r is None ==> final(tables).counter == old(tables).counter,
{
    let ghost es = element_views(elements@);
    let ghost line = indent_line@;
    let indent_points = &indent_line.indent_points;
    let n = indent_points.len();
    if n == 0 {
        return None;
    }
    assert(line.points[0] == indent_points@[0]@);
    assert(line.points.last() == indent_points@[n - 1]@);
    let initial_point_idx = indent_points[0].idx;
    if initial_point_idx >= elements.len() || initial_point_idx + 1 >= elements.len() {
        return None;
    }
    assert(es[initial_point_idx as int] == elements@[initial_point_idx as int]@);
    assert(es[initial_point_idx + 1] == elements@[initial_point_idx + 1]@);
    let following = elements[initial_point_idx + 1].segments();
    if following.len() == 0 {
        assert(es[initial_point_idx + 1].segments.len() == views(following@).len());
        return None;
    }
    assert(es[initial_point_idx + 1].segments.len() == views(following@).len());
    assert(es[initial_point_idx + 1].segments[0] == following@[0]@);
    let before = following[0].copy();
    let initial_point = match elements[initial_point_idx].as_point() {
        Some(point) => point,
        None => {
            return None;
        },
    };
    let current_indent = match deduce_line_current_indent(
        elements,
        indent_points[n - 1].last_line_break_idx,
    ) {
        Some(t) => t,
        None => {
            return None;
        },
    };
    let desired_indent_units = match indent_line.desired_indent_units(forced_indents) {
        Some(u) => u,
        None => {
            return None;
        },
    };
    let desired_starting_indent = repeat_text(single_indent, desired_indent_units);
    if str_eq(current_indent.as_str(), desired_starting_indent.as_str()) {
        proof {
            assert(result_views(Seq::<LintResult>::empty()) =~= Seq::<LintResultV>::empty());
        }
        return Some(Vec::new());
    }
    let new_results: Vec<LintResult>;
    let new_point: ReflowPoint;
    if initial_point_idx == 0 && !indent_points[0].is_line_break {
        let segments = &initial_point.segments;
        if segments.len() == 0 {
            assert(es[0].segments.len() == views(segments@).len());
            return None;
        }
        let ghost s = es[0].segments;
        assert(s == views(segments@));
        let mut fixes: Vec<LintFix> = Vec::new();
        let mut i: usize = 0;
        while i < segments.len()
            invariant
                i <= segments@.len(),
                s == views(segments@),
                fixes@.len() == i,
                forall|k: int| 0 <= k < i ==> (#[trigger] fixes@[k])@ == delete_fix(s[k]),
            decreases segments.len() - i,
        {
            assert(s[i as int] == segments@[i as int]@);
            fixes.push(LintFix::delete(segments[i].copy()));
            i += 1;
        }
        let mut results: Vec<LintResult> = Vec::new();
        assert(s[0] == segments@[0]@);
        results.push(
            LintResult::new(
                Some(segments[0].copy()),
                fixes,
                None,
                Some("First line should not be indented.".to_string()),
                None,
            ),
        );
        proof {
            assert(fix_views(results@[0].fixes@) =~= first_line_results(s)[0].fixes);
            assert(result_views(results@) =~= first_line_results(s));
        }
        new_results = results;
        new_point =
        ReflowPoint::new(
            Vec::new(),
            IndentStats { impulse: 0, trough: 0, implicit_indents: Vec::new() },
        );
        proof {
            assert(new_point@.segments =~= Seq::<SegV>::empty());
            assert(new_point@.implicit =~= Seq::<usize>::empty());
            assert(new_point@ == empty_point());
        }
    } else {
        match initial_point.indent_to(desired_starting_indent.as_str(), Some(before), tables) {
            Some(out) => {
                new_results = out.0;
                new_point = out.1;
            },
            None => {
                return None;
            },
        }
    }
    let ghost fresh = new_point@;
    elements.set(initial_point_idx, ReflowElement::Point(new_point));
    proof {
        assert(element_views(elements@) =~= es.update(initial_point_idx as int, fresh));
    }
    Some(new_results)
}

/// What is wrong with indents of the line that were not taken and are
/// given up on it: nothing is reported of them.
pub fn lint_line_untaken_negative_indents(
    elements: &mut Vec<ReflowElement>,
    indent_line: &IndentLine,
    single_indent: &str,
    forced_indents: &[usize],
) -> (r: Vec<LintResult>)
    ensures
        r@.len() == 0,
        *final(elements) == *old(elements),
{
    Vec::new()
}

/// What is wrong with the indentation of the line, and the fixes for it,
/// which are made in the elements too.
pub fn lint_line_buffer_indents(
    elements: &mut Vec<ReflowElement>,
    indent_line: IndentLine,
    single_indent: &str,
    forced_indents: &[usize],
    imbalanced_indent_locs: &[usize],
    tables: &mut Tables,
) -> (r: Option<Vec<LintResult>>)
    ensures
        r is Some == spec_starting_indent(
            element_views(old(elements)@),
            indent_line@,
            single_indent@,
            forced_indents@.len() as int,
            old(tables).counter,
        ) is Some,
        r matches Some(results) ==> {
            let o = spec_starting_indent(
                element_views(old(elements)@),
                indent_line@,
                single_indent@,
                forced_indents@.len() as int,
                old(tables).counter,
            )->0;
            &&& result_views(results@) == o.results
            &&& element_views(final(elements)@) == o.elements
            &&& final(tables).counter == o.counter
        },
        r is None ==> element_views(final(elements)@) == element_views(old(elements)@),
        r is None ==> final(tables).counter == old(tables).counter,
{
    let mut results = match lint_line_starting_indent(
        elements,
        &indent_line,
        single_indent,
        forced_indents,
        tables,
    ) {
        Some(results) => results,
        None => {
            return None;
        },
    };
    let ghost starting = results@;
    let mut more = lint_line_untaken_negative_indents(
        elements,
        &indent_line,
        single_indent,
        forced_indents,
    );
    results.append(&mut more);
    assert(results@ =~= starting);
    Some(results)
}

/// What is reported of the first `n` lines, one after the other, and the
/// elements after the fixes for them. The ids of what the fixes put in are
/// handed out from `counter` on.
pub open spec fn lint_lines_upto(
    elements: Seq<ElementV>,
    lines: Seq<LineV>,
    single: Seq<char>,
    n: int,
    counter: u32,
) -> Option<LintOutcome>
    decreases n,
{
    if n <= 0 {
        Some(LintOutcome { results: Seq::empty(), elements, counter })
    } else {
        match lint_lines_upto(elements, lines, single, n - 1, counter) {
            None => None,
            Some(st) => match spec_starting_indent(
                st.elements,
                lines[n - 1],
                single,
                0,
                st.counter,
            ) {
                None => None,
                Some(o) => Some(
                    LintOutcome {
                        results: st.results + o.results,
                        elements: o.elements,
                        counter: o.counter,
                    },
                ),
            },
        }
    }
}

/// What is wrong with the indentation of the elements, line by line.
pub open spec fn spec_lint_indent_points(
    elements: Seq<ElementV>,
    single: Seq<char>,
    counter: u32,
) -> Option<LintOutcome> {
    match spec_map_line_buffers(elements) {
        None => None,
        Some(lines) => lint_lines_upto(elements, lines, single, lines.len() as int, counter),
    }
}

/// Lines that have no answer leave those after them without one.
pub proof fn lemma_lint_stops(
    elements: Seq<ElementV>,
    lines: Seq<LineV>,
    single: Seq<char>,
    n: int,
    m: int,
    counter: u32,
)
    requires
        0 <= n <= m,
        lint_lines_upto(elements, lines, single, n, counter) is None,
    ensures
        lint_lines_upto(elements, lines, single, m, counter) is None,
    decreases m - n,
{
    if n < m {
        lemma_lint_stops(elements, lines, single, n, m - 1, counter);
    }
}

/// What is wrong with the indentation of the elements, where a step of
/// indentation is `single_indent`: the elements after the fixes, and what
/// is reported. The white space that the fixes put in takes its ids from
/// `tables`. Nothing where the lines cannot be made out of the elements,
/// or where a line has no answer: no id is used up then.
pub fn lint_indent_points(
    elements: Vec<ReflowElement>,
    single_indent: &str,
    skip_indentation_in: HashSet<String>,
    allow_implicit_indents: bool,
    tables: &mut Tables,
) -> (r: Option<(Vec<ReflowElement>, Vec<LintResult>)>)
    ensures
        r is Some == spec_lint_indent_points(
            element_views(elements@),
            single_indent@,
            old(tables).counter,
        ) is Some,
        r matches Some(out) ==> {
            let o = spec_lint_indent_points(
                element_views(elements@),
                single_indent@,
                old(tables).counter,
            )->0;
            &&& element_views(out.0@) == o.elements
            &&& result_views(out.1@) == o.results
            &&& final(tables).counter == o.counter
        },
        r is None ==> final(tables).counter == old(tables).counter,
{
    let ghost es = element_views(elements@);
    let first_id = tables.counter;
    let (lines, imbalanced_indent_locs) = match map_line_buffers(
        &elements,
        allow_implicit_indents,
    ) {
        Some(found) => found,
        None => {
            return None;
        },
    };
    let ghost ls = line_views(lines@);
    let mut results: Vec<LintResult> = Vec::new();
    let mut elem_buffer = elements;
    let forced: Vec<usize> = Vec::new();
    let mut i: usize = 0;
    proof {
        assert(result_views(results@) =~= Seq::<LintResultV>::empty());
    }
    while i < lines.len()
        invariant
            i <= lines@.len(),
            forced@.len() == 0,
            es == element_views(elements@),
            ls == line_views(lines@),
            first_id == old(tables).counter,
            spec_map_line_buffers(es) == Some(ls),
            lint_lines_upto(es, ls, single_indent@, i as int, first_id) == Some(
                LintOutcome {
                    results: result_views(results@),
                    elements: element_views(elem_buffer@),
                    counter: tables.counter,
                },
            ),
        decreases lines.len() - i,
    {
        let ghost before = result_views(results@);
        assert(ls[i as int] == lines@[i as int]@);
        match lint_line_buffer_indents(
            &mut elem_buffer,
            lines[i].copy(),
            single_indent,
            forced.as_slice(),
            imbalanced_indent_locs.as_slice(),
            tables,
        ) {
            Some(mut line_results) => {
                let ghost added = result_views(line_results@);
                results.append(&mut line_results);
                proof {
                    assert(result_views(results@) =~= before + added);
                }
            },
            None => {
                proof {
                    assert(lint_lines_upto(es, ls, single_indent@, i + 1, first_id) is None);
                    lemma_lint_stops(es, ls, single_indent@, i + 1, ls.len() as int, first_id);
                }
                tables.counter = first_id;
                return None;
            },
        }
        i += 1;
    }
    Some((elem_buffer, results))
}

} // verus!
