//! The walk over blocks and the stretches between them that finds where
//! the indentation may change, and the lines that those places make.

use vstd::prelude::*;

use crate::reflow::{element_views, ElementV, ReflowElement};
use crate::reindent::{
    copy_numbers, has_untemplated_newline, holds_newline, line_views, point_views,
    pruned_indents, update_crawl_balances, IndentLine, IndentPoint, IndentPointV, IndentStats,
    LineV,
};
use crate::segment::{views, SegV};
use crate::syntax::SyntaxKind;

verus! {

/// Where the walk stands: the points found, the last stretch with a line
/// break, the balance of indents, the indents not taken, and the point
/// that waits for the stretch after a comment.
pub struct CrawlV {
    pub acc: Seq<IndentPointV>,
    pub last_break: Option<usize>,
    pub balance: int,
    pub untaken: Seq<usize>,
    pub cached: Option<IndentPointV>,
}

/// The walk before its first step.
pub open spec fn crawl_start() -> CrawlV {
    CrawlV { acc: Seq::empty(), last_break: None, balance: 0, untaken: Seq::empty(), cached: None }
}

/// Whether one of the segments is a comment.
pub open spec fn holds_comment(s: Seq<SegV>) -> bool {
    exists|i: int| 0 <= i < s.len() && (#[trigger] s[i]).kind.spec_is_comment()
}

/// The change and the trough of a stretch, taken together with the
/// point that waits, if one does.
pub open spec fn joined(cached: Option<IndentPointV>, e: ElementV) -> (int, int) {
    match cached {
        None => (e.impulse, e.trough),
        Some(c) => (
            c.impulse + e.impulse,
            if c.trough <= c.impulse + e.trough {
                c.trough
            } else {
                c.impulse + e.trough
            },
        ),
    }
}

/// Whether the numbers of a stretch can be taken into the balance.
pub open spec fn in_range(balance: int, impulse: int, trough: int) -> bool {
    balance + impulse + trough + 1 <= usize::MAX
}

/// One step of the walk, over the element at `idx`. A block changes
/// nothing. At a stretch:
/// - its numbers are joined to those of the point that waits, which must
///   be a line break, and which is then noted with the joined numbers,
///   after which the stretch itself counts for nothing;
/// - the stretch is a line break where it holds a new line;
/// - before a comment the stretch waits for the next one;
/// - otherwise it is noted where it is a line break, changes the
///   indentation, is the first element, or comes before the end of the
///   file; and the balance and the indents not taken move on.
/// There is no next state where the stretch has implicit indents, where a
/// point that is no line break waits, where nothing follows the stretch,
/// where an empty element follows a stretch that nothing else has noted,
/// or where a number is too large.
pub open spec fn crawl_step(elements: Seq<ElementV>, idx: int, st: CrawlV) -> Option<CrawlV> {
    let e = elements[idx];
    let (impulse, trough) = joined(st.cached, e);
    let flushed = st.cached is Some;
    let balance = if flushed {
        st.balance + impulse
    } else {
        st.balance
    };
    let untaken = if flushed {
        pruned_indents(Seq::empty(), st.balance, impulse, trough, Seq::empty(), true)
    } else {
        st.untaken
    };
    let acc = if flushed {
        st.acc.push(
            IndentPointV {
                idx: st.cached->0.idx,
                impulse,
                trough,
                balance: st.balance,
                last_break: st.cached->0.last_break,
                is_line_break: true,
                untaken: st.untaken,
            },
        )
    } else {
        st.acc
    };
    let own_impulse = if flushed {
        0
    } else {
        impulse
    };
    let own_trough = if flushed {
        0
    } else {
        trough
    };
    let has_newline = holds_newline(e.segments) && Some(idx as usize) != st.last_break;
    let point = IndentPointV {
        idx,
        impulse: own_impulse,
        trough: own_trough,
        balance,
        last_break: st.last_break,
        is_line_break: has_newline,
        untaken,
    };
    let last_break = if has_newline {
        Some(idx as usize)
    } else {
        st.last_break
    };
    let noted = has_newline || own_impulse != 0 || own_trough != 0 || idx == 0;
    if !e.point {
        Some(st)
    } else if impulse > usize::MAX || (flushed && st.cached->0.impulse + e.trough > usize::MAX)
        || e.implicit.len() > 0 {
        None
    } else if flushed && (!st.cached->0.is_line_break || !in_range(st.balance, impulse, trough)) {
        None
    } else if idx + 1 >= elements.len() {
        None
    } else if holds_comment(elements[idx + 1].segments) {
        Some(CrawlV { acc, last_break, balance, untaken, cached: Some(point) })
    } else if !noted && elements[idx + 1].segments.len() == 0 {
        None
    } else if !in_range(balance, own_impulse, own_trough) {
        None
    } else {
        Some(
            CrawlV {
                acc: if noted || elements[idx + 1].segments[0].kind == SyntaxKind::EndOfFile {
                    acc.push(point)
                } else {
                    acc
                },
                last_break,
                balance: balance + own_impulse,
                untaken: pruned_indents(
                    untaken,
                    balance,
                    own_impulse,
                    own_trough,
                    Seq::empty(),
                    has_newline,
                ),
                cached: None,
            },
        )
    }
}

/// The walk after the first `n` elements, if it got that far.
pub open spec fn crawl_upto(elements: Seq<ElementV>, n: int) -> Option<CrawlV>
    decreases n,
{
    if n <= 0 {
        Some(crawl_start())
    } else {
        match crawl_upto(elements, n - 1) {
            None => None,
            Some(st) => crawl_step(elements, n - 1, st),
        }
    }
}

/// The places where the indentation may change, if the walk gets to the
/// end of the elements.
pub open spec fn spec_crawl_indent_points(elements: Seq<ElementV>) -> Option<Seq<IndentPointV>> {
    match crawl_upto(elements, elements.len() as int) {
        None => None,
        Some(st) => Some(st.acc),
    }
}

/// A walk that has stopped does not go on.
pub proof fn lemma_crawl_stops(elements: Seq<ElementV>, n: int, m: int)
    requires
        0 <= n <= m,
        crawl_upto(elements, n) is None,
    ensures
        crawl_upto(elements, m) is None,
    decreases m - n,
{
    if n < m {
        lemma_crawl_stops(elements, n, m - 1);
    }
}

/// Whether one of the segments of the element is a comment.
fn has_comment(e: &ReflowElement) -> (r: bool)
    ensures
        r == holds_comment(e@.segments),
{
    let segments = e.segments();
    let mut i: usize = 0;
    while i < segments.len()
        invariant
            i <= segments@.len(),
            views(segments@) == e@.segments,
            forall|j: int| 0 <= j < i ==> !(#[trigger] e@.segments[j]).kind.spec_is_comment(),
        decreases segments.len() - i,
    {
        assert(e@.segments[i as int] == segments@[i as int]@);
        if segments[i].is_comment() {
            return true;
        }
        i += 1;
    }
    false
}

/// The places where the indentation may change in the elements, in
/// order. Nothing where the walk stops before the end.
pub fn crawl_indent_points(elements: &Vec<ReflowElement>, allow_implicit_indents: bool) -> (r:
    Option<Vec<IndentPoint>>)
    ensures
        r is Some == spec_crawl_indent_points(element_views(elements@)) is Some,
        r matches Some(points) ==> point_views(points@) == spec_crawl_indent_points(
            element_views(elements@),
        )->0,
{
    let ghost es = element_views(elements@);
    let mut acc: Vec<IndentPoint> = Vec::new();
    let mut last_line_break_idx: Option<usize> = None;
    let mut indent_balance: usize = 0;
    let mut untaken_indents: Vec<usize> = Vec::new();
    let mut cached_point: Option<IndentPoint> = None;
    let mut idx: usize = 0;
    proof {
        assert(point_views(acc@) =~= crawl_start().acc);
    }
    while idx < elements.len()
        invariant
            idx <= elements@.len(),
            es == element_views(elements@),
            crawl_upto(es, idx as int) == Some(
                CrawlV {
                    acc: point_views(acc@),
                    last_break: last_line_break_idx,
                    balance: indent_balance as int,
                    untaken: untaken_indents@,
                    cached: match cached_point {
                        Some(p) => Some(p@),
                        None => None,
                    },
                },
            ),
        decreases elements.len() - idx,
    {
        let ghost st = crawl_upto(es, idx as int)->0;
        let ghost next = crawl_step(es, idx as int, st);
        proof {
            assert(crawl_upto(es, idx + 1) == next);
            assert(es[idx as int] == elements@[idx as int]@);
            if next is None {
                lemma_crawl_stops(es, idx + 1, es.len() as int);
            }
        }
        if let ReflowElement::Point(elem) = &elements[idx] {
            let own = elem.indent_impulse();
            let cached_stats = match &cached_point {
                Some(c) => Some(
                    IndentStats {
                        impulse: c.indent_impulse,
                        trough: c.indent_trough,
                        implicit_indents: Vec::new(),
                    },
                ),
                None => None,
            };
            let mut indent_stats = match IndentStats::from_combination(cached_stats, own) {
                Some(stats) => stats,
                None => {
                    return None;
                },
            };
            if !indent_stats.implicit_indents.is_empty() {
                return None;
            }
            let ghost e = es[idx as int];
            let ghost (impulse, trough) = joined(st.cached, e);
            assert(e.point);
            assert(indent_stats.impulse == impulse && indent_stats.trough == trough);
            assert(indent_stats.implicit_indents@ =~= Seq::<usize>::empty());
            let ghost before_acc = point_views(acc@);
            if let Some(cached) = cached_point {
                if !cached.is_line_break {
                    return None;
                }
                if indent_balance > usize::MAX - 1 || indent_stats.impulse > usize::MAX - 1
                    - indent_balance || indent_stats.trough > usize::MAX - 1 - indent_balance
                    - indent_stats.impulse {
                    return None;
                }
                acc.push(
                    IndentPoint {
                        idx: cached.idx,
                        indent_impulse: indent_stats.impulse,
                        indent_trough: indent_stats.trough,
                        initial_indent_balance: indent_balance,
                        last_line_break_idx: cached.last_line_break_idx,
                        is_line_break: true,
                        untaken_indents,
                    },
                );
                proof {
                    assert(point_views(acc@) =~= before_acc.push(acc@[acc@.len() - 1]@));
                }
                let moved = update_crawl_balances(Vec::new(), indent_balance, &indent_stats, true);
                indent_balance = moved.0;
                untaken_indents = moved.1;
                indent_stats =
                IndentStats {
                    impulse: 0,
                    trough: 0,
                    implicit_indents: indent_stats.implicit_indents,
                };
            }
            cached_point = None;
            let has_newline = has_untemplated_newline(elem) && (match last_line_break_idx {
                Some(l) => l != idx,
                None => true,
            });
            let indent_point = IndentPoint {
                idx,
                indent_impulse: indent_stats.impulse,
                indent_trough: indent_stats.trough,
                initial_indent_balance: indent_balance,
                last_line_break_idx,
                is_line_break: has_newline,
                untaken_indents: copy_numbers(&untaken_indents),
            };
            if has_newline {
                last_line_break_idx = Some(idx);
            }
            if idx + 1 >= elements.len() {
                return None;
            }
            proof {
                assert(es[idx + 1] == elements@[idx + 1]@);
            }
            if has_comment(&elements[idx + 1]) {
                cached_point = Some(indent_point);
                assert(next is Some);
                assert(next->0.acc == point_views(acc@));
                assert(next->0.untaken == untaken_indents@);
                assert(next->0.balance == indent_balance);
                assert(next->0.last_break == last_line_break_idx);
                assert(next->0.cached == Some(cached_point->0@));
            } else {
                let noted = has_newline || indent_stats.impulse != 0 || indent_stats.trough != 0
                    || idx == 0;
                let following = elements[idx + 1].segments();
                assert(views(following@).len() == es[idx + 1].segments.len());
                if !noted && following.len() == 0 {
                    return None;
                }
                if indent_balance > usize::MAX - 1 || indent_stats.impulse > usize::MAX - 1
                    - indent_balance || indent_stats.trough > usize::MAX - 1 - indent_balance
                    - indent_stats.impulse {
                    return None;
                }
                assert(indent_stats.implicit_indents@ =~= Seq::<usize>::empty());
                let ghost mid_acc = point_views(acc@);
                proof {
                    if following@.len() > 0 {
                        assert(es[idx + 1].segments[0] == following@[0]@);
                    }
                }
                if noted || following[0].is_type(SyntaxKind::EndOfFile) {
                    acc.push(indent_point);
                    proof {
                        assert(point_views(acc@) =~= mid_acc.push(acc@[acc@.len() - 1]@));
                    }
                }
                let moved = update_crawl_balances(
                    untaken_indents,
                    indent_balance,
                    &indent_stats,
                    has_newline,
                );
                indent_balance = moved.0;
                untaken_indents = moved.1;
                assert(next is Some);
                assert(next->0.acc == point_views(acc@));
                assert(next->0.untaken == untaken_indents@);
                assert(next->0.balance == indent_balance);
                assert(next->0.last_break == last_line_break_idx);
                assert(next->0.cached is None);
            }
        } else {
            assert(next == Some(st));
        }
        idx += 1;
    }
    Some(acc)
}

/// The line that the points make: it starts at the balance after its
/// first point, or at nothing where it is the first line of all, which no
/// line break comes before.
pub open spec fn line_of(points: Seq<IndentPointV>) -> LineV {
    LineV {
        balance: if points.last().last_break is Some {
            points[0].balance + points[0].impulse
        } else {
            0
        },
        points,
    }
}

/// Whether the balance at which the line of the points starts is a number
/// of the machine.
pub open spec fn line_fits(points: Seq<IndentPointV>) -> bool {
    points.last().last_break is Some ==> points[0].balance + points[0].impulse <= usize::MAX
}

/// The lines that are complete, and the points of the line that is not.
pub struct LinesV {
    pub lines: Seq<LineV>,
    pub buffer: Seq<IndentPointV>,
}

/// The lines after the first `n` points: each point goes to the line that
/// is open; a line break closes that line and opens the next, of which it
/// is the first point.
pub open spec fn lines_upto(points: Seq<IndentPointV>, n: int) -> Option<LinesV>
    decreases n,
{
    if n <= 0 {
        Some(LinesV { lines: Seq::empty(), buffer: Seq::empty() })
    } else {
        match lines_upto(points, n - 1) {
            None => None,
            Some(st) => {
                let buffer = st.buffer.push(points[n - 1]);
                if !points[n - 1].is_line_break {
                    Some(LinesV { lines: st.lines, buffer })
                } else if !line_fits(buffer) {
                    None
                } else {
                    Some(LinesV { lines: st.lines.push(line_of(buffer)), buffer: seq![points[n - 1]] })
                }
            },
        }
    }
}

/// The lines that the points make: those that a line break closes, and
/// what is left where that is more than one point.
pub open spec fn spec_lines(points: Seq<IndentPointV>) -> Option<Seq<LineV>> {
    match lines_upto(points, points.len() as int) {
        None => None,
        Some(st) => if st.buffer.len() <= 1 {
            Some(st.lines)
        } else if line_fits(st.buffer) {
            Some(st.lines.push(line_of(st.buffer)))
        } else {
            None
        },
    }
}

/// The lines of the elements, if the walk over them gets to the end and
/// the numbers fit.
pub open spec fn spec_map_line_buffers(elements: Seq<ElementV>) -> Option<Seq<LineV>> {
    match spec_crawl_indent_points(elements) {
        None => None,
        Some(points) => spec_lines(points),
    }
}

/// Lines that have stopped do not go on.
pub proof fn lemma_lines_stop(points: Seq<IndentPointV>, n: int, m: int)
    requires
        0 <= n <= m,
        lines_upto(points, n) is None,
    ensures
        lines_upto(points, m) is None,
    decreases m - n,
{
    if n < m {
        lemma_lines_stop(points, n, m - 1);
    }
}

/// The line of the points, if its balance fits.
fn close_line(buffer: Vec<IndentPoint>) -> (r: Option<IndentLine>)
    requires
        buffer@.len() > 0,
    ensures
        r is Some == line_fits(point_views(buffer@)),
        r matches Some(line) ==> line@ == line_of(point_views(buffer@)),
{
    let n = buffer.len();
    assert(point_views(buffer@).last() == buffer@[n - 1]@);
    assert(point_views(buffer@)[0] == buffer@[0]@);
    if buffer[n - 1].last_line_break_idx.is_some() && buffer[0].initial_indent_balance
        > usize::MAX - buffer[0].indent_impulse {
        return None;
    }
    Some(IndentLine::from_points(buffer))
}

/// The lines of the elements, each as the places on it where the
/// indentation may change, and the places where the indentation does not
/// balance, of which none are found.
pub fn map_line_buffers(elements: &Vec<ReflowElement>, allow_implicit_indents: bool) -> (r: Option<
    (Vec<IndentLine>, Vec<usize>),
>)
    ensures
        r is Some == spec_map_line_buffers(element_views(elements@)) is Some,
        r matches Some(found) ==> line_views(found.0@) == spec_map_line_buffers(
            element_views(elements@),
        )->0 && found.1@.len() == 0,
{
    let points = match crawl_indent_points(elements, allow_implicit_indents) {
        Some(points) => points,
        None => {
            return None;
        },
    };
    let ghost ps = point_views(points@);
    let mut lines: Vec<IndentLine> = Vec::new();
    let mut point_buffer: Vec<IndentPoint> = Vec::new();
    let imbalanced_locs: Vec<usize> = Vec::new();
    let mut i: usize = 0;
    proof {
        assert(line_views(lines@) =~= Seq::<LineV>::empty());
        assert(point_views(point_buffer@) =~= Seq::<IndentPointV>::empty());
    }
    while i < points.len()
        invariant
            i <= points@.len(),
            ps == point_views(points@),
            spec_crawl_indent_points(element_views(elements@)) == Some(ps),
            lines_upto(ps, i as int) == Some(
                LinesV { lines: line_views(lines@), buffer: point_views(point_buffer@) },
            ),
        decreases points.len() - i,
    {
        let ghost before = point_views(point_buffer@);
        let ghost before_lines = line_views(lines@);
        proof {
            assert(ps[i as int] == points@[i as int]@);
        }
        point_buffer.push(points[i].copy());
        proof {
            assert(point_views(point_buffer@) =~= before.push(ps[i as int]));
        }
        if points[i].is_line_break {
            match close_line(point_buffer) {
                Some(line) => {
                    lines.push(line);
                    proof {
                        assert(line_views(lines@) =~= before_lines.push(
                            line_of(before.push(ps[i as int])),
                        ));
                    }
                },
                None => {
                    proof {
                        assert(!line_fits(before.push(ps[i as int])));
                        assert(lines_upto(ps, i + 1) is None);
                        lemma_lines_stop(ps, i + 1, ps.len() as int);
                    }
                    return None;
                },
            }
            point_buffer = Vec::new();
            point_buffer.push(points[i].copy());
            proof {
                assert(point_views(point_buffer@) =~= seq![ps[i as int]]);
            }
        }
        i += 1;
    }
    if point_buffer.len() > 1 {
        let ghost before_lines = line_views(lines@);
        let ghost buffer = point_views(point_buffer@);
        match close_line(point_buffer) {
            Some(line) => {
                lines.push(line);
                proof {
                    assert(line_views(lines@) =~= before_lines.push(line_of(buffer)));
                }
            },
            None => {
                return None;
            },
        }
    }
    Some((lines, imbalanced_locs))
}

} // verus!
