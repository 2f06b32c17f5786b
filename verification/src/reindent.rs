//! Indentation: where lines are to start, from the hints in the tree.

use vstd::prelude::*;
use vstd::string::StringExecFns;

use crate::reflow::ReflowPoint;
use crate::segment::{views, SegV};
use crate::seqs::{lemma_filter_empty, lemma_filter_step};
use crate::syntax::SyntaxKind;
use crate::text::{copy_str, str_eq};

verus! {

/// What a stretch between two blocks of code does to the indentation: by
/// how much it changes it in the end, how far below the start it goes on
/// the way, and which of the indents on the way are implicit.
#[derive(Debug)]
pub struct IndentStats {
    pub impulse: usize,
    pub trough: usize,
    pub implicit_indents: Vec<usize>,
}

/// The numbers one by one.
pub fn copy_numbers(v: &Vec<usize>) -> (r: Vec<usize>)
    ensures
        r@ == v@,
{
    let mut out: Vec<usize> = Vec::new();
    let mut i: usize = 0;
    while i < v.len()
        invariant
            i <= v@.len(),
            out@ == v@.subrange(0, i as int),
        decreases v.len() - i,
    {
        out.push(v[i]);
        assert(out@ =~= v@.subrange(0, i + 1));
        i += 1;
    }
    assert(v@.subrange(0, i as int) =~= v@);
    out
}

impl IndentStats {
    /// The same numbers again.
    pub fn copy(&self) -> (r: IndentStats)
        ensures
            r.impulse == self.impulse,
            r.trough == self.trough,
            r.implicit_indents@ == self.implicit_indents@,
    {
        IndentStats {
            impulse: self.impulse,
            trough: self.trough,
            implicit_indents: copy_numbers(&self.implicit_indents),
        }
    }

    /// What two stretches do to the indentation, one after the other: the
    /// change is the sum of theirs, the trough the lower of the first's and
    /// of the second's after the first's change, and the implicit indents
    /// are those of the second. With no first stretch, what the second does.
    /// Nothing where a number is too large.
    pub fn from_combination(first: Option<IndentStats>, second: IndentStats) -> (r: Option<
        IndentStats,
    >)
        ensures
            r == spec_combination(first, second),
    {
        match first {
            None => Some(second),
            Some(f) => {
                match (f.impulse.checked_add(second.impulse), f.impulse.checked_add(second.trough)) {
                    (Some(impulse), Some(low)) => Some(
                        IndentStats {
                            impulse,
                            trough: if f.trough <= low {
                                f.trough
                            } else {
                                low
                            },
                            implicit_indents: second.implicit_indents,
                        },
                    ),
                    _ => None,
                }
            },
        }
    }
}

/// What two stretches do to the indentation, one after the other.
pub open spec fn spec_combination(first: Option<IndentStats>, second: IndentStats) -> Option<
    IndentStats,
> {
    match first {
        None => Some(second),
        Some(f) => if f.impulse + second.impulse <= usize::MAX && f.impulse + second.trough
            <= usize::MAX {
            Some(
                IndentStats {
                    impulse: (f.impulse + second.impulse) as usize,
                    trough: if f.trough <= f.impulse + second.trough {
                        f.trough
                    } else {
                        (f.impulse + second.trough) as usize
                    },
                    implicit_indents: second.implicit_indents,
                },
            )
        } else {
            None
        },
    }
}

/// Whether the segment is a new line of the source as it is written: a
/// new line without a place in the source yet, or with a literal one.
pub open spec fn untemplated_newline(seg: SegV) -> bool {
    seg.kind == SyntaxKind::Newline && (seg.marker matches Some(m) ==> m.spec_is_literal())
}

/// Whether one of the segments is a new line of the source as it is
/// written.
pub open spec fn holds_newline(s: Seq<SegV>) -> bool {
    exists|i: int| 0 <= i < s.len() && untemplated_newline(#[trigger] s[i])
}

/// Whether the stretch holds a new line of the source as it is written.
pub fn has_untemplated_newline(point: &ReflowPoint) -> (r: bool)
    ensures
        r == holds_newline(point@.segments),
{
    let ghost s = views(point.segments@);
    let mut i: usize = 0;
    while i < point.segments.len()
        invariant
            i <= point.segments@.len(),
            s == views(point.segments@),
            forall|j: int| 0 <= j < i ==> !untemplated_newline(#[trigger] s[j]),
        decreases point.segments.len() - i,
    {
        let seg = &point.segments[i];
        assert(s[i as int] == seg@);
        if seg.is_type(SyntaxKind::Newline) {
            let literal = match seg.get_position_marker() {
                Some(m) => m.is_literal(),
                None => true,
            };
            if literal {
                return true;
            }
        }
        i += 1;
    }
    false
}

/// A place where the indentation may change.
#[derive(Debug)]
pub struct IndentPoint {
    pub idx: usize,
    pub indent_impulse: usize,
    pub indent_trough: usize,
    pub initial_indent_balance: usize,
    pub last_line_break_idx: Option<usize>,
    pub is_line_break: bool,
    pub untaken_indents: Vec<usize>,
}

/// What an indent point holds.
pub struct IndentPointV {
    pub idx: int,
    pub impulse: int,
    pub trough: int,
    pub balance: int,
    pub last_break: Option<usize>,
    pub is_line_break: bool,
    pub untaken: Seq<usize>,
}

impl View for IndentPoint {
    type V = IndentPointV;

    open spec fn view(&self) -> IndentPointV {
        IndentPointV {
            idx: self.idx as int,
            impulse: self.indent_impulse as int,
            trough: self.indent_trough as int,
            balance: self.initial_indent_balance as int,
            last_break: self.last_line_break_idx,
            is_line_break: self.is_line_break,
            untaken: self.untaken_indents@,
        }
    }
}

/// The views of the points.
pub open spec fn point_views(s: Seq<IndentPoint>) -> Seq<IndentPointV> {
    Seq::new(s.len(), |i: int| s[i]@)
}

impl IndentPoint {
    /// The same point again.
    pub fn copy(&self) -> (r: IndentPoint)
        ensures
            r@ == self@,
    {
        IndentPoint {
            idx: self.idx,
            indent_impulse: self.indent_impulse,
            indent_trough: self.indent_trough,
            initial_indent_balance: self.initial_indent_balance,
            last_line_break_idx: self.last_line_break_idx,
            is_line_break: self.is_line_break,
            untaken_indents: copy_numbers(&self.untaken_indents),
        }
    }

    /// The balance of indents after the point.
    pub fn closing_indent_balance(&self) -> (r: usize)
        requires
            self.initial_indent_balance + self.indent_impulse <= usize::MAX,
        ensures
            r == self.initial_indent_balance + self.indent_impulse,
    {
        self.initial_indent_balance + self.indent_impulse
    }
}

/// A line, as the places on it where the indentation may change.
#[derive(Debug)]
pub struct IndentLine {
    pub initial_indent_balance: usize,
    pub indent_points: Vec<IndentPoint>,
}

/// The balance of indents at which a line of these points starts: that
/// after its first point, or nothing for the first line of all, which no
/// line break comes before.
pub open spec fn starting_balance(points: Seq<IndentPoint>) -> int {
    if points.last().last_line_break_idx is Some {
        points[0].initial_indent_balance + points[0].indent_impulse
    } else {
        0
    }
}

/// What a line holds.
pub struct LineV {
    pub balance: int,
    pub points: Seq<IndentPointV>,
}

impl View for IndentLine {
    type V = LineV;

    open spec fn view(&self) -> LineV {
        LineV {
            balance: self.initial_indent_balance as int,
            points: point_views(self.indent_points@),
        }
    }
}

/// The views of the lines.
pub open spec fn line_views(s: Seq<IndentLine>) -> Seq<LineV> {
    Seq::new(s.len(), |i: int| s[i]@)
}

/// How many of the indents not taken at its first point count for the
/// line: where that point has a trough, those not above the balance of the
/// line less what the point adds above its trough; else all of them.
/// Nothing where there are such indents and the subtraction cannot be
/// made.
pub open spec fn relevant_untaken(line: LineV) -> Option<int> {
    let first = line.points[0];
    if first.trough == 0 {
        Some(first.untaken.len() as int)
    } else if first.untaken.len() > 0 && (first.impulse < first.trough || line.balance
        < first.impulse - first.trough) {
        None
    } else {
        Some(
            first.untaken.filter(
                |i: usize| i <= line.balance - (first.impulse - first.trough),
            ).len() as int,
        )
    }
}

/// By how many steps the line is to be indented: its balance, less the
/// indents not taken that count for it, and the forced indents. Nothing
/// for a line without points, or where a number does not fit.
pub open spec fn spec_desired_indent_units(line: LineV, forced: int) -> Option<int> {
    if line.points.len() == 0 {
        None
    } else {
        match relevant_untaken(line) {
            None => None,
            Some(r) => if r <= line.balance && line.balance - r + forced <= usize::MAX {
                Some(line.balance - r + forced)
            } else {
                None
            },
        }
    }
}

impl IndentLine {
    /// The same line again.
    pub fn copy(&self) -> (r: IndentLine)
        ensures
            r@ == self@,
    {
        let mut points: Vec<IndentPoint> = Vec::new();
        let mut i: usize = 0;
        while i < self.indent_points.len()
            invariant
                i <= self.indent_points@.len(),
                points@.len() == i,
                forall|k: int| 0 <= k < i ==> (#[trigger] points@[k])@ == self.indent_points@[k]@,
            decreases self.indent_points.len() - i,
        {
            points.push(self.indent_points[i].copy());
            i += 1;
        }
        assert(point_views(points@) =~= point_views(self.indent_points@));
        IndentLine { initial_indent_balance: self.initial_indent_balance, indent_points: points }
    }

    /// By how many steps the line is to be indented.
    pub fn desired_indent_units(&self, forced_indents: &[usize]) -> (r: Option<usize>)
        ensures
            r is Some == spec_desired_indent_units(self@, forced_indents@.len() as int) is Some,
            r matches Some(n) ==> n == spec_desired_indent_units(
                self@,
                forced_indents@.len() as int,
            )->0,
    {
        if self.indent_points.len() == 0 {
            return None;
        }
        let first = &self.indent_points[0];
        assert(self@.points[0] == first@);
        let untaken = &first.untaken_indents;
        let relevant: usize = if first.indent_trough != 0 {
            if untaken.len() == 0 {
                proof {
                    lemma_filter_empty(
                        |i: usize|
                            i <= self@.balance - (self@.points[0].impulse - self@.points[0].trough),
                    );
                    assert(untaken@ =~= Seq::<usize>::empty());
                }
                0
            } else {
                if first.indent_impulse < first.indent_trough || self.initial_indent_balance
                    < first.indent_impulse - first.indent_trough {
                    return None;
                }
                let limit = self.initial_indent_balance - (first.indent_impulse
                    - first.indent_trough);
                let ghost p = |i: usize|
                    i <= self@.balance - (self@.points[0].impulse - self@.points[0].trough);
                let mut count: usize = 0;
                let mut k: usize = 0;
                proof {
                    lemma_filter_step(untaken@, 0, p);
                }
                while k < untaken.len()
                    invariant
                        k <= untaken@.len(),
                        count <= k,
                        limit == self@.balance - (self@.points[0].impulse - self@.points[0].trough),
                        p == |i: usize|
                            i <= self@.balance - (self@.points[0].impulse
                                - self@.points[0].trough),
                        count == untaken@.subrange(0, k as int).filter(p).len(),
                    decreases untaken.len() - k,
                {
                    proof {
                        lemma_filter_step(untaken@, k as int, p);
                    }
                    if untaken[k] <= limit {
                        count += 1;
                    }
                    k += 1;
                }
                assert(untaken@.subrange(0, k as int) =~= untaken@);
                count
            }
        } else {
            untaken.len()
        };
        assert(relevant_untaken(self@) == Some(relevant as int));
        if relevant > self.initial_indent_balance {
            return None;
        }
        (self.initial_indent_balance - relevant).checked_add(forced_indents.len())
    }

    /// The line of the points, of which there is one at least.
    pub fn from_points(indent_points: Vec<IndentPoint>) -> (r: IndentLine)
        requires
            indent_points@.len() > 0,
            indent_points@.last().last_line_break_idx is Some ==> indent_points@[0].initial_indent_balance
                + indent_points@[0].indent_impulse <= usize::MAX,
        ensures
            r.indent_points == indent_points,
            r.initial_indent_balance == starting_balance(indent_points@),
    {
        let n = indent_points.len();
        let starting_balance = if indent_points[n - 1].last_line_break_idx.is_some() {
            indent_points[0].closing_indent_balance()
        } else {
            0
        };
        IndentLine { initial_indent_balance: starting_balance, indent_points }
    }

    /// The balance of indents after the last point of the line.
    pub fn closing_balance(&self) -> (r: usize)
        requires
            self.indent_points@.len() > 0,
            self.indent_points@.last().initial_indent_balance
                + self.indent_points@.last().indent_impulse <= usize::MAX,
        ensures
            r == self.indent_points@.last().initial_indent_balance
                + self.indent_points@.last().indent_impulse,
    {
        let n = self.indent_points.len();
        self.indent_points[n - 1].closing_indent_balance()
    }

    /// The balance of indents at which the line starts.
    pub fn opening_balance(&self) -> (r: usize)
        requires
            self.indent_points@.len() > 0,
            self.indent_points@[0].initial_indent_balance + self.indent_points@[0].indent_impulse
                <= usize::MAX,
        ensures
            r == starting_balance(self.indent_points@),
    {
        let n = self.indent_points.len();
        if self.indent_points[n - 1].last_line_break_idx.is_none() {
            return 0;
        }
        self.indent_points[0].closing_indent_balance()
    }
}

/// The text of one step of indentation: a tab, or as many blanks as a tab
/// is wide.
pub fn construct_single_indent(indent_unit: &str, tab_space_size: usize) -> (r: String)
    requires
        indent_unit@ == "tab"@ || indent_unit@ == "space"@,
    ensures
        indent_unit@ == "tab"@ ==> r@ == "\t"@,
        indent_unit@ == "space"@ ==> r@ == Seq::new(tab_space_size as nat, |i: int| ' '),
{
    proof {
        reveal_strlit("tab");
        reveal_strlit("space");
        reveal_strlit(" ");
        assert("tab"@.len() == 3);
        assert("space"@.len() == 5);
    }
    if str_eq(indent_unit, "tab") {
        copy_str("\t")
    } else {
        let mut out = String::new();
        let mut i: usize = 0;
        assert(out@ =~= Seq::new(0nat, |i: int| ' '));
        while i < tab_space_size
            invariant
                i <= tab_space_size,
                out@ == Seq::new(i as nat, |k: int| ' '),
            decreases tab_space_size - i,
        {
            out.append(" ");
            i += 1;
            proof {
                reveal_strlit(" ");
                assert(" "@ =~= seq![' ']);
                assert(out@ =~= Seq::new(i as nat, |k: int| ' '));
            }
        }
        assert(out@ =~= Seq::new(tab_space_size as nat, |i: int| ' '));
        out
    }
}

/// The balance up to which untaken indents are kept.
pub open spec fn balance_threshold(incoming_balance: int, impulse: int, trough: int) -> int {
    if trough < impulse {
        incoming_balance + impulse + trough
    } else {
        incoming_balance + impulse
    }
}

/// The indents that a stretch adds to those not taken: one for each step
/// up to its impulse that is not implicit, from step `from` on.
pub open spec fn added_indents(
    incoming_balance: int,
    impulse: int,
    implicit: Seq<usize>,
    from: int,
) -> Seq<usize>
    decreases impulse - from,
{
    if from >= impulse {
        Seq::empty()
    } else if implicit.contains((from + 1) as usize) {
        added_indents(incoming_balance, impulse, implicit, from + 1)
    } else {
        seq![(incoming_balance + from + 1) as usize] + added_indents(
            incoming_balance,
            impulse,
            implicit,
            from + 1,
        )
    }
}

/// The indents not taken after a stretch: those from before that are not
/// above the threshold, and, unless the stretch holds a new line, those
/// that the stretch adds from its trough to its impulse.
pub open spec fn pruned_indents(
    untaken_indents: Seq<usize>,
    incoming_balance: int,
    impulse: int,
    trough: int,
    implicit: Seq<usize>,
    has_newline: bool,
) -> Seq<usize> {
    let kept = untaken_indents.filter(
        |x: usize| x <= balance_threshold(incoming_balance, impulse, trough),
    );
    if impulse > trough && !has_newline {
        kept + added_indents(incoming_balance, impulse, implicit, trough)
    } else {
        kept
    }
}

/// The indents not taken after a stretch that does to the indentation
/// what `stats` says.
pub open spec fn spec_prune_untaken_indents(
    untaken_indents: Seq<usize>,
    incoming_balance: int,
    stats: IndentStats,
    has_newline: bool,
) -> Seq<usize> {
    pruned_indents(
        untaken_indents,
        incoming_balance,
        stats.impulse as int,
        stats.trough as int,
        stats.implicit_indents@,
        has_newline,
    )
}

pub fn prune_untaken_indents(
    untaken_indents: Vec<usize>,
    incoming_balance: usize,
    indent_stats: &IndentStats,
    has_newline: bool,
) -> (r: Vec<usize>)
    requires
        incoming_balance + indent_stats.impulse + indent_stats.trough + 1 <= usize::MAX,
    ensures
        r@ == spec_prune_untaken_indents(
            untaken_indents@,
            incoming_balance as int,
            *indent_stats,
            has_newline,
        ),
{
    let new_balance_threshold = if indent_stats.trough < indent_stats.impulse {
        incoming_balance + indent_stats.impulse + indent_stats.trough
    } else {
        incoming_balance + indent_stats.impulse
    };
    let ghost p = |x: usize|
        x <= balance_threshold(
            incoming_balance as int,
            indent_stats.impulse as int,
            indent_stats.trough as int,
        );
    let mut pruned: Vec<usize> = Vec::new();
    let mut i: usize = 0;
    proof {
        lemma_filter_empty(p);
        assert(untaken_indents@.subrange(0, 0) =~= Seq::<usize>::empty());
    }
    while i < untaken_indents.len()
        invariant
            i <= untaken_indents@.len(),
            p == (|x: usize|
                x <= balance_threshold(
                    incoming_balance as int,
                    indent_stats.impulse as int,
                    indent_stats.trough as int,
                )),
            new_balance_threshold == balance_threshold(
                incoming_balance as int,
                indent_stats.impulse as int,
                indent_stats.trough as int,
            ),
            pruned@ == untaken_indents@.subrange(0, i as int).filter(p),
        decreases untaken_indents.len() - i,
    {
        proof {
            lemma_filter_step(untaken_indents@, i as int, p);
        }
        if untaken_indents[i] <= new_balance_threshold {
            pruned.push(untaken_indents[i]);
        }
        i += 1;
    }
    assert(untaken_indents@.subrange(0, i as int) =~= untaken_indents@);
    if indent_stats.impulse > indent_stats.trough && !has_newline {
        let ghost kept = pruned@;
        let mut k: usize = indent_stats.trough;
        assert(kept + Seq::<usize>::empty() =~= kept);
        while k < indent_stats.impulse
            invariant
                indent_stats.trough <= k <= indent_stats.impulse,
                incoming_balance + indent_stats.impulse + indent_stats.trough + 1 <= usize::MAX,
                pruned@ + added_indents(incoming_balance as int, indent_stats.impulse as int, indent_stats.implicit_indents@, k as int) == kept
                    + added_indents(incoming_balance as int, indent_stats.impulse as int, indent_stats.implicit_indents@, indent_stats.trough as int,
                ),
            decreases indent_stats.impulse - k,
        {
            let indent_val = incoming_balance + k + 1;
            let ghost before = pruned@;
            let mut implicit = false;
            let mut j: usize = 0;
            while j < indent_stats.implicit_indents.len()
                invariant
                    j <= indent_stats.implicit_indents@.len(),
                    k < indent_stats.impulse,
                    indent_val == incoming_balance + k + 1,
                    incoming_balance + indent_stats.impulse + indent_stats.trough + 1
                        <= usize::MAX,
                    implicit == indent_stats.implicit_indents@.subrange(0, j as int).contains(
                        (k + 1) as usize,
                    ),
                decreases indent_stats.implicit_indents.len() - j,
            {
                let ghost pre = indent_stats.implicit_indents@.subrange(0, j as int);
                if indent_stats.implicit_indents[j] == indent_val - incoming_balance {
                    implicit = true;
                }
                proof {
                    let cur = indent_stats.implicit_indents@.subrange(0, j + 1);
                    assert(cur =~= pre.push(indent_stats.implicit_indents@[j as int]));
                    if pre.contains((k + 1) as usize) {
                        let w = choose|w: int| 0 <= w < pre.len() && pre[w] == (k + 1) as usize;
                        assert(cur[w] == (k + 1) as usize);
                    }
                    if indent_stats.implicit_indents@[j as int] == (k + 1) as usize {
                        assert(cur[j as int] == (k + 1) as usize);
                    }
                }
                j += 1;
            }
            assert(indent_stats.implicit_indents@.subrange(0, j as int)
                =~= indent_stats.implicit_indents@);
            if !implicit {
                pruned.push(indent_val);
                proof {
                    assert(before.push(indent_val) + added_indents(incoming_balance as int, indent_stats.impulse as int, indent_stats.implicit_indents@, k + 1,
                    ) =~= before + (seq![indent_val] + added_indents(incoming_balance as int, indent_stats.impulse as int, indent_stats.implicit_indents@, k + 1,
                    )));
                }
            }
            k += 1;
        }
        assert(pruned@ + Seq::<usize>::empty() =~= pruned@);
    }
    pruned
}

/// The balance of indents and the indents not taken after a stretch.
pub fn update_crawl_balances(
    untaken_indents: Vec<usize>,
    incoming_balance: usize,
    indent_stats: &IndentStats,
    has_newline: bool,
) -> (r: (usize, Vec<usize>))
    requires
        incoming_balance + indent_stats.impulse + indent_stats.trough + 1 <= usize::MAX,
    ensures
        r.0 == incoming_balance + indent_stats.impulse,
        r.1@ == spec_prune_untaken_indents(
            untaken_indents@,
            incoming_balance as int,
            *indent_stats,
            has_newline,
        ),
{
    let new_untaken_indents = prune_untaken_indents(
        untaken_indents,
        incoming_balance,
        indent_stats,
        has_newline,
    );
    let new_balance = incoming_balance + indent_stats.impulse;
    (new_balance, new_untaken_indents)
}

} // verus!
