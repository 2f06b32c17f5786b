//! The rules that work on the tree alone, and how a rule is run over a tree.

use std::ops::Range;
use vstd::prelude::*;

use crate::crawl::first_of_kind;
use crate::crawlers::{
    BaseCrawler, ContextV, Crawler, CrawlerV, RootOnlyCrawler, RuleContext,
    SegmentSeekerCrawler,
};
use crate::errors::{RuleInfo, SQLLintError};
use crate::fix::{fix_views, EditType, LintFix, LintFixV};
use crate::helpers::{ascii_lower, lower_ascii};
use crate::rules::{
    result_views, LintPhase, LintResult, LintResultV, RuleGroups, RuleLT03, RuleLT13, RuleST01,
};
use crate::segment::{views, ErasedSegment, SegV, Tables};
use crate::syntax::{DialectKind, SyntaxKind, SyntaxSet};
use crate::templater::TemplatedFile;
use crate::text::str_eq;

verus! {

/// What every rule does.
pub trait Rule {
    /// What the rule reports of a context, where the segments that it
    /// makes take their ids from `counter` on.
    spec fn spec_eval(&self, context: ContextV, counter: u32) -> Seq<LintResultV>;

    /// The id that is handed out next after the rule has looked at the
    /// context.
    spec fn spec_counter(&self, context: ContextV, counter: u32) -> u32;

    /// The name of the rule.
    spec fn spec_name(&self) -> Seq<char>;

    /// What the rule asks for, in a sentence.
    spec fn spec_description(&self) -> Seq<char>;

    /// The code of the rule.
    spec fn spec_code(&self) -> Seq<char>;

    /// The groups that the rule is in.
    spec fn spec_groups(&self) -> Seq<RuleGroups>;

    /// The phase in which the rule is run.
    spec fn spec_lint_phase(&self) -> LintPhase;

    /// Whether the rule has fixes for what it reports.
    spec fn spec_is_fix_compatible(&self) -> bool;

    /// The crawler that picks the contexts of the rule.
    spec fn spec_crawl_behaviour(&self) -> CrawlerV;

    /// The dialects for which the rule is left out.
    spec fn spec_dialect_skip(&self) -> Seq<DialectKind>;

    /// Whether the rule is run for a dialect that it skips.
    spec fn spec_force_enable(&self) -> bool;

    fn dialect_skip(&self) -> (r: Vec<DialectKind>)
        ensures
            r@ == self.spec_dialect_skip(),
    ;

    fn force_enable(&self) -> (r: bool)
        ensures
            r == self.spec_force_enable(),
    ;

    fn name(&self) -> (r: &'static str)
        ensures
            r@ == self.spec_name(),
    ;

    fn description(&self) -> (r: &'static str)
        ensures
            r@ == self.spec_description(),
    ;

    fn code(&self) -> (r: &'static str)
        ensures
            r@ == self.spec_code(),
    ;

    fn groups(&self) -> (r: Vec<RuleGroups>)
        ensures
            r@ == self.spec_groups(),
    ;

    fn lint_phase(&self) -> (r: LintPhase)
        ensures
            r == self.spec_lint_phase(),
    ;

    fn is_fix_compatible(&self) -> (r: bool)
        ensures
            r == self.spec_is_fix_compatible(),
    ;

    fn crawl_behaviour(&self) -> (r: Crawler)
        ensures
            r@ == self.spec_crawl_behaviour(),
    ;

    /// What the rule reports of the context. The segments that it makes
    /// for its fixes take their ids from `tables`, so that none of them has
    /// the id of a segment of the tree.
    fn eval(&self, context: &RuleContext, tables: &mut Tables) -> (r: Vec<LintResult>)
        ensures
            result_views(r@) == self.spec_eval(context@, old(tables).counter),
            final(tables).counter == self.spec_counter(context@, old(tables).counter),
    ;
}

/// The fix that takes the segment out of the tree.
pub open spec fn delete_fix(v: SegV) -> LintFixV {
    LintFixV { edit_type: EditType::Delete, anchor: v, edit: None, source: Seq::empty() }
}

/// A kind of what lays the text out: white space, a new line, or a marker
/// of indentation.
pub open spec fn is_layout_kind(k: SyntaxKind) -> bool {
    k == SyntaxKind::Newline || k == SyntaxKind::Whitespace || k == SyntaxKind::Indent || k
        == SyntaxKind::Dedent
}

/// The index of the first of the segments from `from` on that is not of a
/// layout kind, or the number of segments.
pub open spec fn layout_run(s: Seq<SegV>, from: int) -> int
    decreases s.len() - from,
{
    if from < 0 || from >= s.len() {
        s.len() as int
    } else if !is_layout_kind(s[from].kind) {
        from
    } else {
        layout_run(s, from + 1)
    }
}

/// Whether one of the first `n` segments is not a marker without text.
pub open spec fn any_text(s: Seq<SegV>, n: int) -> bool {
    exists|i: int| 0 <= i < n && i < s.len() && !(#[trigger] s[i]).kind.spec_is_meta()
}

/// What the rule on the start of a file reports of the root of a tree:
/// where layout with text in it comes before the first leaf that is no
/// layout, one result, with a fix that deletes each leaf of that layout.
pub open spec fn start_of_file_results(v: SegV) -> Seq<LintResultV> {
    let leaves = v.leaves();
    let k = layout_run(leaves, 0);
    if k < leaves.len() && any_text(leaves, k) {
        seq![
            LintResultV {
                anchor: Some(v),
                fixes: Seq::new(k as nat, |i: int| delete_fix(leaves[i])),
                description: None,
                source: Seq::empty(),
            },
        ]
    } else {
        Seq::empty()
    }
}

impl Rule for RuleLT13 {
    open spec fn spec_counter(&self, context: ContextV, counter: u32) -> u32 {
        counter
    }

    open spec fn spec_eval(&self, context: ContextV, counter: u32) -> Seq<LintResultV> {
        start_of_file_results(context.segment)
    }

    open spec fn spec_dialect_skip(&self) -> Seq<DialectKind> {
        Seq::empty()
    }

    open spec fn spec_force_enable(&self) -> bool {
        false
    }

    fn dialect_skip(&self) -> (r: Vec<DialectKind>) {
        Vec::new()
    }

    fn force_enable(&self) -> (r: bool) {
        false
    }

    open spec fn spec_name(&self) -> Seq<char> {
        "layout.start_of_file"@
    }

    open spec fn spec_description(&self) -> Seq<char> {
        "Files must not begin with newlines or whitespace."@
    }

    open spec fn spec_code(&self) -> Seq<char> {
        "LT13"@
    }

    open spec fn spec_groups(&self) -> Seq<RuleGroups> {
        seq![RuleGroups::All, RuleGroups::Layout]
    }

    open spec fn spec_lint_phase(&self) -> LintPhase {
        LintPhase::Post
    }

    open spec fn spec_is_fix_compatible(&self) -> bool {
        true
    }

    open spec fn spec_crawl_behaviour(&self) -> CrawlerV {
        CrawlerV::RootOnly
    }

    fn name(&self) -> &'static str {
        "layout.start_of_file"
    }

    fn description(&self) -> &'static str {
        "Files must not begin with newlines or whitespace."
    }

    fn code(&self) -> &'static str {
        "LT13"
    }

    fn groups(&self) -> Vec<RuleGroups> {
        let mut g: Vec<RuleGroups> = Vec::new();
        g.push(RuleGroups::All);
        g.push(RuleGroups::Layout);
        assert(g@ =~= seq![RuleGroups::All, RuleGroups::Layout]);
        g
    }

    fn lint_phase(&self) -> LintPhase {
        LintPhase::Post
    }

    fn is_fix_compatible(&self) -> bool {
        true
    }

    fn crawl_behaviour(&self) -> Crawler {
        Crawler::RootOnlyCrawler(RootOnlyCrawler)
    }

    fn eval(&self, context: &RuleContext, tables: &mut Tables) -> (r: Vec<LintResult>) {
        let leaves = context.segment.get_raw_segments();
        let ghost ls = views(leaves@);
        let mut fixes: Vec<LintFix> = Vec::new();
        let mut text = false;
        let mut i: usize = 0;
        let mut out: Vec<LintResult> = Vec::new();
        while i < leaves.len()
            invariant
                i <= leaves@.len(),
                ls == views(leaves@),
                ls == context.segment@.leaves(),
                out@.len() == 0,
                layout_run(ls, 0) == layout_run(ls, i as int),
                text == any_text(ls, i as int),
                fixes@.len() == i,
                forall|k: int| 0 <= k < i ==> (#[trigger] fixes@[k])@ == delete_fix(ls[k]),
            decreases leaves.len() - i,
        {
            let seg = &leaves[i];
            assert(ls[i as int] == seg@);
            let kind = seg.get_type();
            if kind == SyntaxKind::Newline || kind == SyntaxKind::Whitespace || kind
                == SyntaxKind::Indent || kind == SyntaxKind::Dedent {
                proof {
                    if any_text(ls, i + 1) && !any_text(ls, i as int) {
                        let w = choose|w: int|
                            0 <= w < i + 1 && w < ls.len() && !(#[trigger] ls[w]).kind.spec_is_meta();
                        assert(w == i);
                    }
                    if any_text(ls, i as int) {
                        let w = choose|w: int|
                            0 <= w < i && w < ls.len() && !(#[trigger] ls[w]).kind.spec_is_meta();
                        assert(!ls[w].kind.spec_is_meta());
                    }
                    if !seg@.kind.spec_is_meta() {
                        assert(!ls[i as int].kind.spec_is_meta());
                    }
                }
                if !seg.is_meta() {
                    text = true;
                }
                fixes.push(LintFix::delete(seg.copy()));
                i += 1;
                continue;
            }
            assert(layout_run(ls, 0) == i);
            if text {
                assert(fix_views(fixes@) =~= Seq::new(i as nat, |k: int| delete_fix(ls[k])));
                let result = LintResult::new(Some(context.segment.copy()), fixes, None, None, None);
                let ghost rv = result@;
                out.push(result);
                proof {
                    assert(rv.fixes == Seq::new(i as nat, |k: int| delete_fix(ls[k])));
                    assert(rv.source =~= Seq::<char>::empty());
                    assert(result_views(out@)[0] == rv);
                    assert(start_of_file_results(context.segment@).len() == 1);
                    assert(start_of_file_results(context.segment@)[0].fixes =~= rv.fixes);
                    assert(start_of_file_results(context.segment@)[0] == rv);
                }
                assert(result_views(out@) =~= start_of_file_results(context.segment@));
                return out;
            } else {
                assert(result_views(out@) =~= Seq::<LintResultV>::empty());
                return out;
            }
        }
        assert(result_views(out@) =~= Seq::<LintResultV>::empty());
        out
    }
}

/// Whether one of the segments below `v` reads `null`, in whatever case.
pub open spec fn has_null_child(v: SegV) -> bool {
    exists|i: int|
        0 <= i < v.children().len() && (#[trigger] v.children()[i]).raw().map_values(
            |c: char| lower_ascii(c),
        ) == "null"@
}

/// A kind of what may stand between two clauses without meaning anything.
pub open spec fn is_filler(v: SegV) -> bool {
    v.kind == SyntaxKind::Whitespace || v.kind == SyntaxKind::Newline || v.kind.spec_is_meta()
}

/// Where the run of filler that ends before segment `e` starts.
pub open spec fn filler_start(s: Seq<SegV>, e: int) -> int
    decreases e,
{
    if e <= 0 || e > s.len() || !is_filler(s[e - 1]) {
        e
    } else {
        filler_start(s, e - 1)
    }
}

/// What the rule on `else null` reports of a case expression: where its
/// first else clause holds a `null`, one result, with a fix that deletes the
/// clause and one for each segment of the filler before it, from the clause
/// backwards.
pub open spec fn else_null_results(v: SegV) -> Seq<LintResultV> {
    let children = v.children();
    let e = first_of_kind(children, set![SyntaxKind::ElseClause], 0);
    if e < children.len() && has_null_child(children[e]) {
        let s = filler_start(children, e);
        seq![
            LintResultV {
                anchor: Some(v),
                fixes: seq![delete_fix(children[e])] + Seq::new(
                    (e - s) as nat,
                    |i: int| delete_fix(children[e - 1 - i]),
                ),
                description: None,
                source: Seq::empty(),
            },
        ]
    } else {
        Seq::empty()
    }
}

/// Whether one of the segments below the segment reads `null`.
fn holds_null(seg: &ErasedSegment) -> (r: bool)
    ensures
        r == has_null_child(seg@),
{
    let kids = seg.segments();
    let mut i: usize = 0;
    while i < kids.len()
        invariant
            i <= kids@.len(),
            views(kids@) == seg@.children(),
            forall|k: int|
                0 <= k < i ==> (#[trigger] seg@.children()[k]).raw().map_values(
                    |c: char| lower_ascii(c),
                ) != "null"@,
        decreases kids.len() - i,
    {
        assert(seg@.children()[i as int] == kids@[i as int]@);
        let raw = kids[i].raw();
        let low = ascii_lower(raw.as_str());
        if str_eq(low.as_str(), "null") {
            return true;
        }
        i += 1;
    }
    false
}

impl Rule for RuleST01 {
    open spec fn spec_counter(&self, context: ContextV, counter: u32) -> u32 {
        counter
    }

    open spec fn spec_eval(&self, context: ContextV, counter: u32) -> Seq<LintResultV> {
        else_null_results(context.segment)
    }

    open spec fn spec_dialect_skip(&self) -> Seq<DialectKind> {
        Seq::empty()
    }

    open spec fn spec_force_enable(&self) -> bool {
        false
    }

    fn dialect_skip(&self) -> (r: Vec<DialectKind>) {
        Vec::new()
    }

    fn force_enable(&self) -> (r: bool) {
        false
    }

    open spec fn spec_name(&self) -> Seq<char> {
        "structure.else_null"@
    }

    open spec fn spec_description(&self) -> Seq<char> {
        "Do not specify 'else null' in a case when statement (redundant)."@
    }

    open spec fn spec_code(&self) -> Seq<char> {
        "ST01"@
    }

    open spec fn spec_groups(&self) -> Seq<RuleGroups> {
        seq![RuleGroups::All, RuleGroups::Structure]
    }

    open spec fn spec_lint_phase(&self) -> LintPhase {
        LintPhase::Main
    }

    open spec fn spec_is_fix_compatible(&self) -> bool {
        false
    }

    open spec fn spec_crawl_behaviour(&self) -> CrawlerV {
        CrawlerV::Seeker {
            types: set![SyntaxKind::CaseExpression],
            provide_raw_stack: false,
            allow_recurse: true,
        }
    }

    fn name(&self) -> &'static str {
        "structure.else_null"
    }

    fn description(&self) -> &'static str {
        "Do not specify 'else null' in a case when statement (redundant)."
    }

    fn code(&self) -> &'static str {
        "ST01"
    }

    fn groups(&self) -> Vec<RuleGroups> {
        let mut g: Vec<RuleGroups> = Vec::new();
        g.push(RuleGroups::All);
        g.push(RuleGroups::Structure);
        assert(g@ =~= seq![RuleGroups::All, RuleGroups::Structure]);
        g
    }

    fn lint_phase(&self) -> LintPhase {
        LintPhase::Main
    }

    fn is_fix_compatible(&self) -> bool {
        false
    }

    fn crawl_behaviour(&self) -> Crawler {
        Crawler::SegmentSeekerCrawler(
            SegmentSeekerCrawler::new(SyntaxSet::single(SyntaxKind::CaseExpression)),
        )
    }

    fn eval(&self, context: &RuleContext, tables: &mut Tables) -> (r: Vec<LintResult>) {
        let children = context.segment.segments();
        let ghost cs = context.segment@.children();
        let kinds = SyntaxSet::single(SyntaxKind::ElseClause);
        let mut out: Vec<LintResult> = Vec::new();
        let mut e: usize = 0;
        while e < children.len() && !kinds.contains(children[e].get_type())
            invariant
                e <= children@.len(),
                cs == views(children@),
                kinds@ == set![SyntaxKind::ElseClause],
                first_of_kind(cs, kinds@, 0) == first_of_kind(cs, kinds@, e as int),
            decreases children.len() - e,
        {
            assert(cs[e as int] == children@[e as int]@);
            e += 1;
        }
        if e < children.len() {
            assert(cs[e as int] == children@[e as int]@);
        }
        if e < children.len() && holds_null(&children[e]) {
            let mut fixes: Vec<LintFix> = Vec::new();
            fixes.push(LintFix::delete(children[e].copy()));
            let mut s: usize = e;
            while s > 0 && (children[s - 1].is_type(SyntaxKind::Whitespace) || children[s
                - 1].is_type(SyntaxKind::Newline) || children[s - 1].is_meta())
                invariant
                    s <= e < children@.len(),
                    cs == views(children@),
                    filler_start(cs, e as int) == filler_start(cs, s as int),
                    fixes@.len() == 1 + (e - s),
                    fixes@[0]@ == delete_fix(cs[e as int]),
                    forall|k: int|
                        0 <= k < e - s ==> (#[trigger] fixes@[1 + k])@ == delete_fix(cs[e - 1 - k]),
                decreases s,
            {
                assert(cs[s - 1] == children@[s - 1]@);
                fixes.push(LintFix::delete(children[s - 1].copy()));
                s -= 1;
            }
            proof {
                if s > 0 {
                    assert(cs[s - 1] == children@[s - 1]@);
                }
                let want = seq![delete_fix(cs[e as int])] + Seq::new(
                    (e - s) as nat,
                    |i: int| delete_fix(cs[e - 1 - i]),
                );
                assert(fix_views(fixes@).len() == want.len());
                assert forall|k: int| 0 <= k < want.len() implies fix_views(fixes@)[k]
                    == want[k] by {
                    if k > 0 {
                        assert(fixes@[1 + (k - 1)]@ == delete_fix(cs[e - 1 - (k - 1)]));
                    }
                }
                assert(fix_views(fixes@) =~= want);
            }
            let result = LintResult::new(Some(context.segment.copy()), fixes, None, None, None);
            let ghost rv = result@;
            out.push(result);
            proof {
                assert(rv.source =~= Seq::<char>::empty());
                assert(result_views(out@)[0] == rv);
                assert(else_null_results(context.segment@).len() == 1);
                assert(else_null_results(context.segment@)[0].fixes =~= rv.fixes);
                assert(else_null_results(context.segment@)[0] == rv);
            }
            assert(result_views(out@) =~= else_null_results(context.segment@));
        } else {
            assert(result_views(out@) =~= Seq::<LintResultV>::empty());
        }
        out
    }
}

/// Whether a new line is found among the segments of `range`, before
/// anything that is neither white space nor a marker of indentation nor a
/// comment.
pub open spec fn newline_in(s: Seq<SegV>, from: int, to: int) -> bool
    decreases to - from,
{
    if from < 0 || from >= to || from >= s.len() {
        false
    } else if s[from].kind == SyntaxKind::Newline {
        true
    } else if s[from].kind != SyntaxKind::Whitespace && s[from].kind != SyntaxKind::Indent
        && s[from].kind != SyntaxKind::Comment {
        false
    } else {
        newline_in(s, from + 1, to)
    }
}

impl RuleLT03 {
    /// Whether a new line is found among the segments after segment `idx`
    /// (`dir` 1) or among those before it, from the first on (`dir` -1).
    #[verifier::loop_isolation(false)]
    pub fn seek_newline(&self, segments: &[ErasedSegment], idx: usize, dir: i32) -> (r: bool)
        requires
            dir == 1 || dir == -1,
            idx <= segments@.len(),
            dir == 1 ==> idx < segments@.len(),
        ensures
            r == (if dir == 1 {
                newline_in(views(segments@), idx + 1, segments@.len() as int)
            } else {
                newline_in(views(segments@), 0, idx as int)
            }),
    {
        let n = segments.len();
        let (start, end) = if dir == 1 {
            (idx + 1, n)
        } else {
            (0, idx)
        };
        let mut i: usize = start;
        while i < end
            invariant
                start <= i,
                end <= segments@.len(),
                newline_in(views(segments@), start as int, end as int) == newline_in(
                    views(segments@),
                    i as int,
                    end as int,
                ),
            decreases end - i,
        {
            let segment = &segments[i];
            assert(views(segments@)[i as int] == segment@);
            if segment.is_type(SyntaxKind::Newline) {
                return true;
            } else if !segment.is_type(SyntaxKind::Whitespace) && !segment.is_type(
                SyntaxKind::Indent,
            ) && !segment.is_type(SyntaxKind::Comment) {
                return false;
            }
            i += 1;
        }
        false
    }

    /// Whether the operator at index `idx` of `parent` stands where it
    /// should without looking further: for a leading position, if a new line
    /// is found before it or none after it; for a trailing position, if a new
    /// line is found after it or none before it.
    pub fn check_trail_lead_shortcut(&self, idx: usize, parent: &ErasedSegment, line_position: &str) -> (r:
        bool)
        requires
            idx < parent@.children().len(),
        ensures
            r == (if line_position@ == "leading"@ {
                newline_in(parent@.children(), 0, idx as int) || !newline_in(
                    parent@.children(),
                    idx + 1,
                    parent@.children().len() as int,
                )
            } else if line_position@ == "trailing"@ {
                newline_in(parent@.children(), idx + 1, parent@.children().len() as int)
                    || !newline_in(parent@.children(), 0, idx as int)
            } else {
                false
            }),
    {
        let segments = parent.segments();
        if str_eq(line_position, "leading") {
            if self.seek_newline(segments, idx, -1) {
                return true;
            }
            if !self.seek_newline(segments, idx, 1) {
                return true;
            }
        } else if str_eq(line_position, "trailing") {
            if self.seek_newline(segments, idx, 1) {
                return true;
            }
            if !self.seek_newline(segments, idx, -1) {
                return true;
            }
        }
        false
    }
}

/// Whether `r` says if the fix touches what a template made, given what the
/// templater says of the range of the fix: a creation does if all the raw
/// slices that it touches are of a template; any other fix does if one of
/// them is.
pub open spec fn conflict_is(
    file: TemplatedFile,
    fix: LintFixV,
    mapped: Option<Range<usize>>,
    r: bool,
) -> bool {
    exists|found: Seq<crate::templater::RawFileSlice>|
        #[trigger] crate::conflicts::is_fix_slices(file, fix.lookup(false), mapped, found) && r == (
        if fix.edit_type == EditType::CreateAfter || fix.edit_type == EditType::CreateBefore {
            crate::conflicts::all_templated(found)
        } else {
            crate::conflicts::any_templated(found)
        })
}

/// What is kept of a result: the violation, if the result has an anchor,
/// and its fixes; nothing of either where a fix would touch what a template
/// made.
pub fn process_lint_result(
    rule: &RuleInfo,
    res: LintResult,
    templated_file: &TemplatedFile,
    mapped: &Vec<Option<Range<usize>>>,
    new_lerrs: &mut Vec<SQLLintError>,
    new_fixes: &mut Vec<LintFix>,
) -> (kept: bool)
    requires
        mapped@.len() == res.fixes@.len(),
        templated_file.raw_sliced().len() > 0,
        res.anchor matches Some(a) ==> a@.marker is Some,
        forall|i: int| 0 <= i < res.fixes@.len() ==> (#[trigger] res.fixes@[i])@.anchor.marker is Some,
    ensures
        kept ==> forall|i: int|
            0 <= i < res.fixes@.len() ==> conflict_is(
                *templated_file,
                (#[trigger] res.fixes@[i])@,
                mapped@[i],
                false,
            ),
        !kept ==> exists|i: int|
            0 <= i < res.fixes@.len() && conflict_is(
                *templated_file,
                (#[trigger] res.fixes@[i])@,
                mapped@[i],
                true,
            ),
        !kept ==> final(new_lerrs)@ == old(new_lerrs)@ && final(new_fixes)@ == old(new_fixes)@,
        kept ==> final(new_fixes)@ == old(new_fixes)@ + res.fixes@,
        kept && res.anchor is Some ==> final(new_lerrs)@.last().base.description@ == (
        match res.description {
            Some(d) => d@,
            None => rule.description@,
        }) && final(new_lerrs)@.last().base.source_slice
            == res.anchor->0@.marker->0.source_slice,
        kept && res.anchor is None ==> final(new_lerrs)@ == old(new_lerrs)@,
        kept && res.anchor is Some ==> final(new_lerrs)@.len() == old(new_lerrs)@.len() + 1
            && final(new_lerrs)@.subrange(0, old(new_lerrs)@.len() as int) == old(new_lerrs)@
            && final(new_lerrs)@.last().base.rule == Some(*rule),
{
    let mut i: usize = 0;
    while i < res.fixes.len()
        invariant
            i <= res.fixes@.len(),
            mapped@.len() == res.fixes@.len(),
            templated_file.raw_sliced().len() > 0,
            forall|k: int| 0 <= k < res.fixes@.len() ==> (#[trigger] res.fixes@[k])@.anchor.marker is Some,
            forall|k: int|
                0 <= k < i ==> conflict_is(
                    *templated_file,
                    (#[trigger] res.fixes@[k])@,
                    mapped@[k],
                    false,
                ),
            *new_lerrs == *old(new_lerrs),
            *new_fixes == *old(new_fixes),
        decreases res.fixes.len() - i,
    {
        let m = match &mapped[i] {
            Some(r) => Some(r.start..r.end),
            None => None,
        };
        assert(m == mapped@[i as int]);
        let conflict = res.fixes[i].has_template_conflicts(templated_file, m);
        assert(conflict_is(*templated_file, res.fixes@[i as int]@, mapped@[i as int], conflict));
        if conflict {
            return false;
        }
        i += 1;
    }
    let ghost before = new_lerrs@;
    match res.to_linting_error(rule) {
        Some(lerr) => {
            new_lerrs.push(lerr);
            assert(new_lerrs@.subrange(0, before.len() as int) =~= before);
        },
        None => {},
    }
    let mut fixes = res.fixes;
    new_fixes.append(&mut fixes);
    true
}

/// Whether the two are the same dialect.
pub fn same_dialect(a: DialectKind, b: DialectKind) -> (r: bool)
    ensures
        r == (a == b),
{
    match (a, b) {
        (DialectKind::Ansi, DialectKind::Ansi) => true,
        (DialectKind::Databricks, DialectKind::Databricks) => true,
        (DialectKind::Sparksql, DialectKind::Sparksql) => true,
        (DialectKind::Trino, DialectKind::Trino) => true,
        _ => false,
    }
}

/// Whether a rule is left out for a dialect: the dialect is one that the
/// rule skips, and the rule is not forced on.
pub fn is_skipped(dialect_skip: &Vec<DialectKind>, force_enable: bool, dialect: DialectKind) -> (r:
    bool)
    ensures
        r == (dialect_skip@.contains(dialect) && !force_enable),
{
    if force_enable {
        return false;
    }
    let mut i: usize = 0;
    while i < dialect_skip.len()
        invariant
            i <= dialect_skip@.len(),
            !force_enable,
            forall|j: int| 0 <= j < i ==> dialect_skip@[j] != dialect,
        decreases dialect_skip.len() - i,
    {
        if same_dialect(dialect_skip[i], dialect) {
            assert(dialect_skip@[i as int] == dialect);
            return true;
        }
        i += 1;
    }
    false
}

/// What is said of a rule that broke down on a segment.
pub open spec fn crawl_failure() -> Seq<char> {
    "Unexpected exception. Could you open an issue at https://github.com/quarylabs/sqruff"@
}

/// What a violation says: its description, where it is in the source,
/// and the rule.
pub struct ErrorV {
    pub description: Seq<char>,
    pub source_slice: Range<usize>,
    pub rule: Option<RuleInfo>,
}

/// What the violations say.
pub open spec fn error_views(s: Seq<SQLLintError>) -> Seq<ErrorV> {
    Seq::new(
        s.len(),
        |i: int|
            ErrorV {
                description: s[i].base.description@,
                source_slice: s[i].base.source_slice,
                rule: s[i].base.rule,
            },
    )
}

/// Whether `kept` says if the result is kept: it is unless one of its
/// fixes touches what a template made.
pub open spec fn verdict(
    file: TemplatedFile,
    res: LintResult,
    mapped: Seq<Option<Range<usize>>>,
    kept: bool,
) -> bool {
    if kept {
        forall|i: int|
            0 <= i < res.fixes@.len() ==> conflict_is(file, (#[trigger] res.fixes@[i])@, mapped[i], false)
    } else {
        exists|i: int|
            0 <= i < res.fixes@.len() && conflict_is(file, (#[trigger] res.fixes@[i])@, mapped[i], true)
    }
}

/// The fixes of those of the first `n` results that are kept, in order.
pub open spec fn kept_fixes(rs: Seq<LintResult>, mask: Seq<bool>, n: int) -> Seq<LintFix>
    decreases n,
{
    if n <= 0 {
        Seq::empty()
    } else if mask[n - 1] {
        kept_fixes(rs, mask, n - 1) + rs[n - 1].fixes@
    } else {
        kept_fixes(rs, mask, n - 1)
    }
}

/// The violations of those of the first `n` results that are kept and
/// have an anchor, in order: each at its anchor, described as the result
/// says, or as the rule does where the result does not.
pub open spec fn kept_errors(rule: RuleInfo, rs: Seq<LintResult>, mask: Seq<bool>, n: int) -> Seq<
    ErrorV,
>
    decreases n,
{
    if n <= 0 {
        Seq::empty()
    } else if mask[n - 1] && rs[n - 1].anchor is Some {
        kept_errors(rule, rs, mask, n - 1).push(
            ErrorV {
                description: match rs[n - 1].description {
                    Some(d) => d@,
                    None => rule.description@,
                },
                source_slice: rs[n - 1].anchor->0@.marker->0.source_slice,
                rule: Some(rule),
            },
        )
    } else {
        kept_errors(rule, rs, mask, n - 1)
    }
}

/// Whether what a result points at has a place in the file, and the
/// templater has said something of each of its fixes.
pub open spec fn result_placed(res: LintResult, mapped: Seq<Option<Range<usize>>>) -> bool {
    &&& mapped.len() == res.fixes@.len()
    &&& res.anchor matches Some(a) ==> a@.marker is Some
    &&& forall|j: int| 0 <= j < res.fixes@.len() ==> (#[trigger] res.fixes@[j])@.anchor.marker is Some
}

/// Whether that holds of each of the results.
pub open spec fn placed(rs: Seq<LintResult>, mapped: Seq<Vec<Option<Range<usize>>>>) -> bool {
    &&& mapped.len() == rs.len()
    &&& forall|i: int| 0 <= i < rs.len() ==> result_placed(#[trigger] rs[i], mapped[i]@)
}

/// What the run of a rule on one context comes to. `outcome` is what the
/// rule gave back, or nothing where the rule broke down. A rule that broke
/// down is reported as one violation at the segment of the context, with no
/// fixes, and its run ends there: the answer is `false`. Else each result
/// is kept, in order, unless one of its fixes touches what a template made:
/// its fixes, and its violation if it has an anchor. The run then goes on
/// with the next context: the answer is `true`.
pub fn crawl_step(
    rule: &RuleInfo,
    context: &RuleContext,
    outcome: Option<Vec<LintResult>>,
    templated_file: &TemplatedFile,
    mapped: &Vec<Vec<Option<Range<usize>>>>,
    vs: &mut Vec<SQLLintError>,
    fixes: &mut Vec<LintFix>,
) -> (go_on: bool)
    requires
        templated_file.raw_sliced().len() > 0,
        outcome is None ==> context@.segment.marker is Some,
        outcome matches Some(rs) ==> placed(rs@, mapped@),
    ensures
        go_on == (outcome is Some),
        outcome is None ==> final(fixes)@ == old(fixes)@ && error_views(final(vs)@) == error_views(
            old(vs)@,
        ).push(
            ErrorV {
                description: crawl_failure(),
                source_slice: context@.segment.marker->0.source_slice,
                rule: None,
            },
        ),
        outcome matches Some(rs) ==> exists|mask: Seq<bool>|
            {
                &&& mask.len() == rs@.len()
                &&& forall|i: int|
                    0 <= i < rs@.len() ==> verdict(
                        *templated_file,
                        rs@[i],
                        mapped@[i]@,
                        #[trigger] mask[i],
                    )
                &&& final(fixes)@ == old(fixes)@ + kept_fixes(rs@, mask, rs@.len() as int)
                &&& error_views(final(vs)@) == error_views(old(vs)@) + kept_errors(
                    *rule,
                    rs@,
                    mask,
                    rs@.len() as int,
                )
            },
{
    match outcome {
        None => {
            let ghost before = vs@;
            vs.push(
                SQLLintError::new(
                    "Unexpected exception. Could you open an issue at https://github.com/quarylabs/sqruff",
                    &context.segment,
                ),
            );
            assert(error_views(vs@) =~= error_views(before).push(
                ErrorV {
                    description: crawl_failure(),
                    source_slice: context@.segment.marker->0.source_slice,
                    rule: None,
                },
            ));
            false
        },
        Some(results) => {
            let ghost all = results@;
            let ghost vs0 = vs@;
            let ghost fixes0 = fixes@;
            let ghost mut mask: Seq<bool> = Seq::empty();
            let mut rest = results;
            let mut i: usize = 0;
            let n = rest.len();
            assert(error_views(vs@) =~= error_views(vs0) + kept_errors(*rule, all, mask, 0));
            assert(fixes@ =~= fixes0 + kept_fixes(all, mask, 0));
            while i < n
                invariant
                    i <= n,
                    n == all.len(),
                    mapped@.len() == n,
                    rest@ == all.subrange(i as int, n as int),
                    templated_file.raw_sliced().len() > 0,
                    placed(all, mapped@),
                    mask.len() == i,
                    forall|k: int|
                        0 <= k < i ==> verdict(*templated_file, all[k], mapped@[k]@, #[trigger] mask[k]),
                    fixes@ == fixes0 + kept_fixes(all, mask, i as int),
                    error_views(vs@) == error_views(vs0) + kept_errors(*rule, all, mask, i as int),
                decreases n - i,
            {
                let res = rest.remove(0);
                assert(res == all[i as int]);
                assert(result_placed(all[i as int], mapped@[i as int]@));
                assert(rest@ =~= all.subrange(i + 1, n as int));
                let ghost vs1 = vs@;
                let ghost fixes1 = fixes@;
                let ghost old_mask = mask;
                let kept = process_lint_result(rule, res, templated_file, &mapped[i], vs, fixes);
                proof {
                    mask = old_mask.push(kept);
                    assert forall|k: int| 0 <= k < i + 1 implies verdict(
                        *templated_file,
                        all[k],
                        mapped@[k]@,
                        #[trigger] mask[k],
                    ) by {
                        if k < i {
                            assert(mask[k] == old_mask[k]);
                        }
                    }
                    lemma_kept_same(*rule, all, old_mask, mask, i as int);
                    if kept && res.anchor is Some {
                        assert(error_views(vs@) =~= error_views(vs1).push(
                            ErrorV {
                                description: match res.description {
                                    Some(d) => d@,
                                    None => rule.description@,
                                },
                                source_slice: res.anchor->0@.marker->0.source_slice,
                                rule: Some(*rule),
                            },
                        ));
                    } else {
                        assert(error_views(vs@) =~= error_views(vs1));
                    }
                    assert(fixes@ =~= fixes0 + kept_fixes(all, mask, i + 1));
                    assert(error_views(vs@) =~= error_views(vs0) + kept_errors(
                        *rule,
                        all,
                        mask,
                        i + 1,
                    ));
                }
                i += 1;
            }
            true
        },
    }
}

/// What is kept of the first results does not turn on what is said of
/// the later ones.
pub proof fn lemma_kept_same(rule: RuleInfo, rs: Seq<LintResult>, a: Seq<bool>, b: Seq<bool>, n: int)
    requires
        0 <= n <= a.len() <= b.len(),
        forall|k: int| 0 <= k < n ==> a[k] == b[k],
    ensures
        kept_fixes(rs, a, n) == kept_fixes(rs, b, n),
        kept_errors(rule, rs, a, n) == kept_errors(rule, rs, b, n),
    decreases n,
{
    if n > 0 {
        lemma_kept_same(rule, rs, a, b, n - 1);
    }
}

} // verus!
