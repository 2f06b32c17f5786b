//! The rule on how the alias of a table is introduced: with the keyword
//! `AS`, or without it.

use vstd::prelude::*;

use crate::crawlers::{ContextV, Crawler, CrawlerV, RuleContext, SegmentSeekerCrawler};
use crate::fix::{unmarked, EditType, LintFix, LintFixV};
use crate::lints::{delete_fix, Rule};
use crate::rules::{result_views, Aliasing, LintPhase, LintResult, LintResultV, RuleAL01, RuleGroups};
use crate::segment::{next_counter, token_v, views, ErasedSegment, SegV, SegmentBuilder, Tables};
use crate::syntax::{DialectKind, SyntaxKind, SyntaxSet};
use crate::text::str_eq;
use crate::tree_queries::{uppercased, KeywordSegment};

verus! {

/// Whether the segment reads `AS`, in whatever case.
pub open spec fn reads_as(v: SegV) -> bool {
    uppercased(v.raw()) == "AS"@
}

/// The index of the first of the segments from `from` on that reads `AS`,
/// or the number of segments.
pub open spec fn first_as(s: Seq<SegV>, from: int) -> int
    decreases s.len() - from,
{
    if from < 0 || from >= s.len() {
        s.len() as int
    } else if reads_as(s[from]) {
        from
    } else {
        first_as(s, from + 1)
    }
}

/// The index of the first of the segments from `from` on that is code, or
/// the number of segments.
pub open spec fn first_code(s: Seq<SegV>, from: int) -> int
    decreases s.len() - from,
{
    if from < 0 || from >= s.len() {
        s.len() as int
    } else if s[from].is_code() {
        from
    } else {
        first_code(s, from + 1)
    }
}

/// The fixes that take the keyword at `k` out of the segments, and with it
/// the white space that follows it at once, if any does.
pub open spec fn drop_keyword_fixes(s: Seq<SegV>, k: int) -> Seq<LintFixV> {
    if k + 1 < s.len() && s[k + 1].kind == SyntaxKind::Whitespace {
        seq![delete_fix(s[k]), delete_fix(s[k + 1])]
    } else {
        seq![delete_fix(s[k])]
    }
}

/// The fix that puts the keyword `AS` and a blank before the segment.
/// The two are new segments: the keyword has the id `counter`, the blank the
/// one after it.
pub open spec fn add_keyword_fix(v: SegV, counter: u32) -> LintFixV {
    LintFixV {
        edit_type: EditType::CreateBefore,
        anchor: v,
        edit: Some(
            seq![
                token_v(counter, "AS"@, SyntaxKind::Keyword),
                token_v(next_counter(counter), " "@, SyntaxKind::Whitespace),
            ],
        ),
        source: Seq::empty(),
    }
}

/// Whether the parents of a context end in what holds the alias of a
/// table.
pub open spec fn below_table(stack: Seq<SegV>) -> bool {
    stack.len() > 0 && (stack.last().kind == SyntaxKind::FromExpressionElement || stack.last().kind
        == SyntaxKind::MergeStatement)
}

/// The white space that stands just before the segment of the context,
/// in the segment that holds it, where that is not one blank.
pub open spec fn space_before(context: ContextV) -> Option<SegV> {
    let kids = context.parent_stack.last().children();
    let i = context.segment_idx;
    if context.parent_stack.len() > 0 && 0 < i < kids.len() && kids[i].id == context.segment.id
        && kids[i - 1].kind == SyntaxKind::Whitespace && kids[i - 1].raw() != " "@ {
        Some(kids[i - 1])
    } else {
        None
    }
}

/// The fix that makes one blank of the white space: the blank is a new
/// segment with the id.
pub open spec fn respace_fix(ws: SegV, id: u32) -> LintFixV {
    LintFixV {
        edit_type: EditType::Replace,
        anchor: ws,
        edit: Some(seq![token_v(id, " "@, SyntaxKind::Whitespace)]),
        source: Seq::empty(),
    }
}

/// The fixes that leave one blank before the segment of the context: one
/// fix where other white space stands there, else none.
pub open spec fn respaced(context: ContextV, counter: u32) -> Seq<LintFixV> {
    match space_before(context) {
        Some(ws) => seq![respace_fix(ws, counter)],
        None => Seq::empty(),
    }
}

/// The id that is handed out next after the white space is seen to.
pub open spec fn respaced_counter(context: ContextV, counter: u32) -> u32 {
    if space_before(context) is Some {
        next_counter(counter)
    } else {
        counter
    }
}

/// What the rule reports of an alias expression, where that is the alias
/// of a table. Where the keyword is to be left out and one of the
/// segments of the expression reads `AS`: one result at the first that
/// does, with the fixes that drop it. Where the keyword is asked for and
/// none of the segments reads `AS`: one result at the expression, with the
/// fix that puts the keyword before its first leaf of code. Either way the
/// white space before the expression becomes one blank. Else nothing: an
/// alias that is introduced as the rule asks is not reported. The segments
/// that the fixes make take their ids from `counter` on.
pub open spec fn alias_results(aliasing: Aliasing, context: ContextV, counter: u32) -> Seq<
    LintResultV,
> {
    let kids = context.segment.children();
    let k = first_as(kids, 0);
    let leaves = context.segment.leaves();
    let c = first_code(leaves, 0);
    if !below_table(context.parent_stack) {
        Seq::empty()
    } else if aliasing == Aliasing::Implicit {
        if k < kids.len() {
            seq![
                LintResultV {
                    anchor: Some(kids[k]),
                    fixes: drop_keyword_fixes(kids, k) + respaced(context, counter),
                    description: None,
                    source: Seq::empty(),
                },
            ]
        } else {
            Seq::empty()
        }
    } else if k >= kids.len() && c < leaves.len() {
        seq![
            LintResultV {
                anchor: Some(context.segment),
                fixes: seq![add_keyword_fix(leaves[c], counter)] + respaced(
                    context,
                    next_counter(next_counter(counter)),
                ),
                description: None,
                source: Seq::empty(),
            },
        ]
    } else {
        Seq::empty()
    }
}

/// The id that is handed out next after the rule has looked at an alias
/// expression.
pub open spec fn alias_counter(aliasing: Aliasing, context: ContextV, counter: u32) -> u32 {
    let kids = context.segment.children();
    let k = first_as(kids, 0);
    let leaves = context.segment.leaves();
    let c = first_code(leaves, 0);
    if !below_table(context.parent_stack) {
        counter
    } else if aliasing == Aliasing::Implicit {
        if k < kids.len() {
            respaced_counter(context, counter)
        } else {
            counter
        }
    } else if k >= kids.len() && c < leaves.len() {
        respaced_counter(context, next_counter(next_counter(counter)))
    } else {
        counter
    }
}

/// The fixes that leave one blank before the segment of the context.
fn respace(context: &RuleContext, tables: &mut Tables) -> (r: Vec<LintFix>)
    ensures
        crate::fix::fix_views(r@) == respaced(context@, old(tables).counter),
        final(tables).counter == respaced_counter(context@, old(tables).counter),
{
    let mut fixes: Vec<LintFix> = Vec::new();
    assert(crate::fix::fix_views(fixes@) =~= Seq::<LintFixV>::empty());
    let n = context.parent_stack.len();
    if n == 0 {
        return fixes;
    }
    assert(context@.parent_stack.last() == context.parent_stack@[n - 1]@);
    let kids = context.parent_stack[n - 1].segments();
    let i = context.segment_idx;
    if i == 0 || i >= kids.len() {
        return fixes;
    }
    let ghost ks = context@.parent_stack.last().children();
    assert(ks[i as int] == kids@[i as int]@);
    assert(ks[i - 1] == kids@[i - 1]@);
    if kids[i].id() != context.segment.id() {
        return fixes;
    }
    let ws = &kids[i - 1];
    if !ws.is_type(SyntaxKind::Whitespace) || str_eq(ws.raw().as_str(), " ") {
        return fixes;
    }
    let mut edit: Vec<ErasedSegment> = Vec::new();
    edit.push(SegmentBuilder::whitespace(tables.next_id(), " "));
    proof {
        assert(unmarked(views(edit@)) =~= seq![
            token_v(old(tables).counter, " "@, SyntaxKind::Whitespace),
        ]);
    }
    fixes.push(LintFix::replace(ws.copy(), edit, None));
    assert(crate::fix::fix_views(fixes@) =~= respaced(context@, old(tables).counter));
    fixes
}

/// Whether the segment reads `AS`, in whatever case.
fn is_as(seg: &ErasedSegment) -> (r: bool)
    ensures
        r == reads_as(seg@),
{
    match seg.get_raw_upper() {
        Some(t) => str_eq(t.as_str(), "AS"),
        None => false,
    }
}

impl Rule for RuleAL01 {
    open spec fn spec_eval(&self, context: ContextV, counter: u32) -> Seq<LintResultV> {
        alias_results(self.aliasing, context, counter)
    }

    open spec fn spec_counter(&self, context: ContextV, counter: u32) -> u32 {
        alias_counter(self.aliasing, context, counter)
    }

    open spec fn spec_dialect_skip(&self) -> Seq<DialectKind> {
        Seq::empty()
    }

    open spec fn spec_force_enable(&self) -> bool {
        false
    }

    fn dialect_skip(&self) -> (r: Vec<DialectKind>) {
        Vec::new()
    }

    fn force_enable(&self) -> (r: bool) {
        false
    }

    open spec fn spec_name(&self) -> Seq<char> {
        "aliasing.table"@
    }

    open spec fn spec_description(&self) -> Seq<char> {
        "Implicit/explicit aliasing of table."@
    }

    open spec fn spec_code(&self) -> Seq<char> {
        "AL01"@
    }

    open spec fn spec_groups(&self) -> Seq<RuleGroups> {
        seq![RuleGroups::All, RuleGroups::Aliasing]
    }

    open spec fn spec_lint_phase(&self) -> LintPhase {
        LintPhase::Main
    }

    open spec fn spec_is_fix_compatible(&self) -> bool {
        true
    }

    open spec fn spec_crawl_behaviour(&self) -> CrawlerV {
        CrawlerV::Seeker {
            types: set![SyntaxKind::AliasExpression],
            provide_raw_stack: false,
            allow_recurse: true,
        }
    }

    fn name(&self) -> &'static str {
        "aliasing.table"
    }

    fn description(&self) -> &'static str {
        "Implicit/explicit aliasing of table."
    }

    fn code(&self) -> &'static str {
        "AL01"
    }

    fn groups(&self) -> Vec<RuleGroups> {
        let mut g: Vec<RuleGroups> = Vec::new();
        g.push(RuleGroups::All);
        g.push(RuleGroups::Aliasing);
        assert(g@ =~= seq![RuleGroups::All, RuleGroups::Aliasing]);
        g
    }

    fn lint_phase(&self) -> LintPhase {
        LintPhase::Main
    }

    fn is_fix_compatible(&self) -> bool {
        true
    }

    fn crawl_behaviour(&self) -> Crawler {
        Crawler::SegmentSeekerCrawler(
            SegmentSeekerCrawler::new(SyntaxSet::single(SyntaxKind::AliasExpression)),
        )
    }

    fn eval(&self, context: &RuleContext, tables: &mut Tables) -> (r: Vec<LintResult>) {
        let mut out: Vec<LintResult> = Vec::new();
        let ghost c0 = tables.counter;
        let n = context.parent_stack.len();
        proof {
            assert(result_views(out@) =~= Seq::<LintResultV>::empty());
            if n > 0 {
                assert(context@.parent_stack.last() == context.parent_stack@[n - 1]@);
            }
        }
        if n == 0 {
            return out;
        }
        let last = &context.parent_stack[n - 1];
        if !(last.is_type(SyntaxKind::FromExpressionElement) || last.is_type(
            SyntaxKind::MergeStatement,
        )) {
            return out;
        }
        let children = context.segment.segments();
        let ghost kids = context.segment@.children();
        let mut k: usize = 0;
        while k < children.len() && !is_as(&children[k])
            invariant
                k <= children@.len(),
                kids == views(children@),
                first_as(kids, 0) == first_as(kids, k as int),
            decreases children.len() - k,
        {
            assert(kids[k as int] == children@[k as int]@);
            k += 1;
        }
        if k < children.len() {
            assert(kids[k as int] == children@[k as int]@);
        }
        match self.aliasing {
            Aliasing::Implicit => {
                if k < children.len() {
                    let mut fixes: Vec<LintFix> = Vec::new();
                    fixes.push(LintFix::delete(children[k].copy()));
                    if k + 1 < children.len() {
                        assert(kids[k + 1] == children@[k + 1]@);
                        if children[k + 1].is_type(SyntaxKind::Whitespace) {
                            fixes.push(LintFix::delete(children[k + 1].copy()));
                        }
                    }
                    assert(crate::fix::fix_views(fixes@) =~= drop_keyword_fixes(kids, k as int));
                    let ghost dropped = fixes@;
                    let mut more = respace(context, tables);
                    proof {
                        assert(crate::fix::fix_views(dropped + more@) =~= crate::fix::fix_views(
                            dropped,
                        ) + crate::fix::fix_views(more@));
                    }
                    fixes.append(&mut more);
                    out.push(LintResult::new(Some(children[k].copy()), fixes, None, None, None));
                    assert(result_views(out@) =~= self.spec_eval(context@, c0));
                }
            },
            Aliasing::Explicit => {
                if k < children.len() {
                    return out;
                }
                let leaves = context.segment.get_raw_segments();
                let ghost ls = context.segment@.leaves();
                let mut c: usize = 0;
                while c < leaves.len() && !leaves[c].is_code()
                    invariant
                        c <= leaves@.len(),
                        ls == views(leaves@),
                        first_code(ls, 0) == first_code(ls, c as int),
                    decreases leaves.len() - c,
                {
                    assert(ls[c as int] == leaves@[c as int]@);
                    c += 1;
                }
                if c < leaves.len() {
                    assert(ls[c as int] == leaves@[c as int]@);
                    let mut edit: Vec<ErasedSegment> = Vec::new();
                    let keyword_id = tables.next_id();
                    edit.push(
                        KeywordSegment::new(keyword_id, "AS".to_string(), None).to_erased_segment(),
                    );
                    let blank_id = tables.next_id();
                    edit.push(SegmentBuilder::whitespace(blank_id, " "));
                    let mut fixes: Vec<LintFix> = Vec::new();
                    proof {
                        assert(unmarked(views(edit@)) =~= seq![
                            token_v(c0, "AS"@, SyntaxKind::Keyword),
                            token_v(next_counter(c0), " "@, SyntaxKind::Whitespace),
                        ]);
                    }
                    fixes.push(LintFix::create_before(leaves[c].copy(), edit));
                    assert(crate::fix::fix_views(fixes@) =~= seq![add_keyword_fix(ls[c as int], c0)]);
                    let ghost added = fixes@;
                    let mut more = respace(context, tables);
                    proof {
                        assert(crate::fix::fix_views(added + more@) =~= crate::fix::fix_views(added)
                            + crate::fix::fix_views(more@));
                    }
                    fixes.append(&mut more);
                    out.push(LintResult::new(Some(context.segment.copy()), fixes, None, None, None));
                    assert(result_views(out@) =~= self.spec_eval(context@, c0));
                }
            },
        }
        out
    }
}

} // verus!
