use sqruff_lib::conflicts::SliceLookup;
use sqruff_lib::crawlers::{BaseCrawler, Crawler, RootOnlyCrawler, RuleContext, SegmentSeekerCrawler};
use sqruff_lib::depth_map::{DepthInfo, StackPosition};
use sqruff_lib::fix::LintFix;
use sqruff_lib::errors::RuleInfo;
use sqruff_lib::lints::{crawl_step, is_skipped, process_lint_result, Rule};
use sqruff_lib::markers::PositionMarker;
use sqruff_lib::rules::{LintResult, RuleLT03, RuleST01};
use sqruff_lib::segment::{ErasedSegment, SegmentBuilder, SourceFix, Tables};
use sqruff_lib::syntax::{DialectKind, SyntaxKind, SyntaxSet};
use sqruff_lib::templater::{RawFileSlice, TemplatedFile, TemplatedFileSlice};
use sqruff_lib::test_functions::generate_test_segments_func;
use sqruff_lib::tree_queries::{
    get_point_pos_at_idx, BracketedSegment, DepthMap, KeywordSegment,
};

fn retyped(seg: &ErasedSegment, kind: SyntaxKind) -> ErasedSegment {
    SegmentBuilder::token(seg.id(), &seg.raw(), kind)
        .with_position(seg.get_position_marker().unwrap().clone())
        .finish()
}

fn node(id: u32, kind: SyntaxKind, segments: Vec<ErasedSegment>) -> ErasedSegment {
    SegmentBuilder::node(id, kind, DialectKind::Ansi, segments).position_from_segments().finish()
}

fn case_expression(else_value: &str) -> ErasedSegment {
    let segs = generate_test_segments_func(vec![
        "case", " ", "when", " ", "a", " ", "then", " ", "b", "\n", "  ", "else", " ", else_value, " ", "end",
    ]);
    let else_clause = node(100, SyntaxKind::ElseClause, segs[11..14].to_vec());
    let mut children: Vec<ErasedSegment> = segs[0..9].to_vec();
    children.push(retyped(&segs[9], SyntaxKind::Newline));
    children.push(segs[10].clone());
    children.push(else_clause);
    children.extend(segs[14..].iter().cloned());
    node(101, SyntaxKind::CaseExpression, children)
}

#[test]
fn else_null_is_reported_with_the_filler_before_it() {
    let case = case_expression("NuLl");
    let file = node(102, SyntaxKind::File, vec![case.clone()]);
    let root = RuleContext::root(file, true, None);
    let contexts = RuleST01.crawl_behaviour().crawl(root);
    assert_eq!(contexts.len(), 1);
    assert_eq!(contexts[0].segment.id(), 101);
    assert_eq!(contexts[0].parent_stack.len(), 1);
    assert_eq!(contexts[0].segment_idx, 0);
    let mut tables = Tables::default();
    tables.counter = 200;
    let results = RuleST01.eval(&contexts[0], &mut tables);
    assert_eq!(tables.counter, 200);
    assert_eq!(results.len(), 1);
    let anchors: Vec<String> = results[0].fixes.iter().map(|f| f.anchor.raw()).collect();
    assert_eq!(anchors, vec!["else NuLl", "  ", "\n"]);
    assert_eq!(results[0].anchor.as_ref().unwrap().id(), 101);
    // Another value in the else clause is no violation.
    let fine = case_expression("c");
    assert!(RuleST01.eval(&RuleContext::root(fine, true, None), &mut tables).is_empty());
    assert_eq!(RuleST01.name(), "structure.else_null");
    assert_eq!(RuleST01.code(), "ST01");
}

#[test]
fn crawlers_pick_the_segments_of_a_rule() {
    let case = case_expression("null");
    let inner = node(103, SyntaxKind::Statement, vec![case.clone()]);
    let file = node(104, SyntaxKind::File, vec![inner]);
    let ws = SegmentSeekerCrawler::new(SyntaxSet::single(SyntaxKind::Whitespace));
    assert!(ws.allow_recurse);
    let found = ws.crawl(RuleContext::root(file.clone(), false, None));
    assert_eq!(found.len(), 7);
    assert!(found.iter().all(|c| c.segment.get_type() == SyntaxKind::Whitespace));
    assert_eq!(found[0].parent_stack.len(), 3);
    assert_eq!(found[0].segment_idx, 1);
    assert_eq!(found[5].parent_stack.len(), 4);
    assert_eq!(found[6].parent_stack.len(), 3);
    let statements = SegmentSeekerCrawler::new(SyntaxSet::new(&[SyntaxKind::Statement, SyntaxKind::ElseClause]));
    assert_eq!(statements.crawl(RuleContext::root(file.clone(), false, None)).len(), 2);
    let shallow = SegmentSeekerCrawler::new(SyntaxSet::new(&[SyntaxKind::Statement, SyntaxKind::ElseClause]))
        .disallow_recurse();
    assert_eq!(shallow.crawl(RuleContext::root(file.clone(), false, None)).len(), 1);
    let root = Crawler::RootOnlyCrawler(RootOnlyCrawler);
    assert_eq!(root.crawl(RuleContext::root(file.clone(), false, None)).len(), 1);
    let unparsable = node(105, SyntaxKind::Unparsable, vec![case]);
    assert!(root.crawl(RuleContext::root(unparsable.clone(), false, None)).is_empty());
    assert!(!RootOnlyCrawler.passes_filter(&unparsable));
    assert!(RootOnlyCrawler.passes_filter(&file));
}

#[test]
fn operators_are_looked_at_by_the_new_lines_around_them() {
    let segs = generate_test_segments_func(vec!["a", "\n", " ", "+", " ", "b", "\n", "c"]);
    let mut segs = segs;
    segs[1] = retyped(&segs[1], SyntaxKind::Newline);
    segs[6] = retyped(&segs[6], SyntaxKind::Newline);
    let parent = node(200, SyntaxKind::Statement, segs.clone());
    let rule = RuleLT03::default();
    assert!(rule.seek_newline(&segs, 3, 1) == false);
    assert!(rule.seek_newline(&segs, 5, 1));
    // Backwards the search starts at the first segment.
    assert!(!rule.seek_newline(&segs, 3, -1));
    assert!(rule.seek_newline(&segs[1..], 2, -1));
    assert!(rule.check_trail_lead_shortcut(3, &parent, "leading"));
    assert!(rule.check_trail_lead_shortcut(3, &parent, "trailing"));
    assert!(!rule.check_trail_lead_shortcut(5, &parent, "leading"));
    assert!(!rule.check_trail_lead_shortcut(3, &parent, "sideways"));
}

fn templated() -> TemplatedFile {
    TemplatedFile::new(
        "a{{ b }}c".to_string(),
        "t.sql".to_string(),
        Some("aXc".to_string()),
        Some(vec![
            TemplatedFileSlice::new("literal", 0..1, 0..1),
            TemplatedFileSlice::new("templated", 1..8, 1..2),
            TemplatedFileSlice::new("literal", 8..9, 2..3),
        ]),
        Some(vec![
            RawFileSlice::new("a".to_string(), "literal".to_string(), 0, None, None),
            RawFileSlice::new("{{ b }}".to_string(), "templated".to_string(), 1, None, None),
            RawFileSlice::new("c".to_string(), "literal".to_string(), 8, None, None),
        ]),
    )
    .unwrap()
}

#[test]
fn a_fix_that_touches_a_template_is_a_conflict() {
    let file = templated();
    let token = |id: u32, raw: &str, source: std::ops::Range<usize>, t: std::ops::Range<usize>| {
        SegmentBuilder::token(id, raw, SyntaxKind::Word)
            .with_position(PositionMarker::new(source, t, file.clone(), None, None))
            .finish()
    };
    let a = token(0, "a", 0..1, 0..1);
    let x = token(1, "X", 1..8, 1..2);
    let c = token(2, "c", 8..9, 2..3);
    let new = SegmentBuilder::token(9, "n", SyntaxKind::Word).finish();

    let delete_x = LintFix::delete(x.clone());
    assert!(matches!(delete_x.fix_lookup(false), SliceLookup::Templated(r) if r == (1..2)));
    assert!(delete_x.has_template_conflicts(&file, Some(1..8)));
    let delete_a = LintFix::delete(a.clone());
    assert!(!delete_a.has_template_conflicts(&file, Some(0..1)));
    // Before `c` there is a template, but `c` itself is not of it.
    let before_c = LintFix::create_before(c.clone(), vec![new.clone()]);
    assert!(matches!(before_c.fix_lookup(false), SliceLookup::Templated(r) if r == (1..3)));
    assert!(matches!(before_c.fix_lookup(true), SliceLookup::Templated(r) if r == (1..2)));
    assert!(!before_c.has_template_conflicts(&file, Some(1..9)));
    assert_eq!(before_c.fix_slices(&file, true, Some(1..8)).len(), 1);
    assert!(before_c.fix_slices(&file, true, Some(1..8))[0].is_templated());
    let after_a = LintFix::create_after(a.clone(), vec![new.clone()], None);
    assert!(matches!(after_a.fix_lookup(false), SliceLookup::Templated(r) if r == (0..2)));
    // Where the templater cannot say, the end of the file stands in, which is literal.
    let slices = after_a.fix_slices(&file, false, None);
    assert_eq!(slices.len(), 1);
    assert_eq!(slices[0].source_idx, usize::MAX);
    assert!(!after_a.has_template_conflicts(&file, None));
    // A replacement of something without width in the source touches nothing.
    let point = token(3, "", 8..8, 2..2);
    let replace_point = LintFix::replace(point, vec![new.clone()], None);
    assert!(matches!(replace_point.fix_lookup(false), SliceLookup::Nothing));
    assert!(!replace_point.has_template_conflicts(&file, None));
    // A replacement made of source fixes is looked up by the first of them.
    let with_fix = SegmentBuilder::node(7, SyntaxKind::Statement, DialectKind::Ansi, vec![])
        .with_source_fixes(vec![SourceFix::new("{{b}}".to_string(), 1..8, 1..2)])
        .finish();
    let source_edit = LintFix::replace(x.clone(), vec![with_fix], None);
    assert!(matches!(source_edit.fix_lookup(false), SliceLookup::Source(r) if r == (1..8)));
    assert!(source_edit.has_template_conflicts(&file, None));

    // A result with a conflicting fix is dropped whole.
    let rule = sqruff_lib::errors::RuleInfo {
        code: "X1".to_string(),
        name: "x.one".to_string(),
        description: "x".to_string(),
    };
    let mut errors = Vec::new();
    let mut fixes = Vec::new();
    let bad = LintResult::new(Some(a.clone()), vec![delete_a.clone(), delete_x], None, None, None);
    assert!(!process_lint_result(&rule, bad, &file, &vec![Some(0..1), Some(1..8)], &mut errors, &mut fixes));
    assert!(errors.is_empty() && fixes.is_empty());
    let good = LintResult::new(Some(a.clone()), vec![delete_a], None, None, None);
    assert!(process_lint_result(&rule, good, &file, &vec![Some(0..1)], &mut errors, &mut fixes));
    assert_eq!((errors.len(), fixes.len()), (1, 1));
    assert_eq!(errors[0].base.rule_code(), "X1");
    let silent = LintResult::new(None, vec![], None, None, None);
    assert!(process_lint_result(&rule, silent, &file, &vec![], &mut errors, &mut fixes));
    assert_eq!((errors.len(), fixes.len()), (1, 1));
}

#[test]
fn the_way_down_to_a_leaf_is_known() {
    let segs = generate_test_segments_func(vec!["a", " ", "b", " ", "c"]);
    let inner = node(10, SyntaxKind::SelectClause, segs[1..5].to_vec());
    let root = node(11, SyntaxKind::File, vec![segs[0].clone(), inner.clone()]);
    let with_ancestors = root.raw_segments_with_ancestors();
    assert_eq!(with_ancestors.len(), 5);
    let depths: Vec<usize> = with_ancestors.iter().map(|(_, stack)| stack.len()).collect();
    assert_eq!(depths, vec![1, 2, 2, 2, 2]);
    let (leaf, stack) = &with_ancestors[2];
    assert_eq!(leaf.raw(), "b");
    assert_eq!((stack[0].idx, stack[0].len), (1, 2));
    assert_eq!((stack[1].idx, stack[1].len), (1, 4));
    assert_eq!(stack[1].code_idxs, vec![1, 3]);
    assert_eq!(StackPosition::stack_pos_interpreter(&stack[1]), "start");
    assert_eq!(StackPosition::stack_pos_interpreter(&with_ancestors[4].1[1]), "end");
    assert_eq!(StackPosition::stack_pos_interpreter(&with_ancestors[1].1[1]), "");
    // At the root both segments are code.
    assert_eq!(StackPosition::from_path_step(&stack[0]).type_, "end");
    assert_eq!(StackPosition::from_path_step(&with_ancestors[0].1[0]).type_, "start");

    let info = DepthInfo::from_raw_and_stack(leaf, stack.iter().map(|s| s.copy()).collect());
    assert_eq!(info.stack_depth, 2);
    assert_eq!(info.stack_hashes, vec![11, 10]);
    assert!(info.stack_class_types[1].contains(SyntaxKind::SelectClause));
    let trimmed = info.trim(1);
    assert_eq!(trimmed.stack_hashes, vec![11]);
    assert_eq!(trimmed.stack_positions.len(), 1);
    assert_eq!(trimmed.stack_positions[0].0, 11);
    assert_eq!(info.trim(0).stack_positions.len(), 2);
    let top = DepthInfo::from_raw_and_stack(&segs[0], with_ancestors[0].1.iter().map(|s| s.copy()).collect());
    assert_eq!(info.common_with(&top), vec![11]);
    assert_eq!(info.common_with(&info), vec![11, 10]);

    let mut map = DepthMap::from_parent(&root);
    assert_eq!(map.get_depth_info(&segs[2]).unwrap().stack_depth, 2);
    assert_eq!(map.get_depth_info(&segs[0]).unwrap().stack_depth, 1);
    assert!(map.get_depth_info(&root).is_none());
    let new = SegmentBuilder::token(50, "n", SyntaxKind::Word).finish();
    assert!(map.copy_depth_info(&segs[2], &new, 1));
    assert_eq!(map.get_depth_info(&new).unwrap().stack_hashes, vec![11]);
    assert!(!map.copy_depth_info(&root, &new, 0));
    assert!(!map.copy_depth_info(&segs[2], &new, 3));
    let by_path = DepthMap::from_raws_and_root(vec![segs[4].clone(), segs[0].clone()], &root);
    assert_eq!(by_path.get_depth_info(&segs[4]).unwrap().stack_hashes, vec![11, 10]);
    assert_eq!(by_path.get_depth_info(&segs[0]).unwrap().stack_depth, 1);
}

#[test]
fn more_questions_to_a_tree() {
    let segs = generate_test_segments_func(vec!["", "select", " ", "b"]);
    let kw = retyped(&segs[1], SyntaxKind::Keyword);
    assert!(kw.is_keyword("SELECT"));
    assert!(kw.is_keyword("select"));
    assert!(!kw.is_keyword("selec"));
    assert!(!segs[3].is_keyword("b"));
    assert_eq!(segs[3].get_raw_upper(), Some("B".to_string()));
    let inner = node(20, SyntaxKind::SelectClause, vec![segs[0].clone(), kw.clone()]);
    let root = node(21, SyntaxKind::File, vec![inner.clone(), segs[2].clone(), segs[3].clone()]);
    assert_eq!(root.first_non_whitespace_segment_raw_upper(), Some("SELECT".to_string()));
    assert_eq!(segs[0].first_non_whitespace_segment_raw_upper(), None);
    assert_eq!(root.iter_segments(None, false).len(), 3);
    let expanded = root.iter_segments(Some(&SyntaxSet::single(SyntaxKind::SelectClause)), false);
    let raws: Vec<String> = expanded.iter().map(|s| s.raw()).collect();
    assert_eq!(raws, vec!["", "select", " ", "b"]);
    assert!(segs[3].iter_segments(None, false).is_empty());

    let none: Option<fn(&ErasedSegment) -> bool> = None;
    let all = root.select_children(None, None, none, none);
    assert_eq!(all.len(), 3);
    let after = root.select_children(Some(&inner), None, none, none);
    assert_eq!(after.len(), 2);
    let between = root.select_children(Some(&inner), Some(&segs[3]), none, none);
    assert_eq!(between.len(), 1);
    assert_eq!(between[0].raw(), " ");
    let code = root.select_children(None, None, Some(|s: &ErasedSegment| s.is_code()), none);
    assert_eq!(code.len(), 2);
    let leading = root.select_children(None, None, none, Some(|s: &ErasedSegment| s.is_code()));
    assert_eq!(leading.len(), 1);
    assert!(root.select_children(Some(&segs[3]), Some(&inner), none, none).is_empty());

    assert!(!segs[3].is_templated());
    assert_eq!(segs[3].get_start_loc(), (1, 8));
    assert_eq!(segs[3].get_end_loc(), (1, 9));
    assert_eq!(inner.dialect(), DialectKind::Ansi);
    assert!(root.can_start_end_non_code());
    assert!(!inner.can_start_end_non_code());
    assert!(root.direct_descendant_type_set().contains(SyntaxKind::SelectClause));
    assert!(!root.direct_descendant_type_set().contains(SyntaxKind::Keyword));

    let start = get_point_pos_at_idx(&segs, 1).unwrap();
    assert_eq!(start.source_slice, 0..0);
    let end = get_point_pos_at_idx(&segs, 4).unwrap();
    assert_eq!(end.source_slice, 8..8);
    assert!(get_point_pos_at_idx(&segs, 6).is_none());

    let keyword = KeywordSegment::new(41, "AS".to_string(), None).to_erased_segment();
    assert_eq!(keyword.id(), 41);
    assert_eq!(keyword.get_type(), SyntaxKind::Keyword);
    assert_eq!(keyword.raw(), "AS");
    let bracketed = BracketedSegment::new(42, segs[1..4].to_vec(), vec![], vec![], false);
    assert_eq!(bracketed.id, 42);
    assert_eq!(bracketed.pos_marker.as_ref().unwrap().source_slice, 0..8);
    assert!(BracketedSegment::new(43, segs[1..4].to_vec(), vec![], vec![], true).pos_marker.is_none());
    let seg = bracketed.to_erased_segment(DialectKind::Ansi);
    assert_eq!(seg.get_type(), SyntaxKind::Bracketed);
    assert_eq!(seg.raw(), "select b");
}

#[test]
fn a_rule_that_broke_down_is_reported_at_the_segment_and_its_run_ends() {
    let segs = sqruff_lib::test_functions::raw_segments();
    let file = segs[0].get_position_marker().unwrap().templated_file.clone();
    let context = RuleContext {
        segment: segs[1].clone(),
        parent_stack: vec![],
        raw_stack: vec![],
        segment_idx: 1,
        fix: true,
        templated_file: Some(file.clone()),
    };
    let info = RuleInfo {
        code: "X1".to_string(),
        name: "x".to_string(),
        description: "A rule.".to_string(),
    };
    let mut vs = Vec::new();
    let mut fixes = Vec::new();
    assert!(!crawl_step(&info, &context, None, &file, &Vec::new(), &mut vs, &mut fixes));
    assert_eq!(vs.len(), 1);
    assert!(fixes.is_empty());
    assert_eq!(vs[0].base.source_slice, 6..13);
    assert!(vs[0].base.description.starts_with("Unexpected exception."));
    // What a rule gives back is kept, result by result.
    let results = vec![
        LintResult::new(Some(segs[0].clone()), vec![LintFix::delete(segs[0].clone())], None, None, None),
        LintResult::new(None, vec![], None, None, None),
    ];
    let mapped = vec![vec![Some(0..6)], vec![]];
    assert!(crawl_step(&info, &context, Some(results), &file, &mapped, &mut vs, &mut fixes));
    assert_eq!(vs.len(), 2);
    assert_eq!(vs[1].base.description, "A rule.");
    assert_eq!(vs[1].base.source_slice, 0..6);
    assert_eq!(fixes.len(), 1);
    // A rule is left out for a dialect that it skips, unless it is forced on.
    assert!(is_skipped(&vec![DialectKind::Trino, DialectKind::Ansi], false, DialectKind::Ansi));
    assert!(!is_skipped(&vec![DialectKind::Trino, DialectKind::Ansi], true, DialectKind::Ansi));
    assert!(!is_skipped(&vec![DialectKind::Trino], false, DialectKind::Ansi));
    assert!(!is_skipped(&Vec::new(), false, DialectKind::Ansi));
}
