use sqruff_lib::anchors::compute_anchor_edit_info;
use sqruff_lib::ansi::lexer_matchers;
use sqruff_lib::crawlers::{BaseCrawler, RuleContext};
use sqruff_lib::fix::LintFix;
use sqruff_lib::lexer::{Lexer, StringOrTemplate};
use sqruff_lib::linted_file::LintedFile;
use sqruff_lib::lints::Rule;
use sqruff_lib::patches::FixPatch;
use sqruff_lib::position::position_segments;
use sqruff_lib::rules::RuleLT13;
use sqruff_lib::segment::{ErasedSegment, SegmentBuilder, Tables};
use sqruff_lib::syntax::{DialectKind, SyntaxKind};
use sqruff_lib::templater::{RawFileSlice, TemplatedFile, TemplatedFileSlice};

fn parse_flat(sql: &str, tables: &mut Tables) -> (ErasedSegment, TemplatedFile) {
    let lexer = Lexer::new(lexer_matchers());
    let (tokens, errors) = lexer.lex(StringOrTemplate::String(sql.to_string()), tables);
    assert!(errors.is_empty());
    let file = tokens[0].get_position_marker().unwrap().templated_file.clone();
    let tree = SegmentBuilder::node(tables.next_id(), SyntaxKind::File, DialectKind::Ansi, tokens)
        .position_from_segments()
        .finish();
    (tree, file)
}

fn fixed(tree: ErasedSegment, file: TemplatedFile) -> String {
    LintedFile { path: "test.sql".to_string(), tree, templated_file: file, violations: vec![] }
        .fix_string()
}

#[test]
fn a_tree_that_was_not_fixed_gives_back_the_source() {
    let mut tables = Tables::default();
    for sql in ["", "a", "select foo.bar from table1 foo", "  \n-- c\nselect 1;\n"] {
        let (tree, file) = parse_flat(sql, &mut tables);
        assert_eq!(tree.raw(), sql);
        assert!(tree.iter_patches(&file).is_empty());
        assert_eq!(fixed(tree, file), sql);
    }
}

#[test]
fn no_fixes_leave_the_tree_as_it_is() {
    let mut tables = Tables::default();
    let (tree, _) = parse_flat("select 1", &mut tables);
    let mut none = compute_anchor_edit_info(vec![]);
    let (same, before, after, validated) = tree.apply_fixes(&mut none);
    assert!(validated);
    assert!(before.is_empty() && after.is_empty());
    assert_eq!(same.raw(), "select 1");
    assert_eq!(same.id(), tree.id());
    assert_eq!(same.segments().len(), tree.segments().len());
    for (a, b) in same.segments().iter().zip(tree.segments()) {
        assert_eq!(a.id(), b.id());
        assert_eq!(a.get_type(), b.get_type());
        assert_eq!(a.raw(), b.raw());
    }
}

#[test]
fn fixes_without_an_anchor_in_the_tree_change_nothing_of_its_content() {
    let mut tables = Tables::default();
    let (tree, file) = parse_flat("select 1", &mut tables);
    let stranger = SegmentBuilder::token(4000, "x", SyntaxKind::Word).finish();
    let mut fixes = compute_anchor_edit_info(vec![LintFix::delete(stranger)]);
    let (once, _, _, validated) = tree.apply_fixes(&mut fixes);
    assert!(!validated);
    // The fix found no anchor: it is still there.
    assert_eq!(fixes.len(), 1);
    assert_eq!(once.raw(), "select 1");
    let ids: Vec<u32> = once.recursive_crawl_all(false).iter().map(|s| s.id()).collect();
    let was: Vec<u32> = tree.recursive_crawl_all(false).iter().map(|s| s.id()).collect();
    assert_eq!(ids, was);
    let (twice, _, _, _) = once.apply_fixes(&mut fixes);
    assert_eq!(twice.raw(), "select 1");
    assert_eq!(fixed(twice, file), "select 1");
}

#[test]
fn leading_white_space_is_reported_and_deleted() {
    let mut tables = Tables::default();
    let (tree, file) = parse_flat("     SELECT 1", &mut tables);
    let rule = RuleLT13;
    let root = RuleContext::root(tree.clone(), true, Some(file.clone()));
    let contexts = rule.crawl_behaviour().crawl(root);
    assert_eq!(contexts.len(), 1);
    let results = rule.eval(&contexts[0], &mut tables);
    assert_eq!(results.len(), 1);
    assert_eq!(results[0].anchor.as_ref().unwrap().id(), tree.id());
    assert_eq!(results[0].fixes.len(), 1);
    assert_eq!(results[0].fixes[0].anchor.raw(), "     ");
    let fixes: Vec<LintFix> = results.into_iter().flat_map(|r| r.fixes).collect();
    let mut info = compute_anchor_edit_info(fixes);
    let (tree, _, _, validated) = tree.apply_fixes(&mut info);
    assert!(!validated);
    assert!(info.is_empty());
    assert_eq!(tree.raw(), "SELECT 1");
    assert_eq!(fixed(tree.clone(), file.clone()), "SELECT 1");
    // A second pass finds nothing to report.
    let root = RuleContext::root(tree, true, Some(file));
    let contexts = rule.crawl_behaviour().crawl(root);
    assert!(rule.eval(&contexts[0], &mut tables).is_empty());
}

#[test]
fn a_file_that_starts_with_code_is_not_reported() {
    let mut tables = Tables::default();
    for sql in ["SELECT 1", "-- c\nSELECT 1", ""] {
        let (tree, file) = parse_flat(sql, &mut tables);
        let root = RuleContext::root(tree, true, Some(file));
        let contexts = RuleLT13.crawl_behaviour().crawl(root);
        assert!(RuleLT13.eval(&contexts[0], &mut tables).is_empty(), "{sql:?}");
    }
    // White space before the end of the file is white space at its start.
    let (tree, file) = parse_flat(" \n ", &mut tables);
    let root = RuleContext::root(tree, true, Some(file));
    let contexts = RuleLT13.crawl_behaviour().crawl(root);
    let results = RuleLT13.eval(&contexts[0], &mut tables);
    assert_eq!(results.len(), 1);
    assert_eq!(results[0].fixes.len(), 3);
}

#[test]
fn a_keyword_is_put_before_an_alias() {
    let mut tables = Tables::default();
    let (tree, file) = parse_flat("select foo.bar from table1 foo", &mut tables);
    let alias = tree.segments()[10].clone();
    assert_eq!(alias.raw(), "foo");
    let fix = LintFix::create_before(
        alias,
        vec![
            SegmentBuilder::keyword(tables.next_id(), "AS"),
            SegmentBuilder::whitespace(tables.next_id(), " "),
        ],
    );
    let mut info = compute_anchor_edit_info(vec![fix]);
    let (tree, _, _, _) = tree.apply_fixes(&mut info);
    assert_eq!(tree.raw(), "select foo.bar from table1 AS foo");
    // Every segment has its place again.
    let places: Vec<(usize, usize)> =
        tree.segments().iter().map(|s| s.get_position_marker().unwrap().working_loc()).collect();
    assert_eq!(places[10], (1, 28));
    assert_eq!(places[11], (1, 30));
    assert_eq!(places[12], (1, 31));
    assert_eq!(fixed(tree, file), "select foo.bar from table1 AS foo");
}

#[test]
fn replacing_and_deleting_and_creating_after() {
    let mut tables = Tables::default();
    let (tree, file) = parse_flat("a b c", &mut tables);
    let a = tree.segments()[0].clone();
    let b = tree.segments()[2].clone();
    let c = tree.segments()[4].clone();
    let fixes = vec![
        LintFix::replace(a, vec![SegmentBuilder::token(tables.next_id(), "A", SyntaxKind::Word).finish()], None),
        LintFix::delete(b),
        LintFix::create_after(c, vec![SegmentBuilder::symbol(tables.next_id(), ";")], None),
    ];
    let mut info = compute_anchor_edit_info(fixes);
    let (tree, _, _, _) = tree.apply_fixes(&mut info);
    assert_eq!(tree.raw(), "A  c;");
    assert_eq!(fixed(tree, file), "A  c;");
}

#[test]
fn a_fix_below_is_applied_below() {
    let mut tables = Tables::default();
    let lexer = Lexer::new(lexer_matchers());
    let (tokens, _) = lexer.lex(StringOrTemplate::String("select 1 , 2".to_string()), &mut tables);
    let file = tokens[0].get_position_marker().unwrap().templated_file.clone();
    let clause = SegmentBuilder::node(
        tables.next_id(),
        SyntaxKind::SelectClause,
        DialectKind::Ansi,
        tokens[0..7].to_vec(),
    )
    .position_from_segments()
    .finish();
    let tree = SegmentBuilder::node(
        tables.next_id(),
        SyntaxKind::File,
        DialectKind::Ansi,
        vec![clause, tokens[7].clone()],
    )
    .position_from_segments()
    .finish();
    let space = tree.segments()[0].segments()[3].clone();
    assert_eq!(space.raw(), " ");
    let mut info = compute_anchor_edit_info(vec![LintFix::delete(space)]);
    let (tree, _, _, _) = tree.apply_fixes(&mut info);
    assert!(info.is_empty());
    assert_eq!(tree.raw(), "select 1, 2");
    assert_eq!(tree.segments()[0].get_type(), SyntaxKind::SelectClause);
    assert_eq!(fixed(tree, file), "select 1, 2");
}

#[test]
fn realignment_gives_every_segment_a_place() {
    let mut tables = Tables::default();
    let (tree, _) = parse_flat("a\nbc d", &mut tables);
    let mut level: Vec<ErasedSegment> = tree.segments().to_vec();
    level.insert(3, SegmentBuilder::token(900, "XY", SyntaxKind::Word).finish());
    let placed = position_segments(&level, tree.get_position_marker().unwrap());
    assert_eq!(placed.len(), level.len());
    for (a, b) in placed.iter().zip(&level) {
        assert_eq!(a.raw(), b.raw());
        assert_eq!(a.id(), b.id());
        assert!(a.get_position_marker().is_some());
    }
    let locs: Vec<(usize, usize)> =
        placed.iter().map(|s| s.get_position_marker().unwrap().working_loc()).collect();
    assert_eq!(locs, vec![(1, 1), (1, 2), (2, 1), (2, 3), (2, 5), (2, 6), (2, 7)]);
    let new = placed[3].get_position_marker().unwrap();
    assert_eq!((new.source_slice.start, new.source_slice.end), (4, 4));
    assert!(position_segments(&[], tree.get_position_marker().unwrap()).is_empty());
}

#[test]
fn an_insertion_has_a_slice_of_its_own() {
    let patches = vec![FixPatch::new(
        1..1,
        "b".to_string(),
        "".to_string(),
        1..1,
        "".to_string(),
        "".to_string(),
    )];
    let slices = LintedFile::slice_source_file_using_patches(patches.clone(), vec![], "ac");
    assert_eq!(slices, vec![0..1, 1..1, 1..2]);
    assert_eq!(LintedFile::build_up_fixed_source_string(&slices, &patches, "ac"), "abc");
}

#[test]
fn patches_that_follow_each_other_leave_the_rest_untouched() {
    let source = "h\u{e9}llo w\u{f6}rld, ok";
    let patches = vec![
        FixPatch::new(0..0, ">".to_string(), "".to_string(), 0..0, "".to_string(), "".to_string()),
        FixPatch::new(0..1, "H".to_string(), "".to_string(), 0..1, "".to_string(), "".to_string()),
        FixPatch::new(7..13, "W".to_string(), "".to_string(), 7..13, "".to_string(), "".to_string()),
        FixPatch::new(13..13, "!".to_string(), "".to_string(), 13..13, "".to_string(), "".to_string()),
    ];
    let slices = LintedFile::slice_source_file_using_patches(patches.clone(), vec![], source);
    assert_eq!(slices, vec![0..0, 0..1, 1..7, 7..13, 13..13, 13..17]);
    // The slices lie side by side from the start of the source to its end.
    let mut at = 0;
    for s in &slices {
        assert_eq!(s.start, at);
        assert!(s.start <= s.end);
        at = s.end;
    }
    assert_eq!(at, source.len());
    let out = LintedFile::build_up_fixed_source_string(&slices, &patches, source);
    assert_eq!(out, ">H\u{e9}llo W!, ok");
    let again = LintedFile::build_up_fixed_source_string(&slices, &patches, source);
    assert_eq!(out, again);
}

#[test]
fn a_patch_that_overlaps_is_passed_over() {
    let patches = vec![
        FixPatch::new(0..3, "X".to_string(), "".to_string(), 0..3, "".to_string(), "".to_string()),
        FixPatch::new(1..2, "Y".to_string(), "".to_string(), 1..2, "".to_string(), "".to_string()),
    ];
    let slices = LintedFile::slice_source_file_using_patches(patches.clone(), vec![], "abcd");
    assert_eq!(slices, vec![0..3, 3..4]);
    assert_eq!(LintedFile::build_up_fixed_source_string(&slices, &patches, "abcd"), "Xd");
}

#[test]
fn duplicate_patches_are_dropped_and_the_rest_sorted() {
    let file = TemplatedFile::new(
        "abcd".to_string(),
        "t.sql".to_string(),
        Some("aXcd".to_string()),
        Some(vec![
            TemplatedFileSlice::new("literal", 0..1, 0..1),
            TemplatedFileSlice::new("templated", 1..2, 1..2),
            TemplatedFileSlice::new("literal", 2..4, 2..4),
        ]),
        Some(vec![
            RawFileSlice::new("a".to_string(), "literal".to_string(), 0, None, None),
            RawFileSlice::new("b".to_string(), "templated".to_string(), 1, None, None),
            RawFileSlice::new("cd".to_string(), "literal".to_string(), 2, None, None),
        ]),
    )
    .unwrap();
    let marker = |a: usize, b: usize| {
        sqruff_lib::markers::PositionMarker::new(a..b, a..b, file.clone(), None, None)
    };
    let d = SegmentBuilder::token(3, "D", SyntaxKind::Word).with_position(marker(3, 4)).finish();
    let c = SegmentBuilder::token(2, "C", SyntaxKind::Word).with_position(marker(2, 3)).finish();
    let a = SegmentBuilder::token(0, "a", SyntaxKind::Word).with_position(marker(0, 1)).finish();
    let x = SegmentBuilder::token(1, "X", SyntaxKind::Word).with_position(marker(1, 2)).finish();
    // The tokens stand in the tree out of order and one of them twice.
    let tree = SegmentBuilder::node(9, SyntaxKind::File, DialectKind::Ansi, vec![a, x, d.clone(), c, d])
        .with_position(marker(0, 4))
        .finish();
    assert!(!tree.get_position_marker().unwrap().is_literal());
    let patches = LintedFile::generate_source_patches(tree, &file);
    let got: Vec<(usize, usize, &str)> = patches
        .iter()
        .map(|p| (p.source_slice.start, p.source_slice.end, p.fixed_raw.as_str()))
        .collect();
    // What is skipped before the first `D` is patched away; the second `D` is dropped.
    assert_eq!(got, vec![(2, 3, ""), (2, 3, "C"), (3, 4, "D")]);
    assert_eq!(patches[0].patch_category, "mid_point");
    assert_eq!(patches[1].patch_category, "literal");
    assert_eq!(patches[1].source_str, "c");
    assert_eq!(patches[1].dedupe_tuple(), (2..3, "C".to_string()));
}
