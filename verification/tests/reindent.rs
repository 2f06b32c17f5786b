use std::collections::HashSet;

use sqruff_lib::anchors::compute_anchor_edit_info;
use sqruff_lib::ansi::lexer_matchers;
use sqruff_lib::fix::LintFix;
use sqruff_lib::indent_crawl::{crawl_indent_points, map_line_buffers};
use sqruff_lib::indent_lint::{deduce_line_current_indent, lint_indent_points, repeat_text};
use sqruff_lib::lexer::{Lexer, StringOrTemplate};
use sqruff_lib::linted_file::LintedFile;
use sqruff_lib::reflow::{ReflowBlock, ReflowElement, ReflowPoint};
use sqruff_lib::reindent::{has_untemplated_newline, IndentLine, IndentPoint, IndentStats};
use sqruff_lib::rules::LintResult;
use sqruff_lib::segment::{ErasedSegment, SegmentBuilder, Tables};
use sqruff_lib::syntax::{DialectKind, SyntaxKind};
use sqruff_lib::templater::TemplatedFile;

fn stats(impulse: usize, trough: usize) -> IndentStats {
    IndentStats { impulse, trough, implicit_indents: vec![] }
}

fn lex(sql: &str, tables: &mut Tables) -> Vec<ErasedSegment> {
    let lexer = Lexer::new(lexer_matchers());
    let (tokens, errors) = lexer.lex(StringOrTemplate::String(sql.to_string()), tables);
    assert!(errors.is_empty());
    tokens
}

/// The tokens as blocks and the stretches between them. The stretches
/// take their numbers from `impulses`, in order, and change nothing where
/// that has run out.
fn elements_of(tokens: &[ErasedSegment], impulses: &[usize]) -> Vec<ReflowElement> {
    let mut impulses = impulses.iter();
    let mut point = |segments: Vec<ErasedSegment>| {
        let impulse = impulses.next().copied().unwrap_or(0);
        ReflowElement::Point(ReflowPoint::new(segments, stats(impulse, 0)))
    };
    let mut elements = Vec::new();
    let mut buffer = Vec::new();
    for token in tokens {
        let layout = matches!(
            token.get_type(),
            SyntaxKind::Whitespace
                | SyntaxKind::Newline
                | SyntaxKind::Indent
                | SyntaxKind::Implicit
                | SyntaxKind::Dedent
        );
        if layout {
            buffer.push(token.clone());
            continue;
        }
        if !elements.is_empty() || !buffer.is_empty() {
            elements.push(point(std::mem::take(&mut buffer)));
        }
        elements.push(ReflowElement::Block(ReflowBlock { segments: vec![token.clone()] }));
    }
    if !buffer.is_empty() {
        elements.push(point(buffer));
    }
    elements
}

fn lint(sql: &str, impulses: &[usize]) -> Option<(ErasedSegment, TemplatedFile, Vec<LintResult>)> {
    let mut tables = Tables::default();
    let tokens = lex(sql, &mut tables);
    let file = tokens[0].get_position_marker().unwrap().templated_file.clone();
    let elements = elements_of(&tokens, impulses);
    let tree = SegmentBuilder::node(tables.next_id(), SyntaxKind::File, DialectKind::Ansi, tokens)
        .position_from_segments()
        .finish();
    let (_, results) = lint_indent_points(elements, "    ", HashSet::new(), false, &mut tables)?;
    Some((tree, file, results))
}

fn fix(sql: &str, impulses: &[usize]) -> String {
    let (tree, file, results) = lint(sql, impulses).unwrap();
    let fixes: Vec<LintFix> = results.into_iter().flat_map(|result| result.fixes).collect();
    let mut info = compute_anchor_edit_info(fixes);
    let (tree, _, _, _) = tree.apply_fixes(&mut info);
    LintedFile { path: "test.sql".to_string(), tree, templated_file: file, violations: vec![] }
        .fix_string()
}

fn descriptions(sql: &str, impulses: &[usize]) -> Vec<String> {
    let (_, _, results) = lint(sql, impulses).unwrap();
    results.into_iter().map(|result| result.description.unwrap()).collect()
}

fn shape(p: &IndentPoint) -> (usize, usize, usize, usize, Option<usize>, bool, Vec<usize>) {
    (
        p.idx,
        p.indent_impulse,
        p.indent_trough,
        p.initial_indent_balance,
        p.last_line_break_idx,
        p.is_line_break,
        p.untaken_indents.clone(),
    )
}

#[test]
fn test_fail_reindent_first_line_1() {
    let fail_str = "     SELECT 1";
    let violations = descriptions(fail_str, &[]);

    assert_eq!(violations[0], "First line should not be indented.");
    assert_eq!(violations.len(), 1);
}

#[test]
fn test_fail_reindent_first_line_2() {
    let fixed = fix("  select 1 from tbl;", &[]);
    assert_eq!(fixed, "select 1 from tbl;");
}

#[test]
fn the_indent_of_the_first_line_is_deleted_whole() {
    let (_, _, results) = lint("     SELECT 1", &[]).unwrap();
    assert_eq!(results.len(), 1);
    assert_eq!(results[0].anchor.as_ref().unwrap().raw(), "     ");
    assert_eq!(results[0].fixes.len(), 1);
    assert_eq!(results[0].fixes[0].anchor.raw(), "     ");
    assert!(results[0].fixes[0].edit.is_none());
    assert_eq!(fix("     SELECT 1", &[]), "SELECT 1");
}

#[test]
fn a_first_line_that_is_not_indented_passes() {
    assert!(descriptions("SELECT 1", &[]).is_empty());
    assert!(descriptions("SELECT 1\nFROM t\n", &[]).is_empty());
    assert_eq!(fix("SELECT 1\nFROM t\n", &[]), "SELECT 1\nFROM t\n");
}

#[test]
fn a_line_that_is_indented_without_cause_loses_its_indent() {
    assert_eq!(descriptions("SELECT 1\n    FROM t", &[]), vec!["Line should not be indented."]);
    assert_eq!(fix("SELECT 1\n    FROM t", &[]), "SELECT 1\nFROM t");
}

#[test]
fn a_line_after_an_indent_is_to_be_indented_by_one_step() {
    // The stretch with the line break raises the balance by one.
    assert!(descriptions("a\n    b", &[1]).is_empty());
    assert_eq!(descriptions("a\n  b", &[1]), vec!["Expected indent of 4 spaces."]);
    assert_eq!(fix("a\n  b", &[1]), "a\n    b");
    assert_eq!(descriptions("a\nb", &[1]), vec!["Expected indent of 4 spaces."]);
    assert_eq!(fix("a\nb", &[1]), "a\n    b");
}

#[test]
fn an_indent_that_was_not_taken_does_not_count() {
    // The balance rises between `a` and `b`, where no line starts.
    assert!(descriptions("a b\nc", &[1]).is_empty());
    assert_eq!(descriptions("a b\n    c", &[1]), vec!["Line should not be indented."]);
}

#[test]
fn the_points_of_a_walk() {
    let mut tables = Tables::default();
    let tokens = lex("a b\nc", &mut tables);
    let elements = elements_of(&tokens, &[1]);
    assert_eq!(elements.len(), 7);
    let points = crawl_indent_points(&elements, false).unwrap();
    let shapes: Vec<_> = points.iter().map(shape).collect();
    assert_eq!(
        shapes,
        vec![
            (1, 1, 0, 0, None, false, vec![]),
            (3, 0, 0, 1, None, true, vec![1]),
            (5, 0, 0, 1, Some(3), false, vec![1]),
        ]
    );
    let (lines, imbalanced) = map_line_buffers(&elements, false).unwrap();
    assert!(imbalanced.is_empty());
    assert_eq!(lines.len(), 2);
    assert_eq!(lines[0].initial_indent_balance, 0);
    assert_eq!(lines[0].indent_points.len(), 2);
    assert_eq!(lines[1].initial_indent_balance, 1);
    assert_eq!(lines[1].indent_points.iter().map(|p| p.idx).collect::<Vec<_>>(), vec![3, 5]);
    assert_eq!(lines[1].desired_indent_units(&[]), Some(0));
    assert_eq!(lines[1].desired_indent_units(&[1, 2]), Some(2));
}

#[test]
fn a_comment_on_a_line_of_its_own_is_passed_over() {
    let mut tables = Tables::default();
    let tokens = lex("a\n-- x\nb", &mut tables);
    let elements = elements_of(&tokens, &[]);
    let points = crawl_indent_points(&elements, false).unwrap();
    let shapes: Vec<_> = points.iter().map(shape).collect();
    assert_eq!(
        shapes,
        vec![
            (1, 0, 0, 0, None, true, vec![]),
            (3, 0, 0, 0, Some(1), true, vec![]),
            (5, 0, 0, 0, Some(3), false, vec![]),
        ]
    );
    assert!(descriptions("a\n-- x\nb", &[]).is_empty());
}

#[test]
fn a_walk_that_cannot_go_on_has_no_answer() {
    let mut tables = Tables::default();
    // A comment after code, on the line of the code.
    let tokens = lex("a -- x\nb", &mut tables);
    assert!(crawl_indent_points(&elements_of(&tokens, &[]), false).is_none());
    assert!(lint("a -- x\nb", &[]).is_none());
    // A stretch that nothing follows.
    let tokens = lex("a ", &mut tables);
    let mut elements = elements_of(&tokens, &[]);
    elements.pop();
    assert!(crawl_indent_points(&elements, false).is_none());
    // Implicit indents.
    let tokens = lex("a b", &mut tables);
    let mut elements = elements_of(&tokens, &[]);
    elements[1] = ReflowElement::Point(ReflowPoint::new(
        vec![tokens[1].clone()],
        IndentStats { impulse: 1, trough: 0, implicit_indents: vec![1] },
    ));
    assert!(crawl_indent_points(&elements, false).is_none());
    assert!(map_line_buffers(&elements, false).is_none());
}

#[test]
fn the_indent_of_a_line_is_the_white_space_after_its_line_break() {
    let mut tables = Tables::default();
    let tokens = lex("  a\n\n   b", &mut tables);
    let elements = elements_of(&tokens, &[]);
    assert_eq!(deduce_line_current_indent(&elements, None), Some("  ".to_string()));
    assert_eq!(deduce_line_current_indent(&elements, Some(2)), Some("   ".to_string()));
    // No stretch is at that place.
    assert_eq!(deduce_line_current_indent(&elements, Some(1)), None);
    assert_eq!(deduce_line_current_indent(&elements, Some(40)), None);
    assert_eq!(deduce_line_current_indent(&Vec::new(), None), None);
    // A file that starts with code starts with no indent.
    let tokens = lex("a\n b", &mut tables);
    let elements = elements_of(&tokens, &[]);
    assert_eq!(deduce_line_current_indent(&elements, None), Some(String::new()));
}

#[test]
fn a_stretch_knows_its_indent_and_its_new_lines() {
    let mut tables = Tables::default();
    let tokens = lex("a \n  \n   b c", &mut tables);
    let elements = elements_of(&tokens, &[]);
    let ReflowElement::Point(point) = &elements[1] else { panic!("no stretch") };
    assert!(has_untemplated_newline(point));
    assert_eq!(point.get_indent_segment().unwrap().raw(), "   ");
    assert_eq!(point.indent_index(), Some(4));
    let ReflowElement::Point(point) = &elements[3] else { panic!("no stretch") };
    assert!(!has_untemplated_newline(point));
    assert!(point.get_indent_segment().is_none());
    let next = tables.counter;
    assert!(point.indent_to("    ", Some(tokens[0].clone()), &mut tables).is_none());
    assert_eq!(tables.counter, next);
    assert!(elements[1].class_types().contains(SyntaxKind::Newline));
    assert!(!elements[3].class_types().contains(SyntaxKind::Newline));
    assert!(elements[3].as_point().is_some() && elements[2].as_point().is_none());
}

#[test]
fn stretches_combine() {
    let second = IndentStats { impulse: 2, trough: 1, implicit_indents: vec![7] };
    let both = IndentStats::from_combination(Some(stats(3, 5)), second).unwrap();
    assert_eq!((both.impulse, both.trough, both.implicit_indents), (5, 4, vec![7]));
    let both = IndentStats::from_combination(Some(stats(3, 1)), stats(2, 1)).unwrap();
    assert_eq!((both.impulse, both.trough), (5, 1));
    let alone = IndentStats::from_combination(None, stats(2, 1)).unwrap();
    assert_eq!((alone.impulse, alone.trough), (2, 1));
    assert!(IndentStats::from_combination(Some(stats(usize::MAX, 0)), stats(1, 0)).is_none());
}

#[test]
fn the_units_of_a_line() {
    let point = |trough: usize, untaken: Vec<usize>| IndentPoint {
        idx: 1,
        indent_impulse: 2,
        indent_trough: trough,
        initial_indent_balance: 3,
        last_line_break_idx: Some(0),
        is_line_break: true,
        untaken_indents: untaken,
    };
    let line = IndentLine::from_points(vec![point(0, vec![1, 9])]);
    assert_eq!(line.initial_indent_balance, 5);
    assert_eq!(line.desired_indent_units(&[]), Some(3));
    // With a trough, only the indents up to 5 - (2 - 1) = 4 count.
    let line = IndentLine::from_points(vec![point(1, vec![1, 4, 5, 9])]);
    assert_eq!(line.desired_indent_units(&[0]), Some(4));
    // More indents not taken than the balance holds.
    let line = IndentLine::from_points(vec![point(0, vec![1, 2, 3, 4, 5, 6])]);
    assert_eq!(line.desired_indent_units(&[]), None);
    let line = IndentLine { initial_indent_balance: 0, indent_points: vec![] };
    assert_eq!(line.desired_indent_units(&[]), None);
}

#[test]
fn text_is_repeated() {
    assert_eq!(repeat_text("ab", 3), "ababab");
    assert_eq!(repeat_text("ab", 0), "");
    assert_eq!(repeat_text("", 4), "");
}

#[test]
fn the_white_space_that_is_put_in_has_an_id_of_its_own() {
    for sql in ["a\n  b", "a\nb"] {
        let mut tables = Tables::default();
        let tokens = lex(sql, &mut tables);
        let elements = elements_of(&tokens, &[1]);
        let next = tables.counter;
        let (elements, results) =
            lint_indent_points(elements, "    ", HashSet::new(), false, &mut tables).unwrap();
        assert_eq!(results.len(), 1, "{sql:?}");
        let edit = results[0].fixes[0].edit.as_ref().unwrap();
        assert_eq!(edit.len(), 1);
        assert_eq!(edit[0].raw(), "    ");
        assert_eq!(edit[0].id(), next);
        assert_eq!(tables.counter, next + 1);
        assert!(tokens.iter().all(|token| token.id() != next));
        let held = elements.iter().flat_map(|e| e.segments().iter()).filter(|s| s.id() == next);
        assert_eq!(held.count(), 1);
    }
    // Where nothing is put in, no id is used up.
    let mut tables = Tables::default();
    let tokens = lex("SELECT 1\n    FROM t", &mut tables);
    let elements = elements_of(&tokens, &[]);
    let next = tables.counter;
    lint_indent_points(elements, "    ", HashSet::new(), false, &mut tables).unwrap();
    assert_eq!(tables.counter, next);
}
