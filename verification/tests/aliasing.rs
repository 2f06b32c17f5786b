use sqruff_lib::anchors::compute_anchor_edit_info;
use sqruff_lib::ansi::lexer_matchers;
use sqruff_lib::crawlers::RuleContext;
use sqruff_lib::fix::LintFix;
use sqruff_lib::lexer::{Lexer, StringOrTemplate};
use sqruff_lib::linted_file::LintedFile;
use sqruff_lib::lints::Rule;
use sqruff_lib::registry::{Erased, ErasedRule};
use sqruff_lib::rules::{Aliasing, LintResult, RuleAL01};
use sqruff_lib::segment::{ErasedSegment, SegmentBuilder, Tables};
use sqruff_lib::syntax::{DialectKind, SyntaxKind};
use sqruff_lib::templater::TemplatedFile;

fn node(tables: &mut Tables, kind: SyntaxKind, segments: Vec<ErasedSegment>) -> ErasedSegment {
    SegmentBuilder::node(tables.next_id(), kind, DialectKind::Ansi, segments)
        .position_from_segments()
        .finish()
}

/// The tree of a statement that ends in a table and its alias: all that
/// follows the table is the alias expression.
fn parse(sql: &str, tables: &mut Tables) -> (ErasedSegment, TemplatedFile) {
    let lexer = Lexer::new(lexer_matchers());
    let (tokens, errors) = lexer.lex(StringOrTemplate::String(sql.to_string()), tables);
    assert!(errors.is_empty());
    let file = tokens[0].get_position_marker().unwrap().templated_file.clone();
    let table = tokens.iter().position(|t| t.raw() == "table1").unwrap();
    let end = tokens.len() - 1;
    let alias = node(tables, SyntaxKind::AliasExpression, tokens[table + 2..end].to_vec());
    let element = node(
        tables,
        SyntaxKind::FromExpressionElement,
        vec![tokens[table].clone(), tokens[table + 1].clone(), alias],
    );
    let mut top = tokens[..table].to_vec();
    top.push(element);
    top.push(tokens[end].clone());
    (node(tables, SyntaxKind::File, top), file)
}

fn lint(
    tree: &ErasedSegment,
    file: &TemplatedFile,
    rule: &ErasedRule,
    tables: &mut Tables,
) -> Vec<LintResult> {
    let root = RuleContext::root(tree.clone(), true, Some(file.clone()));
    let contexts = rule.crawl_behaviour().crawl(root);
    contexts.iter().flat_map(|context| rule.eval(context, tables)).collect()
}

fn ids_of(segment: &ErasedSegment, into: &mut Vec<u32>) {
    into.push(segment.id());
    for child in segment.segments() {
        ids_of(child, into);
    }
}

fn fix(sql: &str, rules: Vec<ErasedRule>) -> String {
    let mut tables = Tables::default();
    let (mut tree, file) = parse(sql, &mut tables);
    for rule in &rules {
        let fixes: Vec<LintFix> =
            lint(&tree, &file, rule, &mut tables).into_iter().flat_map(|result| result.fixes).collect();
        let mut info = compute_anchor_edit_info(fixes);
        tree = tree.apply_fixes(&mut info).0;
    }
    LintedFile { path: "test.sql".to_string(), tree, templated_file: file, violations: vec![] }
        .fix_string()
}

#[test]
fn test_fail_default_explicit() {
    let sql = "select foo.bar from table1 foo";
    let result = fix(sql, vec![RuleAL01::default().erased()]);

    assert_eq!(result, "select foo.bar from table1 AS foo");
}

#[test]
fn test_fail_implicit() {
    let sql = "select foo.bar from table1 AS foo";
    let result = fix(sql, vec![RuleAL01::default().aliasing(Aliasing::Implicit).erased()]);

    assert_eq!(result, "select foo.bar from table1 foo");
}

#[test]
fn a_missing_keyword_is_reported_once_at_the_alias() {
    let mut tables = Tables::default();
    let (tree, file) = parse("select foo.bar from table1 foo", &mut tables);
    let results = lint(&tree, &file, &RuleAL01::default().erased(), &mut tables);
    assert_eq!(results.len(), 1);
    let anchor = results[0].anchor.as_ref().unwrap();
    assert_eq!(anchor.get_type(), SyntaxKind::AliasExpression);
    assert_eq!(results[0].fixes.len(), 1);
    assert_eq!(results[0].fixes[0].anchor.raw(), "foo");
    let edit = results[0].fixes[0].edit.as_ref().unwrap();
    assert_eq!(edit.iter().map(|s| s.raw()).collect::<Vec<_>>(), vec!["AS", " "]);
    assert_eq!(edit[0].get_type(), SyntaxKind::Keyword);
}

#[test]
fn an_alias_without_the_keyword_passes_where_none_is_wanted() {
    let mut tables = Tables::default();
    let (tree, file) = parse("select foo.bar from table1 foo", &mut tables);
    let rule = RuleAL01::default().aliasing(Aliasing::Implicit).erased();
    assert!(lint(&tree, &file, &rule, &mut tables).is_empty());
}

#[test]
fn the_keyword_is_found_in_whatever_case() {
    let rule = RuleAL01::default().aliasing(Aliasing::Implicit).erased();
    assert_eq!(fix("select 1 from table1 as t", vec![rule]), "select 1 from table1 t");
}

#[test]
fn an_alias_elsewhere_is_left_alone() {
    let mut tables = Tables::default();
    let lexer = Lexer::new(lexer_matchers());
    let (tokens, _) = lexer.lex(StringOrTemplate::String("a b".to_string()), &mut tables);
    let file = tokens[0].get_position_marker().unwrap().templated_file.clone();
    let alias = node(&mut tables, SyntaxKind::AliasExpression, vec![tokens[2].clone()]);
    let clause = node(
        &mut tables,
        SyntaxKind::SelectClause,
        vec![tokens[0].clone(), tokens[1].clone(), alias],
    );
    let tree = node(&mut tables, SyntaxKind::File, vec![clause, tokens[3].clone()]);
    assert!(lint(&tree, &file, &RuleAL01::default().erased(), &mut tables).is_empty());
}

#[test]
fn what_the_rule_puts_in_has_ids_that_the_tree_does_not_hold() {
    let mut tables = Tables::default();
    let (tree, file) = parse("select foo.bar from table1 foo", &mut tables);
    let next = tables.counter;
    let results = lint(&tree, &file, &RuleAL01::default().erased(), &mut tables);
    let edit = results[0].fixes[0].edit.as_ref().unwrap();
    let mut ids = Vec::new();
    ids_of(&tree, &mut ids);
    assert_eq!(edit[0].id(), next);
    assert_eq!(edit[1].id(), next + 1);
    assert_eq!(tables.counter, next + 2);
    assert!(!ids.contains(&edit[0].id()));
    assert!(!ids.contains(&edit[1].id()));
}

#[test]
fn a_keyword_that_was_put_in_is_taken_out_again_and_nothing_else() {
    let sql = "select foo.bar from table1 foo";
    let explicit = RuleAL01::default().erased();
    let implicit = RuleAL01::default().aliasing(Aliasing::Implicit).erased();
    assert_eq!(fix(sql, vec![explicit, implicit]), "select foo.bar from table1 foo");
}

#[test]
fn two_blanks_before_the_alias_become_one() {
    let sql = "select foo.bar from table1  foo";
    assert_eq!(
        fix(sql, vec![RuleAL01::default().erased()]),
        "select foo.bar from table1 AS foo"
    );
    let implicit = RuleAL01::default().aliasing(Aliasing::Implicit).erased();
    assert_eq!(fix("select 1 from table1   as t", vec![implicit]), "select 1 from table1 t");
}

#[test]
fn one_blank_before_the_alias_is_left_alone() {
    let mut tables = Tables::default();
    let (tree, file) = parse("select foo.bar from table1 foo", &mut tables);
    let results = lint(&tree, &file, &RuleAL01::default().erased(), &mut tables);
    assert_eq!(results[0].fixes.len(), 1);
    let (tree, file) = parse("select foo.bar from table1   foo", &mut tables);
    let results = lint(&tree, &file, &RuleAL01::default().erased(), &mut tables);
    assert_eq!(results[0].fixes.len(), 2);
    assert_eq!(results[0].fixes[1].anchor.raw(), "   ");
    let edit = results[0].fixes[1].edit.as_ref().unwrap();
    assert_eq!(edit.iter().map(|s| s.raw()).collect::<Vec<_>>(), vec![" "]);
}
