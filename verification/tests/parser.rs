use sqruff_lib::anchors::compute_anchor_edit_info;
use sqruff_lib::ansi::lexer_matchers;
use sqruff_lib::crawlers::RuleContext;
use sqruff_lib::dialect::{Dialect, DialectElementType, Grammar, ParseMode};
use sqruff_lib::fix::LintFix;
use sqruff_lib::lexer::{Lexer, StringOrTemplate};
use sqruff_lib::linted_file::LintedFile;
use sqruff_lib::lints::Rule;
use sqruff_lib::match_result::MatchResult;
use sqruff_lib::parse::parse;
use sqruff_lib::parser::{match_grammar, ParseContext};
use sqruff_lib::prefilter::{simple, token_begins};
use sqruff_lib::registry::{Erased, ErasedRule};
use sqruff_lib::rules::{Aliasing, RuleAL01, RuleST01};
use sqruff_lib::segment::{ErasedSegment, Tables};
use sqruff_lib::syntax::{DialectKind, SyntaxKind};

const DEPTH: usize = 400;

fn r(name: &str) -> Grammar {
    Grammar::Ref { name: name.to_string(), optional: false }
}

fn word(text: &str) -> Grammar {
    Grammar::StringParser { template: text.to_string(), kind: SyntaxKind::Keyword }
}

fn typed(kind: SyntaxKind) -> Grammar {
    Grammar::TypedParser { token: kind, kind }
}

fn node(kind: SyntaxKind, grammar: Grammar) -> Grammar {
    Grammar::Node { kind, grammar: Box::new(grammar) }
}

fn opt(grammar: Grammar) -> Grammar {
    Grammar::Optional(Box::new(grammar))
}

fn list(element: Grammar, delimiter: Grammar) -> Grammar {
    Grammar::Delimited {
        element: Box::new(element),
        delimiter: Box::new(delimiter),
        allow_trailing: false,
    }
}

fn round(grammar: Grammar, parse_mode: ParseMode) -> Grammar {
    Grammar::Bracketed {
        grammar: Box::new(grammar),
        start_bracket: "(".to_string(),
        end_bracket: ")".to_string(),
        parse_mode,
    }
}

/// A small part of SQL: statements that select columns, numbers and
/// bracketed lists of these from tables, which may have aliases.
fn small_sql() -> Dialect {
    let mut d = Dialect::new("FileSegment");
    let keywords = ["SELECT", "FROM", "AS", "NOT", "NULL", "WHERE"];
    let mut add = |name: &str, grammar: Grammar| {
        d.library.push((name.to_string(), DialectElementType::Matchable(grammar)));
    };
    for k in keywords {
        let mut name = k[..1].to_string();
        name.push_str(&k[1..].to_lowercase());
        name.push_str("KeywordSegment");
        add(&name, word(k));
    }
    add("CommaSegment", typed(SyntaxKind::Comma));
    add("DotSegment", typed(SyntaxKind::Dot));
    add("NumberSegment", typed(SyntaxKind::NumericLiteral));
    add(
        "NakedIdentifierSegment",
        Grammar::Excluding {
            grammar: Box::new(Grammar::TypedParser {
                token: SyntaxKind::Word,
                kind: SyntaxKind::NakedIdentifier,
            }),
            exclude: Box::new(Grammar::OneOf(keywords.iter().map(|k| word(k)).collect())),
        },
    );
    add(
        "ColumnReferenceSegment",
        node(SyntaxKind::ColumnReference, list(r("NakedIdentifierSegment"), r("DotSegment"))),
    );
    add(
        "TableReferenceSegment",
        node(SyntaxKind::TableReference, list(r("NakedIdentifierSegment"), r("DotSegment"))),
    );
    add(
        "AliasExpressionSegment",
        node(
            SyntaxKind::AliasExpression,
            Grammar::Sequence(vec![opt(r("AsKeywordSegment")), r("NakedIdentifierSegment")]),
        ),
    );
    add(
        "FromExpressionElementSegment",
        node(
            SyntaxKind::FromExpressionElement,
            Grammar::Sequence(vec![
                r("TableReferenceSegment"),
                opt(r("AliasExpressionSegment")),
            ]),
        ),
    );
    add(
        "SelectTargetSegment",
        Grammar::OneOf(vec![
            r("ColumnReferenceSegment"),
            r("NumberSegment"),
            round(list(r("SelectTargetSegment"), r("CommaSegment")), ParseMode::Greedy),
        ]),
    );
    add(
        "SelectClauseSegment",
        node(
            SyntaxKind::SelectClause,
            Grammar::Terminated {
                grammar: Box::new(Grammar::Sequence(vec![
                    r("SelectKeywordSegment"),
                    Grammar::Meta(SyntaxKind::Indent),
                    list(r("SelectTargetSegment"), r("CommaSegment")),
                    Grammar::Meta(SyntaxKind::Dedent),
                ])),
                terminators: vec!["FromKeywordSegment".to_string()],
            },
        ),
    );
    add(
        "SelectStatementSegment",
        node(
            SyntaxKind::SelectStatement,
            Grammar::Sequence(vec![
                r("SelectClauseSegment"),
                opt(Grammar::Sequence(vec![
                    r("FromKeywordSegment"),
                    list(r("FromExpressionElementSegment"), r("CommaSegment")),
                ])),
            ]),
        ),
    );
    add("StatementSegment", node(SyntaxKind::Statement, r("SelectStatementSegment")));
    add(
        "FileSegment",
        Grammar::Delimited {
            element: Box::new(r("StatementSegment")),
            delimiter: Box::new(typed(SyntaxKind::Semicolon)),
            allow_trailing: true,
        },
    );
    d
}

fn lex(sql: &str, tables: &mut Tables) -> Vec<ErasedSegment> {
    let lexer = Lexer::new(lexer_matchers());
    let (tokens, errors) = lexer.lex(StringOrTemplate::String(sql.to_string()), tables);
    assert!(errors.is_empty());
    tokens
}

fn tree_of(sql: &str, tables: &mut Tables) -> ErasedSegment {
    let tokens = lex(sql, tables);
    parse(&tokens, &small_sql(), "FileSegment", DialectKind::Ansi, tables, DEPTH).unwrap()
}

fn kinds_below(tree: &ErasedSegment) -> Vec<SyntaxKind> {
    tree.recursive_crawl_all(false).iter().map(|s| s.get_type()).collect()
}

fn count(tree: &ErasedSegment, kind: SyntaxKind) -> usize {
    kinds_below(tree).into_iter().filter(|k| *k == kind).count()
}

fn at(grammar: &Grammar, sql: &str, idx: u32) -> MatchResult {
    let mut tables = Tables::default();
    let tokens = lex(sql, &mut tables);
    let d = small_sql();
    let mut ctx = ParseContext::new(&d);
    match_grammar(grammar, &tokens, idx, tokens.len() as u32, &mut ctx, DEPTH)
}

fn span(m: &MatchResult) -> (u32, u32) {
    (m.span.start, m.span.end)
}

fn fix(sql: &str, rules: Vec<ErasedRule>) -> String {
    let mut tables = Tables::default();
    let tokens = lex(sql, &mut tables);
    let file = tokens[0].get_position_marker().unwrap().templated_file.clone();
    let mut tree =
        parse(&tokens, &small_sql(), "FileSegment", DialectKind::Ansi, &mut tables, DEPTH).unwrap();
    for rule in &rules {
        let root = RuleContext::root(tree.clone(), true, Some(file.clone()));
        let contexts = rule.crawl_behaviour().crawl(root);
        let fixes: Vec<LintFix> = contexts
            .iter()
            .flat_map(|context| rule.eval(context, &mut tables))
            .flat_map(|result| result.fixes)
            .collect();
        let mut info = compute_anchor_edit_info(fixes);
        tree = tree.apply_fixes(&mut info).0;
    }
    LintedFile { path: "test.sql".to_string(), tree, templated_file: file, violations: vec![] }
        .fix_string()
}

#[test]
fn a_tree_has_the_text_of_its_tokens() {
    let mut tables = Tables::default();
    for sql in [
        "",
        "select 1",
        "select foo.bar from table1 foo",
        "  select a , b\nfrom t1, t2 as x ;\n",
        "select (1, (2, a.b)) from t; select 2;",
        "select",
        "from select ) (",
        "select 1 from t where x",
        "select (1 2) from t",
        "-- nothing but a comment\n",
    ] {
        let tree = tree_of(sql, &mut tables);
        assert_eq!(tree.raw(), sql, "{sql:?}");
        assert_eq!(tree.get_type(), SyntaxKind::File);
        let leaves: String = tree.get_raw_segments().iter().map(|s| s.raw()).collect();
        assert_eq!(leaves, sql, "{sql:?}");
    }
}

#[test]
fn a_statement_is_parsed_into_its_parts() {
    let mut tables = Tables::default();
    let tree = tree_of("select foo.bar from table1 foo", &mut tables);
    assert_eq!(count(&tree, SyntaxKind::Unparsable), 0);
    assert_eq!(count(&tree, SyntaxKind::Statement), 1);
    assert_eq!(count(&tree, SyntaxKind::SelectStatement), 1);
    assert_eq!(count(&tree, SyntaxKind::SelectClause), 1);
    assert_eq!(count(&tree, SyntaxKind::ColumnReference), 1);
    assert_eq!(count(&tree, SyntaxKind::FromExpressionElement), 1);
    assert_eq!(count(&tree, SyntaxKind::TableReference), 1);
    assert_eq!(count(&tree, SyntaxKind::AliasExpression), 1);
    assert_eq!(count(&tree, SyntaxKind::Indent), 1);
    assert_eq!(count(&tree, SyntaxKind::Dedent), 1);
    let statement = &tree.segments()[0];
    assert_eq!(statement.get_type(), SyntaxKind::Statement);
    assert_eq!(statement.raw(), "select foo.bar from table1 foo");
    let select = &statement.segments()[0];
    let parts: Vec<(SyntaxKind, String)> =
        select.segments().iter().map(|s| (s.get_type(), s.raw())).collect();
    assert_eq!(
        parts,
        vec![
            (SyntaxKind::SelectClause, "select foo.bar".to_string()),
            (SyntaxKind::Whitespace, " ".to_string()),
            (SyntaxKind::Keyword, "from".to_string()),
            (SyntaxKind::Whitespace, " ".to_string()),
            (SyntaxKind::FromExpressionElement, "table1 foo".to_string()),
        ]
    );
    let clause: Vec<(SyntaxKind, String)> =
        select.segments()[0].segments().iter().map(|s| (s.get_type(), s.raw())).collect();
    assert_eq!(
        clause,
        vec![
            (SyntaxKind::Keyword, "select".to_string()),
            (SyntaxKind::Indent, String::new()),
            (SyntaxKind::Whitespace, " ".to_string()),
            (SyntaxKind::ColumnReference, "foo.bar".to_string()),
            (SyntaxKind::Dedent, String::new()),
        ]
    );
}

#[test]
fn what_the_grammar_does_not_match_is_kept_as_unparsable() {
    let mut tables = Tables::default();
    let tree = tree_of("select 1 from t where x", &mut tables);
    let top: Vec<(SyntaxKind, String)> =
        tree.segments().iter().map(|s| (s.get_type(), s.raw())).collect();
    assert_eq!(
        top,
        vec![
            (SyntaxKind::Statement, "select 1 from t".to_string()),
            (SyntaxKind::Whitespace, " ".to_string()),
            (SyntaxKind::Unparsable, "where x".to_string()),
            (SyntaxKind::EndOfFile, String::new()),
        ]
    );
    let tree = tree_of("  from select ) (\n", &mut tables);
    let top: Vec<(SyntaxKind, String)> =
        tree.segments().iter().map(|s| (s.get_type(), s.raw())).collect();
    assert_eq!(
        top,
        vec![
            (SyntaxKind::Whitespace, "  ".to_string()),
            (SyntaxKind::Unparsable, "from select ) (".to_string()),
            (SyntaxKind::Newline, "\n".to_string()),
            (SyntaxKind::EndOfFile, String::new()),
        ]
    );
}

#[test]
fn a_dialect_without_the_grammar_has_no_tree() {
    let mut tables = Tables::default();
    let tokens = lex("select 1", &mut tables);
    let before = tables.counter;
    let err =
        parse(&tokens, &small_sql(), "NoSuchSegment", DialectKind::Ansi, &mut tables, DEPTH)
            .unwrap_err();
    assert_eq!(err.description, "The dialect holds no grammar under that name.");
    assert_eq!(tables.counter, before);
}

#[test]
fn test_fail_default_explicit_from_text() {
    let sql = "select foo.bar from table1 foo";
    let result = fix(sql, vec![RuleAL01::default().erased()]);
    assert_eq!(result, "select foo.bar from table1 AS foo");
}

#[test]
fn test_fail_implicit_from_text() {
    let sql = "select foo.bar from table1 AS foo";
    let result = fix(sql, vec![RuleAL01::default().aliasing(Aliasing::Implicit).erased()]);
    assert_eq!(result, "select foo.bar from table1 foo");
}

#[test]
fn a_word_matches_one_token_in_whatever_case() {
    assert_eq!(span(&at(&word("SELECT"), "select 1", 0)), (0, 1));
    assert_eq!(span(&at(&word("SELECT"), "SeLeCt 1", 0)), (0, 1));
    assert_eq!(span(&at(&word("SELECT"), "from 1", 0)), (0, 0));
    assert_eq!(span(&at(&word("SELECT"), "1 select", 2)), (2, 3));
    // Past the tokens nothing matches.
    assert_eq!(span(&at(&word("SELECT"), "select", 2)), (2, 2));
}

#[test]
fn a_sequence_matches_all_or_nothing() {
    let both = Grammar::Sequence(vec![word("NOT"), word("NULL")]);
    assert_eq!(span(&at(&both, "not null", 0)), (0, 3));
    assert_eq!(span(&at(&both, "not  \n null x", 0)), (0, 5));
    assert_eq!(span(&at(&both, "not 1", 0)), (0, 0));
    assert_eq!(span(&at(&both, "null", 0)), (0, 0));
    // What a sequence may go without can be missing.
    let either = Grammar::Sequence(vec![opt(word("NOT")), word("NULL")]);
    assert_eq!(span(&at(&either, "not null", 0)), (0, 3));
    assert_eq!(span(&at(&either, "null", 0)), (0, 1));
    let trailing = Grammar::Sequence(vec![word("NOT"), opt(word("NULL"))]);
    assert_eq!(span(&at(&trailing, "not 1", 0)), (0, 1));
    // A sequence of nothing but what may be missing matches no tokens.
    let none = Grammar::Sequence(vec![opt(word("NOT")), Grammar::Meta(SyntaxKind::Indent)]);
    assert!(!at(&none, "null", 0).has_match());
}

#[test]
fn a_sequence_puts_its_markers_where_they_stand() {
    let g = Grammar::Sequence(vec![
        word("NOT"),
        Grammar::Meta(SyntaxKind::Indent),
        word("NULL"),
        Grammar::Meta(SyntaxKind::Dedent),
    ]);
    let m = at(&g, "not null", 0);
    assert_eq!(span(&m), (0, 3));
    assert_eq!(m.insert_segments, vec![(1, SyntaxKind::Indent), (3, SyntaxKind::Dedent)]);
    assert_eq!(m.child_matches.len(), 2);
    assert!(m.check(4));
}

#[test]
fn the_first_of_the_alternatives_wins_unless_the_longest_is_asked_for() {
    let short = Grammar::Sequence(vec![word("NOT")]);
    let long = || Grammar::Sequence(vec![word("NOT"), word("NULL")]);
    let first = Grammar::OneOf(vec![short, long()]);
    assert_eq!(span(&at(&first, "not null", 0)), (0, 1));
    let longest = Grammar::Longest(vec![Grammar::Sequence(vec![word("NOT")]), long()]);
    assert_eq!(span(&at(&longest, "not null", 0)), (0, 3));
    assert_eq!(span(&at(&longest, "not 1", 0)), (0, 1));
    assert_eq!(span(&at(&Grammar::OneOf(vec![]), "not", 0)), (0, 0));
    assert_eq!(span(&at(&Grammar::OneOf(vec![word("NULL"), word("NOT")]), "not", 0)), (0, 1));
}

#[test]
fn a_repetition_counts_its_rounds() {
    let any = |min_times, max_times| Grammar::AnyNumberOf {
        elements: vec![word("NOT"), typed(SyntaxKind::NumericLiteral)],
        min_times,
        max_times,
    };
    assert_eq!(span(&at(&any(0, None), "not 1 not x", 0)), (0, 5));
    assert_eq!(span(&at(&any(0, Some(2)), "not 1 not x", 0)), (0, 3));
    assert_eq!(span(&at(&any(4, None), "not 1 not x", 0)), (0, 0));
    assert_eq!(span(&at(&any(3, None), "not 1 not x", 0)), (0, 5));
    assert_eq!(span(&at(&any(0, None), "x", 0)), (0, 0));
    // A terminator ends the rounds.
    let stopped = Grammar::Terminated {
        grammar: Box::new(any(0, None)),
        terminators: vec!["NumberSegment".to_string()],
    };
    assert_eq!(span(&at(&stopped, "not not 1 not", 0)), (0, 3));
}

#[test]
fn a_list_ends_before_a_delimiter_that_nothing_follows() {
    let numbers = |allow_trailing| Grammar::Delimited {
        element: Box::new(typed(SyntaxKind::NumericLiteral)),
        delimiter: Box::new(typed(SyntaxKind::Comma)),
        allow_trailing,
    };
    assert_eq!(span(&at(&numbers(false), "1, 2 ,3", 0)), (0, 7));
    assert_eq!(span(&at(&numbers(false), "1, 2, x", 0)), (0, 4));
    assert_eq!(span(&at(&numbers(true), "1, 2, x", 0)), (0, 5));
    assert_eq!(span(&at(&numbers(false), "1 2", 0)), (0, 1));
    assert_eq!(span(&at(&numbers(false), ", 1", 0)), (0, 0));
}

#[test]
fn brackets_in_their_modes() {
    let numbers = || list(typed(SyntaxKind::NumericLiteral), typed(SyntaxKind::Comma));
    for mode in [ParseMode::Strict, ParseMode::Greedy, ParseMode::GreedyOnceStarted] {
        let m = at(&round(numbers(), mode), "( 1, 2 ) x", 0);
        assert_eq!(span(&m), (0, 8));
        assert_eq!(m.insert_segments, vec![(1, SyntaxKind::Indent), (7, SyntaxKind::Dedent)]);
        assert!(m.check(10));
        // No closing bracket, or no opening one.
        assert_eq!(span(&at(&round(numbers(), mode), "( 1, 2", 0)), (0, 0));
        assert_eq!(span(&at(&round(numbers(), mode), "1, 2 )", 0)), (0, 0));
        // The closing bracket is the one of the same depth.
        let nested = round(
            list(
                Grammar::OneOf(vec![
                    typed(SyntaxKind::NumericLiteral),
                    round(numbers(), mode),
                ]),
                typed(SyntaxKind::Comma),
            ),
            mode,
        );
        assert_eq!(span(&at(&nested, "((1),(2,3)) 4", 0)), (0, 11));
    }
    // Something is left between the brackets.
    assert_eq!(span(&at(&round(numbers(), ParseMode::Strict), "(1, x)", 0)), (0, 0));
    let greedy = at(&round(numbers(), ParseMode::Greedy), "(1, x)", 0);
    assert_eq!(span(&greedy), (0, 6));
    assert_eq!(span(&at(&round(numbers(), ParseMode::GreedyOnceStarted), "(1, x)", 0)), (0, 6));
    // Nothing of it is matched.
    assert_eq!(span(&at(&round(numbers(), ParseMode::Greedy), "(x)", 0)), (0, 3));
    assert_eq!(span(&at(&round(numbers(), ParseMode::GreedyOnceStarted), "(x)", 0)), (0, 0));
    // Empty brackets need an element that may be missing.
    assert_eq!(span(&at(&round(numbers(), ParseMode::Greedy), "( )", 0)), (0, 0));
    assert_eq!(span(&at(&round(opt(numbers()), ParseMode::Strict), "( )", 0)), (0, 3));
}

#[test]
fn what_is_left_between_brackets_is_kept() {
    let mut tables = Tables::default();
    let tree = tree_of("select (1 2) from t", &mut tables);
    assert_eq!(tree.raw(), "select (1 2) from t");
    assert_eq!(count(&tree, SyntaxKind::Bracketed), 1);
    assert_eq!(count(&tree, SyntaxKind::Unparsable), 1);
    let found = tree.recursive_crawl_all(false);
    let left = found.iter().find(|s| s.get_type() == SyntaxKind::Unparsable).unwrap();
    assert_eq!(left.raw(), "2");
}

#[test]
fn an_exclusion_keeps_keywords_from_being_names() {
    assert_eq!(span(&at(&r("NakedIdentifierSegment"), "foo", 0)), (0, 1));
    assert_eq!(span(&at(&r("NakedIdentifierSegment"), "from", 0)), (0, 0));
    assert_eq!(span(&at(&r("NoSuchSegment"), "foo", 0)), (0, 0));
}

#[test]
fn a_grammar_that_refers_to_itself_ends() {
    let mut d = small_sql();
    d.library.push((
        "LoopSegment".to_string(),
        DialectElementType::Matchable(Grammar::Sequence(vec![r("LoopSegment"), word("NOT")])),
    ));
    let mut tables = Tables::default();
    let tokens = lex("not not", &mut tables);
    let reference = r("LoopSegment");
    let word_not = word("NOT");
    let mut ctx = ParseContext::new(&d);
    let m = match_grammar(&reference, &tokens, 0, 3, &mut ctx, 60);
    assert!(!m.has_match());
    let tree = parse(&tokens, &d, "LoopSegment", DialectKind::Ansi, &mut tables, 60).unwrap();
    assert_eq!(tree.raw(), "not not");
    assert_eq!(count(&tree, SyntaxKind::Unparsable), 1);
    // With no depth at all nothing matches.
    assert!(!match_grammar(&word_not, &tokens, 0, 3, &mut ctx, 0).has_match());
    assert!(match_grammar(&word_not, &tokens, 0, 3, &mut ctx, 1).has_match());
}

#[test]
fn what_an_element_has_matched_is_remembered() {
    let d = small_sql();
    let mut tables = Tables::default();
    let tokens = lex("select a.b, c from t", &mut tables);
    let n = tokens.len() as u32;
    let reference = r("SelectClauseSegment");
    let mut ctx = ParseContext::new(&d);
    assert!(ctx.cache.is_empty());
    let first = match_grammar(&reference, &tokens, 0, n, &mut ctx, DEPTH);
    assert_eq!(span(&first), (0, 8));
    let remembered: usize = ctx.cache.values().map(|entries| entries.len()).sum();
    assert!(remembered > 0);
    // A second match changes nothing of what is remembered, and is the same.
    let second = match_grammar(&reference, &tokens, 0, n, &mut ctx, DEPTH);
    assert_eq!(span(&second), (0, 8));
    assert_eq!(second.child_matches.len(), first.child_matches.len());
    assert_eq!(second.insert_segments, first.insert_segments);
    assert_eq!(ctx.cache.values().map(|entries| entries.len()).sum::<usize>(), remembered);
    // The terminators that held before the match hold after it.
    assert!(ctx.terminators.is_empty());
    // Under other terminators the element is matched anew.
    ctx.terminators.push(d.library.iter().position(|(name, _)| name == "CommaSegment").unwrap());
    let stopped = match_grammar(&reference, &tokens, 0, n, &mut ctx, DEPTH);
    assert_eq!(span(&stopped), (0, 5));
    assert_eq!(ctx.terminators.len(), 1);
}

#[test]
fn what_a_match_begins_with_is_said_in_brief() {
    let d = small_sql();
    let said = |g: &Grammar, fuel: usize| {
        simple(g, &d, fuel).map(|(mut raws, kinds)| {
            raws.sort();
            raws.dedup();
            let mut found: Vec<SyntaxKind> = [
                SyntaxKind::Word,
                SyntaxKind::NumericLiteral,
                SyntaxKind::Comma,
                SyntaxKind::Dot,
            ]
            .into_iter()
            .filter(|k| kinds.contains(*k))
            .collect();
            found.dedup();
            (raws, found)
        })
    };
    assert_eq!(said(&word("SELECT"), 8), Some((vec!["SELECT".to_string()], vec![])));
    assert_eq!(said(&r("SelectKeywordSegment"), 8), Some((vec!["SELECT".to_string()], vec![])));
    assert_eq!(said(&typed(SyntaxKind::Comma), 8), Some((vec![], vec![SyntaxKind::Comma])));
    assert_eq!(
        said(&r("SelectTargetSegment"), 12),
        Some((vec!["(".to_string()], vec![SyntaxKind::Word, SyntaxKind::NumericLiteral]))
    );
    assert_eq!(said(&r("SelectStatementSegment"), 12), Some((vec!["SELECT".to_string()], vec![])));
    // Not deep enough.
    assert_eq!(said(&r("SelectStatementSegment"), 2), None);
    assert_eq!(said(&word("SELECT"), 0), None);
    // A sequence that may go without its first element.
    assert_eq!(said(&Grammar::Sequence(vec![opt(word("NOT")), word("NULL")]), 8), None);
    // What matches nothing begins with nothing.
    assert_eq!(said(&Grammar::Nothing, 8), Some((vec![], vec![])));
    assert_eq!(said(&r("NoSuchSegment"), 8), Some((vec![], vec![])));
}

#[test]
fn what_is_said_in_brief_holds_of_the_matches() {
    let d = small_sql();
    let mut tables = Tables::default();
    let tokens = lex("select (1, a.b), c from t1 x, t2", &mut tables);
    let n = tokens.len() as u32;
    for (name, _) in d.library.iter() {
        let reference = r(name);
        let Some(hint) = simple(&reference, &d, 16) else { continue };
        for idx in 0..n {
            let mut ctx = ParseContext::new(&d);
            let m = match_grammar(&reference, &tokens, idx, n, &mut ctx, DEPTH);
            if m.span.end > idx {
                assert!(token_begins(&hint, &tokens[idx as usize]), "{name} at {idx}");
            }
        }
    }
}

#[test]
fn deep_brackets_are_matched() {
    let depth = 300;
    let sql = format!("select {}1{}", "(".repeat(depth), ")".repeat(depth));
    let mut tables = Tables::default();
    let tokens = lex(&sql, &mut tables);
    let tree =
        parse(&tokens, &small_sql(), "FileSegment", DialectKind::Ansi, &mut tables, 100_000).unwrap();
    assert_eq!(tree.raw(), sql);
    assert_eq!(count(&tree, SyntaxKind::Bracketed), depth);
    assert_eq!(count(&tree, SyntaxKind::Unparsable), 0);
}

#[test]
fn the_ansi_dialect_parses_statements_that_select() {
    let d = sqruff_lib::ansi::dialect();
    let mut tables = Tables::default();
    for sql in [
        "select a, b.c, 1, 'x', * from t1 as x, s.t2 y where (a, (b));\nselect null",
        "select case when a then 1 when b then 'x' else null end from t",
    ] {
        let tokens = lex(sql, &mut tables);
        let tree =
            parse(&tokens, &d, d.root_segment_name(), DialectKind::Ansi, &mut tables, DEPTH).unwrap();
        assert_eq!(tree.raw(), sql);
        assert_eq!(count(&tree, SyntaxKind::Unparsable), 0, "{sql:?}");
    }
    let tokens = lex("select a from t where", &mut tables);
    let tree =
        parse(&tokens, &d, d.root_segment_name(), DialectKind::Ansi, &mut tables, DEPTH).unwrap();
    assert_eq!(tree.raw(), "select a from t where");
    assert_eq!(count(&tree, SyntaxKind::Unparsable), 1);
}

#[test]
fn an_else_that_gives_null_is_found_in_what_was_parsed() {
    let d = sqruff_lib::ansi::dialect();
    let sql = "select case when a then 1 else null end from t";
    let mut tables = Tables::default();
    let tokens = lex(sql, &mut tables);
    let file = tokens[0].get_position_marker().unwrap().templated_file.clone();
    let tree =
        parse(&tokens, &d, d.root_segment_name(), DialectKind::Ansi, &mut tables, DEPTH).unwrap();
    let rule = RuleST01.erased();
    let root = RuleContext::root(tree.clone(), true, Some(file.clone()));
    let contexts = rule.crawl_behaviour().crawl(root);
    let fixes: Vec<LintFix> = contexts
        .iter()
        .flat_map(|context| rule.eval(context, &mut tables))
        .flat_map(|result| result.fixes)
        .collect();
    assert!(!fixes.is_empty());
    let mut info = compute_anchor_edit_info(fixes);
    let (tree, _, _, _) = tree.apply_fixes(&mut info);
    assert_eq!(tree.raw(), "select case when a then 1 end from t");
    let fixed =
        LintedFile { path: "test.sql".to_string(), tree, templated_file: file, violations: vec![] }
            .fix_string();
    assert_eq!(fixed, "select case when a then 1 end from t");
}

#[test]
fn the_ansi_dialect_before_and_after_it_is_expanded() {
    let raw = sqruff_lib::ansi::raw_dialect();
    assert_eq!(raw.root_segment_name(), "FileSegment");
    let pairs = raw.bracket_sets("bracket_pairs");
    let shown: Vec<(&str, &str, &str, bool)> =
        pairs.iter().map(|p| (p.0.as_str(), p.1.as_str(), p.2.as_str(), p.3)).collect();
    assert_eq!(
        shown,
        vec![
            ("round", "StartBracketSegment", "EndBracketSegment", true),
            ("square", "StartSquareBracketSegment", "EndSquareBracketSegment", false),
            ("curly", "StartCurlyBracketSegment", "EndCurlyBracketSegment", false),
        ]
    );
    assert!(raw.bracket_sets("angle_bracket_pairs").is_empty());
    assert_eq!(
        raw.sets("reserved_keywords"),
        vec!["SELECT", "FROM", "AS", "WHERE", "CASE", "WHEN", "THEN", "ELSE", "END", "NULL"]
    );
    assert!(raw.sets("unreserved_keywords").is_empty());
    // Not expanded: the generator is there, and no keyword has a grammar.
    assert!(matches!(raw.library[7].1, DialectElementType::SegmentGenerator(_)));
    assert_eq!(raw.library[7].0, "ReservedWordSegment");
    assert!(raw.try_ref("ReservedWordSegment").is_none());
    assert!(raw.try_ref("SelectKeywordSegment").is_none());
    assert!(raw.try_ref("FileSegment").is_some());
    assert_eq!(raw.library.len(), 23);

    let d = sqruff_lib::ansi::dialect();
    assert!(d.library.iter().all(|(_, e)| matches!(e, DialectElementType::Matchable(_))));
    assert!(matches!(d.ref_("SelectKeywordSegment"), Grammar::StringParser { template, kind }
        if template == "SELECT" && *kind == SyntaxKind::Keyword));
    match d.ref_("ReservedWordSegment") {
        Grammar::OneOf(words) => assert_eq!(words.len(), 10),
        other => panic!("not expanded: {other:?}"),
    }
    assert_eq!(d.bracket_sets("bracket_pairs").len(), 3);
    // A word that is reserved is no name.
    assert_eq!(span(&at_in(&d, &r("NakedIdentifierSegment"), "from", 0)), (0, 0));
    assert_eq!(span(&at_in(&d, &r("NakedIdentifierSegment"), "frm", 0)), (0, 1));
    assert_eq!(span(&at_in(&d, &r("FromKeywordSegment"), "From", 0)), (0, 1));
}

fn at_in(d: &Dialect, grammar: &Grammar, sql: &str, idx: u32) -> MatchResult {
    let mut tables = Tables::default();
    let tokens = lex(sql, &mut tables);
    let mut ctx = ParseContext::new(d);
    match_grammar(grammar, &tokens, idx, tokens.len() as u32, &mut ctx, DEPTH)
}

#[test]
fn an_alias_with_the_keyword_passes_where_the_keyword_is_wanted() {
    let sql = "select foo.bar from table1 AS foo";
    assert_eq!(fix(sql, vec![RuleAL01::default().erased()]), sql);
    // What was fixed once is not fixed again.
    let once = fix("select foo.bar from table1 foo", vec![RuleAL01::default().erased()]);
    assert_eq!(once, "select foo.bar from table1 AS foo");
    assert_eq!(fix(&once, vec![RuleAL01::default().erased()]), once);
}

#[test]
fn a_node_below_which_a_fix_was_applied_spans_what_it_holds() {
    let mut tables = Tables::default();
    let tokens = lex("ab cd", &mut tables);
    let tree = sqruff_lib::segment::SegmentBuilder::node(
        tables.next_id(),
        SyntaxKind::File,
        DialectKind::Ansi,
        tokens.clone(),
    )
    .position_from_segments()
    .finish();
    assert_eq!(tree.get_position_marker().unwrap().source_slice, 0..5);
    let fixes = vec![LintFix::delete(tokens[0].clone()), LintFix::delete(tokens[1].clone())];
    let mut info = compute_anchor_edit_info(fixes);
    let (fixed, _, _, _) = tree.apply_fixes(&mut info);
    assert_eq!(fixed.raw(), "cd");
    assert_eq!(fixed.id(), tree.id());
    let first = fixed.segments()[0].get_position_marker().unwrap().source_slice.clone();
    let marker = fixed.get_position_marker().unwrap();
    assert_eq!(marker.source_slice.start, first.start);
    let last = fixed.segments().last().unwrap().get_position_marker().unwrap();
    assert_eq!(marker.source_slice.end, last.source_slice.end);
}
