use sqruff_lib::dialect::{Dialect, DialectElementType, Grammar, SegmentGenerator, check_unique_names};
use sqruff_lib::helpers::Config;
use sqruff_lib::helpers::{
    capitalize, enter_panic, normalize, skip_last, HashableFancyRegex, PanicContext, PathPart,
};
use sqruff_lib::reindent::{
    construct_single_indent, prune_untaken_indents, update_crawl_balances, IndentLine, IndentPoint,
    IndentStats,
};
use sqruff_lib::rules::{Aliasing, LintPhase, LintResult, RuleAL01, RuleCP02, RuleGroups};
use sqruff_lib::syntax::SyntaxKind;
use sqruff_lib::test_functions::raw_seg;

#[test]
fn capitalize_puts_the_first_letter_in_upper_case() {
    assert_eq!(capitalize("select"), "Select");
    assert_eq!(capitalize("SELECT"), "Select");
    assert_eq!(capitalize("sELECT_it"), "Select_it");
    assert_eq!(capitalize(""), "");
    assert_eq!(capitalize("1aB"), "1ab");
}

#[test]
fn skip_last_drops_the_last_item_only() {
    assert_eq!(skip_last(vec![1, 2, 3]), vec![1, 2]);
    assert_eq!(skip_last(vec![1]), Vec::<i32>::new());
    assert_eq!(skip_last(Vec::<i32>::new()), Vec::<i32>::new());
}

fn parts(text: &str) -> Vec<PathPart> {
    text.split('/')
        .map(|p| match p {
            "" => PathPart::RootDir,
            "." => PathPart::CurDir,
            ".." => PathPart::ParentDir,
            name => PathPart::Normal(name.to_string()),
        })
        .collect()
}

fn text(parts: &[PathPart]) -> String {
    parts
        .iter()
        .map(|p| match p {
            PathPart::Prefix(p) => p.clone(),
            PathPart::RootDir => "".to_string(),
            PathPart::CurDir => ".".to_string(),
            PathPart::ParentDir => "..".to_string(),
            PathPart::Normal(n) => n.clone(),
        })
        .collect::<Vec<_>>()
        .join("/")
}

#[test]
fn normalize_takes_names_away_for_parent_steps() {
    assert_eq!(text(&normalize(&parts("a/b/../c"))), "a/c");
    assert_eq!(text(&normalize(&parts("a/./b"))), "a/b");
    assert_eq!(text(&normalize(&parts("../a"))), "../a");
    assert_eq!(text(&normalize(&parts("../../a/.."))), "../..");
    assert_eq!(text(&normalize(&parts("/.."))), "");
    assert_eq!(text(&normalize(&parts("a/.."))), ".");
    assert_eq!(text(&normalize(&parts("."))), ".");
    assert_eq!(text(&normalize(&vec![PathPart::Prefix("C:".to_string()), PathPart::ParentDir])), "C:/..");
}

#[test]
fn the_panic_context_is_a_stack() {
    let mut ctx = PanicContext::new();
    assert_eq!(ctx.report(), "");
    enter_panic(&mut ctx, "parsing".to_string());
    enter_panic(&mut ctx, "matching".to_string());
    assert_eq!(ctx.report(), "Panic context:\n> parsing\n\n> matching\n\n");
    assert_eq!(ctx.leave(), Some("matching".to_string()));
    assert_eq!(ctx.leave(), Some("parsing".to_string()));
    assert_eq!(ctx.leave(), None);
}

#[test]
fn regular_expressions_are_told_apart_by_their_pattern() {
    let a = HashableFancyRegex::new("a+(?=b)").unwrap();
    let b = HashableFancyRegex::new("a+(?=b)").unwrap();
    let c = HashableFancyRegex::new("a+").unwrap();
    assert_eq!(a.as_str(), "a+(?=b)");
    assert!(a.same(&b));
    assert!(!a.same(&c));
    assert!(HashableFancyRegex::new("(").is_err());
}

#[test]
fn a_dialect_holds_sets_and_grammar() {
    let mut dialect = Dialect::new("FileSegment");
    assert_eq!(dialect.root_segment_name(), "FileSegment");
    assert!(dialect.sets("reserved_keywords").is_empty());
    dialect.sets_mut("reserved_keywords", vec!["SELECT".to_string(), "FROM".to_string()]);
    dialect.sets_mut("reserved_keywords", vec!["FROM".to_string(), "WHERE".to_string()]);
    assert_eq!(dialect.sets("reserved_keywords"), vec!["SELECT", "FROM", "WHERE"]);
    dialect.update_keywords_set_from_multiline_string("unreserved_keywords", "  level\nSELECT \n\tday\n");
    assert_eq!(dialect.sets("unreserved_keywords"), vec!["level", "SELECT", "day"]);
    // A second time changes nothing, and the other sets stay as they are.
    dialect.update_keywords_set_from_multiline_string("unreserved_keywords", "  level\nSELECT \n\tday\n");
    assert_eq!(dialect.sets("unreserved_keywords"), vec!["level", "SELECT", "day"]);
    assert_eq!(dialect.sets("reserved_keywords"), vec!["SELECT", "FROM", "WHERE"]);
    dialect.sets_mut("bare_functions", vec!["current_date".to_string()]);

    let round = ("round".to_string(), "StartBracketSegment".to_string(), "EndBracketSegment".to_string(), true);
    dialect.update_bracket_sets("bracket_pairs", vec![round.clone(), round.clone()]);
    assert_eq!(dialect.bracket_sets("bracket_pairs"), vec![round.clone()]);
    assert!(dialect.bracket_sets("angle_bracket_pairs").is_empty());
    let angle = ("angle".to_string(), "LessThanSegment".to_string(), "GreaterThanSegment".to_string(), false);
    dialect.update_bracket_sets("angle_bracket_pairs", vec![angle.clone()]);
    dialect.update_bracket_sets("bracket_pairs", vec![round.clone()]);
    assert_eq!(dialect.bracket_sets("bracket_pairs"), vec![round]);
    assert_eq!(dialect.bracket_sets("angle_bracket_pairs"), vec![angle]);
    assert_eq!(dialect.sets("reserved_keywords"), vec!["SELECT", "FROM", "WHERE"]);

    let items = vec![
        ("BareFunctionSegment".to_string(), DialectElementType::SegmentGenerator(SegmentGenerator {
            set_label: "bare_functions".to_string(),
            kind: SyntaxKind::Word,
        })),
        ("FileSegment".to_string(), DialectElementType::Matchable(Grammar::Nothing)),
        ("SelectKeywordSegment".to_string(), DialectElementType::Matchable(Grammar::Nothing)),
    ];
    assert!(check_unique_names(&dialect, &items));
    dialect.extend(items);
    let again = vec![("FileSegment".to_string(), DialectElementType::Matchable(Grammar::Nothing))];
    assert!(!check_unique_names(&dialect, &again));
    let twice = vec![
        ("X".to_string(), DialectElementType::Matchable(Grammar::Nothing)),
        ("X".to_string(), DialectElementType::Matchable(Grammar::Nothing)),
    ];
    assert!(!check_unique_names(&dialect, &twice));

    assert!(dialect.try_ref("BareFunctionSegment").is_none());
    assert!(dialect.try_ref("Missing").is_none());
    dialect.expand();
    match dialect.ref_("BareFunctionSegment") {
        Grammar::OneOf(options) => {
            assert_eq!(options.len(), 1);
            assert!(matches!(&options[0], Grammar::StringParser { template, kind }
                if template == "current_date" && *kind == SyntaxKind::Word));
        }
        other => panic!("not expanded: {other:?}"),
    }
    assert!(matches!(dialect.get_root_segment(), Grammar::Nothing));
    // The keyword that had a grammar keeps it; the others get one.
    assert!(matches!(dialect.ref_("SelectKeywordSegment"), Grammar::Nothing));
    assert!(matches!(dialect.ref_("FromKeywordSegment"), Grammar::StringParser { template, kind }
        if template == "FROM" && *kind == SyntaxKind::Keyword));
    assert!(matches!(dialect.ref_("LevelKeywordSegment"), Grammar::StringParser { template, .. }
        if template == "LEVEL"));
    assert!(dialect.try_ref("LevelKeywordSegment").is_some());
    assert!(dialect.try_ref("DayKeywordSegment").is_some());
    assert!(dialect.try_ref("WhereKeywordSegment").is_some());
}

#[test]
fn indentation_is_made_of_tabs_or_blanks() {
    assert_eq!(construct_single_indent("tab", 4), "\t");
    assert_eq!(construct_single_indent("space", 4), "    ");
    assert_eq!(construct_single_indent("space", 0), "");
}

#[test]
fn untaken_indents_are_pruned_and_added() {
    let stats = IndentStats { impulse: 2, trough: 0, implicit_indents: vec![1] };
    assert_eq!(prune_untaken_indents(vec![1, 9, 3], 1, &stats, false), vec![1, 3, 3]);
    assert_eq!(prune_untaken_indents(vec![1, 9, 3], 1, &stats, true), vec![1, 3]);
    let flat = IndentStats { impulse: 0, trough: 0, implicit_indents: vec![] };
    assert_eq!(update_crawl_balances(vec![1, 2], 1, &flat, false), (1, vec![1]));
    assert_eq!(update_crawl_balances(vec![], 3, &stats, false), (5, vec![5]));
    let point = |idx, impulse, balance, last| IndentPoint {
        idx,
        indent_impulse: impulse,
        indent_trough: 0,
        initial_indent_balance: balance,
        last_line_break_idx: last,
        is_line_break: false,
        untaken_indents: vec![],
    };
    assert_eq!(point(0, 2, 3, None).closing_indent_balance(), 5);
    let first = IndentLine::from_points(vec![point(0, 1, 0, None), point(2, 1, 1, None)]);
    assert_eq!(first.initial_indent_balance, 0);
    assert_eq!(first.opening_balance(), 0);
    assert_eq!(first.closing_balance(), 2);
    let later = IndentLine::from_points(vec![point(4, 1, 2, Some(4)), point(6, 0, 3, Some(4))]);
    assert_eq!(later.initial_indent_balance, 3);
    assert_eq!(later.opening_balance(), 3);
    assert_eq!(later.closing_balance(), 3);
}

#[test]
fn rules_have_settings_and_results_describe_themselves() {
    assert_eq!(RuleAL01::default().aliasing, Aliasing::Explicit);
    assert_eq!(RuleAL01::default().aliasing(Aliasing::Implicit).aliasing, Aliasing::Implicit);
    assert_eq!(RuleCP02::default().unquoted_identifiers_policy, "all");
    assert_eq!(RuleGroups::Capitalisation.as_str(), "capitalisation");
    assert_eq!(RuleGroups::All.as_str(), "all");
    assert!(LintPhase::Main != LintPhase::Post);
    let empty = LintResult::new(None, vec![], None, None, None);
    assert_eq!(empty.describe(), "LintResult(<empty>)");
    let seg = raw_seg();
    let fixes = vec![sqruff_lib::fix::LintFix::delete(seg.clone())];
    let full = LintResult::new(
        Some(seg.clone()),
        fixes,
        None,
        Some("Too long".to_string()),
        Some("LT05".to_string()),
    );
    assert_eq!(full.describe(), "LintResult(Too long [LT05]: 'foobar'+1F)");
    let bare = LintResult::new(Some(seg.clone()), vec![], None, None, None);
    assert_eq!(bare.describe(), "LintResult('foobar')");
    let rule = sqruff_lib::errors::RuleInfo {
        code: "LT05".to_string(),
        name: "layout.long_lines".to_string(),
        description: "Line is too long.".to_string(),
    };
    assert!(empty.to_linting_error(&rule).is_none());
    let e = bare.to_linting_error(&rule).unwrap();
    assert_eq!(e.base.description, "Line is too long.");
    assert_eq!(e.base.rule_code(), "LT05");
    assert_eq!((e.base.line_no, e.base.line_pos), (1, 1));
    assert_eq!(full.to_linting_error(&rule).unwrap().base.desc(), "Too long");
    assert_eq!(sqruff_lib::errors::SQLBaseError::new().rule_code(), "????");
}

#[test]
fn config_hands_the_value_through_the_function() {
    let v = vec![1u32, 2].config(|mut v| {
        v.push(3);
        v
    });
    assert_eq!(v, vec![1, 2, 3]);
    assert_eq!(7u8.config(|x| x), 7);
}
