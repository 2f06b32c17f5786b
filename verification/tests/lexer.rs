use sqruff_lib::ansi::lexer_matchers;
use sqruff_lib::lexer::{
    LexMatcher, LexedElement, Lexer, Matcher, RegexLexer, StringLexer, StringOrTemplate,
    TemplateElement,
};
use sqruff_lib::segment::Tables;
use sqruff_lib::syntax::SyntaxKind;
use sqruff_lib::test_functions::{fresh_ansi_dialect, lex};

#[test]
fn test_dialect_ansi_file_lex() {
    // Define the test cases
    let test_cases = vec![
        ("a b", vec!["a", " ", "b", ""]),
        ("b.c", vec!["b", ".", "c", ""]),
        ("abc \n \t def  ;blah", vec!["abc", " ", "\n", " \t ", "def", "  ", ";", "blah", ""]),
    ];

    for (raw, res) in test_cases {
        let lexer = Lexer::new(lexer_matchers());
        let mut tables = Tables::default();

        let (tokens, errors) = lexer.lex(StringOrTemplate::String(raw.to_string()), &mut tables);
        assert_eq!(errors.len(), 0, "Lexing failed for input: {}", raw);

        // Check if the raw components of the tokens match the expected result
        let raw_list: Vec<String> = tokens.iter().map(|token| token.raw()).collect();
        assert_eq!(raw_list, res, "Mismatch for input: {:?}", raw);

        // The raw texts of the tokens, one after the other, are the text that was lexed.
        let concatenated: String = tokens.iter().map(|token| token.raw()).collect();
        assert_eq!(concatenated, raw, "Concatenation mismatch for input: {}", raw);
    }
}

#[test]
fn lexing_loses_nothing_of_the_text() {
    let lexer = Lexer::new(lexer_matchers());
    for raw in ["", "select 1", "sel\u{e9}ct `x` ~ 'it''s' -- c\n/* b */ 1.5e3", "\t\u{2603}\u{2603} a"] {
        let mut tables = Tables::default();
        let (tokens, errors) = lexer.lex(StringOrTemplate::String(raw.to_string()), &mut tables);
        let concatenated: String = tokens.iter().map(|token| token.raw()).collect();
        assert_eq!(concatenated, raw);
        assert_eq!(tokens.last().unwrap().get_type(), SyntaxKind::EndOfFile);
        let unlexable = tokens.iter().filter(|t| t.get_type() == SyntaxKind::Unlexable).count();
        assert_eq!(errors.len(), unlexable);
        let mut at = 0;
        for token in &tokens {
            let m = token.get_position_marker().unwrap();
            assert_eq!(m.templated_slice.start, at);
            at = m.templated_slice.end;
        }
        assert_eq!(at, raw.len());
    }
}

#[test]
fn what_cannot_be_lexed_is_reported() {
    let lexer = Lexer::new(lexer_matchers());
    let mut tables = Tables::default();
    let (tokens, errors) =
        lexer.lex(StringOrTemplate::String("a ~~~~~~~~~~~~ b".to_string()), &mut tables);
    assert_eq!(errors.len(), 1);
    assert_eq!(errors[0].message, "Unable to lex characters: ~~~~~~~~~~");
    assert_eq!(errors[0].source_slice, 2..14);
    assert_eq!(tokens[2].get_type(), SyntaxKind::Unlexable);
    assert!(lex("a ~ b").is_none());
    let ok = lex("a b").unwrap();
    assert_eq!(ok.len(), 4);
}

#[test]
fn string_lexer_takes_its_template_from_the_start() {
    let dot = StringLexer::new("dot", ".", SyntaxKind::Dot);
    assert_eq!(dot.get_name(), "dot");
    assert!(dot.match_(String::new()).is_err());
    let m = dot.match_(".a.".to_string()).unwrap();
    assert!(m.is_non_empty());
    assert_eq!(m.elements.len(), 1);
    assert_eq!(m.elements[0].raw, ".");
    assert_eq!(m.elements[0].matcher, "dot");
    assert_eq!(m.forward_string, "a.");
    let none = dot.match_("a.".to_string()).unwrap();
    assert!(!none.is_non_empty());
    assert_eq!(none.forward_string, "a.");
    assert!(dot._match("a.").is_none());
    assert_eq!(dot.search("ab.c."), Some(2..3));
    assert_eq!(dot.search("abc"), None);
}

#[test]
fn regex_lexer_takes_what_matches_at_the_start() {
    let word = RegexLexer::new("word", "[a-z]+", SyntaxKind::Word).unwrap();
    assert!(RegexLexer::new("bad", "(", SyntaxKind::Word).is_err());
    let m = word.match_("abc def".to_string()).unwrap();
    assert_eq!(m.elements.len(), 1);
    assert_eq!(m.elements[0].raw, "abc");
    assert_eq!(m.elements[0].kind, SyntaxKind::Word);
    assert_eq!(m.forward_string, " def");
    // A match that is not at the start is no match for the lexer.
    assert!(word._match(" abc").is_none());
    assert!(word.match_(" abc".to_string()).unwrap().elements.is_empty());
    assert_eq!(word.search("12 abc"), Some(3..6));
    assert_eq!(word.search("12"), None);
    assert!(word.match_(String::new()).is_err());
}

#[test]
fn lex_match_stops_where_no_matcher_takes_anything() {
    let matchers = vec![
        LexMatcher::Regex(RegexLexer::new("word", "[a-z]+", SyntaxKind::Word).unwrap()),
        LexMatcher::String(StringLexer::new("dot", ".", SyntaxKind::Dot)),
    ];
    let m = Lexer::lex_match("ab.cd ef", &matchers);
    let raws: Vec<&str> = m.elements.iter().map(|e| e.raw.as_str()).collect();
    assert_eq!(raws, vec!["ab", ".", "cd"]);
    assert_eq!(m.forward_string, " ef");
    let all = Lexer::lex_match("ab", &matchers);
    assert_eq!(all.forward_string, "");
}

#[test]
fn template_elements_follow_each_other() {
    let elements = vec![
        LexedElement { raw: "ab".to_string(), matcher: "word".to_string(), kind: SyntaxKind::Word },
        LexedElement { raw: "\u{e9}".to_string(), matcher: "word".to_string(), kind: SyntaxKind::Word },
        LexedElement { raw: ".".to_string(), matcher: "dot".to_string(), kind: SyntaxKind::Dot },
    ];
    let placed = Lexer::map_template_slices(elements.clone());
    let slices: Vec<_> = placed.iter().map(|e| e.template_slice.clone()).collect();
    assert_eq!(slices, vec![0..2, 2..4, 4..5]);
    let one = TemplateElement::from_element(elements[0].clone(), 7..9);
    assert_eq!(one.raw, "ab");
    assert_eq!(one.template_slice, 7..9);
    assert_eq!(one.matcher, "word");
}

#[test]
fn the_ansi_dialect_has_a_lexer() {
    let dialect = fresh_ansi_dialect();
    assert_eq!(dialect.root_segment_name(), "FileSegment");
    assert_eq!(dialect.lexer_matchers().len(), lexer_matchers().len());
    assert!(dialect.lexer_matchers().len() > 30);
}

#[test]
fn tokens_are_handed_on_where_nothing_went_wrong() {
    let tokens = lex("select 1").unwrap();
    let n = tokens.len();
    let kept = sqruff_lib::test_functions::lexed(tokens, &Vec::new()).unwrap();
    assert_eq!(kept.len(), n);
    let error = sqruff_lib::errors::SQLLexError { message: "x".to_string(), source_slice: 0..1 };
    assert!(sqruff_lib::test_functions::lexed(kept, &vec![error]).is_none());
}

#[test]
fn the_lexer_has_the_matchers_that_are_wanted() {
    let matchers = sqruff_lib::ansi::lexer_matchers();
    assert_eq!(matchers.len(), 32);
    let names: Vec<String> = matchers
        .iter()
        .map(|m| match m {
            sqruff_lib::lexer::LexMatcher::Regex(l) => l.name.clone(),
            sqruff_lib::lexer::LexMatcher::String(l) => l.name.clone(),
        })
        .collect();
    assert_eq!(names[0], "whitespace");
    assert_eq!(names[7], "casting_operator");
    assert_eq!(names[31], "word");
    assert!(matches!(&matchers[13], sqruff_lib::lexer::LexMatcher::String(l) if l.template == ","));
}
