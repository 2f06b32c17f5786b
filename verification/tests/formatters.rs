use sqruff_lib::formatters::{checked_split_on_spaces, split_string_on_spaces};

#[test]
fn test_short_string() {
    assert_eq!(split_string_on_spaces("abc", 100), vec!["abc"]);
}

#[test]
fn test_split_with_line_length() {
    assert_eq!(split_string_on_spaces("abc def ghi", 7), vec!["abc def", "ghi"]);
}

#[test]
fn test_preserve_multi_space() {
    assert_eq!(split_string_on_spaces("a '   ' b c d e f", 11), vec!["a '   ' b c", "d e f"]);
}

#[test]
fn test__cli__helpers__cli_table() {}

#[test]
fn test__cli__fix_no_corrupt_file_contents() {}

fn escape_ansi(line: &str) -> String {
    let ansi_escape = fancy_regex::Regex::new("\x1B\\[[0-9]+(?:;[0-9]+)?m").unwrap();
    ansi_escape.replace_all(line, "").into_owned()
}

fn mk_formatter() -> sqruff_lib::formatters::OutputStreamFormatter {
    sqruff_lib::formatters::OutputStreamFormatter::new(false, true)
}

#[test]
fn test__cli__formatters__filename_nocol() {
    let mut formatter = mk_formatter();
    let actual = formatter.format_filename("blahblah", true);

    assert_eq!(escape_ansi(&actual), "== [blahblah] PASS");
}

#[test]
fn test__cli__formatters__violation() {
    let formatter = mk_formatter();

    let s = sqruff_lib::segment::SegmentBuilder::token(0, "foobarbar", sqruff_lib::syntax::SyntaxKind::Word)
        .with_position(sqruff_lib::markers::PositionMarker::new(
            10..19,
            10..19,
            sqruff_lib::templater::TemplatedFile::from_string("      \n\n  foobarbar".into()),
            None,
            None,
        ))
        .finish();

    let v = sqruff_lib::errors::SQLLintError::new("DESC", &s).with_rule(sqruff_lib::errors::RuleInfo {
        code: "A".to_string(),
        name: "some-name".to_string(),
        description: "".to_string(),
    });

    let f = formatter.format_violation(&v.to_base(), 90);

    assert_eq!(escape_ansi(&f), "L:   3 | P:   3 |    A | DESC [some-name]");
}

#[test]
fn test__cli__helpers__colorize() {
    let mut formatter = mk_formatter();
    // Force color output for this test.
    formatter.plain_output = false;

    let actual = formatter.colorize("foo", sqruff_lib::formatters::Paint::Red);
    assert_eq!(actual, "\u{1b}[31mfoo\u{1b}[0m");
}

#[test]
fn plain_output_has_no_colours() {
    let mut formatter = sqruff_lib::formatters::OutputStreamFormatter::new(true, true);
    assert!(formatter.plain_output);
    assert!(sqruff_lib::formatters::OutputStreamFormatter::new(false, false).plain_output);
    assert!(!sqruff_lib::formatters::OutputStreamFormatter::new(false, true).plain_output);
    assert_eq!(formatter.colorize("foo", sqruff_lib::formatters::Paint::Red), "foo");
    assert_eq!(formatter.format_filename("f.sql", false), "== [f.sql] FAIL");
    assert!(formatter.has_fail);
    assert_eq!(
        formatter.format_filename("f.sql", (sqruff_lib::formatters::Status::Fixed, true)),
        "== [f.sql] FIXED"
    );
    assert_eq!(formatter.completion_message(), Some("All Finished".to_string()));
    assert_eq!(formatter.dispatch("  \n "), None);
    assert_eq!(formatter.dispatch(" x "), Some(" x ".to_string()));
    formatter.filter_empty = false;
    assert_eq!(formatter.dispatch("  "), Some("  ".to_string()));
}

#[test]
fn violations_are_laid_out_in_the_order_of_the_file() {
    let mut formatter = sqruff_lib::formatters::OutputStreamFormatter::new(true, true);
    let violation = |line_no: usize, line_pos: usize, description: &str, warning: bool| {
        let mut v = sqruff_lib::errors::SQLBaseError::new();
        v.line_no = line_no;
        v.line_pos = line_pos;
        v.description = description.to_string();
        v.warning = warning;
        v
    };
    let violations = vec![
        violation(12, 1, "later", false),
        violation(2, 7, "a warning that is long enough to be cut in two lines when it is laid out", true),
        violation(2, 3, "first", false),
    ];
    let text = formatter.format_file_violations("f.sql", violations);
    let want = "== [f.sql] FAIL\n\
                L:   2 | P:   3 | ???? | first\n\
                L:   2 | P:   7 | ???? | WARNING: a warning that is long enough to be cut in two\n\
                \x20                      | lines when it is laid out\n\
                L:  12 | P:   1 | ???? | later\n";
    assert_eq!(text, want);
    assert!(formatter.has_fail);
    let mut quiet = sqruff_lib::formatters::OutputStreamFormatter::new(true, true);
    assert_eq!(quiet.format_file_violations("f.sql", vec![]), "");
    quiet.verbosity = 1;
    assert_eq!(quiet.format_file_violations("f.sql", vec![]), "== [f.sql] PASS\n");
    quiet.verbosity = -1;
    assert_eq!(quiet.dispatch_file_violations("f.sql", vec![violation(1, 1, "x", false)], false, false), None);
    assert_eq!(sqruff_lib::formatters::decimal(0), "0");
    assert_eq!(sqruff_lib::formatters::decimal(9075), "9075");
    assert_eq!(sqruff_lib::formatters::pad_left("ab", 4), "  ab");
    assert_eq!(sqruff_lib::formatters::pad_left("abcde", 4), "abcde");
}

#[test]
fn a_line_without_white_space_is_cut_where_it_stands() {
    assert_eq!(split_string_on_spaces("abcdefgh", 3), vec!["abc", "efg"]);
    assert_eq!(split_string_on_spaces("", 3), Vec::<&str>::new());
    assert_eq!(split_string_on_spaces("ab cd", 0), vec!["", "", "", "", ""]);
    assert_eq!(split_string_on_spaces("ab cd", 1), vec!["a", " ", "d"]);
}

#[test]
fn the_length_of_a_line_is_counted_in_bytes() {
    assert_eq!(
        split_string_on_spaces("héllo wörld, ça va bien", 8),
        vec!["héllo", "wörld,", "ça va", "bien"]
    );
    // Counted in characters, the first line would run up to the second blank.
    assert_eq!(split_string_on_spaces("é bcd ef", 5), vec!["é", "bcd", "ef"]);
    assert_eq!(
        checked_split_on_spaces("é bcd ef", 5),
        Some(vec!["é", "bcd", "ef"])
    );
    assert_eq!(checked_split_on_spaces("a\u{3000}b", 9), Some(vec!["a\u{3000}b"]));
}

#[test]
fn a_line_that_would_start_inside_a_character_is_not_cut() {
    assert_eq!(checked_split_on_spaces("ééééééé", 3), None);
    assert_eq!(checked_split_on_spaces("éééé éé", 6), None);
    // A blank that is no character of ASCII is white space too: the line is
    // cut at it, and the next one would start inside it.
    assert_eq!(checked_split_on_spaces("ab\u{a0}cd", 3), None);
    let formatter = sqruff_lib::formatters::OutputStreamFormatter::new(true, true);
    let wide = "é".repeat(60);
    let violation = |line_no: usize, line_pos: usize, description: &str, warning: bool| {
        let mut v = sqruff_lib::errors::SQLBaseError::new();
        v.line_no = line_no;
        v.line_pos = line_pos;
        v.description = description.to_string();
        v.warning = warning;
        v
    };
    assert!(!formatter.can_format(&violation(1, 1, &wide, false), 80));
    assert!(formatter.can_format(&violation(1, 1, "a plain description", false), 80));
    assert!(!formatter.can_format_all(&vec![
        violation(1, 1, "a plain description", false),
        violation(2, 1, &wide, false),
    ]));
    assert!(formatter.can_format_all(&vec![violation(1, 1, "a plain description", false)]));
    assert_eq!(
        formatter.description(&violation(1, 1, "a plain description", true)),
        "WARNING: a plain description"
    );
}
