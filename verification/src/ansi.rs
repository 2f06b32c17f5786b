//! The ANSI dialect: its lexer, and a grammar of statements that select.

use vstd::prelude::*;

use crate::dialect::{
    has_name, index_of, lemma_has_name_push, lemma_index_of, pair_views, texts, union_pairs,
    union_texts, BracketPair, Dialect, DialectElementType, Grammar, PairV, ParseMode,
    SegmentGenerator,
};
use crate::lexer::{LexMatcher, RegexLexer, StringLexer};
use crate::regexes::regex_compiled;
use crate::syntax::SyntaxKind;
use crate::text::copy_str;

verus! {

#[derive(Debug, Clone, Copy)]
pub struct AnsiDialect;

impl AnsiDialect {
    /// The matchers of the lexer of the dialect.
    pub fn get_lexer_matchers(&self) -> (r: Vec<LexMatcher>)
        ensures
            made_of(r@, wanted_matchers(), wanted_matchers().len() as int),
    {
        lexer_matchers()
    }
}

/// A matcher that the lexer is to have: whether it is a regular
/// expression, its name, its pattern or its text, and the kind of what it
/// takes.
pub type Wanted = (bool, &'static str, &'static str, SyntaxKind);

/// The matchers that the lexer is to have, in the order in which they are
/// tried: white space but new lines, comments, quoted text, numbers, new
/// lines, the signs, and last anything else that looks like a word.
pub open spec fn wanted_matchers() -> Seq<Wanted> {
    seq![
        (true, "whitespace", "[^\\S\\r\\n]+", SyntaxKind::Whitespace),
        (true, "inline_comment", "(--|#)[^\\n]*", SyntaxKind::InlineComment),
        (true, "block_comment", "/\\*([^\\*]|\\*+[^\\*/])*\\*+/", SyntaxKind::BlockComment),
        (true, "single_quote", "'([^'\\\\]|\\\\.|'')*'", SyntaxKind::SingleQuote),
        (true, "double_quote", "\"([^\"\\\\]|\\\\.)*\"", SyntaxKind::DoubleQuote),
        (true, "numeric_literal", "(\\d+\\.\\d+|\\d+\\.|\\.\\d+|\\d+)([eE][+-]?\\d+)?", SyntaxKind::NumericLiteral),
        (true, "newline", "\\r\\n|\\n", SyntaxKind::Newline),
        (false, "casting_operator", "::", SyntaxKind::Symbol),
        (false, "equals", "=", SyntaxKind::ComparisonOperator),
        (false, "greater_than", ">", SyntaxKind::ComparisonOperator),
        (false, "less_than", "<", SyntaxKind::ComparisonOperator),
        (false, "not", "!", SyntaxKind::ComparisonOperator),
        (false, "dot", ".", SyntaxKind::Dot),
        (false, "comma", ",", SyntaxKind::Comma),
        (false, "plus", "+", SyntaxKind::BinaryOperator),
        (false, "minus", "-", SyntaxKind::BinaryOperator),
        (false, "divide", "/", SyntaxKind::BinaryOperator),
        (false, "percent", "%", SyntaxKind::BinaryOperator),
        (false, "question", "?", SyntaxKind::Symbol),
        (false, "ampersand", "&", SyntaxKind::BinaryOperator),
        (false, "vertical_bar", "|", SyntaxKind::BinaryOperator),
        (false, "caret", "^", SyntaxKind::BinaryOperator),
        (false, "star", "*", SyntaxKind::Star),
        (false, "start_bracket", "(", SyntaxKind::StartBracket),
        (false, "end_bracket", ")", SyntaxKind::EndBracket),
        (false, "start_square_bracket", "[", SyntaxKind::StartBracket),
        (false, "end_square_bracket", "]", SyntaxKind::EndBracket),
        (false, "start_curly_bracket", "{", SyntaxKind::StartBracket),
        (false, "end_curly_bracket", "}", SyntaxKind::EndBracket),
        (false, "colon", ":", SyntaxKind::Symbol),
        (false, "semicolon", ";", SyntaxKind::Semicolon),
        (true, "word", "[0-9a-zA-Z_]+", SyntaxKind::Word),
    ]
}

/// Whether the lexer gets the matcher: a text always, an expression where
/// it compiles.
pub open spec fn accepted(w: Wanted) -> bool {
    !w.0 || regex_compiled(w.2@) is Some
}

/// How many of the first `k` matchers the lexer gets.
pub open spec fn rank(wanted: Seq<Wanted>, k: int) -> int
    decreases k,
{
    if k <= 0 || k > wanted.len() {
        0
    } else {
        rank(wanted, k - 1) + if accepted(wanted[k - 1]) {
            1int
        } else {
            0int
        }
    }
}

/// Whether the matcher is the one that was wanted.
pub open spec fn fits(m: LexMatcher, w: Wanted) -> bool {
    match m {
        LexMatcher::Regex(l) => w.0 && l.name@ == w.1@ && l.kind == w.3 && regex_compiled(w.2@)
            == Some(l.template),
        LexMatcher::String(l) => !w.0 && l.name@ == w.1@ && l.template@ == w.2@ && l.kind == w.3,
    }
}

/// Whether the matchers are those of the first `k` wanted that the lexer
/// gets, in their order.
pub open spec fn made_of(m: Seq<LexMatcher>, wanted: Seq<Wanted>, k: int) -> bool {
    &&& m.len() == rank(wanted, k)
    &&& forall|j: int|
        0 <= j < k && accepted(wanted[j]) ==> fits(#[trigger] m[rank(wanted, j)], wanted[j])
}

/// The matchers that the lexer gets of the first `k` are as many more as
/// those of the first `j`, as it gets of those between.
pub proof fn lemma_rank(wanted: Seq<Wanted>, j: int, k: int)
    requires
        0 <= j <= k <= wanted.len(),
    ensures
        0 <= rank(wanted, j) <= rank(wanted, k),
        j < k && accepted(wanted[j]) ==> rank(wanted, j) < rank(wanted, k),
    decreases k - j,
{
    lemma_rank_counts(wanted, j);
    if j < k {
        lemma_rank(wanted, j, k - 1);
    }
}

/// The lexer gets none or more of the first `k` matchers.
pub proof fn lemma_rank_counts(wanted: Seq<Wanted>, k: int)
    ensures
        0 <= rank(wanted, k),
    decreases k,
{
    if 0 < k <= wanted.len() {
        lemma_rank_counts(wanted, k - 1);
    }
}

/// Puts the matcher of the expression at the end of the matchers, if the
/// expression compiles.
fn push_regex(matchers: &mut Vec<LexMatcher>, name: &'static str, pattern: &'static str, kind: SyntaxKind)
    ensures
        final(matchers)@.len() >= old(matchers)@.len(),
        final(matchers)@.subrange(0, old(matchers)@.len() as int) == old(matchers)@,
        regex_compiled(pattern@) is None ==> final(matchers)@ == old(matchers)@,
        regex_compiled(pattern@) is Some ==> final(matchers)@.len() == old(matchers)@.len() + 1
            && fits(final(matchers)@.last(), (true, name, pattern, kind)),
{
    let ghost before = matchers@;
    match RegexLexer::new(name, pattern, kind) {
        Ok(l) => {
            matchers.push(LexMatcher::Regex(l));
        },
        Err(_) => {},
    }
    assert(matchers@.subrange(0, before.len() as int) =~= before);
}

/// Puts the matcher of the text at the end of the matchers.
fn push_string(matchers: &mut Vec<LexMatcher>, name: &'static str, template: &'static str, kind: SyntaxKind)
    ensures
        final(matchers)@.len() == old(matchers)@.len() + 1,
        final(matchers)@.subrange(0, old(matchers)@.len() as int) == old(matchers)@,
        fits(final(matchers)@.last(), (false, name, template, kind)),
{
    let ghost before = matchers@;
    matchers.push(LexMatcher::String(StringLexer::new(name, template, kind)));
    assert(matchers@.subrange(0, before.len() as int) =~= before);
}

/// The matchers that the lexer is to have.
fn matcher_table() -> (r: Vec<Wanted>)
    ensures
        r@ == wanted_matchers(),
{
    let mut t: Vec<Wanted> = Vec::new();
    t.push((true, "whitespace", "[^\\S\\r\\n]+", SyntaxKind::Whitespace));
    t.push((true, "inline_comment", "(--|#)[^\\n]*", SyntaxKind::InlineComment));
    t.push((true, "block_comment", "/\\*([^\\*]|\\*+[^\\*/])*\\*+/", SyntaxKind::BlockComment));
    t.push((true, "single_quote", "'([^'\\\\]|\\\\.|'')*'", SyntaxKind::SingleQuote));
    t.push((true, "double_quote", "\"([^\"\\\\]|\\\\.)*\"", SyntaxKind::DoubleQuote));
    t.push((true, "numeric_literal", "(\\d+\\.\\d+|\\d+\\.|\\.\\d+|\\d+)([eE][+-]?\\d+)?", SyntaxKind::NumericLiteral));
    t.push((true, "newline", "\\r\\n|\\n", SyntaxKind::Newline));
    t.push((false, "casting_operator", "::", SyntaxKind::Symbol));
    t.push((false, "equals", "=", SyntaxKind::ComparisonOperator));
    t.push((false, "greater_than", ">", SyntaxKind::ComparisonOperator));
    t.push((false, "less_than", "<", SyntaxKind::ComparisonOperator));
    t.push((false, "not", "!", SyntaxKind::ComparisonOperator));
    t.push((false, "dot", ".", SyntaxKind::Dot));
    t.push((false, "comma", ",", SyntaxKind::Comma));
    t.push((false, "plus", "+", SyntaxKind::BinaryOperator));
    t.push((false, "minus", "-", SyntaxKind::BinaryOperator));
    t.push((false, "divide", "/", SyntaxKind::BinaryOperator));
    t.push((false, "percent", "%", SyntaxKind::BinaryOperator));
    t.push((false, "question", "?", SyntaxKind::Symbol));
    t.push((false, "ampersand", "&", SyntaxKind::BinaryOperator));
    t.push((false, "vertical_bar", "|", SyntaxKind::BinaryOperator));
    t.push((false, "caret", "^", SyntaxKind::BinaryOperator));
    t.push((false, "star", "*", SyntaxKind::Star));
    t.push((false, "start_bracket", "(", SyntaxKind::StartBracket));
    t.push((false, "end_bracket", ")", SyntaxKind::EndBracket));
    t.push((false, "start_square_bracket", "[", SyntaxKind::StartBracket));
    t.push((false, "end_square_bracket", "]", SyntaxKind::EndBracket));
    t.push((false, "start_curly_bracket", "{", SyntaxKind::StartBracket));
    t.push((false, "end_curly_bracket", "}", SyntaxKind::EndBracket));
    t.push((false, "colon", ":", SyntaxKind::Symbol));
    t.push((false, "semicolon", ";", SyntaxKind::Semicolon));
    t.push((true, "word", "[0-9a-zA-Z_]+", SyntaxKind::Word));
    assert(t@ =~= wanted_matchers());
    t
}

/// The matchers of the lexer, in the order in which they are tried: of
/// those that are wanted, each text, and each expression that compiles. A
/// pattern that is refused is left out; `checked_lexer_matchers` says which
/// one is.
pub fn lexer_matchers() -> (r: Vec<LexMatcher>)
    ensures
        made_of(r@, wanted_matchers(), wanted_matchers().len() as int),
{
    let table = matcher_table();
    let ghost wanted = wanted_matchers();
    let mut m: Vec<LexMatcher> = Vec::new();
    let mut k: usize = 0;
    while k < table.len()
        invariant
            k <= table@.len(),
            table@ == wanted,
            made_of(m@, wanted, k as int),
        decreases table.len() - k,
    {
        let ghost before = m@;
        let w = table[k];
        if w.0 {
            push_regex(&mut m, w.1, w.2, w.3);
        } else {
            push_string(&mut m, w.1, w.2, w.3);
        }
        proof {
            assert(w == wanted[k as int]);
            assert forall|j: int| 0 <= j < k + 1 && accepted(wanted[j]) implies fits(
                #[trigger] m@[rank(wanted, j)],
                wanted[j],
            ) by {
                if j < k {
                    lemma_rank(wanted, j, k as int);
                    assert(m@.subrange(0, before.len() as int)[rank(wanted, j)] == m@[rank(
                        wanted,
                        j,
                    )]);
                    assert(fits(before[rank(wanted, j)], wanted[j]));
                } else {
                    assert(m@.last() == m@[rank(wanted, j)]);
                }
            }
        }
        k += 1;
    }
    m
}

/// The matchers of the lexer, in the order in which they are tried, if
/// every pattern that is wanted compiles: then the lexer has them all.
/// Where a pattern is refused, the error of the first that is.
pub fn checked_lexer_matchers() -> (r: Result<Vec<LexMatcher>, regex::Error>)
    ensures
        r is Ok <==> forall|k: int|
            0 <= k < wanted_matchers().len() ==> accepted(#[trigger] wanted_matchers()[k]),
        r matches Ok(m) ==> m@.len() == wanted_matchers().len() && forall|k: int|
            0 <= k < m@.len() ==> fits(#[trigger] m@[k], wanted_matchers()[k]),
{
    let table = matcher_table();
    let ghost wanted = wanted_matchers();
    let mut m: Vec<LexMatcher> = Vec::new();
    let mut k: usize = 0;
    while k < table.len()
        invariant
            k <= table@.len(),
            table@ == wanted,
            wanted == wanted_matchers(),
            m@.len() == k,
            forall|j: int| 0 <= j < k ==> accepted(#[trigger] wanted[j]),
            forall|j: int| 0 <= j < k ==> fits(#[trigger] m@[j], wanted[j]),
        decreases table.len() - k,
    {
        let ghost before = m@;
        let w = table[k];
        assert(w == wanted[k as int]);
        if w.0 {
            match RegexLexer::new(w.1, w.2, w.3) {
                Ok(l) => {
                    m.push(LexMatcher::Regex(l));
                },
                Err(e) => {
                    assert(!accepted(wanted[k as int]));
                    return Err(e);
                },
            }
        } else {
            m.push(LexMatcher::String(StringLexer::new(w.1, w.2, w.3)));
        }
        proof {
            assert forall|j: int| 0 <= j < k + 1 implies fits(#[trigger] m@[j], wanted[j]) by {
                if j < k {
                    assert(m@[j] == before[j]);
                }
            }
        }
        k += 1;
    }
    Ok(m)
}

/// The element of the dialect that goes by the name.
fn named(name: &str) -> (r: Grammar)
    ensures
        r matches Grammar::Ref { name: n, optional } && n@ == name@ && !optional,
{
    Grammar::Ref { name: copy_str(name), optional: false }
}

/// The element of the dialect that goes by the name, which a sequence may
/// go without.
fn maybe(name: &str) -> (r: Grammar)
    ensures
        r matches Grammar::Ref { name: n, optional } && n@ == name@ && optional,
{
    Grammar::Ref { name: copy_str(name), optional: true }
}

/// The token that reads as the word does, as a token of the kind.
fn word(text: &str, kind: SyntaxKind) -> (r: Grammar)
    ensures
        r matches Grammar::StringParser { template, kind: k } && template@ == text@ && k == kind,
{
    Grammar::StringParser { template: copy_str(text), kind }
}

/// The elements one after the other.
fn sequence(elements: Vec<Grammar>) -> (r: Grammar)
    ensures
        r == Grammar::Sequence(elements),
{
    Grammar::Sequence(elements)
}

/// What the element matches, as a node of the kind.
fn node(kind: SyntaxKind, grammar: Grammar) -> (r: Grammar)
    ensures
        r matches Grammar::Node { kind: k, grammar: g } && k == kind && *g == grammar,
{
    Grammar::Node { kind, grammar: Box::new(grammar) }
}

/// The element, over and over, with commas between.
fn list_of(name: &str) -> (r: Grammar)
    ensures
        r is Delimited,
{
    Grammar::Delimited {
        element: Box::new(named(name)),
        delimiter: Box::new(named("CommaSegment")),
        allow_trailing: false,
    }
}

/// Names with dots between, as a node of the kind.
fn dotted(kind: SyntaxKind) -> (r: Grammar)
    ensures
        r is Node,
{
    node(
        kind,
        Grammar::Delimited {
            element: Box::new(named("NakedIdentifierSegment")),
            delimiter: Box::new(named("DotSegment")),
            allow_trailing: false,
        },
    )
}

/// Whether each entry is a grammar that is ready for use.
pub open spec fn all_ready(library: Seq<(String, DialectElementType)>) -> bool {
    forall|i: int| 0 <= i < library.len() ==> (#[trigger] library[i]).1 is Matchable
}

/// Whether each entry from `from` on is a grammar that is ready for use.
pub open spec fn ready_from(library: Seq<(String, DialectElementType)>, from: int) -> bool {
    forall|i: int| from <= i < library.len() ==> (#[trigger] library[i]).1 is Matchable
}

/// Whether the entries of the library from `from` on go by the names, in
/// that order.
pub open spec fn named_from(
    library: Seq<(String, DialectElementType)>,
    from: int,
    names: Seq<Seq<char>>,
) -> bool {
    &&& library.len() == from + names.len()
    &&& forall|i: int| 0 <= i < names.len() ==> (#[trigger] library[from + i]).0@ == names[i]
}

/// Whether the element is the element of the dialect that goes by the
/// name, and no sequence may go without it.
pub open spec fn is_named(g: Grammar, name: Seq<char>) -> bool {
    g matches Grammar::Ref { name: n, optional } && n@ == name && !optional
}

/// Whether the element is the token of the kind `token`, as a token of the
/// kind.
pub open spec fn is_typed(g: Grammar, token: SyntaxKind, kind: SyntaxKind) -> bool {
    g matches Grammar::TypedParser { token: t, kind: k } && t == token && k == kind
}

/// Puts the grammar into the dialect under the name, after what it holds.
fn put(d: &mut Dialect, name: &str, grammar: Grammar)
    ensures
        has_name(final(d).library@, name@),
        final(d).library@.len() == old(d).library@.len() + 1,
        final(d).library@ == old(d).library@.push(final(d).library@.last()),
        final(d).library@.last().0@ == name@,
        final(d).library@.last().1 == DialectElementType::Matchable(grammar),
        final(d).root_segment_name == old(d).root_segment_name,
        final(d).lexer_matchers == old(d).lexer_matchers,
        final(d).sets == old(d).sets,
        final(d).bracket_collections == old(d).bracket_collections,
{
    let ghost before = d.library@;
    let entry = (copy_str(name), DialectElementType::Matchable(grammar));
    proof {
        lemma_has_name_push(before, entry, name@);
    }
    d.library.push(entry);
}

/// Puts into the dialect, under the name and after what it holds, what
/// becomes one of the words of the set of the label, each as a token of the
/// kind, when the dialect is expanded.
fn put_generator(d: &mut Dialect, name: &str, set_label: &str, kind: SyntaxKind)
    ensures
        final(d).library@.len() == old(d).library@.len() + 1,
        final(d).library@ == old(d).library@.push(final(d).library@.last()),
        final(d).library@.last().0@ == name@,
        is_generator(final(d).library@.last().1, set_label@, kind),
        final(d).root_segment_name == old(d).root_segment_name,
        final(d).lexer_matchers == old(d).lexer_matchers,
        final(d).sets == old(d).sets,
        final(d).bracket_collections == old(d).bracket_collections,
{
    let generator = SegmentGenerator { set_label: copy_str(set_label), kind };
    d.library.push((copy_str(name), DialectElementType::SegmentGenerator(generator)));
}

/// Whether the entry is a generator over the set of the label, of the
/// kind.
pub open spec fn is_generator(e: DialectElementType, set_label: Seq<char>, kind: SyntaxKind) -> bool {
    e matches DialectElementType::SegmentGenerator(g) && g.set_label@ == set_label && g.kind == kind
}

/// The names of the words and of the single tokens of the grammar.
pub open spec fn token_names() -> Seq<Seq<char>> {
    seq![
        "NullLiteralSegment"@,
        "CommaSegment"@,
        "DotSegment"@,
        "StarSegment"@,
        "SemicolonSegment"@,
        "NumericLiteralSegment"@,
        "QuotedLiteralSegment"@,
        "ReservedWordSegment"@,
        "NakedIdentifierSegment"@,
    ]
}

/// The single tokens of the grammar, each with the kind that it is of and
/// the kind that it becomes, in the order of their names.
pub open spec fn token_kinds() -> Seq<(SyntaxKind, SyntaxKind)> {
    seq![
        (SyntaxKind::Comma, SyntaxKind::Comma),
        (SyntaxKind::Dot, SyntaxKind::Dot),
        (SyntaxKind::Star, SyntaxKind::Star),
        (SyntaxKind::Semicolon, SyntaxKind::Semicolon),
        (SyntaxKind::NumericLiteral, SyntaxKind::NumericLiteral),
        (SyntaxKind::SingleQuote, SyntaxKind::Literal),
    ]
}

/// The names of the expressions of the grammar.
pub open spec fn expression_names() -> Seq<Seq<char>> {
    seq![
        "ColumnReferenceSegment"@,
        "TableReferenceSegment"@,
        "AliasExpressionSegment"@,
        "ElseClauseSegment"@,
        "CaseExpressionSegment"@,
        "ExpressionSegment"@,
    ]
}

/// The names of the statements of the grammar and of their parts.
pub open spec fn statement_names() -> Seq<Seq<char>> {
    seq![
        "SelectClauseElementSegment"@,
        "SelectClauseSegment"@,
        "FromExpressionElementSegment"@,
        "FromClauseSegment"@,
        "WhereClauseSegment"@,
        "SelectStatementSegment"@,
        "StatementSegment"@,
        "FileSegment"@,
    ]
}

/// The words that no name can be.
pub open spec fn reserved_keywords() -> Seq<Seq<char>> {
    seq![
        "SELECT"@,
        "FROM"@,
        "AS"@,
        "WHERE"@,
        "CASE"@,
        "WHEN"@,
        "THEN"@,
        "ELSE"@,
        "END"@,
        "NULL"@,
    ]
}

/// The pairs of brackets: round, square and curly, of which the round
/// ones alone persist.
pub open spec fn bracket_pairs() -> Seq<PairV> {
    seq![
        ("round"@, "StartBracketSegment"@, "EndBracketSegment"@, true),
        ("square"@, "StartSquareBracketSegment"@, "EndSquareBracketSegment"@, false),
        ("curly"@, "StartCurlyBracketSegment"@, "EndCurlyBracketSegment"@, false),
    ]
}

/// What the literals that name the words and the pairs hold.
pub proof fn lemma_literals()
    ensures
        "SELECT"@.len() == 6 && "SELECT"@[0] == 'S',
        "FROM"@.len() == 4 && "FROM"@[0] == 'F',
        "AS"@.len() == 2,
        "WHERE"@.len() == 5,
        "CASE"@.len() == 4 && "CASE"@[0] == 'C',
        "WHEN"@.len() == 4 && "WHEN"@[0] == 'W',
        "THEN"@.len() == 4 && "THEN"@[0] == 'T',
        "ELSE"@.len() == 4 && "ELSE"@[0] == 'E',
        "END"@.len() == 3,
        "NULL"@.len() == 4 && "NULL"@[0] == 'N',
        "round"@.len() == 5 && "round"@[0] == 'r',
        "square"@.len() == 6,
        "curly"@.len() == 5 && "curly"@[0] == 'c',
        forall|i: int|
            0 <= i < reserved_keywords().len() ==> vstd::utf8::is_ascii_chars(
                #[trigger] reserved_keywords()[i],
            ),
{
    reveal_strlit("SELECT");
    reveal_strlit("FROM");
    reveal_strlit("AS");
    reveal_strlit("WHERE");
    reveal_strlit("CASE");
    reveal_strlit("WHEN");
    reveal_strlit("THEN");
    reveal_strlit("ELSE");
    reveal_strlit("END");
    reveal_strlit("NULL");
    reveal_strlit("round");
    reveal_strlit("square");
    reveal_strlit("curly");
    assert(vstd::utf8::is_ascii_chars("SELECT"@));
    assert(vstd::utf8::is_ascii_chars("FROM"@));
    assert(vstd::utf8::is_ascii_chars("AS"@));
    assert(vstd::utf8::is_ascii_chars("WHERE"@));
    assert(vstd::utf8::is_ascii_chars("CASE"@));
    assert(vstd::utf8::is_ascii_chars("WHEN"@));
    assert(vstd::utf8::is_ascii_chars("THEN"@));
    assert(vstd::utf8::is_ascii_chars("ELSE"@));
    assert(vstd::utf8::is_ascii_chars("END"@));
    assert(vstd::utf8::is_ascii_chars("NULL"@));
}

/// The words, put into an empty set, are the set: none of them stands
/// twice.
pub proof fn lemma_reserved_union()
    ensures
        union_texts(Seq::empty(), reserved_keywords(), 10) == reserved_keywords(),
{
    lemma_literals();
    let w = reserved_keywords();
    let e = Seq::<Seq<char>>::empty();
    assert(union_texts(e, w, 0) == e);
    assert(union_texts(e, w, 1) =~= w.subrange(0, 1));
    assert(union_texts(e, w, 2) =~= w.subrange(0, 2));
    assert(union_texts(e, w, 3) =~= w.subrange(0, 3));
    assert(union_texts(e, w, 4) =~= w.subrange(0, 4));
    assert(union_texts(e, w, 5) =~= w.subrange(0, 5));
    assert(union_texts(e, w, 6) =~= w.subrange(0, 6));
    assert(union_texts(e, w, 7) =~= w.subrange(0, 7));
    assert(union_texts(e, w, 8) =~= w.subrange(0, 8));
    assert(union_texts(e, w, 9) =~= w.subrange(0, 9));
    assert(union_texts(e, w, 10) =~= w.subrange(0, 10));
    assert(w.subrange(0, 10) =~= w);
}

/// The pairs, put into an empty set, are the set: none of them stands
/// twice.
pub proof fn lemma_bracket_union()
    ensures
        union_pairs(Seq::empty(), bracket_pairs(), 3) == bracket_pairs(),
{
    lemma_literals();
    let w = bracket_pairs();
    let e = Seq::<PairV>::empty();
    assert(union_pairs(e, w, 0) == e);
    assert(union_pairs(e, w, 1) =~= w.subrange(0, 1));
    assert(union_pairs(e, w, 2) =~= w.subrange(0, 2));
    assert(union_pairs(e, w, 3) =~= w.subrange(0, 3));
    assert(w.subrange(0, 3) =~= w);
}

/// The words of the dialect that no name can be: the element that becomes
/// one of the reserved words when the dialect is expanded.
fn reserved_words() -> (r: Vec<Grammar>)
    ensures
        r@.len() == 1,
        is_named(r@[0], "ReservedWordSegment"@),
{
    let mut words: Vec<Grammar> = Vec::new();
    words.push(named("ReservedWordSegment"));
    words
}

/// Puts the single tokens of the grammar into the dialect, after what it
/// holds: the literal `NULL`, each single token by its kind, the generator
/// of the reserved words, and last the names, which are the words that are
/// not reserved.
fn add_tokens(d: &mut Dialect)
    ensures
        named_from(final(d).library@, old(d).library@.len() as int, token_names()),
        final(d).library@.subrange(0, old(d).library@.len() as int) == old(d).library@,
        final(d).library@[old(d).library@.len() as int].1 is Matchable,
        crate::dialect::is_parser_of(
            final(d).library@[old(d).library@.len() as int].1->Matchable_0,
            "NULL"@,
            SyntaxKind::Literal,
        ),
        forall|i: int|
            0 <= i < token_kinds().len() ==> (#[trigger] final(d).library@[old(d).library@.len()
                + 1 + i]).1 is Matchable && is_typed(
                final(d).library@[old(d).library@.len() + 1 + i].1->Matchable_0,
                token_kinds()[i].0,
                token_kinds()[i].1,
            ),
        is_generator(
            final(d).library@[(old(d).library@.len() + 7) as int].1,
            "reserved_keywords"@,
            SyntaxKind::Keyword,
        ),
        final(d).library@.last().1 is Matchable,
        final(d).library@.last().1->Matchable_0 is Excluding,
        final(d).root_segment_name == old(d).root_segment_name,
        final(d).lexer_matchers == old(d).lexer_matchers,
        final(d).sets == old(d).sets,
        final(d).bracket_collections == old(d).bracket_collections,
{
    let ghost before = d.library@;
    put(d, "NullLiteralSegment", word("NULL", SyntaxKind::Literal));
    put(
        d,
        "CommaSegment",
        Grammar::TypedParser { token: SyntaxKind::Comma, kind: SyntaxKind::Comma },
    );
    put(d, "DotSegment", Grammar::TypedParser { token: SyntaxKind::Dot, kind: SyntaxKind::Dot });
    put(d, "StarSegment", Grammar::TypedParser { token: SyntaxKind::Star, kind: SyntaxKind::Star });
    put(
        d,
        "SemicolonSegment",
        Grammar::TypedParser { token: SyntaxKind::Semicolon, kind: SyntaxKind::Semicolon },
    );
    put(
        d,
        "NumericLiteralSegment",
        Grammar::TypedParser { token: SyntaxKind::NumericLiteral, kind: SyntaxKind::NumericLiteral },
    );
    put(
        d,
        "QuotedLiteralSegment",
        Grammar::TypedParser { token: SyntaxKind::SingleQuote, kind: SyntaxKind::Literal },
    );
    put_generator(d, "ReservedWordSegment", "reserved_keywords", SyntaxKind::Keyword);
    put(
        d,
        "NakedIdentifierSegment",
        Grammar::Excluding {
            grammar: Box::new(
                Grammar::TypedParser { token: SyntaxKind::Word, kind: SyntaxKind::NakedIdentifier },
            ),
            exclude: Box::new(Grammar::OneOf(reserved_words())),
        },
    );
    assert(d.library@.subrange(0, before.len() as int) =~= before);
}

/// Puts the expressions of the grammar into the dialect, after what it
/// holds: references to columns and to tables, the alias, the else clause
/// and the case expression as nodes of their kinds, and the expression,
/// which is one of several.
fn add_expressions(d: &mut Dialect)
    ensures
        ready_from(final(d).library@, old(d).library@.len() as int),
        named_from(final(d).library@, old(d).library@.len() as int, expression_names()),
        final(d).library@.subrange(0, old(d).library@.len() as int) == old(d).library@,
        forall|i: int|
            0 <= i < 5 ==> (#[trigger] final(d).library@[old(d).library@.len() + i]).1->Matchable_0
                is Node,
        final(d).library@.last().1->Matchable_0 is OneOf,
        final(d).root_segment_name == old(d).root_segment_name,
        final(d).lexer_matchers == old(d).lexer_matchers,
        final(d).sets == old(d).sets,
        final(d).bracket_collections == old(d).bracket_collections,
{
    let ghost before = d.library@;
    put(d, "ColumnReferenceSegment", dotted(SyntaxKind::ColumnReference));
    put(d, "TableReferenceSegment", dotted(SyntaxKind::TableReference));
    let mut alias: Vec<Grammar> = Vec::new();
    alias.push(maybe("AsKeywordSegment"));
    alias.push(named("NakedIdentifierSegment"));
    put(d, "AliasExpressionSegment", node(SyntaxKind::AliasExpression, sequence(alias)));
    let mut otherwise: Vec<Grammar> = Vec::new();
    otherwise.push(named("ElseKeywordSegment"));
    otherwise.push(named("ExpressionSegment"));
    put(d, "ElseClauseSegment", node(SyntaxKind::ElseClause, sequence(otherwise)));
    let mut when: Vec<Grammar> = Vec::new();
    when.push(named("WhenKeywordSegment"));
    when.push(named("ExpressionSegment"));
    when.push(named("ThenKeywordSegment"));
    when.push(named("ExpressionSegment"));
    let mut whens: Vec<Grammar> = Vec::new();
    whens.push(sequence(when));
    let mut case: Vec<Grammar> = Vec::new();
    case.push(named("CaseKeywordSegment"));
    case.push(Grammar::AnyNumberOf { elements: whens, min_times: 1, max_times: None });
    case.push(maybe("ElseClauseSegment"));
    case.push(named("EndKeywordSegment"));
    put(d, "CaseExpressionSegment", node(SyntaxKind::CaseExpression, sequence(case)));
    let mut expression: Vec<Grammar> = Vec::new();
    expression.push(named("CaseExpressionSegment"));
    expression.push(named("NullLiteralSegment"));
    expression.push(named("NumericLiteralSegment"));
    expression.push(named("QuotedLiteralSegment"));
    expression.push(named("ColumnReferenceSegment"));
    expression.push(
        Grammar::Bracketed {
            grammar: Box::new(list_of("ExpressionSegment")),
            start_bracket: copy_str("("),
            end_bracket: copy_str(")"),
            parse_mode: ParseMode::Greedy,
        },
    );
    put(d, "ExpressionSegment", Grammar::OneOf(expression));
    assert(d.library@.subrange(0, before.len() as int) =~= before);
}

/// Puts the statements of the grammar into the dialect, after what it
/// holds, the file last.
fn add_statements(d: &mut Dialect)
    ensures
        ready_from(final(d).library@, old(d).library@.len() as int),
        named_from(final(d).library@, old(d).library@.len() as int, statement_names()),
        final(d).library@.subrange(0, old(d).library@.len() as int) == old(d).library@,
        final(d).library@.last().1->Matchable_0 is Delimited,
        has_name(final(d).library@, "FileSegment"@),
        final(d).root_segment_name == old(d).root_segment_name,
        final(d).lexer_matchers == old(d).lexer_matchers,
        final(d).sets == old(d).sets,
        final(d).bracket_collections == old(d).bracket_collections,
{
    let ghost before = d.library@;
    let mut target: Vec<Grammar> = Vec::new();
    target.push(named("StarSegment"));
    target.push(named("ExpressionSegment"));
    put(d, "SelectClauseElementSegment", Grammar::OneOf(target));
    let mut clause: Vec<Grammar> = Vec::new();
    clause.push(named("SelectKeywordSegment"));
    clause.push(Grammar::Meta(SyntaxKind::Indent));
    clause.push(list_of("SelectClauseElementSegment"));
    clause.push(Grammar::Meta(SyntaxKind::Dedent));
    let mut ends: Vec<String> = Vec::new();
    ends.push(copy_str("FromKeywordSegment"));
    ends.push(copy_str("WhereKeywordSegment"));
    put(
        d,
        "SelectClauseSegment",
        node(
            SyntaxKind::SelectClause,
            Grammar::Terminated { grammar: Box::new(sequence(clause)), terminators: ends },
        ),
    );
    let mut element: Vec<Grammar> = Vec::new();
    element.push(named("TableReferenceSegment"));
    element.push(maybe("AliasExpressionSegment"));
    put(
        d,
        "FromExpressionElementSegment",
        node(SyntaxKind::FromExpressionElement, sequence(element)),
    );
    let mut from: Vec<Grammar> = Vec::new();
    from.push(named("FromKeywordSegment"));
    from.push(list_of("FromExpressionElementSegment"));
    put(d, "FromClauseSegment", sequence(from));
    let mut filter: Vec<Grammar> = Vec::new();
    filter.push(named("WhereKeywordSegment"));
    filter.push(named("ExpressionSegment"));
    put(d, "WhereClauseSegment", sequence(filter));
    let mut select: Vec<Grammar> = Vec::new();
    select.push(named("SelectClauseSegment"));
    select.push(maybe("FromClauseSegment"));
    select.push(maybe("WhereClauseSegment"));
    put(d, "SelectStatementSegment", node(SyntaxKind::SelectStatement, sequence(select)));
    put(d, "StatementSegment", node(SyntaxKind::Statement, named("SelectStatementSegment")));
    put(
        d,
        "FileSegment",
        Grammar::Delimited {
            element: Box::new(named("StatementSegment")),
            delimiter: Box::new(named("SemicolonSegment")),
            allow_trailing: true,
        },
    );
    assert(d.library@.subrange(0, before.len() as int) =~= before);
}

/// The words that no name can be.
fn keyword_list() -> (r: Vec<String>)
    ensures
        texts(r@) == reserved_keywords(),
{
    let mut words: Vec<String> = Vec::new();
    words.push(copy_str("SELECT"));
    words.push(copy_str("FROM"));
    words.push(copy_str("AS"));
    words.push(copy_str("WHERE"));
    words.push(copy_str("CASE"));
    words.push(copy_str("WHEN"));
    words.push(copy_str("THEN"));
    words.push(copy_str("ELSE"));
    words.push(copy_str("END"));
    words.push(copy_str("NULL"));
    assert(texts(words@) =~= reserved_keywords());
    words
}

/// The pairs of brackets of the dialect.
fn pair_list() -> (r: Vec<BracketPair>)
    ensures
        pair_views(r@) == bracket_pairs(),
{
    let mut pairs: Vec<BracketPair> = Vec::new();
    pairs.push(
        (copy_str("round"), copy_str("StartBracketSegment"), copy_str("EndBracketSegment"), true),
    );
    pairs.push(
        (
            copy_str("square"),
            copy_str("StartSquareBracketSegment"),
            copy_str("EndSquareBracketSegment"),
            false,
        ),
    );
    pairs.push(
        (
            copy_str("curly"),
            copy_str("StartCurlyBracketSegment"),
            copy_str("EndCurlyBracketSegment"),
            false,
        ),
    );
    assert(pair_views(pairs@) =~= bracket_pairs());
    pairs
}

/// The names under which the dialect holds its grammar, in order.
pub open spec fn grammar_names() -> Seq<Seq<char>> {
    token_names() + expression_names() + statement_names()
}

/// The place of the generator of the reserved words among the names.
pub open spec fn generator_place() -> int {
    7
}

/// The ANSI dialect before it is expanded. Its lexer has the matchers
/// above. Its bracket pairs are the round, the square and the curly ones,
/// of which the round ones alone persist. Its reserved words are those of
/// `reserved_keywords`; they get their grammar when the dialect is
/// expanded, and so does the generator of the reserved words. The rest of
/// its grammar, which starts at the file, is ready for use, and knows
/// statements that select expressions from tables.
pub fn raw_dialect() -> (r: Dialect)
    ensures
        r.root_segment_name@ == "FileSegment"@,
        r.lexer_matchers is Some,
        pair_views(r.spec_bracket_set("bracket_pairs"@)) == bracket_pairs(),
        r.spec_bracket_set("angle_bracket_pairs"@).len() == 0,
        texts(r.spec_set("reserved_keywords"@)) == reserved_keywords(),
        r.spec_set("unreserved_keywords"@).len() == 0,
        named_from(r.library@, 0, grammar_names()),
        is_generator(r.library@[generator_place()].1, "reserved_keywords"@, SyntaxKind::Keyword),
        forall|i: int|
            0 <= i < r.library@.len() && i != generator_place() ==> (#[trigger] r.library@[i]).1
                is Matchable,
        r.resolves("FileSegment"@),
{
    let mut ansi_dialect = Dialect::new("FileSegment");
    ansi_dialect.set_lexer_matchers(lexer_matchers());
    proof {
        reveal_strlit("unreserved_keywords");
        reveal_strlit("reserved_keywords");
        reveal_strlit("bracket_pairs");
        reveal_strlit("angle_bracket_pairs");
        assert("unreserved_keywords"@.len() == 19 && "unreserved_keywords"@[0] == 'u');
        assert("angle_bracket_pairs"@.len() == 19 && "angle_bracket_pairs"@[0] == 'a');
        assert("reserved_keywords"@.len() == 17);
        assert("bracket_pairs"@.len() == 13);
        lemma_bracket_union();
        lemma_reserved_union();
        assert(pair_views(ansi_dialect.spec_bracket_set("bracket_pairs"@)) =~= Seq::<PairV>::empty());
        assert(texts(ansi_dialect.spec_set("reserved_keywords"@)) =~= Seq::<Seq<char>>::empty());
    }
    let ghost fresh = ansi_dialect;
    assert(fresh.spec_bracket_set("angle_bracket_pairs"@) =~= Seq::<BracketPair>::empty());
    assert(fresh.spec_set("unreserved_keywords"@) =~= Seq::<String>::empty());
    ansi_dialect.update_bracket_sets("bracket_pairs", pair_list());
    assert(ansi_dialect.spec_bracket_set("angle_bracket_pairs"@) == fresh.spec_bracket_set(
        "angle_bracket_pairs"@,
    ));
    let ghost paired = ansi_dialect;
    ansi_dialect.sets_mut("reserved_keywords", keyword_list());
    assert(ansi_dialect.spec_set("unreserved_keywords"@) == paired.spec_set(
        "unreserved_keywords"@,
    ));
    let ghost empty = ansi_dialect.library@;
    add_tokens(&mut ansi_dialect);
    let ghost tokens = ansi_dialect.library@;
    add_expressions(&mut ansi_dialect);
    let ghost expressions = ansi_dialect.library@;
    add_statements(&mut ansi_dialect);
    proof {
        let lib = ansi_dialect.library@;
        assert(empty.len() == 0);
        assert forall|i: int| 0 <= i < lib.len() implies (i != generator_place() ==> (
        #[trigger] lib[i]).1 is Matchable) && lib[i].0@ == grammar_names()[i] by {
            if i < tokens.len() {
                assert(lib.subrange(0, expressions.len() as int)[i] == lib[i]);
                assert(expressions.subrange(0, tokens.len() as int)[i] == expressions[i]);
                assert(tokens[0 + i].0@ == token_names()[i]);
                if i != 7 && i != 0 && i != 8 {
                    assert(tokens[0 + 1 + (i - 1)].1 is Matchable);
                }
            } else if i < expressions.len() {
                assert(lib.subrange(0, expressions.len() as int)[i] == lib[i]);
                assert(expressions[tokens.len() + (i - tokens.len())].0@ == expression_names()[i
                    - tokens.len()]);
            } else {
                assert(lib[expressions.len() + (i - expressions.len())].0@ == statement_names()[i
                    - expressions.len()]);
            }
        }
        assert(lib.subrange(0, expressions.len() as int)[7] == lib[7]);
        assert(expressions.subrange(0, tokens.len() as int)[7] == expressions[7]);
        lemma_index_of(lib, "FileSegment"@, 0);
        reveal_strlit("FileSegment");
        reveal_strlit("ReservedWordSegment");
        assert("FileSegment"@.len() == 11);
        assert("ReservedWordSegment"@.len() == 19);
        assert(lib[7].0@ == "ReservedWordSegment"@);
    }
    ansi_dialect
}

/// The ANSI dialect, ready for use: all of its grammar is, each reserved
/// word has a grammar of its own under its name, which is the token that
/// reads as the word does, and the generator of the reserved words has
/// become one of them.
pub fn dialect() -> (r: Dialect)
    ensures
        r.root_segment_name@ == "FileSegment"@,
        r.lexer_matchers is Some,
        r.resolves("FileSegment"@),
        all_ready(r.library@),
        pair_views(r.spec_bracket_set("bracket_pairs"@)) == bracket_pairs(),
        texts(r.spec_set("reserved_keywords"@)) == reserved_keywords(),
        forall|i: int|
            0 <= i < grammar_names().len() ==> (#[trigger] r.library@[i]).0@ == grammar_names()[i],
        forall|i: int|
            0 <= i < reserved_keywords().len() ==> crate::dialect::keyword_entry(
                r.library@,
                grammar_names().len() as int,
                #[trigger] reserved_keywords()[i],
            ),
        r.library@[generator_place()].1 matches DialectElementType::Matchable(Grammar::OneOf(out))
            && out@.len() == reserved_keywords().len() && forall|i: int|
            0 <= i < out@.len() ==> crate::dialect::is_parser_of(
                #[trigger] out@[i],
                reserved_keywords()[i],
                SyntaxKind::Keyword,
            ),
{
    let mut d = raw_dialect();
    let ghost before = d.library@;
    let ghost words = d.spec_set("reserved_keywords"@);
    proof {
        lemma_literals();
        assert(d.spec_set("unreserved_keywords"@) =~= Seq::<String>::empty());
        assert forall|i: int| 0 <= i < words.len() implies vstd::utf8::is_ascii_chars(
            (#[trigger] words[i])@,
        ) by {
            assert(texts(words)[i] == words[i]@);
            assert(vstd::utf8::is_ascii_chars(reserved_keywords()[i]));
        }
    }
    d.expand();
    proof {
        lemma_index_of(before, "FileSegment"@, 0);
        lemma_index_of(d.library@, "FileSegment"@, 0);
        let at = index_of(before, "FileSegment"@, 0);
        assert(d.library@[at].0@ == before[at].0@);
        let now = index_of(d.library@, "FileSegment"@, 0);
        if now < at {
            assert(d.library@[now].0@ == before[now].0@);
        }
        assert forall|i: int| 0 <= i < reserved_keywords().len() implies crate::dialect::keyword_entry(
            d.library@,
            grammar_names().len() as int,
            #[trigger] reserved_keywords()[i],
        ) by {
            assert(texts(words)[i] == words[i]@);
            assert(crate::dialect::keyword_entry(d.library@, before.len() as int, words[i]@));
        }
        assert forall|i: int| 0 <= i < grammar_names().len() implies (#[trigger] d.library@[i]).0@
            == grammar_names()[i] by {
            assert(before[0 + i].0@ == grammar_names()[i]);
        }
        assert(d.library@[generator_place()].0@ == before[generator_place()].0@);
        let out = d.library@[generator_place()].1->Matchable_0->OneOf_0;
        assert forall|i: int| 0 <= i < out@.len() implies crate::dialect::is_parser_of(
            #[trigger] out@[i],
            reserved_keywords()[i],
            SyntaxKind::Keyword,
        ) by {
            assert(texts(words)[i] == words[i]@);
        }
        assert(texts(words).len() == words.len());
    }
    d
}

} // verus!
