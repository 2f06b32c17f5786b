//! Ready-made segments to try things on.

use std::ops::Range;
use vstd::prelude::*;
use vstd::string::StringExecFns;

use crate::ansi;
use crate::dialect::Dialect;
use crate::errors::SQLLexError;
use crate::lexer::{Lexer, StringOrTemplate};
use crate::markers::PositionMarker;
use crate::segment::{raw_all, views, ErasedSegment, SegV, SegmentBuilder, Tables};
use crate::syntax::SyntaxKind;
use crate::templater::TemplatedFile;
use crate::text::{byte_len, bytes_of, copy_str, starts_with, str_eq, str_starts_with};

verus! {

/// A new ANSI dialect.
pub fn fresh_ansi_dialect() -> (r: Dialect)
    ensures
        r.root_segment_name@ == "FileSegment"@,
        r.lexer_matchers is Some,
        r.resolves("FileSegment"@),
{
    ansi::dialect()
}

/// The tokens, if they were lexed without an error.
pub fn lexed(segments: Vec<ErasedSegment>, errors: &Vec<SQLLexError>) -> (r: Option<
    Vec<ErasedSegment>,
>)
    ensures
        r is Some <==> errors@.len() == 0,
        r matches Some(s) ==> s == segments,
{
    if errors.len() == 0 {
        Some(segments)
    } else {
        None
    }
}

/// Whether `all` is what the ANSI lexer makes of the text: its tokens,
/// each the next step from where the one before it ends, which hold all of
/// the text, and the marker of the end of the file after them.
pub open spec fn ansi_lexed(text: Seq<char>, all: Seq<SegV>) -> bool {
    &&& all.len() >= 1
    &&& all.last().kind == SyntaxKind::EndOfFile
    &&& raw_all(all) == text
    &&& exists|matchers: Seq<crate::lexer::LexMatcher>|
        crate::ansi::made_of(
            matchers,
            crate::ansi::wanted_matchers(),
            crate::ansi::wanted_matchers().len() as int,
        ) && #[trigger] crate::lexer::lexed_tokens(matchers, text, all.drop_last())
}

/// Whether one of the segments is of the kind of what could not be lexed.
pub open spec fn holds_unlexable(all: Seq<SegV>) -> bool {
    exists|i: int| 0 <= i < all.len() && (#[trigger] all[i]).kind == SyntaxKind::Unlexable
}

/// Where none of the segments could not be lexed, nothing is left of them
/// when only those are kept.
pub proof fn lemma_all_lexed(all: Seq<SegV>)
    requires
        !holds_unlexable(all),
    ensures
        all.filter(|v: SegV| v.kind == SyntaxKind::Unlexable).len() == 0,
    decreases all.len(),
{
    reveal(Seq::filter);
    if all.len() > 0 {
        assert(all.last() == all[all.len() - 1]);
        assert(!holds_unlexable(all.drop_last())) by {
            if holds_unlexable(all.drop_last()) {
                let i = choose|i: int|
                    0 <= i < all.drop_last().len() && (#[trigger] all.drop_last()[i]).kind
                        == SyntaxKind::Unlexable;
                assert(all[i] == all.drop_last()[i]);
            }
        }
        lemma_all_lexed(all.drop_last());
    }
}

/// The tokens of the text under the ANSI lexer, with the marker of the
/// end of the file after them. They are given where none of them is of the
/// kind of what could not be lexed; each then has its place in the text.
/// `None` where the lexer leaves such a token.
pub fn lex(string: &str) -> (r: Option<Vec<ErasedSegment>>)
    ensures
        r matches Some(segments) ==> ansi_lexed(string@, views(segments@)) && !holds_unlexable(
            views(segments@),
        ),
        r matches Some(segments) ==> forall|i: int|
            0 <= i < segments@.len() ==> (#[trigger] segments@[i])@.kind != SyntaxKind::Unlexable
                && !segments@[i]@.is_node() && segments@[i]@.marker is Some,
        r is None ==> exists|all: Seq<SegV>| #[trigger]
            ansi_lexed(string@, all) && holds_unlexable(all),
{
    let lexer = Lexer::new(ansi::lexer_matchers());
    let mut tables = Tables::default();
    let (segments, errors) = lexer.lex(StringOrTemplate::String(copy_str(string)), &mut tables);
    proof {
        let p = |v: SegV| v.kind == SyntaxKind::Unlexable;
        let f = |v: SegV| crate::lexer::lex_error_of(v);
        let g = |e: SQLLexError| (e.message@, e.source_slice);
        let vs = views(segments@);
        assert(crate::lexer::lexed_tokens(lexer.matchers@, string@, vs.drop_last()));
        assert(ansi_lexed(string@, vs));
        assert(errors@.map_values(g).len() == errors@.len());
        assert(vs.filter(p).map_values(f).len() == vs.filter(p).len());
        vs.filter_lemma(p);
        if errors@.len() == 0 {
            assert(vs.filter(p).len() == 0);
            assert forall|i: int| 0 <= i < segments@.len() implies (#[trigger] segments@[i])@.kind
                != SyntaxKind::Unlexable by {
                if p(vs[i]) {
                    assert(vs.filter(p).contains(vs[i]));
                }
            }
            assert(!holds_unlexable(vs)) by {
                if holds_unlexable(vs) {
                    let i = choose|i: int|
                        0 <= i < vs.len() && (#[trigger] vs[i]).kind == SyntaxKind::Unlexable;
                    assert(vs[i] == segments@[i]@);
                }
            }
        } else {
            if !holds_unlexable(vs) {
                lemma_all_lexed(vs);
            }
            assert(holds_unlexable(vs));
        }
    }
    lexed(segments, &errors)
}

/// Whether every byte is one of the two given.
pub open spec fn all_bytes(b: Seq<u8>, x: u8, y: u8) -> bool {
    forall|i: int| 0 <= i < b.len() ==> (#[trigger] b[i]) == x || b[i] == y
}

/// Whether every byte of the text is one of the two given.
fn only_bytes(s: &str, x: u8, y: u8) -> (r: bool)
    ensures
        r == all_bytes(bytes_of(s@), x, y),
{
    let b = s.as_bytes();
    let mut i: usize = 0;
    while i < b.len()
        invariant
            i <= b@.len(),
            b@ == bytes_of(s@),
            forall|j: int| 0 <= j < i ==> (#[trigger] b@[j]) == x || b@[j] == y,
        decreases b.len() - i,
    {
        if b[i] != x && b[i] != y {
            return false;
        }
        i += 1;
    }
    true
}

/// Whether the element stands for a marker of indentation, which holds no
/// text of the file.
pub open spec fn is_test_meta(elem: Seq<char>) -> bool {
    elem == "<indent>"@ || elem == "<dedent>"@
}

/// The kind of the test segment that an element becomes: white space for
/// blanks and tabs only, a new line for line feeds only, a symbol for a round
/// bracket, a comment or a quoted text by how the element begins, and a word
/// for anything else.
pub open spec fn test_kind(elem: Seq<char>) -> SyntaxKind {
    if elem == "<indent>"@ {
        SyntaxKind::Indent
    } else if elem == "<dedent>"@ {
        SyntaxKind::Dedent
    } else if all_bytes(bytes_of(elem), 32, 9) {
        SyntaxKind::Whitespace
    } else if all_bytes(bytes_of(elem), 10, 10) {
        SyntaxKind::Newline
    } else if elem == "("@ || elem == ")"@ {
        SyntaxKind::Symbol
    } else if starts_with(elem, "--"@) {
        SyntaxKind::InlineComment
    } else if starts_with(elem, "\""@) {
        SyntaxKind::DoubleQuote
    } else if starts_with(elem, "'"@) {
        SyntaxKind::SingleQuote
    } else {
        SyntaxKind::Word
    }
}

/// The text of the file that the elements stand for: that of the first `n`
/// elements, without the markers of indentation.
pub open spec fn test_text(elems: Seq<&str>, n: int) -> Seq<char>
    decreases n,
{
    if n <= 0 || n > elems.len() {
        Seq::empty()
    } else if is_test_meta(elems[n - 1]@) {
        test_text(elems, n - 1)
    } else {
        test_text(elems, n - 1) + elems[n - 1]@
    }
}

fn kind_of(elem: &str) -> (r: SyntaxKind)
    ensures
        r == test_kind(elem@),
{
    if str_eq(elem, "<indent>") {
        SyntaxKind::Indent
    } else if str_eq(elem, "<dedent>") {
        SyntaxKind::Dedent
    } else if only_bytes(elem, 32, 9) {
        SyntaxKind::Whitespace
    } else if only_bytes(elem, 10, 10) {
        SyntaxKind::Newline
    } else if str_eq(elem, "(") || str_eq(elem, ")") {
        SyntaxKind::Symbol
    } else if str_starts_with(elem, "--") {
        SyntaxKind::InlineComment
    } else if str_starts_with(elem, "\"") {
        SyntaxKind::DoubleQuote
    } else if str_starts_with(elem, "'") {
        SyntaxKind::SingleQuote
    } else {
        SyntaxKind::Word
    }
}

/// Test segments, one for each element: tokens of the file whose text the
/// elements are, each at its place, and markers of indentation where the
/// elements say so. The id of a segment is its index.
pub fn generate_test_segments_func(elems: Vec<&str>) -> (r: Vec<ErasedSegment>)
    requires
        elems@.len() <= u32::MAX,
        bytes_of(test_text(elems@, elems@.len() as int)).len() <= usize::MAX,
    ensures
        r@.len() == elems@.len(),
        forall|i: int|
            0 <= i < r@.len() ==> {
                let v = (#[trigger] r@[i])@;
                &&& !v.is_node()
                &&& v.id == i
                &&& v.kind == test_kind(elems@[i]@)
                &&& v.raw() == (if is_test_meta(elems@[i]@) {
                    Seq::<char>::empty()
                } else {
                    elems@[i]@
                })
                &&& v.marker is Some
                &&& v.marker->0.templated_file.source() == test_text(elems@, elems@.len() as int)
                &&& v.marker->0.source_slice == v.marker->0.templated_slice
                &&& v.marker->0.source_slice.start == bytes_of(test_text(elems@, i)).len()
                &&& v.marker->0.source_slice.end == bytes_of(test_text(elems@, i + 1)).len()
            },
        raw_all(views(r@)) == test_text(elems@, elems@.len() as int),
{
    let mut raw_file = String::new();
    let mut k: usize = 0;
    while k < elems.len()
        invariant
            k <= elems@.len(),
            raw_file@ == test_text(elems@, k as int),
        decreases elems.len() - k,
    {
        let e = elems[k];
        if !(str_eq(e, "<indent>") || str_eq(e, "<dedent>")) {
            raw_file.append(e);
        }
        k += 1;
    }
    let ghost text = raw_file@;
    let templated_file = TemplatedFile::from_string(raw_file);
    let mut idx: usize = 0;
    let mut buff: Vec<ErasedSegment> = Vec::new();
    let mut i: usize = 0;
    assert(views(buff@) =~= Seq::<SegV>::empty());
    while i < elems.len()
        invariant
            i <= elems@.len(),
            elems@.len() <= u32::MAX,
            text == test_text(elems@, elems@.len() as int),
            bytes_of(text).len() <= usize::MAX,
            templated_file.source() == text,
            buff@.len() == i,
            idx == bytes_of(test_text(elems@, i as int)).len(),
            raw_all(views(buff@)) == test_text(elems@, i as int),
            forall|j: int|
                0 <= j < i ==> {
                    let v = (#[trigger] buff@[j])@;
                    &&& !v.is_node()
                    &&& v.id == j
                    &&& v.kind == test_kind(elems@[j]@)
                    &&& v.raw() == (if is_test_meta(elems@[j]@) {
                        Seq::<char>::empty()
                    } else {
                        elems@[j]@
                    })
                    &&& v.marker is Some
                    &&& v.marker->0.templated_file.source() == text
                    &&& v.marker->0.source_slice == v.marker->0.templated_slice
                    &&& v.marker->0.source_slice.start == bytes_of(test_text(elems@, j)).len()
                    &&& v.marker->0.source_slice.end == bytes_of(test_text(elems@, j + 1)).len()
                },
        decreases elems.len() - i,
    {
        let elem = elems[i];
        let kind = kind_of(elem);
        let meta = str_eq(elem, "<indent>") || str_eq(elem, "<dedent>");
        let ghost before = views(buff@);
        proof {
            lemma_test_text_len(elems@, i + 1, elems@.len() as int);
            crate::text::lemma_bytes_of_concat(test_text(elems@, i as int), elem@);
        }
        let seg = if meta {
            let marker = PositionMarker::from_point(idx, idx, templated_file.copy(), None, None);
            proof {
                reveal_strlit("");
                assert(""@ =~= Seq::<char>::empty());
            }
            SegmentBuilder::token(i as u32, "", kind).with_position(marker).finish()
        } else {
            let n = byte_len(elem);
            let marker = PositionMarker::new(
                idx..idx + n,
                idx..idx + n,
                templated_file.copy(),
                None,
                None,
            );
            idx += n;
            SegmentBuilder::token(i as u32, elem, kind).with_position(marker).finish()
        };
        proof {
            crate::segment::lemma_views_push(buff@, seg);
            assert(before.push(seg@).drop_last() =~= before);
            assert(before.push(seg@).last() == seg@);
            assert(meta == is_test_meta(elem@));
            assert(seg@.raw() == (if meta {
                Seq::<char>::empty()
            } else {
                elem@
            }));
            assert(raw_all(before.push(seg@)) == raw_all(before) + seg@.raw());
            if meta {
                assert(raw_all(before) + Seq::<char>::empty() =~= raw_all(before));
            }
        }
        buff.push(seg);
        i += 1;
    }
    buff
}

/// The text of the first elements is no longer than the text of more of them.
pub proof fn lemma_test_text_len(elems: Seq<&str>, n: int, m: int)
    requires
        0 <= n <= m <= elems.len(),
    ensures
        bytes_of(test_text(elems, n)).len() <= bytes_of(test_text(elems, m)).len(),
    decreases m - n,
{
    if n < m {
        lemma_test_text_len(elems, n, m - 1);
        if !is_test_meta(elems[m - 1]@) {
            crate::text::lemma_bytes_of_concat(test_text(elems, m - 1), elems[m - 1]@);
        }
    }
}

/// Two tokens of a file: `foobar` and `.barfoo`.
pub fn raw_segments() -> (r: Vec<ErasedSegment>)
    ensures
        r@.len() == 2,
        r@[0]@.raw() == "foobar"@,
        r@[1]@.raw() == ".barfoo"@,
        r@[0]@.id == 0,
        r@[1]@.id == 1,
        r@[0]@.marker is Some,
        r@[1]@.marker is Some,
        !r@[0]@.is_node(),
        !r@[1]@.is_node(),
        r@[0]@.kind == SyntaxKind::Word,
        r@[1]@.kind == SyntaxKind::Word,
        r@[0]@.marker->0.source_slice == (0usize..6usize),
        r@[1]@.marker->0.source_slice == (6usize..13usize),
        r@[0]@.marker->0.templated_slice == (0usize..6usize),
        r@[1]@.marker->0.templated_slice == (6usize..13usize),
        r@[0]@.marker->0.templated_file.source() == "foobar"@ + ".barfoo"@,
{
    let mut elems: Vec<&str> = Vec::new();
    elems.push("foobar");
    elems.push(".barfoo");
    proof {
        reveal_strlit("foobar");
        reveal_strlit(".barfoo");
        reveal_strlit("<indent>");
        reveal_strlit("<dedent>");
        lemma_short_text(elems@, 2);
        lemma_word("foobar"@);
        lemma_word(".barfoo"@);
        let e = elems@;
        assert(test_text(e, 0) == Seq::<char>::empty());
        assert(test_text(e, 1) =~= "foobar"@);
        assert(test_text(e, 2) =~= "foobar"@ + ".barfoo"@);
        crate::text::lemma_bytes_of_concat("foobar"@, ".barfoo"@);
    }
    let r = generate_test_segments_func(elems);
    proof {
        let a = r@[0]@;
        let b = r@[1]@;
        assert(a.marker->0.source_slice.start == 0 && a.marker->0.source_slice.end == 6);
        assert(b.marker->0.source_slice.start == 6 && b.marker->0.source_slice.end == 13);
    }
    r
}

/// A text of ASCII letters, digits and dots, which begins with neither a
/// blank, a tab, a line feed, a bracket, a dash nor a quote, is a word, and
/// has as many bytes as characters.
pub proof fn lemma_word(s: Seq<char>)
    requires
        s.len() > 0,
        vstd::utf8::is_ascii_chars(s),
        s[0] != ' ' && s[0] != '\t' && s[0] != '\n' && s[0] != '(' && s[0] != ')' && s[0] != '-'
            && s[0] != '"' && s[0] != '\'' && s[0] != '<',
    ensures
        test_kind(s) == SyntaxKind::Word,
        !is_test_meta(s),
        bytes_of(s).len() == s.len(),
{
    broadcast use vstd::utf8::is_ascii_chars_encode_utf8;
    reveal_strlit("<indent>");
    reveal_strlit("<dedent>");
    reveal_strlit("(");
    reveal_strlit(")");
    reveal_strlit("--");
    reveal_strlit("\"");
    reveal_strlit("'");
    assert(bytes_of(s)[0] == s[0] as u8);
    assert("<indent>"@[0] == '<');
    assert("<dedent>"@[0] == '<');
    assert("("@[0] == '(');
    assert(")"@[0] == ')');
    assert("--"@[0] == '-');
    assert("\""@[0] == '"');
    assert("'"@[0] == '\'');
    if starts_with(s, "--"@) {
        lemma_first_of(s, "--"@);
    }
    if starts_with(s, "\""@) {
        lemma_first_of(s, "\""@);
    }
    if starts_with(s, "'"@) {
        lemma_first_of(s, "'"@);
    }
}

/// An ASCII text that begins with another begins with the first
/// character of the other.
pub proof fn lemma_first_of(s: Seq<char>, p: Seq<char>)
    requires
        p.len() > 0,
        s.len() > 0,
        vstd::utf8::is_ascii_chars(s),
        vstd::utf8::is_ascii_chars(p),
        starts_with(s, p),
    ensures
        s[0] == p[0],
{
    broadcast use vstd::utf8::is_ascii_chars_encode_utf8;
    assert(bytes_of(s)[0] == s[0] as u8);
    assert(bytes_of(p)[0] == p[0] as u8);
    assert(bytes_of(s).subrange(0, bytes_of(p).len() as int)[0] == bytes_of(s)[0]);
    assert(s[0] as u32 == p[0] as u32);
}

/// The first of the two tokens: `foobar`.
pub fn raw_seg() -> (r: ErasedSegment)
    ensures
        r@.raw() == "foobar"@,
        r@.id == 0,
        r@.marker is Some,
        !r@.is_node(),
        r@.kind == SyntaxKind::Word,
        r@.marker->0.source_slice == (0usize..6usize),
        r@.marker->0.templated_slice == (0usize..6usize),
        r@.marker->0.templated_file.source() == "foobar"@ + ".barfoo"@,
{
    let segs = raw_segments();
    segs[0].copy()
}

/// Five tokens of a file: `bar`, white space, `foo`, `baar`, white space.
pub fn test_segments() -> (r: Vec<ErasedSegment>)
    ensures
        r@.len() == 5,
        r@[0]@.raw() == "bar"@,
        r@[1]@.raw() == " \t "@,
        r@[2]@.raw() == "foo"@,
        r@[3]@.raw() == "baar"@,
        r@[4]@.raw() == " \t "@,
        r@[0]@.kind == SyntaxKind::Word,
        r@[1]@.kind == SyntaxKind::Whitespace,
        r@[2]@.kind == SyntaxKind::Word,
        r@[3]@.kind == SyntaxKind::Word,
        r@[4]@.kind == SyntaxKind::Whitespace,
        forall|i: int|
            0 <= i < 5 ==> !(#[trigger] r@[i])@.is_node() && r@[i]@.id == i && r@[i]@.marker is Some
                && r@[i]@.is_code() == (i != 1 && i != 4),
        r@[0]@.marker->0.source_slice == (0usize..3usize),
        r@[1]@.marker->0.source_slice == (3usize..6usize),
        r@[2]@.marker->0.source_slice == (6usize..9usize),
        r@[3]@.marker->0.source_slice == (9usize..13usize),
        r@[4]@.marker->0.source_slice == (13usize..16usize),
{
    let mut elems: Vec<&str> = Vec::new();
    elems.push("bar");
    elems.push(" \t ");
    elems.push("foo");
    elems.push("baar");
    elems.push(" \t ");
    proof {
        reveal_strlit("bar");
        reveal_strlit(" \t ");
        reveal_strlit("foo");
        reveal_strlit("baar");
        reveal_strlit("<indent>");
        reveal_strlit("<dedent>");
        lemma_short_text(elems@, 5);
        lemma_word("bar"@);
        lemma_word("foo"@);
        lemma_word("baar"@);
        lemma_blanks(" \t "@);
        let e = elems@;
        let t1 = "bar"@;
        let t2 = t1 + " \t "@;
        let t3 = t2 + "foo"@;
        let t4 = t3 + "baar"@;
        let t5 = t4 + " \t "@;
        assert(test_text(e, 0) == Seq::<char>::empty());
        assert(test_text(e, 1) =~= t1);
        assert(test_text(e, 2) =~= t2);
        assert(test_text(e, 3) =~= t3);
        assert(test_text(e, 4) =~= t4);
        assert(test_text(e, 5) =~= t5);
        crate::text::lemma_bytes_of_concat(t1, " \t "@);
        crate::text::lemma_bytes_of_concat(t2, "foo"@);
        crate::text::lemma_bytes_of_concat(t3, "baar"@);
        crate::text::lemma_bytes_of_concat(t4, " \t "@);
    }
    let r = generate_test_segments_func(elems);
    proof {
        assert(r@[0]@.marker->0.source_slice.start == 0 && r@[0]@.marker->0.source_slice.end == 3);
        assert(r@[1]@.marker->0.source_slice.start == 3 && r@[1]@.marker->0.source_slice.end == 6);
        assert(r@[2]@.marker->0.source_slice.start == 6 && r@[2]@.marker->0.source_slice.end == 9);
        assert(r@[3]@.marker->0.source_slice.start == 9 && r@[3]@.marker->0.source_slice.end == 13);
        assert(r@[4]@.marker->0.source_slice.start == 13 && r@[4]@.marker->0.source_slice.end
            == 16);
        assert forall|i: int| 0 <= i < 5 implies !(#[trigger] r@[i])@.is_node() && r@[i]@.id == i
            && r@[i]@.marker is Some && r@[i]@.is_code() == (i != 1 && i != 4) by {
            let v = r@[i]@;
            assert(v.kind == test_kind(elems@[i]@));
        }
    }
    r
}

/// A text of blanks and tabs is white space, and has as many bytes as
/// characters.
pub proof fn lemma_blanks(s: Seq<char>)
    requires
        s.len() > 0,
        forall|i: int| 0 <= i < s.len() ==> s[i] == ' ' || s[i] == '\t',
    ensures
        test_kind(s) == SyntaxKind::Whitespace,
        !is_test_meta(s),
        bytes_of(s).len() == s.len(),
{
    broadcast use vstd::utf8::is_ascii_chars_encode_utf8;
    reveal_strlit("<indent>");
    reveal_strlit("<dedent>");
    assert(vstd::utf8::is_ascii_chars(s));
    assert("<indent>"@[0] == '<');
    assert("<dedent>"@[0] == '<');
    assert forall|i: int| 0 <= i < bytes_of(s).len() implies (#[trigger] bytes_of(s)[i]) == 32
        || bytes_of(s)[i] == 9 by {
        assert(bytes_of(s)[i] == s[i] as u8);
    }
}

/// A text of elements of eight characters at most is short.
pub proof fn lemma_short_text(elems: Seq<&str>, n: int)
    requires
        0 <= n <= elems.len(),
        forall|i: int| 0 <= i < elems.len() ==> (#[trigger] elems[i])@.len() <= 8,
    ensures
        bytes_of(test_text(elems, n)).len() <= 32 * n,
    decreases n,
{
    if n > 0 {
        lemma_short_text(elems, n - 1);
        crate::text::lemma_bytes_of_concat(test_text(elems, n - 1), elems[n - 1]@);
        lemma_bytes_bound(elems[n - 1]@);
    }
}

/// A character takes four bytes at most.
pub proof fn lemma_bytes_bound(s: Seq<char>)
    ensures
        bytes_of(s).len() <= 4 * s.len(),
    decreases s.len(),
{
    if s.len() > 0 {
        lemma_bytes_bound(s.drop_first());
    }
}

/// Whether the text is one of the words.
pub open spec fn among(words: Seq<&str>, t: Seq<char>) -> bool {
    exists|i: int| 0 <= i < words.len() && (#[trigger] words[i])@ == t
}

/// The segment as a keyword: the same token, of the kind of keywords.
pub open spec fn as_keyword(v: SegV) -> SegV {
    SegV { kind: SyntaxKind::Keyword, ..v }
}

/// What the first `n` segments from `start` on become: a token whose text
/// is one of the words becomes a keyword, any other token stays as it is,
/// and a node, which has no text of its own, is left out.
pub open spec fn result_upto(words: Seq<&str>, segs: Seq<SegV>, start: int, n: int) -> Seq<SegV>
    decreases n,
{
    if n <= 0 {
        Seq::empty()
    } else {
        let prev = result_upto(words, segs, start, n - 1);
        let v = segs[start + n - 1];
        if v.is_node() {
            prev
        } else if among(words, v.raw()) {
            prev.push(as_keyword(v))
        } else {
            prev.push(v)
        }
    }
}

/// The segments of the slice as a match on the words would leave them:
/// those whose text is one of the words as keywords, the others as they
/// are, without the nodes. No slice means no match, and no segments. A token
/// that becomes a keyword has to have a marker.
pub fn make_result_tuple(
    result_slice: Option<Range<usize>>,
    matcher_keywords: &[&str],
    test_segments: &[ErasedSegment],
) -> (r: Vec<ErasedSegment>)
    requires
        result_slice matches Some(s) ==> s.start <= s.end <= test_segments@.len(),
        result_slice matches Some(s) ==> forall|i: int|
            s.start <= i < s.end && !(#[trigger] test_segments@[i])@.is_node() && among(
                matcher_keywords@,
                test_segments@[i]@.raw(),
            ) ==> test_segments@[i]@.marker is Some,
    ensures
        result_slice is None ==> r@.len() == 0,
        result_slice matches Some(s) ==> views(r@) == result_upto(
            matcher_keywords@,
            views(test_segments@),
            s.start as int,
            s.end - s.start,
        ),
{
    let mut out: Vec<ErasedSegment> = Vec::new();
    match result_slice {
        None => {},
        Some(slice) => {
            let ghost segs = views(test_segments@);
            let mut i: usize = slice.start;
            assert(views(out@) =~= Seq::<SegV>::empty());
            while i < slice.end
                invariant
                    slice.start <= i <= slice.end <= test_segments@.len(),
                    segs == views(test_segments@),
                    forall|k: int|
                        slice.start <= k < slice.end && !(#[trigger] test_segments@[k])@.is_node()
                            && among(matcher_keywords@, test_segments@[k]@.raw())
                            ==> test_segments@[k]@.marker is Some,
                    views(out@) == result_upto(
                        matcher_keywords@,
                        segs,
                        slice.start as int,
                        i - slice.start,
                    ),
                decreases slice.end - i,
            {
                let elem = &test_segments[i];
                assert(segs[slice.start + (i + 1 - slice.start) - 1] == elem@);
                proof {
                    elem.lemma_view_children();
                }
                let token = match &elem.value.kind {
                    crate::segment::NodeOrTokenKind::Token(_) => true,
                    crate::segment::NodeOrTokenKind::Node(_) => false,
                };
                if token {
                    let raw = elem.raw();
                    let mut found = false;
                    let mut k: usize = 0;
                    while k < matcher_keywords.len()
                        invariant
                            k <= matcher_keywords@.len(),
                            found == exists|j: int|
                                0 <= j < k && (#[trigger] matcher_keywords@[j])@ == raw@,
                        decreases matcher_keywords.len() - k,
                    {
                        if str_eq(matcher_keywords[k], raw.as_str()) {
                            found = true;
                        }
                        k += 1;
                    }
                    let made = if found {
                        let marker = match elem.get_position_marker() {
                            Some(m) => m.copy(),
                            None => {
                                proof {
                                    assert(false);
                                }
                                vstd::pervasive::unreached()
                            },
                        };
                        SegmentBuilder::token(elem.id(), raw.as_str(), SyntaxKind::Keyword).with_position(
                            marker,
                        ).finish()
                    } else {
                        elem.copy()
                    };
                    proof {
                        crate::segment::lemma_views_push(out@, made);
                    }
                    out.push(made);
                }
                i += 1;
            }
        },
    }
    out
}

} // verus!
