//! The lexer: it cuts a text into the tokens that the parser works on.
//! Whatever the text, nothing of it is lost.

use std::ops::Range;
use vstd::prelude::*;
use vstd::string::StringExecFns;

use crate::errors::{SQLLexError, ValueError};
use crate::markers::PositionMarker;
use crate::regexes::{regex_copy, regex_find, regex_find_range, regex_new, regex_compiled};
use crate::segment::{lemma_views_push, raw_all, views, ErasedSegment, SegV, SegmentBuilder, Tables};
use crate::seqs::{lemma_filter_empty, lemma_filter_step};
use crate::syntax::SyntaxKind;
use crate::templater::TemplatedFile;
use crate::text::{
    byte_len, bytes_of, copy_str, first_char_len, split_text, starts_with, str_starts_with,
};

verus! {

/// An element matched during lexing: its text, the name of the matcher
/// that took it, and the kind of token it is to become.
#[derive(Clone, Debug)]
pub struct LexedElement {
    pub raw: String,
    pub matcher: String,
    pub kind: SyntaxKind,
}

impl LexedElement {
    pub fn copy(&self) -> (r: LexedElement)
        ensures
            r == *self,
    {
        LexedElement { raw: self.raw.clone(), matcher: self.matcher.clone(), kind: self.kind }
    }
}

/// A lexed element with its place in the templated text.
#[derive(Clone, Debug)]
pub struct TemplateElement {
    pub raw: String,
    pub template_slice: Range<usize>,
    pub matcher: String,
    pub kind: SyntaxKind,
}

impl TemplateElement {
    /// The element at its place.
    pub fn from_element(element: LexedElement, template_slice: Range<usize>) -> (r: TemplateElement)
        ensures
            r.raw == element.raw,
            r.template_slice == template_slice,
            r.matcher == element.matcher,
            r.kind == element.kind,
    {
        TemplateElement {
            raw: element.raw,
            template_slice,
            matcher: element.matcher,
            kind: element.kind,
        }
    }
}

/// What a matcher made of a text: the elements it took from its start,
/// and the text that is left.
#[derive(Debug)]
pub struct LexMatch {
    pub forward_string: String,
    pub elements: Vec<LexedElement>,
}

/// The text of the elements, one after the other.
pub open spec fn elements_text(e: Seq<LexedElement>) -> Seq<char>
    decreases e.len(),
{
    if e.len() == 0 {
        Seq::empty()
    } else {
        elements_text(e.drop_last()) + e.last().raw@
    }
}

pub proof fn lemma_elements_text_add(a: Seq<LexedElement>, b: Seq<LexedElement>)
    ensures
        elements_text(a + b) == elements_text(a) + elements_text(b),
    decreases b.len(),
{
    if b.len() == 0 {
        assert(a + b =~= a);
        assert(elements_text(a) + elements_text(b) =~= elements_text(a));
    } else {
        lemma_elements_text_add(a, b.drop_last());
        assert((a + b).drop_last() =~= a + b.drop_last());
        assert(elements_text(a + b) =~= elements_text(a) + elements_text(b));
    }
}

impl LexMatch {
    /// Whether the match took anything.
    pub fn is_non_empty(&self) -> (r: bool)
        ensures
            r == (self.elements@.len() > 0),
    {
        self.elements.len() > 0
    }
}

/// What every matcher of the lexer does.
pub trait Matcher {
    /// What the matcher takes from the start of a text: how many bytes,
    /// if any.
    spec fn taken(&self, forward_string: Seq<char>) -> Option<int>;

    spec fn spec_name(&self) -> Seq<char>;

    spec fn spec_kind(&self) -> SyntaxKind;

    /// The name of the matcher.
    fn get_name(&self) -> (r: String)
        ensures
            r@ == self.spec_name(),
    ;

    /// Takes what it can from the start of the text and hands back the
    /// rest: an error for the empty text; else one element and the rest,
    /// which together are the text, or no element and the text as it was.
    fn match_(&self, forward_string: String) -> (r: Result<LexMatch, ValueError>)
        ensures
            r is Err <==> forward_string@.len() == 0,
            r matches Ok(m) ==> {
                &&& elements_text(m.elements@) + m.forward_string@ == forward_string@
                &&& m.elements@.len() <= 1
                &&& m.elements@.len() == 1 <==> self.taken(forward_string@) is Some
                &&& m.elements@.len() == 1 ==> bytes_of(m.elements@[0].raw@).len() == self.taken(
                    forward_string@,
                )->0 && m.elements@[0].kind == self.spec_kind() && m.elements@[0].matcher@
                    == self.spec_name()
            },
    ;
}

/// A matcher of one text, exactly.
#[derive(Debug)]
pub struct StringLexer {
    pub name: String,
    pub template: String,
    pub kind: SyntaxKind,
}

/// One element of the text `raw`.
fn one_element(raw: &str, name: &str, kind: SyntaxKind) -> (r: Vec<LexedElement>)
    ensures
        r@.len() == 1,
        r@[0].raw@ == raw@,
        r@[0].matcher@ == name@,
        r@[0].kind == kind,
        elements_text(r@) == raw@,
{
    let mut v: Vec<LexedElement> = Vec::new();
    v.push(LexedElement { raw: copy_str(raw), matcher: copy_str(name), kind });
    proof {
        assert(v@.drop_last() =~= Seq::<LexedElement>::empty());
        assert(elements_text(v@.drop_last()) =~= Seq::<char>::empty());
        assert(elements_text(v@) =~= raw@);
    }
    v
}

/// What a match makes of the text, `n` being the bytes that the matcher
/// takes from its start.
fn make_match(forward_string: String, n: Option<usize>, name: &str, kind: SyntaxKind) -> (r: Result<
    LexMatch,
    ValueError,
>)
    requires
        n matches Some(k) ==> 0 < k <= bytes_of(forward_string@).len()
            && vstd::utf8::is_char_boundary(bytes_of(forward_string@), k as int),
    ensures
        r is Err <==> forward_string@.len() == 0,
        r matches Ok(m) ==> {
            &&& elements_text(m.elements@) + m.forward_string@ == forward_string@
            &&& m.elements@.len() <= 1
            &&& m.elements@.len() == 1 <==> n is Some
            &&& m.elements@.len() == 1 ==> bytes_of(m.elements@[0].raw@).len() == n->0
                && m.elements@[0].kind == kind && m.elements@[0].matcher@ == name@
        },
{
    if forward_string.as_str().unicode_len() == 0 {
        return Err(ValueError::new(copy_str("Unexpected empty string!")));
    }
    match n {
        Some(k) => {
            match split_text(forward_string.as_str(), k) {
                Some((head, tail)) => {
                    let elements = one_element(head, name, kind);
                    Ok(LexMatch { forward_string: copy_str(tail), elements })
                },
                None => {
                    proof {
                        assert(false);
                    }
                    Err(ValueError::new(String::new()))
                },
            }
        },
        None => {
            let elements: Vec<LexedElement> = Vec::new();
            assert(elements_text(elements@) + forward_string@ =~= forward_string@);
            Ok(LexMatch { forward_string, elements })
        },
    }
}

impl StringLexer {
    pub fn new(name: &str, template: &str, kind: SyntaxKind) -> (r: StringLexer)
        ensures
            r.name@ == name@,
            r.template@ == template@,
            r.kind == kind,
    {
        StringLexer { name: copy_str(name), template: copy_str(template), kind }
    }

    /// The bytes that the matcher takes from the start of the text: those
    /// of its template, if the text begins with it and it is not empty.
    pub open spec fn spec_taken(&self, forward_string: Seq<char>) -> Option<int> {
        if self.template@.len() > 0 && starts_with(forward_string, self.template@) {
            Some(bytes_of(self.template@).len() as int)
        } else {
            None
        }
    }

    /// The template as an element, if the text begins with it.
    pub fn _match(&self, forward_string: &str) -> (r: Option<LexedElement>)
        ensures
            r is Some <==> starts_with(forward_string@, self.template@),
            r matches Some(e) ==> e.raw@ == self.template@ && e.kind == self.kind && e.matcher@
                == self.name@,
    {
        if str_starts_with(forward_string, self.template.as_str()) {
            Some(
                LexedElement {
                    raw: self.template.clone(),
                    matcher: self.name.clone(),
                    kind: self.kind,
                },
            )
        } else {
            None
        }
    }

    /// Where the template first stands in the text.
    pub fn search(&self, forward_string: &str) -> (r: Option<Range<usize>>)
        ensures
            match r {
                Some(range) => {
                    &&& crate::string_helpers::occurs_at(
                        bytes_of(self.template@),
                        bytes_of(forward_string@),
                        range.start as int,
                    )
                    &&& range.end == range.start + bytes_of(self.template@).len()
                    &&& forall|k: int|
                        0 <= k < range.start ==> !crate::string_helpers::occurs_at(
                            bytes_of(self.template@),
                            bytes_of(forward_string@),
                            k,
                        )
                },
                None => forall|k: int|
                    !crate::string_helpers::occurs_at(
                        bytes_of(self.template@),
                        bytes_of(forward_string@),
                        k,
                    ),
            },
    {
        let t = self.template.as_str().as_bytes();
        let s = forward_string.as_bytes();
        let n = s.len();
        let m = t.len();
        if m > n {
            return None;
        }
        if m == 0 {
            assert(s@.subrange(0, 0) =~= t@);
            return Some(0..0);
        }
        let mut i: usize = 0;
        while i <= n - m
            invariant
                0 < m <= n,
                n == s@.len(),
                m == t@.len(),
                t@ == bytes_of(self.template@),
                s@ == bytes_of(forward_string@),
                forall|k: int| 0 <= k < i ==> !crate::string_helpers::occurs_at(t@, s@, k),
            decreases n - i,
        {
            if crate::string_helpers::matches_at(t, s, i) {
                return Some(i..i + m);
            }
            i += 1;
        }
        None
    }
}

impl Matcher for StringLexer {
    open spec fn taken(&self, forward_string: Seq<char>) -> Option<int> {
        self.spec_taken(forward_string)
    }

    open spec fn spec_name(&self) -> Seq<char> {
        self.name@
    }

    open spec fn spec_kind(&self) -> SyntaxKind {
        self.kind
    }

    fn get_name(&self) -> (r: String) {
        self.name.clone()
    }

    fn match_(&self, forward_string: String) -> (r: Result<LexMatch, ValueError>) {
        let n = if self.template.as_str().unicode_len() > 0 && str_starts_with(
            forward_string.as_str(),
            self.template.as_str(),
        ) {
            let k = byte_len(self.template.as_str());
            proof {
                crate::text::lemma_bytes_of_empty(self.template@);
                lemma_prefix_boundary(forward_string@, self.template@);
            }
            Some(k)
        } else {
            None
        };
        make_match(forward_string, n, self.name.as_str(), self.kind)
    }
}

/// A text that begins with another can be cut where the other ends.
pub proof fn lemma_prefix_boundary(s: Seq<char>, prefix: Seq<char>)
    requires
        starts_with(s, prefix),
    ensures
        vstd::utf8::is_char_boundary(bytes_of(s), bytes_of(prefix).len() as int),
{
    let b = bytes_of(s);
    let p = bytes_of(prefix);
    vstd::utf8::encode_utf8_valid_utf8(s);
    vstd::utf8::encode_utf8_valid_utf8(prefix);
    if p.len() == b.len() {
        vstd::utf8::is_char_boundary_start_end_of_seq(b);
    } else {
        lemma_valid_prefix_boundary(b, p.len() as int);
    }
}

/// Where a valid prefix of valid bytes ends, a character begins.
pub proof fn lemma_valid_prefix_boundary(b: Seq<u8>, n: int)
    requires
        0 <= n <= b.len(),
        vstd::utf8::valid_utf8(b),
        vstd::utf8::valid_utf8(b.subrange(0, n)),
    ensures
        vstd::utf8::is_char_boundary(b, n),
    decreases n,
{
    if n == 0 {
    } else if n == b.len() {
        vstd::utf8::is_char_boundary_start_end_of_seq(b);
    } else {
        let p = b.subrange(0, n);
        reveal_with_fuel(vstd::utf8::valid_utf8, 2);
        reveal_with_fuel(vstd::utf8::is_char_boundary, 2);
        let k = vstd::utf8::length_of_first_scalar(p);
        assert(vstd::utf8::length_of_first_scalar(b) == k);
        assert(vstd::utf8::pop_first_scalar(b).subrange(0, n - k) =~= vstd::utf8::pop_first_scalar(
            p,
        ));
        lemma_valid_prefix_boundary(vstd::utf8::pop_first_scalar(b), n - k);
    }
}

/// A matcher of what a regular expression matches at the start of a text.
#[derive(Debug)]
pub struct RegexLexer {
    pub name: String,
    pub template: regex::Regex,
    pub kind: SyntaxKind,
}

impl RegexLexer {
    /// The matcher of the expression, or why the expression was refused.
    pub fn new(name: &str, regex: &str, kind: SyntaxKind) -> (r: Result<RegexLexer, regex::Error>)
        ensures
            r is Ok <==> regex_compiled(regex@) is Some,
            r matches Ok(l) ==> l.name@ == name@ && l.kind == kind && regex_compiled(regex@) == Some(
                l.template,
            ),
    {
        match regex_new(regex) {
            Ok(template) => Ok(RegexLexer { name: copy_str(name), template, kind }),
            Err(e) => Err(e),
        }
    }

    pub fn copy(&self) -> (r: RegexLexer)
        ensures
            r == *self,
    {
        RegexLexer { name: self.name.clone(), template: regex_copy(&self.template), kind: self.kind }
    }

    /// The bytes that the matcher takes from the start of the text: those
    /// of the leftmost match of its expression, if that is at the start of
    /// the text, is not empty, and ends within the text between two characters.
    pub open spec fn spec_taken(&self, forward_string: Seq<char>) -> Option<int> {
        match regex_find(self.template, forward_string) {
            Some((a, b)) => if a == 0 && 0 < b <= bytes_of(forward_string).len()
                && vstd::utf8::is_char_boundary(bytes_of(forward_string), b) {
                Some(b)
            } else {
                None
            },
            None => None,
        }
    }

    fn take(&self, forward_string: &str) -> (r: Option<usize>)
        ensures
            match r {
                Some(k) => self.spec_taken(forward_string@) == Some(k as int),
                None => self.spec_taken(forward_string@) is None,
            },
    {
        match regex_find_range(&self.template, forward_string) {
            Some((a, b)) => {
                if a == 0 && 0 < b && b <= byte_len(forward_string)
                    && forward_string.is_char_boundary(b) {
                    Some(b)
                } else {
                    None
                }
            },
            None => None,
        }
    }

    /// What the expression matches at the start of the text, as an element.
    pub fn _match(&self, forward_string: &str) -> (r: Option<LexedElement>)
        ensures
            r is Some <==> self.spec_taken(forward_string@) is Some,
            r matches Some(e) ==> bytes_of(e.raw@).len() == self.spec_taken(forward_string@)->0
                && starts_with(forward_string@, e.raw@) && e.kind == self.kind && e.matcher@
                == self.name@,
    {
        match self.take(forward_string) {
            Some(k) => match split_text(forward_string, k) {
                Some((head, tail)) => {
                    proof {
                        crate::text::lemma_bytes_of_concat(head@, tail@);
                        assert((bytes_of(head@) + bytes_of(tail@)).subrange(
                            0,
                            bytes_of(head@).len() as int,
                        ) =~= bytes_of(head@));
                    }
                    Some(
                        LexedElement {
                            raw: copy_str(head),
                            matcher: self.name.clone(),
                            kind: self.kind,
                        },
                    )
                },
                None => None,
            },
            None => None,
        }
    }

    /// Where the expression first matches in the text, if the match is
    /// not empty.
    pub fn search(&self, forward_string: &str) -> (r: Option<Range<usize>>)
        ensures
            match r {
                Some(range) => regex_find(self.template, forward_string@) == Some(
                    (range.start as int, range.end as int),
                ) && range.start != range.end,
                None => regex_find(self.template, forward_string@) matches Some((a, b)) ==> a
                    == b,
            },
    {
        match regex_find_range(&self.template, forward_string) {
            Some((a, b)) => if a != b {
                Some(a..b)
            } else {
                None
            },
            None => None,
        }
    }
}

impl Matcher for RegexLexer {
    open spec fn taken(&self, forward_string: Seq<char>) -> Option<int> {
        self.spec_taken(forward_string)
    }

    open spec fn spec_name(&self) -> Seq<char> {
        self.name@
    }

    open spec fn spec_kind(&self) -> SyntaxKind {
        self.kind
    }

    fn get_name(&self) -> (r: String) {
        self.name.clone()
    }

    fn match_(&self, forward_string: String) -> (r: Result<LexMatch, ValueError>) {
        let n = self.take(forward_string.as_str());
        make_match(forward_string, n, self.name.as_str(), self.kind)
    }
}

/// A matcher of either sort.
#[derive(Debug)]
pub enum LexMatcher {
    String(StringLexer),
    Regex(RegexLexer),
}

impl LexMatcher {
    pub open spec fn taken(&self, forward_string: Seq<char>) -> Option<int> {
        match self {
            LexMatcher::String(l) => l.spec_taken(forward_string),
            LexMatcher::Regex(l) => l.spec_taken(forward_string),
        }
    }

    /// The kind of what the matcher takes.
    pub open spec fn spec_kind(&self) -> SyntaxKind {
        match self {
            LexMatcher::String(l) => l.kind,
            LexMatcher::Regex(l) => l.kind,
        }
    }

    pub fn match_(&self, forward_string: String) -> (r: Result<LexMatch, ValueError>)
        ensures
            r is Err <==> forward_string@.len() == 0,
            r matches Ok(m) ==> {
                &&& elements_text(m.elements@) + m.forward_string@ == forward_string@
                &&& m.elements@.len() <= 1
                &&& m.elements@.len() == 1 <==> self.taken(forward_string@) is Some
                &&& m.elements@.len() == 1 ==> bytes_of(m.elements@[0].raw@).len() == self.taken(
                    forward_string@,
                )->0 && m.elements@[0].kind == self.spec_kind()
            },
    {
        match self {
            LexMatcher::String(l) => l.match_(forward_string),
            LexMatcher::Regex(l) => l.match_(forward_string),
        }
    }
}

/// The index of the first matcher from `from` on that takes something from
/// the start of the text, or the number of matchers.
pub open spec fn first_taker(matchers: Seq<LexMatcher>, s: Seq<char>, from: int) -> int
    decreases matchers.len() - from,
{
    if from < 0 || from >= matchers.len() {
        matchers.len() as int
    } else if matchers[from].taken(s) is Some {
        from
    } else {
        first_taker(matchers, s, from + 1)
    }
}

/// Whether none of the matchers takes anything from the start of the text.
pub open spec fn stuck(matchers: Seq<LexMatcher>, s: Seq<char>) -> bool {
    first_taker(matchers, s, 0) == matchers.len()
}

/// Whether the text begins with the other.
pub open spec fn is_prefix(raw: Seq<char>, rest: Seq<char>) -> bool {
    raw.len() <= rest.len() && rest.subrange(0, raw.len() as int) == raw
}

/// Whether `raw`, of the kind, is what the lexer takes next from the start
/// of `rest`: what the first matcher that takes anything takes, as a token
/// of the kind of that matcher; or, where no matcher takes anything, a
/// stretch that could not be lexed.
pub open spec fn lex_step(
    matchers: Seq<LexMatcher>,
    rest: Seq<char>,
    raw: Seq<char>,
    kind: SyntaxKind,
) -> bool {
    let first = first_taker(matchers, rest, 0);
    &&& is_prefix(raw, rest)
    &&& bytes_of(raw).len() > 0
    &&& if first < matchers.len() {
        bytes_of(raw).len() == matchers[first].taken(rest)->0 && kind == matchers[first].spec_kind()
    } else {
        kind == SyntaxKind::Unlexable
    }
}

/// Whether the elements are what the lexer takes from the text `s`, one
/// after the other: each is the next step from where the one before it
/// ends.
pub open spec fn lexing(matchers: Seq<LexMatcher>, s: Seq<char>, els: Seq<LexedElement>) -> bool
    decreases els.len(),
{
    if els.len() == 0 {
        true
    } else {
        let before = elements_text(els.drop_last());
        &&& lexing(matchers, s, els.drop_last())
        &&& before.len() <= s.len()
        &&& lex_step(
            matchers,
            s.subrange(before.len() as int, s.len() as int),
            els.last().raw@,
            els.last().kind,
        )
    }
}

/// Whether the token has its place after the text `before`: its marker
/// begins where that text ends and spans the bytes of the token, in the
/// source as in the templated text.
pub open spec fn token_placed(v: SegV, before: Seq<char>) -> bool {
    v.marker matches Some(m) && m.templated_slice.start == bytes_of(before).len()
        && m.templated_slice.end == bytes_of(before).len() + bytes_of(v.raw()).len()
        && m.source_slice == m.templated_slice
}

/// Whether the tokens are what the lexer makes of the text `s`: each is
/// the next step from where the one before it ends, and has its place
/// there.
pub open spec fn lexed_tokens(matchers: Seq<LexMatcher>, s: Seq<char>, toks: Seq<SegV>) -> bool
    decreases toks.len(),
{
    if toks.len() == 0 {
        true
    } else {
        let before = raw_all(toks.drop_last());
        &&& lexed_tokens(matchers, s, toks.drop_last())
        &&& before.len() <= s.len()
        &&& !toks.last().is_node()
        &&& token_placed(toks.last(), before)
        &&& lex_step(
            matchers,
            s.subrange(before.len() as int, s.len() as int),
            toks.last().raw(),
            toks.last().kind,
        )
    }
}

/// What is lexed of the rest of a text goes on the lexing of the text.
pub proof fn lemma_lexing_add(
    matchers: Seq<LexMatcher>,
    s: Seq<char>,
    rest: Seq<char>,
    a: Seq<LexedElement>,
    b: Seq<LexedElement>,
)
    requires
        lexing(matchers, s, a),
        lexing(matchers, rest, b),
        s == elements_text(a) + rest,
    ensures
        lexing(matchers, s, a + b),
    decreases b.len(),
{
    if b.len() == 0 {
        assert(a + b =~= a);
    } else {
        lemma_lexing_add(matchers, s, rest, a, b.drop_last());
        lemma_elements_text_add(a, b.drop_last());
        assert((a + b).drop_last() =~= a + b.drop_last());
        assert((a + b).last() == b.last());
        let inner = elements_text(b.drop_last());
        let before = elements_text(a) + inner;
        assert(s.subrange(before.len() as int, s.len() as int) =~= rest.subrange(
            inner.len() as int,
            rest.len() as int,
        ));
    }
}

/// The first of the elements of a lexing are a lexing too.
pub proof fn lemma_lexing_prefix(
    matchers: Seq<LexMatcher>,
    s: Seq<char>,
    els: Seq<LexedElement>,
    k: int,
)
    requires
        lexing(matchers, s, els),
        0 <= k <= els.len(),
    ensures
        lexing(matchers, s, els.subrange(0, k)),
    decreases els.len(),
{
    if k == els.len() {
        assert(els.subrange(0, k) =~= els);
    } else {
        lemma_lexing_prefix(matchers, s, els.drop_last(), k);
        assert(els.drop_last().subrange(0, k) =~= els.subrange(0, k));
    }
}

/// The elements at consecutive places begin where the text before them
/// ends.
pub proof fn lemma_consecutive_place(e: Seq<TemplateElement>, els: Seq<LexedElement>, i: int)
    requires
        consecutive(e, 0),
        e.len() == els.len(),
        forall|k: int| 0 <= k < e.len() ==> (#[trigger] e[k]).raw == els[k].raw,
        0 <= i < e.len(),
    ensures
        e[i].template_slice.start == bytes_of(elements_text(els.subrange(0, i))).len(),
        e[i].template_slice.end == e[i].template_slice.start + bytes_of(e[i].raw@).len(),
    decreases e.len(),
{
    if i < e.len() - 1 {
        lemma_consecutive_place(e.drop_last(), els.drop_last(), i);
        assert(els.drop_last().subrange(0, i) =~= els.subrange(0, i));
    } else if e.len() == 1 {
        assert(els.subrange(0, 0) =~= Seq::<LexedElement>::empty());
        crate::text::lemma_bytes_of_empty(Seq::<char>::empty());
    } else {
        lemma_consecutive_place(e.drop_last(), els.drop_last(), i - 1);
        assert(els.drop_last().subrange(0, i - 1) =~= els.subrange(0, i - 1));
        assert(els.subrange(0, i).drop_last() =~= els.subrange(0, i - 1));
        assert(els.subrange(0, i).last() == els[i - 1]);
        assert(e.drop_last()[i - 1] == e[i - 1]);
        crate::text::lemma_bytes_of_concat(
            elements_text(els.subrange(0, i - 1)),
            els[i - 1].raw@,
        );
    }
}

/// What is to be lexed, as a text or as a file that was templated.
#[derive(Debug)]
pub enum StringOrTemplate {
    String(String),
    Template(TemplatedFile),
}

/// The lexer: the matchers, which are tried in order, and the matcher of
/// last resort, which takes what none of them takes.
#[derive(Debug)]
pub struct Lexer {
    pub matchers: Vec<LexMatcher>,
    pub last_resort_lexer: Option<RegexLexer>,
}

/// The places of the elements in a text: each begins where the one before
/// it ends, the first at `from`.
pub open spec fn consecutive(e: Seq<TemplateElement>, from: int) -> bool
    decreases e.len(),
{
    if e.len() == 0 {
        true
    } else {
        &&& consecutive(e.drop_last(), from)
        &&& e.last().template_slice.end == e.last().template_slice.start + bytes_of(
            e.last().raw@,
        ).len()
        &&& e.last().template_slice.start == (if e.len() == 1 {
            from
        } else {
            e[e.len() - 2].template_slice.end as int
        })
    }
}

impl Lexer {
    /// A lexer of the matchers. Its matcher of last resort takes
    /// everything up to the next blank, tab or new line.
    pub fn new(matchers: Vec<LexMatcher>) -> (r: Lexer)
        ensures
            r.matchers == matchers,
    {
        let last_resort_lexer = match RegexLexer::new(
            "<unlexable>",
            "[^\t\n ]*",
            SyntaxKind::Unlexable,
        ) {
            Ok(l) => Some(l),
            Err(_) => None,
        };
        Lexer { matchers, last_resort_lexer }
    }

    /// Takes elements from the start of the text as long as one of the
    /// matchers takes any: at each step the first matcher that takes
    /// something takes it. What is left is empty, or such that no matcher
    /// takes anything from it.
    pub fn lex_match(forward_string: &str, lexer_matchers: &Vec<LexMatcher>) -> (r: LexMatch)
        ensures
            elements_text(r.elements@) + r.forward_string@ == forward_string@,
            r.forward_string@.len() == 0 || stuck(lexer_matchers@, r.forward_string@),
            lexing(lexer_matchers@, forward_string@, r.elements@),
    {
        let mut forward = copy_str(forward_string);
        let mut elem_buff: Vec<LexedElement> = Vec::new();
        assert(elements_text(elem_buff@) + forward@ =~= forward_string@);
        loop
            invariant
                elements_text(elem_buff@) + forward@ == forward_string@,
                lexing(lexer_matchers@, forward_string@, elem_buff@),
            ensures
                elements_text(elem_buff@) + forward@ == forward_string@,
                forward@.len() == 0 || stuck(lexer_matchers@, forward@),
                lexing(lexer_matchers@, forward_string@, elem_buff@),
            decreases bytes_of(forward@).len(),
        {
            if forward.as_str().unicode_len() == 0 {
                break ;
            }
            let mut i: usize = 0;
            let mut found: Option<LexMatch> = None;
            while i < lexer_matchers.len()
                invariant_except_break
                    found is None,
                    first_taker(lexer_matchers@, forward@, 0) == first_taker(
                        lexer_matchers@,
                        forward@,
                        i as int,
                    ),
                invariant
                    i <= lexer_matchers@.len(),
                    forward@.len() > 0,
                ensures
                    found is None ==> stuck(lexer_matchers@, forward@),
                    found matches Some(m) ==> m.elements@.len() == 1 && bytes_of(
                        m.elements@[0].raw@,
                    ).len() > 0 && elements_text(m.elements@) + m.forward_string@ == forward@,
                    found matches Some(m) ==> {
                        let first = first_taker(lexer_matchers@, forward@, 0);
                        first < lexer_matchers@.len() && bytes_of(m.elements@[0].raw@).len()
                            == lexer_matchers@[first].taken(forward@)->0 && m.elements@[0].kind
                            == lexer_matchers@[first].spec_kind()
                    },
                decreases lexer_matchers.len() - i,
            {
                proof {
                    crate::text::lemma_bytes_of_empty(forward@);
                }
                match lexer_matchers[i].match_(forward.clone()) {
                    Ok(m) => {
                        if m.elements.len() > 0 {
                            proof {
                                let t = lexer_matchers@[i as int].taken(forward@)->0;
                                lemma_taken_positive(lexer_matchers@[i as int], forward@);
                            }
                            found = Some(m);
                            break ;
                        }
                    },
                    Err(_) => {},
                }
                i += 1;
            }
            match found {
                Some(m) => {
                    let LexMatch { forward_string: rest, elements } = m;
                    let mut elements = elements;
                    proof {
                        lemma_elements_text_add(elem_buff@, elements@);
                        assert(elements_text(elements@) =~= elements@[0].raw@) by {
                            assert(elements@.drop_last() =~= Seq::<LexedElement>::empty());
                            assert(elements_text(elements@.drop_last()) =~= Seq::<
                                char,
                            >::empty());
                        }
                        crate::text::lemma_bytes_of_concat(elements@[0].raw@, rest@);
                        assert((elements_text(elem_buff@) + elements_text(elements@)) + rest@
                            =~= elements_text(elem_buff@) + (elements_text(elements@) + rest@));
                        let after = elem_buff@ + elements@;
                        let before = elements_text(elem_buff@);
                        assert(after.drop_last() =~= elem_buff@);
                        assert(after.last() == elements@[0]);
                        assert(forward_string@.subrange(
                            before.len() as int,
                            forward_string@.len() as int,
                        ) =~= forward@);
                        assert(forward@.subrange(0, elements@[0].raw@.len() as int)
                            =~= elements@[0].raw@);
                        assert(lexing(lexer_matchers@, forward_string@, after));
                    }
                    elem_buff.append(&mut elements);
                    forward = rest;
                },
                None => {
                    break ;
                },
            }
        }
        LexMatch { forward_string: forward, elements: elem_buff }
    }

    /// The elements with their places in the templated text: each begins
    /// where the one before it ends, the first at the start.
    pub fn map_template_slices(elements: Vec<LexedElement>) -> (r: Vec<TemplateElement>)
        requires
            bytes_of(elements_text(elements@)).len() <= usize::MAX,
        ensures
            r@.len() == elements@.len(),
            forall|i: int|
                0 <= i < r@.len() ==> (#[trigger] r@[i]).raw == elements@[i].raw && r@[i].kind
                    == elements@[i].kind && r@[i].matcher == elements@[i].matcher,
            consecutive(r@, 0),
    {
        let mut idx: usize = 0;
        let mut templated_buff: Vec<TemplateElement> = Vec::new();
        let mut i: usize = 0;
        while i < elements.len()
            invariant
                i <= elements@.len(),
                templated_buff@.len() == i,
                bytes_of(elements_text(elements@)).len() <= usize::MAX,
                idx == bytes_of(elements_text(elements@.subrange(0, i as int))).len(),
                forall|k: int|
                    0 <= k < i ==> (#[trigger] templated_buff@[k]).raw == elements@[k].raw
                        && templated_buff@[k].kind == elements@[k].kind
                        && templated_buff@[k].matcher == elements@[k].matcher,
                consecutive(templated_buff@, 0),
                i > 0 ==> templated_buff@[i - 1].template_slice.end == idx,
            decreases elements.len() - i,
        {
            let n = byte_len(elements[i].raw.as_str());
            proof {
                let pre = elements@.subrange(0, i as int);
                let cur = elements@.subrange(0, i + 1);
                assert(cur.drop_last() =~= pre);
                crate::text::lemma_bytes_of_concat(elements_text(pre), elements@[i as int].raw@);
                lemma_prefix_text_len(elements@, i + 1);
            }
            let template_slice = idx..idx + n;
            idx += n;
            let ghost before = templated_buff@;
            templated_buff.push(TemplateElement::from_element(elements[i].copy(), template_slice));
            proof {
                assert(templated_buff@.drop_last() =~= before);
            }
            i += 1;
        }
        templated_buff
    }
}

/// What a matcher takes, it takes from the start: it is not nothing.
pub proof fn lemma_taken_positive(m: LexMatcher, s: Seq<char>)
    requires
        m.taken(s) is Some,
    ensures
        m.taken(s)->0 > 0,
{
    match m {
        LexMatcher::String(l) => {
            crate::text::lemma_bytes_of_empty(l.template@);
        },
        LexMatcher::Regex(l) => {},
    }
}

/// The text of the first elements is no longer than the text of all.
pub proof fn lemma_prefix_text_len(e: Seq<LexedElement>, n: int)
    requires
        0 <= n <= e.len(),
    ensures
        bytes_of(elements_text(e.subrange(0, n))).len() <= bytes_of(elements_text(e)).len(),
{
    assert(e =~= e.subrange(0, n) + e.subrange(n, e.len() as int));
    lemma_elements_text_add(e.subrange(0, n), e.subrange(n, e.len() as int));
    crate::text::lemma_bytes_of_concat(
        elements_text(e.subrange(0, n)),
        elements_text(e.subrange(n, e.len() as int)),
    );
}

/// The first ten characters of a text, or all of it if it has fewer.
pub open spec fn first_ten(s: Seq<char>) -> Seq<char> {
    if s.len() > 10 {
        s.subrange(0, 10)
    } else {
        s
    }
}

/// What is reported of a stretch of text that could not be lexed.
pub open spec fn lex_error_of(v: SegV) -> (Seq<char>, Range<usize>) {
    (
        "Unable to lex characters: "@ + first_ten(v.raw()),
        match v.marker {
            Some(m) => m.source_slice,
            None => 0usize..0usize,
        },
    )
}

impl Lexer {
    /// The errors for what could not be lexed: one for each segment of
    /// the kind, in order.
    pub fn violations_from_segments(segments: &Vec<ErasedSegment>) -> (r: Vec<SQLLexError>)
        ensures
            r@.map_values(|e: SQLLexError| (e.message@, e.source_slice)) == views(
                segments@,
            ).filter(|v: SegV| v.kind == SyntaxKind::Unlexable).map_values(
                |v: SegV| lex_error_of(v),
            ),
    {
        let ghost p = |v: SegV| v.kind == SyntaxKind::Unlexable;
        let ghost f = |v: SegV| lex_error_of(v);
        let ghost g = |e: SQLLexError| (e.message@, e.source_slice);
        let mut out: Vec<SQLLexError> = Vec::new();
        let mut i: usize = 0;
        proof {
            lemma_filter_empty(p);
            assert(views(segments@).subrange(0, 0) =~= Seq::<SegV>::empty());
            assert(out@.map_values(g) =~= Seq::<SegV>::empty().map_values(f));
        }
        while i < segments.len()
            invariant
                i <= segments@.len(),
                p == (|v: SegV| v.kind == SyntaxKind::Unlexable),
                f == (|v: SegV| lex_error_of(v)),
                g == (|e: SQLLexError| (e.message@, e.source_slice)),
                out@.map_values(g) == views(segments@).subrange(0, i as int).filter(p).map_values(
                    f,
                ),
            decreases segments.len() - i,
        {
            proof {
                lemma_filter_step(views(segments@), i as int, p);
            }
            let seg = &segments[i];
            if seg.is_type(SyntaxKind::Unlexable) {
                let raw = seg.raw();
                let n = raw.as_str().unicode_len();
                let shown = if n > 10 {
                    raw.as_str().substring_char(0, 10)
                } else {
                    raw.as_str()
                };
                let mut message = copy_str("Unable to lex characters: ");
                message.append(shown);
                let source_slice = match seg.get_position_marker() {
                    Some(m) => m.source_slice.start..m.source_slice.end,
                    None => 0..0,
                };
                let ghost before = out@;
                let ghost kept = views(segments@).subrange(0, i as int).filter(p);
                let e = SQLLexError { message, source_slice };
                out.push(e);
                proof {
                    assert(out@.map_values(g) =~= before.map_values(g).push(g(e)));
                    assert(kept.push(seg@).map_values(f) =~= kept.map_values(f).push(f(seg@)));
                }
            }
            i += 1;
        }
        assert(views(segments@).subrange(0, i as int) =~= views(segments@));
        out
    }

    /// The elements of a text: at each step what the first matcher takes
    /// that takes anything, and, where none does, a stretch that cannot be
    /// lexed. Together they are the text.
    pub fn lex_elements(&self, text: &str) -> (r: Vec<LexedElement>)
        ensures
            elements_text(r@) == text@,
            lexing(self.matchers@, text@, r@),
    {
        let mut rest = copy_str(text);
        let mut elements: Vec<LexedElement> = Vec::new();
        assert(elements_text(elements@) + rest@ =~= text@);
        loop
            invariant_except_break
                elements_text(elements@) + rest@ == text@,
            invariant
                lexing(self.matchers@, text@, elements@),
            ensures
                elements_text(elements@) == text@,
            decreases bytes_of(rest@).len(),
        {
            let LexMatch { forward_string: forward, elements: found } = Lexer::lex_match(
                rest.as_str(),
                &self.matchers,
            );
            let mut found = found;
            proof {
                lemma_lexing_add(self.matchers@, text@, rest@, elements@, found@);
                lemma_elements_text_add(elements@, found@);
                crate::text::lemma_bytes_of_concat(elements_text(found@), forward@);
                assert((elements_text(elements@) + elements_text(found@)) + forward@
                    =~= elements_text(elements@) + (elements_text(found@) + forward@));
            }
            elements.append(&mut found);
            if forward.as_str().unicode_len() == 0 {
                assert(elements_text(elements@) + forward@ =~= elements_text(elements@));
                break ;
            }
            let resort = match &self.last_resort_lexer {
                Some(l) => l._match(forward.as_str()),
                None => None,
            };
            let taken: usize = match &resort {
                Some(e) => {
                    proof {
                        lemma_prefix_boundary(forward@, e.raw@);
                    }
                    byte_len(e.raw.as_str())
                },
                None => first_char_len(forward.as_str()),
            };
            match split_text(forward.as_str(), taken) {
                Some((head, tail)) => {
                    let mut one = one_element(head, "<unlexable>", SyntaxKind::Unlexable);
                    proof {
                        lemma_elements_text_add(elements@, one@);
                        crate::text::lemma_bytes_of_concat(head@, tail@);
                        assert((elements_text(elements@) + head@) + tail@ =~= elements_text(
                            elements@,
                        ) + (head@ + tail@));
                        let after = elements@ + one@;
                        let before = elements_text(elements@);
                        assert(after.drop_last() =~= elements@);
                        assert(after.last() == one@[0]);
                        assert(text@.subrange(before.len() as int, text@.len() as int)
                            =~= forward@);
                        assert(forward@.subrange(0, head@.len() as int) =~= head@);
                        assert(bytes_of(head@).len() > 0);
                        assert(lexing(self.matchers@, text@, after));
                    }
                    elements.append(&mut one);
                    rest = copy_str(tail);
                },
                None => {
                    proof {
                        assert(false);
                    }
                    break ;
                },
            }
        }
        elements
    }

    /// The tokens of a text or of a templated file, and the errors for what
    /// could not be lexed. The tokens are in the order of the text and hold
    /// all of it; after them comes the marker of the end of the file. The ids
    /// of the tokens come from `tables`.
    pub fn lex(&self, raw: StringOrTemplate, tables: &mut Tables) -> (r: (
        Vec<ErasedSegment>,
        Vec<SQLLexError>,
    ))
        ensures
            raw_all(views(r.0@)) == (match raw {
                StringOrTemplate::String(s) => s@,
                StringOrTemplate::Template(f) => f.templated(),
            }),
            r.0@.len() >= 1,
            r.0@.last()@.kind == SyntaxKind::EndOfFile,
            forall|i: int| 0 <= i < r.0@.len() ==> !(#[trigger] r.0@[i])@.is_node() && r.0@[i]@.marker is Some,
            lexed_tokens(
                self.matchers@,
                match raw {
                    StringOrTemplate::String(s) => s@,
                    StringOrTemplate::Template(f) => f.templated(),
                },
                views(r.0@).drop_last(),
            ),
            token_placed(
                r.0@.last()@,
                match raw {
                    StringOrTemplate::String(s) => s@,
                    StringOrTemplate::Template(f) => f.templated(),
                },
            ),
            r.1@.map_values(|e: SQLLexError| (e.message@, e.source_slice)) == views(r.0@).filter(
                |v: SegV| v.kind == SyntaxKind::Unlexable,
            ).map_values(|v: SegV| lex_error_of(v)),
    {
        let file = match raw {
            StringOrTemplate::String(s) => TemplatedFile::from_string(s),
            StringOrTemplate::Template(f) => f,
        };
        let text = copy_str(file.templated_str());
        let elements = self.lex_elements(text.as_str());
        let ghost els = elements@;
        let total = byte_len(text.as_str());
        let templated = Lexer::map_template_slices(elements);
        let mut segments: Vec<ErasedSegment> = Vec::new();
        let mut i: usize = 0;
        assert(views(segments@) =~= Seq::<SegV>::empty());
        assert(els.subrange(0, 0) =~= Seq::<LexedElement>::empty());
        while i < templated.len()
            invariant
                i <= templated@.len(),
                templated@.len() == els.len(),
                segments@.len() == i,
                forall|k: int| 0 <= k < templated@.len() ==> (#[trigger] templated@[k]).raw == els[k].raw,
                forall|k: int| 0 <= k < templated@.len() ==> (#[trigger] templated@[k]).kind == els[k].kind,
                consecutive(templated@, 0),
                lexing(self.matchers@, text@, els),
                elements_text(els) == text@,
                lexed_tokens(self.matchers@, text@, views(segments@)),
                raw_all(views(segments@)) == elements_text(els.subrange(0, i as int)),
                forall|k: int|
                    0 <= k < i ==> !(#[trigger] segments@[k])@.is_node() && segments@[k]@.marker is Some,
            decreases templated.len() - i,
        {
            let element = &templated[i];
            let marker = PositionMarker::new(
                element.template_slice.start..element.template_slice.end,
                element.template_slice.start..element.template_slice.end,
                file.copy(),
                None,
                None,
            );
            let seg = SegmentBuilder::token(
                tables.next_id(),
                element.raw.as_str(),
                element.kind,
            ).with_position(marker).finish();
            proof {
                lemma_views_push(segments@, seg);
                assert(views(segments@).push(seg@).drop_last() =~= views(segments@));
                assert(views(segments@).push(seg@).last() == seg@);
                assert(els.subrange(0, i + 1).drop_last() =~= els.subrange(0, i as int));
                assert(els.subrange(0, i + 1).last() == els[i as int]);
                assert(templated@[i as int].raw == els[i as int].raw);
                assert(templated@[i as int].kind == els[i as int].kind);
                assert(seg@.raw() == els[i as int].raw@);
                lemma_consecutive_place(templated@, els, i as int);
                lemma_lexing_prefix(self.matchers@, text@, els, i + 1);
                let upto = els.subrange(0, i + 1);
                assert(upto.drop_last() =~= els.subrange(0, i as int));
                assert(upto.last() == els[i as int]);
                assert(lexed_tokens(self.matchers@, text@, views(segments@).push(seg@)));
            }
            segments.push(seg);
            i += 1;
        }
        assert(els.subrange(0, i as int) =~= els);
        let end = PositionMarker::from_point(total, total, file.copy(), None, None);
        let eof = SegmentBuilder::token(tables.next_id(), "", SyntaxKind::EndOfFile).with_position(
            end,
        ).finish();
        proof {
            reveal_strlit("");
            assert(""@ =~= Seq::<char>::empty());
            lemma_views_push(segments@, eof);
            assert(views(segments@).push(eof@).drop_last() =~= views(segments@));
            assert(views(segments@).push(eof@).last() == eof@);
            assert(eof@.raw() =~= Seq::<char>::empty());
            assert(raw_all(views(segments@)) + Seq::<char>::empty() =~= raw_all(views(segments@)));
            assert(raw_all(views(segments@)) == text@);
            assert(raw_all(views(segments@).push(eof@)) == text@);
            crate::text::lemma_bytes_of_empty(text@);
            assert(token_placed(eof@, text@));
        }
        let ghost before_eof = segments@;
        segments.push(eof);
        proof {
            assert(views(segments@) == views(before_eof).push(eof@));
            assert(text@ == file.templated());
        }
        let errors = Lexer::violations_from_segments(&segments);
        (segments, errors)
    }
}

} // verus!
