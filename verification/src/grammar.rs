//! What an element of a grammar matches of a run of tokens.

use vstd::prelude::*;

use crate::dialect::{index_of, DialectElementType, Grammar, ParseMode};
use crate::helpers::upper_ascii;
use crate::match_result::{MatchV, MatchedV, Span};
use crate::segment::SegV;
use crate::syntax::SyntaxKind;

verus! {

/// What is matched against: the table of the grammar and the tokens.
pub struct Scene {
    pub lib: Seq<(String, DialectElementType)>,
    pub segs: Seq<SegV>,
}

/// No match at token `idx`.
pub open spec fn no_match(idx: int) -> MatchV {
    MatchV {
        span: Span { start: idx as u32, end: idx as u32 },
        matched: None,
        insert_segments: Seq::empty(),
        child_matches: Seq::empty(),
    }
}

/// The match of the one token at `idx`, as a token of the kind.
pub open spec fn token_match(idx: int, kind: SyntaxKind) -> MatchV {
    MatchV {
        span: Span { start: idx as u32, end: (idx + 1) as u32 },
        matched: Some(MatchedV::SyntaxKind(kind)),
        insert_segments: Seq::empty(),
        child_matches: Seq::empty(),
    }
}

/// The match that puts a marker of the kind in at token `pos`.
pub open spec fn meta_match(pos: int, kind: SyntaxKind) -> MatchV {
    MatchV {
        span: Span { start: pos as u32, end: pos as u32 },
        matched: None,
        insert_segments: seq![(pos as u32, kind)],
        child_matches: Seq::empty(),
    }
}

/// Whether the token is the word: it is code, and reads as the word does
/// when it is put in upper case.
pub open spec fn word_at(v: SegV, template: Seq<char>) -> bool {
    v.is_code() && v.raw().map_values(|c: char| upper_ascii(c)) == template
}

/// The first token from `idx` on, and before `limit`, that is code; or
/// `limit`.
pub open spec fn skip_gap(segs: Seq<SegV>, idx: int, limit: int) -> int
    decreases limit - idx,
{
    if idx < 0 || idx >= limit || idx >= segs.len() || segs[idx].is_code() {
        idx
    } else {
        skip_gap(segs, idx + 1, limit)
    }
}

/// The places in the table of the elements of the names. A name that
/// the table does not hold has the place after the last.
pub open spec fn indices_of(lib: Seq<(String, DialectElementType)>, names: Seq<String>) -> Seq<
    usize,
> {
    Seq::new(names.len(), |i: int| index_of(lib, names[i]@, 0) as usize)
}

/// Whether a sequence may go without the element.
pub open spec fn spec_is_optional(g: Grammar) -> bool {
    match g {
        Grammar::Optional(_) => true,
        Grammar::Ref { optional, .. } => optional,
        _ => false,
    }
}

/// Whether a sequence may go without each of the elements from `k` on.
/// Markers do not count.
pub open spec fn all_optional(elems: Seq<Grammar>, k: int) -> bool {
    forall|j: int|
        k <= j < elems.len() ==> spec_is_optional(#[trigger] elems[j]) || elems[j] is Meta
}

/// What the element matches of the tokens from token `idx` on and before
/// token `limit`, where it is to stop at what the terminators match. The
/// elements below it are looked into `fuel` deep and no deeper: what lies
/// deeper matches nothing.
///
/// - A word matches the token that reads as it does; a typed parser, the
///   token of its kind. The match makes the token a token of another kind.
/// - A reference matches what the element of that name in the table
///   matches, and nothing where the table has none.
/// - A node matches what its element matches, as a node of its kind.
/// - An exclusion matches what its element matches, and nothing where
///   what it excludes matches.
/// - A terminated element matches what its element matches with its
///   terminators, which are elements of the table by name, added to those
///   that hold.
/// - For the elements that hold others, see the functions of their own.
pub open spec fn spec_match(
    s: Scene,
    g: Grammar,
    idx: int,
    limit: int,
    terms: Seq<usize>,
    fuel: nat,
) -> MatchV
    decreases fuel, 0nat,
{
    if fuel == 0 {
        no_match(idx)
    } else {
        let f = (fuel - 1) as nat;
        match g {
            Grammar::Nothing => no_match(idx),
            Grammar::Meta(_) => no_match(idx),
            Grammar::StringParser { template, kind } => if idx < limit && word_at(
                s.segs[idx],
                template@,
            ) {
                token_match(idx, kind)
            } else {
                no_match(idx)
            },
            Grammar::TypedParser { token, kind } => if idx < limit && s.segs[idx].kind == token {
                token_match(idx, kind)
            } else {
                no_match(idx)
            },
            Grammar::Ref { name, .. } => {
                let at = index_of(s.lib, name@, 0);
                if at < s.lib.len() && s.lib[at].1 is Matchable {
                    spec_match(s, s.lib[at].1->Matchable_0, idx, limit, terms, f)
                } else {
                    no_match(idx)
                }
            },
            Grammar::Optional(inner) => spec_match(s, *inner, idx, limit, terms, f),
            Grammar::Node { kind, grammar } => spec_match(s, *grammar, idx, limit, terms, f).wrap(
                MatchedV::SyntaxKind(kind),
            ),
            Grammar::Excluding { grammar, exclude } => if spec_match(
                s,
                *exclude,
                idx,
                limit,
                terms,
                f,
            ).span.end > idx {
                no_match(idx)
            } else {
                spec_match(s, *grammar, idx, limit, terms, f)
            },
            Grammar::Terminated { grammar, terminators } => spec_match(
                s,
                *grammar,
                idx,
                limit,
                terms + indices_of(s.lib, terminators@),
                f,
            ),
            Grammar::OneOf(elems) => first_from(s, elems@, 0, idx, limit, terms, f),
            Grammar::Longest(elems) => longest_from(s, elems@, 0, no_match(idx), idx, limit, terms, f),
            Grammar::Sequence(elems) => seq_from(
                s,
                elems@,
                0,
                idx,
                no_match(idx),
                idx,
                limit,
                terms,
                f,
            ),
            Grammar::AnyNumberOf { elements, min_times, max_times } => repeat_from(
                s,
                elements@,
                min_times as int,
                max_times,
                0,
                idx,
                no_match(idx),
                idx,
                limit,
                terms,
                f,
            ),
            Grammar::Delimited { element, delimiter, allow_trailing } => delimited(
                s,
                *element,
                *delimiter,
                allow_trailing,
                idx,
                limit,
                terms,
                f,
            ),
            Grammar::Bracketed { grammar, start_bracket, end_bracket, parse_mode } => bracketed(
                s,
                *grammar,
                start_bracket@,
                end_bracket@,
                parse_mode,
                idx,
                limit,
                f,
            ),
        }
    }
}

/// What a list matches: an element, and then delimiters and elements in
/// turn, for as long as both match.
pub open spec fn delimited(
    s: Scene,
    element: Grammar,
    delimiter: Grammar,
    allow_trailing: bool,
    idx: int,
    limit: int,
    terms: Seq<usize>,
    f: nat,
) -> MatchV
    decreases f, limit - idx + 2,
{
    if f == 0 {
        no_match(idx)
    } else {
        let first = spec_match(s, element, idx, limit, terms, (f - 1) as nat);
        if first.span.end <= idx || first.span.end > limit {
            no_match(idx)
        } else {
            delimited_from(
                s,
                element,
                delimiter,
                allow_trailing,
                first.span.end as int,
                first,
                limit,
                terms,
                f,
            )
        }
    }
}

/// What a list matches that has matched `acc`, up to token `p`. The list
/// ends where the tokens end, where a terminator matches, or where no
/// delimiter follows. A delimiter that no element follows is part of the
/// list only if a trailing delimiter is allowed.
pub open spec fn delimited_from(
    s: Scene,
    element: Grammar,
    delimiter: Grammar,
    allow_trailing: bool,
    p: int,
    acc: MatchV,
    limit: int,
    terms: Seq<usize>,
    f: nat,
) -> MatchV
    decreases f, limit - p + 1,
{
    let q = skip_gap(s.segs, p, limit);
    if f == 0 || p < 0 || q >= limit {
        acc
    } else if any_match(s, terms, 0, q, limit, (f - 1) as nat) {
        acc
    } else {
        let d = spec_match(s, delimiter, q, limit, terms, (f - 1) as nat);
        let q2 = skip_gap(s.segs, d.span.end as int, limit);
        let e = spec_match(s, element, q2, limit, terms, (f - 1) as nat);
        if d.span.end <= q || d.span.end <= p || d.span.end > limit {
            acc
        } else if e.span.end > q2 && e.span.end > p && e.span.end <= limit {
            delimited_from(
                s,
                element,
                delimiter,
                allow_trailing,
                e.span.end as int,
                acc.append(d).append(e),
                limit,
                terms,
                f,
            )
        } else if allow_trailing {
            acc.append(d)
        } else {
            acc
        }
    }
}

/// Whether the token is code and reads as the text does.
pub open spec fn reads(v: SegV, text: Seq<char>) -> bool {
    v.is_code() && v.raw() == text
}

/// The index of the closing bracket of a stretch that is open `depth`
/// deep at token `i`: the first closing bracket from there on that closes
/// no bracket opened after `i`; or `limit` where there is none before it.
pub open spec fn closing(
    segs: Seq<SegV>,
    start_bracket: Seq<char>,
    end_bracket: Seq<char>,
    i: int,
    limit: int,
    depth: nat,
) -> int
    decreases limit - i,
{
    if i < 0 || i >= limit || i >= segs.len() {
        limit
    } else if reads(segs[i], end_bracket) {
        if depth == 0 {
            i
        } else {
            closing(segs, start_bracket, end_bracket, i + 1, limit, (depth - 1) as nat)
        }
    } else if reads(segs[i], start_bracket) {
        closing(segs, start_bracket, end_bracket, i + 1, limit, depth + 1)
    } else {
        closing(segs, start_bracket, end_bracket, i + 1, limit, depth)
    }
}

/// The match of the tokens from `from` up to `to` as what could not be
/// parsed.
pub open spec fn unparsable(from: int, to: int) -> MatchV {
    MatchV {
        span: Span { start: from as u32, end: to as u32 },
        matched: Some(MatchedV::SyntaxKind(SyntaxKind::Unparsable)),
        insert_segments: Seq::empty(),
        child_matches: Seq::empty(),
    }
}

/// The bracketed stretch from the bracket at `idx` to the bracket at
/// `close`, with `content` between them: the brackets, a marker of an
/// indent after the first and of a dedent before the second, and the
/// content, as one bracketed segment.
pub open spec fn bracket_match(idx: int, close: int, content: MatchV) -> MatchV {
    no_match(idx + 1).span_from(idx).append(meta_match(idx + 1, SyntaxKind::Indent)).append(
        content,
    ).append(meta_match(close, SyntaxKind::Dedent)).append(
        no_match(close + 1).span_from(close),
    ).wrap(
        MatchedV::BracketedSegment { start_bracket: idx as u32, end_bracket: close as u32 },
    )
}

/// What a pair of brackets with the element between them matches. The
/// token at `idx` is to be the opening bracket, and its closing bracket is
/// to come before `limit`. The element is matched against what lies
/// between the two, with no terminators. What it leaves unmatched there,
/// other than what is not code, decides:
/// - nothing is left: the brackets match with what the element matched.
///   Brackets with no code between them match only if a sequence may go
///   without the element;
/// - something is left and the mode is strict: no match;
/// - something is left and the mode is greedy: the rest is kept as what
///   could not be parsed;
/// - the same where the mode is greedy once started and the element has
///   matched something; else no match.
pub open spec fn bracketed(
    s: Scene,
    inner: Grammar,
    start_bracket: Seq<char>,
    end_bracket: Seq<char>,
    mode: ParseMode,
    idx: int,
    limit: int,
    f: nat,
) -> MatchV
    decreases f, 0nat,
{
    let close = closing(s.segs, start_bracket, end_bracket, idx + 1, limit, 0);
    let q = skip_gap(s.segs, idx + 1, close);
    let m = if f == 0 {
        no_match(q)
    } else {
        spec_match(s, inner, q, close, Seq::empty(), (f - 1) as nat)
    };
    let found = m.span.end > q && m.span.end <= close;
    let e = if found {
        m.span.end as int
    } else {
        q
    };
    let rest = skip_gap(s.segs, e, close);
    if f == 0 || idx < 0 || idx >= limit || idx >= s.segs.len() || !reads(s.segs[idx], start_bracket)
        || close >= limit {
        no_match(idx)
    } else if rest >= close {
        if found {
            bracket_match(idx, close, m)
        } else if spec_is_optional(inner) {
            bracket_match(idx, close, no_match(q))
        } else {
            no_match(idx)
        }
    } else if mode == ParseMode::Greedy || (mode == ParseMode::GreedyOnceStarted && found) {
        bracket_match(
            idx,
            close,
            if found {
                m.append(unparsable(rest, close))
            } else {
                unparsable(rest, close)
            },
        )
    } else {
        no_match(idx)
    }
}

/// What the first of the elements from `k` on that matches anything at
/// token `idx` matches there.
pub open spec fn first_from(
    s: Scene,
    elems: Seq<Grammar>,
    k: int,
    idx: int,
    limit: int,
    terms: Seq<usize>,
    f: nat,
) -> MatchV
    decreases f, elems.len() - k + 1,
{
    if f == 0 || k < 0 || k >= elems.len() {
        no_match(idx)
    } else {
        let m = spec_match(s, elems[k], idx, limit, terms, (f - 1) as nat);
        if m.span.end > idx {
            m
        } else {
            first_from(s, elems, k + 1, idx, limit, terms, f)
        }
    }
}

/// The longest of `best` and of what the elements from `k` on match at
/// token `idx`: of two of the same length, the one that comes first.
pub open spec fn longest_from(
    s: Scene,
    elems: Seq<Grammar>,
    k: int,
    best: MatchV,
    idx: int,
    limit: int,
    terms: Seq<usize>,
    f: nat,
) -> MatchV
    decreases f, elems.len() - k + 1,
{
    if f == 0 || k < 0 || k >= elems.len() {
        best
    } else {
        let m = spec_match(s, elems[k], idx, limit, terms, (f - 1) as nat);
        longest_from(
            s,
            elems,
            k + 1,
            if m.len() > best.len() {
                m
            } else {
                best
            },
            idx,
            limit,
            terms,
            f,
        )
    }
}

/// Whether one of the terminators from `k` on matches at token `idx`. A
/// terminator is an element of the table, by its place there, and is
/// matched on its own, with no terminators that hold.
pub open spec fn any_match(s: Scene, terms: Seq<usize>, k: int, idx: int, limit: int, f: nat) -> bool
    decreases f, terms.len() - k + 1,
{
    if f == 0 || k < 0 || k >= terms.len() {
        false
    } else {
        let at = terms[k] as int;
        (at < s.lib.len() && s.lib[at].1 is Matchable && spec_match(
            s,
            s.lib[at].1->Matchable_0,
            idx,
            limit,
            Seq::empty(),
            (f - 1) as nat,
        ).span.end > idx) || any_match(s, terms, k + 1, idx, limit, f)
    }
}

/// What a sequence matches that has matched `acc` with the elements
/// before `k`, up to token `p`. Each element is matched where the last
/// match ended, after what is not code. A marker is put in where the last
/// match ended. An element that matches nothing is left out if the
/// sequence may go without it; else the sequence matches nothing. Where a
/// terminator matches, the sequence ends, and matches nothing unless it may
/// go without the elements that are left. A sequence that has matched no
/// token matches nothing.
pub open spec fn seq_from(
    s: Scene,
    elems: Seq<Grammar>,
    k: int,
    p: int,
    acc: MatchV,
    start: int,
    limit: int,
    terms: Seq<usize>,
    f: nat,
) -> MatchV
    decreases f, elems.len() - k + 1,
{
    let done = if acc.span.end > start {
        acc
    } else {
        no_match(start)
    };
    if f == 0 {
        no_match(start)
    } else if k < 0 || k >= elems.len() {
        done
    } else if elems[k] is Meta {
        seq_from(
            s,
            elems,
            k + 1,
            p,
            acc.append(meta_match(p, elems[k]->Meta_0)),
            start,
            limit,
            terms,
            f,
        )
    } else {
        let q = if acc.has_match() {
            skip_gap(s.segs, p, limit)
        } else {
            p
        };
        let m = spec_match(s, elems[k], q, limit, terms, (f - 1) as nat);
        if any_match(s, terms, 0, q, limit, (f - 1) as nat) {
            if all_optional(elems, k) {
                done
            } else {
                no_match(start)
            }
        } else if m.span.end > q {
            seq_from(s, elems, k + 1, m.span.end as int, acc.append(m), start, limit, terms, f)
        } else if spec_is_optional(elems[k]) {
            seq_from(s, elems, k + 1, p, acc, start, limit, terms, f)
        } else {
            no_match(start)
        }
    }
}

/// What a repetition matches that has matched `acc` in `count` rounds, up
/// to token `p`. A round matches the first element that matches anything,
/// after what is not code. The rounds end where `max_times` is reached,
/// where the tokens end, where a terminator matches, or where no element
/// matches a token. A repetition of fewer rounds than `min_times`
/// matches nothing.
pub open spec fn repeat_from(
    s: Scene,
    elems: Seq<Grammar>,
    min_times: int,
    max_times: Option<usize>,
    count: int,
    p: int,
    acc: MatchV,
    start: int,
    limit: int,
    terms: Seq<usize>,
    f: nat,
) -> MatchV
    decreases f, limit - p + 1,
{
    let done = if count >= min_times && acc.span.end > start {
        acc
    } else {
        no_match(start)
    };
    let q = if acc.has_match() {
        skip_gap(s.segs, p, limit)
    } else {
        p
    };
    if f == 0 {
        no_match(start)
    } else if (max_times matches Some(mx) && count >= mx) || p < 0 || q >= limit {
        done
    } else if any_match(s, terms, 0, q, limit, (f - 1) as nat) {
        done
    } else {
        let m = first_from(s, elems, 0, q, limit, terms, (f - 1) as nat);
        if m.span.end as int <= q || m.span.end as int <= p || m.span.end > limit {
            done
        } else {
            repeat_from(
                s,
                elems,
                min_times,
                max_times,
                count + 1,
                m.span.end as int,
                acc.append(m),
                start,
                limit,
                terms,
                f,
            )
        }
    }
}


} // verus!
