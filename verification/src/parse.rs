//! From a run of tokens to a tree.

use vstd::prelude::*;

use crate::dialect::{index_of, Dialect};
use crate::errors::SQLParseError;
use crate::match_check::sound;
use crate::match_result::{extend_from, make_node, new_node, spec_apply, MatchResult, MatchV};
use crate::grammar::{skip_gap, spec_match, Scene};
use crate::parser::{match_grammar, skip_non_code, ParseContext};
use crate::segment::{
    lemma_views_add, lemma_views_push, lemma_views_subrange, raw_all, views, ErasedSegment, SegV,
    Tables,
};
use crate::syntax::{DialectKind, SyntaxKind};
use crate::text_laws::{lemma_apply_text, lemma_raw_all_add, lemma_raw_all_join, lemma_raw_all_one};

verus! {

/// The index after the last of the first `n` tokens that is code, or 0.
pub open spec fn last_code(segs: Seq<SegV>, n: int) -> int
    decreases n,
{
    if n <= 0 || n > segs.len() {
        0
    } else if segs[n - 1].is_code() {
        n
    } else {
        last_code(segs, n - 1)
    }
}

/// A tree, and the id that is handed out next.
pub struct Parsed {
    pub root: SegV,
    pub counter: u32,
}

/// The segments of the file that the match `m` makes of the tokens: the
/// tokens before the match; what the match makes; and the tokens after it,
/// of which the code, if there is any, is kept under one node as what
/// could not be parsed.
pub open spec fn file_segments(segs: Seq<SegV>, m: MatchV, dialect: DialectKind, counter: u32) -> Seq<
    SegV,
> {
    let made = spec_apply(m, segs, dialect, counter);
    let end = m.span.end as int;
    let q = skip_gap(segs, end, segs.len() as int);
    let stop = last_code(segs, segs.len() as int);
    segs.subrange(0, m.span.start as int) + made.out + if q < stop {
        segs.subrange(end, q) + seq![
            new_node(made.counter, SyntaxKind::Unparsable, dialect, segs.subrange(q, stop)),
        ] + segs.subrange(stop, segs.len() as int)
    } else {
        segs.subrange(end, segs.len() as int)
    }
}

/// The tree that the match `m` makes of the tokens: a file over
/// `file_segments`.
pub open spec fn spec_parse(segs: Seq<SegV>, m: MatchV, dialect: DialectKind, counter: u32) -> Parsed {
    let made = spec_apply(m, segs, dialect, counter);
    let q = skip_gap(segs, m.span.end as int, segs.len() as int);
    let stop = last_code(segs, segs.len() as int);
    let c = if q < stop {
        crate::segment::next_counter(made.counter)
    } else {
        made.counter
    };
    Parsed {
        root: new_node(c, SyntaxKind::File, dialect, file_segments(segs, m, dialect, counter)),
        counter: crate::segment::next_counter(c),
    }
}

pub proof fn lemma_skip_gap(segs: Seq<SegV>, idx: int, limit: int)
    requires
        0 <= idx <= limit <= segs.len(),
    ensures
        idx <= skip_gap(segs, idx, limit) <= limit,
    decreases limit - idx,
{
    if idx < limit && !segs[idx].is_code() {
        lemma_skip_gap(segs, idx + 1, limit);
    }
}

pub proof fn lemma_last_code(segs: Seq<SegV>, n: int)
    requires
        0 <= n <= segs.len(),
    ensures
        0 <= last_code(segs, n) <= n,
    decreases n,
{
    if n > 0 && !segs[n - 1].is_code() {
        lemma_last_code(segs, n - 1);
    }
}

/// The tree of a parse has the text of the tokens: nothing of the text is
/// lost, and nothing is added to it.
pub proof fn lemma_parse_text(segs: Seq<SegV>, m: MatchV, dialect: DialectKind, counter: u32)
    requires
        sound(m, segs.len() as int),
    ensures
        spec_parse(segs, m, dialect, counter).root.raw() == raw_all(segs),
{
    let n = segs.len() as int;
    let made = spec_apply(m, segs, dialect, counter);
    let start = m.span.start as int;
    let end = m.span.end as int;
    let q = skip_gap(segs, end, n);
    let stop = last_code(segs, n);
    lemma_skip_gap(segs, end, n);
    lemma_last_code(segs, n);
    lemma_apply_text(m, segs, dialect, counter);
    let head = segs.subrange(0, start);
    let tail = if q < stop {
        segs.subrange(end, q) + seq![
            new_node(made.counter, SyntaxKind::Unparsable, dialect, segs.subrange(q, stop)),
        ] + segs.subrange(stop, n)
    } else {
        segs.subrange(end, n)
    };
    let all = file_segments(segs, m, dialect, counter);
    assert(all == head + made.out + tail);
    lemma_raw_all_add(head + made.out, tail);
    lemma_raw_all_add(head, made.out);
    lemma_raw_all_join(segs, 0, start, end);
    if q < stop {
        let node = new_node(made.counter, SyntaxKind::Unparsable, dialect, segs.subrange(q, stop));
        lemma_raw_all_add(segs.subrange(end, q) + seq![node], segs.subrange(stop, n));
        lemma_raw_all_add(segs.subrange(end, q), seq![node]);
        lemma_raw_all_one(node);
        assert(node.raw() == raw_all(segs.subrange(q, stop)));
        lemma_raw_all_join(segs, end, q, stop);
        lemma_raw_all_join(segs, end, stop, n);
    }
    lemma_raw_all_join(segs, 0, end, n);
    assert(segs.subrange(0, n) =~= segs);
    assert(spec_parse(segs, m, dialect, counter).root.raw() == raw_all(all));
}

/// The index after the last token that is code, or 0.
fn code_end(tokens: &[ErasedSegment]) -> (r: usize)
    ensures
        r == last_code(views(tokens@), tokens@.len() as int),
        r <= tokens@.len(),
{
    let mut n = tokens.len();
    while n > 0 && !tokens[n - 1].is_code()
        invariant
            n <= tokens@.len(),
            last_code(views(tokens@), tokens@.len() as int) == last_code(views(tokens@), n as int),
        decreases n,
    {
        assert(views(tokens@)[n - 1] == tokens@[n - 1]@);
        n -= 1;
    }
    proof {
        if n > 0 {
            assert(views(tokens@)[n - 1] == tokens@[n - 1]@);
        }
    }
    n
}

/// What the grammar that the dialect holds under `start` matches of the
/// tokens, from their first token of code on, looked into `depth` deep.
pub open spec fn root_match(dialect: &Dialect, segs: Seq<SegV>, start: Seq<char>, depth: nat) -> MatchV {
    spec_match(
        Scene { lib: dialect.library@, segs },
        dialect.library@[index_of(dialect.library@, start, 0)].1->Matchable_0,
        skip_gap(segs, 0, segs.len() as int),
        segs.len() as int,
        Seq::empty(),
        depth,
    )
}

/// The match that a tree is made of: what the grammar matches, where
/// that can be made into segments; else no match at all, so that all the
/// code is kept as what could not be parsed.
pub open spec fn tree_match(dialect: &Dialect, segs: Seq<SegV>, start: Seq<char>, depth: nat) -> MatchV {
    let m = root_match(dialect, segs, start, depth);
    if sound(m, segs.len() as int) {
        m
    } else {
        crate::grammar::no_match(m.span.start as int)
    }
}

/// No match can be made into segments: into none.
pub proof fn lemma_no_match_sound(idx: int, len: int)
    requires
        0 <= idx <= len,
        idx <= u32::MAX,
    ensures
        sound(crate::grammar::no_match(idx), len),
{
    let m = crate::grammar::no_match(idx);
    assert(crate::match_result::triggers_of(m) =~= Seq::<crate::match_result::Trigger>::empty());
    assert(crate::match_result::order_of(m) =~= Seq::<crate::match_result::Trigger>::empty());
}

/// The tree of the tokens: a file that holds what the grammar under
/// `start` makes of them, and, as what could not be parsed, the code that
/// the grammar does not match. The tree has the text of the tokens. Every
/// run of tokens has a tree: where what the grammar matches cannot be made
/// into segments, all the code is kept as what could not be parsed.
///
/// There is no tree where the dialect has no grammar of that name, or
/// where there are more tokens than can be counted.
pub fn parse(
    tokens: &[ErasedSegment],
    dialect: &Dialect,
    start: &str,
    kind: DialectKind,
    tables: &mut Tables,
    depth: usize,
) -> (r: Result<ErasedSegment, SQLParseError>)
    ensures
        r is Ok <==> tokens@.len() <= u32::MAX && dialect.resolves(start@),
        r matches Ok(tree) ==> {
            let p = spec_parse(
                views(tokens@),
                tree_match(dialect, views(tokens@), start@, depth as nat),
                kind,
                old(tables).counter,
            );
            tree@ == p.root && final(tables).counter == p.counter && tree@.raw() == raw_all(
                views(tokens@),
            )
        },
        r is Err ==> *final(tables) == *old(tables),
{
    let ghost segs = views(tokens@);
    let n = tokens.len();
    if n > u32::MAX as usize {
        return Err(SQLParseError::new("There are more tokens than can be counted.".to_string()));
    }
    let grammar = match dialect.try_ref(start) {
        Some(g) => g,
        None => {
            return Err(
                SQLParseError::new("The dialect holds no grammar under that name.".to_string()),
            );
        },
    };
    let first = skip_non_code(tokens, 0, n as u32);
    let mut ctx = ParseContext::new(dialect);
    assert(ctx.wf(tokens@));
    assert(ctx.terminators@ =~= Seq::<usize>::empty());
    let m = match_grammar(grammar, tokens, first, n as u32, &mut ctx, depth);
    let m = if m.check(n) {
        m
    } else {
        proof {
            lemma_no_match_sound(first as int, n as int);
        }
        MatchResult::empty_at(first)
    };
    proof {
        m.lemma_view();
    }
    Ok(build_tree(tokens, m, kind, tables))
}

/// The tree that a match makes of the tokens: a file that holds the
/// tokens before the match, what the match makes, and the tokens after it,
/// of which the code is kept as what could not be parsed.
pub fn build_tree(tokens: &[ErasedSegment], m: MatchResult, kind: DialectKind, tables: &mut Tables) -> (r:
    ErasedSegment)
    requires
        tokens@.len() <= u32::MAX,
        sound(m@, tokens@.len() as int),
        m.span == m@.span,
    ensures
        r@ == spec_parse(views(tokens@), m@, kind, old(tables).counter).root,
        final(tables).counter == spec_parse(views(tokens@), m@, kind, old(tables).counter).counter,
        r@.raw() == raw_all(views(tokens@)),
{
    let ghost segs = views(tokens@);
    let n = tokens.len();
    let first = m.span.start;
    proof {
        m.lemma_view();
        lemma_parse_text(segs, m@, kind, tables.counter);
        lemma_skip_gap(segs, m@.span.end as int, n as int);
    }
    let ghost c0 = tables.counter;
    let ghost made = spec_apply(m@, segs, kind, c0);
    let end = m.span.end;
    let mut children: Vec<ErasedSegment> = Vec::new();
    extend_from(&mut children, tokens, 0, first as usize);
    proof {
        lemma_views_subrange(tokens@, 0, first as int);
        assert(Seq::<ErasedSegment>::empty() + tokens@.subrange(0, first as int)
            =~= tokens@.subrange(0, first as int));
    }
    let ghost head = children@;
    let mut body = m.apply(tokens, tables, kind);
    proof {
        lemma_views_add(head, body@);
    }
    children.append(&mut body);
    let q = skip_non_code(tokens, end, n as u32) as usize;
    let stop = code_end(tokens);
    let ghost front = children@;
    if q < stop {
        extend_from(&mut children, tokens, end as usize, q);
        let ghost with_gap = children@;
        let mut left: Vec<ErasedSegment> = Vec::new();
        extend_from(&mut left, tokens, q, stop);
        proof {
            lemma_views_subrange(tokens@, end as int, q as int);
            lemma_views_subrange(tokens@, q as int, stop as int);
            lemma_views_subrange(tokens@, stop as int, n as int);
            lemma_views_add(front, tokens@.subrange(end as int, q as int));
            assert(Seq::<ErasedSegment>::empty() + tokens@.subrange(q as int, stop as int)
                =~= tokens@.subrange(q as int, stop as int));
        }
        let node = make_node(tables.next_id(), SyntaxKind::Unparsable, kind, left);
        proof {
            lemma_views_push(with_gap, node);
        }
        children.push(node);
        let ghost with_node = children@;
        extend_from(&mut children, tokens, stop, n);
        proof {
            lemma_views_add(with_node, tokens@.subrange(stop as int, n as int));
            assert(views(children@) =~= file_segments(segs, m@, kind, c0));
        }
    } else {
        extend_from(&mut children, tokens, end as usize, n);
        proof {
            lemma_views_subrange(tokens@, end as int, n as int);
            lemma_views_add(front, tokens@.subrange(end as int, n as int));
            assert(views(children@) =~= file_segments(segs, m@, kind, c0));
        }
    }
    make_node(tables.next_id(), SyntaxKind::File, kind, children)
}

} // verus!
