//! Nothing of the text is lost: the text of a tree is the text of its
//! leaves, and what a match makes of a run of tokens has the text of the run.

use vstd::prelude::*;

use crate::match_result::{
    lemma_sorted_upto_len, max_after, new_node, order_of, spec_apply, triggers_of, walk, well_formed, MatchV, MatchedV,
};
use crate::segment::{crawl_all_seq, raw_all, token_v, BodyV, SegV};
use crate::syntax::DialectKind;

verus! {

/// The text of two levels, one after the other, is the text of the one and
/// then the text of the other.
pub proof fn lemma_raw_all_add(a: Seq<SegV>, b: Seq<SegV>)
    ensures
        raw_all(a + b) == raw_all(a) + raw_all(b),
    decreases b.len(),
{
    if b.len() == 0 {
        assert(a + b =~= a);
        assert(raw_all(a) + raw_all(b) =~= raw_all(a));
    } else {
        lemma_raw_all_add(a, b.drop_last());
        assert((a + b).drop_last() =~= a + b.drop_last());
        assert((a + b).last() == b.last());
        assert(raw_all(a + b) =~= raw_all(a) + raw_all(b));
    }
}

/// The text of one segment alone.
pub proof fn lemma_raw_all_one(v: SegV)
    ensures
        raw_all(seq![v]) == v.raw(),
{
    assert(seq![v].drop_last() =~= Seq::<SegV>::empty());
    assert(seq![v].last() == v);
    assert(raw_all(Seq::<SegV>::empty()) =~= Seq::<char>::empty());
    assert(raw_all(seq![v]) =~= v.raw());
}

/// The text of a stretch of a level is the text of its two parts.
pub proof fn lemma_raw_all_join(s: Seq<SegV>, a: int, b: int, c: int)
    requires
        0 <= a <= b <= c <= s.len(),
    ensures
        raw_all(s.subrange(a, c)) == raw_all(s.subrange(a, b)) + raw_all(s.subrange(b, c)),
{
    assert(s.subrange(a, c) =~= s.subrange(a, b) + s.subrange(b, c));
    lemma_raw_all_add(s.subrange(a, b), s.subrange(b, c));
}

/// The text of the leaves below the segments of a level, left to right, is
/// the text of the level.
pub proof fn lemma_leaves_text_all(s: Seq<SegV>)
    ensures
        raw_all(crawl_all_seq(s).filter(|v: SegV| v.children().len() == 0)) == raw_all(s),
    decreases s, 0int,
{
    let p = |v: SegV| v.children().len() == 0;
    if s.len() == 0 {
        crate::seqs::lemma_filter_empty(p);
    } else {
        lemma_leaves_text_all(s.drop_last());
        lemma_leaves_text(s.last());
        Seq::filter_distributes_over_add(crawl_all_seq(s.drop_last()), s.last().crawl_all(), p);
        lemma_raw_all_add(
            crawl_all_seq(s.drop_last()).filter(p),
            s.last().crawl_all().filter(p),
        );
    }
}

/// The text of a segment is the text of the leaves below it, left to
/// right: the tree holds no text but that of its leaves, and all of that.
pub proof fn lemma_leaves_text(v: SegV)
    ensures
        raw_all(v.leaves()) == v.raw(),
    decreases v, 1int,
{
    let p = |v: SegV| v.children().len() == 0;
    match v.body {
        BodyV::Token { .. } => {
            lemma_filter_one(v, p);
            lemma_raw_all_one(v);
        },
        BodyV::Node { children, .. } => {
            lemma_leaves_text_all(children);
            Seq::filter_distributes_over_add(seq![v], crawl_all_seq(children), p);
            lemma_filter_one(v, p);
            if children.len() == 0 {
                crate::seqs::lemma_filter_empty(p);
                assert(crawl_all_seq(children) =~= Seq::<SegV>::empty());
                assert(seq![v] + Seq::<SegV>::empty() =~= seq![v]);
                lemma_raw_all_one(v);
            } else {
                assert(Seq::<SegV>::empty() + crawl_all_seq(children).filter(p)
                    =~= crawl_all_seq(children).filter(p));
            }
        },
    }
}

/// Filtering one element: it stays if it passes.
pub proof fn lemma_filter_one<T>(x: T, p: spec_fn(T) -> bool)
    ensures
        seq![x].filter(p) == if p(x) {
            seq![x]
        } else {
            Seq::<T>::empty()
        },
{
    reveal(Seq::filter);
    assert(seq![x].drop_last() =~= Seq::<T>::empty());
    crate::seqs::lemma_filter_empty(p);
    assert(Seq::<T>::empty().push(x) =~= seq![x]);
}

/// Whether what `m` makes is made of the tokens of its span and of new
/// nodes and markers alone: the tokens that it uses end within its span, and
/// neither it nor any match below it is tagged with a segment of its own.
pub open spec fn covering(m: MatchV) -> bool
    decreases m,
{
    &&& max_after(m, order_of(m), order_of(m).len() as int) <= m.span.end
    &&& !(m.matched matches Some(MatchedV::ErasedSegment(_)))
    &&& forall|i: int| 0 <= i < m.child_matches.len() ==> covering(#[trigger] m.child_matches[i])
}

/// Every trigger of the order of a match stands for an insertion or a
/// child match of the match, and a child match begins where its trigger is.
pub proof fn lemma_trigger_valid(m: MatchV, n: int)
    requires
        1 <= n <= order_of(m).len(),
        m.insert_segments.len() <= usize::MAX,
        m.child_matches.len() <= usize::MAX,
    ensures
        order_of(m)[n - 1].is_child ==> order_of(m)[n - 1].index < m.child_matches.len()
            && m.child_matches[order_of(m)[n - 1].index as int].span.start == order_of(m)[n
            - 1].pos,
        !order_of(m)[n - 1].is_child ==> order_of(m)[n - 1].index < m.insert_segments.len(),
        order_of(m).len() == triggers_of(m).len(),
{
    lemma_sorted_upto_len(triggers_of(m), triggers_of(m).len() as int);
    let j = choose|j: int|
        0 <= j < triggers_of(m).len() && order_of(m)[n - 1] == triggers_of(m)[j];
    assert(order_of(m)[n - 1] == triggers_of(m)[j]);
}

/// What a well-formed match says of its trigger `n`.
pub proof fn lemma_trigger_bounds(m: MatchV, len: int, n: int)
    requires
        well_formed(m, len),
        covering(m),
        1 <= n <= order_of(m).len(),
    ensures
        max_after(m, order_of(m), n - 1) <= order_of(m)[n - 1].pos <= len,
        !order_of(m)[n - 1].is_child ==> order_of(m)[n - 1].index < m.insert_segments.len(),
        order_of(m)[n - 1].is_child ==> {
            let c = m.child_matches[order_of(m)[n - 1].index as int];
            &&& order_of(m)[n - 1].index < m.child_matches.len()
            &&& c.span.start == order_of(m)[n - 1].pos
            &&& c.span.start <= c.span.end <= len
            &&& well_formed(c, len)
            &&& covering(c)
        },
{
    lemma_trigger_valid(m, n);
    assert(max_after(m, order_of(m), n - 1) <= order_of(m)[n - 1].pos <= len);
    if order_of(m)[n - 1].is_child {
        let c = m.child_matches[order_of(m)[n - 1].index as int];
        assert(well_formed(c, len));
        assert(covering(c));
    }
}

/// The text of what was made, of a gap of tokens and of what a child
/// match makes, where each has the text of its tokens.
pub proof fn lemma_text_grows(
    segs: Seq<SegV>,
    made: Seq<SegV>,
    added: Seq<SegV>,
    start: int,
    used: int,
    pos: int,
    end: int,
)
    requires
        0 <= start <= used <= segs.len(),
        used <= pos <= end <= segs.len(),
        raw_all(made) == raw_all(segs.subrange(start, used)),
        raw_all(added) == raw_all(segs.subrange(pos, end)),
    ensures
        raw_all(made + segs.subrange(used, pos) + added) == raw_all(segs.subrange(start, end)),
{
    let gap = segs.subrange(used, pos);
    lemma_raw_all_add(made, gap);
    lemma_raw_all_add(made + gap, added);
    lemma_raw_all_join(segs, start, used, pos);
    lemma_raw_all_join(segs, start, pos, end);
}

/// The text of what was made, of a gap of tokens and of a segment without
/// text.
pub proof fn lemma_text_keeps(
    segs: Seq<SegV>,
    made: Seq<SegV>,
    meta: SegV,
    start: int,
    used: int,
    pos: int,
)
    requires
        0 <= start <= used <= pos <= segs.len(),
        raw_all(made) == raw_all(segs.subrange(start, used)),
        meta.raw() == Seq::<char>::empty(),
    ensures
        raw_all((made + segs.subrange(used, pos)).push(meta)) == raw_all(
            segs.subrange(start, pos),
        ),
{
    let gap = segs.subrange(used, pos);
    lemma_raw_all_add(made, gap);
    lemma_raw_all_join(segs, start, used, pos);
    let all = (made + gap).push(meta);
    assert(all.drop_last() =~= made + gap);
    assert(all.last() == meta);
    assert(raw_all(made + gap) + Seq::<char>::empty() =~= raw_all(made + gap));
}

/// What the first `n` triggers make has the text of the tokens that they
/// have used.
#[verifier::spinoff_prover]
pub proof fn lemma_walk_text(
    m: MatchV,
    segs: Seq<SegV>,
    dialect: DialectKind,
    n: int,
    counter: u32,
)
    requires
        well_formed(m, segs.len() as int),
        covering(m),
        0 <= n <= order_of(m).len(),
    ensures
        m.span.start <= max_after(m, order_of(m), n) <= segs.len(),
        raw_all(walk(m, segs, dialect, order_of(m), n, counter).out) == raw_all(
            segs.subrange(m.span.start as int, max_after(m, order_of(m), n) as int),
        ),
    decreases m, n,
{
    let order = order_of(m);
    let start = m.span.start as int;
    if n == 0 {
        assert(segs.subrange(start, start) =~= Seq::<SegV>::empty());
    } else {
        lemma_walk_text(m, segs, dialect, n - 1, counter);
        lemma_trigger_bounds(m, segs.len() as int, n);
        let prev = walk(m, segs, dialect, order, n - 1, counter);
        let prev_max = max_after(m, order, n - 1) as int;
        let t = order[n - 1];
        let pos = t.pos as int;
        let gap = segs.subrange(prev_max, pos);
        let cur = walk(m, segs, dialect, order, n, counter);
        if pos <= prev_max {
            assert(gap =~= Seq::<SegV>::empty());
        }
        if t.is_child {
            let c = m.child_matches[t.index as int];
            lemma_apply_text(c, segs, dialect, prev.counter);
            let a = spec_apply(c, segs, dialect, prev.counter);
            assert(cur.out == prev.out + gap + a.out);
            lemma_text_grows(segs, prev.out, a.out, start, prev_max, pos, c.span.end as int);
        } else {
            let meta = token_v(
                prev.counter,
                Seq::empty(),
                m.insert_segments[t.index as int].1,
            ).with_marker(crate::match_result::point_pos(segs, pos));
            assert(cur.out == (prev.out + gap).push(meta));
            lemma_text_keeps(segs, prev.out, meta, start, prev_max, pos);
        }
    }
}

/// What a match makes of a run of tokens has the text of the tokens of its
/// span: nothing of the text is lost, and nothing is added to it.
pub proof fn lemma_apply_text(m: MatchV, segs: Seq<SegV>, dialect: DialectKind, counter: u32)
    requires
        well_formed(m, segs.len() as int),
        covering(m),
    ensures
        raw_all(spec_apply(m, segs, dialect, counter).out) == raw_all(
            segs.subrange(m.span.start as int, m.span.end as int),
        ),
    decreases m, order_of(m).len() + 1,
{
    let order = order_of(m);
    let n = order.len() as int;
    lemma_walk_text(m, segs, dialect, n, counter);
    let w = walk(m, segs, dialect, order, n, counter);
    let max_idx = max_after(m, order, n);
    let tail = segs.subrange(max_idx as int, m.span.end as int);
    let inner = if max_idx < m.span.end {
        w.out + tail
    } else {
        w.out
    };
    lemma_raw_all_add(w.out, tail);
    lemma_raw_all_join(segs, m.span.start as int, max_idx as int, m.span.end as int);
    if max_idx >= m.span.end {
        assert(tail =~= Seq::<SegV>::empty());
        assert(raw_all(w.out) + Seq::<char>::empty() =~= raw_all(w.out));
    }
    assert(raw_all(inner) == raw_all(segs.subrange(m.span.start as int, m.span.end as int)));
    match m.matched {
        None => {},
        Some(MatchedV::SyntaxKind(kind)) => {
            lemma_raw_all_one(new_node(w.counter, kind, dialect, inner));
        },
        Some(MatchedV::BracketedSegment { .. }) => {
            lemma_raw_all_one(
                new_node(w.counter, crate::syntax::SyntaxKind::Bracketed, dialect, inner),
            );
        },
        Some(MatchedV::ErasedSegment(_)) => {},
    }
}

} // verus!
