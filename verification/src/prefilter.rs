//! What can be said in brief of how a match of an element of a grammar
//! begins, so that the element need not be tried where it cannot match.

use vstd::prelude::*;

use crate::dialect::{find_entry, has_text, index_of, Dialect, DialectElementType, Grammar};
use crate::grammar::{
    delimited, first_from, longest_from, no_match, repeat_from, seq_from, spec_is_optional,
    spec_match, Scene,
};
use crate::helpers::{ascii_upper, upper_ascii};
use crate::match_result::MatchV;
use crate::segment::{ErasedSegment, SegV};
use crate::syntax::{SyntaxKind, SyntaxSet};
use crate::text::copy_str;

verus! {

/// Whether the token reads, in upper case, as one of the texts does, or is
/// of one of the kinds.
pub open spec fn begins(raws: Seq<String>, kinds: Set<SyntaxKind>, v: SegV) -> bool {
    has_text(raws, v.raw().map_values(|c: char| upper_ascii(c))) || kinds.contains(v.kind)
}

/// Whether every match of the element, over whatever tokens, begins with
/// a token that reads as one of the texts does or is of one of the kinds.
pub open spec fn sound_hint(
    lib: Seq<(String, DialectElementType)>,
    g: Grammar,
    raws: Seq<String>,
    kinds: Set<SyntaxKind>,
) -> bool {
    forall|segs: Seq<SegV>, idx: int, limit: int, terms: Seq<usize>, fuel: nat|
        0 <= idx <= limit <= u32::MAX && (#[trigger] spec_match(
            Scene { lib, segs },
            g,
            idx,
            limit,
            terms,
            fuel,
        )).span.end > idx ==> begins(raws, kinds, segs[idx])
}

/// What is said in brief of how the matches of an element begin: the
/// texts, in upper case, and the kinds.
pub struct HintV {
    pub raws: Seq<Seq<char>>,
    pub kinds: Set<SyntaxKind>,
}

/// The texts of the strings.
pub open spec fn texts_of(s: Seq<String>) -> Seq<Seq<char>> {
    Seq::new(s.len(), |i: int| s[i]@)
}

/// What the texts and the kinds say.
pub open spec fn hint_view(h: (Vec<String>, SyntaxSet)) -> HintV {
    HintV { raws: texts_of(h.0@), kinds: h.1@ }
}

/// No texts and no kinds: what is said of an element that matches nothing.
pub open spec fn no_hint() -> HintV {
    HintV { raws: Seq::empty(), kinds: Set::empty() }
}

/// What is said in brief of how the matches of the element begin, where
/// the elements below it are looked into `fuel` deep; nothing where that is
/// not deep enough, or where nothing can be said:
/// - a word begins with itself, a typed parser with a token of its kind, a
///   pair of brackets with the first of them;
/// - a reference begins as the element of that name does, and with nothing
///   where the table has none;
/// - an element that holds one other begins as that one does, and so does
///   a list;
/// - a choice and a repetition begin as any of their elements does;
/// - a sequence begins as its first element does. Nothing is said of a
///   sequence that starts with a marker or may go without its first element.
pub open spec fn spec_simple(
    lib: Seq<(String, DialectElementType)>,
    g: Grammar,
    fuel: nat,
) -> Option<HintV>
    decreases fuel, 0nat,
{
    if fuel == 0 {
        None
    } else {
        let f = (fuel - 1) as nat;
        match g {
            Grammar::Nothing => Some(no_hint()),
            Grammar::Meta(_) => Some(no_hint()),
            Grammar::StringParser { template, .. } => Some(
                HintV { raws: seq![template@], kinds: Set::empty() },
            ),
            Grammar::TypedParser { token, .. } => Some(
                HintV { raws: Seq::empty(), kinds: set![token] },
            ),
            Grammar::Ref { name, .. } => {
                let at = index_of(lib, name@, 0);
                if at < lib.len() && lib[at].1 is Matchable {
                    spec_simple(lib, lib[at].1->Matchable_0, f)
                } else {
                    Some(no_hint())
                }
            },
            Grammar::Optional(inner) => spec_simple(lib, *inner, f),
            Grammar::Node { grammar, .. } => spec_simple(lib, *grammar, f),
            Grammar::Excluding { grammar, .. } => spec_simple(lib, *grammar, f),
            Grammar::Terminated { grammar, .. } => spec_simple(lib, *grammar, f),
            Grammar::OneOf(elems) => simple_from(lib, elems@, 0, no_hint(), f),
            Grammar::Longest(elems) => simple_from(lib, elems@, 0, no_hint(), f),
            Grammar::AnyNumberOf { elements, .. } => simple_from(lib, elements@, 0, no_hint(), f),
            Grammar::Delimited { element, .. } => spec_simple(lib, *element, f),
            Grammar::Sequence(elems) => if elems@.len() == 0 || elems@[0] is Meta
                || spec_is_optional(elems@[0]) {
                None
            } else {
                spec_simple(lib, elems@[0], f)
            },
            Grammar::Bracketed { start_bracket, .. } => Some(
                HintV {
                    raws: seq![start_bracket@.map_values(|c: char| upper_ascii(c))],
                    kinds: Set::empty(),
                },
            ),
        }
    }
}

/// What is said of the elements from `k` on, added to `acc`: what is said
/// of each, one after the other; nothing where nothing is said of one.
pub open spec fn simple_from(
    lib: Seq<(String, DialectElementType)>,
    elems: Seq<Grammar>,
    k: int,
    acc: HintV,
    f: nat,
) -> Option<HintV>
    decreases f, elems.len() - k + 1,
{
    if f == 0 {
        None
    } else if k < 0 || k >= elems.len() {
        Some(acc)
    } else {
        match spec_simple(lib, elems[k], (f - 1) as nat) {
            None => None,
            Some(h) => simple_from(
                lib,
                elems,
                k + 1,
                HintV { raws: acc.raws + h.raws, kinds: acc.kinds.union(h.kinds) },
                f,
            ),
        }
    }
}

/// The match of one of several elements is the match of one of them.
pub proof fn lemma_first_from(
    s: Scene,
    elems: Seq<Grammar>,
    k: int,
    idx: int,
    limit: int,
    terms: Seq<usize>,
    f: nat,
)
    requires
        0 <= k,
        0 <= idx <= u32::MAX,
        first_from(s, elems, k, idx, limit, terms, f).span.end > idx,
    ensures
        f > 0,
        exists|j: int|
            k <= j < elems.len() && first_from(s, elems, k, idx, limit, terms, f) == #[trigger] spec_match(
                s,
                elems[j],
                idx,
                limit,
                terms,
                (f - 1) as nat,
            ),
    decreases elems.len() - k,
{
    if f == 0 || k >= elems.len() {
    } else {
        let m = spec_match(s, elems[k], idx, limit, terms, (f - 1) as nat);
        if m.span.end > idx {
        } else {
            lemma_first_from(s, elems, k + 1, idx, limit, terms, f);
        }
    }
}

/// The longest match of several elements is the match of one of them, or
/// the match that was the longest before.
pub proof fn lemma_longest_from(
    s: Scene,
    elems: Seq<Grammar>,
    k: int,
    best: MatchV,
    idx: int,
    limit: int,
    terms: Seq<usize>,
    f: nat,
)
    requires
        0 <= k,
    ensures
        longest_from(s, elems, k, best, idx, limit, terms, f) == best || (f > 0 && exists|j: int|
            k <= j < elems.len() && longest_from(s, elems, k, best, idx, limit, terms, f)
                == #[trigger] spec_match(s, elems[j], idx, limit, terms, (f - 1) as nat)),
    decreases elems.len() - k,
{
    if f == 0 || k >= elems.len() {
    } else {
        let m = spec_match(s, elems[k], idx, limit, terms, (f - 1) as nat);
        let next = if m.len() > best.len() {
            m
        } else {
            best
        };
        lemma_longest_from(s, elems, k + 1, next, idx, limit, terms, f);
    }
}

/// The texts and the kinds of both.
pub fn join(a: (Vec<String>, SyntaxSet), b: &(Vec<String>, SyntaxSet)) -> (r: (
    Vec<String>,
    SyntaxSet,
))
    ensures
        forall|v: SegV| begins(r.0@, r.1@, v) <==> begins(a.0@, a.1@, v) || begins(b.0@, b.1@, v),
        texts_of(r.0@) == texts_of(a.0@) + texts_of(b.0@),
        r.1@ == a.1@.union(b.1@),
{
    let mut raws = a.0;
    let ghost first = raws@;
    let mut i: usize = 0;
    while i < b.0.len()
        invariant
            i <= b.0@.len(),
            raws@.len() == first.len() + i,
            forall|j: int| 0 <= j < first.len() ==> raws@[j] == first[j],
            forall|j: int| 0 <= j < i ==> (#[trigger] raws@[first.len() + j])@ == b.0@[j]@,
        decreases b.0.len() - i,
    {
        raws.push(copy_str(b.0[i].as_str()));
        i += 1;
    }
    let kinds = a.1.union(&b.1);
    proof {
        assert(texts_of(raws@) =~= texts_of(first) + texts_of(b.0@)) by {
            assert forall|j: int| 0 <= j < raws@.len() implies texts_of(raws@)[j] == (texts_of(
                first,
            ) + texts_of(b.0@))[j] by {
                if j >= first.len() {
                    assert(raws@[first.len() + (j - first.len())]@ == b.0@[j - first.len()]@);
                }
            }
        }
        assert forall|t: Seq<char>| has_text(raws@, t) <==> has_text(first, t) || has_text(
            b.0@,
            t,
        ) by {
            if has_text(raws@, t) {
                let w = choose|w: int| 0 <= w < raws@.len() && (#[trigger] raws@[w])@ == t;
                if w < first.len() {
                    assert(first[w]@ == t);
                } else {
                    assert(raws@[first.len() + (w - first.len())]@ == b.0@[w - first.len()]@);
                    assert(b.0@[w - first.len()]@ == t);
                }
            }
            if has_text(first, t) {
                let w = choose|w: int| 0 <= w < first.len() && (#[trigger] first[w])@ == t;
                assert(raws@[w]@ == t);
            }
            if has_text(b.0@, t) {
                let w = choose|w: int| 0 <= w < b.0@.len() && (#[trigger] b.0@[w])@ == t;
                assert(raws@[first.len() + w]@ == t);
            }
        }
    }
    (raws, kinds)
}

/// Whether the token reads, in upper case, as one of the texts does, or is
/// of one of the kinds.
pub fn token_begins(hint: &(Vec<String>, SyntaxSet), segment: &ErasedSegment) -> (r: bool)
    ensures
        r == begins(hint.0@, hint.1@, segment@),
{
    if hint.1.contains(segment.get_type()) {
        return true;
    }
    let upper = ascii_upper(segment.raw().as_str());
    crate::dialect::contains_text(&hint.0, upper.as_str())
}

/// An element that matches nothing begins with nothing.
pub proof fn lemma_hint_never(
    lib: Seq<(String, DialectElementType)>,
    g: Grammar,
    raws: Seq<String>,
    kinds: Set<SyntaxKind>,
)
    requires
        g is Nothing || g is Meta,
    ensures
        sound_hint(lib, g, raws, kinds),
{
    assert forall|segs: Seq<SegV>, idx: int, limit: int, terms: Seq<usize>, fl: nat|
        0 <= idx <= limit <= u32::MAX && (#[trigger] spec_match(
            Scene { lib, segs },
            g,
            idx,
            limit,
            terms,
            fl,
        )).span.end > idx implies begins(raws, kinds, segs[idx]) by {
        let s = Scene { lib, segs };
        assert(fl > 0);

    }
}

/// A word begins with itself.
pub proof fn lemma_hint_word(
    lib: Seq<(String, DialectElementType)>,
    g: Grammar,
    raws: Seq<String>,
    kinds: Set<SyntaxKind>,
)
    requires
        g matches Grammar::StringParser { template, .. } && has_text(raws, template@),
    ensures
        sound_hint(lib, g, raws, kinds),
{
    assert forall|segs: Seq<SegV>, idx: int, limit: int, terms: Seq<usize>, fl: nat|
        0 <= idx <= limit <= u32::MAX && (#[trigger] spec_match(
            Scene { lib, segs },
            g,
            idx,
            limit,
            terms,
            fl,
        )).span.end > idx implies begins(raws, kinds, segs[idx]) by {
        let s = Scene { lib, segs };
        assert(fl > 0);

    }
}

/// A typed parser begins with a token of its kind.
pub proof fn lemma_hint_typed(
    lib: Seq<(String, DialectElementType)>,
    g: Grammar,
    raws: Seq<String>,
    kinds: Set<SyntaxKind>,
)
    requires
        g matches Grammar::TypedParser { token, .. } && kinds.contains(token),
    ensures
        sound_hint(lib, g, raws, kinds),
{
    assert forall|segs: Seq<SegV>, idx: int, limit: int, terms: Seq<usize>, fl: nat|
        0 <= idx <= limit <= u32::MAX && (#[trigger] spec_match(
            Scene { lib, segs },
            g,
            idx,
            limit,
            terms,
            fl,
        )).span.end > idx implies begins(raws, kinds, segs[idx]) by {
        let s = Scene { lib, segs };
        assert(fl > 0);

    }
}

/// A reference begins as the element does that it stands for.
pub proof fn lemma_hint_ref(
    lib: Seq<(String, DialectElementType)>,
    g: Grammar,
    raws: Seq<String>,
    kinds: Set<SyntaxKind>,
)
    requires
        g is Ref,
        index_of(lib, g->Ref_name@, 0) < lib.len() && lib[index_of(lib, g->Ref_name@, 0)].1
            is Matchable ==> sound_hint(
            lib,
            lib[index_of(lib, g->Ref_name@, 0)].1->Matchable_0,
            raws,
            kinds,
        ),
    ensures
        sound_hint(lib, g, raws, kinds),
{
    assert forall|segs: Seq<SegV>, idx: int, limit: int, terms: Seq<usize>, fl: nat|
        0 <= idx <= limit <= u32::MAX && (#[trigger] spec_match(
            Scene { lib, segs },
            g,
            idx,
            limit,
            terms,
            fl,
        )).span.end > idx implies begins(raws, kinds, segs[idx]) by {
        let s = Scene { lib, segs };
        assert(fl > 0);
        let at = index_of(lib, g->Ref_name@, 0);
        assert(at < lib.len() && lib[at].1 is Matchable);
        assert(spec_match(s, lib[at].1->Matchable_0, idx, limit, terms, (fl - 1) as nat).span.end
            > idx);
    }
}

/// An element that matches what another matches, or nothing, begins as
/// the other does.
pub proof fn lemma_hint_inner(
    lib: Seq<(String, DialectElementType)>,
    g: Grammar,
    inner: Grammar,
    raws: Seq<String>,
    kinds: Set<SyntaxKind>,
)
    requires
        (g matches Grammar::Optional(i) && *i == inner) || (g matches Grammar::Node {
            grammar,
            ..
        } && *grammar == inner) || (g matches Grammar::Excluding { grammar, .. } && *grammar
            == inner) || (g matches Grammar::Terminated { grammar, .. } && *grammar == inner),
        sound_hint(lib, inner, raws, kinds),
    ensures
        sound_hint(lib, g, raws, kinds),
{
    assert forall|segs: Seq<SegV>, idx: int, limit: int, terms: Seq<usize>, fl: nat|
        0 <= idx <= limit <= u32::MAX && (#[trigger] spec_match(
            Scene { lib, segs },
            g,
            idx,
            limit,
            terms,
            fl,
        )).span.end > idx implies begins(raws, kinds, segs[idx]) by {
        let s = Scene { lib, segs };
        assert(fl > 0);
        let more = if g is Terminated {
            terms + crate::grammar::indices_of(lib, g->Terminated_terminators@)
        } else {
            terms
        };
        assert(spec_match(s, inner, idx, limit, more, (fl - 1) as nat).span.end > idx);
    }
}

/// The first match of several elements begins as one of them does.
pub proof fn lemma_hint_one_of(
    lib: Seq<(String, DialectElementType)>,
    g: Grammar,
    raws: Seq<String>,
    kinds: Set<SyntaxKind>,
)
    requires
        g is OneOf,
        forall|j: int|
            0 <= j < g->OneOf_0@.len() ==> sound_hint(lib, #[trigger] g->OneOf_0@[j], raws, kinds),
    ensures
        sound_hint(lib, g, raws, kinds),
{
    assert forall|segs: Seq<SegV>, idx: int, limit: int, terms: Seq<usize>, fl: nat|
        0 <= idx <= limit <= u32::MAX && (#[trigger] spec_match(
            Scene { lib, segs },
            g,
            idx,
            limit,
            terms,
            fl,
        )).span.end > idx implies begins(raws, kinds, segs[idx]) by {
        let s = Scene { lib, segs };
        assert(fl > 0);
        let elems = g->OneOf_0@;
        lemma_first_from(s, elems, 0, idx, limit, terms, (fl - 1) as nat);
        let j = choose|j: int|
            0 <= j < elems.len() && first_from(s, elems, 0, idx, limit, terms, (fl - 1) as nat)
                == #[trigger] spec_match(s, elems[j], idx, limit, terms, (fl - 2) as nat);
        assert(sound_hint(lib, elems[j], raws, kinds));
    }
}

/// The longest match of several elements begins as one of them does.
pub proof fn lemma_hint_longest(
    lib: Seq<(String, DialectElementType)>,
    g: Grammar,
    raws: Seq<String>,
    kinds: Set<SyntaxKind>,
)
    requires
        g is Longest,
        forall|j: int|
            0 <= j < g->Longest_0@.len() ==> sound_hint(
                lib,
                #[trigger] g->Longest_0@[j],
                raws,
                kinds,
            ),
    ensures
        sound_hint(lib, g, raws, kinds),
{
    assert forall|segs: Seq<SegV>, idx: int, limit: int, terms: Seq<usize>, fl: nat|
        0 <= idx <= limit <= u32::MAX && (#[trigger] spec_match(
            Scene { lib, segs },
            g,
            idx,
            limit,
            terms,
            fl,
        )).span.end > idx implies begins(raws, kinds, segs[idx]) by {
        let s = Scene { lib, segs };
        assert(fl > 0);
        let elems = g->Longest_0@;
        lemma_longest_from(s, elems, 0, no_match(idx), idx, limit, terms, (fl - 1) as nat);
        let whole = longest_from(s, elems, 0, no_match(idx), idx, limit, terms, (fl - 1) as nat);
        assert(whole != no_match(idx));
        let j = choose|j: int|
            0 <= j < elems.len() && whole == #[trigger] spec_match(
                s,
                elems[j],
                idx,
                limit,
                terms,
                (fl - 2) as nat,
            );
        assert(sound_hint(lib, elems[j], raws, kinds));
    }
}

/// A repetition begins as one of its elements does.
pub proof fn lemma_hint_repeat(
    lib: Seq<(String, DialectElementType)>,
    g: Grammar,
    raws: Seq<String>,
    kinds: Set<SyntaxKind>,
)
    requires
        g is AnyNumberOf,
        forall|j: int|
            0 <= j < g->AnyNumberOf_elements@.len() ==> sound_hint(
                lib,
                #[trigger] g->AnyNumberOf_elements@[j],
                raws,
                kinds,
            ),
    ensures
        sound_hint(lib, g, raws, kinds),
{
    assert forall|segs: Seq<SegV>, idx: int, limit: int, terms: Seq<usize>, fl: nat|
        0 <= idx <= limit <= u32::MAX && (#[trigger] spec_match(
            Scene { lib, segs },
            g,
            idx,
            limit,
            terms,
            fl,
        )).span.end > idx implies begins(raws, kinds, segs[idx]) by {
        let s = Scene { lib, segs };
        assert(fl > 0);
        let elems = g->AnyNumberOf_elements@;
        let whole = repeat_from(
            s,
            elems,
            g->AnyNumberOf_min_times as int,
            g->AnyNumberOf_max_times,
            0,
            idx,
            no_match(idx),
            idx,
            limit,
            terms,
            (fl - 1) as nat,
        );
        assert(spec_match(s, g, idx, limit, terms, fl) == whole);
        assert(!no_match(idx).has_match());
        assert(fl > 1);
        let m = first_from(s, elems, 0, idx, limit, terms, (fl - 2) as nat);
        assert(m.span.end > idx);
        lemma_first_from(s, elems, 0, idx, limit, terms, (fl - 2) as nat);
        let j = choose|j: int|
            0 <= j < elems.len() && m == #[trigger] spec_match(
                s,
                elems[j],
                idx,
                limit,
                terms,
                (fl - 3) as nat,
            );
        assert(sound_hint(lib, elems[j], raws, kinds));
    }
}

/// A list begins as its element does.
pub proof fn lemma_hint_list(
    lib: Seq<(String, DialectElementType)>,
    g: Grammar,
    raws: Seq<String>,
    kinds: Set<SyntaxKind>,
)
    requires
        g is Delimited,
        sound_hint(lib, *g->Delimited_element, raws, kinds),
    ensures
        sound_hint(lib, g, raws, kinds),
{
    assert forall|segs: Seq<SegV>, idx: int, limit: int, terms: Seq<usize>, fl: nat|
        0 <= idx <= limit <= u32::MAX && (#[trigger] spec_match(
            Scene { lib, segs },
            g,
            idx,
            limit,
            terms,
            fl,
        )).span.end > idx implies begins(raws, kinds, segs[idx]) by {
        let s = Scene { lib, segs };
        assert(fl > 0);
        let whole = delimited(
            s,
            *g->Delimited_element,
            *g->Delimited_delimiter,
            g->Delimited_allow_trailing,
            idx,
            limit,
            terms,
            (fl - 1) as nat,
        );
        assert(spec_match(s, g, idx, limit, terms, fl) == whole);
        assert(fl > 1);
        assert(spec_match(s, *g->Delimited_element, idx, limit, terms, (fl - 2) as nat).span.end
            > idx);
    }
}

/// A sequence whose first element is not one that it may go without
/// begins as that element does.
pub proof fn lemma_hint_sequence(
    lib: Seq<(String, DialectElementType)>,
    g: Grammar,
    raws: Seq<String>,
    kinds: Set<SyntaxKind>,
)
    requires
        g is Sequence,
        g->Sequence_0@.len() > 0,
        !(g->Sequence_0@[0] is Meta),
        !spec_is_optional(g->Sequence_0@[0]),
        sound_hint(lib, g->Sequence_0@[0], raws, kinds),
    ensures
        sound_hint(lib, g, raws, kinds),
{
    assert forall|segs: Seq<SegV>, idx: int, limit: int, terms: Seq<usize>, fl: nat|
        0 <= idx <= limit <= u32::MAX && (#[trigger] spec_match(
            Scene { lib, segs },
            g,
            idx,
            limit,
            terms,
            fl,
        )).span.end > idx implies begins(raws, kinds, segs[idx]) by {
        let s = Scene { lib, segs };
        assert(fl > 0);
        let elems = g->Sequence_0@;
        let whole = seq_from(s, elems, 0, idx, no_match(idx), idx, limit, terms, (fl - 1) as nat);
        assert(spec_match(s, g, idx, limit, terms, fl) == whole);
        assert(!no_match(idx).has_match());
        assert(fl > 1);
        assert(spec_match(s, elems[0], idx, limit, terms, (fl - 2) as nat).span.end > idx);
    }
}

/// A pair of brackets begins with the first of them.
pub proof fn lemma_hint_brackets(
    lib: Seq<(String, DialectElementType)>,
    g: Grammar,
    raws: Seq<String>,
    kinds: Set<SyntaxKind>,
)
    requires
        g is Bracketed,
        has_text(raws, g->Bracketed_start_bracket@.map_values(|c: char| upper_ascii(c))),
    ensures
        sound_hint(lib, g, raws, kinds),
{
    assert forall|segs: Seq<SegV>, idx: int, limit: int, terms: Seq<usize>, fl: nat|
        0 <= idx <= limit <= u32::MAX && (#[trigger] spec_match(
            Scene { lib, segs },
            g,
            idx,
            limit,
            terms,
            fl,
        )).span.end > idx implies begins(raws, kinds, segs[idx]) by {
        let s = Scene { lib, segs };
        assert(fl > 0);
        let whole = crate::grammar::bracketed(
            s,
            *g->Bracketed_grammar,
            g->Bracketed_start_bracket@,
            g->Bracketed_end_bracket@,
            g->Bracketed_parse_mode,
            idx,
            limit,
            (fl - 1) as nat,
        );
        assert(spec_match(s, g, idx, limit, terms, fl) == whole);
        assert(crate::grammar::reads(segs[idx], g->Bracketed_start_bracket@));
    }
}

/// No texts and no kinds.
fn nothing_said() -> (r: (Vec<String>, SyntaxSet))
    ensures
        hint_view(r) == no_hint(),
        r.0@.len() == 0,
        r.1@ == Set::<SyntaxKind>::empty(),
{
    let r = (Vec::new(), SyntaxSet::empty());
    assert(texts_of(r.0@) =~= Seq::<Seq<char>>::empty());
    r
}

/// A text alone.
fn one_text(text: String) -> (r: Vec<String>)
    ensures
        r@.len() == 1,
        r@[0] == text,
        has_text(r@, text@),
        texts_of(r@) == seq![text@],
{
    let mut raws: Vec<String> = Vec::new();
    raws.push(text);
    assert(raws@[0]@ == text@);
    assert(texts_of(raws@) =~= seq![text@]);
    raws
}

/// The texts, in upper case, and the kinds with which a match of the
/// element can begin, where that can be said in brief: an element of which
/// this is said matches nothing that begins otherwise. The elements below
/// it are looked into `fuel` deep; where that is not deep enough, nothing
/// is said.
pub fn simple(g: &Grammar, dialect: &Dialect, fuel: usize) -> (r: Option<(Vec<String>, SyntaxSet)>)
    ensures
        r matches Some(h) ==> sound_hint(dialect.library@, *g, h.0@, h.1@),
        match r {
            Some(h) => spec_simple(dialect.library@, *g, fuel as nat) == Some(hint_view(h)),
            None => spec_simple(dialect.library@, *g, fuel as nat) is None,
        },
    decreases fuel, 0nat,
{
    if fuel == 0 {
        return None;
    }
    let f = fuel - 1;
    let ghost lib = dialect.library@;
    match g {
        Grammar::Nothing | Grammar::Meta(_) => {
            let h = nothing_said();
            proof {
                lemma_hint_never(lib, *g, h.0@, h.1@);
            }
            Some(h)
        },
        Grammar::StringParser { template, .. } => {
            let h = (one_text(copy_str(template.as_str())), SyntaxSet::empty());
            proof {
                lemma_hint_word(lib, *g, h.0@, h.1@);
            }
            Some(h)
        },
        Grammar::TypedParser { token, .. } => {
            let h = (Vec::new(), SyntaxSet::single(*token));
            assert(texts_of(h.0@) =~= Seq::<Seq<char>>::empty());
            proof {
                lemma_hint_typed(lib, *g, h.0@, h.1@);
            }
            Some(h)
        },
        Grammar::Ref { name, .. } => {
            let at = find_entry(&dialect.library, name.as_str());
            let h = if at < dialect.library.len() {
                match &dialect.library[at].1 {
                    DialectElementType::Matchable(inner) => simple(inner, dialect, f)?,
                    DialectElementType::SegmentGenerator(_) => nothing_said(),
                }
            } else {
                nothing_said()
            };
            proof {
                lemma_hint_ref(lib, *g, h.0@, h.1@);
            }
            Some(h)
        },
        Grammar::Optional(inner) => {
            let h = simple(inner, dialect, f)?;
            proof {
                lemma_hint_inner(lib, *g, **inner, h.0@, h.1@);
            }
            Some(h)
        },
        Grammar::Node { grammar, .. } => {
            let h = simple(grammar, dialect, f)?;
            proof {
                lemma_hint_inner(lib, *g, **grammar, h.0@, h.1@);
            }
            Some(h)
        },
        Grammar::Excluding { grammar, .. } => {
            let h = simple(grammar, dialect, f)?;
            proof {
                lemma_hint_inner(lib, *g, **grammar, h.0@, h.1@);
            }
            Some(h)
        },
        Grammar::Terminated { grammar, .. } => {
            let h = simple(grammar, dialect, f)?;
            proof {
                lemma_hint_inner(lib, *g, **grammar, h.0@, h.1@);
            }
            Some(h)
        },
        Grammar::OneOf(elems) => {
            let h = simple_any(elems, dialect, f)?;
            proof {
                lemma_hint_one_of(lib, *g, h.0@, h.1@);
            }
            Some(h)
        },
        Grammar::Longest(elems) => {
            let h = simple_any(elems, dialect, f)?;
            proof {
                lemma_hint_longest(lib, *g, h.0@, h.1@);
            }
            Some(h)
        },
        Grammar::AnyNumberOf { elements, .. } => {
            let h = simple_any(elements, dialect, f)?;
            proof {
                lemma_hint_repeat(lib, *g, h.0@, h.1@);
            }
            Some(h)
        },
        Grammar::Delimited { element, .. } => {
            let h = simple(element, dialect, f)?;
            proof {
                lemma_hint_list(lib, *g, h.0@, h.1@);
            }
            Some(h)
        },
        Grammar::Sequence(elems) => {
            if elems.len() == 0 {
                return None;
            }
            match &elems[0] {
                Grammar::Meta(_) => None,
                first => {
                    if crate::parser::is_optional(first) {
                        return None;
                    }
                    let h = simple(first, dialect, f)?;
                    proof {
                        lemma_hint_sequence(lib, *g, h.0@, h.1@);
                    }
                    Some(h)
                },
            }
        },
        Grammar::Bracketed { start_bracket, .. } => {
            let h = (one_text(ascii_upper(start_bracket.as_str())), SyntaxSet::empty());
            proof {
                lemma_hint_brackets(lib, *g, h.0@, h.1@);
            }
            Some(h)
        },
    }
}

/// What can be said of how a match of one of the elements begins: what can
/// be said of each, taken together; nothing where nothing can be said of
/// one of them.
pub fn simple_any(elems: &Vec<Grammar>, dialect: &Dialect, f: usize) -> (r: Option<
    (Vec<String>, SyntaxSet),
>)
    ensures
        r matches Some(h) ==> forall|j: int|
            0 <= j < elems@.len() ==> sound_hint(dialect.library@, #[trigger] elems@[j], h.0@, h.1@),
        match r {
            Some(h) => simple_from(dialect.library@, elems@, 0, no_hint(), f as nat) == Some(
                hint_view(h),
            ),
            None => simple_from(dialect.library@, elems@, 0, no_hint(), f as nat) is None,
        },
    decreases f, 1nat,
{
    let ghost lib = dialect.library@;
    let mut acc: (Vec<String>, SyntaxSet) = nothing_said();
    if f == 0 {
        return None;
    }
    let ghost whole = simple_from(lib, elems@, 0, no_hint(), f as nat);
    let mut k: usize = 0;
    while k < elems.len()
        invariant
            k <= elems@.len(),
            f > 0,
            lib == dialect.library@,
            forall|j: int| 0 <= j < k ==> sound_hint(lib, #[trigger] elems@[j], acc.0@, acc.1@),
            whole == simple_from(lib, elems@, 0, no_hint(), f as nat),
            whole == simple_from(lib, elems@, k as int, hint_view(acc), f as nat),
        decreases elems.len() - k,
    {
        let h = match simple(&elems[k], dialect, f - 1) {
            Some(h) => h,
            None => {
                return None;
            },
        };
        let ghost before = acc;
        acc = join(acc, &h);
        proof {
            assert forall|j: int| 0 <= j < k + 1 implies sound_hint(
                lib,
                #[trigger] elems@[j],
                acc.0@,
                acc.1@,
            ) by {
                if j < k {
                    assert(sound_hint(lib, elems@[j], before.0@, before.1@));
                } else {
                    assert(sound_hint(lib, elems@[j], h.0@, h.1@));
                }
            }
        }
        k += 1;
    }
    Some(acc)
}

} // verus!
