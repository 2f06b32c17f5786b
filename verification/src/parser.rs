//! The engine that matches a run of tokens against an element of a
//! grammar.

use std::collections::HashMap;
use vstd::prelude::*;

use crate::dialect::{find_entry, Dialect, DialectElementType, Grammar, ParseMode};
use crate::grammar::{
    all_optional, any_match, bracketed, closing, delimited, delimited_from, first_from,
    indices_of, longest_from, meta_match, no_match, reads, repeat_from, seq_from, skip_gap,
    spec_is_optional, spec_match, unparsable, Scene,
};
use crate::helpers::ascii_upper;
use crate::match_result::{Matched, MatchResult};
use crate::prefilter::{simple, sound_hint, token_begins};
use crate::reindent::copy_numbers;
use crate::segment::{views, ErasedSegment};
use crate::syntax::SyntaxKind;
use crate::text::str_eq;

verus! {

broadcast use vstd::std_specs::hash::group_hash_axioms;

/// What an element of the table has matched before: the place of the
/// element in the table, where and how it was matched, and the match.
#[derive(Debug)]
pub struct CacheEntry {
    pub at: usize,
    pub idx: u32,
    pub limit: u32,
    pub fuel: usize,
    pub terms: Vec<usize>,
    pub result: MatchResult,
}

/// The state of one parse: the dialect, the terminators that hold, by
/// their places in the table of the dialect, and what the elements of the
/// table have matched so far.
pub struct ParseContext<'a> {
    pub dialect: &'a Dialect,
    pub terminators: Vec<usize>,
    pub cache: HashMap<u64, Vec<CacheEntry>>,
}

/// The scene of a dialect and tokens.
pub open spec fn scene(dialect: &Dialect, segments: Seq<ErasedSegment>) -> Scene {
    Scene { lib: dialect.library@, segs: views(segments) }
}

/// Whether the entry holds what its element matches.
pub open spec fn entry_valid(s: Scene, e: CacheEntry) -> bool {
    &&& e.at < s.lib.len()
    &&& s.lib[e.at as int].1 is Matchable
    &&& e.idx <= e.limit <= s.segs.len()
    &&& e.result.span == e.result@.span
    &&& e.result@.span.start == e.idx
    &&& e.idx <= e.result@.span.end <= e.limit
    &&& e.result@ == spec_match(
        s,
        s.lib[e.at as int].1->Matchable_0,
        e.idx as int,
        e.limit as int,
        e.terms@,
        e.fuel as nat,
    )
}

/// Whether each of the entries holds what its element matches.
pub open spec fn entries_valid(s: Scene, entries: Seq<CacheEntry>) -> bool {
    forall|i: int| 0 <= i < entries.len() ==> entry_valid(s, #[trigger] entries[i])
}

/// The key under which the matches of the element at `at` at token `idx`
/// are kept.
pub open spec fn spec_key(at: usize, idx: u32) -> u64 {
    (at * 0x1_0000_0000 + idx) as u64
}

/// Whether the entry is of the element at `at`, matched at token `idx`
/// before `limit`, `fuel` deep, under the terminators.
pub open spec fn entry_for(
    e: CacheEntry,
    at: usize,
    idx: u32,
    limit: u32,
    fuel: usize,
    terms: Seq<usize>,
) -> bool {
    e.at == at && e.idx == idx && e.limit == limit && e.fuel == fuel && e.terms@ == terms
}

impl<'a> ParseContext<'a> {
    /// What is kept under the key: nothing, where the key is not known.
    pub open spec fn bucket(&self, key: u64) -> Seq<CacheEntry> {
        if self.cache@.contains_key(key) {
            self.cache@[key]@
        } else {
            Seq::empty()
        }
    }

    /// Whether the context remembers what the element at `at` matches at
    /// token `idx` before `limit`, `fuel` deep, under the terminators that
    /// hold. Nothing is remembered of an element whose place in the table
    /// is beyond 2^32.
    pub open spec fn remembers(&self, at: usize, idx: u32, limit: u32, fuel: usize) -> bool {
        at <= 0xFFFF_FFFF && exists|i: int|
            0 <= i < self.bucket(spec_key(at, idx)).len() && entry_for(
                #[trigger] self.bucket(spec_key(at, idx))[i],
                at,
                idx,
                limit,
                fuel,
                self.terminators@,
            )
    }

    /// Whether the context is one of a parse of the tokens: all that it
    /// remembers is what the elements match of these tokens.
    pub open spec fn wf(&self, segments: Seq<ErasedSegment>) -> bool {
        forall|k: u64| #[trigger]
            self.cache@.contains_key(k) ==> entries_valid(
                scene(self.dialect, segments),
                self.cache@[k]@,
            )
    }

    /// The context of a new parse, in which nothing is remembered and no
    /// terminators hold.
    pub fn new(dialect: &'a Dialect) -> (r: ParseContext<'a>)
        ensures
            r.dialect == dialect,
            r.terminators@.len() == 0,
            forall|segments: Seq<ErasedSegment>| #[trigger] r.wf(segments),
    {
        ParseContext { dialect, terminators: Vec::new(), cache: HashMap::new() }
    }

    /// What the element at `at` has matched at token `idx` before, under
    /// the terminators that hold now and as deep as now, if that is
    /// remembered.
    fn lookup(&self, at: usize, idx: u32, limit: u32, fuel: usize, Ghost(segments): Ghost<
        Seq<ErasedSegment>,
    >) -> (r: Option<MatchResult>)
        requires
            self.wf(segments),
            at < self.dialect.library@.len(),
            self.dialect.library@[at as int].1 is Matchable,
        ensures
            r is Some <==> self.remembers(at, idx, limit, fuel),
            r matches Some(m) ==> {
                &&& m@ == spec_match(
                    scene(self.dialect, segments),
                    self.dialect.library@[at as int].1->Matchable_0,
                    idx as int,
                    limit as int,
                    self.terminators@,
                    fuel as nat,
                )
                &&& m.span == m@.span
                &&& m@.span.start == idx
                &&& idx <= m@.span.end <= limit
            },
    {
        if at > 0xFFFF_FFFF {
            return None;
        }
        let key: u64 = (at as u64) * 0x1_0000_0000 + (idx as u64);
        assert(key == spec_key(at, idx));
        match self.cache.get(&key) {
            Some(entries) => {
                assert(self.cache@.contains_key(key));
                assert(entries@ == self.bucket(key));
                assert(entries_valid(scene(self.dialect, segments), entries@));
                let mut i: usize = 0;
                while i < entries.len()
                    invariant
                        i <= entries@.len(),
                        at <= 0xFFFF_FFFF,
                        key == spec_key(at, idx),
                        entries@ == self.bucket(key),
                        entries_valid(scene(self.dialect, segments), entries@),
                        forall|j: int|
                            0 <= j < i ==> !entry_for(
                                #[trigger] entries@[j],
                                at,
                                idx,
                                limit,
                                fuel,
                                self.terminators@,
                            ),
                    decreases entries.len() - i,
                {
                    let e = &entries[i];
                    assert(entry_valid(scene(self.dialect, segments), *e));
                    if e.at == at && e.idx == idx && e.limit == limit && e.fuel == fuel
                        && same_numbers(&e.terms, &self.terminators) {
                        let m = e.result.copy();
                        proof {
                            m.lemma_view();
                            e.result.lemma_view();
                        }
                        return Some(m);
                    }
                    i += 1;
                }
                None
            },
            None => None,
        }
    }

    /// Remembers what the element at `at` has matched at token `idx`.
    fn store(
        &mut self,
        at: usize,
        idx: u32,
        limit: u32,
        fuel: usize,
        result: &MatchResult,
        Ghost(segments): Ghost<Seq<ErasedSegment>>,
    )
        requires
            old(self).wf(segments),
            at < old(self).dialect.library@.len(),
            old(self).dialect.library@[at as int].1 is Matchable,
            idx <= limit <= segments.len(),
            result.span == result@.span,
            result@.span.start == idx,
            idx <= result@.span.end <= limit,
            result@ == spec_match(
                scene(old(self).dialect, segments),
                old(self).dialect.library@[at as int].1->Matchable_0,
                idx as int,
                limit as int,
                old(self).terminators@,
                fuel as nat,
            ),
        ensures
            final(self).wf(segments),
            final(self).dialect == old(self).dialect,
            final(self).terminators == old(self).terminators,
            at > 0xFFFF_FFFF ==> final(self).cache@ == old(self).cache@,
            at <= 0xFFFF_FFFF ==> {
                let key = spec_key(at, idx);
                let was = old(self).bucket(key);
                let now = final(self).bucket(key);
                &&& final(self).cache@ == old(self).cache@.insert(key, final(self).cache@[key])
                &&& now.len() == was.len() + 1
                &&& now.subrange(0, was.len() as int) == was
                &&& entry_for(now.last(), at, idx, limit, fuel, old(self).terminators@)
                &&& now.last().result@ == result@
                &&& final(self).remembers(at, idx, limit, fuel)
            },
    {
        if at > 0xFFFF_FFFF {
            return;
        }
        let ghost s = scene(self.dialect, segments);
        let key: u64 = (at as u64) * 0x1_0000_0000 + (idx as u64);
        assert(key == spec_key(at, idx));
        let ghost was = self.bucket(key);
        let ghost cache0 = self.cache@;
        let kept = result.copy();
        proof {
            kept.lemma_view();
            result.lemma_view();
        }
        let entry = CacheEntry {
            at,
            idx,
            limit,
            fuel,
            terms: copy_numbers(&self.terminators),
            result: kept,
        };
        assert(entry_valid(s, entry));
        let mut entries: Vec<CacheEntry> = match self.cache.remove(&key) {
            Some(entries) => entries,
            None => Vec::new(),
        };
        assert(entries_valid(s, entries@));
        let ghost before = entries@;
        entries.push(entry);
        assert(entries_valid(s, entries@)) by {
            assert forall|i: int| 0 <= i < entries@.len() implies entry_valid(
                s,
                #[trigger] entries@[i],
            ) by {
                if i < before.len() {
                    assert(entries@[i] == before[i]);
                }
            }
        }
        let ghost now = entries@;
        self.cache.insert(key, entries);
        proof {
            assert(before == was);
            assert(self.cache@ =~= cache0.insert(key, self.cache@[key]));
            assert(self.bucket(key) == now);
            assert(now.subrange(0, was.len() as int) =~= was);
            assert(entry_for(self.bucket(key)[was.len() as int], at, idx, limit, fuel, self.terminators@));
        }
    }
}

/// Whether the two hold the same numbers in the same order.
pub fn same_numbers(a: &Vec<usize>, b: &Vec<usize>) -> (r: bool)
    ensures
        r == (a@ == b@),
{
    if a.len() != b.len() {
        return false;
    }
    let mut i: usize = 0;
    while i < a.len()
        invariant
            i <= a@.len(),
            a@.len() == b@.len(),
            forall|j: int| 0 <= j < i ==> a@[j] == b@[j],
        decreases a.len() - i,
    {
        if a[i] != b[i] {
            return false;
        }
        i += 1;
    }
    assert(a@ =~= b@);
    true
}

/// Whether a context is, after a match, what it was before it, but for
/// what it remembers.
pub open spec fn kept(before: &ParseContext, after: &ParseContext, segments: Seq<ErasedSegment>) -> bool {
    after.wf(segments) && after.dialect == before.dialect && after.terminators@
        == before.terminators@
}

/// Whether a sequence may go without the element.
pub fn is_optional(g: &Grammar) -> (r: bool)
    ensures
        r == spec_is_optional(*g),
{
    match g {
        Grammar::Optional(_) => true,
        Grammar::Ref { optional, .. } => *optional,
        _ => false,
    }
}

/// The first token from `idx` on, and before `limit`, that is code; or
/// `limit`.
pub fn skip_non_code(segments: &[ErasedSegment], idx: u32, limit: u32) -> (r: u32)
    requires
        idx <= limit <= segments@.len(),
    ensures
        r == skip_gap(views(segments@), idx as int, limit as int),
        idx <= r <= limit,
{
    let mut i = idx;
    while i < limit && !segments[i as usize].is_code()
        invariant
            idx <= i <= limit <= segments@.len(),
            skip_gap(views(segments@), idx as int, limit as int) == skip_gap(
                views(segments@),
                i as int,
                limit as int,
            ),
        decreases limit - i,
    {
        assert(views(segments@)[i as int] == segments@[i as int]@);
        i += 1;
    }
    proof {
        if i < limit {
            assert(views(segments@)[i as int] == segments@[i as int]@);
        }
    }
    i
}

/// The match of the one token at `idx`, as a token of the kind.
fn one_token(idx: u32, kind: SyntaxKind) -> (r: MatchResult)
    requires
        idx < u32::MAX,
    ensures
        r@ == crate::grammar::token_match(idx as int, kind),
        r.span == r@.span,
{
    let r = MatchResult::from_span(idx, idx + 1).wrap(Matched::SyntaxKind(kind));
    proof {
        r.lemma_view();
    }
    r
}

/// No match at token `idx`.
fn nothing(idx: u32) -> (r: MatchResult)
    ensures
        r@ == no_match(idx as int),
        r.span == r@.span,
{
    let r = MatchResult::empty_at(idx);
    proof {
        r.lemma_view();
    }
    r
}

/// How much of the stack is to be free before an element of the table is
/// matched.
pub const RED_ZONE: usize = 100 * 1024;

/// By how much the stack grows where less is free.
pub const STACK_PER_RECURSION: usize = 1024 * 1024;

/// `stacker::maybe_grow` with what matches the element: the match is made
/// on a stack of which `red_zone` bytes are free, a new one of `stack_size`
/// bytes where the stack at hand has less. Believed of it: that it hands
/// back what the match gives, and changes nothing else.
#[verifier::external_body]
fn match_deep<'a>(
    red_zone: usize,
    stack_size: usize,
    g: &'a Grammar,
    segments: &[ErasedSegment],
    idx: u32,
    limit: u32,
    ctx: &mut ParseContext<'a>,
    fuel: usize,
) -> (r: MatchResult)
    requires
        idx <= limit <= segments@.len(),
        segments@.len() <= u32::MAX,
        old(ctx).wf(segments@),
    ensures
        r@ == spec_match(
            scene(old(ctx).dialect, segments@),
            *g,
            idx as int,
            limit as int,
            old(ctx).terminators@,
            fuel as nat,
        ),
        r.span == r@.span,
        r@.span.start == idx,
        idx <= r@.span.end <= limit,
        kept(old(ctx), final(ctx), segments@),
{
    stacker::maybe_grow(red_zone, stack_size, || match_grammar(g, segments, idx, limit, ctx, fuel))
}

/// What the element matches of the tokens from token `idx` on and before
/// token `limit`, under the terminators that hold in the context, looked
/// into `fuel` deep. What an element of the table matches is remembered in
/// the context, and is not matched a second time.
pub fn match_grammar<'a>(
    g: &'a Grammar,
    segments: &[ErasedSegment],
    idx: u32,
    limit: u32,
    ctx: &mut ParseContext<'a>,
    fuel: usize,
) -> (r: MatchResult)
    requires
        idx <= limit <= segments@.len(),
        segments@.len() <= u32::MAX,
        old(ctx).wf(segments@),
    ensures
        r@ == spec_match(
            scene(old(ctx).dialect, segments@),
            *g,
            idx as int,
            limit as int,
            old(ctx).terminators@,
            fuel as nat,
        ),
        r.span == r@.span,
        r@.span.start == idx,
        idx <= r@.span.end <= limit,
        kept(old(ctx), final(ctx), segments@),
    decreases fuel, 0nat,
{
    if fuel == 0 {
        return nothing(idx);
    }
    let f = fuel - 1;
    let d: &'a Dialect = ctx.dialect;
    match g {
        Grammar::Nothing => nothing(idx),
        Grammar::Meta(_) => nothing(idx),
        Grammar::StringParser { template, kind } => {
            if idx < limit {
                let segment = &segments[idx as usize];
                assert(views(segments@)[idx as int] == segment@);
                if segment.is_code() {
                    let upper = ascii_upper(segment.raw().as_str());
                    if str_eq(upper.as_str(), template.as_str()) {
                        return one_token(idx, *kind);
                    }
                }
            }
            nothing(idx)
        },
        Grammar::TypedParser { token, kind } => {
            if idx < limit {
                let segment = &segments[idx as usize];
                assert(views(segments@)[idx as int] == segment@);
                if segment.is_type(*token) {
                    return one_token(idx, *kind);
                }
            }
            nothing(idx)
        },
        Grammar::Ref { name, .. } => {
            let at = find_entry(&d.library, name.as_str());
            if at < d.library.len() {
                match &d.library[at].1 {
                    DialectElementType::Matchable(inner) => {
                        match ctx.lookup(at, idx, limit, f, Ghost(segments@)) {
                            Some(m) => m,
                            None => {
                                let m = match_deep(
                                    RED_ZONE,
                                    STACK_PER_RECURSION,
                                    inner,
                                    segments,
                                    idx,
                                    limit,
                                    ctx,
                                    f,
                                );
                                ctx.store(at, idx, limit, f, &m, Ghost(segments@));
                                m
                            },
                        }
                    },
                    DialectElementType::SegmentGenerator(_) => nothing(idx),
                }
            } else {
                nothing(idx)
            }
        },
        Grammar::Optional(inner) => match_grammar(inner, segments, idx, limit, ctx, f),
        Grammar::Node { kind, grammar } => {
            let m = match_grammar(grammar, segments, idx, limit, ctx, f);
            let r = m.wrap(Matched::SyntaxKind(*kind));
            proof {
                r.lemma_view();
            }
            r
        },
        Grammar::Excluding { grammar, exclude } => {
            let x = match_grammar(exclude, segments, idx, limit, ctx, f);
            if x.span.end > idx {
                nothing(idx)
            } else {
                match_grammar(grammar, segments, idx, limit, ctx, f)
            }
        },
        Grammar::Terminated { grammar, terminators } => {
            let ghost t = ctx.terminators@;
            let ghost added = indices_of(d.library@, terminators@);
            let base = ctx.terminators.len();
            let mut j: usize = 0;
            while j < terminators.len()
                invariant
                    j <= terminators@.len(),
                    ctx.wf(segments@),
                    ctx.dialect == d,
                    added == indices_of(d.library@, terminators@),
                    ctx.terminators@ == t + added.subrange(0, j as int),
                decreases terminators.len() - j,
            {
                let at = find_entry(&d.library, terminators[j].as_str());
                ctx.terminators.push(at);
                assert(ctx.terminators@ =~= t + added.subrange(0, j + 1));
                j += 1;
            }
            assert(added.subrange(0, j as int) =~= added);
            let m = match_grammar(grammar, segments, idx, limit, ctx, f);
            ctx.terminators.truncate(base);
            assert(ctx.terminators@ =~= t);
            m
        },
        Grammar::OneOf(elems) => match_first(elems, segments, idx, limit, ctx, f),
        Grammar::Longest(elems) => match_longest(elems, segments, idx, limit, ctx, f),
        Grammar::Sequence(elems) => match_sequence(elems, segments, idx, limit, ctx, f),
        Grammar::AnyNumberOf { elements, min_times, max_times } => match_repeat(
            elements,
            *min_times,
            *max_times,
            segments,
            idx,
            limit,
            ctx,
            f,
        ),
        Grammar::Delimited { element, delimiter, allow_trailing } => match_delimited(
            element,
            delimiter,
            *allow_trailing,
            segments,
            idx,
            limit,
            ctx,
            f,
        ),
        Grammar::Bracketed { grammar, start_bracket, end_bracket, parse_mode } => match_bracketed(
            grammar,
            start_bracket.as_str(),
            end_bracket.as_str(),
            *parse_mode,
            segments,
            idx,
            limit,
            ctx,
            f,
        ),
    }
}

/// How deep an element is looked into for what its matches begin with.
pub const HINT_DEPTH: usize = 8;

/// What the first of the elements that matches anything at token `idx`
/// matches there. An element of which it can be said in brief that no
/// match of it begins with the token at `idx` is not tried.
pub fn match_first<'a>(
    elems: &'a Vec<Grammar>,
    segments: &[ErasedSegment],
    idx: u32,
    limit: u32,
    ctx: &mut ParseContext<'a>,
    f: usize,
) -> (r: MatchResult)
    requires
        idx <= limit <= segments@.len(),
        segments@.len() <= u32::MAX,
        old(ctx).wf(segments@),
    ensures
        r@ == first_from(
            scene(old(ctx).dialect, segments@),
            elems@,
            0,
            idx as int,
            limit as int,
            old(ctx).terminators@,
            f as nat,
        ),
        r.span == r@.span,
        r@.span.start == idx,
        idx <= r@.span.end <= limit,
        kept(old(ctx), final(ctx), segments@),
    decreases f, 1nat,
{
    if f == 0 {
        return nothing(idx);
    }
    let d: &'a Dialect = ctx.dialect;
    let ghost s = scene(ctx.dialect, segments@);
    let ghost t = ctx.terminators@;
    let mut k: usize = 0;
    while k < elems.len()
        invariant
            k <= elems@.len(),
            f > 0,
            idx <= limit <= segments@.len(),
            segments@.len() <= u32::MAX,
            d == old(ctx).dialect,
            s == scene(old(ctx).dialect, segments@),
            t == old(ctx).terminators@,
            kept(old(ctx), ctx, segments@),
            first_from(s, elems@, 0, idx as int, limit as int, t, f as nat) == first_from(
                s,
                elems@,
                k as int,
                idx as int,
                limit as int,
                t,
                f as nat,
            ),
        decreases elems.len() - k,
    {
        let depth = if f - 1 < HINT_DEPTH {
            f - 1
        } else {
            HINT_DEPTH
        };
        let ruled_out = if idx < limit {
            match simple(&elems[k], d, depth) {
                Some(hint) => {
                    assert(s.segs[idx as int] == segments@[idx as int]@);
                    assert(sound_hint(d.library@, elems@[k as int], hint.0@, hint.1@));
                    !token_begins(&hint, &segments[idx as usize])
                },
                None => false,
            }
        } else {
            false
        };
        if ruled_out {
            assert(spec_match(
                s,
                elems@[k as int],
                idx as int,
                limit as int,
                t,
                (f - 1) as nat,
            ).span.end <= idx);
        } else {
            let m = match_grammar(&elems[k], segments, idx, limit, ctx, f - 1);
            if m.span.end > idx {
                return m;
            }
        }
        k += 1;
    }
    nothing(idx)
}

/// The longest of what the elements match at token `idx`.
pub fn match_longest<'a>(
    elems: &'a Vec<Grammar>,
    segments: &[ErasedSegment],
    idx: u32,
    limit: u32,
    ctx: &mut ParseContext<'a>,
    f: usize,
) -> (r: MatchResult)
    requires
        idx <= limit <= segments@.len(),
        segments@.len() <= u32::MAX,
        old(ctx).wf(segments@),
    ensures
        r@ == longest_from(
            scene(old(ctx).dialect, segments@),
            elems@,
            0,
            no_match(idx as int),
            idx as int,
            limit as int,
            old(ctx).terminators@,
            f as nat,
        ),
        r.span == r@.span,
        r@.span.start == idx,
        idx <= r@.span.end <= limit,
        kept(old(ctx), final(ctx), segments@),
    decreases f, 1nat,
{
    let mut best = nothing(idx);
    if f == 0 {
        return best;
    }
    let ghost s = scene(ctx.dialect, segments@);
    let ghost t = ctx.terminators@;
    let mut k: usize = 0;
    while k < elems.len()
        invariant
            k <= elems@.len(),
            f > 0,
            idx <= limit <= segments@.len(),
            segments@.len() <= u32::MAX,
            s == scene(old(ctx).dialect, segments@),
            t == old(ctx).terminators@,
            kept(old(ctx), ctx, segments@),
            best@.span.start == idx,
            idx <= best@.span.end <= limit,
            best.span == best@.span,
            longest_from(
                s,
                elems@,
                0,
                no_match(idx as int),
                idx as int,
                limit as int,
                t,
                f as nat,
            ) == longest_from(s, elems@, k as int, best@, idx as int, limit as int, t, f as nat),
        decreases elems.len() - k,
    {
        let m = match_grammar(&elems[k], segments, idx, limit, ctx, f - 1);
        if m.is_better_than(&best) {
            best = m;
        }
        k += 1;
    }
    best
}

/// Whether one of the terminators that hold matches at token `idx`.
pub fn terminated<'a>(
    segments: &[ErasedSegment],
    idx: u32,
    limit: u32,
    ctx: &mut ParseContext<'a>,
    f: usize,
) -> (r: bool)
    requires
        idx <= limit <= segments@.len(),
        segments@.len() <= u32::MAX,
        old(ctx).wf(segments@),
    ensures
        r == any_match(
            scene(old(ctx).dialect, segments@),
            old(ctx).terminators@,
            0,
            idx as int,
            limit as int,
            f as nat,
        ),
        kept(old(ctx), final(ctx), segments@),
    decreases f, 1nat,
{
    if f == 0 || ctx.terminators.len() == 0 {
        return false;
    }
    let d: &'a Dialect = ctx.dialect;
    let ghost s = scene(d, segments@);
    let ghost t = ctx.terminators@;
    let terms = copy_numbers(&ctx.terminators);
    ctx.terminators = Vec::new();
    let mut found = false;
    let mut k: usize = 0;
    while k < terms.len() && !found
        invariant
            k <= terms@.len(),
            f > 0,
            idx <= limit <= segments@.len(),
            segments@.len() <= u32::MAX,
            s == scene(d, segments@),
            t == terms@,
            ctx.wf(segments@),
            ctx.dialect == d,
            ctx.terminators@ == Seq::<usize>::empty(),
            !found ==> any_match(s, t, 0, idx as int, limit as int, f as nat) == any_match(
                s,
                t,
                k as int,
                idx as int,
                limit as int,
                f as nat,
            ),
            found ==> any_match(s, t, 0, idx as int, limit as int, f as nat),
        decreases terms.len() - k, (if found { 0int } else { 1int }),
    {
        let at = terms[k];
        let mut here = false;
        if at < d.library.len() {
            match &d.library[at].1 {
                DialectElementType::Matchable(g) => {
                    let m = match_grammar(g, segments, idx, limit, ctx, f - 1);
                    here = m.span.end > idx;
                },
                DialectElementType::SegmentGenerator(_) => {},
            }
        }
        if here {
            found = true;
        } else {
            k += 1;
        }
    }
    ctx.terminators = terms;
    found
}

/// Whether a sequence may go without each of the elements from `k` on.
fn rest_optional(elems: &Vec<Grammar>, k: usize) -> (r: bool)
    requires
        k <= elems@.len(),
    ensures
        r == all_optional(elems@, k as int),
{
    let mut j = k;
    while j < elems.len()
        invariant
            k <= j <= elems@.len(),
            forall|i: int|
                k <= i < j ==> spec_is_optional(#[trigger] elems@[i]) || elems@[i] is Meta,
        decreases elems.len() - j,
    {
        let skip = match &elems[j] {
            Grammar::Meta(_) => true,
            other => is_optional(other),
        };
        if !skip {
            return false;
        }
        j += 1;
    }
    true
}

/// The marker of the kind, put in at token `pos`.
fn meta_at(pos: u32, kind: SyntaxKind) -> (r: MatchResult)
    ensures
        r@ == meta_match(pos as int, kind),
        r.span == r@.span,
{
    let mut meta = MatchResult::from_span(pos, pos);
    meta.insert_segments.push((pos, kind));
    proof {
        meta.lemma_view();
        assert(meta@.insert_segments =~= seq![(pos, kind)]);
    }
    meta
}

/// What the sequence of the elements matches from token `idx` on.
pub fn match_sequence<'a>(
    elems: &'a Vec<Grammar>,
    segments: &[ErasedSegment],
    idx: u32,
    limit: u32,
    ctx: &mut ParseContext<'a>,
    f: usize,
) -> (r: MatchResult)
    requires
        idx <= limit <= segments@.len(),
        segments@.len() <= u32::MAX,
        old(ctx).wf(segments@),
    ensures
        r@ == seq_from(
            scene(old(ctx).dialect, segments@),
            elems@,
            0,
            idx as int,
            no_match(idx as int),
            idx as int,
            limit as int,
            old(ctx).terminators@,
            f as nat,
        ),
        r.span == r@.span,
        r@.span.start == idx,
        idx <= r@.span.end <= limit,
        kept(old(ctx), final(ctx), segments@),
    decreases f, 1nat,
{
    if f == 0 {
        return nothing(idx);
    }
    let ghost s = scene(ctx.dialect, segments@);
    let ghost t = ctx.terminators@;
    let ghost whole = seq_from(
        s,
        elems@,
        0,
        idx as int,
        no_match(idx as int),
        idx as int,
        limit as int,
        t,
        f as nat,
    );
    let mut acc = nothing(idx);
    let mut p: u32 = idx;
    let mut k: usize = 0;
    while k < elems.len()
        invariant
            k <= elems@.len(),
            f > 0,
            idx <= p <= limit <= segments@.len(),
            segments@.len() <= u32::MAX,
            s == scene(old(ctx).dialect, segments@),
            t == old(ctx).terminators@,
            kept(old(ctx), ctx, segments@),
            acc@.span.start == idx,
            acc@.span.end == p,
            acc.span == acc@.span,
            whole == seq_from(
                s,
                elems@,
                0,
                idx as int,
                no_match(idx as int),
                idx as int,
                limit as int,
                t,
                f as nat,
            ),
            whole == seq_from(
                s,
                elems@,
                k as int,
                p as int,
                acc@,
                idx as int,
                limit as int,
                t,
                f as nat,
            ),
        decreases elems.len() - k,
    {
        match &elems[k] {
            Grammar::Meta(kind) => {
                acc = acc.append(meta_at(p, *kind));
                proof {
                    acc.lemma_view();
                }
            },
            element => {
                let q = if acc.has_match() {
                    skip_non_code(segments, p, limit)
                } else {
                    p
                };
                assert(!(elems@[k as int] is Meta));
                if terminated(segments, q, limit, ctx, f - 1) {
                    let open_end = rest_optional(elems, k);
                    if open_end && acc.span.end > idx {
                        return acc;
                    }
                    return nothing(idx);
                }
                let m = match_grammar(element, segments, q, limit, ctx, f - 1);
                if m.span.end > q {
                    p = m.span.end;
                    acc = acc.append(m);
                    proof {
                        acc.lemma_view();
                    }
                } else if !is_optional(element) {
                    return nothing(idx);
                }
            },
        }
        k += 1;
    }
    if acc.span.end > idx {
        acc
    } else {
        nothing(idx)
    }
}

/// What the repetition of the elements matches from token `idx` on.
pub fn match_repeat<'a>(
    elems: &'a Vec<Grammar>,
    min_times: usize,
    max_times: Option<usize>,
    segments: &[ErasedSegment],
    idx: u32,
    limit: u32,
    ctx: &mut ParseContext<'a>,
    f: usize,
) -> (r: MatchResult)
    requires
        idx <= limit <= segments@.len(),
        segments@.len() <= u32::MAX,
        old(ctx).wf(segments@),
    ensures
        r@ == repeat_from(
            scene(old(ctx).dialect, segments@),
            elems@,
            min_times as int,
            max_times,
            0,
            idx as int,
            no_match(idx as int),
            idx as int,
            limit as int,
            old(ctx).terminators@,
            f as nat,
        ),
        r.span == r@.span,
        r@.span.start == idx,
        idx <= r@.span.end <= limit,
        kept(old(ctx), final(ctx), segments@),
    decreases f, 1nat,
{
    if f == 0 {
        return nothing(idx);
    }
    let ghost s = scene(ctx.dialect, segments@);
    let ghost t = ctx.terminators@;
    let ghost whole = repeat_from(
        s,
        elems@,
        min_times as int,
        max_times,
        0,
        idx as int,
        no_match(idx as int),
        idx as int,
        limit as int,
        t,
        f as nat,
    );
    let mut acc = nothing(idx);
    let mut p: u32 = idx;
    let mut count: usize = 0;
    let mut going = true;
    while going
        invariant
            f > 0,
            idx <= p <= limit <= segments@.len(),
            segments@.len() <= u32::MAX,
            count <= p - idx,
            s == scene(old(ctx).dialect, segments@),
            t == old(ctx).terminators@,
            kept(old(ctx), ctx, segments@),
            acc@.span.start == idx,
            acc@.span.end == p,
            acc.span == acc@.span,
            going ==> whole == repeat_from(
                s,
                elems@,
                min_times as int,
                max_times,
                count as int,
                p as int,
                acc@,
                idx as int,
                limit as int,
                t,
                f as nat,
            ),
            !going ==> whole == (if count >= min_times && acc@.span.end > idx {
                acc@
            } else {
                no_match(idx as int)
            }),
        decreases limit - p, (if going { 1int } else { 0int }),
    {
        let capped = match max_times {
            Some(mx) => count >= mx,
            None => false,
        };
        let q = if acc.has_match() {
            skip_non_code(segments, p, limit)
        } else {
            p
        };
        if capped || q >= limit {
            going = false;
        } else if terminated(segments, q, limit, ctx, f - 1) {
            going = false;
        } else {
            let m = match_first(elems, segments, q, limit, ctx, f - 1);
            if m.span.end <= q {
                going = false;
            } else {
                p = m.span.end;
                acc = acc.append(m);
                count += 1;
                proof {
                    acc.lemma_view();
                }
            }
        }
    }
    if count >= min_times && acc.span.end > idx {
        acc
    } else {
        nothing(idx)
    }
}

/// The list of the element and the delimiter from token `idx` on.
pub fn match_delimited<'a>(
    element: &'a Grammar,
    delimiter: &'a Grammar,
    allow_trailing: bool,
    segments: &[ErasedSegment],
    idx: u32,
    limit: u32,
    ctx: &mut ParseContext<'a>,
    f: usize,
) -> (r: MatchResult)
    requires
        idx <= limit <= segments@.len(),
        segments@.len() <= u32::MAX,
        old(ctx).wf(segments@),
    ensures
        r@ == delimited(
            scene(old(ctx).dialect, segments@),
            *element,
            *delimiter,
            allow_trailing,
            idx as int,
            limit as int,
            old(ctx).terminators@,
            f as nat,
        ),
        r.span == r@.span,
        r@.span.start == idx,
        idx <= r@.span.end <= limit,
        kept(old(ctx), final(ctx), segments@),
    decreases f, 1nat,
{
    if f == 0 {
        return nothing(idx);
    }
    let ghost s = scene(ctx.dialect, segments@);
    let ghost t = ctx.terminators@;
    let first = match_grammar(element, segments, idx, limit, ctx, f - 1);
    if first.span.end <= idx {
        return nothing(idx);
    }
    let ghost whole = delimited(
        s,
        *element,
        *delimiter,
        allow_trailing,
        idx as int,
        limit as int,
        t,
        f as nat,
    );
    let mut p: u32 = first.span.end;
    let mut acc = first;
    let mut going = true;
    while going
        invariant
            f > 0,
            idx < p <= limit <= segments@.len(),
            segments@.len() <= u32::MAX,
            s == scene(old(ctx).dialect, segments@),
            t == old(ctx).terminators@,
            kept(old(ctx), ctx, segments@),
            acc@.span.start == idx,
            acc@.span.end == p,
            acc.span == acc@.span,
            going ==> whole == delimited_from(
                s,
                *element,
                *delimiter,
                allow_trailing,
                p as int,
                acc@,
                limit as int,
                t,
                f as nat,
            ),
            !going ==> whole == acc@,
        decreases limit - p, (if going { 1int } else { 0int }),
    {
        let q = skip_non_code(segments, p, limit);
        if q >= limit {
            going = false;
        } else if terminated(segments, q, limit, ctx, f - 1) {
            going = false;
        } else {
            let d = match_grammar(delimiter, segments, q, limit, ctx, f - 1);
            if d.span.end <= q {
                going = false;
            } else {
                let q2 = skip_non_code(segments, d.span.end, limit);
                let e = match_grammar(element, segments, q2, limit, ctx, f - 1);
                if e.span.end > q2 {
                    p = e.span.end;
                    acc = acc.append(d);
                    proof {
                        acc.lemma_view();
                    }
                    acc = acc.append(e);
                    proof {
                        acc.lemma_view();
                    }
                } else {
                    if allow_trailing {
                        p = d.span.end;
                        acc = acc.append(d);
                        proof {
                            acc.lemma_view();
                        }
                    }
                    going = false;
                }
            }
        }
    }
    acc
}

/// Whether the token is code and reads as the text does.
fn token_reads(segment: &ErasedSegment, text: &str) -> (r: bool)
    ensures
        r == reads(segment@, text@),
{
    segment.is_code() && str_eq(segment.raw().as_str(), text)
}

/// The index of the bracket that closes the stretch that begins at token
/// `from`, or `limit`.
fn find_closing(
    segments: &[ErasedSegment],
    start_bracket: &str,
    end_bracket: &str,
    from: u32,
    limit: u32,
) -> (r: u32)
    requires
        from <= limit <= segments@.len(),
    ensures
        r == closing(views(segments@), start_bracket@, end_bracket@, from as int, limit as int, 0),
        from <= r <= limit,
{
    let ghost segs = views(segments@);
    let mut i = from;
    let mut depth: u32 = 0;
    while i < limit
        invariant
            from <= i <= limit <= segments@.len(),
            depth <= i - from,
            segs == views(segments@),
            closing(segs, start_bracket@, end_bracket@, from as int, limit as int, 0) == closing(
                segs,
                start_bracket@,
                end_bracket@,
                i as int,
                limit as int,
                depth as nat,
            ),
        decreases limit - i,
    {
        let segment = &segments[i as usize];
        assert(segs[i as int] == segment@);
        if token_reads(segment, end_bracket) {
            if depth == 0 {
                return i;
            }
            depth -= 1;
        } else if token_reads(segment, start_bracket) {
            depth += 1;
        }
        i += 1;
    }
    limit
}

/// The pair of brackets with the element between them, from token `idx`
/// on.
pub fn match_bracketed<'a>(
    inner: &'a Grammar,
    start_bracket: &str,
    end_bracket: &str,
    mode: ParseMode,
    segments: &[ErasedSegment],
    idx: u32,
    limit: u32,
    ctx: &mut ParseContext<'a>,
    f: usize,
) -> (r: MatchResult)
    requires
        idx <= limit <= segments@.len(),
        segments@.len() <= u32::MAX,
        old(ctx).wf(segments@),
    ensures
        r@ == bracketed(
            scene(old(ctx).dialect, segments@),
            *inner,
            start_bracket@,
            end_bracket@,
            mode,
            idx as int,
            limit as int,
            f as nat,
        ),
        r.span == r@.span,
        r@.span.start == idx,
        idx <= r@.span.end <= limit,
        kept(old(ctx), final(ctx), segments@),
    decreases f, 1nat,
{
    if f == 0 || idx >= limit {
        return nothing(idx);
    }
    let ghost s = scene(ctx.dialect, segments@);
    assert(s.segs[idx as int] == segments@[idx as int]@);
    if !token_reads(&segments[idx as usize], start_bracket) {
        return nothing(idx);
    }
    let close = find_closing(segments, start_bracket, end_bracket, idx + 1, limit);
    if close >= limit {
        return nothing(idx);
    }
    let q = skip_non_code(segments, idx + 1, close);
    let saved = copy_numbers(&ctx.terminators);
    ctx.terminators = Vec::new();
    let m = match_grammar(inner, segments, q, close, ctx, f - 1);
    ctx.terminators = saved;
    let found = m.span.end > q;
    let e = if found {
        m.span.end
    } else {
        q
    };
    let rest = skip_non_code(segments, e, close);
    let greedy = match mode {
        ParseMode::Strict => false,
        ParseMode::Greedy => true,
        ParseMode::GreedyOnceStarted => found,
    };
    let content = if rest >= close {
        if found {
            m
        } else if is_optional(inner) {
            nothing(q)
        } else {
            return nothing(idx);
        }
    } else if greedy {
        let left = MatchResult::from_span(rest, close).wrap(
            Matched::SyntaxKind(SyntaxKind::Unparsable),
        );
        proof {
            left.lemma_view();
            assert(left@ == unparsable(rest as int, close as int));
        }
        if found {
            m.append(left)
        } else {
            left
        }
    } else {
        return nothing(idx);
    };
    proof {
        content.lemma_view();
    }
    let a0 = MatchResult::from_span(idx, idx + 1);
    proof {
        a0.lemma_view();
        assert(a0@ == no_match(idx + 1).span_from(idx as int));
    }
    let a1 = a0.append(meta_at(idx + 1, SyntaxKind::Indent));
    proof {
        a1.lemma_view();
    }
    let a2 = a1.append(content);
    proof {
        a2.lemma_view();
    }
    let a3 = a2.append(meta_at(close, SyntaxKind::Dedent));
    proof {
        a3.lemma_view();
    }
    let last = MatchResult::from_span(close, close + 1);
    proof {
        last.lemma_view();
        assert(last@ == no_match(close + 1).span_from(close as int));
    }
    let a4 = a3.append(last);
    proof {
        a4.lemma_view();
    }
    let r = a4.wrap(Matched::BracketedSegment { start_bracket: idx, end_bracket: close });
    proof {
        r.lemma_view();
    }
    r
}

} // verus!
