//! What every grammar element has in common: a key under which its
//! matches are remembered.

use vstd::prelude::*;

use crate::match_result::{MatchResult, MatchV, Span};
use crate::segment::{views, ErasedSegment, SegV};
use crate::syntax::SyntaxKind;

verus! {

/// The key under which the matches of a grammar element are remembered.
pub type MatchableCacheKey = u32;

/// The key of the matcher of what is not code, of which there is but one.
/// No other grammar element is given it.
pub const NON_CODE_CACHE_KEY: MatchableCacheKey = 0;

/// Hands out the cache keys: each is one more than the last, from 1 on.
#[derive(Debug)]
pub struct CacheKeys {
    pub next: MatchableCacheKey,
}

impl CacheKeys {
    pub fn new() -> (r: CacheKeys)
        ensures
            r.next == 1,
    {
        CacheKeys { next: 1 }
    }
}

/// The next cache key: one that no earlier call on `keys` has given, and
/// never the key of the matcher of what is not code.
pub fn next_matchable_cache_key(keys: &mut CacheKeys) -> (r: MatchableCacheKey)
    requires
        1 <= old(keys).next < u32::MAX,
    ensures
        r == old(keys).next,
        r != NON_CODE_CACHE_KEY,
        final(keys).next == old(keys).next + 1,
{
    let id = keys.next;
    keys.next = id + 1;
    id
}

/// How many of the segments from `idx` on are not code, before the first
/// that is.
pub open spec fn non_code_run(segs: Seq<SegV>, idx: int) -> int
    decreases segs.len() - idx,
{
    if idx < 0 || idx >= segs.len() || segs[idx].is_code() {
        0
    } else {
        1 + non_code_run(segs, idx + 1)
    }
}

/// What every grammar element does: it says what it matches of a run of
/// tokens from a token on.
pub trait Matchable {
    /// What the element matches of the tokens from token `idx` on.
    spec fn spec_match(&self, segs: Seq<SegV>, idx: int) -> MatchV;

    spec fn spec_optional(&self) -> bool;

    spec fn spec_cache_key(&self) -> MatchableCacheKey;

    /// Whether the element may be left out where it stands.
    fn is_optional(&self) -> (r: bool)
        ensures
            r == self.spec_optional(),
    ;

    /// The texts, in upper case, and the kinds with which what the element
    /// matches can begin, where that can be said in brief: an element that
    /// says so matches nothing that begins otherwise.
    fn simple(&self) -> (r: Option<(Vec<String>, crate::syntax::SyntaxSet)>)
        ensures
            r matches Some((raws, kinds)) ==> forall|segs: Seq<SegV>, idx: int|
                0 <= idx < segs.len() && (#[trigger] self.spec_match(segs, idx)).has_match()
                    ==> crate::dialect::has_text(
                    raws@,
                    segs[idx].raw().map_values(|c: char| crate::helpers::upper_ascii(c)),
                ) || kinds@.contains(segs[idx].kind),
    ;

    /// What the element matches of the tokens from token `idx` on: a match
    /// that begins at that token and ends within the tokens.
    fn match_segments(&self, segments: &[ErasedSegment], idx: u32) -> (r: MatchResult)
        requires
            idx <= segments@.len() <= u32::MAX,
        ensures
            r@ == self.spec_match(views(segments@), idx as int),
            r@.span.start == idx,
            idx <= r@.span.end <= segments@.len(),
    ;

    /// The key under which the matches of the element are remembered.
    fn cache_key(&self) -> (r: MatchableCacheKey)
        ensures
            r == self.spec_cache_key(),
    ;
}

/// The matcher of what is not code: white space, comments and markers
/// without text.
#[derive(Debug, Clone, Copy, PartialEq, Eq, Structural)]
pub struct NonCodeMatcher;

impl Matchable for NonCodeMatcher {
    open spec fn spec_match(&self, segs: Seq<SegV>, idx: int) -> MatchV {
        MatchV {
            span: Span { start: idx as u32, end: (idx + non_code_run(segs, idx)) as u32 },
            matched: None,
            insert_segments: Seq::empty(),
            child_matches: Seq::empty(),
        }
    }

    open spec fn spec_optional(&self) -> bool {
        false
    }

    open spec fn spec_cache_key(&self) -> MatchableCacheKey {
        NON_CODE_CACHE_KEY
    }

    fn is_optional(&self) -> (r: bool) {
        false
    }

    fn simple(&self) -> (r: Option<(Vec<String>, crate::syntax::SyntaxSet)>) {
        None
    }

    fn match_segments(&self, segments: &[ErasedSegment], idx: u32) -> (r: MatchResult) {
        let mut end: u32 = idx;
        let n = segments.len();
        while (end as usize) < n && !segments[end as usize].is_code()
            invariant
                idx <= end <= n,
                n == segments@.len(),
                n <= u32::MAX,
                non_code_run(views(segments@), idx as int) == (end - idx) + non_code_run(
                    views(segments@),
                    end as int,
                ),
            decreases n - end,
        {
            assert(views(segments@)[end as int] == segments@[end as int]@);
            end += 1;
        }
        proof {
            if (end as usize) < n {
                assert(views(segments@)[end as int] == segments@[end as int]@);
            }
        }
        MatchResult::from_span(idx, end)
    }

    fn cache_key(&self) -> (r: MatchableCacheKey) {
        NON_CODE_CACHE_KEY
    }
}

/// The matcher of a bracketed stretch that has been made into one segment.
#[derive(Debug, Clone, Copy)]
pub struct BracketedSegmentMatcher {
    pub cache_key: MatchableCacheKey,
}

impl Matchable for BracketedSegmentMatcher {
    /// The token itself, if it is a bracketed segment, else nothing.
    open spec fn spec_match(&self, segs: Seq<SegV>, idx: int) -> MatchV {
        MatchV {
            span: Span {
                start: idx as u32,
                end: if 0 <= idx < segs.len() && segs[idx].kind == SyntaxKind::Bracketed {
                    (idx + 1) as u32
                } else {
                    idx as u32
                },
            },
            matched: None,
            insert_segments: Seq::empty(),
            child_matches: Seq::empty(),
        }
    }

    open spec fn spec_optional(&self) -> bool {
        false
    }

    open spec fn spec_cache_key(&self) -> MatchableCacheKey {
        self.cache_key
    }

    fn is_optional(&self) -> (r: bool) {
        false
    }

    fn simple(&self) -> (r: Option<(Vec<String>, crate::syntax::SyntaxSet)>) {
        None
    }

    fn match_segments(&self, segments: &[ErasedSegment], idx: u32) -> (r: MatchResult) {
        if (idx as usize) < segments.len() && segments[idx as usize].is_type(
            SyntaxKind::Bracketed,
        ) {
            assert(views(segments@)[idx as int] == segments@[idx as int]@);
            return MatchResult::from_span(idx, idx + 1);
        }
        proof {
            if (idx as usize) < segments.len() {
                assert(views(segments@)[idx as int] == segments@[idx as int]@);
            }
        }
        MatchResult::empty_at(idx)
    }

    fn cache_key(&self) -> (r: MatchableCacheKey) {
        self.cache_key
    }
}

/// The matcher of one word, in whatever case, which becomes a token of a
/// kind of its own.
#[derive(Debug)]
pub struct StringParser {
    /// The word, in upper case.
    pub template: String,
    pub kind: SyntaxKind,
    pub optional: bool,
    pub cache_key: MatchableCacheKey,
}

impl StringParser {
    /// The matcher of the word.
    pub fn new(template: &str, kind: SyntaxKind, optional: bool, cache_key: MatchableCacheKey) -> (r:
        StringParser)
        ensures
            r.template@ == template@.map_values(|c: char| crate::helpers::upper_ascii(c)),
            r.kind == kind,
            r.optional == optional,
            r.cache_key == cache_key,
    {
        StringParser { template: crate::helpers::ascii_upper(template), kind, optional, cache_key }
    }

    /// Whether the token is the word: it is code, and reads as the word
    /// does when both are in upper case.
    pub open spec fn is_match(&self, v: SegV) -> bool {
        v.is_code() && v.raw().map_values(|c: char| crate::helpers::upper_ascii(c))
            == self.template@
    }
}

impl Matchable for StringParser {
    /// The token itself, tagged with the kind, if it is the word; else
    /// nothing.
    open spec fn spec_match(&self, segs: Seq<SegV>, idx: int) -> MatchV {
        if 0 <= idx < segs.len() && self.is_match(segs[idx]) {
            MatchV {
                span: Span { start: idx as u32, end: (idx + 1) as u32 },
                matched: Some(crate::match_result::MatchedV::SyntaxKind(self.kind)),
                insert_segments: Seq::empty(),
                child_matches: Seq::empty(),
            }
        } else {
            MatchV {
                span: Span { start: idx as u32, end: idx as u32 },
                matched: None,
                insert_segments: Seq::empty(),
                child_matches: Seq::empty(),
            }
        }
    }

    open spec fn spec_optional(&self) -> bool {
        self.optional
    }

    open spec fn spec_cache_key(&self) -> MatchableCacheKey {
        self.cache_key
    }

    fn is_optional(&self) -> (r: bool) {
        self.optional
    }

    /// The word itself, and no kinds.
    fn simple(&self) -> (r: Option<(Vec<String>, crate::syntax::SyntaxSet)>)
        ensures
            r matches Some(hint) && hint.0@.len() == 1 && hint.0@[0]@ == self.template@ && hint.1@
                == Set::<SyntaxKind>::empty(),
    {
        let mut raws: Vec<String> = Vec::new();
        raws.push(self.template.clone());
        proof {
            assert forall|segs: Seq<SegV>, idx: int|
                0 <= idx < segs.len() && (#[trigger] self.spec_match(
                    segs,
                    idx,
                )).has_match() implies crate::dialect::has_text(
                raws@,
                segs[idx].raw().map_values(|c: char| crate::helpers::upper_ascii(c)),
            ) by {
                assert(self.is_match(segs[idx]));
                assert(raws@[0]@ == self.template@);
            }
        }
        Some((raws, crate::syntax::SyntaxSet::empty()))
    }

    fn match_segments(&self, segments: &[ErasedSegment], idx: u32) -> (r: MatchResult) {
        if (idx as usize) < segments.len() {
            let segment = &segments[idx as usize];
            assert(views(segments@)[idx as int] == segment@);
            if segment.is_code() {
                let raw = segment.raw();
                let upper = crate::helpers::ascii_upper(raw.as_str());
                if crate::text::str_eq(upper.as_str(), self.template.as_str()) {
                    return MatchResult::from_span(idx, idx + 1).wrap(
                        crate::match_result::Matched::SyntaxKind(self.kind),
                    );
                }
            }
        }
        MatchResult::empty_at(idx)
    }

    fn cache_key(&self) -> (r: MatchableCacheKey) {
        self.cache_key
    }
}

} // verus!
