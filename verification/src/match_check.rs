//! Whether a match can be made into segments.

use vstd::prelude::*;

use crate::match_result::{
    match_views, max_after, order_of, well_formed, Matched, MatchResult, MatchV,
};
use crate::text_laws::covering;

verus! {

/// Whether the match can be applied to `len` tokens, and makes of them
/// nothing but what the tokens of its span hold.
pub open spec fn sound(m: MatchV, len: int) -> bool {
    well_formed(m, len) && covering(m)
}

/// Whether nothing of the match begins before the tokens before it are
/// used, or after the last of the `len` tokens.
pub open spec fn in_order(m: MatchV, len: int) -> bool {
    forall|n: int|
        1 <= n <= order_of(m).len() ==> max_after(m, order_of(m), n - 1) <= (#[trigger] order_of(
            m,
        )[n - 1]).pos <= len
}

/// Whether each match below the match is sound.
pub open spec fn sound_below(m: MatchV, len: int) -> bool {
    forall|j: int| 0 <= j < m.child_matches.len() ==> sound(#[trigger] m.child_matches[j], len)
}

impl MatchResult {
    /// The token up to which the match uses the tokens, if nothing of it
    /// begins out of order.
    fn used_upto(&self, len: usize) -> (r: Option<u32>)
        ensures
            r is Some == in_order(self@, len as int),
            r matches Some(x) ==> x == max_after(
                self@,
                order_of(self@),
                order_of(self@).len() as int,
            ),
    {
        let ghost m = self@;
        proof {
            self.lemma_view();
        }
        let order = self.order();
        let mut max_idx: u32 = self.span.start;
        let mut i: usize = 0;
        while i < order.len()
            invariant
                i <= order@.len(),
                m == self@,
                order@ == order_of(m),
                m.span == self.span,
                m.child_matches == match_views(self.child_matches@),
                max_idx == max_after(m, order@, i as int),
                forall|n: int|
                    1 <= n <= i ==> max_after(m, order@, n - 1) <= (#[trigger] order@[n - 1]).pos
                        <= len,
            decreases order.len() - i,
        {
            let t = order[i];
            if !(max_idx <= t.pos && t.pos as usize <= len) {
                proof {
                    assert(!(max_after(m, order_of(m), (i + 1) - 1) <= order_of(m)[(i + 1) - 1].pos
                        <= len));
                }
                return None;
            }
            if t.is_child && t.index < self.child_matches.len() {
                proof {
                    assert(m.child_matches[t.index as int] == self.child_matches@[t.index as int]@);
                    self.child_matches@[t.index as int].lemma_view();
                }
                max_idx = self.child_matches[t.index].span.end;
            } else if t.pos > max_idx {
                max_idx = t.pos;
            }
            i += 1;
        }
        Some(max_idx)
    }

    /// Whether each match below the match is sound.
    fn check_below(&self, len: usize) -> (r: bool)
        ensures
            r == sound_below(self@, len as int),
        decreases self, 0nat,
    {
        let ghost m = self@;
        proof {
            self.lemma_view();
        }
        let mut c: usize = 0;
        while c < self.child_matches.len()
            invariant
                c <= self.child_matches@.len(),
                m == self@,
                m.child_matches == match_views(self.child_matches@),
                forall|j: int| 0 <= j < c ==> sound(#[trigger] m.child_matches[j], len as int),
            decreases self.child_matches.len() - c,
        {
            proof {
                self.lemma_child_decreases(c as int);
                assert(m.child_matches[c as int] == self.child_matches@[c as int]@);
            }
            if !self.child_matches[c].check(len) {
                return false;
            }
            c += 1;
        }
        true
    }

    /// Whether the match can be applied to `len` tokens, and makes of them
    /// nothing but what the tokens of its span hold.
    pub fn check(&self, len: usize) -> (r: bool)
        ensures
            r == sound(self@, len as int),
        decreases self, 1nat,
    {
        let ghost m = self@;
        proof {
            self.lemma_view();
        }
        let inserts = self.insert_segments.len();
        let children = self.child_matches.len();
        if !(self.span.start <= self.span.end && self.span.end as usize <= len) {
            return false;
        }
        match &self.matched {
            Some(Matched::ErasedSegment(_)) => {
                return false;
            },
            Some(Matched::BracketedSegment { start_bracket, end_bracket }) => {
                if !((*start_bracket as usize) < len && (*end_bracket as usize) < len) {
                    return false;
                }
            },
            _ => {},
        }
        let used = match self.used_upto(len) {
            Some(x) => x,
            None => {
                return false;
            },
        };
        if used > self.span.end {
            return false;
        }
        let below = self.check_below(len);
        proof {
            if below {
                assert forall|j: int| 0 <= j < m.child_matches.len() implies well_formed(
                    #[trigger] m.child_matches[j],
                    len as int,
                ) && covering(m.child_matches[j]) by {
                    assert(sound(m.child_matches[j], len as int));
                }
            } else {
                let j = choose|j: int|
                    0 <= j < m.child_matches.len() && !sound(
                        #[trigger] m.child_matches[j],
                        len as int,
                    );
                assert(!well_formed(m.child_matches[j], len as int) || !covering(
                    m.child_matches[j],
                ));
            }
        }
        below
    }
}

} // verus!
