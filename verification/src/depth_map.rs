//! How deep a leaf lies in the tree, and below which segments.

use vstd::prelude::*;

use crate::crawl::spec_same_segment;
use crate::segment::{views, BodyV, ErasedSegment, SegV};
use crate::syntax::{spec_class_types, SyntaxKind, SyntaxSet};
use crate::text::copy_str;

verus! {

/// A step on the way from a segment down to one below it: the segment
/// that the step leaves, which of its segments it goes to, how many it has,
/// and which of them are code.
#[derive(Debug)]
pub struct PathStep {
    pub segment: ErasedSegment,
    pub idx: usize,
    pub len: usize,
    pub code_idxs: Vec<usize>,
}

/// The view of a step.
pub struct PathStepV {
    pub segment: SegV,
    pub idx: int,
    pub len: int,
}

impl View for PathStep {
    type V = PathStepV;

    open spec fn view(&self) -> PathStepV {
        PathStepV { segment: self.segment@, idx: self.idx as int, len: self.len as int }
    }
}

/// The views of a sequence of steps.
pub open spec fn step_views(s: Seq<PathStep>) -> Seq<PathStepV> {
    Seq::new(s.len(), |i: int| s[i]@)
}

impl PathStep {
    pub fn copy(&self) -> (r: PathStep)
        ensures
            r@ == self@,
            r.code_idxs@ == self.code_idxs@,
    {
        let mut code_idxs: Vec<usize> = Vec::new();
        let mut i: usize = 0;
        while i < self.code_idxs.len()
            invariant
                i <= self.code_idxs@.len(),
                code_idxs@ == self.code_idxs@.subrange(0, i as int),
            decreases self.code_idxs.len() - i,
        {
            code_idxs.push(self.code_idxs[i]);
            i += 1;
            assert(code_idxs@ =~= self.code_idxs@.subrange(0, i as int));
        }
        assert(self.code_idxs@.subrange(0, i as int) =~= self.code_idxs@);
        PathStep { segment: self.segment.copy(), idx: self.idx, len: self.len, code_idxs }
    }
}

/// The way from `v` down to a segment equal to `other`, found among the
/// first `n` segments of `v`: the step to the first of them that is equal to
/// it, or that has a way down to it, and then that way.
pub open spec fn path_among(v: SegV, other: SegV, n: int) -> Seq<PathStepV>
    decreases v, n,
{
    if n <= 0 || n > v.children().len() {
        Seq::empty()
    } else {
        let before = path_among(v, other, n - 1);
        if before.len() > 0 {
            before
        } else {
            let child = v.children()[n - 1];
            let step = PathStepV { segment: v, idx: n - 1, len: v.children().len() as int };
            if spec_same_segment(child, other) {
                seq![step]
            } else {
                let below = match v.body {
                    BodyV::Token { .. } => Seq::empty(),
                    BodyV::Node { children, .. } => spec_path_to(children[n - 1], other),
                };
                if below.len() > 0 {
                    seq![step] + below
                } else {
                    Seq::empty()
                }
            }
        }
    }
}

/// The way from `v` down to a segment equal to `other`; no steps where
/// there is no such segment below `v`.
pub open spec fn spec_path_to(v: SegV, other: SegV) -> Seq<PathStepV>
    decreases v, v.children().len() + 1,
{
    path_among(v, other, v.children().len() as int)
}

impl ErasedSegment {
    /// The way from the segment down to a segment equal to `other`.
    pub fn path_to(&self, other: &ErasedSegment) -> (r: Vec<PathStep>)
        ensures
            step_views(r@) == spec_path_to(self@, other@),
        decreases self,
    {
        proof {
            self.lemma_view_children();
        }
        let children = self.segments();
        let n = children.len();
        let mut idx: usize = 0;
        while idx < n
            invariant
                idx <= n,
                n == children@.len(),
                views(children@) == self@.children(),
                self.value.kind is Token ==> n == 0,
                self.value.kind is Node ==> children@ == self.child_vec()@,
                path_among(self@, other@, idx as int).len() == 0,
            decreases n - idx,
        {
            let seg = &children[idx];
            assert(self@.children()[idx as int] == seg@);
            let step = PathStep {
                segment: self.copy(),
                idx,
                len: n,
                code_idxs: self.code_indices(),
            };
            let ghost sv = step@;
            if seg.same_as(other) {
                let mut steps: Vec<PathStep> = Vec::new();
                steps.push(step);
                proof {
                    assert(step_views(steps@) =~= seq![sv]);
                    lemma_path_found(self@, other@, idx + 1);
                }
                return steps;
            }
            proof {
                self.lemma_child_decreases(idx as int);
            }
            let mut res = seg.path_to(other);
            if res.len() > 0 {
                let mut steps: Vec<PathStep> = Vec::new();
                steps.push(step);
                let ghost below = step_views(res@);
                steps.append(&mut res);
                proof {
                    assert(step_views(steps@) =~= seq![sv] + below);
                    lemma_path_found(self@, other@, idx + 1);
                }
                return steps;
            }
            idx += 1;
        }
        let out: Vec<PathStep> = Vec::new();
        assert(step_views(out@) =~= Seq::<PathStepV>::empty());
        out
    }
}

/// A way that is found among the first segments is the way.
pub proof fn lemma_path_found(v: SegV, other: SegV, n: int)
    requires
        0 <= n <= v.children().len(),
        path_among(v, other, n).len() > 0,
    ensures
        spec_path_to(v, other) == path_among(v, other, n),
    decreases v.children().len() - n,
{
    if n < v.children().len() {
        lemma_path_found(v, other, n + 1);
    }
}

/// Where a segment stands among the code of its parent.
#[derive(Debug)]
pub struct StackPosition {
    pub idx: usize,
    pub len: usize,
    pub type_: String,
}

/// What is said of a step: `solo` for the only code among the segments,
/// `start` for the first and `end` for the last of it, and nothing for
/// anything else.
pub open spec fn position_word(idx: usize, code_idxs: Seq<usize>) -> Seq<char> {
    if code_idxs.len() == 0 {
        ""@
    } else if code_idxs.len() == 1 {
        "solo"@
    } else if idx == code_idxs[0] {
        "start"@
    } else if idx == code_idxs.last() {
        "end"@
    } else {
        ""@
    }
}

impl StackPosition {
    /// What is said of the step.
    pub fn stack_pos_interpreter(path_step: &PathStep) -> (r: &'static str)
        ensures
            r@ == position_word(path_step.idx, path_step.code_idxs@),
    {
        let n = path_step.code_idxs.len();
        if n == 0 {
            ""
        } else if n == 1 {
            "solo"
        } else if path_step.idx == path_step.code_idxs[0] {
            "start"
        } else if path_step.idx == path_step.code_idxs[n - 1] {
            "end"
        } else {
            ""
        }
    }

    /// The position that the step stands for.
    pub fn from_path_step(path_step: &PathStep) -> (r: StackPosition)
        ensures
            r.idx == path_step.idx,
            r.len == path_step.len,
            r.type_@ == position_word(path_step.idx, path_step.code_idxs@),
    {
        StackPosition {
            idx: path_step.idx,
            len: path_step.len,
            type_: copy_str(StackPosition::stack_pos_interpreter(path_step)),
        }
    }

    pub fn copy(&self) -> (r: StackPosition)
        ensures
            r == *self,
    {
        StackPosition { idx: self.idx, len: self.len, type_: self.type_.clone() }
    }
}

/// What is known of where a leaf lies: the ids of the segments above it,
/// from the root down, with the class types of each and where the way down
/// leaves it.
#[derive(Debug)]
pub struct DepthInfo {
    pub stack_depth: usize,
    /// The ids of the segments above the leaf, from the root down.
    pub stack_hashes: Vec<u64>,
    pub stack_class_types: Vec<SyntaxSet>,
    pub stack_positions: Vec<(u64, StackPosition)>,
}

/// How many of the first `n` of `a` are in `b` and stand in `a` for the
/// first time.
pub open spec fn common_count(a: Seq<u64>, b: Seq<u64>, n: int) -> int
    decreases n,
{
    if n <= 0 || n > a.len() {
        0
    } else {
        common_count(a, b, n - 1) + if b.contains(a[n - 1]) && !a.subrange(0, n - 1).contains(
            a[n - 1],
        ) {
            1int
        } else {
            0int
        }
    }
}

/// Whether the value is among the values.
fn holds(v: &Vec<u64>, upto: usize, x: u64) -> (r: bool)
    requires
        upto <= v@.len(),
    ensures
        r == v@.subrange(0, upto as int).contains(x),
{
    let mut i: usize = 0;
    while i < upto
        invariant
            i <= upto <= v@.len(),
            forall|k: int| 0 <= k < i ==> v@[k] != x,
        decreases upto - i,
    {
        if v[i] == x {
            assert(v@.subrange(0, upto as int)[i as int] == x);
            return true;
        }
        i += 1;
    }
    assert forall|k: int| 0 <= k < upto implies v@.subrange(0, upto as int)[k] != x by {}
    false
}

impl DepthInfo {
    /// What is known of a leaf from the way down to it.
    pub fn from_raw_and_stack(raw: &ErasedSegment, stack: Vec<PathStep>) -> (r: DepthInfo)
        ensures
            r.stack_depth == stack@.len(),
            r.stack_hashes@.len() == stack@.len(),
            r.stack_class_types@.len() == stack@.len(),
            r.stack_positions@.len() == stack@.len(),
            forall|i: int|
                0 <= i < stack@.len() ==> {
                    &&& (#[trigger] r.stack_hashes@[i]) == stack@[i]@.segment.id
                    &&& r.stack_class_types@[i]@ == spec_class_types(stack@[i]@.segment.kind)
                    &&& r.stack_positions@[i].0 == stack@[i]@.segment.id
                    &&& r.stack_positions@[i].1.idx == stack@[i].idx
                    &&& r.stack_positions@[i].1.len == stack@[i].len
                    &&& r.stack_positions@[i].1.type_@ == position_word(
                        stack@[i].idx,
                        stack@[i].code_idxs@,
                    )
                },
    {
        let mut stack_hashes: Vec<u64> = Vec::new();
        let mut stack_class_types: Vec<SyntaxSet> = Vec::new();
        let mut stack_positions: Vec<(u64, StackPosition)> = Vec::new();
        let mut i: usize = 0;
        while i < stack.len()
            invariant
                i <= stack@.len(),
                stack_hashes@.len() == i,
                stack_class_types@.len() == i,
                stack_positions@.len() == i,
                forall|k: int| 0 <= k < i ==> (#[trigger] stack_hashes@[k]) == stack@[k]@.segment.id,
                forall|k: int|
                    0 <= k < i ==> (#[trigger] stack_class_types@[k])@ == spec_class_types(
                        stack@[k]@.segment.kind,
                    ),
                forall|k: int|
                    0 <= k < i ==> {
                        &&& (#[trigger] stack_positions@[k]).0 == stack@[k]@.segment.id
                        &&& stack_positions@[k].1.idx == stack@[k].idx
                        &&& stack_positions@[k].1.len == stack@[k].len
                        &&& stack_positions@[k].1.type_@ == position_word(
                            stack@[k].idx,
                            stack@[k].code_idxs@,
                        )
                    },
            decreases stack.len() - i,
        {
            let ps = &stack[i];
            let hash = ps.segment.id() as u64;
            stack_hashes.push(hash);
            stack_class_types.push(ps.segment.class_types());
            stack_positions.push((hash, StackPosition::from_path_step(ps)));
            i += 1;
        }
        DepthInfo {
            stack_depth: stack_hashes.len(),
            stack_hashes,
            stack_class_types,
            stack_positions,
        }
    }

    /// Whether the way is long enough to lose its last `amount` segments.
    pub open spec fn can_trim(&self, amount: int) -> bool {
        amount <= self.stack_hashes@.len() && amount <= self.stack_class_types@.len() && amount
            <= self.stack_depth
    }

    /// The same without the last `amount` segments of the way: nothing is
    /// known any more of a segment that was among them.
    pub fn trim(&self, amount: usize) -> (r: DepthInfo)
        requires
            amount <= self.stack_hashes@.len(),
            amount <= self.stack_class_types@.len(),
            amount <= self.stack_depth,
        ensures
            r.stack_depth == self.stack_depth - amount,
            r.stack_hashes@ == self.stack_hashes@.subrange(
                0,
                self.stack_hashes@.len() - amount,
            ),
            r.stack_class_types@.len() == self.stack_class_types@.len() - amount,
            forall|i: int|
                0 <= i < r.stack_class_types@.len() ==> (#[trigger] r.stack_class_types@[i])@
                    == self.stack_class_types@[i]@,
            r.stack_positions@ == self.stack_positions@.filter(
                |p: (u64, StackPosition)|
                    amount == 0 || !self.stack_hashes@.subrange(
                        self.stack_hashes@.len() - amount,
                        self.stack_hashes@.len() as int,
                    ).contains(p.0),
            ),
    {
        let n = self.stack_hashes.len();
        let keep = n - amount;
        let ghost tail = self.stack_hashes@.subrange(keep as int, n as int);
        let ghost p = |p: (u64, StackPosition)| amount == 0 || !tail.contains(p.0);
        let mut stack_hashes: Vec<u64> = Vec::new();
        let mut i: usize = 0;
        while i < keep
            invariant
                i <= keep <= self.stack_hashes@.len(),
                stack_hashes@ == self.stack_hashes@.subrange(0, i as int),
            decreases keep - i,
        {
            stack_hashes.push(self.stack_hashes[i]);
            i += 1;
            assert(stack_hashes@ =~= self.stack_hashes@.subrange(0, i as int));
        }
        let m = self.stack_class_types.len() - amount;
        let mut stack_class_types: Vec<SyntaxSet> = Vec::new();
        let mut k: usize = 0;
        while k < m
            invariant
                k <= m <= self.stack_class_types@.len(),
                stack_class_types@.len() == k,
                forall|j: int|
                    0 <= j < k ==> (#[trigger] stack_class_types@[j])@
                        == self.stack_class_types@[j]@,
            decreases m - k,
        {
            let empty = SyntaxSet::empty();
            stack_class_types.push(self.stack_class_types[k].union(&empty));
            proof {
                assert(self.stack_class_types@[k as int]@.union(Set::<SyntaxKind>::empty())
                    =~= self.stack_class_types@[k as int]@);
            }
            k += 1;
        }
        let mut stack_positions: Vec<(u64, StackPosition)> = Vec::new();
        let mut j: usize = 0;
        proof {
            crate::seqs::lemma_filter_empty(p);
            assert(self.stack_positions@.subrange(0, 0) =~= Seq::<(u64, StackPosition)>::empty());
        }
        while j < self.stack_positions.len()
            invariant
                j <= self.stack_positions@.len(),
                n == self.stack_hashes@.len(),
                keep == n - amount,
                tail == self.stack_hashes@.subrange(keep as int, n as int),
                p == (|p: (u64, StackPosition)| amount == 0 || !tail.contains(p.0)),
                stack_positions@ == self.stack_positions@.subrange(0, j as int).filter(p),
            decreases self.stack_positions.len() - j,
        {
            proof {
                crate::seqs::lemma_filter_step(self.stack_positions@, j as int, p);
            }
            let key = self.stack_positions[j].0;
            let mut dropped = false;
            let mut w: usize = keep;
            while w < n
                invariant
                    keep <= w <= n,
                    n == self.stack_hashes@.len(),
                    tail == self.stack_hashes@.subrange(keep as int, n as int),
                    dropped == tail.subrange(0, w - keep).contains(key),
                decreases n - w,
            {
                let ghost pre = tail.subrange(0, w - keep);
                let ghost cur = tail.subrange(0, w + 1 - keep);
                proof {
                    assert(cur =~= pre.push(self.stack_hashes@[w as int]));
                    if pre.contains(key) {
                        let z = choose|z: int| 0 <= z < pre.len() && pre[z] == key;
                        assert(cur[z] == key);
                    }
                    if self.stack_hashes@[w as int] == key {
                        assert(cur[w - keep] == key);
                    }
                }
                if self.stack_hashes[w] == key {
                    dropped = true;
                }
                w += 1;
            }
            assert(tail.subrange(0, n - keep) =~= tail);
            if amount == 0 || !dropped {
                let pos = &self.stack_positions[j];
                let copy = (pos.0, pos.1.copy());
                stack_positions.push(copy);
            }
            j += 1;
        }
        assert(self.stack_positions@.subrange(0, j as int) =~= self.stack_positions@);
        DepthInfo {
            stack_depth: self.stack_depth - amount,
            stack_hashes,
            stack_class_types,
            stack_positions,
        }
    }

    /// The segments that are above this leaf and above the other: as many
    /// of the first above this leaf as the two have in common.
    pub fn common_with(&self, other: &DepthInfo) -> (r: Vec<u64>)
        ensures
            r@ == self.stack_hashes@.subrange(
                0,
                common_count(
                    self.stack_hashes@,
                    other.stack_hashes@,
                    self.stack_hashes@.len() as int,
                ),
            ),
    {
        let n = self.stack_hashes.len();
        let mut count: usize = 0;
        let mut i: usize = 0;
        while i < n
            invariant
                i <= n,
                n == self.stack_hashes@.len(),
                count <= i,
                count == common_count(self.stack_hashes@, other.stack_hashes@, i as int),
            decreases n - i,
        {
            let x = self.stack_hashes[i];
            let in_other = holds(&other.stack_hashes, other.stack_hashes.len(), x);
            assert(other.stack_hashes@.subrange(0, other.stack_hashes@.len() as int)
                =~= other.stack_hashes@);
            if in_other && !holds(&self.stack_hashes, i, x) {
                count += 1;
            }
            i += 1;
        }
        let mut out: Vec<u64> = Vec::new();
        let mut k: usize = 0;
        while k < count
            invariant
                k <= count <= self.stack_hashes@.len(),
                out@ == self.stack_hashes@.subrange(0, k as int),
            decreases count - k,
        {
            out.push(self.stack_hashes[k]);
            k += 1;
            assert(out@ =~= self.stack_hashes@.subrange(0, k as int));
        }
        out
    }
}

} // verus!
