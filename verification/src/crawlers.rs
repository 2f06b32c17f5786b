//! Crawlers: they pick the segments of a tree that a rule looks at.

use vstd::prelude::*;

use crate::segment::{copy_segments, lemma_views_push, views, BodyV, ErasedSegment, SegV};
use crate::syntax::{SyntaxKind, SyntaxSet};
use crate::templater::TemplatedFile;

verus! {

/// What a rule is shown: a segment, the segments above it from the root
/// down, and which of the segments of its parent it is.
#[derive(Clone, Debug)]
pub struct RuleContext {
    pub segment: ErasedSegment,
    pub parent_stack: Vec<ErasedSegment>,
    pub raw_stack: Vec<ErasedSegment>,
    pub segment_idx: usize,
    pub fix: bool,
    pub templated_file: Option<TemplatedFile>,
}

/// The view of a context.
pub struct ContextV {
    pub segment: SegV,
    pub parent_stack: Seq<SegV>,
    pub segment_idx: int,
}

impl View for RuleContext {
    type V = ContextV;

    open spec fn view(&self) -> ContextV {
        ContextV {
            segment: self.segment@,
            parent_stack: views(self.parent_stack@),
            segment_idx: self.segment_idx as int,
        }
    }
}

/// The views of a sequence of contexts.
pub open spec fn context_views(s: Seq<RuleContext>) -> Seq<ContextV> {
    Seq::new(s.len(), |i: int| s[i]@)
}

impl RuleContext {
    /// The context of the root of a tree.
    pub fn root(tree: ErasedSegment, fix: bool, templated_file: Option<TemplatedFile>) -> (r:
        RuleContext)
        ensures
            r@ == (ContextV { segment: tree@, parent_stack: Seq::empty(), segment_idx: 0 }),
            r.fix == fix,
            r.templated_file == templated_file,
    {
        let r = RuleContext {
            segment: tree,
            parent_stack: Vec::new(),
            raw_stack: Vec::new(),
            segment_idx: 0,
            fix,
            templated_file,
        };
        assert(views(r.parent_stack@) =~= Seq::<SegV>::empty());
        r
    }

    pub fn copy(&self) -> (r: RuleContext)
        ensures
            r@ == self@,
            r.fix == self.fix,
            r.templated_file == self.templated_file,
    {
        RuleContext {
            segment: self.segment.copy(),
            parent_stack: copy_segments(self.parent_stack.as_slice()),
            raw_stack: copy_segments(self.raw_stack.as_slice()),
            segment_idx: self.segment_idx,
            fix: self.fix,
            templated_file: match &self.templated_file {
                Some(f) => Some(f.copy()),
                None => None,
            },
        }
    }
}

/// What every crawler does.
pub trait BaseCrawler {
    spec fn spec_works_on_unparsable(&self) -> bool;

    /// The contexts that the crawler picks from `context` down.
    spec fn spec_crawl(&self, context: ContextV) -> Seq<ContextV>;

    /// Whether the crawler looks at what could not be parsed.
    fn works_on_unparsable(&self) -> (r: bool)
        ensures
            r == self.spec_works_on_unparsable(),
    ;

    /// Whether the crawler looks at the segment: not at one that could not
    /// be parsed, unless it looks at such.
    fn passes_filter(&self, segment: &ErasedSegment) -> (r: bool)
        ensures
            r == (self.spec_works_on_unparsable() || segment@.kind != SyntaxKind::Unparsable),
    ;

    fn crawl(&self, context: RuleContext) -> (r: Vec<RuleContext>)
        ensures
            context_views(r@) == self.spec_crawl(context@),
    ;
}

/// A crawler that does not crawl: it picks the root of the tree alone.
#[derive(Debug, Default, Clone, Copy)]
pub struct RootOnlyCrawler;

impl BaseCrawler for RootOnlyCrawler {
    open spec fn spec_works_on_unparsable(&self) -> bool {
        false
    }

    open spec fn spec_crawl(&self, context: ContextV) -> Seq<ContextV> {
        if context.segment.kind != SyntaxKind::Unparsable {
            seq![context]
        } else {
            Seq::empty()
        }
    }

    fn works_on_unparsable(&self) -> (r: bool) {
        false
    }

    fn passes_filter(&self, segment: &ErasedSegment) -> (r: bool) {
        self.works_on_unparsable() || !segment.is_type(SyntaxKind::Unparsable)
    }

    fn crawl(&self, context: RuleContext) -> (r: Vec<RuleContext>) {
        let mut out: Vec<RuleContext> = Vec::new();
        if self.passes_filter(&context.segment) {
            let ghost c = context@;
            out.push(context);
            assert(context_views(out@) =~= seq![c]);
        } else {
            assert(context_views(out@) =~= Seq::<ContextV>::empty());
        }
        out
    }
}

/// A crawler that picks the segments of given kinds, wherever they are in
/// the tree.
#[derive(Debug)]
pub struct SegmentSeekerCrawler {
    pub types: SyntaxSet,
    pub provide_raw_stack: bool,
    pub allow_recurse: bool,
}

/// What the seeker picks among the first `n` segments of `children`, which
/// are below the segments of `parents`, and below them.
pub open spec fn seek_children(
    types: Set<SyntaxKind>,
    allow_recurse: bool,
    children: Seq<SegV>,
    parents: Seq<SegV>,
    n: int,
) -> Seq<ContextV>
    decreases children, n,
{
    if n <= 0 || n > children.len() {
        Seq::empty()
    } else {
        seek_children(types, allow_recurse, children, parents, n - 1) + seek(
            types,
            allow_recurse,
            ContextV { segment: children[n - 1], parent_stack: parents, segment_idx: n - 1 },
        )
    }
}

/// What the seeker picks from `context` down.
///
/// The segment is picked if it is of one of the kinds. The search goes on
/// below it unless it is picked and the seeker does not go into what it
/// picks, and only if something of the kinds can be there.
pub open spec fn seek(types: Set<SyntaxKind>, allow_recurse: bool, context: ContextV) -> Seq<ContextV>
    decreases context.segment,
{
    let v = context.segment;
    let self_match = types.contains(v.kind);
    let own = if self_match {
        seq![context]
    } else {
        Seq::empty()
    };
    match v.body {
        BodyV::Token { .. } => own,
        BodyV::Node { children, .. } => if children.len() == 0 || (self_match && !allow_recurse) {
            own
        } else if !(exists|k: SyntaxKind| types.contains(k) && v.types_below().contains(k)) {
            own
        } else {
            own + seek_children(
                types,
                allow_recurse,
                children,
                context.parent_stack.push(v),
                children.len() as int,
            )
        },
    }
}

impl SegmentSeekerCrawler {
    /// A seeker of the kinds, which goes into what it picks.
    pub fn new(types: SyntaxSet) -> (r: SegmentSeekerCrawler)
        ensures
            r.types == types,
            !r.provide_raw_stack,
            r.allow_recurse,
    {
        SegmentSeekerCrawler { types, provide_raw_stack: false, allow_recurse: true }
    }

    /// The same seeker, which does not go into what it picks.
    pub fn disallow_recurse(self) -> (r: SegmentSeekerCrawler)
        ensures
            r.types == self.types,
            r.provide_raw_stack == self.provide_raw_stack,
            !r.allow_recurse,
    {
        SegmentSeekerCrawler {
            types: self.types,
            provide_raw_stack: self.provide_raw_stack,
            allow_recurse: false,
        }
    }

    /// Whether the segment is of one of the kinds.
    pub fn is_self_match(&self, segment: &ErasedSegment) -> (r: bool)
        ensures
            r == self.types@.contains(segment@.kind),
    {
        self.types.contains(segment.get_type())
    }

    fn seek_from(&self, context: &RuleContext) -> (r: Vec<RuleContext>)
        ensures
            context_views(r@) == seek(self.types@, self.allow_recurse, context@),
        decreases context.segment,
    {
        proof {
            context.segment.lemma_view_children();
        }
        let mut acc: Vec<RuleContext> = Vec::new();
        let self_match = self.is_self_match(&context.segment);
        if self_match {
            acc.push(context.copy());
            assert(context_views(acc@) =~= seq![context@]);
        } else {
            assert(context_views(acc@) =~= Seq::<ContextV>::empty());
        }
        let children = context.segment.segments();
        if children.len() == 0 || (self_match && !self.allow_recurse) {
            return acc;
        }
        let below = context.segment.descendant_type_set();
        if !self.types.intersects(&below) {
            return acc;
        }
        let mut new_parent_stack = copy_segments(context.parent_stack.as_slice());
        proof {
            lemma_views_push(new_parent_stack@, context.segment);
        }
        new_parent_stack.push(context.segment.copy());
        let ghost own = context_views(acc@);
        let ghost kids = views(children@);
        let ghost parents = views(new_parent_stack@);
        let mut idx: usize = 0;
        assert(own + Seq::<ContextV>::empty() =~= own);
        while idx < children.len()
            invariant
                idx <= children@.len(),
                context.segment.value.kind is Node,
                children@ == context.segment.child_vec()@,
                kids == views(children@),
                parents == views(new_parent_stack@),
                context_views(acc@) == own + seek_children(
                    self.types@,
                    self.allow_recurse,
                    kids,
                    parents,
                    idx as int,
                ),
            decreases children.len() - idx,
        {
            let child_context = RuleContext {
                segment: children[idx].copy(),
                parent_stack: copy_segments(new_parent_stack.as_slice()),
                raw_stack: copy_segments(context.raw_stack.as_slice()),
                segment_idx: idx,
                fix: context.fix,
                templated_file: match &context.templated_file {
                    Some(f) => Some(f.copy()),
                    None => None,
                },
            };
            proof {
                context.segment.lemma_child_decreases(idx as int);
                assert(kids[idx as int] == children@[idx as int]@);
            }
            let mut found = self.seek_from(&child_context);
            proof {
                assert(context_views(acc@ + found@) =~= context_views(acc@) + context_views(
                    found@,
                ));
                let sofar = seek_children(
                    self.types@,
                    self.allow_recurse,
                    kids,
                    parents,
                    idx as int,
                );
                assert((own + sofar) + context_views(found@) =~= own + (sofar + context_views(
                    found@,
                )));
            }
            acc.append(&mut found);
            idx += 1;
        }
        acc
    }
}

impl BaseCrawler for SegmentSeekerCrawler {
    open spec fn spec_works_on_unparsable(&self) -> bool {
        false
    }

    open spec fn spec_crawl(&self, context: ContextV) -> Seq<ContextV> {
        seek(self.types@, self.allow_recurse, context)
    }

    fn works_on_unparsable(&self) -> (r: bool) {
        false
    }

    fn passes_filter(&self, segment: &ErasedSegment) -> (r: bool) {
        self.works_on_unparsable() || !segment.is_type(SyntaxKind::Unparsable)
    }

    fn crawl(&self, context: RuleContext) -> (r: Vec<RuleContext>) {
        self.seek_from(&context)
    }
}

/// A crawler of either sort.
#[derive(Debug)]
pub enum Crawler {
    RootOnlyCrawler(RootOnlyCrawler),
    SegmentSeekerCrawler(SegmentSeekerCrawler),
}

/// What a crawler is: one that picks the root alone, or a seeker of
/// kinds with its settings.
pub enum CrawlerV {
    RootOnly,
    Seeker { types: Set<SyntaxKind>, provide_raw_stack: bool, allow_recurse: bool },
}

impl View for Crawler {
    type V = CrawlerV;

    open spec fn view(&self) -> CrawlerV {
        match self {
            Crawler::RootOnlyCrawler(_) => CrawlerV::RootOnly,
            Crawler::SegmentSeekerCrawler(c) => CrawlerV::Seeker {
                types: c.types@,
                provide_raw_stack: c.provide_raw_stack,
                allow_recurse: c.allow_recurse,
            },
        }
    }
}

impl Crawler {
    /// The contexts that the crawler picks from `context` down.
    pub open spec fn spec_crawl(&self, context: ContextV) -> Seq<ContextV> {
        match self {
            Crawler::RootOnlyCrawler(c) => c.spec_crawl(context),
            Crawler::SegmentSeekerCrawler(c) => c.spec_crawl(context),
        }
    }

    pub fn crawl(&self, context: RuleContext) -> (r: Vec<RuleContext>)
        ensures
            context_views(r@) == self.spec_crawl(context@),
    {
        match self {
            Crawler::RootOnlyCrawler(c) => c.crawl(context),
            Crawler::SegmentSeekerCrawler(c) => c.crawl(context),
        }
    }
}

} // verus!
