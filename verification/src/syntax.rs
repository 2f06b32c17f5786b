//! Syntax kinds: the tag every segment carries, and finite sets of them.

use vstd::prelude::*;

verus! {

/// The syntax-kind tag of a segment.
#[derive(Clone, Copy, Debug, PartialEq, Eq, Hash, Structural)]
pub enum SyntaxKind {
    File,
    Statement,
    Unparsable,
    Unlexable,
    Whitespace,
    Newline,
    Comment,
    InlineComment,
    BlockComment,
    Indent,
    Dedent,
    Implicit,
    EndOfFile,
    Keyword,
    Symbol,
    Word,
    Literal,
    NumericLiteral,
    SingleQuote,
    DoubleQuote,
    Dot,
    Comma,
    Semicolon,
    Star,
    StartBracket,
    EndBracket,
    Bracketed,
    ObjectReference,
    ColumnReference,
    TableReference,
    WildcardIdentifier,
    NakedIdentifier,
    AliasExpression,
    FromExpressionElement,
    MergeStatement,
    SelectStatement,
    SelectClause,
    CaseExpression,
    ElseClause,
    BinaryOperator,
    ComparisonOperator,
    SetOperator,
}

impl SyntaxKind {
    /// The change of indentation a segment of this kind stands for:
    /// `1` for the two indents, `-1` for a dedent, `0` for every other kind.
    pub open spec fn spec_indent_val(self) -> int {
        match self {
            SyntaxKind::Indent | SyntaxKind::Implicit => 1,
            SyntaxKind::Dedent => -1,
            _ => 0,
        }
    }

    pub fn indent_val(self) -> (r: i8)
        ensures
            r == self.spec_indent_val(),
    {
        match self {
            SyntaxKind::Indent | SyntaxKind::Implicit => 1,
            SyntaxKind::Dedent => -1,
            _ => 0,
        }
    }

    /// Kinds of the zero-width markers that carry no source text.
    pub open spec fn spec_is_meta(self) -> bool {
        self == SyntaxKind::Indent || self == SyntaxKind::Implicit || self == SyntaxKind::Dedent
            || self == SyntaxKind::EndOfFile
    }

    pub open spec fn spec_is_comment(self) -> bool {
        self == SyntaxKind::Comment || self == SyntaxKind::InlineComment || self
            == SyntaxKind::BlockComment
    }

    pub open spec fn spec_is_whitespace(self) -> bool {
        self == SyntaxKind::Whitespace || self == SyntaxKind::Newline
    }

    pub open spec fn spec_is_indent(self) -> bool {
        self == SyntaxKind::Indent || self == SyntaxKind::Implicit || self == SyntaxKind::Dedent
    }

    pub fn is_meta(self) -> (r: bool)
        ensures
            r == self.spec_is_meta(),
    {
        self == SyntaxKind::Indent || self == SyntaxKind::Implicit || self == SyntaxKind::Dedent
            || self == SyntaxKind::EndOfFile
    }

    pub fn is_comment(self) -> (r: bool)
        ensures
            r == self.spec_is_comment(),
    {
        self == SyntaxKind::Comment || self == SyntaxKind::InlineComment || self
            == SyntaxKind::BlockComment
    }

    pub fn is_whitespace(self) -> (r: bool)
        ensures
            r == self.spec_is_whitespace(),
    {
        self == SyntaxKind::Whitespace || self == SyntaxKind::Newline
    }

    pub fn is_indent(self) -> (r: bool)
        ensures
            r == self.spec_is_indent(),
    {
        self == SyntaxKind::Indent || self == SyntaxKind::Implicit || self == SyntaxKind::Dedent
    }
}

/// The dialect a node was parsed under.
#[derive(Clone, Copy, Debug, PartialEq, Eq, Hash, Structural)]
pub enum DialectKind {
    Ansi,
    Databricks,
    Sparksql,
    Trino,
}

/// A finite set of syntax kinds. Its view is the mathematical set of its members.
#[derive(Clone, Debug)]
pub struct SyntaxSet {
    kinds: Vec<SyntaxKind>,
}

impl View for SyntaxSet {
    type V = Set<SyntaxKind>;

    closed spec fn view(&self) -> Set<SyntaxKind> {
        self.kinds@.to_set()
    }
}

impl SyntaxSet {
    pub fn empty() -> (r: SyntaxSet)
        ensures
            r@ == Set::<SyntaxKind>::empty(),
    {
        let r = SyntaxSet { kinds: Vec::new() };
        assert(r.kinds@.to_set() =~= Set::<SyntaxKind>::empty());
        r
    }

    pub fn single(kind: SyntaxKind) -> (r: SyntaxSet)
        ensures
            r@ == set![kind],
    {
        let mut kinds: Vec<SyntaxKind> = Vec::new();
        kinds.push(kind);
        let r = SyntaxSet { kinds };
        assert(r.kinds@ =~= seq![kind]);
        assert(r.kinds@.to_set() =~= set![kind]) by {
            assert(r.kinds@[0] == kind);
        }
        r
    }

    /// The set of the kinds in `kinds`, in any order and with repetitions allowed.
    pub fn new(kinds: &[SyntaxKind]) -> (r: SyntaxSet)
        ensures
            r@ == kinds@.to_set(),
    {
        let mut out: Vec<SyntaxKind> = Vec::new();
        let mut i: usize = 0;
        while i < kinds.len()
            invariant
                i <= kinds.len(),
                out@ == kinds@.subrange(0, i as int),
            decreases kinds.len() - i,
        {
            out.push(kinds[i]);
            i += 1;
            assert(out@ =~= kinds@.subrange(0, i as int));
        }
        assert(kinds@.subrange(0, i as int) =~= kinds@);
        SyntaxSet { kinds: out }
    }

    pub fn contains(&self, kind: SyntaxKind) -> (r: bool)
        ensures
            r == self@.contains(kind),
    {
        let mut i: usize = 0;
        while i < self.kinds.len()
            invariant
                i <= self.kinds.len(),
                forall|j: int| 0 <= j < i ==> self.kinds@[j] != kind,
            decreases self.kinds.len() - i,
        {
            if self.kinds[i] == kind {
                assert(self.kinds@.contains(kind));
                return true;
            }
            i += 1;
        }
        assert(!self.kinds@.contains(kind));
        false
    }

    pub fn is_empty(&self) -> (r: bool)
        ensures
            r == (self@ == Set::<SyntaxKind>::empty()),
    {
        let r = self.kinds.len() == 0;
        proof {
            if r {
                assert(self@ =~= Set::<SyntaxKind>::empty());
            } else {
                assert(self.kinds@.contains(self.kinds@[0]));
                assert(self@.contains(self.kinds@[0]));
            }
        }
        r
    }

    /// Whether the two sets share a member.
    pub fn intersects(&self, other: &SyntaxSet) -> (r: bool)
        ensures
            r == exists|k: SyntaxKind| self@.contains(k) && other@.contains(k),
    {
        let mut i: usize = 0;
        while i < self.kinds.len()
            invariant
                i <= self.kinds.len(),
                forall|j: int| 0 <= j < i ==> !other@.contains(#[trigger] self.kinds@[j]),
            decreases self.kinds.len() - i,
        {
            if other.contains(self.kinds[i]) {
                assert(self.kinds@.contains(self.kinds@[i as int]));
                assert(self@.contains(self.kinds@[i as int]));
                return true;
            }
            i += 1;
        }
        assert forall|k: SyntaxKind| self@.contains(k) implies !other@.contains(k) by {
            let j = choose|j: int| 0 <= j < self.kinds@.len() && self.kinds@[j] == k;
            assert(!other@.contains(self.kinds@[j]));
        }
        false
    }

    pub fn union(&self, other: &SyntaxSet) -> (r: SyntaxSet)
        ensures
            r@ == self@.union(other@),
    {
        let mut out: Vec<SyntaxKind> = Vec::new();
        let mut i: usize = 0;
        while i < self.kinds.len()
            invariant
                i <= self.kinds.len(),
                out@ == self.kinds@.subrange(0, i as int),
            decreases self.kinds.len() - i,
        {
            out.push(self.kinds[i]);
            i += 1;
            assert(out@ =~= self.kinds@.subrange(0, i as int));
        }
        assert(self.kinds@.subrange(0, i as int) =~= self.kinds@);
        let mut j: usize = 0;
        while j < other.kinds.len()
            invariant
                j <= other.kinds.len(),
                out@ == self.kinds@ + other.kinds@.subrange(0, j as int),
            decreases other.kinds.len() - j,
        {
            out.push(other.kinds[j]);
            j += 1;
            assert(out@ =~= self.kinds@ + other.kinds@.subrange(0, j as int));
        }
        assert(other.kinds@.subrange(0, j as int) =~= other.kinds@);
        let r = SyntaxSet { kinds: out };
        proof {
            vstd::seq_lib::seq_to_set_distributes_over_add(self.kinds@, other.kinds@);
        }
        r
    }

    /// Set equality, whatever the order the members were given in.
    pub fn same_as(&self, other: &SyntaxSet) -> (r: bool)
        ensures
            r == (self@ == other@),
    {
        let a = self.subset_of(other);
        let b = other.subset_of(self);
        proof {
            if a && b {
                assert(self@ =~= other@);
            }
        }
        a && b
    }

    pub fn subset_of(&self, other: &SyntaxSet) -> (r: bool)
        ensures
            r == self@.subset_of(other@),
    {
        let mut i: usize = 0;
        while i < self.kinds.len()
            invariant
                i <= self.kinds.len(),
                forall|j: int| 0 <= j < i ==> other@.contains(#[trigger] self.kinds@[j]),
            decreases self.kinds.len() - i,
        {
            if !other.contains(self.kinds[i]) {
                assert(self.kinds@.contains(self.kinds@[i as int]));
                assert(self@.contains(self.kinds@[i as int]));
                return false;
            }
            i += 1;
        }
        assert forall|k: SyntaxKind| self@.contains(k) implies other@.contains(k) by {
            let j = choose|j: int| 0 <= j < self.kinds@.len() && self.kinds@[j] == k;
            assert(other@.contains(self.kinds@[j]));
        }
        true
    }
}

/// The class types of a kind: the kind itself and, for the three kinds of
/// reference, the general `ObjectReference` too.
pub open spec fn spec_class_types(kind: SyntaxKind) -> Set<SyntaxKind> {
    if kind == SyntaxKind::ColumnReference || kind == SyntaxKind::WildcardIdentifier || kind
        == SyntaxKind::TableReference {
        set![SyntaxKind::ObjectReference, kind]
    } else {
        set![kind]
    }
}

pub fn class_types(syntax_kind: SyntaxKind) -> (r: SyntaxSet)
    ensures
        r@ == spec_class_types(syntax_kind),
{
    match syntax_kind {
        SyntaxKind::ColumnReference | SyntaxKind::WildcardIdentifier | SyntaxKind::TableReference => {
            let kinds = [SyntaxKind::ObjectReference, syntax_kind];
            let r = SyntaxSet::new(kinds.as_slice());
            assert(kinds@ =~= seq![SyntaxKind::ObjectReference, syntax_kind]);
            assert(kinds@.to_set() =~= set![SyntaxKind::ObjectReference, syntax_kind]) by {
                assert(kinds@[0] == SyntaxKind::ObjectReference);
                assert(kinds@[1] == syntax_kind);
            }
            r
        },
        _ => SyntaxSet::single(syntax_kind),
    }
}

} // verus!
