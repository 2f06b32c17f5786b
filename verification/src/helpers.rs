//! Helpers of no particular place.

use vstd::prelude::*;
use vstd::string::StringExecFns;

use crate::segment::{ErasedSegment, SegV};
use crate::text::{copy_str, str_eq};

verus! {

/// The upper-case form of an ASCII lower-case letter; any other character
/// as it is.
pub open spec fn upper_ascii(c: char) -> char {
    if 'a' <= c <= 'z' {
        ((c as u32) - 32) as char
    } else {
        c
    }
}

/// The lower-case form of an ASCII upper-case letter; any other character
/// as it is.
pub open spec fn lower_ascii(c: char) -> char {
    if 'A' <= c <= 'Z' {
        ((c as u32) + 32) as char
    } else {
        c
    }
}

/// `str::to_ascii_uppercase`: the text with each ASCII lower-case letter
/// in upper case and every other character as it is.
#[verifier::external_body]
pub(crate) fn ascii_upper(s: &str) -> (r: String)
    ensures
        r@ == s@.map_values(|c: char| upper_ascii(c)),
{
    s.to_ascii_uppercase()
}

/// `str::to_ascii_lowercase`: the text with each ASCII upper-case letter
/// in lower case and every other character as it is.
#[verifier::external_body]
pub(crate) fn ascii_lower(s: &str) -> (r: String)
    ensures
        r@ == s@.map_values(|c: char| lower_ascii(c)),
{
    s.to_ascii_lowercase()
}

/// The ASCII text with its first letter in upper case and the others in
/// lower case.
pub fn capitalize(s: &str) -> (r: String)
    requires
        s.is_ascii(),
    ensures
        r@.len() == s@.len(),
        forall|i: int|
            0 <= i < r@.len() ==> r@[i] == (if i == 0 {
                upper_ascii(s@[i])
            } else {
                lower_ascii(s@[i])
            }),
{
    let n = s.unicode_len();
    if n == 0 {
        return String::new();
    }
    let head = s.substring_ascii(0, 1);
    let tail = s.substring_ascii(1, n);
    let mut out = ascii_upper(head);
    let rest = ascii_lower(tail);
    out.append(rest.as_str());
    out
}

/// All the items but the last, in their order.
pub fn skip_last<T>(items: Vec<T>) -> (r: Vec<T>)
    ensures
        r@ == (if items@.len() == 0 {
            items@
        } else {
            items@.drop_last()
        }),
{
    let mut items = items;
    let ghost before = items@;
    if items.len() > 0 {
        items.pop();
        assert(items@ =~= before.drop_last());
    }
    items
}

/// A component of a path.
#[derive(Debug)]
pub enum PathPart {
    /// What stands before the root on some systems, such as a drive.
    Prefix(String),
    RootDir,
    CurDir,
    ParentDir,
    Normal(String),
}

impl PathPart {
    pub fn copy(&self) -> (r: PathPart)
        ensures
            r == *self,
    {
        match self {
            PathPart::Prefix(s) => PathPart::Prefix(s.clone()),
            PathPart::RootDir => PathPart::RootDir,
            PathPart::CurDir => PathPart::CurDir,
            PathPart::ParentDir => PathPart::ParentDir,
            PathPart::Normal(s) => PathPart::Normal(s.clone()),
        }
    }
}

/// The components that are left of the first `n` when each `.` is dropped
/// and each `..` takes away the name before it: a `..` stays where nothing,
/// a prefix or another `..` is before it, and is dropped at the root.
pub open spec fn normal_stack(parts: Seq<PathPart>, n: int) -> Seq<PathPart>
    decreases n,
{
    if n <= 0 || n > parts.len() {
        Seq::empty()
    } else {
        let stack = normal_stack(parts, n - 1);
        match parts[n - 1] {
            PathPart::CurDir => stack,
            PathPart::ParentDir => if stack.len() == 0 {
                stack.push(parts[n - 1])
            } else {
                match stack.last() {
                    PathPart::Prefix(_) => stack.push(parts[n - 1]),
                    PathPart::RootDir => stack,
                    PathPart::CurDir => stack,
                    PathPart::ParentDir => stack.push(parts[n - 1]),
                    PathPart::Normal(_) => stack.drop_last(),
                }
            },
            _ => stack.push(parts[n - 1]),
        }
    }
}

/// The path in its normal form; `.` where nothing is left of it.
pub open spec fn spec_normalize(parts: Seq<PathPart>) -> Seq<PathPart> {
    let stack = normal_stack(parts, parts.len() as int);
    if stack.len() == 0 {
        seq![PathPart::CurDir]
    } else {
        stack
    }
}

/// The normal form of a path, given by its components: without `.`, and
/// without `..` where a name can be taken away instead.
pub fn normalize(p: &Vec<PathPart>) -> (r: Vec<PathPart>)
    ensures
        r@ == spec_normalize(p@),
{
    let mut stack: Vec<PathPart> = Vec::new();
    let mut i: usize = 0;
    while i < p.len()
        invariant
            i <= p@.len(),
            stack@ == normal_stack(p@, i as int),
        decreases p.len() - i,
    {
        let ghost before = stack@;
        match &p[i] {
            PathPart::CurDir => {},
            PathPart::ParentDir => {
                let n = stack.len();
                if n == 0 {
                    stack.push(PathPart::ParentDir);
                } else {
                    match &stack[n - 1] {
                        PathPart::Prefix(_) => {
                            stack.push(PathPart::ParentDir);
                        },
                        PathPart::RootDir => {},
                        PathPart::CurDir => {},
                        PathPart::ParentDir => {
                            stack.push(PathPart::ParentDir);
                        },
                        PathPart::Normal(_) => {
                            stack.pop();
                            assert(stack@ =~= before.drop_last());
                        },
                    }
                }
            },
            _ => {
                stack.push(p[i].copy());
            },
        }
        i += 1;
    }
    if stack.len() == 0 {
        stack.push(PathPart::CurDir);
        assert(stack@ =~= seq![PathPart::CurDir]);
    }
    stack
}

/// What the program was doing, outermost first: told when it fails.
#[must_use]
#[derive(Debug)]
pub struct PanicContext {
    pub frames: Vec<String>,
}

impl PanicContext {
    pub fn new() -> (r: PanicContext)
        ensures
            r.frames@.len() == 0,
    {
        PanicContext { frames: Vec::new() }
    }

    /// Leaves the innermost frame.
    pub fn leave(&mut self) -> (r: Option<String>)
        ensures
            old(self).frames@.len() == 0 ==> r is None && final(self).frames@ == old(self).frames@,
            old(self).frames@.len() > 0 ==> r == Some(old(self).frames@.last())
                && final(self).frames@ == old(self).frames@.drop_last(),
    {
        let ghost before = self.frames@;
        let r = self.frames.pop();
        proof {
            if before.len() > 0 {
                assert(self.frames@ =~= before.drop_last());
            }
        }
        r
    }

    /// What is told of a failure: a heading, and then each frame on a line
    /// of its own with an empty line after it; nothing where there is no frame.
    pub open spec fn spec_report(frames: Seq<String>, n: int) -> Seq<char>
        decreases n,
    {
        if n <= 0 || n > frames.len() {
            "Panic context:\n"@
        } else {
            PanicContext::spec_report(frames, n - 1) + "> "@ + frames[n - 1]@ + "\n\n"@
        }
    }

    pub fn report(&self) -> (r: String)
        ensures
            r@ == (if self.frames@.len() == 0 {
                Seq::<char>::empty()
            } else {
                PanicContext::spec_report(self.frames@, self.frames@.len() as int)
            }),
    {
        if self.frames.len() == 0 {
            return String::new();
        }
        let mut out = copy_str("Panic context:\n");
        let mut i: usize = 0;
        while i < self.frames.len()
            invariant
                i <= self.frames@.len(),
                out@ == PanicContext::spec_report(self.frames@, i as int),
            decreases self.frames.len() - i,
        {
            out.append("> ");
            out.append(self.frames[i].as_str());
            out.append("\n\n");
            i += 1;
        }
        out
    }
}

/// Enters a frame: `context` says what the program is about to do.
pub fn enter_panic(ctx: &mut PanicContext, context: String)
    ensures
        final(ctx).frames@ == old(ctx).frames@.push(context),
{
    ctx.frames.push(context);
}


#[verifier::external_type_specification]
#[verifier::external_body]
pub struct ExFancyRegex(fancy_regex::Regex);

#[verifier::external_type_specification]
#[verifier::external_body]
pub struct ExFancyRegexError(fancy_regex::Error);

/// The pattern that a regular expression of `fancy_regex` was made from.
pub uninterp spec fn fancy_pattern(r: fancy_regex::Regex) -> Seq<char>;

/// What `fancy_regex::Regex::new` makes of the pattern: the compiled
/// expression, or nothing where it refuses the pattern.
pub uninterp spec fn fancy_compiled(pattern: Seq<char>) -> Option<fancy_regex::Regex>;

/// `fancy_regex::Regex::new`: the compiled expression, which keeps the
/// pattern it was made from, or why the pattern was refused. Which of the
/// two comes back, and which expression, depends on the pattern alone.
#[verifier::external_body]
pub(crate) fn fancy_new(pattern: &str) -> (r: Result<fancy_regex::Regex, fancy_regex::Error>)
    ensures
        r matches Ok(re) ==> fancy_pattern(re) == pattern@,
        match r {
            Ok(re) => fancy_compiled(pattern@) == Some(re),
            Err(_) => fancy_compiled(pattern@) is None,
        },
{
    fancy_regex::Regex::new(pattern)
}

/// `fancy_regex::Regex::as_str`: the pattern that the expression was made
/// from.
#[verifier::external_body]
pub(crate) fn fancy_as_str(r: &fancy_regex::Regex) -> (s: &str)
    ensures
        s@ == fancy_pattern(*r),
{
    r.as_str()
}

/// A regular expression that is told from others by its pattern.
pub struct HashableFancyRegex(pub fancy_regex::Regex);

impl HashableFancyRegex {
    /// The expression of the pattern, or why the pattern was refused.
    pub fn new(pattern: &str) -> (r: Result<HashableFancyRegex, fancy_regex::Error>)
        ensures
            r is Ok <==> fancy_compiled(pattern@) is Some,
            r matches Ok(h) ==> fancy_compiled(pattern@) == Some(h.0) && fancy_pattern(h.0)
                == pattern@,
    {
        match fancy_new(pattern) {
            Ok(re) => Ok(HashableFancyRegex(re)),
            Err(e) => Err(e),
        }
    }

    pub fn as_str(&self) -> (s: &str)
        ensures
            s@ == fancy_pattern(self.0),
    {
        fancy_as_str(&self.0)
    }

    /// Whether the two expressions were made from the same pattern.
    pub fn same(&self, other: &HashableFancyRegex) -> (r: bool)
        ensures
            r == (fancy_pattern(self.0) == fancy_pattern(other.0)),
    {
        str_eq(self.as_str(), other.as_str())
    }
}

/// What can be made into a segment of a tree.
pub trait ToErasedSegment: Sized {
    spec fn spec_erased(self) -> SegV;

    fn to_erased_segment(self) -> (r: ErasedSegment)
        ensures
            r@ == self.spec_erased(),
    ;
}

impl ToErasedSegment for crate::meta::MetaSegment {
    open spec fn spec_erased(self) -> SegV {
        crate::segment::token_v(self.id, Seq::empty(), self.kind).with_marker(self.position_marker)
    }

    fn to_erased_segment(self) -> (r: ErasedSegment) {
        crate::meta::MetaSegment::to_erased_segment(self)
    }
}

impl ToErasedSegment for crate::tree_queries::KeywordSegment {
    open spec fn spec_erased(self) -> SegV {
        crate::segment::token_v(self.id, self.raw@, crate::syntax::SyntaxKind::Keyword).with_marker(
            self.position_marker,
        )
    }

    fn to_erased_segment(self) -> (r: ErasedSegment) {
        crate::tree_queries::KeywordSegment::to_erased_segment(self)
    }
}


/// What can be set up by a function on the way to where it is used.
pub trait Config: Sized {
    /// The value as the function leaves it.
    fn config<F: FnOnce(Self) -> Self>(self, f: F) -> (r: Self)
        requires
            f.requires((self,)),
        ensures
            f.ensures((self,), r),
    {
        f(self)
    }
}

impl<T> Config for T {

}

} // verus!
