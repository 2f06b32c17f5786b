//! Rules: what a rule is called, which it belongs to, and what it reports.

use vstd::prelude::*;
use vstd::string::StringExecFns;

use crate::errors::{RuleInfo, SQLLintError};
use crate::fix::{fix_views, LintFix, LintFixV};
use crate::segment::{ErasedSegment, SegV};
use crate::text::copy_str;

verus! {

/// The groups that rules belong to.
#[derive(Debug, Clone, PartialEq, Copy, Hash, Eq, Structural)]
pub enum RuleGroups {
    All,
    Core,
    Aliasing,
    Ambiguous,
    Capitalisation,
    Convention,
    Layout,
    References,
    Structure,
}

impl RuleGroups {
    /// The name of the group, in lower case.
    pub fn as_str(self) -> (r: &'static str)
        ensures
            r@ == (match self {
                RuleGroups::All => "all"@,
                RuleGroups::Core => "core"@,
                RuleGroups::Aliasing => "aliasing"@,
                RuleGroups::Ambiguous => "ambiguous"@,
                RuleGroups::Capitalisation => "capitalisation"@,
                RuleGroups::Convention => "convention"@,
                RuleGroups::Layout => "layout"@,
                RuleGroups::References => "references"@,
                RuleGroups::Structure => "structure"@,
            }),
    {
        match self {
            RuleGroups::All => "all",
            RuleGroups::Core => "core",
            RuleGroups::Aliasing => "aliasing",
            RuleGroups::Ambiguous => "ambiguous",
            RuleGroups::Capitalisation => "capitalisation",
            RuleGroups::Convention => "convention",
            RuleGroups::Layout => "layout",
            RuleGroups::References => "references",
            RuleGroups::Structure => "structure",
        }
    }
}

/// When a rule runs: with the others, or after them.
#[derive(Debug, Clone, Copy, PartialEq, Eq, Structural)]
pub enum LintPhase {
    Main,
    Post,
}

/// What a rule reports of a segment: the segment, the fixes that would
/// mend it, and a description where that of the rule will not do.
#[derive(Clone, Debug)]
pub struct LintResult {
    pub anchor: Option<ErasedSegment>,
    pub fixes: Vec<LintFix>,
    pub description: Option<String>,
    pub source: String,
}

/// The view of a result.
pub struct LintResultV {
    pub anchor: Option<SegV>,
    pub fixes: Seq<LintFixV>,
    pub description: Option<Seq<char>>,
    pub source: Seq<char>,
}

impl View for LintResult {
    type V = LintResultV;

    open spec fn view(&self) -> LintResultV {
        LintResultV {
            anchor: match self.anchor {
                Some(a) => Some(a@),
                None => None,
            },
            fixes: fix_views(self.fixes@),
            description: match self.description {
                Some(d) => Some(d@),
                None => None,
            },
            source: self.source@,
        }
    }
}

/// The views of a sequence of results.
pub open spec fn result_views(s: Seq<LintResult>) -> Seq<LintResultV> {
    Seq::new(s.len(), |i: int| s[i]@)
}

impl LintResult {
    pub fn new(
        anchor: Option<ErasedSegment>,
        fixes: Vec<LintFix>,
        _memory: Option<Vec<(String, String)>>,
        description: Option<String>,
        source: Option<String>,
    ) -> (r: LintResult)
        ensures
            r.anchor == anchor,
            r.fixes == fixes,
            r.description == description,
            r.source@ == (match source {
                Some(s) => s@,
                None => Seq::<char>::empty(),
            }),
    {
        LintResult {
            anchor,
            fixes,
            description,
            source: match source {
                Some(s) => s,
                None => String::new(),
            },
        }
    }

    /// The violation that the result stands for, of the rule `rule`: none
    /// where there is no anchor; else at the anchor, described as the
    /// result says, or as the rule does where the result does not.
    pub fn to_linting_error(&self, rule: &RuleInfo) -> (r: Option<SQLLintError>)
        requires
            self.anchor matches Some(a) ==> a@.marker is Some,
        ensures
            r is Some <==> self.anchor is Some,
            r matches Some(e) ==> {
                &&& e.base.rule == Some(*rule)
                &&& e.base.description@ == (match self.description {
                    Some(d) => d@,
                    None => rule.description@,
                })
                &&& e.base.source_slice == self.anchor->0@.marker->0.source_slice
            },
    {
        match &self.anchor {
            None => None,
            Some(anchor) => {
                let description = match &self.description {
                    Some(d) => d.as_str(),
                    None => rule.description.as_str(),
                };
                Some(SQLLintError::new(description, anchor).with_rule(rule.copy()))
            },
        }
    }

    /// What a result says of itself: that it is empty, if it has no
    /// anchor; else its description, where it comes from, the text of its
    /// anchor, and how many fixes it carries.
    pub open spec fn spec_describe(v: LintResultV) -> Seq<char> {
        match v.anchor {
            None => "LintResult(<empty>)"@,
            Some(anchor) => {
                let coda = if v.fixes.len() > 0 {
                    "+"@ + crate::formatters::decimal_of(v.fixes.len()) + "F"@
                } else {
                    Seq::<char>::empty()
                };
                "LintResult("@ + (match v.description {
                    Some(desc) => desc + (if v.source.len() > 0 {
                        " ["@ + v.source + "]"@
                    } else {
                        Seq::<char>::empty()
                    }) + ": "@,
                    None => Seq::<char>::empty(),
                }) + "'"@ + anchor.raw() + "'"@ + coda + ")"@
            },
        }
    }

    pub fn describe(&self) -> (r: String)
        ensures
            r@ == LintResult::spec_describe(self@),
    {
        match &self.anchor {
            None => copy_str("LintResult(<empty>)"),
            Some(anchor) => {
                let mut out = copy_str("LintResult(");
                match &self.description {
                    Some(desc) => {
                        out.append(desc.as_str());
                        if self.source.as_str().unicode_len() > 0 {
                            out.append(" [");
                            out.append(self.source.as_str());
                            out.append("]");
                        } else {
                            assert(out@ + Seq::<char>::empty() =~= out@);
                        }
                        out.append(": ");
                        assert(out@ =~= "LintResult("@ + (desc@ + (if self.source@.len() > 0 {
                            " ["@ + self.source@ + "]"@
                        } else {
                            Seq::<char>::empty()
                        }) + ": "@));
                    },
                    None => {
                        assert(out@ + Seq::<char>::empty() =~= out@);
                    },
                }
                out.append("'");
                let raw = anchor.raw();
                out.append(raw.as_str());
                out.append("'");
                let n = self.fixes.len();
                assert(fix_views(self.fixes@).len() == n);
                if n > 0 {
                    out.append("+");
                    let count = crate::formatters::decimal(n);
                    out.append(count.as_str());
                    out.append("F");
                }
                let ghost body = out@;
                out.append(")");
                proof {
                    assert(out@ =~= LintResult::spec_describe(self@));
                }
                out
            },
        }
    }
}

/// Whether aliases are to be introduced with `AS` or without.
#[derive(Debug, PartialEq, Eq, Clone, Copy, Structural)]
pub enum Aliasing {
    Explicit,
    Implicit,
}

/// The rule on how table aliases are introduced.
#[derive(Debug, Clone, Copy)]
pub struct RuleAL01 {
    pub aliasing: Aliasing,
}

impl Default for RuleAL01 {
    fn default() -> (r: RuleAL01)
        ensures
            r.aliasing == Aliasing::Explicit,
    {
        RuleAL01 { aliasing: Aliasing::Explicit }
    }
}

impl RuleAL01 {
    /// The rule with another setting.
    pub fn aliasing(self, aliasing: Aliasing) -> (r: RuleAL01)
        ensures
            r.aliasing == aliasing,
    {
        let mut this = self;
        this.aliasing = aliasing;
        this
    }
}

/// The rule on table aliases that are never used.
#[derive(Debug, Default, Clone, Copy)]
pub struct RuleAL05 {}

/// The rule on the capitalisation of unquoted identifiers.
#[derive(Clone, Debug)]
pub struct RuleCP02 {
    pub capitalisation_policy: String,
    pub unquoted_identifiers_policy: String,
}

impl Default for RuleCP02 {
    fn default() -> (r: RuleCP02)
        ensures
            r.capitalisation_policy@ == "consistent"@,
            r.unquoted_identifiers_policy@ == "all"@,
    {
        RuleCP02 {
            capitalisation_policy: copy_str("consistent"),
            unquoted_identifiers_policy: copy_str("all"),
        }
    }
}

/// The rule on indentation.
#[derive(Default, Debug, Clone, Copy)]
pub struct RuleLT02 {}

/// The rule on where operators stand when a line is broken.
#[derive(Debug, Default, Clone, Copy)]
pub struct RuleLT03 {}

/// The rule on where set operators stand.
#[derive(Debug, Default, Clone, Copy)]
pub struct RuleLT11;

/// The rule that a file begins with neither new lines nor white space.
#[derive(Debug, Default, Clone, Copy)]
pub struct RuleLT13;

/// The rule against `else null` in a case expression.
#[derive(Default, Debug, Clone, Copy)]
pub struct RuleST01;

} // verus!
