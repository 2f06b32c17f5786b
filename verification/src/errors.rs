//! What is reported of a file: violations, with the place they are at.

use std::ops::Range;
use vstd::prelude::*;

use crate::segment::ErasedSegment;
use crate::templater::sat_add;
use crate::text::copy_str;

verus! {

/// The rule that a violation is a violation of.
#[derive(Clone, Debug)]
pub struct RuleInfo {
    pub code: String,
    pub name: String,
    pub description: String,
}

impl RuleInfo {
    pub fn copy(&self) -> (r: RuleInfo)
        ensures
            r == *self,
    {
        RuleInfo {
            code: self.code.clone(),
            name: self.name.clone(),
            description: self.description.clone(),
        }
    }
}

/// A violation, at a line and a column of the source.
#[derive(Clone, Debug)]
pub struct SQLBaseError {
    pub fatal: bool,
    pub ignore: bool,
    pub warning: bool,
    pub line_no: usize,
    pub line_pos: usize,
    pub description: String,
    pub rule: Option<RuleInfo>,
    pub source_slice: Range<usize>,
}

impl SQLBaseError {
    pub fn new() -> (r: SQLBaseError)
        ensures
            !r.fatal && !r.ignore && !r.warning,
            r.line_no == 0 && r.line_pos == 0,
            r.description@.len() == 0,
            r.rule is None,
            r.source_slice == (0usize..0usize),
    {
        SQLBaseError {
            fatal: false,
            ignore: false,
            warning: false,
            line_no: 0,
            line_pos: 0,
            description: String::new(),
            rule: None,
            source_slice: 0..0,
        }
    }

    /// The code of the rule, or `????` where no rule is named.
    pub fn rule_code(&self) -> (r: String)
        ensures
            r@ == (match self.rule {
                Some(rule) => rule.code@,
                None => "????"@,
            }),
    {
        match &self.rule {
            Some(rule) => rule.code.clone(),
            None => copy_str("????"),
        }
    }

    pub fn desc(&self) -> (r: &str)
        ensures
            r@ == self.description@,
    {
        self.description.as_str()
    }

    pub fn copy(&self) -> (r: SQLBaseError)
        ensures
            r == *self,
    {
        SQLBaseError {
            fatal: self.fatal,
            ignore: self.ignore,
            warning: self.warning,
            line_no: self.line_no,
            line_pos: self.line_pos,
            description: self.description.clone(),
            rule: match &self.rule {
                Some(r) => Some(r.copy()),
                None => None,
            },
            source_slice: self.source_slice.start..self.source_slice.end,
        }
    }
}

/// A violation of a rule, at a segment.
#[derive(Clone, Debug)]
pub struct SQLLintError {
    pub base: SQLBaseError,
}

impl SQLLintError {
    /// A violation at `segment`: at the line and column of the source on
    /// which the segment starts.
    pub fn new(description: &str, segment: &ErasedSegment) -> (r: SQLLintError)
        requires
            segment@.marker is Some,
        ensures
            r.base.description@ == description@,
            r.base.rule is None,
            !r.base.fatal && !r.base.ignore && !r.base.warning,
            r.base.source_slice == segment@.marker->0.source_slice,
            r.base.line_no == sat_add(
                segment@.marker->0.templated_file.spec_line_pos(
                    segment@.marker->0.source_slice.start as int,
                    true,
                ).0,
                0,
            ),
            r.base.line_pos == sat_add(
                segment@.marker->0.templated_file.spec_line_pos(
                    segment@.marker->0.source_slice.start as int,
                    true,
                ).1,
                0,
            ),
    {
        let (line_no, line_pos, slice) = match segment.get_position_marker() {
            Some(m) => {
                let (a, b) = m.source_position();
                (a, b, m.source_slice.start..m.source_slice.end)
            },
            None => (0, 0, 0..0),
        };
        SQLLintError {
            base: SQLBaseError {
                fatal: false,
                ignore: false,
                warning: false,
                line_no,
                line_pos,
                description: copy_str(description),
                rule: None,
                source_slice: slice,
            },
        }
    }

    /// The same violation, of the rule `rule`.
    pub fn with_rule(self, rule: RuleInfo) -> (r: SQLLintError)
        ensures
            r.base.rule == Some(rule),
            r.base.description == self.base.description,
            r.base.line_no == self.base.line_no,
            r.base.line_pos == self.base.line_pos,
            r.base.source_slice == self.base.source_slice,
            r.base.fatal == self.base.fatal,
            r.base.ignore == self.base.ignore,
            r.base.warning == self.base.warning,
    {
        let SQLBaseError {
            fatal,
            ignore,
            warning,
            line_no,
            line_pos,
            description,
            rule: _,
            source_slice,
        } = self.base;
        SQLLintError {
            base: SQLBaseError {
                fatal,
                ignore,
                warning,
                line_no,
                line_pos,
                description,
                rule: Some(rule),
                source_slice,
            },
        }
    }

    pub fn to_base(&self) -> (r: SQLBaseError)
        ensures
            r == self.base,
    {
        self.base.copy()
    }
}

/// A stretch of the text that no lexer matched.
#[derive(Clone, Debug)]
pub struct SQLLexError {
    pub message: String,
    pub source_slice: Range<usize>,
}

/// What kept a run of tokens from being parsed.
#[derive(Clone, Debug)]
pub struct SQLParseError {
    pub description: String,
    pub segment: Option<ErasedSegment>,
}

impl SQLParseError {
    pub fn new(description: String) -> (r: SQLParseError)
        ensures
            r.description == description,
            r.segment is None,
    {
        SQLParseError { description, segment: None }
    }
}

/// A value that a function cannot work on.
#[derive(Clone, Debug)]
pub struct ValueError {
    pub message: String,
}

impl ValueError {
    pub fn new(message: String) -> (r: ValueError)
        ensures
            r.message == message,
    {
        ValueError { message }
    }
}

} // verus!
