//! Raw segments: text with a place, before it has a kind.

use vstd::prelude::*;

use crate::markers::PositionMarker;
use crate::segment::SourceFix;

verus! {

#[derive(Debug)]
pub struct RawSegment {
    pub raw: Option<String>,
    pub position_marker: Option<PositionMarker>,
}

impl RawSegment {
    /// A raw segment of the text at the place. What else is given plays no
    /// part yet.
    pub fn new(
        raw: Option<String>,
        position_marker: Option<PositionMarker>,
        _type: Option<String>,
        _instance_types: Option<Vec<String>>,
        _trim_start: Option<Vec<String>>,
        _trim_cars: Option<Vec<String>>,
        _source_fixes: Option<Vec<SourceFix>>,
        _uuid: Option<String>,
    ) -> (r: RawSegment)
        ensures
            r.raw == raw,
            r.position_marker == position_marker,
    {
        RawSegment { position_marker, raw }
    }

    pub fn get_type(&self) -> (r: &'static str)
        ensures
            r@ == "raw"@,
    {
        "raw"
    }

    /// A raw segment counts as code.
    pub fn is_code(&self) -> (r: bool)
        ensures
            r,
    {
        true
    }

    pub fn is_comment(&self) -> (r: bool)
        ensures
            !r,
    {
        false
    }

    pub fn is_whitespace(&self) -> (r: bool)
        ensures
            !r,
    {
        false
    }

    pub fn get_raw(&self) -> (r: Option<String>)
        ensures
            r == self.raw,
    {
        match &self.raw {
            Some(s) => Some(s.clone()),
            None => None,
        }
    }

    pub fn get_pos_maker(&self) -> (r: Option<PositionMarker>)
        ensures
            r == self.position_marker,
    {
        match &self.position_marker {
            Some(m) => Some(m.copy()),
            None => None,
        }
    }
}

} // verus!
