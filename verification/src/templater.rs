//! What a templater hands over: the source text, the text it expands to, and
//! how the ranges of the one map to ranges of the other.

use std::ops::Range;
use std::rc::Rc;
use vstd::prelude::*;

use crate::text::{
    byte_len, bytes_of, copy_str, last_newline_before, lemma_newlines_bounds, newlines_before,
    scan_newlines, str_eq,
};

verus! {

/// A slice of the source text as the templater saw it, tagged with what it is
/// (`literal`, `templated`, `comment`, `block_start`, ...).
#[derive(Clone, Debug)]
pub struct RawFileSlice {
    pub raw: String,
    pub slice_type: String,
    pub source_idx: usize,
    pub slice_subtype: Option<String>,
    pub block_idx: usize,
}

/// `a + b`, or the largest `usize` where that does not fit.
pub open spec fn sat_add(a: int, b: int) -> int {
    if a + b > usize::MAX {
        usize::MAX as int
    } else {
        a + b
    }
}

impl RawFileSlice {
    pub fn new(
        raw: String,
        slice_type: String,
        source_idx: usize,
        slice_subtype: Option<String>,
        block_idx: Option<usize>,
    ) -> (r: RawFileSlice)
        ensures
            r.raw == raw,
            r.slice_type == slice_type,
            r.source_idx == source_idx,
            r.slice_subtype == slice_subtype,
            r.block_idx == (match block_idx {
                Some(b) => b,
                None => 0,
            }),
    {
        RawFileSlice {
            raw,
            slice_type,
            source_idx,
            slice_subtype,
            block_idx: match block_idx {
                Some(b) => b,
                None => 0,
            },
        }
    }

    /// Where the slice ends in the source text.
    pub open spec fn spec_end_source_idx(&self) -> int {
        sat_add(self.source_idx as int, bytes_of(self.raw@).len() as int)
    }

    pub fn end_source_idx(&self) -> (r: usize)
        ensures
            r == self.spec_end_source_idx(),
    {
        self.source_idx.saturating_add(byte_len(self.raw.as_str()))
    }

    /// The range of source text that the slice covers.
    pub fn source_slice(&self) -> (r: Range<usize>)
        ensures
            r.start == self.source_idx,
            r.end == self.spec_end_source_idx(),
    {
        self.source_idx..self.end_source_idx()
    }

    /// A slice that exists in the source only: a template comment or a
    /// block tag, which leaves nothing in the templated text.
    pub open spec fn spec_is_source_only_slice(&self) -> bool {
        self.slice_type@ == "comment"@ || self.slice_type@ == "block_end"@ || self.slice_type@
            == "block_start"@ || self.slice_type@ == "block_mid"@
    }

    pub fn is_source_only_slice(&self) -> (r: bool)
        ensures
            r == self.spec_is_source_only_slice(),
    {
        let t = self.slice_type.as_str();
        str_eq(t, "comment") || str_eq(t, "block_end") || str_eq(t, "block_start") || str_eq(
            t,
            "block_mid",
        )
    }

    pub open spec fn spec_is_literal(&self) -> bool {
        self.slice_type@ == "literal"@
    }

    pub fn is_literal(&self) -> (r: bool)
        ensures
            r == self.spec_is_literal(),
    {
        str_eq(self.slice_type.as_str(), "literal")
    }

    pub open spec fn spec_is_templated(&self) -> bool {
        self.slice_type@ == "templated"@
    }

    pub fn is_templated(&self) -> (r: bool)
        ensures
            r == self.spec_is_templated(),
    {
        str_eq(self.slice_type.as_str(), "templated")
    }

    pub fn copy(&self) -> (r: RawFileSlice)
        ensures
            r == *self,
    {
        RawFileSlice {
            raw: self.raw.clone(),
            slice_type: self.slice_type.clone(),
            source_idx: self.source_idx,
            slice_subtype: match &self.slice_subtype {
                Some(s) => Some(s.clone()),
                None => None,
            },
            block_idx: self.block_idx,
        }
    }

    /// Same place, same kind, same text.
    pub open spec fn spec_same(&self, other: &RawFileSlice) -> bool {
        &&& self.raw@ == other.raw@
        &&& self.slice_type@ == other.slice_type@
        &&& self.source_idx == other.source_idx
        &&& self.block_idx == other.block_idx
    }

    pub fn same(&self, other: &RawFileSlice) -> (r: bool)
        ensures
            r == self.spec_same(other),
    {
        str_eq(self.raw.as_str(), other.raw.as_str()) && str_eq(
            self.slice_type.as_str(),
            other.slice_type.as_str(),
        ) && self.source_idx == other.source_idx && self.block_idx == other.block_idx
    }
}

/// A slice of the templated text, with the range of source it came from.
#[derive(Clone, Debug)]
pub struct TemplatedFileSlice {
    pub slice_type: String,
    pub source_slice: Range<usize>,
    pub templated_slice: Range<usize>,
}

impl TemplatedFileSlice {
    pub fn new(slice_type: &str, source_slice: Range<usize>, templated_slice: Range<usize>) -> (r:
        TemplatedFileSlice)
        ensures
            r.slice_type@ == slice_type@,
            r.source_slice == source_slice,
            r.templated_slice == templated_slice,
    {
        TemplatedFileSlice { slice_type: copy_str(slice_type), source_slice, templated_slice }
    }
}

/// Why a templated file was refused.
#[derive(Debug, Clone, Copy, PartialEq, Eq, Structural)]
pub enum TemplateError {
    /// No slices were given although the templated text differs from the source.
    Unsliced,
    /// The raw slices do not tile the source text.
    RawSlicesMismatch,
    /// The first templated slice does not start at offset 0.
    FirstSliceNotAtStart,
    /// A templated slice does not start where the one before it ends.
    NonContiguous,
    /// The last templated slice does not end where the templated text ends.
    LengthMismatch,
}

#[derive(Clone, Debug)]
pub struct TemplatedFileInner {
    pub source_str: String,
    pub f_name: String,
    pub templated_str: String,
    pub sliced_file: Vec<TemplatedFileSlice>,
    pub raw_sliced: Vec<RawFileSlice>,
}

/// A source file after templating. Cheap to copy: the copies share the data.
#[derive(Clone, Debug)]
pub struct TemplatedFile {
    pub inner: Rc<TemplatedFileInner>,
}

/// The raw slices `0..upto` tile the source text from offset `from` on:
/// each begins where the one before it ends. Gives the offset reached.
pub open spec fn raw_tiling_end(raw: Seq<RawFileSlice>, upto: int) -> Option<int>
    decreases upto,
{
    if upto <= 0 || upto > raw.len() {
        Some(0)
    } else {
        match raw_tiling_end(raw, upto - 1) {
            Some(pos) => if raw[upto - 1].source_idx == pos && pos + bytes_of(
                raw[upto - 1].raw@,
            ).len() <= usize::MAX {
                Some(pos + bytes_of(raw[upto - 1].raw@).len())
            } else {
                None
            },
            None => None,
        }
    }
}

/// The raw slices tile the whole of a source text of `len` bytes.
pub open spec fn raw_slices_tile(raw: Seq<RawFileSlice>, len: int) -> bool {
    raw_tiling_end(raw, raw.len() as int) == Some(len)
}

/// The templated slices are contiguous from offset 0 to `len`.
pub open spec fn templated_slices_contiguous(sliced: Seq<TemplatedFileSlice>, len: int) -> bool {
    &&& sliced.len() > 0 ==> sliced[0].templated_slice.start == 0
    &&& forall|i: int|
        0 < i < sliced.len() ==> (#[trigger] sliced[i]).templated_slice.start == sliced[i
            - 1].templated_slice.end
    &&& sliced.len() > 0 ==> sliced[sliced.len() - 1].templated_slice.end == len
}

/// The first of the checks on the templated slices that fails, in the order
/// in which they are made, if any does.
pub open spec fn contiguity_error(sliced: Seq<TemplatedFileSlice>, len: int) -> Option<
    TemplateError,
> {
    if sliced.len() > 0 && sliced[0].templated_slice.start != 0 {
        Some(TemplateError::FirstSliceNotAtStart)
    } else if exists|i: int|
        0 < i < sliced.len() && (#[trigger] sliced[i]).templated_slice.start != sliced[i
            - 1].templated_slice.end {
        Some(TemplateError::NonContiguous)
    } else if sliced.len() > 0 && sliced[sliced.len() - 1].templated_slice.end != len {
        Some(TemplateError::LengthMismatch)
    } else {
        None
    }
}

/// Why the parts of a templated file are refused, if they are. Slices that
/// are not given are made up to fit and cannot fail.
pub open spec fn parts_error(
    source: Seq<char>,
    templated: Seq<char>,
    sliced: Option<Seq<TemplatedFileSlice>>,
    raw: Option<Seq<RawFileSlice>>,
) -> Option<TemplateError> {
    if sliced is None && templated != source {
        Some(TemplateError::Unsliced)
    } else if raw is Some && !raw_slices_tile(raw->0, bytes_of(source).len() as int) {
        Some(TemplateError::RawSlicesMismatch)
    } else if sliced is Some {
        contiguity_error(sliced->0, bytes_of(templated).len() as int)
    } else {
        None
    }
}

pub open spec fn opt_view<T>(v: Option<Vec<T>>) -> Option<Seq<T>> {
    match v {
        Some(v) => Some(v@),
        None => None,
    }
}

impl TemplatedFile {
    pub open spec fn source(&self) -> Seq<char> {
        self.inner.source_str@
    }

    pub open spec fn templated(&self) -> Seq<char> {
        self.inner.templated_str@
    }

    pub open spec fn raw_sliced(&self) -> Seq<RawFileSlice> {
        self.inner.raw_sliced@
    }

    pub open spec fn sliced_file(&self) -> Seq<TemplatedFileSlice> {
        self.inner.sliced_file@
    }

    /// The slices agree with the two texts.
    pub open spec fn wf(&self) -> bool {
        &&& raw_slices_tile(self.raw_sliced(), bytes_of(self.source()).len() as int)
        &&& contiguity_error(self.sliced_file(), bytes_of(self.templated()).len() as int) is None
    }

    /// A file without templating: the templated text is the source text, and
    /// one literal slice covers the whole of it.
    pub fn from_string(raw: String) -> (r: TemplatedFile)
        ensures
            r.source() == raw@,
            r.templated() == raw@,
            r.raw_sliced().len() == 1,
            r.raw_sliced()[0].raw@ == raw@,
            r.raw_sliced()[0].spec_is_literal(),
            r.raw_sliced()[0].source_idx == 0,
            r.sliced_file().len() == 1,
            r.sliced_file()[0].slice_type@ == "literal"@,
            r.sliced_file()[0].source_slice == (0usize..(bytes_of(raw@).len() as usize)),
            r.sliced_file()[0].templated_slice == (0usize..(bytes_of(raw@).len() as usize)),
            r.wf(),
    {
        let len = byte_len(raw.as_str());
        let mut sliced: Vec<TemplatedFileSlice> = Vec::new();
        sliced.push(TemplatedFileSlice::new("literal", 0..len, 0..len));
        let mut raw_sliced: Vec<RawFileSlice> = Vec::new();
        raw_sliced.push(RawFileSlice::new(raw.clone(), copy_str("literal"), 0, None, None));
        let templated = raw.clone();
        let r = TemplatedFile {
            inner: Rc::new(
                TemplatedFileInner {
                    source_str: raw,
                    f_name: copy_str("<string>"),
                    templated_str: templated,
                    sliced_file: sliced,
                    raw_sliced,
                },
            ),
        };
        proof {
            reveal_with_fuel(raw_tiling_end, 2);
            assert(raw_slices_tile(r.raw_sliced(), bytes_of(r.source()).len() as int));
        }
        r
    }

    /// A templated file from its parts. Without slices the templated text
    /// must be the source text. The slices are checked against the texts.
    #[verifier::loop_isolation(false)]
    pub fn new(
        source_str: String,
        f_name: String,
        input_templated_str: Option<String>,
        input_sliced_file: Option<Vec<TemplatedFileSlice>>,
        input_raw_sliced: Option<Vec<RawFileSlice>>,
    ) -> (r: Result<TemplatedFile, TemplateError>)
        ensures
            r is Err <==> parts_error(
                source_str@,
                match input_templated_str {
                    Some(t) => t@,
                    None => source_str@,
                },
                opt_view(input_sliced_file),
                opt_view(input_raw_sliced),
            ) is Some,
            r matches Err(e) ==> parts_error(
                source_str@,
                match input_templated_str {
                    Some(t) => t@,
                    None => source_str@,
                },
                opt_view(input_sliced_file),
                opt_view(input_raw_sliced),
            ) == Some(e),
            r matches Ok(f) ==> {
                &&& f.wf()
                &&& f.source() == source_str@
                &&& f.templated() == (match input_templated_str {
                    Some(t) => t@,
                    None => source_str@,
                })
                &&& input_sliced_file matches Some(s) ==> f.sliced_file() == s@
                &&& input_raw_sliced matches Some(s) ==> f.raw_sliced() == s@
            },
    {
        let templated_str = match input_templated_str {
            Some(t) => t,
            None => source_str.clone(),
        };
        let len = byte_len(source_str.as_str());
        let sliced_file = match input_sliced_file {
            Some(s) => s,
            None => {
                if !str_eq(templated_str.as_str(), source_str.as_str()) {
                    return Err(TemplateError::Unsliced);
                }
                let mut s: Vec<TemplatedFileSlice> = Vec::new();
                s.push(TemplatedFileSlice::new("literal", 0..len, 0..len));
                s
            },
        };
        let raw_sliced = match input_raw_sliced {
            Some(s) => s,
            None => {
                let mut s: Vec<RawFileSlice> = Vec::new();
                s.push(RawFileSlice::new(source_str.clone(), copy_str("literal"), 0, None, None));
                proof {
                    reveal_with_fuel(raw_tiling_end, 2);
                    assert(raw_slices_tile(s@, len as int));
                }
                s
            },
        };
        // The raw slices must tile the source text.
        let mut pos: usize = 0;
        let mut i: usize = 0;
        while i < raw_sliced.len()
            invariant
                i <= raw_sliced@.len(),
                raw_tiling_end(raw_sliced@, i as int) == Some(pos as int),
            decreases raw_sliced.len() - i,
        {
            let n = byte_len(raw_sliced[i].raw.as_str());
            if raw_sliced[i].source_idx != pos || n > usize::MAX - pos {
                proof {
                    assert(raw_tiling_end(raw_sliced@, i + 1) is None);
                    lemma_tiling_fails_on(raw_sliced@, i + 1, raw_sliced@.len() as int);
                }
                return Err(TemplateError::RawSlicesMismatch);
            }
            pos = pos + n;
            i += 1;
        }
        if pos != len {
            return Err(TemplateError::RawSlicesMismatch);
        }
        // The templated slices must be contiguous from the start to the end.
        let tlen = byte_len(templated_str.as_str());
        if sliced_file.len() > 0 {
            if sliced_file[0].templated_slice.start != 0 {
                return Err(TemplateError::FirstSliceNotAtStart);
            }
            let mut j: usize = 1;
            while j < sliced_file.len()
                invariant
                    1 <= j <= sliced_file@.len(),
                    forall|k: int|
                        0 < k < j ==> (#[trigger] sliced_file@[k]).templated_slice.start
                            == sliced_file@[k - 1].templated_slice.end,
                decreases sliced_file.len() - j,
            {
                if sliced_file[j].templated_slice.start != sliced_file[j - 1].templated_slice.end {
                    return Err(TemplateError::NonContiguous);
                }
                j += 1;
            }
            if sliced_file[sliced_file.len() - 1].templated_slice.end != tlen {
                return Err(TemplateError::LengthMismatch);
            }
        }
        Ok(
            TemplatedFile {
                inner: Rc::new(
                    TemplatedFileInner {
                        source_str,
                        f_name,
                        templated_str,
                        sliced_file,
                        raw_sliced,
                    },
                ),
            },
        )
    }

    pub fn copy(&self) -> (r: TemplatedFile)
        ensures
            r == *self,
    {
        TemplatedFile { inner: self.inner.clone() }
    }

    pub fn source_str(&self) -> (r: &str)
        ensures
            r@ == self.source(),
    {
        self.inner.source_str.as_str()
    }

    pub fn templated_str(&self) -> (r: &str)
        ensures
            r@ == self.templated(),
    {
        self.inner.templated_str.as_str()
    }

    /// The line and the column (both counted from 1) of the byte offset
    /// `char_pos` of the source text (`source`) or of the templated text.
    /// An offset past the end counts as the end.
    pub open spec fn spec_line_pos(&self, char_pos: int, source: bool) -> (int, int) {
        let b = bytes_of(
            if source {
                self.source()
            } else {
                self.templated()
            },
        );
        let upto = if char_pos > b.len() {
            b.len() as int
        } else {
            char_pos
        };
        (newlines_before(b, upto) as int + 1, char_pos - last_newline_before(b, upto))
    }

    pub fn get_line_pos_of_char_pos(&self, char_pos: usize, source: bool) -> (r: (usize, usize))
        ensures
            r.0 == sat_add(self.spec_line_pos(char_pos as int, source).0, 0),
            r.1 == sat_add(self.spec_line_pos(char_pos as int, source).1, 0),
    {
        let s = if source {
            self.inner.source_str.as_str()
        } else {
            self.inner.templated_str.as_str()
        };
        let n = byte_len(s);
        let upto = if char_pos > n {
            n
        } else {
            char_pos
        };
        let (count, last) = scan_newlines(s, upto);
        proof {
            lemma_newlines_bounds(bytes_of(s@), upto as int);
        }
        match last {
            Some(k) => (count.saturating_add(1), char_pos - k),
            None => (count.saturating_add(1), char_pos.saturating_add(1)),
        }
    }
}

/// Once the tiling has failed at a slice it has failed for good.
pub proof fn lemma_tiling_fails_on(raw: Seq<RawFileSlice>, at: int, upto: int)
    requires
        0 < at <= upto <= raw.len(),
        raw_tiling_end(raw, at) is None,
    ensures
        raw_tiling_end(raw, upto) is None,
    decreases upto - at,
{
    if at < upto {
        lemma_tiling_fails_on(raw, at, upto - 1);
    }
}

} // verus!

verus! {

/// The verdict of the walk over the raw slices from slice `i` on, `acc` being
/// the verdict so far: a slice that begins at or before `start` decides
/// alone, one that begins inside the range must be literal too, and the walk
/// ends at the first slice that begins at or after `end`.
pub open spec fn literal_walk(raw: Seq<RawFileSlice>, start: int, end: int, i: int, acc: bool) -> bool
    decreases raw.len() - i,
{
    if i < 0 || i >= raw.len() {
        acc
    } else if raw[i].source_idx <= start {
        literal_walk(raw, start, end, i + 1, raw[i].spec_is_literal())
    } else if raw[i].source_idx >= end {
        acc
    } else {
        literal_walk(raw, start, end, i + 1, acc && raw[i].spec_is_literal())
    }
}

/// Whether slice `idx` is where the slices that span a range beginning at
/// `start` begin: the first slice whose successor begins after `start`.
pub open spec fn is_span_start(raw: Seq<RawFileSlice>, start: int, idx: int) -> bool {
    &&& 0 <= idx < raw.len()
    &&& forall|j: int| 0 <= j < idx ==> (#[trigger] raw[j + 1]).source_idx <= start
    &&& (idx + 1 == raw.len() || raw[idx + 1].source_idx > start)
}

/// Whether `span` slices from slice `idx` on reach the end of the range:
/// the least number, at least one, after which the next slice begins at or
/// after `end`.
pub open spec fn is_span_len(raw: Seq<RawFileSlice>, end: int, idx: int, span: int) -> bool {
    &&& 1 <= span
    &&& idx + span <= raw.len()
    &&& forall|k: int| 1 <= k < span ==> (#[trigger] raw[idx + k]).source_idx < end
    &&& (idx + span == raw.len() || raw[idx + span].source_idx >= end)
}

impl TemplatedFile {
    /// Whether the range of source text lies in literal text only. A file
    /// without raw slices is literal throughout, and so is an empty range.
    pub open spec fn spec_is_source_slice_literal(&self, source_slice: Range<usize>) -> bool {
        self.raw_sliced().len() == 0 || source_slice.start == source_slice.end || literal_walk(
            self.raw_sliced(),
            source_slice.start as int,
            source_slice.end as int,
            0,
            true,
        )
    }

    pub fn is_source_slice_literal(&self, source_slice: &Range<usize>) -> (r: bool)
        ensures
            r == self.spec_is_source_slice_literal(*source_slice),
    {
        if self.inner.raw_sliced.len() == 0 {
            return true;
        }
        if source_slice.start == source_slice.end {
            return true;
        }
        let mut is_literal = true;
        let mut i: usize = 0;
        while i < self.inner.raw_sliced.len()
            invariant
                i <= self.raw_sliced().len(),
                self.raw_sliced().len() > 0,
                source_slice.start != source_slice.end,
                literal_walk(
                    self.raw_sliced(),
                    source_slice.start as int,
                    source_slice.end as int,
                    0,
                    true,
                ) == literal_walk(
                    self.raw_sliced(),
                    source_slice.start as int,
                    source_slice.end as int,
                    i as int,
                    is_literal,
                ),
            decreases self.inner.raw_sliced.len() - i,
        {
            let raw_slice = &self.inner.raw_sliced[i];
            if raw_slice.source_idx <= source_slice.start {
                is_literal = raw_slice.is_literal();
            } else if raw_slice.source_idx >= source_slice.end {
                return is_literal;
            } else if !raw_slice.is_literal() {
                is_literal = false;
            }
            i += 1;
        }
        is_literal
    }

    /// The raw slices that exist in the source only, in their order.
    pub fn source_only_slices(&self) -> (r: Vec<RawFileSlice>)
        ensures
            r@ == self.raw_sliced().filter(|s: RawFileSlice| s.spec_is_source_only_slice()),
    {
        let ghost p = |s: RawFileSlice| s.spec_is_source_only_slice();
        let mut out: Vec<RawFileSlice> = Vec::new();
        let mut i: usize = 0;
        proof {
            crate::seqs::lemma_filter_empty(p);
            assert(self.raw_sliced().subrange(0, 0) =~= Seq::<RawFileSlice>::empty());
        }
        while i < self.inner.raw_sliced.len()
            invariant
                i <= self.raw_sliced().len(),
                p == (|s: RawFileSlice| s.spec_is_source_only_slice()),
                out@ == self.raw_sliced().subrange(0, i as int).filter(p),
            decreases self.inner.raw_sliced.len() - i,
        {
            proof {
                crate::seqs::lemma_filter_step(self.raw_sliced(), i as int, p);
            }
            if self.inner.raw_sliced[i].is_source_only_slice() {
                out.push(self.inner.raw_sliced[i].copy());
            }
            i += 1;
        }
        assert(self.raw_sliced().subrange(0, i as int) =~= self.raw_sliced());
        out
    }

    /// The raw slices that a range of source text touches: none where the
    /// range begins at or after the end of the last slice.
    pub fn raw_slices_spanning_source_slice(&self, source_slice: &Range<usize>) -> (r: Vec<
        RawFileSlice,
    >)
        requires
            self.raw_sliced().len() > 0,
        ensures
            source_slice.start >= self.raw_sliced().last().spec_end_source_idx() ==> r@.len() == 0,
            source_slice.start < self.raw_sliced().last().spec_end_source_idx() ==> exists|
                idx: int,
                span: int,
            |
                {
                    &&& is_span_start(self.raw_sliced(), source_slice.start as int, idx)
                    &&& is_span_len(self.raw_sliced(), source_slice.end as int, idx, span)
                    &&& r@ == self.raw_sliced().subrange(idx, idx + span)
                },
    {
        let raw = &self.inner.raw_sliced;
        let n = raw.len();
        if source_slice.start >= raw[n - 1].end_source_idx() {
            return Vec::new();
        }
        let mut idx: usize = 0;
        while idx + 1 < n && raw[idx + 1].source_idx <= source_slice.start
            invariant
                n == raw@.len(),
                idx < n,
                forall|j: int| 0 <= j < idx ==> (#[trigger] raw@[j + 1]).source_idx
                    <= source_slice.start,
            decreases n - idx,
        {
            idx += 1;
        }
        let mut span: usize = 1;
        while idx + span < n && raw[idx + span].source_idx < source_slice.end
            invariant
                n == raw@.len(),
                idx < n,
                1 <= span,
                idx + span <= n,
                forall|k: int| 1 <= k < span ==> (#[trigger] raw@[idx + k]).source_idx
                    < source_slice.end,
            decreases n - span,
        {
            span += 1;
        }
        let mut out: Vec<RawFileSlice> = Vec::new();
        let mut k: usize = 0;
        while k < span
            invariant
                n == raw@.len(),
                idx + span <= n,
                k <= span,
                out@ == raw@.subrange(idx as int, idx + k),
            decreases span - k,
        {
            out.push(raw[idx + k].copy());
            k += 1;
            assert(out@ =~= raw@.subrange(idx as int, idx + k));
        }
        proof {
            assert(is_span_start(self.raw_sliced(), source_slice.start as int, idx as int));
            assert(is_span_len(self.raw_sliced(), source_slice.end as int, idx as int, span as int));
        }
        out
    }
}

} // verus!
