//! Text as bytes: offsets into source and templated text are byte offsets,
//! and a slice of text is cut at character boundaries only.

use vstd::prelude::*;
use vstd::string::StringSliceAdditionalSpecFns;
use vstd::utf8::{
    decode_utf8, encode_scalar, encode_utf8, encode_utf8_decode_utf8, encode_utf8_valid_utf8, is_char_boundary, is_char_boundary_iff_not_is_continuation_byte, is_char_boundary_start_end_of_seq,
};

verus! {

/// The byte of a line feed.
pub const NEWLINE: u8 = 10;

/// The bytes that the text `s` is stored as.
pub open spec fn bytes_of(s: Seq<char>) -> Seq<u8> {
    encode_utf8(s)
}

/// Whether `start..end` is a range of bytes of `s` that begins and ends at
/// a character boundary.
pub open spec fn valid_byte_range(s: Seq<char>, start: int, end: int) -> bool {
    &&& 0 <= start <= end <= bytes_of(s).len()
    &&& is_char_boundary(bytes_of(s), start)
    &&& is_char_boundary(bytes_of(s), end)
}

/// The text held by the bytes `start..end` of `s`.
pub open spec fn slice_text(s: Seq<char>, start: int, end: int) -> Seq<char> {
    decode_utf8(bytes_of(s).subrange(start, end))
}

/// Concatenating texts concatenates their bytes.
pub proof fn lemma_bytes_of_concat(a: Seq<char>, b: Seq<char>)
    ensures
        bytes_of(a + b) == bytes_of(a) + bytes_of(b),
    decreases a.len(),
{
    if a.len() == 0 {
        assert(a + b =~= b);
        assert(bytes_of(a) + bytes_of(b) =~= bytes_of(b));
    } else {
        assert((a + b).drop_first() =~= a.drop_first() + b);
        lemma_bytes_of_concat(a.drop_first(), b);
        assert((a + b)[0] == a[0]);
        assert(bytes_of(a + b) == encode_scalar((a + b)[0] as u32) + bytes_of(
            (a + b).drop_first(),
        ));
        assert(bytes_of(a) == encode_scalar(a[0] as u32) + bytes_of(a.drop_first()));
        assert(bytes_of(a + b) =~= bytes_of(a) + bytes_of(b));
    }
}

/// The empty text has no bytes, and a text without bytes is empty.
pub proof fn lemma_bytes_of_empty(a: Seq<char>)
    ensures
        (bytes_of(a).len() == 0) <==> a.len() == 0,
{
    if a.len() > 0 {
        assert(bytes_of(a) == encode_scalar(a[0] as u32) + bytes_of(a.drop_first()));
        assert(encode_scalar(a[0] as u32).len() >= 1);
    }
}

/// The number of bytes of `s`.
pub fn byte_len(s: &str) -> (r: usize)
    ensures
        r == bytes_of(s@).len(),
{
    s.as_bytes().len()
}

/// The bytes `start..end` of `s` as text: `None` where the range runs past
/// the end of `s`, is reversed, or cuts a character in two.
pub fn byte_slice<'a>(s: &'a str, start: usize, end: usize) -> (r: Option<&'a str>)
    ensures
        r is Some <==> valid_byte_range(s@, start as int, end as int),
        r matches Some(t) ==> t@ == slice_text(s@, start as int, end as int) && bytes_of(t@)
            == bytes_of(s@).subrange(start as int, end as int),
{
    proof {
        encode_utf8_valid_utf8(s@);
    }
    if start > end || end > byte_len(s) {
        return None;
    }
    if !s.is_char_boundary(end) || !s.is_char_boundary(start) {
        return None;
    }
    let (head, _) = s.split_at(end);
    proof {
        encode_utf8_valid_utf8(head@);
        assert(head.spec_bytes() =~= s.spec_bytes().subrange(0, end as int));
        if start == end {
            is_char_boundary_start_end_of_seq(head.spec_bytes());
        } else {
            is_char_boundary_iff_not_is_continuation_byte(s.spec_bytes(), start as int);
            is_char_boundary_iff_not_is_continuation_byte(head.spec_bytes(), start as int);
            assert(head.spec_bytes()[start as int] == s.spec_bytes()[start as int]);
        }
    }
    let (_, mid) = head.split_at(start);
    proof {
        assert(mid.spec_bytes() =~= s.spec_bytes().subrange(start as int, end as int));
        encode_utf8_decode_utf8(mid@);
    }
    Some(mid)
}

/// How many of the first `upto` bytes of `b` are line feeds.
pub open spec fn newlines_before(b: Seq<u8>, upto: int) -> nat
    decreases upto,
{
    if upto <= 0 || upto > b.len() {
        0
    } else {
        newlines_before(b, upto - 1) + if b[upto - 1] == NEWLINE {
            1nat
        } else {
            0nat
        }
    }
}

/// The index of the last line feed among the first `upto` bytes of `b`,
/// or `-1` where there is none.
pub open spec fn last_newline_before(b: Seq<u8>, upto: int) -> int
    decreases upto,
{
    if upto <= 0 || upto > b.len() {
        -1
    } else if b[upto - 1] == NEWLINE {
        upto - 1
    } else {
        last_newline_before(b, upto - 1)
    }
}

pub proof fn lemma_newlines_bounds(b: Seq<u8>, upto: int)
    requires
        0 <= upto <= b.len(),
    ensures
        newlines_before(b, upto) <= upto,
        -1 <= last_newline_before(b, upto) < upto,
        (newlines_before(b, upto) == 0) <==> last_newline_before(b, upto) == -1,
    decreases upto,
{
    if upto > 0 {
        lemma_newlines_bounds(b, upto - 1);
    }
}

/// Counts the line feeds among the first `upto` bytes of `s` and finds the
/// last of them.
pub fn scan_newlines(s: &str, upto: usize) -> (r: (usize, Option<usize>))
    requires
        upto <= bytes_of(s@).len(),
    ensures
        r.0 == newlines_before(bytes_of(s@), upto as int),
        match r.1 {
            Some(i) => i == last_newline_before(bytes_of(s@), upto as int),
            None => last_newline_before(bytes_of(s@), upto as int) == -1,
        },
{
    let bytes = s.as_bytes();
    let mut count: usize = 0;
    let mut last: Option<usize> = None;
    let mut i: usize = 0;
    while i < upto
        invariant
            i <= upto <= bytes@.len(),
            bytes@ == bytes_of(s@),
            count == newlines_before(bytes@, i as int),
            count <= i,
            match last {
                Some(k) => k == last_newline_before(bytes@, i as int),
                None => last_newline_before(bytes@, i as int) == -1,
            },
        decreases upto - i,
    {
        if bytes[i] == NEWLINE {
            count += 1;
            last = Some(i);
        }
        i += 1;
    }
    (count, last)
}

} // verus!

verus! {

/// Two texts with the same bytes are the same text.
pub proof fn lemma_bytes_of_injective(a: Seq<char>, b: Seq<char>)
    requires
        bytes_of(a) == bytes_of(b),
    ensures
        a == b,
{
    encode_utf8_decode_utf8(a);
    encode_utf8_decode_utf8(b);
}

/// Whether two texts are the same.
pub fn str_eq(a: &str, b: &str) -> (r: bool)
    ensures
        r == (a@ == b@),
{
    let x = a.as_bytes();
    let y = b.as_bytes();
    if x.len() != y.len() {
        return false;
    }
    let mut i: usize = 0;
    while i < x.len()
        invariant
            i <= x@.len(),
            x@.len() == y@.len(),
            forall|j: int| 0 <= j < i ==> x@[j] == y@[j],
            x@ == bytes_of(a@),
            y@ == bytes_of(b@),
        decreases x.len() - i,
    {
        if x[i] != y[i] {
            return false;
        }
        i += 1;
    }
    proof {
        assert(x@ =~= y@);
        lemma_bytes_of_injective(a@, b@);
    }
    true
}

/// A copy of the text `s`.
pub fn copy_str(s: &str) -> (r: String)
    ensures
        r@ == s@,
{
    s.to_owned()
}

} // verus!

verus! {

/// The text cut in two after its first `n` bytes: `None` where `n` is past
/// the end or cuts a character in two.
pub fn split_text<'a>(s: &'a str, n: usize) -> (r: Option<(&'a str, &'a str)>)
    ensures
        r is Some <==> (n <= bytes_of(s@).len() && is_char_boundary(bytes_of(s@), n as int)),
        r matches Some((head, tail)) ==> s@ == head@ + tail@ && bytes_of(head@).len() == n
            && bytes_of(tail@).len() == bytes_of(s@).len() - n,
{
    proof {
        encode_utf8_valid_utf8(s@);
    }
    if n > byte_len(s) || !s.is_char_boundary(n) {
        return None;
    }
    let (head, tail) = s.split_at(n);
    proof {
        vstd::utf8::decode_utf8_split(bytes_of(s@), n as int);
        encode_utf8_decode_utf8(s@);
        encode_utf8_decode_utf8(head@);
        encode_utf8_decode_utf8(tail@);
        assert(head.spec_bytes() =~= bytes_of(s@).subrange(0, n as int));
        assert(tail.spec_bytes() =~= bytes_of(s@).subrange(n as int, bytes_of(s@).len() as int));
    }
    Some((head, tail))
}

/// Whether the bytes of `s` begin with those of `prefix`.
pub open spec fn starts_with(s: Seq<char>, prefix: Seq<char>) -> bool {
    bytes_of(prefix).len() <= bytes_of(s).len() && bytes_of(s).subrange(
        0,
        bytes_of(prefix).len() as int,
    ) == bytes_of(prefix)
}

/// Whether `s` begins with `prefix`.
pub fn str_starts_with(s: &str, prefix: &str) -> (r: bool)
    ensures
        r == starts_with(s@, prefix@),
{
    let x = s.as_bytes();
    let p = prefix.as_bytes();
    if p.len() > x.len() {
        return false;
    }
    let mut i: usize = 0;
    while i < p.len()
        invariant
            i <= p@.len() <= x@.len(),
            x@ == bytes_of(s@),
            p@ == bytes_of(prefix@),
            forall|j: int| 0 <= j < i ==> x@[j] == p@[j],
        decreases p.len() - i,
    {
        if x[i] != p[i] {
            assert(x@.subrange(0, p@.len() as int)[i as int] != p@[i as int]);
            return false;
        }
        i += 1;
    }
    assert(x@.subrange(0, p@.len() as int) =~= p@);
    true
}

/// The length in bytes of the first character of a text that is not empty.
pub fn first_char_len(s: &str) -> (n: usize)
    requires
        s@.len() > 0,
    ensures
        0 < n <= bytes_of(s@).len(),
        is_char_boundary(bytes_of(s@), n as int),
{
    proof {
        encode_utf8_valid_utf8(s@);
        is_char_boundary_start_end_of_seq(bytes_of(s@));
        lemma_bytes_of_empty(s@);
    }
    let len = byte_len(s);
    let mut n: usize = 1;
    while n < len && !s.is_char_boundary(n)
        invariant
            1 <= n <= len,
            len == bytes_of(s@).len(),
            is_char_boundary(bytes_of(s@), len as int),
        decreases len - n,
    {
        n += 1;
    }
    n
}

} // verus!
