//! Small helpers on text.

use vstd::prelude::*;
use vstd::string::StringExecFns;
use vstd::utf8::is_char_boundary;

use crate::text::{byte_len, byte_slice, bytes_of, copy_str, slice_text};

verus! {

/// The message between two rows of hashes, so that it covers five lines.
pub fn frame_msg(msg: &str) -> (r: String)
    ensures
        r@ == "\n###\n#\n# "@ + msg@ + "\n#\n###"@,
{
    let mut out = copy_str("\n###\n#\n# ");
    out.append(msg);
    out.append("\n#\n###");
    out
}

/// The text cut down to its first `length` bytes, with three dots to show
/// that it was cut; a text that is no longer than that stays as it is.
pub fn curtail_string(s: &str, length: usize) -> (r: String)
    requires
        bytes_of(s@).len() > length ==> is_char_boundary(bytes_of(s@), length as int),
    ensures
        r@ == (if bytes_of(s@).len() > length {
            slice_text(s@, 0, length as int) + "..."@
        } else {
            s@
        }),
{
    if byte_len(s) > length {
        proof {
            vstd::utf8::encode_utf8_valid_utf8(s@);
            vstd::utf8::is_char_boundary_start_end_of_seq(bytes_of(s@));
        }
        match byte_slice(s, 0, length) {
            Some(head) => {
                let mut out = copy_str(head);
                out.append("...");
                out
            },
            None => {
                proof {
                    assert(false);
                }
                copy_str(s)
            },
        }
    } else {
        copy_str(s)
    }
}

/// Whether `sub` stands in `s` at offset `at`.
pub open spec fn occurs_at(sub: Seq<u8>, s: Seq<u8>, at: int) -> bool {
    0 <= at && at + sub.len() <= s.len() && s.subrange(at, at + sub.len()) == sub
}

/// The offsets from `from` on at which `sub` stands in `s`, found from left
/// to right, each search going on after the end of the last find.
pub open spec fn occurrences(sub: Seq<u8>, s: Seq<u8>, from: int) -> Seq<int>
    decreases s.len() - from,
{
    if from < 0 || sub.len() == 0 || from + sub.len() > s.len() {
        Seq::empty()
    } else if occurs_at(sub, s, from) {
        seq![from] + occurrences(sub, s, from + sub.len())
    } else {
        occurrences(sub, s, from + 1)
    }
}

/// Whether `sub` stands in `s` at offset `at`.
pub fn matches_at(sub: &[u8], s: &[u8], at: usize) -> (r: bool)
    requires
        at + sub@.len() <= s@.len(),
    ensures
        r == occurs_at(sub@, s@, at as int),
{
    let mut k: usize = 0;
    let n = s.len();
    while k < sub.len()
        invariant
            k <= sub@.len(),
            n == s@.len(),
            at + sub@.len() <= s@.len(),
            forall|j: int| 0 <= j < k ==> s@[at + j] == sub@[j],
        decreases sub.len() - k,
    {
        if s[at + k] != sub[k] {
            assert(s@.subrange(at as int, at + sub@.len())[k as int] != sub@[k as int]);
            return false;
        }
        k += 1;
    }
    assert(s@.subrange(at as int, at + sub@.len()) =~= sub@);
    true
}

/// All the byte offsets at which `substr` stands in `in_str`, without
/// overlap, from left to right; none where either is empty.
pub fn find_all(substr: &str, in_str: &str) -> (r: Vec<usize>)
    ensures
        r@.map_values(|x: usize| x as int) == occurrences(bytes_of(substr@), bytes_of(in_str@), 0),
{
    let sub = substr.as_bytes();
    let s = in_str.as_bytes();
    let mut out: Vec<usize> = Vec::new();
    let ghost all = occurrences(sub@, s@, 0);
    if sub.len() == 0 || s.len() == 0 || sub.len() > s.len() {
        assert(out@.map_values(|x: usize| x as int) =~= Seq::<int>::empty());
        return out;
    }
    let mut i: usize = 0;
    assert(out@.map_values(|x: usize| x as int) + occurrences(sub@, s@, 0) =~= all);
    while i <= s.len() - sub.len()
        invariant
            0 < sub@.len() <= s@.len(),
            all == occurrences(sub@, s@, 0),
            out@.map_values(|x: usize| x as int) + occurrences(sub@, s@, i as int) == all,
        decreases s.len() - i,
    {
        let ghost before = out@.map_values(|x: usize| x as int);
        if matches_at(sub, s, i) {
            out.push(i);
            assert(out@.map_values(|x: usize| x as int) =~= before.push(i as int));
            assert(before.push(i as int) + occurrences(sub@, s@, i + sub@.len()) =~= before + (
            seq![i as int] + occurrences(sub@, s@, i + sub@.len())));
            i += sub.len();
        } else {
            i += 1;
        }
    }
    assert(occurrences(sub@, s@, i as int) =~= Seq::<int>::empty());
    assert(out@.map_values(|x: usize| x as int) + Seq::<int>::empty() =~= out@.map_values(
        |x: usize| x as int,
    ));
    out
}

} // verus!
