//! UTF-8 character-boundary helpers for safe byte-indexed truncation.

use vstd::prelude::*;

verus! {

use crate::text::str_len;
use vstd::string::StringSliceAdditionalSpecFns;
use vstd::utf8::is_char_boundary;

/// The largest UTF-8 character boundary of `s` that is not greater than
/// `idx`, as a byte index.
///
/// If `idx >= s.len()`, the result is `s.len()`; otherwise the index walks
/// left until it lands on a character boundary.
pub fn floor_char_boundary(s: &str, idx: usize) -> (r: usize)
    ensures
        r <= s.spec_bytes().len(),
        idx < s.spec_bytes().len() ==> r <= idx,
        idx >= s.spec_bytes().len() ==> r == s.spec_bytes().len(),
        is_char_boundary(s.spec_bytes(), r as int),
        forall|j: int| r < j <= idx && j < s.spec_bytes().len()
            ==> !is_char_boundary(s.spec_bytes(), j),
{
    proof {
        vstd::utf8::encode_utf8_valid_utf8(s@);
        vstd::utf8::is_char_boundary_start_end_of_seq(s.spec_bytes());
    }
    let n = str_len(s);
    if idx >= n {
        return n;
    }

    let mut i = idx;
    while i > 0 && !s.is_char_boundary(i)
        invariant
            vstd::utf8::valid_utf8(s.spec_bytes()),
            i <= idx < s.spec_bytes().len(),
            forall|j: int| i < j <= idx ==> !is_char_boundary(s.spec_bytes(), j),
        decreases i,
    {
        i = i - 1;
    }
    assert(i == 0 ==> is_char_boundary(s.spec_bytes(), 0int)) by {
        vstd::utf8::is_char_boundary_start_end_of_seq(s.spec_bytes());
    }
    i
}

} // verus!
