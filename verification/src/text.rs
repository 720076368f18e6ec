//! Byte offsets into UTF-8 source text, and cutting the text at them.
//!
//! Every offset the lexer reports lies on a character boundary, because every
//! token ends on an ASCII byte, on a newline, or at the end of what was lexed.
//! [`slice_text`] turns such a range back into a `String` whose UTF-8 encoding
//! is exactly the bytes of the range.

use vstd::prelude::*;
use vstd::string::StringSliceAdditionalSpecFns;
use vstd::utf8::*;

verus! {

broadcast use vstd::utf8::encode_utf8_valid_utf8;

/// `p` is the end of `s` or the start of a character in `s`.
pub open spec fn on_boundary(s: Seq<u8>, p: int) -> bool {
    p == s.len() || (0 <= p < s.len() && !is_continuation_byte(s[p]))
}

/// In valid UTF-8 a continuation byte is never preceded by an ASCII byte.
pub proof fn lemma_after_ascii(s: Seq<u8>, p: int)
    requires
        valid_utf8(s),
        0 < p <= s.len(),
        s[p - 1] < 128,
    ensures
        on_boundary(s, p),
    decreases s.len(),
{
    if p < s.len() {
        is_char_boundary_iff_not_is_continuation_byte(s, p - 1);
        let w = length_of_first_scalar(s);
        let rest = pop_first_scalar(s);
        if p - 1 >= w {
            assert(rest[p - 1 - w] == s[p - 1]);
            lemma_after_ascii(rest, p - w);
            assert(rest[p - w] == s[p]);
        } else if p < w {
            // `s[p - 1]` would be inside the first scalar, which starts with a byte >= 0xc0
            // when it is wider than one byte; an ASCII byte there is a one-byte scalar.
            assert(false);
        } else {
            // `p` starts the second scalar.
            is_char_boundary_iff_not_is_continuation_byte(rest, 0);
            assert(rest[0] == s[p]);
        }
    }
}

/// A boundary of valid UTF-8 is a character boundary.
pub proof fn lemma_boundary_is_char_boundary(s: Seq<u8>, p: int)
    requires
        valid_utf8(s),
        on_boundary(s, p),
    ensures
        is_char_boundary(s, p),
{
    if p == s.len() {
        is_char_boundary_start_end_of_seq(s);
    } else {
        is_char_boundary_iff_not_is_continuation_byte(s, p);
    }
}

/// The text of `input[start..end)`, for a range whose ends lie on character
/// boundaries.
pub fn slice_text(input: &str, start: usize, end: usize) -> (t: String)
    requires
        start <= end <= input.spec_bytes().len(),
        on_boundary(input.spec_bytes(), start as int),
        on_boundary(input.spec_bytes(), end as int),
    ensures
        encode_utf8(t@) == input.spec_bytes().subrange(start as int, end as int),
{
    let ghost s = input.spec_bytes();
    proof {
        lemma_boundary_is_char_boundary(s, start as int);
        valid_utf8_split(s, start as int);
    }
    let (_, rest) = input.split_at(start);
    let ghost r = rest.spec_bytes();
    proof {
        assert(r =~= s.subrange(start as int, s.len() as int));
        assert(on_boundary(r, (end - start) as int)) by {
            if end < s.len() {
                assert(r[(end - start) as int] == s[end as int]);
            }
        }
        lemma_boundary_is_char_boundary(r, (end - start) as int);
    }
    let (mid, _) = rest.split_at(end - start);
    proof {
        assert(mid.spec_bytes() =~= s.subrange(start as int, end as int));
    }
    mid.to_owned()
}

} // verus!
