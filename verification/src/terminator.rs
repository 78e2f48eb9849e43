//! Where a byte first stands in a sequence, and text whose encoding is free
//! of the NUL byte.

use vstd::prelude::*;
use vstd::utf8::{encode_scalar, encode_utf8};

verus! {

/// Where `byte` first occurs in `s`; the length of `s` where it does not occur.
pub open spec fn position_of(s: Seq<u8>, byte: u8) -> int
    decreases s.len(),
{
    if s.len() == 0 || s[0] == byte {
        0
    } else {
        1 + position_of(s.skip(1), byte)
    }
}

/// `position_of(s, byte)` lies within `0..=s.len()`, no byte before it is
/// `byte`, and where it is an index of `s` the byte there is `byte`.
pub proof fn lemma_position_of(s: Seq<u8>, byte: u8)
    ensures
        0 <= position_of(s, byte) <= s.len(),
        forall|k: int| 0 <= k < position_of(s, byte) ==> s[k] != byte,
        position_of(s, byte) < s.len() ==> s[position_of(s, byte)] == byte,
    decreases s.len(),
{
    if s.len() == 0 || s[0] == byte {
    } else {
        let t = s.skip(1);
        lemma_position_of(t, byte);
        assert forall|k: int| 0 <= k < position_of(s, byte) implies s[k] != byte by {
            if k > 0 {
                assert(s[k] == t[k - 1]);
            }
        }
    }
}

/// The first place where `byte` stands in `s`, with no `byte` before it, is
/// `position_of(s, byte)`.
pub proof fn lemma_position_of_first(s: Seq<u8>, byte: u8, n: int)
    requires
        0 <= n < s.len(),
        s[n] == byte,
        forall|k: int| 0 <= k < n ==> s[k] != byte,
    ensures
        position_of(s, byte) == n,
{
    lemma_position_of(s, byte);
}

/// No byte of the UTF-8 encoding of a scalar other than zero is zero.
proof fn lemma_encode_scalar_no_nul(c: u32)
    requires
        c != 0,
    ensures
        forall|k: int| 0 <= k < encode_scalar(c).len() ==> encode_scalar(c)[k] != 0u8,
{
    assert(0 < c <= 0x7F ==> (c & 0x7F) as u8 != 0u8) by (bit_vector);
    assert forall|x: u8|
        0xC0u8 | x != 0u8 && 0xE0u8 | x != 0u8 && 0xF0u8 | x != 0u8 && 0x80u8 | x != 0u8 by {
        assert(0xC0u8 | x != 0u8 && 0xE0u8 | x != 0u8 && 0xF0u8 | x != 0u8 && 0x80u8 | x != 0u8)
            by (bit_vector);
    }
}

/// The UTF-8 encoding of text without a NUL character holds no NUL byte.
pub proof fn lemma_encode_utf8_no_nul(text: Seq<char>)
    requires
        forall|k: int| 0 <= k < text.len() ==> text[k] != '\0',
    ensures
        forall|k: int| 0 <= k < encode_utf8(text).len() ==> encode_utf8(text)[k] != 0u8,
    decreases text.len(),
{
    if text.len() > 0 {
        let head = encode_scalar(text[0] as u32);
        let rest = text.drop_first();
        assert(text[0] as u32 != 0u32) by {
            if text[0] as u32 == 0u32 {
                vstd::utf8::char_u32_cast(text[0], 0u32);
                vstd::utf8::char_u32_cast('\0', 0u32);
            }
        }
        lemma_encode_scalar_no_nul(text[0] as u32);
        lemma_encode_utf8_no_nul(rest);
        assert(encode_utf8(text) == head + encode_utf8(rest));
    }
}

} // verus!
