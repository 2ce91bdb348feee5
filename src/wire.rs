//! Facts about the UTF-8 encoding of text that holds ASCII delimiters.
use vstd::prelude::*;
use vstd::utf8::{char_u32_cast, encode_scalar, encode_utf8};

verus! {

/// No character of `s` is `c`.
pub open spec fn free_of(s: Seq<char>, c: char) -> bool {
    forall|i: int| 0 <= i < s.len() ==> s[i] != c
}

proof fn lemma_high_bits(y: u8)
    ensures
        (0x80u8 | y) >= 0x80u8,
        (0xC0u8 | y) >= 0x80u8,
        (0xE0u8 | y) >= 0x80u8,
        (0xF0u8 | y) >= 0x80u8,
{
    assert((0x80u8 | y) >= 0x80u8) by (bit_vector);
    assert((0xC0u8 | y) >= 0x80u8) by (bit_vector);
    assert((0xE0u8 | y) >= 0x80u8) by (bit_vector);
    assert((0xF0u8 | y) >= 0x80u8) by (bit_vector);
}

/// A character below 0x80 is encoded as itself; every byte of any other
/// character's encoding is at least 0x80.
pub proof fn lemma_scalar_bytes(v: u32)
    ensures
        v <= 0x7F ==> encode_scalar(v) == seq![v as u8],
        v > 0x7F ==> forall|j: int| 0 <= j < encode_scalar(v).len() ==> encode_scalar(v)[j] >= 0x80,
{
    if v <= 0x7F {
        assert((v & 0x7F) as u8 == v as u8) by (bit_vector)
            requires
                v <= 0x7F,
        ;
    } else {
        lemma_high_bits(((v >> 6) & 0x1F) as u8);
        lemma_high_bits(((v >> 12) & 0x0F) as u8);
        lemma_high_bits(((v >> 18) & 0x7) as u8);
        lemma_high_bits((v & 0x3F) as u8);
        lemma_high_bits(((v >> 6) & 0x3F) as u8);
        lemma_high_bits(((v >> 12) & 0x3F) as u8);
    }
}

/// Encoding distributes over concatenation.
pub proof fn lemma_encode_concat(a: Seq<char>, b: Seq<char>)
    ensures
        encode_utf8(a + b) == encode_utf8(a) + encode_utf8(b),
    decreases a.len(),
{
    if a.len() > 0 {
        assert((a + b).drop_first() =~= a.drop_first() + b);
        lemma_encode_concat(a.drop_first(), b);
        assert((a + b)[0] == a[0]);
    } else {
        assert(a + b =~= b);
    }
}

/// Without the character `c` (below 0x80) in `s`, its byte is not in the encoding of `s`.
pub proof fn lemma_encode_free_of(s: Seq<char>, c: char)
    requires
        free_of(s, c),
        (c as u32) < 0x80,
    ensures
        forall|j: int| 0 <= j < encode_utf8(s).len() ==> encode_utf8(s)[j] != (c as u32) as u8,
    decreases s.len(),
{
    if s.len() > 0 {
        lemma_scalar_bytes(s[0] as u32);
        lemma_encode_free_of(s.drop_first(), c);
        let h = encode_scalar(s[0] as u32);
        let t = encode_utf8(s.drop_first());
        assert(encode_utf8(s) == h + t);
        assert forall|j: int| 0 <= j < encode_utf8(s).len() implies encode_utf8(s)[j] != (c as u32)
            as u8 by {
            if j < h.len() {
                if (s[0] as u32) <= 0x7F {
                    assert(s[0] != c);
                    char_u32_cast(s[0], s[0] as u32);
                    char_u32_cast(c, c as u32);
                    assert((s[0] as u32) != (c as u32));
                }
            } else {
                assert(encode_utf8(s)[j] == t[j - h.len()]);
            }
        }
    }
}

} // verus!
