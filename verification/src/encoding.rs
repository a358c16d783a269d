//! Facts that carry a statement about the bytes of a string over to its
//! characters, and back.

use vstd::prelude::*;
use vstd::utf8::*;

verus! {

/// Encoding goes piece by piece: the bytes of a concatenation are the bytes of
/// its parts, in order.
pub proof fn lemma_encode_concat(a: Seq<char>, b: Seq<char>)
    ensures
        encode_utf8(a + b) == encode_utf8(a) + encode_utf8(b),
    decreases a.len(),
{
    if a.len() == 0 {
        assert(a + b == b);
        assert(encode_utf8(a) + encode_utf8(b) == encode_utf8(b));
    } else {
        assert((a + b).drop_first() == a.drop_first() + b);
        lemma_encode_concat(a.drop_first(), b);
        assert(encode_utf8(a + b) == encode_scalar(a[0] as u32) + (encode_utf8(a.drop_first())
            + encode_utf8(b)));
    }
}

/// A character below 128 is encoded as the one byte of the same number.
pub proof fn lemma_encode_ascii(c: char)
    requires
        c as u32 <= 0x7f,
    ensures
        encode_utf8(seq![c]) == seq![c as u8],
{
    let scalar = c as u32;
    assert(leading_byte_width_1(scalar) == scalar as u8) by (bit_vector)
        requires
            scalar <= 0x7f,
    ;
    reveal_with_fuel(encode_utf8, 2);
    assert(seq![c].drop_first() == Seq::<char>::empty());
    assert(encode_scalar(scalar) + Seq::<u8>::empty() == seq![c as u8]);
}

/// Two texts with the same bytes are the same text.
pub proof fn lemma_encode_injective(a: Seq<char>, b: Seq<char>)
    requires
        encode_utf8(a) == encode_utf8(b),
    ensures
        a == b,
{
    encode_utf8_decode_utf8(a);
    encode_utf8_decode_utf8(b);
}

/// Only the empty text has no bytes.
pub proof fn lemma_encode_nonempty(chars: Seq<char>)
    requires
        chars.len() > 0,
    ensures
        encode_utf8(chars).len() > 0,
{
    assert(encode_scalar(chars[0] as u32).len() > 0);
}

/// A character below 128 at position `i` shows as its own byte somewhere in
/// the encoding.
pub proof fn lemma_ascii_char_has_byte(chars: Seq<char>, i: int)
    requires
        0 <= i < chars.len(),
        chars[i] as u32 <= 0x7f,
    ensures
        encode_utf8(chars).contains(chars[i] as u8),
{
    let before = chars.take(i);
    let after = chars.skip(i + 1);
    assert(chars == before + seq![chars[i]] + after);
    lemma_encode_concat(before + seq![chars[i]], after);
    lemma_encode_concat(before, seq![chars[i]]);
    lemma_encode_ascii(chars[i]);
    let bytes = encode_utf8(chars);
    let at = encode_utf8(before).len() as int;
    assert(bytes[at] == chars[i] as u8);
}

/// Where a text closes with a character below 128, its bytes close with the
/// byte of the same number.
pub proof fn lemma_ascii_last_byte(chars: Seq<char>)
    requires
        chars.len() > 0,
        chars.last() as u32 <= 0x7f,
    ensures
        encode_utf8(chars).len() > 0,
        encode_utf8(chars).last() == chars.last() as u8,
{
    assert(chars == chars.drop_last() + seq![chars.last()]);
    lemma_encode_concat(chars.drop_last(), seq![chars.last()]);
    lemma_encode_ascii(chars.last());
}

/// Where the bytes of a text open with a byte below 128, that byte is a
/// whole character: the next one starts at byte 1.
pub proof fn lemma_ascii_first_byte(chars: Seq<char>)
    requires
        encode_utf8(chars).len() > 0,
        encode_utf8(chars)[0] <= 0x7f,
    ensures
        is_char_boundary(encode_utf8(chars), 1),
{
    encode_utf8_valid_utf8(chars);
    reveal_with_fuel(is_char_boundary, 2);
}

/// The first byte of a well-formed encoding starts a character.
pub proof fn lemma_first_byte_leads(bytes: Seq<u8>)
    requires
        valid_utf8(bytes),
        bytes.len() > 0,
    ensures
        !is_continuation_byte(bytes[0]),
{
}

/// A well-formed encoding that opens another one ends where a character of
/// the longer one ends.
pub proof fn lemma_valid_prefix_boundary(bytes: Seq<u8>, prefix: Seq<u8>)
    requires
        valid_utf8(bytes),
        valid_utf8(prefix),
        prefix.is_prefix_of(bytes),
    ensures
        is_char_boundary(bytes, prefix.len() as int),
    decreases prefix.len(),
{
    if prefix.len() > 0 {
        assert(prefix[0] == bytes[0]);
        let width = length_of_first_scalar(prefix);
        assert(width == length_of_first_scalar(bytes));
        assert(pop_first_scalar(prefix).is_prefix_of(pop_first_scalar(bytes)));
        lemma_valid_prefix_boundary(pop_first_scalar(bytes), pop_first_scalar(prefix));
    }
}

} // verus!
