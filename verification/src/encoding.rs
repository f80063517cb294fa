//! Facts about UTF-8: encoding distributes over concatenation, ASCII encodes
//! as itself and only as itself, and a valid sequence can be cut next to an
//! ASCII byte.

use vstd::prelude::*;
use vstd::utf8::{
    char_is_scalar, decode_utf8, decode_utf8_encode_utf8, encode_scalar, encode_utf8,
    encode_utf8_decode_utf8, encode_utf8_valid_utf8, is_char_boundary, length_of_first_scalar,
    pop_first_scalar, valid_utf8, valid_utf8_concat, valid_utf8_split,
};

verus! {

/// Encoding a concatenation is concatenating the encodings.
pub proof fn lemma_encode_concat(a: Seq<char>, b: Seq<char>)
    ensures
        encode_utf8(a + b) == encode_utf8(a) + encode_utf8(b),
    decreases a.len(),
{
    if a.len() == 0 {
        assert(a + b =~= b);
        assert(encode_utf8(a) =~= Seq::<u8>::empty());
        assert(encode_utf8(a) + encode_utf8(b) =~= encode_utf8(b));
    } else {
        lemma_encode_concat(a.drop_first(), b);
        assert((a + b).drop_first() =~= a.drop_first() + b);
        assert((a + b)[0] == a[0]);
        assert(encode_utf8(a + b) =~= encode_scalar(a[0] as u32) + (encode_utf8(a.drop_first())
            + encode_utf8(b)));
    }
}

/// An ASCII character encodes as the one byte of its value; any other
/// character encodes as bytes that are all at least 0x80.
pub proof fn lemma_encode_scalar_bytes(c: char)
    ensures
        (c as u32) < 0x80 ==> encode_scalar(c as u32) == seq![(c as u32) as u8],
        (c as u32) >= 0x80 ==> encode_scalar(c as u32).len() >= 2 && forall|k: int|
            0 <= k < encode_scalar(c as u32).len() ==> #[trigger] encode_scalar(c as u32)[k] >= 0x80,
{
    char_is_scalar(c);
    let v = c as u32;
    if v < 0x80 {
        assert((v & 0x7F) as u8 == v as u8) by (bit_vector)
            requires
                v < 0x80,
        ;
    } else {
        assert(forall|x: u8| #[trigger] (0xC0u8 | x) >= 0x80) by (bit_vector);
        assert(forall|x: u8| #[trigger] (0xE0u8 | x) >= 0x80) by (bit_vector);
        assert(forall|x: u8| #[trigger] (0xF0u8 | x) >= 0x80) by (bit_vector);
        assert(forall|x: u8| #[trigger] (0x80u8 | x) >= 0x80) by (bit_vector);
    }
}

/// The first byte of the encoding of a nonempty text is an ASCII value `b`
/// exactly when the text starts with the character `b`.
pub proof fn lemma_encode_first_byte(s: Seq<char>, b: u8)
    requires
        s.len() > 0,
        b < 0x80,
    ensures
        encode_utf8(s).len() > 0,
        encode_utf8(s)[0] == b <==> (s[0] as u32) == b as u32,
{
    lemma_encode_scalar_bytes(s[0]);
    assert(encode_utf8(s) == encode_scalar(s[0] as u32) + encode_utf8(s.drop_first()));
    assert(encode_utf8(s)[0] == encode_scalar(s[0] as u32)[0]);
}

/// Decoding a concatenation of valid sequences is concatenating the decoded
/// texts, and the concatenation is valid.
pub proof fn lemma_decode_concat(x: Seq<u8>, y: Seq<u8>)
    requires
        valid_utf8(x),
        valid_utf8(y),
    ensures
        valid_utf8(x + y),
        decode_utf8(x + y) == decode_utf8(x) + decode_utf8(y),
{
    valid_utf8_concat(x, y);
    decode_utf8_encode_utf8(x);
    decode_utf8_encode_utf8(y);
    lemma_encode_concat(decode_utf8(x), decode_utf8(y));
    encode_utf8_decode_utf8(decode_utf8(x) + decode_utf8(y));
}

/// A text encodes validly and decodes back to itself.
pub proof fn lemma_encode_round_trip(s: Seq<char>)
    ensures
        valid_utf8(encode_utf8(s)),
        decode_utf8(encode_utf8(s)) == s,
{
    encode_utf8_valid_utf8(s);
    encode_utf8_decode_utf8(s);
}

/// In a valid sequence, the end, and any index next to an ASCII byte, is a
/// character boundary.
pub proof fn lemma_ascii_boundary(bytes: Seq<u8>, i: int)
    requires
        valid_utf8(bytes),
        0 <= i <= bytes.len(),
        i == bytes.len() || bytes[i] < 0x80 || (i > 0 && bytes[i - 1] < 0x80),
    ensures
        is_char_boundary(bytes, i),
    decreases bytes.len(),
{
    if i > 0 {
        let w = length_of_first_scalar(bytes);
        let rest = pop_first_scalar(bytes);
        assert(1 <= w <= 4 && w <= bytes.len());
        assert(w <= i) by {
            if w > i {
                if i < bytes.len() && bytes[i] < 0x80 {
                    assert(bytes[i] >= 0x80);
                } else if bytes[i - 1] < 0x80 {
                    assert(bytes[0] >= 0x80 || i - 1 > 0);
                    assert(bytes[i - 1] >= 0x80);
                }
            }
        }
        assert(rest.len() == bytes.len() - w);
        if i - w > 0 && i - w < rest.len() {
            assert(rest[i - w] == bytes[i]);
            assert(rest[i - w - 1] == bytes[i - 1]);
        } else if i - w > 0 {
            assert(rest[i - w - 1] == bytes[i - 1]);
        }
        assert(valid_utf8(rest));
        if i - w > 0 {
            lemma_ascii_boundary(rest, i - w);
        }
        assert(is_char_boundary(rest, i - w));
        assert(is_char_boundary(bytes, i) == is_char_boundary(rest, i - w));
    }
}

/// A valid sequence cut next to an ASCII byte leaves two valid sequences.
pub proof fn lemma_ascii_split(bytes: Seq<u8>, i: int)
    requires
        valid_utf8(bytes),
        0 <= i <= bytes.len(),
        i == bytes.len() || bytes[i] < 0x80 || (i > 0 && bytes[i - 1] < 0x80),
    ensures
        valid_utf8(bytes.subrange(0, i)),
        valid_utf8(bytes.subrange(i, bytes.len() as int)),
{
    lemma_ascii_boundary(bytes, i);
    valid_utf8_split(bytes, i);
}

} // verus!
