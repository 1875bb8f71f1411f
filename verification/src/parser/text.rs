//! Character- and byte-level facts shared by the parser stages.
//!
//! Strings are modelled by their character view; their bytes are the UTF-8
//! encoding `encode_utf8` of that view.

use vstd::prelude::*;
use vstd::utf8::*;

verus! {

broadcast use {vstd::utf8::encode_utf8_decode_utf8, vstd::utf8::encode_utf8_valid_utf8};

/// Appends one character to a `String`.
///
/// Trusted: calls `String::push`, which std documents as appending the
/// given `char` to the end of the string; the contract says exactly that of
/// the character view.
#[verifier::external_body]
pub(crate) fn push_char(s: &mut String, c: char)
    ensures
        final(s)@ == old(s)@.push(c),
{
    s.push(c);
}

/// A byte that encodes a whole character on its own.
pub open spec fn is_ascii_byte(b: u8) -> bool {
    b < 0x80
}

/// The UTF-8 encoding of a sequence is never shorter than the sequence.
pub proof fn lemma_encode_len(s: Seq<char>)
    ensures
        encode_utf8(s).len() >= s.len(),
    decreases s.len(),
{
    if s.len() > 0 {
        lemma_encode_len(s.drop_first());
    }
}

/// Encoding distributes over concatenation.
pub proof fn lemma_encode_concat(a: Seq<char>, b: Seq<char>)
    ensures
        encode_utf8(a + b) == encode_utf8(a) + encode_utf8(b),
    decreases a.len(),
{
    if a.len() == 0 {
        assert(a + b =~= b);
        assert(encode_utf8(a) + encode_utf8(b) =~= encode_utf8(b));
    } else {
        lemma_encode_concat(a.drop_first(), b);
        assert((a + b).drop_first() =~= a.drop_first() + b);
        assert(encode_utf8(a + b) =~= encode_utf8(a) + encode_utf8(b));
    }
}

/// The encoding of an ASCII sequence has one byte per character, equal to the character.
pub proof fn lemma_encode_ascii(s: Seq<char>)
    requires
        is_ascii_chars(s),
    ensures
        encode_utf8(s).len() == s.len(),
        forall|i: int| 0 <= i < s.len() ==> #[trigger] encode_utf8(s)[i] == s[i] as u8,
{
    is_ascii_chars_encode_utf8(s);
}

/// A position that follows the encoding of a prefix is a character boundary.
pub proof fn lemma_encode_prefix_boundary(a: Seq<char>, b: Seq<char>)
    ensures
        is_char_boundary(encode_utf8(a + b), encode_utf8(a).len() as int),
    decreases a.len(),
{
    lemma_encode_concat(a, b);
    if a.len() == 0 {
    } else {
        let bytes = encode_utf8(a + b);
        encode_utf8_first_scalar(a + b);
        lemma_encode_prefix_boundary(a.drop_first(), b);
        assert((a + b).drop_first() =~= a.drop_first() + b);
        assert(pop_first_scalar(bytes) =~= encode_utf8(a.drop_first() + b));
        lemma_encode_len(a);
        assert(encode_utf8(a).len() == encode_scalar(a[0] as u32).len() + encode_utf8(
            a.drop_first(),
        ).len());
        assert(encode_scalar(a[0] as u32).len() > 0);
    }
}

/// A prefix of ASCII characters is ASCII.
pub proof fn lemma_ascii_take(s: Seq<char>, n: int)
    requires
        0 <= n <= s.len(),
        forall|i: int| 0 <= i < n ==> '\0' <= #[trigger] s[i] <= '\u{7f}',
    ensures
        is_ascii_chars(s.take(n)),
{
    assert forall|i| 0 <= i < s.take(n).len() implies '\0' <= #[trigger] s.take(n)[i] <= '\u{7f}' by {
        assert(s.take(n)[i] == s[i]);
    }
}

/// Splitting a character sequence after an ASCII prefix: the split point is a
/// character boundary of the encoding, and the two byte parts encode the two
/// character parts.
pub proof fn lemma_ascii_prefix_split(s: Seq<char>, n: int)
    requires
        0 <= n <= s.len(),
        is_ascii_chars(s.take(n)),
    ensures
        is_char_boundary(encode_utf8(s), n),
        encode_utf8(s).subrange(0, n) == encode_utf8(s.take(n)),
        encode_utf8(s).subrange(n, encode_utf8(s).len() as int) == encode_utf8(s.skip(n)),
        decode_utf8(encode_utf8(s).subrange(n, encode_utf8(s).len() as int)) == s.skip(n),
{
    let a = s.take(n);
    let c = s.skip(n);
    assert(s =~= a + c);
    lemma_encode_ascii(a);
    lemma_encode_concat(a, c);
    lemma_encode_prefix_boundary(a, c);
    let b = encode_utf8(s);
    assert(b.subrange(0, n) =~= encode_utf8(a));
    assert(b.subrange(n, b.len() as int) =~= encode_utf8(c));
}

/// When the encoding of a sequence starts with an ASCII byte, that byte is
/// the first character, and the rest of the encoding encodes the rest.
pub proof fn lemma_first_byte(s: Seq<char>)
    requires
        encode_utf8(s).len() > 0,
        is_ascii_byte(encode_utf8(s)[0]),
    ensures
        s.len() > 0,
        s[0] as u32 == encode_utf8(s)[0] as u32,
        encode_utf8(s.drop_first()) == encode_utf8(s).drop_first(),
{
    if s.len() == 0 {
        assert(encode_utf8(s).len() == 0);
    }
    let x = s[0] as u32;
    char_is_scalar(s[0]);
    let b = encode_utf8(s);
    assert(b == encode_scalar(x) + encode_utf8(s.drop_first()));
    if has_width_1_encoding(x) {
        assert(b[0] == leading_byte_width_1(x));
        assert(((x & 0x7F) as u8) as u32 == x) by (bit_vector)
            requires
                x <= 0x7F,
        ;
        assert(b.drop_first() =~= encode_utf8(s.drop_first()));
    } else if has_width_2_encoding(x) {
        assert(b[0] == leading_byte_width_2(x));
        assert(0xC0 | ((x >> 6) & 0x1F) as u8 >= 0x80) by (bit_vector);
    } else if has_width_3_encoding(x) {
        assert(b[0] == leading_byte_width_3(x));
        assert(0xE0 | ((x >> 12) & 0x0F) as u8 >= 0x80) by (bit_vector);
    } else {
        assert(b[0] == leading_byte_width_4(x));
        assert(0xF0 | ((x >> 18) & 0x7) as u8 >= 0x80) by (bit_vector);
    }
}

} // verus!
