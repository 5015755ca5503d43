//! Facts on text and its UTF-8 encoding.

use vstd::prelude::*;
use vstd::utf8::*;

use crate::path::{DOT, SLASH};

verus! {

/// Encoding goes character by character.
pub proof fn encoding_of_concatenation(a: Seq<char>, b: Seq<char>)
    ensures
        encode_utf8(a + b) == encode_utf8(a) + encode_utf8(b),
    decreases a.len(),
{
    if a.len() == 0 {
        assert(a + b =~= b);
        assert(encode_utf8(a) + encode_utf8(b) =~= encode_utf8(b));
    } else {
        encoding_of_concatenation(a.drop_first(), b);
        assert((a + b).drop_first() =~= a.drop_first() + b);
        assert(encode_utf8(a + b) =~= encode_utf8(a) + encode_utf8(b));
    }
}

/// Only the separator character has the separator byte in its encoding.
proof fn lemma_scalar_slash(c: char)
    ensures
        encode_scalar(c as u32).contains(SLASH) <==> c == '/',
        c == '/' ==> encode_scalar(c as u32) == seq![SLASH],
        c == '.' ==> encode_scalar(c as u32) == seq![DOT],
        encode_scalar(c as u32).len() > 0,
{
    let s = c as u32;
    char_is_scalar(c);
    let bytes = encode_scalar(s);
    if has_width_1_encoding(s) {
        assert((s & 0x7F) as u8 == s) by (bit_vector)
            requires
                s <= 0x7F,
        ;
        assert(bytes =~= seq![s as u8]);
        assert(bytes[0] == leading_byte_width_1(s));
        if c == '/' {
            assert(bytes[0] == SLASH);
        }
    } else {
        assert(forall|x: u8| (0xC0 | x) >= 0x80) by (bit_vector);
        assert(forall|x: u8| (0xE0 | x) >= 0x80) by (bit_vector);
        assert(forall|x: u8| (0xF0 | x) >= 0x80) by (bit_vector);
        assert(forall|x: u8| (0x80 | x) >= 0x80) by (bit_vector);
        assert forall|i: int| 0 <= i < bytes.len() implies bytes[i] >= 0x80 by {}
    }
}

/// The separator byte is in an encoding exactly when the separator is in the
/// text.
pub proof fn slashes_stay_slashes(chars: Seq<char>)
    ensures
        encode_utf8(chars).contains(SLASH) <==> chars.contains('/'),
    decreases chars.len(),
{
    if chars.len() > 0 {
        let first = encode_scalar(chars[0] as u32);
        let rest = chars.drop_first();
        let bytes = encode_utf8(chars);
        lemma_scalar_slash(chars[0]);
        slashes_stay_slashes(rest);
        assert(bytes == first + encode_utf8(rest));
        if chars.contains('/') {
            let i = choose|i: int| 0 <= i < chars.len() && chars[i] == '/';
            if i == 0 {
                let j = choose|j: int| 0 <= j < first.len() && first[j] == SLASH;
                assert(bytes[j] == SLASH);
            } else {
                assert(rest[i - 1] == '/');
                let j = choose|j: int|
                    0 <= j < encode_utf8(rest).len() && encode_utf8(rest)[j] == SLASH;
                assert(bytes[first.len() + j] == SLASH);
            }
        }
        if bytes.contains(SLASH) {
            let j = choose|j: int| 0 <= j < bytes.len() && bytes[j] == SLASH;
            if j < first.len() {
                assert(first[j] == SLASH);
                assert(chars[0] == '/');
            } else {
                assert(encode_utf8(rest)[j - first.len()] == SLASH);
                let i = choose|i: int| 0 <= i < rest.len() && rest[i] == '/';
                assert(chars[i + 1] == '/');
            }
        }
    }
}

/// An encoding starts with the separator byte exactly when the text starts with
/// the separator.
pub proof fn first_slash_stays_first(chars: Seq<char>)
    ensures
        encode_utf8(chars).len() > 0 <==> chars.len() > 0,
        encode_utf8(chars).len() > 0 && encode_utf8(chars)[0] == SLASH <==> chars.len() > 0
            && chars[0] == '/',
{
    if chars.len() > 0 {
        let first = encode_scalar(chars[0] as u32);
        lemma_scalar_slash(chars[0]);
        assert(encode_utf8(chars)[0] == first[0]);
        if first[0] == SLASH {
            assert(first.contains(first[0]));
        }
    }
}

/// The encodings of the separator and of a dot.
pub proof fn encoding_of_marks()
    ensures
        encode_utf8(seq!['/']) == seq![SLASH],
        encode_utf8(seq!['.']) == seq![DOT],
{
    reveal_with_fuel(encode_utf8, 2);
    lemma_scalar_slash('/');
    lemma_scalar_slash('.');
    assert(seq!['/'].drop_first() =~= seq![]);
    assert(seq!['.'].drop_first() =~= seq![]);
    assert(encode_utf8(seq!['/']) =~= seq![SLASH]);
    assert(encode_utf8(seq!['.']) =~= seq![DOT]);
}

} // verus!
